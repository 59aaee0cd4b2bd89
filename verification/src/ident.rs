//! Unicode identifier classes and the Namecode encoding of arbitrary
//! strings as identifiers.
//!
//! The character classes come from the `unicode-ident` crate and the
//! encoding from the `namecode` crate; both are reached through the
//! functions of this module that call them.

use vstd::prelude::*;

verus! {

/// Whether `c` has the Unicode property XID_Start, as `unicode_ident`
/// decides it.
pub uninterp spec fn xid_start(c: char) -> bool;

/// Whether `c` has the Unicode property XID_Continue, as `unicode_ident`
/// decides it.
pub uninterp spec fn xid_continue(c: char) -> bool;

/// What `namecode::encode` returns for a string.
pub uninterp spec fn namecode_encoding(s: Seq<char>) -> Seq<char>;

/// What `namecode::decode` recovers from a string, where it succeeds.
pub uninterp spec fn namecode_decoding(s: Seq<char>) -> Option<Seq<char>>;

/// Whether an ASCII character is a letter.
pub open spec fn ascii_letter(c: char) -> bool {
    ('a' <= c && c <= 'z') || ('A' <= c && c <= 'Z')
}

/// The prefix that marks a Namecode-encoded string.
pub open spec fn has_namecode_prefix(s: Seq<char>) -> bool {
    s.len() >= 3 && s[0] == '_' && s[1] == 'N' && s[2] == '_'
}

/// Whether `c` is XID_Start: among ASCII characters exactly the letters.
pub open spec fn start_char(c: char) -> bool {
    if (c as int) < 128 {
        ascii_letter(c)
    } else {
        xid_start(c)
    }
}

/// Whether `c` is XID_Continue: among ASCII characters exactly the
/// letters, the digits and `_`.
pub open spec fn continue_char(c: char) -> bool {
    if (c as int) < 128 {
        ascii_letter(c) || ('0' <= c && c <= '9') || c == '_'
    } else {
        xid_continue(c)
    }
}

/// A UAX#31 identifier as Namecode reads it: an XID_Start character or an
/// underscore, followed by XID_Continue characters.
pub open spec fn xid_identifier(s: Seq<char>) -> bool {
    &&& s.len() > 0
    &&& (s[0] == '_' || start_char(s[0]))
    &&& forall|i: int| 1 <= i < s.len() ==> #[trigger] continue_char(s[i])
}

/// Whether `c` has the Unicode property XID_Start.
///
/// Calls `unicode_ident::is_xid_start`. The contract claims the result is
/// the class `xid_start`, and, from the crate's ASCII table, that an ASCII
/// character is in it exactly when it is a letter.
#[verifier::external_body]
pub(crate) fn is_xid_start(c: char) -> (r: bool)
    ensures
        r == xid_start(c),
        (c as int) < 128 ==> (r <==> ascii_letter(c)),
{
    unicode_ident::is_xid_start(c)
}

/// Whether `c` has the Unicode property XID_Continue.
///
/// Calls `unicode_ident::is_xid_continue`. The contract claims the result
/// is the class `xid_continue`, and, from the crate's ASCII table, that an
/// ASCII character is in it exactly when it is a letter, a digit or `_`.
#[verifier::external_body]
pub(crate) fn is_xid_continue(c: char) -> (r: bool)
    ensures
        r == xid_continue(c),
        (c as int) < 128 ==> (r <==> (ascii_letter(c) || ('0' <= c && c <= '9') || c == '_')),
{
    unicode_ident::is_xid_continue(c)
}

/// Whether Namecode encodes `s` rather than passing it through: a
/// non-empty string that is not an identifier or carries the prefix.
pub open spec fn needs_namecode(s: Seq<char>) -> bool {
    s.len() > 0 && (has_namecode_prefix(s) || !xid_identifier(s))
}

/// Whether `namecode::encode` returns on `s` in every build. A prefixed
/// input that decodes to a string needing encoding is returned as it is,
/// after a debug-build check that it is the canonical encoding of that
/// string; this holds it to a canonical encoding of an unprefixed string.
pub open spec fn namecode_encode_safe(s: Seq<char>) -> bool {
    (has_namecode_prefix(s) && namecode_decoding(s) is Some && needs_namecode(namecode_decoding(s)->Some_0)) ==> {
        let d = namecode_decoding(s)->Some_0;
        !has_namecode_prefix(d) && namecode_encoding(d) == s
    }
}

/// Encodes an arbitrary string as an identifier.
///
/// Calls `namecode::encode`. The contract claims what its documentation
/// and source show: the empty string and identifiers that do not start
/// with `_N_` pass through unchanged; any other output starts with `_N_`;
/// an unprefixed non-empty input gives a UAX#31 identifier (the encoder
/// emits the prefix, XID_Continue characters, `__` and base-36 digits);
/// an encoded unprefixed input decodes back to itself; and a prefixed
/// input that decodes to a string needing encoding is returned unchanged.
/// It says nothing of the form of other prefixed inputs' output. The
/// requirement leaves out the inputs on which the crate's debug-build
/// identity check could panic.
#[verifier::external_body]
pub(crate) fn namecode_encode(s: &str) -> (r: String)
    requires
        namecode_encode_safe(s@),
    ensures
        r@ == namecode_encoding(s@),
        s@.len() == 0 ==> r@.len() == 0,
        s@.len() > 0 && !has_namecode_prefix(s@) ==> xid_identifier(r@),
        xid_identifier(s@) && !has_namecode_prefix(s@) ==> r@ == s@,
        r@ == s@ || has_namecode_prefix(r@),
        s@.len() > 0 && !xid_identifier(s@) && !has_namecode_prefix(s@) ==> namecode_decoding(r@)
            == Some(s@),
        (has_namecode_prefix(s@) && namecode_decoding(s@) is Some && needs_namecode(namecode_decoding(s@)->Some_0))
            ==> r@ == s@,
{
    namecode::encode(s)
}

/// Whether `s` is a UAX#31 identifier as Namecode reads it.
///
/// Calls `namecode::is_xid_identifier`. The contract claims its result is
/// `xid_identifier`: its source tests the first character for `_` or
/// XID_Start and the rest for XID_Continue, with `unicode_ident`.
#[verifier::external_body]
pub(crate) fn namecode_is_identifier(s: &str) -> (r: bool)
    ensures
        r == xid_identifier(s@),
{
    namecode::is_xid_identifier(s)
}

/// Decodes a Namecode-encoded string.
///
/// Calls `namecode::decode`. `Err(None)` is its `NotEncoded` error, which
/// its source returns exactly when the input lacks the `_N_` prefix; any
/// other error comes back as `Err(Some(text))` with the error's display
/// text, about which the contract claims nothing. A success is the name
/// `namecode_decoding` of the input.
#[verifier::external_body]
pub(crate) fn namecode_decode(s: &str) -> (r: Result<String, Option<String>>)
    ensures
        (r == Err::<String, Option<String>>(None)) <==> !has_namecode_prefix(s@),
        r matches Ok(d) ==> namecode_decoding(s@) == Some(d@),
        r matches Err(Some(_)) ==> namecode_decoding(s@) is None,
{
    match namecode::decode(s) {
        Ok(d) => Ok(d),
        Err(namecode::DecodeError::NotEncoded) => Err(None),
        Err(e) => Err(Some(e.to_string())),
    }
}

} // verus!
