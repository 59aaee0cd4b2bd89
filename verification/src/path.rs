//! Paths with validated Unicode identifier components.
//!
//! A component is a UAX#31 identifier (an underscore prefix is allowed
//! when more identifier characters follow it) or a string of ASCII digits
//! (for array indexing). A path is a sequence of such components; its
//! string form separates them with `/`.

use vstd::prelude::*;

use crate::ident;
use crate::ident::{is_xid_continue, is_xid_start, namecode_decode, namecode_encode, namecode_is_identifier};
use crate::text;
use crate::text::{push_char, push_str, to_owned_string, u64_to_string, usize_to_string};

verus! {

// ---------------------------------------------------------------------
// The component grammar
// ---------------------------------------------------------------------

/// The message for a character that may not stand at index `i`.
pub open spec fn invalid_char_message(c: char, i: nat) -> Seq<char> {
    "invalid character '"@ + seq![c] + "' at index "@ + text::decimal(i)
}

/// The first index at or after `from` whose character is not XID_Continue,
/// or the length of `c` if there is none.
pub open spec fn first_non_continue(c: Seq<char>, from: nat) -> nat
    decreases c.len() - from,
{
    if from >= c.len() {
        c.len()
    } else if !ident::continue_char(c[from as int]) {
        from
    } else {
        first_non_continue(c, from + 1)
    }
}

/// What is wrong with the characters of `c` from index `from` on, if any.
pub open spec fn tail_problem(c: Seq<char>, from: nat) -> Option<Seq<char>> {
    let j = first_non_continue(c, from);
    if j < c.len() {
        Some(invalid_char_message(c[j as int], j))
    } else {
        None
    }
}

/// Why `c` is not a valid path component, or `None` if it is one.
pub open spec fn component_problem(c: Seq<char>) -> Option<Seq<char>> {
    if c.len() == 0 {
        Some("empty component"@)
    } else if text::all_digits(c) {
        None
    } else if c[0] == '_' {
        if c.len() == 1 {
            Some("underscore must be followed by identifier characters"@)
        } else {
            tail_problem(c, 1)
        }
    } else if !ident::start_char(c[0]) {
        Some(invalid_char_message(c[0], 0))
    } else {
        tail_problem(c, 1)
    }
}

/// Whether `c` is a valid path component.
pub open spec fn valid_component(c: Seq<char>) -> bool {
    component_problem(c) is None
}

/// Whether every component of `p` is valid.
pub open spec fn valid_path(p: Seq<Seq<char>>) -> bool {
    forall|i: int| 0 <= i < p.len() ==> #[trigger] valid_component(p[i])
}

/// The components of a path string: the pieces between `/` separators,
/// with empty pieces dropped.
pub open spec fn split_path(s: Seq<char>) -> Seq<Seq<char>> {
    let (done, cur) = scan_path(s);
    if cur.len() > 0 {
        done.push(cur)
    } else {
        done
    }
}

/// The completed components and the pending piece after reading `s`.
pub open spec fn scan_path(s: Seq<char>) -> (Seq<Seq<char>>, Seq<char>)
    decreases s.len(),
{
    if s.len() == 0 {
        (Seq::empty(), Seq::empty())
    } else {
        let (done, cur) = scan_path(s.drop_last());
        if s.last() == '/' {
            (if cur.len() > 0 {
                done.push(cur)
            } else {
                done
            }, Seq::empty())
        } else {
            (done, cur.push(s.last()))
        }
    }
}

/// The index of the first invalid component of `p` at or after `from`,
/// or the length of `p`.
pub open spec fn first_invalid(p: Seq<Seq<char>>, from: nat) -> nat
    decreases p.len() - from,
{
    if from >= p.len() {
        p.len()
    } else if !valid_component(p[from as int]) {
        from
    } else {
        first_invalid(p, from + 1)
    }
}

/// The string form of a path: its components separated by `/`.
pub open spec fn path_string(p: Seq<Seq<char>>) -> Seq<char>
    decreases p.len(),
{
    if p.len() == 0 {
        Seq::empty()
    } else if p.len() == 1 {
        p[0]
    } else {
        path_string(p.drop_last()) + "/"@ + p.last()
    }
}

/// Whether `prefix` is a component-wise prefix of `p`.
pub open spec fn path_has_prefix(p: Seq<Seq<char>>, prefix: Seq<Seq<char>>) -> bool {
    prefix.len() <= p.len() && p.subrange(0, prefix.len() as int) == prefix
}

pub proof fn lemma_first_non_continue(c: Seq<char>, from: nat)
    ensures
        from <= first_non_continue(c, from) || from > c.len(),
        first_non_continue(c, from) <= c.len() || from > c.len(),
        forall|i: int| from <= i < first_non_continue(c, from) ==> #[trigger] ident::continue_char(c[i]),
        first_non_continue(c, from) < c.len() ==> !ident::continue_char(c[first_non_continue(c, from) as int]),
    decreases c.len() - from,
{
    if from < c.len() && ident::continue_char(c[from as int]) {
        lemma_first_non_continue(c, from + 1);
    }
}

pub proof fn lemma_first_invalid(p: Seq<Seq<char>>, from: nat)
    requires
        from <= p.len(),
    ensures
        from <= first_invalid(p, from) <= p.len(),
        forall|i: int| from <= i < first_invalid(p, from) ==> #[trigger] valid_component(p[i]),
        first_invalid(p, from) < p.len() ==> !valid_component(p[first_invalid(p, from) as int]),
    decreases p.len() - from,
{
    if from < p.len() && valid_component(p[from as int]) {
        lemma_first_invalid(p, from + 1);
    }
}

/// Decimal renderings of numbers are valid components.
pub proof fn lemma_decimal_is_component(n: nat)
    ensures
        valid_component(text::decimal(n)),
{
    text::lemma_decimal_digits(n);
}

// ---------------------------------------------------------------------
// Errors
// ---------------------------------------------------------------------

/// Errors related to path parsing and validation.
#[derive(Debug, Clone, PartialEq, Eq)]
#[non_exhaustive]
pub enum PathError {
    /// A path component is not a valid Unicode identifier.
    InvalidComponent { component: String, position: usize, message: String },
    /// The path string is invalid.
    InvalidPath { message: String },
}

impl PathError {
    /// Whether this is the error for component `c` at `pos` with message `m`.
    pub open spec fn is_invalid_component(&self, c: Seq<char>, pos: int, m: Seq<char>) -> bool {
        &&& self matches PathError::InvalidComponent { component, position, message }
        &&& component@ == c
        &&& position == pos
        &&& message@ == m
    }

    /// The display text of the error.
    pub open spec fn text(&self) -> Seq<char> {
        match self {
            PathError::InvalidComponent { component, position, message } => "invalid path component '"@
                + component@ + "' at position "@ + text::decimal(*position as nat) + ": "@ + message@,
            PathError::InvalidPath { message } => "invalid path: "@ + message@,
        }
    }

    /// The display text of the error.
    pub fn to_string(&self) -> (r: String)
        ensures
            r@ == self.text(),
    {
        match self {
            PathError::InvalidComponent { component, position, message } => {
                let mut out = to_owned_string("invalid path component '");
                push_str(&mut out, component.as_str());
                push_str(&mut out, "' at position ");
                let p = usize_to_string(*position);
                push_str(&mut out, p.as_str());
                push_str(&mut out, ": ");
                push_str(&mut out, message.as_str());
                out
            },
            PathError::InvalidPath { message } => {
                let mut out = to_owned_string("invalid path: ");
                push_str(&mut out, message.as_str());
                out
            },
        }
    }
}

/// Why `c` is not a valid component, as a message; `None` if it is one.
pub fn check_component(c: &str) -> (r: Option<String>)
    ensures
        match r {
            Some(m) => component_problem(c@) == Some(m@),
            None => component_problem(c@) is None,
        },
{
    let cs = crate::text::chars_of(c);
    let n = cs.len();
    if n == 0 {
        return Some(to_owned_string("empty component"));
    }
    let mut digits = true;
    let mut k: usize = 0;
    while k < n
        invariant
            k <= n,
            n == cs@.len(),
            digits == (forall|i: int| 0 <= i < k ==> #[trigger] text::is_digit(cs@[i])),
        decreases n - k,
    {
        let ch = cs[k];
        if !('0' <= ch && ch <= '9') {
            assert(!text::is_digit(cs@[k as int]));
            digits = false;
        } else {
            assert(text::is_digit(cs@[k as int]));
        }
        k = k + 1;
    }
    if digits {
        assert(text::all_digits(c@));
        return None;
    }
    assert(!text::all_digits(c@)) by {
        assert(cs@ == c@);
    }
    if cs[0] == '_' {
        if n == 1 {
            return Some(to_owned_string("underscore must be followed by identifier characters"));
        }
    } else if !is_xid_start(cs[0]) {
        return Some(invalid_char(cs[0], 0));
    }
    let mut j: usize = 1;
    assert(component_problem(c@) == tail_problem(c@, 1));
    while j < n
        invariant
            1 <= j <= n,
            n == cs@.len(),
            cs@ == c@,
            component_problem(c@) == tail_problem(c@, 1),
            first_non_continue(c@, 1) == first_non_continue(c@, j as nat),
        decreases n - j,
    {
        if !is_xid_continue(cs[j]) {
            assert(first_non_continue(c@, j as nat) == j);
            return Some(invalid_char(cs[j], j));
        }
        assert(first_non_continue(c@, j as nat) == first_non_continue(c@, (j + 1) as nat));
        j = j + 1;
    }
    assert(first_non_continue(c@, j as nat) == n);
    None
}

fn invalid_char(c: char, i: usize) -> (r: String)
    ensures
        r@ == invalid_char_message(c, i as nat),
{
    let mut out = to_owned_string("invalid character '");
    push_char(&mut out, c);
    push_str(&mut out, "' at index ");
    let d = usize_to_string(i);
    push_str(&mut out, d.as_str());
    out
}

// ---------------------------------------------------------------------
// Paths
// ---------------------------------------------------------------------

/// A validated path: a sequence of valid components.
///
/// Paths order and compare component by component.
#[derive(Debug, Hash, PartialOrd, Ord)]
pub struct Path {
    components: Vec<String>,
}

impl View for Path {
    type V = Seq<Seq<char>>;

    closed spec fn view(&self) -> Seq<Seq<char>> {
        self.components@.map_values(|s: String| s@)
    }
}

impl Path {
    #[verifier::type_invariant]
    closed spec fn wf(self) -> bool {
        valid_path(self@)
    }

    /// Every component of a path is valid.
    pub fn assert_valid(&self)
        ensures
            valid_path(self@),
    {
        proof {
            use_type_invariant(self);
        }
    }

    fn from_valid_strings(components: Vec<String>) -> (r: Path)
        requires
            valid_path(components@.map_values(|s: String| s@)),
        ensures
            r@ == components@.map_values(|s: String| s@),
    {
        Path { components }
    }

    /// This path with one more component, already known to be valid.
    pub(crate) fn with_component(&self, c: &str) -> (r: Path)
        requires
            valid_component(c@),
        ensures
            r@ == self@.push(c@),
    {
        proof {
            use_type_invariant(self);
        }
        let mut out = self.duplicate().components;
        out.push(crate::text::to_owned_string(c));
        assert(out@.map_values(|s: String| s@) =~= self@.push(c@));
        Path { components: out }
    }

    /// The empty (root) path.
    pub fn root() -> (r: Path)
        ensures
            r@ == Seq::<Seq<char>>::empty(),
    {
        let r = Path { components: Vec::new() };
        assert(r@ =~= Seq::<Seq<char>>::empty());
        r
    }

    /// Parse a path string, validating components.
    ///
    /// Components are separated by `/`; empty pieces are ignored, so `//`
    /// and leading or trailing slashes normalize away. The first invalid
    /// component, if any, is reported with its position among the
    /// components.
    pub fn parse(s: &str) -> (r: Result<Path, PathError>)
        ensures
            match r {
                Ok(p) => p@ == split_path(s@) && valid_path(p@),
                Err(e) => {
                    let comps = split_path(s@);
                    let j = first_invalid(comps, 0);
                    &&& j < comps.len()
                    &&& e.is_invalid_component(comps[j as int], j as int, component_problem(comps[j as int])->0)
                },
            },
    {
        let cs = crate::text::chars_of(s);
        let mut done: Vec<String> = Vec::new();
        let mut cur = String::new();
        let mut i: usize = 0;
        while i < cs.len()
            invariant
                i <= cs@.len(),
                cs@ == s@,
                (done@.map_values(|x: String| x@), cur@) == scan_path(cs@.subrange(0, i as int)),
            decreases cs@.len() - i,
        {
            let ghost prev = cs@.subrange(0, i as int);
            assert(cs@.subrange(0, i + 1).drop_last() =~= prev);
            let c = cs[i];
            if c == '/' {
                if !cur.as_str().is_empty() {
                    let ghost d0 = done@.map_values(|x: String| x@);
                    let ghost c0 = cur@;
                    done.push(cur);
                    assert(done@.map_values(|x: String| x@) =~= d0.push(c0));
                }
                cur = String::new();
            } else {
                push_char(&mut cur, c);
            }
            i = i + 1;
        }
        assert(cs@.subrange(0, cs@.len() as int) =~= cs@);
        if !cur.as_str().is_empty() {
            let ghost d0 = done@.map_values(|x: String| x@);
            let ghost c0 = cur@;
            done.push(cur);
            assert(done@.map_values(|x: String| x@) =~= d0.push(c0));
        }
        Self::try_from_components(done)
    }

    /// Create a path from components that must all be valid.
    pub fn from_components(components: Vec<String>) -> (r: Path)
        requires
            valid_path(components@.map_values(|s: String| s@)),
        ensures
            r@ == components@.map_values(|s: String| s@),
    {
        Path { components }
    }

    /// Create a path from components already known to be valid.
    pub fn from_validated_components(components: Vec<String>) -> (r: Path)
        requires
            valid_path(components@.map_values(|s: String| s@)),
        ensures
            r@ == components@.map_values(|s: String| s@),
    {
        Path { components }
    }

    /// Create a path from components, validating each in order.
    pub fn try_from_components(components: Vec<String>) -> (r: Result<Path, PathError>)
        ensures
            ({
                let comps = components@.map_values(|s: String| s@);
                match r {
                    Ok(p) => p@ == comps && valid_path(comps),
                    Err(e) => {
                        let j = first_invalid(comps, 0);
                        &&& j < comps.len()
                        &&& e.is_invalid_component(comps[j as int], j as int, component_problem(comps[j as int])->0)
                    },
                }
            }),
    {
        let ghost comps = components@.map_values(|s: String| s@);
        let mut i: usize = 0;
        proof {
            lemma_first_invalid(comps, 0);
        }
        while i < components.len()
            invariant
                i <= components@.len(),
                comps == components@.map_values(|s: String| s@),
                first_invalid(comps, 0) == first_invalid(comps, i as nat),
                forall|k: int| 0 <= k < i ==> #[trigger] valid_component(comps[k]),
            decreases components@.len() - i,
        {
            match Self::validate_component(components[i].as_str(), i) {
                Ok(()) => {},
                Err(e) => {
                    return Err(e);
                },
            }
            i = i + 1;
        }
        assert(valid_path(comps));
        Ok(Path { components })
    }

    /// Validate a single path component.
    ///
    /// `position` only goes into the error; pass `0` for a component
    /// validated in isolation.
    pub fn validate_component(component: &str, position: usize) -> (r: Result<(), PathError>)
        ensures
            match r {
                Ok(()) => valid_component(component@),
                Err(e) => e.is_invalid_component(
                    component@,
                    position as int,
                    component_problem(component@)->0,
                ) && !valid_component(component@),
            },
    {
        match check_component(component) {
            None => Ok(()),
            Some(message) => Err(
                PathError::InvalidComponent {
                    component: to_owned_string(component),
                    position,
                    message,
                },
            ),
        }
    }

    /// Whether this is the empty (root) path.
    pub fn is_empty(&self) -> (r: bool)
        ensures
            r == (self@.len() == 0),
    {
        self.components.len() == 0
    }

    /// The number of components.
    pub fn len(&self) -> (r: usize)
        ensures
            r == self@.len(),
    {
        self.components.len()
    }

    /// The components, in order.
    pub fn iter(&self) -> (r: Vec<String>)
        ensures
            r@.map_values(|s: String| s@) == self@,
    {
        self.components.clone()
    }

    /// The component at index `i`.
    pub fn component(&self, i: usize) -> (r: &str)
        requires
            i < self@.len(),
        ensures
            r@ == self@[i as int],
    {
        self.components[i].as_str()
    }

    /// A copy of this path.
    pub fn duplicate(&self) -> (r: Path)
        ensures
            r@ == self@,
    {
        proof {
            use_type_invariant(self);
        }
        let mut out: Vec<String> = Vec::new();
        let mut i: usize = 0;
        while i < self.components.len()
            invariant
                i <= self.components@.len(),
                out@.map_values(|s: String| s@) =~= self@.subrange(0, i as int),
            decreases self.components@.len() - i,
        {
            let ghost o = out@.map_values(|s: String| s@);
            out.push(self.components[i].clone());
            assert(out@.map_values(|s: String| s@) =~= o.push(self@[i as int]));
            assert(self@.subrange(0, i + 1) =~= self@.subrange(0, i as int).push(self@[i as int]));
            i = i + 1;
        }
        assert(self@.subrange(0, self@.len() as int) =~= self@);
        Path { components: out }
    }

    /// The components of `self` followed by those of `other`.
    pub fn join(&self, other: &Path) -> (r: Path)
        ensures
            r@ == self@ + other@,
    {
        proof {
            use_type_invariant(self);
            use_type_invariant(other);
        }
        let mut out = self.duplicate().components;
        let mut i: usize = 0;
        while i < other.components.len()
            invariant
                i <= other.components@.len(),
                out@.map_values(|s: String| s@) =~= self@ + other@.subrange(0, i as int),
            decreases other.components@.len() - i,
        {
            let ghost o = out@.map_values(|s: String| s@);
            out.push(other.components[i].clone());
            assert(out@.map_values(|s: String| s@) =~= o.push(other@[i as int]));
            assert(other@.subrange(0, i + 1) =~= other@.subrange(0, i as int).push(other@[i as int]));
            i = i + 1;
        }
        assert(other@.subrange(0, other@.len() as int) =~= other@);
        Path { components: out }
    }

    /// A new path with `component` appended.
    pub fn child(&self, component: PathComponent) -> (r: Path)
        ensures
            r@ == self@.push(component@),
    {
        proof {
            use_type_invariant(self);
            use_type_invariant(&component);
        }
        let mut out = self.duplicate().components;
        out.push(component.into_string());
        assert(out@.map_values(|s: String| s@) =~= self@.push(component@));
        Path { components: out }
    }

    /// Append a component in place.
    pub fn push(&mut self, component: PathComponent)
        ensures
            final(self)@ == old(self)@.push(component@),
    {
        *self = self.child(component);
    }

    /// Whether `prefix` is a component-wise prefix of this path.
    pub fn has_prefix(&self, prefix: &Path) -> (r: bool)
        ensures
            r == path_has_prefix(self@, prefix@),
    {
        let n = prefix.components.len();
        if n > self.components.len() {
            return false;
        }
        let mut i: usize = 0;
        while i < n
            invariant
                i <= n,
                n == prefix@.len(),
                n <= self@.len(),
                self@.subrange(0, i as int) == prefix@.subrange(0, i as int),
            decreases n - i,
        {
            if self.components[i] != prefix.components[i] {
                assert(self@.subrange(0, n as int)[i as int] != prefix@[i as int]);
                return false;
            }
            assert(self@.subrange(0, i + 1) =~= self@.subrange(0, i as int).push(self@[i as int]));
            assert(prefix@.subrange(0, i + 1) =~= prefix@.subrange(0, i as int).push(prefix@[i as int]));
            i = i + 1;
        }
        assert(prefix@.subrange(0, n as int) =~= prefix@);
        true
    }

    /// This path with `prefix` removed from its front, if it has it.
    pub fn strip_prefix(&self, prefix: &Path) -> (r: Option<Path>)
        ensures
            match r {
                Some(p) => path_has_prefix(self@, prefix@) && p@ == self@.subrange(
                    prefix@.len() as int,
                    self@.len() as int,
                ),
                None => !path_has_prefix(self@, prefix@),
            },
    {
        if self.has_prefix(prefix) {
            Some(self.slice(prefix.len(), self.len()))
        } else {
            None
        }
    }

    /// The components from `start` up to (not including) `end`.
    pub fn slice(&self, start: usize, end: usize) -> (r: Path)
        requires
            start <= end <= self@.len(),
        ensures
            r@ == self@.subrange(start as int, end as int),
    {
        proof {
            use_type_invariant(self);
        }
        let mut out: Vec<String> = Vec::new();
        let mut i: usize = start;
        while i < end
            invariant
                start <= i <= end,
                end <= self@.len(),
                out@.map_values(|s: String| s@) =~= self@.subrange(start as int, i as int),
            decreases end - i,
        {
            let ghost o = out@.map_values(|s: String| s@);
            out.push(self.components[i].clone());
            assert(out@.map_values(|s: String| s@) =~= o.push(self@[i as int]));
            assert(self@.subrange(start as int, i + 1) =~= self@.subrange(start as int, i as int).push(self@[i as int]));
            i = i + 1;
        }
        Path { components: out }
    }

    /// Whether two paths have the same components.
    pub fn same_as(&self, other: &Path) -> (r: bool)
        ensures
            r == (self@ == other@),
    {
        if self.len() != other.len() {
            return false;
        }
        let r = self.has_prefix(other);
        assert(self@.subrange(0, other@.len() as int) =~= self@);
        r
    }

    /// The path's string form: components separated by `/`.
    pub fn to_string(&self) -> (r: String)
        ensures
            r@ == path_string(self@),
    {
        let mut out = String::new();
        let mut i: usize = 0;
        while i < self.components.len()
            invariant
                i <= self@.len(),
                out@ == path_string(self@.subrange(0, i as int)),
            decreases self@.len() - i,
        {
            let ghost pre = self@.subrange(0, i as int);
            assert(self@.subrange(0, i + 1).drop_last() =~= pre);
            if i > 0 {
                push_str(&mut out, "/");
            } else {
                assert(self@.subrange(0, 1) =~= seq![self@[0]]);
            }
            push_str(&mut out, self.components[i].as_str());
            i = i + 1;
        }
        assert(self@.subrange(0, self@.len() as int) =~= self@);
        out
    }

    /// The UTF-8 bytes of each component: the low-level form of the path.
    pub fn to_ll_path(&self) -> (r: Vec<Vec<u8>>)
        ensures
            r@.len() == self@.len(),
            forall|i: int| 0 <= i < r@.len() ==> #[trigger] r@[i]@ == vstd::utf8::encode_utf8(self@[i]),
    {
        let mut out: Vec<Vec<u8>> = Vec::new();
        let mut i: usize = 0;
        while i < self.components.len()
            invariant
                i <= self@.len(),
                out@.len() == i,
                forall|k: int| 0 <= k < i ==> #[trigger] out@[k]@ == vstd::utf8::encode_utf8(self@[k]),
            decreases self@.len() - i,
        {
            let bytes = self.components[i].as_str().as_bytes_vec();
            out.push(bytes);
            i = i + 1;
        }
        out
    }

    /// The low-level form of the path, consuming it.
    pub fn into_ll(self) -> (r: Vec<Vec<u8>>)
        ensures
            r@.len() == self@.len(),
            forall|i: int| 0 <= i < r@.len() ==> #[trigger] r@[i]@ == vstd::utf8::encode_utf8(self@[i]),
    {
        self.to_ll_path()
    }

    /// The low-level form of the path.
    pub fn as_ll(&self) -> (r: Vec<Vec<u8>>)
        ensures
            r@.len() == self@.len(),
            forall|i: int| 0 <= i < r@.len() ==> #[trigger] r@[i]@ == vstd::utf8::encode_utf8(self@[i]),
    {
        self.to_ll_path()
    }

    /// Validate low-level components into a path: each must be UTF-8 and a
    /// valid component. The first failure is reported with its position.
    pub fn validate(ll: Vec<Vec<u8>>) -> (r: Result<Path, PathError>)
        ensures
            match r {
                Ok(p) => p@.len() == ll@.len() && forall|i: int|
                    0 <= i < ll@.len() ==> vstd::utf8::valid_utf8(#[trigger] ll@[i]@) && p@[i]
                        == vstd::utf8::decode_utf8(ll@[i]@) && valid_component(p@[i]),
                Err(e) => exists|j: int|
                    0 <= j < ll@.len() && !(vstd::utf8::valid_utf8(#[trigger] ll@[j]@) && valid_component(
                        vstd::utf8::decode_utf8(ll@[j]@),
                    )) && (e matches PathError::InvalidComponent { position, .. } && position == j),
            },
    {
        Self::try_from_ll_path(ll.as_slice())
    }

    /// Validate borrowed low-level components into a path.
    pub fn try_from_ll_path(ll: &[Vec<u8>]) -> (r: Result<Path, PathError>)
        ensures
            match r {
                Ok(p) => p@.len() == ll@.len() && forall|i: int|
                    0 <= i < ll@.len() ==> vstd::utf8::valid_utf8(#[trigger] ll@[i]@) && p@[i]
                        == vstd::utf8::decode_utf8(ll@[i]@) && valid_component(p@[i]),
                Err(e) => exists|j: int|
                    0 <= j < ll@.len() && !(vstd::utf8::valid_utf8(#[trigger] ll@[j]@) && valid_component(
                        vstd::utf8::decode_utf8(ll@[j]@),
                    )) && (e matches PathError::InvalidComponent { position, .. } && position == j),
            },
    {
        let mut out: Vec<String> = Vec::new();
        let mut i: usize = 0;
        while i < ll.len()
            invariant
                i <= ll@.len(),
                out@.len() == i,
                forall|k: int|
                    0 <= k < i ==> vstd::utf8::valid_utf8(#[trigger] ll@[k]@) && out@[k]@
                        == vstd::utf8::decode_utf8(ll@[k]@) && valid_component(out@[k]@),
            decreases ll@.len() - i,
        {
            match utf8_str(ll[i].as_slice()) {
                None => {
                    let component = byte_list(ll[i].as_slice());
                    return Err(
                        PathError::InvalidComponent {
                            component,
                            position: i,
                            message: to_owned_string("not valid UTF-8"),
                        },
                    );
                },
                Some(s) => {
                    match Self::validate_component(s, i) {
                        Ok(()) => {
                            out.push(to_owned_string(s));
                        },
                        Err(e) => {
                            return Err(e);
                        },
                    }
                },
            }
            i = i + 1;
        }
        let ghost mv = out@.map_values(|s: String| s@);
        assert forall|k: int| 0 <= k < mv.len() implies #[trigger] valid_component(mv[k]) by {
            assert(mv[k] == out@[k]@);
            assert(vstd::utf8::valid_utf8(ll@[k]@));
        }
        assert(valid_path(mv));
        let r = Path { components: out };
        Ok(r)
    }

    /// Wrap low-level components that must already be valid.
    pub fn from_ll_unchecked(ll: Vec<Vec<u8>>) -> (r: Path)
        requires
            forall|i: int|
                0 <= i < ll@.len() ==> vstd::utf8::valid_utf8(#[trigger] ll@[i]@) && valid_component(
                    vstd::utf8::decode_utf8(ll@[i]@),
                ),
        ensures
            r@.len() == ll@.len(),
            forall|i: int| 0 <= i < ll@.len() ==> r@[i] == vstd::utf8::decode_utf8(#[trigger] ll@[i]@),
    {
        match Self::validate(ll) {
            Ok(p) => p,
            Err(_) => {
                assert(false);
                Path::root()
            },
        }
    }
}

impl Clone for Path {
    fn clone(&self) -> (r: Path)
        ensures
            r@ == self@,
    {
        self.duplicate()
    }
}

impl PartialEq for Path {
    fn eq(&self, other: &Path) -> (r: bool) {
        self.same_as(other)
    }
}

impl Eq for Path {}

impl vstd::std_specs::cmp::PartialEqSpecImpl for Path {
    open spec fn obeys_eq_spec() -> bool {
        true
    }

    open spec fn eq_spec(&self, other: &Path) -> bool {
        self@ == other@
    }
}

/// Converts bytes to a string slice if they are valid UTF-8.
///
/// Calls `std::str::from_utf8`. The contract claims what std documents: it
/// succeeds exactly on valid UTF-8, and then gives the decoded characters.
#[verifier::external_body]
fn utf8_str(bytes: &[u8]) -> (r: Option<&str>)
    ensures
        r is Some <==> vstd::utf8::valid_utf8(bytes@),
        r matches Some(s) ==> s@ == vstd::utf8::decode_utf8(bytes@),
{
    std::str::from_utf8(bytes).ok()
}

/// The debug rendering of a byte list: `[1, 2, 3]`.
pub open spec fn byte_list_text(bytes: Seq<u8>) -> Seq<char>
    decreases bytes.len(),
{
    if bytes.len() == 0 {
        "[]"@
    } else if bytes.len() == 1 {
        "["@ + text::decimal(bytes[0] as nat) + "]"@
    } else {
        byte_list_text(bytes.drop_last()).drop_last() + ", "@ + text::decimal(bytes.last() as nat) + "]"@
    }
}

fn byte_list(bytes: &[u8]) -> (r: String)
    ensures
        r@ == byte_list_text(bytes@),
{
    let mut out = to_owned_string("[");
    let mut i: usize = 0;
    proof {
        reveal_strlit("[");
        reveal_strlit("[]");
        assert(bytes@.subrange(0, 0) =~= Seq::<u8>::empty());
        assert("["@.push(']') =~= "[]"@);
    }
    while i < bytes.len()
        invariant
            i <= bytes@.len(),
            out@.push(']') == byte_list_text(bytes@.subrange(0, i as int)),
            i == 0 ==> out@ == "["@,
        decreases bytes@.len() - i,
    {
        proof {
            reveal_strlit("[");
            reveal_strlit("]");
            reveal_strlit("[]");
            reveal_strlit(", ");
        }
        let ghost prev = out@;
        assert(bytes@.subrange(0, i + 1).drop_last() =~= bytes@.subrange(0, i as int));
        if i > 0 {
            push_str(&mut out, ", ");
        }
        let d = u64_to_string(bytes[i] as u64);
        push_str(&mut out, d.as_str());
        if i > 0 {
            assert(prev.push(']').drop_last() =~= prev);
            assert(out@.push(']') =~= prev.push(']').drop_last() + ", "@ + text::decimal(bytes@[i as int] as nat) + "]"@);
        } else {
            assert(out@.push(']') =~= "["@ + text::decimal(bytes@[0] as nat) + "]"@);
        }
        i = i + 1;
    }
    assert(bytes@.subrange(0, bytes@.len() as int) =~= bytes@);
    push_char(&mut out, ']');
    out
}

// ---------------------------------------------------------------------
// Components
// ---------------------------------------------------------------------

/// A single validated path component.
///
/// It cannot be built from an arbitrary string without validation. For
/// strings that are not components, `encode` embeds them losslessly with
/// Namecode and `decode` recovers them.
#[derive(Debug, PartialEq, Eq, Hash, PartialOrd, Ord)]
pub struct PathComponent(String);

impl View for PathComponent {
    type V = Seq<char>;

    closed spec fn view(&self) -> Seq<char> {
        self.0@
    }
}

/// What decoding a component gives: a component without the Namecode
/// prefix is itself, a prefixed one is its Namecode decoding (none when
/// malformed).
pub open spec fn decoded(c: Seq<char>) -> Option<Seq<char>> {
    if ident::has_namecode_prefix(c) {
        ident::namecode_decoding(c)
    } else {
        Some(c)
    }
}

impl PathComponent {
    #[verifier::type_invariant]
    closed spec fn wf(self) -> bool {
        valid_component(self.0@)
    }

    /// A component is valid.
    pub fn assert_valid(&self)
        ensures
            valid_component(self@),
    {
        proof {
            use_type_invariant(self);
        }
    }

    /// Validate and wrap a string as a path component.
    pub fn try_new(s: &str) -> (r: Result<PathComponent, PathError>)
        ensures
            match r {
                Ok(c) => c@ == s@ && valid_component(s@),
                Err(e) => !valid_component(s@) && e.is_invalid_component(s@, 0, component_problem(s@)->0),
            },
    {
        match Path::validate_component(s, 0) {
            Ok(()) => Ok(PathComponent(to_owned_string(s))),
            Err(e) => Err(e),
        }
    }

    /// Encode an arbitrary string as a valid path component.
    ///
    /// Identifiers pass through unchanged; anything else is
    /// Namecode-encoded into a `_N_`-prefixed identifier. Its inputs are
    /// those whose encoding the encoder produces without failing its
    /// identity check and which is a valid component: the empty string, a
    /// lone underscore and a non-canonical `_N_` encoding are not among
    /// them (`try_encode` tests for these).
    pub fn encode(s: &str) -> (r: PathComponent)
        requires
            ident::namecode_encode_safe(s@),
            valid_component(ident::namecode_encoding(s@)),
        ensures
            r@ == ident::namecode_encoding(s@),
            !ident::has_namecode_prefix(s@) ==> decoded(r@) == Some(s@),
    {
        let e = namecode_encode(s);
        proof {
            if !ident::has_namecode_prefix(s@) && e@ != s@ {
                assert(ident::has_namecode_prefix(e@));
            }
        }
        PathComponent(e)
    }

    /// Encode `s` as `encode` does, or say why it cannot be: the encoding
    /// is not a valid component (the empty string, a lone underscore), or
    /// `s` is a `_N_`-prefixed string that is not the canonical encoding
    /// of the string it decodes to.
    pub fn try_encode(s: &str) -> (r: Result<PathComponent, PathError>)
        ensures
            r is Ok <==> ident::namecode_encode_safe(s@) && valid_component(ident::namecode_encoding(s@)),
            match r {
                Ok(c) => c@ == ident::namecode_encoding(s@),
                Err(e) => if ident::namecode_encode_safe(s@) {
                    e.is_invalid_component(
                        ident::namecode_encoding(s@),
                        0,
                        component_problem(ident::namecode_encoding(s@))->0,
                    )
                } else {
                    e.is_invalid_component(s@, 0, "non-canonical namecode encoding"@)
                },
            },
            s@.len() > 0 && s@ != seq!['_'] && !ident::has_namecode_prefix(s@) ==> r is Ok,
            !ident::has_namecode_prefix(s@) ==> (r matches Ok(c) ==> decoded(c@) == Some(s@)),
    {
        if let Ok(d) = namecode_decode(s) {
            let nonempty = text::chars_of(d.as_str()).len() > 0;
            let needs = nonempty && (has_namecode_prefix_exec(d.as_str()) || !namecode_is_identifier(d.as_str()));
            if needs {
                if has_namecode_prefix_exec(d.as_str()) {
                    return Err(non_canonical(s));
                }
                let again = namecode_encode(d.as_str());
                if !text::str_eq(again.as_str(), s) {
                    return Err(non_canonical(s));
                }
            }
        }
        let e = namecode_encode(s);
        match Path::validate_component(e.as_str(), 0) {
            Ok(()) => {
                Ok(PathComponent::encode(s))
            },
            Err(err) => {
                proof {
                    if s@.len() > 0 && s@ != seq!['_'] && !ident::has_namecode_prefix(s@) {
                        assert(ident::xid_identifier(e@));
                        if e@ == s@ {
                            assert(e@ != seq!['_']);
                        } else {
                            assert(ident::has_namecode_prefix(e@));
                        }
                        lemma_identifier_is_component(e@);
                    }
                }
                Err(err)
            },
        }
    }

    /// Decode a component produced by `encode` back to the string it
    /// encodes. Components without the Namecode prefix come back unchanged;
    /// a malformed encoding is an error.
    pub fn decode(&self) -> (r: Result<String, PathError>)
        ensures
            match decoded(self@) {
                Some(d) => r matches Ok(x) && x@ == d,
                None => r is Err,
            },
            !ident::has_namecode_prefix(self@) ==> (r matches Ok(d) && d@ == self@),
            ident::has_namecode_prefix(self@) ==> (r matches Ok(d) ==> ident::namecode_decoding(self@) == Some(d@)),
            r matches Err(e) ==> ident::has_namecode_prefix(self@) && ident::namecode_decoding(self@) is None && (e
                matches PathError::InvalidComponent { component, position, message } && component@ == self@
                && position == 0 && text::is_prefix("malformed namecode encoding: "@, message@)),
    {
        match namecode_decode(self.0.as_str()) {
            Ok(d) => Ok(d),
            Err(None) => Ok(self.0.clone()),
            Err(Some(text)) => {
                let mut message = to_owned_string("malformed namecode encoding: ");
                push_str(&mut message, text.as_str());
                proof {
                    reveal_strlit("malformed namecode encoding: ");
                    assert(message@.subrange(0, 29) =~= "malformed namecode encoding: "@);
                }
                Err(PathError::InvalidComponent { component: self.0.clone(), position: 0, message })
            },
        }
    }

    /// The validated string.
    pub fn as_str(&self) -> (r: &str)
        ensures
            r@ == self@,
    {
        self.0.as_str()
    }

    /// The validated string (the name no standard type has).
    pub fn validated_str(&self) -> (r: &str)
        ensures
            r@ == self@,
    {
        self.0.as_str()
    }

    /// The inner string.
    pub fn into_string(self) -> (r: String)
        ensures
            r@ == self@,
    {
        self.0
    }

    /// The component's text.
    pub fn to_string(&self) -> (r: String)
        ensures
            r@ == self@,
    {
        self.0.clone()
    }

    /// The component for a numeric index.
    pub fn from_index(i: usize) -> (r: PathComponent)
        ensures
            r@ == text::decimal(i as nat),
    {
        let s = usize_to_string(i);
        proof {
            lemma_decimal_is_component(i as nat);
        }
        PathComponent(s)
    }

    /// The component for a numeric index.
    pub fn from_u64(i: u64) -> (r: PathComponent)
        ensures
            r@ == text::decimal(i as nat),
    {
        let s = u64_to_string(i);
        proof {
            lemma_decimal_is_component(i as nat);
        }
        PathComponent(s)
    }
}

impl Clone for PathComponent {
    fn clone(&self) -> (r: PathComponent)
        ensures
            r@ == self@,
    {
        proof {
            use_type_invariant(self);
        }
        PathComponent(self.0.clone())
    }
}

impl From<usize> for PathComponent {
    fn from(i: usize) -> (r: PathComponent)
        ensures
            r@ == text::decimal(i as nat),
    {
        PathComponent::from_index(i)
    }
}

impl vstd::std_specs::convert::FromSpecImpl<usize> for PathComponent {
    open spec fn obeys_from_spec() -> bool {
        false
    }

    open spec fn from_spec(i: usize) -> PathComponent {
        arbitrary()
    }
}

impl From<u64> for PathComponent {
    fn from(i: u64) -> (r: PathComponent)
        ensures
            r@ == text::decimal(i as nat),
    {
        PathComponent::from_u64(i)
    }
}

impl vstd::std_specs::convert::FromSpecImpl<u64> for PathComponent {
    open spec fn obeys_from_spec() -> bool {
        false
    }

    open spec fn from_spec(i: u64) -> PathComponent {
        arbitrary()
    }
}

impl From<PathComponent> for Path {
    fn from(c: PathComponent) -> (r: Path)
        ensures
            r@ == seq![c@],
    {
        Path::root().child(c)
    }
}

impl vstd::std_specs::convert::FromSpecImpl<PathComponent> for Path {
    open spec fn obeys_from_spec() -> bool {
        false
    }

    open spec fn from_spec(c: PathComponent) -> Path {
        arbitrary()
    }
}

/// Reading characters that hold no `/` extends the pending piece.
proof fn lemma_scan_append(s: Seq<char>, c: Seq<char>)
    requires
        forall|k: int| 0 <= k < c.len() ==> #[trigger] c[k] != '/',
    ensures
        scan_path(s + c) == (scan_path(s).0, scan_path(s).1 + c),
    decreases c.len(),
{
    if c.len() == 0 {
        assert(s + c =~= s);
        assert(scan_path(s).1 + c =~= scan_path(s).1);
    } else {
        let d = c.drop_last();
        lemma_scan_append(s, d);
        assert((s + c).drop_last() =~= s + d);
        assert((s + c).last() == c.last());
        assert(scan_path(s).1 + d + seq![c.last()] =~= scan_path(s).1 + c);
    }
}

/// A valid component holds no `/`.
proof fn lemma_component_has_no_slash(c: Seq<char>)
    requires
        valid_component(c),
    ensures
        c.len() > 0,
        forall|k: int| 0 <= k < c.len() ==> #[trigger] c[k] != '/',
{
    lemma_first_non_continue(c, 1);
    assert forall|k: int| 0 <= k < c.len() implies #[trigger] c[k] != '/' by {
        if c[k] == '/' {
            if text::all_digits(c) {
                assert(text::is_digit(c[k]));
            } else if k == 0 {
                assert(!ident::start_char(c[0]));
            } else {
                assert(!ident::continue_char(c[k]));
            }
        }
    }
}

/// A path's string form parses back into the same components: the text
/// form of a path is lossless.
pub proof fn lemma_string_parses_back(p: Seq<Seq<char>>)
    requires
        valid_path(p),
    ensures
        split_path(path_string(p)) == p,
    decreases p.len(),
{
    if p.len() == 0 {
        assert(split_path(Seq::<char>::empty()) =~= p);
    } else if p.len() == 1 {
        lemma_component_has_no_slash(p[0]);
        lemma_scan_append(Seq::<char>::empty(), p[0]);
        assert(Seq::<char>::empty() + p[0] =~= p[0]);
        assert(Seq::<Seq<char>>::empty().push(p[0]) =~= p);
    } else {
        let q = p.drop_last();
        assert(valid_path(q)) by {
            assert forall|i: int| 0 <= i < q.len() implies #[trigger] valid_component(q[i]) by {
                assert(q[i] == p[i]);
            }
        }
        lemma_string_parses_back(q);
        let c = p.last();
        assert(valid_component(p[p.len() - 1]));
        lemma_component_has_no_slash(c);
        let front = path_string(q) + "/"@;
        reveal_strlit("/");
        assert("/"@ =~= seq!['/']);
        assert(front =~= path_string(q).push('/'));
        assert(front.drop_last() =~= path_string(q));
        assert(scan_path(front) == (split_path(path_string(q)), Seq::<char>::empty()));
        lemma_scan_append(front, c);
        assert(path_string(p) =~= front + c);
        assert(Seq::<char>::empty() + c =~= c);
        assert(q.push(c) =~= p);
    }
}

/// Joining `b` under `a` and then stripping `a` gives `b` back.
pub proof fn lemma_join_then_strip(a: Seq<Seq<char>>, b: Seq<Seq<char>>)
    ensures
        path_has_prefix(a + b, a),
        (a + b).subrange(a.len() as int, (a + b).len() as int) == b,
{
    assert((a + b).subrange(0, a.len() as int) =~= a);
    assert((a + b).subrange(a.len() as int, (a + b).len() as int) =~= b);
}

/// A word of ASCII letters, digits and underscores that starts with a
/// letter is a valid component.
pub proof fn lemma_ascii_word_is_component(s: Seq<char>)
    requires
        s.len() > 0,
        ident::ascii_letter(s[0]),
        forall|i: int|
            0 <= i < s.len() ==> #[trigger] ident::ascii_letter(s[i]) || ('0' <= s[i] && s[i] <= '9') || s[i] == '_',
    ensures
        valid_component(s),
{
    lemma_first_non_continue(s, 1);
    assert(!text::is_digit(s[0]));
    assert(!text::all_digits(s));
    assert forall|i: int| 1 <= i < s.len() implies #[trigger] ident::continue_char(s[i]) by {
        assert(ident::ascii_letter(s[i]) || ('0' <= s[i] && s[i] <= '9') || s[i] == '_');
    }
    if first_non_continue(s, 1) < s.len() {
        let j = first_non_continue(s, 1) as int;
        assert(ident::continue_char(s[j]));
    }
}

/// An identifier other than a lone underscore is a valid component.
pub proof fn lemma_identifier_is_component(s: Seq<char>)
    requires
        ident::xid_identifier(s),
        s != seq!['_'],
    ensures
        valid_component(s),
{
    lemma_first_non_continue(s, 1);
    if s[0] == '_' {
        if s.len() == 1 {
            assert(s =~= seq!['_']);
        }
    }
}

/// Whether `s` starts with the Namecode prefix `_N_`.
fn has_namecode_prefix_exec(s: &str) -> (r: bool)
    ensures
        r == ident::has_namecode_prefix(s@),
{
    let r = text::str_starts_with(s, "_N_");
    proof {
        reveal_strlit("_N_");
        if r {
            assert(s@.subrange(0, 3) == "_N_"@);
            assert(s@[0] == s@.subrange(0, 3)[0]);
            assert(s@[1] == s@.subrange(0, 3)[1]);
            assert(s@[2] == s@.subrange(0, 3)[2]);
        } else if ident::has_namecode_prefix(s@) {
            assert(s@.subrange(0, 3) =~= "_N_"@);
        }
    }
    r
}

/// The refusal of a prefixed input that is not a canonical encoding.
fn non_canonical(s: &str) -> (r: PathError)
    ensures
        r.is_invalid_component(s@, 0, "non-canonical namecode encoding"@),
{
    PathError::InvalidComponent {
        component: to_owned_string(s),
        position: 0,
        message: to_owned_string("non-canonical namecode encoding"),
    }
}

} // verus!
