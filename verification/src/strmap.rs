//! Association lists keyed by strings and kept sorted by key: the
//! representation behind value maps and path-trie children.

use vstd::prelude::*;

use crate::text::str_lt;

verus! {

/// Whether the keys of `s` strictly increase.
pub open spec fn keys_sorted<V>(s: Seq<(String, V)>) -> bool {
    forall|i: int, j: int|
        0 <= i < j < s.len() ==> crate::text::seq_lt(#[trigger] s[i].0@, #[trigger] s[j].0@)
}

/// The keys of `s`, in order.
pub open spec fn key_seq<V>(s: Seq<(String, V)>) -> Seq<Seq<char>> {
    s.map_values(|e: (String, V)| e.0@)
}

/// Where `key` is, or would be inserted, in the sorted list `s`: `(true, i)`
/// when `s[i]` has the key, `(false, i)` when every key before `i` sorts
/// before `key` and every key from `i` on sorts after it.
pub fn locate<V>(s: &Vec<(String, V)>, key: &str) -> (r: (bool, usize))
    requires
        keys_sorted(s@),
    ensures
        r.1 <= s@.len(),
        r.0 ==> r.1 < s@.len() && s@[r.1 as int].0@ == key@,
        forall|i: int| 0 <= i < r.1 ==> crate::text::seq_lt(#[trigger] s@[i].0@, key@),
        !r.0 ==> forall|i: int| r.1 <= i < s@.len() ==> crate::text::seq_lt(key@, #[trigger] s@[i].0@),
{
    let mut i: usize = 0;
    while i < s.len()
        invariant
            i <= s@.len(),
            keys_sorted(s@),
            forall|k: int| 0 <= k < i ==> crate::text::seq_lt(#[trigger] s@[k].0@, key@),
        decreases s@.len() - i,
    {
        let k = s[i].0.as_str();
        if str_lt(k, key) {
            i = i + 1;
        } else {
            if str_lt(key, k) {
                assert forall|j: int| i <= j < s@.len() implies crate::text::seq_lt(key@, #[trigger] s@[j].0@) by {
                    if j > i {
                        crate::text::lemma_seq_lt_transitive(key@, s@[i as int].0@, s@[j].0@);
                    }
                }
                return (false, i);
            }
            proof {
                crate::text::lemma_seq_lt_total(k@, key@);
            }
            return (true, i);
        }
    }
    (false, i)
}

/// Inserting a key at the position `locate` reported keeps the list sorted.
pub proof fn lemma_insert_sorted<V>(s: Seq<(String, V)>, i: int, e: (String, V))
    requires
        keys_sorted(s),
        0 <= i <= s.len(),
        forall|k: int| 0 <= k < i ==> crate::text::seq_lt(#[trigger] s[k].0@, e.0@),
        forall|k: int| i <= k < s.len() ==> crate::text::seq_lt(e.0@, #[trigger] s[k].0@),
    ensures
        keys_sorted(s.insert(i, e)),
{
    let t = s.insert(i, e);
    assert forall|a: int, b: int| 0 <= a < b < t.len() implies crate::text::seq_lt(#[trigger] t[a].0@, #[trigger] t[b].0@) by {
        if a < i && b < i {
        } else if a < i && b == i {
        } else if a < i && b > i {
            assert(t[b] == s[b - 1]);
        } else if a == i {
            assert(t[b] == s[b - 1]);
        } else {
            assert(t[a] == s[a - 1]);
            assert(t[b] == s[b - 1]);
        }
    }
}

/// Replacing the value at a position keeps the list sorted when the key stays.
pub proof fn lemma_update_sorted<V>(s: Seq<(String, V)>, i: int, e: (String, V))
    requires
        keys_sorted(s),
        0 <= i < s.len(),
        e.0@ == s[i].0@,
    ensures
        keys_sorted(s.update(i, e)),
{
    let t = s.update(i, e);
    assert forall|a: int, b: int| 0 <= a < b < t.len() implies crate::text::seq_lt(#[trigger] t[a].0@, #[trigger] t[b].0@) by {
        assert(t[a].0@ == s[a].0@);
        assert(t[b].0@ == s[b].0@);
    }
}

/// Removing a position keeps the list sorted.
pub proof fn lemma_remove_sorted<V>(s: Seq<(String, V)>, i: int)
    requires
        keys_sorted(s),
        0 <= i < s.len(),
    ensures
        keys_sorted(s.remove(i)),
{
    let t = s.remove(i);
    assert forall|a: int, b: int| 0 <= a < b < t.len() implies crate::text::seq_lt(#[trigger] t[a].0@, #[trigger] t[b].0@) by {
        let a2 = if a < i { a } else { a + 1 };
        let b2 = if b < i { b } else { b + 1 };
        assert(t[a] == s[a2]);
        assert(t[b] == s[b2]);
    }
}

/// In a sorted list, a key occurs at most once.
pub proof fn lemma_sorted_unique<V>(s: Seq<(String, V)>, i: int, j: int)
    requires
        keys_sorted(s),
        0 <= i < s.len(),
        0 <= j < s.len(),
        s[i].0@ == s[j].0@,
    ensures
        i == j,
{
    if i < j {
        crate::text::lemma_seq_lt_irreflexive(s[i].0@);
    } else if j < i {
        crate::text::lemma_seq_lt_irreflexive(s[i].0@);
    }
}

/// The map that a list of key-value entries denotes (a later entry wins
/// over an earlier one with the same key).
pub open spec fn assoc<V>(s: Seq<(String, V)>) -> Map<Seq<char>, V>
    decreases s.len(),
{
    if s.len() == 0 {
        Map::empty()
    } else {
        assoc(s.subrange(0, s.len() - 1)).insert(s[s.len() - 1].0@, s[s.len() - 1].1)
    }
}

/// Whether some entry of `s` has key `k`.
pub open spec fn has_entry<V>(s: Seq<(String, V)>, k: Seq<char>) -> bool {
    exists|i: int| 0 <= i < s.len() && (#[trigger] s[i]).0@ == k
}

proof fn lemma_sorted_prefix<V>(s: Seq<(String, V)>)
    requires
        keys_sorted(s),
        s.len() > 0,
    ensures
        keys_sorted(s.subrange(0, s.len() - 1)),
{
    let p = s.subrange(0, s.len() - 1);
    assert forall|a: int, b: int| 0 <= a < b < p.len() implies crate::text::seq_lt(#[trigger] p[a].0@, #[trigger] p[b].0@) by {
        assert(p[a] == s[a] && p[b] == s[b]);
    }
}

pub proof fn lemma_assoc_dom<V>(s: Seq<(String, V)>, k: Seq<char>)
    ensures
        assoc(s).contains_key(k) <==> has_entry(s, k),
    decreases s.len(),
{
    if s.len() > 0 {
        let p = s.subrange(0, s.len() - 1);
        lemma_assoc_dom(p, k);
        if has_entry(p, k) {
            let i = choose|i: int| 0 <= i < p.len() && (#[trigger] p[i]).0@ == k;
            assert(s[i] == p[i]);
        }
        if has_entry(s, k) {
            let i = choose|i: int| 0 <= i < s.len() && (#[trigger] s[i]).0@ == k;
            if i < s.len() - 1 {
                assert(p[i] == s[i]);
            }
        }
    }
}

pub proof fn lemma_assoc_at<V>(s: Seq<(String, V)>, i: int)
    requires
        keys_sorted(s),
        0 <= i < s.len(),
    ensures
        assoc(s).contains_key(s[i].0@),
        assoc(s)[s[i].0@] == s[i].1,
    decreases s.len(),
{
    let p = s.subrange(0, s.len() - 1);
    if i < s.len() - 1 {
        lemma_sorted_prefix(s);
        lemma_assoc_at(p, i);
        assert(p[i] == s[i]);
        crate::text::lemma_seq_lt_irreflexive(s[i].0@);
    }
}

/// A key that sorts strictly between the neighbours `locate` reported is
/// absent.
pub proof fn lemma_assoc_absent<V>(s: Seq<(String, V)>, k: Seq<char>, i: int)
    requires
        0 <= i <= s.len(),
        forall|j: int| 0 <= j < i ==> crate::text::seq_lt(#[trigger] s[j].0@, k),
        forall|j: int| i <= j < s.len() ==> crate::text::seq_lt(k, #[trigger] s[j].0@),
    ensures
        !assoc(s).contains_key(k),
{
    lemma_assoc_dom(s, k);
    if has_entry(s, k) {
        let j = choose|j: int| 0 <= j < s.len() && (#[trigger] s[j]).0@ == k;
        crate::text::lemma_seq_lt_irreflexive(k);
        if j < i {
            assert(crate::text::seq_lt(s[j].0@, k));
        } else {
            assert(crate::text::seq_lt(k, s[j].0@));
        }
    }
}

proof fn lemma_assoc_char<V>(s: Seq<(String, V)>, k: Seq<char>)
    requires
        keys_sorted(s),
    ensures
        assoc(s).contains_key(k) <==> has_entry(s, k),
        has_entry(s, k) ==> exists|i: int| 0 <= i < s.len() && (#[trigger] s[i]).0@ == k && assoc(s)[k] == s[i].1,
{
    lemma_assoc_dom(s, k);
    if has_entry(s, k) {
        let i = choose|i: int| 0 <= i < s.len() && (#[trigger] s[i]).0@ == k;
        lemma_assoc_at(s, i);
    }
}

/// Inserting a new key where `locate` placed it inserts it into the map.
pub proof fn lemma_assoc_insert<V>(s: Seq<(String, V)>, i: int, e: (String, V))
    requires
        keys_sorted(s),
        0 <= i <= s.len(),
        forall|k: int| 0 <= k < i ==> crate::text::seq_lt(#[trigger] s[k].0@, e.0@),
        forall|k: int| i <= k < s.len() ==> crate::text::seq_lt(e.0@, #[trigger] s[k].0@),
    ensures
        keys_sorted(s.insert(i, e)),
        assoc(s.insert(i, e)) == assoc(s).insert(e.0@, e.1),
{
    let t = s.insert(i, e);
    lemma_insert_sorted(s, i, e);
    assert forall|k: Seq<char>| #![trigger assoc(t).contains_key(k)]
        assoc(t).contains_key(k) == assoc(s).insert(e.0@, e.1).contains_key(k)
        && (assoc(t).contains_key(k) ==> assoc(t)[k] == assoc(s).insert(e.0@, e.1)[k]) by {
        lemma_assoc_char(t, k);
        lemma_assoc_char(s, k);
        if has_entry(t, k) {
            let j = choose|j: int| 0 <= j < t.len() && (#[trigger] t[j]).0@ == k && assoc(t)[k] == t[j].1;
            if j != i {
                let j2 = if j < i { j } else { j - 1 };
                assert(t[j] == s[j2]);
                assert(has_entry(s, k));
                lemma_assoc_at(t, i);
                if k == e.0@ {
                    lemma_sorted_unique(t, i, j);
                }
                let j3 = choose|j3: int| 0 <= j3 < s.len() && (#[trigger] s[j3]).0@ == k && assoc(s)[k] == s[j3].1;
                lemma_sorted_unique(s, j2, j3);
            }
        } else {
            assert(t[i].0@ == e.0@);
            if has_entry(s, k) {
                let j = choose|j: int| 0 <= j < s.len() && (#[trigger] s[j]).0@ == k;
                let j2 = if j < i { j } else { j + 1 };
                assert(t[j2] == s[j]);
            }
        }
    }
    assert(assoc(t) =~= assoc(s).insert(e.0@, e.1));
}

/// Replacing the value under an existing key updates the map.
pub proof fn lemma_assoc_update<V>(s: Seq<(String, V)>, i: int, e: (String, V))
    requires
        keys_sorted(s),
        0 <= i < s.len(),
        e.0@ == s[i].0@,
    ensures
        keys_sorted(s.update(i, e)),
        assoc(s.update(i, e)) == assoc(s).insert(e.0@, e.1),
{
    let t = s.update(i, e);
    lemma_update_sorted(s, i, e);
    assert forall|k: Seq<char>| #![trigger assoc(t).contains_key(k)]
        assoc(t).contains_key(k) == assoc(s).insert(e.0@, e.1).contains_key(k)
        && (assoc(t).contains_key(k) ==> assoc(t)[k] == assoc(s).insert(e.0@, e.1)[k]) by {
        lemma_assoc_char(t, k);
        lemma_assoc_char(s, k);
        if has_entry(t, k) {
            let j = choose|j: int| 0 <= j < t.len() && (#[trigger] t[j]).0@ == k && assoc(t)[k] == t[j].1;
            if j != i {
                assert(t[j] == s[j]);
                let j3 = choose|j3: int| 0 <= j3 < s.len() && (#[trigger] s[j3]).0@ == k && assoc(s)[k] == s[j3].1;
                lemma_sorted_unique(s, j, j3);
                if k == e.0@ {
                    lemma_sorted_unique(t, i, j);
                }
            }
        } else {
            assert(t[i].0@ == e.0@);
            if has_entry(s, k) {
                let j = choose|j: int| 0 <= j < s.len() && (#[trigger] s[j]).0@ == k;
                assert(t[j].0@ == s[j].0@);
            }
        }
    }
    assert(assoc(t) =~= assoc(s).insert(e.0@, e.1));
}

/// Removing an entry removes its key from the map.
pub proof fn lemma_assoc_remove<V>(s: Seq<(String, V)>, i: int)
    requires
        keys_sorted(s),
        0 <= i < s.len(),
    ensures
        keys_sorted(s.remove(i)),
        assoc(s.remove(i)) == assoc(s).remove(s[i].0@),
{
    let t = s.remove(i);
    lemma_remove_sorted(s, i);
    assert forall|k: Seq<char>| #![trigger assoc(t).contains_key(k)]
        assoc(t).contains_key(k) == assoc(s).remove(s[i].0@).contains_key(k)
        && (assoc(t).contains_key(k) ==> assoc(t)[k] == assoc(s).remove(s[i].0@)[k]) by {
        lemma_assoc_char(t, k);
        lemma_assoc_char(s, k);
        if has_entry(t, k) {
            let j = choose|j: int| 0 <= j < t.len() && (#[trigger] t[j]).0@ == k && assoc(t)[k] == t[j].1;
            let j2 = if j < i { j } else { j + 1 };
            assert(t[j] == s[j2]);
            let j3 = choose|j3: int| 0 <= j3 < s.len() && (#[trigger] s[j3]).0@ == k && assoc(s)[k] == s[j3].1;
            lemma_sorted_unique(s, j2, j3);
            if k == s[i].0@ {
                lemma_sorted_unique(s, j2, i);
            }
        } else {
            if has_entry(s, k) {
                let j = choose|j: int| 0 <= j < s.len() && (#[trigger] s[j]).0@ == k;
                if j != i {
                    let j2 = if j < i { j } else { j - 1 };
                    assert(t[j2] == s[j]);
                }
            }
        }
    }
    assert(assoc(t) =~= assoc(s).remove(s[i].0@));
}

/// A sorted list denotes a finite map with as many keys as entries.
pub proof fn lemma_assoc_len<V>(s: Seq<(String, V)>)
    requires
        keys_sorted(s),
    ensures
        assoc(s).dom().finite(),
        assoc(s).dom().len() == s.len(),
    decreases s.len(),
{
    if s.len() > 0 {
        let p = s.subrange(0, s.len() - 1);
        lemma_sorted_prefix(s);
        lemma_assoc_len(p);
        let k = s[s.len() - 1].0@;
        lemma_assoc_dom(p, k);
        if has_entry(p, k) {
            let j = choose|j: int| 0 <= j < p.len() && (#[trigger] p[j]).0@ == k;
            assert(p[j] == s[j]);
            lemma_sorted_unique(s, j, s.len() - 1);
        }
    }
}

} // verus!
