//! A prefix trie keyed by path components.
//!
//! Each node may hold a value and has children indexed by component. The
//! trie is described by two functions of a path: the node it reaches
//! (`node_at`) and the value stored there (`value_at`); `values` gathers
//! the second into a map from paths to values.

use vstd::prelude::*;

use crate::path::{path_has_prefix, valid_component, valid_path, Path};
use crate::strmap::{keys_sorted, lemma_insert_sorted, lemma_remove_sorted, lemma_sorted_unique, locate};
use crate::path_order::path_lt;
use crate::text::to_owned_string;

verus! {

/// A prefix trie keyed by path components.
///
/// Children are kept sorted by component, so iteration visits paths in
/// component order.
#[derive(Debug)]
pub struct PathTrie<T> {
    value: Option<T>,
    children: Vec<(String, PathTrie<T>)>,
}

/// Whether some entry of a child list has key `key`.
pub open spec fn has_child_key<T>(s: Seq<(String, PathTrie<T>)>, key: Seq<char>) -> bool {
    exists|i: int| 0 <= i < s.len() && (#[trigger] s[i]).0@ == key
}

/// A position of an entry with key `key`, when there is one.
pub open spec fn child_index<T>(s: Seq<(String, PathTrie<T>)>, key: Seq<char>) -> int {
    choose|i: int| 0 <= i < s.len() && (#[trigger] s[i]).0@ == key
}

/// The node stored under `key` in a child list, if any.
pub open spec fn child_in<T>(s: Seq<(String, PathTrie<T>)>, key: Seq<char>) -> Option<PathTrie<T>> {
    if has_child_key(s, key) {
        Some(s[child_index(s, key)].1)
    } else {
        None
    }
}

impl<T> PathTrie<T> {
    #[verifier::type_invariant]
    closed spec fn wf(self) -> bool {
        &&& keys_sorted(self.children@)
        &&& forall|i: int| 0 <= i < self.children@.len() ==> valid_component(#[trigger] self.children@[i].0@)
    }

    /// The value held by this node itself.
    pub closed spec fn own(self) -> Option<T> {
        self.value
    }

    /// The child node under `key`.
    pub closed spec fn child(self, key: Seq<char>) -> Option<PathTrie<T>> {
        child_in(self.children@, key)
    }

    /// The node that `p` leads to from this one.
    pub open spec fn node_at(self, p: Seq<Seq<char>>) -> Option<PathTrie<T>>
        decreases p.len(),
    {
        if p.len() == 0 {
            Some(self)
        } else {
            match self.child(p[0]) {
                Some(c) => c.node_at(p.drop_first()),
                None => None,
            }
        }
    }

    /// The value stored at `p`.
    pub open spec fn value_at(self, p: Seq<Seq<char>>) -> Option<T> {
        match self.node_at(p) {
            Some(n) => n.own(),
            None => None,
        }
    }

    /// Whether `p` leads to a node, with or without a value.
    pub open spec fn has_node(self, p: Seq<Seq<char>>) -> bool {
        self.node_at(p) is Some
    }

    /// Every path that holds a value, with its value.
    pub open spec fn values(self) -> Map<Seq<Seq<char>>, T> {
        Map::new(|p: Seq<Seq<char>>| self.value_at(p) is Some, |p: Seq<Seq<char>>| self.value_at(p)->Some_0)
    }

    /// Whether this node holds nothing and has no children.
    pub closed spec fn bare(self) -> bool {
        self.value is None && self.children@.len() == 0
    }

    /// A node with no value and no children has no node below it and no
    /// value anywhere.
    pub proof fn lemma_bare(self, p: Seq<Seq<char>>)
        requires
            self.bare(),
        ensures
            self.has_node(p) <==> p.len() == 0,
            self.value_at(p) is None,
    {
        if p.len() > 0 {
            assert(self.child(p[0]) is None);
        }
    }

    /// Following `p` then `q` is following `p + q`.
    pub proof fn lemma_node_at_concat(self, p: Seq<Seq<char>>, q: Seq<Seq<char>>)
        ensures
            self.node_at(p + q) == match self.node_at(p) {
                Some(n) => n.node_at(q),
                None => None,
            },
        decreases p.len(),
    {
        if p.len() > 0 {
            assert((p + q)[0] == p[0]);
            assert((p + q).drop_first() =~= p.drop_first() + q);
            match self.child(p[0]) {
                Some(c) => c.lemma_node_at_concat(p.drop_first(), q),
                None => {},
            }
        } else {
            assert(p + q =~= q);
        }
    }

    /// A path with one more component leads to a child of the node the
    /// shorter path leads to.
    pub proof fn lemma_node_at_push(self, p: Seq<Seq<char>>, c: Seq<char>)
        ensures
            self.node_at(p.push(c)) == match self.node_at(p) {
                Some(n) => n.child(c),
                None => None,
            },
    {
        self.lemma_node_at_concat(p, seq![c]);
        assert(p + seq![c] =~= p.push(c));
        match self.node_at(p) {
            Some(n) => {
                assert(seq![c][0] == c);
                assert(seq![c].drop_first() =~= Seq::<Seq<char>>::empty());
                match n.child(c) {
                    Some(ch) => {
                        assert(ch.node_at(Seq::<Seq<char>>::empty()) == Some(ch));
                    },
                    None => {},
                }
            },
            None => {},
        }
    }
}

// ---------------------------------------------------------------------
// Child lists
// ---------------------------------------------------------------------

proof fn lemma_child_at<T>(s: Seq<(String, PathTrie<T>)>, j: int)
    requires
        keys_sorted(s),
        0 <= j < s.len(),
    ensures
        child_in(s, s[j].0@) == Some(s[j].1),
{
    let k = s[j].0@;
    assert(has_child_key(s, k));
    let c = child_index(s, k);
    lemma_sorted_unique(s, c, j);
}

/// Replacing the node under an existing key changes only that key.
proof fn lemma_child_update<T>(s: Seq<(String, PathTrie<T>)>, j: int, e: (String, PathTrie<T>), key: Seq<char>)
    requires
        keys_sorted(s),
        0 <= j < s.len(),
        e.0@ == s[j].0@,
    ensures
        keys_sorted(s.update(j, e)),
        child_in(s.update(j, e), key) == if key == e.0@ {
            Some(e.1)
        } else {
            child_in(s, key)
        },
{
    let t = s.update(j, e);
    crate::strmap::lemma_update_sorted(s, j, e);
    if key == e.0@ {
        lemma_child_at(t, j);
    } else {
        if has_child_key(t, key) {
            let i = choose|i: int| 0 <= i < t.len() && (#[trigger] t[i]).0@ == key;
            lemma_child_at(t, i);
            assert(s[i] == t[i]);
            lemma_child_at(s, i);
        } else {
            if has_child_key(s, key) {
                let i = choose|i: int| 0 <= i < s.len() && (#[trigger] s[i]).0@ == key;
                assert(t[i] == s[i]);
            }
        }
    }
}

/// Inserting a new key where `locate` placed it adds only that key.
proof fn lemma_child_insert<T>(s: Seq<(String, PathTrie<T>)>, j: int, e: (String, PathTrie<T>), key: Seq<char>)
    requires
        keys_sorted(s),
        0 <= j <= s.len(),
        forall|k: int| 0 <= k < j ==> crate::text::seq_lt(#[trigger] s[k].0@, e.0@),
        forall|k: int| j <= k < s.len() ==> crate::text::seq_lt(e.0@, #[trigger] s[k].0@),
    ensures
        keys_sorted(s.insert(j, e)),
        child_in(s.insert(j, e), key) == if key == e.0@ {
            Some(e.1)
        } else {
            child_in(s, key)
        },
{
    let t = s.insert(j, e);
    lemma_insert_sorted(s, j, e);
    assert(t[j] == e);
    if key == e.0@ {
        lemma_child_at(t, j);
    } else {
        if has_child_key(t, key) {
            let i = choose|i: int| 0 <= i < t.len() && (#[trigger] t[i]).0@ == key;
            lemma_child_at(t, i);
            let i2 = if i < j { i } else { i - 1 };
            assert(s[i2] == t[i]);
            lemma_child_at(s, i2);
        } else {
            if has_child_key(s, key) {
                let i = choose|i: int| 0 <= i < s.len() && (#[trigger] s[i]).0@ == key;
                let i2 = if i < j { i } else { i + 1 };
                assert(t[i2] == s[i]);
            }
        }
    }
}

/// Removing an entry removes only its key.
proof fn lemma_child_remove<T>(s: Seq<(String, PathTrie<T>)>, j: int, key: Seq<char>)
    requires
        keys_sorted(s),
        0 <= j < s.len(),
    ensures
        keys_sorted(s.remove(j)),
        child_in(s.remove(j), key) == if key == s[j].0@ {
            None
        } else {
            child_in(s, key)
        },
{
    let t = s.remove(j);
    lemma_remove_sorted(s, j);
    if has_child_key(t, key) {
        let i = choose|i: int| 0 <= i < t.len() && (#[trigger] t[i]).0@ == key;
        lemma_child_at(t, i);
        let i2 = if i < j { i } else { i + 1 };
        assert(s[i2] == t[i]);
        lemma_child_at(s, i2);
        if key == s[j].0@ {
            lemma_sorted_unique(s, i2, j);
        }
    } else {
        if key != s[j].0@ {
            if has_child_key(s, key) {
                let i = choose|i: int| 0 <= i < s.len() && (#[trigger] s[i]).0@ == key;
                let i2 = if i < j { i } else { i - 1 };
                assert(t[i2] == s[i]);
            }
        }
    }
}

/// A key that `locate` did not find is absent.
proof fn lemma_child_absent<T>(s: Seq<(String, PathTrie<T>)>, j: int, key: Seq<char>)
    requires
        0 <= j <= s.len(),
        forall|k: int| 0 <= k < j ==> crate::text::seq_lt(#[trigger] s[k].0@, key),
        forall|k: int| j <= k < s.len() ==> crate::text::seq_lt(key, #[trigger] s[k].0@),
    ensures
        child_in(s, key) is None,
{
    if has_child_key(s, key) {
        let i = choose|i: int| 0 <= i < s.len() && (#[trigger] s[i]).0@ == key;
        crate::text::lemma_seq_lt_irreflexive(key);
        if i < j {
            assert(crate::text::seq_lt(s[i].0@, key));
        } else {
            assert(crate::text::seq_lt(key, s[i].0@));
        }
    }
}

// ---------------------------------------------------------------------
// Reading
// ---------------------------------------------------------------------

impl<T> PathTrie<T> {
    /// An empty trie.
    pub fn new() -> (r: PathTrie<T>)
        ensures
            r.bare(),
            forall|p: Seq<Seq<char>>| #[trigger] r.has_node(p) <==> p.len() == 0,
            r.values() == Map::<Seq<Seq<char>>, T>::empty(),
    {
        let r = PathTrie { value: None, children: Vec::new() };
        assert forall|p: Seq<Seq<char>>| #[trigger] r.has_node(p) <==> p.len() == 0 by {
            r.lemma_bare(p);
        }
        assert forall|p: Seq<Seq<char>>| !(#[trigger] r.values().contains_key(p)) by {
            r.lemma_bare(p);
        }
        assert(r.values() =~= Map::<Seq<Seq<char>>, T>::empty());
        r
    }

    /// The child node under `key`, found by search in the sorted list.
    fn find_child(&self, key: &str) -> (r: Option<&PathTrie<T>>)
        ensures
            match r {
                Some(c) => self.child(key@) == Some(*c),
                None => self.child(key@) is None,
            },
    {
        proof {
            use_type_invariant(self);
        }
        let (found, i) = locate(&self.children, key);
        if found {
            proof {
                lemma_child_at(self.children@, i as int);
            }
            Some(&self.children[i].1)
        } else {
            proof {
                lemma_child_absent(self.children@, i as int, key@);
            }
            None
        }
    }

    /// The node that `path[i..]` leads to.
    fn node_from(&self, path: &Path, i: usize) -> (r: Option<&PathTrie<T>>)
        requires
            i <= path@.len(),
        ensures
            match r {
                Some(n) => self.node_at(path@.skip(i as int)) == Some(*n),
                None => self.node_at(path@.skip(i as int)) is None,
            },
        decreases path@.len() - i,
    {
        if i == path.len() {
            assert(path@.skip(i as int) =~= Seq::<Seq<char>>::empty());
            return Some(self);
        }
        let c = path.component(i);
        assert(path@.skip(i as int)[0] == c@);
        assert(path@.skip(i as int).drop_first() =~= path@.skip(i + 1));
        match self.find_child(c) {
            Some(child) => child.node_from(path, i + 1),
            None => None,
        }
    }

    /// The value at exactly `path`.
    pub fn get(&self, path: &Path) -> (r: Option<&T>)
        ensures
            match r {
                Some(v) => self.values().contains_key(path@) && self.values()[path@] == *v,
                None => !self.values().contains_key(path@),
            },
    {
        assert(path@.skip(0) =~= path@);
        match self.node_from(path, 0) {
            Some(n) => n.value.as_ref(),
            None => None,
        }
    }

    /// The subtrie at `path`, with or without a value there.
    pub fn get_subtrie(&self, path: &Path) -> (r: Option<&PathTrie<T>>)
        ensures
            match r {
                Some(n) => self.node_at(path@) == Some(*n),
                None => !self.has_node(path@),
            },
    {
        assert(path@.skip(0) =~= path@);
        self.node_from(path, 0)
    }

    /// Whether exactly `path` holds a value.
    pub fn contains_value(&self, path: &Path) -> (r: bool)
        ensures
            r == self.values().contains_key(path@),
    {
        self.get(path).is_some()
    }
}

// ---------------------------------------------------------------------
// Writing
// ---------------------------------------------------------------------

/// `P` is `c` followed by `P'`: how a path below a node splits into the
/// child it enters and the rest.
proof fn lemma_split(p: Seq<Seq<char>>, c: Seq<char>, rest: Seq<Seq<char>>, q: Seq<Seq<char>>)
    requires
        p.len() > 0,
        p[0] == c,
        p.drop_first() == rest,
        q.len() > 0,
    ensures
        (q == p) <==> (q[0] == c && q.drop_first() == rest),
        path_has_prefix(p, q) <==> (q[0] == c && path_has_prefix(rest, q.drop_first())),
        path_has_prefix(q, p) <==> (q[0] == c && path_has_prefix(q.drop_first(), rest)),
{
    if q[0] == c && path_has_prefix(q.drop_first(), rest) {
        assert forall|k: int| 0 <= k < p.len() implies q.subrange(0, p.len() as int)[k] == p[k] by {
            if k > 0 {
                assert(q[k] == q.drop_first()[k - 1]);
                assert(p[k] == p.drop_first()[k - 1]);
                assert(q.drop_first()[k - 1] == q.drop_first().subrange(0, rest.len() as int)[k - 1]);
            }
        }
        assert(q.subrange(0, p.len() as int) =~= p);
    }
    if path_has_prefix(q, p) {
        assert(p[0] == q.subrange(0, p.len() as int)[0]);
        assert(q.drop_first().subrange(0, rest.len() as int) =~= rest);
    }
    if q[0] == c && q.drop_first() == rest {
        assert forall|k: int| 0 <= k < q.len() implies q[k] == p[k] by {
            if k > 0 {
                assert(q[k] == q.drop_first()[k - 1]);
                assert(p[k] == p.drop_first()[k - 1]);
            }
        }
        assert(q =~= p);
    }
    if q[0] == c && path_has_prefix(rest, q.drop_first()) {
        assert forall|k: int| 0 <= k < q.len() implies p.subrange(0, q.len() as int)[k] == q[k] by {
            if k > 0 {
                assert(q[k] == q.drop_first()[k - 1]);
                assert(p[k] == p.drop_first()[k - 1]);
                assert(q.drop_first()[k - 1] == rest.subrange(0, q.len() - 1)[k - 1]);
            }
        }
        assert(p.subrange(0, q.len() as int) =~= q);
    }
    if path_has_prefix(p, q) {
        assert(q[0] == p.subrange(0, q.len() as int)[0]);
        assert(rest.subrange(0, q.len() - 1) =~= q.drop_first());
    }
}

impl<T> PathTrie<T> {
    /// Sets the value at `path[i..]` below this node, creating nodes on
    /// the way; returns the value it replaces.
    fn insert_from(&mut self, path: &Path, i: usize, value: T) -> (r: Option<T>)
        requires
            i <= path@.len(),
        ensures
            r == old(self).value_at(path@.skip(i as int)),
            forall|q: Seq<Seq<char>>| #[trigger] final(self).value_at(q) == if q == path@.skip(i as int) {
                Some(value)
            } else {
                old(self).value_at(q)
            },
            forall|q: Seq<Seq<char>>| #[trigger] final(self).has_node(q) == (old(self).has_node(q) || path_has_prefix(path@.skip(i as int), q)),
        decreases path@.len() - i,
    {
        proof {
            use_type_invariant(&*self);
        }
        let ghost old_self = *self;
        let ghost p = path@.skip(i as int);
        if i == path.len() {
            let mut r = Some(value);
            std::mem::swap(&mut r, &mut self.value);
            proof {
                assert(p =~= Seq::<Seq<char>>::empty());
                assert forall|q: Seq<Seq<char>>| #[trigger] self.value_at(q) == if q == p {
                    Some(value)
                } else {
                    old_self.value_at(q)
                } by {
                    if q.len() > 0 {
                        assert(self.child(q[0]) == old_self.child(q[0]));
                    } else {
                        assert(q =~= p);
                    }
                }
                assert forall|q: Seq<Seq<char>>| #[trigger] self.has_node(q) == (old_self.has_node(q) || path_has_prefix(p, q)) by {
                    if q.len() > 0 {
                        assert(self.child(q[0]) == old_self.child(q[0]));
                    }
                }
            }
            return r;
        }
        path.assert_valid();
        let c = path.component(i);
        let ghost rest = path@.skip(i + 1);
        assert(p[0] == c@);
        assert(p.drop_first() =~= rest);
        let mut cs: Vec<(String, PathTrie<T>)> = Vec::new();
        std::mem::swap(&mut cs, &mut self.children);
        let ghost s = cs@;
        let (found, idx) = locate(&cs, c);
        let mut child: PathTrie<T>;
        let key: String;
        if found {
            proof {
                lemma_child_at(s, idx as int);
                lemma_remove_sorted(s, idx as int);
            }
            let (k, ch) = cs.remove(idx);
            key = k;
            child = ch;
        } else {
            proof {
                lemma_child_absent(s, idx as int, c@);
            }
            key = to_owned_string(c);
            child = PathTrie::new();
        }
        let ghost child0 = child;
        let r = child.insert_from(path, i + 1, value);
        let ghost e = (key, child);
        cs.insert(idx, (key, child));
        proof {
            if found {
                assert(cs@ =~= s.update(idx as int, e));
            } else {
                assert(cs@ =~= s.insert(idx as int, e));
            }
        }
        self.children = cs;
        proof {
            assert forall|k2: Seq<char>| #[trigger] self.child(k2) == if k2 == c@ {
                Some(e.1)
            } else {
                old_self.child(k2)
            } by {
                if found {
                    lemma_child_update(s, idx as int, e, k2);
                } else {
                    lemma_child_insert(s, idx as int, e, k2);
                }
            }
            assert forall|q: Seq<Seq<char>>| #[trigger] self.value_at(q) == if q == p {
                Some(value)
            } else {
                old_self.value_at(q)
            } by {
                if q.len() > 0 {
                    lemma_split(p, c@, rest, q);
                    assert(self.child(q[0]) == if q[0] == c@ { Some(e.1) } else { old_self.child(q[0]) });
                    if q[0] == c@ {
                        assert(self.value_at(q) == e.1.value_at(q.drop_first()));
                        if found {
                            assert(old_self.child(c@) == Some(child0));
                            assert(old_self.value_at(q) == child0.value_at(q.drop_first()));
                        } else {
                            child0.lemma_bare(q.drop_first());
                        }
                    }
                }
            }
            assert forall|q: Seq<Seq<char>>| #[trigger] self.has_node(q) == (old_self.has_node(q) || path_has_prefix(p, q)) by {
                if q.len() > 0 {
                    lemma_split(p, c@, rest, q);
                    assert(self.child(q[0]) == if q[0] == c@ { Some(e.1) } else { old_self.child(q[0]) });
                    if q[0] == c@ {
                        assert(self.has_node(q) == e.1.has_node(q.drop_first()));
                        if found {
                            assert(old_self.child(c@) == Some(child0));
                            assert(old_self.has_node(q) == child0.has_node(q.drop_first()));
                        } else {
                            child0.lemma_bare(q.drop_first());
                            if q.drop_first().len() == 0 {
                                assert(rest.subrange(0, 0) =~= q.drop_first());
                            }
                        }
                    }
                } else {
                    assert(path_has_prefix(p, q)) by {
                        assert(p.subrange(0, 0) =~= q);
                    }
                }
            }
            if !found {
                child0.lemma_bare(rest);
            }
        }
        r
    }
}

impl<T> PathTrie<T> {
    /// Takes the value at `path[i..]` below this node; nodes stay.
    fn remove_from(&mut self, path: &Path, i: usize) -> (r: Option<T>)
        requires
            i <= path@.len(),
        ensures
            r == old(self).value_at(path@.skip(i as int)),
            forall|q: Seq<Seq<char>>| #[trigger] final(self).value_at(q) == if q == path@.skip(i as int) {
                None
            } else {
                old(self).value_at(q)
            },
            forall|q: Seq<Seq<char>>| #[trigger] final(self).has_node(q) == old(self).has_node(q),
        decreases path@.len() - i,
    {
        proof {
            use_type_invariant(&*self);
        }
        let ghost old_self = *self;
        let ghost p = path@.skip(i as int);
        if i == path.len() {
            let mut r: Option<T> = None;
            std::mem::swap(&mut r, &mut self.value);
            proof {
                assert(p =~= Seq::<Seq<char>>::empty());
                assert forall|q: Seq<Seq<char>>| #[trigger] self.value_at(q) == if q == p {
                    None
                } else {
                    old_self.value_at(q)
                } by {
                    if q.len() > 0 {
                        assert(self.child(q[0]) == old_self.child(q[0]));
                    } else {
                        assert(q =~= p);
                    }
                }
                assert forall|q: Seq<Seq<char>>| #[trigger] self.has_node(q) == old_self.has_node(q) by {
                    if q.len() > 0 {
                        assert(self.child(q[0]) == old_self.child(q[0]));
                    }
                }
            }
            return r;
        }
        let c = path.component(i);
        let ghost rest = path@.skip(i + 1);
        assert(p[0] == c@);
        assert(p.drop_first() =~= rest);
        let mut cs: Vec<(String, PathTrie<T>)> = Vec::new();
        std::mem::swap(&mut cs, &mut self.children);
        let ghost s = cs@;
        let (found, idx) = locate(&cs, c);
        if !found {
            proof {
                lemma_child_absent(s, idx as int, c@);
            }
            self.children = cs;
            return None;
        }
        proof {
            lemma_child_at(s, idx as int);
            lemma_remove_sorted(s, idx as int);
        }
        let (key, mut child) = cs.remove(idx);
        let ghost child0 = child;
        let r = child.remove_from(path, i + 1);
        let ghost e = (key, child);
        cs.insert(idx, (key, child));
        assert(cs@ =~= s.update(idx as int, e));
        self.children = cs;
        proof {
            assert forall|k2: Seq<char>| #[trigger] self.child(k2) == if k2 == c@ {
                Some(e.1)
            } else {
                old_self.child(k2)
            } by {
                lemma_child_update(s, idx as int, e, k2);
            }
            assert(old_self.child(c@) == Some(child0));
            assert forall|q: Seq<Seq<char>>| #[trigger] self.value_at(q) == if q == p {
                None
            } else {
                old_self.value_at(q)
            } by {
                if q.len() > 0 {
                    lemma_split(p, c@, rest, q);
                    assert(self.child(q[0]) == if q[0] == c@ { Some(e.1) } else { old_self.child(q[0]) });
                    if q[0] == c@ {
                        assert(self.value_at(q) == e.1.value_at(q.drop_first()));
                        assert(old_self.value_at(q) == child0.value_at(q.drop_first()));
                    }
                }
            }
            assert forall|q: Seq<Seq<char>>| #[trigger] self.has_node(q) == old_self.has_node(q) by {
                if q.len() > 0 {
                    assert(self.child(q[0]) == if q[0] == c@ { Some(e.1) } else { old_self.child(q[0]) });
                    if q[0] == c@ {
                        assert(self.has_node(q) == e.1.has_node(q.drop_first()));
                        assert(old_self.has_node(q) == child0.has_node(q.drop_first()));
                    }
                }
            }
        }
        r
    }

    /// Set the value at `path`, creating nodes on the way. Returns the value
    /// it replaces.
    pub fn insert(&mut self, path: &Path, value: T) -> (r: Option<T>)
        ensures
            final(self).values() == old(self).values().insert(path@, value),
            match r {
                Some(v) => old(self).values().contains_key(path@) && old(self).values()[path@] == v,
                None => !old(self).values().contains_key(path@),
            },
            forall|q: Seq<Seq<char>>| #[trigger] final(self).has_node(q) == (old(self).has_node(q) || path_has_prefix(path@, q)),
    {
        assert(path@.skip(0) =~= path@);
        let r = self.insert_from(path, 0, value);
        assert(self.values() =~= old(self).values().insert(path@, value));
        r
    }

    /// Take the value at exactly `path`. Nodes below it, and the node
    /// itself, remain.
    pub fn remove(&mut self, path: &Path) -> (r: Option<T>)
        ensures
            final(self).values() == old(self).values().remove(path@),
            match r {
                Some(v) => old(self).values().contains_key(path@) && old(self).values()[path@] == v,
                None => !old(self).values().contains_key(path@),
            },
            forall|q: Seq<Seq<char>>| #[trigger] final(self).has_node(q) == old(self).has_node(q),
    {
        assert(path@.skip(0) =~= path@);
        let r = self.remove_from(path, 0);
        assert(self.values() =~= old(self).values().remove(path@));
        r
    }
}

impl<T> PathTrie<T> {
    /// Detaches the node at `path[i..]` below this node, `i` short of the
    /// end.
    fn remove_subtree_from(&mut self, path: &Path, i: usize) -> (r: Option<PathTrie<T>>)
        requires
            i < path@.len(),
        ensures
            r == old(self).node_at(path@.skip(i as int)),
            forall|q: Seq<Seq<char>>| #[trigger] final(self).has_node(q) == (old(self).has_node(q) && !path_has_prefix(q, path@.skip(i as int))),
            forall|q: Seq<Seq<char>>| #[trigger] final(self).value_at(q) == if path_has_prefix(q, path@.skip(i as int)) {
                None
            } else {
                old(self).value_at(q)
            },
        decreases path@.len() - i,
    {
        proof {
            use_type_invariant(&*self);
        }
        let ghost old_self = *self;
        let ghost p = path@.skip(i as int);
        let c = path.component(i);
        let ghost rest = path@.skip(i + 1);
        assert(p[0] == c@);
        assert(p.drop_first() =~= rest);
        let last = i == path.len() - 1;
        let mut cs: Vec<(String, PathTrie<T>)> = Vec::new();
        std::mem::swap(&mut cs, &mut self.children);
        let ghost s = cs@;
        let (found, idx) = locate(&cs, c);
        if !found {
            proof {
                lemma_child_absent(s, idx as int, c@);
            }
            self.children = cs;
            proof {
                assert forall|q: Seq<Seq<char>>| #[trigger] self.has_node(q) == (old_self.has_node(q) && !path_has_prefix(q, p)) by {
                    if q.len() > 0 {
                        lemma_split(p, c@, rest, q);
                    } else {
                        assert(!path_has_prefix(q, p));
                    }
                }
                assert forall|q: Seq<Seq<char>>| #[trigger] self.value_at(q) == if path_has_prefix(q, p) {
                    None
                } else {
                    old_self.value_at(q)
                } by {
                    if q.len() > 0 {
                        lemma_split(p, c@, rest, q);
                    }
                }
            }
            return None;
        }
        proof {
            lemma_child_at(s, idx as int);
            lemma_remove_sorted(s, idx as int);
        }
        if last {
            let (key, child) = cs.remove(idx);
            self.children = cs;
            proof {
                assert(rest =~= Seq::<Seq<char>>::empty());
                assert(child.node_at(rest) == Some(child));
                assert forall|k2: Seq<char>| #[trigger] self.child(k2) == if k2 == c@ {
                    None
                } else {
                    old_self.child(k2)
                } by {
                    lemma_child_remove(s, idx as int, k2);
                }
                assert forall|q: Seq<Seq<char>>| #[trigger] self.has_node(q) == (old_self.has_node(q) && !path_has_prefix(q, p)) by {
                    if q.len() > 0 {
                        lemma_split(p, c@, rest, q);
                        assert(q.drop_first().subrange(0, 0) =~= rest);
                    } else {
                        assert(!path_has_prefix(q, p));
                    }
                }
                assert forall|q: Seq<Seq<char>>| #[trigger] self.value_at(q) == if path_has_prefix(q, p) {
                    None
                } else {
                    old_self.value_at(q)
                } by {
                    if q.len() > 0 {
                        lemma_split(p, c@, rest, q);
                        assert(q.drop_first().subrange(0, 0) =~= rest);
                    }
                }
            }
            return Some(child);
        }
        let (key, mut child) = cs.remove(idx);
        let ghost child0 = child;
        let r = child.remove_subtree_from(path, i + 1);
        let ghost e = (key, child);
        cs.insert(idx, (key, child));
        assert(cs@ =~= s.update(idx as int, e));
        self.children = cs;
        proof {
            assert forall|k2: Seq<char>| #[trigger] self.child(k2) == if k2 == c@ {
                Some(e.1)
            } else {
                old_self.child(k2)
            } by {
                lemma_child_update(s, idx as int, e, k2);
            }
            assert(old_self.child(c@) == Some(child0));
            assert forall|q: Seq<Seq<char>>| #[trigger] self.has_node(q) == (old_self.has_node(q) && !path_has_prefix(q, p)) by {
                if q.len() > 0 {
                    lemma_split(p, c@, rest, q);
                    assert(self.child(q[0]) == if q[0] == c@ { Some(e.1) } else { old_self.child(q[0]) });
                    if q[0] == c@ {
                        assert(self.has_node(q) == e.1.has_node(q.drop_first()));
                        assert(old_self.has_node(q) == child0.has_node(q.drop_first()));
                    }
                } else {
                    assert(!path_has_prefix(q, p));
                }
            }
            assert forall|q: Seq<Seq<char>>| #[trigger] self.value_at(q) == if path_has_prefix(q, p) {
                None
            } else {
                old_self.value_at(q)
            } by {
                if q.len() > 0 {
                    lemma_split(p, c@, rest, q);
                    assert(self.child(q[0]) == if q[0] == c@ { Some(e.1) } else { old_self.child(q[0]) });
                    if q[0] == c@ {
                        assert(self.value_at(q) == e.1.value_at(q.drop_first()));
                        assert(old_self.value_at(q) == child0.value_at(q.drop_first()));
                    }
                }
            }
        }
        r
    }

    /// Detach the whole subtree at `path`, if a node is there.
    ///
    /// At the root the trie is emptied, and the old contents come back
    /// unless they were empty of values and children.
    pub fn remove_subtree(&mut self, path: &Path) -> (r: Option<PathTrie<T>>)
        ensures
            path@.len() == 0 ==> final(self).bare() && r == if old(self).bare() {
                None
            } else {
                Some(*old(self))
            },
            path@.len() > 0 ==> {
                &&& r == old(self).node_at(path@)
                &&& forall|q: Seq<Seq<char>>| #[trigger] final(self).has_node(q) == (old(self).has_node(q) && !path_has_prefix(q, path@))
                &&& forall|q: Seq<Seq<char>>| #[trigger] final(self).value_at(q) == if path_has_prefix(q, path@) {
                    None
                } else {
                    old(self).value_at(q)
                }
            },
    {
        if path.is_empty() {
            let mut old = PathTrie::new();
            std::mem::swap(&mut old, self);
            if old.value.is_some() || old.children.len() > 0 {
                return Some(old);
            } else {
                return None;
            }
        }
        assert(path@.skip(0) =~= path@);
        self.remove_subtree_from(path, 0)
    }
}

// ---------------------------------------------------------------------
// Finiteness
// ---------------------------------------------------------------------

/// The paths with values below the first `i` children of `t`.
spec fn fronted<T>(t: PathTrie<T>, i: int) -> Set<Seq<Seq<char>>> {
    Set::new(
        |p: Seq<Seq<char>>|
            p.len() > 0 && exists|j: int|
                0 <= j < i && p[0] == (#[trigger] t.children@[j]).0@ && t.children@[j].1.values().contains_key(
                    p.drop_first(),
                ),
    )
}

/// Finitely many paths hold a value in a trie.
pub proof fn lemma_values_finite<T>(t: PathTrie<T>)
    ensures
        t.values().dom().finite(),
{
    lemma_values_finite_rec(t);
}

/// A trie holds no value exactly when it counts none: `is_empty` agrees
/// with `len() == 0`, whatever bare nodes remain.
pub proof fn lemma_empty_iff_len_zero<T>(t: PathTrie<T>)
    ensures
        (forall|q: Seq<Seq<char>>| #[trigger] t.value_at(q) is None) <==> t.values().len() == 0,
{
    lemma_values_finite_rec(t);
    if t.values().len() == 0 {
        assert forall|q: Seq<Seq<char>>| #[trigger] t.value_at(q) is None by {
            if t.value_at(q) is Some {
                assert(t.values().dom().contains(q));
            }
        }
    }
    if forall|q: Seq<Seq<char>>| #[trigger] t.value_at(q) is None {
        assert(t.values().dom() =~= Set::<Seq<Seq<char>>>::empty());
    }
}

proof fn lemma_values_finite_rec<T>(t: PathTrie<T>)
    ensures
        t.values().dom().finite(),
    decreases t, t.children@.len() + 1,
{
    let n = t.children@.len() as int;
    lemma_fronted_finite(t, n);
    let own = if t.value is Some {
        set![Seq::<Seq<char>>::empty()]
    } else {
        Set::<Seq<Seq<char>>>::empty()
    };
    assert forall|p: Seq<Seq<char>>| #[trigger] t.values().dom().contains(p) implies (own + fronted(t, n)).contains(p) by {
        if p.len() > 0 {
            let ks = t.children@;
            assert(has_child_key(ks, p[0]));
            let j = child_index(ks, p[0]);
            assert(t.child(p[0]) == Some(ks[j].1));
            assert(fronted(t, n).contains(p));
        } else {
            assert(p =~= Seq::<Seq<char>>::empty());
        }
    }
    vstd::set_lib::lemma_set_subset_finite(own + fronted(t, n), t.values().dom());
}

proof fn lemma_fronted_finite<T>(t: PathTrie<T>, i: int)
    requires
        0 <= i <= t.children@.len(),
    ensures
        fronted(t, i).finite(),
    decreases t, i,
{
    if i == 0 {
        assert(fronted(t, 0) =~= Set::<Seq<Seq<char>>>::empty());
    } else {
        let k = t.children@[i - 1].0@;
        let c = t.children@[i - 1].1;
        assert(decreases_to!(t => t.children));
        assert(decreases_to!(t.children => t.children[i - 1]));
        assert(decreases_to!(t.children[i - 1] => t.children[i - 1].1));
        lemma_values_finite_rec(c);
        lemma_fronted_finite(t, i - 1);
        let front = |q: Seq<Seq<char>>| seq![k] + q;
        c.values().dom().lemma_map_finite(front);
        let below = c.values().dom().map(front);
        assert forall|p: Seq<Seq<char>>| #[trigger] fronted(t, i).contains(p) implies (fronted(t, i - 1) + below).contains(p) by {
            let j = choose|j: int|
                0 <= j < i && p[0] == (#[trigger] t.children@[j]).0@ && t.children@[j].1.values().contains_key(
                    p.drop_first(),
                );
            if j == i - 1 {
                assert(front(p.drop_first()) =~= p);
                assert(c.values().dom().contains(p.drop_first()));
            } else {
                assert(fronted(t, i - 1).contains(p));
            }
        }
        vstd::set_lib::lemma_set_subset_finite(fronted(t, i - 1) + below, fronted(t, i));
    }
}

impl<T> PathTrie<T> {
    /// The number of values in the trie (not of nodes): the number of
    /// paths that hold a value, of which there are finitely many.
    pub fn len(&self) -> (r: usize)
        ensures
            self.values().dom().finite(),
            r == self.values().len(),
    {
        let all = self.iter();
        proof {
            let ps = all@.map_values(|e: (Path, &T)| e.0@);
            assert forall|a: int, b: int| 0 <= a < ps.len() && 0 <= b < ps.len() && a != b implies ps[a] != ps[b] by {
                if a < b {
                    assert(all@[a].0@ != all@[b].0@);
                } else {
                    assert(all@[b].0@ != all@[a].0@);
                }
            }
            assert forall|x: Seq<Seq<char>>| #[trigger] self.values().dom().contains(x) implies ps.contains(x) by {
                let k = choose|k: int| 0 <= k < all@.len() && (#[trigger] all@[k]).0@ == x;
                assert(ps[k] == x);
            }
            assert(ps.to_set() =~= self.values().dom());
            ps.unique_seq_to_set();
        }
        all.len()
    }

    /// Whether no node holds a value (nodes may remain).
    pub fn is_empty(&self) -> (r: bool)
        ensures
            r == (forall|q: Seq<Seq<char>>| #[trigger] self.value_at(q) is None),
        decreases self,
    {
        proof {
            use_type_invariant(self);
        }
        if self.value.is_some() {
            assert(self.value_at(Seq::<Seq<char>>::empty()) is Some);
            return false;
        }
        let mut i: usize = 0;
        while i < self.children.len()
            invariant
                i <= self.children@.len(),
                keys_sorted(self.children@),
                forall|j: int, q: Seq<Seq<char>>| 0 <= j < i ==> (#[trigger] self.children@[j].1.value_at(q)) is None,
            decreases self.children@.len() - i,
        {
            proof {
                assert(decreases_to!(*self => self.children));
                assert(decreases_to!(self.children => self.children[i as int]));
                assert(decreases_to!(self.children[i as int] => self.children[i as int].1));
            }
            if !self.children[i].1.is_empty() {
                proof {
                    let ch = self.children@[i as int].1;
                    let k = self.children@[i as int].0@;
                    let q = choose|q: Seq<Seq<char>>| !(#[trigger] ch.value_at(q) is None);
                    lemma_child_at(self.children@, i as int);
                    let full = seq![k] + q;
                    assert(full[0] == k);
                    assert(full.drop_first() =~= q);
                    assert(self.value_at(full) == ch.value_at(q));
                }
                return false;
            }
            i = i + 1;
        }
        proof {
            assert forall|q: Seq<Seq<char>>| #[trigger] self.value_at(q) is None by {
                if q.len() > 0 {
                    if has_child_key(self.children@, q[0]) {
                        let j = child_index(self.children@, q[0]);
                        assert(self.children@[j].1.value_at(q.drop_first()) is None);
                    }
                }
            }
        }
        true
    }
}

// ---------------------------------------------------------------------
// Ancestors and iteration
// ---------------------------------------------------------------------

/// Whether `k` is the longest prefix length of `p` at which `m` has an
/// entry.
pub open spec fn deepest_in<T>(m: Map<Seq<Seq<char>>, T>, p: Seq<Seq<char>>, k: int) -> bool {
    &&& 0 <= k <= p.len()
    &&& m.contains_key(p.take(k))
    &&& forall|j: int| k < j <= p.len() ==> !(#[trigger] m.contains_key(p.take(j)))
}

/// The longest prefix length of `p` at which `m` has an entry, if any.
pub open spec fn deepest<T>(m: Map<Seq<Seq<char>>, T>, p: Seq<Seq<char>>) -> Option<int> {
    if exists|k: int| deepest_in(m, p, k) {
        Some(choose|k: int| deepest_in(m, p, k))
    } else {
        None
    }
}

/// There is at most one longest prefix.
pub proof fn lemma_deepest_unique<T>(m: Map<Seq<Seq<char>>, T>, p: Seq<Seq<char>>, k: int)
    requires
        deepest_in(m, p, k),
    ensures
        deepest(m, p) == Some(k),
{
    let c = choose|j: int| deepest_in(m, p, j);
    if c < k {
        assert(!m.contains_key(p.take(k)));
    } else if k < c {
        assert(!m.contains_key(p.take(c)));
    }
}

/// The deepest prefix length `k` of `p` at which `t` holds a value, with
/// no value at any longer prefix.
pub open spec fn is_deepest_ancestor<T>(t: PathTrie<T>, p: Seq<Seq<char>>, k: int) -> bool {
    deepest_in(t.values(), p, k)
}

impl<T> PathTrie<T> {
    /// The value at the longest prefix of `path` that holds one, with the
    /// rest of `path` below it.
    pub fn find_ancestor(&self, path: &Path) -> (r: Option<(&T, Path)>)
        ensures
            match r {
                Some((v, suffix)) => exists|k: int| #[trigger] is_deepest_ancestor(*self, path@, k)
                    && self.values()[path@.take(k)] == *v && suffix@ == path@.skip(k),
                None => forall|j: int| 0 <= j <= path@.len() ==> !(#[trigger] self.values().contains_key(path@.take(j))),
            },
    {
        let n = path.len();
        let mut current: &PathTrie<T> = self;
        let mut last: Option<&T> = self.value.as_ref();
        let mut last_depth: usize = 0;
        let mut d: usize = 0;
        let mut stop = false;
        assert(path@.take(0) =~= Seq::<Seq<char>>::empty());
        while d < n && !stop
            invariant
                n == path@.len(),
                d <= n,
                self.node_at(path@.take(d as int)) == Some(*current),
                stop ==> d < n && self.node_at(path@.take(d + 1)) is None,
                match last {
                    Some(v) => last_depth <= d && self.value_at(path@.take(last_depth as int)) == Some(*v)
                        && forall|j: int| last_depth < j <= d ==> (#[trigger] self.value_at(path@.take(j))) is None,
                    None => forall|j: int| 0 <= j <= d ==> (#[trigger] self.value_at(path@.take(j))) is None,
                },
            decreases (n - d) as int + if stop { 0int } else { 1int },
        {
            let c = path.component(d);
            proof {
                assert(path@.take(d as int).push(c@) =~= path@.take(d + 1));
                self.lemma_node_at_push(path@.take(d as int), c@);
            }
            match current.find_child(c) {
                Some(child) => {
                    current = child;
                    d = d + 1;
                    if child.value.is_some() {
                        last = child.value.as_ref();
                        last_depth = d;
                    }
                },
                None => {
                    stop = true;
                },
            }
        }
        proof {
            if stop {
                assert forall|j: int| d < j <= n implies (#[trigger] self.value_at(path@.take(j))) is None by {
                    let a = path@.take(d + 1);
                    let b = path@.subrange(d + 1, j);
                    assert(a + b =~= path@.take(j));
                    self.lemma_node_at_concat(a, b);
                }
            }
        }
        match last {
            Some(v) => {
                let suffix = path.slice(last_depth, n);
                assert(path@.subrange(last_depth as int, n as int) =~= path@.skip(last_depth as int));
                assert(is_deepest_ancestor(*self, path@, last_depth as int));
                Some((v, suffix))
            },
            None => None,
        }
    }
}

/// An entry `(p, v)` lies below `prefix` and `t` holds `v` at the rest of
/// `p`.
/// Below a common prefix, the path that ends there, or whose next
/// component is smaller, comes first.
proof fn lemma_lt_below(a: Seq<Seq<char>>, b: Seq<Seq<char>>, prefix: Seq<Seq<char>>)
    requires
        path_has_prefix(a, prefix),
        path_has_prefix(b, prefix),
        b.len() > prefix.len(),
        a.len() == prefix.len() || (a.len() > prefix.len() && crate::text::seq_lt(a[prefix.len() as int], b[prefix.len() as int])),
    ensures
        path_lt(a, b),
    decreases prefix.len(),
{
    if prefix.len() == 0 {
        if a.len() > 0 {
            crate::text::lemma_seq_lt_irreflexive(a[0]);
        }
    } else {
        assert(a[0] == a.subrange(0, prefix.len() as int)[0]);
        assert(b[0] == b.subrange(0, prefix.len() as int)[0]);
        let r = prefix.drop_first();
        assert(a.drop_first().subrange(0, r.len() as int) =~= r) by {
            assert forall|x: int| 0 <= x < r.len() implies a.drop_first().subrange(0, r.len() as int)[x] == r[x] by {
                assert(a.subrange(0, prefix.len() as int)[x + 1] == a[x + 1]);
            }
        }
        assert(b.drop_first().subrange(0, r.len() as int) =~= r) by {
            assert forall|x: int| 0 <= x < r.len() implies b.drop_first().subrange(0, r.len() as int)[x] == r[x] by {
                assert(b.subrange(0, prefix.len() as int)[x + 1] == b[x + 1]);
            }
        }
        lemma_lt_below(a.drop_first(), b.drop_first(), r);
    }
}

pub open spec fn entry_below<T>(t: PathTrie<T>, prefix: Seq<Seq<char>>, e: (Path, &T)) -> bool {
    &&& path_has_prefix(e.0@, prefix)
    &&& t.value_at(e.0@.skip(prefix.len() as int)) == Some(*e.1)
}

impl<T> PathTrie<T> {
    /// Appends every `(prefix + q, value)` of this node to `out`, in
    /// depth-first order with children by component.
    #[verifier::rlimit(40)]
    fn collect<'a>(&'a self, prefix: &Path, out: &mut Vec<(Path, &'a T)>)
        ensures
            final(out)@.len() >= old(out)@.len(),
            final(out)@.subrange(0, old(out)@.len() as int) == old(out)@,
            forall|k: int| old(out)@.len() <= k < final(out)@.len() ==> entry_below(*self, prefix@, #[trigger] final(out)@[k]),
            forall|q: Seq<Seq<char>>| #[trigger] self.value_at(q) is Some ==> exists|k: int|
                old(out)@.len() <= k < final(out)@.len() && (#[trigger] final(out)@[k]).0@ == prefix@ + q,
            forall|a: int, b: int| old(out)@.len() <= a < b < final(out)@.len() ==> (#[trigger] final(out)@[a]).0@ != (#[trigger] final(out)@[b]).0@,
            forall|a: int, b: int| old(out)@.len() <= a < b < final(out)@.len() ==> path_lt(
                (#[trigger] final(out)@[a]).0@,
                (#[trigger] final(out)@[b]).0@,
            ),
        decreases self,
    {
        proof {
            use_type_invariant(self);
        }
        let ghost start = out@.len();
        let ghost old_out = out@;
        let ghost pl = prefix@.len();
        if let Some(v) = &self.value {
            out.push((prefix.duplicate(), v));
            proof {
                assert(prefix@.skip(pl as int) =~= Seq::<Seq<char>>::empty());
                assert(prefix@.subrange(0, pl as int) =~= prefix@);
                assert(prefix@ + Seq::<Seq<char>>::empty() =~= prefix@);
                assert(out@[start as int].0@ == prefix@ + Seq::<Seq<char>>::empty());
            }
        }
        let mut i: usize = 0;
        while i < self.children.len()
            invariant
                i <= self.children@.len(),
                keys_sorted(self.children@),
                forall|j: int| 0 <= j < self.children@.len() ==> valid_component(#[trigger] self.children@[j].0@),
                pl == prefix@.len(),
                start == old_out.len(),
                out@.len() >= start,
                out@.subrange(0, start as int) == old_out,
                forall|k: int| start <= k < out@.len() ==> entry_below(*self, prefix@, #[trigger] out@[k]),
                forall|k: int| start <= k < out@.len() ==> {
                    let e = #[trigger] out@[k].0@;
                    e.len() == pl || (e.len() > pl && (i < self.children@.len() ==> crate::text::seq_lt(e[pl as int], self.children@[i as int].0@)))
                },
                forall|a: int, b: int| start <= a < b < out@.len() ==> (#[trigger] out@[a]).0@ != (#[trigger] out@[b]).0@,
                forall|a: int, b: int| start <= a < b < out@.len() ==> path_lt((#[trigger] out@[a]).0@, (#[trigger] out@[b]).0@),
                forall|k: int| start <= k < out@.len() && (#[trigger] out@[k]).0@.len() == pl ==> k == start && self.value is Some,
                forall|q: Seq<Seq<char>>| #[trigger] self.value_at(q) is Some && (q.len() == 0 || (has_child_key(self.children@, q[0]) && child_index(self.children@, q[0]) < i)) ==> exists|k: int|
                    start <= k < out@.len() && (#[trigger] out@[k]).0@ == prefix@ + q,
            decreases self.children@.len() - i,
        {
            let ghost before = out@;
            let key = self.children[i].0.as_str();
            let child_prefix = prefix.with_component(key);
            proof {
                assert(decreases_to!(*self => self.children));
                assert(decreases_to!(self.children => self.children[i as int]));
                assert(decreases_to!(self.children[i as int] => self.children[i as int].1));
            }
            let child = &self.children[i].1;
            child.collect(&child_prefix, out);
            proof {
                let ks = self.children@;
                lemma_child_at(ks, i as int);
                assert forall|k: int| start <= k < out@.len() implies entry_below(*self, prefix@, #[trigger] out@[k]) by {
                    if k < before.len() {
                        assert(out@[k] == out@.subrange(0, before.len() as int)[k]);
                        assert(out@[k] == before[k]);
                    } else {
                        let e = out@[k].0@;
                        assert(entry_below(*child, child_prefix@, out@[k]));
                        assert(e.subrange(0, pl as int) =~= prefix@) by {
                            assert(e.subrange(0, pl as int + 1) == prefix@.push(key@));
                            assert forall|x: int| 0 <= x < pl implies e.subrange(0, pl as int)[x] == prefix@[x] by {
                                assert(e.subrange(0, pl as int + 1)[x] == e[x]);
                            }
                        }
                        let r = e.skip(pl as int);
                        assert(r[0] == key@) by {
                            assert(e.subrange(0, pl as int + 1)[pl as int] == e[pl as int]);
                        }
                        assert(r.drop_first() =~= e.skip(pl as int + 1));
                        assert(self.value_at(r) == child.value_at(e.skip(pl as int + 1)));
                    }
                }
                assert forall|k: int| start <= k < out@.len() implies {
                    let e = #[trigger] out@[k].0@;
                    e.len() == pl || (e.len() > pl && (i + 1 < self.children@.len() ==> crate::text::seq_lt(e[pl as int], self.children@[i + 1].0@)))
                } by {
                    if i + 1 < ks.len() {
                        assert(crate::text::seq_lt(ks[i as int].0@, ks[i + 1].0@));
                    }
                    if k < before.len() {
                        assert(out@[k] == out@.subrange(0, before.len() as int)[k]);
                        assert(out@[k] == before[k]);
                        let e = out@[k].0@;
                        if e.len() > pl && i + 1 < ks.len() {
                            crate::text::lemma_seq_lt_transitive(e[pl as int], ks[i as int].0@, ks[i + 1].0@);
                        }
                    } else {
                        let e = out@[k].0@;
                        assert(entry_below(*child, child_prefix@, out@[k]));
                        assert(e.subrange(0, pl as int + 1)[pl as int] == e[pl as int]);
                    }
                }
                assert forall|a: int, b: int| start <= a < b < out@.len() implies (#[trigger] out@[a]).0@ != (#[trigger] out@[b]).0@ by {
                    if b < before.len() {
                        assert(out@[a] == out@.subrange(0, before.len() as int)[a]);
                        assert(out@[b] == out@.subrange(0, before.len() as int)[b]);
                    } else if a < before.len() {
                        assert(out@[a] == out@.subrange(0, before.len() as int)[a]);
                        let ea = before[a].0@;
                        let eb = out@[b].0@;
                        assert(entry_below(*child, child_prefix@, out@[b]));
                        assert(eb.subrange(0, pl as int + 1)[pl as int] == eb[pl as int]);
                        if ea.len() > pl {
                            crate::text::lemma_seq_lt_irreflexive(key@);
                            if ea == eb {
                                assert(ea[pl as int] == key@);
                            }
                        }
                    }
                }
                assert forall|a: int, b: int| start <= a < b < out@.len() implies path_lt((#[trigger] out@[a]).0@, (#[trigger] out@[b]).0@) by {
                    if b < before.len() {
                        assert(out@[a] == out@.subrange(0, before.len() as int)[a]);
                        assert(out@[b] == out@.subrange(0, before.len() as int)[b]);
                    } else if a < before.len() {
                        assert(out@[a] == out@.subrange(0, before.len() as int)[a]);
                        let ea = before[a].0@;
                        let eb = out@[b].0@;
                        assert(entry_below(*child, child_prefix@, out@[b]));
                        assert(eb.subrange(0, pl as int + 1)[pl as int] == eb[pl as int]);
                        assert(eb.subrange(0, pl as int) =~= prefix@) by {
                            assert(eb.subrange(0, pl as int + 1) == prefix@.push(key@));
                            assert forall|x: int| 0 <= x < pl implies eb.subrange(0, pl as int)[x] == prefix@[x] by {
                                assert(eb.subrange(0, pl as int + 1)[x] == eb[x]);
                            }
                        }
                        assert(entry_below(*self, prefix@, before[a]));
                        lemma_lt_below(ea, eb, prefix@);
                    }
                }
                assert forall|k: int| start <= k < out@.len() && (#[trigger] out@[k]).0@.len() == pl implies k == start && self.value is Some by {
                    if k < before.len() {
                        assert(out@[k] == out@.subrange(0, before.len() as int)[k]);
                    } else {
                        assert(entry_below(*child, child_prefix@, out@[k]));
                    }
                }
                assert forall|q: Seq<Seq<char>>| #[trigger] self.value_at(q) is Some && (q.len() == 0 || (has_child_key(ks, q[0]) && child_index(ks, q[0]) < i + 1)) implies exists|k: int|
                    start <= k < out@.len() && (#[trigger] out@[k]).0@ == prefix@ + q by {
                    if q.len() == 0 || child_index(ks, q[0]) < i {
                        let k = choose|k: int| start <= k < before.len() && (#[trigger] before[k]).0@ == prefix@ + q;
                        assert(out@[k] == out@.subrange(0, before.len() as int)[k]);
                    } else {
                        assert(has_child_key(ks, q[0]));
                        let j = child_index(ks, q[0]);
                        assert(j == i);
                        assert(self.value_at(q) == child.value_at(q.drop_first()));
                        let k = choose|k: int| before.len() <= k < out@.len() && (#[trigger] out@[k]).0@ == child_prefix@ + q.drop_first();
                        assert(child_prefix@ + q.drop_first() =~= prefix@ + q);
                    }
                }
            }
            i = i + 1;
        }
        proof {
            assert forall|q: Seq<Seq<char>>| #[trigger] self.value_at(q) is Some implies exists|k: int|
                start <= k < out@.len() && (#[trigger] out@[k]).0@ == prefix@ + q by {
                if q.len() > 0 {
                    assert(has_child_key(self.children@, q[0]));
                }
            }
            assert(out@.subrange(0, old(out)@.len() as int) == old(out)@);
        }
    }

    /// Every `(path, value)` pair of the trie, in depth-first order with
    /// children by component (so in increasing path order, a path before
    /// its descendants); each path with a value occurs exactly once.
    pub fn iter(&self) -> (r: Vec<(Path, &T)>)
        ensures
            forall|k: int| 0 <= k < r@.len() ==> self.values().contains_key((#[trigger] r@[k]).0@)
                && self.values()[r@[k].0@] == *r@[k].1,
            forall|q: Seq<Seq<char>>| #[trigger] self.values().contains_key(q) ==> exists|k: int|
                0 <= k < r@.len() && (#[trigger] r@[k]).0@ == q,
            forall|a: int, b: int| 0 <= a < b < r@.len() ==> (#[trigger] r@[a]).0@ != (#[trigger] r@[b]).0@,
            forall|a: int, b: int| 0 <= a < b < r@.len() ==> path_lt((#[trigger] r@[a]).0@, (#[trigger] r@[b]).0@),
            r@.len() == self.values().len(),
    {
        let mut out: Vec<(Path, &T)> = Vec::new();
        let root = Path::root();
        self.collect(&root, &mut out);
        proof {
            assert forall|k: int| 0 <= k < out@.len() implies self.values().contains_key((#[trigger] out@[k]).0@)
                && self.values()[out@[k].0@] == *out@[k].1 by {
                assert(entry_below(*self, root@, out@[k]));
                assert(out@[k].0@.skip(0) =~= out@[k].0@);
            }
            assert forall|q: Seq<Seq<char>>| #[trigger] self.values().contains_key(q) implies exists|k: int|
                0 <= k < out@.len() && (#[trigger] out@[k]).0@ == q by {
                assert(root@ + q =~= q);
                assert(self.value_at(q) is Some);
            }
            let ps = out@.map_values(|e: (Path, &T)| e.0@);
            assert(ps.no_duplicates()) by {
                assert forall|a: int, b: int| 0 <= a < ps.len() && 0 <= b < ps.len() && a != b implies ps[a] != ps[b] by {
                    if a < b {
                        assert(out@[a].0@ != out@[b].0@);
                    } else {
                        assert(out@[b].0@ != out@[a].0@);
                    }
                }
            }
            ps.unique_seq_to_set();
            assert(ps.to_set() =~= self.values().dom()) by {
                assert forall|q: Seq<Seq<char>>| #[trigger] self.values().dom().contains(q) implies ps.to_set().contains(q) by {
                    let k = choose|k: int| 0 <= k < out@.len() && (#[trigger] out@[k]).0@ == q;
                    assert(ps[k] == q);
                }
                assert forall|q: Seq<Seq<char>>| #[trigger] ps.to_set().contains(q) implies self.values().dom().contains(q) by {
                    let k = choose|k: int| 0 <= k < ps.len() && ps[k] == q;
                    assert(self.values().contains_key(out@[k].0@));
                }
            }
        }
        out
    }
}

/// `b` is what cloning `a` may give, and both are present or both absent.
pub open spec fn cloned_option<T: Clone>(a: Option<T>, b: Option<T>) -> bool {
    match (a, b) {
        (Some(x), Some(y)) => cloned::<T>(x, y),
        (None, None) => true,
        _ => false,
    }
}

impl<T: Clone> PathTrie<T> {
    /// A copy with the same nodes, each value cloned.
    pub fn duplicate(&self) -> (r: PathTrie<T>)
        ensures
            forall|q: Seq<Seq<char>>| #[trigger] r.has_node(q) == self.has_node(q),
            forall|q: Seq<Seq<char>>| cloned_option(self.value_at(q), #[trigger] r.value_at(q)),
        decreases self,
    {
        proof {
            use_type_invariant(self);
        }
        let value = match &self.value {
            Some(v) => Some(v.clone()),
            None => None,
        };
        let mut cs: Vec<(String, PathTrie<T>)> = Vec::new();
        let mut i: usize = 0;
        while i < self.children.len()
            invariant
                i <= self.children@.len(),
                cs@.len() == i,
                keys_sorted(self.children@),
                forall|j: int| 0 <= j < self.children@.len() ==> valid_component(#[trigger] self.children@[j].0@),
                forall|j: int| 0 <= j < i ==> (#[trigger] cs@[j]).0@ == self.children@[j].0@,
                forall|j: int, q: Seq<Seq<char>>| 0 <= j < i ==> (#[trigger] cs@[j].1.has_node(q)) == self.children@[j].1.has_node(q),
                forall|j: int, q: Seq<Seq<char>>| 0 <= j < i ==> cloned_option(self.children@[j].1.value_at(q), #[trigger] cs@[j].1.value_at(q)),
            decreases self.children@.len() - i,
        {
            proof {
                assert(decreases_to!(*self => self.children));
                assert(decreases_to!(self.children => self.children[i as int]));
                assert(decreases_to!(self.children[i as int] => self.children[i as int].1));
            }
            let k = self.children[i].0.clone();
            let c = self.children[i].1.duplicate();
            cs.push((k, c));
            i = i + 1;
        }
        proof {
            assert forall|a: int, b: int| 0 <= a < b < cs@.len() implies crate::text::seq_lt(#[trigger] cs@[a].0@, #[trigger] cs@[b].0@) by {
                assert(cs@[a].0@ == self.children@[a].0@);
                assert(cs@[b].0@ == self.children@[b].0@);
            }
        }
        let r = PathTrie { value, children: cs };
        proof {
            assert forall|k: Seq<char>| #[trigger] has_child_key(r.children@, k) == has_child_key(self.children@, k) by {
                if has_child_key(self.children@, k) {
                    let j = child_index(self.children@, k);
                    assert(r.children@[j].0@ == k);
                }
                if has_child_key(r.children@, k) {
                    let j = child_index(r.children@, k);
                    assert(self.children@[j].0@ == k);
                }
            }
            assert forall|k: Seq<char>| has_child_key(self.children@, k) implies child_index(r.children@, k) == child_index(self.children@, k) by {
                let j = child_index(self.children@, k);
                let j2 = child_index(r.children@, k);
                assert(has_child_key(r.children@, k));
                lemma_sorted_unique(r.children@, j, j2);
            }
            assert forall|q: Seq<Seq<char>>| #[trigger] r.has_node(q) == self.has_node(q) by {
                if q.len() > 0 && has_child_key(self.children@, q[0]) {
                    let j = child_index(self.children@, q[0]);
                    assert(r.children@[j].1.has_node(q.drop_first()) == self.children@[j].1.has_node(q.drop_first()));
                }
            }
            assert forall|q: Seq<Seq<char>>| cloned_option(self.value_at(q), #[trigger] r.value_at(q)) by {
                if q.len() > 0 && has_child_key(self.children@, q[0]) {
                    let j = child_index(self.children@, q[0]);
                    assert(cloned_option(self.children@[j].1.value_at(q.drop_first()), r.children@[j].1.value_at(q.drop_first())));
                }
            }
        }
        r
    }
}

impl<T: Clone> Clone for PathTrie<T> {
    fn clone(&self) -> (r: PathTrie<T>)
        ensures
            forall|q: Seq<Seq<char>>| #[trigger] r.has_node(q) == self.has_node(q),
            forall|q: Seq<Seq<char>>| cloned_option(self.value_at(q), #[trigger] r.value_at(q)),
    {
        self.duplicate()
    }
}

impl<T> Default for PathTrie<T> {
    fn default() -> (r: PathTrie<T>)
        ensures
            r.bare(),
    {
        PathTrie::new()
    }
}

/// The subtrie at `p` holds, at each `q`, what the whole trie holds at
/// `p + q`.
pub proof fn lemma_subtrie_values<T>(t: PathTrie<T>, p: Seq<Seq<char>>, q: Seq<Seq<char>>)
    requires
        t.has_node(p),
    ensures
        t.node_at(p)->Some_0.value_at(q) == t.value_at(p + q),
        t.node_at(p)->Some_0.has_node(q) == t.has_node(p + q),
{
    t.lemma_node_at_concat(p, q);
}

/// The entries of a trie, handed out one at a time in path order: a path
/// before its descendants, siblings in component order.
pub struct PathTrieIter<'a, T> {
    items: Vec<(Path, &'a T)>,
    pos: usize,
}

impl<'a, T> PathTrieIter<'a, T> {
    /// The entries not yet handed out, as paths and values, in order.
    pub closed spec fn remaining(&self) -> Seq<(Seq<Seq<char>>, T)> {
        if self.pos <= self.items@.len() {
            self.items@.skip(self.pos as int).map_values(|e: (Path, &'a T)| (e.0@, *e.1))
        } else {
            Seq::empty()
        }
    }

    /// Start at the first entry of `trie`: what remains is each path that
    /// holds a value, once, with its value, in increasing path order.
    pub fn new(trie: &'a PathTrie<T>) -> (it: Self)
        ensures
            it.remaining().len() == trie.values().len(),
            forall|k: int| 0 <= k < it.remaining().len() ==> trie.values().contains_key(#[trigger] it.remaining()[k].0)
                && trie.values()[it.remaining()[k].0] == it.remaining()[k].1,
            forall|q: Seq<Seq<char>>| #[trigger] trie.values().contains_key(q) ==> exists|k: int|
                0 <= k < it.remaining().len() && (#[trigger] it.remaining()[k]).0 == q,
            forall|a: int, b: int| 0 <= a < b < it.remaining().len() ==> path_lt(
                (#[trigger] it.remaining()[a]).0,
                (#[trigger] it.remaining()[b]).0,
            ),
    {
        let items = trie.iter();
        let it = PathTrieIter { items, pos: 0 };
        proof {
            assert(it.items@.skip(0) =~= it.items@);
            let rem = it.remaining();
            assert forall|k: int| 0 <= k < rem.len() implies trie.values().contains_key(#[trigger] rem[k].0)
                && trie.values()[rem[k].0] == rem[k].1 by {
                assert(rem[k] == (items@[k].0@, *items@[k].1));
            }
            assert forall|q: Seq<Seq<char>>| #[trigger] trie.values().contains_key(q) implies exists|k: int|
                0 <= k < rem.len() && (#[trigger] rem[k]).0 == q by {
                let k = choose|k: int| 0 <= k < items@.len() && (#[trigger] items@[k]).0@ == q;
                assert(rem[k].0 == q);
            }
            assert forall|a: int, b: int| 0 <= a < b < rem.len() implies path_lt(
                (#[trigger] rem[a]).0,
                (#[trigger] rem[b]).0,
            ) by {
                assert(rem[a].0 == items@[a].0@);
                assert(rem[b].0 == items@[b].0@);
            }
        }
        it
    }

    /// Hand out the next entry, or `None` once all were handed out.
    pub fn next(&mut self) -> (r: Option<(Path, &'a T)>)
        ensures
            old(self).remaining().len() == 0 ==> r is None && final(self).remaining() == old(self).remaining(),
            old(self).remaining().len() > 0 ==> (r matches Some(e) && e.0@ == old(self).remaining()[0].0 && *e.1
                == old(self).remaining()[0].1) && final(self).remaining() == old(self).remaining().drop_first(),
    {
        if self.pos < self.items.len() {
            let ghost before = self.remaining();
            let entry = &self.items[self.pos];
            let out = (entry.0.clone(), entry.1);
            self.pos = self.pos + 1;
            proof {
                assert(self.remaining() =~= before.drop_first());
            }
            Some(out)
        } else {
            None
        }
    }
}

} // verus!
