//! The order of paths (component by component, each compared as a
//! string) and what it tells about prefixes.

use vstd::prelude::*;

use crate::path::{path_has_prefix, Path};
use crate::text::{
    lemma_seq_lt_asymmetric, lemma_seq_lt_irreflexive, lemma_seq_lt_total, lemma_seq_lt_transitive,
    seq_lt, str_eq, str_lt,
};

verus! {

/// Strict lexicographic order on paths: the first differing component
/// decides, and a proper prefix comes first.
pub open spec fn path_lt(a: Seq<Seq<char>>, b: Seq<Seq<char>>) -> bool
    decreases a.len(),
{
    if a.len() == 0 {
        b.len() > 0
    } else if b.len() == 0 {
        false
    } else if a[0] != b[0] {
        seq_lt(a[0], b[0])
    } else {
        path_lt(a.drop_first(), b.drop_first())
    }
}

/// Whether `q` is a prefix of `p` and shorter than it.
pub open spec fn proper_prefix(q: Seq<Seq<char>>, p: Seq<Seq<char>>) -> bool {
    path_has_prefix(p, q) && q.len() < p.len()
}

/// Whether one path of the list is a prefix of another one (an equal
/// path at another position counts).
pub open spec fn overlapping(ps: Seq<Seq<Seq<char>>>) -> bool {
    exists|i: int, j: int|
        0 <= i < ps.len() && 0 <= j < ps.len() && i != j && #[trigger] path_has_prefix(ps[j], ps[i])
}

/// Whether the index `i` occurs in `order`.
pub open spec fn listed(order: Seq<usize>, i: int) -> bool {
    exists|t: int| 0 <= t < order.len() && #[trigger] order[t] == i
}

/// Whether `order` lists the paths of `ps` by index, in path order, each
/// index at least once.
pub open spec fn sorts(ps: Seq<Seq<Seq<char>>>, order: Seq<usize>) -> bool {
    &&& forall|t: int| 0 <= t < order.len() ==> #[trigger] order[t] < ps.len()
    &&& forall|i: int| 0 <= i < ps.len() ==> #[trigger] listed(order, i)
    &&& forall|s: int, t: int|
        0 <= s < t < order.len() ==> !path_lt(ps[#[trigger] order[t] as int], ps[#[trigger] order[s] as int])
}

pub proof fn lemma_path_lt_irreflexive(a: Seq<Seq<char>>)
    ensures
        !path_lt(a, a),
    decreases a.len(),
{
    if a.len() > 0 {
        lemma_path_lt_irreflexive(a.drop_first());
    }
}

pub proof fn lemma_path_lt_transitive(a: Seq<Seq<char>>, b: Seq<Seq<char>>, c: Seq<Seq<char>>)
    requires
        path_lt(a, b),
        path_lt(b, c),
    ensures
        path_lt(a, c),
    decreases a.len(),
{
    if a.len() > 0 && b.len() > 0 && c.len() > 0 {
        if a[0] == b[0] && b[0] == c[0] {
            lemma_path_lt_transitive(a.drop_first(), b.drop_first(), c.drop_first());
        } else if a[0] != b[0] && b[0] != c[0] {
            lemma_seq_lt_transitive(a[0], b[0], c[0]);
            if a[0] == c[0] {
                lemma_seq_lt_irreflexive(a[0]);
            }
        }
    }
}

pub proof fn lemma_path_lt_asymmetric(a: Seq<Seq<char>>, b: Seq<Seq<char>>)
    requires
        path_lt(a, b),
    ensures
        !path_lt(b, a),
{
    if path_lt(b, a) {
        lemma_path_lt_transitive(a, b, a);
        lemma_path_lt_irreflexive(a);
    }
}

pub proof fn lemma_path_lt_total(a: Seq<Seq<char>>, b: Seq<Seq<char>>)
    ensures
        a == b || path_lt(a, b) || path_lt(b, a),
    decreases a.len(),
{
    if a.len() > 0 && b.len() > 0 {
        if a[0] == b[0] {
            lemma_path_lt_total(a.drop_first(), b.drop_first());
            if a.drop_first() == b.drop_first() {
                assert(a =~= seq![a[0]] + a.drop_first());
                assert(b =~= seq![b[0]] + b.drop_first());
            }
        } else {
            lemma_seq_lt_total(a[0], b[0]);
        }
    } else if a.len() == 0 && b.len() == 0 {
        assert(a =~= b);
    }
}

proof fn lemma_prefix_drop_first(p: Seq<Seq<char>>, q: Seq<Seq<char>>)
    requires
        path_has_prefix(p, q),
        q.len() > 0,
    ensures
        p.len() > 0,
        p[0] == q[0],
        path_has_prefix(p.drop_first(), q.drop_first()),
{
    assert(p.subrange(0, q.len() as int)[0] == q[0]);
    assert forall|i: int| 0 <= i < q.len() - 1 implies p.drop_first().subrange(0, q.len() - 1)[i]
        == q.drop_first()[i] by {
        assert(p.subrange(0, q.len() as int)[i + 1] == q[i + 1]);
    }
    assert(p.drop_first().subrange(0, q.len() - 1) =~= q.drop_first());
}

/// A proper prefix comes before the path.
pub proof fn lemma_proper_prefix_lt(q: Seq<Seq<char>>, p: Seq<Seq<char>>)
    requires
        proper_prefix(q, p),
    ensures
        path_lt(q, p),
    decreases q.len(),
{
    if q.len() > 0 {
        lemma_prefix_drop_first(p, q);
        lemma_proper_prefix_lt(q.drop_first(), p.drop_first());
    }
}

/// A prefix of the same length is the path itself.
pub proof fn lemma_prefix_same_len(p: Seq<Seq<char>>, q: Seq<Seq<char>>)
    requires
        path_has_prefix(p, q),
        q.len() == p.len(),
    ensures
        p == q,
{
    assert(p.subrange(0, q.len() as int) =~= p);
}

/// In path order, a path that is a prefix of a later path is a prefix of
/// every path in between.
pub proof fn lemma_prefix_of_between(a: Seq<Seq<char>>, b: Seq<Seq<char>>, c: Seq<Seq<char>>)
    requires
        !path_lt(b, a),
        !path_lt(c, b),
        path_has_prefix(c, a),
    ensures
        path_has_prefix(b, a),
    decreases a.len(),
{
    if a.len() == 0 {
        assert(b.subrange(0, 0) =~= a);
    } else {
        lemma_prefix_drop_first(c, a);
        if b.len() == 0 {
            assert(path_lt(b, a));
        } else if b[0] != a[0] {
            lemma_seq_lt_total(a[0], b[0]);
            assert(!seq_lt(b[0], a[0]));
            assert(!seq_lt(c[0], b[0]));
        } else {
            lemma_prefix_of_between(a.drop_first(), b.drop_first(), c.drop_first());
            let bd = b.drop_first();
            let ad = a.drop_first();
            assert(b.subrange(0, a.len() as int) =~= seq![b[0]] + bd.subrange(0, ad.len() as int));
            assert(a =~= seq![a[0]] + ad);
        }
    }
}

/// When a sorted listing has no path that is a prefix of the next one,
/// no path of the list is a prefix of another.
pub proof fn lemma_sorted_no_overlap(ps: Seq<Seq<Seq<char>>>, order: Seq<usize>)
    requires
        sorts(ps, order),
        forall|t: int|
            0 <= t < order.len() - 1 ==> !path_has_prefix(
                ps[#[trigger] order[t + 1] as int],
                ps[order[t] as int],
            ),
    ensures
        !overlapping(ps),
{
    if overlapping(ps) {
        let (i, j) = choose|i: int, j: int|
            0 <= i < ps.len() && 0 <= j < ps.len() && i != j && #[trigger] path_has_prefix(ps[j], ps[i]);
        assert(listed(order, i) && listed(order, j));
        let s = choose|t: int| 0 <= t < order.len() && #[trigger] order[t] == i;
        let t = choose|t: int| 0 <= t < order.len() && #[trigger] order[t] == j;
        assert(s != t);
        if s < t {
            lemma_between(ps, order, s, t);
            assert(!path_has_prefix(ps[order[s + 1] as int], ps[order[s] as int]));
        } else {
            // the later path is a prefix of the earlier one: they are equal
            assert(!path_lt(ps[order[s] as int], ps[order[t] as int]));
            if ps[i].len() < ps[j].len() {
                lemma_proper_prefix_lt(ps[i], ps[j]);
            }
            lemma_prefix_same_len(ps[j], ps[i]);
            assert(path_has_prefix(ps[i], ps[j])) by {
                assert(ps[i].subrange(0, ps[j].len() as int) =~= ps[i]);
            }
            lemma_between(ps, order, t, s);
            assert(!path_has_prefix(ps[order[t + 1] as int], ps[order[t] as int]));
        }
    }
}

/// In a sorted listing, a path that is a prefix of a later one is a prefix
/// of the next one.
proof fn lemma_between(ps: Seq<Seq<Seq<char>>>, order: Seq<usize>, s: int, t: int)
    requires
        sorts(ps, order),
        0 <= s < t < order.len(),
        path_has_prefix(ps[order[t] as int], ps[order[s] as int]),
    ensures
        path_has_prefix(ps[order[s + 1] as int], ps[order[s] as int]),
{
    let a = ps[order[s] as int];
    let b = ps[order[s + 1] as int];
    let c = ps[order[t] as int];
    assert(!path_lt(b, a));
    if s + 1 < t {
        assert(!path_lt(c, b));
    } else {
        lemma_path_lt_irreflexive(b);
    }
    lemma_prefix_of_between(a, b, c);
}

/// Whether `order` holds no index twice.
pub open spec fn distinct(order: Seq<usize>) -> bool {
    forall|s: int, t: int| 0 <= s < t < order.len() ==> #[trigger] order[s] != #[trigger] order[t]
}

/// Whether `f` and `g` are inverse reorderings between `ps1` and `ps2`:
/// position `k` of `ps2` holds what position `f[k]` of `ps1` holds, and
/// back through `g`.
pub open spec fn reorders(ps1: Seq<Seq<Seq<char>>>, ps2: Seq<Seq<Seq<char>>>, f: Seq<int>, g: Seq<int>) -> bool {
    &&& ps1.len() == ps2.len() && f.len() == ps2.len() && g.len() == ps1.len()
    &&& forall|k: int| 0 <= k < ps2.len() ==> 0 <= #[trigger] f[k] < ps1.len() && ps2[k] == ps1[f[k]] && g[f[k]] == k
    &&& forall|k: int| 0 <= k < ps1.len() ==> 0 <= #[trigger] g[k] < ps2.len() && ps1[k] == ps2[g[k]] && f[g[k]] == k
}

/// Whether paths overlap does not depend on their order.
pub proof fn lemma_overlapping_reordered(
    ps1: Seq<Seq<Seq<char>>>,
    ps2: Seq<Seq<Seq<char>>>,
    f: Seq<int>,
    g: Seq<int>,
)
    requires
        reorders(ps1, ps2, f, g),
    ensures
        overlapping(ps1) == overlapping(ps2),
{
    if overlapping(ps2) {
        let (i, j) = choose|i: int, j: int|
            0 <= i < ps2.len() && 0 <= j < ps2.len() && i != j && #[trigger] path_has_prefix(ps2[j], ps2[i]);
        assert(f[i] != f[j]);
        assert(path_has_prefix(ps1[f[j]], ps1[f[i]]));
    }
    if overlapping(ps1) {
        let (i, j) = choose|i: int, j: int|
            0 <= i < ps1.len() && 0 <= j < ps1.len() && i != j && #[trigger] path_has_prefix(ps1[j], ps1[i]);
        assert(g[i] != g[j]);
        assert(path_has_prefix(ps2[g[j]], ps2[g[i]]));
    }
}

/// Whether `a` comes strictly before `b` in path order.
pub fn path_less(a: &Path, b: &Path) -> (r: bool)
    ensures
        r == path_lt(a@, b@),
{
    let n = a.len();
    let m = b.len();
    let mut i: usize = 0;
    assert(a@.subrange(0, n as int) =~= a@);
    assert(b@.subrange(0, m as int) =~= b@);
    while i < n && i < m
        invariant
            i <= n,
            i <= m,
            n == a@.len(),
            m == b@.len(),
            path_lt(a@, b@) == path_lt(a@.subrange(i as int, n as int), b@.subrange(i as int, m as int)),
        decreases n - i,
    {
        let ca = a.component(i);
        let cb = b.component(i);
        let ghost xs = a@.subrange(i as int, n as int);
        let ghost ys = b@.subrange(i as int, m as int);
        assert(xs[0] == ca@ && ys[0] == cb@);
        if !str_eq(ca, cb) {
            return str_lt(ca, cb);
        }
        assert(xs.drop_first() =~= a@.subrange(i + 1, n as int));
        assert(ys.drop_first() =~= b@.subrange(i + 1, m as int));
        i = i + 1;
    }
    i == n && i < m
}

/// The indices of `entries` listed in path order of their paths (entries
/// with equal paths keep their relative order).
pub fn sorted_order<V>(entries: &Vec<(Path, V)>) -> (r: Vec<usize>)
    ensures
        sorts(entries@.map_values(|e: (Path, V)| e.0@), r@),
        distinct(r@),
        r@.len() == entries@.len(),
{
    let ghost ps = entries@.map_values(|e: (Path, V)| e.0@);
    let n = entries.len();
    let mut out: Vec<usize> = Vec::new();
    let mut k: usize = n;
    while k > 0
        invariant
            k <= n,
            n == entries@.len(),
            ps == entries@.map_values(|e: (Path, V)| e.0@),
            out@.len() == n - k,
            forall|t: int| 0 <= t < out@.len() ==> k <= #[trigger] out@[t] < n,
            forall|i: int| k <= i < n ==> #[trigger] listed(out@, i),
            distinct(out@),
            forall|s: int, t: int|
                0 <= s < t < out@.len() ==> !path_lt(ps[#[trigger] out@[t] as int], ps[#[trigger] out@[s] as int]),
        decreases k,
    {
        k = k - 1;
        let mut pos: usize = 0;
        while pos < out.len() && !path_less(&entries[k].0, &entries[out[pos]].0)
            invariant
                pos <= out@.len(),
                k < n,
                n == entries@.len(),
                ps == entries@.map_values(|e: (Path, V)| e.0@),
                forall|t: int| 0 <= t < out@.len() ==> #[trigger] out@[t] < n,
                forall|t: int| 0 <= t < pos ==> !path_lt(ps[k as int], ps[#[trigger] out@[t] as int]),
            decreases out@.len() - pos,
        {
            pos = pos + 1;
        }
        let ghost old_out = out@;
        out.insert(pos, k);
        proof {
            assert(out@ == old_out.insert(pos as int, k));
            assert forall|t: int| 0 <= t < out@.len() implies k <= #[trigger] out@[t] < n by {
                if t > pos {
                    assert(out@[t] == old_out[t - 1]);
                }
            }
            assert forall|i: int| k <= i < n implies #[trigger] listed(out@, i) by {
                if i == k {
                    assert(out@[pos as int] == i);
                } else {
                    assert(listed(old_out, i));
                    let t0 = choose|t: int| 0 <= t < old_out.len() && #[trigger] old_out[t] == i;
                    if t0 < pos {
                        assert(out@[t0] == i);
                    } else {
                        assert(out@[t0 + 1] == i);
                    }
                }
            }
            assert forall|s: int, t: int| 0 <= s < t < out@.len() implies #[trigger] out@[s] != #[trigger] out@[t] by {
                if s < pos && t < pos {
                } else if s < pos && t == pos {
                    assert(old_out[s] >= k + 1);
                } else if s < pos {
                    assert(out@[t] == old_out[t - 1]);
                } else if s == pos {
                    assert(out@[t] == old_out[t - 1]);
                    assert(old_out[t - 1] >= k + 1);
                } else {
                    assert(out@[s] == old_out[s - 1] && out@[t] == old_out[t - 1]);
                }
            }
            assert forall|s: int, t: int| 0 <= s < t < out@.len() implies !path_lt(
                ps[#[trigger] out@[t] as int],
                ps[#[trigger] out@[s] as int],
            ) by {
                let pk = ps[k as int];
                if t < pos {
                    assert(out@[s] == old_out[s] && out@[t] == old_out[t]);
                } else if t == pos {
                    assert(out@[s] == old_out[s]);
                } else if s > pos {
                    assert(out@[s] == old_out[s - 1] && out@[t] == old_out[t - 1]);
                } else if s == pos {
                    let o = ps[old_out[t - 1] as int];
                    let first = ps[old_out[pos as int] as int];
                    assert(path_lt(pk, first));
                    if path_lt(o, pk) {
                        if t - 1 == pos {
                            lemma_path_lt_asymmetric(o, pk);
                        } else {
                            lemma_path_lt_transitive(o, pk, first);
                            assert(!path_lt(ps[old_out[t - 1] as int], ps[old_out[pos as int] as int]));
                        }
                    }
                } else {
                    assert(out@[s] == old_out[s] && out@[t] == old_out[t - 1]);
                }
            }
        }
    }
    proof {
        assert forall|t: int| 0 <= t < out@.len() implies #[trigger] out@[t] < ps.len() by {}
    }
    out
}

} // verus!
