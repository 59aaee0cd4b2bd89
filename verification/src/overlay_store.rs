//! Routing reads and writes to stores mounted at path prefixes.
//!
//! The deepest mounted prefix of a path handles it, with the rest of the
//! path. A prefix may instead hold a redirect to another path, which is
//! followed, with cycle detection.

use vstd::prelude::*;

use crate::error::Error;
use crate::path::{Path, PathError};
use crate::path_trie::{deepest, deepest_in, lemma_deepest_unique, PathTrie};
use crate::record::Record;
use crate::text::{push_str, to_owned_string};
use crate::traits::{Reader, Store, Writer};

verus! {

/// Which operations a redirect lets through.
#[derive(Debug, Clone, Copy, PartialEq, Eq, Structural)]
pub enum RedirectMode {
    /// Reads only.
    ReadOnly,
    /// Writes only.
    WriteOnly,
    /// Both reads and writes.
    ReadWrite,
}

/// What a route points to.
pub enum RouteTarget<S> {
    /// A mounted store.
    Store(S),
    /// A redirect to another path of the overlay.
    Redirect {
        /// The path redirected to.
        target: Path,
        /// Which operations pass.
        mode: RedirectMode,
        /// The mount that created the redirect, for removal with it.
        source_mount: Option<String>,
    },
}

/// Whether a redirect in `mode` lets an operation through.
pub open spec fn redirect_allows(mode: RedirectMode, is_write: bool) -> bool {
    !((!is_write && mode == RedirectMode::WriteOnly) || (is_write && mode == RedirectMode::ReadOnly))
}

/// How a path resolves.
pub enum Resolution {
    /// A redirect chain revisits a path (or would run forever).
    Cycle,
    /// No route handles the path.
    Unrouted,
    /// The store mounted at the first path handles the second one.
    Mounted(Seq<Seq<char>>, Seq<Seq<char>>),
}

/// Resolving `p` against `routes`, having already visited `visited`, with
/// `fuel` further steps allowed: the deepest route above `p` decides; a
/// redirect continues at its target joined with the rest of the path.
pub open spec fn resolve_model<S>(
    routes: Map<Seq<Seq<char>>, RouteTarget<S>>,
    p: Seq<Seq<char>>,
    is_write: bool,
    visited: Seq<Seq<Seq<char>>>,
    fuel: nat,
) -> Resolution
    decreases fuel,
{
    if fuel == 0 || visited.contains(p) {
        Resolution::Cycle
    } else {
        match deepest(routes, p) {
            None => Resolution::Unrouted,
            Some(k) => match routes[p.take(k)] {
                RouteTarget::Store(_) => Resolution::Mounted(p.take(k), p.skip(k)),
                RouteTarget::Redirect { target, mode, .. } => if !redirect_allows(mode, is_write) {
                    Resolution::Unrouted
                } else {
                    resolve_model(routes, target@ + p.skip(k), is_write, visited.push(p), (fuel - 1) as nat)
                },
            },
        }
    }
}

/// How `p` resolves from scratch.
pub open spec fn resolution<S>(routes: Map<Seq<Seq<char>>, RouteTarget<S>>, p: Seq<Seq<char>>, is_write: bool) -> Resolution {
    resolve_model(routes, p, is_write, Seq::empty(), usize::MAX as nat)
}

/// The name of an operation in errors.
pub open spec fn operation_name(is_write: bool) -> Seq<char> {
    if is_write {
        "write"@
    } else {
        "read"@
    }
}

/// Whether two route maps agree except at `m`, where both hold a store.
pub open spec fn same_routes_but_store<S>(a: Map<Seq<Seq<char>>, RouteTarget<S>>, b: Map<Seq<Seq<char>>, RouteTarget<S>>, m: Seq<Seq<char>>) -> bool {
    &&& a.dom() == b.dom()
    &&& b.contains_key(m) && b[m] is Store
    &&& forall|q: Seq<Seq<char>>| q != m && #[trigger] a.contains_key(q) ==> a[q] == b[q]
}

/// A resolution that lands on a store names a path where a store is
/// mounted.
pub proof fn lemma_mounted_is_store<S>(
    routes: Map<Seq<Seq<char>>, RouteTarget<S>>,
    p: Seq<Seq<char>>,
    is_write: bool,
    visited: Seq<Seq<Seq<char>>>,
    fuel: nat,
)
    ensures
        resolve_model(routes, p, is_write, visited, fuel) matches Resolution::Mounted(m, _) ==> routes.contains_key(m)
            && routes[m] is Store,
    decreases fuel,
{
    if fuel > 0 && !visited.contains(p) {
        if let Some(k) = deepest(routes, p) {
            lemma_deepest_some(routes, p);
            if let RouteTarget::Redirect { target, mode, .. } = routes[p.take(k)] {
                lemma_mounted_is_store(routes, target@ + p.skip(k), is_write, visited.push(p), (fuel - 1) as nat);
            }
        }
    }
}

/// The deepest mounted prefix handles a path: when a store is mounted at
/// `m` above `p` and nothing is routed at a longer prefix of `p`, `p`
/// resolves to that store with the rest of `p`, for reads and writes.
pub proof fn lemma_deepest_store_handles<S>(
    routes: Map<Seq<Seq<char>>, RouteTarget<S>>,
    m: Seq<Seq<char>>,
    p: Seq<Seq<char>>,
    is_write: bool,
)
    requires
        routes.contains_key(m),
        routes[m] is Store,
        crate::path::path_has_prefix(p, m),
        forall|j: int| m.len() < j <= p.len() ==> !(#[trigger] routes.contains_key(p.take(j))),
    ensures
        resolution(routes, p, is_write) == Resolution::Mounted(m, p.skip(m.len() as int)),
{
    assert(p.take(m.len() as int) =~= m);
    lemma_deepest_unique(routes, p, m.len() as int);
}

/// With nothing routed at or above `p`, `p` has no route.
pub proof fn lemma_no_route<S>(routes: Map<Seq<Seq<char>>, RouteTarget<S>>, p: Seq<Seq<char>>, is_write: bool)
    requires
        forall|j: int| 0 <= j <= p.len() ==> !(#[trigger] routes.contains_key(p.take(j))),
    ensures
        resolution(routes, p, is_write) == Resolution::Unrouted,
{
    assert(!exists|k: int| deepest_in(routes, p, k));
}

/// A redirect that does not let an operation through leaves the path
/// without a route for it.
pub proof fn lemma_redirect_mode_blocks<S>(
    routes: Map<Seq<Seq<char>>, RouteTarget<S>>,
    m: Seq<Seq<char>>,
    p: Seq<Seq<char>>,
    is_write: bool,
)
    requires
        routes.contains_key(m),
        routes[m] matches RouteTarget::Redirect { mode, .. } && !redirect_allows(mode, is_write),
        crate::path::path_has_prefix(p, m),
        forall|j: int| m.len() < j <= p.len() ==> !(#[trigger] routes.contains_key(p.take(j))),
    ensures
        resolution(routes, p, is_write) == Resolution::Unrouted,
{
    assert(p.take(m.len() as int) =~= m);
    lemma_deepest_unique(routes, p, m.len() as int);
}

/// A redirect onto a mounted store reaches it: when the deepest route above
/// `p` is a redirect from `m` to `t` that lets the operation through, and
/// the store at `t2` is the deepest route above `t` followed by the rest of
/// `p`, then `p` resolves to that store.
pub proof fn lemma_redirect_reaches_store<S>(
    routes: Map<Seq<Seq<char>>, RouteTarget<S>>,
    m: Seq<Seq<char>>,
    p: Seq<Seq<char>>,
    t2: Seq<Seq<char>>,
    is_write: bool,
)
    requires
        routes.contains_key(m),
        routes[m] matches RouteTarget::Redirect { mode, .. } && redirect_allows(mode, is_write),
        crate::path::path_has_prefix(p, m),
        forall|j: int| m.len() < j <= p.len() ==> !(#[trigger] routes.contains_key(p.take(j))),
        ({
            let q = routes[m]->target@ + p.skip(m.len() as int);
            &&& q != p
            &&& routes.contains_key(t2)
            &&& routes[t2] is Store
            &&& crate::path::path_has_prefix(q, t2)
            &&& forall|j: int| t2.len() < j <= q.len() ==> !(#[trigger] routes.contains_key(q.take(j)))
        }),
    ensures
        resolution(routes, p, is_write) == Resolution::Mounted(
            t2,
            (routes[m]->target@ + p.skip(m.len() as int)).skip(t2.len() as int),
        ),
{
    let q = routes[m]->target@ + p.skip(m.len() as int);
    assert(p.take(m.len() as int) =~= m);
    lemma_deepest_unique(routes, p, m.len() as int);
    assert(q.take(t2.len() as int) =~= t2);
    lemma_deepest_unique(routes, q, t2.len() as int);
    let visited = Seq::<Seq<Seq<char>>>::empty().push(p);
    assert(!visited.contains(q)) by {
        if visited.contains(q) {
            let i = choose|i: int| 0 <= i < visited.len() && visited[i] == q;
            assert(visited[i] == p);
        }
    }
    let f = usize::MAX as nat;
    assert(!Seq::<Seq<Seq<char>>>::empty().contains(p));
    assert(resolve_model(routes, p, is_write, Seq::empty(), f) == resolve_model(
        routes,
        q,
        is_write,
        visited,
        (f - 1) as nat,
    ));
    assert(resolve_model(routes, q, is_write, visited, (f - 1) as nat) == Resolution::Mounted(
        t2,
        q.skip(t2.len() as int),
    ));
}

/// A redirect that leads back to the path it came from is a cycle, and
/// the operation fails instead of looping.
pub proof fn lemma_redirect_cycle<S>(
    routes: Map<Seq<Seq<char>>, RouteTarget<S>>,
    m: Seq<Seq<char>>,
    p: Seq<Seq<char>>,
    is_write: bool,
)
    requires
        routes.contains_key(m),
        routes[m] matches RouteTarget::Redirect { mode, .. } && redirect_allows(mode, is_write),
        crate::path::path_has_prefix(p, m),
        forall|j: int| m.len() < j <= p.len() ==> !(#[trigger] routes.contains_key(p.take(j))),
        routes[m]->target@ + p.skip(m.len() as int) == p,
    ensures
        resolution(routes, p, is_write) == Resolution::Cycle,
{
    assert(p.take(m.len() as int) =~= m);
    lemma_deepest_unique(routes, p, m.len() as int);
    let visited = Seq::<Seq<Seq<char>>>::empty().push(p);
    assert(visited[0] == p);
    assert(visited.contains(p));
    let f = usize::MAX as nat;
    assert(!Seq::<Seq<Seq<char>>>::empty().contains(p));
    assert(resolve_model(routes, p, is_write, Seq::empty(), f) == resolve_model(
        routes,
        p,
        is_write,
        visited,
        (f - 1) as nat,
    ));
    assert(resolve_model(routes, p, is_write, visited, (f - 1) as nat) == Resolution::Cycle);
}

/// Two redirects that point at each other form a cycle: a path below the
/// first one fails with a cycle whatever the operation they both allow.
pub proof fn lemma_redirect_pair_cycle<S>(
    routes: Map<Seq<Seq<char>>, RouteTarget<S>>,
    a: Seq<Seq<char>>,
    b: Seq<Seq<char>>,
    rest: Seq<Seq<char>>,
    is_write: bool,
)
    requires
        routes.contains_key(a),
        routes.contains_key(b),
        routes[a] matches RouteTarget::Redirect { target, mode, .. } && target@ == b && redirect_allows(mode, is_write),
        routes[b] matches RouteTarget::Redirect { target, mode, .. } && target@ == a && redirect_allows(mode, is_write),
        a != b,
        forall|j: int| a.len() < j <= (a + rest).len() ==> !(#[trigger] routes.contains_key((a + rest).take(j))),
        forall|j: int| b.len() < j <= (b + rest).len() ==> !(#[trigger] routes.contains_key((b + rest).take(j))),
    ensures
        resolution(routes, a + rest, is_write) == Resolution::Cycle,
{
    let p = a + rest;
    let q = b + rest;
    assert(p.take(a.len() as int) =~= a);
    assert(p.skip(a.len() as int) =~= rest);
    lemma_deepest_unique(routes, p, a.len() as int);
    assert(q.take(b.len() as int) =~= b);
    assert(q.skip(b.len() as int) =~= rest);
    lemma_deepest_unique(routes, q, b.len() as int);
    let v1 = Seq::<Seq<Seq<char>>>::empty().push(p);
    let v2 = v1.push(q);
    assert(p != q) by {
        if p == q {
            assert(p.take(a.len() as int) =~= a);
            if a.len() < b.len() {
                assert(routes.contains_key(q.take(b.len() as int)));
                assert(q.take(b.len() as int) =~= b);
            } else if b.len() < a.len() {
                assert(p.take(a.len() as int) =~= a);
            } else {
                assert(q.take(b.len() as int) =~= b);
            }
        }
    }
    assert(!v1.contains(q)) by {
        if v1.contains(q) {
            let i = choose|i: int| 0 <= i < v1.len() && v1[i] == q;
            assert(v1[i] == p);
        }
    }
    assert(v2[0] == p);
    assert(v2.contains(p));
    let f = usize::MAX as nat;
    assert(!Seq::<Seq<Seq<char>>>::empty().contains(p));
    assert(resolve_model(routes, p, is_write, Seq::empty(), f) == resolve_model(
        routes,
        q,
        is_write,
        v1,
        (f - 1) as nat,
    ));
    assert(resolve_model(routes, q, is_write, v1, (f - 1) as nat) == resolve_model(
        routes,
        p,
        is_write,
        v2,
        (f - 2) as nat,
    ));
    assert(resolve_model(routes, p, is_write, v2, (f - 2) as nat) == Resolution::Cycle);
}

proof fn lemma_deepest_some<T>(m: Map<Seq<Seq<char>>, T>, p: Seq<Seq<char>>)
    requires
        deepest(m, p) is Some,
    ensures
        deepest_in(m, p, deepest(m, p)->Some_0),
{
}

/// A store that routes by path prefix to mounted stores and redirects.
pub struct OverlayStore<S> {
    trie: PathTrie<RouteTarget<S>>,
}

fn contains_path(visited: &Vec<Path>, p: &Path) -> (r: bool)
    ensures
        r == visited@.map_values(|x: Path| x@).contains(p@),
{
    let ghost vs = visited@.map_values(|x: Path| x@);
    let mut i: usize = 0;
    while i < visited.len()
        invariant
            i <= visited@.len(),
            vs == visited@.map_values(|x: Path| x@),
            forall|j: int| 0 <= j < i ==> vs[j] != p@,
        decreases visited@.len() - i,
    {
        if visited[i].same_as(p) {
            assert(vs[i as int] == p@);
            return true;
        }
        i = i + 1;
    }
    false
}

fn cycle_error(is_write: bool) -> (r: Error)
    ensures
        r.is_store("overlay"@, operation_name(is_write), "redirect cycle detected"@),
{
    Error::store("overlay", if is_write { "write" } else { "read" }, "redirect cycle detected")
}

impl<S> OverlayStore<S> {
    /// The routes: what each mounted path holds.
    pub closed spec fn routes(self) -> Map<Seq<Seq<char>>, RouteTarget<S>> {
        self.trie.values()
    }

    /// An empty overlay.
    pub fn new() -> (r: OverlayStore<S>)
        ensures
            r.routes() == Map::<Seq<Seq<char>>, RouteTarget<S>>::empty(),
    {
        OverlayStore { trie: PathTrie::new() }
    }

    /// Resolve `path` for an operation, following redirects.
    fn resolve(&self, path: &Path, is_write: bool) -> (r: Result<Option<(Path, Path)>, Error>)
        ensures
            match resolution(self.routes(), path@, is_write) {
                Resolution::Cycle => r matches Err(e) && e.is_store("overlay"@, operation_name(is_write), "redirect cycle detected"@),
                Resolution::Unrouted => r matches Ok(None),
                Resolution::Mounted(m, s) => r matches Ok(Some((mp, sp))) && mp@ == m && sp@ == s,
            },
    {
        let ghost routes = self.routes();
        let mut visited: Vec<Path> = Vec::new();
        let mut cur = path.duplicate();
        assert(visited@.map_values(|x: Path| x@) =~= Seq::<Seq<Seq<char>>>::empty());
        loop
            invariant
                routes == self.routes(),
                visited@.len() <= usize::MAX,
                resolution(routes, path@, is_write) == resolve_model(
                    routes,
                    cur@,
                    is_write,
                    visited@.map_values(|x: Path| x@),
                    (usize::MAX - visited@.len()) as nat,
                ),
            decreases usize::MAX - visited@.len(),
        {
            let ghost vs = visited@.map_values(|x: Path| x@);
            if visited.len() == usize::MAX || contains_path(&visited, &cur) {
                return Err(cycle_error(is_write));
            }
            let entry = cur.duplicate();
            visited.push(entry);
            assert(visited@.map_values(|x: Path| x@) =~= vs.push(cur@));
            match self.trie.find_ancestor(&cur) {
                None => {
                    proof {
                        if exists|k: int| deepest_in(routes, cur@, k) {
                            let k = choose|k: int| deepest_in(routes, cur@, k);
                            assert(0 <= k <= cur@.len());
                            assert(cur@.take(k) == cur@.take(k));
                        }
                    }
                    return Ok(None);
                },
                Some((target, suffix)) => {
                    let k = cur.len() - suffix.len();
                    proof {
                        let j = choose|j: int| crate::path_trie::is_deepest_ancestor(self.trie, cur@, j)
                            && self.trie.values()[cur@.take(j)] == *target && suffix@ == cur@.skip(j);
                        lemma_deepest_unique(routes, cur@, j);
                        assert(j == k);
                    }
                    match target {
                        RouteTarget::Store(_) => {
                            let mount = cur.slice(0, k);
                            assert(cur@.subrange(0, k as int) =~= cur@.take(k as int));
                            return Ok(Some((mount, suffix)));
                        },
                        RouteTarget::Redirect { target: to, mode, .. } => {
                            let allowed = !((!is_write && *mode == RedirectMode::WriteOnly) || (is_write && *mode
                                == RedirectMode::ReadOnly));
                            if !allowed {
                                return Ok(None);
                            }
                            cur = to.join(&suffix);
                        },
                    }
                },
            }
        }
    }
}

impl<S> OverlayStore<S> {
    /// Mount `store` at `path`, returning the store it replaces there.
    pub fn mount(&mut self, path: Path, store: S) -> (r: Option<S>)
        ensures
            final(self).routes() == old(self).routes().insert(path@, RouteTarget::Store(store)),
            match r {
                Some(s) => old(self).routes().contains_key(path@) && old(self).routes()[path@] == RouteTarget::Store(s),
                None => !(old(self).routes().contains_key(path@) && old(self).routes()[path@] is Store),
            },
    {
        match self.trie.insert(&path, RouteTarget::Store(store)) {
            Some(RouteTarget::Store(s)) => Some(s),
            _ => None,
        }
    }

    /// Mount an already boxed store: the same as `mount`.
    pub fn mount_boxed(&mut self, path: Path, store: S) -> (r: Option<S>)
        ensures
            final(self).routes() == old(self).routes().insert(path@, RouteTarget::Store(store)),
            match r {
                Some(s) => old(self).routes().contains_key(path@) && old(self).routes()[path@] == RouteTarget::Store(s),
                None => !(old(self).routes().contains_key(path@) && old(self).routes()[path@] is Store),
            },
    {
        self.mount(path, store)
    }

    /// Remove the route at exactly `path`, keeping the nested ones; returns
    /// the store if a store was mounted there.
    pub fn unmount(&mut self, path: &Path) -> (r: Option<S>)
        ensures
            final(self).routes() == old(self).routes().remove(path@),
            match r {
                Some(s) => old(self).routes().contains_key(path@) && old(self).routes()[path@] == RouteTarget::Store(s),
                None => !(old(self).routes().contains_key(path@) && old(self).routes()[path@] is Store),
            },
    {
        match self.trie.remove(path) {
            Some(RouteTarget::Store(s)) => Some(s),
            _ => None,
        }
    }

    /// Remove every route at or below `path`, returning them as an
    /// overlay of their own, rooted at `path`.
    pub fn unmount_subtree(&mut self, path: &Path) -> (r: Option<OverlayStore<S>>)
        ensures
            path@.len() > 0 ==> {
                &&& forall|q: Seq<Seq<char>>| #[trigger] final(self).routes().contains_key(q) == (old(self).routes().contains_key(q)
                    && !crate::path::path_has_prefix(q, path@))
                &&& forall|q: Seq<Seq<char>>| #[trigger] final(self).routes().contains_key(q) ==> final(self).routes()[q]
                    == old(self).routes()[q]
                &&& match r {
                    Some(o) => forall|q: Seq<Seq<char>>| #[trigger] o.routes().contains_key(q) == old(self).routes().contains_key(path@ + q)
                        && (o.routes().contains_key(q) ==> o.routes()[q] == old(self).routes()[path@ + q]),
                    None => forall|q: Seq<Seq<char>>| !(#[trigger] old(self).routes().contains_key(path@ + q)),
                }
            },
            path@.len() == 0 ==> final(self).routes() == Map::<Seq<Seq<char>>, RouteTarget<S>>::empty(),
            path@.len() == 0 ==> match r {
                Some(o) => o.routes() == old(self).routes(),
                None => true,
            },
    {
        let ghost old_trie = self.trie;
        let removed = self.trie.remove_subtree(path);
        let ghost rm = removed;
        proof {
            if path@.len() == 0 {
                assert forall|q: Seq<Seq<char>>| !(#[trigger] self.trie.values().contains_key(q)) by {
                    self.trie.lemma_bare(q);
                }
                assert(self.trie.values() =~= Map::<Seq<Seq<char>>, RouteTarget<S>>::empty());
            } else {
                assert forall|q: Seq<Seq<char>>| #[trigger] self.routes().contains_key(q) == (old_trie.values().contains_key(q)
                    && !crate::path::path_has_prefix(q, path@)) by {
                    assert(self.trie.value_at(q) == if crate::path::path_has_prefix(q, path@) {
                        None
                    } else {
                        old_trie.value_at(q)
                    });
                }
                match rm {
                    Some(t) => {
                        assert forall|q: Seq<Seq<char>>| #[trigger] t.values().contains_key(q) == old_trie.values().contains_key(path@ + q)
                            && (t.values().contains_key(q) ==> t.values()[q] == old_trie.values()[path@ + q]) by {
                            crate::path_trie::lemma_subtrie_values(old_trie, path@, q);
                        }
                    },
                    None => {
                        assert forall|q: Seq<Seq<char>>| !(#[trigger] old_trie.values().contains_key(path@ + q)) by {
                            old_trie.lemma_node_at_concat(path@, q);
                        }
                    },
                }
            }
        }
        match removed {
            Some(t) => Some(OverlayStore { trie: t }),
            None => None,
        }
    }

    /// Redirect the paths under `from` to the same paths under `to`.
    pub fn add_redirect(&mut self, from: Path, to: Path, mode: RedirectMode, source_mount: Option<String>)
        ensures
            final(self).routes() == old(self).routes().insert(from@, RouteTarget::Redirect { target: to, mode, source_mount }),
    {
        self.trie.insert(&from, RouteTarget::Redirect { target: to, mode, source_mount });
    }

    /// Whether some route lies at or above `path`.
    pub fn has_route(&self, path: &Path) -> (r: bool)
        ensures
            r == (deepest(self.routes(), path@) is Some),
    {
        let found = self.trie.find_ancestor(path);
        proof {
            if exists|k: int| deepest_in(self.routes(), path@, k) {
                let k = choose|k: int| deepest_in(self.routes(), path@, k);
                assert(self.routes().contains_key(path@.take(k)));
            }
        }
        found.is_some()
    }

    /// Whether no route is mounted.
    pub fn is_empty(&self) -> (r: bool)
        ensures
            r == (self.routes() == Map::<Seq<Seq<char>>, RouteTarget<S>>::empty()),
    {
        let r = self.trie.is_empty();
        proof {
            if r {
                assert forall|q: Seq<Seq<char>>| !(#[trigger] self.routes().contains_key(q)) by {
                    assert(self.trie.value_at(q) is None);
                }
                assert(self.routes() =~= Map::<Seq<Seq<char>>, RouteTarget<S>>::empty());
            } else {
                let q = choose|q: Seq<Seq<char>>| !(#[trigger] self.trie.value_at(q) is None);
                assert(self.routes().contains_key(q));
            }
        }
        r
    }
}

/// Whether a route is a redirect created by the mount `name`.
pub open spec fn redirect_of<S>(t: RouteTarget<S>, name: Seq<char>) -> bool {
    t matches RouteTarget::Redirect { source_mount: Some(src), .. } && src@ == name
}

/// A sequence of distinct items, each in `s`, covering `s`, is as long as
/// `s` is large.
proof fn lemma_distinct_cover_len<A>(items: Seq<A>, s: Set<A>)
    requires
        items.no_duplicates(),
        forall|i: int| 0 <= i < items.len() ==> s.contains(#[trigger] items[i]),
        forall|x: A| #[trigger] s.contains(x) ==> items.contains(x),
    ensures
        s.finite(),
        s.len() == items.len(),
{
    assert(items.to_set() =~= s);
    items.unique_seq_to_set();
}

impl<S> OverlayStore<S> {
    /// Remove every redirect that the mount `mount_name` created.
    pub fn remove_redirects_for_mount(&mut self, mount_name: &str)
        ensures
            forall|q: Seq<Seq<char>>| #[trigger] final(self).routes().contains_key(q) == (old(self).routes().contains_key(q)
                && !redirect_of(old(self).routes()[q], mount_name@)),
            forall|q: Seq<Seq<char>>| #[trigger] final(self).routes().contains_key(q) ==> final(self).routes()[q] == old(self).routes()[q],
    {
        let ghost old_routes = self.routes();
        let mut doomed: Vec<Path> = Vec::new();
        {
            let all = self.trie.iter();
            let mut i: usize = 0;
            while i < all.len()
                invariant
                    i <= all@.len(),
                    old_routes == self.routes(),
                    forall|k: int| 0 <= k < all@.len() ==> self.routes().contains_key((#[trigger] all@[k]).0@)
                        && self.routes()[all@[k].0@] == *all@[k].1,
                    forall|q: Seq<Seq<char>>| #[trigger] self.routes().contains_key(q) ==> exists|k: int|
                        0 <= k < all@.len() && (#[trigger] all@[k]).0@ == q,
                    forall|k: int| 0 <= k < doomed@.len() ==> old_routes.contains_key((#[trigger] doomed@[k])@)
                        && redirect_of(old_routes[doomed@[k]@], mount_name@),
                    forall|k: int| 0 <= k < i && redirect_of(*(#[trigger] all@[k]).1, mount_name@) ==> exists|j: int|
                        0 <= j < doomed@.len() && (#[trigger] doomed@[j])@ == all@[k].0@,
                decreases all@.len() - i,
            {
                let (p, t) = &all[i];
                let hit = match t {
                    RouteTarget::Redirect { source_mount: Some(src), .. } => crate::text::str_eq(src.as_str(), mount_name),
                    _ => false,
                };
                if hit {
                    let ghost before = doomed@;
                    doomed.push(p.duplicate());
                    proof {
                        assert forall|k: int| 0 <= k <= i && redirect_of(*(#[trigger] all@[k]).1, mount_name@) implies exists|j: int|
                            0 <= j < doomed@.len() && (#[trigger] doomed@[j])@ == all@[k].0@ by {
                            if k < i {
                                let j = choose|j: int| 0 <= j < before.len() && (#[trigger] before[j])@ == all@[k].0@;
                                assert(doomed@[j] == before[j]);
                            } else {
                                assert(doomed@[before.len() as int]@ == all@[k].0@);
                            }
                        }
                    }
                }
                i = i + 1;
            }
            proof {
                assert forall|q: Seq<Seq<char>>| #[trigger] old_routes.contains_key(q) && redirect_of(old_routes[q], mount_name@) implies exists|j: int|
                    0 <= j < doomed@.len() && (#[trigger] doomed@[j])@ == q by {
                    let k = choose|k: int| 0 <= k < all@.len() && (#[trigger] all@[k]).0@ == q;
                    assert(redirect_of(*all@[k].1, mount_name@));
                }
            }
        }
        let mut i: usize = 0;
        while i < doomed.len()
            invariant
                i <= doomed@.len(),
                forall|k: int| 0 <= k < doomed@.len() ==> old_routes.contains_key((#[trigger] doomed@[k])@)
                    && redirect_of(old_routes[doomed@[k]@], mount_name@),
                forall|q: Seq<Seq<char>>| #[trigger] old_routes.contains_key(q) && redirect_of(old_routes[q], mount_name@) ==> exists|j: int|
                    0 <= j < doomed@.len() && (#[trigger] doomed@[j])@ == q,
                forall|q: Seq<Seq<char>>| #[trigger] self.routes().contains_key(q) == (old_routes.contains_key(q)
                    && !(exists|j: int| 0 <= j < i && (#[trigger] doomed@[j])@ == q)),
                forall|q: Seq<Seq<char>>| #[trigger] self.routes().contains_key(q) ==> self.routes()[q] == old_routes[q],
            decreases doomed@.len() - i,
        {
            let ghost before = self.routes();
            self.trie.remove(&doomed[i]);
            proof {
                assert forall|q: Seq<Seq<char>>| #[trigger] self.routes().contains_key(q) == (old_routes.contains_key(q)
                    && !(exists|j: int| 0 <= j < i + 1 && (#[trigger] doomed@[j])@ == q)) by {
                    if q == doomed@[i as int]@ {
                        assert(!self.routes().contains_key(q));
                    } else {
                        assert(self.routes().contains_key(q) == before.contains_key(q));
                        if exists|j: int| 0 <= j < i + 1 && (#[trigger] doomed@[j])@ == q {
                            let j = choose|j: int| 0 <= j < i + 1 && (#[trigger] doomed@[j])@ == q;
                            assert(j < i);
                        }
                    }
                }
            }
            i = i + 1;
        }
        proof {
            assert forall|q: Seq<Seq<char>>| #[trigger] self.routes().contains_key(q) == (old_routes.contains_key(q)
                && !redirect_of(old_routes[q], mount_name@)) by {
                if exists|j: int| 0 <= j < doomed@.len() && (#[trigger] doomed@[j])@ == q {
                    let j = choose|j: int| 0 <= j < doomed@.len() && (#[trigger] doomed@[j])@ == q;
                    assert(redirect_of(old_routes[doomed@[j]@], mount_name@));
                }
            }
        }
    }

    /// Every redirect: its path, its target and its mode.
    pub fn list_redirects(&self) -> (r: Vec<(Path, Path, RedirectMode)>)
        ensures
            forall|k: int| 0 <= k < r@.len() ==> self.routes().contains_key((#[trigger] r@[k]).0@)
                && (self.routes()[r@[k].0@] matches RouteTarget::Redirect { target, mode, .. } && target@ == r@[k].1@ && mode == r@[k].2),
            forall|q: Seq<Seq<char>>| #[trigger] self.routes().contains_key(q) && self.routes()[q] is Redirect ==> exists|k: int|
                0 <= k < r@.len() && (#[trigger] r@[k]).0@ == q,
            forall|a: int, b: int| 0 <= a < b < r@.len() ==> (#[trigger] r@[a]).0@ != (#[trigger] r@[b]).0@,
    {
        let all = self.trie.iter();
        let mut out: Vec<(Path, Path, RedirectMode)> = Vec::new();
        let ghost idx: Seq<int> = Seq::empty();
        let mut i: usize = 0;
        while i < all.len()
            invariant
                i <= all@.len(),
                idx.len() == out@.len(),
                forall|k: int| 0 <= k < all@.len() ==> self.routes().contains_key((#[trigger] all@[k]).0@)
                    && self.routes()[all@[k].0@] == *all@[k].1,
                forall|q: Seq<Seq<char>>| #[trigger] self.routes().contains_key(q) ==> exists|k: int|
                    0 <= k < all@.len() && (#[trigger] all@[k]).0@ == q,
                forall|a: int, b: int| 0 <= a < b < all@.len() ==> (#[trigger] all@[a]).0@ != (#[trigger] all@[b]).0@,
                forall|k: int| 0 <= k < out@.len() ==> 0 <= #[trigger] idx[k] < i && out@[k].0@ == all@[idx[k]].0@
                    && (*all@[idx[k]].1 matches RouteTarget::Redirect { target, mode, .. } && target@ == out@[k].1@ && mode == out@[k].2),
                forall|a: int, b: int| 0 <= a < b < out@.len() ==> #[trigger] idx[a] < #[trigger] idx[b],
                forall|k: int| 0 <= k < i && (*(#[trigger] all@[k]).1 is Redirect) ==> exists|j: int| 0 <= j < idx.len() && #[trigger] idx[j] == k,
            decreases all@.len() - i,
        {
            let (p, t) = &all[i];
            if let RouteTarget::Redirect { target, mode, .. } = t {
                out.push((p.duplicate(), target.duplicate(), *mode));
                proof {
                    let before = idx;
                    idx = idx.push(i as int);
                    assert forall|k: int| 0 <= k <= i && (*(#[trigger] all@[k]).1 is Redirect) implies exists|j: int| 0 <= j < idx.len() && #[trigger] idx[j] == k by {
                        if k < i {
                            let j = choose|j: int| 0 <= j < before.len() && #[trigger] before[j] == k;
                            assert(idx[j] == before[j]);
                        } else {
                            assert(idx[before.len() as int] == k);
                        }
                    }
                }
            }
            i = i + 1;
        }
        proof {
            assert forall|q: Seq<Seq<char>>| #[trigger] self.routes().contains_key(q) && self.routes()[q] is Redirect implies exists|k: int|
                0 <= k < out@.len() && (#[trigger] out@[k]).0@ == q by {
                let k = choose|k: int| 0 <= k < all@.len() && (#[trigger] all@[k]).0@ == q;
                assert(*all@[k].1 is Redirect);
                let j = choose|j: int| 0 <= j < idx.len() && #[trigger] idx[j] == k;
                assert(out@[j].0@ == q);
            }
            assert forall|k: int| 0 <= k < out@.len() implies self.routes().contains_key((#[trigger] out@[k]).0@)
                && (self.routes()[out@[k].0@] matches RouteTarget::Redirect { target, mode, .. } && target@ == out@[k].1@ && mode == out@[k].2) by {
                let j = idx[k];
                assert(self.routes().contains_key(all@[j].0@) && self.routes()[all@[j].0@] == *all@[j].1);
            }
            assert forall|a: int, b: int| 0 <= a < b < out@.len() implies (#[trigger] out@[a]).0@ != (#[trigger] out@[b]).0@ by {
                assert(idx[a] < idx[b]);
                assert(all@[idx[a]].0@ != all@[idx[b]].0@);
            }
        }
        out
    }

    /// The number of routes, stores and redirects together.
    pub fn route_count(&self) -> (r: usize)
        ensures
            self.routes().dom().finite(),
            r == self.routes().dom().len(),
    {
        let all = self.trie.iter();
        proof {
            let ps = all@.map_values(|e: (Path, &RouteTarget<S>)| e.0@);
            assert forall|a: int, b: int| 0 <= a < ps.len() && 0 <= b < ps.len() && a != b implies ps[a] != ps[b] by {
                if a < b {
                    assert(all@[a].0@ != all@[b].0@);
                } else {
                    assert(all@[b].0@ != all@[a].0@);
                }
            }
            assert forall|x: Seq<Seq<char>>| #[trigger] self.routes().dom().contains(x) implies ps.contains(x) by {
                let k = choose|k: int| 0 <= k < all@.len() && (#[trigger] all@[k]).0@ == x;
                assert(ps[k] == x);
            }
            lemma_distinct_cover_len(ps, self.routes().dom());
        }
        all.len()
    }
}

/// The paths at which a store (not a redirect) is mounted.
pub open spec fn store_paths<S>(routes: Map<Seq<Seq<char>>, RouteTarget<S>>) -> Set<Seq<Seq<char>>> {
    routes.dom().filter(|q: Seq<Seq<char>>| routes[q] is Store)
}

impl<S> OverlayStore<S> {
    /// Every mounted store with its path (redirects left out).
    pub fn mounts(&self) -> (r: Vec<(Path, &S)>)
        ensures
            forall|k: int| 0 <= k < r@.len() ==> self.routes().contains_key((#[trigger] r@[k]).0@)
                && self.routes()[r@[k].0@] == RouteTarget::Store(*r@[k].1),
            forall|q: Seq<Seq<char>>| #[trigger] self.routes().contains_key(q) && self.routes()[q] is Store ==> exists|k: int|
                0 <= k < r@.len() && (#[trigger] r@[k]).0@ == q,
            forall|a: int, b: int| 0 <= a < b < r@.len() ==> (#[trigger] r@[a]).0@ != (#[trigger] r@[b]).0@,
    {
        let all = self.trie.iter();
        let mut out: Vec<(Path, &S)> = Vec::new();
        let ghost idx: Seq<int> = Seq::empty();
        let mut i: usize = 0;
        while i < all.len()
            invariant
                i <= all@.len(),
                idx.len() == out@.len(),
                forall|k: int| 0 <= k < all@.len() ==> self.routes().contains_key((#[trigger] all@[k]).0@)
                    && self.routes()[all@[k].0@] == *all@[k].1,
                forall|q: Seq<Seq<char>>| #[trigger] self.routes().contains_key(q) ==> exists|k: int|
                    0 <= k < all@.len() && (#[trigger] all@[k]).0@ == q,
                forall|a: int, b: int| 0 <= a < b < all@.len() ==> (#[trigger] all@[a]).0@ != (#[trigger] all@[b]).0@,
                forall|k: int| 0 <= k < out@.len() ==> 0 <= #[trigger] idx[k] < i && out@[k].0@ == all@[idx[k]].0@
                    && *all@[idx[k]].1 == RouteTarget::Store(*out@[k].1),
                forall|a: int, b: int| 0 <= a < b < out@.len() ==> #[trigger] idx[a] < #[trigger] idx[b],
                forall|k: int| 0 <= k < i && (*(#[trigger] all@[k]).1 is Store) ==> exists|j: int| 0 <= j < idx.len() && #[trigger] idx[j] == k,
            decreases all@.len() - i,
        {
            let (p, t) = &all[i];
            if let RouteTarget::Store(st) = t {
                out.push((p.duplicate(), st));
                proof {
                    let before = idx;
                    idx = idx.push(i as int);
                    assert forall|k: int| 0 <= k <= i && (*(#[trigger] all@[k]).1 is Store) implies exists|j: int| 0 <= j < idx.len() && #[trigger] idx[j] == k by {
                        if k < i {
                            let j = choose|j: int| 0 <= j < before.len() && #[trigger] before[j] == k;
                            assert(idx[j] == before[j]);
                        } else {
                            assert(idx[before.len() as int] == k);
                        }
                    }
                }
            }
            i = i + 1;
        }
        proof {
            assert forall|q: Seq<Seq<char>>| #[trigger] self.routes().contains_key(q) && self.routes()[q] is Store implies exists|k: int|
                0 <= k < out@.len() && (#[trigger] out@[k]).0@ == q by {
                let k = choose|k: int| 0 <= k < all@.len() && (#[trigger] all@[k]).0@ == q;
                assert(*all@[k].1 is Store);
                let j = choose|j: int| 0 <= j < idx.len() && #[trigger] idx[j] == k;
                assert(out@[j].0@ == q);
            }
            assert forall|k: int| 0 <= k < out@.len() implies self.routes().contains_key((#[trigger] out@[k]).0@)
                && self.routes()[out@[k].0@] == RouteTarget::Store(*out@[k].1) by {
                let j = idx[k];
                assert(self.routes().contains_key(all@[j].0@) && self.routes()[all@[j].0@] == *all@[j].1);
            }
            assert forall|a: int, b: int| 0 <= a < b < out@.len() implies (#[trigger] out@[a]).0@ != (#[trigger] out@[b]).0@ by {
                assert(idx[a] < idx[b]);
                assert(all@[idx[a]].0@ != all@[idx[b]].0@);
            }
        }
        out
    }

    /// The number of mounted stores, redirects left out.
    pub fn store_count(&self) -> (r: usize)
        ensures
            store_paths(self.routes()).finite(),
            r == store_paths(self.routes()).len(),
    {
        let ms = self.mounts();
        proof {
            let ps = ms@.map_values(|e: (Path, &S)| e.0@);
            assert forall|a: int, b: int| 0 <= a < ps.len() && 0 <= b < ps.len() && a != b implies ps[a] != ps[b] by {
                if a < b {
                    assert(ms@[a].0@ != ms@[b].0@);
                } else {
                    assert(ms@[b].0@ != ms@[a].0@);
                }
            }
            assert forall|i: int| 0 <= i < ps.len() implies store_paths(self.routes()).contains(#[trigger] ps[i]) by {
                assert(self.routes().contains_key(ms@[i].0@));
            }
            assert forall|x: Seq<Seq<char>>| #[trigger] store_paths(self.routes()).contains(x) implies ps.contains(x) by {
                assert(self.routes().contains_key(x) && self.routes()[x] is Store);
                let k = choose|k: int| 0 <= k < ms@.len() && (#[trigger] ms@[k]).0@ == x;
                assert(ps[k] == x);
            }
            lemma_distinct_cover_len(ps, store_paths(self.routes()));
        }
        ms.len()
    }

    /// Mount a store: the same as `mount`, discarding what it replaces.
    pub fn add_layer(&mut self, mount_root: Path, store: S)
        ensures
            final(self).routes() == old(self).routes().insert(mount_root@, RouteTarget::Store(store)),
    {
        self.mount(mount_root, store);
    }

    /// The number of mounted stores: the same as `store_count`.
    pub fn layer_count(&self) -> (r: usize)
        ensures
            store_paths(self.routes()).finite(),
            r == store_paths(self.routes()).len(),
    {
        self.store_count()
    }

    /// Unmount at exactly `prefix`: the same as `unmount`.
    pub fn remove_layer(&mut self, prefix: &Path) -> (r: Option<S>)
        ensures
            final(self).routes() == old(self).routes().remove(prefix@),
            match r {
                Some(s) => old(self).routes().contains_key(prefix@) && old(self).routes()[prefix@] == RouteTarget::Store(s),
                None => !(old(self).routes().contains_key(prefix@) && old(self).routes()[prefix@] is Store),
            },
    {
        self.unmount(prefix)
    }

    /// Take the store mounted at `mount` out of the trie, leaving the route
    /// empty until `put_back`.
    fn take_store(&mut self, mount: &Path) -> (r: S)
        requires
            old(self).routes().contains_key(mount@),
            old(self).routes()[mount@] is Store,
        ensures
            old(self).routes()[mount@] == RouteTarget::Store(r),
            final(self).routes() == old(self).routes().remove(mount@),
    {
        match self.trie.remove(mount) {
            Some(RouteTarget::Store(s)) => s,
            _ => vstd::pervasive::unreached(),
        }
    }
}

/// The result path of a write routed to the store at `mount`: the store's
/// own result path under `mount`, or its error.
pub fn routed_write_result(mount: &Path, inner: Result<Path, Error>) -> (r: Result<Path, Error>)
    ensures
        match inner {
            Ok(p) => r matches Ok(q) && q@ == mount@ + p@,
            Err(e) => r == Err::<Path, Error>(e),
        },
{
    match inner {
        Ok(p) => Ok(mount.join(&p)),
        Err(e) => Err(e),
    }
}

impl<S: Store> Reader for OverlayStore<S> {
    /// A read answers the redirect-cycle error, the no-route error, or
    /// what the store mounted at the deepest route answers at the rest of
    /// the path.
    open spec fn read_answers(&self, from: Seq<Seq<char>>, r: Result<Option<Record>, Error>) -> bool {
        match resolution(self.routes(), from, false) {
            Resolution::Cycle => r matches Err(e) && e.is_store("overlay"@, "read"@, "redirect cycle detected"@),
            Resolution::Unrouted => r matches Err(Error::NoRoute { path }) && path@ == from,
            Resolution::Mounted(m, sfx) => S::read_answers(&self.routes()[m]->Store_0, sfx, r),
        }
    }

    fn read(&mut self, from: &Path) -> (r: Result<Option<Record>, Error>)
        ensures
            match resolution(old(self).routes(), from@, false) {
                Resolution::Cycle => *final(self) == *old(self) && (r matches Err(e) && e.is_store("overlay"@, "read"@, "redirect cycle detected"@)),
                Resolution::Unrouted => *final(self) == *old(self) && (r matches Err(Error::NoRoute { path }) && path@ == from@),
                Resolution::Mounted(m, sfx) => {
                    &&& same_routes_but_store(old(self).routes(), final(self).routes(), m)
                    &&& S::read_answers(&old(self).routes()[m]->Store_0, sfx, r)
                },
            },
    {
        let ghost start = *self;
        let r = self.read_routed(from);
        assert(<OverlayStore<S> as Reader>::read_answers(&start, from@, r));
        assert(<OverlayStore<S> as Reader>::read_state(&*self) == <OverlayStore<S> as Reader>::read_state(&start));
        r
    }
}

impl<S: Store> OverlayStore<S> {
    fn read_routed(&mut self, from: &Path) -> (r: Result<Option<Record>, Error>)
        ensures
            match resolution(old(self).routes(), from@, false) {
                Resolution::Cycle => *final(self) == *old(self) && (r matches Err(e) && e.is_store("overlay"@, "read"@, "redirect cycle detected"@)),
                Resolution::Unrouted => *final(self) == *old(self) && (r matches Err(Error::NoRoute { path }) && path@ == from@),
                Resolution::Mounted(m, sfx) => {
                    &&& same_routes_but_store(old(self).routes(), final(self).routes(), m)
                    &&& S::read_answers(&old(self).routes()[m]->Store_0, sfx, r)
                },
            },
    {
        match self.resolve(from, false) {
            Err(e) => Err(e),
            Ok(None) => Err(Error::NoRoute { path: from.duplicate() }),
            Ok(Some((mount, suffix))) => {
                let ghost before = self.routes();
                proof {
                    lemma_mounted_is_store(before, from@, false, Seq::empty(), usize::MAX as nat);
                }
                let mut store = self.take_store(&mount);
                let ghost mounted = store;
                let answer = store.read(&suffix);
                self.trie.insert(&mount, RouteTarget::Store(store));
                proof {
                    assert(self.routes().dom() =~= before.dom());
                    assert(before[mount@] == RouteTarget::Store(mounted));
                    assert(S::read_answers(&mounted, suffix@, answer));
                }
                answer
            },
        }
    }
}

/// Whether `r` is what a routed write makes of the mounted store's
/// answer `g`, for the store mounted at `m` (`routed_write_result`).
pub open spec fn routed_from(m: Seq<Seq<char>>, g: Result<Path, Error>, r: Result<Path, Error>) -> bool {
    match g {
        Ok(p) => r matches Ok(q) && q@ == m + p@,
        Err(e) => r == Err::<Path, Error>(e),
    }
}

impl<S: Store> Writer for OverlayStore<S> {
    /// A write answers the redirect-cycle error, the no-route error, or
    /// what the store mounted at the deepest route answers at the rest of
    /// the path, its result path put back under the mount.
    open spec fn write_answers(&self, to: Seq<Seq<char>>, data: Record, r: Result<Path, Error>) -> bool {
        match resolution(self.routes(), to, true) {
            Resolution::Cycle => r matches Err(e) && e.is_store("overlay"@, "write"@, "redirect cycle detected"@),
            Resolution::Unrouted => r matches Err(Error::NoRoute { path }) && path@ == to,
            Resolution::Mounted(m, sfx) => exists|g: Result<Path, Error>|
                S::write_answers(&self.routes()[m]->Store_0, sfx, data, g) && #[trigger] routed_from(m, g, r),
        }
    }

    fn write(&mut self, to: &Path, data: Record) -> (r: Result<Path, Error>)
        ensures
            match resolution(old(self).routes(), to@, true) {
                Resolution::Cycle => *final(self) == *old(self) && (r matches Err(e) && e.is_store("overlay"@, "write"@, "redirect cycle detected"@)),
                Resolution::Unrouted => *final(self) == *old(self) && (r matches Err(Error::NoRoute { path }) && path@ == to@),
                Resolution::Mounted(m, sfx) => {
                    &&& same_routes_but_store(old(self).routes(), final(self).routes(), m)
                    &&& r matches Ok(q) ==> m.len() <= q@.len() && q@.subrange(0, m.len() as int) == m
                    &&& exists|g: Result<Path, Error>|
                        S::write_answers(&old(self).routes()[m]->Store_0, sfx, data, g) && #[trigger] routed_from(m, g, r)
                },
            },
    {
        match self.resolve(to, true) {
            Err(e) => Err(e),
            Ok(None) => Err(Error::NoRoute { path: to.duplicate() }),
            Ok(Some((mount, suffix))) => {
                let ghost before = self.routes();
                proof {
                    lemma_mounted_is_store(before, to@, true, Seq::empty(), usize::MAX as nat);
                }
                let mut store = self.take_store(&mount);
                let ghost mounted = store;
                let ghost d = data;
                let inner = store.write(&suffix, data);
                self.trie.insert(&mount, RouteTarget::Store(store));
                let r = routed_write_result(&mount, inner);
                proof {
                    assert(self.routes().dom() =~= before.dom());
                    assert(before[mount@] == RouteTarget::Store(mounted));
                    assert(S::write_answers(&mounted, suffix@, d, inner));
                    assert(routed_from(mount@, inner, r));
                }
                r
            },
        }
    }
}

impl<S> Default for OverlayStore<S> {
    fn default() -> (r: OverlayStore<S>)
        ensures
            r.routes() == Map::<Seq<Seq<char>>, RouteTarget<S>>::empty(),
    {
        OverlayStore::new()
    }
}

// ---------------------------------------------------------------------
// Capability wrappers
// ---------------------------------------------------------------------

/// A reader that rejects every write.
pub struct OnlyReadable<R> {
    inner: R,
}

impl<R> OnlyReadable<R> {
    /// The wrapped reader.
    pub closed spec fn wrapped(self) -> R {
        self.inner
    }

    /// Wrap a reader.
    pub fn new(inner: R) -> (r: OnlyReadable<R>)
        ensures
            r.wrapped() == inner,
    {
        OnlyReadable { inner }
    }

    /// The wrapped reader.
    pub fn inner(&self) -> (r: &R)
        ensures
            *r == self.wrapped(),
    {
        &self.inner
    }
}

/// The message with which a read-only path refuses a write.
pub open spec fn read_only_message(to: Seq<Seq<char>>) -> Seq<char> {
    "Path '"@ + crate::path::path_string(to) + "' is read-only"@
}

impl<R: Reader> Reader for OnlyReadable<R> {
    /// A read answers what the wrapped reader answers.
    open spec fn read_answers(&self, from: Seq<Seq<char>>, r: Result<Option<Record>, Error>) -> bool {
        R::read_answers(&self.wrapped(), from, r)
    }

    fn read(&mut self, from: &Path) -> Result<Option<Record>, Error> {
        let ghost start = *self;
        let r = self.inner.read(from);
        assert(<OnlyReadable<R> as Reader>::read_answers(&start, from@, r));
        r
    }
}

impl<R: Reader> Writer for OnlyReadable<R> {
    /// Every write is refused: the path is read-only.
    open spec fn write_answers(&self, to: Seq<Seq<char>>, data: Record, r: Result<Path, Error>) -> bool {
        r matches Err(Error::Path(PathError::InvalidPath { message })) && message@ == read_only_message(to)
    }

    fn write(&mut self, to: &Path, data: Record) -> (r: Result<Path, Error>)
        ensures
            *final(self) == *old(self),
            r matches Err(Error::Path(PathError::InvalidPath { message })) && message@ == read_only_message(to@),
    {
        let mut message = to_owned_string("Path '");
        let p = to.to_string();
        push_str(&mut message, p.as_str());
        push_str(&mut message, "' is read-only");
        Err(Error::Path(PathError::InvalidPath { message }))
    }
}

/// A writer that reads as empty everywhere.
pub struct OnlyWritable<W> {
    inner: W,
}

impl<W> OnlyWritable<W> {
    /// The wrapped writer.
    pub closed spec fn wrapped(self) -> W {
        self.inner
    }

    /// Wrap a writer.
    pub fn new(inner: W) -> (r: OnlyWritable<W>)
        ensures
            r.wrapped() == inner,
    {
        OnlyWritable { inner }
    }

    /// The wrapped writer.
    pub fn inner(&self) -> (r: &W)
        ensures
            *r == self.wrapped(),
    {
        &self.inner
    }
}

impl<W: Writer> Reader for OnlyWritable<W> {
    /// Every read finds nothing.
    open spec fn read_answers(&self, from: Seq<Seq<char>>, r: Result<Option<Record>, Error>) -> bool {
        r matches Ok(None)
    }

    fn read(&mut self, from: &Path) -> (r: Result<Option<Record>, Error>)
        ensures
            *final(self) == *old(self),
            r matches Ok(None),
    {
        let ghost start = *self;
        let r = Ok(None);
        assert(<OnlyWritable<W> as Reader>::read_answers(&start, from@, r));
        r
    }
}

impl<W: Writer> Writer for OnlyWritable<W> {
    /// A write answers what the wrapped writer answers.
    open spec fn write_answers(&self, to: Seq<Seq<char>>, data: Record, r: Result<Path, Error>) -> bool {
        W::write_answers(&self.wrapped(), to, data, r)
    }

    fn write(&mut self, to: &Path, data: Record) -> Result<Path, Error> {
        self.inner.write(to, data)
    }
}

/// A view of the subtree of a store below a prefix.
pub struct SubStoreView<S> {
    inner: S,
    prefix: Path,
}

impl<S> SubStoreView<S> {
    /// The viewed store.
    pub closed spec fn wrapped(self) -> S {
        self.inner
    }

    /// The prefix that every path is joined under.
    pub closed spec fn prefix_path(self) -> Seq<Seq<char>> {
        self.prefix@
    }

    /// View `inner` below `prefix`.
    pub fn new(inner: S, prefix: Path) -> (r: SubStoreView<S>)
        ensures
            r.wrapped() == inner,
            r.prefix_path() == prefix@,
    {
        SubStoreView { inner, prefix }
    }
}

impl<S: Reader> Reader for SubStoreView<S> {
    /// A read answers what the viewed store answers at the path below the
    /// prefix.
    open spec fn read_answers(&self, from: Seq<Seq<char>>, r: Result<Option<Record>, Error>) -> bool {
        S::read_answers(&self.wrapped(), self.prefix_path() + from, r)
    }

    fn read(&mut self, from: &Path) -> (r: Result<Option<Record>, Error>)
        ensures
            final(self).prefix_path() == old(self).prefix_path(),
    {
        let full = self.prefix.join(from);
        let ghost start = *self;
        let r = self.inner.read(&full);
        assert(<SubStoreView<S> as Reader>::read_answers(&start, from@, r));
        r
    }
}

impl<S: Writer> Writer for SubStoreView<S> {
    /// A write answers what the viewed store answers at the path below the
    /// prefix.
    open spec fn write_answers(&self, to: Seq<Seq<char>>, data: Record, r: Result<Path, Error>) -> bool {
        S::write_answers(&self.wrapped(), self.prefix_path() + to, data, r)
    }

    fn write(&mut self, to: &Path, data: Record) -> (r: Result<Path, Error>)
        ensures
            final(self).prefix_path() == old(self).prefix_path(),
    {
        let full = self.prefix.join(to);
        self.inner.write(&full, data)
    }
}

} // verus!
