//! Composable store wrappers: read-only views, layering, path confinement
//! and redaction.
//!
//! Each wrapper hands requests to the stores it wraps; what it does with
//! their answers is a function of those answers alone, stated exactly.

use vstd::prelude::*;

use crate::error::Error;
use crate::path::{path_has_prefix, path_string, Path};
use crate::path_pattern::PathPattern;
use crate::record::Record;
use crate::text::{push_str, to_owned_string};
use crate::memory_store::{store_read, MemoryStore};
use crate::traits::{children_from, Reader, Writer};
use crate::value::{names_of, Model, Value};

verus! {

/// A read-only view of a store: reads pass through, writes are refused.
pub struct ReadOnly<S>(S);

/// The message with which a read-only view refuses a write to `to`.
pub open spec fn read_only_view_message(to: Seq<Seq<char>>) -> Seq<char> {
    "store is read-only (write to "@ + path_string(to) + ")"@
}

impl<S> ReadOnly<S> {
    /// The wrapped store.
    pub closed spec fn wrapped(self) -> S {
        self.0
    }

    /// Wrap a store in a read-only view.
    pub fn new(inner: S) -> (r: ReadOnly<S>)
        ensures
            r.wrapped() == inner,
    {
        ReadOnly(inner)
    }

    /// Unwrap, returning the inner store.
    pub fn into_inner(self) -> (r: S)
        ensures
            r == self.wrapped(),
    {
        self.0
    }

    /// The wrapped store, to operate on.
    pub fn inner_mut(&mut self) -> (r: &mut S)
        ensures
            *r == old(self).wrapped(),
            final(self).wrapped() == *final(r),
    {
        &mut self.0
    }
}

/// The error with which a read-only view refuses a write to `to`.
pub fn read_only_refusal(to: &Path) -> (r: Error)
    ensures
        r matches Error::PermissionDenied { message } && message@ == read_only_view_message(to@),
{
    let mut message = to_owned_string("store is read-only (write to ");
    let p = to.to_string();
    push_str(&mut message, p.as_str());
    push_str(&mut message, ")");
    Error::permission_denied(message.as_str())
}

impl<S: Reader> Reader for ReadOnly<S> {
    /// A read answers what the wrapped store answers.
    open spec fn read_answers(&self, from: Seq<Seq<char>>, r: Result<Option<Record>, Error>) -> bool {
        S::read_answers(&self.wrapped(), from, r)
    }

    /// A listing follows reads where the wrapped store's does.
    open spec fn lists_as_read(&self) -> bool {
        S::lists_as_read(&self.wrapped())
    }

    fn read(&mut self, from: &Path) -> Result<Option<Record>, Error> {
        self.0.read(from)
    }

    fn read_children(&mut self, from: &Path) -> Result<Option<Vec<String>>, Error> {
        let ghost start = *self;
        let r = self.0.read_children(from);
        proof {
            if S::lists_as_read(&start.wrapped()) {
                let g = choose|g: Result<Option<Record>, Error>|
                    S::read_answers(&start.wrapped(), from@, g) && #[trigger] crate::traits::children_from(g, r);
                assert(<ReadOnly<S> as Reader>::read_answers(&start, from@, g));
            }
        }
        r
    }
}

impl<S: Reader> Writer for ReadOnly<S> {
    /// Every write is refused as a write to a read-only view.
    open spec fn write_answers(&self, to: Seq<Seq<char>>, data: Record, r: Result<Path, Error>) -> bool {
        r matches Err(Error::PermissionDenied { message }) && message@ == read_only_view_message(to)
    }

    fn write(&mut self, to: &Path, data: Record) -> (r: Result<Path, Error>)
        ensures
            *final(self) == *old(self),
            r matches Err(Error::PermissionDenied { message }) && message@ == read_only_view_message(to@),
    {
        Err(read_only_refusal(to))
    }
}

/// A layered store: reads try the primary first and fall back to the
/// secondary; writes go to the primary.
pub struct Cascade<A, B> {
    primary: A,
    fallback: B,
}

/// What a layered read makes of the primary's answer: the answer itself
/// when it found something or failed, `None` (ask the fallback) when it
/// found nothing.
pub fn primary_answer<T>(got: Result<Option<T>, Error>) -> (r: Option<Result<Option<T>, Error>>)
    ensures
        got matches Ok(None) ==> r is None,
        !(got matches Ok(None)) ==> r == Some(got),
{
    match got {
        Ok(None) => None,
        other => Some(other),
    }
}

impl<A, B> Cascade<A, B> {
    /// The primary layer.
    pub closed spec fn primary_layer(self) -> A {
        self.primary
    }

    /// The fallback layer.
    pub closed spec fn fallback_layer(self) -> B {
        self.fallback
    }

    /// Layer `primary` over `fallback`.
    pub fn new(primary: A, fallback: B) -> (r: Cascade<A, B>)
        ensures
            r.primary_layer() == primary,
            r.fallback_layer() == fallback,
    {
        Cascade { primary, fallback }
    }

    /// Unwrap, returning `(primary, fallback)`.
    pub fn into_inner(self) -> (r: (A, B))
        ensures
            r == (self.primary_layer(), self.fallback_layer()),
    {
        (self.primary, self.fallback)
    }

    /// The primary layer, to operate on.
    pub fn primary_mut(&mut self) -> (r: &mut A)
        ensures
            *r == old(self).primary_layer(),
            final(self).primary_layer() == *final(r),
            final(self).fallback_layer() == old(self).fallback_layer(),
    {
        &mut self.primary
    }

    /// The fallback layer, to operate on.
    pub fn fallback_mut(&mut self) -> (r: &mut B)
        ensures
            *r == old(self).fallback_layer(),
            final(self).fallback_layer() == *final(r),
            final(self).primary_layer() == old(self).primary_layer(),
    {
        &mut self.fallback
    }
}

impl<A: Reader, B: Reader> Reader for Cascade<A, B> {
    /// A read answers what the primary answers, unless the primary finds
    /// nothing; then it answers what the fallback answers.
    open spec fn read_answers(&self, from: Seq<Seq<char>>, r: Result<Option<Record>, Error>) -> bool {
        exists|g: Result<Option<Record>, Error>|
            #[trigger] A::read_answers(&self.primary_layer(), from, g) && if g matches Ok(None) {
                B::read_answers(&self.fallback_layer(), from, r)
            } else {
                r == g
            }
    }

    fn read(&mut self, from: &Path) -> Result<Option<Record>, Error> {
        let ghost before = *self;
        let got = self.primary.read(from);
        let ghost g = got;
        match primary_answer(got) {
            Some(answer) => {
                assert(A::read_answers(&before.primary_layer(), from@, g));
                answer
            },
            None => {
                let r = self.fallback.read(from);
                assert(A::read_answers(&before.primary_layer(), from@, g));
                r
            },
        }
    }

    /// A listing follows reads where both layers' listings do.
    open spec fn lists_as_read(&self) -> bool {
        A::lists_as_read(&self.primary_layer()) && B::lists_as_read(&self.fallback_layer())
    }

    fn read_children(&mut self, from: &Path) -> Result<Option<Vec<String>>, Error> {
        let ghost start = *self;
        let got = self.primary.read_children(from);
        let ghost ga = got;
        match primary_answer(got) {
            Some(answer) => {
                proof {
                    if <Cascade<A, B> as Reader>::lists_as_read(&start) {
                        let h = choose|h: Result<Option<Record>, Error>|
                            A::read_answers(&start.primary_layer(), from@, h) && #[trigger] crate::traits::children_from(h, ga);
                        assert(!(h matches Ok(None)));
                        assert(<Cascade<A, B> as Reader>::read_answers(&start, from@, h));
                    }
                }
                answer
            },
            None => {
                let r = self.fallback.read_children(from);
                proof {
                    if <Cascade<A, B> as Reader>::lists_as_read(&start) {
                        let h = choose|h: Result<Option<Record>, Error>|
                            A::read_answers(&start.primary_layer(), from@, h) && #[trigger] crate::traits::children_from(h, ga);
                        assert(h matches Ok(None));
                        let h2 = choose|h2: Result<Option<Record>, Error>|
                            B::read_answers(&start.fallback_layer(), from@, h2) && #[trigger] crate::traits::children_from(h2, r);
                        assert(<Cascade<A, B> as Reader>::read_answers(&start, from@, h2));
                    }
                }
                r
            },
        }
    }
}

impl<A: Writer, B> Writer for Cascade<A, B> {
    /// A write answers what the primary answers; the fallback is left
    /// alone.
    open spec fn write_answers(&self, to: Seq<Seq<char>>, data: Record, r: Result<Path, Error>) -> bool {
        A::write_answers(&self.primary_layer(), to, data, r)
    }

    fn write(&mut self, to: &Path, data: Record) -> (r: Result<Path, Error>)
        ensures
            final(self).fallback_layer() == old(self).fallback_layer(),
    {
        self.primary.write(to, data)
    }
}

/// A store that redacts the paths matching any of its patterns on read:
/// such a path that exists reads as the mask value, a missing one reads
/// as missing. Writes and child listings pass through.
pub struct Masked<S> {
    inner: S,
    patterns: Vec<PathPattern>,
    mask: Value,
}

/// Whether some pattern of `patterns` matches `p`.
pub open spec fn any_matches(patterns: Seq<PathPattern>, p: Seq<Seq<char>>) -> bool {
    exists|i: int| 0 <= i < patterns.len() && (#[trigger] patterns[i]).matches_spec(p)
}

/// What a masked read makes of the inner store's answer: an existing
/// record becomes the mask; absence and failure pass through.
pub fn masked_answer(got: Result<Option<Record>, Error>, mask: &Value) -> (r: Result<Option<Record>, Error>)
    ensures
        match got {
            Ok(Some(_)) => r matches Ok(Some(Record::Parsed(v))) && v.model() == mask.model(),
            Ok(None) => r matches Ok(None),
            Err(e) => r == Err::<Option<Record>, Error>(e),
        },
{
    match got {
        Ok(Some(_)) => Ok(Some(Record::Parsed(mask.deep_clone()))),
        Ok(None) => Ok(None),
        Err(e) => Err(e),
    }
}

impl<S> Masked<S> {
    /// The wrapped store.
    pub closed spec fn wrapped(self) -> S {
        self.inner
    }

    /// The patterns of the masked paths.
    pub closed spec fn pattern_list(self) -> Seq<PathPattern> {
        self.patterns@
    }

    /// What masked paths read as.
    pub closed spec fn mask_model(self) -> Model {
        self.mask.model()
    }

    /// Mask the paths matching `patterns` with the string `[masked]`.
    pub fn new(inner: S, patterns: Vec<PathPattern>) -> (r: Masked<S>)
        ensures
            r.wrapped() == inner,
            r.pattern_list() == patterns@,
            r.mask_model() == Model::Str("[masked]"@),
    {
        Masked::with_mask(inner, patterns, Value::String(to_owned_string("[masked]")))
    }

    /// Mask with a value of the caller's choice.
    pub fn with_mask(inner: S, patterns: Vec<PathPattern>, mask: Value) -> (r: Masked<S>)
        ensures
            r.wrapped() == inner,
            r.pattern_list() == patterns@,
            r.mask_model() == mask.model(),
    {
        Masked { inner, patterns, mask }
    }

    /// Unwrap, returning the inner store.
    pub fn into_inner(self) -> (r: S)
        ensures
            r == self.wrapped(),
    {
        self.inner
    }

    /// The wrapped store, to operate on.
    pub fn inner_mut(&mut self) -> (r: &mut S)
        ensures
            *r == old(self).wrapped(),
            final(self).wrapped() == *final(r),
            final(self).pattern_list() == old(self).pattern_list(),
            final(self).mask_model() == old(self).mask_model(),
    {
        &mut self.inner
    }

    /// What masked paths read as.
    pub fn mask(&self) -> (r: &Value)
        ensures
            r.model() == self.mask_model(),
    {
        &self.mask
    }

    /// Whether `path` is masked.
    pub fn is_masked(&self, path: &Path) -> (r: bool)
        ensures
            r == any_matches(self.pattern_list(), path@),
    {
        let mut i: usize = 0;
        while i < self.patterns.len()
            invariant
                i <= self.patterns@.len(),
                forall|k: int| 0 <= k < i ==> !(#[trigger] self.patterns@[k]).matches_spec(path@),
            decreases self.patterns@.len() - i,
        {
            if self.patterns[i].matches(path) {
                return true;
            }
            i = i + 1;
        }
        false
    }
}

/// Whether `r` is what a masked read makes of the inner answer `g` with
/// the mask `mask` (`masked_answer`).
pub open spec fn masked_from(g: Result<Option<Record>, Error>, mask: Model, r: Result<Option<Record>, Error>) -> bool {
    match g {
        Ok(Some(_)) => r matches Ok(Some(Record::Parsed(v))) && v.model() == mask,
        Ok(None) => r matches Ok(None),
        Err(e) => r == Err::<Option<Record>, Error>(e),
    }
}

impl<S: Reader> Reader for Masked<S> {
    /// A read of a masked path answers the mask where the wrapped store
    /// finds something, and otherwise what it answers; a read of any other
    /// path answers what the wrapped store answers.
    open spec fn read_answers(&self, from: Seq<Seq<char>>, r: Result<Option<Record>, Error>) -> bool {
        if any_matches(self.pattern_list(), from) {
            exists|g: Result<Option<Record>, Error>|
                S::read_answers(&self.wrapped(), from, g) && #[trigger] masked_from(g, self.mask_model(), r)
        } else {
            S::read_answers(&self.wrapped(), from, r)
        }
    }

    fn read(&mut self, from: &Path) -> (r: Result<Option<Record>, Error>)
        ensures
            final(self).pattern_list() == old(self).pattern_list(),
            final(self).mask_model() == old(self).mask_model(),
            any_matches(old(self).pattern_list(), from@) ==> (r matches Ok(Some(rec)) ==> (rec matches Record::Parsed(v)
                && v.model() == old(self).mask_model())),
    {
        if self.is_masked(from) {
            let got = self.inner.read(from);
            let r = masked_answer(got, &self.mask);
            assert(masked_from(got, self.mask_model(), r));
            return r;
        }
        self.inner.read(from)
    }

    /// A listing passes through to the wrapped store, masked paths
    /// included, so it does not follow this store's masked reads.
    open spec fn lists_as_read(&self) -> bool {
        false
    }

    fn read_children(&mut self, from: &Path) -> (r: Result<Option<Vec<String>>, Error>)
        ensures
            final(self).pattern_list() == old(self).pattern_list(),
            final(self).mask_model() == old(self).mask_model(),
            S::lists_as_read(&old(self).wrapped()) ==> exists|g: Result<Option<Record>, Error>|
                S::read_answers(&old(self).wrapped(), from@, g) && #[trigger] children_from(g, r),
    {
        self.inner.read_children(from)
    }
}

impl<S: Writer> Writer for Masked<S> {
    /// A write answers what the wrapped store answers.
    open spec fn write_answers(&self, to: Seq<Seq<char>>, data: Record, r: Result<Path, Error>) -> bool {
        S::write_answers(&self.wrapped(), to, data, r)
    }

    fn write(&mut self, to: &Path, data: Record) -> (r: Result<Path, Error>)
        ensures
            final(self).pattern_list() == old(self).pattern_list(),
            final(self).mask_model() == old(self).mask_model(),
    {
        self.inner.write(to, data)
    }
}

/// A store confined to the subtree below `root` of another store: paths
/// are joined under the root on the way in, and result paths have it
/// stripped on the way out.
pub struct Rooted<S> {
    root: Path,
    inner: S,
}

/// The message for an inner write result `p` outside the root.
pub open spec fn escape_message(p: Seq<Seq<char>>) -> Seq<char> {
    "inner store returned path outside root: "@ + path_string(p)
}

/// What a confined write makes of the inner store's result path: the path
/// with the root stripped, or an error when it is not under the root.
pub fn rooted_result(root: &Path, inner: Result<Path, Error>) -> (r: Result<Path, Error>)
    ensures
        match inner {
            Ok(p) => if path_has_prefix(p@, root@) {
                r matches Ok(q) && q@ == p@.subrange(root@.len() as int, p@.len() as int)
            } else {
                r matches Err(e) && e.is_store("rooted"@, "write"@, escape_message(p@))
            },
            Err(e) => r == Err::<Path, Error>(e),
        },
{
    match inner {
        Ok(p) => match p.strip_prefix(root) {
            Some(q) => Ok(q),
            None => {
                let mut message = to_owned_string("inner store returned path outside root: ");
                let t = p.to_string();
                push_str(&mut message, t.as_str());
                Err(Error::store("rooted", "write", message.as_str()))
            },
        },
        Err(e) => Err(e),
    }
}

impl<S> Rooted<S> {
    /// The root of the confined subtree.
    pub closed spec fn root_path(self) -> Seq<Seq<char>> {
        self.root@
    }

    /// The wrapped store.
    pub closed spec fn wrapped(self) -> S {
        self.inner
    }

    /// Confine `inner` to the subtree at `root`.
    pub fn new(root: Path, inner: S) -> (r: Rooted<S>)
        ensures
            r.root_path() == root@,
            r.wrapped() == inner,
    {
        Rooted { root, inner }
    }

    /// Unwrap, returning the inner store.
    pub fn into_inner(self) -> (r: S)
        ensures
            r == self.wrapped(),
    {
        self.inner
    }

    /// The wrapped store, to operate on.
    pub fn inner_mut(&mut self) -> (r: &mut S)
        ensures
            *r == old(self).wrapped(),
            final(self).wrapped() == *final(r),
            final(self).root_path() == old(self).root_path(),
    {
        &mut self.inner
    }

    /// The root of the confined subtree.
    pub fn root(&self) -> (r: &Path)
        ensures
            r@ == self.root_path(),
    {
        &self.root
    }
}

impl<S: Reader> Reader for Rooted<S> {
    /// A read answers what the wrapped store answers at the path below the
    /// root.
    open spec fn read_answers(&self, from: Seq<Seq<char>>, r: Result<Option<Record>, Error>) -> bool {
        S::read_answers(&self.wrapped(), self.root_path() + from, r)
    }

    fn read(&mut self, from: &Path) -> (r: Result<Option<Record>, Error>)
        ensures
            final(self).root_path() == old(self).root_path(),
    {
        let full = self.root.join(from);
        self.inner.read(&full)
    }

    /// A listing follows reads where the wrapped store's does.
    open spec fn lists_as_read(&self) -> bool {
        S::lists_as_read(&self.wrapped())
    }

    fn read_children(&mut self, from: &Path) -> (r: Result<Option<Vec<String>>, Error>)
        ensures
            final(self).root_path() == old(self).root_path(),
    {
        let ghost start = *self;
        let full = self.root.join(from);
        let r = self.inner.read_children(&full);
        proof {
            if S::lists_as_read(&start.wrapped()) {
                let g = choose|g: Result<Option<Record>, Error>|
                    S::read_answers(&start.wrapped(), full@, g) && #[trigger] crate::traits::children_from(g, r);
                assert(<Rooted<S> as Reader>::read_answers(&start, from@, g));
            }
        }
        r
    }
}

/// Whether `r` is what a confined write makes of the inner answer `g`
/// with the root `root` (`rooted_result`).
pub open spec fn rooted_from(root: Seq<Seq<char>>, g: Result<Path, Error>, r: Result<Path, Error>) -> bool {
    match g {
        Ok(p) => if path_has_prefix(p@, root) {
            r matches Ok(q) && q@ == p@.subrange(root.len() as int, p@.len() as int)
        } else {
            r matches Err(e) && e.is_store("rooted"@, "write"@, escape_message(p@))
        },
        Err(e) => r == Err::<Path, Error>(e),
    }
}

impl<S: Writer> Writer for Rooted<S> {
    /// A write answers what the wrapped store answers at the path below
    /// the root, with the root stripped from the path it gives.
    open spec fn write_answers(&self, to: Seq<Seq<char>>, data: Record, r: Result<Path, Error>) -> bool {
        exists|g: Result<Path, Error>|
            S::write_answers(&self.wrapped(), self.root_path() + to, data, g) && #[trigger] rooted_from(
                self.root_path(),
                g,
                r,
            )
    }

    fn write(&mut self, to: &Path, data: Record) -> (r: Result<Path, Error>)
        ensures
            final(self).root_path() == old(self).root_path(),
    {
        let ghost start = *self;
        let ghost d = data;
        let full = self.root.join(to);
        let inner = self.inner.write(&full, data);
        let r = rooted_result(&self.root, inner);
        assert(S::write_answers(&start.wrapped(), start.root_path() + to@, d, inner) && rooted_from(start.root_path(), inner, r));
        assert(<Rooted<S> as Writer>::write_answers(&start, to@, d, r));
        r
    }
}

/// Listing the children of a memory store layered over another lists the
/// primary's children where the primary holds a value, and otherwise the
/// fallback's, or nothing where neither holds one: the primary is asked
/// first, and the fallback only when the primary finds nothing.
pub proof fn lemma_cascade_lists_primary_first(
    c: Cascade<MemoryStore, MemoryStore>,
    from: Seq<Seq<char>>,
    r: Result<Option<Vec<String>>, Error>,
)
    requires
        <Cascade<MemoryStore, MemoryStore> as Reader>::lists_as_read(&c) ==> exists|g: Result<Option<Record>, Error>|
            <Cascade<MemoryStore, MemoryStore> as Reader>::read_answers(&c, from, g) && #[trigger] children_from(g, r),
    ensures
        match store_read(c.primary_layer().root_model(), from) {
            Some(m) => r matches Ok(Some(names)) && names_of(m, names@),
            None => match store_read(c.fallback_layer().root_model(), from) {
                Some(m) => r matches Ok(Some(names)) && names_of(m, names@),
                None => r matches Ok(None),
            },
        },
{
    let g = choose|g: Result<Option<Record>, Error>|
        <Cascade<MemoryStore, MemoryStore> as Reader>::read_answers(&c, from, g) && #[trigger] children_from(g, r);
    let g1 = choose|g1: Result<Option<Record>, Error>|
        #[trigger] <MemoryStore as Reader>::read_answers(&c.primary_layer(), from, g1) && if g1 matches Ok(None) {
            <MemoryStore as Reader>::read_answers(&c.fallback_layer(), from, g)
        } else {
            g == g1
        };
}

} // verus!
