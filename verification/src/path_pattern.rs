//! Patterns over paths, matched component by component.
//!
//! A prefix pattern for `config/gate/accounts` matches
//! `config/gate/accounts/personal` but not `config/gate/accounts_other`,
//! which a string prefix test would.

use vstd::prelude::*;

use crate::path::{path_has_prefix, Path};

verus! {

/// A pattern over paths.
#[derive(Debug, Clone, PartialEq, Eq, Hash)]
pub enum PathPattern {
    /// Matches exactly one path.
    Exact(Path),
    /// Matches the path itself and everything under it.
    Prefix(Path),
    /// Matches the paths that start with `prefix`, end with `suffix`, and
    /// have at least `min_middle` components between the two, which do
    /// not overlap.
    PrefixSuffix { prefix: Path, suffix: Path, min_middle: usize },
}

/// Whether `p` starts with `prefix`, ends with `suffix`, and has at least
/// `min_middle` components between them.
pub open spec fn prefix_suffix_match(p: Seq<Seq<char>>, prefix: Seq<Seq<char>>, suffix: Seq<Seq<char>>, min_middle: nat) -> bool {
    &&& prefix.len() + suffix.len() + min_middle <= p.len()
    &&& path_has_prefix(p, prefix)
    &&& p.skip(p.len() - suffix.len()) == suffix
}

impl PathPattern {
    /// Whether `p` matches this pattern.
    pub open spec fn matches_spec(&self, p: Seq<Seq<char>>) -> bool {
        match self {
            PathPattern::Exact(q) => p == q@,
            PathPattern::Prefix(q) => path_has_prefix(p, q@),
            PathPattern::PrefixSuffix { prefix, suffix, min_middle } => prefix_suffix_match(
                p,
                prefix@,
                suffix@,
                *min_middle as nat,
            ),
        }
    }

    /// The pattern matching exactly `path`.
    pub fn exact(path: Path) -> (r: PathPattern)
        ensures
            r == PathPattern::Exact(path),
    {
        PathPattern::Exact(path)
    }

    /// The pattern matching `path` and everything under it.
    pub fn prefix(path: Path) -> (r: PathPattern)
        ensures
            r == PathPattern::Prefix(path),
    {
        PathPattern::Prefix(path)
    }

    /// The pattern matching paths under `prefix` that end with `suffix`.
    pub fn prefix_suffix(prefix: Path, suffix: Path) -> (r: PathPattern)
        ensures
            r == (PathPattern::PrefixSuffix { prefix, suffix, min_middle: 0 }),
    {
        PathPattern::PrefixSuffix { prefix, suffix, min_middle: 0 }
    }

    /// The same, with at least `min_middle` components between prefix and
    /// suffix.
    pub fn prefix_suffix_with_min_middle(prefix: Path, suffix: Path, min_middle: usize) -> (r: PathPattern)
        ensures
            r == (PathPattern::PrefixSuffix { prefix, suffix, min_middle }),
    {
        PathPattern::PrefixSuffix { prefix, suffix, min_middle }
    }

    /// Whether `path` matches this pattern, component by component.
    pub fn matches(&self, path: &Path) -> (r: bool)
        ensures
            r == self.matches_spec(path@),
    {
        match self {
            PathPattern::Exact(p) => p.same_as(path),
            PathPattern::Prefix(prefix) => path.has_prefix(prefix),
            PathPattern::PrefixSuffix { prefix, suffix, min_middle } => matches_prefix_suffix(path, prefix, suffix, *min_middle),
        }
    }
}

/// Whether `path` starts with `prefix`, ends with `suffix` and has at
/// least `min_middle` components between them; prefix and suffix never
/// overlap.
pub fn matches_prefix_suffix(path: &Path, prefix: &Path, suffix: &Path, min_middle: usize) -> (r: bool)
    ensures
        r == prefix_suffix_match(path@, prefix@, suffix@, min_middle as nat),
{
    if path.len() < prefix.len() {
        return false;
    }
    let rest = path.len() - prefix.len();
    if rest < suffix.len() {
        return false;
    }
    let middle = rest - suffix.len();
    if middle < min_middle || !path.has_prefix(prefix) {
        return false;
    }
    let start = path.len() - suffix.len();
    let mut i: usize = 0;
    while i < suffix.len()
        invariant
            start + suffix@.len() == path@.len(),
            path@.len() <= usize::MAX,
            i <= suffix@.len(),
            forall|k: int| 0 <= k < i ==> path@[start + k] == suffix@[k],
        decreases suffix@.len() - i,
    {
        if !crate::text::str_eq(path.component(start + i), suffix.component(i)) {
            assert(path@.skip(start as int)[i as int] != suffix@[i as int]);
            return false;
        }
        i = i + 1;
    }
    assert(path@.skip(start as int) =~= suffix@);
    true
}

} // verus!
