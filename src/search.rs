//! The search: roots in the order of the odometer, and for each root all of its
//! children in parallel, until one child's address begins with a prefix.

use crate::derive::{depth_fits, derive_address, derived_address, SERIALIZED_KEY_LEN};
use crate::path_counter::{nth_root, IncrementablePath, MAX_INDEX};
use crate::prefix::{matches_any, matches_any_prefix};
use rayon::iter::{IntoParallelIterator, ParallelIterator};
use vstd::prelude::*;

verus! {

/// What checking one path gives.
pub enum Candidate {
    /// The key at the path could not be derived, or its address not rendered.
    Failed,
    /// The address at the path, and whether it begins with one of the prefixes.
    Derived { address: String, matched: bool },
}

/// Why a search ended without an address.
#[derive(Debug, PartialEq, Eq)]
pub enum SearchError {
    /// Deriving the key at `path`, or rendering its address, failed; the search
    /// stops there rather than skip the path.
    Derivation { path: Vec<u32> },
    /// Every root allowed was searched, or the next root lies deeper than a
    /// key's depth byte can count, and no child matched.
    Exhausted,
}

/// Checking the child `i` of `root` ends the search: its derivation fails, or
/// its address begins with one of `prefixes`.
pub open spec fn candidate_stops(key: Seq<u8>, root: Seq<u32>, prefixes: Seq<&str>, i: u32) -> bool {
    match derived_address(key, root.push(i)) {
        None => true,
        Some(a) => matches_any(a, prefixes),
    }
}

/// No child of any of the first `n` roots ends the search.
pub open spec fn roots_exhausted(key: Seq<u8>, prefixes: Seq<&str>, n: nat) -> bool {
    forall|m: nat, i: u32|
        m < n && i <= MAX_INDEX ==> !#[trigger] candidate_stops(key, nth_root(m), prefixes, i)
}

/// `path` is a child of root number `n`, and no earlier root had a child that
/// ends the search.
pub open spec fn is_first_stop(key: Seq<u8>, prefixes: Seq<&str>, path: Seq<u32>, n: nat) -> bool {
    &&& path.len() > 0
    &&& path.drop_last() == nth_root(n)
    &&& path.last() <= MAX_INDEX
    &&& roots_exhausted(key, prefixes, n)
}

/// Derives the address at `path` below `key` and tests it against `prefixes`.
pub fn check_path(key: &[u8], prefixes: &[&str], path: &[u32]) -> (r: Candidate)
    requires
        depth_fits(key@, path@.len()),
    ensures
        match r {
            Candidate::Failed => derived_address(key@, path@) is None,
            Candidate::Derived { address, matched } => derived_address(key@, path@) == Some(
                address@,
            ) && matched == matches_any(address@, prefixes@),
        },
{
    match derive_address(key, path) {
        None => Candidate::Failed,
        Some(address) => {
            let matched = matches_any_prefix(address.as_str(), prefixes);
            Candidate::Derived { address, matched }
        },
    }
}

/// Whether the child `i` of `root` ends the search.
pub fn child_stops(key: &[u8], root: &Vec<u32>, prefixes: &[&str], i: u32) -> (r: bool)
    requires
        depth_fits(key@, root@.len() + 1),
    ensures
        r == candidate_stops(key@, root@, prefixes@, i),
{
    let mut path = root.clone();
    path.push(i);
    match check_path(key, prefixes, path.as_slice()) {
        Candidate::Failed => true,
        Candidate::Derived { matched, .. } => matched,
    }
}

/// Relies on rayon's `ParallelIterator::find_any` over `0..=MAX_INDEX`: it gives
/// some index on which the predicate holds, or `None` once the predicate has
/// failed on every index. Once an index is found, no new index is started.
#[verifier::external_body]
fn find_stopping_child(key: &[u8], root: &Vec<u32>, prefixes: &[&str]) -> (r: Option<u32>)
    requires
        depth_fits(key@, root@.len() + 1),
    ensures
        match r {
            Some(i) => i <= MAX_INDEX && candidate_stops(key@, root@, prefixes@, i),
            None => forall|i: u32| i <= MAX_INDEX ==> !candidate_stops(key@, root@, prefixes@, i),
        },
{
    (0..=MAX_INDEX).into_par_iter().find_any(|i| child_stops(key, root, prefixes, *i))
}

/// Whether the children of a root of length `len` can be derived below `key`.
fn children_fit(key: &[u8], len: usize) -> (r: bool)
    ensures
        r == depth_fits(key@, len as nat + 1),
{
    key.len() != SERIALIZED_KEY_LEN || (len < 255 && (key[4] as usize) + len < 255)
}

/// Searches the roots in order, at most `max_roots` of them, each through all of
/// its children, for an address that begins with one of `prefixes`.
///
/// Children of one root are checked in parallel, and any one that matches may
/// be returned: the result is a child of the first root that has one, not
/// necessarily its lowest. A failed derivation ends the search with its path.
pub fn search_address(key: &[u8], prefixes: &[&str], max_roots: u64) -> (r: Result<
    (Vec<u32>, String),
    SearchError,
>)
    ensures
        r matches Ok(found) ==> derived_address(key@, found.0@) == Some(found.1@) && matches_any(
            found.1@,
            prefixes@,
        ),
        r matches Ok(found) ==> exists|n: nat|
            n < max_roots && #[trigger] is_first_stop(key@, prefixes@, found.0@, n),
        r matches Err(SearchError::Derivation { path }) ==> derived_address(key@, path@) is None,
        r matches Err(SearchError::Derivation { path }) ==> exists|n: nat|
            n < max_roots && #[trigger] is_first_stop(key@, prefixes@, path@, n),
        r matches Err(SearchError::Exhausted) ==> exists|n: nat|
            n <= max_roots && #[trigger] roots_exhausted(key@, prefixes@, n) && (n == max_roots
                || !depth_fits(key@, nth_root(n).len() + 1)),
{
    let mut root = IncrementablePath::new();
    let mut n: u64 = 0;
    while n < max_roots
        invariant
            n <= max_roots,
            root@ == nth_root(n as nat),
            root.wf(),
            roots_exhausted(key@, prefixes@, n as nat),
        decreases max_roots - n,
    {
        let current = root.path();
        if !children_fit(key, current.len()) {
            return Err(SearchError::Exhausted);
        }
        match find_stopping_child(key, &current, prefixes) {
            Some(i) => {
                let mut path = current;
                path.push(i);
                proof {
                    assert(path@.drop_last() =~= nth_root(n as nat));
                    assert(is_first_stop(key@, prefixes@, path@, n as nat));
                }
                let checked = check_path(key, prefixes, path.as_slice());
                if let Candidate::Derived { address, matched } = checked {
                    if matched {
                        return Ok((path, address));
                    }
                }
                return Err(SearchError::Derivation { path });
            },
            None => {
                proof {
                    assert forall|m: nat, i: u32| m < n + 1 && i <= MAX_INDEX implies !#[trigger] candidate_stops(
                        key@,
                        nth_root(m),
                        prefixes@,
                        i,
                    ) by {
                        if m == n as nat {
                            assert(nth_root(m) == current@);
                        }
                    }
                }
                root.increment();
                n += 1;
            },
        }
    }
    Err(SearchError::Exhausted)
}

/// The root at which a search stops is determined: two children that each end
/// the search, each below a root that all earlier roots' children did not, sit
/// below the same root.
pub proof fn lemma_stopping_root_unique(
    key: Seq<u8>,
    prefixes: Seq<&str>,
    n1: nat,
    i1: u32,
    n2: nat,
    i2: u32,
)
    requires
        i1 <= MAX_INDEX,
        i2 <= MAX_INDEX,
        roots_exhausted(key, prefixes, n1),
        roots_exhausted(key, prefixes, n2),
        candidate_stops(key, nth_root(n1), prefixes, i1),
        candidate_stops(key, nth_root(n2), prefixes, i2),
    ensures
        n1 == n2,
{
    if n1 < n2 {
        assert(!candidate_stops(key, nth_root(n1), prefixes, i1));
    } else if n2 < n1 {
        assert(!candidate_stops(key, nth_root(n2), prefixes, i2));
    }
}

} // verus!
