//! Rendering decisions.
//!
//! The sink that prints reports is outside this crate; what is decided
//! here is *whether* a changeset is rendered at all, and under which path
//! a repository is shown.

use vstd::prelude::*;

use crate::crawler::RepoPath;
use crate::git::Changeset;

verus! {

/// The path a repository is displayed under: relative to the scan root
/// when the root is a proper prefix, the last segment alone when the
/// repository is the root itself, and the full path otherwise.
pub open spec fn spec_display_path(p: Seq<Seq<u8>>, base: Seq<Seq<u8>>) -> Seq<Seq<u8>> {
    if base.is_prefix_of(p) {
        if p.len() == base.len() {
            if p.len() == 0 {
                p
            } else {
                seq![p.last()]
            }
        } else {
            p.skip(base.len() as int)
        }
    } else {
        p
    }
}

/// Computes the path a repository is displayed under, relative to the
/// scan root `base` when possible.
pub fn display_path(path: &RepoPath, base: &RepoPath) -> (r: RepoPath)
    ensures
        r@ == spec_display_path(path@, base@),
{
    let base_len = base.segments.len();
    let path_len = path.segments.len();
    if base_len > path_len {
        return path.duplicate();
    }
    for i in 0..base_len
        invariant
            base_len == base@.len(),
            path_len == path@.len(),
            base_len <= path_len,
            forall|k: int| 0 <= k < i ==> base@[k] == path@[k],
    {
        if !crate::crawler::bytes_eq(&base.segments[i], &path.segments[i]) {
            proof {
                assert(base@[i as int] != path@[i as int]);
                assert(!base@.is_prefix_of(path@)) by {
                    if base@ =~= path@.subrange(0, base@.len() as int) {
                        assert(base@[i as int] == path@.subrange(0, base@.len() as int)[i as int]);
                    }
                }
            }
            return path.duplicate();
        }
    }
    proof {
        assert(base@ =~= path@.subrange(0, base@.len() as int));
    }
    if path_len == base_len {
        if path_len == 0 {
            path.duplicate()
        } else {
            let mut segments: Vec<Vec<u8>> = Vec::new();
            segments.push(crate::crawler::clone_bytes(&path.segments[path_len - 1]));
            let r = RepoPath { segments };
            proof {
                assert(r@ =~= seq![path@.last()]);
            }
            r
        }
    } else {
        let mut segments: Vec<Vec<u8>> = Vec::new();
        for k in base_len..path_len
            invariant
                base_len == base@.len(),
                path_len == path@.len(),
                base_len <= path_len,
                segments@.len() == k - base_len,
                forall|t: int| 0 <= t < k - base_len ==> segments@[t]@ == path@[base_len + t],
        {
            segments.push(crate::crawler::clone_bytes(&path.segments[k]));
        }
        let r = RepoPath { segments };
        proof {
            assert(r@ =~= path@.skip(base@.len() as int));
        }
        r
    }
}

/// Decides whether a changeset is rendered: in quiet mode only a dirty
/// one is, otherwise every one is, clean or not.
pub fn should_render(quiet: bool, cs: &Changeset) -> (r: bool)
    ensures
        r == (!quiet || cs.changes_spec().len() != 0),
{
    !quiet || cs.has_changes()
}

} // verus!
