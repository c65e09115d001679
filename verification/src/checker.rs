//! The debug-time consistency check around a sandboxed permission change.
//!
//! The check captures a metadata snapshot before and after the mutation and
//! classifies the triple; it exists to surface containment or race defects
//! during development. It is purely diagnostic: it never alters the value
//! the mutation itself returns, and an abort verdict is for a test harness
//! to act on, never for production callers.

use vstd::prelude::*;
use crate::Permissions;
use crate::model::{
    fs_wf, spec_resolve_path, spec_set_permissions, spec_set_symlink_permissions, spec_stat,
    FsModel, SNode,
};
use crate::types::{Error, FollowSymlinks, Metadata};
use crate::path::parse_result;

verus! {

/// The verdict of a consistency check.
#[derive(Clone, Copy, Debug, PartialEq, Eq, Structural)]
pub enum CheckOutcome {
    /// The snapshots are consistent with the reported result.
    Consistent,
    /// The snapshots contradict the reported result: the target changed
    /// identity or permissions between the snapshots in a way the
    /// operation cannot explain.
    Abort,
}

/// The classification table: a successful change must show the requested
/// bits afterwards; a failed change must show unchanged bits; a target
/// absent throughout is tolerated; every other pattern means the target
/// changed identity between the snapshots.
pub open spec fn spec_check(
    requested_mode: u32,
    before: Result<Metadata, Error>,
    result: Result<(), Error>,
    after: Result<Metadata, Error>,
) -> CheckOutcome {
    match (before, result, after) {
        (Ok(_), Ok(_), Ok(ma)) => if ma.mode == requested_mode {
            CheckOutcome::Consistent
        } else {
            CheckOutcome::Abort
        },
        (Ok(mb), Err(_), Ok(ma)) => if mb.mode == ma.mode {
            CheckOutcome::Consistent
        } else {
            CheckOutcome::Abort
        },
        (Err(_), Err(_), Err(_)) => CheckOutcome::Consistent,
        _ => CheckOutcome::Abort,
    }
}

/// Classify the snapshots taken around a permission change against the
/// requested permissions.
pub fn check_set_permissions(
    perm: Permissions,
    before: &Result<Metadata, Error>,
    result: &Result<(), Error>,
    after: &Result<Metadata, Error>,
) -> (r: CheckOutcome)
    ensures
        r == spec_check(perm.mode, *before, *result, *after),
{
    match (before, result, after) {
        (Ok(_), Ok(_), Ok(ma)) => if ma.mode == perm.mode {
            CheckOutcome::Consistent
        } else {
            CheckOutcome::Abort
        },
        (Ok(mb), Err(_), Ok(ma)) => if mb.mode == ma.mode {
            CheckOutcome::Consistent
        } else {
            CheckOutcome::Abort
        },
        (Err(_), Err(_), Err(_)) => CheckOutcome::Consistent,
        _ => CheckOutcome::Abort,
    }
}

impl FsModel {
    /// `set_permissions` wrapped in the consistency check: snapshot,
    /// mutate, snapshot, classify. The mutation's result and effect are
    /// exactly those of the unwrapped operation — the check alters
    /// nothing — and with no interference between the snapshots the
    /// verdict is reported from the classification table.
    pub fn set_permissions_checked(&mut self, root: usize, path: &[u8], perm: Permissions)
        -> (r: (Result<(), Error>, CheckOutcome))
        requires
            fs_wf(old(self)@),
            root < old(self)@.len(),
            old(self)@[root as int] is Dir,
        ensures
            r.0 == spec_set_permissions(old(self)@, root as int, path@, perm.mode).0,
            final(self)@ == spec_set_permissions(old(self)@, root as int, path@, perm.mode).1,
            r.1 == spec_check(
                perm.mode,
                spec_stat(old(self)@, root as int, path@, FollowSymlinks::Yes),
                r.0,
                spec_stat(final(self)@, root as int, path@, FollowSymlinks::Yes),
            ),
    {
        let before = self.stat(root, path, FollowSymlinks::Yes);
        let result = self.set_permissions(root, path, perm);
        proof {
            lemma_mutation_keeps_wf(old(self)@, self@, root as int, path@, perm.mode, true);
        }
        let after = self.stat(root, path, FollowSymlinks::Yes);
        let verdict = check_set_permissions(perm, &before, &result, &after);
        (result, verdict)
    }

    /// `set_symlink_permissions` wrapped in the consistency check, with
    /// no-follow snapshots, as the no-follow operation calls for.
    pub fn set_symlink_permissions_checked(&mut self, root: usize, path: &[u8], perm: Permissions)
        -> (r: (Result<(), Error>, CheckOutcome))
        requires
            fs_wf(old(self)@),
            root < old(self)@.len(),
            old(self)@[root as int] is Dir,
        ensures
            r.0 == spec_set_symlink_permissions(old(self)@, root as int, path@, perm.mode).0,
            final(self)@ == spec_set_symlink_permissions(old(self)@, root as int, path@, perm.mode).1,
            r.1 == spec_check(
                perm.mode,
                spec_stat(old(self)@, root as int, path@, FollowSymlinks::No),
                r.0,
                spec_stat(final(self)@, root as int, path@, FollowSymlinks::No),
            ),
    {
        let before = self.stat(root, path, FollowSymlinks::No);
        let result = self.set_symlink_permissions(root, path, perm);
        proof {
            lemma_mutation_keeps_wf(old(self)@, self@, root as int, path@, perm.mode, false);
        }
        let after = self.stat(root, path, FollowSymlinks::No);
        let verdict = check_set_permissions(perm, &before, &result, &after);
        (result, verdict)
    }
}

/// A permission change leaves the tree well-formed, the root in place and
/// a directory: the node table keeps its length and every node its shape.
pub proof fn lemma_mutation_keeps_wf(
    fs: Seq<SNode>,
    fs2: Seq<SNode>,
    root: int,
    path: Seq<u8>,
    mode: u32,
    follow: bool,
)
    requires
        fs_wf(fs),
        0 <= root < fs.len(),
        fs[root] is Dir,
        fs2 == if follow {
            spec_set_permissions(fs, root, path, mode).1
        } else {
            spec_set_symlink_permissions(fs, root, path, mode).1
        },
    ensures
        fs_wf(fs2),
        fs2.len() == fs.len(),
        fs2[root] is Dir,
{
    let r = if follow {
        spec_set_permissions(fs, root, path, mode).1
    } else {
        spec_set_symlink_permissions(fs, root, path, mode).1
    };
    if r == fs {
    } else {
        match spec_resolve_path(fs, root, path,
            if follow { FollowSymlinks::Yes } else { FollowSymlinks::No }) {
            Ok((p, nm, _m)) => {
                match parse_result(path) {
                    Ok(comps) => {
                        crate::model::lemma_resolve_ok(fs, root, comps,
                            if follow { FollowSymlinks::Yes } else { FollowSymlinks::No }, 0);
                    },
                    Err(_) => {},
                }
                let t = crate::model::target_node(fs, p, nm);
                assert(fs2.len() == fs.len());
                assert forall|d: int| 0 <= d < fs2.len()
                    implies crate::model::node_wf(#[trigger] fs2[d], fs2.len() as int) by {
                    if d != t {
                        assert(fs2[d] == fs[d]);
                    } else {
                        assert(crate::model::node_wf(fs[t], fs.len() as int));
                        match fs[t] {
                            SNode::Dir { .. } => {},
                            SNode::File { .. } => {},
                            SNode::Symlink { .. } => {},
                        }
                    }
                }
            },
            Err(_) => {},
        }
    }
}

} // verus!
