//! The properties the sandbox promises, stated and proved against the
//! mathematical model: containment of every resolution inside the start
//! directory's subtree, agreement with a straight-line walk on symlink-free
//! paths, idempotence of the permission-change entry point, and the
//! symlink-chain bound.

use vstd::prelude::*;
use crate::model::{
    expand_from, model_platform, spec_set_symlink_permissions, spec_stat, fs_lookup, fs_wf,
    lemma_entries_lookup_witness,
    lemma_fs_lookup_wf, lemma_resolve_ok, meta_of, resolve_from, snode_with_mode,
    spec_resolve_path, spec_set_permissions, target_node, SNode, MAX_SYMLINKS,
};
use crate::path::{dot, parse_result};
use crate::types::{Error, FollowSymlinks, Metadata};

verus! {

/// `b` is the node of one entry of the directory `a`.
pub open spec fn dir_child(fs: Seq<SNode>, a: int, b: int) -> bool {
    &&& 0 <= a < fs.len()
    &&& match fs[a] {
        SNode::Dir { entries, .. } => exists|i: int|
            0 <= i < entries.len() && (#[trigger] entries[i]).1 == b,
        _ => false,
    }
}

/// `p` is a chain of directory-entry links from `a` to `b`.
pub open spec fn is_link_path(fs: Seq<SNode>, p: Seq<int>, a: int, b: int) -> bool {
    &&& p.len() >= 1
    &&& p[0] == a
    &&& p[p.len() - 1] == b
    &&& forall|i: int| 0 <= i < p.len() - 1 ==> dir_child(fs, #[trigger] p[i], p[i + 1])
}

/// `b` lies in the subtree of `a`: it is reachable from `a` through
/// directory entries alone.
pub open spec fn reaches(fs: Seq<SNode>, a: int, b: int) -> bool {
    exists|p: Seq<int>| is_link_path(fs, p, a, b)
}

/// Every node is in its own subtree.
pub proof fn lemma_reaches_refl(fs: Seq<SNode>, a: int)
    ensures
        reaches(fs, a, a),
{
    assert(is_link_path(fs, seq![a], a, a));
}

/// A subtree contains the children of each directory in it.
pub proof fn lemma_reaches_step(fs: Seq<SNode>, a: int, b: int, c: int)
    requires
        reaches(fs, a, b),
        dir_child(fs, b, c),
    ensures
        reaches(fs, a, c),
{
    let p = choose|p: Seq<int>| is_link_path(fs, p, a, b);
    let q = p.push(c);
    assert forall|i: int| 0 <= i < q.len() - 1 implies dir_child(fs, #[trigger] q[i], q[i + 1]) by {
        if i < p.len() - 1 {
            assert(q[i] == p[i] && q[i + 1] == p[i + 1]);
        } else {
            assert(q[i] == b && q[i + 1] == c);
        }
    }
    assert(is_link_path(fs, q, a, c));
}

/// A successful lookup makes the found node a child of the directory.
pub proof fn lemma_lookup_child(fs: Seq<SNode>, d: int, name: Seq<u8>)
    requires
        0 <= d < fs.len(),
        fs_lookup(fs, d, name) is Some,
    ensures
        dir_child(fs, d, fs_lookup(fs, d, name)->Some_0),
{
    match fs[d] {
        SNode::Dir { entries, .. } => {
            lemma_entries_lookup_witness(entries, name);
        },
        _ => {},
    }
}

/// Containment, along the walk: starting from a directory inside the root's
/// subtree, a successful resolution ends at a parent directory and a target
/// node that are both still inside the root's subtree.
pub proof fn lemma_resolve_contained(
    fs: Seq<SNode>,
    root: int,
    cur: int,
    comps: Seq<Seq<u8>>,
    follow: FollowSymlinks,
    count: nat,
)
    requires
        fs_wf(fs),
        0 <= cur < fs.len(),
        fs[cur] is Dir,
        count <= MAX_SYMLINKS,
        reaches(fs, root, cur),
    ensures
        resolve_from(fs, cur, comps, follow, count) matches Ok((p, nm, _m))
            ==> reaches(fs, root, p) && reaches(fs, root, target_node(fs, p, nm)),
    decreases MAX_SYMLINKS - count, comps.len(),
{
    let r = resolve_from(fs, cur, comps, follow, count);
    if comps.len() == 0 {
    } else {
        let name = comps[0];
        if comps.len() == 1 {
            if name == dot() {
                assert(r == Ok::<(int, Seq<u8>, Metadata), Error>((cur, name, meta_of(fs[cur]))));
                assert(target_node(fs, cur, name) == cur);
            } else {
                match fs_lookup(fs, cur, name) {
                    None => {},
                    Some(n) => {
                        lemma_fs_lookup_wf(fs, cur, name);
                        if fs[n] is Symlink && follow is Yes {
                            assert(r == expand_from(fs, cur, comps, follow, count, n));
                            if count < MAX_SYMLINKS {
                                match fs[n] {
                                    SNode::Symlink { target, .. } => match parse_result(target) {
                                        Err(_) => {},
                                        Ok(tc) => {
                                            assert(r == resolve_from(
                                                fs,
                                                cur,
                                                tc + comps.drop_first(),
                                                follow,
                                                (count + 1) as nat,
                                            ));
                                            lemma_resolve_contained(
                                                fs,
                                                root,
                                                cur,
                                                tc + comps.drop_first(),
                                                follow,
                                                (count + 1) as nat,
                                            );
                                        },
                                    },
                                    _ => {
                                        assert(false);
                                    },
                                }
                            }
                        } else {
                            assert(r == Ok::<(int, Seq<u8>, Metadata), Error>(
                                (cur, name, meta_of(fs[n])),
                            ));
                            assert(target_node(fs, cur, name) == n);
                            lemma_lookup_child(fs, cur, name);
                            lemma_reaches_step(fs, root, cur, n);
                        }
                    },
                }
            }
        } else {
            if name == dot() {
                assert(r == resolve_from(fs, cur, comps.drop_first(), follow, count));
                lemma_resolve_contained(fs, root, cur, comps.drop_first(), follow, count);
            } else {
                match fs_lookup(fs, cur, name) {
                    None => {},
                    Some(n) => {
                        lemma_fs_lookup_wf(fs, cur, name);
                        match fs[n] {
                            SNode::Dir { .. } => {
                                assert(r == resolve_from(fs, n, comps.drop_first(), follow, count));
                                lemma_lookup_child(fs, cur, name);
                                lemma_reaches_step(fs, root, cur, n);
                                lemma_resolve_contained(
                                    fs,
                                    root,
                                    n,
                                    comps.drop_first(),
                                    follow,
                                    count,
                                );
                            },
                            SNode::File { .. } => {},
                            SNode::Symlink { target, .. } => {
                                assert(r == expand_from(fs, cur, comps, follow, count, n));
                                if count < MAX_SYMLINKS {
                                    match parse_result(target) {
                                        Err(_) => {},
                                        Ok(tc) => {
                                            assert(r == resolve_from(
                                                fs,
                                                cur,
                                                tc + comps.drop_first(),
                                                follow,
                                                (count + 1) as nat,
                                            ));
                                            lemma_resolve_contained(
                                                fs,
                                                root,
                                                cur,
                                                tc + comps.drop_first(),
                                                follow,
                                                (count + 1) as nat,
                                            );
                                        },
                                    }
                                }
                            },
                        }
                    },
                }
            }
        }
    }
}

/// Containment: whatever a sandboxed resolution of a byte path returns,
/// both the parent directory it acts through and the final target lie in
/// the subtree of the start directory. A path whose straight-line reading
/// would leave that subtree — an absolute path, a `..` component, a
/// symlink with an absolute or parent-escaping target — can therefore
/// never be acted on: it either fails or resolves inside the subtree.
pub proof fn lemma_containment(fs: Seq<SNode>, root: int, path: Seq<u8>, follow: FollowSymlinks)
    requires
        fs_wf(fs),
        0 <= root < fs.len(),
        fs[root] is Dir,
    ensures
        spec_resolve_path(fs, root, path, follow) matches Ok((p, nm, _m))
            ==> reaches(fs, root, p) && reaches(fs, root, target_node(fs, p, nm)),
{
    match parse_result(path) {
        Err(_) => {},
        Ok(comps) => {
            lemma_reaches_refl(fs, root);
            lemma_resolve_contained(fs, root, root, comps, follow, 0);
        },
    }
}

/// Containment of the mutation: a sandboxed permission change alters no
/// node outside the subtree of the start directory.
#[verifier::rlimit(50)]
pub proof fn lemma_set_permissions_contained(fs: Seq<SNode>, root: int, path: Seq<u8>, mode: u32)
    requires
        fs_wf(fs),
        0 <= root < fs.len(),
        fs[root] is Dir,
    ensures
        forall|d: int| 0 <= d < fs.len() && !reaches(fs, root, d)
            ==> #[trigger] spec_set_permissions(fs, root, path, mode).1[d] == fs[d],
{
    lemma_containment(fs, root, path, FollowSymlinks::Yes);
    let r = spec_set_permissions(fs, root, path, mode);
    match spec_resolve_path(fs, root, path, FollowSymlinks::Yes) {
        Err(_) => {
            assert(r.1 == fs);
        },
        Ok((p, nm, _m)) => {
            match parse_result(path) {
                Ok(comps) => {
                    lemma_resolve_ok(fs, root, comps, FollowSymlinks::Yes, 0);
                },
                Err(_) => {
                    assert(false);
                },
            }
            let t = target_node(fs, p, nm);
            assert(0 <= t < fs.len());
            assert(reaches(fs, root, t));
            assert(r.1 == fs.update(t, snode_with_mode(fs[t], mode)));
            assert forall|d: int| 0 <= d < fs.len() && !reaches(fs, root, d)
                implies #[trigger] r.1[d] == fs[d] by {
                assert(d != t);
                assert(fs.update(t, snode_with_mode(fs[t], mode))[d] == fs[d]);
            }
        },
    }
}

/// The contrapositive reading of containment: a node outside the subtree
/// of the start directory is never what a successful resolution acts
/// through or on — an operation that could only act outside has to fail,
/// under either follow policy.
pub proof fn lemma_no_outside_target(
    fs: Seq<SNode>,
    root: int,
    path: Seq<u8>,
    follow: FollowSymlinks,
    d: int,
)
    requires
        fs_wf(fs),
        0 <= root < fs.len(),
        fs[root] is Dir,
        !reaches(fs, root, d),
    ensures
        spec_resolve_path(fs, root, path, follow) matches Ok((p, nm, _m))
            ==> p != d && target_node(fs, p, nm) != d,
{
    lemma_containment(fs, root, path, follow);
}

/// Containment of the no-follow mutation: `set_symlink_permissions` too
/// alters no node outside the subtree of the start directory, although the
/// final component is not followed — every leading component is still
/// resolved through handle-bound, single-component steps.
#[verifier::rlimit(50)]
pub proof fn lemma_set_symlink_permissions_contained(
    fs: Seq<SNode>,
    root: int,
    path: Seq<u8>,
    mode: u32,
)
    requires
        fs_wf(fs),
        0 <= root < fs.len(),
        fs[root] is Dir,
    ensures
        forall|d: int| 0 <= d < fs.len() && !reaches(fs, root, d)
            ==> #[trigger] spec_set_symlink_permissions(fs, root, path, mode).1[d] == fs[d],
{
    lemma_containment(fs, root, path, FollowSymlinks::No);
    let r = spec_set_symlink_permissions(fs, root, path, mode);
    match spec_resolve_path(fs, root, path, FollowSymlinks::No) {
        Err(_) => {
            assert(r.1 == fs);
        },
        Ok((p, nm, m)) => {
            if m.file_type is Symlink && !model_platform().symlink_perms_supported {
                assert(r.1 == fs);
            } else {
                match parse_result(path) {
                    Ok(comps) => {
                        lemma_resolve_ok(fs, root, comps, FollowSymlinks::No, 0);
                    },
                    Err(_) => {
                        assert(false);
                    },
                }
                let t = target_node(fs, p, nm);
                assert(0 <= t < fs.len());
                assert(reaches(fs, root, t));
                assert(r.1 == fs.update(t, snode_with_mode(fs[t], mode)));
                assert forall|d: int| 0 <= d < fs.len() && !reaches(fs, root, d)
                    implies #[trigger] r.1[d] == fs[d] by {
                    assert(d != t);
                    assert(fs.update(t, snode_with_mode(fs[t], mode))[d] == fs[d]);
                }
            }
        },
    }
}

/// No partial application: a permission change that reports an error has
/// changed nothing — the tree after a failed operation is exactly the tree
/// before it, under either follow policy.
pub proof fn lemma_failed_mutation_changes_nothing(
    fs: Seq<SNode>,
    root: int,
    path: Seq<u8>,
    mode: u32,
)
    ensures
        spec_set_permissions(fs, root, path, mode).0 is Err
            ==> spec_set_permissions(fs, root, path, mode).1 == fs,
        spec_set_symlink_permissions(fs, root, path, mode).0 is Err
            ==> spec_set_symlink_permissions(fs, root, path, mode).1 == fs,
{
}

/// The two trees agree on everything resolution reads: same variant, same
/// entries, same symlink target — only permission bits may differ.
pub open spec fn same_shape(a: SNode, b: SNode) -> bool {
    match (a, b) {
        (SNode::Dir { entries: e1, .. }, SNode::Dir { entries: e2, .. }) => e1 == e2,
        (SNode::File { .. }, SNode::File { .. }) => true,
        (SNode::Symlink { target: t1, .. }, SNode::Symlink { target: t2, .. }) => t1 == t2,
        _ => false,
    }
}

/// Pointwise shape agreement.
pub open spec fn shape_eq(fs1: Seq<SNode>, fs2: Seq<SNode>) -> bool {
    &&& fs1.len() == fs2.len()
    &&& forall|i: int| 0 <= i < fs1.len() ==> same_shape(#[trigger] fs1[i], #[trigger] fs2[i])
}

/// Lookup reads only shape.
pub proof fn lemma_lookup_shape(fs1: Seq<SNode>, fs2: Seq<SNode>, d: int, name: Seq<u8>)
    requires
        shape_eq(fs1, fs2),
        0 <= d < fs1.len(),
    ensures
        fs_lookup(fs2, d, name) == fs_lookup(fs1, d, name),
{
    assert(same_shape(fs1[d], fs2[d]));
    match fs1[d] {
        SNode::Dir { entries, .. } => {},
        _ => {},
    }
}

/// Resolution reads only shape: over two trees of equal shape it follows
/// the same walk, fails with the same error, and succeeds with the same
/// parent and final component.
pub proof fn lemma_resolve_shape(
    fs1: Seq<SNode>,
    fs2: Seq<SNode>,
    cur: int,
    comps: Seq<Seq<u8>>,
    follow: FollowSymlinks,
    count: nat,
)
    requires
        fs_wf(fs1),
        shape_eq(fs1, fs2),
        0 <= cur < fs1.len(),
        fs1[cur] is Dir,
        count <= MAX_SYMLINKS,
    ensures
        match resolve_from(fs1, cur, comps, follow, count) {
            Err(e) => resolve_from(fs2, cur, comps, follow, count)
                == Err::<(int, Seq<u8>, Metadata), Error>(e),
            Ok((p, nm, _m)) => resolve_from(fs2, cur, comps, follow, count)
                matches Ok((p2, nm2, _m2)) && p2 == p && nm2 == nm,
        },
    decreases MAX_SYMLINKS - count, comps.len(),
{
    let r1 = resolve_from(fs1, cur, comps, follow, count);
    let r2 = resolve_from(fs2, cur, comps, follow, count);
    if comps.len() == 0 {
    } else {
        let name = comps[0];
        if comps.len() >= 1 {
            if name != dot() {
                lemma_lookup_shape(fs1, fs2, cur, name);
            }
        }
        if comps.len() == 1 {
            if name == dot() {
                assert(r1 == Ok::<(int, Seq<u8>, Metadata), Error>((cur, name, meta_of(fs1[cur]))));
                assert(r2 == Ok::<(int, Seq<u8>, Metadata), Error>((cur, name, meta_of(fs2[cur]))));
            } else {
                match fs_lookup(fs1, cur, name) {
                    None => {
                        assert(r1 == Err::<(int, Seq<u8>, Metadata), Error>(Error::Os(
                            crate::types::ENOENT,
                        )));
                        assert(r2 == r1);
                    },
                    Some(n) => {
                        lemma_fs_lookup_wf(fs1, cur, name);
                        assert(same_shape(fs1[n], fs2[n]));
                        assert((fs2[n] is Symlink) == (fs1[n] is Symlink));
                        if fs1[n] is Symlink && follow is Yes {
                            assert(r1 == expand_from(fs1, cur, comps, follow, count, n));
                            assert(r2 == expand_from(fs2, cur, comps, follow, count, n));
                            if count < MAX_SYMLINKS {
                                match (fs1[n], fs2[n]) {
                                    (
                                        SNode::Symlink { target, .. },
                                        SNode::Symlink { target: target2, .. },
                                    ) => {
                                        assert(target2 == target);
                                        match parse_result(target) {
                                            Err(_) => {},
                                            Ok(tc) => {
                                                assert(r1 == resolve_from(
                                                    fs1,
                                                    cur,
                                                    tc + comps.drop_first(),
                                                    follow,
                                                    (count + 1) as nat,
                                                ));
                                                assert(r2 == resolve_from(
                                                    fs2,
                                                    cur,
                                                    tc + comps.drop_first(),
                                                    follow,
                                                    (count + 1) as nat,
                                                ));
                                                lemma_resolve_shape(
                                                    fs1,
                                                    fs2,
                                                    cur,
                                                    tc + comps.drop_first(),
                                                    follow,
                                                    (count + 1) as nat,
                                                );
                                            },
                                        }
                                    },
                                    _ => {
                                        assert(false);
                                    },
                                }
                            }
                        } else {
                            assert(r1 == Ok::<(int, Seq<u8>, Metadata), Error>(
                                (cur, name, meta_of(fs1[n])),
                            ));
                            assert(r2 == Ok::<(int, Seq<u8>, Metadata), Error>(
                                (cur, name, meta_of(fs2[n])),
                            ));
                        }
                    },
                }
            }
        } else {
            if name == dot() {
                assert(r1 == resolve_from(fs1, cur, comps.drop_first(), follow, count));
                assert(r2 == resolve_from(fs2, cur, comps.drop_first(), follow, count));
                lemma_resolve_shape(fs1, fs2, cur, comps.drop_first(), follow, count);
            } else {
                match fs_lookup(fs1, cur, name) {
                    None => {
                        assert(r1 == Err::<(int, Seq<u8>, Metadata), Error>(Error::Os(
                            crate::types::ENOENT,
                        )));
                        assert(r2 == r1);
                    },
                    Some(n) => {
                        lemma_fs_lookup_wf(fs1, cur, name);
                        assert(same_shape(fs1[n], fs2[n]));
                        match (fs1[n], fs2[n]) {
                            (SNode::Dir { .. }, SNode::Dir { .. }) => {
                                assert(r1 == resolve_from(fs1, n, comps.drop_first(), follow, count));
                                assert(r2 == resolve_from(fs2, n, comps.drop_first(), follow, count));
                                lemma_resolve_shape(
                                    fs1,
                                    fs2,
                                    n,
                                    comps.drop_first(),
                                    follow,
                                    count,
                                );
                            },
                            (SNode::File { .. }, SNode::File { .. }) => {
                                assert(r1 == Err::<(int, Seq<u8>, Metadata), Error>(Error::Os(
                                    crate::types::ENOTDIR,
                                )));
                                assert(r2 == r1);
                            },
                            (
                                SNode::Symlink { target, .. },
                                SNode::Symlink { target: target2, .. },
                            ) => {
                                assert(target2 == target);
                                assert(r1 == expand_from(fs1, cur, comps, follow, count, n));
                                assert(r2 == expand_from(fs2, cur, comps, follow, count, n));
                                if count < MAX_SYMLINKS {
                                    match parse_result(target) {
                                        Err(_) => {},
                                        Ok(tc) => {
                                            assert(r1 == resolve_from(
                                                fs1,
                                                cur,
                                                tc + comps.drop_first(),
                                                follow,
                                                (count + 1) as nat,
                                            ));
                                            assert(r2 == resolve_from(
                                                fs2,
                                                cur,
                                                tc + comps.drop_first(),
                                                follow,
                                                (count + 1) as nat,
                                            ));
                                            lemma_resolve_shape(
                                                fs1,
                                                fs2,
                                                cur,
                                                tc + comps.drop_first(),
                                                follow,
                                                (count + 1) as nat,
                                            );
                                        },
                                    }
                                }
                            },
                            _ => {
                                assert(false);
                            },
                        }
                    },
                }
            }
        }
    }
}

/// Idempotence: applying the same permission change twice leaves the tree
/// exactly as one application does, and the second application returns
/// what the first returned.
pub proof fn lemma_set_permissions_idempotent(
    fs: Seq<SNode>,
    root: int,
    path: Seq<u8>,
    mode: u32,
)
    requires
        fs_wf(fs),
        0 <= root < fs.len(),
        fs[root] is Dir,
    ensures
        ({
            let (r1, fs1) = spec_set_permissions(fs, root, path, mode);
            let (r2, fs2) = spec_set_permissions(fs1, root, path, mode);
            fs2 == fs1 && r2 == r1
        }),
{
    match parse_result(path) {
        Err(_) => {},
        Ok(comps) => {
            match resolve_from(fs, root, comps, FollowSymlinks::Yes, 0) {
                Err(_) => {},
                Ok((p, nm, _m)) => {
                    lemma_resolve_ok(fs, root, comps, FollowSymlinks::Yes, 0);
                    let t = target_node(fs, p, nm);
                    let fs1 = fs.update(t, snode_with_mode(fs[t], mode));
                    assert(shape_eq(fs, fs1)) by {
                        assert forall|i: int| 0 <= i < fs.len()
                            implies same_shape(#[trigger] fs[i], #[trigger] fs1[i]) by {
                            if i == t {
                                match fs[t] {
                                    SNode::Dir { .. } => {},
                                    SNode::File { .. } => {},
                                    SNode::Symlink { .. } => {},
                                }
                            }
                        }
                    }
                    lemma_resolve_shape(fs, fs1, root, comps, FollowSymlinks::Yes, 0);
                    lemma_lookup_shape(fs, fs1, p, nm);
                    assert(target_node(fs1, p, nm) == t);
                    assert(snode_with_mode(fs1[t], mode) == fs1[t]) by {
                        match fs[t] {
                            SNode::Dir { .. } => {},
                            SNode::File { .. } => {},
                            SNode::Symlink { .. } => {},
                        }
                    }
                    assert(fs1.update(t, snode_with_mode(fs1[t], mode)) =~= fs1);
                },
            }
        },
    }
}

/// Follow-policy divergence, the no-follow half: when the final component
/// is itself a symlink, the no-follow permission change refuses with
/// `NotSupported` and leaves the whole tree — in particular the file the
/// symlink points to — exactly as it was.
pub proof fn lemma_symlink_permissions_leave_target(
    fs: Seq<SNode>,
    root: int,
    path: Seq<u8>,
    mode: u32,
)
    requires
        spec_stat(fs, root, path, FollowSymlinks::No) matches Ok(m) && m.file_type is Symlink,
    ensures
        spec_set_symlink_permissions(fs, root, path, mode) == (Err::<(), Error>(Error::NotSupported), fs),
{
}

/// The component `name` of directory `dir` reaches a regular file through
/// a chain of exactly `k` symlinks, each of whose literal targets is a
/// single further name in the same directory.
pub open spec fn links_to_file(fs: Seq<SNode>, dir: int, name: Seq<u8>, k: nat) -> bool
    decreases k,
{
    &&& name != dot()
    &&& match fs_lookup(fs, dir, name) {
        Some(n) => match fs[n] {
            SNode::File { .. } => k == 0,
            SNode::Symlink { target, .. } => k > 0 && {
                &&& parse_result(target) is Ok
                &&& parse_result(target)->Ok_0.len() == 1
                &&& links_to_file(fs, dir, parse_result(target)->Ok_0[0], (k - 1) as nat)
            },
            _ => false,
        },
        None => false,
    }
}

/// The symlink-chain bound: with `count` dereferences already spent, a
/// chain of exactly `k` further symlinks succeeds when the `k`
/// dereferences fit within the platform bound — so a chain of exactly the
/// bound resolves from a fresh counter — and fails with the distinct
/// too-many-symlinks condition, never an arbitrary error, as soon as it
/// does not. Each dereference spends exactly one count, as the recursion
/// shows.
pub proof fn lemma_symlink_chain_bound(
    fs: Seq<SNode>,
    dir: int,
    name: Seq<u8>,
    k: nat,
    count: nat,
)
    requires
        fs_wf(fs),
        0 <= dir < fs.len(),
        fs[dir] is Dir,
        count <= MAX_SYMLINKS,
        links_to_file(fs, dir, name, k),
    ensures
        count + k <= MAX_SYMLINKS
            ==> (resolve_from(fs, dir, seq![name], FollowSymlinks::Yes, count)
                matches Ok((p, _nm, m)) && p == dir && m.file_type is Regular),
        count + k > MAX_SYMLINKS
            ==> resolve_from(fs, dir, seq![name], FollowSymlinks::Yes, count)
                == Err::<(int, Seq<u8>, Metadata), Error>(Error::TooManySymlinks),
    decreases k,
{
    let comps = seq![name];
    let r = resolve_from(fs, dir, comps, FollowSymlinks::Yes, count);
    match fs_lookup(fs, dir, name) {
        None => {},
        Some(n) => {
            lemma_fs_lookup_wf(fs, dir, name);
            match fs[n] {
                SNode::File { .. } => {
                    assert(r == Ok::<(int, Seq<u8>, Metadata), Error>(
                        (dir, name, meta_of(fs[n])),
                    ));
                },
                SNode::Symlink { target, .. } => {
                    assert(r == expand_from(fs, dir, comps, FollowSymlinks::Yes, count, n));
                    if count >= MAX_SYMLINKS {
                        assert(r == Err::<(int, Seq<u8>, Metadata), Error>(
                            Error::TooManySymlinks,
                        ));
                    } else {
                        let tc = parse_result(target)->Ok_0;
                        let tname = tc[0];
                        assert(tc + comps.drop_first() =~= seq![tname]);
                        assert(r == resolve_from(
                            fs,
                            dir,
                            seq![tname],
                            FollowSymlinks::Yes,
                            (count + 1) as nat,
                        ));
                        lemma_symlink_chain_bound(fs, dir, tname, (k - 1) as nat, (count + 1) as nat);
                    }
                },
                SNode::Dir { .. } => {},
            }
        },
    }
}

/// A straight-line walk of the tree: every component is taken as a
/// directory entry, with no symlink handling at all.
pub open spec fn naive_lookup(fs: Seq<SNode>, cur: int, comps: Seq<Seq<u8>>) -> Option<int>
    decreases comps.len(),
{
    if comps.len() == 0 {
        Some(cur)
    } else {
        match fs[cur] {
            SNode::Dir { .. } => {
                if comps[0] == dot() {
                    naive_lookup(fs, cur, comps.drop_first())
                } else {
                    match fs_lookup(fs, cur, comps[0]) {
                        None => None,
                        Some(n) => naive_lookup(fs, n, comps.drop_first()),
                    }
                }
            },
            _ => None,
        }
    }
}

/// No node the straight-line walk visits is a symlink.
pub open spec fn no_symlinks_on(fs: Seq<SNode>, cur: int, comps: Seq<Seq<u8>>) -> bool
    decreases comps.len(),
{
    if comps.len() == 0 {
        true
    } else {
        match fs[cur] {
            SNode::Dir { .. } => {
                if comps[0] == dot() {
                    no_symlinks_on(fs, cur, comps.drop_first())
                } else {
                    match fs_lookup(fs, cur, comps[0]) {
                        None => true,
                        Some(n) => !(fs[n] is Symlink) && no_symlinks_on(fs, n, comps.drop_first()),
                    }
                }
            },
            _ => true,
        }
    }
}

/// On a symlink-free walk, sandboxed resolution reaches exactly the node
/// the straight-line walk reaches.
pub proof fn lemma_resolve_plain(
    fs: Seq<SNode>,
    cur: int,
    comps: Seq<Seq<u8>>,
    follow: FollowSymlinks,
    count: nat,
)
    requires
        fs_wf(fs),
        0 <= cur < fs.len(),
        fs[cur] is Dir,
        count <= MAX_SYMLINKS,
        comps.len() >= 1,
        naive_lookup(fs, cur, comps) is Some,
        no_symlinks_on(fs, cur, comps),
    ensures
        resolve_from(fs, cur, comps, follow, count) matches Ok((p, nm, m))
            && m == meta_of(fs[naive_lookup(fs, cur, comps)->Some_0]),
    decreases comps.len(),
{
    let name = comps[0];
    if comps.len() == 1 {
        if name == dot() {
        } else {
            match fs_lookup(fs, cur, name) {
                None => {
                    assert(false);
                },
                Some(n) => {
                    lemma_fs_lookup_wf(fs, cur, name);
                    assert(!(fs[n] is Symlink));
                },
            }
        }
    } else {
        if name == dot() {
            lemma_resolve_plain(fs, cur, comps.drop_first(), follow, count);
        } else {
            match fs_lookup(fs, cur, name) {
                None => {
                    assert(false);
                },
                Some(n) => {
                    lemma_fs_lookup_wf(fs, cur, name);
                    assert(!(fs[n] is Symlink));
                    match fs[n] {
                        SNode::Dir { .. } => {
                            lemma_resolve_plain(fs, n, comps.drop_first(), follow, count);
                        },
                        SNode::File { .. } => {
                            assert(naive_lookup(fs, n, comps.drop_first()) is None);
                            assert(false);
                        },
                        SNode::Symlink { .. } => {
                            assert(false);
                        },
                    }
                },
            }
        }
    }
}

/// Agreement with a direct walk: on a path whose straight-line walk
/// touches no symlink and finds a node, the sandboxed resolution succeeds
/// under either follow policy and reports that very node's metadata.
pub proof fn lemma_stat_plain_path(fs: Seq<SNode>, root: int, path: Seq<u8>, follow: FollowSymlinks)
    requires
        fs_wf(fs),
        0 <= root < fs.len(),
        fs[root] is Dir,
        parse_result(path) is Ok,
        naive_lookup(fs, root, parse_result(path)->Ok_0) is Some,
        no_symlinks_on(fs, root, parse_result(path)->Ok_0),
    ensures
        ({
            let comps = parse_result(path)->Ok_0;
            let t = naive_lookup(fs, root, comps)->Some_0;
            spec_resolve_path(fs, root, path, follow) matches Ok((_p, _nm, m))
                && m == meta_of(fs[t])
        }),
{
    let comps = parse_result(path)->Ok_0;
    crate::path::lemma_split_from_nonempty(path, Seq::empty());
    lemma_resolve_plain(fs, root, comps, follow, 0);
}

} // verus!
