//! Behavioral tests for the sandboxed resolution engine, run against the
//! in-memory directory tree.

use cap_primitives::checker::{check_set_permissions, CheckOutcome};
use cap_primitives::model::{DirEntry, FsModel, Node, MAX_SYMLINKS};
use cap_primitives::path::parse_path;
use cap_primitives::resolver::{Action, Event, Resolver, StepResult};
use cap_primitives::types::{Error, FileType, FollowSymlinks, Metadata, Platform, EACCES, EINVAL, ENOENT, ENOTDIR};
use cap_primitives::Permissions;

fn entry(name: &str, node: usize) -> DirEntry {
    DirEntry { name: name.as_bytes().to_vec(), node }
}

fn dir(entries: Vec<DirEntry>, mode: u32) -> Node {
    Node::Dir { entries, mode }
}

fn file(mode: u32) -> Node {
    Node::File { mode }
}

fn link(target: &str, mode: u32) -> Node {
    Node::Symlink { target: target.as_bytes().to_vec(), mode: mode }
}

/// root (0) contains: f (file 0640), a (file 0644), b -> a, sub (dir)
/// containing g (file 0600), abs -> /etc, up -> ../..
fn sample() -> FsModel {
    FsModel {
        nodes: vec![
            dir(
                vec![
                    entry("f", 1),
                    entry("a", 2),
                    entry("b", 3),
                    entry("sub", 4),
                    entry("abs", 6),
                    entry("up", 7),
                ],
                0o755,
            ),
            file(0o640),
            file(0o644),
            link("a", 0o777),
            dir(vec![entry("g", 5)], 0o700),
            file(0o600),
            link("/etc", 0o777),
            link("../..", 0o777),
        ],
    }
}

#[test]
fn parse_splits_components() {
    let v = parse_path(b"a//b/./c").unwrap();
    let got: Vec<&[u8]> = v.iter().map(|c| c.as_slice()).collect();
    assert_eq!(got, vec![&b"a"[..], &b"b"[..], &b"."[..], &b"c"[..]]);
}

#[test]
fn parse_rejects_empty_absolute_and_parent() {
    assert_eq!(parse_path(b""), Err(Error::Os(ENOENT)));
    assert_eq!(parse_path(b"/etc/passwd"), Err(Error::Os(EACCES)));
    assert_eq!(parse_path(b"a/../b"), Err(Error::Os(EACCES)));
    assert_eq!(parse_path(b".."), Err(Error::Os(EACCES)));
}

#[test]
fn stat_plain_file_matches_direct() {
    let fs = sample();
    let m = fs.stat(0, b"sub/g", FollowSymlinks::Yes).unwrap();
    assert_eq!(m, Metadata { file_type: FileType::Regular, mode: 0o600 });
    let m2 = fs.stat(0, b"sub/./g", FollowSymlinks::No).unwrap();
    assert_eq!(m2, m);
}

#[test]
fn stat_missing_and_notdir() {
    let fs = sample();
    assert_eq!(fs.stat(0, b"nope", FollowSymlinks::Yes), Err(Error::Os(ENOENT)));
    assert_eq!(fs.stat(0, b"f/x", FollowSymlinks::Yes), Err(Error::Os(ENOTDIR)));
}

#[test]
fn escape_attempts_fail() {
    let mut fs = sample();
    // naive concatenation of each of these would leave the root subtree
    assert_eq!(fs.set_permissions(0, b"/etc/passwd", Permissions::from_mode(0o600)), Err(Error::Os(EACCES)));
    assert_eq!(fs.set_permissions(0, b"../f", Permissions::from_mode(0o600)), Err(Error::Os(EACCES)));
    assert_eq!(
        fs.set_symlink_permissions(0, b"/etc/passwd", Permissions::from_mode(0o600)),
        Err(Error::Os(EACCES))
    );
    assert_eq!(
        fs.set_symlink_permissions(0, b"up/x", Permissions::from_mode(0o600)),
        Err(Error::Os(EACCES))
    );
    assert_eq!(fs.stat(0, b"abs", FollowSymlinks::Yes), Err(Error::Os(EACCES)));
    assert_eq!(fs.stat(0, b"up", FollowSymlinks::Yes), Err(Error::Os(EACCES)));
    // and nothing changed
    assert_eq!(fs.stat(0, b"f", FollowSymlinks::Yes).unwrap().mode, 0o640);
}

#[test]
fn follow_policy_divergence() {
    // root D with file a (0644) and symlink b -> a
    let mut fs = sample();
    assert_eq!(fs.set_permissions(0, b"b", Permissions::from_mode(0o600)), Ok(()));
    assert_eq!(fs.stat(0, b"a", FollowSymlinks::Yes).unwrap().mode, 0o600);

    let mut fs2 = sample();
    assert_eq!(
        fs2.set_symlink_permissions(0, b"b", Permissions::from_mode(0o600)),
        Err(Error::NotSupported)
    );
    assert_eq!(fs2.stat(0, b"a", FollowSymlinks::Yes).unwrap().mode, 0o644);
}

#[test]
fn set_symlink_permissions_on_file() {
    let mut fs = sample();
    assert_eq!(fs.set_symlink_permissions(0, b"a", Permissions::from_mode(0o400)), Ok(()));
    assert_eq!(fs.stat(0, b"a", FollowSymlinks::No).unwrap().mode, 0o400);
}

#[test]
fn end_to_end_set_permissions() {
    // root D contains file f (0640); set_permissions(D, "f", 0600) succeeds,
    // f reports 0600 through D, and D's own mode is unchanged.
    let mut fs = sample();
    assert_eq!(fs.set_permissions(0, b"f", Permissions::from_mode(0o600)), Ok(()));
    assert_eq!(fs.stat(0, b"f", FollowSymlinks::Yes).unwrap().mode, 0o600);
    assert_eq!(fs.stat(0, b".", FollowSymlinks::Yes).unwrap().mode, 0o755);
}

#[test]
fn set_permissions_idempotent() {
    let mut once = sample();
    assert_eq!(once.set_permissions(0, b"b", Permissions::from_mode(0o444)), Ok(()));
    let mut twice = sample();
    assert_eq!(twice.set_permissions(0, b"b", Permissions::from_mode(0o444)), Ok(()));
    assert_eq!(twice.set_permissions(0, b"b", Permissions::from_mode(0o444)), Ok(()));
    assert_eq!(
        once.stat(0, b"a", FollowSymlinks::Yes).unwrap(),
        twice.stat(0, b"a", FollowSymlinks::Yes).unwrap()
    );
    assert_eq!(
        once.stat(0, b".", FollowSymlinks::Yes).unwrap(),
        twice.stat(0, b".", FollowSymlinks::Yes).unwrap()
    );
}

/// A chain of `n` symlinks ending at a file: node 0 is the root, node 1 the
/// file, nodes 2..=n+1 the links; `l1 -> f`, `lk -> l(k-1)`.
fn chain(n: usize) -> FsModel {
    let mut entries = vec![entry("f", 1)];
    let mut nodes = vec![file(0o644)];
    for k in 1..=n {
        let target = if k == 1 { "f".to_string() } else { format!("l{}", k - 1) };
        nodes.push(link(&target, 0o777));
        entries.push(entry(&format!("l{}", k), k + 1));
    }
    let mut all = vec![dir(entries, 0o755)];
    all.extend(nodes);
    FsModel { nodes: all }
}

#[test]
fn symlink_chain_at_bound_succeeds() {
    let n = MAX_SYMLINKS as usize;
    let fs = chain(n);
    let top = format!("l{}", n);
    let m = fs.stat(0, top.as_bytes(), FollowSymlinks::Yes).unwrap();
    assert_eq!(m.file_type, FileType::Regular);
    assert_eq!(m.mode, 0o644);
}

#[test]
fn symlink_chain_over_bound_fails() {
    let n = MAX_SYMLINKS as usize + 1;
    let fs = chain(n);
    let top = format!("l{}", n);
    assert_eq!(
        fs.stat(0, top.as_bytes(), FollowSymlinks::Yes),
        Err(Error::TooManySymlinks)
    );
}

#[test]
fn symlink_self_loop_fails() {
    let fs = FsModel {
        nodes: vec![dir(vec![entry("loop", 1)], 0o755), link("loop", 0o777)],
    };
    assert_eq!(
        fs.stat(0, b"loop", FollowSymlinks::Yes),
        Err(Error::TooManySymlinks)
    );
    // the link itself is still visible without following
    assert_eq!(
        fs.stat(0, b"loop", FollowSymlinks::No).unwrap().file_type,
        FileType::Symlink
    );
}

#[test]
fn checker_classification_table() {
    let p = Permissions::from_mode(0o600);
    let meta = |mode: u32| Metadata { file_type: FileType::Regular, mode };
    // success must show the requested bits
    assert_eq!(
        check_set_permissions(p, &Ok(meta(0o644)), &Ok(()), &Ok(meta(0o600))),
        CheckOutcome::Consistent
    );
    assert_eq!(
        check_set_permissions(p, &Ok(meta(0o644)), &Ok(()), &Ok(meta(0o755))),
        CheckOutcome::Abort
    );
    // failure must leave the bits unchanged
    assert_eq!(
        check_set_permissions(p, &Ok(meta(0o644)), &Err(Error::Os(ENOENT)), &Ok(meta(0o644))),
        CheckOutcome::Consistent
    );
    assert_eq!(
        check_set_permissions(p, &Ok(meta(0o644)), &Err(Error::Os(ENOENT)), &Ok(meta(0o600))),
        CheckOutcome::Abort
    );
    // absent throughout is tolerated
    assert_eq!(
        check_set_permissions(
            p,
            &Err(Error::Os(ENOENT)),
            &Err(Error::Os(ENOENT)),
            &Err(Error::Os(ENOENT))
        ),
        CheckOutcome::Consistent
    );
    // identity changed between the snapshots
    assert_eq!(
        check_set_permissions(p, &Ok(meta(0o644)), &Ok(()), &Err(Error::Os(ENOENT))),
        CheckOutcome::Abort
    );
    assert_eq!(
        check_set_permissions(p, &Err(Error::Os(ENOENT)), &Ok(()), &Ok(meta(0o600))),
        CheckOutcome::Abort
    );
}

#[test]
fn checker_quiet_without_interference() {
    let mut fs = sample();
    let (r, verdict) = fs.set_permissions_checked(0, b"f", Permissions::from_mode(0o600));
    assert_eq!(r, Ok(()));
    assert_eq!(verdict, CheckOutcome::Consistent);
    let (r2, verdict2) = fs.set_symlink_permissions_checked(0, b"f", Permissions::from_mode(0o400));
    assert_eq!(r2, Ok(()));
    assert_eq!(verdict2, CheckOutcome::Consistent);
}

#[test]
fn checker_detects_interleaved_change() {
    // take the snapshots by hand and let another mutation interleave
    let mut fs = sample();
    let before = fs.stat(0, b"f", FollowSymlinks::Yes);
    let result = fs.set_permissions(0, b"f", Permissions::from_mode(0o600));
    // interference: the file is replaced/changed between mutation and re-stat
    fs.set_permissions(0, b"f", Permissions::from_mode(0o755)).unwrap();
    let after = fs.stat(0, b"f", FollowSymlinks::Yes);
    assert_eq!(
        check_set_permissions(Permissions::from_mode(0o600), &before, &result, &after),
        CheckOutcome::Abort
    );
}

#[test]
fn resolver_emits_handle_relative_actions() {
    let fs = sample();
    let plat = cap_primitives::model::make_model_platform();
    let mut st = Resolver::new(0, b"sub/g", FollowSymlinks::Yes, plat).unwrap();
    match st.next() {
        StepResult::Do(Action::Open { dir, name }) => {
            assert_eq!(dir, 0);
            assert_eq!(name, b"sub".to_vec());
        }
        other => panic!("expected an open action, got {:?}", other),
    }
    assert_eq!(st.on_event(Event::Opened(4)), None);
    match st.next() {
        StepResult::Do(Action::Stat { dir, name }) => {
            assert_eq!(dir, 4);
            assert_eq!(name, b"g".to_vec());
        }
        other => panic!("expected a stat action, got {:?}", other),
    }
    let meta = fs.stat(4, b"g", FollowSymlinks::No).unwrap();
    assert_eq!(st.on_event(Event::Stated(meta)), None);
    match st.next() {
        StepResult::Done { parent, name, meta: m } => {
            assert_eq!(parent, 4);
            assert_eq!(name, b"g".to_vec());
            assert_eq!(m.mode, 0o600);
        }
        other => panic!("expected completion, got {:?}", other),
    }
}

#[test]
fn resolver_reinterprets_not_a_symlink_error() {
    // a platform whose stat results carry no symlink type bit: the resolver
    // probes with a read-target call and takes the distinctive error code
    // as "not a symlink after all"
    let plat = Platform {
        max_symlinks: 8,
        symlink_type_known: false,
        symlink_open_errno: 4390,
        not_symlink_errno: 4391,
        symlink_perms_supported: false,
    };
    let mut st = Resolver::new(7, b"f", FollowSymlinks::Yes, plat).unwrap();
    match st.next() {
        StepResult::Do(Action::Stat { dir, name }) => {
            assert_eq!(dir, 7);
            assert_eq!(name, b"f".to_vec());
        }
        other => panic!("expected a stat action, got {:?}", other),
    }
    let m = Metadata { file_type: FileType::Regular, mode: 0o640 };
    st.on_event(Event::Stated(m));
    match st.next() {
        StepResult::Do(Action::ReadLink { dir, name }) => {
            assert_eq!(dir, 7);
            assert_eq!(name, b"f".to_vec());
        }
        other => panic!("expected a read-target probe, got {:?}", other),
    }
    st.on_event(Event::Failed(4391));
    match st.next() {
        StepResult::Done { parent, name, meta } => {
            assert_eq!(parent, 7);
            assert_eq!(name, b"f".to_vec());
            assert_eq!(meta, m);
        }
        other => panic!("expected completion, got {:?}", other),
    }
}

#[test]
fn resolver_rejects_before_any_action() {
    let plat = cap_primitives::model::make_model_platform();
    assert!(matches!(
        Resolver::new(0, b"/x", FollowSymlinks::Yes, plat),
        Err(Error::Os(EACCES))
    ));
    assert!(matches!(
        Resolver::new(0, b"a/../b", FollowSymlinks::Yes, plat),
        Err(Error::Os(EACCES))
    ));
    assert!(matches!(
        Resolver::new(0, b"", FollowSymlinks::Yes, plat),
        Err(Error::Os(ENOENT))
    ));
}

#[test]
fn dot_resolves_to_directory_itself() {
    let mut fs = sample();
    let m = fs.stat(0, b".", FollowSymlinks::Yes).unwrap();
    assert_eq!(m.file_type, FileType::Directory);
    assert_eq!(m.mode, 0o755);
    assert_eq!(fs.set_permissions(0, b"sub/.", Permissions::from_mode(0o711)), Ok(()));
    assert_eq!(fs.stat(0, b"sub", FollowSymlinks::Yes).unwrap().mode, 0o711);
}

#[test]
fn readlink_probe_errno_is_einval_in_model() {
    // reading the target of a non-symlink answers EINVAL, which the model
    // platform reinterprets only when the type bit was unavailable
    let fs = sample();
    let a = Action::ReadLink { dir: 0, name: b"f".to_vec() };
    match fs.perform(&a) {
        Event::Failed(code) => assert_eq!(code, EINVAL),
        other => panic!("expected a failure event, got {:?}", other),
    }
}
