//! An in-memory directory tree that plays the host's part.
//!
//! The resolver itself never touches the OS; this model answers its actions
//! from a value-level tree of directories, files and symlinks, which makes
//! the whole resolution loop — and the sandboxed mutation entry points built
//! on it — executable and provable. Handle tokens are node indices.
//!
//! The mathematical model is a sequence of [`SNode`] values; [`resolve_from`]
//! is the specification of resolution against it, and the executable
//! operations are proved equal to it.

use vstd::prelude::*;
use crate::path::{comps_view, dot, dotdot, parse_result, sep_free};
use crate::resolver::{Action, Event, Phase, Resolver, StepResult, rem_views};
use crate::types::{
    Error, FileType, FollowSymlinks, Metadata, Platform, EINVAL, ELOOP, ENOENT, ENOTDIR,
};

verus! {

/// The symlink-dereference bound the model platform enforces.
pub const MAX_SYMLINKS: u32 = 40;

/// The capability description of the model platform: stat results carry a
/// symlink type bit, a relative open refuses to enter a symlink with
/// `ELOOP`, and permissions of a symlink itself cannot be changed.
pub open spec fn model_platform() -> Platform {
    Platform {
        max_symlinks: MAX_SYMLINKS,
        symlink_type_known: true,
        symlink_open_errno: ELOOP,
        not_symlink_errno: EINVAL,
        symlink_perms_supported: false,
    }
}

/// Build the model platform description.
pub fn make_model_platform() -> (r: Platform)
    ensures
        r == model_platform(),
{
    Platform {
        max_symlinks: MAX_SYMLINKS,
        symlink_type_known: true,
        symlink_open_errno: ELOOP,
        not_symlink_errno: EINVAL,
        symlink_perms_supported: false,
    }
}

/// One directory entry: a component name and the index of the named node.
pub struct DirEntry {
    pub name: Vec<u8>,
    pub node: usize,
}

/// One filesystem node.
pub enum Node {
    Dir { entries: Vec<DirEntry>, mode: u32 },
    File { mode: u32 },
    Symlink { target: Vec<u8>, mode: u32 },
}

/// The mathematical value of a node: names and targets as byte sequences,
/// child links as indices.
pub enum SNode {
    Dir { entries: Seq<(Seq<u8>, int)>, mode: u32 },
    File { mode: u32 },
    Symlink { target: Seq<u8>, mode: u32 },
}

/// The mathematical value of a directory entry.
pub open spec fn entry_view(e: DirEntry) -> (Seq<u8>, int) {
    (e.name@, e.node as int)
}

/// The mathematical value of a node.
pub open spec fn node_view(n: Node) -> SNode {
    match n {
        Node::Dir { entries, mode } => SNode::Dir {
            entries: entries@.map_values(|e: DirEntry| entry_view(e)),
            mode,
        },
        Node::File { mode } => SNode::File { mode },
        Node::Symlink { target, mode } => SNode::Symlink { target: target@, mode },
    }
}

/// The in-memory tree. Node 0 is conventionally the root directory, but any
/// directory index may serve as the start of a resolution.
pub struct FsModel {
    pub nodes: Vec<Node>,
}

impl View for FsModel {
    type V = Seq<SNode>;

    open spec fn view(&self) -> Seq<SNode> {
        self.nodes@.map_values(|n: Node| node_view(n))
    }
}

/// The index bound and name discipline one entry must obey: the link stays
/// inside the node table and the name is a single real name — `.` and `..`
/// are resolved, never stored.
pub open spec fn entry_wf(en: (Seq<u8>, int), len: int) -> bool {
    &&& 0 <= en.1 < len
    &&& en.0.len() > 0
    &&& sep_free(en.0)
    &&& en.0 != dot()
    &&& en.0 != dotdot()
}

/// Well-formedness of one node.
pub open spec fn node_wf(n: SNode, len: int) -> bool {
    match n {
        SNode::Dir { entries, .. } => forall|i: int|
            0 <= i < entries.len() ==> entry_wf(#[trigger] entries[i], len),
        _ => true,
    }
}

/// Well-formedness of the whole tree.
pub open spec fn fs_wf(fs: Seq<SNode>) -> bool {
    forall|d: int| 0 <= d < fs.len() ==> node_wf(#[trigger] fs[d], fs.len() as int)
}

/// The first entry named `name`, if any.
pub open spec fn entries_lookup(es: Seq<(Seq<u8>, int)>, name: Seq<u8>) -> Option<int>
    decreases es.len(),
{
    if es.len() == 0 {
        None
    } else if es[0].0 == name {
        Some(es[0].1)
    } else {
        entries_lookup(es.drop_first(), name)
    }
}

/// Look `name` up in the directory `dir`.
pub open spec fn fs_lookup(fs: Seq<SNode>, dir: int, name: Seq<u8>) -> Option<int> {
    match fs[dir] {
        SNode::Dir { entries, .. } => entries_lookup(entries, name),
        _ => None,
    }
}

/// The metadata snapshot of a node.
pub open spec fn meta_of(n: SNode) -> Metadata {
    match n {
        SNode::Dir { mode, .. } => Metadata { file_type: FileType::Directory, mode },
        SNode::File { mode } => Metadata { file_type: FileType::Regular, mode },
        SNode::Symlink { mode, .. } => Metadata { file_type: FileType::Symlink, mode },
    }
}

/// A found entry points inside the table, by well-formedness.
pub proof fn lemma_entries_lookup_wf(es: Seq<(Seq<u8>, int)>, name: Seq<u8>, len: int)
    requires
        forall|i: int| 0 <= i < es.len() ==> entry_wf(#[trigger] es[i], len),
    ensures
        entries_lookup(es, name) matches Some(n) ==> 0 <= n < len,
    decreases es.len(),
{
    if es.len() == 0 {
    } else if es[0].0 == name {
    } else {
        lemma_entries_lookup_wf(es.drop_first(), name, len);
    }
}

/// A found entry is witnessed by its index in the entry sequence.
pub proof fn lemma_entries_lookup_witness(es: Seq<(Seq<u8>, int)>, name: Seq<u8>)
    requires
        entries_lookup(es, name) is Some,
    ensures
        exists|i: int| 0 <= i < es.len()
            && #[trigger] es[i] == (name, entries_lookup(es, name)->Some_0),
    decreases es.len(),
{
    if es.len() == 0 {
    } else if es[0].0 == name {
        assert(es[0] == (name, entries_lookup(es, name)->Some_0));
    } else {
        lemma_entries_lookup_witness(es.drop_first(), name);
        let j = choose|i: int| 0 <= i < es.drop_first().len()
            && #[trigger] es.drop_first()[i]
                == (name, entries_lookup(es.drop_first(), name)->Some_0);
        assert(es[j + 1] == (name, entries_lookup(es, name)->Some_0));
    }
}

/// Resolution against the model, specified: walk the components from `cur`
/// with `count` dereferences already spent. Leading components are opened
/// (entering a symlink dereferences it first); the final component is
/// statted without following and dereferenced only under
/// `FollowSymlinks::Yes`; every dereference checks the bound first, parses
/// the literal target — rejecting absolute targets and `..` — and splices
/// it in front of what remains.
pub open spec fn resolve_from(
    fs: Seq<SNode>,
    cur: int,
    comps: Seq<Seq<u8>>,
    follow: FollowSymlinks,
    count: nat,
) -> Result<(int, Seq<u8>, Metadata), Error>
    decreases MAX_SYMLINKS - count, comps.len(),
        when count <= MAX_SYMLINKS
{
    if comps.len() == 0 {
        Err(Error::Os(ENOENT))
    } else {
        let name = comps[0];
        if comps.len() == 1 {
            if name == dot() {
                Ok((cur, name, meta_of(fs[cur])))
            } else {
                match fs_lookup(fs, cur, name) {
                    None => Err(Error::Os(ENOENT)),
                    Some(n) => {
                        if fs[n] is Symlink && follow is Yes {
                            expand_from(fs, cur, comps, follow, count, n)
                        } else {
                            Ok((cur, name, meta_of(fs[n])))
                        }
                    },
                }
            }
        } else {
            if name == dot() {
                resolve_from(fs, cur, comps.drop_first(), follow, count)
            } else {
                match fs_lookup(fs, cur, name) {
                    None => Err(Error::Os(ENOENT)),
                    Some(n) => match fs[n] {
                        SNode::Dir { .. } => resolve_from(fs, n, comps.drop_first(), follow, count),
                        SNode::File { .. } => Err(Error::Os(ENOTDIR)),
                        SNode::Symlink { .. } => expand_from(fs, cur, comps, follow, count, n),
                    },
                }
            }
        }
    }
}

/// Dereference the symlink node `n` standing at the head of `comps`:
/// check the bound, parse the literal target, splice it in front of the
/// rest, and continue from the unchanged directory `cur`.
pub open spec fn expand_from(
    fs: Seq<SNode>,
    cur: int,
    comps: Seq<Seq<u8>>,
    follow: FollowSymlinks,
    count: nat,
    n: int,
) -> Result<(int, Seq<u8>, Metadata), Error>
    decreases MAX_SYMLINKS - count, comps.len(), 1int,
        when count <= MAX_SYMLINKS
{
    if count >= MAX_SYMLINKS {
        Err(Error::TooManySymlinks)
    } else {
        match fs[n] {
            SNode::Symlink { target, .. } => match parse_result(target) {
                Err(er) => Err(er),
                Ok(tc) => resolve_from(fs, cur, tc + comps.drop_first(), follow, (count + 1) as nat),
            },
            _ => Err(Error::Os(EINVAL)),
        }
    }
}

/// The metadata a resolution reports, without the rest of the target.
pub open spec fn spec_stat(
    fs: Seq<SNode>,
    root: int,
    path: Seq<u8>,
    follow: FollowSymlinks,
) -> Result<Metadata, Error> {
    match spec_resolve_path(fs, root, path, follow) {
        Ok((_p, _nm, m)) => Ok(m),
        Err(e) => Err(e),
    }
}

/// Resolution of a raw byte path: parse, then walk.
pub open spec fn spec_resolve_path(
    fs: Seq<SNode>,
    root: int,
    path: Seq<u8>,
    follow: FollowSymlinks,
) -> Result<(int, Seq<u8>, Metadata), Error> {
    match parse_result(path) {
        Err(e) => Err(e),
        Ok(comps) => resolve_from(fs, root, comps, follow, 0),
    }
}

impl FsModel {
    /// The node count.
    pub fn len(&self) -> (r: usize)
        ensures
            r == self@.len(),
    {
        self.nodes.len()
    }

    /// Look `name` up in the directory `dir`.
    pub fn lookup(&self, dir: usize, name: &[u8]) -> (r: Option<usize>)
        requires
            dir < self@.len(),
        ensures
            match r {
                Some(n) => fs_lookup(self@, dir as int, name@) == Some(n as int),
                None => fs_lookup(self@, dir as int, name@) is None,
            },
    {
        proof {
            assert(self@[dir as int] == node_view(self.nodes@[dir as int]));
        }
        match &self.nodes[dir] {
            Node::Dir { entries, .. } => {
                let ghost eview = entries@.map_values(|e: DirEntry| entry_view(e));
                let mut i: usize = 0;
                proof {
                    assert(eview.skip(0) =~= eview);
                    assert(self@[dir as int] == node_view(self.nodes@[dir as int]));
                    assert(fs_lookup(self@, dir as int, name@) == entries_lookup(eview, name@));
                }
                while i < entries.len()
                    invariant
                        i <= entries.len(),
                        eview == entries@.map_values(|e: DirEntry| entry_view(e)),
                        fs_lookup(self@, dir as int, name@) == entries_lookup(eview, name@),
                        entries_lookup(eview, name@) == entries_lookup(eview.skip(i as int), name@),
                    decreases entries.len() - i,
                {
                    proof {
                        assert(eview.skip(i as int)[0] == eview[i as int]);
                        assert(eview.skip(i as int).drop_first() =~= eview.skip(i as int + 1));
                        assert(eview[i as int] == entry_view(entries@[i as int]));
                    }
                    if crate::path::bytes_eq(entries[i].name.as_slice(), name) {
                        proof {
                            assert(eview[i as int] == entry_view(entries@[i as int]));
                            assert(entries_lookup(eview.skip(i as int), name@)
                                == Some(entries@[i as int].node as int));
                            assert(fs_lookup(self@, dir as int, name@)
                                == entries_lookup(eview, name@));
                        }
                        return Some(entries[i].node);
                    }
                    i += 1;
                }
                proof {
                    assert(eview.skip(i as int) =~= Seq::<(Seq<u8>, int)>::empty());
                }
                None
            },
            _ => None,
        }
    }

    /// The metadata snapshot of node `n`.
    pub fn node_meta(&self, n: usize) -> (r: Metadata)
        requires
            n < self@.len(),
        ensures
            r == meta_of(self@[n as int]),
    {
        proof {
            assert(self@[n as int] == node_view(self.nodes@[n as int]));
        }
        match &self.nodes[n] {
            Node::Dir { mode, .. } => Metadata { file_type: FileType::Directory, mode: *mode },
            Node::File { mode } => Metadata { file_type: FileType::Regular, mode: *mode },
            Node::Symlink { mode, .. } => Metadata { file_type: FileType::Symlink, mode: *mode },
        }
    }

    /// Answer one resolver action the way the model platform's primitives
    /// would: everything is handle-relative and no-follow; opening a
    /// symlink component fails with `ELOOP`, reading the target of a
    /// non-symlink fails with `EINVAL`.
    pub fn perform(&self, a: &Action) -> (e: Event)
        requires
            fs_wf(self@),
            action_dir(*a) < self@.len(),
            self@[action_dir(*a) as int] is Dir,
        ensures
            perform_post(self@, *a, e),
    {
        match a {
            Action::Open { dir, name } => {
                if crate::path::is_dot(name.as_slice()) {
                    Event::Opened(*dir)
                } else {
                    match self.lookup(*dir, name.as_slice()) {
                        None => Event::Failed(ENOENT),
                        Some(n) => {
                            proof {
                                lemma_fs_lookup_wf(self@, *dir as int, name@);
                            }
                            match &self.nodes[n] {
                                Node::Dir { .. } => Event::Opened(n),
                                Node::File { .. } => Event::Failed(ENOTDIR),
                                Node::Symlink { .. } => Event::Failed(ELOOP),
                            }
                        },
                    }
                }
            },
            Action::Stat { dir, name } => {
                if crate::path::is_dot(name.as_slice()) {
                    Event::Stated(self.node_meta(*dir))
                } else {
                    match self.lookup(*dir, name.as_slice()) {
                        None => Event::Failed(ENOENT),
                        Some(n) => {
                            proof {
                                lemma_fs_lookup_wf(self@, *dir as int, name@);
                            }
                            Event::Stated(self.node_meta(n))
                        },
                    }
                }
            },
            Action::ReadLink { dir, name } => {
                if crate::path::is_dot(name.as_slice()) {
                    Event::Failed(EINVAL)
                } else {
                    match self.lookup(*dir, name.as_slice()) {
                        None => Event::Failed(ENOENT),
                        Some(n) => {
                            proof {
                                lemma_fs_lookup_wf(self@, *dir as int, name@);
                                assert(self@[n as int] == node_view(self.nodes@[n as int]));
                            }
                            match &self.nodes[n] {
                                Node::Symlink { target, .. } => Event::LinkRead(
                                    crate::resolver::copy_bytes(target.as_slice()),
                                ),
                                _ => Event::Failed(EINVAL),
                            }
                        },
                    }
                }
            },
        }
    }
}

/// The directory token an action names.
pub open spec fn action_dir(a: Action) -> usize {
    match a {
        Action::Open { dir, .. } => dir,
        Action::Stat { dir, .. } => dir,
        Action::ReadLink { dir, .. } => dir,
    }
}

/// A successful lookup in a well-formed tree lands inside the table.
pub proof fn lemma_fs_lookup_wf(fs: Seq<SNode>, dir: int, name: Seq<u8>)
    requires
        fs_wf(fs),
        0 <= dir < fs.len(),
    ensures
        fs_lookup(fs, dir, name) matches Some(n) ==> 0 <= n < fs.len(),
{
    match fs[dir] {
        SNode::Dir { entries, .. } => {
            lemma_entries_lookup_wf(entries, name, fs.len() as int);
        },
        _ => {},
    }
}

/// What the model answers for each action: the event is a function of the
/// tree and the action.
pub open spec fn perform_post(fs: Seq<SNode>, a: Action, e: Event) -> bool {
    match a {
        Action::Open { dir, name } => {
            if name@ == dot() {
                e == Event::Opened(dir)
            } else {
                match fs_lookup(fs, dir as int, name@) {
                    None => e == Event::Failed(ENOENT),
                    Some(n) => match fs[n] {
                        SNode::Dir { .. } => e matches Event::Opened(h) && h as int == n,
                        SNode::File { .. } => e == Event::Failed(ENOTDIR),
                        SNode::Symlink { .. } => e == Event::Failed(ELOOP),
                    },
                }
            }
        },
        Action::Stat { dir, name } => {
            if name@ == dot() {
                e matches Event::Stated(m) && m == meta_of(fs[dir as int])
            } else {
                match fs_lookup(fs, dir as int, name@) {
                    None => e == Event::Failed(ENOENT),
                    Some(n) => e matches Event::Stated(m) && m == meta_of(fs[n]),
                }
            }
        },
        Action::ReadLink { dir, name } => {
            if name@ == dot() {
                e == Event::Failed(EINVAL)
            } else {
                match fs_lookup(fs, dir as int, name@) {
                    None => e == Event::Failed(ENOENT),
                    Some(n) => match fs[n] {
                        SNode::Symlink { target, .. } => e matches Event::LinkRead(t) && t@ == target,
                        _ => e == Event::Failed(EINVAL),
                    },
                }
            }
        },
    }
}


/// Loop-termination rank of a phase: walking may enter a dereference,
/// a dereference either finishes or spends one of the bounded count, and a
/// finished phase only returns.
pub open spec fn phase_rank(p: Phase) -> int {
    match p {
        Phase::Walk => 2,
        Phase::Expand { .. } => 1,
        Phase::Done { .. } => 0,
        Phase::Failed { .. } => 0,
    }
}

/// The final answer determined by a resolver state, read against the model.
pub open spec fn interp(fs: Seq<SNode>, r: Resolver) -> Result<(int, Seq<u8>, Metadata), Error> {
    match r.phase {
        Phase::Walk => resolve_from(fs, r.cur.token() as int, rem_views(r), r.follow, r.count as nat),
        Phase::Expand { .. } => match fs_lookup(fs, r.cur.token() as int, rem_views(r)[0]) {
            Some(n) => expand_from(
                fs,
                r.cur.token() as int,
                rem_views(r),
                r.follow,
                r.count as nat,
                n,
            ),
            None => Err(Error::Os(ENOENT)),
        },
        Phase::Done { parent, name, meta } => Ok((parent as int, name@, meta)),
        Phase::Failed { err } => Err(err),
    }
}

/// What the driver maintains about the machine state beyond the machine's
/// own invariant: the current token is a live directory, and in the
/// dereference phase the head component names a symlink of that directory.
pub open spec fn driver_inv(fs: Seq<SNode>, r: Resolver) -> bool {
    &&& r.cur.token() < fs.len()
    &&& fs[r.cur.token() as int] is Dir
    &&& (r.phase matches Phase::Expand { prior } ==> {
        &&& prior is None
        &&& rem_views(r)[0] != dot()
        &&& fs_lookup(fs, r.cur.token() as int, rem_views(r)[0]) matches Some(n)
            && 0 <= n < fs.len() && fs[n] is Symlink
    })
}

/// One driver step — emitted action, model answer, consumed event —
/// preserves the driver invariant and the final answer.
pub proof fn lemma_model_step(
    fs: Seq<SNode>,
    pre: Resolver,
    a: Action,
    e: Event,
    post: Resolver,
    close: Option<usize>,
)
    requires
        fs_wf(fs),
        pre.wf(),
        pre.platform == model_platform(),
        driver_inv(fs, pre),
        crate::resolver::next_post(pre, StepResult::Do(a)),
        perform_post(fs, a, e),
        crate::resolver::step_post(pre, e, post, close),
    ensures
        driver_inv(fs, post),
        interp(fs, post) == interp(fs, pre),
{
    let cur = pre.cur.token() as int;
    let rem = rem_views(pre);
    match pre.phase {
        Phase::Walk => {
            let name = rem[0];
            if rem.len() >= 2 {
                if name == dot() {
                    assert(interp(fs, post) == interp(fs, pre));
                } else {
                    match fs_lookup(fs, cur, name) {
                        None => {},
                        Some(n) => {
                            lemma_fs_lookup_wf(fs, cur, name);
                            match fs[n] {
                                SNode::Dir { .. } => {},
                                SNode::File { .. } => {},
                                SNode::Symlink { .. } => {},
                            }
                        },
                    }
                }
            } else {
                if name == dot() {
                } else {
                    match fs_lookup(fs, cur, name) {
                        None => {},
                        Some(n) => {
                            lemma_fs_lookup_wf(fs, cur, name);
                        },
                    }
                }
            }
        },
        Phase::Expand { .. } => {
            let n = fs_lookup(fs, cur, rem[0])->Some_0;
            match fs[n] {
                SNode::Symlink { target, .. } => {
                    match e {
                        Event::LinkRead(t) => {
                            assert(t@ == target);
                            match parse_result(t@) {
                                Err(er) => {},
                                Ok(tc) => {},
                            }
                        },
                        _ => {},
                    }
                },
                _ => {},
            }
        },
        _ => {},
    }
}

impl FsModel {
    /// Resolve `path` from the directory `root`, following a trailing
    /// symlink only under `FollowSymlinks::Yes`. Returns the final
    /// component's parent directory token, the component name, and its
    /// no-follow metadata snapshot — exactly what [`resolve_from`] over the
    /// mathematical model yields.
    pub fn resolve(&self, root: usize, path: &[u8], follow: FollowSymlinks)
        -> (r: Result<(usize, Vec<u8>, Metadata), Error>)
        requires
            fs_wf(self@),
            root < self@.len(),
            self@[root as int] is Dir,
        ensures
            match r {
                Ok(t) => spec_resolve_path(self@, root as int, path@, follow)
                    == Ok::<(int, Seq<u8>, Metadata), Error>((t.0 as int, t.1@, t.2)),
                Err(e) => spec_resolve_path(self@, root as int, path@, follow)
                    == Err::<(int, Seq<u8>, Metadata), Error>(e),
            },
    {
        let mut st = match Resolver::new(root, path, follow, make_model_platform()) {
            Ok(m) => m,
            Err(e) => {
                return Err(e);
            },
        };
        loop
            invariant
                st.wf(),
                fs_wf(self@),
                root < self@.len(),
                self@[root as int] is Dir,
                st.platform == model_platform(),
                driver_inv(self@, st),
                interp(self@, st) == spec_resolve_path(self@, root as int, path@, follow),
            decreases MAX_SYMLINKS - st.count, st.remaining@.len(), phase_rank(st.phase),
        {
            match st.next() {
                StepResult::Do(a) => {
                    let ghost pre = st;
                    proof {
                        match pre.phase {
                            Phase::Walk => {},
                            Phase::Expand { .. } => {},
                            _ => {
                                assert(false);
                            },
                        }
                    }
                    let ev = self.perform(&a);
                    let ghost gev = ev;
                    proof {
                        assert(pre.expects(gev));
                    }
                    let closed = st.on_event(ev);
                    proof {
                        lemma_model_step(self@, pre, a, gev, st, closed);
                    }
                },
                StepResult::Done { parent, name, meta } => {
                    return Ok((parent, name, meta));
                },
                StepResult::Fail { err } => {
                    return Err(err);
                },
            }
        }
    }
}


/// The node a successful resolution acts on: the parent itself for `.`,
/// otherwise the entry the final component names.
pub open spec fn target_node(fs: Seq<SNode>, parent: int, name: Seq<u8>) -> int {
    if name == dot() {
        parent
    } else {
        fs_lookup(fs, parent, name)->Some_0
    }
}

/// `n` with its permission bits replaced, everything else unchanged.
pub open spec fn snode_with_mode(n: SNode, mode: u32) -> SNode {
    match n {
        SNode::Dir { entries, .. } => SNode::Dir { entries, mode },
        SNode::File { .. } => SNode::File { mode },
        SNode::Symlink { target, .. } => SNode::Symlink { target, mode },
    }
}

/// What `set_permissions` does to the model: resolve following a trailing
/// symlink, then replace the resolved node's permission bits; on any
/// resolution failure the tree is untouched and the error is returned
/// verbatim.
pub open spec fn spec_set_permissions(fs: Seq<SNode>, root: int, path: Seq<u8>, mode: u32)
    -> (Result<(), Error>, Seq<SNode>) {
    match spec_resolve_path(fs, root, path, FollowSymlinks::Yes) {
        Err(e) => (Err(e), fs),
        Ok((p, nm, _m)) => {
            let t = target_node(fs, p, nm);
            (Ok(()), fs.update(t, snode_with_mode(fs[t], mode)))
        },
    }
}

/// What `set_symlink_permissions` does to the model: resolve without
/// following a trailing symlink; where the platform cannot change the
/// permissions of a symlink itself — the model platform cannot — a symlink
/// target yields `NotSupported` and the tree, in particular whatever the
/// symlink points to, is untouched.
pub open spec fn spec_set_symlink_permissions(fs: Seq<SNode>, root: int, path: Seq<u8>, mode: u32)
    -> (Result<(), Error>, Seq<SNode>) {
    match spec_resolve_path(fs, root, path, FollowSymlinks::No) {
        Err(e) => (Err(e), fs),
        Ok((p, nm, m)) => {
            if m.file_type is Symlink && !model_platform().symlink_perms_supported {
                (Err(Error::NotSupported), fs)
            } else {
                let t = target_node(fs, p, nm);
                (Ok(()), fs.update(t, snode_with_mode(fs[t], mode)))
            }
        },
    }
}

/// A successful resolution names a live target: the parent is a live
/// directory, and the final component is either `.` or a live entry of the
/// parent, whose snapshot the metadata is.
pub open spec fn target_ok(fs: Seq<SNode>, r: Result<(int, Seq<u8>, Metadata), Error>) -> bool {
    r matches Ok((p, nm, m)) ==> {
        &&& 0 <= p < fs.len()
        &&& fs[p] is Dir
        &&& (nm == dot() ==> m == meta_of(fs[p]))
        &&& (nm != dot() ==> (fs_lookup(fs, p, nm) matches Some(n)
            && 0 <= n < fs.len() && m == meta_of(fs[n])))
    }
}

/// Every successful resolution satisfies [`target_ok`].
pub proof fn lemma_resolve_ok(
    fs: Seq<SNode>,
    cur: int,
    comps: Seq<Seq<u8>>,
    follow: FollowSymlinks,
    count: nat,
)
    requires
        fs_wf(fs),
        0 <= cur < fs.len(),
        fs[cur] is Dir,
        count <= MAX_SYMLINKS,
    ensures
        target_ok(fs, resolve_from(fs, cur, comps, follow, count)),
    decreases MAX_SYMLINKS - count, comps.len(),
{
    let r = resolve_from(fs, cur, comps, follow, count);
    if comps.len() == 0 {
    } else {
        let name = comps[0];
        if comps.len() == 1 {
            if name == dot() {
                assert(r == Ok::<(int, Seq<u8>, Metadata), Error>((cur, name, meta_of(fs[cur]))));
                assert(target_ok(fs, r));
            } else {
                match fs_lookup(fs, cur, name) {
                    None => {
                        assert(target_ok(fs, r));
                    },
                    Some(n) => {
                        lemma_fs_lookup_wf(fs, cur, name);
                        if fs[n] is Symlink && follow is Yes {
                            assert(r == expand_from(fs, cur, comps, follow, count, n));
                            if count < MAX_SYMLINKS {
                                match fs[n] {
                                    SNode::Symlink { target, .. } => match parse_result(target) {
                                        Err(_) => {
                                            assert(target_ok(fs, r));
                                        },
                                        Ok(tc) => {
                                            lemma_resolve_ok(
                                                fs,
                                                cur,
                                                tc + comps.drop_first(),
                                                follow,
                                                (count + 1) as nat,
                                            );
                                            assert(target_ok(fs, r));
                                        },
                                    },
                                    _ => {
                                        assert(false);
                                    },
                                }
                            } else {
                                assert(target_ok(fs, r));
                            }
                        } else {
                            assert(r == Ok::<(int, Seq<u8>, Metadata), Error>(
                                (cur, name, meta_of(fs[n])),
                            ));
                            assert(target_ok(fs, r));
                        }
                    },
                }
            }
        } else {
            if name == dot() {
                lemma_resolve_ok(fs, cur, comps.drop_first(), follow, count);
                assert(target_ok(fs, r));
            } else {
                match fs_lookup(fs, cur, name) {
                    None => {
                        assert(target_ok(fs, r));
                    },
                    Some(n) => {
                        lemma_fs_lookup_wf(fs, cur, name);
                        match fs[n] {
                            SNode::Dir { .. } => {
                                lemma_resolve_ok(fs, n, comps.drop_first(), follow, count);
                                assert(target_ok(fs, r));
                            },
                            SNode::File { .. } => {
                                assert(target_ok(fs, r));
                            },
                            SNode::Symlink { target, .. } => {
                                assert(r == expand_from(fs, cur, comps, follow, count, n));
                                if count < MAX_SYMLINKS {
                                    match parse_result(target) {
                                        Err(_) => {
                                            assert(target_ok(fs, r));
                                        },
                                        Ok(tc) => {
                                            lemma_resolve_ok(
                                                fs,
                                                cur,
                                                tc + comps.drop_first(),
                                                follow,
                                                (count + 1) as nat,
                                            );
                                            assert(target_ok(fs, r));
                                        },
                                    }
                                } else {
                                    assert(target_ok(fs, r));
                                }
                            },
                        }
                    },
                }
            }
        }
    }
}

impl FsModel {
    /// Replace the permission bits of node `node`.
    fn set_mode(&mut self, node: usize, mode: u32)
        requires
            node < old(self)@.len(),
        ensures
            final(self)@ == old(self)@.update(
                node as int,
                snode_with_mode(old(self)@[node as int], mode),
            ),
    {
        proof {
            assert(old(self)@[node as int] == node_view(old(self).nodes@[node as int]));
        }
        let n = &mut self.nodes[node];
        match n {
            Node::Dir { mode: m, .. } => {
                *m = mode;
            },
            Node::File { mode: m } => {
                *m = mode;
            },
            Node::Symlink { mode: m, .. } => {
                *m = mode;
            },
        }
        proof {
            assert(node_view(self.nodes@[node as int])
                == snode_with_mode(old(self)@[node as int], mode));
            assert(self@ =~= old(self)@.update(
                node as int,
                snode_with_mode(old(self)@[node as int], mode),
            ));
        }
    }

    /// Find the node a successful resolution acts on.
    fn find_target(&self, p: usize, name: &[u8]) -> (t: usize)
        requires
            fs_wf(self@),
            p < self@.len(),
            name@ != dot() ==> fs_lookup(self@, p as int, name@) is Some,
        ensures
            t as int == target_node(self@, p as int, name@),
            t < self@.len(),
    {
        if crate::path::is_dot(name) {
            p
        } else {
            proof {
                lemma_fs_lookup_wf(self@, p as int, name@);
            }
            match self.lookup(p, name) {
                Some(n) => n,
                None => {
                    proof {
                        assert(false);
                    }
                    0
                },
            }
        }
    }

    /// Resolve `path` from `root` and report the target's metadata
    /// snapshot: the follow policy decides whether a trailing symlink is
    /// itself reported or dereferenced.
    pub fn stat(&self, root: usize, path: &[u8], follow: FollowSymlinks)
        -> (r: Result<Metadata, Error>)
        requires
            fs_wf(self@),
            root < self@.len(),
            self@[root as int] is Dir,
        ensures
            r == spec_stat(self@, root as int, path@, follow),
    {
        match self.resolve(root, path, follow) {
            Ok(t) => Ok(t.2),
            Err(e) => Err(e),
        }
    }

    /// Perform a `chmod`-like operation: resolve `path` from `root`,
    /// following a trailing symlink, then replace the resolved node's
    /// permission bits with `perm`. The resolution can never leave the
    /// subtree rooted at `root`; on failure nothing is changed.
    pub fn set_permissions(&mut self, root: usize, path: &[u8], perm: crate::Permissions)
        -> (r: Result<(), Error>)
        requires
            fs_wf(old(self)@),
            root < old(self)@.len(),
            old(self)@[root as int] is Dir,
        ensures
            r == spec_set_permissions(old(self)@, root as int, path@, perm.mode).0,
            final(self)@ == spec_set_permissions(old(self)@, root as int, path@, perm.mode).1,
    {
        match self.resolve(root, path, FollowSymlinks::Yes) {
            Err(e) => Err(e),
            Ok((p, name, _m)) => {
                proof {
                    match parse_result(path@) {
                        Ok(comps) => {
                            lemma_resolve_ok(self@, root as int, comps, FollowSymlinks::Yes, 0);
                        },
                        Err(_) => {
                            assert(false);
                        },
                    }
                }
                let t = self.find_target(p, name.as_slice());
                self.set_mode(t, perm.mode);
                Ok(())
            },
        }
    }

    /// Like `set_permissions`, but a trailing symlink is not followed: it
    /// would be the target itself, and the model platform has no notion of
    /// permissions on a symlink, so that case reports `NotSupported` and
    /// changes nothing — in particular the file the symlink points to keeps
    /// its permission bits.
    pub fn set_symlink_permissions(&mut self, root: usize, path: &[u8], perm: crate::Permissions)
        -> (r: Result<(), Error>)
        requires
            fs_wf(old(self)@),
            root < old(self)@.len(),
            old(self)@[root as int] is Dir,
        ensures
            r == spec_set_symlink_permissions(old(self)@, root as int, path@, perm.mode).0,
            final(self)@ == spec_set_symlink_permissions(old(self)@, root as int, path@, perm.mode).1,
    {
        match self.resolve(root, path, FollowSymlinks::No) {
            Err(e) => Err(e),
            Ok((p, name, m)) => {
                let platform = make_model_platform();
                if m.is_symlink() && !platform.symlink_perms_supported {
                    return Err(Error::NotSupported);
                }
                proof {
                    match parse_result(path@) {
                        Ok(comps) => {
                            lemma_resolve_ok(self@, root as int, comps, FollowSymlinks::No, 0);
                        },
                        Err(_) => {
                            assert(false);
                        },
                    }
                }
                let t = self.find_target(p, name.as_slice());
                self.set_mode(t, perm.mode);
                Ok(())
            },
        }
    }
}

} // verus!
