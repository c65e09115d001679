//! The path-resolution state machine.
//!
//! The resolver walks path components one at a time against successive
//! directory handles. It never performs an OS call itself: it emits one
//! handle-relative action at a time (`Open` a leading component, `Stat` the
//! final component without following, `ReadLink` a symlink) and consumes the
//! outcome as an [`Event`]. The host that owns the real handles runs the
//! loop; every decision — which component to touch next, when a symlink is
//! dereferenced, when the dereference bound is exhausted, when an error code
//! is reinterpreted — is made here.
//!
//! Handles are identified by opaque tokens chosen by the host. The machine
//! only ever asks for actions relative to the token it currently holds,
//! which is either the caller's start token or a token the host itself
//! returned for an earlier `Open`; it never names a path of more than one
//! component, never an absolute one, and never a parent-directory component.
//! That is the containment guarantee: escape would require the host's
//! single-component, handle-relative primitives themselves to escape.

use vstd::prelude::*;
use crate::path::{comps_view, dot, parse_path, parse_result, valid_comp};
use crate::types::{Error, FollowSymlinks, Metadata, Platform};

verus! {

/// A directory handle token: either the caller's borrowed start handle or
/// one the resolver owns because the host opened it on the resolver's
/// behalf. Ownership transfers at most once, at the first `Open`; after
/// that the owned slot is replaced, never duplicated.
#[derive(Clone, Copy, Debug, PartialEq, Eq, Structural)]
pub enum MaybeOwnedHandle {
    Borrowed(usize),
    Owned(usize),
}

impl MaybeOwnedHandle {
    /// The token, whether borrowed or owned.
    pub open spec fn token(self) -> usize {
        match self {
            MaybeOwnedHandle::Borrowed(t) => t,
            MaybeOwnedHandle::Owned(t) => t,
        }
    }

    /// The uniform accessor for the underlying token.
    pub fn get(&self) -> (r: usize)
        ensures
            r == self.token(),
    {
        match self {
            MaybeOwnedHandle::Borrowed(t) => *t,
            MaybeOwnedHandle::Owned(t) => *t,
        }
    }
}

/// One handle-relative OS action requested from the host. `name` is always
/// a single valid component: non-empty, separator-free, never `..`.
#[derive(Debug)]
pub enum Action {
    /// Open directory `name` inside the directory `dir`, without following
    /// a symlink component.
    Open { dir: usize, name: Vec<u8> },
    /// Stat `name` inside the directory `dir`, without following.
    Stat { dir: usize, name: Vec<u8> },
    /// Read the literal target of the symlink `name` inside `dir`.
    ReadLink { dir: usize, name: Vec<u8> },
}

/// The host's answer to the pending [`Action`].
#[derive(Debug)]
pub enum Event {
    /// `Open` succeeded; the new directory's token.
    Opened(usize),
    /// `Stat` succeeded.
    Stated(Metadata),
    /// `ReadLink` succeeded; the literal target bytes.
    LinkRead(Vec<u8>),
    /// The action failed with this OS error code.
    Failed(i32),
}

/// What the resolver wants next: an action to perform, a resolved target,
/// or a failure.
#[derive(Debug)]
pub enum StepResult {
    /// Perform this action and report the outcome via `on_event`.
    Do(Action),
    /// Resolution finished: the final component `name` of directory
    /// `parent`, with its no-follow metadata snapshot.
    Done { parent: usize, name: Vec<u8>, meta: Metadata },
    /// Resolution failed.
    Fail { err: Error },
}

/// The resolver's internal phase.
#[derive(Debug)]
pub enum Phase {
    /// Walking components: open the next leading component, or stat the
    /// final one.
    Walk,
    /// The head component is (or may be) a symlink: dereference it.
    /// `prior` carries the already-obtained metadata snapshot on platforms
    /// whose stat results cannot mark symlinks, where a failed read-target
    /// probe with the distinctive error code means "not a symlink after
    /// all".
    Expand { prior: Option<Metadata> },
    /// Resolution finished.
    Done { parent: usize, name: Vec<u8>, meta: Metadata },
    /// Resolution failed.
    Failed { err: Error },
}

/// The resolution state machine: the unresolved suffix of the path plus a
/// monotonically increasing symlink-dereference counter, the current
/// directory handle token, and the follow policy for the final component.
pub struct Resolver {
    pub platform: Platform,
    pub follow: FollowSymlinks,
    pub root: usize,
    pub cur: MaybeOwnedHandle,
    pub remaining: Vec<Vec<u8>>,
    pub count: u32,
    pub phase: Phase,
}

/// The views of the unresolved components.
pub open spec fn rem_views(r: Resolver) -> Seq<Seq<u8>> {
    comps_view(r.remaining@)
}

/// Fields a step never changes.
pub open spec fn same_config(pre: Resolver, post: Resolver) -> bool {
    &&& post.platform == pre.platform
    &&& post.follow == pre.follow
    &&& post.root == pre.root
}

/// The phase records a finished resolution of `name` in `parent` with
/// snapshot `m`.
pub open spec fn done_phase(post: Resolver, parent: usize, name: Seq<u8>, m: Metadata) -> bool {
    match post.phase {
        Phase::Done { parent: p, name: n, meta: mm } => p == parent && n@ == name && mm == m,
        _ => false,
    }
}

impl Resolver {
    /// Machine invariant: the counter never exceeds the platform bound, and
    /// every unresolved component is a single relative name; while
    /// resolution is unfinished at least one component remains.
    pub open spec fn wf(self) -> bool {
        &&& self.count <= self.platform.max_symlinks
        &&& forall|i: int| 0 <= i < self.remaining@.len()
                ==> valid_comp(#[trigger] self.remaining@[i]@)
        &&& (self.phase is Walk || self.phase is Expand) ==> self.remaining@.len() >= 1
    }

    /// Which events answer the pending action.
    pub open spec fn expects(self, e: Event) -> bool {
        match self.phase {
            Phase::Walk => if rem_views(self).len() >= 2 {
                e is Opened || e is Failed
            } else {
                e is Stated || e is Failed
            },
            Phase::Expand { .. } =>
                self.count < self.platform.max_symlinks && (e is LinkRead || e is Failed),
            _ => false,
        }
    }

    /// Begin a resolution of `path` from the start handle `root`.
    ///
    /// Rejects exactly what parsing rejects: an empty path, an absolute
    /// path and any parent-directory component, so a resolution that would
    /// leave the subtree fails before a single OS action is requested.
    pub fn new(root: usize, path: &[u8], follow: FollowSymlinks, platform: Platform)
        -> (r: Result<Resolver, Error>)
        ensures
            match r {
                Ok(m) => {
                    &&& parse_result(path@) matches Ok(comps) && rem_views(m) == comps
                    &&& m.wf()
                    &&& m.platform == platform
                    &&& m.follow == follow
                    &&& m.root == root
                    &&& m.cur == MaybeOwnedHandle::Borrowed(root)
                    &&& m.count == 0
                    &&& m.phase is Walk
                },
                Err(e) => parse_result(path@) == Err::<Seq<Seq<u8>>, Error>(e),
            },
    {
        let comps = match parse_path(path) {
            Ok(v) => v,
            Err(e) => {
                return Err(e);
            },
        };
        proof {
            crate::path::lemma_split_from_nonempty(path@, Seq::empty());
        }
        Ok(Resolver {
            platform,
            follow,
            root,
            cur: MaybeOwnedHandle::Borrowed(root),
            remaining: comps,
            count: 0,
            phase: Phase::Walk,
        })
    }

    /// What to do now. Pure in the state: an action for the host, the
    /// resolved target, or the failure. A dereference requested when the
    /// counter has reached the platform bound fails here, before any
    /// read-target call is made.
    pub fn next(&self) -> (r: StepResult)
        requires
            self.wf(),
        ensures
            next_post(*self, r),
    {
        match &self.phase {
            Phase::Walk => {
                if self.remaining.len() >= 2 {
                    StepResult::Do(Action::Open {
                        dir: self.cur.get(),
                        name: copy_bytes(self.remaining[0].as_slice()),
                    })
                } else {
                    StepResult::Do(Action::Stat {
                        dir: self.cur.get(),
                        name: copy_bytes(self.remaining[0].as_slice()),
                    })
                }
            },
            Phase::Expand { .. } => {
                if self.count >= self.platform.max_symlinks {
                    StepResult::Fail { err: Error::TooManySymlinks }
                } else {
                    StepResult::Do(Action::ReadLink {
                        dir: self.cur.get(),
                        name: copy_bytes(self.remaining[0].as_slice()),
                    })
                }
            },
            Phase::Done { parent, name, meta } => StepResult::Done {
                parent: *parent,
                name: copy_bytes(name.as_slice()),
                meta: *meta,
            },
            Phase::Failed { err } => StepResult::Fail { err: *err },
        }
    }

    /// Consume the host's answer to the pending action and advance.
    ///
    /// Returns the token of a handle the resolver owned and has now
    /// replaced; the host must close it. At most one owned handle exists at
    /// a time, and the borrowed start handle is never returned for closing.
    pub fn on_event(&mut self, e: Event) -> (close: Option<usize>)
        requires
            old(self).wf(),
            old(self).expects(e),
        ensures
            final(self).wf(),
            step_post(*old(self), e, *final(self), close),
    {
        let walk = match &self.phase {
            Phase::Walk => true,
            _ => false,
        };
        if walk {
            if self.remaining.len() >= 2 {
                match e {
                    Event::Opened(h) => {
                        let closing = match self.cur {
                            MaybeOwnedHandle::Owned(t) => Some(t),
                            MaybeOwnedHandle::Borrowed(_) => None,
                        };
                        self.cur = MaybeOwnedHandle::Owned(h);
                        self.remaining.remove(0);
                        proof {
                            assert(rem_views(*self) =~= rem_views(*old(self)).drop_first());
                            assert forall|i: int| 0 <= i < self.remaining@.len()
                                implies valid_comp(#[trigger] self.remaining@[i]@) by {
                                assert(self.remaining@[i] == old(self).remaining@[i + 1]);
                            }
                        }
                        closing
                    },
                    Event::Failed(errno) => {
                        if errno == self.platform.symlink_open_errno {
                            self.phase = Phase::Expand { prior: None };
                        } else {
                            self.phase = Phase::Failed { err: Error::Os(errno) };
                        }
                        None
                    },
                    _ => {
                        proof {
                            assert(false);
                        }
                        None
                    },
                }
            } else {
                match e {
                    Event::Stated(m) => {
                        let name_is_dot = crate::path::is_dot(self.remaining[0].as_slice());
                        let to_done = if self.platform.symlink_type_known {
                            !(m.is_symlink() && matches!(self.follow, FollowSymlinks::Yes))
                        } else {
                            matches!(self.follow, FollowSymlinks::No) || name_is_dot
                        };
                        if to_done {
                            self.phase = Phase::Done {
                                parent: self.cur.get(),
                                name: copy_bytes(self.remaining[0].as_slice()),
                                meta: m,
                            };
                        } else if self.platform.symlink_type_known {
                            self.phase = Phase::Expand { prior: None };
                        } else {
                            self.phase = Phase::Expand { prior: Some(m) };
                        }
                        None
                    },
                    Event::Failed(errno) => {
                        self.phase = Phase::Failed { err: Error::Os(errno) };
                        None
                    },
                    _ => {
                        proof {
                            assert(false);
                        }
                        None
                    },
                }
            }
        } else {
            let prior = match &self.phase {
                Phase::Expand { prior } => *prior,
                _ => {
                    proof {
                        assert(false);
                    }
                    None
                },
            };
            match e {
                Event::LinkRead(t) => {
                    match parse_path(t.as_slice()) {
                        Ok(mut tc) => {
                            let ghost tc0 = tc@;
                            let ghost rem0 = self.remaining@;
                            self.remaining.remove(0);
                            tc.append(&mut self.remaining);
                            self.remaining = tc;
                            self.count = self.count + 1;
                            self.phase = Phase::Walk;
                            proof {
                                assert(self.remaining@ == tc0 + rem0.remove(0));
                                assert(rem0.remove(0) =~= rem0.drop_first());
                                assert(comps_view(self.remaining@)
                                    =~= comps_view(tc0) + comps_view(rem0).drop_first());
                                crate::path::lemma_split_from_nonempty(t@, Seq::empty());
                                assert(tc0.len() >= 1);
                                assert forall|i: int| 0 <= i < self.remaining@.len()
                                    implies valid_comp(#[trigger] self.remaining@[i]@) by {
                                    if i < tc0.len() {
                                        assert(self.remaining@[i] == tc0[i]);
                                    } else {
                                        assert(self.remaining@[i]
                                            == rem0[i - tc0.len() + 1]);
                                    }
                                }
                            }
                            None
                        },
                        Err(er) => {
                            self.phase = Phase::Failed { err: er };
                            None
                        },
                    }
                },
                Event::Failed(errno) => {
                    let mut handled = false;
                    if let Some(m) = prior {
                        if errno == self.platform.not_symlink_errno {
                            self.phase = Phase::Done {
                                parent: self.cur.get(),
                                name: copy_bytes(self.remaining[0].as_slice()),
                                meta: m,
                            };
                            handled = true;
                        }
                    }
                    if !handled {
                        self.phase = Phase::Failed { err: Error::Os(errno) };
                    }
                    None
                },
                _ => {
                    proof {
                        assert(false);
                    }
                    None
                },
            }
        }
    }
}

/// What `next` returns, as a function of the state.
pub open spec fn next_post(pre: Resolver, r: StepResult) -> bool {
    match pre.phase {
        Phase::Walk => if rem_views(pre).len() >= 2 {
            r matches StepResult::Do(Action::Open { dir, name })
                && dir == pre.cur.token() && name@ == rem_views(pre)[0]
        } else {
            r matches StepResult::Do(Action::Stat { dir, name })
                && dir == pre.cur.token() && name@ == rem_views(pre)[0]
        },
        Phase::Expand { .. } => if pre.count >= pre.platform.max_symlinks {
            r matches StepResult::Fail { err } && err == Error::TooManySymlinks
        } else {
            r matches StepResult::Do(Action::ReadLink { dir, name })
                && dir == pre.cur.token() && name@ == rem_views(pre)[0]
        },
        Phase::Done { parent, name, meta } =>
            r matches StepResult::Done { parent: p, name: n, meta: m }
                && p == parent && n@ == name@ && m == meta,
        Phase::Failed { err } => r matches StepResult::Fail { err: e2 } && e2 == err,
    }
}

/// The transition relation of `on_event`: given the pre-state and the
/// event, it pins down the post-state and the handle to close.
pub open spec fn step_post(pre: Resolver, e: Event, post: Resolver, close: Option<usize>) -> bool {
    &&& same_config(pre, post)
    &&& match pre.phase {
        Phase::Walk => if rem_views(pre).len() >= 2 {
            match e {
                Event::Opened(h) => {
                    &&& post.cur == MaybeOwnedHandle::Owned(h)
                    &&& rem_views(post) == rem_views(pre).drop_first()
                    &&& post.count == pre.count
                    &&& post.phase is Walk
                    &&& close == (if pre.cur is Owned {
                        Some(pre.cur.token())
                    } else {
                        None::<usize>
                    })
                },
                Event::Failed(errno) => {
                    &&& post.cur == pre.cur
                    &&& rem_views(post) == rem_views(pre)
                    &&& post.count == pre.count
                    &&& close is None
                    &&& if errno == pre.platform.symlink_open_errno {
                        post.phase == (Phase::Expand { prior: None })
                    } else {
                        post.phase == (Phase::Failed { err: Error::Os(errno) })
                    }
                },
                _ => false,
            }
        } else {
            match e {
                Event::Stated(m) => {
                    &&& post.cur == pre.cur
                    &&& rem_views(post) == rem_views(pre)
                    &&& post.count == pre.count
                    &&& close is None
                    &&& {
                        let name = rem_views(pre)[0];
                        if pre.platform.symlink_type_known {
                            if m.file_type is Symlink && pre.follow is Yes {
                                post.phase == (Phase::Expand { prior: None })
                            } else {
                                done_phase(post, pre.cur.token(), name, m)
                            }
                        } else {
                            if pre.follow is No || name == dot() {
                                done_phase(post, pre.cur.token(), name, m)
                            } else {
                                post.phase == (Phase::Expand { prior: Some(m) })
                            }
                        }
                    }
                },
                Event::Failed(errno) => {
                    &&& post.cur == pre.cur
                    &&& rem_views(post) == rem_views(pre)
                    &&& post.count == pre.count
                    &&& close is None
                    &&& post.phase == (Phase::Failed { err: Error::Os(errno) })
                },
                _ => false,
            }
        },
        Phase::Expand { prior } => match e {
            Event::LinkRead(t) => {
                &&& post.cur == pre.cur
                &&& close is None
                &&& match parse_result(t@) {
                    Ok(tc) => {
                        &&& post.phase is Walk
                        &&& post.count == pre.count + 1
                        &&& rem_views(post) == tc + rem_views(pre).drop_first()
                    },
                    Err(er) => {
                        &&& post.phase == (Phase::Failed { err: er })
                        &&& post.count == pre.count
                        &&& rem_views(post) == rem_views(pre)
                    },
                }
            },
            Event::Failed(errno) => {
                &&& post.cur == pre.cur
                &&& post.count == pre.count
                &&& rem_views(post) == rem_views(pre)
                &&& close is None
                &&& match prior {
                    Some(m) => if errno == pre.platform.not_symlink_errno {
                        done_phase(post, pre.cur.token(), rem_views(pre)[0], m)
                    } else {
                        post.phase == (Phase::Failed { err: Error::Os(errno) })
                    },
                    None => post.phase == (Phase::Failed { err: Error::Os(errno) }),
                }
            },
            _ => false,
        },
        _ => false,
    }
}

/// Copy a byte string.
pub fn copy_bytes(v: &[u8]) -> (r: Vec<u8>)
    ensures
        r@ == v@,
{
    let mut r: Vec<u8> = Vec::new();
    let mut i: usize = 0;
    proof {
        assert(r@ =~= v@.take(0));
    }
    while i < v.len()
        invariant
            i <= v.len(),
            r@ == v@.take(i as int),
        decreases v.len() - i,
    {
        let b = v[i];
        r.push(b);
        proof {
            assert(r@ =~= v@.take(i as int + 1));
        }
        i += 1;
    }
    proof {
        assert(r@ =~= v@);
    }
    r
}

} // verus!
