//! Value types shared by the resolver, the mutation entry points and the
//! consistency checker: file metadata snapshots, the follow policy for the
//! final path component, the error taxonomy, and the platform capability
//! description.

use vstd::prelude::*;

verus! {

/// OS error code: no such file or directory.
pub const ENOENT: i32 = 2;

/// OS error code: permission denied. This is also the verbatim value with
/// which a resolution that would leave the subtree rooted at the start
/// handle — an absolute path or target, or a parent-directory component —
/// is rejected: the caller sees the ordinary OS error surface.
pub const EACCES: i32 = 13;

/// OS error code: not a directory.
pub const ENOTDIR: i32 = 20;

/// OS error code: invalid argument, as reported by a read-target call on a
/// non-symlink.
pub const EINVAL: i32 = 22;

/// OS error code: too many levels of symbolic links, as reported by a
/// relative open that refused to enter a symlink component.
pub const ELOOP: i32 = 40;

/// The file type recorded in a metadata snapshot.
#[derive(Clone, Copy, Debug, PartialEq, Eq, Structural)]
pub enum FileType {
    Directory,
    Regular,
    Symlink,
}

/// Immutable snapshot of a file's type and permission bits at one instant;
/// used only for comparison, never as a cached authorization.
#[derive(Clone, Copy, Debug, PartialEq, Eq, Structural)]
pub struct Metadata {
    pub file_type: FileType,
    pub mode: u32,
}

impl Metadata {
    pub fn is_symlink(&self) -> (r: bool)
        ensures
            r == (self.file_type == FileType::Symlink),
    {
        match self.file_type {
            FileType::Symlink => true,
            _ => false,
        }
    }
}

/// Platform-neutral permission bits, cloned before being handed to an
/// unsandboxed primitive so a pristine copy survives for comparison.
#[derive(Clone, Copy, Debug, PartialEq, Eq, Structural)]
pub struct Permissions {
    pub mode: u32,
}

impl Permissions {
    /// Wrap raw permission bits.
    pub fn from_mode(mode: u32) -> (r: Permissions)
        ensures
            r.mode == mode,
    {
        Permissions { mode }
    }
}

/// Whether the final path component, if it is a symlink, is dereferenced.
/// Every non-final component is always dereferenced.
#[derive(Clone, Copy, Debug, PartialEq, Eq, Structural)]
pub enum FollowSymlinks {
    Yes,
    No,
}

/// A structured operation failure: either a verbatim OS error code, or one
/// of the sandbox-specific kinds.
#[derive(Clone, Copy, Debug, PartialEq, Eq, Structural)]
pub enum Error {
    /// A verbatim OS error code, propagated unchanged. A resolution that
    /// would leave the subtree rooted at the start handle is rejected with
    /// the permission-denied value [`EACCES`].
    Os(i32),
    /// The symlink dereference counter exceeded the platform bound.
    TooManySymlinks,
    /// The platform has no notion of permissions on a symlink itself.
    NotSupported,
}

/// How the host platform reports symlinks, and its dereference bound.
///
/// Divergent primitives are reconciled here: some platforms mark symlinks
/// with a type bit in stat results, others only report a distinctive error
/// when a read-target call is attempted on a non-symlink.
#[derive(Clone, Copy, Debug, PartialEq, Eq, Structural)]
pub struct Platform {
    /// Maximum number of symlink dereferences in one resolution.
    pub max_symlinks: u32,
    /// Whether no-follow stat results carry a trustworthy symlink type bit.
    /// When false, the resolver probes with a read-target call instead.
    pub symlink_type_known: bool,
    /// Error code returned by a relative open that refused to enter a
    /// symlink component.
    pub symlink_open_errno: i32,
    /// Error code returned by a read-target call on a non-symlink; the
    /// resolver reinterprets it as "stop, not a symlink".
    pub not_symlink_errno: i32,
    /// Whether the platform can change permissions of a symlink itself.
    pub symlink_perms_supported: bool,
}

} // verus!
