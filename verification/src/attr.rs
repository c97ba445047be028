//! Attribute records, selective attribute changes and the error taxonomy.

use vstd::prelude::*;

verus! {

/// Owner id given to every node at creation.
pub const DEFAULT_OWNER: u32 = 507;

/// Permission bits of a freshly made file.
pub const FILE_MODE: u32 = 0o755;

/// Permission bits of a freshly made directory.
pub const DIR_MODE: u32 = 0o777;

/// The recoverable failures an operation can report.
#[derive(Clone, Copy, Debug, PartialEq, Eq, Structural)]
pub enum FsError {
    /// The id, or the name under a directory, does not exist.
    NotFound,
    /// The operation needs a directory and the id names a file.
    NotDirectory,
    /// The operation needs a file and the id names a directory.
    IsDirectory,
    /// The resume id is not in the directory's current child list.
    BadCookie,
    /// The operation is intentionally absent.
    NotSupported,
    /// Link creation is refused.
    ReadOnly,
}

/// The kind of a node, as its attributes report it.
#[derive(Clone, Copy, Debug, PartialEq, Eq, Structural)]
pub enum FileType {
    Regular,
    Directory,
}

/// A point in time: whole seconds and the nanoseconds within the second.
#[derive(Clone, Copy, Debug, PartialEq, Eq, Structural)]
pub struct Timestamp {
    pub seconds: u32,
    pub nseconds: u32,
}

/// The attributes stored with every node.
#[derive(Clone, Copy, Debug, PartialEq, Eq, Structural)]
pub struct Attr {
    pub ftype: FileType,
    pub mode: u32,
    pub nlink: u32,
    pub uid: u32,
    pub gid: u32,
    pub size: u64,
    pub used: u64,
    pub fileid: u64,
    pub atime: Timestamp,
    pub mtime: Timestamp,
    pub ctime: Timestamp,
}

/// What to do with one timestamp.
#[derive(Clone, Copy, Debug, PartialEq, Eq, Structural)]
pub enum SetTime {
    DontChange,
    SetToClientTime(Timestamp),
    SetToServerTime,
}

/// A selective change of attributes: each field by itself is left alone or set. Owner,
/// group, size and the access and modify times can be changed; the kind, the permission
/// mode, the link count and the change time cannot.
#[derive(Clone, Copy, Debug, PartialEq, Eq, Structural)]
pub struct SetAttr {
    pub uid: Option<u32>,
    pub gid: Option<u32>,
    pub size: Option<u64>,
    pub atime: SetTime,
    pub mtime: SetTime,
}

impl Timestamp {
    /// The epoch itself.
    pub open spec fn zero() -> Timestamp {
        Timestamp { seconds: 0, nseconds: 0 }
    }
}

impl SetTime {
    /// The timestamp that results from this change, given the stored value and the server's clock.
    pub open spec fn resolve(self, stored: Timestamp, now: Timestamp) -> Timestamp {
        match self {
            SetTime::DontChange => stored,
            SetTime::SetToClientTime(t) => t,
            SetTime::SetToServerTime => now,
        }
    }

    /// Computes `resolve`.
    pub fn apply(&self, stored: Timestamp, now: Timestamp) -> (t: Timestamp)
        ensures
            t == self.resolve(stored, now),
    {
        match self {
            SetTime::DontChange => stored,
            SetTime::SetToClientTime(t) => *t,
            SetTime::SetToServerTime => now,
        }
    }
}

impl SetAttr {
    /// The change that leaves every field alone.
    pub open spec fn unchanged() -> SetAttr {
        SetAttr { uid: None, gid: None, size: None, atime: SetTime::DontChange, mtime: SetTime::DontChange }
    }

    /// Whether the outcome of this change depends on the server's clock.
    pub open spec fn reads_clock(self) -> bool {
        self.atime is SetToServerTime || self.mtime is SetToServerTime
    }

    /// Makes the change that leaves every field alone.
    pub fn none() -> (c: SetAttr)
        ensures
            c == SetAttr::unchanged(),
    {
        SetAttr { uid: None, gid: None, size: None, atime: SetTime::DontChange, mtime: SetTime::DontChange }
    }
}

impl Attr {
    /// The attributes of a file of `size` bytes that has just been made.
    pub open spec fn of_file(id: u64, size: u64) -> Attr {
        Attr {
            ftype: FileType::Regular,
            mode: FILE_MODE,
            nlink: 1,
            uid: DEFAULT_OWNER,
            gid: DEFAULT_OWNER,
            size: size,
            used: size,
            fileid: id,
            atime: Timestamp::zero(),
            mtime: Timestamp::zero(),
            ctime: Timestamp::zero(),
        }
    }

    /// The attributes of a directory that has just been made.
    pub open spec fn of_dir(id: u64) -> Attr {
        Attr {
            ftype: FileType::Directory,
            mode: DIR_MODE,
            nlink: 1,
            uid: DEFAULT_OWNER,
            gid: DEFAULT_OWNER,
            size: 0,
            used: 0,
            fileid: id,
            atime: Timestamp::zero(),
            mtime: Timestamp::zero(),
            ctime: Timestamp::zero(),
        }
    }

    /// These attributes after the owner and timestamp fields of `change` are applied.
    /// The size is not touched here: it follows the node's bytes.
    pub open spec fn with_change(self, change: SetAttr, now: Timestamp) -> Attr {
        Attr {
            uid: match change.uid {
                Some(u) => u,
                None => self.uid,
            },
            gid: match change.gid {
                Some(g) => g,
                None => self.gid,
            },
            atime: change.atime.resolve(self.atime, now),
            mtime: change.mtime.resolve(self.mtime, now),
            ..self
        }
    }

    /// These attributes with both `size` and `used` set to `size`.
    pub open spec fn with_size(self, size: u64) -> Attr {
        Attr { size: size, used: size, ..self }
    }
}

} // verus!
