//! Inode kind derived from a Unix mode.

use vstd::prelude::*;

verus! {

/// Kind of an inode.
#[derive(Debug, Clone, Copy, PartialEq, Eq, Structural)]
pub enum InodeKind {
    /// Directory.
    Directory,
    /// Symbolic link.
    Symlink,
    /// Regular file.
    Regular,
    /// Character device.
    CharDevice,
    /// Block device.
    BlockDevice,
    /// FIFO / named pipe.
    Fifo,
    /// Unix-domain socket.
    Socket,
    /// Unrecognized file-type bits.
    Unknown,
}

impl View for InodeKind {
    type V = InodeKind;

    open spec fn view(&self) -> InodeKind {
        *self
    }
}

impl InodeKind {
    /// Block or character device.
    pub open spec fn is_device(self) -> bool {
        self == InodeKind::CharDevice || self == InodeKind::BlockDevice
    }

    /// FIFO or socket.
    pub open spec fn is_special(self) -> bool {
        self == InodeKind::Fifo || self == InodeKind::Socket
    }
}

/// The kind that the file-type bits (the fourth hexadecimal digit) of a
/// mode stand for.
pub open spec fn kind_of_mode(mode: u32) -> InodeKind {
    let bits = (mode / 0x1000) % 16;
    if bits == 4 {
        InodeKind::Directory
    } else if bits == 10 {
        InodeKind::Symlink
    } else if bits == 8 {
        InodeKind::Regular
    } else if bits == 2 {
        InodeKind::CharDevice
    } else if bits == 6 {
        InodeKind::BlockDevice
    } else if bits == 1 {
        InodeKind::Fifo
    } else if bits == 12 {
        InodeKind::Socket
    } else {
        InodeKind::Unknown
    }
}

/// Map a Unix mode bitfield (`st_mode`) to an [`InodeKind`].
pub fn mode_kind(mode: u32) -> (r: InodeKind)
    ensures
        r == kind_of_mode(mode),
{
    let bits: u32 = (mode / 0x1000) % 16;
    match bits {
        4 => InodeKind::Directory,
        10 => InodeKind::Symlink,
        8 => InodeKind::Regular,
        2 => InodeKind::CharDevice,
        6 => InodeKind::BlockDevice,
        1 => InodeKind::Fifo,
        12 => InodeKind::Socket,
        _ => InodeKind::Unknown,
    }
}

} // verus!
