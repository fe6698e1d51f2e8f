//! Inode kinds.

use rdwarfs::fs::inode::{InodeKind, mode_kind};
#[test]
fn classifies_common_modes() {
    assert_eq!(mode_kind(0o040755), InodeKind::Directory);
    assert_eq!(mode_kind(0o100644), InodeKind::Regular);
    assert_eq!(mode_kind(0o120777), InodeKind::Symlink);
    assert_eq!(mode_kind(0o020000), InodeKind::CharDevice);
    assert_eq!(mode_kind(0o060000), InodeKind::BlockDevice);
    assert_eq!(mode_kind(0o010000), InodeKind::Fifo);
    assert_eq!(mode_kind(0o140000), InodeKind::Socket);
    assert_eq!(mode_kind(0), InodeKind::Unknown);
}
