//! Where each kind of inode starts in the inode table.

use crate::error::{Error, ErrorView, viewed};
use crate::fs::chunks::{corrupt, fs_error};
use crate::fs::inode::{InodeKind, kind_of_mode, mode_kind};
use crate::metadata::model::InodeData;
use crate::text::{Text, dec};
use vstd::prelude::*;

verus! {

/// File-type partitions over the inode table.
#[derive(Debug, Clone, Copy, PartialEq, Eq, Structural)]
pub struct InodeOffsets {
    /// First directory inode (always 0).
    pub dir_offset: u32,
    /// First symlink inode.
    pub symlink_offset: u32,
    /// First regular-file inode (unique files start here).
    pub file_offset: u32,
    /// First shared-file inode (= `file_offset + num_unique_files`).
    pub shared_file_offset: u32,
    /// First device inode (= last regular file + 1).
    pub device_offset: u32,
    /// First pipe/socket inode.
    pub special_offset: u32,
    /// Total number of inodes.
    pub total: u32,
}

impl View for InodeOffsets {
    type V = InodeOffsets;

    open spec fn view(&self) -> InodeOffsets {
        *self
    }
}

/// The groups that the inode table is partitioned into.
pub enum Class {
    Directory,
    Symlink,
    Regular,
    Device,
    Special,
}

impl Class {
    pub open spec fn has(self, kind: InodeKind) -> bool {
        match self {
            Class::Directory => kind == InodeKind::Directory,
            Class::Symlink => kind == InodeKind::Symlink,
            Class::Regular => kind == InodeKind::Regular,
            Class::Device => kind.is_device(),
            Class::Special => kind.is_special(),
        }
    }
}

/// The complaint about a mode index outside the modes.
pub open spec fn mode_index_error(index: u32) -> ErrorView {
    fs_error("mode index "@ + dec(index as nat) + " out of range"@)
}

/// The mode index of the first of `inodes[i..]` that is not a mode.
pub open spec fn first_bad_mode(inodes: Seq<InodeData>, modes: Seq<u32>, i: int) -> Option<u32>
    decreases inodes.len() - i,
{
    if i >= inodes.len() {
        None
    } else if inodes[i].mode_index >= modes.len() {
        Some(inodes[i].mode_index)
    } else {
        first_bad_mode(inodes, modes, i + 1)
    }
}

/// The kind of the inode at index `i`.
pub open spec fn kind_at(inodes: Seq<InodeData>, modes: Seq<u32>, i: int) -> InodeKind {
    kind_of_mode(modes[inodes[i].mode_index as int])
}

/// The first of the first `n` inodes in a class.
pub open spec fn first_in_class(
    inodes: Seq<InodeData>,
    modes: Seq<u32>,
    class: Class,
    n: nat,
) -> Option<nat>
    decreases n,
{
    if n == 0 {
        None
    } else {
        match first_in_class(inodes, modes, class, (n - 1) as nat) {
            Some(i) => Some(i),
            None => if class.has(kind_at(inodes, modes, n - 1)) {
                Some((n - 1) as nat)
            } else {
                None
            },
        }
    }
}

/// Where a class starts: at its first inode, or past all inodes.
pub open spec fn class_start(inodes: Seq<InodeData>, modes: Seq<u32>, class: Class) -> u32 {
    match first_in_class(inodes, modes, class, inodes.len()) {
        Some(i) => i as u32,
        None => inodes.len() as u32,
    }
}

/// The partitions of an inode table whose last `shared` regular files
/// share their contents.
pub open spec fn offsets_of(inodes: Seq<InodeData>, modes: Seq<u32>, shared: nat) -> Result<
    InodeOffsets,
    ErrorView,
> {
    match first_bad_mode(inodes, modes, 0) {
        Some(index) => Err(mode_index_error(index)),
        None => {
            let files = class_start(inodes, modes, Class::Regular);
            let devices = class_start(inodes, modes, Class::Device);
            let specials = class_start(inodes, modes, Class::Special);
            let end = if devices <= specials {
                devices
            } else {
                specials
            };
            if shared > u32::MAX {
                Err(fs_error("shared_files_count "@ + dec(shared) + " exceeds u32"@))
            } else if files + shared > end {
                Err(
                    fs_error(
                        "shared_files_count "@ + dec(shared)
                            + " larger than the regular-file range"@,
                    ),
                )
            } else {
                Ok(
                    InodeOffsets {
                        dir_offset: class_start(inodes, modes, Class::Directory),
                        symlink_offset: class_start(inodes, modes, Class::Symlink),
                        file_offset: files,
                        shared_file_offset: (end - shared) as u32,
                        device_offset: devices,
                        special_offset: specials,
                        total: inodes.len() as u32,
                    },
                )
            }
        },
    }
}

proof fn lemma_first_in_class(inodes: Seq<InodeData>, modes: Seq<u32>, class: Class, n: nat)
    ensures
        match first_in_class(inodes, modes, class, n) {
            Some(i) => i < n && class.has(kind_at(inodes, modes, i as int)) && forall|j: int|
                0 <= j < i ==> !class.has(#[trigger] kind_at(inodes, modes, j)),
            None => forall|j: int|
                0 <= j < n ==> !class.has(#[trigger] kind_at(inodes, modes, j)),
        },
    decreases n,
{
    if n > 0 {
        lemma_first_in_class(inodes, modes, class, (n - 1) as nat);
    }
}

/// Every inode of a class stands at or after the start of that class.
pub proof fn lemma_class_start(inodes: Seq<InodeData>, modes: Seq<u32>, class: Class, i: int)
    requires
        0 <= i < inodes.len() <= u32::MAX,
        class.has(kind_at(inodes, modes, i)),
    ensures
        class_start(inodes, modes, class) <= i,
        class.has(kind_at(inodes, modes, class_start(inodes, modes, class) as int)),
{
    lemma_first_in_class(inodes, modes, class, inodes.len());
}

/// The partitions are in order where the table allows them to be: the
/// files that share their contents end where the first device or special
/// inode starts, and no partition starts past the last inode.
pub proof fn lemma_offsets_ordered(inodes: Seq<InodeData>, modes: Seq<u32>, shared: nat)
    requires
        inodes.len() <= u32::MAX,
        offsets_of(inodes, modes, shared) is Ok,
    ensures
        ({
            let o = offsets_of(inodes, modes, shared)->Ok_0;
            &&& o.file_offset <= o.shared_file_offset
            &&& o.shared_file_offset + shared <= o.device_offset
            &&& o.shared_file_offset + shared <= o.special_offset
            &&& o.shared_file_offset + shared == o.device_offset || o.shared_file_offset + shared
                == o.special_offset
            &&& o.dir_offset <= o.total
            &&& o.symlink_offset <= o.total
            &&& o.device_offset <= o.total
            &&& o.special_offset <= o.total
            &&& o.total == inodes.len()
        }),
{
    lemma_first_in_class(inodes, modes, Class::Directory, inodes.len());
    lemma_first_in_class(inodes, modes, Class::Symlink, inodes.len());
    lemma_first_in_class(inodes, modes, Class::Device, inodes.len());
    lemma_first_in_class(inodes, modes, Class::Special, inodes.len());
}

/// A successful partitioning has seen a mode for every inode.
pub proof fn lemma_modes_in_range(inodes: Seq<InodeData>, modes: Seq<u32>, i: int)
    requires
        first_bad_mode(inodes, modes, i) is None,
        0 <= i,
    ensures
        forall|j: int| i <= j < inodes.len() ==> (#[trigger] inodes[j]).mode_index < modes.len(),
    decreases inodes.len() - i,
{
    if i < inodes.len() {
        lemma_modes_in_range(inodes, modes, i + 1);
    }
}

proof fn lemma_no_bad_mode(inodes: Seq<InodeData>, modes: Seq<u32>, i: int)
    requires
        0 <= i,
        forall|j: int| 0 <= j < inodes.len() ==> (#[trigger] inodes[j]).mode_index < modes.len(),
    ensures
        first_bad_mode(inodes, modes, i) is None,
    decreases inodes.len() - i,
{
    if i < inodes.len() {
        assert(inodes[i].mode_index < modes.len());
        lemma_no_bad_mode(inodes, modes, i + 1);
    }
}

/// Inodes with a mode each are partitioned where the files that share
/// their contents have room between the first file and the first device or
/// special inode.
pub proof fn lemma_partitions_are_owed(inodes: Seq<InodeData>, modes: Seq<u32>, shared: nat)
    requires
        inodes.len() <= u32::MAX,
        forall|j: int| 0 <= j < inodes.len() ==> (#[trigger] inodes[j]).mode_index < modes.len(),
        class_start(inodes, modes, Class::Regular) + shared <= class_start(
            inodes,
            modes,
            Class::Device,
        ),
        class_start(inodes, modes, Class::Regular) + shared <= class_start(
            inodes,
            modes,
            Class::Special,
        ),
    ensures
        offsets_of(inodes, modes, shared) is Ok,
{
    lemma_no_bad_mode(inodes, modes, 0);
}

/// The file type of an inode, as the upper digit of its mode tells it.
pub open spec fn type_digit(inodes: Seq<InodeData>, modes: Seq<u32>, i: int) -> int {
    (modes[inodes[i].mode_index as int] / 0x1000) as int % 16
}

/// Whether `start` is the first inode of one of two types, or the number of
/// inodes where there is none.
pub open spec fn is_first_of_types(
    inodes: Seq<InodeData>,
    modes: Seq<u32>,
    start: u32,
    a: int,
    b: int,
) -> bool {
    &&& start <= inodes.len()
    &&& forall|i: int|
        0 <= i < start ==> #[trigger] type_digit(inodes, modes, i) != a && type_digit(
            inodes,
            modes,
            i,
        ) != b
    &&& start < inodes.len() ==> type_digit(inodes, modes, start as int) == a || type_digit(
        inodes,
        modes,
        start as int,
    ) == b
}

/// Each partition starts at the first inode of its type: directories are
/// type 4, symlinks 10, regular files 8, devices 2 and 6, and FIFOs and
/// sockets 1 and 12.
pub proof fn lemma_partitions_start_at_their_first(
    inodes: Seq<InodeData>,
    modes: Seq<u32>,
    shared: nat,
)
    requires
        inodes.len() <= u32::MAX,
        offsets_of(inodes, modes, shared) is Ok,
    ensures
        ({
            let o = offsets_of(inodes, modes, shared)->Ok_0;
            &&& is_first_of_types(inodes, modes, o.dir_offset, 4, 4)
            &&& is_first_of_types(inodes, modes, o.symlink_offset, 10, 10)
            &&& is_first_of_types(inodes, modes, o.file_offset, 8, 8)
            &&& is_first_of_types(inodes, modes, o.device_offset, 2, 6)
            &&& is_first_of_types(inodes, modes, o.special_offset, 1, 12)
        }),
{
    lemma_first_of_class(inodes, modes, Class::Directory, 4, 4);
    lemma_first_of_class(inodes, modes, Class::Symlink, 10, 10);
    lemma_first_of_class(inodes, modes, Class::Regular, 8, 8);
    lemma_first_of_class(inodes, modes, Class::Device, 2, 6);
    lemma_first_of_class(inodes, modes, Class::Special, 1, 12);
}

proof fn lemma_first_of_class(
    inodes: Seq<InodeData>,
    modes: Seq<u32>,
    class: Class,
    a: int,
    b: int,
)
    requires
        inodes.len() <= u32::MAX,
        forall|i: int|
            0 <= i < inodes.len() ==> (class.has(#[trigger] kind_at(inodes, modes, i)) <==> (
            type_digit(inodes, modes, i) == a || type_digit(inodes, modes, i) == b)),
    ensures
        is_first_of_types(inodes, modes, class_start(inodes, modes, class), a, b),
{
    let start = class_start(inodes, modes, class);
    lemma_first_in_class(inodes, modes, class, inodes.len());
    assert forall|i: int| 0 <= i < start implies #[trigger] type_digit(inodes, modes, i) != a
        && type_digit(inodes, modes, i) != b by {
        if class.has(kind_at(inodes, modes, i)) {
            lemma_class_start(inodes, modes, class, i);
        }
        assert(!class.has(kind_at(inodes, modes, i)));
    }
    if start < inodes.len() {
        assert(class.has(kind_at(inodes, modes, start as int)));
    }
}

spec fn found(o: Option<u32>, want: Option<nat>) -> bool {
    match o {
        Some(i) => want == Some(i as nat),
        None => want is None,
    }
}

fn start_or(o: Option<u32>, total: u32) -> (r: u32)
    ensures
        r == (match o {
            Some(i) => i,
            None => total,
        }),
{
    match o {
        Some(i) => i,
        None => total,
    }
}

/// Partition the inode table by kind. The files whose contents are
/// shared are the last `shared_files_count` regular files.
pub fn compute_offsets(inodes: &[InodeData], modes: &[u32], shared_files_count: usize) -> (r:
    Result<InodeOffsets, Error>)
    requires
        inodes@.len() <= u32::MAX,
    ensures
        viewed(r) == offsets_of(inodes@, modes@, shared_files_count as nat),
{
    let total: u32 = inodes.len() as u32;
    let mut dirs: Option<u32> = None;
    let mut symlinks: Option<u32> = None;
    let mut files: Option<u32> = None;
    let mut devices: Option<u32> = None;
    let mut specials: Option<u32> = None;
    let mut i: u32 = 0;
    while i < total
        invariant
            i <= total == inodes@.len(),
            first_bad_mode(inodes@, modes@, 0) == first_bad_mode(inodes@, modes@, i as int),
            found(dirs, first_in_class(inodes@, modes@, Class::Directory, i as nat)),
            found(symlinks, first_in_class(inodes@, modes@, Class::Symlink, i as nat)),
            found(files, first_in_class(inodes@, modes@, Class::Regular, i as nat)),
            found(devices, first_in_class(inodes@, modes@, Class::Device, i as nat)),
            found(specials, first_in_class(inodes@, modes@, Class::Special, i as nat)),
        decreases total - i,
    {
        let index: u32 = inodes[i as usize].mode_index;
        if index as usize >= modes.len() {
            return Err(corrupt(Text::of("mode index ").num(index as u64).str(" out of range")));
        }
        let kind = mode_kind(modes[index as usize]);
        match kind {
            InodeKind::Directory => {
                if dirs.is_none() {
                    dirs = Some(i);
                }
            },
            InodeKind::Symlink => {
                if symlinks.is_none() {
                    symlinks = Some(i);
                }
            },
            InodeKind::Regular => {
                if files.is_none() {
                    files = Some(i);
                }
            },
            InodeKind::CharDevice | InodeKind::BlockDevice => {
                if devices.is_none() {
                    devices = Some(i);
                }
            },
            InodeKind::Fifo | InodeKind::Socket => {
                if specials.is_none() {
                    specials = Some(i);
                }
            },
            InodeKind::Unknown => {},
        }
        i = i + 1;
    }
    proof {
        lemma_first_in_class(inodes@, modes@, Class::Regular, inodes@.len());
        lemma_first_in_class(inodes@, modes@, Class::Device, inodes@.len());
        lemma_first_in_class(inodes@, modes@, Class::Special, inodes@.len());
    }
    let file_offset: u32 = start_or(files, total);
    let device_offset: u32 = start_or(devices, total);
    let special_offset: u32 = start_or(specials, total);
    let end_of_files: u32 = if device_offset <= special_offset {
        device_offset
    } else {
        special_offset
    };
    if shared_files_count > u32::MAX as usize {
        return Err(
            corrupt(
                Text::of("shared_files_count ").num(shared_files_count as u64).str(" exceeds u32"),
            ),
        );
    }
    let shared_count: u32 = shared_files_count as u32;
    if file_offset > end_of_files || shared_count > end_of_files - file_offset {
        return Err(
            corrupt(
                Text::of("shared_files_count ").num(shared_count as u64).str(
                    " larger than the regular-file range",
                ),
            ),
        );
    }
    Ok(
        InodeOffsets {
            dir_offset: start_or(dirs, total),
            symlink_offset: start_or(symlinks, total),
            file_offset,
            shared_file_offset: end_of_files - shared_count,
            device_offset,
            special_offset,
            total,
        },
    )
}

} // verus!
