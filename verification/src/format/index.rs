//! Optional `SECTION_INDEX` parser.
//!
//! When present, the section index is the last section in the image
//! and is stored uncompressed. Its payload is an array of 64-bit
//! little-endian entries: the top 16 bits hold a section type, the
//! bottom 48 bits the offset of that section from the base of the
//! first section. The index lists itself as its final entry.

use std::borrow::Cow;

use crate::bytes::{le, read_le};
use crate::error::{Error, ErrorView, answers};
use crate::format::header::{HEADER_LEN, SectionHeader, parse_header};
use crate::format::source::{ImageSource, cow_slice, range_of, read_range};
use crate::format::types::{Compression, SectionType};
use vstd::prelude::*;

verus! {

/// One row of the section index.
#[derive(Debug, Clone, Copy, PartialEq, Eq, Structural)]
pub struct IndexEntry {
    /// Section type recorded in the index row.
    pub section_type: SectionType,
    /// Offset of that section's header from the base (first-section
    /// offset, i.e. excluding any executable or script prefix).
    pub offset_from_base: u64,
}

/// The parsed section index.
#[derive(Debug)]
pub struct SectionIndex {
    /// Entries in the order they appear in the index (sorted by
    /// offset; the last entry references the index itself).
    pub entries: Vec<IndexEntry>,
    /// File offset of the index section's own header.
    pub file_offset: u64,
}

/// What a [`SectionIndex`] says.
#[verifier::ext_equal]
pub struct IndexView {
    pub entries: Seq<IndexEntry>,
    pub file_offset: u64,
}

impl View for SectionIndex {
    type V = IndexView;

    open spec fn view(&self) -> IndexView {
        IndexView { entries: self.entries@, file_offset: self.file_offset }
    }
}

impl Clone for SectionIndex {
    fn clone(&self) -> (r: Self)
        ensures
            r@ == self@,
    {
        let entries: Vec<IndexEntry> = self.entries.clone();
        assert(entries@ =~= self.entries@);
        SectionIndex { entries, file_offset: self.file_offset }
    }
}

/// One past the largest offset an entry can hold.
const OFFSET_RANGE: u64 = 0x1_0000_0000_0000;

/// The row a raw entry stands for.
pub open spec fn entry_of(raw: nat) -> IndexEntry {
    IndexEntry {
        section_type: SectionType::of_code((raw / 0x1_0000_0000_0000) as u16),
        offset_from_base: (raw % 0x1_0000_0000_0000) as u64,
    }
}

/// The complaint about an index.
pub open spec fn index_error(reason: Seq<char>) -> ErrorView {
    ErrorView::CorruptSectionIndex { reason }
}

/// Entry `i` of a payload.
pub open spec fn payload_entry(payload: Seq<u8>, i: int) -> IndexEntry {
    entry_of(le(payload.subrange(8 * i, 8 * i + 8)))
}

/// Whether the offsets of the first `n` entries grow strictly.
pub open spec fn offsets_grow(payload: Seq<u8>, n: int) -> bool {
    forall|i: int, j: int|
        0 <= i && i + 1 == j && j < n ==> (#[trigger] payload_entry(payload, i)).offset_from_base
            < (#[trigger] payload_entry(payload, j)).offset_from_base
}

/// What decoding an index payload answers.
pub open spec fn index_entries(payload: Seq<u8>) -> Result<Seq<IndexEntry>, ErrorView> {
    let count = (payload.len() / 8) as int;
    if payload.len() % 8 != 0 {
        Err(index_error("payload length is not a multiple of 8"@))
    } else if count == 0 {
        Err(index_error("index has zero entries"@))
    } else if !offsets_grow(payload, count) {
        Err(index_error("entries not strictly sorted by offset"@))
    } else if payload_entry(payload, count - 1).section_type != SectionType::SectionIndex {
        Err(index_error("last entry is not the index itself"@))
    } else {
        Ok(Seq::new(count as nat, |i: int| payload_entry(payload, i)))
    }
}

/// What decoding the index section at `at` answers; its header was found
/// inside the image.
pub open spec fn index_at(bytes: Seq<u8>, at: int) -> Result<IndexView, ErrorView> {
    match parse_header(bytes.subrange(at, at + 64), at as u64) {
        Err(e) => Err(e),
        Ok(h) => if h.section_type != SectionType::SectionIndex {
            Err(index_error("tail offset does not point to SECTION_INDEX"@))
        } else if h.compression != Compression::Stored {
            Err(index_error("section index must be uncompressed"@))
        } else if at + 64 + h.payload_len > u64::MAX {
            Err(index_error("payload length overflows"@))
        } else if at + 64 + h.payload_len != bytes.len() {
            Err(index_error("section index must be the last section"@))
        } else {
            match range_of(bytes, (at + 64) as u64, h.payload_len) {
                Err(e) => Err(e),
                Ok(payload) => match index_entries(payload) {
                    Err(e) => Err(e),
                    Ok(entries) => Ok(IndexView { entries, file_offset: at as u64 }),
                },
            }
        }
    }
}

/// What looking for an index answers. There is none when the last eight
/// bytes do not name a section index.
#[verifier::opaque]
pub open spec fn find_index(bytes: Seq<u8>, base: u64) -> Result<Option<IndexView>, ErrorView> {
    if bytes.len() < 8 {
        Ok(None)
    } else {
        let tail = entry_of(le(bytes.skip(bytes.len() - 8)));
        let at = base + tail.offset_from_base;
        if tail.section_type != SectionType::SectionIndex {
            Ok(None)
        } else if at > u64::MAX {
            Err(index_error("tail offset overflows file size"@))
        } else if at + 64 > bytes.len() {
            Err(index_error("tail offset past end of image"@))
        } else {
            match index_at(bytes, at) {
                Err(e) => Err(e),
                Ok(index) => Ok(Some(index)),
            }
        }
    }
}

/// A decoded index is sorted by offset and ends with itself.
pub proof fn lemma_index_sorted(payload: Seq<u8>)
    ensures
        index_entries(payload) matches Ok(entries) ==> entries.len() > 0
            && entries.last().section_type == SectionType::SectionIndex && forall|i: int, j: int|
            0 <= i < j < entries.len() ==> (#[trigger] entries[i]).offset_from_base < (
            #[trigger] entries[j]).offset_from_base,
{
    if let Ok(entries) = index_entries(payload) {
        assert forall|i: int, j: int| 0 <= i < j < entries.len() implies (
        #[trigger] entries[i]).offset_from_base < (#[trigger] entries[j]).offset_from_base by {
            lemma_offsets_grow(payload, entries.len() as int, i, j);
        }
    }
}

proof fn lemma_offsets_grow(payload: Seq<u8>, n: int, i: int, j: int)
    requires
        offsets_grow(payload, n),
        0 <= i < j < n,
    ensures
        payload_entry(payload, i).offset_from_base < payload_entry(payload, j).offset_from_base,
    decreases j - i,
{
    assert(payload_entry(payload, i).offset_from_base < payload_entry(
        payload,
        i + 1,
    ).offset_from_base);
    if i + 1 < j {
        lemma_offsets_grow(payload, n, i + 1, j);
    }
}

/// The row a raw entry stands for.
fn index_entry(raw: u64) -> (r: IndexEntry)
    ensures
        r == entry_of(raw as nat),
{
    IndexEntry {
        section_type: SectionType::from_u16((raw / OFFSET_RANGE) as u16),
        offset_from_base: raw % OFFSET_RANGE,
    }
}

fn corrupt(reason: &'static str) -> (e: Error)
    ensures
        e@ == index_error(reason@),
{
    Error::CorruptSectionIndex { reason }
}

/// What an optional index says.
pub open spec fn index_view(i: Option<SectionIndex>) -> Option<IndexView> {
    match i {
        Some(index) => Some(index@),
        None => None,
    }
}

impl SectionIndex {
    /// Attempt to locate and parse the section index in `image`.
    ///
    /// Returns `Ok(None)` if no index is present (the last 64-bit
    /// value does not encode a `SECTION_INDEX` type marker). Returns
    /// `Err` only when an index *is* present but malformed.
    pub fn from_source<S: ImageSource + ?Sized>(source: &S, base_offset: u64) -> (r: Result<
        Option<Self>,
        Error,
    >)
        ensures
            answers(
                source.reliable(),
                match r {
                    Ok(i) => Ok::<Option<IndexView>, ErrorView>(index_view(i)),
                    Err(e) => Err(e@),
                },
                find_index(source.bytes(), base_offset),
            ),
    {
        proof {
            reveal(find_index);
        }
        let total: u64 = source.len();
        let ghost bytes = source.bytes();
        if total < 8 {
            return Ok(None);
        }
        let mut tail: [u8; 8] = [0u8;8];
        source.read_exact_at(&mut tail, total - 8)?;
        proof {
            assert(tail@ =~= bytes.skip(bytes.len() - 8));
            assert(tail@.subrange(0, 8) =~= tail@);
        }
        let entry: IndexEntry = index_entry(read_le(tail.as_slice(), 0, 8));
        if entry.section_type != SectionType::SectionIndex {
            return Ok(None);
        }
        let header_file_offset: u64 = match base_offset.checked_add(entry.offset_from_base) {
            Some(v) => v,
            None => {
                return Err(corrupt("tail offset overflows file size"));
            },
        };
        if header_file_offset > total || total - header_file_offset < HEADER_LEN as u64 {
            return Err(corrupt("tail offset past end of image"));
        }
        let mut header_bytes: [u8; 64] = [0u8;64];
        source.read_exact_at(&mut header_bytes, header_file_offset)?;
        let header: SectionHeader = SectionHeader::parse(
            header_bytes.as_slice(),
            header_file_offset,
        )?;
        if header.section_type != SectionType::SectionIndex {
            return Err(corrupt("tail offset does not point to SECTION_INDEX"));
        }
        if header.compression != Compression::Stored {
            return Err(corrupt("section index must be uncompressed"));
        }
        let payload_start: u64 = header_file_offset + HEADER_LEN as u64;
        let payload_end: u64 = match payload_start.checked_add(header.payload_len) {
            Some(v) => v,
            None => {
                return Err(corrupt("payload length overflows"));
            },
        };
        if payload_end != total {
            return Err(corrupt("section index must be the last section"));
        }
        let payload: Cow<'_, [u8]> = read_range(source, payload_start, header.payload_len)?;
        let index: SectionIndex = Self::parse_entries(cow_slice(&payload), header_file_offset)?;
        Ok(Some(index))
    }

    /// Decode the index payload into entries and validate their order.
    fn parse_entries(payload: &[u8], file_offset: u64) -> (r: Result<Self, Error>)
        ensures
            match r {
                Ok(i) => i.file_offset == file_offset && index_entries(payload@) == Ok::<
                    Seq<IndexEntry>,
                    ErrorView,
                >(i.entries@),
                Err(e) => index_entries(payload@) == Err::<Seq<IndexEntry>, ErrorView>(e@),
            },
    {
        if payload.len() % 8 != 0 {
            return Err(corrupt("payload length is not a multiple of 8"));
        }
        let count: usize = payload.len() / 8;
        if count == 0 {
            return Err(corrupt("index has zero entries"));
        }
        let mut entries: Vec<IndexEntry> = Vec::new();
        let mut prev_offset: Option<u64> = None;
        let mut i: usize = 0;
        while i < count
            invariant
                i <= count,
                payload.len() % 8 == 0,
                count == payload.len() / 8,
                count > 0,
                entries@.len() == i,
                forall|j: int| 0 <= j < i ==> #[trigger] entries@[j] == payload_entry(payload@, j),
                offsets_grow(payload@, i as int),
                prev_offset == (if i == 0 {
                    None::<u64>
                } else {
                    Some(payload_entry(payload@, i - 1).offset_from_base)
                }),
            decreases count - i,
        {
            let entry: IndexEntry = index_entry(read_le(payload, 8 * i, 8));
            assert(entry == payload_entry(payload@, i as int));
            if let Some(p) = prev_offset {
                if entry.offset_from_base <= p {
                    assert(!(payload_entry(payload@, i - 1).offset_from_base < payload_entry(
                        payload@,
                        i as int,
                    ).offset_from_base));
                    return Err(corrupt("entries not strictly sorted by offset"));
                }
            }
            prev_offset = Some(entry.offset_from_base);
            entries.push(entry);
            i = i + 1;
        }
        if entries[count - 1].section_type != SectionType::SectionIndex {
            return Err(corrupt("last entry is not the index itself"));
        }
        assert(entries@ =~= Seq::new(count as nat, |i: int| payload_entry(payload@, i)));
        Ok(Self { entries, file_offset })
    }

    /// Find the offset (from base) of the first section of the given
    /// type, if any.
    pub fn find(&self, kind: SectionType) -> (r: Option<u64>)
        ensures
            match r {
                Some(off) => exists|i: int|
                    #![trigger self.entries@[i]]
                    0 <= i < self.entries@.len() && self.entries@[i].section_type == kind
                        && self.entries@[i].offset_from_base == off && forall|j: int|
                        0 <= j < i ==> (#[trigger] self.entries@[j]).section_type != kind,
                None => forall|j: int|
                    0 <= j < self.entries@.len() ==> (#[trigger] self.entries@[j]).section_type
                        != kind,
            },
    {
        let mut i: usize = 0;
        while i < self.entries.len()
            invariant
                i <= self.entries@.len(),
                forall|j: int|
                    0 <= j < i ==> (#[trigger] self.entries@[j]).section_type != kind,
            decreases self.entries@.len() - i,
        {
            if self.entries[i].section_type == kind {
                return Some(self.entries[i].offset_from_base);
            }
            i = i + 1;
        }
        None
    }
}

} // verus!
