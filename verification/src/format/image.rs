//! `Image`: the top-level read-side handle for a DwarFS file.
//!
//! An `Image` owns an [`ImageSource`], records the first-section byte
//! offset, and provides cheap access to the full section list and the
//! section index when present. Integrity verification is exposed as
//! fast (XXH3-64) and deep (SHA-512/256) passes.

use std::borrow::Cow;

use crate::compression;
use crate::compression::dispatch::{decoded, decoded_front, optional_vec};
use crate::error::{Error, ErrorView, answers, viewed};
use crate::format::detect::{detect, detect_base_offset_in, detection_error, image_starts_at};
use crate::format::header::HEADER_LEN;
use crate::format::index::{IndexView, SectionIndex, find_index, index_view};
use crate::format::integrity::{
    fast_check, slow_check, verify_sha512_256, verify_xxh3, xxh3_64_of,
};
use crate::format::sections::{
    RecordView, SectionRecord, lemma_walk_records, lemma_walk_tiles, record_in, record_views, tiles,
    walk, walk_sections,
};
use crate::format::source::{
    ImageSource, WindowedSource, cow_bytes, cow_slice, out_of_bounds, range_of, read_range,
};
use crate::format::types::SectionType;
use vstd::prelude::*;

verus! {

/// What an open image knows.
#[verifier::ext_equal]
pub struct ImageView {
    /// The bytes of the source.
    pub bytes: Seq<u8>,
    /// Where the first section stands.
    pub base: u64,
    pub sections: Seq<RecordView>,
    pub index: Option<IndexView>,
}

impl ImageView {
    /// The sections and the index are those of the bytes.
    pub open spec fn consistent(self) -> bool {
        &&& self.bytes.len() <= u64::MAX
        &&& image_starts_at(self.bytes, self.base as int)
        &&& walk(self.bytes, self.base) == Ok::<Seq<RecordView>, ErrorView>(self.sections)
        &&& find_index(self.bytes, self.base) == Ok::<Option<IndexView>, ErrorView>(self.index)
    }
}

/// What opening an image answers.
pub open spec fn open_image(bytes: Seq<u8>) -> Result<ImageView, ErrorView> {
    match detect(bytes) {
        Err(e) => Err(e),
        Ok(base) => match walk(bytes, base) {
            Err(e) => Err(e),
            Ok(sections) => match find_index(bytes, base) {
                Err(e) => Err(e),
                Ok(index) => Ok(ImageView { bytes, base, sections, index }),
            },
        },
    }
}

/// Whether a complaint may end the opening of an image over a source that
/// can fail: one of detection, or one of the walk or of the index from a
/// place where an image starts.
pub open spec fn opening_error(bytes: Seq<u8>, e: ErrorView) -> bool {
    ||| e is Io
    ||| detection_error(bytes, e)
    ||| exists|base: u64| #[trigger] fails_from(bytes, base, e)
}

/// Whether an image starts at `base` and its walk or its index complains.
pub open spec fn fails_from(bytes: Seq<u8>, base: u64, e: ErrorView) -> bool {
    &&& image_starts_at(bytes, base as int)
    &&& match walk(bytes, base) {
        Err(complaint) => complaint == e,
        Ok(_) => find_index(bytes, base) == Err::<Option<IndexView>, ErrorView>(e),
    }
}

/// The first record of the given type from index `i` on.
pub open spec fn first_from(records: Seq<RecordView>, kind: SectionType, i: nat) -> Option<
    RecordView,
>
    decreases records.len() - i,
{
    if i >= records.len() {
        None
    } else if records[i as int].header.section_type == kind {
        Some(records[i as int])
    } else {
        first_from(records, kind, i + 1)
    }
}

/// The first record of the given type.
pub open spec fn first_section(records: Seq<RecordView>, kind: SectionType) -> Option<RecordView> {
    first_from(records, kind, 0)
}

/// The bytes of a section, header and payload.
pub open spec fn section_of(bytes: Seq<u8>, r: RecordView) -> Result<Seq<u8>, ErrorView> {
    range_of(bytes, r.file_offset, r.header.section_len())
}

/// What decoding a section answers. The fast hash is checked before the
/// payload is decoded.
pub open spec fn section_decoded(bytes: Seq<u8>, r: RecordView, cap: nat) -> Result<
    Seq<u8>,
    ErrorView,
> {
    match section_of(bytes, r) {
        Err(e) => Err(e),
        Ok(section) => match fast_check(r.header, section) {
            Err(e) => Err(e),
            Ok(_) => decoded(r.header.compression, section.skip(64), cap),
        },
    }
}

/// What decoding the front of a section answers.
pub open spec fn section_front(bytes: Seq<u8>, r: RecordView, needed: nat) -> Result<
    Option<Seq<u8>>,
    ErrorView,
> {
    match section_of(bytes, r) {
        Err(e) => Err(e),
        Ok(section) => match fast_check(r.header, section) {
            Err(e) => Err(e),
            Ok(_) => decoded_front(r.header.compression, section.skip(64), needed),
        },
    }
}

/// What checking one section answers.
pub open spec fn section_check(bytes: Seq<u8>, r: RecordView, deep: bool) -> Result<
    (),
    ErrorView,
> {
    match section_of(bytes, r) {
        Err(e) => Err(e),
        Ok(section) => match fast_check(r.header, section) {
            Err(e) => Err(e),
            Ok(_) => if deep {
                slow_check(r.header, section)
            } else {
                Ok(())
            },
        },
    }
}

/// What checking the records from index `i` on answers: the first failure.
pub open spec fn check_from(bytes: Seq<u8>, records: Seq<RecordView>, deep: bool, i: nat) -> Result<
    (),
    ErrorView,
>
    decreases records.len() - i,
{
    if i >= records.len() {
        Ok(())
    } else {
        match section_check(bytes, records[i as int], deep) {
            Err(e) => Err(e),
            Ok(_) => check_from(bytes, records, deep, i + 1),
        }
    }
}

/// A section whose bytes do not match their recorded hash is never
/// decoded.
pub proof fn lemma_corrupt_sections_never_decode(bytes: Seq<u8>, r: RecordView, cap: nat)
    ensures
        section_decoded(bytes, r, cap) is Ok ==> (section_of(bytes, r) matches Ok(section)
            && xxh3_64_of(section.skip(0x30)) == r.header.xxh3_64),
        section_front(bytes, r, cap) is Ok ==> (section_of(bytes, r) matches Ok(section)
            && xxh3_64_of(section.skip(0x30)) == r.header.xxh3_64),
{
}

/// A whole check succeeds exactly when every section passes.
pub proof fn lemma_check_is_for_all(bytes: Seq<u8>, records: Seq<RecordView>, deep: bool, i: nat)
    ensures
        check_from(bytes, records, deep, i) is Ok <==> forall|j: int|
            i <= j < records.len() ==> section_check(bytes, #[trigger] records[j], deep) is Ok,
    decreases records.len() - i,
{
    if i < records.len() {
        lemma_check_is_for_all(bytes, records, deep, i + 1);
        if section_check(bytes, records[i as int], deep) is Ok {
            assert forall|j: int|
                check_from(bytes, records, deep, i + 1) is Ok && i <= j
                    < records.len() implies section_check(
                bytes,
                #[trigger] records[j],
                deep,
            ) is Ok by {}
        }
    }
}

/// Every section of an opened image lies inside it, so its bytes can be
/// read where the machine can address them.
pub proof fn lemma_sections_lie_inside(v: ImageView, i: int)
    requires
        v.consistent(),
        0 <= i < v.sections.len(),
    ensures
        v.sections[i].file_offset + v.sections[i].header.section_len() <= v.bytes.len(),
        v.sections[i].header.section_len() <= usize::MAX ==> section_of(v.bytes, v.sections[i])
            == Ok::<Seq<u8>, ErrorView>(
            v.bytes.subrange(
                v.sections[i].file_offset as int,
                v.sections[i].file_offset + v.sections[i].header.section_len(),
            ),
        ),
{
    lemma_walk_records(v.bytes, v.base);
    let all = walk(v.bytes, v.base)->Ok_0;
    assert(all == v.sections);
    assert(record_in(v.bytes, all[i]));
}

/// The sections of an opened image tile it: the first stands where the
/// image starts, each next one where the one before ends, and the last one
/// ends with the bytes.
pub proof fn lemma_sections_tile_the_image(v: ImageView)
    requires
        v.consistent(),
    ensures
        v.sections.len() > 0,
        tiles(v.sections, v.base as int, v.bytes.len() as int),
{
    lemma_walk_tiles(v.bytes, v.base);
}

/// A DwarFS image opened for reading.
///
/// Construction parses every section header and the section index
/// (when present) but does not decompress any payload. All accessors
/// are O(1) or O(n) over the section list.
pub struct Image<S: ImageSource = Vec<u8>> {
    source: S,
    base_offset: u64,
    sections: Vec<SectionRecord>,
    section_index: Option<SectionIndex>,
}

impl<S: ImageSource> View for Image<S> {
    type V = ImageView;

    closed spec fn view(&self) -> ImageView {
        ImageView {
            bytes: self.source.bytes(),
            base: self.base_offset,
            sections: record_views(self.sections@),
            index: index_view(self.section_index),
        }
    }
}

impl<S: ImageSource> Image<S> {
    /// The sections and the index are those of the bytes.
    #[verifier::type_invariant]
    closed spec fn wf(&self) -> bool {
        self@.consistent()
    }

    /// Whether every read inside the source succeeds.
    pub closed spec fn reliable(&self) -> bool {
        self.source.reliable()
    }

    /// Open an image over any [`ImageSource`].
    pub fn from_source(source: S) -> (r: Result<Self, Error>)
        ensures
            r matches Ok(i) ==> i@.bytes == source.bytes() && i.reliable() == source.reliable()
                && i@.consistent(),
            source.reliable() ==> viewed(r) == open_image(source.bytes()),
            r matches Err(e) ==> opening_error(source.bytes(), e@),
    {
        Self::build(source)
    }

    fn build(source: S) -> (r: Result<Self, Error>)
        ensures
            r matches Ok(i) ==> i@.bytes == source.bytes() && i.reliable() == source.reliable()
                && i@.consistent(),
            source.reliable() ==> viewed(r) == open_image(source.bytes()),
            r matches Err(e) ==> opening_error(source.bytes(), e@),
    {
        let total: u64 = source.len();
        let base_offset: u64 = detect_base_offset_in(&source)?;
        let ghost bytes = source.bytes();
        proof {
            assert forall|e: ErrorView|
                walk(bytes, base_offset) == Err::<Seq<RecordView>, ErrorView>(e) || (walk(
                    bytes,
                    base_offset,
                ) is Ok && find_index(bytes, base_offset) == Err::<Option<IndexView>, ErrorView>(
                    e,
                )) implies opening_error(bytes, e) by {
                assert(fails_from(bytes, base_offset, e));
            }
        }
        let sections: Vec<SectionRecord> = walk_sections(&source, base_offset)?;
        let section_index: Option<SectionIndex> = SectionIndex::from_source(
            &source,
            base_offset,
        )?;
        Ok(Self { source, base_offset, sections, section_index })
    }

    /// Borrow the underlying source.
    pub fn source(&self) -> (r: &S)
        ensures
            r.bytes() == self@.bytes,
            r.reliable() == self.reliable(),
    {
        &self.source
    }

    /// Total number of bytes the image occupies.
    pub fn len(&self) -> (r: u64)
        ensures
            r == self@.bytes.len(),
    {
        self.source.len()
    }

    /// Whether the image is empty.
    pub fn is_empty(&self) -> (r: bool)
        ensures
            r == (self@.bytes.len() == 0),
    {
        self.len() == 0
    }

    /// File offset of the first section header (zero if there is no
    /// executable or script prefix).
    pub fn base_offset(&self) -> (r: u64)
        ensures
            r == self@.base,
    {
        self.base_offset
    }

    /// All section records in file order.
    pub fn sections(&self) -> (r: &[SectionRecord])
        ensures
            record_views(r@) == self@.sections,
            self@.consistent(),
    {
        proof {
            use_type_invariant(self);
        }
        self.sections.as_slice()
    }

    /// The parsed section index, if the image contains one.
    pub fn section_index(&self) -> (r: Option<&SectionIndex>)
        ensures
            match r {
                Some(i) => self@.index == Some(i@),
                None => self@.index is None,
            },
    {
        match &self.section_index {
            Some(index) => Some(index),
            None => None,
        }
    }

    /// Find the first section of the given type, if any.
    pub fn find_section(&self, kind: SectionType) -> (r: Option<&SectionRecord>)
        ensures
            match r {
                Some(s) => first_section(self@.sections, kind) == Some(s@),
                None => first_section(self@.sections, kind) is None,
            },
    {
        let mut i: usize = 0;
        while i < self.sections.len()
            invariant
                i <= self.sections@.len(),
                first_section(self@.sections, kind) == first_from(self@.sections, kind, i as nat),
            decreases self.sections@.len() - i,
        {
            if self.sections[i].header.section_type == kind {
                return Some(&self.sections[i]);
            }
            i = i + 1;
        }
        None
    }

    /// Read `len` bytes at `offset`.
    ///
    /// Borrows from the source when it is backed by contiguous memory
    /// and copies otherwise, so a caller never has to branch on which
    /// kind of source it was handed.
    pub fn read_range(&self, offset: u64, len: u64) -> (r: Result<Cow<'_, [u8]>, Error>)
        ensures
            answers(
                self.reliable(),
                match r {
                    Ok(c) => Ok::<Seq<u8>, ErrorView>(cow_bytes(c)),
                    Err(e) => Err(e@),
                },
                range_of(self@.bytes, offset, len),
            ),
    {
        read_range(&self.source, offset, len)
    }

    /// Full bytes of a section (header plus payload).
    pub fn section_bytes(&self, record: &SectionRecord) -> (r: Result<Cow<'_, [u8]>, Error>)
        ensures
            answers(
                self.reliable(),
                match r {
                    Ok(c) => Ok::<Seq<u8>, ErrorView>(cow_bytes(c)),
                    Err(e) => Err(e@),
                },
                section_of(self@.bytes, record@),
            ),
    {
        self.read_range(record.file_offset, record.section_len())
    }

    /// Payload bytes of a section (compressed if the codec is not
    /// `NONE`).
    pub fn payload_bytes(&self, record: &SectionRecord) -> (r: Result<Cow<'_, [u8]>, Error>)
        requires
            record.file_offset + 64 <= u64::MAX,
        ensures
            answers(
                self.reliable(),
                match r {
                    Ok(c) => Ok::<Seq<u8>, ErrorView>(cow_bytes(c)),
                    Err(e) => Err(e@),
                },
                range_of(
                    self@.bytes,
                    (record.file_offset + 64) as u64,
                    record.header.payload_len,
                ),
            ),
    {
        self.read_range(record.file_offset + HEADER_LEN as u64, record.header.payload_len)
    }

    /// Verify the fast XXH3-64 hash on every section.
    pub fn verify_all(&self) -> (r: Result<(), Error>)
        ensures
            answers(
                self.reliable(),
                viewed(r),
                check_from(self@.bytes, self@.sections, false, 0),
            ),
    {
        self.verify_sections(false)
    }

    /// Verify both the XXH3-64 and SHA-512/256 hash on every section.
    pub fn verify_deep(&self) -> (r: Result<(), Error>)
        ensures
            answers(
                self.reliable(),
                viewed(r),
                check_from(self@.bytes, self@.sections, true, 0),
            ),
    {
        self.verify_sections(true)
    }

    /// Check one section, optionally including the slower SHA.
    pub fn verify_section(&self, record: &SectionRecord, deep: bool) -> (r: Result<(), Error>)
        ensures
            answers(self.reliable(), viewed(r), section_check(self@.bytes, record@, deep)),
    {
        let section: Cow<'_, [u8]> = self.section_bytes(record)?;
        let bytes: &[u8] = cow_slice(&section);
        verify_xxh3(&record.header, bytes)?;
        if deep {
            verify_sha512_256(&record.header, bytes)?;
        }
        Ok(())
    }

    /// Decode at least `needed` bytes from the front of a section.
    ///
    /// Returns `None` when the codec cannot stop early. Verifies the
    /// section hash first, exactly as a full decode does, so a partial
    /// decode is no less checked than a whole one.
    pub fn decompress_section_prefix(&self, record: &SectionRecord, needed: usize) -> (r: Result<
        Option<Vec<u8>>,
        Error,
    >)
        ensures
            answers(
                self.reliable(),
                match r {
                    Ok(v) => Ok::<Option<Seq<u8>>, ErrorView>(optional_vec(v)),
                    Err(e) => Err(e@),
                },
                section_front(self@.bytes, record@, needed as nat),
            ),
            r matches Ok(Some(p)) ==> forall|cap: nat|
                needed <= cap <= usize::MAX ==> match #[trigger] section_decoded(
                    self@.bytes,
                    record@,
                    cap,
                ) {
                    Ok(all) => p@ == (if all.len() > needed {
                        all.take(needed as int)
                    } else {
                        all
                    }),
                    Err(_) => true,
                },
    {
        let section: Cow<'_, [u8]> = self.section_bytes(record)?;
        let bytes: &[u8] = cow_slice(&section);
        verify_xxh3(&record.header, bytes)?;
        let payload: &[u8] = vstd::slice::slice_subrange(bytes, HEADER_LEN, bytes.len());
        assert(payload@ =~= bytes@.skip(64));
        compression::decompress_prefix(record.header.compression, payload, needed)
    }

    /// Hash every section, optionally including the slower SHA.
    fn verify_sections(&self, deep: bool) -> (r: Result<(), Error>)
        ensures
            answers(
                self.reliable(),
                viewed(r),
                check_from(self@.bytes, self@.sections, deep, 0),
            ),
    {
        let mut i: usize = 0;
        while i < self.sections.len()
            invariant
                i <= self.sections@.len(),
                check_from(self@.bytes, self@.sections, deep, 0) == check_from(
                    self@.bytes,
                    self@.sections,
                    deep,
                    i as nat,
                ),
            decreases self.sections@.len() - i,
        {
            self.verify_section(&self.sections[i], deep)?;
            i = i + 1;
        }
        Ok(())
    }

    /// Decompress a section payload through the registered codec
    /// dispatch. `cap` is the maximum decoded size allowed; codecs
    /// signal [`Error::Decode`] when output would exceed it.
    ///
    /// The section's fast hash is checked before the payload is
    /// decoded, so corrupt bytes are never handed to a codec or
    /// returned to a caller. This hash is cheap enough to check every
    /// time a section is loaded, which is what makes verifying here
    /// rather than in an eager whole-image pass affordable.
    pub fn decompress_section(&self, record: &SectionRecord, cap: usize) -> (r: Result<
        Vec<u8>,
        Error,
    >)
        ensures
            answers(
                self.reliable(),
                viewed(r),
                section_decoded(self@.bytes, record@, cap as nat),
            ),
            r matches Ok(v) ==> v@.len() <= cap,
    {
        let section: Cow<'_, [u8]> = self.section_bytes(record)?;
        let bytes: &[u8] = cow_slice(&section);
        verify_xxh3(&record.header, bytes)?;
        let payload: &[u8] = vstd::slice::slice_subrange(bytes, HEADER_LEN, bytes.len());
        assert(payload@ =~= bytes@.skip(64));
        compression::decompress(record.header.compression, payload, cap)
    }
}

impl<S: ImageSource> Image<WindowedSource<S>> {
    /// Open an image occupying `len` bytes at `offset` of `source`.
    ///
    /// Bytes outside the window are never read, so this is how an image
    /// embedded in a larger file is opened. Section offsets reported by
    /// the resulting image are relative to the window, not to the
    /// underlying file.
    pub fn from_window(source: S, offset: u64, len: u64) -> (r: Result<Self, Error>)
        ensures
            offset + len > source.bytes().len() ==> viewed(r) == Err::<ImageView, ErrorView>(
                out_of_bounds(offset, len, source.bytes().len() as u64),
            ),
            r matches Ok(i) ==> offset + len <= source.bytes().len() && i@.bytes
                == source.bytes().subrange(offset as int, offset + len) && i.reliable()
                == source.reliable() && i@.consistent(),
            offset + len <= source.bytes().len() && source.reliable() ==> viewed(r) == open_image(
                source.bytes().subrange(offset as int, offset + len),
            ),
            offset + len <= source.bytes().len() ==> (r matches Err(e) ==> opening_error(
                source.bytes().subrange(offset as int, offset + len),
                e@,
            )),
    {
        let window: WindowedSource<S> = WindowedSource::new(source, offset, len)?;
        Self::from_source(window)
    }
}

impl Image<Vec<u8>> {
    /// Open an image whose bytes are already in memory.
    pub fn from_vec(bytes: Vec<u8>) -> (r: Result<Self, Error>)
        ensures
            viewed(r) == open_image(bytes@),
            r matches Ok(i) ==> i.reliable() && i@.consistent(),
    {
        Self::from_source(bytes)
    }
}

} // verus!
