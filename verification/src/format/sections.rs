//! Length-driven section walk.
//!
//! Given bytes positioned at a known first-section offset, walk forward
//! by `HEADER_LEN + payload_len` until the input is exhausted.

use crate::error::{Error, ErrorView, answers, viewed};
use crate::format::header::{HEADER_LEN, HeaderView, SectionHeader, parse_header};
use crate::format::source::ImageSource;
use vstd::prelude::*;

verus! {

/// A section found in an image.
#[verifier::ext_equal]
pub struct SectionView {
    /// Where its header stands.
    pub file_offset: u64,
    pub header: HeaderView,
    /// Header and payload.
    pub bytes: Seq<u8>,
}

/// A located header.
#[verifier::ext_equal]
pub struct RecordView {
    pub file_offset: u64,
    pub header: HeaderView,
}

/// The section whose header stands at `at`.
pub open spec fn section_at(bytes: Seq<u8>, at: nat) -> Result<SectionView, ErrorView> {
    if at + 64 > bytes.len() {
        Err(ErrorView::TruncatedHeader { offset: at as u64 })
    } else {
        match parse_header(bytes.subrange(at as int, (at + 64) as int), at as u64) {
            Err(e) => Err(e),
            Ok(header) => if at + header.section_len() > bytes.len() {
                Err(ErrorView::TruncatedSection { number: header.number, offset: at as u64 })
            } else {
                Ok(
                    SectionView {
                        file_offset: at as u64,
                        header,
                        bytes: bytes.subrange(at as int, at + header.section_len()),
                    },
                )
            },
        }
    }
}

/// All headers from `at` to the end of the image, after `acc`.
pub open spec fn walk_from(bytes: Seq<u8>, at: nat, acc: Seq<RecordView>) -> Result<
    Seq<RecordView>,
    ErrorView,
>
    decreases bytes.len() - at,
{
    if at >= bytes.len() {
        Ok(acc)
    } else {
        match section_at(bytes, at) {
            Err(e) => Err(e),
            Ok(section) => walk_from(
                bytes,
                at + section.header.section_len() as nat,
                acc.push(
                    RecordView { file_offset: section.file_offset, header: section.header },
                ),
            ),
        }
    }
}

/// All headers of an image whose first section stands at `base`.
#[verifier::opaque]
pub open spec fn walk(bytes: Seq<u8>, base: u64) -> Result<Seq<RecordView>, ErrorView> {
    walk_from(bytes, base as nat, Seq::empty())
}

/// Whether a record describes a section inside the image, as its own
/// bytes say.
pub open spec fn record_in(bytes: Seq<u8>, r: RecordView) -> bool {
    section_at(bytes, r.file_offset as nat) matches Ok(s) && s.header == r.header
}

proof fn lemma_walk_from_records(bytes: Seq<u8>, at: nat, acc: Seq<RecordView>)
    requires
        bytes.len() <= u64::MAX,
        forall|i: int| 0 <= i < acc.len() ==> record_in(bytes, #[trigger] acc[i]),
    ensures
        walk_from(bytes, at, acc) matches Ok(all) ==> forall|i: int|
            0 <= i < all.len() ==> record_in(bytes, #[trigger] all[i]),
    decreases bytes.len() - at,
{
    if at < bytes.len() {
        if let Ok(section) = section_at(bytes, at) {
            let r = RecordView { file_offset: section.file_offset, header: section.header };
            lemma_walk_from_records(
                bytes,
                at + section.header.section_len() as nat,
                acc.push(r),
            );
        }
    }
}

/// Every record of a walk describes a section inside the image.
pub proof fn lemma_walk_records(bytes: Seq<u8>, base: u64)
    requires
        bytes.len() <= u64::MAX,
    ensures
        walk(bytes, base) matches Ok(all) ==> forall|i: int|
            0 <= i < all.len() ==> record_in(bytes, #[trigger] all[i]),
{
    reveal(walk);
    lemma_walk_from_records(bytes, base as nat, Seq::empty());
}

/// A single section located in an in-memory image, borrowing from
/// that buffer.
#[derive(Debug, Clone, Copy)]
pub struct SectionRef<'a> {
    /// Byte offset of the section header within the original file
    /// (including any executable or script prefix).
    pub file_offset: u64,
    /// Parsed section header.
    pub header: SectionHeader,
    /// The full section bytes, header and payload.
    pub bytes: &'a [u8],
}

impl<'a> View for SectionRef<'a> {
    type V = SectionView;

    open spec fn view(&self) -> SectionView {
        SectionView {
            file_offset: self.file_offset,
            header: self.header@,
            bytes: self.bytes@,
        }
    }
}

impl<'a> SectionRef<'a> {
    /// Payload bytes only.
    pub fn payload(&self) -> (r: &'a [u8])
        requires
            self.bytes@.len() >= 64,
        ensures
            r@ == self.bytes@.skip(64),
    {
        let r: &'a [u8] = vstd::slice::slice_subrange(self.bytes, HEADER_LEN, self.bytes.len());
        assert(r@ =~= self.bytes@.skip(64));
        r
    }
}

/// The state of a section walk.
#[verifier::ext_equal]
pub struct SectionsView {
    pub image: Seq<u8>,
    pub cursor: nat,
    pub done: bool,
}

impl SectionsView {
    /// What the next step yields, and the state after it. A failure ends
    /// the walk.
    pub open spec fn step(self) -> (Option<Result<SectionView, ErrorView>>, SectionsView) {
        if self.done || self.cursor >= self.image.len() {
            (None, self)
        } else {
            match section_at(self.image, self.cursor) {
                Ok(section) => (
                    Some(Ok(section)),
                    SectionsView {
                        cursor: self.cursor + section.header.section_len() as nat,
                        ..self
                    },
                ),
                Err(e) => (Some(Err(e)), SectionsView { done: true, ..self }),
            }
        }
    }
}

/// The step-by-step walk and the whole walk agree: a section extends the
/// list, a failure fails it, and the end completes it.
pub proof fn lemma_steps_make_the_walk(s: SectionsView, acc: Seq<RecordView>)
    requires
        !s.done,
    ensures
        match s.step() {
            (None, _) => walk_from(s.image, s.cursor, acc) == Ok::<Seq<RecordView>, ErrorView>(acc),
            (Some(Err(e)), _) => walk_from(s.image, s.cursor, acc) == Err::<
                Seq<RecordView>,
                ErrorView,
            >(e),
            (Some(Ok(section)), next) => walk_from(s.image, s.cursor, acc) == walk_from(
                next.image,
                next.cursor,
                acc.push(RecordView { file_offset: section.file_offset, header: section.header }),
            ),
        },
{
}

/// After a failure the walk yields nothing more.
pub proof fn lemma_walk_stops_after_failure(s: SectionsView)
    ensures
        s.step().0 matches Some(Err(_)) ==> s.step().1.step().0 is None,
{
}

/// Walk over the sections in an image slice.
///
/// `image` is the entire file contents. The walk begins at the
/// byte offset of the first section header (0 if no executable or
/// script prefix is present).
pub struct Sections<'a> {
    image: &'a [u8],
    cursor: usize,
    done: bool,
}

impl<'a> View for Sections<'a> {
    type V = SectionsView;

    closed spec fn view(&self) -> SectionsView {
        SectionsView { image: self.image@, cursor: self.cursor as nat, done: self.done }
    }
}

impl<'a> Sections<'a> {
    /// Construct a new walk. The caller must already know the
    /// base offset; use [`super::detect_base_offset`] when scanning
    /// for a header behind a prefix.
    pub fn new(image: &'a [u8], base_offset: u64) -> (r: Self)
        ensures
            r@ == (SectionsView {
                image: image@,
                cursor: if base_offset > usize::MAX {
                    usize::MAX as nat
                } else {
                    base_offset as nat
                },
                done: false,
            }),
    {
        let cursor: usize = if base_offset > usize::MAX as u64 {
            usize::MAX
        } else {
            base_offset as usize
        };
        Self { image, cursor, done: false }
    }

    /// The next section, or the failure that ends the walk.
    pub fn next(&mut self) -> (r: Option<Result<SectionRef<'a>, Error>>)
        ensures
            final(self)@ == old(self)@.step().1,
            match r {
                None => old(self)@.step().0 is None,
                Some(item) => old(self)@.step().0 == Some(viewed(item)),
            },
    {
        if self.done || self.cursor >= self.image.len() {
            return None;
        }
        let here: usize = self.cursor;
        if self.image.len() - here < HEADER_LEN {
            self.done = true;
            return Some(Err(Error::TruncatedHeader { offset: here as u64 }));
        }
        let header_bytes: &[u8] = vstd::slice::slice_subrange(self.image, here, here + HEADER_LEN);
        let header: SectionHeader = match SectionHeader::parse(header_bytes, here as u64) {
            Ok(h) => h,
            Err(e) => {
                self.done = true;
                return Some(Err(e));
            },
        };
        let section_len: u64 = header.section_len();
        if section_len > (self.image.len() - here) as u64 {
            self.done = true;
            return Some(
                Err(Error::TruncatedSection { number: header.number, offset: here as u64 }),
            );
        }
        let end: usize = here + section_len as usize;
        let bytes: &'a [u8] = vstd::slice::slice_subrange(self.image, here, end);
        self.cursor = end;
        Some(Ok(SectionRef { file_offset: here as u64, header, bytes }))
    }
}

/// Whether records tile the bytes from `from` to `to`: the first stands at
/// `from`, each next one where the one before ends, and the last one ends
/// at `to`.
pub open spec fn tiles(records: Seq<RecordView>, from: int, to: int) -> bool {
    &&& records.len() == 0 ==> from == to
    &&& records.len() > 0 ==> records[0].file_offset == from && records.last().file_offset
        + records.last().header.section_len() == to
    &&& forall|i: int, j: int|
        0 <= i && i + 1 == j && j < records.len() ==> (#[trigger] records[i]).file_offset
            + records[i].header.section_len() == (#[trigger] records[j]).file_offset
}

proof fn lemma_tiles_push(records: Seq<RecordView>, from: int, to: int, r: RecordView)
    requires
        tiles(records, from, to),
        r.file_offset == to,
    ensures
        tiles(records.push(r), from, to + r.header.section_len()),
{
    let more = records.push(r);
    assert forall|i: int, j: int| 0 <= i && i + 1 == j && j < more.len() implies (
    #[trigger] more[i]).file_offset + more[i].header.section_len() == (
    #[trigger] more[j]).file_offset by {
        assert(more[i] == records[i]);
        if j < records.len() {
            assert(more[j] == records[j]);
        }
    }
}

proof fn lemma_walk_from_tiles(bytes: Seq<u8>, base: int, at: nat, acc: Seq<RecordView>)
    requires
        bytes.len() <= u64::MAX,
        at <= bytes.len(),
        tiles(acc, base, at as int),
    ensures
        walk_from(bytes, at, acc) matches Ok(all) ==> tiles(all, base, bytes.len() as int)
            && all.len() >= acc.len() && (at < bytes.len() ==> all.len() > acc.len()),
    decreases bytes.len() - at,
{
    if at < bytes.len() {
        if let Ok(section) = section_at(bytes, at) {
            let r = RecordView { file_offset: section.file_offset, header: section.header };
            lemma_tiles_push(acc, base, at as int, r);
            lemma_walk_from_tiles(
                bytes,
                base,
                at + section.header.section_len() as nat,
                acc.push(r),
            );
        }
    }
}

/// The records of a walk tile the bytes from the first section to the end.
pub proof fn lemma_walk_tiles(bytes: Seq<u8>, base: u64)
    requires
        bytes.len() <= u64::MAX,
        base <= bytes.len(),
    ensures
        walk(bytes, base) matches Ok(all) ==> tiles(all, base as int, bytes.len() as int) && (base
            < bytes.len() ==> all.len() > 0),
{
    reveal(walk);
    lemma_walk_from_tiles(bytes, base as int, base as nat, Seq::empty());
}

impl SectionsView {
    /// Everything that calling for the next section over and over yields
    /// from here on: sections, and the failure that ends the walk, if one
    /// does.
    pub open spec fn yields(self) -> (Seq<SectionView>, Option<ErrorView>)
        decreases self.image.len() - self.cursor,
    {
        match self.step() {
            (None, _) => (Seq::empty(), None),
            (Some(Err(e)), _) => (Seq::empty(), Some(e)),
            (Some(Ok(section)), next) => {
                let rest = next.yields();
                (seq![section] + rest.0, rest.1)
            },
        }
    }
}

/// The records of sections.
pub open spec fn records_of(sections: Seq<SectionView>) -> Seq<RecordView> {
    sections.map_values(
        |s: SectionView| RecordView { file_offset: s.file_offset, header: s.header },
    )
}

/// What stepping through an image yields: sections that tile the image
/// from the start on, each with its own bytes. Without a failure they end
/// with the image. A failure is that of the place where they end: too few
/// bytes for a header, a header that does not parse, or a payload that
/// overruns the image.
pub proof fn lemma_steps_tile_the_image(s: SectionsView)
    requires
        !s.done,
        s.cursor <= s.image.len() <= u64::MAX,
    ensures
        ({
            let (sections, failure) = s.yields();
            let records = records_of(sections);
            &&& forall|i: int|
                0 <= i < sections.len() ==> (#[trigger] sections[i]).bytes == s.image.subrange(
                    sections[i].file_offset as int,
                    sections[i].file_offset + sections[i].header.section_len(),
                )
            &&& failure is None ==> tiles(records, s.cursor as int, s.image.len() as int)
            &&& failure matches Some(e) ==> exists|at: nat| #[trigger]
                section_at(s.image, at) == Err::<SectionView, ErrorView>(e) && at < s.image.len()
                    && tiles(records, s.cursor as int, at as int)
        }),
    decreases s.image.len() - s.cursor,
{
    let (sections, failure) = s.yields();
    match s.step() {
        (None, _) => {},
        (Some(Err(e)), _) => {
            assert(section_at(s.image, s.cursor) == Err::<SectionView, ErrorView>(e));
            assert(tiles(records_of(sections), s.cursor as int, s.cursor as int));
        },
        (Some(Ok(section)), next) => {
            lemma_steps_tile_the_image(next);
            let rest = next.yields().0;
            let r = RecordView { file_offset: section.file_offset, header: section.header };
            assert(records_of(sections) =~= seq![r] + records_of(rest));
            assert forall|i: int| 0 <= i < sections.len() implies (#[trigger] sections[i]).bytes
                == s.image.subrange(
                sections[i].file_offset as int,
                sections[i].file_offset + sections[i].header.section_len(),
            ) by {
                if i > 0 {
                    assert(sections[i] == rest[i - 1]);
                }
            }
            if let Some(e) = failure {
                let at = choose|at: nat| #[trigger]
                    section_at(s.image, at) == Err::<SectionView, ErrorView>(e) && at
                        < s.image.len() && tiles(records_of(rest), next.cursor as int, at as int);
                lemma_tiles_before(r, records_of(rest), at as int);
                assert(section_at(s.image, at) == Err::<SectionView, ErrorView>(e));
            } else {
                lemma_tiles_before(r, records_of(rest), s.image.len() as int);
            }
        },
    }
}

proof fn lemma_tiles_before(r: RecordView, rest: Seq<RecordView>, to: int)
    requires
        tiles(rest, r.file_offset + r.header.section_len(), to),
    ensures
        tiles(seq![r] + rest, r.file_offset as int, to),
{
    let all = seq![r] + rest;
    assert forall|i: int, j: int| 0 <= i && i + 1 == j && j < all.len() implies (
    #[trigger] all[i]).file_offset + all[i].header.section_len() == (
    #[trigger] all[j]).file_offset by {
        assert(all[j] == rest[j - 1]);
        if i > 0 {
            assert(all[i] == rest[i - 1]);
        }
    }
    if rest.len() > 0 {
        assert(all.last() == rest.last());
    } else {
        assert(all.last() == r);
    }
}

/// A located section: byte offset within the file plus a parsed
/// header.
#[derive(Debug, Clone, Copy)]
pub struct SectionRecord {
    /// Byte offset of the section header in the original file.
    pub file_offset: u64,
    /// Parsed header.
    pub header: SectionHeader,
}

impl View for SectionRecord {
    type V = RecordView;

    open spec fn view(&self) -> RecordView {
        RecordView { file_offset: self.file_offset, header: self.header@ }
    }
}

impl SectionRecord {
    /// Total byte length of this section on disk (header plus
    /// payload).
    pub fn section_len(&self) -> (r: u64)
        ensures
            r == self@.header.section_len(),
    {
        self.header.section_len()
    }
}

/// What a list of records says.
pub open spec fn record_views(v: Seq<SectionRecord>) -> Seq<RecordView> {
    v.map_values(|r: SectionRecord| r@)
}

/// Parse every section header from `base_offset` to the end of the
/// source, walking forward by each section's recorded length.
pub fn walk_sections<S: ImageSource + ?Sized>(source: &S, base_offset: u64) -> (r: Result<
    Vec<SectionRecord>,
    Error,
>)
    ensures
        answers(
            source.reliable(),
            match r {
                Ok(v) => Ok::<Seq<RecordView>, ErrorView>(record_views(v@)),
                Err(e) => Err(e@),
            },
            walk(source.bytes(), base_offset),
        ),
{
    proof {
        reveal(walk);
    }
    let end: u64 = source.len();
    let mut sections: Vec<SectionRecord> = Vec::new();
    assert(record_views(sections@) =~= Seq::<RecordView>::empty());
    let mut cursor: u64 = base_offset;
    while cursor < end
        invariant
            end == source.bytes().len(),
            walk(source.bytes(), base_offset) == walk_from(
                source.bytes(),
                cursor as nat,
                record_views(sections@),
            ),
        decreases end - cursor,
    {
        if end - cursor < HEADER_LEN as u64 {
            return Err(Error::TruncatedHeader { offset: cursor });
        }
        let mut header: [u8; 64] = [0u8;64];
        source.read_exact_at(&mut header, cursor)?;
        let parsed: SectionHeader = SectionHeader::parse(header.as_slice(), cursor)?;
        let section_len: u64 = parsed.section_len();
        if section_len > end - cursor {
            return Err(Error::TruncatedSection { number: parsed.number, offset: cursor });
        }
        let ghost before = sections@;
        let record: SectionRecord = SectionRecord { file_offset: cursor, header: parsed };
        sections.push(record);
        assert(record_views(sections@) =~= record_views(before).push(record@));
        cursor = cursor + section_len;
    }
    Ok(sections)
}

} // verus!
