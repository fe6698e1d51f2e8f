//! Where the bytes of an image keep what.
//!
//! The answers about sections, said in terms of the raw bytes.

use crate::bytes::{le, lemma_le_append};
use crate::compression::none::stored;
use crate::error::ErrorView;
use crate::format::detect::{detect, image_starts_at, magic_at, noted, scan};
use crate::format::header::{HeaderView, parse_header};
use crate::format::image::{first_section, open_image, section_check, section_decoded};
use crate::format::index::{
    IndexEntry, IndexView, find_index, index_entries, payload_entry,
};
use crate::format::integrity::{full_check, sha512_256_of, xxh3_64_of};
use crate::format::sections::{RecordView, SectionView, section_at, walk, walk_from};
use crate::format::source::range_of;
use crate::format::types::{Compression, SectionType};
use crate::text::dec;
use vstd::arithmetic::power2::*;
use vstd::prelude::*;

verus! {

/// The types of sections by their numbers.
pub proof fn lemma_section_type_numbers(value: u16)
    ensures
        SectionType::of_code(value) == SectionType::Block <==> value == 0,
        SectionType::of_code(value) == SectionType::MetadataV2Schema <==> value == 7,
        SectionType::of_code(value) == SectionType::MetadataV2 <==> value == 8,
        SectionType::of_code(value) == SectionType::SectionIndex <==> value == 9,
        SectionType::of_code(value) == SectionType::History <==> value == 10,
        SectionType::of_code(value) matches SectionType::Unknown(other) ==> other == value,
{
}

/// The codecs by their numbers.
pub proof fn lemma_compression_numbers(value: u16)
    ensures
        Compression::of_code(value) == Compression::Stored <==> value == 0,
        Compression::of_code(value) == Compression::Lzma <==> value == 1,
        Compression::of_code(value) == Compression::Zstd <==> value == 2,
        Compression::of_code(value) == Compression::Lz4 <==> value == 3,
        Compression::of_code(value) == Compression::Lz4Hc <==> value == 4,
        Compression::of_code(value) == Compression::Brotli <==> value == 5,
        Compression::of_code(value) == Compression::Flac <==> value == 6,
        Compression::of_code(value) == Compression::Ricepp <==> value == 7,
        Compression::of_code(value) matches Compression::Unknown(other) ==> other == value,
{
}

/// The names of the types by their numbers.
pub proof fn lemma_section_type_names(value: u16)
    ensures
        SectionType::of_code(0).text() == "Block"@,
        SectionType::of_code(7).text() == "MetadataV2Schema"@,
        SectionType::of_code(8).text() == "MetadataV2"@,
        SectionType::of_code(9).text() == "SectionIndex"@,
        SectionType::of_code(10).text() == "History"@,
        value > 10 || 1 <= value <= 6 ==> SectionType::of_code(value).text() == "Unknown("@ + dec(
            value as nat,
        ) + ")"@,
{
}

/// The names of the codecs by their numbers.
pub proof fn lemma_compression_names(value: u16)
    ensures
        Compression::of_code(0).text() == "None"@,
        Compression::of_code(1).text() == "Lzma"@,
        Compression::of_code(2).text() == "Zstd"@,
        Compression::of_code(3).text() == "Lz4"@,
        Compression::of_code(4).text() == "Lz4Hc"@,
        Compression::of_code(5).text() == "Brotli"@,
        Compression::of_code(6).text() == "Flac"@,
        Compression::of_code(7).text() == "Ricepp"@,
        value > 7 ==> Compression::of_code(value).text() == "Unknown("@ + dec(value as nat) + ")"@,
{
}

proof fn lemma_two_bytes(s: Seq<u8>)
    requires
        s.len() == 2,
    ensures
        le(s) == s[0] + 256 * s[1],
{
    assert(s.skip(1).skip(1) =~= Seq::<u8>::empty());
    assert(le(s.skip(1).skip(1)) == 0);
    assert(le(s.skip(1)) == s[1]);
}

proof fn lemma_four_bytes(s: Seq<u8>)
    requires
        s.len() == 4,
    ensures
        le(s) == s[0] + 256 * s[1] + 0x1_0000 * s[2] + 0x100_0000 * s[3],
{
    lemma_two_bytes(s.skip(2));
    assert(s.skip(1).skip(1) =~= s.skip(2));
    assert(le(s.skip(1)) == s[1] + 256 * le(s.skip(2)));
}

/// A header is read from fixed places of its 64 bytes: `DWARFS`, the
/// version, the two hashes, and then the section's number, type, codec and
/// payload length, all little-endian. It is one exactly when the magic and
/// the version are right.
pub proof fn lemma_header_layout(bytes: Seq<u8>, offset: u64)
    requires
        bytes.len() >= 64,
    ensures
        parse_header(bytes, offset) is Ok <==> {
            &&& bytes[0] == 0x44 && bytes[1] == 0x57 && bytes[2] == 0x41
            &&& bytes[3] == 0x52 && bytes[4] == 0x46 && bytes[5] == 0x53
            &&& bytes[6] == 2 && bytes[7] <= 6
        },
        parse_header(bytes, offset) matches Ok(h) ==> {
            &&& h.major == bytes[6]
            &&& h.minor == bytes[7]
            &&& h.sha512_256 == bytes.subrange(8, 40)
            &&& h.xxh3_64 == le(bytes.subrange(40, 48))
            &&& h.number == bytes[48] + 0x100 * bytes[49] + 0x1_0000 * bytes[50] + 0x100_0000
                * bytes[51]
            &&& h.section_type.code() == bytes[52] + 0x100 * bytes[53]
            &&& h.compression.code() == bytes[54] + 0x100 * bytes[55]
            &&& h.payload_len == le(bytes.subrange(56, 64))
        },
{
    let head = bytes.subrange(0, 6);
    if head == crate::format::header::magic() {
        assert(head[0] == bytes[0]);
        assert(head[1] == bytes[1]);
        assert(head[2] == bytes[2]);
        assert(head[3] == bytes[3]);
        assert(head[4] == bytes[4]);
        assert(head[5] == bytes[5]);
    }
    if bytes[0] == 0x44 && bytes[1] == 0x57 && bytes[2] == 0x41 && bytes[3] == 0x52 && bytes[4]
        == 0x46 && bytes[5] == 0x53 {
        assert(head =~= crate::format::header::magic());
    }
    lemma_four_bytes(bytes.subrange(48, 52));
    lemma_two_bytes(bytes.subrange(52, 54));
    lemma_two_bytes(bytes.subrange(54, 56));
    crate::bytes::lemma_le_fits(bytes.subrange(40, 48));
    crate::bytes::lemma_le_fits(bytes.subrange(56, 64));
    crate::format::types::lemma_section_type_roundtrip(le(bytes.subrange(52, 54)) as u16);
    crate::format::types::lemma_compression_roundtrip(le(bytes.subrange(54, 56)) as u16);
}

/// A section is its header and as many bytes behind it as the header says.
pub proof fn lemma_section_layout(bytes: Seq<u8>, at: nat)
    requires
        at + 64 <= bytes.len() < u64::MAX,
        parse_header(bytes.subrange(at as int, (at + 64) as int), at as u64) is Ok,
    ensures
        ({
            let h = parse_header(bytes.subrange(at as int, (at + 64) as int), at as u64)->Ok_0;
            &&& section_at(bytes, at) is Ok <==> at + 64 + h.payload_len <= bytes.len()
            &&& section_at(bytes, at) matches Ok(s) ==> s.file_offset == at && s.header == h
                && s.bytes == bytes.subrange(at as int, at + 64 + h.payload_len)
        }),
{
}

/// The bytes of a recorded section.
pub open spec fn recorded_section(bytes: Seq<u8>, r: RecordView) -> Seq<u8> {
    bytes.subrange(r.file_offset as int, r.file_offset + 64 + r.header.payload_len)
}

/// A section passes the fast check exactly when the recorded hash is the
/// XXH3 hash of everything behind that hash, and the deep one when besides
/// the recorded digest is the SHA-512/256 digest of everything behind that
/// digest.
pub proof fn lemma_check_covers_the_section(bytes: Seq<u8>, r: RecordView, deep: bool)
    requires
        r.file_offset + 64 + r.header.payload_len <= bytes.len() <= usize::MAX,
        bytes.len() <= u64::MAX,
    ensures
        ({
            let section = recorded_section(bytes, r);
            section_check(bytes, r, deep) is Ok <==> {
                &&& r.header.xxh3_64 == xxh3_64_of(section.subrange(48, section.len() as int))
                &&& deep ==> r.header.sha512_256 == sha512_256_of(
                    section.subrange(40, section.len() as int),
                )
            }
        }),
{
    let section = recorded_section(bytes, r);
    assert(section.skip(48) =~= section.subrange(48, section.len() as int));
    assert(section.skip(40) =~= section.subrange(40, section.len() as int));
}

/// A stored section decodes to its payload, where its hash is right and
/// the payload fits the cap.
pub proof fn lemma_stored_section_is_its_payload(bytes: Seq<u8>, r: RecordView, cap: nat)
    requires
        r.file_offset + 64 + r.header.payload_len <= bytes.len() <= usize::MAX,
        bytes.len() <= u64::MAX,
        r.header.compression == Compression::Stored,
        r.header.xxh3_64 == xxh3_64_of(
            recorded_section(bytes, r).subrange(48, 64 + r.header.payload_len),
        ),
    ensures
        r.header.payload_len <= cap ==> section_decoded(bytes, r, cap) == Ok::<Seq<u8>, ErrorView>(
            bytes.subrange(r.file_offset + 64, r.file_offset + 64 + r.header.payload_len),
        ),
        r.header.payload_len > cap ==> section_decoded(bytes, r, cap) is Err,
{
    let section = recorded_section(bytes, r);
    assert(section.skip(48) =~= section.subrange(48, 64 + r.header.payload_len));
    assert(section.skip(64) =~= bytes.subrange(
        r.file_offset + 64,
        r.file_offset + 64 + r.header.payload_len,
    ));
}

/// The section of a type that is used is the first of that type.
pub proof fn lemma_first_section_is_first(records: Seq<RecordView>, kind: SectionType)
    ensures
        match first_section(records, kind) {
            Some(r) => exists|i: int|
                0 <= i < records.len() && #[trigger] records[i] == r && r.header.section_type
                    == kind && forall|j: int|
                    0 <= j < i ==> (#[trigger] records[j]).header.section_type != kind,
            None => forall|i: int|
                0 <= i < records.len() ==> (#[trigger] records[i]).header.section_type != kind,
        },
{
    lemma_first_from(records, kind, 0);
}

proof fn lemma_first_from(records: Seq<RecordView>, kind: SectionType, from: nat)
    requires
        forall|j: int|
            0 <= j < from && j < records.len() ==> (#[trigger] records[j]).header.section_type
                != kind,
    ensures
        match crate::format::image::first_from(records, kind, from) {
            Some(r) => exists|i: int|
                0 <= i < records.len() && #[trigger] records[i] == r && r.header.section_type
                    == kind && forall|j: int|
                    0 <= j < i ==> (#[trigger] records[j]).header.section_type != kind,
            None => forall|i: int|
                0 <= i < records.len() ==> (#[trigger] records[i]).header.section_type != kind,
        },
    decreases records.len() - from,
{
    if from < records.len() && records[from as int].header.section_type != kind {
        lemma_first_from(records, kind, from + 1);
    }
}

/// An entry of the section index holds the section's offset in its first
/// six bytes and the section's type in the last two.
pub proof fn lemma_index_entry_layout(payload: Seq<u8>, i: int)
    requires
        0 <= i,
        8 * i + 8 <= payload.len(),
    ensures
        payload_entry(payload, i).offset_from_base == le(payload.subrange(8 * i, 8 * i + 6)),
        payload_entry(payload, i).section_type == SectionType::of_code(
            (payload[8 * i + 6] + 0x100 * payload[8 * i + 7]) as u16,
        ),
{
    let raw = payload.subrange(8 * i, 8 * i + 8);
    let low = payload.subrange(8 * i, 8 * i + 6);
    let high = payload.subrange(8 * i + 6, 8 * i + 8);
    assert(raw =~= low + high);
    lemma_le_append(low, high);
    lemma_two_bytes(high);
    crate::bytes::lemma_le_bound(low);
    lemma2_to64();
    lemma2_to64_rest();
    assert(pow2(48) == 0x1_0000_0000_0000);
    let n = le(raw);
    assert(n == le(low) + 0x1_0000_0000_0000 * le(high));
    assert(n / 0x1_0000_0000_0000 == le(high));
    assert(n % 0x1_0000_0000_0000 == le(low));
}

/// A section index has one entry for every eight bytes of its payload.
pub proof fn lemma_index_has_every_entry(payload: Seq<u8>)
    requires
        index_entries(payload) is Ok,
    ensures
        ({
            let entries = index_entries(payload)->Ok_0;
            &&& 8 * entries.len() == payload.len()
            &&& forall|i: int|
                0 <= i < entries.len() ==> (#[trigger] entries[i]).offset_from_base == le(
                    payload.subrange(8 * i, 8 * i + 6),
                ) && entries[i].section_type == SectionType::of_code(
                    (payload[8 * i + 6] + 0x100 * payload[8 * i + 7]) as u16,
                )
        }),
{
    let entries = index_entries(payload)->Ok_0;
    assert forall|i: int| 0 <= i < entries.len() implies (
    #[trigger] entries[i]).offset_from_base == le(payload.subrange(8 * i, 8 * i + 6))
        && entries[i].section_type == SectionType::of_code(
        (payload[8 * i + 6] + 0x100 * payload[8 * i + 7]) as u16,
    ) by {
        lemma_index_entry_layout(payload, i);
    }
}

/// The last eight bytes of an image tell whether it has a section index:
/// the last two are the type of one, and the six before are its offset. It
/// is the last section, stored, and its payload holds the entries.
pub proof fn lemma_where_the_index_is(bytes: Seq<u8>, base: u64)
    requires
        8 <= bytes.len() < u64::MAX,
        bytes.len() <= usize::MAX,
    ensures
        ({
            let n = bytes.len() as int;
            let at = base + le(bytes.subrange(n - 8, n - 2));
            let found = find_index(bytes, base);
            &&& bytes[n - 2] + 0x100 * bytes[n - 1] != 9 ==> found == Ok::<
                Option<IndexView>,
                ErrorView,
            >(None)
            &&& bytes[n - 2] + 0x100 * bytes[n - 1] == 9 ==> match found {
                Ok(Some(index)) => {
                    &&& at + 64 <= n
                    &&& index.file_offset == at
                    &&& parse_header(bytes.subrange(at, at + 64), at as u64) matches Ok(h)
                        && h.section_type == SectionType::SectionIndex && h.compression
                        == Compression::Stored && at + 64 + h.payload_len == n
                    &&& index_entries(bytes.subrange(at + 64, n)) == Ok::<
                        Seq<IndexEntry>,
                        ErrorView,
                    >(index.entries)
                },
                Ok(None) => false,
                Err(_) => at + 64 > n || !(parse_header(
                    bytes.subrange(at, at + 64),
                    at as u64,
                ) matches Ok(h) && h.section_type == SectionType::SectionIndex && h.compression
                    == Compression::Stored && at + 64 + h.payload_len == n && index_entries(
                    bytes.subrange(at + 64, n),
                ) is Ok),
            }
        }),
{
    reveal(find_index);
    let n = bytes.len() as int;
    let tail = bytes.skip(n - 8);
    lemma_index_entry_layout(tail, 0);
    assert(tail.subrange(0, 8) =~= tail);
    assert(tail.subrange(0, 6) =~= bytes.subrange(n - 8, n - 2));
    assert(tail[6] == bytes[n - 2]);
    assert(tail[7] == bytes[n - 1]);
    lemma_section_type_numbers((tail[6] + 0x100 * tail[7]) as u16);
}

/// Why a header is refused: there are not 64 bytes, the letters are not
/// there, or the version is not supported, in this order.
pub proof fn lemma_why_headers_are_refused(bytes: Seq<u8>, offset: u64)
    ensures
        bytes.len() < 64 ==> parse_header(bytes, offset) == Err::<HeaderView, ErrorView>(
            ErrorView::TruncatedHeader { offset },
        ),
        bytes.len() >= 64 && !letters_at(bytes, 0) ==> parse_header(bytes, offset) == Err::<
            HeaderView,
            ErrorView,
        >(ErrorView::BadMagic { offset }),
        bytes.len() >= 64 && letters_at(bytes, 0) && !(bytes[6] == 2 && bytes[7] <= 6)
            ==> parse_header(bytes, offset) == Err::<HeaderView, ErrorView>(
            ErrorView::UnsupportedVersion { major: bytes[6], minor: bytes[7] },
        ),
{
    if bytes.len() >= 64 {
        lemma_letters(bytes, 0);
    }
}

/// Why a section is refused: its header is, or the bytes end before it
/// does, and then the refusal names the section and where it stands.
pub proof fn lemma_why_sections_are_refused(bytes: Seq<u8>, at: nat)
    requires
        at + 64 <= bytes.len() < u64::MAX,
    ensures
        ({
            let header = parse_header(bytes.subrange(at as int, (at + 64) as int), at as u64);
            match header {
                Err(e) => section_at(bytes, at) == Err::<SectionView, ErrorView>(e),
                Ok(h) => at + 64 + h.payload_len > bytes.len() ==> section_at(bytes, at) == Err::<
                    SectionView,
                    ErrorView,
                >(ErrorView::TruncatedSection { number: h.number, offset: at as u64 }),
            }
        }),
{
}

/// A payload is that of a section index exactly when it is entries of eight
/// bytes, one at least, whose offsets grow and whose last names an index.
pub proof fn lemma_what_an_index_holds(payload: Seq<u8>)
    ensures
        index_entries(payload) is Ok <==> {
            let n = payload.len() as int / 8;
            &&& payload.len() % 8 == 0 && n > 0
            &&& forall|i: int, j: int|
                0 <= i && i + 1 == j && j < n ==> (#[trigger] payload_entry(
                    payload,
                    i,
                )).offset_from_base < (#[trigger] payload_entry(payload, j)).offset_from_base
            &&& payload[payload.len() - 2] + 0x100 * payload[payload.len() - 1] == 9
        },
{
    let n = payload.len() as int / 8;
    if payload.len() % 8 == 0 && n > 0 {
        lemma_index_entry_layout(payload, n - 1);
        assert(8 * (n - 1) + 8 == payload.len());
        lemma_section_type_numbers(
            (payload[payload.len() - 2] + 0x100 * payload[payload.len() - 1]) as u16,
        );
    }
}

/// Whether the letters `DWARFS` stand at `at`.
pub open spec fn letters_at(bytes: Seq<u8>, at: int) -> bool {
    &&& 0 <= at && at + 6 <= bytes.len()
    &&& bytes[at] == 0x44 && bytes[at + 1] == 0x57 && bytes[at + 2] == 0x41
    &&& bytes[at + 3] == 0x52 && bytes[at + 4] == 0x46 && bytes[at + 5] == 0x53
}

proof fn lemma_letters(bytes: Seq<u8>, at: int)
    ensures
        magic_at(bytes, at) == letters_at(bytes, at),
{
    if 0 <= at && at + 6 <= bytes.len() {
        let head = bytes.subrange(at, at + 6);
        let m = crate::format::header::magic();
        if head == m {
            assert(head[0] == bytes[at]);
            assert(head[1] == bytes[at + 1]);
            assert(head[2] == bytes[at + 2]);
            assert(head[3] == bytes[at + 3]);
            assert(head[4] == bytes[at + 4]);
            assert(head[5] == bytes[at + 5]);
        }
        if letters_at(bytes, at) {
            assert(head =~= m);
        }
    }
}

/// An image starts where a header of a supported version stands whose
/// section ends where the bytes end or another header's letters stand.
pub proof fn lemma_where_an_image_starts(bytes: Seq<u8>, at: int)
    requires
        0 <= at && at + 64 <= bytes.len() < u64::MAX,
    ensures
        image_starts_at(bytes, at) <==> {
            let end = at + 64 + le(bytes.subrange(at + 56, at + 64));
            &&& letters_at(bytes, at)
            &&& bytes[at + 6] == 2 && bytes[at + 7] <= 6
            &&& end == bytes.len() || letters_at(bytes, end)
        },
{
    let head = bytes.subrange(at, at + 64);
    lemma_header_layout(head, at as u64);
    lemma_letters(bytes, at);
    assert(head.subrange(56, 64) =~= bytes.subrange(at + 56, at + 64));
    let end = at + 64 + le(bytes.subrange(at + 56, at + 64));
    lemma_letters(bytes, end);
    if let Ok(h) = parse_header(head, at as u64) {
        assert(h.payload_len == le(bytes.subrange(at + 56, at + 64)));
        lemma_letters(bytes, at + h.section_len());
    }
}

proof fn lemma_noted(bytes: Seq<u8>, at: int)
    requires
        0 <= at && at + 64 <= bytes.len() < u64::MAX,
    ensures
        is_refused_version(bytes, at) ==> noted(bytes, at, None) == Some(
            ErrorView::UnsupportedVersion { major: bytes[at + 6], minor: bytes[at + 7] },
        ),
        !is_refused_version(bytes, at) ==> noted(bytes, at, None) is None,
{
    let head = bytes.subrange(at, at + 64);
    lemma_letters(bytes, at);
    lemma_header_layout(head, at as u64);
    if magic_at(bytes, at) {
        assert(head.subrange(0, 6) =~= bytes.subrange(at, at + 6));
        assert(head[6] == bytes[at + 6]);
        assert(head[7] == bytes[at + 7]);
    }
}

proof fn lemma_scan_without_an_image(bytes: Seq<u8>, at: nat, seen: Option<ErrorView>)
    requires
        bytes.len() < u64::MAX,
        forall|i: int| 0 <= i ==> !#[trigger] image_starts_at(bytes, i),
    ensures
        seen matches Some(e) ==> scan(bytes, at, seen) == Err::<u64, ErrorView>(e),
        seen is None && (forall|i: int|
            at <= i && i + 64 <= bytes.len() ==> !#[trigger] is_refused_version(bytes, i)) ==> scan(
            bytes,
            at,
            seen,
        ) == Err::<u64, ErrorView>(ErrorView::NotADwarfsImage),
        forall|first: int|
            seen is None && at <= first && first + 64 <= bytes.len() && #[trigger]
            is_refused_version(bytes, first) && (forall|i: int|
                at <= i < first ==> !#[trigger] is_refused_version(bytes, i)) ==> scan(
                bytes,
                at,
                seen,
            ) == Err::<u64, ErrorView>(
                ErrorView::UnsupportedVersion { major: bytes[first + 6], minor: bytes[first + 7] },
            ),
    decreases bytes.len() - at,
{
    if at + 64 <= bytes.len() {
        assert(!image_starts_at(bytes, at as int));
        let next = noted(bytes, at as int, seen);
        if seen is None {
            lemma_noted(bytes, at as int);
        }
        lemma_scan_without_an_image(bytes, at + 1, next);
        assert(scan(bytes, at, seen) == scan(bytes, at + 1, next));
        if seen is None && is_refused_version(bytes, at as int) {
            assert(scan(bytes, at, seen) == Err::<u64, ErrorView>(next->Some_0));
        }
        assert forall|first: int|
            seen is None && at <= first && first + 64 <= bytes.len() && #[trigger]
            is_refused_version(bytes, first) && (forall|i: int|
                at <= i < first ==> !#[trigger] is_refused_version(bytes, i)) implies scan(
            bytes,
            at,
            seen,
        ) == Err::<u64, ErrorView>(
            ErrorView::UnsupportedVersion { major: bytes[first + 6], minor: bytes[first + 7] },
        ) by {
            if first > at {
                assert(!is_refused_version(bytes, at as int));
            }
        }
    } else {
        assert(scan(bytes, at, seen) == match seen {
            Some(e) => Err::<u64, ErrorView>(e),
            None => Err::<u64, ErrorView>(ErrorView::NotADwarfsImage),
        });
    }
}

/// Whether the letters of a header stand at `at` with a version that is not
/// supported behind them.
pub open spec fn is_refused_version(bytes: Seq<u8>, at: int) -> bool {
    letters_at(bytes, at) && !(bytes[at + 6] == 2 && bytes[at + 7] <= 6)
}

/// Bytes without an image are refused: for the version of the first header
/// in them whose version is not supported, else as no image at all.
pub proof fn lemma_bytes_without_an_image_are_refused(bytes: Seq<u8>, first: int)
    requires
        bytes.len() < u64::MAX,
        forall|i: int| 0 <= i ==> !#[trigger] image_starts_at(bytes, i),
    ensures
        (forall|i: int|
            0 <= i && i + 64 <= bytes.len() ==> !#[trigger] is_refused_version(bytes, i)) ==> detect(
            bytes,
        ) == Err::<u64, ErrorView>(ErrorView::NotADwarfsImage),
        0 <= first && first + 64 <= bytes.len() && is_refused_version(bytes, first) && (forall|
            i: int,
        |
            0 <= i < first ==> !#[trigger] is_refused_version(bytes, i)) ==> detect(bytes) == Err::<
            u64,
            ErrorView,
        >(ErrorView::UnsupportedVersion { major: bytes[first + 6], minor: bytes[first + 7] }),
{
    reveal(detect);
    lemma_scan_without_an_image(bytes, 0, None);
}

/// A whole section passes both checks exactly when both hashes recorded are
/// those of what stands behind each.
pub proof fn lemma_full_check_is_both(h: HeaderView, section: Seq<u8>)
    requires
        section.len() >= 64,
    ensures
        full_check(h, section) is Ok <==> h.xxh3_64 == xxh3_64_of(
            section.subrange(48, section.len() as int),
        ) && h.sha512_256 == sha512_256_of(section.subrange(40, section.len() as int)),
{
    assert(section.skip(48) =~= section.subrange(48, section.len() as int));
    assert(section.skip(40) =~= section.subrange(40, section.len() as int));
}

/// An image opens to the sections that follow from where it starts, and
/// keeps its bytes.
pub proof fn lemma_opening_keeps_the_bytes(bytes: Seq<u8>)
    ensures
        open_image(bytes) matches Ok(v) ==> v.bytes == bytes && detect(bytes) == Ok::<
            u64,
            ErrorView,
        >(v.base) && walk(bytes, v.base) == Ok::<Seq<RecordView>, ErrorView>(v.sections),
        detect(bytes) is Err ==> open_image(bytes) is Err,
{
}

/// A read inside the bytes gives them, and any other is refused with what
/// was asked for and how much there is.
pub proof fn lemma_reads_stay_inside(bytes: Seq<u8>, offset: u64, len: u64)
    requires
        bytes.len() <= usize::MAX,
    ensures
        offset + len <= bytes.len() ==> (range_of(bytes, offset, len) matches Ok(part) && part.len()
            == len && forall|i: int| 0 <= i < len ==> #[trigger] part[i] == bytes[offset + i]),
        offset + len > bytes.len() ==> range_of(bytes, offset, len) == Err::<Seq<u8>, ErrorView>(
            ErrorView::SourceOutOfBounds { offset, len, source_len: bytes.len() as u64 },
        ),
{
}

/// Whether records stand one behind the other from `base` to the end of the
/// bytes, each with the header that its first 64 bytes are.
pub open spec fn stand_in_a_row(bytes: Seq<u8>, base: nat, records: Seq<RecordView>) -> bool {
    &&& forall|k: int|
        #![trigger records[k]]
        0 <= k < records.len() ==> {
            let at = records[k].file_offset;
            &&& at + 64 + records[k].header.payload_len <= bytes.len()
            &&& parse_header(bytes.subrange(at as int, at + 64), at) == Ok::<HeaderView, ErrorView>(
                records[k].header,
            )
            &&& at == row_start(bytes, base, records, k)
        }
    &&& row_start(bytes, base, records, records.len() as int) == bytes.len()
}

/// Where record `k` of a row starts: behind the one before it.
pub open spec fn row_start(bytes: Seq<u8>, base: nat, records: Seq<RecordView>, k: int) -> int {
    if k <= 0 {
        base as int
    } else {
        records[k - 1].file_offset + 64 + records[k - 1].header.payload_len
    }
}

proof fn lemma_walk_of_a_row(bytes: Seq<u8>, base: nat, records: Seq<RecordView>, k: nat)
    requires
        bytes.len() < u64::MAX,
        stand_in_a_row(bytes, base, records),
        k <= records.len(),
    ensures
        walk_from(
            bytes,
            row_start(bytes, base, records, k as int) as nat,
            records.take(k as int),
        ) == Ok::<Seq<RecordView>, ErrorView>(records),
    decreases records.len() - k,
{
    let at = row_start(bytes, base, records, k as int) as nat;
    if k < records.len() {
        let r = records[k as int];
        assert(r.file_offset == at);
        lemma_section_layout(bytes, at);
        assert(records.take(k as int).push(r) =~= records.take((k + 1) as int));
        lemma_walk_of_a_row(bytes, base, records, k + 1);
        assert(row_start(bytes, base, records, (k + 1) as int) == at + r.header.section_len());
        let section = section_at(bytes, at)->Ok_0;
        assert(RecordView { file_offset: section.file_offset, header: section.header } == r);
    } else {
        assert(records.take(k as int) =~= records);
    }
}

/// Sections that stand one behind the other to the end of the bytes are all
/// found, in order.
pub proof fn lemma_sections_in_a_row_are_found(bytes: Seq<u8>, base: u64, records: Seq<RecordView>)
    requires
        bytes.len() < u64::MAX,
        stand_in_a_row(bytes, base as nat, records),
    ensures
        walk(bytes, base) == Ok::<Seq<RecordView>, ErrorView>(records),
{
    reveal(walk);
    lemma_walk_of_a_row(bytes, base as nat, records, 0);
    assert(records.take(0) =~= Seq::<RecordView>::empty());
}

} // verus!
