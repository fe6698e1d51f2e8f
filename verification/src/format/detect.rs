//! Automatic detection of the first section in an image.
//!
//! A DwarFS file may be prefixed by an arbitrary executable or shell
//! script (the "self-extracting" pattern). The first section is
//! located by scanning forward for the magic bytes `DWARFS`, parsing a
//! candidate header, and confirming the next section (or end of file)
//! also lines up.

use crate::error::{Error, ErrorView, viewed};
use crate::format::header::{HEADER_LEN, HeaderView, SectionHeader, has_magic, magic, parse_header};
use crate::format::source::ImageSource;
use vstd::prelude::*;

verus! {

/// Bytes read per probe when scanning a source that cannot expose a
/// contiguous slice. Consecutive probes overlap by one less than the
/// magic so a magic straddling a boundary is still found.
const SCAN_CHUNK: usize = 64 * 1024;

/// Whether the magic stands at `at`.
pub open spec fn magic_at(bytes: Seq<u8>, at: int) -> bool {
    0 <= at && at + 6 <= bytes.len() && bytes.subrange(at, at + 6) == magic()
}

/// Whether the section of header `h` at `at` is followed by the end of
/// the image or by another magic.
pub open spec fn boundary_follows(bytes: Seq<u8>, at: int, h: HeaderView) -> bool {
    let next = at + h.section_len();
    next == bytes.len() || magic_at(bytes, next)
}

/// What parsing the header at `at` answers.
pub open spec fn header_at(bytes: Seq<u8>, at: int) -> Result<HeaderView, ErrorView> {
    parse_header(bytes.subrange(at, at + 64), at as u64)
}

/// Whether an image starts at `at`: a supported header whose section ends
/// at a section boundary.
pub open spec fn image_starts_at(bytes: Seq<u8>, at: int) -> bool {
    &&& 0 <= at
    &&& at + 64 <= bytes.len()
    &&& magic_at(bytes, at)
    &&& header_at(bytes, at) is Ok
    &&& boundary_follows(bytes, at, header_at(bytes, at)->Ok_0)
}

/// The scan from `at` on. `seen` is the first version complaint so far:
/// an image whose version is not supported reports that, rather than the
/// far less useful claim that the input is not a DwarFS image at all.
pub open spec fn scan(bytes: Seq<u8>, at: nat, seen: Option<ErrorView>) -> Result<u64, ErrorView>
    decreases bytes.len() - at,
{
    if at + 64 > bytes.len() {
        match seen {
            Some(e) => Err(e),
            None => Err(ErrorView::NotADwarfsImage),
        }
    } else if image_starts_at(bytes, at as int) {
        Ok(at as u64)
    } else {
        scan(bytes, at + 1, noted(bytes, at as int, seen))
    }
}

/// The first version complaint, after looking at `at`.
pub open spec fn noted(bytes: Seq<u8>, at: int, seen: Option<ErrorView>) -> Option<ErrorView> {
    if seen is None && magic_at(bytes, at) {
        match header_at(bytes, at) {
            Err(ErrorView::UnsupportedVersion { major, minor }) => Some(
                ErrorView::UnsupportedVersion { major, minor },
            ),
            _ => None,
        }
    } else {
        seen
    }
}

/// What detection answers for `bytes`.
#[verifier::opaque]
pub open spec fn detect(bytes: Seq<u8>) -> Result<u64, ErrorView> {
    scan(bytes, 0, None)
}

/// Positions without a magic are passed over.
proof fn lemma_scan_skips(bytes: Seq<u8>, a: nat, b: nat, seen: Option<ErrorView>)
    requires
        a <= b,
        forall|i: int| a <= i < b ==> !#[trigger] magic_at(bytes, i),
    ensures
        scan(bytes, a, seen) == scan(bytes, b, seen),
    decreases b - a,
{
    if a < b {
        assert(!magic_at(bytes, a as int));
        lemma_scan_skips(bytes, a + 1, b, seen);
    }
}

proof fn lemma_scan_first(bytes: Seq<u8>, at: nat, seen: Option<ErrorView>, start: int)
    requires
        at <= start,
        image_starts_at(bytes, start),
        forall|i: int| at <= i < start ==> !#[trigger] image_starts_at(bytes, i),
    ensures
        scan(bytes, at, seen) == Ok::<u64, ErrorView>(start as u64),
    decreases start - at,
{
    if at < start {
        assert(!image_starts_at(bytes, at as int));
        lemma_scan_first(bytes, at + 1, noted(bytes, at as int, seen), start);
    }
}

/// Detection finds the first position at which an image starts.
pub proof fn lemma_detect_finds_the_first(bytes: Seq<u8>, start: int)
    requires
        image_starts_at(bytes, start),
        forall|i: int| 0 <= i < start ==> !#[trigger] image_starts_at(bytes, i),
    ensures
        detect(bytes) == Ok::<u64, ErrorView>(start as u64),
{
    reveal(detect);
    lemma_scan_first(bytes, 0, None, start);
}

proof fn lemma_scan_sound(bytes: Seq<u8>, at: nat, seen: Option<ErrorView>)
    requires
        bytes.len() <= u64::MAX,
        seen matches Some(e) ==> detection_error(bytes, e),
    ensures
        match scan(bytes, at, seen) {
            Ok(found) => image_starts_at(bytes, found as int),
            Err(e) => detection_error(bytes, e),
        },
    decreases bytes.len() - at,
{
    if at + 64 <= bytes.len() && !image_starts_at(bytes, at as int) {
        if let Some(e) = noted(bytes, at as int, seen) {
            if seen is None {
                assert(refused_at(bytes, at as int, e));
            }
        }
        lemma_scan_sound(bytes, at + 1, noted(bytes, at as int, seen));
    }
}

/// Where detection succeeds, an image starts; where it fails, it says
/// that there is no image or that its version is not supported.
pub proof fn lemma_detect_sound(bytes: Seq<u8>)
    requires
        bytes.len() <= u64::MAX,
    ensures
        match detect(bytes) {
            Ok(found) => image_starts_at(bytes, found as int),
            Err(e) => detection_error(bytes, e),
        },
{
    reveal(detect);
    lemma_scan_sound(bytes, 0, None);
}

/// Whether a complaint may end a detection: there is no image, or the
/// version of a header in the bytes is not supported.
pub open spec fn detection_error(bytes: Seq<u8>, e: ErrorView) -> bool {
    ||| e is NotADwarfsImage
    ||| e is UnsupportedVersion && exists|at: int| #[trigger] refused_at(bytes, at, e)
}

/// Whether a header stands at `at` whose parse complains.
pub open spec fn refused_at(bytes: Seq<u8>, at: int, e: ErrorView) -> bool {
    0 <= at && at + 64 <= bytes.len() && magic_at(bytes, at) && header_at(bytes, at) == Err::<
        HeaderView,
        ErrorView,
    >(e)
}

/// Whether a detection over a source is right: exact over a reliable
/// source, and never a place where no image starts. A header that an I/O
/// error hides is passed over like one that does not parse.
pub open spec fn detection(bytes: Seq<u8>, reliable: bool, r: Result<u64, Error>) -> bool {
    &&& reliable ==> viewed(r) == detect(bytes)
    &&& match r {
        Ok(at) => image_starts_at(bytes, at as int),
        Err(e) => (!reliable && e@ is Io) || detection_error(bytes, e@),
    }
}

/// The complaint to end a scan with.
fn no_image(version_error: Option<Error>) -> (e: Error)
    ensures
        e@ == (match version_error {
            Some(v) => v@,
            None => ErrorView::NotADwarfsImage,
        }),
{
    match version_error {
        Some(v) => v,
        None => Error::NotADwarfsImage,
    }
}

spec fn seen_view(e: Option<Error>) -> Option<ErrorView> {
    match e {
        Some(v) => Some(v@),
        None => None,
    }
}

/// Locate the first section in `source`.
///
/// Sources backed by contiguous memory are scanned in place; the rest
/// are scanned through overlapping positional reads.
pub fn detect_base_offset_in<S: ImageSource + ?Sized>(source: &S) -> (r: Result<u64, Error>)
    ensures
        detection(source.bytes(), source.reliable(), r),
{
    proof {
        reveal(detect);
    }
    if let Some(bytes) = source.as_slice() {
        let r: Result<u64, Error> = detect_base_offset(bytes);
        assert(bytes@.len() == bytes.len());
        proof {
            lemma_detect_sound(bytes@);
        }
        return r;
    }
    let total: u64 = source.len();
    let ghost image = source.bytes();
    if total < HEADER_LEN as u64 {
        return Err(Error::NotADwarfsImage);
    }
    let last_header_start: u64 = total - HEADER_LEN as u64;
    let mut version_error: Option<Error> = None;
    let mut probe: u64 = 0;
    while probe <= last_header_start
        invariant
            image == source.bytes(),
            total == image.len(),
            64 <= total,
            last_header_start == total - 64,
            probe <= total,
            source.reliable() ==> detect(image) == scan(
                image,
                probe as nat,
                seen_view(version_error),
            ),
            version_error matches Some(e) ==> detection_error(image, e@),
        decreases total - probe,
    {
        let left: u64 = total - probe;
        let want: usize = if left < SCAN_CHUNK as u64 {
            left as usize
        } else {
            SCAN_CHUNK
        };
        let mut window: Vec<u8> = vec![0u8; want];
        source.read_exact_at(window.as_mut_slice(), probe)?;
        assert(window@ == image.subrange(probe as int, probe + want));
        let mut at: usize = 0;
        loop
            invariant
                image == source.bytes(),
                total == image.len(),
                64 <= total,
                last_header_start == total - 64,
                probe <= last_header_start,
                window@ == image.subrange(probe as int, probe + want),
                window@.len() == want,
                64 <= want <= SCAN_CHUNK,
                probe + want <= total,
                at <= want - 5,
                source.reliable() ==> detect(image) == scan(
                    image,
                    (probe + at) as nat,
                    seen_view(version_error),
                ),
                version_error matches Some(e) ==> detection_error(image, e@),
            ensures
                source.reliable() ==> detect(image) == scan(
                    image,
                    (probe + want - 5) as nat,
                    seen_view(version_error),
                ),
            decreases want - at,
        {
            let rel: usize = match find_magic(window.as_slice(), at) {
                Some(found) => found,
                None => {
                    proof {
                        lemma_window_has_none(image, window@, probe as int, at as int);
                        lemma_scan_skips(
                            image,
                            (probe + at) as nat,
                            (probe + want - 5) as nat,
                            seen_view(version_error),
                        );
                    }
                    break;
                },
            };
            let candidate: u64 = probe + rel as u64;
            proof {
                lemma_window_first(image, window@, probe as int, at as int, rel as int);
                lemma_scan_skips(
                    image,
                    (probe + at) as nat,
                    candidate as nat,
                    seen_view(version_error),
                );
            }
            if candidate > last_header_start {
                return Err(no_image(version_error));
            }
            match read_header(source, candidate) {
                Ok(header) => {
                    if source_follows_a_section_boundary(source, candidate, &header)? {
                        return Ok(candidate);
                    }
                },
                Err(err) => {
                    if version_error.is_none() && is_version_error(&err) {
                        assert(refused_at(image, candidate as int, err@));
                        version_error = Some(err);
                    }
                },
            }
            at = rel + 1;
        }
        if want < SCAN_CHUNK {
            proof {
                lemma_scan_end(image, (probe + want - 5) as nat, seen_view(version_error));
            }
            return Err(no_image(version_error));
        }
        probe = probe + (SCAN_CHUNK - 5) as u64;
    }
    proof {
        lemma_scan_end(image, probe as nat, seen_view(version_error));
    }
    Err(no_image(version_error))
}

proof fn lemma_scan_end(image: Seq<u8>, at: nat, seen: Option<ErrorView>)
    requires
        at + 64 > image.len(),
    ensures
        scan(image, at, seen) == (match seen {
            Some(e) => Err::<u64, ErrorView>(e),
            None => Err::<u64, ErrorView>(ErrorView::NotADwarfsImage),
        }),
{
}

fn is_version_error(e: &Error) -> (r: bool)
    ensures
        r == (e@ is UnsupportedVersion),
{
    match e {
        Error::UnsupportedVersion { .. } => true,
        _ => false,
    }
}

fn read_header<S: ImageSource + ?Sized>(source: &S, at: u64) -> (r: Result<SectionHeader, Error>)
    requires
        at + 64 <= source.bytes().len(),
    ensures
        match r {
            Ok(h) => header_at(source.bytes(), at as int) == Ok::<HeaderView, ErrorView>(h@),
            Err(e) => header_at(source.bytes(), at as int) == Err::<HeaderView, ErrorView>(e@) || (
            !source.reliable() && e@ is Io),
        },
{
    let mut buf: [u8; 64] = [0u8;64];
    source.read_exact_at(&mut buf, at)?;
    SectionHeader::parse(buf.as_slice(), at)
}

fn source_follows_a_section_boundary<S: ImageSource + ?Sized>(
    source: &S,
    at: u64,
    header: &SectionHeader,
) -> (r: Result<bool, Error>)
    ensures
        match r {
            Ok(b) => b == boundary_follows(source.bytes(), at as int, header@),
            Err(e) => !source.reliable() && e@ is Io,
        },
{
    let total: u64 = source.len();
    let next: u64 = match at.checked_add(header.section_len()) {
        Some(next) => next,
        None => {
            return Ok(false);
        },
    };
    if next == total {
        return Ok(true);
    }
    if next > total || total - next < 6 {
        return Ok(false);
    }
    let mut found: [u8; 6] = [0u8;6];
    source.read_exact_at(&mut found, next)?;
    proof {
        assert(found@.subrange(0, 6) =~= found@);
    }
    Ok(has_magic(found.as_slice(), 0))
}

/// Locate the byte offset of the first section in `image`.
///
/// Returns `Ok(offset)` where `offset` is 0 if no prefix is present.
/// Returns [`Error::NotADwarfsImage`] if no valid header can be found
/// in the input.
pub fn detect_base_offset(image: &[u8]) -> (r: Result<u64, Error>)
    ensures
        viewed(r) == detect(image@),
{
    proof {
        reveal(detect);
    }
    if image.len() < HEADER_LEN {
        return Err(Error::NotADwarfsImage);
    }
    let last_header_start: usize = image.len() - HEADER_LEN;
    let mut probe: usize = 0;
    let mut version_error: Option<Error> = None;
    while probe <= last_header_start
        invariant
            64 <= image.len(),
            last_header_start == image.len() - 64,
            probe <= image.len(),
            detect(image@) == scan(image@, probe as nat, seen_view(version_error)),
        decreases image.len() - probe,
    {
        let candidate: usize = match find_magic(image, probe) {
            Some(found) => found,
            None => {
                proof {
                    assert forall|i: int| probe <= i < image.len() implies !#[trigger] magic_at(
                        image@,
                        i,
                    ) by {}
                    lemma_scan_skips(
                        image@,
                        probe as nat,
                        image@.len(),
                        seen_view(version_error),
                    );
                }
                return Err(no_image(version_error));
            },
        };
        proof {
            lemma_scan_skips(
                image@,
                probe as nat,
                candidate as nat,
                seen_view(version_error),
            );
        }
        if candidate > last_header_start {
            return Err(no_image(version_error));
        }
        let header_bytes: &[u8] = vstd::slice::slice_subrange(
            image,
            candidate,
            candidate + HEADER_LEN,
        );
        match SectionHeader::parse(header_bytes, candidate as u64) {
            Ok(header) => {
                if follows_a_section_boundary(image, candidate, &header) {
                    return Ok(candidate as u64);
                }
            },
            Err(err) => {
                if version_error.is_none() && is_version_error(&err) {
                    version_error = Some(err);
                }
            },
        }
        probe = candidate + 1;
    }
    Err(no_image(version_error))
}

/// The first magic in `bytes[from..]`.
fn find_magic(bytes: &[u8], from: usize) -> (r: Option<usize>)
    requires
        from <= bytes.len(),
    ensures
        match r {
            Some(at) => from <= at && magic_at(bytes@, at as int) && forall|i: int|
                from <= i < at ==> !#[trigger] magic_at(bytes@, i),
            None => forall|i: int| from <= i ==> !#[trigger] magic_at(bytes@, i),
        },
{
    let mut at: usize = from;
    while at < bytes.len() && bytes.len() - at >= 6
        invariant
            from <= at <= bytes.len(),
            forall|i: int| from <= i < at ==> !#[trigger] magic_at(bytes@, i),
        decreases bytes.len() - at,
    {
        if has_magic(bytes, at) {
            return Some(at);
        }
        at = at + 1;
    }
    None
}

/// Confirm a candidate by checking that the section it describes is
/// followed either by the end of the image or by another section magic.
fn follows_a_section_boundary(image: &[u8], at: usize, header: &SectionHeader) -> (r: bool)
    ensures
        r == boundary_follows(image@, at as int, header@),
{
    let total: u64 = image.len() as u64;
    let next: u64 = match (at as u64).checked_add(header.section_len()) {
        Some(next) => next,
        None => {
            return false;
        },
    };
    if next == total {
        return true;
    }
    if next > total || total - next < 6 {
        return false;
    }
    has_magic(image, next as usize)
}

proof fn lemma_window_magic(image: Seq<u8>, window: Seq<u8>, probe: int, i: int)
    requires
        0 <= probe,
        probe + window.len() <= image.len(),
        window == image.subrange(probe, probe + window.len()),
        0 <= i,
    ensures
        i + 6 <= window.len() ==> magic_at(window, i) == magic_at(image, probe + i),
{
    if i + 6 <= window.len() {
        assert(window.subrange(i, i + 6) =~= image.subrange(probe + i, probe + i + 6));
    }
}

proof fn lemma_window_has_none(image: Seq<u8>, window: Seq<u8>, probe: int, at: int)
    requires
        0 <= probe,
        0 <= at,
        probe + window.len() <= image.len(),
        window == image.subrange(probe, probe + window.len()),
        forall|i: int| at <= i ==> !#[trigger] magic_at(window, i),
    ensures
        forall|i: int|
            probe + at <= i && i + 6 <= probe + window.len() ==> !#[trigger] magic_at(image, i),
{
    assert forall|i: int| probe + at <= i && i + 6 <= probe + window.len() implies
        !#[trigger] magic_at(image, i) by {
        lemma_window_magic(image, window, probe, i - probe);
        assert(!magic_at(window, i - probe));
    }
}

proof fn lemma_window_first(image: Seq<u8>, window: Seq<u8>, probe: int, at: int, rel: int)
    requires
        0 <= probe,
        0 <= at <= rel,
        probe + window.len() <= image.len(),
        window == image.subrange(probe, probe + window.len()),
        magic_at(window, rel),
        forall|i: int| at <= i < rel ==> !#[trigger] magic_at(window, i),
    ensures
        magic_at(image, probe + rel),
        forall|i: int| probe + at <= i < probe + rel ==> !#[trigger] magic_at(image, i),
{
    lemma_window_magic(image, window, probe, rel);
    assert forall|i: int| probe + at <= i < probe + rel implies !#[trigger] magic_at(image, i) by {
        lemma_window_magic(image, window, probe, i - probe);
        assert(!magic_at(window, i - probe));
    }
}

} // verus!
