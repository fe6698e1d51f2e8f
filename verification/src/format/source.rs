//! Byte sources an image can be read from.
//!
//! Memory-mapping the whole file is fast but offers no way to handle an
//! I/O error gracefully, typically crashing the process, while reading
//! into buffers is slower but recoverable. A consumer picks the
//! trade-off by picking a source.
//!
//! Sources are owned by the image. A source that owns its bytes lets no
//! lifetime propagate into the reader types.

use std::borrow::Cow;

use crate::error::{Error, ErrorView};
use vstd::prelude::*;

verus! {

/// The complaint about a read that the source cannot serve.
pub open spec fn out_of_bounds(offset: u64, len: u64, source_len: u64) -> ErrorView {
    ErrorView::SourceOutOfBounds { offset, len, source_len }
}

/// A random-access source of image bytes.
///
/// Implementations must be cheap to clone-free share across threads
/// because a mounted image serves reads concurrently.
pub trait ImageSource: Send + Sync {
    /// The bytes the source holds.
    spec fn bytes(&self) -> Seq<u8>;

    /// Whether every read inside the source succeeds. A source that can
    /// meet an I/O error is not reliable.
    spec fn reliable(&self) -> bool;

    /// Whether the source has its bytes as one contiguous region.
    spec fn contiguous(&self) -> bool;

    /// Total number of bytes the source can supply.
    fn len(&self) -> (r: u64)
        ensures
            r == self.bytes().len(),
    ;

    /// Whether the source is empty.
    fn is_empty(&self) -> (r: bool)
        ensures
            r == (self.bytes().len() == 0),
    {
        self.len() == 0
    }

    /// Fill `buf` with the bytes at `offset`.
    ///
    /// Returns [`Error::SourceOutOfBounds`] when the requested range is
    /// not entirely backed by the source, and leaves `buf` as it was.
    fn read_exact_at(&self, buf: &mut [u8], offset: u64) -> (r: Result<(), Error>)
        ensures
            final(buf)@.len() == old(buf)@.len(),
            match r {
                Ok(_) => offset + old(buf)@.len() <= self.bytes().len() && final(buf)@
                    == self.bytes().subrange(offset as int, offset + old(buf)@.len()),
                Err(e) => if offset + old(buf)@.len() <= self.bytes().len() {
                    !self.reliable() && e@ is Io
                } else {
                    e@ == out_of_bounds(
                        offset,
                        old(buf)@.len() as u64,
                        self.bytes().len() as u64,
                    ) && final(buf)@ == old(buf)@
                },
            },
    ;

    /// The whole source as one contiguous region, when it has one.
    ///
    /// Sources backed by memory return `Some` so callers can hash and
    /// decode in place. Sources that read positionally return `None`
    /// and callers fall back to [`ImageSource::read_exact_at`].
    fn as_slice(&self) -> (r: Option<&[u8]>)
        ensures
            match r {
                Some(s) => self.contiguous() && s@ == self.bytes(),
                None => !self.contiguous(),
            },
    ;
}

/// Bounds check shared by every in-memory source.
fn slice_at(bytes: &[u8], buf_len: usize, offset: u64) -> (r: Result<&[u8], Error>)
    ensures
        match r {
            Ok(s) => offset + buf_len <= bytes@.len() && s@ == bytes@.subrange(
                offset as int,
                offset + buf_len,
            ),
            Err(e) => offset + buf_len > bytes@.len() && e@ == out_of_bounds(
                offset,
                buf_len as u64,
                bytes@.len() as u64,
            ),
        },
{
    let source_len: u64 = bytes.len() as u64;
    if offset > source_len || (buf_len as u64) > source_len - offset {
        return Err(Error::SourceOutOfBounds { offset, len: buf_len as u64, source_len });
    }
    let start: usize = offset as usize;
    Ok(vstd::slice::slice_subrange(bytes, start, start + buf_len))
}

/// Copy `from` over `to`, which is as long.
fn copy_over(to: &mut [u8], from: &[u8])
    requires
        old(to)@.len() == from@.len(),
    ensures
        final(to)@ == from@,
{
    let mut i: usize = 0;
    while i < from.len()
        invariant
            i <= from.len(),
            to@.len() == from@.len(),
            forall|j: int| 0 <= j < i ==> to@[j] == from@[j],
        decreases from.len() - i,
    {
        to[i] = from[i];
        i = i + 1;
    }
    assert(to@ =~= from@);
}

impl ImageSource for Vec<u8> {
    open spec fn bytes(&self) -> Seq<u8> {
        self@
    }

    open spec fn reliable(&self) -> bool {
        true
    }

    open spec fn contiguous(&self) -> bool {
        true
    }

    fn len(&self) -> (r: u64) {
        let s: &[u8] = self.as_slice();
        s.len() as u64
    }

    fn read_exact_at(&self, buf: &mut [u8], offset: u64) -> (r: Result<(), Error>) {
        let s: &[u8] = slice_at(self.as_slice(), buf.len(), offset)?;
        copy_over(buf, s);
        Ok(())
    }

    fn as_slice(&self) -> (r: Option<&[u8]>) {
        Some(self.as_slice())
    }
}

/// A source over borrowed memory, such as a mapped file.
pub struct SliceSource<'a> {
    /// The bytes.
    pub bytes: &'a [u8],
}

impl<'a> ImageSource for SliceSource<'a> {
    open spec fn bytes(&self) -> Seq<u8> {
        self.bytes@
    }

    open spec fn reliable(&self) -> bool {
        true
    }

    open spec fn contiguous(&self) -> bool {
        true
    }

    fn len(&self) -> (r: u64) {
        self.bytes.len() as u64
    }

    fn read_exact_at(&self, buf: &mut [u8], offset: u64) -> (r: Result<(), Error>) {
        let s: &[u8] = slice_at(self.bytes, buf.len(), offset)?;
        copy_over(buf, s);
        Ok(())
    }

    fn as_slice(&self) -> (r: Option<&[u8]>) {
        Some(self.bytes)
    }
}

/// Whether a reading function answers every request inside `bytes` with
/// the bytes asked for or with an I/O error.
pub open spec fn serves<F: Fn(u64, usize) -> Result<Vec<u8>, Error>>(
    read: F,
    bytes: Seq<u8>,
) -> bool {
    forall|offset: u64, len: usize, r: Result<Vec<u8>, Error>| #[trigger]
        read.ensures((offset, len), r) && offset + len <= bytes.len() ==> match r {
            Ok(v) => v@ == bytes.subrange(offset as int, offset + len),
            Err(e) => e@ is Io,
        }
}

/// Whether a reading function reads from a file of `len` bytes.
pub open spec fn reads_a_file<F: Fn(u64, usize) -> Result<Vec<u8>, Error>>(
    read: F,
    len: u64,
) -> bool {
    &&& forall|offset: u64, count: usize| #[trigger] read.requires((offset, count))
    &&& exists|bytes: Seq<u8>| bytes.len() == len && #[trigger] serves(read, bytes)
}

/// A source that reads positionally, through a function from an offset
/// and a length to the bytes there.
///
/// Nothing is mapped, so an I/O error surfaces as an error rather than
/// a fault. This is the source to use when the image lives inside a
/// larger file that the process cannot afford to map.
pub struct FileSource<F: Fn(u64, usize) -> Result<Vec<u8>, Error>> {
    read: F,
    len: u64,
    bytes: Ghost<Seq<u8>>,
}

impl<F: Fn(u64, usize) -> Result<Vec<u8>, Error>> FileSource<F> {
    /// The reading function reads the file's bytes.
    #[verifier::type_invariant]
    closed spec fn wf(&self) -> bool {
        &&& self.bytes@.len() == self.len
        &&& serves(self.read, self.bytes@)
        &&& forall|offset: u64, count: usize| #[trigger] self.read.requires((offset, count))
    }

    /// The bytes of the file.
    pub closed spec fn contents(&self) -> Seq<u8> {
        self.bytes@
    }

    /// Wrap a function that reads from a file of `len` bytes.
    pub fn new(len: u64, read: F) -> (r: Self)
        requires
            reads_a_file(read, len),
        ensures
            r.contents().len() == len,
            serves(read, r.contents()),
    {
        let ghost bytes = choose|bytes: Seq<u8>|
            bytes.len() == len && #[trigger] serves(read, bytes);
        FileSource { read, len, bytes: Ghost(bytes) }
    }
}

impl<F: Fn(u64, usize) -> Result<Vec<u8>, Error> + Send + Sync> ImageSource for FileSource<F> {
    open spec fn bytes(&self) -> Seq<u8> {
        self.contents()
    }

    open spec fn reliable(&self) -> bool {
        false
    }

    open spec fn contiguous(&self) -> bool {
        false
    }

    fn len(&self) -> (r: u64) {
        proof {
            use_type_invariant(self);
        }
        self.len
    }

    fn read_exact_at(&self, buf: &mut [u8], offset: u64) -> (r: Result<(), Error>) {
        proof {
            use_type_invariant(self);
        }
        let want: u64 = buf.len() as u64;
        if offset > self.len || want > self.len - offset {
            return Err(Error::SourceOutOfBounds { offset, len: want, source_len: self.len });
        }
        let got: Vec<u8> = (self.read)(offset, buf.len())?;
        copy_over(buf, got.as_slice());
        Ok(())
    }

    fn as_slice(&self) -> (r: Option<&[u8]>) {
        None
    }
}

/// A source restricted to a byte range of another source.
///
/// An image embedded in a larger file is bounded on both sides: a
/// prefix before it and unrelated data after it. Section walking stops
/// at the end of the source and the section index is found from the
/// last eight bytes of it, so confining the range is what makes an
/// embedded image readable at all.
pub struct WindowedSource<S: ImageSource> {
    inner: S,
    offset: u64,
    len: u64,
}

impl<S: ImageSource> WindowedSource<S> {
    /// The window lies inside the inner source.
    #[verifier::type_invariant]
    closed spec fn wf(&self) -> bool {
        self.offset + self.len <= self.inner.bytes().len() <= u64::MAX
    }

    /// Restrict `inner` to `len` bytes starting at `offset`.
    ///
    /// Returns [`Error::SourceOutOfBounds`] when the window is not
    /// entirely backed by `inner`.
    pub fn new(inner: S, offset: u64, len: u64) -> (r: Result<Self, Error>)
        ensures
            match r {
                Ok(w) => offset + len <= inner.bytes().len() && w.bytes()
                    == inner.bytes().subrange(offset as int, offset + len) && w.reliable()
                    == inner.reliable() && w.contiguous() == inner.contiguous(),
                Err(e) => offset + len > inner.bytes().len() && e@ == out_of_bounds(
                    offset,
                    len,
                    inner.bytes().len() as u64,
                ),
            },
    {
        let source_len: u64 = inner.len();
        if offset > source_len || len > source_len - offset {
            return Err(Error::SourceOutOfBounds { offset, len, source_len });
        }
        Ok(Self { inner, offset, len })
    }
}

impl<S: ImageSource> ImageSource for WindowedSource<S> {
    closed spec fn bytes(&self) -> Seq<u8> {
        self.inner.bytes().subrange(self.offset as int, self.offset + self.len)
    }

    closed spec fn reliable(&self) -> bool {
        self.inner.reliable()
    }

    closed spec fn contiguous(&self) -> bool {
        self.inner.contiguous()
    }

    fn len(&self) -> (r: u64) {
        proof {
            use_type_invariant(self);
        }
        self.len
    }

    fn read_exact_at(&self, buf: &mut [u8], offset: u64) -> (r: Result<(), Error>) {
        proof {
            use_type_invariant(self);
        }
        let want: u64 = buf.len() as u64;
        if offset > self.len || want > self.len - offset {
            return Err(Error::SourceOutOfBounds { offset, len: want, source_len: self.len });
        }
        let r: Result<(), Error> = self.inner.read_exact_at(buf, self.offset + offset);
        proof {
            assert(self.bytes().subrange(offset as int, offset + want)
                =~= self.inner.bytes().subrange(
                self.offset + offset,
                self.offset + offset + want,
            ));
        }
        r
    }

    fn as_slice(&self) -> (r: Option<&[u8]>) {
        proof {
            use_type_invariant(self);
        }
        match self.inner.as_slice() {
            Some(bytes) => {
                let start: usize = self.offset as usize;
                let end: usize = (self.offset + self.len) as usize;
                assert(end <= bytes.len());
                Some(vstd::slice::slice_subrange(bytes, start, end))
            },
            None => None,
        }
    }
}

/// The bytes of a borrowed or owned slice.
pub open spec fn cow_bytes(c: Cow<'_, [u8]>) -> Seq<u8> {
    match c {
        Cow::Borrowed(b) => b@,
        Cow::Owned(v) => v@,
    }
}

/// View a borrowed or owned slice as a slice.
pub fn cow_slice<'a>(c: &'a Cow<'_, [u8]>) -> (r: &'a [u8])
    ensures
        r@ == cow_bytes(*c),
{
    match c {
        Cow::Borrowed(b) => b,
        Cow::Owned(v) => v.as_slice(),
    }
}

/// What reading `len` bytes at `offset` of `bytes` answers.
pub open spec fn range_of(bytes: Seq<u8>, offset: u64, len: u64) -> Result<Seq<u8>, ErrorView> {
    if offset + len > bytes.len() || len > usize::MAX {
        Err(out_of_bounds(offset, len, bytes.len() as u64))
    } else {
        Ok(bytes.subrange(offset as int, offset + len))
    }
}

/// Read `len` bytes at `offset` from `source`, borrowing when possible.
pub fn read_range<S: ImageSource + ?Sized>(source: &S, offset: u64, len: u64) -> (r: Result<
    Cow<'_, [u8]>,
    Error,
>)
    ensures
        match r {
            Ok(c) => range_of(source.bytes(), offset, len) == Ok::<Seq<u8>, ErrorView>(
                cow_bytes(c),
            ),
            Err(e) => range_of(source.bytes(), offset, len) == Err::<Seq<u8>, ErrorView>(e@) || (
            !source.reliable() && e@ is Io),
        },
{
    let source_len: u64 = source.len();
    if offset > source_len || len > source_len - offset || len > usize::MAX as u64 {
        return Err(Error::SourceOutOfBounds { offset, len, source_len });
    }
    let count: usize = len as usize;
    if let Some(bytes) = source.as_slice() {
        let start: usize = offset as usize;
        assert(start + count <= bytes.len());
        return Ok(Cow::Borrowed(vstd::slice::slice_subrange(bytes, start, start + count)));
    }
    let mut buf: Vec<u8> = vec![0u8; count];
    source.read_exact_at(buf.as_mut_slice(), offset)?;
    Ok(Cow::Owned(buf))
}

} // verus!
