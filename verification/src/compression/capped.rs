//! Hostile-input output cap: a sink that refuses output beyond a
//! configured bound.
//!
//! Decoders for compressed sections are passed an untrusted byte
//! stream that can decompress to far more bytes than the original.
//! Collecting the decoder's output in such a sink bounds the
//! allocation independently of the codec's behavior.

use crate::error::Error;
use crate::text::{Text, dec};
use vstd::prelude::*;

verus! {

/// The complaint about output beyond a cap.
pub open spec fn cap_text(cap: nat) -> Seq<char> {
    "output exceeded cap of "@ + dec(cap) + " bytes"@
}

/// What a capped buffer holds, and its cap.
#[verifier::ext_equal]
pub struct CappedView {
    pub bytes: Seq<u8>,
    pub cap: nat,
}

/// A capped buffer that grows as bytes are written but rejects any
/// write that would exceed the configured cap.
pub struct CappedWriter {
    buf: Vec<u8>,
    cap: usize,
}

impl View for CappedWriter {
    type V = CappedView;

    closed spec fn view(&self) -> CappedView {
        CappedView { bytes: self.buf@, cap: self.cap as nat }
    }
}

impl CappedWriter {
    /// Never more bytes than the cap.
    #[verifier::type_invariant]
    closed spec fn wf(&self) -> bool {
        self.buf@.len() <= self.cap
    }

    /// Create a new writer that accepts up to `cap` bytes total.
    pub fn new(cap: usize) -> (r: Self)
        ensures
            r@ == (CappedView { bytes: Seq::empty(), cap: cap as nat }),
    {
        let hint: usize = if cap < 64 * 1024 {
            cap
        } else {
            64 * 1024
        };
        Self { buf: Vec::with_capacity(hint), cap }
    }

    /// Reserve for an output size the caller already knows, so a large
    /// payload does not grow its buffer a reallocation at a time. The
    /// cap is still enforced, and the hint is clamped to it so a
    /// declared size cannot drive the allocation.
    pub fn with_expected_size(cap: usize, expected: usize) -> (r: Self)
        ensures
            r@ == (CappedView { bytes: Seq::empty(), cap: cap as nat }),
    {
        let hint: usize = if expected < cap {
            expected
        } else {
            cap
        };
        Self { buf: Vec::with_capacity(hint), cap }
    }

    /// Consume the writer and return the buffered bytes.
    pub fn into_inner(self) -> (r: Vec<u8>)
        ensures
            r@ == self@.bytes,
            r@.len() <= self@.cap,
    {
        proof {
            use_type_invariant(&self);
        }
        self.buf
    }

    /// Borrow the buffered bytes without consuming the writer.
    pub fn as_slice(&self) -> (r: &[u8])
        ensures
            r@ == self@.bytes,
    {
        self.buf.as_slice()
    }

    /// Number of bytes written so far.
    pub fn len(&self) -> (r: usize)
        ensures
            r == self@.bytes.len(),
            r <= self@.cap,
    {
        proof {
            use_type_invariant(self);
        }
        self.buf.len()
    }

    /// True when no bytes have been written.
    pub fn is_empty(&self) -> (r: bool)
        ensures
            r == (self@.bytes.len() == 0),
    {
        self.buf.len() == 0
    }

    /// Append `data`, or reject it whole when it would exceed the cap.
    /// The rejection's message is the error value.
    pub fn write_all(&mut self, data: &[u8]) -> (r: Result<(), String>)
        ensures
            final(self)@.cap == old(self)@.cap,
            match r {
                Ok(_) => old(self)@.bytes.len() + data@.len() <= old(self)@.cap
                    && final(self)@.bytes == old(self)@.bytes + data@,
                Err(m) => old(self)@.bytes.len() + data@.len() > old(self)@.cap && m@ == cap_text(
                    old(self)@.cap,
                ) && final(self)@.bytes == old(self)@.bytes,
            },
    {
        proof {
            use_type_invariant(&*self);
        }
        if data.len() > self.cap - self.buf.len() {
            return Err(
                Text::of("output exceeded cap of ").num(self.cap as u64).str(" bytes").done(),
            );
        }
        let ghost before = self.buf@;
        let mut grown: Vec<u8> = Vec::new();
        std::mem::swap(&mut grown, &mut self.buf);
        grown.extend_from_slice(data);
        assert(grown@ =~= before + data@);
        self.buf = grown;
        Ok(())
    }
}

} // verus!
