//! LSB-first bit reader for the Frozen2 payload.
//!
//! Frozen2 packs primitive values bit-by-bit, low-bit-first within
//! each byte: bit offset 0 is the least-significant bit of byte 0,
//! bit offset 8 is the least-significant bit of byte 1, and so on.
//! Reads of up to 64 bits are supported and may straddle up to nine
//! bytes when a request starts mid-byte.

use crate::bytes::{le, lemma_le_append, lemma_le_bound};
use crate::error::{Error, ErrorView, outcome};
use crate::text::{Text, dec};
use vstd::arithmetic::div_mod::*;
use vstd::arithmetic::mul::*;
use vstd::arithmetic::power2::*;
use vstd::bits::*;
use vstd::prelude::*;

verus! {

/// Bits `at..at + n` of `bytes`, as the number they spell low-bit-first.
pub open spec fn bit_field(bytes: Seq<u8>, at: nat, n: nat) -> nat {
    (le(bytes) / pow2(at)) % pow2(n)
}

/// What a read of `n` bits at bit `at` answers.
pub open spec fn read_bits(bytes: Seq<u8>, at: u64, n: u32) -> Result<u64, ErrorView> {
    if n == 0 {
        Ok(0)
    } else if n > 64 {
        Err(
            ErrorView::Decode {
                codec: "frozen2-bitbuf"@,
                message: "requested "@ + dec(n as nat) + " bits, max is 64"@,
            },
        )
    } else if at + n > u64::MAX {
        Err(ErrorView::Decode { codec: "frozen2-bitbuf"@, message: "bit offset overflow"@ })
    } else if at + n > 8 * bytes.len() {
        Err(
            ErrorView::Decode {
                codec: "frozen2-bitbuf"@,
                message: "read of "@ + dec(n as nat) + " bits at "@ + dec(at as nat)
                    + " runs past end ("@ + dec(8 * bytes.len()) + " bits)"@,
            },
        )
    } else {
        Ok(bit_field(bytes, at as nat, n as nat) as u64)
    }
}

/// Two's complement reading of the low `n` bits of `raw`.
pub open spec fn sign_extend(raw: nat, n: nat) -> int {
    if n == 0 {
        0
    } else if raw >= pow2((n - 1) as nat) {
        raw - pow2(n)
    } else {
        raw as int
    }
}

/// What a signed read of `n` bits at bit `at` answers.
pub open spec fn read_signed_bits(bytes: Seq<u8>, at: u64, n: u32) -> Result<i64, ErrorView> {
    if n > 64 {
        Err(
            ErrorView::Decode {
                codec: "frozen2-bitbuf"@,
                message: "requested "@ + dec(n as nat) + " signed bits, max 64"@,
            },
        )
    } else {
        match read_bits(bytes, at, n) {
            Ok(raw) => Ok(sign_extend(raw as nat, n as nat) as i64),
            Err(e) => Err(e),
        }
    }
}

/// A field lies below its width.
pub proof fn lemma_bit_field_bound(bytes: Seq<u8>, at: nat, n: nat)
    ensures
        bit_field(bytes, at, n) < pow2(n),
        n <= 64 ==> bit_field(bytes, at, n) <= u64::MAX,
{
    lemma_pow2_pos(n);
    lemma_mod_bound((le(bytes) / pow2(at)) as int, pow2(n) as int);
    lemma2_to64_rest();
    if n < 64 {
        lemma_pow2_strictly_increases(n, 64);
    }
}

/// A field splits into its low bits and the bits that follow them.
pub proof fn lemma_bit_field_split(bytes: Seq<u8>, at: nat, a: nat, b: nat)
    ensures
        bit_field(bytes, at, a + b) == bit_field(bytes, at, a) + pow2(a) * bit_field(
            bytes,
            at + a,
            b,
        ),
{
    let x = le(bytes) as int;
    lemma_pow2_pos(at);
    lemma_pow2_pos(a);
    lemma_pow2_pos(b);
    lemma_pow2_adds(a, b);
    lemma_pow2_adds(at, a);
    let y = x / pow2(at) as int;
    assert(y >= 0) by {
        lemma_div_pos_is_pos(x, pow2(at) as int);
    }
    lemma_breakdown(y, pow2(a) as int, pow2(b) as int);
    lemma_div_denominator(x, pow2(at) as int, pow2(a) as int);
    assert(pow2(at) as int * pow2(a) as int == pow2(at + a) as int);
}

/// Bits outside a byte range do not influence a field inside it.
pub proof fn lemma_bit_field_window(bytes: Seq<u8>, lo: nat, hi: nat, at: nat, n: nat)
    requires
        lo <= hi <= bytes.len(),
        8 * lo <= at,
        at + n <= 8 * hi,
    ensures
        bit_field(bytes, at, n) == bit_field(
            bytes.subrange(lo as int, hi as int),
            (at - 8 * lo) as nat,
            n,
        ),
{
    let a = bytes.take(lo as int);
    let s = bytes.subrange(lo as int, hi as int);
    let c = bytes.skip(hi as int);
    let span = (hi - lo) as nat;
    let shift = (at - 8 * lo) as nat;
    assert(bytes == a + (s + c));
    lemma_le_append(a, s + c);
    lemma_le_append(s, c);
    lemma_le_bound(a);
    lemma_pow2_pos(8 * lo);
    lemma_pow2_pos(shift);
    lemma_pow2_pos(n);
    // Dropping the bytes below.
    let mid = le(s + c) as int;
    let p = pow2(8 * lo) as int;
    assert((le(a) as int + p * mid) / p == mid) by {
        lemma_fundamental_div_mod_converse(le(a) + p * mid, p, mid, le(a) as int);
    }
    lemma_pow2_adds(8 * lo, shift);
    lemma_div_denominator(le(bytes) as int, p, pow2(shift) as int);
    assert(le(bytes) as int / pow2(at) as int == mid / pow2(shift) as int);
    // Dropping the bytes above.
    let rest = (8 * span - shift - n) as nat;
    lemma_pow2_adds(shift, (n + rest) as nat);
    lemma_pow2_adds(n, rest);
    let q = pow2(shift) as int;
    let m = pow2(n) as int;
    let extra = pow2(rest) as int * le(c) as int;
    assert(pow2(8 * span) as int * le(c) as int == q * (m * extra)) by (nonlinear_arith)
        requires
            pow2(8 * span) as int == q * (m * pow2(rest) as int),
            extra == pow2(rest) as int * le(c) as int,
    ;
    assert((le(s) as int + q * (m * extra)) / q == le(s) as int / q + m * extra) by {
        lemma_div_multiples_vanish_fancy_sum(le(s) as int, m * extra, q);
    }
    lemma_mod_multiples_vanish(extra, le(s) as int / q, m);
    assert((m * extra + le(s) as int / q) % m == (le(s) as int / q) % m);
}

proof fn lemma_div_multiples_vanish_fancy_sum(x: int, k: int, d: int)
    requires
        d > 0,
    ensures
        (x + d * k) / d == x / d + k,
{
    lemma_fundamental_div_mod(x, d);
    lemma_mod_bound(x, d);
    assert(d * (x / d + k) == d * (x / d) + d * k) by (nonlinear_arith);
    lemma_fundamental_div_mod_converse(x + d * k, d, x / d + k, x % d);
}

/// Bit `j` of `bytes`, zero or one: bit 0 is the least significant bit of
/// the first byte, bit 8 that of the second.
pub open spec fn bit_of(bytes: Seq<u8>, j: int) -> nat {
    (bytes[j / 8] as nat / pow2((j % 8) as nat)) % 2
}

/// The number whose binary digits, lowest first, are the `n` bits of
/// `bytes` from bit `at` on.
pub open spec fn stored_number(bytes: Seq<u8>, at: int, n: nat) -> nat
    decreases n,
{
    if n == 0 {
        0
    } else {
        bit_of(bytes, at) + 2 * stored_number(bytes, at + 1, (n - 1) as nat)
    }
}

proof fn lemma_one_bit(bytes: Seq<u8>, at: nat)
    requires
        at < 8 * bytes.len(),
    ensures
        bit_field(bytes, at, 1) == bit_of(bytes, at as int),
{
    let lo = at / 8;
    lemma_bit_field_window(bytes, lo, lo + 1, at, 1);
    let one = bytes.subrange(lo as int, (lo + 1) as int);
    assert(one.skip(1) =~= Seq::<u8>::empty());
    assert(le(one.skip(1)) == 0);
    assert(le(one) == bytes[lo as int]);
    assert(at - 8 * lo == at % 8);
    lemma2_to64();
}

/// A field spells the bits that are stored from its first bit on.
pub proof fn lemma_field_spells_bits(bytes: Seq<u8>, at: nat, n: nat)
    requires
        at + n <= 8 * bytes.len(),
    ensures
        bit_field(bytes, at, n) == stored_number(bytes, at as int, n),
        stored_number(bytes, at as int, n) < pow2(n),
    decreases n,
{
    lemma_bit_field_bound(bytes, at, n);
    lemma2_to64();
    if n > 0 {
        lemma_bit_field_split(bytes, at, 1, (n - 1) as nat);
        lemma_one_bit(bytes, at);
        lemma_field_spells_bits(bytes, at + 1, (n - 1) as nat);
        assert(1 + (n - 1) as nat == n);
    } else {
        assert(bit_field(bytes, at, 0) == 0) by {
            assert(pow2(0) == 1);
            lemma_mod_self_0(1);
        }
    }
}

/// A read of up to 64 bits inside the buffer succeeds and gives the number
/// that those bits spell, wherever in a byte they start.
pub proof fn lemma_read_spells_bits(bytes: Seq<u8>, at: u64, n: u32)
    requires
        n <= 64,
        at + n <= 8 * bytes.len(),
        at + n <= u64::MAX,
    ensures
        read_bits(bytes, at, n) matches Ok(v) && v == stored_number(bytes, at as int, n as nat),
{
    lemma_field_spells_bits(bytes, at as nat, n as nat);
    lemma_bit_field_bound(bytes, at as nat, n as nat);
}

/// A read never gives anything but the number that the bits spell, and
/// never reads past the buffer.
pub proof fn lemma_read_is_inside(bytes: Seq<u8>, at: u64, n: u32)
    requires
        read_bits(bytes, at, n) is Ok,
        n > 0,
    ensures
        n <= 64,
        at + n <= 8 * bytes.len(),
        read_bits(bytes, at, n)->Ok_0 == stored_number(bytes, at as int, n as nat),
{
    lemma_read_spells_bits(bytes, at, n);
}

/// A signed read is the number of that many bits in two's complement: it
/// differs from the stored number by nothing or by 2^n, and lies between
/// `-2^(n-1)` and `2^(n-1)`.
pub proof fn lemma_signed_read_is_twos_complement(bytes: Seq<u8>, at: u64, n: u32)
    requires
        1 <= n <= 64,
        at + n <= 8 * bytes.len(),
        at + n <= u64::MAX,
    ensures
        read_signed_bits(bytes, at, n) matches Ok(v) && {
            let raw = stored_number(bytes, at as int, n as nat) as int;
            &&& v == raw || v == raw - pow2(n as nat)
            &&& -pow2((n - 1) as nat) <= v < pow2((n - 1) as nat)
        },
{
    lemma_read_spells_bits(bytes, at, n);
    lemma_field_spells_bits(bytes, at as nat, n as nat);
    let raw = stored_number(bytes, at as int, n as nat);
    let half = pow2((n - 1) as nat);
    lemma_pow2_adds(1, (n - 1) as nat);
    lemma2_to64();
    lemma2_to64_rest();
    assert(pow2(n as nat) == 2 * half);
    if n < 64 {
        lemma_pow2_strictly_increases((n - 1) as nat, 63);
    }
    assert(half <= pow2(63));
    assert(pow2(63) == 0x8000_0000_0000_0000);
    let v = sign_extend(raw, n as nat);
    assert(-half <= v < half);
    assert(v as i64 == v);
}

/// A read-only view over a byte slice that addresses individual bits
/// in LSB-first order.
#[derive(Debug, Clone, Copy)]
pub struct BitBuf<'a> {
    bytes: &'a [u8],
}

impl<'a> View for BitBuf<'a> {
    type V = Seq<u8>;

    closed spec fn view(&self) -> Seq<u8> {
        self.bytes@
    }
}

impl<'a> BitBuf<'a> {
    /// Wrap a byte slice. The buffer is purely a view; no allocation.
    pub fn new(bytes: &'a [u8]) -> (r: Self)
        ensures
            r@ == bytes@,
    {
        Self { bytes }
    }

    /// Borrow the backing byte slice.
    pub fn bytes(&self) -> (r: &'a [u8])
        ensures
            r@ == self@,
    {
        self.bytes
    }

    /// Total bit length addressable by this buffer.
    pub fn bit_len(&self) -> (r: u64)
        requires
            8 * self@.len() <= u64::MAX,
        ensures
            r == 8 * self@.len(),
    {
        (self.bytes.len() as u64) * 8
    }

    /// Read `num_bits` (0..=64) starting at `bit_offset`, returning
    /// the value zero-extended into a `u64`.
    pub fn read_u64(&self, bit_offset: u64, num_bits: u32) -> (r: Result<u64, Error>)
        ensures
            outcome(r, read_bits(self@, bit_offset, num_bits)),
    {
        if num_bits == 0 {
            return Ok(0);
        }
        if num_bits > 64 {
            return Err(
                decode(Text::of("requested ").num(num_bits as u64).str(" bits, max is 64")),
            );
        }
        let end_bit: u64 = match bit_offset.checked_add(num_bits as u64) {
            Some(end) => end,
            None => {
                return Err(decode(Text::of("bit offset overflow")));
            },
        };
        if end_bit as u128 > (self.bytes.len() as u128) * 8 {
            return Err(
                decode(
                    Text::of("read of ").num(num_bits as u64).str(" bits at ").num(bit_offset).str(
                        " runs past end (",
                    ).num(self.bit_len()).str(" bits)"),
                ),
            );
        }
        let byte_off: usize = (bit_offset / 8) as usize;
        let shift: u32 = (bit_offset % 8) as u32;
        let span: usize = ((shift + num_bits + 7) / 8) as usize;
        let ghost window = self@.subrange(byte_off as int, byte_off + span);
        let mut acc: u128 = 0;
        let mut i: usize = span;
        proof {
            lemma2_to64();
            lemma2_to64_rest();
            lemma_pow2_adds(64, 8);
        }
        while i > 0
            invariant
                i <= span <= 9,
                byte_off + span <= self.bytes.len(),
                pow2(72) == 0x100_0000_0000_0000_0000,
                acc == le(self@.subrange(byte_off + i, byte_off + span)),
            decreases i,
        {
            i = i - 1;
            let ghost tail = self@.subrange(byte_off + i, byte_off + span);
            proof {
                assert(tail.skip(1) == self@.subrange(byte_off + i + 1, byte_off + span));
                lemma_le_bound(tail);
                if 8 * tail.len() < 72 {
                    lemma_pow2_strictly_increases(8 * tail.len(), 72);
                }
            }
            acc = acc * 256 + self.bytes[byte_off + i] as u128;
        }
        proof {
            lemma_bit_field_window(
                self@,
                byte_off as nat,
                (byte_off + span) as nat,
                bit_offset as nat,
                num_bits as nat,
            );
            lemma_bit_field_bound(self@, bit_offset as nat, num_bits as nat);
            lemma_u128_shr_is_div(acc, shift as u128);
        }
        let shifted: u128 = acc >> (shift as u128);
        let low: u64 = shifted as u64;
        assert(low == shifted % 0x1_0000_0000_0000_0000) by (bit_vector)
            requires
                low == shifted as u64,
        ;
        if num_bits == 64 {
            return Ok(low);
        }
        proof {
            lemma_u64_shl_is_mul(1, num_bits as u64);
            lemma_u64_pow2_no_overflow(num_bits as nat);
            lemma_u64_low_bits_mask_is_mod(low, num_bits as nat);
            reveal(low_bits_mask);
            let m = pow2(num_bits as nat) as int;
            let k = pow2((64 - num_bits) as nat) as int;
            lemma_pow2_adds(num_bits as nat, (64 - num_bits) as nat);
            lemma_pow2_pos((64 - num_bits) as nat);
            lemma_mod_mod(shifted as int, m, k);
        }
        let mask: u64 = (1u64 << (num_bits as u64)) - 1;
        Ok(low & mask)
    }

    /// Read a single bit (0 or 1) as a boolean.
    pub fn read_bool(&self, bit_offset: u64) -> (r: Result<bool, Error>)
        ensures
            outcome(
                r,
                match read_bits(self@, bit_offset, 1) {
                    Ok(v) => Ok::<bool, ErrorView>(v != 0),
                    Err(e) => Err(e),
                },
            ),
    {
        match self.read_u64(bit_offset, 1) {
            Ok(v) => Ok(v != 0),
            Err(e) => Err(e),
        }
    }

    /// Read `num_bits` and interpret the top bit as a sign bit.
    ///
    /// For `num_bits == 0` returns 0. Up to 63 sign-extended bits are
    /// supported (an i64 has 63 magnitude bits + 1 sign bit).
    pub fn read_i64(&self, bit_offset: u64, num_bits: u32) -> (r: Result<i64, Error>)
        ensures
            outcome(r, read_signed_bits(self@, bit_offset, num_bits)),
    {
        if num_bits == 0 {
            return Ok(0);
        }
        if num_bits > 64 {
            return Err(
                decode(Text::of("requested ").num(num_bits as u64).str(" signed bits, max 64")),
            );
        }
        let raw: u64 = match self.read_u64(bit_offset, num_bits) {
            Ok(v) => v,
            Err(e) => {
                return Err(e);
            },
        };
        proof {
            lemma2_to64();
            lemma2_to64_rest();
            lemma_bit_field_bound(self@, bit_offset as nat, num_bits as nat);
            lemma_pow2_unfold(num_bits as nat);
        }
        if num_bits == 64 {
            assert(raw >= 0x8000_0000_0000_0000 ==> raw as i64 == raw - 0x1_0000_0000_0000_0000)
                by (bit_vector);
            return Ok(raw as i64);
        }
        proof {
            lemma_u64_shl_is_mul(1, (num_bits - 1) as u64);
            lemma_u64_pow2_no_overflow((num_bits - 1) as nat);
            lemma_u64_shl_is_mul(1, num_bits as u64);
            lemma_u64_pow2_no_overflow(num_bits as nat);
            if num_bits < 63 {
                lemma_pow2_strictly_increases(num_bits as nat, 63);
            }
        }
        let sign_bit: u64 = 1u64 << ((num_bits - 1) as u64);
        if raw >= sign_bit {
            // `raw - 2^num_bits` lies in `-2^(num_bits - 1)..0`.
            Ok((raw as i128 - (1u64 << (num_bits as u64)) as i128) as i64)
        } else {
            Ok(raw as i64)
        }
    }
}

fn decode(message: Text) -> (e: Error)
    ensures
        e@ == (ErrorView::Decode { codec: "frozen2-bitbuf"@, message: message@ }),
{
    Error::Decode { codec: "frozen2-bitbuf", message: message.done() }
}

} // verus!
