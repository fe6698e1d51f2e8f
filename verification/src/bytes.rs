//! Little-endian numbers in byte sequences.

use vstd::arithmetic::div_mod::*;
use vstd::arithmetic::mul::*;
use vstd::arithmetic::power2::*;
use vstd::prelude::*;

verus! {

/// The number whose little-endian bytes are `s`.
pub open spec fn le(s: Seq<u8>) -> nat
    decreases s.len(),
{
    if s.len() == 0 {
        0
    } else {
        s[0] as nat + 256 * le(s.skip(1))
    }
}

/// The `n` little-endian bytes of `v`, dropping what does not fit.
pub open spec fn to_le(v: nat, n: nat) -> Seq<u8>
    decreases n,
{
    if n == 0 {
        Seq::empty()
    } else {
        seq![(v % 256) as u8] + to_le(v / 256, (n - 1) as nat)
    }
}

/// A little-endian number is smaller than the range of its bytes.
pub proof fn lemma_le_bound(s: Seq<u8>)
    ensures
        le(s) < pow2(8 * s.len()),
    decreases s.len(),
{
    lemma2_to64();
    if s.len() > 0 {
        lemma_le_bound(s.skip(1));
        lemma_pow2_adds(8, (8 * (s.len() - 1)) as nat);
        assert(8 + 8 * (s.len() - 1) == 8 * s.len());
        assert(pow2(8 * s.len()) == 256 * pow2((8 * (s.len() - 1)) as nat));
    }
}

/// Appending bytes adds their number above the first ones.
pub proof fn lemma_le_append(a: Seq<u8>, b: Seq<u8>)
    ensures
        le(a + b) == le(a) + pow2(8 * a.len()) * le(b),
    decreases a.len(),
{
    lemma2_to64();
    if a.len() == 0 {
        assert(a + b == b);
        assert(pow2(8 * a.len()) * le(b) == le(b)) by {
            assert(8 * a.len() == 0);
            lemma_mul_basics(le(b) as int);
        }
    } else {
        lemma_le_append(a.skip(1), b);
        assert((a + b).skip(1) == a.skip(1) + b);
        lemma_pow2_adds(8, (8 * (a.len() - 1)) as nat);
        let p = pow2((8 * (a.len() - 1)) as nat);
        assert(8 + 8 * (a.len() - 1) == 8 * a.len());
        assert(256 * (p * le(b)) == (256 * p) * le(b)) by (nonlinear_arith);
        assert(256 * (le(a.skip(1)) + p * le(b)) == 256 * le(a.skip(1)) + 256 * (p * le(b)));
    }
}

/// Reading back what was written gives the number again, as far as it fits.
pub proof fn lemma_to_le(v: nat, n: nat)
    ensures
        to_le(v, n).len() == n,
        v < pow2(8 * n) ==> le(to_le(v, n)) == v,
    decreases n,
{
    lemma2_to64();
    if n > 0 {
        let rest = to_le(v / 256, (n - 1) as nat);
        lemma_to_le(v / 256, (n - 1) as nat);
        assert(to_le(v, n).skip(1) == rest);
        lemma_pow2_adds(8, (8 * (n - 1)) as nat);
        assert(8 + 8 * (n - 1) == 8 * n);
        if v < pow2(8 * n) {
            let p = pow2((8 * (n - 1)) as nat);
            assert(v / 256 < p) by (nonlinear_arith)
                requires
                    v < 256 * p,
            ;
        }
    }
}

/// Writing a read number gives the bytes again.
pub proof fn lemma_le_to_le(s: Seq<u8>)
    ensures
        to_le(le(s), s.len()) == s,
    decreases s.len(),
{
    if s.len() > 0 {
        lemma_le_to_le(s.skip(1));
        assert(le(s) % 256 == s[0]);
        assert(le(s) / 256 == le(s.skip(1)));
        assert(seq![s[0]] + s.skip(1) == s);
    } else {
        assert(to_le(le(s), s.len()) == s);
    }
}

/// Numbers of at most eight bytes fit a `u64`.
pub proof fn lemma_le_fits(s: Seq<u8>)
    ensures
        s.len() <= 1 ==> le(s) < 0x100,
        s.len() <= 2 ==> le(s) < 0x1_0000,
        s.len() <= 4 ==> le(s) < 0x1_0000_0000,
        s.len() <= 8 ==> le(s) < 0x1_0000_0000_0000_0000,
{
    lemma_le_bound(s);
    lemma2_to64();
    lemma2_to64_rest();
    if s.len() <= 8 {
        if 8 * s.len() < 8 {
            lemma_pow2_strictly_increases(8 * s.len(), 8);
        }
        if 8 * s.len() < 16 {
            lemma_pow2_strictly_increases(8 * s.len(), 16);
        }
        if 8 * s.len() < 32 {
            lemma_pow2_strictly_increases(8 * s.len(), 32);
        }
        if 8 * s.len() < 64 {
            lemma_pow2_strictly_increases(8 * s.len(), 64);
        }
    }
}

/// Read the little-endian number in `bytes[at..at + n]`.
pub fn read_le(bytes: &[u8], at: usize, n: usize) -> (v: u64)
    requires
        n <= 8,
        at + n <= bytes.len(),
    ensures
        v == le(bytes@.subrange(at as int, at + n)),
{
    let mut acc: u64 = 0;
    let mut i: usize = n;
    while i > 0
        invariant
            i <= n,
            n <= 8,
            at + n <= bytes.len(),
            acc == le(bytes@.subrange(at + i, at + n)),
        decreases i,
    {
        i = i - 1;
        let ghost tail = bytes@.subrange(at + i, at + n);
        proof {
            assert(tail.skip(1) == bytes@.subrange(at + i + 1, at + n));
            lemma_le_fits(tail);
            assert(le(tail) == tail[0] as nat + 256 * le(tail.skip(1)));
        }
        acc = acc * 256 + bytes[at + i] as u64;
    }
    acc
}

/// Append the `n` little-endian bytes of `v`.
pub fn push_le(out: &mut Vec<u8>, v: u64, n: usize)
    ensures
        final(out)@ == old(out)@ + to_le(v as nat, n as nat),
{
    let mut rest: u64 = v;
    let mut i: usize = 0;
    while i < n
        invariant
            i <= n,
            old(out)@ + to_le(v as nat, n as nat) == out@ + to_le(rest as nat, (n - i) as nat),
        decreases n - i,
    {
        let ghost before = out@;
        out.push((rest % 256) as u8);
        proof {
            let tail = to_le((rest / 256) as nat, (n - i - 1) as nat);
            assert(before + (seq![(rest % 256) as u8] + tail) == out@ + tail);
        }
        rest = rest / 256;
        i = i + 1;
    }
}

/// Whether two byte slices hold the same bytes.
pub fn same_bytes(a: &[u8], b: &[u8]) -> (r: bool)
    ensures
        r == (a@ == b@),
{
    if a.len() != b.len() {
        return false;
    }
    let mut i: usize = 0;
    while i < a.len()
        invariant
            i <= a@.len() == b@.len(),
            forall|j: int| 0 <= j < i ==> a@[j] == b@[j],
        decreases a@.len() - i,
    {
        if a[i] != b[i] {
            return false;
        }
        i = i + 1;
    }
    assert(a@ =~= b@);
    true
}

} // verus!
