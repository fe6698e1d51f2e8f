//! Text building for messages: decimal and hexadecimal rendering with an
//! exact model.

use vstd::prelude::*;
use vstd::string::*;

verus! {

/// `String::push` appends one character.
pub assume_specification[ std::string::String::push ](s: &mut std::string::String, c: char)
    ensures
        final(s)@ == old(s)@.push(c),
;

/// The character for one digit, `0-9` then `a-f`.
pub open spec fn digit(d: nat) -> char {
    if d < 10 {
        (48 + d) as char
    } else {
        (87 + d) as char
    }
}

/// `n` written in `base`, most significant digit first, no padding.
pub open spec fn radix(n: nat, base: nat) -> Seq<char>
    decreases n,
{
    if base < 2 || n < base {
        seq![digit(n)]
    } else {
        proof {
            assert(n / base < n) by (nonlinear_arith)
                requires
                    base >= 2,
                    n >= base,
            ;
        }
        radix(n / base, base).push(digit(n % base))
    }
}

/// `n` in decimal.
pub open spec fn dec(n: nat) -> Seq<char> {
    radix(n, 10)
}

/// A signed number in decimal, with a leading `-` when negative.
pub open spec fn dec_signed(n: int) -> Seq<char> {
    if n < 0 {
        seq!['-'] + dec((-n) as nat)
    } else {
        dec(n as nat)
    }
}

/// `width` copies of `'0'`.
pub open spec fn zeros(width: nat) -> Seq<char> {
    Seq::new(width, |i: int| '0')
}

/// `n` in hexadecimal, padded on the left with zeros to `width` digits.
pub open spec fn hex(n: nat, width: nat) -> Seq<char> {
    let digits = radix(n, 16);
    if digits.len() < width {
        zeros((width - digits.len()) as nat) + digits
    } else {
        digits
    }
}

/// Digits are printable characters.
pub proof fn lemma_radix_printable(n: nat, base: nat)
    requires
        2 <= base <= 16,
    ensures
        forall|k: int|
            0 <= k < radix(n, base).len() ==> (#[trigger] radix(n, base)[k]) >= ' ',
    decreases n,
{
    if n >= base {
        assert(n / base < n) by (nonlinear_arith)
            requires
                base >= 2,
                n >= base,
        ;
        assert(n % base < base) by (nonlinear_arith)
            requires
                base >= 2,
        ;
        lemma_radix_printable(n / base, base);
        lemma_digit_printable(n % base);
        let front = radix(n / base, base);
        assert forall|k: int| 0 <= k < radix(n, base).len() implies (#[trigger] radix(
            n,
            base,
        )[k]) >= ' ' by {
            if k < front.len() {
                assert(radix(n, base)[k] == front[k]);
            } else {
                assert(radix(n, base)[k] == digit(n % base));
            }
        }
    } else {
        lemma_digit_printable(n);
        assert(radix(n, base)[0] == digit(n));
    }
}

proof fn lemma_digit_printable(d: nat)
    requires
        d < 16,
    ensures
        digit(d) >= ' ',
{
    assert(digit(d) as int == if d < 10 {
        48 + d
    } else {
        87 + d
    });
}

/// The value of a digit.
pub open spec fn digit_value(c: char) -> nat {
    if '0' <= c && c <= '9' {
        (c as nat - '0' as nat) as nat
    } else {
        (c as nat - 'a' as nat + 10) as nat
    }
}

/// The number that digits spell in a base, most significant first.
pub open spec fn spelled(s: Seq<char>, base: nat) -> nat
    decreases s.len(),
{
    if s.len() == 0 {
        0
    } else {
        spelled(s.drop_last(), base) * base + digit_value(s.last())
    }
}

proof fn lemma_radix_reads_back(n: nat, base: nat)
    requires
        2 <= base <= 16,
    ensures
        spelled(radix(n, base), base) == n,
        radix(n, base).len() > 0,
    decreases n,
{
    let s = radix(n, base);
    if n >= base {
        assert(n / base < n && n % base < base && (n / base) * base + n % base == n)
            by (nonlinear_arith)
            requires
                base >= 2,
                n >= base,
        ;
        lemma_radix_reads_back(n / base, base);
        assert(s.drop_last() =~= radix(n / base, base));
        assert(s.last() == digit(n % base));
        assert(digit_value(digit(n % base)) == n % base);
    } else {
        assert(s == seq![digit(n)]);
        assert(s.drop_last() =~= Seq::<char>::empty());
        assert(spelled(s.drop_last(), base) == 0);
        assert(0 * base == 0) by (nonlinear_arith);
        assert(digit_value(digit(n)) == n);
    }
}

proof fn lemma_zeros_spell_nothing(width: nat, s: Seq<char>, base: nat)
    ensures
        spelled(zeros(width) + s, base) == spelled(s, base),
    decreases width + s.len(),
{
    let all = zeros(width) + s;
    assert(0 * base == 0) by (nonlinear_arith);
    if s.len() > 0 {
        lemma_zeros_spell_nothing(width, s.drop_last(), base);
        assert(all.drop_last() =~= zeros(width) + s.drop_last());
        assert(all.last() == s.last());
    } else if width > 0 {
        lemma_zeros_spell_nothing((width - 1) as nat, s, base);
        assert(all.drop_last() =~= zeros((width - 1) as nat) + s);
        assert(all.last() == '0');
    } else {
        assert(all =~= s);
    }
}

/// A number in decimal or hexadecimal spells the number, padded or not, and
/// the padding fills the width.
pub proof fn lemma_numbers_spell_themselves(n: nat, width: nat)
    ensures
        spelled(dec(n), 10) == n,
        spelled(hex(n, width), 16) == n,
        hex(n, width).len() >= width,
        radix(n, 16).len() <= width ==> hex(n, width).len() == width,
{
    lemma_radix_reads_back(n, 10);
    lemma_radix_reads_back(n, 16);
    let digits = radix(n, 16);
    if digits.len() < width {
        lemma_zeros_spell_nothing((width - digits.len()) as nat, digits, 16);
    }
}

/// A byte takes two digits.
pub proof fn lemma_bytes_take_two_digits(b: u8)
    ensures
        hex(b as nat, 2).len() == 2,
        spelled(hex(b as nat, 2), 16) == b,
{
    lemma_numbers_spell_themselves(b as nat, 2);
    reveal_with_fuel(radix, 3);
}

fn digit_char(d: u128) -> (c: char)
    requires
        d < 16,
    ensures
        c == digit(d as nat),
{
    if d < 10 {
        (48u8 + d as u8) as char
    } else {
        (87u8 + d as u8) as char
    }
}

fn push_radix(s: &mut String, n: u128, base: u128)
    requires
        2 <= base <= 16,
    ensures
        final(s)@ == old(s)@ + radix(n as nat, base as nat),
    decreases n,
{
    if n < base {
        s.push(digit_char(n));
    } else {
        assert(n / base < n) by (nonlinear_arith)
            requires
                base >= 2,
                n >= base,
        ;
        assert(n % base < base) by (nonlinear_arith)
            requires
                base >= 2,
        ;
        push_radix(s, n / base, base);
        s.push(digit_char(n % base));
    }
}

/// A piece of text padded on the right with spaces.
pub open spec fn padded_right(a: Seq<char>, width: nat) -> Seq<char> {
    a + Seq::new(
        if a.len() < width {
            (width - a.len()) as nat
        } else {
            0
        },
        |i: int| ' ',
    )
}

/// A piece of text padded on the left with spaces.
pub open spec fn padded_left(a: Seq<char>, width: nat) -> Seq<char> {
    Seq::new(
        if a.len() < width {
            (width - a.len()) as nat
        } else {
            0
        },
        |i: int| ' ',
    ) + a
}

fn push_times(s: &mut String, c: char, times: usize)
    ensures
        final(s)@ == old(s)@ + Seq::new(times as nat, |i: int| c),
{
    let ghost start = s@;
    let mut i: usize = 0;
    assert(start + Seq::new(0, |i: int| c) =~= start);
    while i < times
        invariant
            i <= times,
            s@ == start + Seq::new(i as nat, |i: int| c),
        decreases times - i,
    {
        s.push(c);
        i = i + 1;
        assert(s@ =~= start + Seq::new(i as nat, |i: int| c));
    }
}

/// Text under construction.
pub struct Text {
    s: String,
}

impl View for Text {
    type V = Seq<char>;

    closed spec fn view(&self) -> Seq<char> {
        self.s@
    }
}

impl Text {
    /// Start with nothing.
    pub fn empty() -> (r: Text)
        ensures
            r@ == Seq::<char>::empty(),
    {
        Text { s: String::new() }
    }

    /// Start from a literal.
    pub fn of(a: &str) -> (r: Text)
        ensures
            r@ == a@,
    {
        Text { s: a.to_owned() }
    }

    /// Append a piece of text.
    pub fn str(self, a: &str) -> (r: Text)
        ensures
            r@ == self@ + a@,
    {
        let mut s = self.s;
        s.append(a);
        Text { s }
    }

    /// Append an unsigned number in decimal.
    pub fn num(self, n: u64) -> (r: Text)
        ensures
            r@ == self@ + dec(n as nat),
    {
        let mut s = self.s;
        push_radix(&mut s, n as u128, 10);
        Text { s }
    }

    /// Append a signed number in decimal.
    pub fn signed(self, n: i64) -> (r: Text)
        ensures
            r@ == self@ + dec_signed(n as int),
    {
        let mut s = self.s;
        if n < 0 {
            s.push('-');
            let magnitude: u64 = if n == i64::MIN {
                0x8000_0000_0000_0000u64
            } else {
                (-n) as u64
            };
            push_radix(&mut s, magnitude as u128, 10);
        } else {
            push_radix(&mut s, n as u128, 10);
        }
        Text { s }
    }

    /// Append an unsigned number of any width in decimal.
    pub fn wide(self, n: u128) -> (r: Text)
        ensures
            r@ == self@ + dec(n as nat),
    {
        let mut s = self.s;
        push_radix(&mut s, n, 10);
        Text { s }
    }

    /// Append an unsigned number in hexadecimal, at least `width` digits.
    pub fn hex(self, n: u64, width: usize) -> (r: Text)
        ensures
            r@ == self@ + hex(n as nat, width as nat),
    {
        self.wide_hex(n as u128, width)
    }

    /// Append an unsigned number of any width in hexadecimal, at least
    /// `width` digits.
    pub fn wide_hex(self, n: u128, width: usize) -> (r: Text)
        ensures
            r@ == self@ + hex(n as nat, width as nat),
    {
        let mut digits: String = String::new();
        push_radix(&mut digits, n, 16);
        let len: usize = digits.as_str().unicode_len();
        let mut s = self.s;
        let ghost start = s@;
        push_times(&mut s, '0', if len < width {
            width - len
        } else {
            0
        });
        s.append(digits.as_str());
        proof {
            assert(digits@ == radix(n as nat, 16));
            if len < width {
                assert(s@ == start + (zeros((width - len) as nat) + digits@));
            } else {
                assert(s@ =~= start + digits@);
            }
        }
        Text { s }
    }

    /// Append a piece of text, padded on the right with spaces.
    pub fn left(self, a: &str, width: usize) -> (r: Text)
        ensures
            r@ == self@ + padded_right(a@, width as nat),
    {
        let len: usize = a.unicode_len();
        let mut s = self.s;
        let ghost start = s@;
        s.append(a);
        push_times(&mut s, ' ', if len < width {
            width - len
        } else {
            0
        });
        assert(s@ =~= start + padded_right(a@, width as nat));
        Text { s }
    }

    /// Append an unsigned number of any width in decimal, padded on the
    /// left with spaces.
    pub fn right(self, n: u128, width: usize) -> (r: Text)
        ensures
            r@ == self@ + padded_left(dec(n as nat), width as nat),
    {
        let mut digits: String = String::new();
        push_radix(&mut digits, n, 10);
        let len: usize = digits.as_str().unicode_len();
        let mut s = self.s;
        let ghost start = s@;
        assert(digits@ =~= dec(n as nat));
        push_times(&mut s, ' ', if len < width {
            width - len
        } else {
            0
        });
        s.append(digits.as_str());
        assert(s@ =~= start + padded_left(dec(n as nat), width as nat));
        Text { s }
    }

    /// Append a single character.
    pub fn chr(self, c: char) -> (r: Text)
        ensures
            r@ == self@.push(c),
    {
        let mut s = self.s;
        s.push(c);
        Text { s }
    }

    /// The finished text.
    pub fn done(self) -> (r: String)
        ensures
            r@ == self@,
    {
        self.s
    }
}

/// The characters of a string.
pub fn chars_of(s: &str) -> (r: Vec<char>)
    ensures
        r@ == s@,
{
    broadcast use vstd::string::axiom_spec_iter;

    let mut out: Vec<char> = Vec::new();
    for c in it: s.chars()
        invariant
            it.seq() == s@,
            out@ == s@.take(it.index() as int),
    {
        assert(s@.take(it.index() + 1) =~= s@.take(it.index() as int).push(c));
        out.push(c);
    }
    assert(s@.take(s@.len() as int) =~= s@);
    out
}

/// A string of the given characters.
pub fn string_of(chars: &[char]) -> (r: String)
    ensures
        r@ == chars@,
{
    let mut out: String = String::new();
    let mut i: usize = 0;
    assert(chars@.take(0) =~= Seq::<char>::empty());
    while i < chars.len()
        invariant
            i <= chars@.len(),
            out@ == chars@.take(i as int),
        decreases chars@.len() - i,
    {
        assert(chars@.take(i + 1) =~= chars@.take(i as int).push(chars@[i as int]));
        out.push(chars[i]);
        i = i + 1;
    }
    assert(chars@.take(i as int) =~= chars@);
    out
}

} // verus!
