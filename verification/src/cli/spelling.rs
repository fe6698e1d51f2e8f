//! Numbers, sizes and mount options mean what they spell.

use crate::cli::parse::{
    MountOptions, Offset, comma_index, detail_of, digits_value, is_digit, is_letter, is_white,
    lemma_comma_index, lower, number_of, offset_of, size_of_text, size_scale, size_suffix, trim_end,
    trim_start, unsigned_part, without_bs, without_letters,
};
use crate::text::{dec, digit};
use vstd::prelude::*;

verus! {

proof fn lemma_digits(n: nat)
    ensures
        digits_value(dec(n)) == n,
        dec(n).len() > 0,
        forall|i: int| 0 <= i < dec(n).len() ==> is_digit(#[trigger] dec(n)[i]),
    decreases n,
{
    if n >= 10 {
        lemma_digits(n / 10);
        let front = dec(n / 10);
        assert(dec(n) == front.push(digit(n % 10)));
        assert(dec(n).drop_last() =~= front);
        assert(dec(n).last() == digit(n % 10));
        assert(digit(n % 10) as nat == 48 + n % 10);
        assert forall|i: int| 0 <= i < dec(n).len() implies is_digit(#[trigger] dec(n)[i]) by {
            if i < front.len() {
                assert(dec(n)[i] == front[i]);
            }
        }
    } else {
        assert(dec(n) == seq![digit(n)]);
        assert(dec(n).drop_last() =~= Seq::<char>::empty());
        assert(dec(n).last() == digit(n));
        assert(digit(n) as nat == 48 + n);
        assert(digits_value(dec(n).drop_last()) == 0);
    }
}

/// The decimal text of a number is read as the number, with or without a
/// `+`, unless it is too great.
pub proof fn lemma_decimal_is_the_number(n: nat, max: nat)
    ensures
        n <= max ==> number_of(dec(n), max) == Some(n),
        n <= max ==> number_of(seq!['+'] + dec(n), max) == Some(n),
        n > max ==> number_of(dec(n), max) is None,
        n > max ==> number_of(seq!['+'] + dec(n), max) is None,
{
    lemma_digits(n);
    assert(is_digit(dec(n)[0]));
    assert(unsigned_part(dec(n)) == dec(n));
    assert((seq!['+'] + dec(n)).skip(1) =~= dec(n));
}

/// A zero in front changes nothing.
pub proof fn lemma_leading_zero_changes_nothing(s: Seq<char>)
    ensures
        digits_value(seq!['0'] + s) == digits_value(s),
    decreases s.len(),
{
    let longer = seq!['0'] + s;
    if s.len() > 0 {
        lemma_leading_zero_changes_nothing(s.drop_last());
        assert(longer.drop_last() =~= seq!['0'] + s.drop_last());
        assert(longer.last() == s.last());
    } else {
        assert(longer.drop_last() =~= Seq::<char>::empty());
        assert(longer.last() == '0');
        assert(digits_value(longer.drop_last()) == 0);
    }
}

/// A text with any other character behind its sign is no number.
pub proof fn lemma_other_characters_are_refused(s: Seq<char>, i: int, max: nat)
    requires
        0 <= i < s.len(),
        !('0' <= s[i] && s[i] <= '9'),
        i > 0 || s[0] != '+',
    ensures
        number_of(s, max) is None,
{
    let digits = unsigned_part(s);
    let k = if s[0] == '+' {
        i - 1
    } else {
        i
    };
    assert(digits[k] == s[i]);
    assert(!is_digit(digits[k]));
}

/// A detail level is the number given, seven at most, and three for any
/// other text.
pub proof fn lemma_detail_is_the_number(n: nat)
    requires
        n <= u32::MAX,
    ensures
        n <= 7 ==> detail_of(dec(n)) == n,
        n > 7 ==> detail_of(dec(n)) == 7,
        forall|s: Seq<char>|
            s.len() > 0 && s[0] != '+' && !('0' <= s[0] && s[0] <= '9') ==> #[trigger] detail_of(s)
                == 3,
{
    lemma_decimal_is_the_number(n, u32::MAX as nat);
    assert forall|s: Seq<char>|
        s.len() > 0 && s[0] != '+' && !('0' <= s[0] && s[0] <= '9') implies #[trigger] detail_of(s)
        == 3 by {
        lemma_other_characters_are_refused(s, 0, u32::MAX as nat);
    }
}

/// An offset is the number given, or found where it says `auto`.
pub proof fn lemma_offset_is_the_number(n: u64)
    ensures
        offset_of(dec(n as nat)) == Some(Offset::At(n)),
        offset_of("auto"@) == Some(Offset::Detect),
{
    lemma_decimal_is_the_number(n as nat, u64::MAX as nat);
    lemma_digits(n as nat);
    reveal_strlit("auto");
    assert(is_digit(dec(n as nat)[0]));
    assert("auto"@[0] == 'a');
}

/// The characters that count as white space, by their numbers: the ASCII
/// controls from tab to carriage return, the blanks of every width, and the
/// line and paragraph separators.
pub open spec fn is_blank(c: char) -> bool {
    let n = c as int;
    ||| n == 9 || n == 10 || n == 11 || n == 12 || n == 13
    ||| n == 32 || n == 0x85 || n == 0xa0 || n == 0x1680
    ||| 0x2000 <= n && n < 0x200b
    ||| n == 0x2028 || n == 0x2029 || n == 0x202f || n == 0x205f || n == 0x3000
}

/// Whether a text is white space throughout.
pub open spec fn blank(s: Seq<char>) -> bool {
    forall|i: int| 0 <= i < s.len() ==> is_blank(#[trigger] s[i])
}

proof fn lemma_trim_start(front: Seq<char>, s: Seq<char>)
    requires
        blank(front),
        s.len() > 0,
        !is_white(s[0]),
    ensures
        trim_start(front + s) == s,
    decreases front.len(),
{
    if front.len() > 0 {
        assert((front + s)[0] == front[0]);
        assert(is_blank(front[0]));
        assert((front + s).skip(1) =~= front.skip(1) + s);
        assert(blank(front.skip(1)));
        lemma_trim_start(front.skip(1), s);
    } else {
        assert(front + s =~= s);
    }
}

proof fn lemma_trim_end(s: Seq<char>, back: Seq<char>)
    requires
        blank(back),
        s.len() > 0,
        !is_white(s.last()),
    ensures
        trim_end(s + back) == s,
    decreases back.len(),
{
    if back.len() > 0 {
        assert((s + back).last() == back.last());
        assert(is_blank(back[back.len() - 1]));
        assert((s + back).drop_last() =~= s + back.drop_last());
        assert(blank(back.drop_last()));
        lemma_trim_end(s, back.drop_last());
    } else {
        assert(s + back =~= s);
    }
}

proof fn lemma_letters(s: Seq<char>, unit: Seq<char>)
    requires
        s.len() > 0,
        !is_letter(s.last()),
        forall|i: int| 0 <= i < unit.len() ==> is_letter(#[trigger] unit[i]),
    ensures
        without_letters(s + unit) == s,
    decreases unit.len(),
{
    if unit.len() > 0 {
        assert((s + unit).last() == unit.last());
        assert((s + unit).drop_last() =~= s + unit.drop_last());
        lemma_letters(s, unit.drop_last());
    } else {
        assert(s + unit =~= s);
    }
}

proof fn lemma_bs(s: Seq<char>, n: nat)
    requires
        s.len() > 0 ==> s.last() != 'b',
    ensures
        without_bs(s + Seq::new(n, |i: int| 'b')) == s,
    decreases n,
{
    let tail = Seq::new(n, |i: int| 'b');
    if n > 0 {
        assert((s + tail).last() == 'b');
        assert((s + tail).drop_last() =~= s + Seq::new((n - 1) as nat, |i: int| 'b'));
        lemma_bs(s, (n - 1) as nat);
    } else {
        assert(s + tail =~= s);
    }
}

/// What a unit counts: bytes, or kibibytes, mebibytes, gibibytes or
/// tebibytes by its first letter, in either case.
pub open spec fn unit_bytes(letter: Option<char>) -> nat {
    match letter {
        None => 1,
        Some(c) => if c == 'k' || c == 'K' {
            1024
        } else if c == 'm' || c == 'M' {
            1024 * 1024
        } else if c == 'g' || c == 'G' {
            1024 * 1024 * 1024
        } else {
            1024 * 1024 * 1024 * 1024
        },
    }
}

/// The letters of a unit; a `b` may follow, in either case.
pub open spec fn unit_text(letter: Option<char>, b: Option<char>) -> Seq<char> {
    (match letter {
        None => Seq::empty(),
        Some(c) => seq![c],
    }) + (match b {
        None => Seq::empty(),
        Some(c) => seq![c],
    })
}

proof fn lemma_unit(digits: Seq<char>, letter: Option<char>, b: Option<char>)
    requires
        letter matches Some(c) ==> c == 'k' || c == 'K' || c == 'm' || c == 'M' || c == 'g' || c
            == 'G' || c == 't' || c == 'T',
        b matches Some(c) ==> c == 'b' || c == 'B',
        digits.len() > 0,
        is_digit(digits.last()),
    ensures
        without_letters(digits + unit_text(letter, b)) == digits,
        size_scale(size_suffix(digits + unit_text(letter, b))) == Some(unit_bytes(letter)),
{
    let unit = unit_text(letter, b);
    let s = digits + unit;
    lemma_letters(digits, unit);
    let lowered = s.skip(digits.len() as int).map_values(|c: char| lower(c));
    assert(s.skip(digits.len() as int) =~= unit);
    let core: Seq<char> = match letter {
        None => Seq::empty(),
        Some(c) => seq![lower(c)],
    };
    let n: nat = if b is Some {
        1
    } else {
        0
    };
    assert(lowered =~= core + Seq::new(n, |i: int| 'b')) by {
        assert(lower('B') == 'b');
        assert(lower('b') == 'b');
    }
    if letter is Some {
        let c = letter->Some_0;
        assert(lower('K') == 'k');
        assert(lower('M') == 'm');
        assert(lower('G') == 'g');
        assert(lower('T') == 't');
        assert(core.last() != 'b');
    }
    lemma_bs(core, n);
    assert(size_suffix(s) == core);
    assert(seq!['k'][0] == 'k' && seq!['m'][0] == 'm' && seq!['g'][0] == 'g' && seq!['t'][0]
        == 't');
    if letter is Some {
        assert(core[0] == lower(letter->Some_0));
        assert(core =~= seq![core[0]]);
    }
}

/// A size is its number times its unit, whatever white space stands around
/// it, where that many bytes can be counted. A greater one is refused.
pub proof fn lemma_size_is_number_times_unit(
    front: Seq<char>,
    n: nat,
    letter: Option<char>,
    b: Option<char>,
    back: Seq<char>,
)
    requires
        blank(front),
        blank(back),
        letter matches Some(c) ==> c == 'k' || c == 'K' || c == 'm' || c == 'M' || c == 'g' || c
            == 'G' || c == 't' || c == 'T',
        b matches Some(c) ==> c == 'b' || c == 'B',
    ensures
        n * unit_bytes(letter) <= usize::MAX ==> size_of_text(
            front + (dec(n) + unit_text(letter, b) + back),
        ) == Ok::<nat, Seq<char>>(n * unit_bytes(letter)),
        n * unit_bytes(letter) > usize::MAX ==> size_of_text(
            front + (dec(n) + unit_text(letter, b) + back),
        ) is Err,
{
    let digits = dec(n);
    let unit = unit_text(letter, b);
    let s = digits + unit;
    lemma_digits(n);
    assert(is_digit(digits[0]));
    assert(is_digit(digits[digits.len() - 1]));
    assert((s + back)[0] == digits[0]);
    lemma_trim_start(front, s + back);
    assert(s.last() == if unit.len() == 0 {
        digits.last()
    } else {
        unit.last()
    });
    lemma_trim_end(s, back);
    lemma_unit(digits, letter, b);
    lemma_decimal_is_the_number(n, usize::MAX as nat);
    assert(n <= n * unit_bytes(letter)) by (nonlinear_arith)
        requires
            unit_bytes(letter) >= 1,
    ;
}

proof fn lemma_first_comma(a: Seq<char>, b: Seq<char>, i: int)
    requires
        0 <= i <= a.len(),
        forall|k: int| 0 <= k < a.len() ==> #[trigger] a[k] != ',',
    ensures
        comma_index(a + seq![','] + b, i) == a.len(),
        comma_index(a, i) == a.len(),
    decreases a.len() - i,
{
    let s = a + seq![','] + b;
    if i < a.len() {
        assert(s[i] == a[i]);
        lemma_first_comma(a, b, i + 1);
    } else {
        assert(s[i] == ',');
    }
}

/// Options are separated by commas: of two in a row the first is taken,
/// then those behind it.
pub proof fn lemma_commas_separate_options(m: MountOptions, a: Seq<char>, b: Seq<char>)
    requires
        forall|k: int| 0 <= k < a.len() ==> #[trigger] a[k] != ',',
    ensures
        m.steps(a) == m.step(a),
        m.step(a) matches Ok(next) ==> m.steps(a + seq![','] + b) == next.steps(b),
        m.step(a) is Err ==> m.steps(a + seq![','] + b) == m.step(a),
{
    let s = a + seq![','] + b;
    lemma_first_comma(a, b, 0);
    assert(s.take(a.len() as int) =~= a);
    assert(a.take(a.len() as int) =~= a);
    assert(s.skip((a.len() + 1) as int) =~= b);
}

/// A cache size and an offset are taken out of the options, the last of
/// each counts, and every other option stays in its place.
pub proof fn lemma_options_are_told_apart(m: MountOptions, value: Seq<char>)
    ensures
        match size_of_text(value) {
            Ok(n) => m.step("cachesize="@ + value) matches Ok(next) && next.cache == Some(n as usize)
                && next.offset == m.offset && next.rest == m.rest,
            Err(_) => m.step("cachesize="@ + value) is Err,
        },
        match offset_of(value) {
            Some(at) => m.step("offset="@ + value) matches Ok(next) && next.offset == at
                && next.cache == m.cache && next.rest == m.rest,
            None => m.step("offset="@ + value) is Err,
        },
        value.len() > 0 && value[0] != 'c' && value[0] != 'o' ==> (m.step(value) matches Ok(next)
            && next.rest == m.rest + seq![value] && next.cache == m.cache && next.offset
            == m.offset),
        m.step(Seq::empty()) == Ok::<MountOptions, Seq<char>>(m),
{
    reveal_strlit("cachesize=");
    reveal_strlit("offset=");
    let c = "cachesize="@ + value;
    let o = "offset="@ + value;
    assert("cachesize="@.is_prefix_of(c)) by {
        assert(c.take("cachesize="@.len() as int) =~= "cachesize="@);
    }
    assert(c.skip("cachesize="@.len() as int) =~= value);
    assert(o[0] == 'o' && "cachesize="@[0] == 'c');
    assert(!"cachesize="@.is_prefix_of(o));
    assert("offset="@.is_prefix_of(o)) by {
        assert(o.take("offset="@.len() as int) =~= "offset="@);
    }
    assert(o.skip("offset="@.len() as int) =~= value);
    if value.len() > 0 && value[0] != 'c' && value[0] != 'o' {
        assert("offset="@[0] == 'o');
        assert(m.rest.push(value) =~= m.rest + seq![value]);
    }
}

proof fn lemma_steps_in_a_row(m: MountOptions, a: Seq<char>, b: Seq<char>)
    ensures
        m.steps(a) matches Ok(next) ==> m.steps(a + seq![','] + b) == next.steps(b),
        m.steps(a) matches Err(e) ==> m.steps(a + seq![','] + b) == Err::<MountOptions, Seq<char>>(
            e,
        ),
    decreases a.len(),
{
    lemma_comma_index(a, 0);
    lemma_before_comma(a, 0);
    let n = comma_index(a, 0);
    let x = a.take(n);
    if n >= a.len() {
        assert(x =~= a);
        lemma_commas_separate_options(m, a, b);
    } else {
        let y = a.skip(n + 1);
        assert(a =~= x + seq![','] + y);
        assert(a + seq![','] + b =~= x + seq![','] + (y + seq![','] + b));
        lemma_commas_separate_options(m, x, y);
        lemma_commas_separate_options(m, x, y + seq![','] + b);
        if let Ok(next) = m.step(x) {
            lemma_steps_in_a_row(next, y, b);
        }
    }
}

proof fn lemma_before_comma(s: Seq<char>, i: int)
    requires
        0 <= i <= s.len(),
    ensures
        i <= comma_index(s, i) <= s.len(),
        forall|k: int| i <= k < comma_index(s, i) ==> #[trigger] s[k] != ',',
        comma_index(s, i) < s.len() ==> s[comma_index(s, i)] == ',',
    decreases s.len() - i,
{
    if i < s.len() && s[i] != ',' {
        lemma_before_comma(s, i + 1);
    }
}

/// Options given one by one mean the same as all of them in one value with
/// commas between, and nothing is read before the first.
pub proof fn lemma_values_are_read_in_a_row(m: MountOptions, a: Seq<char>, b: Seq<char>)
    ensures
        m.all(seq![a, b], 0) == m.steps(a + seq![','] + b),
        m.all(seq![a], 0) == m.steps(a),
        m.all(Seq::empty(), 0) == Ok::<MountOptions, Seq<char>>(m),
        MountOptions::initial().cache is None,
        MountOptions::initial().offset == Offset::Start,
        MountOptions::initial().rest.len() == 0,
{
    lemma_steps_in_a_row(m, a, b);
    reveal_with_fuel(MountOptions::all, 3);
    assert(seq![a, b][0] == a);
    assert(seq![a, b][1] == b);
}

} // verus!
