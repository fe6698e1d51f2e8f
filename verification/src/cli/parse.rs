//! Parsing of option values.

use crate::metadata::root::texts;
use crate::text::{Text, chars_of, string_of};
use vstd::prelude::*;

verus! {

/// Whether a character is a decimal digit.
pub open spec fn is_digit(c: char) -> bool {
    '0' <= c && c <= '9'
}

/// The number that a sequence of digits spells.
pub open spec fn digits_value(s: Seq<char>) -> nat
    decreases s.len(),
{
    if s.len() == 0 {
        0
    } else {
        digits_value(s.drop_last()) * 10 + (s.last() as nat - '0' as nat) as nat
    }
}

/// The digits of a number: what follows an optional `+`.
pub open spec fn unsigned_part(s: Seq<char>) -> Seq<char> {
    if s.len() > 0 && s[0] == '+' {
        s.skip(1)
    } else {
        s
    }
}

/// The number that a text spells: one or more decimal digits, with an
/// optional `+` in front, no greater than `max`.
pub open spec fn number_of(s: Seq<char>, max: nat) -> Option<nat> {
    let digits = unsigned_part(s);
    if digits.len() == 0 || exists|i: int|
        0 <= i < digits.len() && !is_digit(#[trigger] digits[i]) {
        None
    } else if digits_value(digits) > max {
        None
    } else {
        Some(digits_value(digits))
    }
}

proof fn lemma_value_grows(s: Seq<char>, i: int)
    requires
        0 <= i <= s.len(),
        forall|k: int| 0 <= k < s.len() ==> is_digit(#[trigger] s[k]),
    ensures
        digits_value(s.take(i)) <= digits_value(s),
    decreases s.len() - i,
{
    if i < s.len() {
        let longer = s.take(i + 1);
        assert(longer.drop_last() =~= s.take(i));
        assert(digits_value(s.take(i)) <= digits_value(longer));
        lemma_value_grows(s, i + 1);
    } else {
        assert(s.take(i) =~= s);
    }
}

/// Parse an unsigned number no greater than `max`.
pub fn parse_number(s: &[char], max: u64) -> (r: Option<u64>)
    ensures
        match r {
            Some(n) => number_of(s@, max as nat) == Some(n as nat),
            None => number_of(s@, max as nat) is None,
        },
{
    let start: usize = if s.len() > 0 && s[0] == '+' {
        1
    } else {
        0
    };
    let ghost digits = unsigned_part(s@);
    assert(digits =~= s@.skip(start as int));
    if start >= s.len() {
        return None;
    }
    let mut acc: u64 = 0;
    let mut over: bool = false;
    let mut i: usize = start;
    assert(digits.take(0) =~= Seq::<char>::empty());
    while i < s.len()
        invariant
            start <= i <= s@.len(),
            start < s@.len(),
            digits == s@.skip(start as int),
            digits == unsigned_part(s@),
            forall|k: int| 0 <= k < i - start ==> is_digit(#[trigger] digits[k]),
            !over ==> acc == digits_value(digits.take(i - start)) && acc <= max,
            over ==> digits_value(digits.take(i - start)) > max,
        decreases s@.len() - i,
    {
        let c: char = s[i];
        assert(digits[i - start] == c);
        if c < '0' || c > '9' {
            return None;
        }
        let d: u64 = (c as u32 - '0' as u32) as u64;
        proof {
            let longer = digits.take(i - start + 1);
            assert(longer.drop_last() =~= digits.take(i - start));
            assert(longer.last() == c);
            assert(digits_value(longer) == digits_value(digits.take(i - start)) * 10 + d);
        }
        if !over {
            if acc > (max / 10) {
                over = true;
            } else {
                let tens: u64 = acc * 10;
                if d > max - tens {
                    over = true;
                } else {
                    acc = tens + d;
                }
            }
        }
        i = i + 1;
    }
    assert(digits.take(i - start) =~= digits);
    if over {
        None
    } else {
        Some(acc)
    }
}

/// Whether a character is white space.
pub open spec fn is_white(c: char) -> bool {
    let n = c as u32;
    ||| 0x9 <= n <= 0xd
    ||| n == 0x20
    ||| n == 0x85
    ||| n == 0xa0
    ||| n == 0x1680
    ||| 0x2000 <= n <= 0x200a
    ||| n == 0x2028
    ||| n == 0x2029
    ||| n == 0x202f
    ||| n == 0x205f
    ||| n == 0x3000
}

fn white(c: char) -> (r: bool)
    ensures
        r == is_white(c),
{
    let n: u32 = c as u32;
    (0x9 <= n && n <= 0xd) || n == 0x20 || n == 0x85 || n == 0xa0 || n == 0x1680 || (0x2000 <= n
        && n <= 0x200a) || n == 0x2028 || n == 0x2029 || n == 0x202f || n == 0x205f || n == 0x3000
}

/// A text without the white space in front of it.
pub open spec fn trim_start(s: Seq<char>) -> Seq<char>
    decreases s.len(),
{
    if s.len() > 0 && is_white(s[0]) {
        trim_start(s.skip(1))
    } else {
        s
    }
}

/// A text without the white space behind it.
pub open spec fn trim_end(s: Seq<char>) -> Seq<char>
    decreases s.len(),
{
    if s.len() > 0 && is_white(s.last()) {
        trim_end(s.drop_last())
    } else {
        s
    }
}

/// Strip white space at both ends.
pub fn trim(s: &[char]) -> (r: &[char])
    ensures
        r@ == trim_end(trim_start(s@)),
{
    let mut start: usize = 0;
    assert(s@.skip(0) =~= s@);
    while start < s.len() && white(s[start])
        invariant
            start <= s@.len(),
            trim_start(s@) == trim_start(s@.skip(start as int)),
        decreases s@.len() - start,
    {
        assert(s@.skip(start as int).skip(1) =~= s@.skip(start + 1));
        start = start + 1;
    }
    let ghost front = s@.skip(start as int);
    let mut end: usize = s.len();
    assert(s@.subrange(start as int, end as int) =~= front);
    while start < end && white(s[end - 1])
        invariant
            start <= end <= s@.len(),
            trim_end(front) == trim_end(s@.subrange(start as int, end as int)),
        decreases end,
    {
        let ghost now = s@.subrange(start as int, end as int);
        assert(now.last() == s@[end - 1]);
        assert(now.drop_last() =~= s@.subrange(start as int, end - 1));
        end = end - 1;
    }
    vstd::slice::slice_subrange(s, start, end)
}

/// Whether a character is an ASCII letter.
pub open spec fn is_letter(c: char) -> bool {
    ('a' <= c && c <= 'z') || ('A' <= c && c <= 'Z')
}

/// A text without the ASCII letters behind it.
pub open spec fn without_letters(s: Seq<char>) -> Seq<char>
    decreases s.len(),
{
    if s.len() > 0 && is_letter(s.last()) {
        without_letters(s.drop_last())
    } else {
        s
    }
}

/// A text without the `b`s behind it.
pub open spec fn without_bs(s: Seq<char>) -> Seq<char>
    decreases s.len(),
{
    if s.len() > 0 && s.last() == 'b' {
        without_bs(s.drop_last())
    } else {
        s
    }
}

/// A letter in lower case.
pub open spec fn lower(c: char) -> char {
    if 'A' <= c && c <= 'Z' {
        (c as u32 + 32) as char
    } else {
        c
    }
}

/// The suffix of a size: the letters behind its number, in lower case and
/// without the `b`s at the end.
pub open spec fn size_suffix(s: Seq<char>) -> Seq<char> {
    without_bs(s.skip(without_letters(s).len() as int).map_values(|c: char| lower(c)))
}

/// What a size suffix multiplies by.
pub open spec fn size_scale(suffix: Seq<char>) -> Option<nat> {
    if suffix.len() == 0 {
        Some(1)
    } else if suffix == seq!['k'] {
        Some(0x400)
    } else if suffix == seq!['m'] {
        Some(0x10_0000)
    } else if suffix == seq!['g'] {
        Some(0x4000_0000)
    } else if suffix == seq!['t'] {
        Some(0x100_0000_0000)
    } else {
        None
    }
}

/// The number of bytes that a size spells.
pub open spec fn size_of_text(value: Seq<char>) -> Result<nat, Seq<char>> {
    let trimmed = trim_end(trim_start(value));
    match size_scale(size_suffix(trimmed)) {
        None => Err(
            "unknown size suffix `"@ + size_suffix(trimmed) + "` in `"@ + value + "`"@,
        ),
        Some(scale) => match number_of(without_letters(trimmed), usize::MAX as nat) {
            None => Err("`"@ + value + "` is not a byte size"@),
            Some(number) => if number * scale > usize::MAX {
                Err("`"@ + value + "` overflows a byte size"@)
            } else {
                Ok(number * scale)
            },
        },
    }
}

fn to_lower(c: char) -> (r: char)
    ensures
        r == lower(c),
{
    if 'A' <= c && c <= 'Z' {
        (c as u8 + 32) as char
    } else {
        c
    }
}

proof fn lemma_without_letters_prefix(s: Seq<char>)
    ensures
        without_letters(s).len() <= s.len(),
        without_letters(s) == s.take(without_letters(s).len() as int),
    decreases s.len(),
{
    if s.len() > 0 && is_letter(s.last()) {
        lemma_without_letters_prefix(s.drop_last());
        let n = without_letters(s).len() as int;
        assert(s.drop_last().take(n) =~= s.take(n));
    } else {
        assert(s.take(s.len() as int) =~= s);
    }
}

/// Parse a byte size with an optional binary suffix, as `cachesize`
/// accepts it (for example `512M`).
pub fn parse_size(value: &str) -> (r: Result<usize, String>)
    ensures
        match r {
            Ok(n) => size_of_text(value@) == Ok::<nat, Seq<char>>(n as nat),
            Err(m) => size_of_text(value@) == Err::<nat, Seq<char>>(m@),
        },
{
    let all: Vec<char> = chars_of(value);
    let trimmed: &[char] = trim(all.as_slice());
    let ghost t = trimmed@;
    let mut n: usize = trimmed.len();
    assert(t.take(n as int) =~= t);
    while n > 0 && (('a' <= trimmed[n - 1] && trimmed[n - 1] <= 'z') || ('A' <= trimmed[n - 1]
        && trimmed[n - 1] <= 'Z'))
        invariant
            n <= t.len(),
            t == trimmed@,
            without_letters(t) == without_letters(t.take(n as int)),
        decreases n,
    {
        assert(t.take(n as int).last() == t[n - 1]);
        assert(t.take(n as int).drop_last() =~= t.take(n - 1));
        n = n - 1;
    }
    assert(n > 0 ==> t.take(n as int).last() == t[n - 1]);
    let digits: &[char] = vstd::slice::slice_subrange(trimmed, 0, n);
    assert(digits@ =~= t.take(n as int));
    let mut suffix: Vec<char> = Vec::new();
    let ghost letters = t.skip(n as int).map_values(|c: char| lower(c));
    let mut i: usize = n;
    while i < trimmed.len()
        invariant
            n <= i <= trimmed@.len(),
            t == trimmed@,
            letters == t.skip(n as int).map_values(|c: char| lower(c)),
            suffix@ == letters.take(i - n),
        decreases trimmed@.len() - i,
    {
        suffix.push(to_lower(trimmed[i]));
        i = i + 1;
        assert(suffix@ =~= letters.take(i - n));
    }
    assert(letters.take(i - n) =~= letters);
    let mut m: usize = suffix.len();
    assert(letters.take(m as int) =~= letters);
    while m > 0 && suffix[m - 1] == 'b'
        invariant
            m <= letters.len(),
            suffix@ == letters,
            without_bs(letters) == without_bs(letters.take(m as int)),
        decreases m,
    {
        assert(letters.take(m as int).last() == letters[m - 1]);
        assert(letters.take(m as int).drop_last() =~= letters.take(m - 1));
        m = m - 1;
    }
    assert(m > 0 ==> letters.take(m as int).last() == letters[m - 1]);
    let core: &[char] = vstd::slice::slice_subrange(suffix.as_slice(), 0, m);
    assert(core@ =~= letters.take(m as int));
    assert(core@ == size_suffix(t));
    let scale: u64 = if core.len() == 0 {
        1
    } else if core.len() == 1 && core[0] == 'k' {
        assert(core@ =~= seq!['k']);
        0x400
    } else if core.len() == 1 && core[0] == 'm' {
        assert(core@ =~= seq!['m']);
        0x10_0000
    } else if core.len() == 1 && core[0] == 'g' {
        assert(core@ =~= seq!['g']);
        0x4000_0000
    } else if core.len() == 1 && core[0] == 't' {
        assert(core@ =~= seq!['t']);
        0x100_0000_0000
    } else {
        assert(core@ != seq!['k'] && core@ != seq!['m'] && core@ != seq!['g'] && core@
            != seq!['t']) by {
            assert(seq!['k'][0] == 'k' && seq!['m'][0] == 'm' && seq!['g'][0] == 'g'
                && seq!['t'][0] == 't');
        }
        return Err(
            Text::of("unknown size suffix `").str(string_of(core).as_str()).str("` in `").str(
                value,
            ).str("`").done(),
        );
    };
    let number: u64 = match parse_number(digits, usize::MAX as u64) {
        Some(number) => number,
        None => {
            return Err(Text::of("`").str(value).str("` is not a byte size").done());
        },
    };
    match number.checked_mul(scale) {
        Some(bytes) => if bytes <= usize::MAX as u64 {
            Ok(bytes as usize)
        } else {
            Err(Text::of("`").str(value).str("` overflows a byte size").done())
        },
        None => Err(Text::of("`").str(value).str("` overflows a byte size").done()),
    }
}

/// Where an image begins inside the file holding it.
#[derive(Debug, Clone, Copy, PartialEq, Eq, Structural)]
pub enum Offset {
    /// The file is the image.
    Start,
    /// Scan for the first section header.
    Detect,
    /// Seek straight to this byte offset.
    At(u64),
}

/// The number of characters before the first comma.
pub open spec fn comma_index(s: Seq<char>, i: int) -> int
    decreases s.len() - i,
{
    if i >= s.len() || s[i] == ',' {
        i
    } else {
        comma_index(s, i + 1)
    }
}

/// The first comma stands inside the text or nowhere.
pub proof fn lemma_comma_index(s: Seq<char>, i: int)
    requires
        i <= s.len(),
    ensures
        i <= comma_index(s, i) <= s.len(),
    decreases s.len() - i,
{
    if i < s.len() && s[i] != ',' {
        lemma_comma_index(s, i + 1);
    }
}

/// What was read of the mount options so far.
#[verifier::ext_equal]
pub struct MountOptions {
    pub cache: Option<usize>,
    pub offset: Offset,
    pub rest: Seq<Seq<char>>,
}

/// The offset that an option value spells.
pub open spec fn offset_of(value: Seq<char>) -> Option<Offset> {
    if value == "auto"@ {
        Some(Offset::Detect)
    } else {
        match number_of(value, u64::MAX as nat) {
            Some(n) => Some(Offset::At(n as u64)),
            None => None,
        }
    }
}

impl MountOptions {
    /// What is read before any option.
    pub open spec fn initial() -> MountOptions {
        MountOptions { cache: None, offset: Offset::Start, rest: Seq::empty() }
    }

    /// After one option. `cachesize` and `offset` are taken out; anything
    /// else that is not empty is kept.
    pub open spec fn step(self, opt: Seq<char>) -> Result<MountOptions, Seq<char>> {
        if "cachesize="@.is_prefix_of(opt) {
            match size_of_text(opt.skip("cachesize="@.len() as int)) {
                Err(m) => Err(m),
                Ok(n) => Ok(MountOptions { cache: Some(n as usize), ..self }),
            }
        } else if "offset="@.is_prefix_of(opt) {
            let value = opt.skip("offset="@.len() as int);
            match offset_of(value) {
                None => Err("offset must be `auto` or a byte offset: "@ + value),
                Some(offset) => Ok(MountOptions { offset, ..self }),
            }
        } else if opt.len() > 0 {
            Ok(MountOptions { rest: self.rest.push(opt), ..self })
        } else {
            Ok(self)
        }
    }

    /// After the comma-separated options of one value.
    pub open spec fn steps(self, raw: Seq<char>) -> Result<MountOptions, Seq<char>>
        decreases raw.len(),
    {
        proof {
            lemma_comma_index(raw, 0);
        }
        let n = comma_index(raw, 0);
        match self.step(raw.take(n)) {
            Err(m) => Err(m),
            Ok(next) => if n >= raw.len() {
                Ok(next)
            } else {
                next.steps(raw.skip(n + 1))
            },
        }
    }

    /// After the values from index `i` on.
    pub open spec fn all(self, values: Seq<Seq<char>>, i: nat) -> Result<MountOptions, Seq<char>>
        decreases values.len() - i,
    {
        if i >= values.len() {
            Ok(self)
        } else {
            match self.steps(values[i as int]) {
                Err(m) => Err(m),
                Ok(next) => next.all(values, i + 1),
            }
        }
    }
}

/// Whether a text starts with another, character by character.
fn starts_with(s: &[char], prefix: &[char]) -> (r: bool)
    ensures
        r == prefix@.is_prefix_of(s@),
{
    if s.len() < prefix.len() {
        return false;
    }
    let mut i: usize = 0;
    while i < prefix.len()
        invariant
            i <= prefix@.len() <= s@.len(),
            forall|j: int| 0 <= j < i ==> s@[j] == prefix@[j],
        decreases prefix@.len() - i,
    {
        if s[i] != prefix[i] {
            assert(s@.subrange(0, prefix@.len() as int)[i as int] != prefix@[i as int]);
            return false;
        }
        i = i + 1;
    }
    assert(s@.subrange(0, prefix@.len() as int) =~= prefix@);
    true
}

fn parse_offset(value: &[char]) -> (r: Option<Offset>)
    ensures
        r == offset_of(value@),
{
    let auto: Vec<char> = chars_of("auto");
    if value.len() == auto.len() && starts_with(value, auto.as_slice()) {
        assert(value@ =~= "auto"@);
        return Some(Offset::Detect);
    }
    assert(value@ != "auto"@) by {
        if value@ == "auto"@ {
            assert(value@.subrange(0, value@.len() as int) =~= value@);
        }
    }
    match parse_number(value, u64::MAX) {
        Some(n) => Some(Offset::At(n)),
        None => None,
    }
}

/// Decoded-block cache budget, where the image begins, and the options
/// that belong to FUSE.
pub type SplitOptions = (Option<usize>, Offset, Vec<String>);

/// What split options say.
pub open spec fn options_view(o: SplitOptions) -> MountOptions {
    MountOptions { cache: o.0, offset: o.1, rest: texts(o.2@) }
}

fn take_option(state: SplitOptions, opt: &[char]) -> (r: Result<SplitOptions, String>)
    ensures
        match r {
            Ok(next) => options_view(state).step(opt@) == Ok::<MountOptions, Seq<char>>(
                options_view(next),
            ),
            Err(m) => options_view(state).step(opt@) == Err::<MountOptions, Seq<char>>(m@),
        },
{
    let cachesize: Vec<char> = chars_of("cachesize=");
    let offset: Vec<char> = chars_of("offset=");
    let (kept_cache, kept_offset, rest): SplitOptions = state;
    if starts_with(opt, cachesize.as_slice()) {
        let value: &[char] = vstd::slice::slice_subrange(opt, cachesize.len(), opt.len());
        assert(value@ =~= opt@.skip("cachesize="@.len() as int));
        let bytes: usize = parse_size(string_of(value).as_str())?;
        return Ok((Some(bytes), kept_offset, rest));
    }
    if starts_with(opt, offset.as_slice()) {
        let value: &[char] = vstd::slice::slice_subrange(opt, offset.len(), opt.len());
        assert(value@ =~= opt@.skip("offset="@.len() as int));
        return match parse_offset(value) {
            Some(at) => Ok((kept_cache, at, rest)),
            None => Err(
                Text::of("offset must be `auto` or a byte offset: ").str(
                    string_of(value).as_str(),
                ).done(),
            ),
        };
    }
    let mut rest = rest;
    if opt.len() > 0 {
        let ghost before = rest@;
        let one: String = string_of(opt);
        rest.push(one);
        assert(texts(rest@) =~= texts(before).push(opt@));
    }
    Ok((kept_cache, kept_offset, rest))
}

fn take_options(state: SplitOptions, raw: &[char]) -> (r: Result<SplitOptions, String>)
    ensures
        match r {
            Ok(next) => options_view(state).steps(raw@) == Ok::<MountOptions, Seq<char>>(
                options_view(next),
            ),
            Err(m) => options_view(state).steps(raw@) == Err::<MountOptions, Seq<char>>(m@),
        },
{
    let ghost want = options_view(state).steps(raw@);
    let mut now = state;
    let mut start: usize = 0;
    assert(raw@.skip(0) =~= raw@);
    loop
        invariant
            start <= raw@.len(),
            want == options_view(now).steps(raw@.skip(start as int)),
            want == options_view(state).steps(raw@),
        decreases raw@.len() - start,
    {
        let ghost tail = raw@.skip(start as int);
        let mut end: usize = start;
        while end < raw.len() && raw[end] != ','
            invariant
                start <= end <= raw@.len(),
                tail == raw@.skip(start as int),
                comma_index(tail, 0) == comma_index(tail, end - start),
            decreases raw@.len() - end,
        {
            assert(tail[end - start] == raw@[end as int]);
            end = end + 1;
        }
        assert(end < raw@.len() ==> tail[end - start] == raw@[end as int]);
        assert(comma_index(tail, 0) == end - start);
        let opt: &[char] = vstd::slice::slice_subrange(raw, start, end);
        assert(opt@ =~= tail.take(end - start));
        now = take_option(now, opt)?;
        if end >= raw.len() {
            return Ok(now);
        }
        assert(tail.skip(end - start + 1) =~= raw@.skip(end + 1));
        start = end + 1;
    }
}

/// Pull `cachesize` and `offset` out of the `-o` list, returning them
/// and the options that belong to FUSE. Values may be comma-separated
/// within one `-o`.
pub fn split_options(options: &[String]) -> (r: Result<SplitOptions, String>)
    ensures
        match r {
            Ok(split) => MountOptions::initial().all(texts(options@), 0) == Ok::<
                MountOptions,
                Seq<char>,
            >(options_view(split)),
            Err(m) => MountOptions::initial().all(texts(options@), 0) == Err::<
                MountOptions,
                Seq<char>,
            >(m@),
        },
{
    let ghost values = texts(options@);
    let ghost want = MountOptions::initial().all(values, 0);
    let mut state: SplitOptions = (None, Offset::Start, Vec::new());
    assert(options_view(state) =~= MountOptions::initial());
    let mut i: usize = 0;
    while i < options.len()
        invariant
            i <= options@.len(),
            values == texts(options@),
            want == options_view(state).all(values, i as nat),
            want == MountOptions::initial().all(values, 0),
        decreases options@.len() - i,
    {
        let raw: Vec<char> = chars_of(options[i].as_str());
        assert(raw@ == values[i as int]);
        state = take_options(state, raw.as_slice())?;
        i = i + 1;
    }
    Ok(state)
}

/// The detail level that a value spells: a number up to seven, or three
/// for a list of features.
pub open spec fn detail_of(value: Seq<char>) -> u32 {
    match number_of(value, u32::MAX as nat) {
        Some(n) => if n > 7 {
            7
        } else {
            n as u32
        },
        None => 3,
    }
}

/// Parse a detail level. Feature lists are accepted but mapped to detail
/// level 3; named features are not individually honored yet.
pub fn parse_detail(value: &str) -> (r: u32)
    ensures
        r == detail_of(value@),
{
    let chars: Vec<char> = chars_of(value);
    match parse_number(chars.as_slice(), u32::MAX as u64) {
        Some(n) => if n > 7 {
            7
        } else {
            n as u32
        },
        None => 3,
    }
}

/// The detail level to report at: none where output is suppressed, one
/// more where it is verbose.
pub fn effective_detail(detail: u32, quiet: bool, verbose: bool) -> (r: u32)
    ensures
        r == (if quiet {
            if verbose {
                1
            } else {
                0
            }
        } else if verbose && detail < u32::MAX {
            detail + 1
        } else {
            detail as int
        }),
{
    let base: u32 = if quiet {
        0
    } else {
        detail
    };
    if verbose {
        base.saturating_add(1)
    } else {
        base
    }
}

/// Parse an image offset: `auto`, which is none, or a byte position.
pub fn parse_image_offset(value: &str) -> (r: Result<Option<u64>, String>)
    ensures
        match offset_of(value@) {
            Some(Offset::At(n)) => r == Ok::<Option<u64>, String>(Some(n)),
            Some(_) => r == Ok::<Option<u64>, String>(None),
            None => r matches Err(m) && m@ == "--image-offset must be `auto` or a byte offset: "@
                + value@,
        },
{
    let chars: Vec<char> = chars_of(value);
    match parse_offset(chars.as_slice()) {
        Some(Offset::At(n)) => Ok(Some(n)),
        Some(_) => Ok(None),
        None => Err(
            Text::of("--image-offset must be `auto` or a byte offset: ").str(value).done(),
        ),
    }
}

/// The window of a file that an explicit offset and length select: none
/// where neither is given, to the end of the file where there is no
/// length.
pub fn image_window(offset: Option<u64>, size: Option<u64>, file_len: u64) -> (r: Option<
    (u64, u64),
>)
    ensures
        r == (if offset is None && size is None {
            None::<(u64, u64)>
        } else {
            let at = match offset {
                Some(at) => at,
                None => 0,
            };
            Some(
                (
                    at,
                    match size {
                        Some(len) => len,
                        None => if file_len > at {
                            (file_len - at) as u64
                        } else {
                            0
                        },
                    },
                ),
            )
        }),
{
    if offset.is_none() && size.is_none() {
        return None;
    }
    let at: u64 = match offset {
        Some(at) => at,
        None => 0,
    };
    let len: u64 = match size {
        Some(len) => len,
        None => file_len.saturating_sub(at),
    };
    Some((at, len))
}

} // verus!
