//! What a JSON reader makes of the JSON output.

use crate::cli::json::{json_char, json_chars, json_items, json_text, name_items};
use crate::text::{dec, digit, hex, radix};
use vstd::prelude::*;

verus! {

/// The value of a decimal digit.
pub open spec fn decimal(c: char) -> Option<nat> {
    if '0' <= c <= '9' {
        Some((c as nat - 48) as nat)
    } else {
        None
    }
}

/// The value of a hexadecimal digit.
pub open spec fn hexadecimal(c: char) -> Option<nat> {
    if '0' <= c <= '9' {
        Some((c as nat - 48) as nat)
    } else if 'a' <= c <= 'f' {
        Some((c as nat - 87) as nat)
    } else {
        None
    }
}

/// The number that the digits from index `i` on spell behind `acc`, and
/// where they end.
pub open spec fn read_digits(s: Seq<char>, i: int, acc: nat) -> (nat, int)
    decreases s.len() - i,
{
    if 0 <= i < s.len() && decimal(s[i]) is Some {
        read_digits(s, i + 1, acc * 10 + decimal(s[i])->0)
    } else {
        (acc, i)
    }
}

/// The characters of a JSON string from index `i`, inside its quotes, on,
/// behind `acc`, and where the string ends.
pub open spec fn read_chars(s: Seq<char>, i: int, acc: Seq<char>) -> Option<(Seq<char>, int)>
    decreases s.len() - i,
{
    if i < 0 || i >= s.len() {
        None
    } else if s[i] == '"' {
        Some((acc, i + 1))
    } else if s[i] != '\\' {
        read_chars(s, i + 1, acc.push(s[i]))
    } else if i + 1 >= s.len() {
        None
    } else if s[i + 1] == '"' || s[i + 1] == '\\' {
        read_chars(s, i + 2, acc.push(s[i + 1]))
    } else if s[i + 1] == 'n' {
        read_chars(s, i + 2, acc.push('\n'))
    } else if s[i + 1] == 'r' {
        read_chars(s, i + 2, acc.push('\r'))
    } else if s[i + 1] == 't' {
        read_chars(s, i + 2, acc.push('\t'))
    } else if s[i + 1] == 'u' && i + 6 <= s.len() && hexadecimal(s[i + 2]) is Some && hexadecimal(
        s[i + 3],
    ) is Some && hexadecimal(s[i + 4]) is Some && hexadecimal(s[i + 5]) is Some {
        let code = 4096 * hexadecimal(s[i + 2])->0 + 256 * hexadecimal(s[i + 3])->0 + 16
            * hexadecimal(s[i + 4])->0 + hexadecimal(s[i + 5])->0;
        read_chars(s, i + 6, acc.push(code as char))
    } else {
        None
    }
}

/// The JSON string at index `i`, and where it ends.
pub open spec fn read_string(s: Seq<char>, i: int) -> Option<(Seq<char>, int)> {
    if 0 <= i < s.len() && s[i] == '"' {
        read_chars(s, i + 1, Seq::empty())
    } else {
        None
    }
}

/// The strings of a JSON array from index `i` on, behind `acc`, and where
/// the array ends.
pub open spec fn read_items(s: Seq<char>, i: int, acc: Seq<Seq<char>>) -> Option<
    (Seq<Seq<char>>, int),
>
    decreases s.len() - i,
{
    if i < 0 || i >= s.len() {
        None
    } else if s[i] == ']' {
        Some((acc, i + 1))
    } else {
        let start = if acc.len() > 0 && s[i] == ',' {
            i + 1
        } else {
            i
        };
        match read_string(s, start) {
            Some((item, end)) => if i < end <= s.len() && (acc.len() == 0 || s[i] == ',') {
                read_items(s, end, acc.push(item))
            } else {
                None
            },
            None => None,
        }
    }
}

/// A JSON value: a string, a natural number, or an array of strings.
#[verifier::ext_equal]
pub enum Json {
    Text(Seq<char>),
    Number(nat),
    Texts(Seq<Seq<char>>),
}

/// The JSON value at index `i`, and where it ends.
pub open spec fn read_value(s: Seq<char>, i: int) -> Option<(Json, int)> {
    if i < 0 || i >= s.len() {
        None
    } else if s[i] == '"' {
        match read_string(s, i) {
            Some((text, end)) => Some((Json::Text(text), end)),
            None => None,
        }
    } else if s[i] == '[' {
        match read_items(s, i + 1, Seq::empty()) {
            Some((texts, end)) => Some((Json::Texts(texts), end)),
            None => None,
        }
    } else if decimal(s[i]) is Some {
        let (n, end) = read_digits(s, i, 0);
        Some((Json::Number(n), end))
    } else {
        None
    }
}

/// The members of a JSON object from index `i` on, behind `acc`, and where
/// the object ends.
pub open spec fn read_members(s: Seq<char>, i: int, acc: Seq<(Seq<char>, Json)>) -> Option<
    (Seq<(Seq<char>, Json)>, int),
>
    decreases s.len() - i,
{
    if i < 0 || i >= s.len() {
        None
    } else if s[i] == '}' {
        Some((acc, i + 1))
    } else {
        let start = if acc.len() > 0 && s[i] == ',' {
            i + 1
        } else {
            i
        };
        match read_string(s, start) {
            Some((name, colon)) => if 0 <= colon < s.len() && s[colon] == ':' {
                match read_value(s, colon + 1) {
                    Some((value, end)) => if i < end <= s.len() && (acc.len() == 0 || s[i] == ',') {
                        read_members(s, end, acc.push((name, value)))
                    } else {
                        None
                    },
                    None => None,
                }
            } else {
                None
            },
            None => None,
        }
    }
}

/// The members of the JSON object that a line is, in order; `None` where
/// the line is anything else.
pub open spec fn read_line(s: Seq<char>) -> Option<Seq<(Seq<char>, Json)>> {
    if s.len() > 0 && s[0] == '{' {
        match read_members(s, 1, Seq::empty()) {
            Some((members, end)) => if end + 1 == s.len() && s[end] == '\n' {
                Some(members)
            } else {
                None
            },
            None => None,
        }
    } else {
        None
    }
}

proof fn lemma_digit_value(d: nat)
    requires
        d < 16,
    ensures
        hexadecimal(digit(d)) == Some(d),
        d < 10 ==> decimal(digit(d)) == Some(d),
{
    assert(digit(d) as int == if d < 10 {
        48 + d
    } else {
        87 + d
    });
}

/// A number in decimal reads as the number, up to what follows.
pub proof fn lemma_number_reads_back(s: Seq<char>, i: int, n: nat)
    requires
        0 <= i,
        i + dec(n).len() <= s.len(),
        s.subrange(i, i + dec(n).len()) == dec(n),
    ensures
        dec(n).len() > 0,
        decimal(s[i]) is Some,
        read_digits(s, i, 0) == read_digits(s, i + dec(n).len(), n),
    decreases n,
{
    let text = dec(n);
    if n < 10 {
        lemma_digit_value(n);
        assert(s.subrange(i, i + 1)[0] == s[i]);
    } else {
        let front = dec(n / 10);
        assert(text =~= front.push(digit(n % 10)));
        assert(s.subrange(i, i + front.len()) =~= front) by {
            assert forall|k: int| 0 <= k < front.len() implies s.subrange(i, i + front.len())[k]
                == front[k] by {
                assert(s.subrange(i, i + text.len())[k] == text[k]);
            }
        }
        lemma_number_reads_back(s, i, n / 10);
        lemma_digit_value(n % 10);
        let last = i + front.len();
        assert(s.subrange(i, i + text.len())[front.len() as int] == s[last]);
        assert(s[last] == digit(n % 10));
        assert(n / 10 * 10 + n % 10 == n);
    }
}

proof fn lemma_escape_reads_back(s: Seq<char>, i: int, c: char, acc: Seq<char>)
    requires
        0 <= i,
        i + json_char(c).len() <= s.len(),
        s.subrange(i, i + json_char(c).len()) == json_char(c),
    ensures
        json_char(c).len() > 0,
        read_chars(s, i, acc) == read_chars(s, i + json_char(c).len(), acc.push(c)),
{
    let text = json_char(c);
    let here = s.subrange(i, i + text.len());
    reveal_strlit("\\\"");
    reveal_strlit("\\\\");
    reveal_strlit("\\n");
    reveal_strlit("\\r");
    reveal_strlit("\\t");
    reveal_strlit("\\u");
    assert(text.len() > 0 ==> here[0] == s[i]);
    if c == '"' || c == '\\' || c == '\n' || c == '\r' || c == '\t' {
        assert(here[1] == s[i + 1]);
    } else if ' ' > c {
        let n = c as u32 as nat;
        assert(n < 32);
        let digits = radix(n, 16);
        if n >= 16 {
            assert(n / 16 == 1);
            assert(radix(1, 16) == seq![digit(1)]);
            assert(digits =~= seq![digit(1), digit(n % 16)]);
            lemma_digit_value(n % 16);
        } else {
            assert(digits =~= seq![digit(n)]);
            lemma_digit_value(n);
        }
        lemma_digit_value(0);
        lemma_digit_value(1);
        assert('0' == digit(0));
        let four = hex(n, 4);
        assert(four.len() == 4);
        assert(text =~= "\\u"@ + four);
        assert(text.len() == 6);
        assert(here[1] == s[i + 1]);
        assert(here[2] == s[i + 2]);
        assert(here[3] == s[i + 3]);
        assert(here[4] == s[i + 4]);
        assert(here[5] == s[i + 5]);
        assert(s[i + 2] == four[0]);
        assert(s[i + 3] == four[1]);
        assert(s[i + 4] == four[2]);
        assert(s[i + 5] == four[3]);
        assert(4096 * hexadecimal(s[i + 2])->0 + 256 * hexadecimal(s[i + 3])->0 + 16
            * hexadecimal(s[i + 4])->0 + hexadecimal(s[i + 5])->0 == n);
        assert(n as char == c);
    }
}

proof fn lemma_chars_read_back(s: Seq<char>, i: int, text: Seq<char>, k: nat, acc: Seq<char>)
    requires
        0 <= i,
        k <= text.len(),
        i + json_chars(text, k).len() <= s.len(),
        s.subrange(i, i + json_chars(text, k).len()) == json_chars(text, k),
    ensures
        read_chars(s, i, acc) == read_chars(
            s,
            i + json_chars(text, k).len(),
            acc + text.skip(k as int),
        ),
    decreases text.len() - k,
{
    let all = json_chars(text, k);
    if k < text.len() {
        let one = json_char(text[k as int]);
        let rest = json_chars(text, k + 1);
        let here = s.subrange(i, i + all.len());
        assert(s.subrange(i, i + one.len()) =~= one) by {
            assert forall|j: int| 0 <= j < one.len() implies s.subrange(i, i + one.len())[j]
                == one[j] by {
                assert(here[j] == all[j]);
            }
        }
        lemma_escape_reads_back(s, i, text[k as int], acc);
        let next = i + one.len();
        assert(s.subrange(next, next + rest.len()) =~= rest) by {
            assert forall|j: int| 0 <= j < rest.len() implies s.subrange(
                next,
                next + rest.len(),
            )[j] == rest[j] by {
                assert(here[one.len() + j] == all[one.len() + j]);
            }
        }
        lemma_chars_read_back(s, next, text, k + 1, acc.push(text[k as int]));
        assert(acc.push(text[k as int]) + text.skip(k as int + 1) =~= acc + text.skip(k as int));
    } else {
        assert(acc + text.skip(k as int) =~= acc);
    }
}

/// A text as a JSON string reads as the text.
pub proof fn lemma_text_reads_back(s: Seq<char>, i: int, text: Seq<char>)
    requires
        0 <= i,
        i + json_text(text).len() <= s.len(),
        s.subrange(i, i + json_text(text).len()) == json_text(text),
    ensures
        json_text(text).len() > 0,
        s[i] == '"',
        read_string(s, i) == Some((text, i + json_text(text).len())),
{
    reveal_strlit("\"");
    let all = json_text(text);
    let inner = json_chars(text, 0);
    let here = s.subrange(i, i + all.len());
    assert(here[0] == s[i]);
    assert(here[all.len() - 1] == s[i + all.len() - 1]);
    assert(all[all.len() - 1] == '"');
    assert(s.subrange(i + 1, i + 1 + inner.len()) =~= inner) by {
        assert forall|j: int| 0 <= j < inner.len() implies s.subrange(
            i + 1,
            i + 1 + inner.len(),
        )[j] == inner[j] by {
            assert(here[1 + j] == all[1 + j]);
        }
    }
    lemma_chars_read_back(s, i + 1, text, 0, Seq::empty());
    assert(Seq::<char>::empty() + text.skip(0) =~= text);
}

/// Whether a text needs no escapes.
pub open spec fn needs_no_escape(text: Seq<char>) -> bool {
    forall|i: int|
        0 <= i < text.len() ==> (#[trigger] text[i]) >= ' ' && text[i] != '"' && text[i] != '\\'
}

proof fn lemma_plain_chars(text: Seq<char>, k: nat)
    requires
        needs_no_escape(text),
        k <= text.len(),
    ensures
        json_chars(text, k) == text.skip(k as int),
    decreases text.len() - k,
{
    if k < text.len() {
        lemma_plain_chars(text, k + 1);
        assert(text[k as int] >= ' ');
        assert(seq![text[k as int]] + text.skip(k as int + 1) =~= text.skip(k as int));
    } else {
        assert(text.skip(k as int) =~= Seq::<char>::empty());
    }
}

/// A text that needs no escapes is its own JSON string between quotes.
pub proof fn lemma_plain_text(text: Seq<char>)
    requires
        needs_no_escape(text),
    ensures
        json_text(text) == seq!['"'] + text + seq!['"'],
{
    reveal_strlit("\"");
    lemma_plain_chars(text, 0);
    assert(text.skip(0) =~= text);
    assert(json_text(text) =~= seq!['"'] + text + seq!['"']);
}

proof fn lemma_part(s: Seq<char>, i: int, all: Seq<char>, from: int, part: Seq<char>)
    requires
        0 <= i,
        0 <= from,
        i + all.len() <= s.len(),
        s.subrange(i, i + all.len()) == all,
        from + part.len() <= all.len(),
        all.subrange(from, from + part.len()) == part,
    ensures
        s.subrange(i + from, i + from + part.len()) == part,
{
    assert forall|j: int| 0 <= j < part.len() implies s.subrange(
        i + from,
        i + from + part.len(),
    )[j] == part[j] by {
        assert(s.subrange(i, i + all.len())[from + j] == all[from + j]);
        assert(all.subrange(from, from + part.len())[j] == all[from + j]);
    }
    assert(s.subrange(i + from, i + from + part.len()) =~= part);
}

proof fn lemma_items_read_back(s: Seq<char>, i: int, parts: Seq<Seq<char>>, k: nat)
    requires
        0 <= i,
        k <= parts.len(),
        i + json_items(parts, k).len() + 1 <= s.len(),
        s.subrange(i, i + json_items(parts, k).len()) == json_items(parts, k),
        s[i + json_items(parts, k).len()] == ']',
    ensures
        read_items(s, i, parts.take(k as int)) == Some(
            (parts, i + json_items(parts, k).len() + 1),
        ),
    decreases parts.len() - k,
{
    reveal_strlit(",");
    let all = json_items(parts, k);
    let so_far = parts.take(k as int);
    if k < parts.len() {
        let comma: Seq<char> = if k > 0 {
            ","@
        } else {
            Seq::empty()
        };
        let one = json_text(parts[k as int]);
        let rest = json_items(parts, k + 1);
        assert(all =~= comma + one + rest);
        let start = i + comma.len();
        assert(all.subrange(comma.len() as int, (comma.len() + one.len()) as int) =~= one);
        lemma_part(s, i, all, comma.len() as int, one);
        lemma_text_reads_back(s, start, parts[k as int]);
        let next = start + one.len();
        assert(all.subrange((comma.len() + one.len()) as int, all.len() as int) =~= rest);
        lemma_part(s, i, all, (comma.len() + one.len()) as int, rest);
        if k > 0 {
            assert(s.subrange(i, i + all.len())[0] == all[0]);
            assert(s[i] == ',');
        }
        lemma_items_read_back(s, next, parts, k + 1);
        assert(so_far.push(parts[k as int]) =~= parts.take(k as int + 1));
    } else {
        assert(all.len() == 0);
        assert(so_far =~= parts);
    }
}

/// Names that need no escapes make the same array plain as quoted.
pub proof fn lemma_name_items(parts: Seq<Seq<char>>, k: nat)
    requires
        forall|i: int| 0 <= i < parts.len() ==> needs_no_escape(#[trigger] parts[i]),
        k <= parts.len(),
    ensures
        name_items(parts, k) == json_items(parts, k),
    decreases parts.len() - k,
{
    reveal_strlit("\"");
    if k < parts.len() {
        lemma_name_items(parts, k + 1);
        assert(needs_no_escape(parts[k as int]));
        lemma_plain_text(parts[k as int]);
        assert("\""@ =~= seq!['"']);
    }
}

/// A value as JSON.
pub open spec fn value_text(value: Json) -> Seq<char> {
    match value {
        Json::Text(text) => json_text(text),
        Json::Number(n) => dec(n),
        Json::Texts(texts) => seq!['['] + json_items(texts, 0) + seq![']'],
    }
}

proof fn lemma_value_reads_back(s: Seq<char>, i: int, value: Json)
    requires
        0 <= i,
        i + value_text(value).len() < s.len(),
        s.subrange(i, i + value_text(value).len()) == value_text(value),
        decimal(s[i + value_text(value).len()]) is None,
    ensures
        read_value(s, i) == Some((value, i + value_text(value).len())),
        value_text(value).len() > 0,
{
    let all = value_text(value);
    match value {
        Json::Text(text) => {
            lemma_text_reads_back(s, i, text);
        },
        Json::Number(n) => {
            lemma_number_reads_back(s, i, n);
            assert(decimal('"') is None && decimal('[') is None);
        },
        Json::Texts(texts) => {
            let inner = json_items(texts, 0);
            assert(s.subrange(i, i + all.len())[0] == s[i]);
            assert(s.subrange(i, i + all.len())[all.len() - 1] == s[i + all.len() - 1]);
            assert(all.subrange(1, 1int + inner.len()) =~= inner);
            lemma_part(s, i, all, 1, inner);
            lemma_items_read_back(s, i + 1, texts, 0);
            assert(texts.take(0) =~= Seq::<Seq<char>>::empty());
        },
    }
}

/// A member's name as JSON, with its colon.
pub open spec fn key_text(name: Seq<char>) -> Seq<char> {
    seq!['"'] + name + seq!['"', ':']
}

/// A member as JSON.
pub open spec fn member_text(m: (Seq<char>, Json)) -> Seq<char> {
    key_text(m.0) + value_text(m.1)
}

/// The members of an object as JSON, with commas between them.
#[verifier::opaque]
pub open spec fn body(members: Seq<(Seq<char>, Json)>) -> Seq<char>
    decreases members.len(),
{
    if members.len() == 0 {
        Seq::empty()
    } else {
        body(members.drop_last()) + (if members.len() > 1 {
            seq![',']
        } else {
            Seq::empty()
        }) + member_text(members.last())
    }
}

/// The members from index `k` on, and the end of their object.
spec fn tail(members: Seq<(Seq<char>, Json)>, k: int) -> Seq<char>
    decreases members.len() - k,
{
    if k >= members.len() {
        seq!['}']
    } else {
        (if k > 0 {
            seq![',']
        } else {
            Seq::empty()
        }) + member_text(members[k]) + tail(members, k + 1)
    }
}

proof fn lemma_body_and_tail(members: Seq<(Seq<char>, Json)>, k: int)
    requires
        0 <= k <= members.len(),
    ensures
        body(members.take(k)) + tail(members, k) == body(members) + seq!['}'],
    decreases members.len() - k,
{
    reveal_with_fuel(body, 1);
    if k < members.len() {
        lemma_body_and_tail(members, k + 1);
        let next = members.take(k + 1);
        assert(next.drop_last() =~= members.take(k));
        assert(next.last() == members[k]);
        assert(body(members.take(k)) + tail(members, k) =~= body(next) + tail(members, k + 1));
    } else {
        assert(members.take(k) =~= members);
    }
}

proof fn lemma_members_read_back(s: Seq<char>, i: int, members: Seq<(Seq<char>, Json)>, k: int)
    requires
        0 <= i,
        0 <= k <= members.len(),
        forall|j: int| 0 <= j < members.len() ==> needs_no_escape((#[trigger] members[j]).0),
        i + tail(members, k).len() <= s.len(),
        s.subrange(i, i + tail(members, k).len()) == tail(members, k),
    ensures
        read_members(s, i, members.take(k)) == Some((members, i + tail(members, k).len())),
    decreases members.len() - k,
{
    let all = tail(members, k);
    let here = s.subrange(i, i + all.len());
    let so_far = members.take(k);
    if k < members.len() {
        let comma: Seq<char> = if k > 0 {
            seq![',']
        } else {
            Seq::empty()
        };
        let (name, value) = members[k];
        let quoted = json_text(name);
        let text = value_text(value);
        let rest = tail(members, k + 1);
        assert(needs_no_escape(members[k].0));
        lemma_plain_text(name);
        assert(all =~= comma + quoted + seq![':'] + text + rest);
        let start = i + comma.len();
        assert(all.subrange(comma.len() as int, (comma.len() + quoted.len()) as int) =~= quoted);
        lemma_part(s, i, all, comma.len() as int, quoted);
        lemma_text_reads_back(s, start, name);
        let colon = start + quoted.len();
        assert(here[comma.len() + quoted.len() as int] == s[colon]);
        assert(s[colon] == ':');
        let from = (comma.len() + quoted.len() + 1) as int;
        assert(all.subrange(from, from + text.len()) =~= text);
        lemma_part(s, i, all, from, text);
        let after = from + text.len();
        assert(all.subrange(after, after + rest.len()) =~= rest);
        lemma_part(s, i, all, after, rest);
        assert(rest.len() > 0 && (rest[0] == ',' || rest[0] == '}')) by {
            if k + 1 < members.len() {
                assert(rest[0] == ',');
            }
        }
        assert(here[after] == all[after]);
        assert(s[i + after] == rest[0]);
        assert(decimal(',') is None && decimal('}') is None);
        lemma_value_reads_back(s, colon + 1, value);
        lemma_members_read_back(s, i + after, members, k + 1);
        assert(so_far.push(members[k]) =~= members.take(k + 1));
        if k > 0 {
            assert(here[0] == s[i]);
            assert(s[i] == ',');
        }
    } else {
        assert(here[0] == s[i]);
        assert(so_far =~= members);
    }
}

/// A line that holds the members of an object reads as those members.
pub proof fn lemma_line_reads_back(s: Seq<char>, members: Seq<(Seq<char>, Json)>)
    requires
        s == seq!['{'] + body(members) + seq!['}', '\n'],
        forall|j: int| 0 <= j < members.len() ==> needs_no_escape((#[trigger] members[j]).0),
    ensures
        read_line(s) == Some(members),
{
    lemma_body_and_tail(members, 0);
    assert(members.take(0) =~= Seq::<(Seq<char>, Json)>::empty());
    reveal_with_fuel(body, 1);
    let all = tail(members, 0);
    assert(body(members.take(0)) + all =~= all);
    assert(s.subrange(1, 1int + all.len()) =~= all);
    lemma_members_read_back(s, 1, members, 0);
}

/// The first member of an object.
pub proof fn lemma_first_member(key: Seq<char>, m: (Seq<char>, Json))
    requires
        key == seq!['{'] + key_text(m.0),
    ensures
        key + value_text(m.1) == seq!['{'] + body(seq![m]),
{
    reveal_with_fuel(body, 2);
    assert(seq![m].drop_last() =~= Seq::<(Seq<char>, Json)>::empty());
    assert(key + value_text(m.1) =~= seq!['{'] + body(seq![m]));
}

/// One more member behind a comma.
pub proof fn lemma_next_member(
    before: Seq<char>,
    members: Seq<(Seq<char>, Json)>,
    key: Seq<char>,
    m: (Seq<char>, Json),
)
    requires
        members.len() > 0,
        before == seq!['{'] + body(members),
        key == seq![','] + key_text(m.0),
    ensures
        before + key + value_text(m.1) == seq!['{'] + body(members.push(m)),
{
    reveal_with_fuel(body, 1);
    let more = members.push(m);
    assert(more.drop_last() =~= members);
    assert(before + key + value_text(m.1) =~= seq!['{'] + body(more));
}

/// One more member before a comma.
pub proof fn lemma_member_and_comma(
    before: Seq<char>,
    members: Seq<(Seq<char>, Json)>,
    m: (Seq<char>, Json),
    text: Seq<char>,
)
    requires
        before == seq!['{'] + body(members) + (if members.len() > 0 {
            seq![',']
        } else {
            Seq::empty()
        }),
        text == member_text(m) + seq![','],
    ensures
        before + text == seq!['{'] + body(members.push(m)) + seq![','],
{
    reveal_with_fuel(body, 1);
    let more = members.push(m);
    assert(more.drop_last() =~= members);
    assert(before + text =~= seq!['{'] + body(more) + seq![',']);
}

/// The last member, with the end of its object and of the line.
pub proof fn lemma_last_member(
    before: Seq<char>,
    members: Seq<(Seq<char>, Json)>,
    m: (Seq<char>, Json),
    text: Seq<char>,
)
    requires
        members.len() > 0,
        before == seq!['{'] + body(members) + seq![','],
        text == member_text(m) + seq!['}', '\n'],
    ensures
        before + text == seq!['{'] + body(members.push(m)) + seq!['}', '\n'],
{
    reveal_with_fuel(body, 1);
    let more = members.push(m);
    assert(more.drop_last() =~= members);
    assert(before + text =~= seq!['{'] + body(more) + seq!['}', '\n']);
}

/// Whether no name of a member needs escapes.
pub open spec fn are_plainly_named(members: Seq<(Seq<char>, Json)>) -> bool {
    forall|j: int| 0 <= j < members.len() ==> needs_no_escape((#[trigger] members[j]).0)
}

} // verus!
