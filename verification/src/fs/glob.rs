//! Shell-style glob patterns over byte paths.

use vstd::prelude::*;
use vstd::string::*;

verus! {

/// Where the class that starts a pattern ends: at its `]`, or past the
/// pattern.
pub open spec fn class_end(p: Seq<u8>, i: int) -> int
    decreases p.len() - i,
{
    if i >= p.len() || p[i] == 0x5d {
        i
    } else {
        class_end(p, i + 1)
    }
}

/// Whether a byte is in the set that a class lists from index `i` on:
/// single bytes, and ranges like `a-z`.
pub open spec fn in_class(class: Seq<u8>, i: int, c: u8) -> bool
    decreases class.len() - i,
{
    if i >= class.len() {
        false
    } else if i + 2 < class.len() && class[i + 1] == 0x2d {
        (class[i] <= c && c <= class[i + 2]) || in_class(class, i + 3, c)
    } else {
        c == class[i] || in_class(class, i + 1, c)
    }
}

/// Whether a pattern matches a text. `None` where a class that the text's
/// next byte is in has no closing bracket, which is no pattern.
pub open spec fn glob(p: Seq<u8>, t: Seq<u8>) -> Option<bool>
    decreases p.len(), 0nat,
{
    if p.len() == 0 {
        Some(t.len() == 0)
    } else if p[0] == 0x2a {
        glob_star(p.skip(1), t, 0)
    } else if t.len() == 0 {
        Some(false)
    } else if p[0] == 0x3f {
        if t[0] == 0x2f {
            Some(false)
        } else {
            glob(p.skip(1), t.skip(1))
        }
    } else if p[0] == 0x5b {
        let end = class_end(p, 1);
        if !in_class(p.subrange(1, end), 0, t[0]) {
            Some(false)
        } else if end >= p.len() {
            None
        } else {
            proof {
                lemma_class_end(p, 1);
            }
            glob(p.skip(end + 1), t.skip(1))
        }
    } else if p[0] == t[0] {
        glob(p.skip(1), t.skip(1))
    } else {
        Some(false)
    }
}

/// Whether a pattern after a `*` matches a text from index `i` on, or
/// from a later index that no `/` stands before.
pub open spec fn glob_star(p: Seq<u8>, t: Seq<u8>, i: nat) -> Option<bool>
    decreases p.len(), t.len() - i + 1,
{
    if i > t.len() || (i > 0 && t[i - 1] == 0x2f) {
        Some(false)
    } else {
        match glob(p, t.skip(i as int)) {
            Some(false) => glob_star(p, t, i + 1),
            verdict => verdict,
        }
    }
}

/// A class ends inside the pattern or right past it.
pub proof fn lemma_class_end(p: Seq<u8>, i: int)
    requires
        i <= p.len(),
    ensures
        i <= class_end(p, i) <= p.len(),
    decreases p.len() - i,
{
    if i < p.len() && p[i] != 0x5d {
        lemma_class_end(p, i + 1);
    }
}

proof fn lemma_no_class_end(p: Seq<u8>, i: int)
    requires
        0 <= i <= p.len(),
        forall|k: int| i <= k < p.len() ==> #[trigger] p[k] != 0x5d,
    ensures
        class_end(p, i) == p.len(),
    decreases p.len() - i,
{
    if i < p.len() {
        lemma_no_class_end(p, i + 1);
    }
}

/// A class that is not closed is no pattern for a text that it would go on
/// with, and matches no other text.
pub proof fn lemma_unclosed_classes_are_refused(body: Seq<u8>, t: Seq<u8>)
    requires
        forall|k: int| 0 <= k < body.len() ==> #[trigger] body[k] != 0x5d,
    ensures
        t.len() > 0 && in_class(body, 0, t[0]) ==> glob(seq![0x5bu8] + body, t) is None,
        t.len() == 0 || !in_class(body, 0, t[0]) ==> glob(seq![0x5bu8] + body, t) == Some(false),
{
    let p = seq![0x5bu8] + body;
    assert forall|k: int| 1 <= k < p.len() implies #[trigger] p[k] != 0x5d by {
        assert(p[k] == body[k - 1]);
    }
    lemma_no_class_end(p, 1);
    assert(p.subrange(1, p.len() as int) =~= body);
}

/// A byte of a pattern that stands for itself.
pub open spec fn is_literal(b: u8) -> bool {
    b != 0x2a && b != 0x3f && b != 0x5b
}

/// A pattern without `*`, `?` and `[` matches itself and nothing else.
pub proof fn lemma_literal_matches_itself(p: Seq<u8>, t: Seq<u8>)
    requires
        forall|i: int| 0 <= i < p.len() ==> is_literal(#[trigger] p[i]),
    ensures
        glob(p, t) == Some(p == t),
    decreases p.len(),
{
    if p.len() == 0 {
        if t.len() == 0 {
            assert(p =~= t);
        }
    } else {
        assert(is_literal(p[0]));
        if t.len() > 0 {
            assert forall|i: int| 0 <= i < p.skip(1).len() implies is_literal(
                #[trigger] p.skip(1)[i],
            ) by {
                assert(is_literal(p[i + 1]));
            }
            lemma_literal_matches_itself(p.skip(1), t.skip(1));
            if p[0] == t[0] && p.skip(1) == t.skip(1) {
                assert(p =~= t) by {
                    assert forall|i: int| 0 <= i < p.len() implies p[i] == t[i] by {
                        if i > 0 {
                            assert(p.skip(1)[i - 1] == t.skip(1)[i - 1]);
                        }
                    }
                }
            }
        }
    }
}

proof fn lemma_star_from(t: Seq<u8>, i: nat)
    requires
        i <= t.len(),
        forall|j: int| 0 <= j < i ==> #[trigger] t[j] != 0x2f,
    ensures
        glob_star(Seq::empty(), t, i) == Some(!t.contains(0x2f)),
    decreases t.len() - i,
{
    let rest = t.skip(i as int);
    assert(glob(Seq::empty(), rest) == Some(rest.len() == 0));
    if i < t.len() {
        if t[i as int] == 0x2f {
            assert(t.contains(0x2f));
            assert(glob_star(Seq::empty(), t, i + 1) == Some(false));
        } else {
            lemma_star_from(t, i + 1);
        }
    } else {
        assert(!t.contains(0x2f));
    }
}

/// `*` matches exactly the texts without a `/`.
pub proof fn lemma_star_does_not_cross_separators(t: Seq<u8>)
    ensures
        glob(seq![0x2au8], t) == Some(!t.contains(0x2f)),
{
    assert(seq![0x2au8].skip(1) =~= Seq::<u8>::empty());
    lemma_star_from(t, 0);
}

/// `?` matches exactly one byte other than `/`.
pub proof fn lemma_question_mark_matches_one_byte(t: Seq<u8>)
    ensures
        glob(seq![0x3fu8], t) == Some(t.len() == 1 && t[0] != 0x2f),
{
    assert(seq![0x3fu8].skip(1) =~= Seq::<u8>::empty());
    if t.len() > 0 && t[0] != 0x2f {
        assert(glob(Seq::empty(), t.skip(1)) == Some(t.skip(1).len() == 0));
    }
}

/// A closed class matches exactly one byte of its set.
pub proof fn lemma_class_matches_one_byte(class: Seq<u8>, t: Seq<u8>)
    requires
        !class.contains(0x5d),
    ensures
        glob(seq![0x5bu8] + class + seq![0x5du8], t) == Some(
            t.len() == 1 && in_class(class, 0, t[0]),
        ),
{
    let p = seq![0x5bu8] + class + seq![0x5du8];
    lemma_class_end_at(p, class, 1);
    assert(p.subrange(1, class.len() as int + 1) =~= class);
    assert(p.skip(class.len() as int + 2) =~= Seq::<u8>::empty());
    if t.len() > 0 {
        assert(glob(Seq::empty(), t.skip(1)) == Some(t.skip(1).len() == 0));
    }
}

proof fn lemma_class_end_at(p: Seq<u8>, class: Seq<u8>, i: int)
    requires
        p == seq![0x5bu8] + class + seq![0x5du8],
        !class.contains(0x5d),
        1 <= i <= class.len() + 1,
    ensures
        class_end(p, i) == class.len() + 1,
    decreases class.len() + 1 - i,
{
    if i < class.len() + 1 {
        assert(p[i] == class[i - 1]);
        lemma_class_end_at(p, class, i + 1);
    }
}

/// What a class lists: single bytes, and ranges with both ends.
pub enum Member {
    One(u8),
    Span(u8, u8),
}

impl Member {
    /// Whether a byte is one that the member lists.
    pub open spec fn has(self, c: u8) -> bool {
        match self {
            Member::One(b) => c == b,
            Member::Span(low, high) => low <= c <= high,
        }
    }

    /// The member as a class spells it, a range with a `-` between its
    /// ends.
    pub open spec fn spelled(self) -> Seq<u8> {
        match self {
            Member::One(b) => seq![b],
            Member::Span(low, high) => seq![low, 0x2du8, high],
        }
    }
}

/// The inside of a class, its members one after the other.
pub open spec fn class_spelled(members: Seq<Member>) -> Seq<u8>
    decreases members.len(),
{
    if members.len() == 0 {
        Seq::empty()
    } else {
        members[0].spelled() + class_spelled(members.skip(1))
    }
}

/// Whether a class means its members: no single byte is followed by a `-`
/// that makes a range of it, and none is the closing bracket.
pub open spec fn class_is_plain(members: Seq<Member>) -> bool
    decreases members.len(),
{
    members.len() > 0 ==> {
        let rest = class_spelled(members.skip(1));
        &&& class_is_plain(members.skip(1))
        &&& match members[0] {
            Member::One(b) => b != 0x5d && !(rest.len() >= 2 && rest[0] == 0x2d),
            Member::Span(low, high) => low != 0x5d && high != 0x5d,
        }
    }
}

/// Whether one of the members lists a byte.
pub open spec fn listed(members: Seq<Member>, c: u8) -> bool {
    exists|i: int| 0 <= i < members.len() && (#[trigger] members[i]).has(c)
}

/// What a pattern is made of.
pub enum Part {
    /// `*`.
    Star,
    /// `?`.
    Question,
    /// `[...]`.
    Class(Seq<Member>),
    /// A byte that stands for itself.
    Byte(u8),
}

impl Part {
    /// The part as a pattern spells it.
    pub open spec fn spelled(self) -> Seq<u8> {
        match self {
            Part::Star => seq![0x2au8],
            Part::Question => seq![0x3fu8],
            Part::Class(members) => seq![0x5bu8] + class_spelled(members) + seq![0x5du8],
            Part::Byte(b) => seq![b],
        }
    }

    /// Whether the part means what it spells.
    pub open spec fn is_plain(self) -> bool {
        match self {
            Part::Class(members) => class_is_plain(members),
            Part::Byte(b) => b != 0x2a && b != 0x3f && b != 0x5b,
            _ => true,
        }
    }
}

/// A pattern, its parts one after the other.
pub open spec fn pattern_spelled(parts: Seq<Part>) -> Seq<u8>
    decreases parts.len(),
{
    if parts.len() == 0 {
        Seq::empty()
    } else {
        parts[0].spelled() + pattern_spelled(parts.skip(1))
    }
}

/// Whether every part of a pattern means what it spells.
pub open spec fn is_plain_pattern(parts: Seq<Part>) -> bool {
    forall|i: int| 0 <= i < parts.len() ==> (#[trigger] parts[i]).is_plain()
}

/// What it is for a text to match a pattern: the text can be cut into one
/// piece for each part, in order, where the piece of a `*` is any run of
/// bytes without `/`, that of a `?` one byte other than `/`, that of a
/// class one byte that the class lists, and that of a byte the byte.
pub open spec fn fits(parts: Seq<Part>, t: Seq<u8>) -> bool
    decreases parts.len(),
{
    if parts.len() == 0 {
        t.len() == 0
    } else {
        exists|k: int|
            #![trigger t.skip(k)]
            0 <= k <= t.len() && piece_fits(parts[0], t.take(k)) && fits(parts.skip(1), t.skip(k))
    }
}

/// Whether a piece of text is one that a part stands for.
pub open spec fn piece_fits(part: Part, piece: Seq<u8>) -> bool {
    match part {
        Part::Star => !piece.contains(0x2f),
        Part::Question => piece.len() == 1 && piece[0] != 0x2f,
        Part::Class(members) => piece.len() == 1 && listed(members, piece[0]),
        Part::Byte(b) => piece.len() == 1 && piece[0] == b,
    }
}

proof fn lemma_in_class_from(before: Seq<u8>, members: Seq<Member>, c: u8)
    requires
        class_is_plain(members),
    ensures
        in_class(before + class_spelled(members), before.len() as int, c) == listed(members, c),
        !class_spelled(members).contains(0x5d),
    decreases members.len(),
{
    let class = before + class_spelled(members);
    if members.len() > 0 {
        let rest = members.skip(1);
        let tail = class_spelled(rest);
        let one = members[0].spelled();
        lemma_in_class_from(before + one, rest, c);
        assert(class =~= before + one + tail);
        assert(listed(members, c) == (members[0].has(c) || listed(rest, c))) by {
            if listed(rest, c) {
                let i = choose|i: int| 0 <= i < rest.len() && (#[trigger] rest[i]).has(c);
                assert(members[i + 1].has(c));
            }
            if listed(members, c) {
                let i = choose|i: int| 0 <= i < members.len() && (#[trigger] members[i]).has(c);
                if i > 0 {
                    assert(rest[i - 1].has(c));
                }
            }
        }
        assert(!class_spelled(members).contains(0x5d)) by {
            assert forall|i: int| 0 <= i < class_spelled(members).len() implies class_spelled(
                members,
            )[i] != 0x5d by {
                if i >= one.len() {
                    assert(class_spelled(members)[i] == tail[i - one.len()]);
                    assert(tail.contains(tail[i - one.len()]));
                }
            }
        }
        match members[0] {
            Member::One(b) => {
                let i = before.len() as int;
                assert(class[i] == b);
                if i + 2 < class.len() {
                    assert(tail.len() >= 2);
                    assert(class[i + 1] == tail[0]);
                }
            },
            Member::Span(low, high) => {
                let i = before.len() as int;
                assert(class[i] == low);
                assert(class[i + 1] == 0x2d);
                assert(class[i + 2] == high);
            },
        }
    }
}

/// A class has a byte exactly when one of its members lists it.
pub proof fn lemma_class_lists_its_members(members: Seq<Member>, c: u8)
    requires
        class_is_plain(members),
    ensures
        in_class(class_spelled(members), 0, c) == listed(members, c),
{
    lemma_in_class_from(Seq::empty(), members, c);
    assert(Seq::<u8>::empty() + class_spelled(members) =~= class_spelled(members));
}

proof fn lemma_star_tries_every_split(parts: Seq<Part>, t: Seq<u8>, i: nat)
    requires
        i <= t.len(),
        !t.take(i as int).contains(0x2f),
        forall|k: int|
            0 <= k <= t.len() ==> glob(pattern_spelled(parts), #[trigger] t.skip(k)) == Some(
                fits(parts, t.skip(k)),
            ),
    ensures
        glob_star(pattern_spelled(parts), t, i) == Some(
            exists|k: int|
                #![trigger t.skip(k)]
                i <= k <= t.len() && !t.take(k).contains(0x2f) && fits(parts, t.skip(k)),
        ),
    decreases t.len() - i,
{
    let p = pattern_spelled(parts);
    assert(i > 0 ==> t[i - 1] != 0x2f) by {
        if i > 0 {
            assert(t.take(i as int)[i - 1] == t[i - 1]);
        }
    }
    assert(glob(p, t.skip(i as int)) == Some(fits(parts, t.skip(i as int))));
    if !fits(parts, t.skip(i as int)) {
        if i == t.len() {
            assert(glob_star(p, t, i + 1) == Some(false));
        } else if t[i as int] == 0x2f {
            assert(glob_star(p, t, i + 1) == Some(false));
            assert forall|k: int|
                #![trigger t.skip(k)]
                i <= k <= t.len() && !t.take(k).contains(0x2f) implies !fits(parts, t.skip(k)) by {
                if k > i {
                    assert(t.take(k)[i as int] == 0x2f);
                }
            }
        } else {
            let longer = t.take(i as int + 1);
            assert(!longer.contains(0x2f)) by {
                assert forall|j: int| 0 <= j < longer.len() implies longer[j] != 0x2f by {
                    if j < i {
                        assert(t.take(i as int)[j] == t[j]);
                    }
                }
            }
            lemma_star_tries_every_split(parts, t, i + 1);
        }
    }
}

/// The matcher says what matching is: a pattern of any parts matches
/// exactly the texts that can be cut into pieces for its parts.
pub proof fn lemma_glob_is_matching(parts: Seq<Part>, t: Seq<u8>)
    requires
        is_plain_pattern(parts),
    ensures
        glob(pattern_spelled(parts), t) == Some(fits(parts, t)),
    decreases parts.len(),
{
    if parts.len() > 0 {
        let rest = parts.skip(1);
        let p = pattern_spelled(parts);
        let q = pattern_spelled(rest);
        assert(is_plain_pattern(rest)) by {
            assert forall|i: int| 0 <= i < rest.len() implies (#[trigger] rest[i]).is_plain() by {
                assert(parts[i + 1].is_plain());
            }
        }
        assert(parts[0].is_plain());
        match parts[0] {
            Part::Star => {
                assert(p.skip(1) =~= q);
                assert forall|k: int| 0 <= k <= t.len() implies glob(q, #[trigger] t.skip(k))
                    == Some(fits(rest, t.skip(k))) by {
                    lemma_glob_is_matching(rest, t.skip(k));
                }
                assert(t.take(0) =~= Seq::<u8>::empty());
                lemma_star_tries_every_split(rest, t, 0);
            },
            Part::Class(members) => {
                let inside = class_spelled(members);
                lemma_in_class_from(Seq::empty(), members, 0);
                lemma_class_end_in(p, inside, q, 1);
                let end = inside.len() + 1;
                assert(p.subrange(1, end as int) =~= inside);
                assert(p.skip(end as int + 1) =~= q);
                if t.len() > 0 {
                    lemma_class_lists_its_members(members, t[0]);
                    lemma_glob_is_matching(rest, t.skip(1));
                }
                lemma_one_byte_piece(parts, t);
            },
            _ => {
                assert(p.skip(1) =~= q);
                if t.len() > 0 {
                    lemma_glob_is_matching(rest, t.skip(1));
                }
                lemma_one_byte_piece(parts, t);
            },
        }
    }
}

proof fn lemma_one_byte_piece(parts: Seq<Part>, t: Seq<u8>)
    requires
        parts.len() > 0,
        parts[0] !is Star,
    ensures
        fits(parts, t) == (t.len() > 0 && piece_fits(parts[0], t.take(1)) && fits(
            parts.skip(1),
            t.skip(1),
        )),
{
    if fits(parts, t) {
        let k = choose|k: int|
            #![trigger t.skip(k)]
            0 <= k <= t.len() && piece_fits(parts[0], t.take(k)) && fits(parts.skip(1), t.skip(k));
        assert(t.take(k).len() == 1);
    }
}

proof fn lemma_class_end_in(p: Seq<u8>, inside: Seq<u8>, q: Seq<u8>, i: int)
    requires
        p == seq![0x5bu8] + inside + seq![0x5du8] + q,
        !inside.contains(0x5d),
        1 <= i <= inside.len() + 1,
    ensures
        class_end(p, i) == inside.len() + 1,
    decreases inside.len() + 1 - i,
{
    if i < inside.len() + 1 {
        assert(p[i] == inside[i - 1]);
        lemma_class_end_in(p, inside, q, i + 1);
    }
}

/// `*` before a pattern matches a text exactly when the text can be cut in
/// two so that the front holds no `/` and the pattern matches the back.
pub proof fn lemma_star_takes_any_run(parts: Seq<Part>, t: Seq<u8>)
    requires
        is_plain_pattern(parts),
    ensures
        glob(seq![0x2au8] + pattern_spelled(parts), t) == Some(
            exists|u: Seq<u8>, v: Seq<u8>|
                #![trigger u + v]
                t == u + v && !u.contains(0x2f) && glob(pattern_spelled(parts), v) == Some(true),
        ),
{
    let p = seq![0x2au8] + pattern_spelled(parts);
    assert(p.skip(1) =~= pattern_spelled(parts));
    assert forall|k: int| 0 <= k <= t.len() implies glob(
        pattern_spelled(parts),
        #[trigger] t.skip(k),
    ) == Some(fits(parts, t.skip(k))) by {
        lemma_glob_is_matching(parts, t.skip(k));
    }
    assert(t.take(0) =~= Seq::<u8>::empty());
    lemma_star_tries_every_split(parts, t, 0);
    if exists|u: Seq<u8>, v: Seq<u8>|
        #![trigger u + v]
        t == u + v && !u.contains(0x2f) && glob(pattern_spelled(parts), v) == Some(true) {
        let (u, v) = choose|u: Seq<u8>, v: Seq<u8>|
            #![trigger u + v]
            t == u + v && !u.contains(0x2f) && glob(pattern_spelled(parts), v) == Some(true);
        let k = u.len() as int;
        assert(t.take(k) =~= u);
        assert(t.skip(k) =~= v);
    }
    if glob(p, t) == Some(true) {
        let k = choose|k: int|
            #![trigger t.skip(k)]
            0 <= k <= t.len() && !t.take(k).contains(0x2f) && fits(parts, t.skip(k));
        assert(t =~= t.take(k) + t.skip(k));
    }
}

fn class_has(class: &[u8], c: u8) -> (r: bool)
    ensures
        r == in_class(class@, 0, c),
{
    let mut i: usize = 0;
    while i < class.len()
        invariant
            i <= class@.len(),
            in_class(class@, 0, c) == in_class(class@, i as int, c),
        decreases class@.len() - i,
    {
        if class.len() - i > 2 && class[i + 1] == 0x2d {
            if class[i] <= c && c <= class[i + 2] {
                return true;
            }
            i = i + 3;
        } else {
            if c == class[i] {
                return true;
            }
            i = i + 1;
        }
    }
    false
}

/// Match a pattern against a text. `None` where the pattern has a class
/// without a closing bracket that the text's next byte is in.
pub fn glob_bytes(p: &[u8], t: &[u8]) -> (r: Option<bool>)
    ensures
        r == glob(p@, t@),
    decreases p@.len(),
{
    if p.len() == 0 {
        return Some(t.len() == 0);
    }
    let first: u8 = p[0];
    if first == 0x2a {
        let rest: &[u8] = vstd::slice::slice_subrange(p, 1, p.len());
        assert(rest@ =~= p@.skip(1));
        let mut i: usize = 0;
        loop
            invariant
                i <= t@.len(),
                rest@ == p@.skip(1),
                p@.len() > 0,
                i > 0 ==> t@[i - 1] != 0x2f,
                glob(p@, t@) == glob_star(rest@, t@, i as nat),
            decreases t@.len() - i,
        {
            let tail: &[u8] = vstd::slice::slice_subrange(t, i, t.len());
            assert(tail@ =~= t@.skip(i as int));
            match glob_bytes(rest, tail) {
                Some(false) => {},
                verdict => {
                    return verdict;
                },
            }
            if i >= t.len() || t[i] == 0x2f {
                assert(glob_star(rest@, t@, (i + 1) as nat) == Some(false));
                return Some(false);
            }
            i = i + 1;
        }
    }
    if t.len() == 0 {
        return Some(false);
    }
    let c: u8 = t[0];
    let tail: &[u8] = vstd::slice::slice_subrange(t, 1, t.len());
    assert(tail@ =~= t@.skip(1));
    if first == 0x5b {
        let mut end: usize = 1;
        while end < p.len() && p[end] != 0x5d
            invariant
                1 <= end <= p@.len(),
                class_end(p@, 1) == class_end(p@, end as int),
            decreases p@.len() - end,
        {
            end = end + 1;
        }
        let class: &[u8] = vstd::slice::slice_subrange(p, 1, end);
        if !class_has(class, c) {
            return Some(false);
        }
        if end >= p.len() {
            return None;
        }
        let rest: &[u8] = vstd::slice::slice_subrange(p, end + 1, p.len());
        assert(rest@ =~= p@.skip(end + 1));
        return glob_bytes(rest, tail);
    }
    if first == 0x3f {
        if c == 0x2f {
            return Some(false);
        }
    } else if first != c {
        return Some(false);
    }
    let rest: &[u8] = vstd::slice::slice_subrange(p, 1, p.len());
    assert(rest@ =~= p@.skip(1));
    glob_bytes(rest, tail)
}

/// Minimal shell-style glob matcher: `*` and `?` do not cross `/`,
/// `[..]` matches a single byte in the listed set. Matches the
/// semantics used by `mkdwarfs --filter` so users can use the same
/// patterns on both ends.
///
/// Whether the pattern is one for the text, [`glob_bytes`] tells.
pub fn glob_match(pattern: &str, text: &str) -> (r: bool)
    requires
        glob(pattern.spec_bytes(), text.spec_bytes()) is Some,
    ensures
        glob(pattern.spec_bytes(), text.spec_bytes()) == Some(r),
{
    match glob_bytes(pattern.as_bytes(), text.as_bytes()) {
        Some(verdict) => verdict,
        None => false,
    }
}

} // verus!
