//! Natural order: runs of digits compare as numbers, everything else as
//! text, so `IMG_2` comes before `IMG_10` the way an operator counts.

use vstd::prelude::*;
use crate::text::{all_digits, digits_value, is_digit, is_digit_char, lowercase_of, owned, parse_digits, to_lowercase};
use crate::order::{
    SortKey, is_total_order, is_total, is_transitive, lemma_lex_antisymmetric, lemma_lex_total,
    lemma_lex_transitive, lex_le,
};

verus! {

/// Characters in code-point order, which is also the byte order of their
/// UTF-8 encoding and so the order `str` compares in.
pub open spec fn char_le(x: char, y: char) -> bool {
    x <= y
}

/// Text in the order `String`'s `Ord` puts it.
pub open spec fn text_le(a: Seq<char>, b: Seq<char>) -> bool {
    lex_le(a, b, |x: char, y: char| char_le(x, y))
}

/// Text is totally ordered.
pub proof fn lemma_text_order()
    ensures
        is_total_order(|a: Seq<char>, b: Seq<char>| text_le(a, b)),
{
    let le = |x: char, y: char| char_le(x, y);
    assert(is_total_order(le));
    assert forall|a: Seq<char>, b: Seq<char>| text_le(a, b) || text_le(b, a) by {
        lemma_lex_total(a, b, le);
    }
    assert forall|a: Seq<char>, b: Seq<char>, c: Seq<char>|
        #[trigger] text_le(a, b) && #[trigger] text_le(b, c) implies text_le(a, c) by {
        lemma_lex_transitive(a, b, c, le);
    }
    assert forall|a: Seq<char>, b: Seq<char>| #[trigger]
        text_le(a, b) && text_le(b, a) implies a == b by {
        lemma_lex_antisymmetric(a, b, le);
    }
}

/// Whether `a` sorts no later than `b` as text.
pub fn text_le_exec(a: &str, b: &str) -> (r: bool)
    ensures
        r == text_le(a@, b@),
{
    let ghost le = |x: char, y: char| char_le(x, y);
    let n = a.unicode_len();
    let m = b.unicode_len();
    let mut i: usize = 0;
    assert(a@.skip(0) =~= a@ && b@.skip(0) =~= b@);
    while i < n && i < m
        invariant
            n == a@.len(),
            m == b@.len(),
            0 <= i <= n,
            i <= m,
            le == (|x: char, y: char| char_le(x, y)),
            text_le(a@, b@) == lex_le(a@.skip(i as int), b@.skip(i as int), le),
        decreases n - i,
    {
        let x = a.get_char(i);
        let y = b.get_char(i);
        assert(a@.skip(i as int)[0] == x && b@.skip(i as int)[0] == y);
        if x < y {
            return true;
        }
        if x > y {
            return false;
        }
        assert(a@.skip(i as int).drop_first() =~= a@.skip(i + 1));
        assert(b@.skip(i as int).drop_first() =~= b@.skip(i + 1));
        i = i + 1;
    }
    i == n
}

/// One run of a natural sort key.
#[derive(Debug, Clone, PartialEq, Eq, PartialOrd, Ord)]
pub enum NaturalPart {
    /// A run of digits, as a number.
    Number(u128),
    /// A run of anything else, or a digit run too long to be a number.
    Text(String),
}

/// What a [`NaturalPart`] holds.
pub enum PartView {
    /// A run of digits, as a number.
    Number(u128),
    /// A run of text.
    Text(Seq<char>),
}

impl View for NaturalPart {
    type V = PartView;

    open spec fn view(&self) -> PartView {
        match self {
            NaturalPart::Number(n) => PartView::Number(*n),
            NaturalPart::Text(t) => PartView::Text(t@),
        }
    }
}

/// Numbers before text; numbers by value; text as text.
pub open spec fn part_le(a: PartView, b: PartView) -> bool {
    match (a, b) {
        (PartView::Number(x), PartView::Number(y)) => x <= y,
        (PartView::Number(_), PartView::Text(_)) => true,
        (PartView::Text(_), PartView::Number(_)) => false,
        (PartView::Text(x), PartView::Text(y)) => text_le(x, y),
    }
}

/// Parts are totally ordered.
pub proof fn lemma_part_order()
    ensures
        is_total_order(|a: PartView, b: PartView| part_le(a, b)),
{
    lemma_text_order();
    let tle = |a: Seq<char>, b: Seq<char>| text_le(a, b);
    assert forall|a: PartView, b: PartView| part_le(a, b) || part_le(b, a) by {
        if let (PartView::Text(x), PartView::Text(y)) = (a, b) {
            assert(tle(x, y) || tle(y, x));
        }
    }
    assert forall|a: PartView, b: PartView, c: PartView|
        #[trigger] part_le(a, b) && #[trigger] part_le(b, c) implies part_le(a, c) by {
        if let (PartView::Text(x), PartView::Text(y), PartView::Text(z)) = (a, b, c) {
            assert(tle(x, y) && tle(y, z));
        }
    }
    assert forall|a: PartView, b: PartView| #[trigger]
        part_le(a, b) && part_le(b, a) implies a == b by {
        if let (PartView::Text(x), PartView::Text(y)) = (a, b) {
            assert(tle(x, y) && tle(y, x));
        }
    }
}

fn part_le_exec(a: &NaturalPart, b: &NaturalPart) -> (r: bool)
    ensures
        r == part_le(a@, b@),
{
    match (a, b) {
        (NaturalPart::Number(x), NaturalPart::Number(y)) => *x <= *y,
        (NaturalPart::Number(_), NaturalPart::Text(_)) => true,
        (NaturalPart::Text(_), NaturalPart::Number(_)) => false,
        (NaturalPart::Text(x), NaturalPart::Text(y)) => text_le_exec(x.as_str(), y.as_str()),
    }
}

/// A whole natural sort key: its parts, compared in turn.
#[derive(Debug, Clone, PartialEq, Eq)]
pub struct NaturalKey(pub Vec<NaturalPart>);

/// The parts of a key.
pub open spec fn key_parts(key: NaturalKey) -> Seq<PartView> {
    key.0@.map_values(|p: NaturalPart| p@)
}

/// Keys in natural order.
pub open spec fn natural_le(a: Seq<PartView>, b: Seq<PartView>) -> bool {
    lex_le(a, b, |x: PartView, y: PartView| part_le(x, y))
}

impl SortKey for NaturalKey {
    open spec fn key_le(self, other: Self) -> bool {
        natural_le(key_parts(self), key_parts(other))
    }

    proof fn lemma_key_order() {
        lemma_part_order();
        let le = |x: PartView, y: PartView| part_le(x, y);
        assert forall|a: NaturalKey, b: NaturalKey| a.key_le(b) || b.key_le(a) by {
            lemma_lex_total(key_parts(a), key_parts(b), le);
        }
        assert forall|a: NaturalKey, b: NaturalKey, c: NaturalKey|
            #[trigger] a.key_le(b) && #[trigger] b.key_le(c) implies a.key_le(c) by {
            lemma_lex_transitive(key_parts(a), key_parts(b), key_parts(c), le);
        }
    }

    fn le(&self, other: &Self) -> (r: bool) {
        let ghost le = |x: PartView, y: PartView| part_le(x, y);
        let a = &self.0;
        let b = &other.0;
        let n = a.len();
        let m = b.len();
        let ghost av = key_parts(*self);
        let ghost bv = key_parts(*other);
        let mut i: usize = 0;
        assert(av.skip(0) =~= av && bv.skip(0) =~= bv);
        while i < n && i < m
            invariant
                n == a@.len(),
                m == b@.len(),
                a == &self.0,
                b == &other.0,
                av == key_parts(*self),
                bv == key_parts(*other),
                0 <= i <= n,
                i <= m,
                le == (|x: PartView, y: PartView| part_le(x, y)),
                natural_le(av, bv) == lex_le(av.skip(i as int), bv.skip(i as int), le),
            decreases n - i,
        {
            let x = part_le_exec(&a[i], &b[i]);
            let y = part_le_exec(&b[i], &a[i]);
            assert(av.skip(i as int)[0] == a@[i as int]@);
            assert(bv.skip(i as int)[0] == b@[i as int]@);
            if !y {
                return true;
            }
            if !x {
                return false;
            }
            assert(av.skip(i as int).drop_first() =~= av.skip(i + 1));
            assert(bv.skip(i as int).drop_first() =~= bv.skip(i + 1));
            i = i + 1;
        }
        i == n
    }
}

} // verus!

verus! {

/// How many characters at the start of `s` are digits, when `digit`, or
/// are not, when it is false.
pub open spec fn leading_run(s: Seq<char>, digit: bool) -> nat
    decreases s.len(),
{
    if s.len() > 0 && is_digit(s[0]) == digit {
        1 + leading_run(s.drop_first(), digit)
    } else {
        0
    }
}

/// The part one run becomes: a digit run is a number when it fits in a
/// `u128` and text when it does not; other text is lower-cased by
/// `to_lowercase` when `fold`, and kept as it is otherwise.
pub open spec fn part_of_run(run: Seq<char>, digit: bool, fold: bool) -> PartView {
    if digit {
        if digits_value(run) <= u128::MAX {
            PartView::Number(digits_value(run) as u128)
        } else {
            PartView::Text(run)
        }
    } else if fold {
        PartView::Text(lowercase_of(run))
    } else {
        PartView::Text(run)
    }
}

/// `s` cut into alternating runs of digits and of everything else.
pub open spec fn natural_parts(s: Seq<char>, fold: bool) -> Seq<PartView>
    decreases s.len(),
{
    if s.len() == 0 {
        Seq::empty()
    } else {
        let digit = is_digit(s[0]);
        let k = leading_run(s, digit);
        proof {
            lemma_leading_run_bounds(s, digit);
        }
        seq![part_of_run(s.take(k as int), digit, fold)] + natural_parts(s.skip(k as int), fold)
    }
}

/// A run is never longer than the text it starts.
pub proof fn lemma_leading_run_bounds(s: Seq<char>, digit: bool)
    ensures
        leading_run(s, digit) <= s.len(),
        s.len() > 0 && is_digit(s[0]) == digit ==> leading_run(s, digit) >= 1,
        forall|i: int| 0 <= i < leading_run(s, digit) ==> is_digit(#[trigger] s[i]) == digit,
    decreases s.len(),
{
    if s.len() > 0 && is_digit(s[0]) == digit {
        lemma_leading_run_bounds(s.drop_first(), digit);
        assert forall|i: int| 0 < i < leading_run(s, digit) implies is_digit(#[trigger] s[i]) == digit by {
            assert(s[i] == s.drop_first()[i - 1]);
        }
    }
}

proof fn lemma_leading_run_step(s: Seq<char>, i: int, digit: bool)
    requires
        0 <= i < s.len(),
        is_digit(s[i]) == digit,
    ensures
        leading_run(s.skip(i), digit) == 1 + leading_run(s.skip(i + 1), digit),
{
    assert(s.skip(i).drop_first() =~= s.skip(i + 1));
}

/// `s` cut into natural parts.
pub fn natural_parts_of(s: &str, fold: bool) -> (r: Vec<NaturalPart>)
    ensures
        r@.map_values(|p: NaturalPart| p@) == natural_parts(s@, fold),
{
    let n = s.unicode_len();
    let mut parts: Vec<NaturalPart> = Vec::new();
    let mut i: usize = 0;
    assert(s@.skip(0) =~= s@);
    while i < n
        invariant
            n == s@.len(),
            0 <= i <= n,
            natural_parts(s@, fold) == parts@.map_values(|p: NaturalPart| p@) + natural_parts(
                s@.skip(i as int),
                fold,
            ),
        decreases n - i,
    {
        let digit = is_digit_char(s.get_char(i));
        let mut j: usize = i + 1;
        proof {
            lemma_leading_run_step(s@, i as int, digit);
        }
        while j < n && is_digit_char(s.get_char(j)) == digit
            invariant
                n == s@.len(),
                i < j <= n,
                leading_run(s@.skip(i as int), digit) == (j - i) + leading_run(
                    s@.skip(j as int),
                    digit,
                ),
            decreases n - j,
        {
            proof {
                lemma_leading_run_step(s@, j as int, digit);
            }
            j = j + 1;
        }
        let ghost rest = s@.skip(i as int);
        let ghost k = leading_run(rest, digit);
        assert(k == j - i) by {
            if j < n {
                assert(s@.skip(j as int)[0] == s@[j as int]);
            }
        }
        let run = s.substring_char(i, j);
        assert(run@ =~= rest.take(k as int));
        assert(rest.skip(k as int) =~= s@.skip(j as int));
        assert(rest[0] == s@[i as int]);
        let part = if digit {
            match parse_digits(run, 0, u128::MAX) {
                Some(v) => NaturalPart::Number(v),
                None => NaturalPart::Text(owned(run)),
            }
        } else if fold {
            NaturalPart::Text(to_lowercase(run))
        } else {
            NaturalPart::Text(owned(run))
        };
        proof {
            assert(run@.subrange(0, run@.len() as int) =~= run@);
            lemma_leading_run_bounds(rest, digit);
            if digit {
                assert forall|q: int| 0 <= q < run@.len() implies is_digit(#[trigger] run@[q]) by {
                    assert(run@[q] == rest[q]);
                }
            }
            assert(part@ == part_of_run(run@, digit, fold));
        }
        let ghost before = parts@;
        parts.push(part);
        assert(parts@.map_values(|p: NaturalPart| p@) =~= before.map_values(|p: NaturalPart| p@).push(
            part@,
        ));
        assert(natural_parts(rest, fold) == seq![part@] + natural_parts(s@.skip(j as int), fold));
        i = j;
    }
    assert(s@.skip(n as int) =~= Seq::<char>::empty());
    assert(parts@.map_values(|p: NaturalPart| p@) + Seq::<PartView>::empty() =~= parts@.map_values(
        |p: NaturalPart| p@,
    ));
    parts
}

} // verus!

verus! {

/// A string compared as text, the way `String`'s `Ord` compares it.
pub struct TextKey(pub String);

impl SortKey for TextKey {
    open spec fn key_le(self, other: Self) -> bool {
        text_le(self.0@, other.0@)
    }

    proof fn lemma_key_order() {
        lemma_text_order();
        let t = |a: Seq<char>, b: Seq<char>| text_le(a, b);
        assert forall|a: TextKey, b: TextKey| a.key_le(b) || b.key_le(a) by {
            assert(t(a.0@, b.0@) || t(b.0@, a.0@));
        }
        assert forall|a: TextKey, b: TextKey, c: TextKey|
            #[trigger] a.key_le(b) && #[trigger] b.key_le(c) implies a.key_le(c) by {
            assert(t(a.0@, b.0@) && t(b.0@, c.0@));
        }
    }

    fn le(&self, other: &Self) -> (r: bool) {
        text_le_exec(self.0.as_str(), other.0.as_str())
    }
}

} // verus!
