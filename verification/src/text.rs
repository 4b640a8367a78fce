//! Plain-text helpers: whitespace, words, numbers and decimal rendering.
//!
//! Text is modelled as the sequence of its characters. Every helper states
//! what it returns over that sequence, so the parsers built on top never
//! have to speak of bytes.

use vstd::prelude::*;
use vstd::string::{StrSliceExecFns, StringExecFns};

verus! {

/// The characters of the Unicode `White_Space` property.
pub open spec fn is_space(c: char) -> bool {
    ||| '\u{9}' <= c <= '\u{d}'
    ||| c == ' '
    ||| c == '\u{85}'
    ||| c == '\u{a0}'
    ||| c == '\u{1680}'
    ||| '\u{2000}' <= c <= '\u{200a}'
    ||| c == '\u{2028}'
    ||| c == '\u{2029}'
    ||| c == '\u{202f}'
    ||| c == '\u{205f}'
    ||| c == '\u{3000}'
}

/// Whether `c` has the `White_Space` property.
pub fn space(c: char) -> (r: bool)
    ensures
        r == is_space(c),
{
    ('\u{9}' <= c && c <= '\u{d}') || c == ' ' || c == '\u{85}' || c == '\u{a0}' || c == '\u{1680}'
        || ('\u{2000}' <= c && c <= '\u{200a}') || c == '\u{2028}' || c == '\u{2029}' || c
        == '\u{202f}' || c == '\u{205f}' || c == '\u{3000}'
}

/// The characters of `s`, in order.
pub fn chars_of(s: &str) -> (r: Vec<char>)
    ensures
        r@ == s@,
{
    let mut out: Vec<char> = Vec::new();
    for c in it: s.chars()
        invariant
            it.seq() == s@,
            out@ == s@.take(it.index() as int),
    {
        out.push(c);
    }
    out
}

/// Whether two texts are the same, character for character.
pub fn same(a: &str, b: &str) -> (r: bool)
    ensures
        r == (a@ == b@),
{
    a.to_owned() == b.to_owned()
}

/// `c` with the letters `A` to `Z` lowered and everything else kept.
pub open spec fn lower(c: char) -> char {
    if 'A' <= c <= 'Z' {
        (c as u32 + 32) as char
    } else {
        c
    }
}

/// `s` with its ASCII letters lowered.
pub open spec fn lowered(s: Seq<char>) -> Seq<char> {
    s.map_values(|c: char| lower(c))
}

/// The lower-case form of one character, ASCII letters only.
pub fn lower_char(c: char) -> (r: char)
    ensures
        r == lower(c),
{
    if 'A' <= c && c <= 'Z' {
        ((c as u8) + 32u8) as char
    } else {
        c
    }
}

/// Whether two texts agree once ASCII letters are lowered.
pub open spec fn agrees(a: Seq<char>, b: Seq<char>) -> bool {
    lowered(a) == lowered(b)
}

/// Whether two texts agree once ASCII letters are lowered.
pub fn same_ignoring_case(a: &str, b: &str) -> (r: bool)
    ensures
        r == agrees(a@, b@),
{
    let x = chars_of(a);
    let y = chars_of(b);
    if x.len() != y.len() {
        assert(lowered(a@).len() != lowered(b@).len());
        return false;
    }
    let mut i: usize = 0;
    while i < x.len()
        invariant
            i <= x.len(),
            x.len() == y.len(),
            x@ == a@,
            y@ == b@,
            forall|j: int| 0 <= j < i ==> lower(a@[j]) == lower(b@[j]),
        decreases x.len() - i,
    {
        if lower_char(x[i]) != lower_char(y[i]) {
            assert(lowered(a@)[i as int] != lowered(b@)[i as int]);
            return false;
        }
        i += 1;
    }
    assert(lowered(a@) =~= lowered(b@));
    true
}

/// `s` without its leading white space.
pub open spec fn trimmed_front(s: Seq<char>) -> Seq<char>
    decreases s.len(),
{
    if s.len() > 0 && is_space(s.first()) {
        trimmed_front(s.drop_first())
    } else {
        s
    }
}

/// `s` without its trailing white space.
pub open spec fn trimmed_back(s: Seq<char>) -> Seq<char>
    decreases s.len(),
{
    if s.len() > 0 && is_space(s.last()) {
        trimmed_back(s.drop_last())
    } else {
        s
    }
}

/// `s` without the white space around it.
pub open spec fn trimmed(s: Seq<char>) -> Seq<char> {
    trimmed_back(trimmed_front(s))
}

/// Trimming leaves a text that neither starts nor ends with white space,
/// and that trimming again leaves alone.
pub proof fn trimming_settles(s: Seq<char>)
    ensures
        trimmed(s).len() > 0 ==> !is_space(trimmed(s).first()) && !is_space(trimmed(s).last()),
        trimmed(trimmed(s)) == trimmed(s),
{
    lemma_front(s);
    lemma_back(trimmed_front(s));
}

proof fn lemma_front(s: Seq<char>)
    ensures
        trimmed_front(s).len() > 0 ==> !is_space(trimmed_front(s).first()),
    decreases s.len(),
{
    if s.len() > 0 && is_space(s.first()) {
        lemma_front(s.drop_first());
    }
}

proof fn lemma_back(s: Seq<char>)
    requires
        s.len() > 0 ==> !is_space(s.first()),
    ensures
        trimmed_back(s).len() > 0 ==> {
            &&& !is_space(trimmed_back(s).first())
            &&& !is_space(trimmed_back(s).last())
        },
    decreases s.len(),
{
    if s.len() > 0 && is_space(s.last()) {
        lemma_back(s.drop_last());
    }
}

/// `s` without the white space around it.
pub fn trim<'a>(s: &'a str) -> (r: &'a str)
    ensures
        r@ == trimmed(s@),
{
    let c = chars_of(s);
    let mut from: usize = 0;
    assert(s@.skip(0) =~= s@);
    while from < c.len() && space(c[from])
        invariant
            from <= c.len(),
            c@ == s@,
            trimmed_front(s@) == trimmed_front(s@.skip(from as int)),
        decreases c.len() - from,
    {
        assert(s@.skip(from as int).drop_first() =~= s@.skip(from + 1));
        from += 1;
    }
    let ghost front = s@.skip(from as int);
    assert(trimmed_front(s@) == front);
    let mut to: usize = c.len();
    assert(front.take(to - from) =~= front);
    while from < to && space(c[to - 1])
        invariant
            from <= to <= c.len(),
            c@ == s@,
            front == s@.skip(from as int),
            trimmed_back(front) == trimmed_back(front.take(to - from)),
        decreases to,
    {
        assert(front.take(to - from).drop_last() =~= front.take(to - from - 1));
        assert(front.take(to - from).last() == c@[to - 1]);
        to -= 1;
    }
    assert(trimmed_back(front) == front.take(to - from)) by {
        if from < to {
            assert(front.take(to - from).last() == c@[to - 1]);
        }
    }
    assert(front.take(to - from) =~= s@.subrange(from as int, to as int));
    s.substring_char(from, to)
}

/// The words of `s`: its maximal runs of characters that are not white
/// space, in order.
pub open spec fn words(s: Seq<char>) -> Seq<Seq<char>>
    decreases s.len(),
{
    if s.len() == 0 {
        Seq::empty()
    } else {
        let before = words(s.drop_last());
        if is_space(s.last()) {
            before
        } else if s.len() == 1 || is_space(s[s.len() - 2]) {
            before.push(seq![s.last()])
        } else {
            before.drop_last().push(before.last().push(s.last()))
        }
    }
}

/// Where each word of a text starts and ends, as character positions.
pub struct Word {
    pub from: usize,
    pub to: usize,
}

/// The texts that `spans` cuts out of `s`.
pub open spec fn cut(s: Seq<char>, spans: Seq<Word>) -> Seq<Seq<char>> {
    spans.map_values(|w: Word| s.subrange(w.from as int, w.to as int))
}

/// Whether `w` is non-empty and free of white space.
pub open spec fn is_solid(w: Seq<char>) -> bool {
    w.len() > 0 && forall|j: int| 0 <= j < w.len() ==> !is_space(#[trigger] w[j])
}

/// Every word is non-empty and free of white space, and a text that does
/// not end in white space has one.
pub proof fn words_are_solid(s: Seq<char>)
    ensures
        forall|i: int| 0 <= i < words(s).len() ==> is_solid(#[trigger] words(s)[i]),
        s.len() > 0 && !is_space(s.last()) ==> words(s).len() > 0,
    decreases s.len(),
{
    if s.len() > 0 {
        let rest = s.drop_last();
        words_are_solid(rest);
        if !is_space(s.last()) && s.len() > 1 && !is_space(s[s.len() - 2]) {
            assert(rest.last() == s[s.len() - 2]);
            let old_last = words(rest).last();
            assert(is_solid(old_last));
            assert(is_solid(old_last.push(s.last())));
        } else if !is_space(s.last()) {
            assert(is_solid(seq![s.last()]));
        }
    }
}

/// The positions of the words of `s`.
pub fn word_spans(s: &str) -> (r: Vec<Word>)
    ensures
        cut(s@, r@) == words(s@),
        forall|i: int| 0 <= i < r.len() ==> (#[trigger] r[i]).from < r[i].to <= s@.len(),
{
    let c = chars_of(s);
    let mut out: Vec<Word> = Vec::new();
    let mut i: usize = 0;
    assert(cut(s@, out@) =~= words(s@.take(0)));
    while i < c.len()
        invariant
            i <= c.len(),
            c@ == s@,
            cut(s@, out@) == words(s@.take(i as int)),
            forall|j: int| 0 <= j < out.len() ==> (#[trigger] out[j]).from < out[j].to <= i,
            i > 0 && !is_space(c[i - 1]) ==> out.len() > 0 && out[out.len() - 1].to == i,
        decreases c.len() - i,
    {
        let ghost done = s@.take(i as int);
        let ghost next = s@.take(i + 1);
        let ghost before = out@;
        assert(next.drop_last() =~= done);
        assert(next.last() == c[i as int]);
        if !space(c[i]) {
            if i == 0 || space(c[i - 1]) {
                out.push(Word { from: i, to: i + 1 });
                assert(s@.subrange(i as int, i + 1) =~= seq![c[i as int]]);
                assert(cut(s@, out@) =~= cut(s@, before).push(seq![c[i as int]]));
                assert(i > 0 ==> next[next.len() - 2] == c[i - 1]);
            } else {
                let last = out.len() - 1;
                let from = out[last].from;
                out.set(last, Word { from, to: i + 1 });
                assert(next[next.len() - 2] == c[i - 1]);
                assert(s@.subrange(from as int, i + 1) =~= s@.subrange(from as int, i as int).push(
                    c[i as int],
                ));
                assert(cut(s@, before).last() == s@.subrange(from as int, i as int));
                assert(cut(s@, out@) =~= cut(s@, before).drop_last().push(
                    cut(s@, before).last().push(c[i as int]),
                ));
            }
        }
        i += 1;
    }
    assert(s@.take(c.len() as int) =~= s@);
    out
}

/// The word of `s` at position `n`, if there are that many.
pub open spec fn nth_word(s: Seq<char>, n: int) -> Option<Seq<char>> {
    if 0 <= n < words(s).len() {
        Some(words(s)[n])
    } else {
        None
    }
}

/// The word of `s` at position `n`, counting from zero.
pub fn word_at<'a>(s: &'a str, n: usize) -> (r: Option<&'a str>)
    ensures
        match r {
            Some(w) => nth_word(s@, n as int) == Some(w@),
            None => nth_word(s@, n as int) is None,
        },
{
    let spans = word_spans(s);
    assert(cut(s@, spans@).len() == spans.len());
    if n < spans.len() {
        assert(cut(s@, spans@)[n as int] == s@.subrange(
            spans[n as int].from as int,
            spans[n as int].to as int,
        ));
        Some(s.substring_char(spans[n].from, spans[n].to))
    } else {
        None
    }
}

/// Whether `w` is one of the words of `s`.
pub fn has_word(s: &str, w: &str) -> (r: bool)
    ensures
        r == words(s@).contains(w@),
{
    let spans = word_spans(s);
    let ghost all = cut(s@, spans@);
    let mut i: usize = 0;
    while i < spans.len()
        invariant
            i <= spans.len(),
            all == cut(s@, spans@),
            all == words(s@),
            forall|j: int| 0 <= j < spans.len() ==> (#[trigger] spans[j]).from < spans[j].to <= s@.len(),
            forall|j: int| 0 <= j < i ==> #[trigger] all[j] != w@,
        decreases spans.len() - i,
    {
        let word = s.substring_char(spans[i].from, spans[i].to);
        assert(all[i as int] == word@);
        if same(word, w) {
            return true;
        }
        i += 1;
    }
    false
}

/// Whether `s` begins with `p`.
pub open spec fn begins(s: Seq<char>, p: Seq<char>) -> bool {
    s.len() >= p.len() && s.take(p.len() as int) == p
}

/// Whether `s` begins with `p`.
pub fn starts_with(s: &str, p: &str) -> (r: bool)
    ensures
        r == begins(s@, p@),
{
    let n = s.unicode_len();
    let m = p.unicode_len();
    if n < m {
        return false;
    }
    let head = s.substring_char(0, m);
    assert(head@ =~= s@.take(m as int));
    same(head, p)
}

/// Whether `p` stands in `s` at position `i`.
pub open spec fn stands_at(s: Seq<char>, p: Seq<char>, i: int) -> bool {
    0 <= i && i + p.len() <= s.len() && s.subrange(i, i + p.len()) == p
}

/// Whether `p` stands somewhere in `s`.
pub open spec fn holds(s: Seq<char>, p: Seq<char>) -> bool {
    exists|i: int| stands_at(s, p, i)
}

/// Whether `p` stands somewhere in `s`.
pub fn contains(s: &str, p: &str) -> (r: bool)
    ensures
        r == holds(s@, p@),
{
    let n = s.unicode_len();
    let m = p.unicode_len();
    if n < m {
        return false;
    }
    let mut i: usize = 0;
    while i <= n - m
        invariant
            i <= n - m + 1,
            m <= n,
            n == s@.len(),
            m == p@.len(),
            forall|j: int| 0 <= j < i ==> !stands_at(s@, p@, j),
        decreases n - m + 1 - i,
    {
        let part = s.substring_char(i, i + m);
        if same(part, p) {
            assert(stands_at(s@, p@, i as int));
            return true;
        }
        if i == n - m {
            return false;
        }
        i += 1;
    }
    false
}

/// Whether `c` is one of `0` to `9`.
pub open spec fn is_digit(c: char) -> bool {
    '0' <= c <= '9'
}

/// Whether `s` is one decimal digit or more.
pub open spec fn all_digits(s: Seq<char>) -> bool {
    s.len() > 0 && forall|i: int| 0 <= i < s.len() ==> is_digit(#[trigger] s[i])
}

/// The number that the decimal digits of `s` write.
pub open spec fn digits_value(s: Seq<char>) -> nat
    decreases s.len(),
{
    if s.len() == 0 {
        0
    } else {
        (digits_value(s.drop_last()) * 10 + (s.last() as int - '0' as int)) as nat
    }
}

/// The digits of `s` behind one optional plus sign.
pub open spec fn unsigned_part(s: Seq<char>) -> Seq<char> {
    if s.len() > 1 && s.first() == '+' {
        s.drop_first()
    } else {
        s
    }
}

/// The number that `s` writes, if it is a decimal number (one plus sign
/// may stand in front) that is no greater than `max`.
pub open spec fn number(s: Seq<char>, max: nat) -> Option<nat> {
    let d = unsigned_part(s);
    if all_digits(d) && digits_value(d) <= max {
        Some(digits_value(d))
    } else {
        None
    }
}

proof fn lemma_prefix_value(s: Seq<char>, n: int)
    requires
        all_digits(s),
        0 <= n <= s.len(),
    ensures
        digits_value(s.take(n)) <= digits_value(s),
    decreases s.len() - n,
{
    if n == s.len() {
        assert(s.take(n) =~= s);
    } else {
        lemma_prefix_value(s, n + 1);
        assert(s.take(n + 1).drop_last() =~= s.take(n));
        assert(s.take(n + 1).last() == s[n]);
        assert(is_digit(s[n]));
    }
}

/// The number that `s` writes, no greater than `max`.
pub fn parse_number(s: &str, max: u64) -> (r: Option<u64>)
    ensures
        match r {
            Some(n) => number(s@, max as nat) == Some(n as nat),
            None => number(s@, max as nat) is None,
        },
{
    let c = chars_of(s);
    let from: usize = if c.len() > 1 && c[0] == '+' {
        1
    } else {
        0
    };
    let ghost d = unsigned_part(s@);
    assert(d =~= s@.skip(from as int));
    if from == c.len() {
        return None;
    }
    let mut value: u64 = 0;
    let mut i: usize = from;
    assert(d.take(0) =~= Seq::<char>::empty());
    while i < c.len()
        invariant
            from <= i <= c.len(),
            c@ == s@,
            d == s@.skip(from as int),
            d == unsigned_part(s@),
            value == digits_value(d.take(i - from)),
            value <= max,
            forall|j: int| 0 <= j < i - from ==> is_digit(#[trigger] d[j]),
        decreases c.len() - i,
    {
        let ch = c[i];
        assert(d[i - from] == ch);
        if !('0' <= ch && ch <= '9') {
            return None;
        }
        let digit: u64 = (ch as u64) - 48;
        assert(d.take(i - from + 1).drop_last() =~= d.take(i - from));
        assert(d.take(i - from + 1).last() == ch);
        if value > (u64::MAX - digit) / 10 || value * 10 + digit > max {
            assert(digits_value(d.take(i - from + 1)) > max);
            proof {
                if all_digits(d) {
                    lemma_prefix_value(d, i - from + 1);
                }
            }
            return None;
        }
        value = value * 10 + digit;
        i += 1;
    }
    assert(d.take(c.len() - from) =~= d);
    Some(value)
}

/// The decimal digit for `d`.
pub open spec fn digit_char(d: nat) -> char {
    ('0' as u32 + d) as char
}

/// `n` in decimal, without leading zeros.
pub open spec fn decimal(n: nat) -> Seq<char>
    decreases n,
{
    if n < 10 {
        seq![digit_char(n)]
    } else {
        decimal(n / 10).push(digit_char(n % 10))
    }
}

/// A decimal rendering reads back as the number it was made from.
pub proof fn decimal_reads_back(n: nat)
    ensures
        all_digits(decimal(n)),
        digits_value(decimal(n)) == n,
        unsigned_part(decimal(n)) == decimal(n),
        forall|max: nat| n <= max ==> #[trigger] number(decimal(n), max) == Some(n),
    decreases n,
{
    if n < 10 {
        assert(decimal(n).drop_last() =~= Seq::<char>::empty());
        assert(digits_value(decimal(n).drop_last()) == 0);
    } else {
        decimal_reads_back(n / 10);
        assert(decimal(n).drop_last() =~= decimal(n / 10));
    }
    assert(is_digit(decimal(n)[0]));
}

fn push_digit(out: &mut String, d: u64)
    requires
        d < 10,
    ensures
        final(out)@ == old(out)@.push(digit_char(d as nat)),
{
    proof {
        reveal_strlit("0");
        reveal_strlit("1");
        reveal_strlit("2");
        reveal_strlit("3");
        reveal_strlit("4");
        reveal_strlit("5");
        reveal_strlit("6");
        reveal_strlit("7");
        reveal_strlit("8");
        reveal_strlit("9");
    }
    let text: &str = match d {
        0 => "0",
        1 => "1",
        2 => "2",
        3 => "3",
        4 => "4",
        5 => "5",
        6 => "6",
        7 => "7",
        8 => "8",
        _ => "9",
    };
    assert(text@ =~= seq![digit_char(d as nat)]);
    assert(old(out)@ + text@ =~= old(out)@.push(digit_char(d as nat)));
    out.append(text);
}

/// Writes `n` in decimal at the end of `out`.
pub fn push_decimal(out: &mut String, n: u64)
    ensures
        final(out)@ == old(out)@ + decimal(n as nat),
    decreases n,
{
    if n < 10 {
        push_digit(out, n);
        assert(old(out)@.push(digit_char(n as nat)) =~= old(out)@ + decimal(n as nat));
    } else {
        push_decimal(out, n / 10);
        push_digit(out, n % 10);
        assert((old(out)@ + decimal(n as nat / 10)).push(digit_char(n as nat % 10)) =~= old(out)@
            + decimal(n as nat));
    }
}

/// `n` in decimal with at least two digits.
pub open spec fn two_digits(n: nat) -> Seq<char> {
    if n < 10 {
        seq!['0'] + decimal(n)
    } else {
        decimal(n)
    }
}

/// Writes `n` in decimal with at least two digits at the end of `out`.
pub fn push_two_digits(out: &mut String, n: u64)
    ensures
        final(out)@ == old(out)@ + two_digits(n as nat),
{
    if n < 10 {
        push_digit(out, 0);
        assert(old(out)@.push(digit_char(0)) =~= old(out)@ + seq!['0']);
    }
    push_decimal(out, n);
    assert(final(out)@ =~= old(out)@ + two_digits(n as nat));
}

/// `n` in decimal.
pub fn decimal_text(n: u64) -> (r: String)
    ensures
        r@ == decimal(n as nat),
{
    let mut out = String::new();
    push_decimal(&mut out, n);
    assert(out@ =~= decimal(n as nat));
    out
}

/// Two texts, one behind the other.
pub fn joined(a: &str, b: &str) -> (r: String)
    ensures
        r@ == a@ + b@,
{
    let mut out = a.to_owned();
    out.append(b);
    out
}

} // verus!
