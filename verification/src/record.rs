//! The textual form of one "connect these two points" instruction.
//!
//! A record such as `[3, 4][5, 6]` names two points. It is made of ten
//! tokens and nothing else: `[`, a number, `,`, a number, `]`, and the same
//! once more. White space may stand before, between and after the tokens, but
//! not inside a number. A number is an optional `+` and then decimal digits
//! whose value fits a machine word. A line of any other shape holds no
//! record.

use vstd::prelude::*;
use crate::point::Point;

verus! {

/// The code points with the Unicode property `White_Space`.
pub open spec fn is_space(c: char) -> bool {
    let n = c as u32;
    ||| 0x09 <= n <= 0x0D
    ||| n == 0x20
    ||| n == 0x85
    ||| n == 0xA0
    ||| n == 0x1680
    ||| 0x2000 <= n <= 0x200A
    ||| n == 0x2028
    ||| n == 0x2029
    ||| n == 0x202F
    ||| n == 0x205F
    ||| n == 0x3000
}

/// The three marks of a record: the two brackets and the comma.
pub open spec fn is_mark(c: char) -> bool {
    c == '[' || c == ']' || c == ','
}

/// The characters that words are made of: neither white space nor a mark.
pub open spec fn is_word_char(c: char) -> bool {
    !is_space(c) && !is_mark(c)
}

/// The tokens of a text, in order. Every mark is a token by itself, every
/// longest run of word characters is one token, and white space belongs to no
/// token: it only parts one word from the next.
pub open spec fn tokens(s: Seq<char>) -> Seq<Seq<char>>
    decreases s.len(),
{
    if s.len() == 0 {
        Seq::empty()
    } else {
        let before = tokens(s.drop_last());
        let c = s.last();
        if is_space(c) {
            before
        } else if is_mark(c) {
            before.push(seq![c])
        } else if s.len() >= 2 && is_word_char(s[s.len() - 2]) {
            before.update(before.len() - 1, before.last().push(c))
        } else {
            before.push(seq![c])
        }
    }
}

/// The decimal digits `0` to `9`.
pub open spec fn is_digit(c: char) -> bool {
    '0' as u32 <= c as u32 <= '9' as u32
}

/// The number that a decimal digit denotes.
pub open spec fn digit_value(c: char) -> nat {
    (c as u32 - '0' as u32) as nat
}

/// The number that a run of decimal digits denotes.
pub open spec fn decimal(s: Seq<char>) -> nat
    decreases s.len(),
{
    if s.len() == 0 {
        0
    } else {
        10 * decimal(s.drop_last()) + digit_value(s.last())
    }
}

/// A word without its optional leading `+`.
pub open spec fn unsigned(t: Seq<char>) -> Seq<char> {
    if t.len() > 0 && t[0] == '+' {
        t.drop_first()
    } else {
        t
    }
}

/// The number that a word denotes: an optional `+`, then one or more decimal
/// digits whose value fits a machine word.
pub open spec fn number(t: Seq<char>) -> Option<nat> {
    let d = unsigned(t);
    if d.len() > 0 && (forall|i: int| 0 <= i < d.len() ==> is_digit(#[trigger] d[i])) && decimal(d)
        <= usize::MAX {
        Some(decimal(d))
    } else {
        None
    }
}

/// Whether the tokens are those of a record: `[ n , n ] [ n , n ]`, each `n`
/// a number.
pub open spec fn is_record(t: Seq<Seq<char>>) -> bool {
    &&& t.len() == 10
    &&& t[0] == seq!['[']
    &&& number(t[1]) is Some
    &&& t[2] == seq![',']
    &&& number(t[3]) is Some
    &&& t[4] == seq![']']
    &&& t[5] == seq!['[']
    &&& number(t[6]) is Some
    &&& t[7] == seq![',']
    &&& number(t[8]) is Some
    &&& t[9] == seq![']']
}

/// The two points that a line names, if the line is a record.
pub open spec fn record(line: Seq<char>) -> Option<((nat, nat), (nat, nat))> {
    let t = tokens(line);
    if is_record(t) {
        Some(((number(t[1])->0, number(t[3])->0), (number(t[6])->0, number(t[8])->0)))
    } else {
        None
    }
}

/// How often `x` stands among the first `k` entries of `s`.
pub open spec fn occurrences<A>(s: Seq<A>, x: A, k: nat) -> nat
    decreases k,
{
    if k == 0 {
        0
    } else {
        occurrences(s, x, (k - 1) as nat) + if s[k - 1] == x {
            1nat
        } else {
            0nat
        }
    }
}

proof fn lemma_occurrences_of_prefix<A>(s: Seq<A>, t: Seq<A>, x: A, k: nat)
    requires
        k <= s.len(),
        k <= t.len(),
        forall|i: int| 0 <= i < k ==> s[i] == t[i],
    ensures
        occurrences(s, x, k) == occurrences(t, x, k),
    decreases k,
{
    if k > 0 {
        lemma_occurrences_of_prefix(s, t, x, (k - 1) as nat);
    }
}

/// The last token of a text that ends in a word character ends in it too.
proof fn lemma_last_token(s: Seq<char>)
    requires
        s.len() > 0,
        is_word_char(s.last()),
    ensures
        tokens(s).len() > 0,
        tokens(s).last().len() > 0,
        tokens(s).last().last() == s.last(),
    decreases s.len(),
{
    if s.len() >= 2 && is_word_char(s[s.len() - 2]) {
        assert(s.drop_last().last() == s[s.len() - 2]);
        lemma_last_token(s.drop_last());
    }
}

/// A text has one token for each mark that stands in it.
proof fn lemma_marks_are_tokens(s: Seq<char>, m: char)
    requires
        is_mark(m),
    ensures
        occurrences(tokens(s), seq![m], tokens(s).len()) == occurrences(s, m, s.len()),
    decreases s.len(),
{
    if s.len() > 0 {
        let shorter = s.drop_last();
        let before = tokens(shorter);
        let after = tokens(s);
        let c = s.last();
        lemma_marks_are_tokens(shorter, m);
        lemma_occurrences_of_prefix(s, shorter, m, shorter.len());
        assert(seq![c][0] == c);
        assert(seq![m][0] == m);
        if is_space(c) {
            assert(after == before);
        } else if is_mark(c) || !(s.len() >= 2 && is_word_char(s[s.len() - 2])) {
            lemma_occurrences_of_prefix(after, before, seq![m], before.len());
        } else {
            assert(shorter.last() == s[s.len() - 2]);
            lemma_last_token(shorter);
            let last = (before.len() - 1) as nat;
            lemma_occurrences_of_prefix(after, before, seq![m], last);
            assert(after[last as int].len() == before[last as int].len() + 1);
        }
    }
}

proof fn lemma_number_is_no_mark(w: Seq<char>, m: char)
    requires
        number(w) is Some,
        is_mark(m),
    ensures
        w != seq![m],
{
    assert(seq![m][0] == m);
    if w == seq![m] {
        assert(is_digit(unsigned(w)[0]));
    }
}

/// A record holds two opening brackets, two closing brackets and two commas:
/// a line that lacks one of them, or has one more, holds no record.
pub proof fn lemma_record_marks(line: Seq<char>)
    requires
        record(line) is Some,
    ensures
        occurrences(line, '[', line.len()) == 2,
        occurrences(line, ']', line.len()) == 2,
        occurrences(line, ',', line.len()) == 2,
{
    let t = tokens(line);
    lemma_marks_are_tokens(line, '[');
    lemma_marks_are_tokens(line, ']');
    lemma_marks_are_tokens(line, ',');
    lemma_number_is_no_mark(t[1], '[');
    lemma_number_is_no_mark(t[3], '[');
    lemma_number_is_no_mark(t[6], '[');
    lemma_number_is_no_mark(t[8], '[');
    lemma_number_is_no_mark(t[1], ']');
    lemma_number_is_no_mark(t[3], ']');
    lemma_number_is_no_mark(t[6], ']');
    lemma_number_is_no_mark(t[8], ']');
    lemma_number_is_no_mark(t[1], ',');
    lemma_number_is_no_mark(t[3], ',');
    lemma_number_is_no_mark(t[6], ',');
    lemma_number_is_no_mark(t[8], ',');
    assert(seq!['['][0] == '[');
    assert(seq![']'][0] == ']');
    assert(seq![','][0] == ',');
    reveal_with_fuel(occurrences, 11);
}

spec fn token_views(ts: Seq<Vec<char>>) -> Seq<Seq<char>> {
    ts.map_values(|t: Vec<char>| t@)
}

proof fn lemma_decimal_prefix(s: Seq<char>, k: int)
    requires
        0 <= k <= s.len(),
    ensures
        decimal(s.take(k)) <= decimal(s),
    decreases s.len(),
{
    if k == s.len() {
        assert(s.take(k) == s);
    } else {
        lemma_decimal_prefix(s.drop_last(), k);
        assert(s.drop_last().take(k) == s.take(k));
    }
}

fn is_space_char(c: char) -> (b: bool)
    ensures
        b == is_space(c),
{
    let n: u32 = c as u32;
    (0x09 <= n && n <= 0x0D) || n == 0x20 || n == 0x85 || n == 0xA0 || n == 0x1680 || (0x2000 <= n
        && n <= 0x200A) || n == 0x2028 || n == 0x2029 || n == 0x202F || n == 0x205F || n == 0x3000
}

/// Splits a line into its tokens.
fn split_tokens(line: &str) -> (out: Vec<Vec<char>>)
    ensures
        token_views(out@) == tokens(line@),
{
    let mut done: Vec<Vec<char>> = Vec::new();
    let mut word: Vec<char> = Vec::new();
    let mut in_word = false;
    for c in it: line.chars()
        invariant
            it.seq() == line@,
            in_word <==> it.index() > 0 && is_word_char(line@[it.index() - 1]),
            !in_word ==> word@.len() == 0,
            tokens(line@.take(it.index() as int)) == if in_word {
                token_views(done@).push(word@)
            } else {
                token_views(done@)
            },
    {
        proof {
            let i = it.index() as int;
            assert(line@.take(i + 1).drop_last() == line@.take(i));
            assert(token_views(done@.push(word)) == token_views(done@).push(word@));
        }
        if is_space_char(c) || c == '[' || c == ']' || c == ',' {
            if in_word {
                done.push(word);
                word = Vec::new();
                in_word = false;
            }
            if !is_space_char(c) {
                let mut mark: Vec<char> = Vec::new();
                mark.push(c);
                proof {
                    assert(mark@ == seq![c]);
                    assert(token_views(done@.push(mark)) == token_views(done@).push(mark@));
                }
                done.push(mark);
            }
        } else {
            proof {
                if !in_word {
                    assert(word@.push(c) == seq![c]);
                }
            }
            word.push(c);
            in_word = true;
        }
    }
    proof {
        assert(line@.take(line@.len() as int) == line@);
        assert(token_views(done@.push(word)) == token_views(done@).push(word@));
    }
    if in_word {
        done.push(word);
    }
    done
}

/// Whether a token is the mark `c`.
fn is_mark_token(t: &Vec<char>, c: char) -> (b: bool)
    ensures
        b == (t@ == seq![c]),
{
    if t.len() == 1 {
        proof {
            if t@[0] == c {
                assert(t@ == seq![c]);
            } else {
                assert(seq![c][0] == c);
            }
        }
        t[0] == c
    } else {
        assert(seq![c].len() == 1);
        false
    }
}

/// Reads one word as a number.
fn parse_number(t: &Vec<char>) -> (r: Option<usize>)
    ensures
        match r {
            Some(n) => number(t@) == Some(n as nat),
            None => number(t@) is None,
        },
{
    let start: usize = if t.len() > 0 && t[0] == '+' {
        1
    } else {
        0
    };
    let ghost d = unsigned(t@);
    if start == t.len() {
        return None;
    }
    let mut i: usize = start;
    let mut value: usize = 0;
    while i < t.len()
        invariant
            start <= i <= t.len(),
            d == unsigned(t@),
            d == t@.subrange(start as int, t@.len() as int),
            forall|j: int| 0 <= j < i - start ==> is_digit(#[trigger] d[j]),
            value == decimal(d.take(i - start)),
        decreases t.len() - i,
    {
        let c = t[i];
        let n: u32 = c as u32;
        if n < 0x30 || n > 0x39 {
            assert(!is_digit(d[i - start]));
            return None;
        }
        let digit: usize = (n - 0x30) as usize;
        proof {
            let k = i - start;
            assert(d.take(k + 1).drop_last() == d.take(k));
            lemma_decimal_prefix(d, k + 1);
        }
        let tenfold = match value.checked_mul(10) {
            Some(v) => v,
            None => {
                return None;
            },
        };
        value = match tenfold.checked_add(digit) {
            Some(v) => v,
            None => {
                return None;
            },
        };
        i += 1;
    }
    assert(d.take(i - start) == d);
    Some(value)
}

/// Reads the two points that a line names.
///
/// Returns `None` for a line that is no record: one that lacks a bracket, a
/// comma or a number, holds anything besides them, or holds a number that
/// does not fit a machine word.
pub fn parse_record(line: &str) -> (r: Option<(Point, Point)>)
    ensures
        match r {
            Some((p, q)) => record(line@) == Some((p@, q@)),
            None => record(line@) is None,
        },
{
    let ts = split_tokens(line);
    if ts.len() != 10 {
        return None;
    }
    assert(forall|i: int| 0 <= i < 10 ==> tokens(line@)[i] == #[trigger] ts@[i]@);
    if !(is_mark_token(&ts[0], '[') && is_mark_token(&ts[2], ',') && is_mark_token(&ts[4], ']')
        && is_mark_token(&ts[5], '[') && is_mark_token(&ts[7], ',') && is_mark_token(&ts[9], ']')) {
        return None;
    }
    let x1 = parse_number(&ts[1]);
    let y1 = parse_number(&ts[3]);
    let x2 = parse_number(&ts[6]);
    let y2 = parse_number(&ts[8]);
    match (x1, y1, x2, y2) {
        (Some(a), Some(b), Some(c), Some(d)) => Some((Point::new(a, b), Point::new(c, d))),
        _ => None,
    }
}

} // verus!
