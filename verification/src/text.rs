//! Program text as characters: white space, lines, words and numerals.

use vstd::prelude::*;
use vstd::string::StringExecFns;

verus! {

/// Whether `c` is white space: one of the characters to which Unicode gives
/// the property White_Space.
pub open spec fn is_space(c: char) -> bool {
    let n = c as u32;
    ||| 0x09 <= n <= 0x0D
    ||| n == 0x20
    ||| n == 0x85
    ||| n == 0xA0
    ||| n == 0x1680
    ||| 0x2000 <= n <= 0x200A
    ||| n == 0x2028
    ||| n == 0x2029
    ||| n == 0x202F
    ||| n == 0x205F
    ||| n == 0x3000
}

/// Tells whether `c` is white space.
pub fn is_whitespace(c: char) -> (b: bool)
    ensures
        b == is_space(c),
{
    let n: u32 = c as u32;
    (0x09 <= n && n <= 0x0D) || n == 0x20 || n == 0x85 || n == 0xA0 || n == 0x1680 || (0x2000 <= n
        && n <= 0x200A) || n == 0x2028 || n == 0x2029 || n == 0x202F || n == 0x205F || n == 0x3000
}

/// The views of the strings that `strings` holds, in order.
pub open spec fn texts(strings: Seq<Vec<char>>) -> Seq<Seq<char>> {
    Seq::new(strings.len(), |i: int| strings[i]@)
}

/// The characters of `text`, in order.
pub fn characters(text: &str) -> (chars: Vec<char>)
    ensures
        chars@ == text@,
{
    let mut chars: Vec<char> = Vec::new();
    for c in it: text.chars()
        invariant
            chars@ == it.seq().take(it.index()),
    {
        chars.push(c);
    }
    chars
}

/// Tells whether `a` and `b` hold the same characters.
pub fn same_text(a: &[char], b: &[char]) -> (same: bool)
    ensures
        same == (a@ == b@),
{
    if a.len() != b.len() {
        return false;
    }
    let mut at: usize = 0;
    while at < a.len()
        invariant
            at <= a.len(),
            a.len() == b.len(),
            forall|k: int| 0 <= k < at ==> a@[k] == b@[k],
        decreases a.len() - at,
    {
        if a[at] != b[at] {
            return false;
        }
        at += 1;
    }
    assert(a@ =~= b@);
    true
}

/// Tells whether `token` holds the characters of `word`.
pub fn spells(token: &[char], word: &str) -> (same: bool)
    ensures
        same == (token@ == word@),
{
    let letters = characters(word);
    same_text(token, letters.as_slice())
}

/// `s` without the white space at its start.
pub open spec fn trim_start(s: Seq<char>) -> Seq<char>
    decreases s.len(),
{
    if s.len() > 0 && is_space(s.first()) {
        trim_start(s.drop_first())
    } else {
        s
    }
}

/// `s` without the white space at its end.
pub open spec fn trim_end(s: Seq<char>) -> Seq<char>
    decreases s.len(),
{
    if s.len() > 0 && is_space(s.last()) {
        trim_end(s.drop_last())
    } else {
        s
    }
}

/// `s` without the white space at its start and at its end.
pub open spec fn trim(s: Seq<char>) -> Seq<char> {
    trim_end(trim_start(s))
}

/// Whether `s` neither starts nor ends with white space.
pub open spec fn is_trimmed(s: Seq<char>) -> bool {
    s.len() > 0 ==> !is_space(s.first()) && !is_space(s.last())
}

/// Removing the leading white space leaves what follows the first `a`
/// characters, when those are white space and the next one is not.
pub proof fn lemma_trim_start(s: Seq<char>, a: int)
    requires
        0 <= a <= s.len(),
        forall|k: int| 0 <= k < a ==> is_space(s[k]),
        a < s.len() ==> !is_space(s[a]),
    ensures
        trim_start(s) == s.skip(a),
    decreases a,
{
    if a == 0 {
        assert(s.skip(0) =~= s);
    } else {
        let t = s.drop_first();
        assert forall|k: int| 0 <= k < a - 1 implies is_space(t[k]) by {
            assert(t[k] == s[k + 1]);
        }
        lemma_trim_start(t, a - 1);
        assert(t.skip(a - 1) =~= s.skip(a));
    }
}

/// Removing the trailing white space leaves the first `b` characters, when
/// all after them are white space and the last of them is not.
pub proof fn lemma_trim_end(s: Seq<char>, b: int)
    requires
        0 <= b <= s.len(),
        forall|k: int| b <= k < s.len() ==> is_space(s[k]),
        0 < b ==> !is_space(s[b - 1]),
    ensures
        trim_end(s) == s.take(b),
    decreases s.len() - b,
{
    if b == s.len() {
        assert(s.take(b) =~= s);
    } else {
        let t = s.drop_last();
        lemma_trim_end(t, b);
        assert(t.take(b) =~= s.take(b));
    }
}

/// What trimming leaves is trimmed, and is a part of what was there.
pub proof fn lemma_trim_is_trimmed(s: Seq<char>)
    ensures
        is_trimmed(trim(s)),
        trim(s).len() <= s.len(),
{
    lemma_trim_start_shape(s);
    lemma_trim_end_shape(trim_start(s));
}

proof fn lemma_trim_start_shape(s: Seq<char>)
    ensures
        trim_start(s).len() <= s.len(),
        trim_start(s).len() > 0 ==> !is_space(trim_start(s).first()),
    decreases s.len(),
{
    if s.len() > 0 && is_space(s.first()) {
        lemma_trim_start_shape(s.drop_first());
    }
}

proof fn lemma_trim_end_shape(s: Seq<char>)
    ensures
        trim_end(s).len() <= s.len(),
        trim_end(s).len() > 0 ==> !is_space(trim_end(s).last()) && trim_end(s).first()
            == s.first(),
    decreases s.len(),
{
    if s.len() > 0 && is_space(s.last()) {
        lemma_trim_end_shape(s.drop_last());
    }
}

/// The bounds of what trimming leaves of `text[from..to]`: the part is
/// `text[start..end]`, and starts at `to` if nothing is left.
pub fn trim_bounds(text: &[char], from: usize, to: usize) -> (bounds: (usize, usize))
    requires
        from <= to <= text.len(),
    ensures
        from <= bounds.0 <= bounds.1 <= to,
        text@.subrange(bounds.0 as int, bounds.1 as int) == trim(
            text@.subrange(from as int, to as int),
        ),
        forall|k: int| from <= k < bounds.0 || bounds.1 <= k < to ==> is_space(text@[k]),
        bounds.0 < bounds.1 ==> !is_space(text@[bounds.0 as int]) && !is_space(
            text@[bounds.1 - 1],
        ),
        bounds.0 == bounds.1 ==> bounds.0 == to,
{
    let ghost part = text@.subrange(from as int, to as int);
    let mut start: usize = from;
    while start < to && is_whitespace(text[start])
        invariant
            from <= start <= to <= text.len(),
            forall|k: int| from <= k < start ==> is_space(text@[k]),
        decreases to - start,
    {
        start += 1;
    }
    let mut end: usize = to;
    while start < end && is_whitespace(text[end - 1])
        invariant
            start <= end <= to <= text.len(),
            forall|k: int| end <= k < to ==> is_space(text@[k]),
        decreases end - start,
    {
        end -= 1;
    }
    proof {
        lemma_trim_start(part, start - from);
        let rest = part.skip(start - from);
        assert(rest =~= text@.subrange(start as int, to as int));
        lemma_trim_end(rest, end - start);
        assert(rest.take(end - start) =~= text@.subrange(start as int, end as int));
    }
    (start, end)
}

/// The number of characters of `s` before its first line feed, or the length
/// of `s` if it has none.
pub open spec fn line_len(s: Seq<char>) -> nat
    decreases s.len(),
{
    if s.len() == 0 || s.first() == '\n' {
        0
    } else {
        1 + line_len(s.drop_first())
    }
}

/// The statements of a text: its lines, each without the white space at its
/// two ends, except those of which nothing is left. Lines end at a line feed;
/// a carriage return before it is white space at the end of the line.
pub open spec fn statements(s: Seq<char>) -> Seq<Seq<char>>
    decreases s.len(),
{
    if s.len() == 0 {
        Seq::empty()
    } else {
        let n = line_len(s) as int;
        let line = trim(s.take(n));
        let rest = if n < s.len() {
            statements(s.skip(n + 1))
        } else {
            Seq::empty()
        };
        if line.len() == 0 {
            rest
        } else {
            seq![line] + rest
        }
    }
}

/// The first line of `s` has `n` characters when none of the first `n` is a
/// line feed and the text ends there or a line feed follows.
pub proof fn lemma_line_len(s: Seq<char>, n: int)
    requires
        0 <= n <= s.len(),
        forall|k: int| 0 <= k < n ==> s[k] != '\n',
        n < s.len() ==> s[n] == '\n',
    ensures
        line_len(s) == n,
    decreases n,
{
    if n > 0 {
        let t = s.drop_first();
        assert forall|k: int| 0 <= k < n - 1 implies t[k] != '\n' by {
            assert(t[k] == s[k + 1]);
        }
        lemma_line_len(t, n - 1);
    }
}

/// Every statement is trimmed and has at least one character.
pub proof fn lemma_statements_trimmed(s: Seq<char>)
    ensures
        forall|i: int|
            0 <= i < statements(s).len() ==> (#[trigger] statements(s)[i]).len() > 0 && is_trimmed(
                statements(s)[i],
            ),
    decreases s.len(),
{
    if s.len() > 0 {
        let n = line_len(s) as int;
        let line = trim(s.take(n));
        let rest = if n < s.len() {
            statements(s.skip(n + 1))
        } else {
            Seq::empty()
        };
        lemma_trim_is_trimmed(s.take(n));
        if n < s.len() {
            lemma_statements_trimmed(s.skip(n + 1));
        }
        assert forall|i: int| 0 <= i < statements(s).len() implies (#[trigger] statements(
            s,
        )[i]).len() > 0 && is_trimmed(statements(s)[i]) by {
            if line.len() > 0 && i > 0 {
                assert(statements(s)[i] == rest[i - 1]);
            }
        }
    }
}

/// Splits `text` into its statements.
pub fn split_statements(text: &[char]) -> (lines: Vec<Vec<char>>)
    ensures
        texts(lines@) == statements(text@),
{
    let mut lines: Vec<Vec<char>> = Vec::new();
    let mut from: usize = 0;
    assert(text@.skip(0) =~= text@);
    assert(texts(lines@) + statements(text@.skip(0)) =~= statements(text@));
    while from < text.len()
        invariant
            from <= text.len(),
            texts(lines@) + statements(text@.skip(from as int)) == statements(text@),
        decreases text.len() - from,
    {
        let ghost tail = text@.skip(from as int);
        let ghost before = texts(lines@);
        let mut to: usize = from;
        while to < text.len() && text[to] != '\n'
            invariant
                from <= to <= text.len(),
                forall|k: int| from <= k < to ==> text@[k] != '\n',
            decreases text.len() - to,
        {
            to += 1;
        }
        let (start, end) = trim_bounds(text, from, to);
        proof {
            lemma_line_len(tail, to - from);
            assert(tail.take(to - from) =~= text@.subrange(from as int, to as int));
            if to < text.len() {
                assert(tail.skip(to - from + 1) =~= text@.skip(to + 1));
            }
        }
        if start < end {
            let line = vstd::slice::slice_to_vec(vstd::slice::slice_subrange(text, start, end));
            lines.push(line);
            assert(texts(lines@) =~= before.push(line@));
        }
        if to < text.len() {
            from = to + 1;
        } else {
            from = to;
        }
        proof {
            let rest = statements(text@.skip(from as int));
            if from == text.len() {
                assert(text@.skip(from as int).len() == 0);
            }
            if start < end {
                assert(before.push(text@.subrange(start as int, end as int)) + rest =~= before + (
                seq![text@.subrange(start as int, end as int)] + rest));
            }
        }
    }
    assert(text@.skip(from as int).len() == 0);
    assert(texts(lines@) + Seq::<Seq<char>>::empty() =~= texts(lines@));
    lines
}

/// The number of characters of `s` before its first white space, or the
/// length of `s` if it has none.
pub open spec fn word_len(s: Seq<char>) -> nat
    decreases s.len(),
{
    if s.len() == 0 || is_space(s.first()) {
        0
    } else {
        1 + word_len(s.drop_first())
    }
}

/// The words of `s`: its longest runs of characters that are not white space,
/// in order.
pub open spec fn words(s: Seq<char>) -> Seq<Seq<char>>
    decreases s.len(),
{
    if s.len() == 0 {
        Seq::empty()
    } else if is_space(s.first()) {
        words(s.drop_first())
    } else {
        let n = word_len(s) as int;
        proof {
            lemma_word_len_bound(s);
        }
        seq![s.take(n)] + words(s.skip(n))
    }
}

/// A word's length is at most that of the text it starts.
pub proof fn lemma_word_len_bound(s: Seq<char>)
    ensures
        word_len(s) <= s.len(),
    decreases s.len(),
{
    if s.len() > 0 && !is_space(s.first()) {
        lemma_word_len_bound(s.drop_first());
    }
}

/// The first word of `s` has `n` characters when none of the first `n` is
/// white space and the text ends there or white space follows.
pub proof fn lemma_word_len(s: Seq<char>, n: int)
    requires
        0 <= n <= s.len(),
        forall|k: int| 0 <= k < n ==> !is_space(s[k]),
        n < s.len() ==> is_space(s[n]),
    ensures
        word_len(s) == n,
    decreases n,
{
    if n > 0 {
        let t = s.drop_first();
        assert forall|k: int| 0 <= k < n - 1 implies !is_space(t[k]) by {
            assert(t[k] == s[k + 1]);
        }
        lemma_word_len(t, n - 1);
    }
}

/// Whether `s` holds no white space.
pub open spec fn is_solid(s: Seq<char>) -> bool {
    forall|i: int| 0 <= i < s.len() ==> !is_space(s[i])
}

/// The first `word_len` characters hold no white space.
pub proof fn lemma_word_is_solid(s: Seq<char>)
    ensures
        is_solid(s.take(word_len(s) as int)),
    decreases s.len(),
{
    lemma_word_len_bound(s);
    if s.len() > 0 && !is_space(s.first()) {
        let t = s.drop_first();
        lemma_word_is_solid(t);
        lemma_word_len_bound(t);
        let n = word_len(s) as int;
        assert forall|i: int| 0 <= i < n implies !is_space(s.take(n)[i]) by {
            if i > 0 {
                assert(s.take(n)[i] == t.take(n - 1)[i - 1]);
            }
        }
    }
}

/// Every word has a character and holds no white space.
pub proof fn lemma_words_are_solid(s: Seq<char>)
    ensures
        forall|i: int|
            0 <= i < words(s).len() ==> (#[trigger] words(s)[i]).len() > 0 && is_solid(
                words(s)[i],
            ),
    decreases s.len(),
{
    if s.len() == 0 {
    } else if is_space(s.first()) {
        lemma_words_are_solid(s.drop_first());
        assert(words(s) == words(s.drop_first()));
    } else {
        let n = word_len(s) as int;
        lemma_word_len_bound(s);
        lemma_word_is_solid(s);
        assert(n > 0);
        lemma_words_are_solid(s.skip(n));
        let rest = words(s.skip(n));
        assert(words(s) == seq![s.take(n)] + rest);
        assert forall|i: int| 0 <= i < words(s).len() implies (#[trigger] words(s)[i]).len() > 0
            && is_solid(words(s)[i]) by {
            if i > 0 {
                assert(words(s)[i] == rest[i - 1]);
            } else {
                assert(words(s)[0] == s.take(n));
            }
        }
    }
}

/// A text that does not end in white space has a last word, and ends as that
/// word ends.
pub proof fn lemma_last_word(s: Seq<char>)
    requires
        s.len() > 0,
        !is_space(s.last()),
    ensures
        words(s).len() > 0,
        words(s).last().len() > 0,
        words(s).last().last() == s.last(),
    decreases s.len(),
{
    if is_space(s.first()) {
        let t = s.drop_first();
        assert(t.len() > 0 && t.last() == s.last());
        lemma_last_word(t);
    } else {
        let n = word_len(s) as int;
        lemma_word_len_bound(s);
        let rest = words(s.skip(n));
        assert(words(s) == seq![s.take(n)] + rest);
        if n < s.len() {
            assert(s.skip(n).last() == s.last());
            lemma_last_word(s.skip(n));
            assert(words(s).last() == rest.last());
        } else {
            assert(s.take(n) =~= s);
            assert(s.skip(n).len() == 0);
            assert(words(s) =~= seq![s]);
        }
    }
}

/// A text without white space is one word.
pub proof fn lemma_solid_is_one_word(s: Seq<char>)
    requires
        s.len() > 0,
        is_solid(s),
    ensures
        words(s) == seq![s],
{
    let n = s.len() as int;
    lemma_word_len(s, n);
    assert(!is_space(s.first()));
    assert(s.take(n) =~= s);
    assert(s.skip(n).len() == 0);
    assert(words(s) == seq![s.take(n)] + words(s.skip(n)));
    assert(seq![s] + Seq::<Seq<char>>::empty() =~= seq![s]);
}

/// A trimmed text of one word is that word.
pub proof fn lemma_one_word_is_all(s: Seq<char>)
    requires
        is_trimmed(s),
        words(s).len() == 1,
    ensures
        words(s)[0] == s,
{
    let n = word_len(s) as int;
    lemma_word_len_bound(s);
    assert(s.len() > 0);
    assert(words(s) == seq![s.take(n)] + words(s.skip(n)));
    if n < s.len() {
        assert(s.skip(n).last() == s.last());
        lemma_last_word(s.skip(n));
    } else {
        assert(s.take(n) =~= s);
    }
}

/// Splits `line` into its words.
pub fn split_words(line: &[char]) -> (tokens: Vec<Vec<char>>)
    ensures
        texts(tokens@) == words(line@),
{
    let mut tokens: Vec<Vec<char>> = Vec::new();
    let mut from: usize = 0;
    assert(line@.skip(0) =~= line@);
    assert(texts(tokens@) + words(line@.skip(0)) =~= words(line@));
    while from < line.len()
        invariant
            from <= line.len(),
            texts(tokens@) + words(line@.skip(from as int)) == words(line@),
        decreases line.len() - from,
    {
        let ghost tail = line@.skip(from as int);
        let ghost before = texts(tokens@);
        if is_whitespace(line[from]) {
            assert(tail.drop_first() =~= line@.skip(from + 1));
            from += 1;
        } else {
            let mut to: usize = from + 1;
            while to < line.len() && !is_whitespace(line[to])
                invariant
                    from < to <= line.len(),
                    forall|k: int| from <= k < to ==> !is_space(line@[k]),
                decreases line.len() - to,
            {
                to += 1;
            }
            let word = vstd::slice::slice_to_vec(vstd::slice::slice_subrange(line, from, to));
            tokens.push(word);
            proof {
                lemma_word_len(tail, to - from);
                assert(tail.take(to - from) =~= line@.subrange(from as int, to as int));
                assert(tail.skip(to - from) =~= line@.skip(to as int));
                let rest = words(line@.skip(to as int));
                assert(texts(tokens@) =~= before.push(word@));
                assert(before.push(word@) + rest =~= before + (seq![word@] + rest));
            }
            from = to;
        }
    }
    assert(line@.skip(from as int).len() == 0);
    assert(texts(tokens@) + Seq::<Seq<char>>::empty() =~= texts(tokens@));
    tokens
}

/// Whether `c` is one of the ten decimal digits.
pub open spec fn is_digit(c: char) -> bool {
    0x30 <= c as u32 <= 0x39
}

/// The value of the digit `c`.
pub open spec fn digit_value(c: char) -> nat {
    if is_digit(c) {
        (c as u32 - 0x30) as nat
    } else {
        0
    }
}

/// The digit whose value is `d`.
pub open spec fn digit_char(d: nat) -> char
    recommends
        d < 10,
{
    ((0x30 + d) as u8) as char
}

/// The number that the digits `s` write in base ten.
pub open spec fn decimal_value(s: Seq<char>) -> nat
    decreases s.len(),
{
    if s.len() == 0 {
        0
    } else {
        decimal_value(s.drop_last()) * 10 + digit_value(s.last())
    }
}

/// Whether `s` is one decimal digit or more, and nothing else.
pub open spec fn is_numeral(s: Seq<char>) -> bool {
    s.len() > 0 && forall|i: int| 0 <= i < s.len() ==> is_digit(s[i])
}

/// `s` without the plus sign that may stand at its start.
pub open spec fn unsigned_part(s: Seq<char>) -> Seq<char> {
    if s.len() > 0 && s.first() == '+' {
        s.drop_first()
    } else {
        s
    }
}

/// The number that `s` denotes, if it denotes one: `s` is then a numeral,
/// with or without a plus sign before it.
pub open spec fn number_of(s: Seq<char>) -> Option<nat> {
    let digits = unsigned_part(s);
    if is_numeral(digits) {
        Some(decimal_value(digits))
    } else {
        None
    }
}

/// The lesser of `n` and `ceiling`.
pub open spec fn capped(n: nat, ceiling: nat) -> nat {
    if n > ceiling {
        ceiling
    } else {
        n
    }
}

/// The numeral that writes `n` in base ten, without leading zeros.
pub open spec fn decimal_text(n: nat) -> Seq<char>
    decreases n,
{
    if n < 10 {
        seq![digit_char(n)]
    } else {
        decimal_text(n / 10).push(digit_char(n % 10))
    }
}

/// Reads `s` as a number: gives `None` if `s` denotes none, and `ceiling`
/// in place of a number that is greater.
pub fn parse_number(s: &[char], ceiling: u64) -> (number: Option<u64>)
    ensures
        match number {
            Some(n) => number_of(s@) is Some && n == capped(number_of(s@)->Some_0, ceiling as nat),
            None => number_of(s@) is None,
        },
{
    let start: usize = if s.len() > 0 && s[0] == '+' {
        1
    } else {
        0
    };
    let ghost digits = unsigned_part(s@);
    assert(digits =~= s@.skip(start as int));
    if start == s.len() {
        return None;
    }
    let mut value: u64 = 0;
    let mut at: usize = start;
    assert(digits.take(0) =~= Seq::<char>::empty());
    while at < s.len()
        invariant
            start <= at <= s.len(),
            start < s.len(),
            digits == unsigned_part(s@),
            digits == s@.skip(start as int),
            forall|k: int| 0 <= k < at - start ==> is_digit(digits[k]),
            value == capped(decimal_value(digits.take(at - start)), ceiling as nat),
        decreases s.len() - at,
    {
        let c: u32 = s[at] as u32;
        if c < 0x30 || c > 0x39 {
            assert(!is_digit(digits[at - start]));
            return None;
        }
        let longer: u128 = value as u128 * 10 + (c - 0x30) as u128;
        proof {
            let more = digits.take(at - start + 1);
            assert(more.drop_last() =~= digits.take(at - start));
            assert(more.last() == s@[at as int]);
        }
        value = if longer > ceiling as u128 {
            ceiling
        } else {
            longer as u64
        };
        at += 1;
    }
    assert(digits.take(at - start) =~= digits);
    Some(value)
}

/// The text of a single digit.
fn digit_text(d: u8) -> (text: &'static str)
    requires
        d < 10,
    ensures
        text@ == seq![digit_char(d as nat)],
{
    proof {
        reveal_strlit("0");
        reveal_strlit("1");
        reveal_strlit("2");
        reveal_strlit("3");
        reveal_strlit("4");
        reveal_strlit("5");
        reveal_strlit("6");
        reveal_strlit("7");
        reveal_strlit("8");
        reveal_strlit("9");
    }
    let text = match d {
        0 => "0",
        1 => "1",
        2 => "2",
        3 => "3",
        4 => "4",
        5 => "5",
        6 => "6",
        7 => "7",
        8 => "8",
        _ => "9",
    };
    assert(text@ =~= seq![digit_char(d as nat)]);
    text
}

/// Writes `n` in base ten.
pub fn decimal_string(n: usize) -> (text: String)
    ensures
        text@ == decimal_text(n as nat),
    decreases n,
{
    if n < 10 {
        String::from_str(digit_text(n as u8))
    } else {
        let text = decimal_string(n / 10).concat(digit_text((n % 10) as u8));
        assert(text@ =~= decimal_text(n as nat / 10).push(digit_char(n as nat % 10)));
        text
    }
}

} // verus!
