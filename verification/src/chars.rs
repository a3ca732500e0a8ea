//! Characters and words: which characters separate words, which are trimmed
//! from a word's ends, how a line falls into words, and how numbers are
//! written and read in decimal.

use vstd::prelude::*;

verus! {

/// The characters that Unicode counts as white space.
pub open spec fn is_whitespace(c: char) -> bool {
    let u = c as u32;
    (0x09 <= u <= 0x0D) || u == 0x20 || u == 0x85 || u == 0xA0 || u == 0x1680 || (0x2000 <= u
        <= 0x200A) || u == 0x2028 || u == 0x2029 || u == 0x202F || u == 0x205F || u == 0x3000
}

/// The ASCII punctuation characters: `!` to `/`, `:` to `@`, `[` to `` ` `` and
/// `{` to `~`.
pub open spec fn is_ascii_punctuation(c: char) -> bool {
    let u = c as u32;
    (0x21 <= u <= 0x2F) || (0x3A <= u <= 0x40) || (0x5B <= u <= 0x60) || (0x7B <= u <= 0x7E)
}

/// The characters that are trimmed from the ends of a word.
pub open spec fn strippable(c: char) -> bool {
    is_ascii_punctuation(c) || is_whitespace(c)
}

/// How many characters at the start of `s` are trimmed.
pub open spec fn leading(s: Seq<char>) -> nat
    decreases s.len(),
{
    if s.len() > 0 && strippable(s[0]) {
        1 + leading(s.drop_first())
    } else {
        0
    }
}

/// How many characters at the end of `s` are trimmed.
pub open spec fn trailing(s: Seq<char>) -> nat
    decreases s.len(),
{
    if s.len() > 0 && strippable(s.last()) {
        1 + trailing(s.drop_last())
    } else {
        0
    }
}

/// `s` without the punctuation and whitespace at its two ends.
pub open spec fn trimmed(s: Seq<char>) -> Seq<char> {
    if leading(s) >= s.len() {
        Seq::empty()
    } else {
        s.subrange(leading(s) as int, s.len() - trailing(s))
    }
}

/// How many characters at the end of `s` are no whitespace: the length of the
/// word that `s` ends with.
pub open spec fn last_word_len(s: Seq<char>) -> nat
    decreases s.len(),
{
    if s.len() > 0 && !is_whitespace(s.last()) {
        1 + last_word_len(s.drop_last())
    } else {
        0
    }
}

/// The words of a line: its longest runs of characters that are no
/// whitespace, in the order in which they stand.
pub open spec fn words(s: Seq<char>) -> Seq<Seq<char>>
    decreases s.len(),
{
    if s.len() == 0 {
        Seq::empty()
    } else if is_whitespace(s.last()) {
        words(s.drop_last())
    } else {
        let n = last_word_len(s);
        if 1 <= n <= s.len() {
            words(s.take(s.len() - n)).push(s.skip(s.len() - n))
        } else {
            Seq::empty()
        }
    }
}

/// The length of the word that a line ends with, from what is seen of its
/// characters.
pub proof fn lemma_last_word_len(s: Seq<char>, start: int)
    requires
        0 <= start <= s.len(),
        forall|j: int| start <= j < s.len() ==> !is_whitespace(#[trigger] s[j]),
        start > 0 ==> is_whitespace(s[start - 1]),
    ensures
        last_word_len(s) == s.len() - start,
    decreases s.len() - start,
{
    if start < s.len() {
        lemma_last_word_len(s.drop_last(), start);
    }
}

/// How many leading characters are trimmed, from what is seen of them.
pub proof fn lemma_leading(s: Seq<char>, n: int)
    requires
        0 <= n <= s.len(),
        forall|j: int| 0 <= j < n ==> strippable(#[trigger] s[j]),
        n < s.len() ==> !strippable(s[n]),
    ensures
        leading(s) == n,
    decreases n,
{
    if n > 0 {
        lemma_leading(s.drop_first(), n - 1);
    }
}

/// How many trailing characters are trimmed, from what is seen of them.
pub proof fn lemma_trailing(s: Seq<char>, n: int)
    requires
        0 <= n <= s.len(),
        forall|j: int| s.len() - n <= j < s.len() ==> strippable(#[trigger] s[j]),
        n < s.len() ==> !strippable(s[s.len() - n - 1]),
    ensures
        trailing(s) == n,
    decreases n,
{
    if n > 0 {
        lemma_trailing(s.drop_last(), n - 1);
    }
}

/// A word has no whitespace in it and is not empty.
pub proof fn law_words_hold_no_whitespace(s: Seq<char>, i: int)
    requires
        0 <= i < words(s).len(),
    ensures
        words(s)[i].len() > 0,
        forall|j: int| 0 <= j < words(s)[i].len() ==> !is_whitespace(#[trigger] words(s)[i][j]),
    decreases s.len(),
{
    if s.len() == 0 {
    } else if is_whitespace(s.last()) {
        law_words_hold_no_whitespace(s.drop_last(), i);
    } else {
        let n = last_word_len(s);
        if 1 <= n <= s.len() {
            if i < words(s).len() - 1 {
                law_words_hold_no_whitespace(s.take(s.len() - n), i);
            } else {
                lemma_last_word_has_no_whitespace(s);
            }
        }
    }
}

/// The characters that `last_word_len` counts are no whitespace.
pub proof fn lemma_last_word_has_no_whitespace(s: Seq<char>)
    ensures
        last_word_len(s) <= s.len(),
        forall|j: int| s.len() - last_word_len(s) <= j < s.len() ==> !is_whitespace(#[trigger] s[j]),
    decreases s.len(),
{
    if s.len() > 0 && !is_whitespace(s.last()) {
        let t = s.drop_last();
        lemma_last_word_has_no_whitespace(t);
        assert forall|j: int| s.len() - last_word_len(s) <= j < s.len() implies !is_whitespace(
            #[trigger] s[j],
        ) by {
            if j < t.len() {
                assert(t[j] == s[j]);
            }
        }
    }
}

/// Whether a character is whitespace.
pub fn whitespace(c: char) -> (r: bool)
    ensures
        r == is_whitespace(c),
{
    let u: u32 = c as u32;
    (0x09 <= u && u <= 0x0D) || u == 0x20 || u == 0x85 || u == 0xA0 || u == 0x1680 || (0x2000 <= u
        && u <= 0x200A) || u == 0x2028 || u == 0x2029 || u == 0x202F || u == 0x205F || u == 0x3000
}

/// Whether a character is ASCII punctuation.
pub fn ascii_punctuation(c: char) -> (r: bool)
    ensures
        r == is_ascii_punctuation(c),
{
    let u: u32 = c as u32;
    (0x21 <= u && u <= 0x2F) || (0x3A <= u && u <= 0x40) || (0x5B <= u && u <= 0x60) || (0x7B <= u
        && u <= 0x7E)
}

/// Copies the characters of `s` from `start` up to `end`.
pub fn copy_range(s: &Vec<char>, start: usize, end: usize) -> (r: Vec<char>)
    requires
        start <= end <= s.len(),
    ensures
        r@ == s@.subrange(start as int, end as int),
{
    let mut r: Vec<char> = Vec::new();
    let mut i: usize = start;
    while i < end
        invariant
            start <= i <= end <= s.len(),
            r@ == s@.subrange(start as int, i as int),
        decreases end - i,
    {
        r.push(s[i]);
        proof {
            assert(s@.subrange(start as int, i as int + 1) == s@.subrange(
                start as int,
                i as int,
            ).push(s@[i as int]));
        }
        i += 1;
    }
    r
}

/// Trims punctuation and whitespace from the two ends of a word.
pub fn trim(word: &Vec<char>) -> (r: Vec<char>)
    ensures
        r@ == trimmed(word@),
{
    let n: usize = word.len();
    let mut start: usize = 0;
    while start < n && (ascii_punctuation(word[start]) || whitespace(word[start]))
        invariant
            n == word.len(),
            start <= n,
            forall|j: int| 0 <= j < start ==> strippable(#[trigger] word@[j]),
        decreases n - start,
    {
        start += 1;
    }
    proof {
        lemma_leading(word@, start as int);
    }
    if start == n {
        return Vec::new();
    }
    let mut end: usize = n;
    while end > start && (ascii_punctuation(word[end - 1]) || whitespace(word[end - 1]))
        invariant
            n == word.len(),
            start < n,
            start <= end <= n,
            !strippable(word@[start as int]),
            forall|j: int| end <= j < n ==> strippable(#[trigger] word@[j]),
        decreases end,
    {
        end -= 1;
    }
    proof {
        lemma_trailing(word@, n - end);
    }
    copy_range(word, start, end)
}

/// The views of a vector of words.
pub open spec fn word_views(v: Seq<Vec<char>>) -> Seq<Seq<char>> {
    v.map_values(|w: Vec<char>| w@)
}

/// Splits a line into its words.
pub fn split_words(line: &Vec<char>) -> (r: Vec<Vec<char>>)
    ensures
        word_views(r@) == words(line@),
{
    let n: usize = line.len();
    let mut r: Vec<Vec<char>> = Vec::new();
    let mut start: usize = 0;
    let mut i: usize = 0;
    proof {
        assert(word_views(r@) =~= words(line@.take(0)));
    }
    while i < n
        invariant
            n == line.len(),
            start <= i <= n,
            forall|j: int| start <= j < i ==> !is_whitespace(#[trigger] line@[j]),
            start > 0 ==> is_whitespace(line@[start - 1]),
            word_views(r@) == words(line@.take(start as int)),
        decreases n - i,
    {
        if whitespace(line[i]) {
            if start < i {
                let word = copy_range(line, start, i);
                proof {
                    let s = line@.take(i as int);
                    assert(s.last() == line@[i as int - 1]);
                    lemma_last_word_len(s, start as int);
                    assert(s.take(start as int) == line@.take(start as int));
                    assert(s.skip(start as int) == line@.subrange(start as int, i as int));
                    assert(words(s) == words(s.take(start as int)).push(s.skip(start as int)));
                    assert(word_views(r@.push(word)) =~= word_views(r@).push(word@));
                }
                r.push(word);
            }
            proof {
                let s = line@.take(i as int + 1);
                assert(s.last() == line@[i as int]);
                assert(s.drop_last() == line@.take(i as int));
                assert(words(s) == words(line@.take(i as int)));
            }
            start = i + 1;
        }
        i += 1;
    }
    if start < n {
        let word = copy_range(line, start, n);
        proof {
            assert(line@.last() == line@[n as int - 1]);
            lemma_last_word_len(line@, start as int);
            assert(line@.skip(start as int) == line@.subrange(start as int, n as int));
            assert(word_views(r@.push(word)) =~= word_views(r@).push(word@));
        }
        r.push(word);
    } else {
        proof {
            assert(line@.take(n as int) == line@);
        }
    }
    r
}

/// The decimal digit for a number below ten.
pub open spec fn digit(d: nat) -> char {
    if d == 0 {
        '0'
    } else if d == 1 {
        '1'
    } else if d == 2 {
        '2'
    } else if d == 3 {
        '3'
    } else if d == 4 {
        '4'
    } else if d == 5 {
        '5'
    } else if d == 6 {
        '6'
    } else if d == 7 {
        '7'
    } else if d == 8 {
        '8'
    } else {
        '9'
    }
}

/// A number in decimal, without leading zeros.
pub open spec fn decimal(n: nat) -> Seq<char>
    decreases n,
{
    if n < 10 {
        seq![digit(n)]
    } else {
        decimal(n / 10).push(digit(n % 10))
    }
}

/// The digit for a number below ten.
pub fn digit_char(d: u8) -> (c: char)
    requires
        d < 10,
    ensures
        c == digit(d as nat),
{
    if d == 0 {
        '0'
    } else if d == 1 {
        '1'
    } else if d == 2 {
        '2'
    } else if d == 3 {
        '3'
    } else if d == 4 {
        '4'
    } else if d == 5 {
        '5'
    } else if d == 6 {
        '6'
    } else if d == 7 {
        '7'
    } else if d == 8 {
        '8'
    } else {
        '9'
    }
}

/// Appends a number in decimal.
pub fn push_decimal(out: &mut Vec<char>, n: u64)
    ensures
        final(out)@ == old(out)@ + decimal(n as nat),
    decreases n,
{
    if n >= 10 {
        push_decimal(out, n / 10);
    }
    out.push(digit_char((n % 10) as u8));
    proof {
        assert(final(out)@ =~= old(out)@ + decimal(n as nat));
    }
}

/// Whether a character is one of the digits `0` to `9`.
pub open spec fn is_digit(c: char) -> bool {
    0x30 <= c as u32 <= 0x39
}

/// The number that a digit stands for.
pub open spec fn digit_value(c: char) -> nat {
    (c as u32 - 0x30) as nat
}

/// The number that a run of digits stands for in decimal.
pub open spec fn digits_value(s: Seq<char>) -> nat
    decreases s.len(),
{
    if s.len() == 0 {
        0
    } else {
        digits_value(s.drop_last()) * 10 + digit_value(s.last())
    }
}

/// Every character of `s` is a digit.
pub open spec fn all_digits(s: Seq<char>) -> bool {
    forall|i: int| 0 <= i < s.len() ==> is_digit(#[trigger] s[i])
}

/// The number that a text stands for, where it is a number up to `max`: one
/// digit or more, with or without a `+` before them. Any other text, such as
/// an empty one or one with a space or a `-`, stands for no number.
pub open spec fn parse_number(s: Seq<char>, max: nat) -> Option<nat> {
    let digits = if s.len() > 0 && s[0] == '+' {
        s.drop_first()
    } else {
        s
    };
    if digits.len() > 0 && all_digits(digits) && digits_value(digits) <= max {
        Some(digits_value(digits))
    } else {
        None
    }
}

/// More digits do not make a smaller number.
pub proof fn lemma_digits_value_grows(s: Seq<char>, n: int)
    requires
        0 <= n <= s.len(),
    ensures
        digits_value(s.take(n)) <= digits_value(s),
    decreases s.len(),
{
    if n == s.len() {
        assert(s.take(n) =~= s);
    } else {
        assert(s.drop_last().take(n) =~= s.take(n));
        lemma_digits_value_grows(s.drop_last(), n);
    }
}

/// What is written for a number consists of digits, and reads as that number.
pub proof fn law_decimal_reads_back(n: nat, max: nat)
    requires
        n <= max,
    ensures
        decimal(n).len() > 0,
        all_digits(decimal(n)),
        digits_value(decimal(n)) == n,
        parse_number(decimal(n), max) == Some(n),
    decreases n,
{
    if n < 10 {
        assert(decimal(n).drop_last() =~= Seq::<char>::empty());
        assert(digits_value(decimal(n).drop_last()) == 0);
    } else {
        law_decimal_reads_back(n / 10, max);
        let rest = decimal(n / 10);
        assert(decimal(n).drop_last() =~= rest);
        assert(decimal(n).last() == digit(n % 10));
        assert forall|i: int| 0 <= i < decimal(n).len() implies is_digit(
            #[trigger] decimal(n)[i],
        ) by {
            if i < rest.len() {
                assert(decimal(n)[i] == rest[i]);
            }
        }
    }
    assert(decimal(n)[0] != '+') by {
        assert(is_digit(decimal(n)[0]));
    }
}

/// Reads a number up to `max` from a text.
pub fn read_number(text: &Vec<char>, max: u64) -> (number: Option<u64>)
    ensures
        match number {
            Some(n) => parse_number(text@, max as nat) == Some(n as nat),
            None => parse_number(text@, max as nat) is None,
        },
{
    let n: usize = text.len();
    let start: usize = if n > 0 && text[0] == '+' {
        1
    } else {
        0
    };
    let ghost digits = if text@.len() > 0 && text@[0] == '+' {
        text@.drop_first()
    } else {
        text@
    };
    proof {
        if start == 1 {
            assert(text@.drop_first() =~= text@.skip(1));
        } else {
            assert(text@.skip(0) =~= text@);
        }
    }
    if start == n {
        return None;
    }
    let mut value: u64 = 0;
    let mut i: usize = start;
    proof {
        assert(digits.take(0) =~= Seq::<char>::empty());
    }
    while i < n
        invariant
            n == text.len(),
            start <= i <= n,
            start < n,
            digits == text@.skip(start as int),
            digits == if text@.len() > 0 && text@[0] == '+' {
                text@.drop_first()
            } else {
                text@
            },
            all_digits(digits.take(i - start)),
            value == digits_value(digits.take(i - start)),
            value <= max,
        decreases n - i,
    {
        let c: char = text[i];
        let u: u32 = c as u32;
        let ghost seen = digits.take(i - start);
        let ghost next = digits.take(i - start + 1);
        proof {
            assert(digits[i - start] == c);
            assert(next.drop_last() =~= seen);
            assert(next.last() == c);
        }
        if u < 0x30 || u > 0x39 {
            proof {
                assert(!is_digit(digits[i - start]));
            }
            return None;
        }
        let d: u64 = (u - 0x30) as u64;
        let fits = match value.checked_mul(10) {
            Some(tens) => match tens.checked_add(d) {
                Some(sum) => if sum <= max {
                    Some(sum)
                } else {
                    None
                },
                None => None,
            },
            None => None,
        };
        match fits {
            Some(sum) => {
                value = sum;
            },
            None => {
                proof {
                    assert(digits_value(next) > max);
                    lemma_digits_value_grows(digits, i - start + 1);
                }
                return None;
            },
        }
        proof {
            assert forall|j: int| 0 <= j < next.len() implies is_digit(#[trigger] next[j]) by {
                if j < seen.len() {
                    assert(next[j] == seen[j]);
                }
            }
        }
        i += 1;
    }
    proof {
        assert(digits.take(n - start) =~= digits);
    }
    Some(value)
}

/// How many characters at the end of `s` are whitespace.
pub open spec fn trailing_whitespace(s: Seq<char>) -> nat
    decreases s.len(),
{
    if s.len() > 0 && is_whitespace(s.last()) {
        1 + trailing_whitespace(s.drop_last())
    } else {
        0
    }
}

/// `s` without the whitespace at its end.
pub open spec fn trimmed_end(s: Seq<char>) -> Seq<char> {
    if trailing_whitespace(s) <= s.len() {
        s.take(s.len() - trailing_whitespace(s))
    } else {
        s
    }
}

/// How much whitespace ends `s`, from what is seen of its characters.
pub proof fn lemma_trailing_whitespace(s: Seq<char>, n: int)
    requires
        0 <= n <= s.len(),
        forall|j: int| s.len() - n <= j < s.len() ==> is_whitespace(#[trigger] s[j]),
        n < s.len() ==> !is_whitespace(s[s.len() - n - 1]),
    ensures
        trailing_whitespace(s) == n,
    decreases n,
{
    if n > 0 {
        lemma_trailing_whitespace(s.drop_last(), n - 1);
    }
}

/// The place in `s`, from `start` on, up to which the whitespace at its end
/// is left out.
pub fn trim_end(s: &Vec<char>, start: usize, end: usize) -> (stop: usize)
    requires
        start <= end <= s.len(),
    ensures
        start <= stop <= end,
        s@.subrange(start as int, stop as int) == trimmed_end(s@.subrange(start as int, end as int)),
{
    let mut stop: usize = end;
    let ghost part = s@.subrange(start as int, end as int);
    while stop > start && whitespace(s[stop - 1])
        invariant
            start <= stop <= end <= s.len(),
            part == s@.subrange(start as int, end as int),
            forall|j: int| stop - start <= j < part.len() ==> is_whitespace(#[trigger] part[j]),
        decreases stop,
    {
        stop -= 1;
    }
    proof {
        if stop > start {
            assert(part[stop - start - 1] == s@[stop - 1]);
        }
        lemma_trailing_whitespace(part, end - stop);
        assert(part.take(stop - start) =~= s@.subrange(start as int, stop as int));
    }
    stop
}

/// How many characters of `s` come before its first tab.
pub open spec fn before_tab(s: Seq<char>) -> nat
    decreases s.len(),
{
    if s.len() == 0 || s[0] == '\t' {
        0
    } else {
        1 + before_tab(s.drop_first())
    }
}

/// The place of the first tab of `s` from `start` on, or `end` where there is none.
pub fn find_tab(s: &Vec<char>, start: usize, end: usize) -> (at: usize)
    requires
        start <= end <= s.len(),
    ensures
        start <= at <= end,
        at - start == before_tab(s@.subrange(start as int, end as int)),
        at < end ==> s@[at as int] == '\t',
{
    let mut at: usize = start;
    while at < end && s[at] != '\t'
        invariant
            start <= at <= end <= s.len(),
            before_tab(s@.subrange(start as int, end as int)) == (at - start) + before_tab(
                s@.subrange(at as int, end as int),
            ),
        decreases end - at,
    {
        proof {
            let part = s@.subrange(at as int, end as int);
            assert(part[0] == s@[at as int]);
            assert(part.drop_first() =~= s@.subrange(at as int + 1, end as int));
        }
        at += 1;
    }
    proof {
        let part = s@.subrange(at as int, end as int);
        if at < end {
            assert(part[0] == s@[at as int]);
        }
    }
    at
}

/// Appends the characters of `text`.
pub fn push_chars(out: &mut Vec<char>, text: &Vec<char>)
    ensures
        final(out)@ == old(out)@ + text@,
{
    let mut i: usize = 0;
    while i < text.len()
        invariant
            i <= text.len(),
            out@ == old(out)@ + text@.take(i as int),
        decreases text.len() - i,
    {
        out.push(text[i]);
        proof {
            assert(text@.take(i as int + 1) == text@.take(i as int).push(text@[i as int]));
        }
        i += 1;
    }
    proof {
        assert(text@.take(text.len() as int) == text@);
    }
}

/// Appends the characters of a string.
pub fn push_str(out: &mut Vec<char>, text: &str)
    ensures
        final(out)@ == old(out)@ + text@,
{
    let ghost before = out@;
    for c in it: text.chars()
        invariant
            out@ == before + it.seq().take(it.index()),
            it.seq() == text@,
    {
        out.push(c);
    }
}

/// The characters of a string.
pub fn to_chars(text: &str) -> (r: Vec<char>)
    ensures
        r@ == text@,
{
    let mut r: Vec<char> = Vec::new();
    push_str(&mut r, text);
    r
}

} // verus!
