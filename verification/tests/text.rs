use word_frequency::chars::{
    ascii_punctuation, push_decimal, read_number, split_words, to_chars, trim, whitespace,
};
use word_frequency::order::{rank_words, Key, Rank};

fn chars(text: &str) -> Vec<char> {
    text.chars().collect()
}

fn string(chars: &Vec<char>) -> String {
    chars.iter().collect()
}

#[test]
fn whitespace_is_what_unicode_counts_as_white_space() {
    let mut code: u32 = 0;
    while code <= 0x10FFFF {
        if let Some(c) = char::from_u32(code) {
            assert_eq!(whitespace(c), c.is_whitespace(), "code point {:#x}", code);
        }
        code += 1;
    }
}

#[test]
fn punctuation_is_ascii_punctuation() {
    let mut code: u32 = 0;
    while code <= 0x10FFFF {
        if let Some(c) = char::from_u32(code) {
            assert_eq!(ascii_punctuation(c), c.is_ascii_punctuation(), "code point {:#x}", code);
        }
        code += 1;
    }
}

#[test]
fn to_chars_gives_every_character() {
    assert_eq!(to_chars("a\u{e9}\u{4e2d}\u{1F600}"), vec!['a', '\u{e9}', '\u{4e2d}', '\u{1F600}']);
    assert_eq!(to_chars(""), Vec::<char>::new());
}

#[test]
fn trim_strips_both_ends_only() {
    let samples = [
        "",
        "cat",
        "\"cat\"",
        "(cat),",
        "...",
        "don't",
        "'tis'",
        "--a--b--",
        "\u{a0}cat\u{3000}",
        "!\u{e9}t\u{e9}?",
        "a",
        "!",
        "\u{2014}dash\u{2014}",
    ];
    for sample in samples.iter() {
        let expected = sample.trim_matches(|c: char| c.is_ascii_punctuation() || c.is_whitespace());
        assert_eq!(string(&trim(&chars(sample))), expected, "sample {:?}", sample);
    }
}

#[test]
fn split_words_splits_on_runs_of_whitespace() {
    let samples = [
        "",
        " ",
        "cat",
        "the cat",
        "  the \t cat\n",
        "the\u{a0}cat\u{2003}sat\r\n",
        "a  b   c",
        "\n",
        "x\u{85}y",
        " lead",
        "trail ",
    ];
    for sample in samples.iter() {
        let expected: Vec<String> = sample.split_whitespace().map(|w| w.to_string()).collect();
        let found: Vec<String> = split_words(&chars(sample)).iter().map(string).collect();
        assert_eq!(found, expected, "sample {:?}", sample);
    }
}

#[test]
fn push_decimal_writes_the_number() {
    for n in [0u64, 1, 9, 10, 11, 99, 100, 101, 12345, 1 << 32, u64::MAX - 1, u64::MAX].iter() {
        let mut out = chars("n=");
        push_decimal(&mut out, *n);
        assert_eq!(string(&out), format!("n={}", n));
    }
}

#[test]
fn read_number_reads_what_parse_reads() {
    let samples = [
        "",
        "+",
        "-",
        "0",
        "00",
        "007",
        "+7",
        "-7",
        "++7",
        "7+",
        " 7",
        "7 ",
        "12a",
        "a12",
        "1024",
        "4294967295",
        "4294967296",
        "18446744073709551615",
        "18446744073709551616",
        "99999999999999999999999",
        "184467440737095516150",
        "\u{661}\u{662}",
        "1_000",
        "1.5",
    ];
    for sample in samples.iter() {
        assert_eq!(
            read_number(&chars(sample), u64::MAX),
            sample.parse::<u64>().ok(),
            "sample {:?}",
            sample
        );
        assert_eq!(
            read_number(&chars(sample), u32::MAX as u64),
            sample.parse::<u32>().ok().map(|n| n as u64),
            "sample {:?}",
            sample
        );
    }
}

#[test]
fn read_number_stops_at_the_limit() {
    assert_eq!(read_number(&chars("40"), 40), Some(40));
    assert_eq!(read_number(&chars("41"), 40), None);
    assert_eq!(read_number(&chars("0"), 0), Some(0));
    assert_eq!(read_number(&chars("1"), 0), None);
}

#[test]
fn words_are_ordered_as_strings_are() {
    let samples = [
        "", "a", "aa", "ab", "b", "B", "<unk>", "cat", "cats", "caT", "\u{e9}", "e", "z", "\u{4e2d}",
        "\u{1F600}", "\u{ffff}", "~", "0", "zebra\u{300}",
    ];
    for a in samples.iter() {
        for b in samples.iter() {
            let expected = match a.cmp(b) {
                std::cmp::Ordering::Less => Rank::Before,
                std::cmp::Ordering::Equal => Rank::Same,
                std::cmp::Ordering::Greater => Rank::After,
            };
            assert_eq!(rank_words(&chars(a), &chars(b)), expected, "{:?} and {:?}", a, b);
        }
    }
}

#[test]
fn pairs_are_ordered_by_first_then_second() {
    let pair = |a: &str, b: &str| (chars(a), chars(b));
    assert_eq!(pair("a", "z").rank(&pair("b", "a")), Rank::Before);
    assert_eq!(pair("b", "a").rank(&pair("a", "z")), Rank::After);
    assert_eq!(pair("a", "b").rank(&pair("a", "c")), Rank::Before);
    assert_eq!(pair("a", "c").rank(&pair("a", "b")), Rank::After);
    assert_eq!(pair("a", "b").rank(&pair("a", "b")), Rank::Same);
    assert_eq!(pair("a", "").rank(&pair("", "a")), Rank::After);
    let copy = pair("cat", "sat").duplicate();
    assert_eq!(copy, pair("cat", "sat"));
}
