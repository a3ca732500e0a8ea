use std::io::Write;
use word_frequency::util::{
    get_dictionary, is_compressed_extension, read_lines, same_text, word_of_line, DictionaryError,
    LineIterator,
};

fn gzip(data: &[u8]) -> Vec<u8> {
    let mut encoder = flate2::write::GzEncoder::new(Vec::new(), flate2::Compression::default());
    encoder.write_all(data).unwrap();
    encoder.finish().unwrap()
}

fn strings(texts: &[&str]) -> Vec<String> {
    texts.iter().map(|t| t.to_string()).collect()
}

#[test]
fn lines_keep_their_newline() {
    let mut reader = LineIterator::new(b"the cat\nsat\n\non the mat".to_vec(), false);
    assert_eq!(reader.next(), Some("the cat\n".to_string()));
    assert_eq!(reader.next(), Some("sat\n".to_string()));
    assert_eq!(reader.next(), Some("\n".to_string()));
    assert_eq!(reader.next(), Some("on the mat".to_string()));
    assert_eq!(reader.next(), None);
    assert_eq!(reader.next(), None);
    assert!(!reader.is_broken());
}

#[test]
fn no_bytes_give_no_line() {
    let mut reader = LineIterator::new(Vec::new(), false);
    assert_eq!(reader.next(), None);
    assert!(!reader.is_broken());
    assert_eq!(read_lines(Vec::new(), false), Vec::<String>::new());
}

#[test]
fn carriage_returns_stay_in_the_line() {
    assert_eq!(read_lines(b"a\r\nb\r\n".to_vec(), false), strings(&["a\r\n", "b\r\n"]));
}

#[test]
fn lines_are_decoded_as_utf8() {
    let text = "z\u{e9}ro \u{4e2d}\u{6587}\n\u{1F600}\n";
    assert_eq!(
        read_lines(text.as_bytes().to_vec(), false),
        strings(&["z\u{e9}ro \u{4e2d}\u{6587}\n", "\u{1F600}\n"])
    );
}

#[test]
fn reading_ends_at_a_line_that_is_not_utf8() {
    let mut reader = LineIterator::new(b"good\nb\xffd\nnever read\n".to_vec(), false);
    assert_eq!(reader.next(), Some("good\n".to_string()));
    assert!(!reader.is_broken());
    assert_eq!(reader.next(), None);
    assert!(reader.is_broken());
    assert_eq!(reader.next(), None);
    assert_eq!(read_lines(b"good\nb\xffd\nnever read\n".to_vec(), false), strings(&["good\n"]));
    assert_eq!(read_lines(b"\xc3\n\xa9\n".to_vec(), false), Vec::<String>::new());
}

#[test]
fn read_to_end_gives_the_lines_that_are_left() {
    let mut reader = LineIterator::new(b"a\nb\nc\n".to_vec(), false);
    assert_eq!(reader.next(), Some("a\n".to_string()));
    assert_eq!(reader.read_to_end(), strings(&["b\n", "c\n"]));
    assert_eq!(reader.read_to_end(), Vec::<String>::new());
    assert!(!reader.is_broken());
}

#[test]
fn compressed_bytes_are_decompressed() {
    let text = "the cat sat\non the mat\n";
    let file = gzip(text.as_bytes());
    assert_ne!(file, text.as_bytes());
    assert_eq!(read_lines(file.clone(), true), strings(&["the cat sat\n", "on the mat\n"]));
    assert_ne!(read_lines(file, false), strings(&["the cat sat\n", "on the mat\n"]));
}

#[test]
fn broken_compression_ends_the_lines_early() {
    let mut text = String::new();
    let mut i = 0;
    while i < 20000 {
        text.push_str(&format!("line number {} of the shard\n", (i * 7919) % 10007));
        i += 1;
    }
    let file = gzip(text.as_bytes());
    let cut = file[..file.len() / 2].to_vec();
    let lines = read_lines(cut, true);
    assert!(lines.len() < 20000);
    let whole: Vec<&str> = text.split_inclusive('\n').collect();
    for (i, line) in lines.iter().enumerate() {
        assert_eq!(line, whole[i]);
    }
    assert_eq!(read_lines(b"this is no gzip file\n".to_vec(), true), Vec::<String>::new());
}

#[test]
fn same_text_compares_the_characters() {
    assert!(same_text("en", "en"));
    assert!(!same_text("en", "EN"));
    assert!(!same_text("en", "e"));
    assert!(same_text("", ""));
}

fn word(line: &str) -> Option<String> {
    word_of_line(line).map(|w| w.iter().collect::<String>())
}

#[test]
fn dictionary_line_gives_a_trimmed_word() {
    assert_eq!(word("cat\n"), Some("cat".to_string()));
    assert_eq!(word("cat"), Some("cat".to_string()));
    assert_eq!(word("  cat's. \r\n"), Some("cat's".to_string()));
    assert_eq!(word("# a comment\n"), None);
    assert_eq!(word("#hash\n"), None);
    assert_eq!(word(" # not a comment\n"), Some("not a comment".to_string()));
    assert_eq!(word("\n"), None);
    assert_eq!(word(""), None);
    assert_eq!(word("...\n"), None);
}

#[test]
fn dictionary_line_is_normalized() {
    assert_eq!(word("\u{fb01}sh\n"), Some("fish".to_string()));
    assert_eq!(word("e\u{301}t\u{e9}\n"), Some("\u{e9}t\u{e9}".to_string()));
    assert_eq!(word("\u{ff03}wide\n"), None);
    assert_eq!(word("\u{2460}\n"), Some("1".to_string()));
}

#[test]
fn dictionary_of_a_language() {
    let english = b"# English\nthe\ncat.\n\n  sat \r\n\xef\xac\x81sh\nthe\n";
    let polish = "kot\n\u{17c}\u{f3}\u{142}w\n".as_bytes();
    let en = get_dictionary("en", english, polish).unwrap();
    for word in ["the", "cat", "sat", "fish"].iter() {
        assert!(en.contains_str(word), "{}", word);
    }
    for word in ["cat.", "kot", "# English", "English", "", "\u{fb01}sh"].iter() {
        assert!(!en.contains_str(word), "{}", word);
    }
    let pl = get_dictionary("pl", english, polish).unwrap();
    assert!(pl.contains_str("kot"));
    assert!(pl.contains_str("\u{17c}\u{f3}\u{142}w"));
    assert!(!pl.contains_str("cat"));
}

#[test]
fn dictionary_of_an_unknown_language() {
    match get_dictionary("de", b"the\n", b"kot\n") {
        Err(DictionaryError::UnsupportedLanguage(code)) => {
            assert_eq!(code, "de");
            assert_eq!(
                DictionaryError::UnsupportedLanguage(code).message(),
                "No dictionary available for language de"
            );
        }
        _ => panic!("a language without a dictionary was accepted"),
    }
    assert!(matches!(
        get_dictionary("EN", b"the\n", b"kot\n"),
        Err(DictionaryError::UnsupportedLanguage(_))
    ));
    assert!(matches!(
        get_dictionary("", b"the\n", b"kot\n"),
        Err(DictionaryError::UnsupportedLanguage(_))
    ));
}

#[test]
fn dictionary_that_is_not_utf8() {
    match get_dictionary("en", b"the\nc\xffat\nsat\n", b"kot\n") {
        Err(DictionaryError::InvalidText) => {
            assert_eq!(
                DictionaryError::InvalidText.message(),
                "stream did not contain valid UTF-8"
            );
        }
        _ => panic!("a dictionary that is not UTF-8 was accepted"),
    }
    assert!(get_dictionary("pl", b"the\nc\xffat\nsat\n", b"kot\n").is_ok());
}

#[test]
fn files_with_the_extension_gz_are_compressed() {
    assert!(is_compressed_extension("gz"));
    assert!(!is_compressed_extension("GZ"));
    assert!(!is_compressed_extension("gzip"));
    assert!(!is_compressed_extension("txt"));
    assert!(!is_compressed_extension(""));
    assert!(!is_compressed_extension(".gz"));
}
