use std::io::{Read, Write};
use word_frequency::create_frequencies::{
    calculate_ngrams, handle_create_frequencies, FrequenciesError, NgramsResult, Shard,
};
use word_frequency::frequency_table::{with_gz_suffix, to_string, MINIMUM_ARTICLE_THRESHOLD};
use word_frequency::util::DictionaryError;
use word_frequency::vocabulary::Vocabulary;

fn chars(text: &str) -> Vec<char> {
    text.chars().collect()
}

fn vocabulary(words: &[&str]) -> Vocabulary {
    let mut vocabulary = Vocabulary::new();
    for word in words.iter() {
        vocabulary.insert_str(word);
    }
    vocabulary
}

fn count(texts: &[String], words: &[&str]) -> NgramsResult {
    calculate_ngrams(&texts.to_vec(), &vocabulary(words)).unwrap()
}

fn articles(text: &str, times: usize) -> Vec<String> {
    let mut out = Vec::new();
    let mut i = 0;
    while i < times {
        out.push(text.to_string());
        i += 1;
    }
    out
}

fn gunzip(bytes: &[u8]) -> String {
    let mut text = String::new();
    flate2::read::GzDecoder::new(bytes).read_to_string(&mut text).unwrap();
    text
}

const WORDS: [&str; 4] = ["the", "cat", "sat", "mat"];

#[test]
fn to_string_collects_the_characters() {
    assert_eq!(to_string(&chars("a\u{e9}\u{4e2d}\u{1F600}\n")), "a\u{e9}\u{4e2d}\u{1F600}\n");
    assert_eq!(to_string(&Vec::new()), "");
}

#[test]
fn usual_threshold_is_forty() {
    assert_eq!(MINIMUM_ARTICLE_THRESHOLD, 40);
}

#[test]
fn table_of_one_line() {
    let result = count(&articles("the cat sat on the mat\n", 1), &WORDS);
    let expected = "\\data\\\n\
                    total unigrams = 6\n\
                    ngram 1 = 5\n\
                    ngram 2 = 5\n\
                    \n\
                    \\1-grams:\n\
                    1\t<unk>\n\
                    1\tcat\n\
                    1\tmat\n\
                    1\tsat\n\
                    2\tthe\n\
                    \n\
                    \\2-grams:\n\
                    1\t<unk>\tthe\n\
                    1\tcat\tsat\n\
                    1\tsat\t<unk>\n\
                    1\tthe\tcat\n\
                    1\tthe\tmat\n\
                    \n\
                    \\end\\\n";
    assert_eq!(result.frequency_table(0), expected);
}

#[test]
fn table_of_nothing() {
    let expected = "\\data\\\ntotal unigrams = 0\nngram 1 = 0\nngram 2 = 0\n\n\\1-grams:\n\n\\2-grams:\n\n\\end\\\n";
    assert_eq!(NgramsResult::new().frequency_table(40), expected);
}

#[test]
fn cat_is_written_after_forty_one_articles() {
    let result = count(&articles("the cat sat\n", 41), &WORDS);
    let table = result.frequency_table(MINIMUM_ARTICLE_THRESHOLD);
    assert!(table.contains("\n41\tcat\n"));
    let expected = "\\data\\\n\
                    total unigrams = 123\n\
                    ngram 1 = 3\n\
                    ngram 2 = 2\n\
                    \n\
                    \\1-grams:\n\
                    41\tcat\n\
                    41\tsat\n\
                    41\tthe\n\
                    \n\
                    \\2-grams:\n\
                    41\tcat\tsat\n\
                    41\tthe\tcat\n\
                    \n\
                    \\end\\\n";
    assert_eq!(table, expected);
}

#[test]
fn cat_is_not_written_after_forty_articles() {
    let result = count(&articles("the cat sat\n", 40), &WORDS);
    let table = result.frequency_table(MINIMUM_ARTICLE_THRESHOLD);
    assert!(!table.contains("cat"));
    let expected = "\\data\\\n\
                    total unigrams = 120\n\
                    ngram 1 = 3\n\
                    ngram 2 = 2\n\
                    \n\
                    \\1-grams:\n\
                    \n\
                    \\2-grams:\n\
                    \n\
                    \\end\\\n";
    assert_eq!(table, expected);
}

#[test]
fn bigram_needs_both_tokens_above_the_threshold() {
    let mut texts = articles("cat sat\n", 3);
    texts.extend(articles("cat mat\n", 2));
    let result = count(&texts, &WORDS);
    let table = result.frequency_table(2);
    assert!(table.contains("\n5\tcat\n"));
    assert!(table.contains("\n3\tsat\n"));
    assert!(!table.contains("\tmat\n"));
    assert!(table.contains("\n3\tcat\tsat\n"));
    assert!(!table.contains("cat\tmat"));
    let stricter = result.frequency_table(3);
    assert!(stricter.contains("\n5\tcat\n"));
    assert!(!stricter.contains("\tsat\n"));
    assert!(!stricter.contains("cat\tsat"));
    let expected = "\\data\\\n\
                    total unigrams = 10\n\
                    ngram 1 = 3\n\
                    ngram 2 = 2\n\
                    \n\
                    \\1-grams:\n\
                    5\tcat\n\
                    \n\
                    \\2-grams:\n\
                    \n\
                    \\end\\\n";
    assert_eq!(stricter, expected);
}

#[test]
fn token_without_article_count_always_passes() {
    let mut result = NgramsResult::new();
    result.total_unigrams = 9;
    assert!(result.unigram_counts.add(chars("cat"), 4));
    assert!(result.unigram_counts.add(chars("sat"), 5));
    assert!(result.unigram_article_counts.add(chars("sat"), 1));
    assert!(result.bigram_counts.add((chars("cat"), chars("cat")), 2));
    assert!(result.bigram_counts.add((chars("cat"), chars("sat")), 3));
    let expected = "\\data\\\n\
                    total unigrams = 9\n\
                    ngram 1 = 2\n\
                    ngram 2 = 2\n\
                    \n\
                    \\1-grams:\n\
                    4\tcat\n\
                    \n\
                    \\2-grams:\n\
                    2\tcat\tcat\n\
                    \n\
                    \\end\\\n";
    assert_eq!(result.frequency_table(40), expected);
    assert_eq!(result.frequency_table(u64::MAX), expected);
}

#[test]
fn head_counts_the_entries_before_filtering() {
    let mut texts = articles("the cat\n", 50);
    texts.push("mat sat\n".to_string());
    let table = count(&texts, &WORDS).frequency_table(40);
    assert!(table.starts_with("\\data\\\ntotal unigrams = 102\nngram 1 = 4\nngram 2 = 2\n\n"));
    assert!(!table.contains("mat"));
    assert!(table.contains("\\1-grams:\n50\tcat\n50\tthe\n\n\\2-grams:\n50\tthe\tcat\n\n\\end\\\n"));
}

#[test]
fn same_counts_give_the_same_table() {
    let a = count(&articles("the cat sat\n", 3), &WORDS);
    let b = count(&articles("sat on the mat\n", 2), &WORDS);
    let ab = a.merge(&b).unwrap();
    let ba = b.merge(&a).unwrap();
    assert_eq!(ab.frequency_table(1), ba.frequency_table(1));
    let mut texts = articles("sat on the mat\n", 2);
    texts.extend(articles("the cat sat\n", 3));
    assert_eq!(count(&texts, &WORDS).frequency_table(1), ab.frequency_table(1));
}

#[test]
fn compressed_table_reads_back_as_the_table() {
    let result = count(&articles("the cat sat on the mat\n", 45), &WORDS);
    let file = result.persist("frequencies.arpa").unwrap();
    assert_eq!(gunzip(&file), result.frequency_table(40));
    assert_ne!(file, result.frequency_table(40).into_bytes());
    let header = flate2::read::GzDecoder::new(&file[..]).header().unwrap().clone();
    assert_eq!(header.filename(), Some(&b"frequencies.arpa"[..]));
    assert_eq!(header.mtime(), 0);
    let other = result.compressed_table("frequencies.arpa", 45).unwrap();
    assert_eq!(gunzip(&other), result.frequency_table(45));
    assert_eq!(result.persist("frequencies.arpa").unwrap(), file);
}

#[test]
fn compressed_table_refuses_a_name_with_a_zero() {
    let result = count(&articles("the cat\n", 1), &WORDS);
    assert!(result.persist("freq\0uencies").is_none());
    assert!(result.compressed_table("\0", 0).is_none());
}

#[test]
fn gz_suffix_is_appended() {
    assert_eq!(with_gz_suffix("arpa"), "arpa.gz");
    assert_eq!(with_gz_suffix(""), ".gz");
    assert_eq!(with_gz_suffix("t\u{e9}xt"), "t\u{e9}xt.gz");
}

fn gzip(data: &[u8]) -> Vec<u8> {
    let mut encoder = flate2::write::GzEncoder::new(Vec::new(), flate2::Compression::fast());
    encoder.write_all(data).unwrap();
    encoder.finish().unwrap()
}

#[test]
fn whole_pipeline_gives_the_table_of_the_corpus() {
    let mut first = String::new();
    let mut second = String::new();
    let mut i = 0;
    while i < 41 {
        first.push_str("The cat sat.\n");
        if i % 2 == 0 {
            second.push_str("the cat sat on the mat\n");
        }
        i += 1;
    }
    let shards = vec![
        Shard { content: first.clone().into_bytes(), compressed: false },
        Shard { content: gzip(second.as_bytes()), compressed: true },
    ];
    let english = b"# words\nthe\ncat\nsat\nmat\n";
    let file = handle_create_frequencies(&shards, "out.arpa", "en", english, b"").unwrap();
    let expected = "\\data\\\n\
                    total unigrams = 249\n\
                    ngram 1 = 5\n\
                    ngram 2 = 6\n\
                    \n\
                    \\1-grams:\n\
                    62\t<unk>\n\
                    62\tcat\n\
                    62\tsat\n\
                    \n\
                    \\2-grams:\n\
                    41\t<unk>\tcat\n\
                    62\tcat\tsat\n\
                    21\tsat\t<unk>\n\
                    \n\
                    \\end\\\n";
    assert_eq!(gunzip(&file), expected);
    let one = vec![Shard { content: (first + &second).into_bytes(), compressed: false }];
    let again = handle_create_frequencies(&one, "out.arpa", "en", english, b"").unwrap();
    assert_eq!(gunzip(&again), expected);
    assert_eq!(again, file);
    let swapped = vec![
        Shard { content: shards[1].content.clone(), compressed: true },
        Shard { content: shards[0].content.clone(), compressed: false },
    ];
    assert_eq!(handle_create_frequencies(&swapped, "out.arpa", "en", english, b"").unwrap(), file);
}

#[test]
fn whole_pipeline_reports_its_errors() {
    let shards = vec![Shard { content: b"the cat\n".to_vec(), compressed: false }];
    match handle_create_frequencies(&shards, "out.arpa", "de", b"the\n", b"kot\n") {
        Err(FrequenciesError::Dictionary(DictionaryError::UnsupportedLanguage(code))) => {
            assert_eq!(code, "de")
        }
        _ => panic!("a language without a dictionary was accepted"),
    }
    assert!(matches!(
        handle_create_frequencies(&shards, "out.arpa", "pl", b"the\n", b"k\xffot\n"),
        Err(FrequenciesError::Dictionary(DictionaryError::InvalidText))
    ));
    assert!(matches!(
        handle_create_frequencies(&shards, "out\0.arpa", "en", b"the\n", b"kot\n"),
        Err(FrequenciesError::FileName)
    ));
    assert!(handle_create_frequencies(&shards, "out.arpa", "pl", b"\xff\n", b"kot\n").is_ok());
    assert!(handle_create_frequencies(&Vec::new(), "out.arpa", "en", b"", b"").is_ok());
}
