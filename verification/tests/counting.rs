use word_frequency::create_frequencies::{
    adjacent_pairs, calculate_ngrams, is_shard_stem, merge_ngrams_results, pool_size_for,
    tokenize, worker_pool_size, NgramsResult,
};
use word_frequency::table::Table;
use word_frequency::util::OUT_OF_VOCABULARY_WORD;
use word_frequency::vocabulary::Vocabulary;

fn chars(text: &str) -> Vec<char> {
    text.chars().collect()
}

fn vocabulary(words: &[&str]) -> Vocabulary {
    let mut vocabulary = Vocabulary::new();
    for word in words.iter() {
        vocabulary.insert_str(word);
    }
    vocabulary
}

fn lines(texts: &[&str]) -> Vec<String> {
    texts.iter().map(|t| t.to_string()).collect()
}

fn unigrams(table: &Table<Vec<char>>) -> Vec<(String, u64)> {
    let mut out = Vec::new();
    let mut i = 0;
    while i < table.len() {
        out.push((table.key_at(i).iter().collect::<String>(), table.count_at(i)));
        i += 1;
    }
    out
}

fn bigrams(table: &Table<(Vec<char>, Vec<char>)>) -> Vec<(String, String, u64)> {
    let mut out = Vec::new();
    let mut i = 0;
    while i < table.len() {
        let key = table.key_at(i);
        out.push((
            key.0.iter().collect::<String>(),
            key.1.iter().collect::<String>(),
            table.count_at(i),
        ));
        i += 1;
    }
    out
}

type Dump = (u64, Vec<(String, u64)>, Vec<(String, u64)>, Vec<(String, String, u64)>);

fn dump(result: &NgramsResult) -> Dump {
    (
        result.total_unigrams,
        unigrams(&result.unigram_counts),
        unigrams(&result.unigram_article_counts),
        bigrams(&result.bigram_counts),
    )
}

fn one(items: &[(&str, u64)]) -> Vec<(String, u64)> {
    items.iter().map(|(k, c)| (k.to_string(), *c)).collect()
}

fn two(items: &[(&str, &str, u64)]) -> Vec<(String, String, u64)> {
    items.iter().map(|(a, b, c)| (a.to_string(), b.to_string(), *c)).collect()
}

fn count(texts: &[&str], words: &[&str]) -> NgramsResult {
    calculate_ngrams(&lines(texts), &vocabulary(words)).unwrap()
}

const WORDS: [&str; 4] = ["the", "cat", "sat", "mat"];

#[test]
fn tokenize_trims_and_replaces_unknown_words() {
    let dict = vocabulary(&WORDS);
    let found: Vec<String> = tokenize("The cat, (sat) on the \"mat\".\n", &dict)
        .iter()
        .map(|t| t.iter().collect::<String>())
        .collect();
    assert_eq!(found, vec!["<unk>", "cat", "sat", "<unk>", "the", "mat"]);
}

#[test]
fn tokenize_of_punctuation_alone_is_unknown() {
    let dict = vocabulary(&WORDS);
    let found: Vec<String> = tokenize("cat -- ... sat", &dict)
        .iter()
        .map(|t| t.iter().collect::<String>())
        .collect();
    assert_eq!(found, vec!["cat", "<unk>", "<unk>", "sat"]);
}

#[test]
fn tokenize_does_not_fold_case() {
    let dict = vocabulary(&["Cat"]);
    let found: Vec<String> =
        tokenize("Cat cat CAT", &dict).iter().map(|t| t.iter().collect::<String>()).collect();
    assert_eq!(found, vec!["Cat", "<unk>", "<unk>"]);
}

#[test]
fn unknown_words_are_counted_under_the_sentinel() {
    let result = count(&["the dog sat\n", "a dog barked\n"], &WORDS);
    assert_eq!(OUT_OF_VOCABULARY_WORD, "<unk>");
    assert_eq!(result.unigram_counts.get(&chars("dog")), None);
    assert_eq!(result.unigram_counts.get(&chars("a")), None);
    assert_eq!(result.unigram_counts.get(&chars("barked")), None);
    assert_eq!(result.unigram_counts.get(&chars("<unk>")), Some(4));
    assert_eq!(result.unigram_article_counts.get(&chars("dog")), None);
    assert_eq!(result.unigram_article_counts.get(&chars("<unk>")), Some(2));
    assert_eq!(result.bigram_counts.get(&(chars("the"), chars("dog"))), None);
    assert_eq!(result.bigram_counts.get(&(chars("the"), chars("<unk>"))), Some(1));
    assert_eq!(result.bigram_counts.get(&(chars("<unk>"), chars("<unk>"))), Some(2));
    for (token, _) in unigrams(&result.unigram_counts).iter() {
        assert!(WORDS.contains(&token.as_str()) || token == "<unk>");
    }
}

#[test]
fn one_line_is_counted() {
    let result = count(&["the cat sat on the mat\n"], &WORDS);
    assert_eq!(
        dump(&result),
        (
            6,
            one(&[("<unk>", 1), ("cat", 1), ("mat", 1), ("sat", 1), ("the", 2)]),
            one(&[("<unk>", 1), ("cat", 1), ("mat", 1), ("sat", 1), ("the", 1)]),
            two(&[
                ("<unk>", "the", 1),
                ("cat", "sat", 1),
                ("sat", "<unk>", 1),
                ("the", "cat", 1),
                ("the", "mat", 1),
            ]),
        )
    );
}

#[test]
fn article_count_does_not_repeat() {
    let result = count(&["cat cat cat cat cat\n"], &WORDS);
    assert_eq!(result.unigram_article_counts.get(&chars("cat")), Some(1));
    assert_eq!(result.unigram_counts.get(&chars("cat")), Some(5));
    assert_eq!(result.total_unigrams, 5);
    assert_eq!(result.bigram_counts.get(&(chars("cat"), chars("cat"))), Some(4));
}

#[test]
fn article_count_adds_up_over_articles() {
    let result = count(&["cat cat the\n", "the cat\n", "mat mat\n"], &WORDS);
    assert_eq!(result.unigram_article_counts.get(&chars("cat")), Some(2));
    assert_eq!(result.unigram_counts.get(&chars("cat")), Some(3));
    assert_eq!(result.unigram_article_counts.get(&chars("the")), Some(2));
    assert_eq!(result.unigram_article_counts.get(&chars("mat")), Some(1));
    assert_eq!(result.unigram_counts.get(&chars("mat")), Some(2));
    assert_eq!(result.total_unigrams, 7);
}

#[test]
fn line_of_one_token_counts_an_article_only() {
    let result = count(&["Hello"], &["Hello"]);
    assert_eq!(result.total_unigrams, 0);
    assert_eq!(result.unigram_counts.get(&chars("Hello")), None);
    assert_eq!(result.unigram_counts.len(), 0);
    assert_eq!(result.bigram_counts.len(), 0);
    assert_eq!(result.unigram_article_counts.get(&chars("Hello")), Some(1));
}

#[test]
fn line_of_two_tokens_counts_both() {
    let result = count(&["Hello Hello\n"], &["Hello"]);
    assert_eq!(result.total_unigrams, 2);
    assert_eq!(result.unigram_counts.get(&chars("Hello")), Some(2));
    assert_eq!(result.bigram_counts.get(&(chars("Hello"), chars("Hello"))), Some(1));
    assert_eq!(result.unigram_article_counts.get(&chars("Hello")), Some(1));
}

#[test]
fn lines_without_tokens_count_nothing() {
    let result = count(&["", "\n", "   \t \n"], &WORDS);
    assert_eq!(dump(&result), (0, one(&[]), one(&[]), two(&[])));
    let none = count(&[], &WORDS);
    assert_eq!(dump(&none), (0, one(&[]), one(&[]), two(&[])));
}

#[test]
fn no_bigram_spans_two_lines() {
    let result = count(&["the cat\n", "sat mat\n"], &WORDS);
    assert_eq!(result.bigram_counts.get(&(chars("cat"), chars("sat"))), None);
    assert_eq!(bigrams(&result.bigram_counts), two(&[("sat", "mat", 1), ("the", "cat", 1)]));
}

#[test]
fn adjacent_pairs_are_the_neighbours() {
    let line = vec![chars("a"), chars("b"), chars("c")];
    assert_eq!(adjacent_pairs(&line), vec![(chars("a"), chars("b")), (chars("b"), chars("c"))]);
    assert_eq!(adjacent_pairs(&vec![chars("a")]), Vec::new());
    assert_eq!(adjacent_pairs(&Vec::new()), Vec::new());
}

#[test]
fn add_article_folds_a_line_in() {
    let mut result = NgramsResult::new();
    assert!(result.add_article(&vec![chars("the"), chars("cat")]));
    assert!(result.add_article(&vec![chars("cat")]));
    assert!(result.add_article(&vec![]));
    assert_eq!(
        dump(&result),
        (2, one(&[("cat", 1), ("the", 1)]), one(&[("cat", 2), ("the", 1)]), two(&[("the", "cat", 1)]))
    );
}

#[test]
fn add_article_reports_a_counter_that_does_not_fit() {
    let mut result = NgramsResult::new();
    result.total_unigrams = u64::MAX - 1;
    assert!(!result.add_article(&vec![chars("the"), chars("cat")]));
    let mut full = NgramsResult::new();
    assert!(full.unigram_article_counts.add(chars("cat"), u64::MAX));
    assert!(!full.add_article(&vec![chars("cat")]));
    let mut room = NgramsResult::new();
    assert!(room.unigram_article_counts.add(chars("cat"), u64::MAX - 1));
    assert!(room.add_article(&vec![chars("cat"), chars("cat")]));
    assert_eq!(room.unigram_article_counts.get(&chars("cat")), Some(u64::MAX));
}

#[test]
fn merge_is_commutative() {
    let a = count(&["the cat sat\n", "the mat\n"], &WORDS);
    let b = count(&["a cat sat on the mat\n", "cat\n"], &WORDS);
    let ab = a.merge(&b).unwrap();
    let ba = b.merge(&a).unwrap();
    assert_eq!(dump(&ab), dump(&ba));
    assert_eq!(ab.total_unigrams, 11);
    assert_eq!(ab.unigram_counts.get(&chars("cat")), Some(2));
    assert_eq!(ab.unigram_article_counts.get(&chars("cat")), Some(3));
}

#[test]
fn merge_is_associative() {
    let a = count(&["the cat sat\n"], &WORDS);
    let b = count(&["the mat sat\n", "dog dog\n"], &WORDS);
    let c = count(&["cat the cat\n"], &WORDS);
    let left = a.merge(&b).unwrap().merge(&c).unwrap();
    let right = a.merge(&b.merge(&c).unwrap()).unwrap();
    assert_eq!(dump(&left), dump(&right));
    assert_eq!(left.total_unigrams, 11);
}

#[test]
fn merge_with_nothing_changes_nothing() {
    let a = count(&["the cat sat\n"], &WORDS);
    assert_eq!(dump(&a.merge(&NgramsResult::new()).unwrap()), dump(&a));
    assert_eq!(dump(&NgramsResult::new().merge(&a).unwrap()), dump(&a));
}

#[test]
fn merge_reports_a_sum_that_does_not_fit() {
    let mut a = NgramsResult::new();
    a.total_unigrams = u64::MAX;
    let mut b = NgramsResult::new();
    b.total_unigrams = 1;
    assert!(a.merge(&b).is_none());
    assert!(merge_ngrams_results(&vec![a, b]).is_none());
    let mut c = NgramsResult::new();
    assert!(c.bigram_counts.add((chars("a"), chars("b")), u64::MAX));
    let mut d = NgramsResult::new();
    assert!(d.bigram_counts.add((chars("a"), chars("b")), 1));
    assert!(c.merge(&d).is_none());
}

#[test]
fn merging_shards_gives_what_one_shard_gives() {
    let corpus = [
        "the cat sat on the mat\n",
        "cat\n",
        "\n",
        "the the the\n",
        "a mat, a cat!\n",
        "sat sat\n",
        "mat",
    ];
    let whole = count(&corpus, &WORDS);
    let mut cut = 0;
    while cut <= corpus.len() {
        let parts = vec![count(&corpus[..cut], &WORDS), count(&corpus[cut..], &WORDS)];
        assert_eq!(dump(&merge_ngrams_results(&parts).unwrap()), dump(&whole), "cut at {}", cut);
        cut += 1;
    }
    let each: Vec<NgramsResult> = corpus.iter().map(|line| count(&[*line], &WORDS)).collect();
    assert_eq!(dump(&merge_ngrams_results(&each).unwrap()), dump(&whole));
    assert_eq!(whole.total_unigrams, 15);
    assert_eq!(whole.unigram_article_counts.get(&chars("cat")), Some(3));
    assert_eq!(whole.unigram_article_counts.get(&chars("mat")), Some(3));
}

#[test]
fn merging_does_not_depend_on_the_order_of_arrival() {
    let texts: [&[&str]; 3] = [&["the cat sat\n"], &["mat mat cat\n", "the\n"], &["dog the\n"]];
    let orders: [[usize; 3]; 6] =
        [[0, 1, 2], [0, 2, 1], [1, 0, 2], [1, 2, 0], [2, 0, 1], [2, 1, 0]];
    let expected = dump(&count(&["the cat sat\n", "mat mat cat\n", "the\n", "dog the\n"], &WORDS));
    for order in orders.iter() {
        let parts: Vec<NgramsResult> = order.iter().map(|i| count(texts[*i], &WORDS)).collect();
        assert_eq!(dump(&merge_ngrams_results(&parts).unwrap()), expected);
    }
}

#[test]
fn merge_of_no_results_is_empty() {
    assert_eq!(dump(&merge_ngrams_results(&Vec::new()).unwrap()), (0, one(&[]), one(&[]), two(&[])));
}

#[test]
fn pool_leaves_one_processor_free() {
    assert_eq!(pool_size_for(0), 1);
    assert_eq!(pool_size_for(1), 1);
    assert_eq!(pool_size_for(2), 1);
    assert_eq!(pool_size_for(3), 2);
    assert_eq!(pool_size_for(16), 15);
    assert_eq!(pool_size_for(usize::MAX), usize::MAX - 1);
    assert!(worker_pool_size() >= 1);
}

#[test]
fn shards_are_the_files_with_split_in_their_stem() {
    assert!(is_shard_stem("enwiki.split.003"));
    assert!(is_shard_stem("split"));
    assert!(is_shard_stem("xsplit"));
    assert!(is_shard_stem("splits"));
    assert!(is_shard_stem("spsplit"));
    assert!(!is_shard_stem("frequencies.arpa"));
    assert!(!is_shard_stem("spli"));
    assert!(!is_shard_stem("s.p.l.i.t"));
    assert!(!is_shard_stem("Split"));
    assert!(!is_shard_stem(""));
}

#[test]
fn large_shard_is_counted() {
    let mut words = Vec::new();
    let mut k: u64 = 0;
    while k < 20000 {
        words.push(format!("w{}", (k * 7919) % 20011));
        k += 1;
    }
    let mut dict = Vocabulary::new();
    for word in words.iter() {
        dict.insert_str(word);
    }
    let mut corpus = Vec::new();
    let mut state: u64 = 12345;
    let mut tokens: u64 = 0;
    let mut i = 0;
    while i < 5000 {
        let mut line = String::new();
        let mut j = 0;
        while j < 25 {
            state = state.wrapping_mul(6364136223846793005).wrapping_add(1442695040888963407);
            line.push_str(&words[((state >> 33) % 20000) as usize]);
            line.push(' ');
            j += 1;
        }
        line.push('\n');
        tokens += 25;
        corpus.push(line);
        i += 1;
    }
    let result = calculate_ngrams(&corpus, &dict).unwrap();
    assert_eq!(result.total_unigrams, tokens);
    let mut sum: u64 = 0;
    let mut n = 0;
    while n < result.unigram_counts.len() {
        sum += result.unigram_counts.count_at(n);
        n += 1;
    }
    assert_eq!(sum, tokens);
    let mut pairs: u64 = 0;
    let mut m = 0;
    while m < result.bigram_counts.len() {
        pairs += result.bigram_counts.count_at(m);
        m += 1;
    }
    assert_eq!(pairs, 5000 * 24);
    assert!(result.bigram_counts.len() > 100000);
    let mut last: Option<(Vec<char>, Vec<char>)> = None;
    let mut p = 0;
    while p < result.bigram_counts.len() {
        let key = result.bigram_counts.key_at(p).clone();
        let text = |k: &(Vec<char>, Vec<char>)| {
            (k.0.iter().collect::<String>(), k.1.iter().collect::<String>())
        };
        if let Some(before) = last {
            assert!(text(&before) < text(&key));
        }
        last = Some(key);
        p += 1;
    }
}

#[test]
fn counts_do_not_depend_on_how_articles_are_dealt_out() {
    let corpus = [
        "the cat sat on the mat\n",
        "cat\n",
        "the the the\n",
        "a mat, a cat!\n",
        "sat sat\n",
        "mat the cat\n",
    ];
    let whole = dump(&count(&corpus, &WORDS));
    let dealt: [[usize; 6]; 4] =
        [[0, 1, 2, 0, 1, 2], [2, 2, 2, 2, 2, 2], [1, 0, 1, 0, 1, 0], [0, 1, 2, 3, 4, 5]];
    for deal in dealt.iter() {
        let mut shards: Vec<Vec<&str>> = vec![Vec::new(); 6];
        let mut i = corpus.len();
        while i > 0 {
            i -= 1;
            shards[deal[i]].push(corpus[i]);
        }
        let parts: Vec<NgramsResult> = shards.iter().map(|s| count(s, &WORDS)).collect();
        assert_eq!(dump(&merge_ngrams_results(&parts).unwrap()), whole);
    }
}
