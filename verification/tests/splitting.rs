use word_frequency::split::{handle_split, shard_file_name, Routed, Splitter, SPLIT_SEED};

fn lines(texts: &[&str]) -> Vec<String> {
    texts.iter().map(|t| t.to_string()).collect()
}

#[test]
fn shards_are_numbered_in_three_digits() {
    assert_eq!(shard_file_name("enwiki", 0), "enwiki.split.000");
    assert_eq!(shard_file_name("enwiki", 7), "enwiki.split.007");
    assert_eq!(shard_file_name("enwiki", 10), "enwiki.split.010");
    assert_eq!(shard_file_name("enwiki", 99), "enwiki.split.099");
    assert_eq!(shard_file_name("enwiki", 100), "enwiki.split.100");
    assert_eq!(shard_file_name("enwiki", 1023), "enwiki.split.1023");
    assert_eq!(shard_file_name("", 4294967295), ".split.4294967295");
    for i in [0u32, 5, 42, 123, 1024].iter() {
        assert_eq!(shard_file_name("w", *i), format!("{}.split.{:03}", "w", i));
    }
}

#[test]
fn seed_is_forty_two() {
    assert_eq!(SPLIT_SEED, 42);
}

#[test]
fn no_splitter_for_no_pieces() {
    assert!(Splitter::new(0).is_none());
    assert_eq!(Splitter::new(12).unwrap().pieces(), 12);
}

#[test]
fn article_is_routed_to_a_shard() {
    let mut splitter = Splitter::new(3).unwrap();
    let mut i = 0;
    while i < 100 {
        match splitter.route("{\"title\": \"Cat\", \"text\": \"The cat sat.\"}") {
            Routed::Write { piece, text } => {
                assert!(piece < 3);
                assert_eq!(text, "The cat sat.");
            }
            _ => panic!("an article was not written"),
        }
        i += 1;
    }
    assert_eq!(splitter.pieces(), 3);
}

#[test]
fn text_is_normalized() {
    let mut splitter = Splitter::new(1).unwrap();
    match splitter.route("{\"text\": \"\u{fb01}sh \\u2460 e\u{301}\"}") {
        Routed::Write { piece, text } => {
            assert_eq!(piece, 0);
            assert_eq!(text, "fish 1 \u{e9}");
        }
        _ => panic!("an article was not written"),
    }
}

#[test]
fn line_without_text_is_passed_over() {
    let mut splitter = Splitter::new(4).unwrap();
    assert!(matches!(splitter.route("{\"index\": {\"_id\": 12}}"), Routed::Skip));
    assert!(matches!(splitter.route("{}"), Routed::Skip));
    assert!(matches!(splitter.route("[1, 2]"), Routed::Skip));
    assert!(matches!(splitter.route("12"), Routed::Skip));
}

#[test]
fn broken_line_is_reported() {
    let mut splitter = Splitter::new(4).unwrap();
    assert!(matches!(splitter.route("{\"text\": "), Routed::Malformed));
    assert!(matches!(splitter.route(""), Routed::Malformed));
    assert!(matches!(splitter.route("{\"text\": 12}"), Routed::Malformed));
    assert!(matches!(splitter.route("{\"text\": null}"), Routed::Malformed));
    assert!(matches!(splitter.route("{\"text\": [\"cat\"]}"), Routed::Malformed));
}

#[test]
fn corpus_is_dealt_out_to_the_shards() {
    let mut corpus = Vec::new();
    let mut i = 0;
    while i < 200 {
        corpus.push(format!("{{\"index\": {}}}", i));
        corpus.push(format!("{{\"text\": \"article {}\"}}", i));
        i += 1;
    }
    let shards = handle_split(&corpus, 4).unwrap();
    assert_eq!(shards.len(), 4);
    let mut seen = Vec::new();
    for shard in shards.iter() {
        assert!(shard.is_empty() || shard.ends_with('\n'));
        let mut last: i64 = -1;
        for line in shard.lines() {
            let number: i64 = line.strip_prefix("article ").unwrap().parse().unwrap();
            assert!(number > last);
            last = number;
            seen.push(number);
        }
    }
    seen.sort();
    assert_eq!(seen, (0..200).collect::<Vec<i64>>());
    let one = handle_split(&corpus, 1).unwrap();
    assert_eq!(one.len(), 1);
    assert_eq!(one[0].lines().count(), 200);
    assert!(one[0].starts_with("article 0\narticle 1\n"));
}

#[test]
fn corpus_is_dealt_out_the_same_way_each_time() {
    let corpus: Vec<String> =
        (0..50).map(|i| format!("{{\"text\": \"article {}\"}}", i)).collect();
    assert_eq!(handle_split(&corpus, 5), handle_split(&corpus, 5));
}

#[test]
fn corpus_that_cannot_be_split() {
    assert_eq!(handle_split(&lines(&["{\"text\": \"a\"}"]), 0), None);
    assert_eq!(handle_split(&lines(&["{\"text\": \"a\"}", "no json"]), 2), None);
    assert_eq!(handle_split(&lines(&["{\"text\": 1}"]), 2), None);
    assert_eq!(handle_split(&Vec::new(), 3), Some(lines(&["", "", ""])));
    assert_eq!(handle_split(&lines(&["{}"]), 2), Some(lines(&["", ""])));
}
