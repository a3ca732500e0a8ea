//! Counting the unigrams and bigrams of shards, and merging the counts of the
//! shards into the counts of the corpus.

use vstd::prelude::*;
use crate::accumulator::Accumulator;
use crate::chars::{split_words, to_chars, trim, word_views};
use crate::ngrams::{
    corpus_counts, counts_of_shards, fits, line_counts, merge_all, merge_counts, no_counts,
    no_more_than, normalize, occurrences, oov, pairs, presence, shard_counts, shard_tokens, tallied,
    tally, tokens, Counts,
};
use crate::ngrams::{
    law_counts_grow, law_merge_grows, lemma_no_more_than_transitive, lemma_occurrences_bounds,
    lemma_smaller_fits, lemma_tally_push,
};
use crate::order::{copy_word, Bigram, Key, Token};
use crate::table::{count_in, fits_u64, sum_maps, Table};
use crate::frequency_table::{counts_text, has_nul, MINIMUM_ARTICLE_THRESHOLD};
use crate::outside::{gunzip_outcome, gzip_bytes};
use crate::util::{
    all_lines_decode, dictionary_words, get_dictionary, is_supported_language, lines_of, read_lines,
    readable, DictionaryError,
};
use crate::vocabulary::Vocabulary;
use vstd::slice::slice_to_vec;

verus! {

/// The models of a vector of keys.
pub open spec fn key_models<K: Key>(keys: Seq<K>) -> Seq<K::Model> {
    keys.map_values(|k: K| k.model())
}

/// The lines of a shard as sequences of characters.
pub open spec fn line_views(lines: Seq<String>) -> Seq<Seq<char>> {
    lines.map_values(|line: String| line@)
}

/// The models of a vector of results.
pub open spec fn result_views(results: Seq<NgramsResult>) -> Seq<Counts> {
    results.map_values(|r: NgramsResult| r@)
}

/// An item occurs in a sequence no less often than in a prefix of it.
pub proof fn lemma_occurrences_prefix<T>(s: Seq<T>, n: int, x: T)
    requires
        0 <= n <= s.len(),
    ensures
        occurrences(s.take(n), x) <= occurrences(s, x),
    decreases s.len(),
{
    if n == s.len() {
        assert(s.take(n) =~= s);
    } else {
        assert(s.drop_last().take(n) =~= s.take(n));
        lemma_occurrences_prefix(s.drop_last(), n, x);
    }
}

/// Adds one to the count of each key of `keys`, as often as the key occurs.
/// The answer is `false` where a count would leave 64 bits.
pub fn tally_into<K: Key>(table: &mut Table<K>, keys: &Vec<K>) -> (ok: bool)
    requires
        old(table).wf(),
    ensures
        final(table).wf(),
        ok <==> fits_u64(sum_maps(old(table).map(), tally(key_models(keys@)))),
        ok ==> final(table).map() == sum_maps(old(table).map(), tally(key_models(keys@))),
{
    let ghost start = table.map();
    let ghost models = key_models(keys@);
    let mut i: usize = 0;
    proof {
        assert(tally(models.take(0)) =~= Map::<K::Model, nat>::empty());
        assert(sum_maps(start, tally(models.take(0))) =~= start);
    }
    while i < keys.len()
        invariant
            i <= keys.len(),
            table.wf(),
            start == old(table).map(),
            models == key_models(keys@),
            table.map() == sum_maps(start, tally(models.take(i as int))),
        decreases keys.len() - i,
    {
        let ghost k = keys@[i as int].model();
        let ghost seen = models.take(i as int);
        let ghost now = table.map();
        proof {
            assert(models[i as int] == k);
            assert(models.take(i as int + 1) == seen.push(k));
            lemma_tally_push(seen, k);
        }
        let added = table.add(keys[i].duplicate(), 1);
        if !added {
            proof {
                let whole = sum_maps(start, tally(models));
                lemma_occurrences_prefix(models, i as int + 1, k);
                lemma_occurrences_bounds(seen.push(k), k);
                lemma_occurrences_bounds(seen, k);
                lemma_occurrences_bounds(models, k);
                assert(seen.push(k).drop_last() =~= seen);
                assert(occurrences(seen.push(k), k) == occurrences(seen, k) + 1);
                assert(models.contains(k));
                assert(whole.contains_key(k));
                assert(whole[k] > u64::MAX);
            }
            return false;
        }
        proof {
            assert(sum_maps(start, tally(seen).insert(k, count_in(tally(seen), k) + 1)) =~= now.insert(
                k,
                count_in(now, k) + 1,
            ));
        }
        i += 1;
    }
    proof {
        assert(models.take(keys.len() as int) == models);
        table.lemma_counts_fit();
    }
    true
}

/// Adds one to the count of each key that occurs in `keys`, however often it
/// occurs there. The answer is `false` where a count would leave 64 bits.
pub fn mark_into<K: Key>(table: &mut Table<K>, keys: &Vec<K>) -> (ok: bool)
    requires
        old(table).wf(),
    ensures
        final(table).wf(),
        ok <==> fits_u64(sum_maps(old(table).map(), presence(key_models(keys@)))),
        ok ==> final(table).map() == sum_maps(old(table).map(), presence(key_models(keys@))),
{
    let ghost start = table.map();
    let ghost models = key_models(keys@);
    let mut marked: Table<K> = Table::new();
    let mut i: usize = 0;
    proof {
        assert(presence(models.take(0)) =~= Map::<K::Model, nat>::empty());
        assert(sum_maps(start, presence(models.take(0))) =~= start);
        assert(marked.map() =~= Map::<K::Model, nat>::empty());
    }
    while i < keys.len()
        invariant
            i <= keys.len(),
            table.wf(),
            marked.wf(),
            start == old(table).map(),
            models == key_models(keys@),
            forall|x: K::Model| marked.map().contains_key(x) <==> models.take(i as int).contains(x),
            table.map() == sum_maps(start, presence(models.take(i as int))),
        decreases keys.len() - i,
    {
        let ghost k = keys@[i as int].model();
        let ghost seen = models.take(i as int);
        let ghost now = table.map();
        proof {
            assert(models[i as int] == k);
            assert(models.take(i as int + 1) == seen.push(k));
            lemma_tally_push(seen, k);
            marked.lemma_counts_fit();
            assert forall|x: K::Model|
                marked.map().insert(k, 0nat).contains_key(x) <==> seen.push(k).contains(x) by {
                if seen.contains(x) {
                    let j = choose|j: int| 0 <= j < seen.len() && seen[j] == x;
                    assert(seen.push(k)[j] == x);
                }
                if seen.push(k).contains(x) {
                    let j = choose|j: int| 0 <= j < seen.push(k).len() && seen.push(k)[j] == x;
                    if j < seen.len() {
                        assert(seen[j] == x);
                    }
                }
                assert(seen.push(k)[seen.len() as int] == k);
            }
        }
        if marked.get(&keys[i]).is_none() {
            marked.add(keys[i].duplicate(), 0);
            let added = table.add(keys[i].duplicate(), 1);
            if !added {
                proof {
                    let whole = sum_maps(start, presence(models));
                    assert(models.contains(k));
                    assert(whole.contains_key(k));
                    assert(whole[k] > u64::MAX);
                }
                return false;
            }
            proof {
                assert(sum_maps(start, presence(seen).insert(k, 1)) =~= now.insert(
                    k,
                    count_in(now, k) + 1,
                ));
            }
        } else {
            proof {
                assert(presence(seen).insert(k, 1) =~= presence(seen));
                assert(marked.map().insert(k, 0nat).dom() =~= marked.map().dom());
            }
        }
        i += 1;
    }
    proof {
        assert(models.take(keys.len() as int) == models);
        table.lemma_counts_fit();
    }
    true
}

/// The counts of one shard, or of the corpus.
#[derive(Debug)]
pub struct NgramsResult {
    /// How many unigrams were tallied. A unigram's probability is its count
    /// divided by this.
    pub total_unigrams: u64,
    /// How often each token was tallied, in ascending order of the tokens.
    pub unigram_counts: Table<Token>,
    /// In how many articles each token stands.
    pub unigram_article_counts: Table<Token>,
    /// How often each pair of adjacent tokens was tallied, in ascending order
    /// of the pairs.
    pub bigram_counts: Table<Bigram>,
}

impl View for NgramsResult {
    type V = Counts;

    open spec fn view(&self) -> Counts {
        Counts {
            total_unigrams: self.total_unigrams as nat,
            unigram_counts: self.unigram_counts.map(),
            unigram_article_counts: self.unigram_article_counts.map(),
            bigram_counts: self.bigram_counts.map(),
        }
    }
}

/// The out-of-vocabulary token.
pub fn oov_token() -> (token: Vec<char>)
    ensures
        token@ == oov(),
{
    let mut token: Vec<char> = Vec::new();
    token.push('<');
    token.push('u');
    token.push('n');
    token.push('k');
    token.push('>');
    proof {
        assert(token@ =~= oov());
    }
    token
}

/// The tokens of a line: its words, each trimmed and, where the vocabulary
/// lacks it, replaced by the out-of-vocabulary token.
pub fn tokenize(line: &str, dict: &Vocabulary) -> (line_tokens: Vec<Vec<char>>)
    requires
        dict.wf(),
    ensures
        word_views(line_tokens@) == tokens(line@, dict@),
{
    let chars = to_chars(line);
    let raw = split_words(&chars);
    let mut line_tokens: Vec<Vec<char>> = Vec::new();
    let mut i: usize = 0;
    while i < raw.len()
        invariant
            dict.wf(),
            i <= raw.len(),
            word_views(raw@) == crate::chars::words(line@),
            word_views(line_tokens@) == tokens(line@, dict@).take(i as int),
        decreases raw.len() - i,
    {
        let word = trim(&raw[i]);
        let token = if dict.contains(&word) {
            word
        } else {
            oov_token()
        };
        proof {
            assert(word_views(raw@)[i as int] == raw@[i as int]@);
            assert(token@ == normalize(raw@[i as int]@, dict@));
            assert(word_views(line_tokens@.push(token)) =~= word_views(line_tokens@).push(token@));
            assert(tokens(line@, dict@).take(i as int + 1) == tokens(line@, dict@).take(
                i as int,
            ).push(token@));
        }
        line_tokens.push(token);
        i += 1;
    }
    proof {
        assert(tokens(line@, dict@).take(raw.len() as int) == tokens(line@, dict@));
    }
    line_tokens
}

/// The pairs of adjacent tokens of a line.
pub fn adjacent_pairs(line: &Vec<Vec<char>>) -> (r: Vec<(Vec<char>, Vec<char>)>)
    ensures
        key_models(r@) == pairs(word_views(line@)),
{
    let mut r: Vec<(Vec<char>, Vec<char>)> = Vec::new();
    if line.len() < 2 {
        proof {
            assert(key_models(r@) =~= pairs(word_views(line@)));
        }
        return r;
    }
    let mut i: usize = 0;
    while i + 1 < line.len()
        invariant
            line.len() >= 2,
            i + 1 <= line.len(),
            key_models(r@) == pairs(word_views(line@)).take(i as int),
        decreases line.len() - i,
    {
        let pair = (copy_word(&line[i]), copy_word(&line[i + 1]));
        proof {
            let all = pairs(word_views(line@));
            assert(all[i as int] == (line@[i as int]@, line@[i as int + 1]@));
            assert(key_models(r@.push(pair)) =~= key_models(r@).push(pair.model()));
            assert(all.take(i as int + 1) == all.take(i as int).push(all[i as int]));
        }
        r.push(pair);
        i += 1;
    }
    proof {
        let all = pairs(word_views(line@));
        assert(all.take(i as int) == all);
    }
    r
}

impl NgramsResult {
    /// The three tables are in order.
    pub open spec fn wf(&self) -> bool {
        &&& self.unigram_counts.wf()
        &&& self.unigram_article_counts.wf()
        &&& self.bigram_counts.wf()
    }

    /// The counters of a result fit in 64 bits.
    pub proof fn lemma_fits(&self)
        requires
            self.wf(),
        ensures
            fits(self@),
    {
        self.unigram_counts.lemma_counts_fit();
        self.unigram_article_counts.lemma_counts_fit();
        self.bigram_counts.lemma_counts_fit();
    }

    /// The result that has counted nothing.
    pub fn new() -> (result: Self)
        ensures
            result.wf(),
            result@ == no_counts(),
    {
        let result = NgramsResult {
            total_unigrams: 0,
            unigram_counts: Table::new(),
            unigram_article_counts: Table::new(),
            bigram_counts: Table::new(),
        };
        proof {
            assert(result.unigram_counts.map() =~= Map::<Seq<char>, nat>::empty());
            assert(result.unigram_article_counts.map() =~= Map::<Seq<char>, nat>::empty());
            assert(result.bigram_counts.map() =~= Map::<(Seq<char>, Seq<char>), nat>::empty());
        }
        result
    }

    /// Folds one article in, given by its tokens. Each pair of adjacent tokens
    /// is tallied, and with it each token; a line of one token tallies
    /// nothing. Each token of the line counts one article, however often it
    /// stands in the line. The answer is `false` where a counter would leave
    /// 64 bits; the result is then of no use.
    pub fn add_article(&mut self, line: &Vec<Vec<char>>) -> (ok: bool)
        requires
            old(self).wf(),
        ensures
            final(self).wf(),
            ok <==> fits(merge_counts(old(self)@, line_counts(word_views(line@)))),
            ok ==> final(self)@ == merge_counts(old(self)@, line_counts(word_views(line@))),
    {
        let ghost toks = word_views(line@);
        proof {
            assert(key_models(line@) =~= toks);
        }
        let mut ok = true;
        if line.len() >= 2 {
            match self.total_unigrams.checked_add(line.len() as u64) {
                Some(total) => {
                    self.total_unigrams = total;
                },
                None => {
                    ok = false;
                },
            }
            let tallied_ok = tally_into(&mut self.unigram_counts, line);
            ok = ok && tallied_ok;
        } else {
            proof {
                assert(tally(tallied(toks)) =~= Map::<Seq<char>, nat>::empty());
                assert(sum_maps(self.unigram_counts.map(), tally(tallied(toks)))
                    =~= self.unigram_counts.map());
                self.unigram_counts.lemma_counts_fit();
            }
        }
        let marked_ok = mark_into(&mut self.unigram_article_counts, line);
        let bigrams = adjacent_pairs(line);
        let bigrams_ok = tally_into(&mut self.bigram_counts, &bigrams);
        ok && marked_ok && bigrams_ok
    }
}

/// No item occurs more often in a sequence than the sequence is long, so
/// that the tallies of a sequence that is held in memory fit in 64 bits.
pub proof fn lemma_tallies_fit<T>(s: Seq<T>)
    requires
        s.len() <= u64::MAX,
    ensures
        fits_u64(tally(s)),
        fits_u64(presence(s)),
{
    assert forall|x: T| tally(s).contains_key(x) implies #[trigger] tally(s)[x] <= u64::MAX by {
        lemma_occurrences_bounds(s, x);
    }
}

/// The three tables of one line: how often each token is tallied, which
/// tokens stand in the line, and how often each pair of neighbours is tallied.
pub fn line_tables(line: &Vec<Vec<char>>) -> (tables: (
    Table<Token>,
    Table<Token>,
    Table<Bigram>,
))
    ensures
        tables.0.wf(),
        tables.1.wf(),
        tables.2.wf(),
        tables.0.map() == line_counts(word_views(line@)).unigram_counts,
        tables.1.map() == line_counts(word_views(line@)).unigram_article_counts,
        tables.2.map() == line_counts(word_views(line@)).bigram_counts,
{
    let ghost toks = word_views(line@);
    let mut unigrams: Table<Token> = Table::new();
    let mut articles: Table<Token> = Table::new();
    let mut bigrams: Table<Bigram> = Table::new();
    let pairs_of_line = adjacent_pairs(line);
    let n: usize = line.len();
    proof {
        assert(toks.len() == n);
        assert(pairs(toks).len() <= n);
        assert(key_models(line@) =~= toks);
        assert(unigrams.map() =~= Map::<Seq<char>, nat>::empty());
        assert(articles.map() =~= Map::<Seq<char>, nat>::empty());
        assert(bigrams.map() =~= Map::<(Seq<char>, Seq<char>), nat>::empty());
        lemma_tallies_fit(toks);
        lemma_tallies_fit(pairs(toks));
        crate::table::lemma_sum_maps_empty(tally(toks));
        crate::table::lemma_sum_maps_empty(presence(toks));
        crate::table::lemma_sum_maps_empty(tally(pairs(toks)));
        assert(tally(tallied(toks)) =~= if line.len() >= 2 {
            tally(toks)
        } else {
            Map::<Seq<char>, nat>::empty()
        });
    }
    if line.len() >= 2 {
        tally_into(&mut unigrams, line);
    }
    mark_into(&mut articles, line);
    tally_into(&mut bigrams, &pairs_of_line);
    (unigrams, articles, bigrams)
}

/// The counts of one shard: of each of its lines, the pairs of adjacent
/// tokens and the tokens are tallied, and the articles of each token counted.
/// There are no counts where one of them does not fit in 64 bits.
pub fn calculate_ngrams(lines: &Vec<String>, dict: &Vocabulary) -> (result: Option<NgramsResult>)
    requires
        dict.wf(),
    ensures
        result is Some <==> fits(shard_counts(line_views(lines@), dict@)),
        result matches Some(r) ==> r.wf() && r@ == shard_counts(line_views(lines@), dict@),
{
    let ghost all = shard_tokens(line_views(lines@), dict@);
    let mut total_unigrams: u64 = 0;
    let mut unigrams: Accumulator<Token> = Accumulator::new();
    let mut articles: Accumulator<Token> = Accumulator::new();
    let mut bigrams: Accumulator<Bigram> = Accumulator::new();
    let mut i: usize = 0;
    proof {
        assert(all.take(0) =~= Seq::empty());
    }
    while i < lines.len()
        invariant
            dict.wf(),
            i <= lines.len(),
            all == shard_tokens(line_views(lines@), dict@),
            all.len() == lines.len(),
            unigrams.wf(),
            articles.wf(),
            bigrams.wf(),
            total_unigrams == corpus_counts(all.take(i as int)).total_unigrams,
            unigrams.total() == corpus_counts(all.take(i as int)).unigram_counts,
            articles.total() == corpus_counts(all.take(i as int)).unigram_article_counts,
            bigrams.total() == corpus_counts(all.take(i as int)).bigram_counts,
        decreases lines.len() - i,
    {
        let line_tokens = tokenize(lines[i].as_str(), dict);
        proof {
            assert(line_views(lines@)[i as int] == lines@[i as int]@);
            assert(all[i as int] == word_views(line_tokens@));
            assert(all.take(i as int + 1).drop_last() =~= all.take(i as int));
            assert(all.take(i as int + 1).last() == all[i as int]);
            law_counts_grow(all, i as int + 1);
            if fits(corpus_counts(all)) {
                lemma_smaller_fits(corpus_counts(all.take(i as int + 1)), corpus_counts(all));
            }
        }
        let tallied_now: u64 = if line_tokens.len() >= 2 {
            line_tokens.len() as u64
        } else {
            0
        };
        total_unigrams = match total_unigrams.checked_add(tallied_now) {
            Some(total) => total,
            None => {
                return None;
            },
        };
        let (line_unigrams, line_articles, line_bigrams) = line_tables(&line_tokens);
        if !unigrams.absorb(line_unigrams) {
            return None;
        }
        if !articles.absorb(line_articles) {
            return None;
        }
        if !bigrams.absorb(line_bigrams) {
            return None;
        }
        i += 1;
    }
    proof {
        assert(all.take(lines.len() as int) == all);
    }
    match (unigrams.finish(), articles.finish(), bigrams.finish()) {
        (Some(unigram_counts), Some(unigram_article_counts), Some(bigram_counts)) => {
            let result = NgramsResult {
                total_unigrams,
                unigram_counts,
                unigram_article_counts,
                bigram_counts,
            };
            proof {
                result.lemma_fits();
            }
            Some(result)
        },
        _ => None,
    }
}

/// The merged counts of the first parts are no more than those of all parts.
pub proof fn lemma_merge_all_grows(parts: Seq<Counts>, n: int)
    requires
        0 <= n <= parts.len(),
    ensures
        no_more_than(merge_all(parts.take(n)), merge_all(parts)),
    decreases parts.len(),
{
    if n == parts.len() {
        assert(parts.take(n) =~= parts);
        law_merge_grows(merge_all(parts), no_counts());
        crate::ngrams::law_merge_nothing(merge_all(parts));
    } else {
        assert(parts.drop_last().take(n) =~= parts.take(n));
        lemma_merge_all_grows(parts.drop_last(), n);
        law_merge_grows(merge_all(parts.drop_last()), parts.last());
        lemma_no_more_than_transitive(
            merge_all(parts.take(n)),
            merge_all(parts.drop_last()),
            merge_all(parts),
        );
    }
}

impl NgramsResult {
    /// The sum of two results: of the totals, and of the counts key by key.
    /// There is none where a sum does not fit in 64 bits.
    pub fn merge(&self, other: &NgramsResult) -> (merged: Option<NgramsResult>)
        requires
            self.wf(),
            other.wf(),
        ensures
            merged is Some <==> fits(merge_counts(self@, other@)),
            merged matches Some(r) ==> r.wf() && r@ == merge_counts(self@, other@),
    {
        let total = self.total_unigrams.checked_add(other.total_unigrams);
        let unigrams = self.unigram_counts.merge(&other.unigram_counts);
        let articles = self.unigram_article_counts.merge(&other.unigram_article_counts);
        let bigrams = self.bigram_counts.merge(&other.bigram_counts);
        match (total, unigrams, articles, bigrams) {
            (
                Some(total_unigrams),
                Some(unigram_counts),
                Some(unigram_article_counts),
                Some(bigram_counts),
            ) => Some(
                NgramsResult {
                    total_unigrams,
                    unigram_counts,
                    unigram_article_counts,
                    bigram_counts,
                },
            ),
            _ => None,
        }
    }
}

/// Folds the partial results of the shards into the result for the corpus,
/// by adding them up key by key. The order of the parts does not matter.
/// There is no result where a sum does not fit in 64 bits.
pub fn merge_ngrams_results(results: &Vec<NgramsResult>) -> (merged: Option<NgramsResult>)
    requires
        forall|i: int| 0 <= i < results.len() ==> (#[trigger] results[i]).wf(),
    ensures
        merged is Some <==> fits(merge_all(result_views(results@))),
        merged matches Some(r) ==> r.wf() && r@ == merge_all(result_views(results@)),
{
    let ghost parts = result_views(results@);
    let mut merged = NgramsResult::new();
    let mut i: usize = 0;
    proof {
        assert(parts.take(0) =~= Seq::empty());
    }
    while i < results.len()
        invariant
            i <= results.len(),
            parts == result_views(results@),
            forall|j: int| 0 <= j < results.len() ==> (#[trigger] results[j]).wf(),
            merged.wf(),
            merged@ == merge_all(parts.take(i as int)),
        decreases results.len() - i,
    {
        proof {
            assert(parts[i as int] == results@[i as int]@);
            assert(parts.take(i as int + 1).drop_last() =~= parts.take(i as int));
            assert(parts.take(i as int + 1).last() == parts[i as int]);
        }
        match merged.merge(&results[i]) {
            Some(next) => {
                merged = next;
            },
            None => {
                proof {
                    lemma_merge_all_grows(parts, i as int + 1);
                    if fits(merge_all(parts)) {
                        lemma_smaller_fits(merge_all(parts.take(i as int + 1)), merge_all(parts));
                    }
                }
                return None;
            },
        }
        i += 1;
    }
    proof {
        assert(parts.take(results.len() as int) == parts);
        merged.lemma_fits();
    }
    Some(merged)
}

/// One shard of the corpus: the bytes of its file, and whether the file is
/// compressed.
pub struct Shard {
    pub content: Vec<u8>,
    pub compressed: bool,
}

/// Why there is no frequency file.
#[derive(Debug)]
pub enum FrequenciesError {
    /// There is no vocabulary.
    Dictionary(DictionaryError),
    /// A counter of the corpus does not fit in 64 bits.
    Overflow,
    /// The name of the output file holds a character of code zero.
    FileName,
    /// The encoder of the gzip file failed.
    Compression,
}

/// The lines of each shard of a corpus.
pub open spec fn shard_lines(shards: Seq<Shard>) -> Seq<Seq<Seq<char>>> {
    shards.map_values(|shard: Shard| lines_of(readable(shard.content@, shard.compressed)))
}

/// The text of the dictionary of a language.
pub open spec fn dictionary_text(code: Seq<char>, english: Seq<u8>, polish: Seq<u8>) -> Seq<u8> {
    if code == "en"@ {
        english
    } else {
        polish
    }
}

/// A text holds another: from some place on it reads as the other.
pub open spec fn contains_text(text: Seq<char>, part: Seq<char>) -> bool {
    exists|i: int|
        0 <= i && i + part.len() <= text.len() && #[trigger] text.subrange(i, i + part.len())
            == part
}

/// How many workers count the shards on a machine with `cpus` processors:
/// one processor is left to the thread that merges, and one worker at least runs.
pub open spec fn pool_size(cpus: nat) -> nat {
    if cpus >= 2 {
        (cpus - 1) as nat
    } else {
        1
    }
}

/// No part of a corpus has more than the whole.
pub proof fn lemma_part_within_merge(parts: Seq<Counts>, i: int)
    requires
        0 <= i < parts.len(),
    ensures
        no_more_than(parts[i], merge_all(parts)),
    decreases parts.len(),
{
    law_merge_grows(merge_all(parts.drop_last()), parts.last());
    if i < parts.len() - 1 {
        lemma_part_within_merge(parts.drop_last(), i);
        lemma_no_more_than_transitive(parts[i], merge_all(parts.drop_last()), merge_all(parts));
    }
}

/// The number of workers for a number of processors.
pub fn pool_size_for(cpus: usize) -> (workers: usize)
    ensures
        workers == pool_size(cpus as nat),
{
    if cpus >= 2 {
        cpus - 1
    } else {
        1
    }
}

/// The number of workers for this machine.
pub fn worker_pool_size() -> (workers: usize)
    ensures
        workers >= 1,
{
    pool_size_for(num_cpus::get())
}

/// Whether a file is a shard: the stem of its name holds `split`.
pub fn is_shard_stem(stem: &str) -> (r: bool)
    ensures
        r == contains_text(stem@, "split"@),
{
    let text = to_chars(stem);
    let part = to_chars("split");
    if text.len() < part.len() {
        return false;
    }
    let last: usize = text.len() - part.len();
    let mut i: usize = 0;
    while i <= last
        invariant
            text@ == stem@,
            part@ == "split"@,
            part.len() <= text.len(),
            last == text.len() - part.len(),
            i <= last + 1,
            forall|j: int| 0 <= j < i ==> #[trigger] text@.subrange(j, j + part.len()) != part@,
        decreases last + 1 - i,
    {
        let mut k: usize = 0;
        while k < part.len() && text[i + k] == part[k]
            invariant
                i <= last,
                last == text.len() - part.len(),
                k <= part.len(),
                forall|m: int| 0 <= m < k ==> text@[i + m] == part@[m],
            decreases part.len() - k,
        {
            k += 1;
        }
        if k == part.len() {
            proof {
                assert(text@.subrange(i as int, i + part.len()) =~= part@);
            }
            return true;
        }
        proof {
            assert(text@.subrange(i as int, i + part.len())[k as int] == text@[i + k]);
        }
        i += 1;
    }
    false
}

/// The frequency file of a corpus: the vocabulary is read from the
/// dictionary of the language, each shard is counted, the counts are merged,
/// and the table of the merged counts is compressed under the name of the
/// output file.
pub fn handle_create_frequencies(
    shards: &Vec<Shard>,
    output_file: &str,
    language_code: &str,
    english: &[u8],
    polish: &[u8],
) -> (file: Result<Vec<u8>, FrequenciesError>)
    ensures
        ({
            let dictionary = dictionary_text(language_code@, english@, polish@);
            let vocabulary = dictionary_words(lines_of(dictionary));
            let counts = merge_all(counts_of_shards(shard_lines(shards@), vocabulary));
            let text = vstd::utf8::encode_utf8(
                counts_text(counts, MINIMUM_ARTICLE_THRESHOLD as nat),
            );
            match file {
                Err(FrequenciesError::Dictionary(DictionaryError::UnsupportedLanguage(code))) => {
                    !is_supported_language(language_code@) && code@ == language_code@
                },
                Err(FrequenciesError::Dictionary(DictionaryError::InvalidText)) => {
                    is_supported_language(language_code@) && !all_lines_decode(dictionary)
                },
                Err(FrequenciesError::Overflow) => {
                    &&& is_supported_language(language_code@)
                    &&& all_lines_decode(dictionary)
                    &&& !fits(counts)
                },
                Err(FrequenciesError::FileName) => {
                    &&& is_supported_language(language_code@)
                    &&& all_lines_decode(dictionary)
                    &&& fits(counts)
                    &&& output_file@.contains('\0')
                },
                Err(FrequenciesError::Compression) => {
                    &&& is_supported_language(language_code@)
                    &&& all_lines_decode(dictionary)
                    &&& fits(counts)
                    &&& !output_file@.contains('\0')
                    &&& gzip_bytes(output_file@, text) is None
                },
                Ok(bytes) => {
                    &&& is_supported_language(language_code@)
                    &&& all_lines_decode(dictionary)
                    &&& fits(counts)
                    &&& !output_file@.contains('\0')
                    &&& gzip_bytes(output_file@, text) == Some(bytes@)
                    &&& gunzip_outcome(bytes@) == (text, true)
                },
            }
        }),
{
    let dict = match get_dictionary(language_code, english, polish) {
        Ok(dict) => dict,
        Err(error) => {
            return Err(FrequenciesError::Dictionary(error));
        },
    };
    let ghost all = counts_of_shards(shard_lines(shards@), dict@);
    let mut parts: Vec<NgramsResult> = Vec::new();
    let mut i: usize = 0;
    proof {
        assert(result_views(parts@) =~= all.take(0));
    }
    while i < shards.len()
        invariant
            dict.wf(),
            is_supported_language(language_code@),
            all_lines_decode(dictionary_text(language_code@, english@, polish@)),
            dict@ == dictionary_words(
                lines_of(dictionary_text(language_code@, english@, polish@)),
            ),
            i <= shards.len(),
            all == counts_of_shards(shard_lines(shards@), dict@),
            result_views(parts@) == all.take(i as int),
            forall|j: int| 0 <= j < parts.len() ==> (#[trigger] parts[j]).wf(),
        decreases shards.len() - i,
    {
        let lines = read_lines(slice_to_vec(shards[i].content.as_slice()), shards[i].compressed);
        proof {
            assert(shard_lines(shards@)[i as int] == lines_of(
                readable(shards@[i as int].content@, shards@[i as int].compressed),
            ));
        }
        match calculate_ngrams(&lines, &dict) {
            Some(part) => {
                proof {
                    assert(result_views(parts@.push(part)) =~= result_views(parts@).push(part@));
                    assert(all.take(i as int + 1) =~= all.take(i as int).push(all[i as int]));
                }
                parts.push(part);
            },
            None => {
                proof {
                    lemma_part_within_merge(all, i as int);
                    if fits(merge_all(all)) {
                        lemma_smaller_fits(all[i as int], merge_all(all));
                    }
                }
                return Err(FrequenciesError::Overflow);
            },
        }
        i += 1;
    }
    proof {
        assert(all.take(shards.len() as int) == all);
    }
    let merged = match merge_ngrams_results(&parts) {
        Some(merged) => merged,
        None => {
            return Err(FrequenciesError::Overflow);
        },
    };
    if has_nul(output_file) {
        return Err(FrequenciesError::FileName);
    }
    match merged.persist(output_file) {
        Some(bytes) => Ok(bytes),
        None => Err(FrequenciesError::Compression),
    }
}

} // verus!
