//! What is counted: the tokens of a line, the counts that one line gives, the
//! sum of two sets of counts, and the counts of a whole shard. Everything here
//! is mathematics; the code that computes it is in `create_frequencies`.

use vstd::prelude::*;
use crate::chars::{trimmed, words};
use crate::table::{count_in, fits_u64, sum_maps};
use crate::table::{lemma_sum_maps_associative, lemma_sum_maps_commutative, lemma_sum_maps_empty};

verus! {

/// The counts of a shard, or of a corpus: the model of an `NgramsResult`.
pub struct Counts {
    /// How many unigrams were tallied.
    pub total_unigrams: nat,
    /// For each token, how often it was tallied.
    pub unigram_counts: Map<Seq<char>, nat>,
    /// For each token, in how many articles it stands.
    pub unigram_article_counts: Map<Seq<char>, nat>,
    /// For each pair of adjacent tokens, how often it was tallied.
    pub bigram_counts: Map<(Seq<char>, Seq<char>), nat>,
}

/// The token that stands for every word outside the vocabulary: `<unk>`.
pub open spec fn oov() -> Seq<char> {
    seq!['<', 'u', 'n', 'k', '>']
}

/// The token for a word of a line: the trimmed word where the vocabulary has
/// it, the out-of-vocabulary token where it has not.
pub open spec fn normalize(word: Seq<char>, vocabulary: Set<Seq<char>>) -> Seq<char> {
    if vocabulary.contains(trimmed(word)) {
        trimmed(word)
    } else {
        oov()
    }
}

/// The tokens of a line, in the order of its words.
pub open spec fn tokens(line: Seq<char>, vocabulary: Set<Seq<char>>) -> Seq<Seq<char>> {
    words(line).map_values(|w: Seq<char>| normalize(w, vocabulary))
}

/// How often `x` occurs in `s`.
pub open spec fn occurrences<T>(s: Seq<T>, x: T) -> nat
    decreases s.len(),
{
    if s.len() == 0 {
        0
    } else {
        occurrences(s.drop_last(), x) + if s.last() == x {
            1nat
        } else {
            0nat
        }
    }
}

/// For each item of `s`, how often it occurs in `s`.
pub open spec fn tally<T>(s: Seq<T>) -> Map<T, nat> {
    Map::new(|x: T| s.contains(x), |x: T| occurrences(s, x))
}

/// One for each item of `s`, however often it occurs.
pub open spec fn presence<T>(s: Seq<T>) -> Map<T, nat> {
    Map::new(|x: T| s.contains(x), |x: T| 1nat)
}

/// The tokens of a line that are tallied as unigrams: all of them where the
/// line has two tokens or more, none where it has one.
pub open spec fn tallied(line: Seq<Seq<char>>) -> Seq<Seq<char>> {
    if line.len() >= 2 {
        line
    } else {
        Seq::empty()
    }
}

/// The pairs of adjacent tokens of a line.
pub open spec fn pairs(line: Seq<Seq<char>>) -> Seq<(Seq<char>, Seq<char>)> {
    if line.len() >= 2 {
        Seq::new((line.len() - 1) as nat, |i: int| (line[i], line[i + 1]))
    } else {
        Seq::empty()
    }
}

/// The counts that one line gives, from its tokens.
pub open spec fn line_counts(line: Seq<Seq<char>>) -> Counts {
    Counts {
        total_unigrams: tallied(line).len(),
        unigram_counts: tally(tallied(line)),
        unigram_article_counts: presence(line),
        bigram_counts: tally(pairs(line)),
    }
}

/// The counts of nothing.
pub open spec fn no_counts() -> Counts {
    Counts {
        total_unigrams: 0,
        unigram_counts: Map::empty(),
        unigram_article_counts: Map::empty(),
        bigram_counts: Map::empty(),
    }
}

/// The sum of two sets of counts: the totals are added, and so are the counts
/// of each key, where a key that one side lacks counts as zero.
pub open spec fn merge_counts(a: Counts, b: Counts) -> Counts {
    Counts {
        total_unigrams: a.total_unigrams + b.total_unigrams,
        unigram_counts: sum_maps(a.unigram_counts, b.unigram_counts),
        unigram_article_counts: sum_maps(a.unigram_article_counts, b.unigram_article_counts),
        bigram_counts: sum_maps(a.bigram_counts, b.bigram_counts),
    }
}

/// The sum of any number of sets of counts.
pub open spec fn merge_all(parts: Seq<Counts>) -> Counts
    decreases parts.len(),
{
    if parts.len() == 0 {
        no_counts()
    } else {
        merge_counts(merge_all(parts.drop_last()), parts.last())
    }
}

/// The counts of a sequence of lines, each given by its tokens.
pub open spec fn corpus_counts(lines: Seq<Seq<Seq<char>>>) -> Counts
    decreases lines.len(),
{
    if lines.len() == 0 {
        no_counts()
    } else {
        merge_counts(corpus_counts(lines.drop_last()), line_counts(lines.last()))
    }
}

/// The tokens of each line of a shard.
pub open spec fn shard_tokens(lines: Seq<Seq<char>>, vocabulary: Set<Seq<char>>) -> Seq<
    Seq<Seq<char>>,
> {
    lines.map_values(|line: Seq<char>| tokens(line, vocabulary))
}

/// The counts of a shard, from its lines and the vocabulary.
pub open spec fn shard_counts(lines: Seq<Seq<char>>, vocabulary: Set<Seq<char>>) -> Counts {
    corpus_counts(shard_tokens(lines, vocabulary))
}

/// All the lines of a sequence of shards, in order.
pub open spec fn all_lines(shards: Seq<Seq<Seq<char>>>) -> Seq<Seq<char>>
    decreases shards.len(),
{
    if shards.len() == 0 {
        Seq::empty()
    } else {
        all_lines(shards.drop_last()) + shards.last()
    }
}

/// The counts of each shard of a corpus.
pub open spec fn counts_of_shards(
    shards: Seq<Seq<Seq<char>>>,
    vocabulary: Set<Seq<char>>,
) -> Seq<Counts> {
    shards.map_values(|lines: Seq<Seq<char>>| shard_counts(lines, vocabulary))
}

/// Every counter fits in 64 bits.
pub open spec fn fits(c: Counts) -> bool {
    &&& c.total_unigrams <= u64::MAX
    &&& fits_u64(c.unigram_counts)
    &&& fits_u64(c.unigram_article_counts)
    &&& fits_u64(c.bigram_counts)
}

/// No counter of `a` is above the same counter of `b`, and `b` has the keys of `a`.
pub open spec fn no_more_than(a: Counts, b: Counts) -> bool {
    &&& a.total_unigrams <= b.total_unigrams
    &&& forall|k: Seq<char>|
        #![trigger a.unigram_counts.contains_key(k)]
        #![trigger count_in(a.unigram_counts, k)]
        (a.unigram_counts.contains_key(k) ==> b.unigram_counts.contains_key(k)) && count_in(
            a.unigram_counts,
            k,
        ) <= count_in(b.unigram_counts, k)
    &&& forall|k: Seq<char>|
        #![trigger a.unigram_article_counts.contains_key(k)]
        #![trigger count_in(a.unigram_article_counts, k)]
        (a.unigram_article_counts.contains_key(k) ==> b.unigram_article_counts.contains_key(k))
            && count_in(a.unigram_article_counts, k) <= count_in(b.unigram_article_counts, k)
    &&& forall|k: (Seq<char>, Seq<char>)|
        #![trigger a.bigram_counts.contains_key(k)]
        #![trigger count_in(a.bigram_counts, k)]
        (a.bigram_counts.contains_key(k) ==> b.bigram_counts.contains_key(k)) && count_in(
            a.bigram_counts,
            k,
        ) <= count_in(b.bigram_counts, k)
}

/// Merging is commutative: the sum of two sets of counts does not depend on
/// which of them comes first.
pub proof fn law_merge_commutative(a: Counts, b: Counts)
    ensures
        merge_counts(a, b) == merge_counts(b, a),
{
    lemma_sum_maps_commutative(a.unigram_counts, b.unigram_counts);
    lemma_sum_maps_commutative(a.unigram_article_counts, b.unigram_article_counts);
    lemma_sum_maps_commutative(a.bigram_counts, b.bigram_counts);
}

/// Merging is associative: the sum of three sets of counts does not depend on
/// which two of them are merged first.
pub proof fn law_merge_associative(a: Counts, b: Counts, c: Counts)
    ensures
        merge_counts(merge_counts(a, b), c) == merge_counts(a, merge_counts(b, c)),
{
    lemma_sum_maps_associative(a.unigram_counts, b.unigram_counts, c.unigram_counts);
    lemma_sum_maps_associative(
        a.unigram_article_counts,
        b.unigram_article_counts,
        c.unigram_article_counts,
    );
    lemma_sum_maps_associative(a.bigram_counts, b.bigram_counts, c.bigram_counts);
}

/// Merging with the counts of nothing changes nothing.
pub proof fn law_merge_nothing(a: Counts)
    ensures
        merge_counts(a, no_counts()) == a,
        merge_counts(no_counts(), a) == a,
{
    lemma_sum_maps_empty(a.unigram_counts);
    lemma_sum_maps_empty(a.unigram_article_counts);
    lemma_sum_maps_empty(a.bigram_counts);
}

/// Counts only grow: what a merge gives is no less than either of its parts.
pub proof fn law_merge_grows(a: Counts, b: Counts)
    ensures
        no_more_than(a, merge_counts(a, b)),
        no_more_than(b, merge_counts(a, b)),
{
}

/// `no_more_than` is transitive.
pub proof fn lemma_no_more_than_transitive(a: Counts, b: Counts, c: Counts)
    requires
        no_more_than(a, b),
        no_more_than(b, c),
    ensures
        no_more_than(a, c),
{
    assert forall|k: Seq<char>|
        (a.unigram_counts.contains_key(k) ==> c.unigram_counts.contains_key(k)) && count_in(
            a.unigram_counts,
            k,
        ) <= count_in(c.unigram_counts, k) by {
        assert(count_in(a.unigram_counts, k) <= count_in(b.unigram_counts, k));
        assert(count_in(b.unigram_counts, k) <= count_in(c.unigram_counts, k));
    }
    assert forall|k: Seq<char>|
        (a.unigram_article_counts.contains_key(k) ==> c.unigram_article_counts.contains_key(k))
            && count_in(a.unigram_article_counts, k) <= count_in(
            c.unigram_article_counts,
            k,
        ) by {
        assert(count_in(a.unigram_article_counts, k) <= count_in(b.unigram_article_counts, k));
        assert(count_in(b.unigram_article_counts, k) <= count_in(c.unigram_article_counts, k));
    }
    assert forall|k: (Seq<char>, Seq<char>)|
        (a.bigram_counts.contains_key(k) ==> c.bigram_counts.contains_key(k)) && count_in(
            a.bigram_counts,
            k,
        ) <= count_in(c.bigram_counts, k) by {
        assert(count_in(a.bigram_counts, k) <= count_in(b.bigram_counts, k));
        assert(count_in(b.bigram_counts, k) <= count_in(c.bigram_counts, k));
    }
}

/// Counts that are no more than counts that fit in 64 bits fit too.
pub proof fn lemma_smaller_fits(a: Counts, b: Counts)
    requires
        no_more_than(a, b),
        fits(b),
    ensures
        fits(a),
{
    assert forall|k: Seq<char>| a.unigram_counts.contains_key(k) implies #[trigger] a.unigram_counts[k]
        <= u64::MAX by {
        assert(count_in(a.unigram_counts, k) <= count_in(b.unigram_counts, k));
    }
    assert forall|k: Seq<char>|
        a.unigram_article_counts.contains_key(k) implies #[trigger] a.unigram_article_counts[k]
        <= u64::MAX by {
        assert(count_in(a.unigram_article_counts, k) <= count_in(b.unigram_article_counts, k));
    }
    assert forall|k: (Seq<char>, Seq<char>)|
        a.bigram_counts.contains_key(k) implies #[trigger] a.bigram_counts[k] <= u64::MAX by {
        assert(count_in(a.bigram_counts, k) <= count_in(b.bigram_counts, k));
    }
}

/// The counts of two runs of lines, one after the other, are the sum of the
/// counts of each.
pub proof fn law_corpus_counts_split(a: Seq<Seq<Seq<char>>>, b: Seq<Seq<Seq<char>>>)
    ensures
        corpus_counts(a + b) == merge_counts(corpus_counts(a), corpus_counts(b)),
    decreases b.len(),
{
    if b.len() == 0 {
        assert(a + b =~= a);
        law_merge_nothing(corpus_counts(a));
    } else {
        assert((a + b).drop_last() =~= a + b.drop_last());
        assert((a + b).last() == b.last());
        law_corpus_counts_split(a, b.drop_last());
        law_merge_associative(
            corpus_counts(a),
            corpus_counts(b.drop_last()),
            line_counts(b.last()),
        );
    }
}

/// Folding more lines in never lowers a count: the counts of the first `n`
/// lines are no more than the counts of all of them.
pub proof fn law_counts_grow(lines: Seq<Seq<Seq<char>>>, n: int)
    requires
        0 <= n <= lines.len(),
    ensures
        no_more_than(corpus_counts(lines.take(n)), corpus_counts(lines)),
{
    assert(lines =~= lines.take(n) + lines.skip(n));
    law_corpus_counts_split(lines.take(n), lines.skip(n));
    law_merge_grows(corpus_counts(lines.take(n)), corpus_counts(lines.skip(n)));
}

/// Shard invariance, for two shards: counting two shards and merging gives
/// what counting their lines as one shard gives.
pub proof fn law_two_shards(a: Seq<Seq<char>>, b: Seq<Seq<char>>, vocabulary: Set<Seq<char>>)
    ensures
        shard_counts(a + b, vocabulary) == merge_counts(
            shard_counts(a, vocabulary),
            shard_counts(b, vocabulary),
        ),
{
    assert(shard_tokens(a + b, vocabulary) =~= shard_tokens(a, vocabulary) + shard_tokens(
        b,
        vocabulary,
    ));
    law_corpus_counts_split(shard_tokens(a, vocabulary), shard_tokens(b, vocabulary));
}

/// Shard invariance: however the lines of a corpus are cut into shards, and
/// into however many, merging the counts of the shards gives what counting
/// all the lines as one shard gives. No pair of tokens is counted across two
/// lines, so the bigram counts agree as the others do.
pub proof fn law_shard_invariance(shards: Seq<Seq<Seq<char>>>, vocabulary: Set<Seq<char>>)
    ensures
        merge_all(counts_of_shards(shards, vocabulary)) == shard_counts(
            all_lines(shards),
            vocabulary,
        ),
    decreases shards.len(),
{
    let parts = counts_of_shards(shards, vocabulary);
    if shards.len() == 0 {
        assert(shard_tokens(all_lines(shards), vocabulary) =~= Seq::empty());
    } else {
        law_shard_invariance(shards.drop_last(), vocabulary);
        assert(parts.drop_last() =~= counts_of_shards(shards.drop_last(), vocabulary));
        law_two_shards(all_lines(shards.drop_last()), shards.last(), vocabulary);
    }
}

/// The counts of a corpus do not depend on the order of its articles: two
/// sequences of lines that hold the same lines, each as often as the other,
/// have the same counts.
pub proof fn law_article_order(a: Seq<Seq<Seq<char>>>, b: Seq<Seq<Seq<char>>>)
    requires
        a.to_multiset() == b.to_multiset(),
    ensures
        corpus_counts(a) == corpus_counts(b),
    decreases a.len(),
{
    a.to_multiset_ensures();
    b.to_multiset_ensures();
    if a.len() == 0 {
        assert(b.len() == 0);
        assert(a =~= b);
    } else {
        let line = a.last();
        assert(a.contains(line)) by {
            assert(a[a.len() - 1] == line);
        }
        assert(a.to_multiset().count(line) > 0);
        assert(b.to_multiset().count(line) > 0);
        assert(b.contains(line));
        let j = choose|j: int| 0 <= j < b.len() && b[j] == line;
        let rest = b.remove(j);
        assert(a.drop_last() =~= a.remove(a.len() - 1));
        assert(a.remove(a.len() - 1).to_multiset() =~= a.to_multiset().remove(line));
        assert(b.remove(j).to_multiset() =~= b.to_multiset().remove(line));
        law_article_order(a.drop_last(), rest);
        let front = b.take(j);
        let back = b.skip(j + 1);
        assert(rest =~= front + back);
        assert(b =~= (front + seq![line]) + back);
        assert((front + seq![line]).drop_last() =~= front);
        law_corpus_counts_split(front, back);
        law_corpus_counts_split(front + seq![line], back);
        law_merge_associative(corpus_counts(front), line_counts(line), corpus_counts(back));
        law_merge_commutative(line_counts(line), corpus_counts(back));
        law_merge_associative(corpus_counts(front), corpus_counts(back), line_counts(line));
    }
}

/// Shard invariance, whatever the order: two ways of dealing the same articles
/// out to shards, into however many and in whatever order, give the same
/// merged counts.
pub proof fn law_shards_of_the_same_articles(
    first: Seq<Seq<Seq<char>>>,
    second: Seq<Seq<Seq<char>>>,
    vocabulary: Set<Seq<char>>,
)
    requires
        all_lines(first).to_multiset() == all_lines(second).to_multiset(),
    ensures
        merge_all(counts_of_shards(first, vocabulary)) == merge_all(
            counts_of_shards(second, vocabulary),
        ),
{
    law_shard_invariance(first, vocabulary);
    law_shard_invariance(second, vocabulary);
    lemma_tokens_of_the_same_lines(all_lines(first), all_lines(second), vocabulary);
    law_article_order(
        shard_tokens(all_lines(first), vocabulary),
        shard_tokens(all_lines(second), vocabulary),
    );
}

/// The same lines give the same lines of tokens.
pub proof fn lemma_tokens_of_the_same_lines(
    a: Seq<Seq<char>>,
    b: Seq<Seq<char>>,
    vocabulary: Set<Seq<char>>,
)
    requires
        a.to_multiset() == b.to_multiset(),
    ensures
        shard_tokens(a, vocabulary).to_multiset() == shard_tokens(b, vocabulary).to_multiset(),
    decreases a.len(),
{
    a.to_multiset_ensures();
    b.to_multiset_ensures();
    if a.len() == 0 {
        assert(b.len() == 0);
        assert(shard_tokens(a, vocabulary) =~= shard_tokens(b, vocabulary));
    } else {
        let line = a.last();
        assert(a.contains(line)) by {
            assert(a[a.len() - 1] == line);
        }
        assert(a.to_multiset().count(line) > 0);
        assert(b.to_multiset().count(line) > 0);
        assert(b.contains(line));
        let j = choose|j: int| 0 <= j < b.len() && b[j] == line;
        let rest = b.remove(j);
        assert(a.drop_last() =~= a.remove(a.len() - 1));
        assert(a.remove(a.len() - 1).to_multiset() =~= a.to_multiset().remove(line));
        assert(b.remove(j).to_multiset() =~= b.to_multiset().remove(line));
        lemma_tokens_of_the_same_lines(a.drop_last(), rest, vocabulary);
        let ta = shard_tokens(a, vocabulary);
        let tb = shard_tokens(b, vocabulary);
        let last = ta.len() - 1;
        ta.to_multiset_ensures();
        tb.to_multiset_ensures();
        assert(ta.remove(last) =~= shard_tokens(a.drop_last(), vocabulary));
        assert(tb.remove(j) =~= shard_tokens(rest, vocabulary)) by {
            assert(tb.remove(j).len() == rest.len());
            assert forall|i: int| 0 <= i < rest.len() implies tb.remove(j)[i] == shard_tokens(
                rest,
                vocabulary,
            )[i] by {
                if i < j {
                    assert(rest[i] == b[i]);
                } else {
                    assert(rest[i] == b[i + 1]);
                }
            }
        }
        assert(ta[last] == tb[j]);
        assert(ta.remove(last).to_multiset() =~= ta.to_multiset().remove(ta[last]));
        assert(tb.remove(j).to_multiset() =~= tb.to_multiset().remove(tb[j]));
        assert(ta.to_multiset().count(ta[last]) > 0) by {
            assert(ta.contains(ta[last]));
        }
        assert(tb.to_multiset().count(tb[j]) > 0) by {
            assert(tb.contains(tb[j]));
        }
        assert(ta.to_multiset() =~= ta.to_multiset().remove(ta[last]).insert(ta[last]));
        assert(tb.to_multiset() =~= tb.to_multiset().remove(tb[j]).insert(tb[j]));
    }
}

/// The order in which partial results arrive does not matter: exchanging two
/// neighbours among the parts leaves the merged counts as they were.
pub proof fn law_merge_order(parts: Seq<Counts>, i: int)
    requires
        0 <= i,
        i + 1 < parts.len(),
    ensures
        merge_all(parts.update(i, parts[i + 1]).update(i + 1, parts[i])) == merge_all(parts),
    decreases parts.len(),
{
    let swapped = parts.update(i, parts[i + 1]).update(i + 1, parts[i]);
    if i + 2 == parts.len() {
        let rest = parts.drop_last().drop_last();
        assert(swapped.drop_last().drop_last() =~= rest);
        assert(swapped.last() == parts[i]);
        assert(swapped.drop_last().last() == parts[i + 1]);
        assert(parts.last() == parts[i + 1]);
        assert(parts.drop_last().last() == parts[i]);
        assert(merge_all(swapped.drop_last()) == merge_counts(merge_all(rest), parts[i + 1]));
        assert(merge_all(parts.drop_last()) == merge_counts(merge_all(rest), parts[i]));
        assert(merge_all(swapped) == merge_counts(merge_all(swapped.drop_last()), parts[i]));
        assert(merge_all(parts) == merge_counts(merge_all(parts.drop_last()), parts[i + 1]));
        law_merge_associative(merge_all(rest), parts[i], parts[i + 1]);
        law_merge_associative(merge_all(rest), parts[i + 1], parts[i]);
        law_merge_commutative(parts[i], parts[i + 1]);
    } else {
        law_merge_order(parts.drop_last(), i);
        assert(swapped.drop_last() =~= parts.drop_last().update(
            i,
            parts.drop_last()[i + 1],
        ).update(i + 1, parts.drop_last()[i]));
        assert(swapped.last() == parts.last());
    }
}

/// Every token is a word of the vocabulary or the out-of-vocabulary token, and
/// a word that the vocabulary lacks is recorded as that token, never as
/// itself.
pub proof fn law_out_of_vocabulary(line: Seq<char>, vocabulary: Set<Seq<char>>, i: int)
    requires
        0 <= i < words(line).len(),
    ensures
        tokens(line, vocabulary).len() == words(line).len(),
        vocabulary.contains(tokens(line, vocabulary)[i]) || tokens(line, vocabulary)[i] == oov(),
        !vocabulary.contains(trimmed(words(line)[i])) ==> tokens(line, vocabulary)[i] == oov(),
        vocabulary.contains(trimmed(words(line)[i])) ==> tokens(line, vocabulary)[i] == trimmed(
            words(line)[i],
        ),
{
}

/// No key of the counts of some lines is anything but a token of the lines.
pub proof fn lemma_counted_keys(lines: Seq<Seq<Seq<char>>>)
    ensures
        forall|k: Seq<char>| #[trigger]
            corpus_counts(lines).unigram_counts.contains_key(k) ==> exists|i: int|
                0 <= i < lines.len() && (#[trigger] lines[i]).contains(k),
        forall|k: Seq<char>| #[trigger]
            corpus_counts(lines).unigram_article_counts.contains_key(k) ==> exists|i: int|
                0 <= i < lines.len() && (#[trigger] lines[i]).contains(k),
        forall|k: (Seq<char>, Seq<char>)| #[trigger]
            corpus_counts(lines).bigram_counts.contains_key(k) ==> exists|i: int|
                0 <= i < lines.len() && (#[trigger] lines[i]).contains(k.0) && lines[i].contains(
                    k.1,
                ),
    decreases lines.len(),
{
    if lines.len() > 0 {
        let rest = lines.drop_last();
        let line = lines.last();
        lemma_counted_keys(rest);
        assert forall|k: Seq<char>| #[trigger]
            corpus_counts(lines).unigram_counts.contains_key(k) implies exists|i: int|
            0 <= i < lines.len() && (#[trigger] lines[i]).contains(k) by {
            if corpus_counts(rest).unigram_counts.contains_key(k) {
                let i = choose|i: int| 0 <= i < rest.len() && (#[trigger] rest[i]).contains(k);
                assert(lines[i] == rest[i]);
            } else {
                assert(lines[lines.len() - 1].contains(k));
            }
        }
        assert forall|k: Seq<char>| #[trigger]
            corpus_counts(lines).unigram_article_counts.contains_key(k) implies exists|i: int|
            0 <= i < lines.len() && (#[trigger] lines[i]).contains(k) by {
            if corpus_counts(rest).unigram_article_counts.contains_key(k) {
                let i = choose|i: int| 0 <= i < rest.len() && (#[trigger] rest[i]).contains(k);
                assert(lines[i] == rest[i]);
            } else {
                assert(lines[lines.len() - 1].contains(k));
            }
        }
        assert forall|k: (Seq<char>, Seq<char>)| #[trigger]
            corpus_counts(lines).bigram_counts.contains_key(k) implies exists|i: int|
            0 <= i < lines.len() && (#[trigger] lines[i]).contains(k.0) && lines[i].contains(
                k.1,
            ) by {
            if corpus_counts(rest).bigram_counts.contains_key(k) {
                let i = choose|i: int|
                    0 <= i < rest.len() && (#[trigger] rest[i]).contains(k.0) && rest[i].contains(
                        k.1,
                    );
                assert(lines[i] == rest[i]);
            } else {
                assert(pairs(line).contains(k));
                let j = choose|j: int| 0 <= j < pairs(line).len() && pairs(line)[j] == k;
                assert(line[j] == k.0);
                assert(line[j + 1] == k.1);
                assert(lines[lines.len() - 1].contains(k.0));
            }
        }
    }
}

/// No table of a shard holds anything but words of the vocabulary and the
/// out-of-vocabulary token: a word that the vocabulary lacks is never
/// recorded under its own spelling.
pub proof fn law_counted_tokens_are_known(lines: Seq<Seq<char>>, vocabulary: Set<Seq<char>>)
    ensures
        forall|k: Seq<char>| #[trigger]
            shard_counts(lines, vocabulary).unigram_counts.contains_key(k)
                ==> vocabulary.contains(k) || k == oov(),
        forall|k: Seq<char>| #[trigger]
            shard_counts(lines, vocabulary).unigram_article_counts.contains_key(k)
                ==> vocabulary.contains(k) || k == oov(),
        forall|k: (Seq<char>, Seq<char>)| #[trigger]
            shard_counts(lines, vocabulary).bigram_counts.contains_key(k) ==> (vocabulary.contains(
                k.0,
            ) || k.0 == oov()) && (vocabulary.contains(k.1) || k.1 == oov()),
{
    let all = shard_tokens(lines, vocabulary);
    lemma_counted_keys(all);
    assert forall|i: int, k: Seq<char>| 0 <= i < all.len() && #[trigger] all[i].contains(
        k,
    ) implies vocabulary.contains(k) || k == oov() by {
        let j = choose|j: int| 0 <= j < all[i].len() && all[i][j] == k;
        law_out_of_vocabulary(lines[i], vocabulary, j);
    }
}

/// How often something occurs in a sequence is at most the length.
pub proof fn lemma_occurrences_bounds<T>(s: Seq<T>, x: T)
    ensures
        occurrences(s, x) <= s.len(),
        s.contains(x) <==> occurrences(s, x) > 0,
    decreases s.len(),
{
    if s.len() > 0 {
        lemma_occurrences_bounds(s.drop_last(), x);
        if s.drop_last().contains(x) {
            let j = choose|j: int| 0 <= j < s.drop_last().len() && s.drop_last()[j] == x;
            assert(s[j] == x);
        }
        if s.contains(x) && s.last() != x {
            let j = choose|j: int| 0 <= j < s.len() && s[j] == x;
            assert(s.drop_last()[j] == x);
        }
    }
}

/// One more item raises its own count by one.
pub proof fn lemma_tally_push<T>(s: Seq<T>, x: T)
    ensures
        tally(s.push(x)) == tally(s).insert(x, count_in(tally(s), x) + 1),
        presence(s.push(x)) == presence(s).insert(x, 1),
{
    let t = s.push(x);
    assert(t.drop_last() =~= s);
    assert(t.last() == x);
    lemma_occurrences_bounds(s, x);
    assert forall|y: T| t.contains(y) <==> (s.contains(y) || y == x) by {
        if s.contains(y) {
            let j = choose|j: int| 0 <= j < s.len() && s[j] == y;
            assert(t[j] == y);
        }
        if t.contains(y) {
            let j = choose|j: int| 0 <= j < t.len() && t[j] == y;
            if j < s.len() {
                assert(s[j] == y);
            }
        }
        assert(t[s.len() as int] == x);
    }
    assert(tally(t) =~= tally(s).insert(x, count_in(tally(s), x) + 1));
    assert(presence(t) =~= presence(s).insert(x, 1));
}

/// Article counts do not repeat: a token that stands in a line counts once
/// for the line, however often it stands there, while every one of its
/// occurrences is tallied where the line has two tokens or more.
pub proof fn law_article_count_once(line: Seq<Seq<char>>, token: Seq<char>)
    requires
        line.contains(token),
    ensures
        line_counts(line).unigram_article_counts[token] == 1,
        line.len() >= 2 ==> line_counts(line).unigram_counts[token] == occurrences(line, token),
        line.len() >= 2 ==> line_counts(line).total_unigrams == line.len(),
{
}

/// A line of one token tallies no unigram and no bigram, and counts as one
/// article for its token.
pub proof fn law_single_token_line(line: Seq<Seq<char>>)
    requires
        line.len() == 1,
    ensures
        line_counts(line).total_unigrams == 0,
        line_counts(line).unigram_counts == Map::<Seq<char>, nat>::empty(),
        line_counts(line).bigram_counts == Map::<(Seq<char>, Seq<char>), nat>::empty(),
        line_counts(line).unigram_article_counts == Map::<Seq<char>, nat>::empty().insert(
            line[0],
            1,
        ),
{
    assert(tally(tallied(line)) =~= Map::<Seq<char>, nat>::empty());
    assert(tally(pairs(line)) =~= Map::<(Seq<char>, Seq<char>), nat>::empty());
    assert(line.contains(line[0]));
    assert(presence(line) =~= Map::<Seq<char>, nat>::empty().insert(line[0], 1));
}

/// A line without tokens counts nothing.
pub proof fn law_empty_line(line: Seq<Seq<char>>)
    requires
        line.len() == 0,
    ensures
        line_counts(line) == no_counts(),
{
    assert(tally(tallied(line)) =~= Map::<Seq<char>, nat>::empty());
    assert(tally(pairs(line)) =~= Map::<(Seq<char>, Seq<char>), nat>::empty());
    assert(presence(line) =~= Map::<Seq<char>, nat>::empty());
}

/// Where no line has exactly one token, no token has more articles than
/// occurrences.
pub proof fn law_articles_within_occurrences(lines: Seq<Seq<Seq<char>>>, token: Seq<char>)
    requires
        forall|i: int| 0 <= i < lines.len() ==> (#[trigger] lines[i]).len() != 1,
    ensures
        count_in(corpus_counts(lines).unigram_article_counts, token) <= count_in(
            corpus_counts(lines).unigram_counts,
            token,
        ),
    decreases lines.len(),
{
    if lines.len() > 0 {
        let line = lines.last();
        assert forall|i: int| 0 <= i < lines.drop_last().len() implies (
        #[trigger] lines.drop_last()[i]).len() != 1 by {
            assert(lines.drop_last()[i] == lines[i]);
        }
        law_articles_within_occurrences(lines.drop_last(), token);
        lemma_occurrences_bounds(line, token);
        if line.len() == 0 {
            law_empty_line(line);
        }
    }
}

} // verus!
