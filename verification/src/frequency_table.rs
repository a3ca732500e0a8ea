//! The frequency table: the text that is written for a result, with the rows
//! of the tokens that stand in enough articles, and its gzip file.

use vstd::prelude::*;
use crate::chars::{decimal, push_chars, push_decimal, push_str, to_chars};
use crate::create_frequencies::NgramsResult;
use crate::ngrams::{
    all_lines, counts_of_shards, law_shards_of_the_same_articles, merge_all, Counts,
};
use crate::order::Token;
use crate::outside::{gunzip_outcome, gzip_bytes, gzip_encode, string_push};
use crate::table::{entries_of, lemma_entries_of, Table};

verus! {

/// A token must stand in more articles than this for its rows to be written.
pub const MINIMUM_ARTICLE_THRESHOLD: u64 = 40;

/// Whether the rows of a token are written: its article count is above the
/// threshold. A token without an article count passes whatever the threshold.
pub open spec fn passes(articles: Map<Seq<char>, nat>, token: Seq<char>, threshold: nat) -> bool {
    !articles.contains_key(token) || articles[token] > threshold
}

/// The unigram entries whose token passes, in the order of the entries.
pub open spec fn unigram_rows(
    entries: Seq<(Seq<char>, nat)>,
    articles: Map<Seq<char>, nat>,
    threshold: nat,
) -> Seq<(Seq<char>, nat)>
    decreases entries.len(),
{
    if entries.len() == 0 {
        Seq::empty()
    } else if passes(articles, entries.last().0, threshold) {
        unigram_rows(entries.drop_last(), articles, threshold).push(entries.last())
    } else {
        unigram_rows(entries.drop_last(), articles, threshold)
    }
}

/// The bigram entries of which both tokens pass, in the order of the entries.
pub open spec fn bigram_rows(
    entries: Seq<((Seq<char>, Seq<char>), nat)>,
    articles: Map<Seq<char>, nat>,
    threshold: nat,
) -> Seq<((Seq<char>, Seq<char>), nat)>
    decreases entries.len(),
{
    if entries.len() == 0 {
        Seq::empty()
    } else if passes(articles, entries.last().0.0, threshold) && passes(
        articles,
        entries.last().0.1,
        threshold,
    ) {
        bigram_rows(entries.drop_last(), articles, threshold).push(entries.last())
    } else {
        bigram_rows(entries.drop_last(), articles, threshold)
    }
}

/// The line of a unigram: its count, a tab, the token.
pub open spec fn unigram_line(row: (Seq<char>, nat)) -> Seq<char> {
    decimal(row.1) + seq!['\t'] + row.0 + seq!['\n']
}

/// The line of a bigram: its count, a tab, the first token, a tab, the second.
pub open spec fn bigram_line(row: ((Seq<char>, Seq<char>), nat)) -> Seq<char> {
    decimal(row.1) + seq!['\t'] + row.0.0 + seq!['\t'] + row.0.1 + seq!['\n']
}

/// The lines of the unigram rows, one after the other.
pub open spec fn unigram_lines(rows: Seq<(Seq<char>, nat)>) -> Seq<char>
    decreases rows.len(),
{
    if rows.len() == 0 {
        Seq::empty()
    } else {
        unigram_lines(rows.drop_last()) + unigram_line(rows.last())
    }
}

/// The lines of the bigram rows, one after the other.
pub open spec fn bigram_lines(rows: Seq<((Seq<char>, Seq<char>), nat)>) -> Seq<char>
    decreases rows.len(),
{
    if rows.len() == 0 {
        Seq::empty()
    } else {
        bigram_lines(rows.drop_last()) + bigram_line(rows.last())
    }
}

/// The head of the table. The two `ngram` counts are the sizes of the tables,
/// whatever the threshold leaves of them.
pub open spec fn table_head(total: nat, unigrams: nat, bigrams: nat) -> Seq<char> {
    "\\data\\\n"@ + "total unigrams = "@ + decimal(total) + "\n"@ + "ngram 1 = "@ + decimal(
        unigrams,
    ) + "\n"@ + "ngram 2 = "@ + decimal(bigrams) + "\n"@ + "\n"@
}

/// The whole table as text.
pub open spec fn table_text(
    total: nat,
    unigrams: Seq<(Seq<char>, nat)>,
    articles: Map<Seq<char>, nat>,
    bigrams: Seq<((Seq<char>, Seq<char>), nat)>,
    threshold: nat,
) -> Seq<char> {
    table_head(total, unigrams.len(), bigrams.len()) + "\\1-grams:\n"@ + unigram_lines(
        unigram_rows(unigrams, articles, threshold),
    ) + "\n"@ + "\\2-grams:\n"@ + bigram_lines(bigram_rows(bigrams, articles, threshold)) + "\n"@
        + "\\end\\\n"@
}

/// The gzip file of a text under a name: there is none for a name with a
/// character of code zero, which the header of a gzip file cannot hold; for
/// any other name it is what the encoder makes of the text in UTF-8.
pub open spec fn text_file(name: Seq<char>, text: Seq<char>) -> Option<Seq<u8>> {
    if name.contains('\0') {
        None
    } else {
        gzip_bytes(name, vstd::utf8::encode_utf8(text))
    }
}

/// The frequency table of a set of counts: the rows are those of its maps,
/// in ascending order of the tokens and of the pairs.
pub open spec fn counts_text(counts: Counts, threshold: nat) -> Seq<char> {
    table_text(
        counts.total_unigrams,
        entries_of::<Vec<char>>(counts.unigram_counts),
        counts.unigram_article_counts,
        entries_of::<(Vec<char>, Vec<char>)>(counts.bigram_counts),
        threshold,
    )
}

/// The table does not depend on how the corpus was dealt out to shards: two
/// ways of dealing the same articles out, into however many shards and in
/// whatever order, give merged counts with the same table, character for
/// character.
pub proof fn law_sharding_does_not_change_the_table(
    first: Seq<Seq<Seq<char>>>,
    second: Seq<Seq<Seq<char>>>,
    vocabulary: Set<Seq<char>>,
    threshold: nat,
)
    requires
        all_lines(first).to_multiset() == all_lines(second).to_multiset(),
    ensures
        counts_text(merge_all(counts_of_shards(first, vocabulary)), threshold) == counts_text(
            merge_all(counts_of_shards(second, vocabulary)),
            threshold,
        ),
{
    law_shards_of_the_same_articles(first, second, vocabulary);
}

/// Threshold filtering of unigrams: a row is written for exactly the entries
/// whose token passes.
pub proof fn law_unigram_rows(
    entries: Seq<(Seq<char>, nat)>,
    articles: Map<Seq<char>, nat>,
    threshold: nat,
    row: (Seq<char>, nat),
)
    ensures
        unigram_rows(entries, articles, threshold).contains(row) <==> entries.contains(row)
            && passes(articles, row.0, threshold),
    decreases entries.len(),
{
    let rows = unigram_rows(entries, articles, threshold);
    if entries.len() > 0 {
        let rest = entries.drop_last();
        let rest_rows = unigram_rows(rest, articles, threshold);
        law_unigram_rows(rest, articles, threshold, row);
        if rows.contains(row) {
            let j = choose|j: int| 0 <= j < rows.len() && rows[j] == row;
            if j < rest_rows.len() {
                assert(rest_rows[j] == row);
                assert(rest_rows.contains(row));
                let m = choose|m: int| 0 <= m < rest.len() && rest[m] == row;
                assert(entries[m] == row);
            } else {
                assert(entries[entries.len() - 1] == row);
            }
        }
        if entries.contains(row) && passes(articles, row.0, threshold) {
            let m = choose|m: int| 0 <= m < entries.len() && entries[m] == row;
            if m < rest.len() {
                assert(rest[m] == row);
                assert(rest_rows.contains(row));
                let j = choose|j: int| 0 <= j < rest_rows.len() && rest_rows[j] == row;
                assert(rows[j] == row);
            } else {
                assert(rows[rows.len() - 1] == row);
            }
        }
    }
}

/// Joint filtering of bigrams: a row is written for exactly the entries of
/// which both tokens pass; where only one passes, there is no row.
pub proof fn law_bigram_rows(
    entries: Seq<((Seq<char>, Seq<char>), nat)>,
    articles: Map<Seq<char>, nat>,
    threshold: nat,
    row: ((Seq<char>, Seq<char>), nat),
)
    ensures
        bigram_rows(entries, articles, threshold).contains(row) <==> entries.contains(row)
            && passes(articles, row.0.0, threshold) && passes(articles, row.0.1, threshold),
    decreases entries.len(),
{
    let rows = bigram_rows(entries, articles, threshold);
    if entries.len() > 0 {
        let rest = entries.drop_last();
        let rest_rows = bigram_rows(rest, articles, threshold);
        law_bigram_rows(rest, articles, threshold, row);
        if rows.contains(row) {
            let j = choose|j: int| 0 <= j < rows.len() && rows[j] == row;
            if j < rest_rows.len() {
                assert(rest_rows[j] == row);
                assert(rest_rows.contains(row));
                let m = choose|m: int| 0 <= m < rest.len() && rest[m] == row;
                assert(entries[m] == row);
            } else {
                assert(entries[entries.len() - 1] == row);
            }
        }
        if entries.contains(row) && passes(articles, row.0.0, threshold) && passes(
            articles,
            row.0.1,
            threshold,
        ) {
            let m = choose|m: int| 0 <= m < entries.len() && entries[m] == row;
            if m < rest.len() {
                assert(rest[m] == row);
                assert(rest_rows.contains(row));
                let j = choose|j: int| 0 <= j < rest_rows.len() && rest_rows[j] == row;
                assert(rows[j] == row);
            } else {
                assert(rows[rows.len() - 1] == row);
            }
        }
    }
}

/// The characters of `chars` as a string.
pub fn to_string(chars: &Vec<char>) -> (text: String)
    ensures
        text@ == chars@,
{
    let mut text = String::new();
    let mut i: usize = 0;
    while i < chars.len()
        invariant
            i <= chars.len(),
            text@ == chars@.take(i as int),
        decreases chars.len() - i,
    {
        string_push(&mut text, chars[i]);
        proof {
            assert(chars@.take(i as int + 1) == chars@.take(i as int).push(chars@[i as int]));
        }
        i += 1;
    }
    proof {
        assert(chars@.take(chars.len() as int) == chars@);
    }
    text
}

/// Whether the rows of a token are written.
pub fn token_passes(articles: &Table<Token>, token: &Vec<char>, threshold: u64) -> (r: bool)
    requires
        articles.wf(),
    ensures
        r == passes(articles.map(), token@, threshold as nat),
{
    match articles.get(token) {
        Some(count) => count > threshold,
        None => true,
    }
}

/// Whether a text holds the character of code zero.
pub fn has_nul(text: &str) -> (r: bool)
    ensures
        r == text@.contains('\0'),
{
    let chars = to_chars(text);
    let mut i: usize = 0;
    while i < chars.len()
        invariant
            i <= chars.len(),
            chars@ == text@,
            forall|j: int| 0 <= j < i ==> chars@[j] != '\0',
        decreases chars.len() - i,
    {
        if chars[i] == '\0' {
            return true;
        }
        i += 1;
    }
    false
}

impl NgramsResult {
    /// The frequency table of this result, as text.
    pub open spec fn table_text(&self, threshold: nat) -> Seq<char> {
        table_text(
            self.total_unigrams as nat,
            self.unigram_counts@,
            self.unigram_article_counts.map(),
            self.bigram_counts@,
            threshold,
        )
    }

    /// The table depends on the counts alone: it is the table of the counts
    /// of the result, so that two results with the same counts give the same
    /// text, rows in the same order, however the counts were put together
    /// from shards.
    pub proof fn law_table_of_counts(&self, threshold: nat)
        requires
            self.wf(),
        ensures
            self.table_text(threshold) == counts_text(self@, threshold),
    {
        lemma_entries_of::<Vec<char>>(self.unigram_counts@);
        lemma_entries_of::<(Vec<char>, Vec<char>)>(self.bigram_counts@);
    }

    /// Writes the frequency table: the head, the unigrams whose token stands
    /// in more than `threshold` articles, and the bigrams of which both
    /// tokens do, each in ascending order.
    pub fn frequency_table(&self, threshold: u64) -> (text: String)
        requires
            self.wf(),
        ensures
            text@ == self.table_text(threshold as nat),
            text@ == counts_text(self@, threshold as nat),
    {
        proof {
            self.law_table_of_counts(threshold as nat);
        }
        let mut out: Vec<char> = Vec::new();
        push_str(&mut out, "\\data\\\n");
        push_str(&mut out, "total unigrams = ");
        push_decimal(&mut out, self.total_unigrams);
        push_str(&mut out, "\n");
        push_str(&mut out, "ngram 1 = ");
        push_decimal(&mut out, self.unigram_counts.len() as u64);
        push_str(&mut out, "\n");
        push_str(&mut out, "ngram 2 = ");
        push_decimal(&mut out, self.bigram_counts.len() as u64);
        push_str(&mut out, "\n");
        push_str(&mut out, "\n");
        push_str(&mut out, "\\1-grams:\n");
        let ghost articles = self.unigram_article_counts.map();
        let ghost limit = threshold as nat;
        let ghost head = out@;
        proof {
            assert(head =~= table_head(
                self.total_unigrams as nat,
                self.unigram_counts@.len(),
                self.bigram_counts@.len(),
            ) + "\\1-grams:\n"@);
            assert(self.unigram_counts@.take(0) =~= Seq::empty());
            assert(out@ =~= head + unigram_lines(
                unigram_rows(self.unigram_counts@.take(0), articles, limit),
            ));
        }
        let mut i: usize = 0;
        while i < self.unigram_counts.len()
            invariant
                self.wf(),
                i <= self.unigram_counts@.len(),
                articles == self.unigram_article_counts.map(),
                limit == threshold as nat,
                out@ == head + unigram_lines(
                    unigram_rows(self.unigram_counts@.take(i as int), articles, limit),
                ),
            decreases self.unigram_counts@.len() - i,
        {
            let token = self.unigram_counts.key_at(i);
            let count = self.unigram_counts.count_at(i);
            let ghost entries = self.unigram_counts@.take(i as int + 1);
            let ghost rows = unigram_rows(self.unigram_counts@.take(i as int), articles, limit);
            proof {
                assert(entries.drop_last() =~= self.unigram_counts@.take(i as int));
                assert(entries.last() == self.unigram_counts@[i as int]);
            }
            if token_passes(&self.unigram_article_counts, token, threshold) {
                let ghost before = out@;
                push_decimal(&mut out, count);
                out.push('\t');
                push_chars(&mut out, token);
                out.push('\n');
                proof {
                    let row = self.unigram_counts@[i as int];
                    assert(rows.push(row).drop_last() =~= rows);
                    assert(out@ =~= before + unigram_line(row));
                    assert(out@ =~= head + unigram_lines(rows.push(row)));
                }
            }
            i += 1;
        }
        proof {
            assert(self.unigram_counts@.take(i as int) == self.unigram_counts@);
        }
        push_str(&mut out, "\n");
        push_str(&mut out, "\\2-grams:\n");
        let ghost middle = out@;
        proof {
            assert(self.bigram_counts@.take(0) =~= Seq::empty());
            assert(out@ =~= middle + bigram_lines(
                bigram_rows(self.bigram_counts@.take(0), articles, limit),
            ));
        }
        let mut j: usize = 0;
        while j < self.bigram_counts.len()
            invariant
                self.wf(),
                j <= self.bigram_counts@.len(),
                articles == self.unigram_article_counts.map(),
                limit == threshold as nat,
                out@ == middle + bigram_lines(
                    bigram_rows(self.bigram_counts@.take(j as int), articles, limit),
                ),
            decreases self.bigram_counts@.len() - j,
        {
            let pair = self.bigram_counts.key_at(j);
            let count = self.bigram_counts.count_at(j);
            let ghost entries = self.bigram_counts@.take(j as int + 1);
            let ghost rows = bigram_rows(self.bigram_counts@.take(j as int), articles, limit);
            proof {
                assert(entries.drop_last() =~= self.bigram_counts@.take(j as int));
                assert(entries.last() == self.bigram_counts@[j as int]);
            }
            if token_passes(&self.unigram_article_counts, &pair.0, threshold) && token_passes(
                &self.unigram_article_counts,
                &pair.1,
                threshold,
            ) {
                let ghost before = out@;
                push_decimal(&mut out, count);
                out.push('\t');
                push_chars(&mut out, &pair.0);
                out.push('\t');
                push_chars(&mut out, &pair.1);
                out.push('\n');
                proof {
                    let row = self.bigram_counts@[j as int];
                    assert(rows.push(row).drop_last() =~= rows);
                    assert(out@ =~= before + bigram_line(row));
                    assert(out@ =~= middle + bigram_lines(rows.push(row)));
                }
            }
            j += 1;
        }
        proof {
            assert(self.bigram_counts@.take(j as int) == self.bigram_counts@);
        }
        push_str(&mut out, "\n");
        push_str(&mut out, "\\end\\\n");
        proof {
            assert(out@ =~= self.table_text(limit));
        }
        to_string(&out)
    }

    /// The gzip file of the frequency table, with `output_file` as the name
    /// in its header: the file of the text of the table under that name.
    /// There is none for a name with a character of code zero, nor where the
    /// encoder gives none. What comes back reads back, through gzip, as the
    /// table.
    pub fn compressed_table(&self, output_file: &str, threshold: u64) -> (file: Option<Vec<u8>>)
        requires
            self.wf(),
        ensures
            match file {
                Some(bytes) => {
                    let text = counts_text(self@, threshold as nat);
                    &&& text_file(output_file@, text) == Some(bytes@)
                    &&& gunzip_outcome(bytes@) == (vstd::utf8::encode_utf8(text), true)
                },
                None => text_file(output_file@, counts_text(self@, threshold as nat)) is None,
            },
    {
        if has_nul(output_file) {
            return None;
        }
        let text = self.frequency_table(threshold);
        gzip_encode(output_file, text.as_str().as_bytes())
    }

    /// The gzip file of the frequency table at the usual threshold, with
    /// `output_file` as the name in its header. There is none for a name with
    /// a character of code zero, nor where the encoder gives none.
    pub fn persist(&self, output_file: &str) -> (file: Option<Vec<u8>>)
        requires
            self.wf(),
        ensures
            match file {
                Some(bytes) => {
                    let text = counts_text(self@, MINIMUM_ARTICLE_THRESHOLD as nat);
                    &&& text_file(output_file@, text) == Some(bytes@)
                    &&& gunzip_outcome(bytes@) == (vstd::utf8::encode_utf8(text), true)
                },
                None => text_file(
                    output_file@,
                    counts_text(self@, MINIMUM_ARTICLE_THRESHOLD as nat),
                ) is None,
            },
    {
        self.compressed_table(output_file, MINIMUM_ARTICLE_THRESHOLD)
    }
}

/// A file name, or the extension of one, with `.gz` after it: what a file
/// that is written through gzip is called.
pub fn with_gz_suffix(name: &str) -> (r: String)
    ensures
        r@ == name@ + ".gz"@,
{
    let mut out: Vec<char> = Vec::new();
    push_str(&mut out, name);
    push_str(&mut out, ".gz");
    to_string(&out)
}

} // verus!
