//! Splitting a corpus into shards: which shard an article goes to, what is
//! written for it, and how the files of the shards are named.

use vstd::prelude::*;
use crate::chars::{decimal, push_decimal, push_str};
use crate::create_frequencies::line_views;
use crate::frequency_table::to_string;
use vstd::string::StringExecFns;
use crate::outside::{
    json_lookup, json_member, nfkc, nfkc_chars, random_below, seeded_rng, JsonMember,
};

verus! {

/// The seed of the generator that deals the articles out.
pub const SPLIT_SEED: u64 = 42;

/// What is done with a line of the corpus.
#[derive(Debug)]
pub enum Routed {
    /// The line has no text: nothing is written.
    Skip,
    /// The line is no JSON, or its text is no string: the corpus is broken.
    Malformed,
    /// The text is written to a shard, and a newline after it.
    Write { piece: u32, text: String },
}

/// What is done with a line, from what the line holds under `text` and the
/// shard that was drawn for it: the text goes out in normalization form KC.
pub open spec fn routed_as(
    found: Option<Option<Option<Seq<char>>>>,
    routed: Routed,
    pieces: u32,
) -> bool {
    match found {
        None => routed is Malformed,
        Some(None) => routed is Skip,
        Some(Some(None)) => routed is Malformed,
        Some(Some(Some(text))) => routed matches Routed::Write { piece, text: written } && piece
            < pieces && written@ == nfkc_chars(text),
    }
}

/// A number in decimal, with zeros before it where it has less than three digits.
pub open spec fn three_digits(n: nat) -> Seq<char> {
    if n < 10 {
        seq!['0', '0'] + decimal(n)
    } else if n < 100 {
        seq!['0'] + decimal(n)
    } else {
        decimal(n)
    }
}

/// The name of a shard: the name of the corpus, `.split.` and the number of
/// the shard in three digits or more.
pub open spec fn shard_name(basename: Seq<char>, index: nat) -> Seq<char> {
    basename + ".split."@ + three_digits(index)
}

/// The name of the shard of a number.
pub fn shard_file_name(basename: &str, index: u32) -> (name: String)
    ensures
        name@ == shard_name(basename@, index as nat),
{
    let mut out: Vec<char> = Vec::new();
    push_str(&mut out, basename);
    push_str(&mut out, ".split.");
    if index < 10 {
        out.push('0');
        out.push('0');
    } else if index < 100 {
        out.push('0');
    }
    push_decimal(&mut out, index as u64);
    proof {
        assert(out@ =~= shard_name(basename@, index as nat));
    }
    to_string(&out)
}

/// Deals the articles of a corpus out to its shards.
pub struct Splitter {
    rng: rand::rngs::StdRng,
    pieces: u32,
}

impl Splitter {
    /// There is a shard to write to.
    pub closed spec fn wf(&self) -> bool {
        self.pieces > 0
    }

    /// The number of shards.
    pub closed spec fn shards(&self) -> u32 {
        self.pieces
    }

    /// A splitter for a number of shards, which is not zero.
    pub fn new(pieces: u32) -> (splitter: Option<Splitter>)
        ensures
            splitter is Some <==> pieces > 0,
            splitter matches Some(s) ==> s.wf() && s.shards() == pieces,
    {
        if pieces == 0 {
            None
        } else {
            Some(Splitter { rng: seeded_rng(SPLIT_SEED), pieces })
        }
    }

    /// The number of shards.
    pub fn pieces(&self) -> (pieces: u32)
        ensures
            pieces == self.shards(),
    {
        self.pieces
    }

    /// What is done with a line of the corpus. A line of JSON with a string
    /// under `text` is an article: its text goes to a shard that is drawn at
    /// random, in normalization form KC. A line of JSON without `text` is
    /// passed over, and no shard is drawn for it.
    pub fn route(&mut self, line: &str) -> (routed: Routed)
        requires
            old(self).wf(),
        ensures
            final(self).wf(),
            final(self).shards() == old(self).shards(),
            routed_as(json_member(line@, "text"@), routed, old(self).shards()),
    {
        match json_lookup(line, "text") {
            JsonMember::Invalid => Routed::Malformed,
            JsonMember::Absent => Routed::Skip,
            JsonMember::Other => Routed::Malformed,
            JsonMember::Text(text) => {
                let normal = nfkc(text.as_str());
                let piece = random_below(&mut self.rng, self.pieces);
                Routed::Write { piece, text: normal }
            },
        }
    }
}

/// The articles of a corpus, in the order of its lines: of each line of JSON
/// that holds a string under `text`, that string in normalization form KC.
/// There are none where a line is no JSON, or holds something else under `text`.
pub open spec fn articles(lines: Seq<Seq<char>>) -> Option<Seq<Seq<char>>>
    decreases lines.len(),
{
    if lines.len() == 0 {
        Some(Seq::empty())
    } else {
        match (articles(lines.drop_last()), json_member(lines.last(), "text"@)) {
            (Some(before), Some(None)) => Some(before),
            (Some(before), Some(Some(Some(text)))) => Some(before.push(nfkc_chars(text))),
            _ => None,
        }
    }
}

/// What is written to a shard: the articles that were drawn for it, in their
/// order, each with a newline after it.
pub open spec fn dealt(texts: Seq<Seq<char>>, draws: Seq<u32>, piece: u32) -> Seq<char>
    decreases texts.len(),
{
    if texts.len() == 0 || draws.len() != texts.len() {
        Seq::empty()
    } else if draws.last() == piece {
        dealt(texts.drop_last(), draws.drop_last(), piece) + texts.last() + seq!['\n']
    } else {
        dealt(texts.drop_last(), draws.drop_last(), piece)
    }
}

/// The files are what the draws deal out of the articles: every draw names a
/// shard, and each shard holds the articles that were drawn for it.
pub open spec fn deals(
    files: Seq<String>,
    texts: Seq<Seq<char>>,
    draws: Seq<u32>,
    pieces: u32,
) -> bool {
    &&& files.len() == pieces
    &&& draws.len() == texts.len()
    &&& forall|i: int| 0 <= i < draws.len() ==> #[trigger] draws[i] < pieces
    &&& forall|k: int| 0 <= k < pieces ==> (#[trigger] files[k])@ == dealt(texts, draws, k as u32)
}

/// Where a corpus has articles, so has each of its beginnings.
pub proof fn lemma_articles_of_prefix(lines: Seq<Seq<char>>, n: int)
    requires
        0 <= n <= lines.len(),
        articles(lines) is Some,
    ensures
        articles(lines.take(n)) is Some,
    decreases lines.len(),
{
    if n == lines.len() {
        assert(lines.take(n) =~= lines);
    } else {
        assert(lines.drop_last().take(n) =~= lines.take(n));
        lemma_articles_of_prefix(lines.drop_last(), n);
    }
}

/// Splits a corpus into shards: each article goes to a shard that is drawn
/// at random, with a newline after it. There are no shards for a number of
/// pieces of zero, nor for a corpus with a line that is no JSON or whose
/// `text` is no string.
pub fn handle_split(lines: &Vec<String>, pieces: u32) -> (shards: Option<Vec<String>>)
    ensures
        shards is Some <==> pieces > 0 && articles(line_views(lines@)) is Some,
        shards is Some ==> exists|draws: Seq<u32>| #[trigger]
            deals(shards->0@, articles(line_views(lines@))->0, draws, pieces),
{
    let mut splitter = match Splitter::new(pieces) {
        Some(splitter) => splitter,
        None => {
            return None;
        },
    };
    let ghost all = line_views(lines@);
    let mut files: Vec<String> = Vec::new();
    let mut k: u32 = 0;
    while k < pieces
        invariant
            k <= pieces,
            files.len() == k,
            forall|j: int| 0 <= j < k ==> (#[trigger] files[j])@ == Seq::<char>::empty(),
        decreases pieces - k,
    {
        files.push(String::new());
        k += 1;
    }
    let ghost mut draws: Seq<u32> = Seq::empty();
    let ghost mut texts: Seq<Seq<char>> = Seq::empty();
    let mut i: usize = 0;
    proof {
        assert(all.take(0) =~= Seq::<Seq<char>>::empty());
    }
    while i < lines.len()
        invariant
            i <= lines.len(),
            all == line_views(lines@),
            splitter.wf(),
            splitter.shards() == pieces,
            articles(all.take(i as int)) == Some(texts),
            deals(files@, texts, draws, pieces),
        decreases lines.len() - i,
    {
        let ghost next = all.take(i as int + 1);
        proof {
            assert(next.drop_last() =~= all.take(i as int));
            assert(next.last() == all[i as int]);
            assert(all[i as int] == lines@[i as int]@);
        }
        match splitter.route(lines[i].as_str()) {
            Routed::Skip => {},
            Routed::Malformed => {
                proof {
                    if articles(all) is Some {
                        lemma_articles_of_prefix(all, i as int + 1);
                    }
                }
                return None;
            },
            Routed::Write { piece, text } => {
                let ghost before = files@;
                let ghost old_texts = texts;
                let ghost old_draws = draws;
                let mut file = String::new();
                core::mem::swap(&mut file, &mut files[piece as usize]);
                file.append(text.as_str());
                file.append("\n");
                files.set(piece as usize, file);
                proof {
                    reveal_strlit("\n");
                    texts = old_texts.push(text@);
                    draws = old_draws.push(piece);
                    assert(texts.drop_last() =~= old_texts);
                    assert(draws.drop_last() =~= old_draws);
                    assert("\n"@ =~= seq!['\n']);
                    assert forall|k: int| 0 <= k < pieces implies (#[trigger] files@[k])@ == dealt(
                        texts,
                        draws,
                        k as u32,
                    ) by {
                        if k != piece {
                            assert(files@[k] == before[k]);
                        }
                    }
                }
            },
        }
        i += 1;
    }
    proof {
        assert(all.take(lines.len() as int) == all);
    }
    let shards = Some(files);
    proof {
        assert(deals(shards->0@, articles(line_views(lines@))->0, draws, pieces));
    }
    shards
}

} // verus!
