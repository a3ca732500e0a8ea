//! Reading text: the lines of a file's bytes, and the vocabulary of a
//! dictionary's text.

use vstd::prelude::*;
use vstd::slice::{slice_subrange, slice_to_vec};
use vstd::utf8::{decode_utf8, valid_utf8};
use crate::chars::{copy_range, push_str, to_chars, trim, trimmed};
use crate::order::{rank_words, Rank, Token};
use crate::create_frequencies::line_views;
use crate::frequency_table::to_string;
use crate::ngrams::oov;
use crate::outside::{gunzip, gunzip_outcome, nfkc, nfkc_chars, utf8_text};
use crate::accumulator::Accumulator;
use crate::table::{fits_u64, sum_maps, Table};
use crate::vocabulary::Vocabulary;

verus! {

/// A word that the vocabulary lacks is changed to this. It stands for no word
/// of a text, since punctuation is trimmed from the ends of every word.
pub const OUT_OF_VOCABULARY_WORD: &'static str = "<unk>";

/// The out-of-vocabulary word is the token that the counts are kept under.
pub proof fn law_out_of_vocabulary_word()
    ensures
        OUT_OF_VOCABULARY_WORD@ == oov(),
{
    reveal_strlit("<unk>");
    assert(OUT_OF_VOCABULARY_WORD@ =~= oov());
}

/// The length of the first line of `bytes`, with the newline that ends it.
pub open spec fn line_end(bytes: Seq<u8>) -> nat
    decreases bytes.len(),
{
    if bytes.len() == 0 {
        0
    } else if bytes[0] == 10 {
        1
    } else {
        1 + line_end(bytes.drop_first())
    }
}

/// The lines that are read from `bytes`: each up to and with its newline, the
/// last one up to the end. Reading stops before the first line that is not
/// UTF-8, and what follows that line is not read.
pub open spec fn lines_of(bytes: Seq<u8>) -> Seq<Seq<char>>
    decreases bytes.len(),
{
    let n = line_end(bytes);
    if bytes.len() > 0 && 1 <= n <= bytes.len() && valid_utf8(bytes.take(n as int)) {
        seq![decode_utf8(bytes.take(n as int))] + lines_of(bytes.skip(n as int))
    } else {
        Seq::empty()
    }
}

/// Whether every line of `bytes` is UTF-8, so that reading reaches the end.
pub open spec fn all_lines_decode(bytes: Seq<u8>) -> bool
    decreases bytes.len(),
{
    let n = line_end(bytes);
    if bytes.len() > 0 && 1 <= n <= bytes.len() {
        valid_utf8(bytes.take(n as int)) && all_lines_decode(bytes.skip(n as int))
    } else {
        true
    }
}

/// How many bytes at the end of `bytes` belong to a line that no newline ends.
pub open spec fn unfinished(bytes: Seq<u8>) -> nat
    decreases bytes.len(),
{
    if bytes.len() > 0 && bytes.last() != 10 {
        1 + unfinished(bytes.drop_last())
    } else {
        0
    }
}

/// The bytes of a file that are read as lines. Of a compressed file these are
/// the bytes that decompression gives; where it fails before the end, the
/// line that it broke off in is left out.
pub open spec fn readable(content: Seq<u8>, compressed: bool) -> Seq<u8> {
    if !compressed {
        content
    } else if gunzip_outcome(content).1 {
        gunzip_outcome(content).0
    } else {
        let bytes = gunzip_outcome(content).0;
        if unfinished(bytes) <= bytes.len() {
            bytes.take(bytes.len() - unfinished(bytes))
        } else {
            bytes
        }
    }
}

/// The length of a line, from what is seen of its bytes.
pub proof fn lemma_line_end(bytes: Seq<u8>, n: int)
    requires
        1 <= n <= bytes.len(),
        forall|j: int| 0 <= j < n - 1 ==> bytes[j] != 10,
        bytes[n - 1] == 10 || n == bytes.len(),
    ensures
        line_end(bytes) == n,
    decreases n,
{
    if n > 1 {
        let rest = bytes.drop_first();
        assert(bytes[0] != 10);
        assert(rest[n - 2] == bytes[n - 1]);
        assert forall|j: int| 0 <= j < n - 2 implies rest[j] != 10 by {
            assert(rest[j] == bytes[j + 1]);
        }
        lemma_line_end(rest, n - 1);
    } else if bytes[0] != 10 {
        assert(bytes.drop_first().len() == 0);
        assert(line_end(bytes.drop_first()) == 0);
    }
}

/// The length of the line that was broken off, from what is seen of its bytes.
pub proof fn lemma_unfinished(bytes: Seq<u8>, n: int)
    requires
        0 <= n <= bytes.len(),
        forall|j: int| bytes.len() - n <= j < bytes.len() ==> bytes[j] != 10,
        n < bytes.len() ==> bytes[bytes.len() - n - 1] == 10,
    ensures
        unfinished(bytes) == n,
    decreases n,
{
    if n > 0 {
        let rest = bytes.drop_last();
        assert forall|j: int| rest.len() - (n - 1) <= j < rest.len() implies rest[j] != 10 by {
            assert(rest[j] == bytes[j]);
        }
        lemma_unfinished(rest, n - 1);
    }
}

/// Reads the bytes of a file line by line.
pub struct LineIterator {
    content: Vec<u8>,
    position: usize,
    end: usize,
    broken: bool,
}

impl LineIterator {
    /// The place is within the bytes.
    pub closed spec fn wf(&self) -> bool {
        self.position <= self.end <= self.content@.len()
    }

    /// The bytes that are still to be read.
    pub closed spec fn remaining(&self) -> Seq<u8> {
        self.content@.subrange(self.position as int, self.end as int)
    }

    /// The lines that are still to be read.
    pub open spec fn lines(&self) -> Seq<Seq<char>> {
        lines_of(self.remaining())
    }

    /// Whether reading has stopped at a line that is not UTF-8.
    pub closed spec fn broken(&self) -> bool {
        self.broken
    }

    /// A reader of the bytes of a file, which are decompressed first where
    /// the file is compressed.
    pub fn new(content: Vec<u8>, compressed: bool) -> (reader: LineIterator)
        ensures
            reader.wf(),
            !reader.broken(),
            reader.remaining() == readable(content@, compressed),
    {
        if !compressed {
            let end: usize = content.len();
            let reader = LineIterator { content, position: 0, end, broken: false };
            proof {
                assert(reader.remaining() =~= reader.content@);
            }
            return reader;
        }
        let (bytes, complete) = gunzip(content.as_slice());
        let mut end: usize = bytes.len();
        if !complete {
            while end > 0 && bytes[end - 1] != 10
                invariant
                    end <= bytes.len(),
                    forall|j: int| end <= j < bytes.len() ==> bytes@[j] != 10,
                decreases end,
            {
                end -= 1;
            }
            proof {
                lemma_unfinished(bytes@, bytes.len() - end);
            }
        }
        let reader = LineIterator { content: bytes, position: 0, end, broken: false };
        proof {
            assert(reader.remaining() =~= reader.content@.take(end as int));
            assert(reader.content@.take(reader.content@.len() as int) =~= reader.content@);
        }
        reader
    }

    /// Whether reading has stopped at a line that is not UTF-8.
    pub fn is_broken(&self) -> (broken: bool)
        ensures
            broken == self.broken(),
    {
        self.broken
    }

    /// The next line, with the newline that ends it. There is none at the end
    /// of the bytes, and none from a line that is not UTF-8 on: after such a
    /// line nothing more is read.
    pub fn next(&mut self) -> (line: Option<String>)
        requires
            old(self).wf(),
        ensures
            final(self).wf(),
            match line {
                Some(text) => {
                    &&& old(self).lines().len() > 0
                    &&& text@ == old(self).lines()[0]
                    &&& final(self).lines() == old(self).lines().drop_first()
                    &&& final(self).remaining() == old(self).remaining().skip(
                        line_end(old(self).remaining()) as int,
                    )
                },
                None => old(self).lines().len() == 0 && final(self).lines().len() == 0,
            },
            line is Some ==> final(self).broken() == old(self).broken() && all_lines_decode(
                final(self).remaining(),
            ) == all_lines_decode(old(self).remaining()),
            line is None && !old(self).broken() ==> final(self).broken() == !all_lines_decode(
                old(self).remaining(),
            ),
    {
        let ghost bytes = self.remaining();
        if self.position >= self.end {
            return None;
        }
        let start: usize = self.position;
        let mut stop: usize = start;
        while stop < self.end && self.content[stop] != 10
            invariant
                self.wf(),
                start == self.position,
                start <= stop <= self.end,
                forall|j: int| start <= j < stop ==> self.content@[j] != 10,
            decreases self.end - stop,
        {
            stop += 1;
        }
        if stop < self.end {
            stop += 1;
        }
        proof {
            assert forall|j: int| 0 <= j < stop - start - 1 implies bytes[j] != 10 by {
                assert(bytes[j] == self.content@[start + j]);
            }
            assert(bytes[stop - start - 1] == self.content@[stop - 1]);
            lemma_line_end(bytes, stop - start);
            assert(bytes.take(stop - start) =~= self.content@.subrange(start as int, stop as int));
            assert(bytes.skip(stop - start) =~= self.content@.subrange(
                stop as int,
                self.end as int,
            ));
        }
        let line = slice_subrange(self.content.as_slice(), start, stop);
        match utf8_text(line) {
            Some(text) => {
                let owned = text.to_owned();
                self.position = stop;
                proof {
                    assert(lines_of(bytes).drop_first() =~= lines_of(bytes.skip(stop - start)));
                }
                Some(owned)
            },
            None => {
                self.position = self.end;
                self.broken = true;
                None
            },
        }
    }
}

impl LineIterator {
    /// Reads all the lines that are left.
    pub fn read_to_end(&mut self) -> (lines: Vec<String>)
        requires
            old(self).wf(),
        ensures
            final(self).wf(),
            line_views(lines@) == old(self).lines(),
            final(self).lines().len() == 0,
            !old(self).broken() ==> final(self).broken() == !all_lines_decode(
                old(self).remaining(),
            ),
    {
        let mut lines: Vec<String> = Vec::new();
        proof {
            assert(line_views(lines@) + self.lines() =~= self.lines());
        }
        loop
            invariant
                self.wf(),
                self.broken() == old(self).broken(),
                all_lines_decode(self.remaining()) == all_lines_decode(old(self).remaining()),
                line_views(lines@) + self.lines() == old(self).lines(),
            decreases self.lines().len(),
        {
            let ghost before = self.lines();
            let ghost read = line_views(lines@);
            match self.next() {
                Some(line) => {
                    proof {
                        assert(line_views(lines@.push(line)) =~= read.push(line@));
                        assert(read.push(line@) + before.drop_first() =~= read + before);
                    }
                    lines.push(line);
                },
                None => {
                    proof {
                        assert(read + before =~= read);
                    }
                    return lines;
                },
            }
        }
    }
}

/// All the lines that are read from the bytes of a file.
pub fn read_lines(content: Vec<u8>, compressed: bool) -> (lines: Vec<String>)
    ensures
        line_views(lines@) == lines_of(readable(content@, compressed)),
{
    let mut reader = LineIterator::new(content, compressed);
    reader.read_to_end()
}

/// Why there is no vocabulary.
#[derive(Debug)]
pub enum DictionaryError {
    /// There is no dictionary for the language of this code.
    UnsupportedLanguage(String),
    /// The dictionary holds a line that is not UTF-8.
    InvalidText,
}

impl DictionaryError {
    /// The error in words.
    pub fn message(&self) -> (text: String)
        ensures
            match self {
                DictionaryError::UnsupportedLanguage(code) => text@
                    == "No dictionary available for language "@ + code@,
                DictionaryError::InvalidText => text@ == "stream did not contain valid UTF-8"@,
            },
    {
        let mut out: Vec<char> = Vec::new();
        match self {
            DictionaryError::UnsupportedLanguage(code) => {
                push_str(&mut out, "No dictionary available for language ");
                push_str(&mut out, code.as_str());
            },
            DictionaryError::InvalidText => {
                push_str(&mut out, "stream did not contain valid UTF-8");
            },
        }
        to_string(&out)
    }
}

/// A line without the newline that ends it, and without the carriage return
/// before that newline.
pub open spec fn chomp(line: Seq<char>) -> Seq<char> {
    if line.len() > 0 && line.last() == '\n' {
        if line.len() > 1 && line[line.len() - 2] == '\r' {
            line.take(line.len() - 2)
        } else {
            line.take(line.len() - 1)
        }
    } else {
        line
    }
}

/// The word that a line of a dictionary gives: the line in normalization form
/// KC, trimmed. A line that then starts with `#` is a comment and gives no
/// word, and neither does a line of which nothing is left.
pub open spec fn dictionary_word(line: Seq<char>) -> Option<Seq<char>> {
    let normal = nfkc_chars(chomp(line));
    if normal.len() > 0 && normal[0] == '#' {
        None
    } else if trimmed(normal).len() == 0 {
        None
    } else {
        Some(trimmed(normal))
    }
}

/// The words that the lines of a dictionary give.
pub open spec fn dictionary_words(lines: Seq<Seq<char>>) -> Set<Seq<char>> {
    Set::new(
        |word: Seq<char>|
            exists|i: int| 0 <= i < lines.len() && dictionary_word(#[trigger] lines[i]) == Some(word),
    )
}

/// Whether there is a dictionary for a language code: for `en` and for `pl`.
pub open spec fn is_supported_language(code: Seq<char>) -> bool {
    code == "en"@ || code == "pl"@
}

/// Whether two texts are the same.
pub fn same_text(a: &str, b: &str) -> (same: bool)
    ensures
        same == (a@ == b@),
{
    let x = to_chars(a);
    let y = to_chars(b);
    match rank_words(&x, &y) {
        Rank::Same => true,
        _ => false,
    }
}

/// Whether a file is read through gzip: its extension is `gz`.
pub fn is_compressed_extension(extension: &str) -> (compressed: bool)
    ensures
        compressed == (extension@ == "gz"@),
{
    same_text(extension, "gz")
}

/// The word that a line of a dictionary gives, if it gives one.
pub fn word_of_line(line: &str) -> (word: Option<Vec<char>>)
    ensures
        match word {
            Some(w) => dictionary_word(line@) == Some(w@),
            None => dictionary_word(line@) is None,
        },
{
    let chars = to_chars(line);
    let n: usize = chars.len();
    let keep: usize = if n > 0 && chars[n - 1] == '\n' {
        if n > 1 && chars[n - 2] == '\r' {
            n - 2
        } else {
            n - 1
        }
    } else {
        n
    };
    let chomped = copy_range(&chars, 0, keep);
    proof {
        assert(chars@.take(keep as int) =~= chars@.subrange(0, keep as int));
        assert(chars@.take(n as int) =~= chars@);
    }
    let normal = nfkc(to_string(&chomped).as_str());
    let normal_chars = to_chars(normal.as_str());
    if normal_chars.len() > 0 && normal_chars[0] == '#' {
        return None;
    }
    let word = trim(&normal_chars);
    if word.len() == 0 {
        None
    } else {
        Some(word)
    }
}

/// The vocabulary of a language, from the texts of the dictionaries. Each
/// line of the dictionary gives at most one word. There is none for a
/// language code other than `en` and `pl`, and none where the dictionary
/// holds a line that is not UTF-8.
pub fn get_dictionary(language_code: &str, english: &[u8], polish: &[u8]) -> (dictionary: Result<
    Vocabulary,
    DictionaryError,
>)
    ensures
        match dictionary {
            Ok(vocabulary) => {
                let text = if language_code@ == "en"@ {
                    english@
                } else {
                    polish@
                };
                &&& is_supported_language(language_code@)
                &&& all_lines_decode(text)
                &&& vocabulary.wf()
                &&& vocabulary@ == dictionary_words(lines_of(text))
            },
            Err(DictionaryError::UnsupportedLanguage(code)) => !is_supported_language(
                language_code@,
            ) && code@ == language_code@,
            Err(DictionaryError::InvalidText) => {
                let text = if language_code@ == "en"@ {
                    english@
                } else {
                    polish@
                };
                is_supported_language(language_code@) && !all_lines_decode(text)
            },
        },
{
    let text = if same_text(language_code, "en") {
        english
    } else if same_text(language_code, "pl") {
        polish
    } else {
        return Err(DictionaryError::UnsupportedLanguage(language_code.to_owned()));
    };
    let mut reader = LineIterator::new(slice_to_vec(text), false);
    let lines = reader.read_to_end();
    if reader.is_broken() {
        return Err(DictionaryError::InvalidText);
    }
    let ghost all = line_views(lines@);
    let mut words: Accumulator<Token> = Accumulator::new();
    let mut i: usize = 0;
    proof {
        assert(words.total().dom() =~= dictionary_words(all.take(0)));
    }
    while i < lines.len()
        invariant
            i <= lines.len(),
            all == line_views(lines@),
            words.wf(),
            words.total().dom() == dictionary_words(all.take(i as int)),
            forall|w: Seq<char>| words.total().contains_key(w) ==> #[trigger] words.total()[w] == 0,
        decreases lines.len() - i,
    {
        let ghost before = words.total();
        let ghost seen = all.take(i as int);
        let ghost next = all.take(i as int + 1);
        proof {
            assert(all[i as int] == lines@[i as int]@);
            assert(next == seen.push(all[i as int]));
            assert forall|w: Seq<char>|
                dictionary_words(next).contains(w) <==> dictionary_words(seen).contains(w)
                    || dictionary_word(all[i as int]) == Some(w) by {
                if dictionary_words(seen).contains(w) {
                    let j = choose|j: int|
                        0 <= j < seen.len() && dictionary_word(#[trigger] seen[j]) == Some(w);
                    assert(next[j] == seen[j]);
                }
                if dictionary_words(next).contains(w) {
                    let j = choose|j: int|
                        0 <= j < next.len() && dictionary_word(#[trigger] next[j]) == Some(w);
                    if j < seen.len() {
                        assert(next[j] == seen[j]);
                    }
                }
                assert(next[i as int] == all[i as int]);
            }
        }
        match word_of_line(lines[i].as_str()) {
            Some(word) => {
                let mut one: Table<Token> = Table::new();
                let ghost model = word@;
                proof {
                    assert(one.map() =~= Map::<Seq<char>, nat>::empty());
                }
                one.add(word, 0);
                proof {
                    let sum = sum_maps(before, one.map());
                    assert(sum.dom() =~= before.dom().insert(model));
                    assert forall|w: Seq<char>| sum.contains_key(w) implies #[trigger] sum[w]
                        <= u64::MAX by {}
                    assert(fits_u64(sum));
                    assert(before.dom().insert(model) =~= dictionary_words(next));
                }
                words.absorb(one);
            },
            None => {
                proof {
                    assert(before.dom() =~= dictionary_words(next));
                }
            },
        }
        i += 1;
    }
    proof {
        assert(all.take(lines.len() as int) == all);
        assert forall|w: Seq<char>| words.total().contains_key(w) implies #[trigger] words.total()[w]
            <= u64::MAX by {}
    }
    let vocabulary = match words.finish() {
        Some(table) => Vocabulary::from_table(table),
        None => Vocabulary::new(),
    };
    Ok(vocabulary)
}


} // verus!
