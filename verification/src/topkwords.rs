//! The most frequent words of a frequency table: reading its unigram rows
//! back, ordering them by count, and picking the first of a given length.

use vstd::prelude::*;
use vstd::utf8::encode_utf8;
use crate::chars::{
    before_tab, copy_range, find_tab, parse_number, push_str, read_number, to_chars, trim_end,
    trimmed_end,
};
use crate::create_frequencies::{line_views, oov_token};
use crate::frequency_table::to_string;
use crate::ngrams::oov;
use crate::accumulator::Accumulator;
use crate::order::{rank_words, ranked_precedes, Key, Rank, Ranked};
use crate::table::{
    fits_u64, has_key, increasing, index_of, lemma_same_map_same_entries, lemma_to_map_at,
    lemma_to_map_insert, lemma_to_map_take_next, sum_maps, to_map, Table,
};

verus! {

/// The line that the unigram rows of a table come after.
pub open spec fn unigram_heading() -> Seq<char> {
    "\\1-grams:"@
}

/// `line` begins with `prefix`.
pub open spec fn starts_with(line: Seq<char>, prefix: Seq<char>) -> bool {
    line.len() >= prefix.len() && line.take(prefix.len() as int) == prefix
}

/// The unigram that a row holds: the number before its first tab, and the
/// text between that tab and the next, without the whitespace at its end.
/// A line without a tab, or with no number before it, holds none.
pub open spec fn parse_row(line: Seq<char>) -> Option<(Seq<char>, nat)> {
    let first = before_tab(line);
    if first >= line.len() {
        None
    } else {
        let rest = line.skip(first as int + 1);
        match parse_number(line.take(first as int), u64::MAX as nat) {
            None => None,
            Some(count) => Some((trimmed_end(rest.take(before_tab(rest) as int)), count)),
        }
    }
}

/// The unigrams of a table, in the order of their rows. The rows are the
/// lines after the heading `\1-grams:`, up to the first line that is blank;
/// rows of the out-of-vocabulary token are left out. `reading` says whether
/// the heading has been passed. There are no unigrams where a row holds none.
pub open spec fn onegrams(lines: Seq<Seq<char>>, reading: bool) -> Option<Seq<(Seq<char>, nat)>>
    decreases lines.len(),
{
    if lines.len() == 0 {
        Some(Seq::empty())
    } else if starts_with(lines[0], unigram_heading()) {
        onegrams(lines.drop_first(), true)
    } else if !reading {
        onegrams(lines.drop_first(), false)
    } else if trimmed_end(lines[0]).len() == 0 {
        Some(Seq::empty())
    } else {
        match (parse_row(lines[0]), onegrams(lines.drop_first(), true)) {
            (Some(row), Some(rows)) => if row.0 == oov() {
                Some(rows)
            } else {
                Some(seq![row] + rows)
            },
            _ => None,
        }
    }
}

/// `sorted` with one more row, put behind every row whose count is not
/// smaller than its own.
pub open spec fn place(sorted: Seq<(Seq<char>, nat)>, row: (Seq<char>, nat)) -> Seq<
    (Seq<char>, nat),
>
    decreases sorted.len(),
{
    if sorted.len() == 0 {
        seq![row]
    } else if sorted.last().1 >= row.1 {
        sorted.push(row)
    } else {
        place(sorted.drop_last(), row).push(sorted.last())
    }
}

/// The rows by descending count; rows of one count stay in the order in
/// which they stood.
pub open spec fn by_count(rows: Seq<(Seq<char>, nat)>) -> Seq<(Seq<char>, nat)>
    decreases rows.len(),
{
    if rows.len() == 0 {
        Seq::empty()
    } else {
        place(by_count(rows.drop_last()), rows.last())
    }
}

/// The first `limit` words among those of the rows that are `minimum` bytes
/// long or longer in UTF-8.
pub open spec fn top_words(rows: Seq<(Seq<char>, nat)>, minimum: nat, limit: nat) -> Seq<
    Seq<char>,
>
    decreases rows.len(),
{
    if rows.len() == 0 || limit == 0 {
        Seq::empty()
    } else if encode_utf8(rows[0].0).len() >= minimum {
        seq![rows[0].0] + top_words(rows.drop_first(), minimum, (limit - 1) as nat)
    } else {
        top_words(rows.drop_first(), minimum, limit)
    }
}

/// The words, each on a line of its own.
pub open spec fn word_lines(words: Seq<Seq<char>>) -> Seq<char>
    decreases words.len(),
{
    if words.len() == 0 {
        Seq::empty()
    } else {
        word_lines(words.drop_last()) + words.last() + seq!['\n']
    }
}

/// The models of a vector of rows.
pub open spec fn row_views(rows: Seq<(String, u64)>) -> Seq<(Seq<char>, nat)> {
    rows.map_values(|r: (String, u64)| (r.0@, r.1 as nat))
}

/// Whether a line begins with a prefix.
pub fn begins_with(line: &Vec<char>, prefix: &Vec<char>) -> (r: bool)
    ensures
        r == starts_with(line@, prefix@),
{
    if line.len() < prefix.len() {
        return false;
    }
    let mut i: usize = 0;
    while i < prefix.len()
        invariant
            i <= prefix.len() <= line.len(),
            line@.take(i as int) == prefix@.take(i as int),
        decreases prefix.len() - i,
    {
        if line[i] != prefix[i] {
            proof {
                assert(line@.take(prefix.len() as int)[i as int] == line@[i as int]);
            }
            return false;
        }
        proof {
            assert(line@.take(i as int + 1) == line@.take(i as int).push(line@[i as int]));
            assert(prefix@.take(i as int + 1) == prefix@.take(i as int).push(prefix@[i as int]));
        }
        i += 1;
    }
    proof {
        assert(prefix@.take(prefix.len() as int) == prefix@);
    }
    true
}

/// The unigram that a row of the table holds, if it holds one.
pub fn read_row(line: &Vec<char>) -> (row: Option<(Vec<char>, u64)>)
    ensures
        match row {
            Some(r) => parse_row(line@) == Some((r.0@, r.1 as nat)),
            None => parse_row(line@) is None,
        },
{
    let n: usize = line.len();
    let first = find_tab(line, 0, n);
    proof {
        assert(line@.subrange(0, n as int) =~= line@);
    }
    if first >= n {
        return None;
    }
    let number = copy_range(line, 0, first);
    proof {
        assert(line@.subrange(0, first as int) =~= line@.take(first as int));
    }
    let count = match read_number(&number, u64::MAX) {
        Some(count) => count,
        None => {
            return None;
        },
    };
    let second = find_tab(line, first + 1, n);
    let stop = trim_end(line, first + 1, second);
    let token = copy_range(line, first + 1, stop);
    proof {
        let rest = line@.skip(first as int + 1);
        assert(rest =~= line@.subrange(first as int + 1, n as int));
        assert(rest.take(before_tab(rest) as int) =~= line@.subrange(
            first as int + 1,
            second as int,
        ));
    }
    Some((token, count))
}

/// A row that carries its count and its place before its word.
pub open spec fn ranked(rows: Seq<(Seq<char>, nat)>, i: int) -> ((nat, nat, Seq<char>), nat) {
    ((rows[i].1, i as nat, rows[i].0), 0)
}

/// `place` on rows that carry their place.
pub open spec fn place_ranked(
    sorted: Seq<((nat, nat, Seq<char>), nat)>,
    row: ((nat, nat, Seq<char>), nat),
) -> Seq<((nat, nat, Seq<char>), nat)>
    decreases sorted.len(),
{
    if sorted.len() == 0 {
        seq![row]
    } else if sorted.last().0.0 >= row.0.0 {
        sorted.push(row)
    } else {
        place_ranked(sorted.drop_last(), row).push(sorted.last())
    }
}

/// `by_count` on rows that carry their place.
pub open spec fn ranked_by_count(rows: Seq<(Seq<char>, nat)>) -> Seq<((nat, nat, Seq<char>), nat)>
    decreases rows.len(),
{
    if rows.len() == 0 {
        Seq::empty()
    } else {
        place_ranked(ranked_by_count(rows.drop_last()), ranked(rows, rows.len() - 1))
    }
}

/// The rows without the places that they carry.
pub open spec fn unranked(rows: Seq<((nat, nat, Seq<char>), nat)>) -> Seq<(Seq<char>, nat)> {
    rows.map_values(|r: ((nat, nat, Seq<char>), nat)| (r.0.2, r.0.0))
}

/// Placing a row does not look at the place that it carries.
pub proof fn lemma_place_unranked(
    sorted: Seq<((nat, nat, Seq<char>), nat)>,
    row: ((nat, nat, Seq<char>), nat),
)
    ensures
        unranked(place_ranked(sorted, row)) == place(unranked(sorted), (row.0.2, row.0.0)),
    decreases sorted.len(),
{
    let plain = (row.0.2, row.0.0);
    if sorted.len() == 0 {
        assert(unranked(seq![row]) =~= seq![plain]);
    } else if sorted.last().0.0 >= row.0.0 {
        assert(unranked(sorted.push(row)) =~= unranked(sorted).push(plain));
    } else {
        lemma_place_unranked(sorted.drop_last(), row);
        assert(unranked(sorted).drop_last() =~= unranked(sorted.drop_last()));
        assert(unranked(place_ranked(sorted.drop_last(), row).push(sorted.last())) =~= unranked(
            place_ranked(sorted.drop_last(), row),
        ).push(unranked(sorted).last()));
    }
}

/// Ordering rows that carry their place orders the rows.
pub proof fn lemma_by_count_unranked(rows: Seq<(Seq<char>, nat)>)
    ensures
        unranked(ranked_by_count(rows)) == by_count(rows),
    decreases rows.len(),
{
    if rows.len() == 0 {
        assert(unranked(ranked_by_count(rows)) =~= Seq::empty());
    } else {
        lemma_by_count_unranked(rows.drop_last());
        lemma_place_unranked(ranked_by_count(rows.drop_last()), ranked(rows, rows.len() - 1));
    }
}

/// A row that stood behind all the rows of a sequence in ranked order takes
/// its place in that order.
pub proof fn lemma_place_in_order(
    sorted: Seq<((nat, nat, Seq<char>), nat)>,
    row: ((nat, nat, Seq<char>), nat),
)
    requires
        increasing::<Ranked>(sorted),
        forall|j: int| 0 <= j < sorted.len() ==> (#[trigger] sorted[j]).0.1 < row.0.1,
    ensures
        increasing::<Ranked>(place_ranked(sorted, row)),
        to_map(place_ranked(sorted, row)) == to_map(sorted).insert(row.0, row.1),
        !to_map(sorted).contains_key(row.0),
    decreases sorted.len(),
{
    if has_key(sorted, row.0) {
        let j = index_of(sorted, row.0);
    }
    if sorted.len() == 0 {
        lemma_to_map_insert::<Ranked>(sorted, 0, row.0, row.1);
        assert(sorted.insert(0, row) =~= seq![row]);
    } else if sorted.last().0.0 >= row.0.0 {
        let n = sorted.len() as int;
        assert forall|j: int| 0 <= j < n implies ranked_precedes((#[trigger] sorted[j]).0, row.0) by {
            if j < n - 1 {
                assert(ranked_precedes(sorted[j].0, sorted[n - 1].0));
            }
        }
        lemma_to_map_insert::<Ranked>(sorted, n, row.0, row.1);
        assert(sorted.insert(n, row) =~= sorted.push(row));
    } else {
        let rest = sorted.drop_last();
        let last = sorted.last();
        let n = rest.len() as int;
        assert forall|a: int, b: int| 0 <= a < b < rest.len() implies ranked_precedes(
            rest[a].0,
            rest[b].0,
        ) by {
            assert(ranked_precedes(sorted[a].0, sorted[b].0));
        }
        assert forall|j: int| 0 <= j < rest.len() implies (#[trigger] rest[j]).0.1 < row.0.1 by {
            assert(rest[j] == sorted[j]);
        }
        lemma_place_in_order(rest, row);
        let placed = place_ranked(rest, row);
        assert forall|j: int| 0 <= j < placed.len() implies ranked_precedes(
            (#[trigger] placed[j]).0,
            last.0,
        ) by {
            lemma_to_map_at::<Ranked>(placed, j);
            if placed[j].0 != row.0 {
                assert(to_map(rest).contains_key(placed[j].0));
                let m = index_of(rest, placed[j].0);
                assert(ranked_precedes(sorted[m].0, sorted[n].0));
            }
        }
        lemma_to_map_insert::<Ranked>(placed, placed.len() as int, last.0, last.1);
        assert(placed.insert(placed.len() as int, last) =~= placed.push(last));
        lemma_to_map_take_next::<Ranked>(sorted, n);
        assert(sorted.take(n) =~= rest);
        assert(sorted.take(n + 1) =~= sorted);
        assert(to_map(placed.push(last)) =~= to_map(sorted).insert(row.0, row.1));
    }
}

/// The rows that carry their place, ordered by count, are in ranked order,
/// and each of them carries a place among the rows.
pub proof fn lemma_ranked_in_order(rows: Seq<(Seq<char>, nat)>)
    ensures
        increasing::<Ranked>(ranked_by_count(rows)),
        forall|j: int|
            0 <= j < ranked_by_count(rows).len() ==> (#[trigger] ranked_by_count(rows)[j]).0.1
                < rows.len() && ranked_by_count(rows)[j].1 == 0,
        rows.len() > 0 ==> to_map(ranked_by_count(rows)) == to_map(
            ranked_by_count(rows.drop_last()),
        ).insert(ranked(rows, rows.len() - 1).0, 0) && !to_map(
            ranked_by_count(rows.drop_last()),
        ).contains_key(ranked(rows, rows.len() - 1).0),
        fits_u64(to_map(ranked_by_count(rows))),
    decreases rows.len(),
{
    let sorted = ranked_by_count(rows);
    if rows.len() > 0 {
        let rest = rows.drop_last();
        let row = ranked(rows, rows.len() - 1);
        lemma_ranked_in_order(rest);
        lemma_place_in_order(ranked_by_count(rest), row);
        assert forall|j: int| 0 <= j < sorted.len() implies (#[trigger] sorted[j]).0.1
            < rows.len() && sorted[j].1 == 0 by {
            lemma_to_map_at::<Ranked>(sorted, j);
            if sorted[j].0 != row.0 {
                let m = index_of(ranked_by_count(rest), sorted[j].0);
                lemma_to_map_at::<Ranked>(ranked_by_count(rest), m);
            }
        }
    }
    assert forall|k: (nat, nat, Seq<char>)| to_map(sorted).contains_key(k) implies #[trigger] to_map(
        sorted,
    )[k] <= u64::MAX by {
        lemma_to_map_at::<Ranked>(sorted, index_of(sorted, k));
    }
}

/// Orders rows by descending count; rows of one count stay in the order in
/// which they stood.
pub fn sort_rows(rows: &Vec<(String, u64)>) -> (sorted: Vec<(String, u64)>)
    ensures
        row_views(sorted@) == by_count(row_views(rows@)),
{
    let ghost all = row_views(rows@);
    let mut sum: Accumulator<Ranked> = Accumulator::new();
    let mut i: usize = 0;
    proof {
        assert(all.take(0) =~= Seq::empty());
        assert(to_map(ranked_by_count(all.take(0))) =~= Map::<(nat, nat, Seq<char>), nat>::empty());
    }
    while i < rows.len()
        invariant
            i <= rows.len(),
            all == row_views(rows@),
            sum.wf(),
            sum.total() == to_map(ranked_by_count(all.take(i as int))),
        decreases rows.len() - i,
    {
        let key: Ranked = (rows[i].1, i, to_chars(rows[i].0.as_str()));
        let mut one: Table<Ranked> = Table::new();
        proof {
            let seen = all.take(i as int);
            let next = all.take(i as int + 1);
            assert(next.drop_last() =~= seen);
            assert(all[i as int] == (rows@[i as int].0@, rows@[i as int].1 as nat));
            assert(ranked(next, i as int).0 == key.model());
            lemma_ranked_in_order(next);
            assert(one.map() =~= Map::<(nat, nat, Seq<char>), nat>::empty());
            assert(sum_maps(sum.total(), one.map().insert(key.model(), 0nat)) =~= sum.total().insert(
                key.model(),
                0nat,
            ));
        }
        one.add(key, 0);
        sum.absorb(one);
        i += 1;
    }
    let ghost target = ranked_by_count(all);
    proof {
        assert(all.take(rows.len() as int) == all);
        lemma_ranked_in_order(all);
    }
    let mut sorted: Vec<(String, u64)> = Vec::new();
    match sum.finish() {
        None => {},
        Some(table) => {
            proof {
                lemma_same_map_same_entries::<Ranked>(table@, target);
                lemma_by_count_unranked(all);
                assert(row_views(sorted@) =~= unranked(target).take(0));
            }
            let mut j: usize = 0;
            while j < table.len()
                invariant
                    j <= table@.len(),
                    table@ == target,
                    row_views(sorted@) == unranked(target).take(j as int),
                decreases table@.len() - j,
            {
                let key = table.key_at(j);
                let row = (to_string(&key.2), key.0);
                proof {
                    assert(row_views(sorted@.push(row)) =~= row_views(sorted@).push(
                        (row.0@, row.1 as nat),
                    ));
                    assert(unranked(target).take(j as int + 1) =~= unranked(target).take(
                        j as int,
                    ).push(unranked(target)[j as int]));
                }
                sorted.push(row);
                j += 1;
            }
            proof {
                assert(unranked(target).take(table@.len() as int) =~= unranked(target));
            }
        },
    }
    sorted
}

/// Reads the unigrams of a frequency table back from its lines and orders
/// them by descending count, rows of one count in the order of the table.
/// The rows are the lines after the heading `\1-grams:`, up to the first
/// blank line; the row of the out-of-vocabulary token is left out. There are
/// no unigrams where a row holds no tab, or no number before its first tab.
pub fn load_sorted_onegrams(lines: &Vec<String>) -> (sorted: Option<Vec<(String, u64)>>)
    ensures
        match sorted {
            Some(rows) => onegrams(line_views(lines@), false) is Some && row_views(rows@)
                == by_count(onegrams(line_views(lines@), false)->0),
            None => onegrams(line_views(lines@), false) is None,
        },
{
    let heading = to_chars("\\1-grams:");
    let unknown = oov_token();
    let ghost all = line_views(lines@);
    let mut rows: Vec<(String, u64)> = Vec::new();
    let ghost mut found: Seq<(Seq<char>, nat)> = Seq::empty();
    let mut reading = false;
    let mut i: usize = 0;
    proof {
        assert(all.skip(0) =~= all);
        assert(row_views(rows@) =~= found);
    }
    while i < lines.len()
        invariant
            i <= lines.len(),
            all == line_views(lines@),
            heading@ == unigram_heading(),
            unknown@ == oov(),
            row_views(rows@) == found,
            onegrams(all, false) == match onegrams(all.skip(i as int), reading) {
                Some(rest) => Some(found + rest),
                None => None,
            },
        decreases lines.len() - i,
    {
        let line = to_chars(lines[i].as_str());
        let ghost rest = all.skip(i as int);
        proof {
            assert(rest[0] == all[i as int]);
            assert(all[i as int] == lines@[i as int]@);
            assert(rest.drop_first() =~= all.skip(i as int + 1));
        }
        if begins_with(&line, &heading) {
            reading = true;
        } else if reading {
            let stop = trim_end(&line, 0, line.len());
            proof {
                assert(line@.subrange(0, line.len() as int) =~= line@);
            }
            if stop == 0 {
                proof {
                    assert(found + Seq::<(Seq<char>, nat)>::empty() =~= found);
                }
                return Some(sort_rows(&rows));
            }
            match read_row(&line) {
                None => {
                    return None;
                },
                Some(row) => {
                    let same = rank_words(&row.0, &unknown);
                    proof {
                        let later = onegrams(all.skip(i as int + 1), true);
                        if later is Some && row.0@ != oov() {
                            assert(found + (seq![(row.0@, row.1 as nat)] + later->0) =~= found.push(
                                (row.0@, row.1 as nat),
                            ) + later->0);
                        }
                    }
                    match same {
                        Rank::Same => {},
                        _ => {
                            let kept = (to_string(&row.0), row.1);
                            proof {
                                found = found.push((row.0@, row.1 as nat));
                                assert(row_views(rows@.push(kept)) =~= found);
                            }
                            rows.push(kept);
                        },
                    }
                },
            }
        }
        i += 1;
    }
    proof {
        assert(all.skip(lines.len() as int) =~= Seq::<Seq<char>>::empty());
        assert(found + Seq::<(Seq<char>, nat)>::empty() =~= found);
    }
    Some(sort_rows(&rows))
}

/// The first `number_of_words` words of a frequency table, by descending
/// count, among those that are `minimum_word_length` bytes long or longer:
/// each on a line of its own. There is no such text where the table holds a
/// row without a tab or without a number before its first tab.
pub fn handle_top_k_words(
    lines: &Vec<String>,
    minimum_word_length: usize,
    number_of_words: usize,
) -> (text: Option<String>)
    ensures
        match text {
            Some(words) => onegrams(line_views(lines@), false) is Some && words@ == word_lines(
                top_words(
                    by_count(onegrams(line_views(lines@), false)->0),
                    minimum_word_length as nat,
                    number_of_words as nat,
                ),
            ),
            None => onegrams(line_views(lines@), false) is None,
        },
{
    let rows = match load_sorted_onegrams(lines) {
        Some(rows) => rows,
        None => {
            return None;
        },
    };
    let ghost all = row_views(rows@);
    let ghost minimum = minimum_word_length as nat;
    let mut out: Vec<char> = Vec::new();
    let ghost mut taken: Seq<Seq<char>> = Seq::empty();
    let mut left: usize = number_of_words;
    let mut i: usize = 0;
    proof {
        assert(all.skip(0) =~= all);
        assert(taken + top_words(all, minimum, left as nat) =~= top_words(all, minimum, left as nat));
    }
    while i < rows.len() && left > 0
        invariant
            i <= rows.len(),
            all == row_views(rows@),
            minimum == minimum_word_length as nat,
            out@ == word_lines(taken),
            top_words(all, minimum, number_of_words as nat) == taken + top_words(
                all.skip(i as int),
                minimum,
                left as nat,
            ),
        decreases rows.len() - i,
    {
        let ghost rest = all.skip(i as int);
        proof {
            assert(rest[0] == all[i as int]);
            assert(all[i as int].0 == rows@[i as int].0@);
            assert(rest.drop_first() =~= all.skip(i as int + 1));
        }
        let word = rows[i].0.as_str();
        if word.as_bytes().len() >= minimum_word_length {
            proof {
                let later = top_words(all.skip(i as int + 1), minimum, (left - 1) as nat);
                assert(taken + (seq![word@] + later) =~= taken.push(word@) + later);
                assert(taken.push(word@).drop_last() =~= taken);
                taken = taken.push(word@);
            }
            push_str(&mut out, word);
            out.push('\n');
            left -= 1;
        }
        i += 1;
    }
    proof {
        assert(taken + Seq::<Seq<char>>::empty() =~= taken);
    }
    Some(to_string(&out))
}

} // verus!
