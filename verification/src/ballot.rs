//! What the text of a vote says: a version stands in it under a name
//! exactly if enough entries of the reports named it under that name.

use crate::decimal::{decimal_text, is_digit, lemma_decimal_text};
use crate::names::{has_name, items_differ, vote_lines};
use crate::roundtrip::lemma_round_trip;
use crate::support::lemma_entry_parts;
use crate::tally::{
    count, has_distinct_names, lemma_place_of, lemma_place_of_is, lemma_tally_counts, place_of,
    report_entries, tally_of, tally_versions, vote_count, votes_for,
};
use crate::text::{
    are_words, is_blank, is_word, lemma_find, lemma_words_are_words, lemma_words_of_join, words,
};
use crate::versions::{
    ascending, compress, lemma_ascending, lemma_ascending_len, lemma_run_len, piece_text,
    run_len, MAX_PROTOCOLS_TO_EXPAND,
};
use crate::vote::{
    elected, elected_text, is_elected, is_winners, lemma_vote_items, name_wins, vote_items,
    vote_text, winners,
};
use vstd::prelude::*;

verus! {

/// Whether `c` can stand in a written version list.
pub open spec fn is_list_char(c: char) -> bool {
    is_digit(c) || c == ',' || c == '-'
}

/// The entries of reports are not empty and hold no blank.
pub proof fn lemma_report_entries_are_words(reports: Seq<Seq<char>>)
    ensures
        are_words(report_entries(reports)),
    decreases reports.len(),
{
    if reports.len() > 0 {
        lemma_report_entries_are_words(reports.drop_last());
        lemma_words_are_words(reports.last());
        let earlier = report_entries(reports.drop_last());
        let last = words(reports.last());
        assert forall|k: int| 0 <= k < report_entries(reports).len() implies is_word(
            #[trigger] report_entries(reports)[k],
        ) by {
            if k < earlier.len() {
                assert(report_entries(reports)[k] == earlier[k]);
            } else {
                assert(report_entries(reports)[k] == last[k - earlier.len()]);
            }
        }
    }
}

/// A written version list holds digits, commas and dashes only.
pub proof fn lemma_compress_chars(versions: Seq<u32>)
    ensures
        forall|i: int|
            0 <= i < compress(versions).len() ==> is_list_char(#[trigger] compress(versions)[i]),
    decreases versions.len(),
{
    if versions.len() > 0 {
        let n = run_len(versions);
        lemma_run_len(versions);
        let lo = versions[0];
        let hi = versions[n - 1];
        let piece = piece_text(lo, hi);
        let low = decimal_text(lo as nat);
        let high = decimal_text(hi as nat);
        lemma_decimal_text(lo as nat);
        lemma_decimal_text(hi as nat);
        assert forall|i: int| 0 <= i < piece.len() implies is_list_char(#[trigger] piece[i]) by {
            if i < low.len() {
                assert(is_digit(low[i]));
            } else if i > low.len() {
                assert(is_digit(high[i - low.len() - 1]));
            }
        }
        let text = compress(versions);
        if n < versions.len() {
            let rest = compress(versions.skip(n));
            lemma_compress_chars(versions.skip(n));
            assert forall|i: int| 0 <= i < text.len() implies is_list_char(#[trigger] text[i]) by {
                if i < piece.len() {
                    assert(text[i] == piece[i]);
                } else if i > piece.len() {
                    assert(text[i] == rest[i - piece.len() - 1]);
                }
            }
        }
    }
}

/// Some entry reports a version under a name if and only if the count of
/// such entries is at least one.
pub proof fn lemma_vote_count_positive(entries: Seq<Seq<char>>, name: Seq<char>, v: u32)
    ensures
        vote_count(entries, name, v) >= 1 <==> exists|k: int|
            0 <= k < entries.len() && votes_for(#[trigger] entries[k], name, v),
    decreases entries.len(),
{
    if entries.len() > 0 {
        let earlier = entries.drop_last();
        lemma_vote_count_positive(earlier, name, v);
        if vote_count(entries, name, v) >= 1 {
            if votes_for(entries.last(), name, v) {
                assert(votes_for(entries[entries.len() - 1], name, v));
            } else {
                let k = choose|k: int|
                    0 <= k < earlier.len() && votes_for(#[trigger] earlier[k], name, v);
                assert(votes_for(entries[k], name, v));
            }
        }
        if exists|k: int| 0 <= k < entries.len() && votes_for(#[trigger] entries[k], name, v) {
            let k = choose|k: int|
                0 <= k < entries.len() && votes_for(#[trigger] entries[k], name, v);
            if k < entries.len() - 1 {
                assert(votes_for(earlier[k], name, v));
            }
        }
    }
}

/// For the names of `names` that have a version in the result of the vote,
/// the name and the version list of those versions.
pub open spec fn winning_items(
    names: Seq<(Seq<char>, Seq<u32>)>,
    entries: Seq<Seq<char>>,
    threshold: int,
) -> Seq<(Seq<char>, Seq<char>)>
    decreases names.len(),
{
    if names.len() == 0 {
        Seq::empty()
    } else if name_wins(entries, names.last().0, threshold) {
        winning_items(names.drop_last(), entries, threshold).push(
            (names.last().0, elected_text(entries, names.last().0, threshold)),
        )
    } else {
        winning_items(names.drop_last(), entries, threshold)
    }
}

/// The winning items of a tally without a name twice hold no name twice,
/// hold the version list of each name, and hold exactly the names of the
/// tally that have a version in the result of the vote.
pub proof fn lemma_winning_items(
    tally: Seq<(Seq<char>, Seq<u32>)>,
    entries: Seq<Seq<char>>,
    threshold: int,
)
    requires
        has_distinct_names(tally),
    ensures
        items_differ(winning_items(tally, entries, threshold)),
        forall|i: int|
            0 <= i < winning_items(tally, entries, threshold).len() ==> (#[trigger] winning_items(
                tally,
                entries,
                threshold,
            )[i]).1 == elected_text(
                entries,
                winning_items(tally, entries, threshold)[i].0,
                threshold,
            ),
        forall|n: Seq<char>|
            #![trigger has_name(winning_items(tally, entries, threshold), n)]
            has_name(winning_items(tally, entries, threshold), n) <==> place_of(tally, n)
                < tally.len() && name_wins(entries, n, threshold),
    decreases tally.len(),
{
    let items = winning_items(tally, entries, threshold);
    if tally.len() > 0 {
        let earlier = tally.drop_last();
        let last = tally.last().0;
        let before = winning_items(earlier, entries, threshold);
        assert(has_distinct_names(earlier)) by {
            assert forall|i: int, j: int| 0 <= i < j < earlier.len() implies earlier[i].0
                != earlier[j].0 by {
                assert(earlier[i] == tally[i] && earlier[j] == tally[j]);
            }
        }
        lemma_winning_items(earlier, entries, threshold);
        lemma_place_of(earlier, last);
        if place_of(earlier, last) < earlier.len() {
            assert(earlier[place_of(earlier, last)] == tally[place_of(earlier, last)]);
        }
        assert(!has_name(before, last));
        assert forall|n: Seq<char>|
            #![trigger has_name(items, n)]
            has_name(items, n) <==> place_of(tally, n) < tally.len() && name_wins(
                entries,
                n,
                threshold,
            ) by {
            lemma_place_of(tally, n);
            lemma_place_of(earlier, n);
            let p = place_of(earlier, n);
            if p < earlier.len() {
                assert(earlier[p] == tally[p]);
                lemma_place_of_is(tally, n, p);
            } else if n == last {
                assert forall|j: int| 0 <= j < tally.len() - 1 implies tally[j].0 != n by {
                    assert(tally[j] == earlier[j]);
                }
                lemma_place_of_is(tally, n, tally.len() - 1);
            } else {
                assert forall|j: int| 0 <= j < tally.len() implies tally[j].0 != n by {
                    if j < tally.len() - 1 {
                        assert(tally[j] == earlier[j]);
                    }
                }
                lemma_place_of_is(tally, n, tally.len() as int);
            }
            if has_name(before, n) {
                let k = choose|k: int| 0 <= k < before.len() && (#[trigger] before[k]).0 == n;
                assert(items[k].0 == n);
            }
            if has_name(items, n) {
                let k = choose|k: int| 0 <= k < items.len() && (#[trigger] items[k]).0 == n;
                if k < before.len() {
                    assert(before[k].0 == n);
                }
            }
            if n == last && name_wins(entries, n, threshold) {
                assert(items[items.len() - 1].0 == n);
            }
        }
        assert forall|i: int, j: int| 0 <= i < j < items.len() implies items[i].0
            != items[j].0 by {
            if j == before.len() {
                assert(before[i].0 == items[i].0);
                assert(has_name(before, before[i].0));
            } else {
                assert(before[i] == items[i] && before[j] == items[j]);
            }
        }
    }
}

/// There are names that are the names with a version in the result of a
/// vote, each once and in their order: `winners` is well defined.
pub proof fn lemma_winners(entries: Seq<Seq<char>>, threshold: int)
    ensures
        is_winners(winners(entries, threshold), entries, threshold),
        vote_items(winners(entries, threshold), entries, threshold).len() == winners(
            entries,
            threshold,
        ).len(),
{
    let tally = tally_of(entries);
    lemma_tally_counts(entries);
    lemma_winning_items(tally, entries, threshold);
    let items = winning_items(tally, entries, threshold);
    assert forall|n: Seq<char>|
        #![trigger name_wins(entries, n, threshold)]
        #![trigger has_name(items, n)]
        name_wins(entries, n, threshold) <==> has_name(items, n) by {
        lemma_place_of(tally, n);
        if place_of(tally, n) >= tally.len() {
            assert(tally_versions(tally, n) =~= Seq::<u32>::empty());
            assert forall|v: u32| !is_elected(entries, n, v, threshold) by {
                assert(count(tally_versions(tally, n), v) == vote_count(entries, n, v));
            }
        }
    }
    lemma_vote_items(items, entries, threshold);
}

/// The text of a vote names a version under a name if and only if at least
/// one entry of the reports names that version under that name, and at
/// least `threshold` entries do.
///
/// To name a version is to hold an entry with the name and a version list
/// that parses and holds the version.  This is stated of the names whose
/// versions in the result are at most `MAX_PROTOCOLS_TO_EXPAND`: a longer
/// version list is written, but does not parse.
pub proof fn lemma_vote_names_elected(
    reports: Seq<Seq<char>>,
    threshold: int,
    name: Seq<char>,
    v: u32,
)
    requires
        elected(report_entries(reports), name, threshold).len() <= MAX_PROTOCOLS_TO_EXPAND,
    ensures
        vote_count(words(vote_text(reports, threshold)), name, v) >= 1 <==> is_elected(
            report_entries(reports),
            name,
            v,
            threshold,
        ),
{
    let entries = report_entries(reports);
    let names = winners(entries, threshold);
    let items = vote_items(names, entries, threshold);
    let lines = vote_lines(items);
    lemma_winners(entries, threshold);
    lemma_report_entries_are_words(reports);
    assert forall|k: int| 0 <= k < names.len() implies is_word(#[trigger] lines[k]) && forall|
        i: int,
    |
        0 <= i < names[k].len() ==> names[k][i] != '=' by {
        let n = names[k];
        assert(names.contains(n));
        assert(name_wins(entries, n, threshold));
        let w = choose|w: u32| is_elected(entries, n, w, threshold);
        lemma_vote_count_positive(entries, n, w);
        let e = choose|e: int| 0 <= e < entries.len() && votes_for(#[trigger] entries[e], n, w);
        let entry = entries[e];
        assert(is_word(entry));
        lemma_find(entry, '=');
        assert forall|i: int| 0 <= i < n.len() implies n[i] != '=' && !is_blank(n[i]) by {
            assert(n[i] == entry[i]);
        }
        let list = elected_text(entries, n, threshold);
        lemma_compress_chars(ascending(elected(entries, n, threshold)));
        let line = lines[k];
        assert(line == n + seq!['='] + list);
        assert forall|i: int| 0 <= i < line.len() implies !is_blank(#[trigger] line[i]) by {
            if i < n.len() {
                assert(line[i] == n[i]);
            } else if i > n.len() {
                assert(line[i] == list[i - n.len() - 1]);
                assert(is_list_char(list[i - n.len() - 1]));
            }
        }
    }
    lemma_words_of_join(lines);
    lemma_vote_count_positive(lines, name, v);
    let set = elected(entries, name, threshold);
    lemma_ascending(set);
    lemma_ascending_len(ascending(set));
    if names.contains(name) {
        let k = choose|k: int| 0 <= k < names.len() && names[k] == name;
        assert(name_wins(entries, name, threshold));
        let w = choose|w: u32| is_elected(entries, name, w, threshold);
        assert(set.contains(w));
        assert(set.len() > 0) by {
            if set.len() == 0 {
                assert(set =~= Set::<u32>::empty());
            }
        }
        lemma_round_trip(ascending(set));
        assert(is_word(lines[k]));
        lemma_entry_parts(name, elected_text(entries, name, threshold));
        assert(lines[k] == name + seq!['='] + elected_text(entries, name, threshold));
        if is_elected(entries, name, v, threshold) {
            assert(votes_for(lines[k], name, v));
        }
    }
    if vote_count(lines, name, v) >= 1 {
        let k = choose|k: int| 0 <= k < lines.len() && votes_for(#[trigger] lines[k], name, v);
        assert(is_word(lines[k]));
        lemma_entry_parts(names[k], elected_text(entries, names[k], threshold));
        assert(lines[k] == names[k] + seq!['='] + elected_text(entries, names[k], threshold));
        assert(names[k] == name);
        assert(names.contains(name));
    }
}

} // verus!
