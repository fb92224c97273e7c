//! Voting: from the protocol lists that many nodes report, the list of the
//! versions that at least a given number of them reported.

use crate::names::{
    has_name, is_sorted_names, items_differ, lemma_sort_items, lemma_sorted_names_unique,
    name_before, sort_items, vote_lines, vote_view, write_vote_to_string,
};
use crate::tally::{
    count, has_distinct_names, lemma_count_contains, lemma_place_of, lemma_place_of_is,
    parse_protocols_with_duplicates, place_of, report_entries, tally_of, tally_versions,
    tally_view, texts, vote_count,
};
use crate::text::join;
use crate::versions::{
    add_span, ascending, compress, is_ascending, lemma_ascending_of, write_versions,
};
use vstd::prelude::*;

verus! {

/// Whether the version `v` of `name` is in the result of the vote: at least
/// one entry reports it, and at least `threshold` entries do.
pub open spec fn is_elected(
    entries: Seq<Seq<char>>,
    name: Seq<char>,
    v: u32,
    threshold: int,
) -> bool {
    vote_count(entries, name, v) >= 1 && vote_count(entries, name, v) >= threshold
}

/// The versions of `name` that are in the result of the vote.
pub open spec fn elected(entries: Seq<Seq<char>>, name: Seq<char>, threshold: int) -> Set<u32> {
    Set::new(|v: u32| is_elected(entries, name, v, threshold))
}

/// Whether some version of `name` is in the result of the vote.
pub open spec fn name_wins(entries: Seq<Seq<char>>, name: Seq<char>, threshold: int) -> bool {
    exists|v: u32| is_elected(entries, name, v, threshold)
}

/// Whether `names` are the names with a version in the result of the vote,
/// each once and in their order.
pub open spec fn is_winners(
    names: Seq<Seq<char>>,
    entries: Seq<Seq<char>>,
    threshold: int,
) -> bool {
    is_sorted_names(names) && forall|n: Seq<char>|
        #![trigger names.contains(n)]
        #![trigger name_wins(entries, n, threshold)]
        names.contains(n) <==> name_wins(entries, n, threshold)
}

/// The names with a version in the result of the vote, each once and in
/// their order.
pub open spec fn winners(entries: Seq<Seq<char>>, threshold: int) -> Seq<Seq<char>> {
    choose|names: Seq<Seq<char>>| is_winners(names, entries, threshold)
}

/// The version list of the versions of `name` in the result of the vote.
pub open spec fn elected_text(entries: Seq<Seq<char>>, name: Seq<char>, threshold: int) -> Seq<
    char,
> {
    compress(ascending(elected(entries, name, threshold)))
}

/// For each of `names`, the name and the version list of its versions in
/// the result of the vote.
pub open spec fn vote_items(
    names: Seq<Seq<char>>,
    entries: Seq<Seq<char>>,
    threshold: int,
) -> Seq<(Seq<char>, Seq<char>)> {
    names.map_values(|n: Seq<char>| (n, elected_text(entries, n, threshold)))
}

/// The result of the vote on `reports`, as a protocol list: for each name,
/// the versions of it that at least `threshold` entries of the reports name,
/// and that at least one names.  The names stand in their order, a name
/// without such a version is left out, and each version list is the shortest
/// one for its versions.
pub open spec fn vote_text(reports: Seq<Seq<char>>, threshold: int) -> Seq<char> {
    let entries = report_entries(reports);
    join(vote_lines(vote_items(winners(entries, threshold), entries, threshold)), ' ')
}

/// Items with different names that are the names with a version in the
/// result of the vote, each with the version list of those versions, are,
/// once sorted, the items that the result of the vote is written from.
pub proof fn lemma_vote_items(
    items: Seq<(Seq<char>, Seq<char>)>,
    entries: Seq<Seq<char>>,
    threshold: int,
)
    requires
        items_differ(items),
        forall|i: int|
            0 <= i < items.len() ==> (#[trigger] items[i]).1 == elected_text(
                entries,
                items[i].0,
                threshold,
            ),
        forall|n: Seq<char>|
            #![trigger name_wins(entries, n, threshold)]
            #![trigger has_name(items, n)]
            name_wins(entries, n, threshold) <==> has_name(items, n),
    ensures
        is_winners(winners(entries, threshold), entries, threshold),
        sort_items(items) == vote_items(winners(entries, threshold), entries, threshold),
{
    let sorted = sort_items(items);
    lemma_sort_items(items);
    let names = sorted.map_values(|x: (Seq<char>, Seq<char>)| x.0);
    assert forall|n: Seq<char>|
        #![trigger names.contains(n)]
        #![trigger name_wins(entries, n, threshold)]
        names.contains(n) <==> name_wins(entries, n, threshold) by {
        if names.contains(n) {
            let p = choose|p: int| 0 <= p < names.len() && names[p] == n;
            assert(sorted.contains(sorted[p]));
            let q = choose|q: int| 0 <= q < items.len() && items[q] == sorted[p];
            assert(items[q].0 == n);
            assert(has_name(items, n));
        }
        if name_wins(entries, n, threshold) {
            assert(has_name(items, n));
            let q = choose|q: int| 0 <= q < items.len() && (#[trigger] items[q]).0 == n;
            assert(items.contains(items[q]));
            assert(sorted.contains(items[q]));
            let p = choose|p: int| 0 <= p < sorted.len() && sorted[p] == items[q];
            assert(names[p] == n);
        }
    }
    assert(is_sorted_names(names)) by {
        assert forall|i: int, j: int| 0 <= i < j < names.len() implies name_before(
            names[i],
            names[j],
        ) by {
            assert(name_before(sorted[i].0, sorted[j].0));
        }
    }
    assert(is_winners(names, entries, threshold));
    let chosen = winners(entries, threshold);
    assert(is_winners(chosen, entries, threshold));
    lemma_sorted_names_unique(names, chosen);
    let wanted = vote_items(chosen, entries, threshold);
    assert forall|p: int| 0 <= p < sorted.len() implies sorted[p] == wanted[p] by {
        assert(sorted.contains(sorted[p]));
        let q = choose|q: int| 0 <= q < items.len() && items[q] == sorted[p];
        assert(items[q].1 == elected_text(entries, items[q].0, threshold));
        assert(names[p] == sorted[p].0);
    }
    assert(sorted =~= wanted);
}

/// The number of times that `v` occurs in `versions`.
fn count_of(versions: &Vec<u32>, v: u32) -> (n: usize)
    ensures
        n == count(versions@, v),
{
    let mut n: usize = 0;
    let mut i: usize = 0;
    assert(versions@.take(0) =~= Seq::<u32>::empty());
    while i < versions.len()
        invariant
            i <= versions.len(),
            n <= i,
            n == count(versions@.take(i as int), v),
        decreases versions.len() - i,
    {
        proof {
            assert(versions@.take(i + 1).drop_last() =~= versions@.take(i as int));
            assert(versions@.take(i + 1).last() == versions@[i as int]);
        }
        if versions[i] == v {
            n += 1;
        }
        i += 1;
    }
    assert(versions@.take(i as int) =~= versions@);
    n
}

/// The versions that occur in `versions` at least once and at least
/// `threshold` times, in ascending order.
fn elect(versions: &Vec<u32>, threshold: i32) -> (kept: Vec<u32>)
    ensures
        is_ascending(kept@),
        forall|v: u32|
            #![trigger kept@.contains(v)]
            #![trigger count(versions@, v)]
            kept@.contains(v) <==> count(versions@, v) >= 1 && count(versions@, v) >= threshold,
{
    let mut kept: Vec<u32> = Vec::new();
    let mut j: usize = 0;
    while j < versions.len()
        invariant
            j <= versions.len(),
            is_ascending(kept@),
            forall|v: u32|
                #![trigger kept@.contains(v)]
                #![trigger count(versions@, v)]
                kept@.contains(v) <==> versions@.take(j as int).contains(v) && count(
                    versions@,
                    v,
                ) >= threshold,
        decreases versions.len() - j,
    {
        let version = versions[j];
        let ghost before = kept@;
        let n = count_of(versions, version);
        if threshold <= 0 || n >= threshold as usize {
            kept = add_span(&kept, version, version);
        }
        proof {
            let seen = versions@.take(j as int);
            let longer = versions@.take(j + 1);
            assert(longer =~= seen.push(version));
            assert forall|v: u32|
                #![trigger kept@.contains(v)]
                #![trigger count(versions@, v)]
                kept@.contains(v) <==> longer.contains(v) && count(versions@, v)
                    >= threshold by {
                assert(kept@.to_set().contains(v) == kept@.contains(v));
                assert(before.to_set().contains(v) == before.contains(v));
                if seen.contains(v) {
                    let k = choose|k: int| 0 <= k < seen.len() && seen[k] == v;
                    assert(longer[k] == v);
                }
                if longer.contains(v) {
                    let k = choose|k: int| 0 <= k < longer.len() && longer[k] == v;
                    if k < seen.len() {
                        assert(seen[k] == v);
                    }
                }
                assert(longer[j as int] == version);
            }
        }
        j += 1;
    }
    proof {
        assert(versions@.take(j as int) =~= versions@);
        assert forall|v: u32|
            #![trigger kept@.contains(v)]
            #![trigger count(versions@, v)]
            kept@.contains(v) <==> count(versions@, v) >= 1 && count(versions@, v)
                >= threshold by {
            lemma_count_contains(versions@, v);
        }
    }
    kept
}

/// Computes the vote on the protocol lists that nodes report.
///
/// The result is a protocol list that names, for each name, the versions
/// that at least `threshold` entries of the reports name under it.  Each
/// report is cut into entries at its blanks; an entry that has no `=` or
/// whose version list does not parse is passed over, and an entry counts once
/// for each version that it names.  A name may be any text: the vote is not
/// limited to the subprotocols that this build knows.  A `threshold` of zero
/// or less lets every reported version pass.
///
/// The names stand in the order of the code points of their characters, a
/// name of which no version passes is left out, and versions are written in
/// ascending order with each run of consecutive versions as a range.  Without
/// reports the result is the empty text.
pub fn compute_vote(protos: Vec<String>, threshold: i32) -> (text: String)
    ensures
        text@ == vote_text(texts(protos@), threshold as int),
{
    let ghost reports = texts(protos@);
    let ghost entries = report_entries(reports);
    let ghost limit = threshold as int;
    if protos.is_empty() {
        proof {
            let none = Seq::<(Seq<char>, Seq<char>)>::empty();
            assert(entries =~= Seq::<Seq<char>>::empty());
            assert forall|n: Seq<char>|
                #![trigger name_wins(entries, n, limit)]
                #![trigger has_name(none, n)]
                name_wins(entries, n, limit) <==> has_name(none, n) by {
                assert forall|v: u32| !is_elected(entries, n, v, limit) by {}
            }
            lemma_vote_items(none, entries, limit);
            assert(vote_lines(sort_items(none)) =~= Seq::<Seq<char>>::empty());
        }
        return String::new();
    }
    let tally = parse_protocols_with_duplicates(protos);
    let ghost held = tally_view(tally@);
    let mut vote: Vec<(String, String)> = Vec::new();
    let ghost mut source: Seq<int> = Seq::empty();
    let mut i: usize = 0;
    while i < tally.len()
        invariant
            i <= tally.len(),
            held == tally_view(tally@),
            held == tally_of(entries),
            has_distinct_names(held),
            limit == threshold as int,
            forall|name: Seq<char>, v: u32|
                count(tally_versions(held, name), v) == #[trigger] vote_count(entries, name, v),
            source.len() == vote@.len(),
            forall|k: int|
                0 <= k < source.len() ==> 0 <= (#[trigger] source[k]) < i && vote_view(
                    vote@,
                )[k].0 == held[source[k]].0,
            forall|a: int, b: int| 0 <= a < b < source.len() ==> source[a] < source[b],
            forall|k: int|
                0 <= k < vote@.len() ==> (#[trigger] vote_view(vote@)[k]).1 == elected_text(
                    entries,
                    vote_view(vote@)[k].0,
                    limit,
                ),
            forall|j: int|
                0 <= j < i ==> (name_wins(entries, (#[trigger] held[j]).0, limit) <==> has_name(
                    vote_view(vote@),
                    held[j].0,
                )),
        decreases tally.len() - i,
    {
        let ghost name = held[i as int].0;
        let ghost before = vote_view(vote@);
        let kept = elect(&tally[i].1, threshold);
        proof {
            lemma_place_of_is(held, name, i as int);
            assert(tally_versions(held, name) == tally@[i as int].1@);
            assert forall|v: u32| kept@.to_set().contains(v) == elected(
                entries,
                name,
                limit,
            ).contains(v) by {
                assert(kept@.to_set().contains(v) == kept@.contains(v));
                assert(count(tally_versions(held, name), v) == vote_count(entries, name, v));
            }
            assert(kept@.to_set() =~= elected(entries, name, limit));
            lemma_ascending_of(kept@);
            if kept@.len() > 0 {
                assert(kept@.contains(kept@[0]));
                assert(is_elected(entries, name, kept@[0], limit));
            } else {
                assert forall|v: u32| !is_elected(entries, name, v, limit) by {
                    assert(!kept@.to_set().contains(v));
                }
            }
        }
        if kept.len() > 0 {
            let versions = write_versions(&kept);
            vote.push((tally[i].0.clone(), versions));
            proof {
                source = source.push(i as int);
                let after = vote_view(vote@);
                assert(after =~= before.push((name, elected_text(entries, name, limit))));
                assert(has_name(after, name)) by {
                    assert(after[after.len() - 1].0 == name);
                }
                assert forall|j: int| 0 <= j < i implies (name_wins(
                    entries,
                    (#[trigger] held[j]).0,
                    limit,
                ) <==> has_name(after, held[j].0)) by {
                    let n = held[j].0;
                    if has_name(before, n) {
                        let k = choose|k: int| 0 <= k < before.len() && (#[trigger] before[k]).0
                            == n;
                        assert(after[k].0 == n);
                    }
                    if has_name(after, n) {
                        let k = choose|k: int| 0 <= k < after.len() && (#[trigger] after[k]).0
                            == n;
                        if k < before.len() {
                            assert(before[k].0 == n);
                        }
                    }
                }
            }
        } else {
            proof {
                if has_name(before, name) {
                    let k = choose|k: int| 0 <= k < before.len() && (#[trigger] before[k]).0
                        == name;
                    assert(held[source[k]].0 == name);
                }
            }
        }
        i += 1;
    }
    proof {
        let items = vote_view(vote@);
        assert(items_differ(items)) by {
            assert forall|a: int, b: int| 0 <= a < b < items.len() implies items[a].0
                != items[b].0 by {
                assert(source[a] < source[b]);
            }
        }
        assert forall|n: Seq<char>|
            #![trigger name_wins(entries, n, limit)]
            #![trigger has_name(items, n)]
            name_wins(entries, n, limit) <==> has_name(items, n) by {
            let j = place_of(held, n);
            lemma_place_of(held, n);
            if j < held.len() {
                assert(held[j].0 == n);
            } else {
                assert(tally_versions(held, n) =~= Seq::<u32>::empty());
                assert forall|v: u32| !is_elected(entries, n, v, limit) by {
                    assert(count(tally_versions(held, n), v) == vote_count(entries, n, v));
                }
                if has_name(items, n) {
                    let k = choose|k: int| 0 <= k < items.len() && (#[trigger] items[k]).0 == n;
                    assert(held[source[k]].0 == n);
                }
            }
        }
        lemma_vote_items(items, entries, limit);
    }
    write_vote_to_string(&vote)
}

} // verus!
