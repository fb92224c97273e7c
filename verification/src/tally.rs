//! The tally of a vote: for each name, the versions that the entries of the
//! reports name under it, each as often as it was named.

use crate::support::{entry_name, entry_versions};
use crate::text::{chars_match, chars_of, find_char, slice_chars, split_words, words};
use crate::versions::{ascending, is_ascending, lemma_ascending, lemma_ascending_of, read_versions};
use vstd::prelude::*;
use vstd::string::StringExecFns;

verus! {

/// The texts of some strings.
pub open spec fn texts(strings: Seq<String>) -> Seq<Seq<char>> {
    strings.map_values(|s: String| s@)
}

/// The entries of all reports, in the order of the reports and, within a
/// report, in the order in which they stand.
pub open spec fn report_entries(reports: Seq<Seq<char>>) -> Seq<Seq<char>>
    decreases reports.len(),
{
    if reports.len() == 0 {
        Seq::empty()
    } else {
        report_entries(reports.drop_last()) + words(reports.last())
    }
}

/// Whether `entry` reports the version `v` of `name`: it carries that name
/// and a version list that parses and names `v`.
pub open spec fn votes_for(entry: Seq<char>, name: Seq<char>, v: u32) -> bool {
    entry_name(entry) == name && (entry_versions(entry) matches Ok(set) && set.contains(v))
}

/// The number of entries that report the version `v` of `name`.
pub open spec fn vote_count(entries: Seq<Seq<char>>, name: Seq<char>, v: u32) -> nat
    decreases entries.len(),
{
    if entries.len() == 0 {
        0
    } else {
        vote_count(entries.drop_last(), name, v) + if votes_for(entries.last(), name, v) {
            1nat
        } else {
            0nat
        }
    }
}

/// A tally as a sequence of names, each with the versions reported under it.
pub open spec fn tally_view(tally: Seq<(String, Vec<u32>)>) -> Seq<(Seq<char>, Seq<u32>)> {
    tally.map_values(|item: (String, Vec<u32>)| (item.0@, item.1@))
}

/// The place of `name` in a tally: the number of items in front of the
/// first one with that name, or the length of the tally if there is none.
pub open spec fn place_of(tally: Seq<(Seq<char>, Seq<u32>)>, name: Seq<char>) -> int
    decreases tally.len(),
{
    if tally.len() == 0 || tally[0].0 == name {
        0
    } else {
        1 + place_of(tally.drop_first(), name)
    }
}

/// The tally after `versions` were reported under `name`: they are added
/// behind the versions that the tally holds under that name, or, for a name
/// that it does not hold, in a new item at the end.
pub open spec fn record(
    tally: Seq<(Seq<char>, Seq<u32>)>,
    name: Seq<char>,
    versions: Seq<u32>,
) -> Seq<(Seq<char>, Seq<u32>)> {
    let i = place_of(tally, name);
    if 0 <= i < tally.len() {
        tally.update(i, (name, tally[i].1 + versions))
    } else {
        tally.push((name, versions))
    }
}

/// The tally of a sequence of entries.  An entry counts if it has a `=` and
/// a version list behind it that parses; what stands in front of the `=` is
/// its name, whether a subprotocol has that name or not.  The other entries
/// are passed over.  The versions of an entry are added in ascending order.
pub open spec fn tally_of(entries: Seq<Seq<char>>) -> Seq<(Seq<char>, Seq<u32>)>
    decreases entries.len(),
{
    if entries.len() == 0 {
        Seq::empty()
    } else {
        let tally = tally_of(entries.drop_last());
        match entry_versions(entries.last()) {
            Err(_) => tally,
            Ok(set) => record(tally, entry_name(entries.last()), ascending(set)),
        }
    }
}

/// The number of times that `v` occurs in `s`.
pub open spec fn count(s: Seq<u32>, v: u32) -> nat
    decreases s.len(),
{
    if s.len() == 0 {
        0
    } else {
        count(s.drop_last(), v) + if s.last() == v {
            1nat
        } else {
            0nat
        }
    }
}

/// The versions that a tally holds under `name`.
pub open spec fn tally_versions(tally: Seq<(Seq<char>, Seq<u32>)>, name: Seq<char>) -> Seq<u32> {
    let i = place_of(tally, name);
    if 0 <= i < tally.len() {
        tally[i].1
    } else {
        Seq::empty()
    }
}

/// Whether no two items of a tally have the same name.
pub open spec fn has_distinct_names(tally: Seq<(Seq<char>, Seq<u32>)>) -> bool {
    forall|i: int, j: int| 0 <= i < j < tally.len() ==> tally[i].0 != tally[j].0
}

/// `place_of` returns the position of the first item with the name.
pub proof fn lemma_place_of(tally: Seq<(Seq<char>, Seq<u32>)>, name: Seq<char>)
    ensures
        0 <= place_of(tally, name) <= tally.len(),
        forall|j: int| 0 <= j < place_of(tally, name) ==> tally[j].0 != name,
        place_of(tally, name) < tally.len() ==> tally[place_of(tally, name)].0 == name,
    decreases tally.len(),
{
    if tally.len() == 0 || tally[0].0 == name {
    } else {
        let rest = tally.drop_first();
        lemma_place_of(rest, name);
        assert forall|j: int| 0 <= j < place_of(tally, name) implies tally[j].0 != name by {
            if j > 0 {
                assert(tally[j] == rest[j - 1]);
            }
        }
        assert(place_of(tally, name) < tally.len() ==> tally[place_of(tally, name)] == rest[place_of(
            rest,
            name,
        )]);
    }
}

/// `place_of` returns the position of the first item with the name.
pub proof fn lemma_place_of_is(tally: Seq<(Seq<char>, Seq<u32>)>, name: Seq<char>, i: int)
    requires
        0 <= i <= tally.len(),
        forall|j: int| 0 <= j < i ==> tally[j].0 != name,
        i < tally.len() ==> tally[i].0 == name,
    ensures
        place_of(tally, name) == i,
    decreases tally.len(),
{
    if tally.len() == 0 || tally[0].0 == name {
    } else {
        let rest = tally.drop_first();
        assert forall|j: int| 0 <= j < i - 1 implies rest[j].0 != name by {
            assert(rest[j] == tally[j + 1]);
        }
        lemma_place_of_is(rest, name, i - 1);
    }
}

/// A version occurs in the concatenation of two sequences as often as in
/// both together.
pub proof fn lemma_count_add(a: Seq<u32>, b: Seq<u32>, v: u32)
    ensures
        count(a + b, v) == count(a, v) + count(b, v),
    decreases b.len(),
{
    if b.len() == 0 {
        assert(a + b =~= a);
    } else {
        assert((a + b).drop_last() =~= a + b.drop_last());
        lemma_count_add(a, b.drop_last(), v);
    }
}

/// A version occurs in a sequence if and only if it occurs there at least
/// once.
pub proof fn lemma_count_contains(s: Seq<u32>, v: u32)
    ensures
        s.contains(v) <==> count(s, v) >= 1,
    decreases s.len(),
{
    if s.len() > 0 {
        lemma_count_contains(s.drop_last(), v);
        if s.contains(v) {
            let k = choose|k: int| 0 <= k < s.len() && s[k] == v;
            if k < s.len() - 1 {
                assert(s.drop_last()[k] == v);
            }
        }
        if s.drop_last().contains(v) {
            let k = choose|k: int| 0 <= k < s.drop_last().len() && s.drop_last()[k] == v;
            assert(s[k] == v);
        }
        if s.last() == v {
            assert(s[s.len() - 1] == v);
        }
    }
}

/// A version occurs in an ascending sequence once or not at all.
pub proof fn lemma_count_ascending(s: Seq<u32>, v: u32)
    requires
        is_ascending(s),
    ensures
        count(s, v) == if s.contains(v) {
            1nat
        } else {
            0nat
        },
    decreases s.len(),
{
    lemma_count_contains(s, v);
    if s.len() > 0 {
        lemma_count_ascending(s.drop_last(), v);
        lemma_count_contains(s.drop_last(), v);
        if s.last() == v && s.drop_last().contains(v) {
            let k = choose|k: int| 0 <= k < s.drop_last().len() && s.drop_last()[k] == v;
            assert(s[k] < s[s.len() - 1]);
        }
    }
}

/// The tally of a sequence of entries has no name twice, and holds each
/// version under a name as often as entries report it under that name.
pub proof fn lemma_tally_counts(entries: Seq<Seq<char>>)
    ensures
        has_distinct_names(tally_of(entries)),
        forall|name: Seq<char>, v: u32|
            count(tally_versions(tally_of(entries), name), v) == #[trigger] vote_count(
                entries,
                name,
                v,
            ),
    decreases entries.len(),
{
    if entries.len() > 0 {
        let earlier = entries.drop_last();
        let entry = entries.last();
        let old = tally_of(earlier);
        let new = tally_of(entries);
        lemma_tally_counts(earlier);
        match entry_versions(entry) {
            Err(_) => {
                assert forall|other: Seq<char>, v: u32|
                    count(tally_versions(new, other), v) == #[trigger] vote_count(
                        entries,
                        other,
                        v,
                    ) by {
                    assert(vote_count(earlier, other, v) == count(tally_versions(old, other), v));
                }
            },
            Ok(set) => {
                let name = entry_name(entry);
                let versions = ascending(set);
                let i = place_of(old, name);
                lemma_place_of(old, name);
                lemma_ascending(set);
                assert forall|a: int, b: int| 0 <= a < b < new.len() implies new[a].0
                    != new[b].0 by {}
                assert forall|other: Seq<char>, v: u32|
                    count(tally_versions(new, other), v) == #[trigger] vote_count(
                        entries,
                        other,
                        v,
                    ) by {
                    let j = place_of(old, other);
                    lemma_place_of(old, other);
                    assert(vote_count(earlier, other, v) == count(tally_versions(old, other), v));
                    if other == name {
                        lemma_place_of_is(new, other, i);
                        lemma_count_add(tally_versions(old, other), versions, v);
                        lemma_count_ascending(versions, v);
                        assert(versions.to_set().contains(v) == set.contains(v));
                        assert(tally_versions(new, other) =~= tally_versions(old, other)
                            + versions);
                    } else if j < old.len() || i < old.len() {
                        lemma_place_of_is(new, other, j);
                        assert(tally_versions(new, other) =~= tally_versions(old, other));
                    } else {
                        lemma_place_of_is(new, other, j + 1);
                        assert(tally_versions(new, other) =~= tally_versions(old, other));
                    }
                }
            },
        }
    } else {
        assert forall|name: Seq<char>, v: u32|
            count(tally_versions(tally_of(entries), name), v) == #[trigger] vote_count(
                entries,
                name,
                v,
            ) by {
            assert(tally_versions(tally_of(entries), name) =~= Seq::<u32>::empty());
        }
    }
}

/// Adds `versions` to the tally under `name`.
fn record_votes(
    tally: &mut Vec<(String, Vec<u32>)>,
    cs: &Vec<char>,
    from: usize,
    to: usize,
    name: &str,
    versions: Vec<u32>,
)
    requires
        from <= to <= cs.len(),
        name@ == cs@.subrange(from as int, to as int),
    ensures
        tally_view(final(tally)@) == record(tally_view(old(tally)@), name@, versions@),
{
    let ghost before = tally_view(tally@);
    let ghost added = versions@;
    let mut versions = versions;
    let mut i: usize = 0;
    while i < tally.len() && !chars_match(cs, from, to, tally[i].0.as_str())
        invariant
            i <= tally.len(),
            from <= to <= cs.len(),
            name@ == cs@.subrange(from as int, to as int),
            before == tally_view(tally@),
            forall|j: int| 0 <= j < i ==> before[j].0 != name@,
        decreases tally.len() - i,
    {
        assert(before[i as int].0 == tally@[i as int].0@);
        i += 1;
    }
    proof {
        if i < tally.len() {
            assert(before[i as int].0 == tally@[i as int].0@);
        }
        lemma_place_of_is(before, name@, i as int);
    }
    if i < tally.len() {
        let (same, mut all) = tally.remove(i);
        all.append(&mut versions);
        tally.insert(i, (same, all));
        assert(tally_view(tally@) =~= record(before, name@, added));
    } else {
        tally.push((String::from_str(name), versions));
        assert(tally_view(tally@) =~= record(before, name@, added));
    }
}

/// Collects what the reports say: for each name the versions reported under
/// it, with a version as many times as it was reported.
///
/// Each report is cut into entries at its blanks.  An entry that has no `=`
/// or whose version list does not parse is passed over.  The names stand in
/// the order in which they first occur, each once, and under a name a
/// version stands once for each entry that names it.
pub fn parse_protocols_with_duplicates(protocols: Vec<String>) -> (tally: Vec<(String, Vec<u32>)>)
    ensures
        tally_view(tally@) == tally_of(report_entries(texts(protocols@))),
        has_distinct_names(tally_view(tally@)),
        forall|name: Seq<char>, v: u32|
            count(tally_versions(tally_view(tally@), name), v) == #[trigger] vote_count(
                report_entries(texts(protocols@)),
                name,
                v,
            ),
{
    let ghost reports = texts(protocols@);
    let mut tally: Vec<(String, Vec<u32>)> = Vec::new();
    let mut r: usize = 0;
    proof {
        assert(reports.take(0) =~= Seq::<Seq<char>>::empty());
        assert(tally_view(tally@) =~= Seq::<(Seq<char>, Seq<u32>)>::empty());
    }
    while r < protocols.len()
        invariant
            r <= protocols.len(),
            reports == texts(protocols@),
            tally_view(tally@) == tally_of(report_entries(reports.take(r as int))),
        decreases protocols.len() - r,
    {
        let report = protocols[r].as_str();
        let ascii = report.is_ascii();
        let cs = chars_of(report);
        let bounds = split_words(&cs);
        let ghost earlier = report_entries(reports.take(r as int));
        let ghost entries = words(cs@);
        let mut i: usize = 0;
        proof {
            assert(reports.take(r + 1).drop_last() =~= reports.take(r as int));
            assert(reports.take(r + 1).last() == cs@);
            assert(earlier + entries.take(0) =~= earlier);
        }
        while i < bounds.len()
            invariant
                i <= bounds.len(),
                cs@ == report@,
                ascii ==> report.is_ascii(),
                entries == words(cs@),
                bounds@.len() == entries.len(),
                forall|k: int|
                    0 <= k < bounds@.len() ==> {
                        &&& (#[trigger] bounds@[k]).0 < bounds@[k].1 <= cs@.len()
                        &&& cs@.subrange(bounds@[k].0 as int, bounds@[k].1 as int) == entries[k]
                    },
                tally_view(tally@) == tally_of(earlier + entries.take(i as int)),
            decreases bounds.len() - i,
        {
            let (from, to) = bounds[i];
            let ghost entry = entries[i as int];
            proof {
                let longer = earlier + entries.take(i + 1);
                assert(longer.drop_last() =~= earlier + entries.take(i as int));
                assert(longer.last() == entry);
            }
            let eq = find_char(&cs, from, to, '=');
            if eq < to {
                proof {
                    assert(entry.take(eq - from) =~= cs@.subrange(from as int, eq as int));
                    assert(entry.skip(eq - from + 1) =~= cs@.subrange(eq + 1, to as int));
                }
                match read_versions(&cs, eq + 1, to) {
                    Err(_) => {},
                    Ok(versions) => {
                        proof {
                            lemma_ascending_of(versions@);
                        }
                        let name = slice_chars(report, ascii, from, eq);
                        record_votes(&mut tally, &cs, from, eq, name, versions);
                    },
                }
            }
            i += 1;
        }
        proof {
            assert(entries.take(i as int) =~= entries);
        }
        r += 1;
    }
    proof {
        assert(reports.take(r as int) =~= reports);
        lemma_tally_counts(report_entries(reports));
    }
    tally
}

} // verus!
