//! The order of names, and the result of a vote written in that order.

use crate::text::{chars_of, join};
use vstd::prelude::*;
use vstd::string::StringExecFns;

verus! {

/// Whether the name `a` comes before the name `b`: at the first place where
/// they differ `a` has the smaller character, or `a` ends there and `b` goes
/// on.  Characters are ordered by their code points.
pub open spec fn name_before(a: Seq<char>, b: Seq<char>) -> bool
    decreases a.len(),
{
    if b.len() == 0 {
        false
    } else if a.len() == 0 {
        true
    } else if a[0] != b[0] {
        a[0] < b[0]
    } else {
        name_before(a.drop_first(), b.drop_first())
    }
}

/// No name comes before itself.
pub proof fn lemma_name_before_irreflexive(a: Seq<char>)
    ensures
        !name_before(a, a),
    decreases a.len(),
{
    if a.len() > 0 {
        lemma_name_before_irreflexive(a.drop_first());
    }
}

/// If `a` comes before `b` and `b` before `c`, then `a` comes before `c`.
pub proof fn lemma_name_before_transitive(a: Seq<char>, b: Seq<char>, c: Seq<char>)
    requires
        name_before(a, b),
        name_before(b, c),
    ensures
        name_before(a, c),
    decreases a.len(),
{
    if a.len() > 0 && a[0] == b[0] && b[0] == c[0] {
        lemma_name_before_transitive(a.drop_first(), b.drop_first(), c.drop_first());
    }
}

/// Of two different names one comes before the other.
pub proof fn lemma_name_before_total(a: Seq<char>, b: Seq<char>)
    requires
        a != b,
    ensures
        name_before(a, b) || name_before(b, a),
    decreases a.len(),
{
    if a.len() > 0 && b.len() > 0 && a[0] == b[0] {
        if a.drop_first() == b.drop_first() {
            assert(a =~= seq![a[0]] + a.drop_first());
            assert(b =~= seq![b[0]] + b.drop_first());
        }
        lemma_name_before_total(a.drop_first(), b.drop_first());
    } else if a.len() == 0 && b.len() == 0 {
        assert(a =~= b);
    }
}

/// Whether each name comes before the names behind it.
pub open spec fn is_sorted_names(names: Seq<Seq<char>>) -> bool {
    forall|i: int, j: int| 0 <= i < j < names.len() ==> name_before(names[i], names[j])
}

/// Two sequences of names in their order that hold the same names are
/// equal.
pub proof fn lemma_sorted_names_unique(a: Seq<Seq<char>>, b: Seq<Seq<char>>)
    requires
        is_sorted_names(a),
        is_sorted_names(b),
        forall|n: Seq<char>|
            #![trigger a.contains(n)]
            #![trigger b.contains(n)]
            a.contains(n) <==> b.contains(n),
    ensures
        a == b,
    decreases a.len(),
{
    if a.len() == 0 {
        if b.len() > 0 {
            assert(b.contains(b[0]));
        }
        assert(a =~= b);
    } else {
        let x = a.last();
        assert(a.contains(x));
        assert(b.contains(x));
        let y = b.last();
        assert(b.contains(y));
        assert(a.contains(y));
        let k = choose|k: int| 0 <= k < b.len() && b[k] == x;
        let m = choose|m: int| 0 <= m < a.len() && a[m] == y;
        if x != y {
            assert(name_before(x, y));
            assert(name_before(y, x));
            lemma_name_before_transitive(x, y, x);
            lemma_name_before_irreflexive(x);
        }
        let a1 = a.drop_last();
        let b1 = b.drop_last();
        assert forall|n: Seq<char>|
            #![trigger a1.contains(n)]
            #![trigger b1.contains(n)]
            a1.contains(n) <==> b1.contains(n) by {
            lemma_name_before_irreflexive(n);
            if a1.contains(n) {
                let i = choose|i: int| 0 <= i < a1.len() && a1[i] == n;
                assert(name_before(a[i], a[a.len() - 1]));
                assert(a.contains(n));
                let j = choose|j: int| 0 <= j < b.len() && b[j] == n;
                assert(b1[j] == n);
            }
            if b1.contains(n) {
                let i = choose|i: int| 0 <= i < b1.len() && b1[i] == n;
                assert(name_before(b[i], b[b.len() - 1]));
                assert(b.contains(n));
                let j = choose|j: int| 0 <= j < a.len() && a[j] == n;
                assert(a1[j] == n);
            }
        }
        lemma_sorted_names_unique(a1, b1);
        assert(a =~= a1.push(x));
        assert(b =~= b1.push(y));
    }
}

/// Whether the name `a` comes before the name `b`.
fn name_less(a: &Vec<char>, b: &Vec<char>) -> (r: bool)
    ensures
        r == name_before(a@, b@),
{
    let mut i: usize = 0;
    assert(a@.skip(0) =~= a@);
    assert(b@.skip(0) =~= b@);
    loop
        invariant
            i <= a.len(),
            i <= b.len(),
            name_before(a@, b@) == name_before(a@.skip(i as int), b@.skip(i as int)),
        decreases a.len() - i,
    {
        if i == b.len() {
            return false;
        }
        if i == a.len() {
            return true;
        }
        proof {
            assert(a@.skip(i as int)[0] == a@[i as int]);
            assert(b@.skip(i as int)[0] == b@[i as int]);
            assert(a@.skip(i as int).drop_first() =~= a@.skip(i + 1));
            assert(b@.skip(i as int).drop_first() =~= b@.skip(i + 1));
        }
        if a[i] != b[i] {
            return a[i] < b[i];
        }
        i += 1;
    }
}

/// The result of a vote as a sequence of names, each with its version list.
pub open spec fn vote_view(vote: Seq<(String, String)>) -> Seq<(Seq<char>, Seq<char>)> {
    vote.map_values(|item: (String, String)| (item.0@, item.1@))
}

/// One entry of a protocol list: a name, `=`, and a version list.
pub open spec fn vote_line(item: (Seq<char>, Seq<char>)) -> Seq<char> {
    item.0 + seq!['='] + item.1
}

/// The entries of a protocol list, one for each item.
pub open spec fn vote_lines(items: Seq<(Seq<char>, Seq<char>)>) -> Seq<Seq<char>> {
    items.map_values(|item: (Seq<char>, Seq<char>)| vote_line(item))
}

/// The items `sorted` with `item` put in front of the items at the end
/// whose names come after its name.
pub open spec fn insert_item(
    sorted: Seq<(Seq<char>, Seq<char>)>,
    item: (Seq<char>, Seq<char>),
) -> Seq<(Seq<char>, Seq<char>)>
    decreases sorted.len(),
{
    if sorted.len() > 0 && name_before(item.0, sorted.last().0) {
        insert_item(sorted.drop_last(), item).push(sorted.last())
    } else {
        sorted.push(item)
    }
}

/// The items in the order of their names.  Items of one name keep their
/// order.
pub open spec fn sort_items(items: Seq<(Seq<char>, Seq<char>)>) -> Seq<(Seq<char>, Seq<char>)>
    decreases items.len(),
{
    if items.len() == 0 {
        Seq::empty()
    } else {
        insert_item(sort_items(items.drop_last()), items.last())
    }
}

/// Whether one of `items` has the name `n`.
pub open spec fn has_name(items: Seq<(Seq<char>, Seq<char>)>, n: Seq<char>) -> bool {
    exists|i: int| 0 <= i < items.len() && (#[trigger] items[i]).0 == n
}

/// Whether no two of `items` have the same name.
pub open spec fn items_differ(items: Seq<(Seq<char>, Seq<char>)>) -> bool {
    forall|i: int, j: int| 0 <= i < j < items.len() ==> items[i].0 != items[j].0
}

/// Putting an item in its place is inserting it at the position `k`, if its
/// name comes before the names from `k` on and not before the name in front
/// of `k`.
pub proof fn lemma_insert_item_at(
    sorted: Seq<(Seq<char>, Seq<char>)>,
    item: (Seq<char>, Seq<char>),
    k: int,
)
    requires
        0 <= k <= sorted.len(),
        forall|j: int| k <= j < sorted.len() ==> name_before(item.0, (#[trigger] sorted[j]).0),
        k > 0 ==> !name_before(item.0, sorted[k - 1].0),
    ensures
        insert_item(sorted, item) == sorted.insert(k, item),
    decreases sorted.len(),
{
    if sorted.len() == 0 || k == sorted.len() {
        assert(sorted.push(item) =~= sorted.insert(k, item));
    } else {
        let shorter = sorted.drop_last();
        assert(name_before(item.0, sorted[sorted.len() - 1].0));
        assert forall|j: int| k <= j < shorter.len() implies name_before(
            item.0,
            (#[trigger] shorter[j]).0,
        ) by {
            assert(shorter[j] == sorted[j]);
        }
        lemma_insert_item_at(shorter, item, k);
        assert(shorter.insert(k, item).push(sorted.last()) =~= sorted.insert(k, item));
    }
}

/// The position at which `insert_item` puts an item.
proof fn lemma_insert_item_place(
    sorted: Seq<(Seq<char>, Seq<char>)>,
    item: (Seq<char>, Seq<char>),
) -> (k: int)
    ensures
        0 <= k <= sorted.len(),
        insert_item(sorted, item) == sorted.insert(k, item),
        forall|j: int| k <= j < sorted.len() ==> name_before(item.0, (#[trigger] sorted[j]).0),
        k > 0 ==> !name_before(item.0, sorted[k - 1].0),
    decreases sorted.len(),
{
    let k = if sorted.len() > 0 && name_before(item.0, sorted.last().0) {
        let shorter = sorted.drop_last();
        let k = lemma_insert_item_place(shorter, item);
        assert forall|j: int| k <= j < sorted.len() implies name_before(
            item.0,
            (#[trigger] sorted[j]).0,
        ) by {
            if j < shorter.len() {
                assert(shorter[j] == sorted[j]);
            }
        }
        if k > 0 {
            assert(shorter[k - 1] == sorted[k - 1]);
        }
        k
    } else {
        sorted.len() as int
    };
    lemma_insert_item_at(sorted, item, k);
    k
}

/// Sorting items with different names gives the same items with each name
/// in front of the names that come after it.
pub proof fn lemma_sort_items(items: Seq<(Seq<char>, Seq<char>)>)
    requires
        items_differ(items),
    ensures
        sort_items(items).len() == items.len(),
        forall|x: (Seq<char>, Seq<char>)|
            #![trigger sort_items(items).contains(x)]
            #![trigger items.contains(x)]
            sort_items(items).contains(x) <==> items.contains(x),
        forall|i: int, j: int|
            0 <= i < j < items.len() ==> name_before(
                (#[trigger] sort_items(items)[i]).0,
                (#[trigger] sort_items(items)[j]).0,
            ),
    decreases items.len(),
{
    if items.len() > 0 {
        let earlier = items.drop_last();
        let item = items.last();
        let sorted = sort_items(earlier);
        let r = sort_items(items);
        assert(items_differ(earlier)) by {
            assert forall|i: int, j: int| 0 <= i < j < earlier.len() implies earlier[i].0
                != earlier[j].0 by {
                assert(earlier[i] == items[i] && earlier[j] == items[j]);
            }
        }
        lemma_sort_items(earlier);
        let k = lemma_insert_item_place(sorted, item);
        assert(r == sorted.insert(k, item));
        assert forall|x: (Seq<char>, Seq<char>)|
            #![trigger r.contains(x)]
            #![trigger items.contains(x)]
            r.contains(x) <==> items.contains(x) by {
            if r.contains(x) {
                let p = choose|p: int| 0 <= p < r.len() && r[p] == x;
                if p < k {
                    assert(sorted.contains(sorted[p]));
                    let q = choose|q: int| 0 <= q < earlier.len() && earlier[q] == x;
                    assert(items[q] == x);
                } else if p == k {
                    assert(items[items.len() - 1] == x);
                } else {
                    assert(sorted.contains(sorted[p - 1]));
                    let q = choose|q: int| 0 <= q < earlier.len() && earlier[q] == x;
                    assert(items[q] == x);
                }
            }
            if items.contains(x) {
                let q = choose|q: int| 0 <= q < items.len() && items[q] == x;
                if q == items.len() - 1 {
                    assert(r[k] == x);
                } else {
                    assert(earlier[q] == x);
                    assert(sorted.contains(x));
                    let p = choose|p: int| 0 <= p < sorted.len() && sorted[p] == x;
                    if p < k {
                        assert(r[p] == x);
                    } else {
                        assert(r[p + 1] == x);
                    }
                }
            }
        }
        assert forall|p: int| 0 <= p < sorted.len() implies (#[trigger] sorted[p]).0 != item.0 by {
            assert(sorted.contains(sorted[p]));
            let q = choose|q: int| 0 <= q < earlier.len() && earlier[q] == sorted[p];
            assert(items[q].0 != items[items.len() - 1].0);
        }
        assert forall|i: int, j: int| 0 <= i < j < items.len() implies name_before(
            (#[trigger] r[i]).0,
            (#[trigger] r[j]).0,
        ) by {
            if j < k {
                assert(r[i] == sorted[i] && r[j] == sorted[j]);
            } else if j == k {
                assert(r[i] == sorted[i]);
                lemma_name_before_total(sorted[k - 1].0, item.0);
                if i < k - 1 {
                    assert(name_before(sorted[i].0, sorted[k - 1].0));
                    lemma_name_before_transitive(sorted[i].0, sorted[k - 1].0, item.0);
                }
            } else if i < k {
                assert(r[i] == sorted[i] && r[j] == sorted[j - 1]);
            } else if i == k {
                assert(r[j] == sorted[j - 1]);
            } else {
                assert(r[i] == sorted[i - 1] && r[j] == sorted[j - 1]);
            }
        }
    }
}

/// The items at the positions `order`.
pub open spec fn pick(items: Seq<(Seq<char>, Seq<char>)>, order: Seq<usize>) -> Seq<
    (Seq<char>, Seq<char>),
> {
    Seq::new(order.len(), |k: int| items[order[k] as int])
}

/// Writes the result of a vote as a protocol list: an entry `name=versions`
/// for each item, in the order of the names, with one space between the
/// entries.  Names are ordered by the code points of their characters; items
/// of one name keep their order.
pub fn write_vote_to_string(vote: &Vec<(String, String)>) -> (text: String)
    ensures
        text@ == join(vote_lines(sort_items(vote_view(vote@))), ' '),
{
    let ghost items = vote_view(vote@);
    let n = vote.len();
    let mut names: Vec<Vec<char>> = Vec::new();
    let mut order: Vec<usize> = Vec::new();
    let mut i: usize = 0;
    proof {
        assert(items.take(0) =~= Seq::<(Seq<char>, Seq<char>)>::empty());
        assert(pick(items, order@) =~= sort_items(items.take(0)));
    }
    while i < n
        invariant
            i <= n,
            n == vote.len(),
            items == vote_view(vote@),
            names@.len() == i,
            forall|j: int| 0 <= j < i ==> (#[trigger] names@[j])@ == items[j].0,
            order@.len() == i,
            forall|k: int| 0 <= k < order@.len() ==> (#[trigger] order@[k]) < i,
            pick(items, order@) == sort_items(items.take(i as int)),
        decreases n - i,
    {
        names.push(chars_of(vote[i].0.as_str()));
        let ghost sorted = pick(items, order@);
        let mut k: usize = order.len();
        while k > 0 && name_less(&names[i], &names[order[k - 1]])
            invariant
                k <= order@.len(),
                i < n,
                n == vote.len(),
                items == vote_view(vote@),
                names@.len() == i + 1,
                forall|j: int| 0 <= j <= i ==> (#[trigger] names@[j])@ == items[j].0,
                order@.len() == i,
                forall|j: int| 0 <= j < order@.len() ==> (#[trigger] order@[j]) < i,
                sorted == pick(items, order@),
                forall|j: int|
                    k <= j < sorted.len() ==> name_before(
                        items[i as int].0,
                        (#[trigger] sorted[j]).0,
                    ),
            decreases k,
        {
            k -= 1;
        }
        proof {
            lemma_insert_item_at(sorted, items[i as int], k as int);
            assert(items.take(i + 1).drop_last() =~= items.take(i as int));
            assert(items.take(i + 1).last() == items[i as int]);
        }
        order.insert(k, i);
        proof {
            assert(pick(items, order@) =~= sorted.insert(k as int, items[i as int]));
        }
        i += 1;
    }
    let ghost lines = vote_lines(sort_items(items));
    let mut out = String::new();
    let mut k: usize = 0;
    proof {
        assert(items.take(n as int) =~= items);
        assert(lines.take(0) =~= Seq::<Seq<char>>::empty());
        reveal_strlit(" ");
        reveal_strlit("=");
    }
    while k < n
        invariant
            k <= n,
            n == vote.len(),
            items == vote_view(vote@),
            order@.len() == n,
            forall|j: int| 0 <= j < order@.len() ==> (#[trigger] order@[j]) < n,
            pick(items, order@) == sort_items(items),
            lines == vote_lines(sort_items(items)),
            " "@ == seq![' '],
            "="@ == seq!['='],
            out@ == join(lines.take(k as int), ' '),
        decreases n - k,
    {
        let ghost before = out@;
        if k > 0 {
            out.append(" ");
        }
        let item = &vote[order[k]];
        out.append(item.0.as_str());
        out.append("=");
        out.append(item.1.as_str());
        proof {
            let line = lines[k as int];
            assert(pick(items, order@)[k as int] == items[order@[k as int] as int]);
            assert(line =~= item.0@ + seq!['='] + item.1@);
            assert(lines.take(k + 1).drop_last() =~= lines.take(k as int));
            assert(lines.take(k + 1).last() == line);
            if k > 0 {
                assert(out@ =~= before + seq![' '] + line);
            } else {
                assert(out@ =~= line);
            }
        }
        k += 1;
    }
    proof {
        assert(lines.take(n as int) =~= lines);
    }
    out
}

} // verus!
