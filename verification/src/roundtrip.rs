//! What holds of reading and writing version lists together: writing a set
//! of versions and reading the text again gives the set back.

use crate::decimal::{all_digits, decimal_text, is_digit, lemma_decimal_text, parse_number};
use crate::errors::ProtoverError;
use crate::text::{find, lemma_find_is, split};
use crate::versions::{
    ascending, collect_pieces, compress, expand_range, is_ascending, is_version_set,
    lemma_ascending_len, lemma_ascending_of, lemma_run_len, lemma_span, piece_bounds,
    piece_text, range_bounds, run_len, span, version_list, versions_between,
    MAX_PROTOCOLS_TO_EXPAND,
};
use vstd::prelude::*;

verus! {

/// A text that has no `sep` in it is the only piece of itself.
pub proof fn lemma_split_one(text: Seq<char>, sep: char)
    requires
        forall|i: int| 0 <= i < text.len() ==> text[i] != sep,
    ensures
        find(text, sep) == text.len(),
        split(text, sep) == seq![text],
{
    lemma_find_is(text, sep, text.len() as int);
}

/// A text without `sep`, then `sep`, then more text: the first text is the
/// first piece, and the pieces of the rest follow.
pub proof fn lemma_split_first(head: Seq<char>, sep: char, rest: Seq<char>)
    requires
        forall|i: int| 0 <= i < head.len() ==> head[i] != sep,
    ensures
        split(head + seq![sep] + rest, sep) == seq![head] + split(rest, sep),
{
    let text = head + seq![sep] + rest;
    lemma_find_is(text, sep, head.len() as int);
    assert(text.take(head.len() as int) =~= head);
    assert(text.skip(head.len() as int + 1) =~= rest);
}

/// The text of a run of at most `MAX_PROTOCOLS_TO_EXPAND` versions holds no
/// comma, and reads as the first and the last version of the run.
pub proof fn lemma_piece_text(lo: u32, hi: u32)
    requires
        lo <= hi,
        hi - lo + 1 <= MAX_PROTOCOLS_TO_EXPAND,
    ensures
        piece_text(lo, hi).len() > 0,
        forall|i: int| 0 <= i < piece_text(lo, hi).len() ==> piece_text(lo, hi)[i] != ',',
        piece_bounds(piece_text(lo, hi)) == Ok::<(u32, u32), ProtoverError>((lo, hi)),
{
    let low = decimal_text(lo as nat);
    let high = decimal_text(hi as nat);
    let piece = piece_text(lo, hi);
    lemma_decimal_text(lo as nat);
    lemma_decimal_text(hi as nat);
    assert forall|i: int| 0 <= i < low.len() implies low[i] != ',' && low[i] != '-' by {
        assert(is_digit(low[i]));
    }
    assert forall|i: int| 0 <= i < high.len() implies high[i] != ',' && high[i] != '-' by {
        assert(is_digit(high[i]));
    }
    if lo == hi {
        lemma_find_is(piece, '-', piece.len() as int);
    } else {
        lemma_find_is(piece, '-', low.len() as int);
        assert(piece.take(low.len() as int) =~= low);
        assert(piece.skip(low.len() as int + 1) =~= high);
        assert forall|i: int| 0 <= i < piece.len() implies piece[i] != ',' by {
            if i < low.len() {
                assert(piece[i] == low[i]);
            } else if i > low.len() {
                assert(piece[i] == high[i - low.len() - 1]);
            }
        }
    }
}

/// Reading what `compress` wrote for `versions` adds exactly these versions
/// to the versions seen before, provided that they stay within the limit
/// together.
pub proof fn lemma_collect_compress(versions: Seq<u32>, seen: Set<u32>)
    requires
        is_ascending(versions),
        versions.len() > 0,
        seen.finite(),
        seen.union(versions.to_set()).len() <= MAX_PROTOCOLS_TO_EXPAND,
    ensures
        compress(versions).len() > 0,
        collect_pieces(split(compress(versions), ','), seen) == Ok::<Set<u32>, ProtoverError>(
            seen.union(versions.to_set()),
        ),
    decreases versions.len(),
{
    let n = run_len(versions);
    lemma_run_len(versions);
    lemma_ascending_len(versions);
    let whole = seen.union(versions.to_set());
    vstd::set_lib::lemma_len_subset(versions.to_set(), whole);
    let lo = versions[0];
    let hi = versions[n - 1];
    let piece = piece_text(lo, hi);
    lemma_piece_text(lo, hi);
    lemma_span(lo, hi);
    let all = seen.union(versions_between(lo, hi));
    assert forall|v: u32| versions_between(lo, hi).contains(v) implies versions.to_set().contains(
        v,
    ) by {
        assert(versions[v - lo] == v);
    }
    assert(all.subset_of(whole));
    vstd::set_lib::lemma_len_subset(all, whole);
    if n == versions.len() {
        lemma_split_one(piece, ',');
        let pieces = split(compress(versions), ',');
        assert(pieces.drop_first() =~= Seq::<Seq<char>>::empty());
        assert forall|v: u32| versions.to_set().contains(v) implies versions_between(
            lo,
            hi,
        ).contains(v) by {
            let k = choose|k: int| 0 <= k < versions.len() && versions[k] == v;
            assert(versions[k] == lo + k);
        }
        assert(all =~= whole);
        assert(collect_pieces(Seq::<Seq<char>>::empty(), all) == Ok::<Set<u32>, ProtoverError>(
            all,
        ));
    } else {
        let rest = versions.skip(n);
        lemma_split_first(piece, ',', compress(rest));
        let pieces = split(compress(versions), ',');
        assert(pieces.drop_first() =~= split(compress(rest), ','));
        assert(is_ascending(rest));
        assert forall|v: u32| all.union(rest.to_set()).contains(v) == whole.contains(v) by {
            if rest.contains(v) {
                let k = choose|k: int| 0 <= k < rest.len() && rest[k] == v;
                assert(versions[k + n] == v);
            }
            if versions.contains(v) {
                let k = choose|k: int| 0 <= k < versions.len() && versions[k] == v;
                if k < n {
                    assert(versions[k] == lo + k);
                } else {
                    assert(rest[k - n] == v);
                }
            }
        }
        assert(all.union(rest.to_set()) =~= whole);
        lemma_collect_compress(rest, all);
    }
}

/// Writing a version set and reading the text again gives the same
/// versions back.
///
/// This holds of every version set of at least one version.  The empty set
/// is written as the empty text, which does not read as a version list.
pub proof fn lemma_round_trip(versions: Seq<u32>)
    requires
        is_version_set(versions),
        versions.len() > 0,
    ensures
        version_list(compress(versions)) == Ok::<Set<u32>, ProtoverError>(versions.to_set()),
        ascending(versions.to_set()) == versions,
{
    lemma_ascending_len(versions);
    lemma_ascending_of(versions);
    let nothing = Set::<u32>::empty();
    assert(nothing.union(versions.to_set()) =~= versions.to_set());
    lemma_collect_compress(versions, nothing);
}

/// Writing what was read from a written version list gives the same text
/// once more: a written version list is in its final form.
pub proof fn lemma_compress_stable(versions: Seq<u32>)
    requires
        is_version_set(versions),
        versions.len() > 0,
    ensures
        version_list(compress(versions)) matches Ok(again) && compress(ascending(again))
            == compress(versions),
{
    lemma_round_trip(versions);
}

/// A range stands for its versions if they are at most
/// `MAX_PROTOCOLS_TO_EXPAND`, and is refused with `TooManyVersions` if they
/// are more: a range of exactly that many versions is read, a range of one
/// more is not.
pub proof fn lemma_range_cap(text: Seq<char>)
    requires
        range_bounds(text) is Ok,
    ensures
        ({
            let (lo, hi) = range_bounds(text)->Ok_0;
            if hi - lo + 1 > MAX_PROTOCOLS_TO_EXPAND {
                &&& version_list(text) == Err::<Set<u32>, ProtoverError>(
                    ProtoverError::TooManyVersions,
                )
                &&& expand_range(text) == Err::<Seq<u32>, ProtoverError>(
                    ProtoverError::TooManyVersions,
                )
            } else {
                &&& version_list(text) == Ok::<Set<u32>, ProtoverError>(versions_between(lo, hi))
                &&& expand_range(text) == Ok::<Seq<u32>, ProtoverError>(span(lo, hi))
            }
        }),
{
    let (lo, hi) = range_bounds(text)->Ok_0;
    let dash = find(text, '-');
    crate::text::lemma_find(text, '-');
    let low = text.take(dash);
    let high = text.skip(dash + 1);
    assert(parse_number(low) is Some && parse_number(high) is Some);
    assert(all_digits(low) && all_digits(high));
    assert forall|i: int| 0 <= i < text.len() implies text[i] != ',' by {
        if i < dash {
            assert(is_digit(low[i]));
        } else if i > dash {
            assert(is_digit(high[i - dash - 1]));
        }
    }
    lemma_split_one(text, ',');
    let pieces = split(text, ',');
    assert(pieces.drop_first() =~= Seq::<Seq<char>>::empty());
    lemma_span(lo, hi);
    let nothing = Set::<u32>::empty();
    let all = nothing.union(versions_between(lo, hi));
    assert(all =~= versions_between(lo, hi));
    assert(collect_pieces(Seq::<Seq<char>>::empty(), all) == Ok::<Set<u32>, ProtoverError>(all));
}

} // verus!
