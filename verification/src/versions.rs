//! Version lists: the text `1,3,5-7` and the set of versions it stands for.

use crate::decimal::{append_decimal, decimal_text, parse_number, parse_u32};
use crate::errors::ProtoverError;
use crate::text::{chars_of, find, find_char, split};
use std::collections::HashSet;
use vstd::prelude::*;
use vstd::string::StringExecFns;

verus! {

/// The largest number of versions that a version list may name.  It bounds
/// the work that a short text such as `1-4000000000` can cause.
pub const MAX_PROTOCOLS_TO_EXPAND: u32 = 500;

/// Whether `s` is strictly ascending, and so names each version once.
pub open spec fn is_ascending(s: Seq<u32>) -> bool {
    forall|i: int, j: int| 0 <= i < j < s.len() ==> s[i] < s[j]
}

/// Whether `s` is a version set as a version list yields it: ascending, and
/// of at most [`MAX_PROTOCOLS_TO_EXPAND`] versions.
pub open spec fn is_version_set(s: Seq<u32>) -> bool {
    is_ascending(s) && s.len() <= MAX_PROTOCOLS_TO_EXPAND
}

/// The versions from `lo` to `hi`, both included; none if `lo > hi`.
pub open spec fn versions_between(lo: u32, hi: u32) -> Set<u32> {
    Set::new(|v: u32| lo <= v <= hi)
}

/// The versions from `lo` to `hi` in ascending order.
pub open spec fn span(lo: u32, hi: u32) -> Seq<u32> {
    Seq::new(
        if lo <= hi {
            (hi - lo + 1) as nat
        } else {
            0
        },
        |i: int| (lo + i) as u32,
    )
}

/// The two bounds of a range `low-high`.  The text in front of the first `-`
/// and the text behind it must each be a decimal 32-bit number.
pub open spec fn range_bounds(piece: Seq<char>) -> Result<(u32, u32), ProtoverError> {
    let dash = find(piece, '-');
    let low = parse_number(piece.take(dash));
    let high = parse_number(piece.skip(dash + 1));
    if piece.len() == 0 {
        Err(ProtoverError::EmptyInput)
    } else if dash < piece.len() && low is Some && high is Some {
        Ok((low->0, high->0))
    } else {
        Err(ProtoverError::MalformedRange)
    }
}

/// The versions that a range `low-high` stands for, in ascending order.  A
/// range with `low > high` stands for no version.  A range of more than
/// [`MAX_PROTOCOLS_TO_EXPAND`] versions is refused.
pub open spec fn expand_range(piece: Seq<char>) -> Result<Seq<u32>, ProtoverError> {
    match range_bounds(piece) {
        Err(e) => Err(e),
        Ok((lo, hi)) => if hi - lo + 1 > MAX_PROTOCOLS_TO_EXPAND {
            Err(ProtoverError::TooManyVersions)
        } else {
            Ok(span(lo, hi))
        },
    }
}

/// The first and the last version that one piece of a version list stands
/// for.  A piece with a `-` in it is a range; any other piece is a single
/// version.
pub open spec fn piece_bounds(piece: Seq<char>) -> Result<(u32, u32), ProtoverError> {
    if find(piece, '-') < piece.len() {
        match range_bounds(piece) {
            Err(e) => Err(e),
            Ok((lo, hi)) => if hi - lo + 1 > MAX_PROTOCOLS_TO_EXPAND {
                Err(ProtoverError::TooManyVersions)
            } else {
                Ok((lo, hi))
            },
        }
    } else {
        match parse_number(piece) {
            Some(n) => Ok((n, n)),
            None => Err(ProtoverError::MalformedVersion),
        }
    }
}

/// The versions that `pieces` add to the versions `seen` so far.  The pieces
/// are read in order; the first one that is malformed, or that brings the
/// number of different versions above [`MAX_PROTOCOLS_TO_EXPAND`], decides
/// the error.
pub open spec fn collect_pieces(pieces: Seq<Seq<char>>, seen: Set<u32>) -> Result<
    Set<u32>,
    ProtoverError,
>
    decreases pieces.len(),
{
    if pieces.len() == 0 {
        Ok(seen)
    } else {
        match piece_bounds(pieces[0]) {
            Err(e) => Err(e),
            Ok((lo, hi)) => {
                let all = seen.union(versions_between(lo, hi));
                if all.len() > MAX_PROTOCOLS_TO_EXPAND {
                    Err(ProtoverError::TooManyVersions)
                } else {
                    collect_pieces(pieces.drop_first(), all)
                }
            },
        }
    }
}

/// The set of versions that a version list stands for: the pieces between
/// its commas, each a version or a range.
pub open spec fn version_list(text: Seq<char>) -> Result<Set<u32>, ProtoverError> {
    if text.len() == 0 {
        Err(ProtoverError::EmptyInput)
    } else {
        collect_pieces(split(text, ','), Set::empty())
    }
}

/// An ascending sequence names as many versions as it is long.
pub proof fn lemma_ascending_len(s: Seq<u32>)
    requires
        is_ascending(s),
    ensures
        s.to_set().finite(),
        s.to_set().len() == s.len(),
{
    assert(s.no_duplicates());
    s.unique_seq_to_set();
    vstd::seq_lib::seq_to_set_is_finite(s);
}

/// The versions from `lo` to `hi` are the elements of `span(lo, hi)`, which
/// is ascending.
pub proof fn lemma_span(lo: u32, hi: u32)
    ensures
        is_ascending(span(lo, hi)),
        span(lo, hi).to_set() == versions_between(lo, hi),
        versions_between(lo, hi).finite(),
        versions_between(lo, hi).len() == span(lo, hi).len(),
{
    let s = span(lo, hi);
    assert forall|v: u32| s.to_set().contains(v) == versions_between(lo, hi).contains(v) by {
        if lo <= v <= hi {
            assert(s[v - lo] == v);
        }
    }
    assert(s.to_set() =~= versions_between(lo, hi));
    lemma_ascending_len(s);
}

/// Pieces that parse keep the number of different versions within the
/// limit.
pub proof fn lemma_collect_cap(pieces: Seq<Seq<char>>, seen: Set<u32>)
    requires
        seen.finite(),
        seen.len() <= MAX_PROTOCOLS_TO_EXPAND,
    ensures
        collect_pieces(pieces, seen) matches Ok(set) ==> set.finite() && set.len()
            <= MAX_PROTOCOLS_TO_EXPAND,
    decreases pieces.len(),
{
    if pieces.len() > 0 {
        match piece_bounds(pieces[0]) {
            Err(_) => {},
            Ok((lo, hi)) => {
                lemma_span(lo, hi);
                let all = seen.union(versions_between(lo, hi));
                if all.len() <= MAX_PROTOCOLS_TO_EXPAND {
                    lemma_collect_cap(pieces.drop_first(), all);
                }
            },
        }
    }
}

/// A version list names at most [`MAX_PROTOCOLS_TO_EXPAND`] different
/// versions.
pub proof fn lemma_version_list_cap(text: Seq<char>)
    ensures
        version_list(text) matches Ok(set) ==> set.finite() && set.len()
            <= MAX_PROTOCOLS_TO_EXPAND,
{
    lemma_collect_cap(split(text, ','), Set::empty());
}

/// Two ascending sequences that name the same versions are equal.
pub proof fn lemma_ascending_unique(a: Seq<u32>, b: Seq<u32>)
    requires
        is_ascending(a),
        is_ascending(b),
        a.to_set() == b.to_set(),
    ensures
        a == b,
    decreases a.len(),
{
    lemma_ascending_len(a);
    lemma_ascending_len(b);
    if a.len() > 0 {
        let x = a.last();
        let y = b.last();
        assert(a.to_set().contains(x));
        assert(b.to_set().contains(y));
        assert(b.contains(x));
        assert(a.contains(y));
        assert(x == y);
        let a1 = a.drop_last();
        let b1 = b.drop_last();
        assert forall|v: u32| a1.to_set().contains(v) == b1.to_set().contains(v) by {
            if a1.contains(v) {
                assert(a.contains(v));
                assert(v < x);
                assert(b.to_set().contains(v));
                let k = choose|k: int| 0 <= k < b.len() && b[k] == v;
                assert(b1[k] == v);
            }
            if b1.contains(v) {
                assert(b.contains(v));
                assert(v < y);
                assert(a.to_set().contains(v));
                let k = choose|k: int| 0 <= k < a.len() && a[k] == v;
                assert(a1[k] == v);
            }
        }
        assert(a1.to_set() =~= b1.to_set());
        lemma_ascending_unique(a1, b1);
        assert(a =~= a1.push(x));
        assert(b =~= b1.push(y));
    } else {
        assert(a =~= b);
    }
}

/// The bounds of the range written in `cs[from..to]`.
fn read_range(cs: &Vec<char>, from: usize, to: usize) -> (r: Result<(u32, u32), ProtoverError>)
    requires
        from <= to <= cs.len(),
    ensures
        r == range_bounds(cs@.subrange(from as int, to as int)),
{
    let ghost piece = cs@.subrange(from as int, to as int);
    if from == to {
        return Err(ProtoverError::EmptyInput);
    }
    let dash = find_char(cs, from, to, '-');
    if dash == to {
        return Err(ProtoverError::MalformedRange);
    }
    assert(piece.take(dash - from) =~= cs@.subrange(from as int, dash as int));
    assert(piece.skip(dash - from + 1) =~= cs@.subrange(dash + 1, to as int));
    let low = parse_u32(cs, from, dash);
    let high = parse_u32(cs, dash + 1, to);
    match (low, high) {
        (Some(lo), Some(hi)) => Ok((lo, hi)),
        _ => Err(ProtoverError::MalformedRange),
    }
}

/// The first and last version of the piece written in `cs[from..to]`.
fn read_piece(cs: &Vec<char>, from: usize, to: usize) -> (r: Result<(u32, u32), ProtoverError>)
    requires
        from <= to <= cs.len(),
    ensures
        r == piece_bounds(cs@.subrange(from as int, to as int)),
{
    let dash = find_char(cs, from, to, '-');
    if dash < to {
        match read_range(cs, from, to) {
            Err(e) => Err(e),
            Ok((lo, hi)) => {
                if hi > lo && hi - lo >= MAX_PROTOCOLS_TO_EXPAND {
                    Err(ProtoverError::TooManyVersions)
                } else {
                    Ok((lo, hi))
                }
            },
        }
    } else {
        match parse_u32(cs, from, to) {
            Some(n) => Ok((n, n)),
            None => Err(ProtoverError::MalformedVersion),
        }
    }
}

/// Takes a range such as `1-3` and lists the versions in it: 1, 2, 3.
///
/// The result is `Err(EmptyInput)` for the empty text, `Err(MalformedRange)`
/// unless the text is two decimal 32-bit numbers around one `-`, and
/// `Err(TooManyVersions)` for a range of more than
/// [`MAX_PROTOCOLS_TO_EXPAND`] versions.  A range whose lower bound is the
/// greater one lists nothing.
pub fn expand_version_range(range: &str) -> (r: Result<Vec<u32>, ProtoverError>)
    ensures
        match expand_range(range@) {
            Ok(versions) => r matches Ok(v) && v@ == versions,
            Err(e) => r matches Err(x) && x == e,
        },
{
    let cs = chars_of(range);
    assert(cs@.subrange(0, cs.len() as int) =~= range@);
    match read_range(&cs, 0, cs.len()) {
        Err(e) => Err(e),
        Ok((lo, hi)) => {
            if hi > lo && hi - lo >= MAX_PROTOCOLS_TO_EXPAND {
                return Err(ProtoverError::TooManyVersions);
            }
            let mut v: Vec<u32> = Vec::new();
            if lo <= hi {
                let count: u32 = hi - lo;
                let mut k: u32 = 0;
                while k < count
                    invariant
                        lo <= hi,
                        count == hi - lo,
                        k <= count,
                        v@ == span(lo, (lo + k) as u32).drop_last(),
                    decreases count - k,
                {
                    v.push(lo + k);
                    k += 1;
                    assert(v@ =~= span(lo, (lo + k) as u32).drop_last());
                }
                v.push(hi);
                assert(v@ =~= span(lo, hi));
            } else {
                assert(v@ =~= span(lo, hi));
            }
            Ok(v)
        },
    }
}

/// The versions of `v` and the versions from `lo` to `hi`, in ascending order.
pub(crate) fn add_span(v: &Vec<u32>, lo: u32, hi: u32) -> (out: Vec<u32>)
    requires
        is_ascending(v@),
        lo <= hi,
    ensures
        is_ascending(out@),
        out@.to_set() == v@.to_set().union(versions_between(lo, hi)),
{
    let n = v.len();
    let mut out: Vec<u32> = Vec::new();
    let mut i: usize = 0;
    while i < n && v[i] < lo
        invariant
            i <= n,
            n == v.len(),
            out@ == v@.take(i as int),
            forall|x: int| 0 <= x < i ==> v@[x] < lo,
        decreases n - i,
    {
        out.push(v[i]);
        i += 1;
        assert(out@ =~= v@.take(i as int));
    }
    assert(i < n ==> v@[i as int] >= lo);
    let count: u32 = hi - lo;
    let mut k: u32 = 0;
    while k < count
        invariant
            lo <= hi,
            count == hi - lo,
            k <= count,
            out@ == v@.take(i as int) + span(lo, (lo + k) as u32).drop_last(),
        decreases count - k,
    {
        out.push(lo + k);
        k += 1;
        assert(out@ =~= v@.take(i as int) + span(lo, (lo + k) as u32).drop_last());
    }
    out.push(hi);
    assert(out@ =~= v@.take(i as int) + span(lo, hi));
    let mut j: usize = i;
    while j < n && v[j] <= hi
        invariant
            i <= j <= n,
            n == v.len(),
            forall|x: int| i <= x < j ==> v@[x] <= hi,
        decreases n - j,
    {
        j += 1;
    }
    let mut m: usize = j;
    while m < n
        invariant
            j <= m <= n,
            n == v.len(),
            out@ == v@.take(i as int) + span(lo, hi) + v@.subrange(j as int, m as int),
        decreases n - m,
    {
        out.push(v[m]);
        m += 1;
        assert(out@ =~= v@.take(i as int) + span(lo, hi) + v@.subrange(j as int, m as int));
    }
    proof {
        let a = v@.take(i as int);
        let b = span(lo, hi);
        let c = v@.subrange(j as int, n as int);
        let o = out@;
        assert(o == a + b + c);
        assert(forall|x: int| 0 <= x < a.len() ==> o[x] == v@[x] && o[x] < lo);
        assert(forall|x: int| a.len() <= x < a.len() + b.len() ==> o[x] == lo + (x - a.len()));
        assert forall|x: int| a.len() + b.len() <= x < o.len() implies o[x] == v@[x - a.len() - b.len() + j]
            && o[x] > hi by {
            assert(o[x] == c[x - a.len() - b.len()]);
            if x - a.len() - b.len() + j > j {
                assert(v@[j as int] < v@[x - a.len() - b.len() + j]);
            }
        }
        assert forall|x: int, y: int| 0 <= x < y < o.len() implies o[x] < o[y] by {
            if y < a.len() {
            } else if x >= a.len() + b.len() {
                assert(v@[x - a.len() - b.len() + j] < v@[y - a.len() - b.len() + j]);
            }
        }
        let both = v@.to_set().union(versions_between(lo, hi));
        assert forall|x: u32| o.to_set().contains(x) == both.contains(x) by {
            if o.contains(x) {
                let p = choose|p: int| 0 <= p < o.len() && o[p] == x;
                if p < a.len() {
                    assert(v@[p] == x);
                } else if p < a.len() + b.len() {
                } else {
                    assert(v@[p - a.len() - b.len() + j] == x);
                }
            }
            if lo <= x <= hi {
                assert(o[a.len() + (x - lo)] == x);
            }
            if v@.contains(x) && !(lo <= x <= hi) {
                let q = choose|q: int| 0 <= q < v@.len() && v@[q] == x;
                if q < i {
                    assert(o[q] == x);
                } else if q < j {
                    if q > i {
                        assert(v@[i as int] < v@[q]);
                    }
                    assert(lo <= v@[q] <= hi);
                } else {
                    assert(o[a.len() + b.len() + (q - j)] == x);
                }
            }
        }
        assert(o.to_set() =~= both);
    }
    out
}

/// The versions that the version list in `cs[from..to]` stands for.
pub(crate) fn read_versions(cs: &Vec<char>, from: usize, to: usize) -> (r: Result<
    Vec<u32>,
    ProtoverError,
>)
    requires
        from <= to <= cs.len(),
    ensures
        match version_list(cs@.subrange(from as int, to as int)) {
            Ok(set) => r matches Ok(v) && is_version_set(v@) && v@.to_set() == set,
            Err(e) => r matches Err(x) && x == e,
        },
{
    let ghost text = cs@.subrange(from as int, to as int);
    if from == to {
        return Err(ProtoverError::EmptyInput);
    }
    let mut versions: Vec<u32> = Vec::new();
    let mut pos: usize = from;
    assert(versions@.to_set() =~= Set::<u32>::empty());
    loop
        invariant
            from <= pos <= to <= cs.len(),
            from < to,
            text == cs@.subrange(from as int, to as int),
            is_ascending(versions@),
            version_list(text) == collect_pieces(
                split(cs@.subrange(pos as int, to as int), ','),
                versions@.to_set(),
            ),
        decreases to - pos,
    {
        let ghost rest = cs@.subrange(pos as int, to as int);
        let ghost seen = versions@.to_set();
        let comma = find_char(cs, pos, to, ',');
        proof {
            let pieces = split(rest, ',');
            assert(pieces.len() > 0);
            if comma < to {
                assert(rest.take(comma - pos) =~= cs@.subrange(pos as int, comma as int));
                assert(rest.skip(comma - pos + 1) =~= cs@.subrange(comma + 1, to as int));
                assert(pieces.drop_first() =~= split(cs@.subrange(comma + 1, to as int), ','));
            } else {
                assert(pieces.drop_first() =~= Seq::<Seq<char>>::empty());
            }
            assert(pieces[0] == cs@.subrange(pos as int, comma as int));
        }
        match read_piece(cs, pos, comma) {
            Err(e) => {
                return Err(e);
            },
            Ok((lo, hi)) => {
                if lo <= hi {
                    versions = add_span(&versions, lo, hi);
                } else {
                    assert(seen.union(versions_between(lo, hi)) =~= seen);
                }
                proof {
                    lemma_ascending_len(versions@);
                }
                if versions.len() > MAX_PROTOCOLS_TO_EXPAND as usize {
                    return Err(ProtoverError::TooManyVersions);
                }
            },
        }
        if comma == to {
            assert(collect_pieces(Seq::<Seq<char>>::empty(), versions@.to_set()) == Ok::<
                Set<u32>,
                ProtoverError,
            >(versions@.to_set()));
            return Ok(versions);
        }
        pos = comma + 1;
    }
}

/// Reads a version list such as `1,3,5-7`: versions and ranges of versions
/// with commas between them.
///
/// On success the result holds each version that the text names once, in
/// ascending order.  The pieces are read from left to right, and the first
/// fault decides the error: `MalformedVersion` for a piece that is neither a
/// decimal 32-bit number nor a range, `MalformedRange` for a range whose
/// bounds are not both such numbers, `TooManyVersions` as soon as more than
/// [`MAX_PROTOCOLS_TO_EXPAND`] different versions are named.  The empty text
/// gives `EmptyInput`.
pub fn get_versions(version_string: &str) -> (r: Result<Vec<u32>, ProtoverError>)
    ensures
        match version_list(version_string@) {
            Ok(set) => r matches Ok(v) && is_version_set(v@) && v@.to_set() == set,
            Err(e) => r matches Err(x) && x == e,
        },
{
    let cs = chars_of(version_string);
    assert(cs@.subrange(0, cs.len() as int) =~= version_string@);
    read_versions(&cs, 0, cs.len())
}

/// The length of the run of consecutive versions at the start of `s`: the
/// number of leading elements of which each is its predecessor plus one.
pub open spec fn run_len(s: Seq<u32>) -> int
    decreases s.len(),
{
    if s.len() == 0 {
        0
    } else if s.len() >= 2 && s[1] == s[0] + 1 {
        1 + run_len(s.drop_first())
    } else {
        1
    }
}

/// The text of one run: a single version, or `low-high` for a longer run.
pub open spec fn piece_text(lo: u32, hi: u32) -> Seq<char> {
    if lo == hi {
        decimal_text(lo as nat)
    } else {
        decimal_text(lo as nat) + seq!['-'] + decimal_text(hi as nat)
    }
}

/// The shortest version list for the versions `s`: from the left, each
/// maximal run of consecutive versions becomes one piece, and the pieces are
/// joined with commas.
pub open spec fn compress(s: Seq<u32>) -> Seq<char>
    decreases s.len(),
{
    let n = run_len(s);
    if s.len() == 0 {
        Seq::empty()
    } else if 0 < n < s.len() {
        piece_text(s[0], s[n - 1]) + seq![','] + compress(s.skip(n))
    } else {
        piece_text(s[0], s[s.len() - 1])
    }
}

/// The versions of a finite set in ascending order.
pub open spec fn ascending(set: Set<u32>) -> Seq<u32> {
    choose|s: Seq<u32>| is_ascending(s) && s.to_set() == set
}

/// The versions of `set` below `n`, in ascending order.
proof fn lemma_ascending_below(set: Set<u32>, n: nat) -> (s: Seq<u32>)
    requires
        n <= 0x1_0000_0000,
    ensures
        is_ascending(s),
        forall|v: u32| s.contains(v) <==> set.contains(v) && v < n,
    decreases n,
{
    if n == 0 {
        Seq::empty()
    } else {
        let shorter = lemma_ascending_below(set, (n - 1) as nat);
        let top = (n - 1) as u32;
        if set.contains(top) {
            let s = shorter.push(top);
            assert forall|i: int, j: int| 0 <= i < j < s.len() implies s[i] < s[j] by {
                if j == s.len() - 1 {
                    assert(shorter.contains(shorter[i]));
                }
            }
            assert forall|v: u32| s.contains(v) <==> set.contains(v) && v < n by {
                if s.contains(v) {
                    let k = choose|k: int| 0 <= k < s.len() && s[k] == v;
                    if k < shorter.len() {
                        assert(shorter.contains(shorter[k]));
                    }
                }
                if set.contains(v) && v < n {
                    if v == top {
                        assert(s[s.len() - 1] == v);
                    } else {
                        assert(shorter.contains(v));
                        let k = choose|k: int| 0 <= k < shorter.len() && shorter[k] == v;
                        assert(s[k] == v);
                    }
                }
            }
            s
        } else {
            shorter
        }
    }
}

/// Every set of versions has an ascending order, and `ascending` is it.
pub proof fn lemma_ascending(set: Set<u32>)
    ensures
        is_ascending(ascending(set)),
        ascending(set).to_set() == set,
{
    let s = lemma_ascending_below(set, 0x1_0000_0000);
    assert(s.to_set() =~= set);
}

/// An ascending sequence is the ascending order of the set of its elements.
pub proof fn lemma_ascending_of(s: Seq<u32>)
    requires
        is_ascending(s),
    ensures
        ascending(s.to_set()) == s,
{
    lemma_ascending_unique(ascending(s.to_set()), s);
}

/// A run is at least one version long and lies within the sequence.
pub proof fn lemma_run_len(s: Seq<u32>)
    requires
        s.len() > 0,
    ensures
        1 <= run_len(s) <= s.len(),
        forall|k: int| 0 <= k < run_len(s) ==> #[trigger] s[k] == s[0] + k,
        run_len(s) < s.len() ==> s[run_len(s)] != s[run_len(s) - 1] + 1,
    decreases s.len(),
{
    if s.len() >= 2 && s[1] == s[0] + 1 {
        let t = s.drop_first();
        lemma_run_len(t);
        assert forall|k: int| 0 <= k < run_len(s) implies #[trigger] s[k] == s[0] + k by {
            if k > 0 {
                assert(s[k] == t[k - 1]);
            }
        }
        if run_len(s) < s.len() {
            assert(s[run_len(s)] == t[run_len(t)]);
            assert(s[run_len(s) - 1] == t[run_len(t) - 1]);
        }
    }
}

/// The end of the run of consecutive versions that starts at `list[from]`.
fn run_end(list: &Vec<u32>, from: usize) -> (end: usize)
    requires
        from < list.len(),
    ensures
        from < end <= list.len(),
        end - from == run_len(list@.skip(from as int)),
{
    let n = list.len();
    let mut i: usize = from + 1;
    while i < n && list[i - 1] < u32::MAX && list[i] == list[i - 1] + 1
        invariant
            from < i <= n,
            n == list.len(),
            run_len(list@.skip(from as int)) == (i - 1 - from) + run_len(list@.skip(i - 1)),
        decreases n - i,
    {
        proof {
            let t = list@.skip(i - 1);
            assert(t[0] == list@[i - 1]);
            assert(t[1] == list@[i as int]);
            assert(t.drop_first() =~= list@.skip(i as int));
        }
        i += 1;
    }
    proof {
        let t = list@.skip(i - 1);
        assert(t[0] == list@[i - 1]);
        if i < n {
            assert(t[1] == list@[i as int]);
        }
    }
    i
}

/// Looks for a run of consecutive versions at the start of `list`.
///
/// The first part of the result tells whether the run is longer than one
/// version, the second is the last version of the run.  For the list 1, 2,
/// 3, 5 the result is `(true, 3)`.  For the empty list it is `(false, 0)`.
pub fn find_range(list: &Vec<u32>) -> (r: (bool, u32))
    ensures
        list@.len() == 0 ==> r == (false, 0u32),
        list@.len() > 0 ==> r.0 == (run_len(list@) >= 2) && r.1 == list@[run_len(list@) - 1],
{
    if list.len() == 0 {
        return (false, 0);
    }
    assert(list@.skip(0) =~= list@);
    let end = run_end(list, 0);
    (end >= 2, list[end - 1])
}

/// Writes one piece of a version list at the end of `out`.
fn append_piece(out: &mut String, lo: u32, hi: u32)
    ensures
        final(out)@ == old(out)@ + piece_text(lo, hi),
{
    append_decimal(out, lo);
    if lo != hi {
        proof {
            reveal_strlit("-");
        }
        out.append("-");
        append_decimal(out, hi);
        assert(out@ =~= old(out)@ + piece_text(lo, hi));
    }
}

/// The shortest version list for the versions in `list`.
pub fn write_versions(list: &Vec<u32>) -> (text: String)
    ensures
        text@ == compress(list@),
{
    let n = list.len();
    let mut out = String::new();
    let mut pos: usize = 0;
    assert(list@.skip(0) =~= list@);
    while pos < n
        invariant
            pos <= n,
            n == list.len(),
            pos < n ==> compress(list@) == out@ + compress(list@.skip(pos as int)),
            pos == n ==> compress(list@) == out@,
        decreases n - pos,
    {
        let ghost rest = list@.skip(pos as int);
        let ghost before = out@;
        let end = run_end(list, pos);
        append_piece(&mut out, list[pos], list[end - 1]);
        proof {
            assert(rest[0] == list@[pos as int]);
            assert(rest[end - pos - 1] == list@[end - 1]);
            assert(rest.len() == n - pos);
        }
        if end < n {
            proof {
                reveal_strlit(",");
                assert(rest.skip(end - pos) =~= list@.skip(end as int));
            }
            out.append(",");
            assert(out@ =~= before + (piece_text(rest[0], rest[end - pos - 1]) + seq![',']));
            assert(compress(list@) =~= out@ + compress(list@.skip(end as int)));
        } else {
            assert(compress(list@) =~= out@);
        }
        pos = end;
    }
    out
}

/// Writes a set of versions as the shortest version list: the versions in
/// ascending order, each run of consecutive versions as a range.  The set
/// 1, 3, 5, 6, 7 becomes `1,3,5-7`, and the empty set the empty text.
pub fn contract_protocol_list(supported_hash: &HashSet<u32>) -> (text: String)
    ensures
        text@ == compress(ascending(supported_hash@)),
{
    broadcast use vstd::std_specs::hash::group_hash_axioms;

    let mut sorted: Vec<u32> = Vec::new();
    assert(sorted@.to_set() =~= Set::<u32>::empty());
    for version in it: supported_hash.iter()
        invariant
            is_ascending(sorted@),
            sorted@.to_set() == it.seq().take(it.index()).unref().to_set(),
            it.seq().unref().to_set() == supported_hash@,
            it.index() == it.seq().len() ==> sorted@.to_set() == supported_hash@,
    {
        proof {
            let done = it.seq().take(it.index()).unref();
            let next = it.seq().take(it.index() + 1).unref();
            assert(next =~= done.push(*version));
            done.lemma_push_to_set_commute(*version);
            assert(done.to_set().insert(*version) =~= done.to_set().union(
                versions_between(*version, *version),
            ));
            assert(it.index() + 1 == it.seq().len() ==> it.seq().take(it.index() + 1)
                =~= it.seq());
        }
        sorted = add_span(&sorted, *version, *version);
    }
    proof {
        lemma_ascending_of(sorted@);
    }
    write_versions(&sorted)
}

} // verus!
