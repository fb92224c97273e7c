//! Protocol lists: entries of the form `Name=versions` with blanks between
//! them, and the questions whether this build supports what a list names.

use crate::errors::ProtoverError;
use crate::proto::{Proto, ProtoMap};
use crate::registry::{is_supported, lemma_supported_versions, supported_map, tor_supported};
use crate::text::{chars_of, find, find_char, lemma_find_is, slice_chars, split_words, words};
use crate::text::join;
use crate::versions::{
    ascending, is_version_set, lemma_ascending_of, read_versions, version_list,
};
use vstd::prelude::*;
use vstd::string::StringExecFns;

verus! {

/// The name of an entry: the text in front of its first `=`.
pub open spec fn entry_name(entry: Seq<char>) -> Seq<char> {
    entry.take(find(entry, '='))
}

/// The versions of an entry: what the version list behind its first `=`
/// stands for.  An entry without `=` has no version list, which counts as
/// `EmptyInput`.
pub open spec fn entry_versions(entry: Seq<char>) -> Result<Set<u32>, ProtoverError> {
    let eq = find(entry, '=');
    if eq < entry.len() {
        version_list(entry.skip(eq + 1))
    } else {
        Err(ProtoverError::EmptyInput)
    }
}

/// The subprotocol and the versions that an entry names.  A fault in the
/// versions is reported before an unknown name.
pub open spec fn parse_entry(entry: Seq<char>) -> Result<(Proto, Set<u32>), ProtoverError> {
    match entry_versions(entry) {
        Err(e) => Err(e),
        Ok(set) => match Proto::named(entry_name(entry)) {
            Some(p) => Ok((p, set)),
            None => Err(ProtoverError::UnknownProtocol),
        },
    }
}

/// The map that a sequence of entries stands for.  Of two entries for one
/// subprotocol the later one counts.  The first entry that does not parse
/// decides the error.
pub open spec fn parse_entries(entries: Seq<Seq<char>>) -> Result<
    Map<Proto, Seq<u32>>,
    ProtoverError,
>
    decreases entries.len(),
{
    if entries.len() == 0 {
        Ok(Map::empty())
    } else {
        match parse_entries(entries.drop_last()) {
            Err(e) => Err(e),
            Ok(map) => match parse_entry(entries.last()) {
                Err(e) => Err(e),
                Ok((p, set)) => Ok(map.insert(p, ascending(set))),
            },
        }
    }
}

/// Whether an entry parses and names only versions that this build
/// implements.
pub open spec fn entry_is_supported(entry: Seq<char>) -> bool {
    parse_entry(entry) matches Ok((p, set)) && forall|v: u32|
        set.contains(v) ==> is_supported(p, v)
}

/// The entries among `entries` that are not supported, in their order.
pub open spec fn unsupported_entries(entries: Seq<Seq<char>>) -> Seq<Seq<char>>
    decreases entries.len(),
{
    if entries.len() == 0 {
        Seq::empty()
    } else if entry_is_supported(entries.last()) {
        unsupported_entries(entries.drop_last())
    } else {
        unsupported_entries(entries.drop_last()).push(entries.last())
    }
}

/// Whether `r` is what parsing an entry should give when the entry stands
/// for `expected`: the same subprotocol with the versions in ascending
/// order, or the same error.
pub open spec fn is_entry_result(
    r: Result<(Proto, Vec<u32>), ProtoverError>,
    expected: Result<(Proto, Set<u32>), ProtoverError>,
) -> bool {
    match expected {
        Ok((p, set)) => r matches Ok((q, v)) && q == p && is_version_set(v@) && v@.to_set()
            == set,
        Err(e) => r matches Err(x) && x == e,
    }
}

/// Whether `r` is what parsing a protocol list should give when the list
/// stands for `expected`.
pub open spec fn is_map_result(
    r: Result<ProtoMap, ProtoverError>,
    expected: Result<Map<Proto, Seq<u32>>, ProtoverError>,
) -> bool {
    match expected {
        Ok(map) => r matches Ok(m) && m.wf() && m@ == map,
        Err(e) => r matches Err(x) && x == e,
    }
}

/// The entry written in `cs[from..to]`.
pub(crate) fn read_entry(cs: &Vec<char>, from: usize, to: usize) -> (r: Result<
    (Proto, Vec<u32>),
    ProtoverError,
>)
    requires
        from <= to <= cs.len(),
    ensures
        is_entry_result(r, parse_entry(cs@.subrange(from as int, to as int))),
{
    let ghost entry = cs@.subrange(from as int, to as int);
    let eq = find_char(cs, from, to, '=');
    if eq == to {
        return Err(ProtoverError::EmptyInput);
    }
    proof {
        assert(entry.take(eq - from) =~= cs@.subrange(from as int, eq as int));
        assert(entry.skip(eq - from + 1) =~= cs@.subrange(eq + 1, to as int));
    }
    match read_versions(cs, eq + 1, to) {
        Err(e) => Err(e),
        Ok(versions) => match Proto::read(cs, from, eq) {
            Some(p) => Ok((p, versions)),
            None => Err(ProtoverError::UnknownProtocol),
        },
    }
}

/// Parses one entry `Name=versions` of a protocol list.
///
/// On success the result is the subprotocol and its versions, each once and
/// in ascending order.  An entry without `=` or with nothing behind it gives
/// `EmptyInput`; a fault in the version list gives the error of
/// [`get_versions`](crate::versions::get_versions); a name that is no
/// subprotocol's gives `UnknownProtocol`, if the versions are in order.
pub fn get_proto_and_vers(str_p: &str) -> (r: Result<(Proto, Vec<u32>), ProtoverError>)
    ensures
        is_entry_result(r, parse_entry(str_p@)),
{
    let cs = chars_of(str_p);
    assert(cs@.subrange(0, cs.len() as int) =~= str_p@);
    read_entry(&cs, 0, cs.len())
}

/// Parses the entries of a protocol list, given one by one.  Of two entries
/// for one subprotocol the later one counts.  The first entry that does not
/// parse makes the whole list fail, with the error of that entry.
pub fn parse_protocols(protocols: &[&str]) -> (r: Result<ProtoMap, ProtoverError>)
    ensures
        is_map_result(r, parse_entries(protocols@.map_values(|s: &str| s@))),
{
    let ghost entries = protocols@.map_values(|s: &str| s@);
    let mut parsed = ProtoMap::new();
    let mut i: usize = 0;
    assert(entries.take(0) =~= Seq::<Seq<char>>::empty());
    while i < protocols.len()
        invariant
            i <= protocols.len(),
            entries == protocols@.map_values(|s: &str| s@),
            parsed.wf(),
            parse_entries(entries.take(i as int)) == Ok::<Map<Proto, Seq<u32>>, ProtoverError>(
                parsed@,
            ),
        decreases protocols.len() - i,
    {
        proof {
            assert(entries.take(i + 1).drop_last() =~= entries.take(i as int));
            assert(entries.take(i + 1).last() == protocols@[i as int]@);
        }
        match get_proto_and_vers(protocols[i]) {
            Err(e) => {
                proof {
                    lemma_parse_entries_fails(entries, i + 1);
                }
                return Err(e);
            },
            Ok((name, versions)) => {
                proof {
                    lemma_ascending_of(versions@);
                }
                parsed.insert(name, versions);
            },
        }
        i += 1;
    }
    assert(entries.take(i as int) =~= entries);
    Ok(parsed)
}

/// Once a part of a list of entries fails to parse, the whole list fails
/// with the same error.
pub proof fn lemma_parse_entries_fails(entries: Seq<Seq<char>>, k: int)
    requires
        0 <= k <= entries.len(),
        parse_entries(entries.take(k)) is Err,
    ensures
        parse_entries(entries) == parse_entries(entries.take(k)),
    decreases entries.len() - k,
{
    if k == entries.len() {
        assert(entries.take(k) =~= entries);
    } else {
        assert(entries.take(k + 1).drop_last() =~= entries.take(k));
        lemma_parse_entries_fails(entries, k + 1);
    }
}

/// Parses a protocol list: entries `Name=versions` with blanks between them.
/// Of two entries for one subprotocol the later one counts.  The first entry
/// that does not parse makes the whole list fail, with the error of that
/// entry.
pub fn parse_protocols_from_string(protocol_string: &str) -> (r: Result<ProtoMap, ProtoverError>)
    ensures
        is_map_result(r, parse_entries(words(protocol_string@))),
{
    let cs = chars_of(protocol_string);
    let bounds = split_words(&cs);
    let ghost entries = words(cs@);
    let mut parsed = ProtoMap::new();
    let mut i: usize = 0;
    assert(entries.take(0) =~= Seq::<Seq<char>>::empty());
    while i < bounds.len()
        invariant
            i <= bounds.len(),
            cs@ == protocol_string@,
            entries == words(cs@),
            bounds@.len() == entries.len(),
            forall|k: int|
                0 <= k < bounds@.len() ==> {
                    &&& (#[trigger] bounds@[k]).0 < bounds@[k].1 <= cs@.len()
                    &&& cs@.subrange(bounds@[k].0 as int, bounds@[k].1 as int) == entries[k]
                },
            parsed.wf(),
            parse_entries(entries.take(i as int)) == Ok::<Map<Proto, Seq<u32>>, ProtoverError>(
                parsed@,
            ),
        decreases bounds.len() - i,
    {
        proof {
            assert(entries.take(i + 1).drop_last() =~= entries.take(i as int));
            assert(entries.take(i + 1).last() == entries[i as int]);
        }
        let (from, to) = bounds[i];
        match read_entry(&cs, from, to) {
            Err(e) => {
                proof {
                    lemma_parse_entries_fails(entries, i + 1);
                }
                return Err(e);
            },
            Ok((name, versions)) => {
                proof {
                    lemma_ascending_of(versions@);
                }
                parsed.insert(name, versions);
            },
        }
        i += 1;
    }
    assert(entries.take(i as int) =~= entries);
    Ok(parsed)
}

/// Whether the entry in `cs[from..to]` is supported, given the versions
/// that this build implements.
fn entry_supported(cs: &Vec<char>, from: usize, to: usize, supported: &ProtoMap) -> (b: bool)
    requires
        from <= to <= cs.len(),
        supported.wf(),
        supported@ == supported_map(),
    ensures
        b == entry_is_supported(cs@.subrange(from as int, to as int)),
{
    match read_entry(cs, from, to) {
        Err(_) => false,
        Ok((name, versions)) => {
            let mut i: usize = 0;
            while i < versions.len()
                invariant
                    i <= versions.len(),
                    from <= to <= cs.len(),
                    parse_entry(cs@.subrange(from as int, to as int)) == Ok::<
                        (Proto, Set<u32>),
                        ProtoverError,
                    >((name, versions@.to_set())),
                    supported.wf(),
                    supported@ == supported_map(),
                    forall|j: int| 0 <= j < i ==> is_supported(name, #[trigger] versions@[j]),
                decreases versions.len() - i,
            {
                proof {
                    lemma_supported_versions(name, versions@[i as int]);
                }
                if !supported.supports(name, versions[i]) {
                    proof {
                        let v = versions@[i as int];
                        assert(versions@.to_set().contains(v));
                    }
                    return false;
                }
                i += 1;
            }
            proof {
                assert forall|v: u32| versions@.to_set().contains(v) implies is_supported(
                    name,
                    v,
                ) by {
                    let j = choose|j: int| 0 <= j < versions@.len() && versions@[j] == v;
                    assert(is_supported(name, versions@[j]));
                }
            }
            true
        },
    }
}

/// Takes one entry `Name=versions`, and tells whether this build implements
/// every version that it names.  An entry that does not parse is not
/// supported.
pub fn contains_only_ssupported_protocols(str_v: &str) -> (b: bool)
    ensures
        b == entry_is_supported(str_v@),
        parse_entry(str_v@) is Err ==> !b,
{
    let cs = chars_of(str_v);
    assert(cs@.subrange(0, cs.len() as int) =~= str_v@);
    let supported = tor_supported();
    entry_supported(&cs, 0, cs.len(), &supported)
}

/// No entry is unsupported if and only if every entry is supported.
pub proof fn lemma_unsupported_entries(entries: Seq<Seq<char>>)
    ensures
        unsupported_entries(entries).len() == 0 <==> forall|k: int|
            0 <= k < entries.len() ==> entry_is_supported(#[trigger] entries[k]),
    decreases entries.len(),
{
    if entries.len() > 0 {
        let earlier = entries.drop_last();
        lemma_unsupported_entries(earlier);
        if unsupported_entries(entries).len() == 0 {
            assert forall|k: int| 0 <= k < entries.len() implies entry_is_supported(
                #[trigger] entries[k],
            ) by {
                if k < earlier.len() {
                    assert(earlier[k] == entries[k]);
                }
            }
        } else if entry_is_supported(entries.last()) {
            let k = choose|k: int|
                0 <= k < earlier.len() && !entry_is_supported(#[trigger] earlier[k]);
            assert(!entry_is_supported(entries[k]));
        } else {
            assert(!entry_is_supported(entries[entries.len() - 1]));
        }
    }
}

/// Tells whether this build implements everything that a protocol list
/// names, and lists what it does not.
///
/// The list is cut into entries at its blanks.  The second part of the
/// result holds the entries that are not supported, as they were written, in
/// their order and with one space between them; an entry that does not parse
/// is among them.  The first part tells whether there is no such entry.
pub fn all_supported(protocols: &str) -> (r: (bool, String))
    ensures
        r.0 == (unsupported_entries(words(protocols@)).len() == 0),
        r.0 == forall|k: int|
            0 <= k < words(protocols@).len() ==> entry_is_supported(#[trigger] words(protocols@)[k]),
        r.1@ == join(unsupported_entries(words(protocols@)), ' '),
{
    let cs = chars_of(protocols);
    let ascii = protocols.is_ascii();
    let bounds = split_words(&cs);
    let supported = tor_supported();
    let ghost entries = words(cs@);
    let ghost mut failed: Seq<Seq<char>> = Seq::empty();
    let mut out = String::new();
    let mut none = true;
    let mut i: usize = 0;
    assert(entries.take(0) =~= Seq::<Seq<char>>::empty());
    while i < bounds.len()
        invariant
            i <= bounds.len(),
            cs@ == protocols@,
            ascii ==> protocols.is_ascii(),
            entries == words(cs@),
            bounds@.len() == entries.len(),
            forall|k: int|
                0 <= k < bounds@.len() ==> {
                    &&& (#[trigger] bounds@[k]).0 < bounds@[k].1 <= cs@.len()
                    &&& cs@.subrange(bounds@[k].0 as int, bounds@[k].1 as int) == entries[k]
                },
            supported.wf(),
            supported@ == supported_map(),
            failed == unsupported_entries(entries.take(i as int)),
            none == (failed.len() == 0),
            out@ == join(failed, ' '),
        decreases bounds.len() - i,
    {
        proof {
            assert(entries.take(i + 1).drop_last() =~= entries.take(i as int));
            assert(entries.take(i + 1).last() == entries[i as int]);
        }
        let (from, to) = bounds[i];
        if !entry_supported(&cs, from, to, &supported) {
            if !none {
                proof {
                    reveal_strlit(" ");
                }
                out.append(" ");
            }
            out.append(slice_chars(protocols, ascii, from, to));
            proof {
                let longer = failed.push(entries[i as int]);
                assert(longer.drop_last() =~= failed);
                assert(out@ =~= join(longer, ' '));
                failed = longer;
            }
            none = false;
        }
        i += 1;
    }
    proof {
        assert(entries.take(i as int) =~= entries);
        lemma_unsupported_entries(entries);
    }
    (none, out)
}

/// Tells whether a protocol list names the version `vers` of `proto`.  A
/// list of which any entry does not parse names nothing.
pub fn protover_string_supports_protocol(list: &str, proto: Proto, vers: u32) -> (b: bool)
    ensures
        b == (parse_entries(words(list@)) matches Ok(map) && map.contains_key(proto)
            && map[proto].contains(vers)),
{
    match parse_protocols_from_string(list) {
        Err(_) => false,
        Ok(supported) => supported.supports(proto, vers),
    }
}

/// An entry made of a name without `=`, a `=` and a version list carries
/// that name and that version list.
pub proof fn lemma_entry_parts(name: Seq<char>, versions: Seq<char>)
    requires
        forall|i: int| 0 <= i < name.len() ==> name[i] != '=',
    ensures
        entry_name(name + seq!['='] + versions) == name,
        entry_versions(name + seq!['='] + versions) == version_list(versions),
{
    let line = name + seq!['='] + versions;
    lemma_find_is(line, '=', name.len() as int);
    assert(line.take(name.len() as int) =~= name);
    assert(line.skip(name.len() as int + 1) =~= versions);
}

} // verus!
