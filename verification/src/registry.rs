//! The versions of each subprotocol that this build implements: the table of
//! entries that it advertises, and what the table says.

use crate::errors::ProtoverError;
use crate::proto::{lemma_named_name, Proto, ProtoMap};
use crate::roundtrip::lemma_round_trip;
use crate::support::{
    entry_is_supported, lemma_entry_parts, lemma_unsupported_entries, parse_entries, parse_entry,
    parse_protocols, unsupported_entries,
};
use crate::text::{are_words, is_blank, is_word, join, lemma_words_of_join, words};
use crate::versions::{compress, is_ascending, lemma_ascending_len, lemma_ascending_of, run_len};
use vstd::prelude::*;
use vstd::string::StringExecFns;

verus! {

/// The versions of each subprotocol that this build implements, in
/// ascending order.
pub open spec fn supported_versions(p: Proto) -> Seq<u32> {
    match p {
        Proto::Cons => seq![1u32, 2u32],
        Proto::Desc => seq![1u32, 2u32],
        Proto::DirCache => seq![1u32, 2u32],
        Proto::HSDir => seq![1u32, 2u32],
        Proto::HSIntro => seq![3u32, 4u32],
        Proto::HSRend => seq![1u32, 2u32],
        Proto::Link => seq![1u32, 2u32, 3u32, 4u32],
        Proto::LinkAuth => seq![1u32, 3u32],
        Proto::Microdesc => seq![1u32, 2u32],
        Proto::Relay => seq![1u32, 2u32],
    }
}

/// Whether this build implements the version `vers` of `proto`.
pub open spec fn is_supported(proto: Proto, vers: u32) -> bool {
    match proto {
        Proto::Cons => 1 <= vers <= 2,
        Proto::Desc => 1 <= vers <= 2,
        Proto::DirCache => 1 <= vers <= 2,
        Proto::HSDir => 1 <= vers <= 2,
        Proto::HSIntro => 3 <= vers <= 4,
        Proto::HSRend => 1 <= vers <= 2,
        Proto::Link => 1 <= vers <= 4,
        Proto::LinkAuth => vers == 1 || vers == 3,
        Proto::Microdesc => 1 <= vers <= 2,
        Proto::Relay => 1 <= vers <= 2,
    }
}

/// The entry of the table for a subprotocol, as this build advertises it.
pub open spec fn supported_entry(proto: Proto) -> Seq<char> {
    match proto {
        Proto::Cons => "Cons=1-2"@,
        Proto::Desc => "Desc=1-2"@,
        Proto::DirCache => "DirCache=1-2"@,
        Proto::HSDir => "HSDir=1-2"@,
        Proto::HSIntro => "HSIntro=3-4"@,
        Proto::HSRend => "HSRend=1-2"@,
        Proto::Link => "Link=1-4"@,
        Proto::LinkAuth => "LinkAuth=1,3"@,
        Proto::Microdesc => "Microdesc=1-2"@,
        Proto::Relay => "Relay=1-2"@,
    }
}

/// The subprotocol at the place `i` in the order of the declaration.
pub open spec fn proto_at(i: int) -> Proto {
    if i == 0 {
        Proto::Cons
    } else if i == 1 {
        Proto::Desc
    } else if i == 2 {
        Proto::DirCache
    } else if i == 3 {
        Proto::HSDir
    } else if i == 4 {
        Proto::HSIntro
    } else if i == 5 {
        Proto::HSRend
    } else if i == 6 {
        Proto::Link
    } else if i == 7 {
        Proto::LinkAuth
    } else if i == 8 {
        Proto::Microdesc
    } else {
        Proto::Relay
    }
}

/// The entries of the table, in the order of the subprotocols.
pub open spec fn supported_entries() -> Seq<Seq<char>> {
    Seq::new(10, |i: int| supported_entry(proto_at(i)))
}

/// The protocol list that this build advertises: the entries of the table
/// with one space between them.
pub open spec fn supported_text() -> Seq<char> {
    join(supported_entries(), ' ')
}

/// For every subprotocol the versions that this build implements.
pub open spec fn supported_map() -> Map<Proto, Seq<u32>> {
    Map::new(|p: Proto| true, |p: Proto| supported_versions(p))
}

/// The table of supported versions lists exactly the versions that are
/// implemented.
pub proof fn lemma_supported_versions(proto: Proto, vers: u32)
    ensures
        supported_versions(proto).contains(vers) <==> is_supported(proto, vers),
{
    let table = supported_versions(proto);
    if is_supported(proto, vers) {
        if table.len() == 4 {
            assert(table[vers - 1] == vers);
        } else if proto == Proto::HSIntro {
            assert(table[vers - 3] == vers);
        } else if proto == Proto::LinkAuth {
            assert(table[(vers - 1) / 2] == vers);
        } else {
            assert(table[vers - 1] == vers);
        }
    }
}

/// The version lists that stand in the table are what `compress` writes for
/// the versions of the table.
proof fn lemma_supported_lists()
    ensures
        compress(seq![1u32, 2u32]) == "1-2"@,
        compress(seq![3u32, 4u32]) == "3-4"@,
        compress(seq![1u32, 2u32, 3u32, 4u32]) == "1-4"@,
        compress(seq![1u32, 3u32]) == "1,3"@,
{
    reveal_strlit("1-2");
    reveal_strlit("3-4");
    reveal_strlit("1-4");
    reveal_strlit("1,3");
    reveal_with_fuel(run_len, 5);
    reveal_with_fuel(compress, 3);
    assert(compress(seq![1u32, 2u32]) =~= "1-2"@);
    assert(compress(seq![3u32, 4u32]) =~= "3-4"@);
    assert(compress(seq![1u32, 2u32, 3u32, 4u32]) =~= "1-4"@);
    assert(seq![1u32, 3u32].skip(1) =~= seq![3u32]);
    assert(compress(seq![1u32, 3u32]) =~= "1,3"@);
}

/// The entry of the table for a subprotocol is its name, `=`, and the
/// version list of its versions; it parses as that subprotocol with those
/// versions.
pub proof fn lemma_supported_entry(proto: Proto)
    ensures
        supported_entry(proto) == proto.name_text() + seq!['='] + compress(
            supported_versions(proto),
        ),
        is_word(supported_entry(proto)),
        parse_entry(supported_entry(proto)) == Ok::<(Proto, Set<u32>), ProtoverError>(
            (proto, supported_versions(proto).to_set()),
        ),
{
    let name = proto.name_text();
    let versions = supported_versions(proto);
    let list = compress(versions);
    let entry = supported_entry(proto);
    lemma_supported_lists();
    reveal_strlit("1-2");
    reveal_strlit("3-4");
    reveal_strlit("1-4");
    reveal_strlit("1,3");
    match proto {
        Proto::Cons => {
            reveal_strlit("Cons");
            reveal_strlit("Cons=1-2");
        },
        Proto::Desc => {
            reveal_strlit("Desc");
            reveal_strlit("Desc=1-2");
        },
        Proto::DirCache => {
            reveal_strlit("DirCache");
            reveal_strlit("DirCache=1-2");
        },
        Proto::HSDir => {
            reveal_strlit("HSDir");
            reveal_strlit("HSDir=1-2");
        },
        Proto::HSIntro => {
            reveal_strlit("HSIntro");
            reveal_strlit("HSIntro=3-4");
        },
        Proto::HSRend => {
            reveal_strlit("HSRend");
            reveal_strlit("HSRend=1-2");
        },
        Proto::Link => {
            reveal_strlit("Link");
            reveal_strlit("Link=1-4");
        },
        Proto::LinkAuth => {
            reveal_strlit("LinkAuth");
            reveal_strlit("LinkAuth=1,3");
        },
        Proto::Microdesc => {
            reveal_strlit("Microdesc");
            reveal_strlit("Microdesc=1-2");
        },
        Proto::Relay => {
            reveal_strlit("Relay");
            reveal_strlit("Relay=1-2");
        },
    }
    assert(entry =~= name + seq!['='] + list);
    assert forall|i: int| 0 <= i < entry.len() implies !is_blank(#[trigger] entry[i]) by {}
    assert forall|i: int| 0 <= i < name.len() implies name[i] != '=' by {}
    lemma_entry_parts(name, list);
    lemma_named_name(proto);
    assert(is_ascending(versions));
    lemma_ascending_len(versions);
    lemma_ascending_of(versions);
    lemma_round_trip(versions);
}

/// The first `k` entries of the table parse as the map of the first `k`
/// subprotocols to their versions.
proof fn lemma_supported_prefix(k: nat)
    requires
        k <= 10,
    ensures
        parse_entries(supported_entries().take(k as int)) == Ok::<
            Map<Proto, Seq<u32>>,
            ProtoverError,
        >(Map::new(|p: Proto| p.position() < k, |p: Proto| supported_versions(p))),
    decreases k,
{
    let entries = supported_entries().take(k as int);
    let wanted = Map::new(|p: Proto| p.position() < k, |p: Proto| supported_versions(p));
    if k == 0 {
        assert(wanted =~= Map::<Proto, Seq<u32>>::empty());
    } else {
        let before = (k - 1) as nat;
        let proto = proto_at(before as int);
        lemma_supported_prefix(before);
        lemma_supported_entry(proto);
        lemma_ascending_of(supported_versions(proto));
        assert(entries.drop_last() =~= supported_entries().take(before as int));
        assert(entries.last() == supported_entry(proto));
        let earlier = Map::new(
            |p: Proto| p.position() < before,
            |p: Proto| supported_versions(p),
        );
        assert(earlier.insert(proto, supported_versions(proto)) =~= wanted);
    }
}

/// The table parses as the map of every subprotocol to its versions, and so
/// does the protocol list that this build advertises.
pub proof fn lemma_supported_table()
    ensures
        are_words(supported_entries()),
        parse_entries(supported_entries()) == Ok::<Map<Proto, Seq<u32>>, ProtoverError>(
            supported_map(),
        ),
        parse_entries(words(supported_text())) == Ok::<Map<Proto, Seq<u32>>, ProtoverError>(
            supported_map(),
        ),
{
    let entries = supported_entries();
    lemma_supported_prefix(10);
    assert(entries.take(10) =~= entries);
    assert(Map::new(|p: Proto| p.position() < 10, |p: Proto| supported_versions(p))
        =~= supported_map());
    assert forall|i: int| 0 <= i < entries.len() implies is_word(#[trigger] entries[i]) by {
        lemma_supported_entry(proto_at(i));
    }
    lemma_words_of_join(entries);
}

/// This build supports everything that it advertises: no entry of its
/// protocol list is unsupported.
pub proof fn lemma_advertised_is_supported()
    ensures
        unsupported_entries(words(supported_text())).len() == 0,
{
    let entries = supported_entries();
    lemma_supported_table();
    lemma_words_of_join(entries);
    assert forall|k: int| 0 <= k < entries.len() implies entry_is_supported(
        #[trigger] entries[k],
    ) by {
        let proto = proto_at(k);
        lemma_supported_entry(proto);
        assert forall|v: u32| supported_versions(proto).to_set().contains(v) implies is_supported(
            proto,
            v,
        ) by {
            lemma_supported_versions(proto, v);
        }
    }
    lemma_unsupported_entries(entries);
}

/// The entries of the table.
fn supported_list() -> (list: [&'static str; 10])
    ensures
        forall|i: int| 0 <= i < 10 ==> (#[trigger] list@[i])@ == supported_entries()[i],
{
    [
        "Cons=1-2",
        "Desc=1-2",
        "DirCache=1-2",
        "HSDir=1-2",
        "HSIntro=3-4",
        "HSRend=1-2",
        "Link=1-4",
        "LinkAuth=1,3",
        "Microdesc=1-2",
        "Relay=1-2",
    ]
}

/// The protocol list that this build advertises: every subprotocol with the
/// versions of it that are implemented.
pub fn get_supported_protocols() -> (text: String)
    ensures
        text@ == supported_text(),
{
    let list = supported_list();
    let ghost entries = supported_entries();
    let mut out = String::new();
    let mut i: usize = 0;
    proof {
        reveal_strlit(" ");
        assert(entries.take(0) =~= Seq::<Seq<char>>::empty());
    }
    while i < 10
        invariant
            i <= 10,
            entries == supported_entries(),
            forall|k: int| 0 <= k < 10 ==> (#[trigger] list@[k])@ == entries[k],
            " "@ == seq![' '],
            out@ == join(entries.take(i as int), ' '),
        decreases 10 - i,
    {
        let ghost before = out@;
        if i > 0 {
            out.append(" ");
        }
        out.append(list[i]);
        proof {
            assert(entries.take(i + 1).drop_last() =~= entries.take(i as int));
            assert(entries.take(i + 1).last() == list@[i as int]@);
            if i > 0 {
                assert(out@ =~= before + seq![' '] + entries[i as int]);
            } else {
                assert(out@ =~= entries[0]);
            }
        }
        i += 1;
    }
    proof {
        assert(entries.take(10) =~= entries);
    }
    out
}

/// The versions that this build implements, as a map: what the table of
/// advertised entries parses as.
pub fn tor_supported() -> (m: ProtoMap)
    ensures
        m.wf(),
        m@ == supported_map(),
{
    let list = supported_list();
    proof {
        lemma_supported_table();
        assert(list@.map_values(|s: &str| s@) =~= supported_entries());
    }
    match parse_protocols(list.as_slice()) {
        Ok(m) => m,
        Err(_) => unreached(),
    }
}

/// Whether this build implements the version `vers` of `proto`.
pub fn is_supported_here(proto: Proto, vers: u32) -> (b: bool)
    ensures
        b == is_supported(proto, vers),
{
    proof {
        lemma_supported_versions(proto, vers);
    }
    tor_supported().supports(proto, vers)
}

} // verus!
