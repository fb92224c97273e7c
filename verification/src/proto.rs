//! The subprotocols, and maps from subprotocols to their versions.

use crate::errors::ProtoverError;
use crate::text::{chars_match, chars_of};
use vstd::prelude::*;

verus! {

/// The subprotocols of the network.  A node advertises the versions that it
/// supports of each.
#[derive(Clone, Copy, Debug, PartialEq, Eq, Hash, Structural)]
pub enum Proto {
    Cons,
    Desc,
    DirCache,
    HSDir,
    HSIntro,
    HSRend,
    Link,
    LinkAuth,
    Microdesc,
    Relay,
}

impl Proto {
    /// The name under which the subprotocol stands in a protocol list.
    pub open spec fn name_text(self) -> Seq<char> {
        match self {
            Proto::Cons => "Cons"@,
            Proto::Desc => "Desc"@,
            Proto::DirCache => "DirCache"@,
            Proto::HSDir => "HSDir"@,
            Proto::HSIntro => "HSIntro"@,
            Proto::HSRend => "HSRend"@,
            Proto::Link => "Link"@,
            Proto::LinkAuth => "LinkAuth"@,
            Proto::Microdesc => "Microdesc"@,
            Proto::Relay => "Relay"@,
        }
    }

    /// The subprotocol with the name `s`, if there is one.  Names are
    /// compared letter for letter, upper and lower case apart.
    pub open spec fn named(s: Seq<char>) -> Option<Proto> {
        if s == "Cons"@ {
            Some(Proto::Cons)
        } else if s == "Desc"@ {
            Some(Proto::Desc)
        } else if s == "DirCache"@ {
            Some(Proto::DirCache)
        } else if s == "HSDir"@ {
            Some(Proto::HSDir)
        } else if s == "HSIntro"@ {
            Some(Proto::HSIntro)
        } else if s == "HSRend"@ {
            Some(Proto::HSRend)
        } else if s == "Link"@ {
            Some(Proto::Link)
        } else if s == "LinkAuth"@ {
            Some(Proto::LinkAuth)
        } else if s == "Microdesc"@ {
            Some(Proto::Microdesc)
        } else if s == "Relay"@ {
            Some(Proto::Relay)
        } else {
            None
        }
    }

    /// The place of the subprotocol in the order of the declaration.
    pub open spec fn position(self) -> int {
        match self {
            Proto::Cons => 0,
            Proto::Desc => 1,
            Proto::DirCache => 2,
            Proto::HSDir => 3,
            Proto::HSIntro => 4,
            Proto::HSRend => 5,
            Proto::Link => 6,
            Proto::LinkAuth => 7,
            Proto::Microdesc => 8,
            Proto::Relay => 9,
        }
    }

    /// The name of the subprotocol.
    pub fn name(&self) -> (text: &'static str)
        ensures
            text@ == self.name_text(),
    {
        match self {
            Proto::Cons => "Cons",
            Proto::Desc => "Desc",
            Proto::DirCache => "DirCache",
            Proto::HSDir => "HSDir",
            Proto::HSIntro => "HSIntro",
            Proto::HSRend => "HSRend",
            Proto::Link => "Link",
            Proto::LinkAuth => "LinkAuth",
            Proto::Microdesc => "Microdesc",
            Proto::Relay => "Relay",
        }
    }

    /// The subprotocol whose name is written in `cs[from..to]`.
    pub(crate) fn read(cs: &Vec<char>, from: usize, to: usize) -> (r: Option<Proto>)
        requires
            from <= to <= cs.len(),
        ensures
            r == Proto::named(cs@.subrange(from as int, to as int)),
    {
        if chars_match(cs, from, to, "Cons") {
            Some(Proto::Cons)
        } else if chars_match(cs, from, to, "Desc") {
            Some(Proto::Desc)
        } else if chars_match(cs, from, to, "DirCache") {
            Some(Proto::DirCache)
        } else if chars_match(cs, from, to, "HSDir") {
            Some(Proto::HSDir)
        } else if chars_match(cs, from, to, "HSIntro") {
            Some(Proto::HSIntro)
        } else if chars_match(cs, from, to, "HSRend") {
            Some(Proto::HSRend)
        } else if chars_match(cs, from, to, "Link") {
            Some(Proto::Link)
        } else if chars_match(cs, from, to, "LinkAuth") {
            Some(Proto::LinkAuth)
        } else if chars_match(cs, from, to, "Microdesc") {
            Some(Proto::Microdesc)
        } else if chars_match(cs, from, to, "Relay") {
            Some(Proto::Relay)
        } else {
            None
        }
    }

    /// The subprotocol with the given name; `UnknownProtocol` if no
    /// subprotocol has that name.
    pub fn from_str(s: &str) -> (r: Result<Proto, ProtoverError>)
        ensures
            match Proto::named(s@) {
                Some(p) => r == Ok::<Proto, ProtoverError>(p),
                None => r == Err::<Proto, ProtoverError>(ProtoverError::UnknownProtocol),
            },
    {
        let cs = chars_of(s);
        assert(cs@.subrange(0, cs.len() as int) =~= s@);
        match Proto::read(&cs, 0, cs.len()) {
            Some(p) => Ok(p),
            None => Err(ProtoverError::UnknownProtocol),
        }
    }

    /// The place of the subprotocol in the order of the declaration.
    pub fn index(&self) -> (i: usize)
        ensures
            i == self.position(),
            i < 10,
    {
        match self {
            Proto::Cons => 0,
            Proto::Desc => 1,
            Proto::DirCache => 2,
            Proto::HSDir => 3,
            Proto::HSIntro => 4,
            Proto::HSRend => 5,
            Proto::Link => 6,
            Proto::LinkAuth => 7,
            Proto::Microdesc => 8,
            Proto::Relay => 9,
        }
    }
}

/// The subprotocol names are all different: a name belongs to the
/// subprotocol that carries it, and to no other.
pub proof fn lemma_named_name(p: Proto)
    ensures
        Proto::named(p.name_text()) == Some(p),
{
    reveal_strlit("Cons");
    reveal_strlit("Desc");
    reveal_strlit("DirCache");
    reveal_strlit("HSDir");
    reveal_strlit("HSIntro");
    reveal_strlit("HSRend");
    reveal_strlit("Link");
    reveal_strlit("LinkAuth");
    reveal_strlit("Microdesc");
    reveal_strlit("Relay");
    assert("Cons"@.len() == 4 && "Cons"@[0] == 'C');
    assert("Desc"@.len() == 4 && "Desc"@[0] == 'D');
    assert("DirCache"@.len() == 8 && "DirCache"@[0] == 'D');
    assert("HSDir"@.len() == 5 && "HSDir"@[0] == 'H');
    assert("HSIntro"@.len() == 7);
    assert("HSRend"@.len() == 6);
    assert("Link"@.len() == 4 && "Link"@[0] == 'L');
    assert("LinkAuth"@.len() == 8 && "LinkAuth"@[0] == 'L');
    assert("Microdesc"@.len() == 9);
    assert("Relay"@.len() == 5 && "Relay"@[0] == 'R');
}

/// The subprotocol that stands behind a number of the C enumeration
/// `protocol_type_t`; `UnknownProtocol` for a number outside of it.
pub open spec fn proto_of_number(c_proto: u32) -> Result<Proto, ProtoverError> {
    if c_proto == 0 {
        Ok(Proto::Link)
    } else if c_proto == 1 {
        Ok(Proto::LinkAuth)
    } else if c_proto == 2 {
        Ok(Proto::Relay)
    } else if c_proto == 3 {
        Ok(Proto::DirCache)
    } else if c_proto == 4 {
        Ok(Proto::HSDir)
    } else if c_proto == 5 {
        Ok(Proto::HSIntro)
    } else if c_proto == 6 {
        Ok(Proto::HSRend)
    } else if c_proto == 7 {
        Ok(Proto::Desc)
    } else if c_proto == 8 {
        Ok(Proto::Microdesc)
    } else if c_proto == 9 {
        Ok(Proto::Cons)
    } else {
        Err(ProtoverError::UnknownProtocol)
    }
}

/// Translates a number of the C enumeration `protocol_type_t` to the
/// subprotocol that it stands for.  The numbers follow the order of that
/// enumeration, not the order of [`Proto`].
pub fn translate_to_rust(c_proto: u32) -> (r: Result<Proto, ProtoverError>)
    ensures
        r == proto_of_number(c_proto),
{
    match c_proto {
        0 => Ok(Proto::Link),
        1 => Ok(Proto::LinkAuth),
        2 => Ok(Proto::Relay),
        3 => Ok(Proto::DirCache),
        4 => Ok(Proto::HSDir),
        5 => Ok(Proto::HSIntro),
        6 => Ok(Proto::HSRend),
        7 => Ok(Proto::Desc),
        8 => Ok(Proto::Microdesc),
        9 => Ok(Proto::Cons),
        _ => Err(ProtoverError::UnknownProtocol),
    }
}

/// For some subprotocols, the versions that are supported of each.
pub struct ProtoMap {
    slots: Vec<Option<Vec<u32>>>,
}

impl View for ProtoMap {
    type V = Map<Proto, Seq<u32>>;

    closed spec fn view(&self) -> Map<Proto, Seq<u32>> {
        Map::new(
            |p: Proto| self.slots@[p.position()] is Some,
            |p: Proto| self.slots@[p.position()]->0@,
        )
    }
}

impl ProtoMap {
    /// Whether the map is well formed: it has a place for every subprotocol.
    pub closed spec fn wf(&self) -> bool {
        self.slots@.len() == 10
    }

    /// A map that holds no subprotocol.
    pub fn new() -> (m: ProtoMap)
        ensures
            m.wf(),
            m@ == Map::<Proto, Seq<u32>>::empty(),
    {
        let mut slots: Vec<Option<Vec<u32>>> = Vec::new();
        while slots.len() < 10
            invariant
                slots@.len() <= 10,
                forall|i: int| 0 <= i < slots@.len() ==> slots@[i] is None,
            decreases 10 - slots@.len(),
        {
            slots.push(None);
        }
        let m = ProtoMap { slots };
        assert(m@ =~= Map::<Proto, Seq<u32>>::empty());
        m
    }

    /// Sets the versions of `proto`, in place of those that the map held for
    /// it, if any.
    pub fn insert(&mut self, proto: Proto, versions: Vec<u32>)
        requires
            old(self).wf(),
        ensures
            final(self).wf(),
            final(self)@ == old(self)@.insert(proto, versions@),
    {
        let i = proto.index();
        self.slots.set(i, Some(versions));
        assert(self@ =~= old(self)@.insert(proto, versions@)) by {
            assert forall|p: Proto| p != proto implies p.position() != proto.position() by {}
        }
    }

    /// The versions that the map holds for `proto`.
    pub fn get(&self, proto: Proto) -> (r: Option<&Vec<u32>>)
        requires
            self.wf(),
        ensures
            match r {
                Some(versions) => self@.contains_key(proto) && self@[proto] == versions@,
                None => !self@.contains_key(proto),
            },
    {
        self.slots[proto.index()].as_ref()
    }

    /// Whether the map holds `proto` with the version `vers` among its
    /// versions.
    pub fn supports(&self, proto: Proto, vers: u32) -> (b: bool)
        requires
            self.wf(),
        ensures
            b == (self@.contains_key(proto) && self@[proto].contains(vers)),
    {
        match self.get(proto) {
            None => false,
            Some(versions) => {
                let mut i: usize = 0;
                while i < versions.len()
                    invariant
                        i <= versions.len(),
                        self@.contains_key(proto),
                        self@[proto] == versions@,
                        forall|j: int| 0 <= j < i ==> versions@[j] != vers,
                    decreases versions.len() - i,
                {
                    if versions[i] == vers {
                        return true;
                    }
                    i += 1;
                }
                false
            },
        }
    }
}

} // verus!
