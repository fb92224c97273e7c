//! Nodes too old to advertise their protocol versions: the protocol list
//! that stands for them, by the release that they run.

use vstd::prelude::*;
use vstd::string::StringExecFns;

verus! {

/// The first release that advertises its protocol versions itself.
pub const FIRST_TOR_VERSION_TO_ADVERTISE_PROTOCOLS: &'static str = "0.2.9.3-alpha";

/// The release from which on the second row of the table holds.
pub const SECOND_LEGACY_CUTOFF: &'static str = "0.2.9.1-alpha";

/// The release from which on the third row of the table holds.
pub const THIRD_LEGACY_CUTOFF: &'static str = "0.2.7.5";

/// The release from which on the last row of the table holds.
pub const LAST_LEGACY_CUTOFF: &'static str = "0.2.4.19";

/// The protocol list of the releases from `row` of the table on, up to the
/// row in front of it.  Row 0 is the first release that advertises its
/// versions itself, for which nothing is inferred.
pub open spec fn legacy_protocols(row: int) -> Seq<char> {
    if row == 1 {
        "Cons=1-2 Desc=1-2 DirCache=1 HSDir=1 HSIntro=3 HSRend=1-2 Link=1-4 LinkAuth=1 Microdesc=1-2 Relay=1-2"@
    } else if row == 2 {
        "Cons=1-2 Desc=1-2 DirCache=1 HSDir=1 HSIntro=3 HSRend=1 Link=1-4 LinkAuth=1 Microdesc=1-2 Relay=1-2"@
    } else if row == 3 {
        "Cons=1 Desc=1 DirCache=1 HSDir=1 HSIntro=3 HSRend=1 Link=1-4 LinkAuth=1 Microdesc=1 Relay=1-2"@
    } else {
        Seq::empty()
    }
}

/// The protocol list inferred for a release, given for each row of the table
/// whether the release is at least as new as the row's release: the list of
/// the first row for which that holds, and the empty text if it holds for
/// none.
pub open spec fn legacy_text(as_new_as: Seq<bool>) -> Seq<char> {
    if as_new_as[0] {
        legacy_protocols(0)
    } else if as_new_as[1] {
        legacy_protocols(1)
    } else if as_new_as[2] {
        legacy_protocols(2)
    } else if as_new_as[3] {
        legacy_protocols(3)
    } else {
        Seq::empty()
    }
}

/// The releases of the rows of the table, newest first.  A caller compares
/// the release of a node with each of them, by the order of release
/// numbers, and hands the answers to [`compute_for_old_tor`].
pub fn legacy_cutoffs() -> (cutoffs: [&'static str; 4])
    ensures
        cutoffs@[0]@ == FIRST_TOR_VERSION_TO_ADVERTISE_PROTOCOLS@,
        cutoffs@[1]@ == SECOND_LEGACY_CUTOFF@,
        cutoffs@[2]@ == THIRD_LEGACY_CUTOFF@,
        cutoffs@[3]@ == LAST_LEGACY_CUTOFF@,
{
    [
        FIRST_TOR_VERSION_TO_ADVERTISE_PROTOCOLS,
        SECOND_LEGACY_CUTOFF,
        THIRD_LEGACY_CUTOFF,
        LAST_LEGACY_CUTOFF,
    ]
}

/// Infers the protocol list of a node that is too old to advertise one.
///
/// `as_new_as[i]` tells whether the release of the node is at least as new
/// as the release `legacy_cutoffs()[i]`.  The result is the list of the first
/// row for which it is.  For a release that advertises its versions itself,
/// and for one that is older than every row, the result is the empty text.
pub fn compute_for_old_tor(as_new_as: [bool; 4]) -> (text: String)
    ensures
        text@ == legacy_text(as_new_as@),
{
    if as_new_as[0] {
        return String::new();
    }
    if as_new_as[1] {
        return String::from_str(
            "Cons=1-2 Desc=1-2 DirCache=1 HSDir=1 HSIntro=3 HSRend=1-2 Link=1-4 LinkAuth=1 Microdesc=1-2 Relay=1-2",
        );
    }
    if as_new_as[2] {
        return String::from_str(
            "Cons=1-2 Desc=1-2 DirCache=1 HSDir=1 HSIntro=3 HSRend=1 Link=1-4 LinkAuth=1 Microdesc=1-2 Relay=1-2",
        );
    }
    if as_new_as[3] {
        return String::from_str(
            "Cons=1 Desc=1 DirCache=1 HSDir=1 HSIntro=3 HSRend=1 Link=1-4 LinkAuth=1 Microdesc=1 Relay=1-2",
        );
    }
    String::new()
}

} // verus!
