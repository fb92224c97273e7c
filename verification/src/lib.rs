//! Protocol-version negotiation and voting.
//!
//! Every node of the network advertises, for each subprotocol it speaks, the
//! versions it supports, as text of the form `Link=1-4 LinkAuth=1,3`.  This
//! crate parses and writes that text, answers support queries against the
//! versions this build implements, and computes the vote of a quorum.
//!
//! The executable functions carry contracts over spec functions that say
//! what the text means, and each function is proved against its contract:
//!
//! * [`text`], [`decimal`]: characters, words and numbers;
//! * [`versions`]: version lists such as `1,3,5-7`, read and written, and
//!   [`roundtrip`]: writing and reading again gives the same versions;
//! * [`proto`], [`registry`]: the subprotocols and the versions of each that
//!   this build implements;
//! * [`support`]: protocol lists, and whether this build supports them;
//! * [`tally`], [`names`], [`vote`]: the vote on the lists that nodes report,
//!   and [`ballot`]: what the text of a vote says;
//! * [`legacy`]: the lists inferred for releases that advertise none.

pub mod ballot;
pub mod decimal;
pub mod errors;
pub mod legacy;
pub mod names;
pub mod proto;
pub mod registry;
pub mod roundtrip;
pub mod support;
pub mod tally;
pub mod text;
pub mod versions;
pub mod vote;

pub use errors::ProtoverError;
pub use legacy::{compute_for_old_tor, legacy_cutoffs};
pub use names::write_vote_to_string;
pub use proto::{translate_to_rust, Proto, ProtoMap};
pub use registry::{get_supported_protocols, is_supported_here, tor_supported};
pub use support::{
    all_supported, contains_only_ssupported_protocols, get_proto_and_vers, parse_protocols,
    parse_protocols_from_string, protover_string_supports_protocol,
};
pub use tally::parse_protocols_with_duplicates;
pub use versions::{
    contract_protocol_list, expand_version_range, find_range, get_versions,
    MAX_PROTOCOLS_TO_EXPAND,
};
pub use vote::compute_vote;
