use protover::{
    all_supported, contains_only_ssupported_protocols, get_proto_and_vers,
    get_supported_protocols, is_supported_here, parse_protocols, parse_protocols_from_string,
    protover_string_supports_protocol, tor_supported, translate_to_rust, Proto, ProtoMap,
    ProtoverError,
};

const ALL: [Proto; 10] = [
    Proto::Cons,
    Proto::Desc,
    Proto::DirCache,
    Proto::HSDir,
    Proto::HSIntro,
    Proto::HSRend,
    Proto::Link,
    Proto::LinkAuth,
    Proto::Microdesc,
    Proto::Relay,
];

#[test]
fn test_contains_only_ssupported_protocols() {
    assert_eq!(false, contains_only_ssupported_protocols(""));
    assert_eq!(false, contains_only_ssupported_protocols("Cons="));
    assert_eq!(true, contains_only_ssupported_protocols("Cons=1"));
    assert_eq!(false, contains_only_ssupported_protocols("Cons=0"));
    assert_eq!(false, contains_only_ssupported_protocols("Cons=0-1"));
    assert_eq!(false, contains_only_ssupported_protocols("Cons=5"));
    assert_eq!(false, contains_only_ssupported_protocols("Cons=1-5"));
    assert_eq!(false, contains_only_ssupported_protocols("Cons=1,5"));
    assert_eq!(false, contains_only_ssupported_protocols("Cons=5,6"));
    assert_eq!(false, contains_only_ssupported_protocols("Cons=1,5,6"));
    assert_eq!(true, contains_only_ssupported_protocols("Cons=1,2"));
    assert_eq!(true, contains_only_ssupported_protocols("Cons=1-2"));
}

#[test]
fn unparsable_entry_is_not_supported() {
    assert_eq!(false, contains_only_ssupported_protocols(""));
    assert_eq!(false, contains_only_ssupported_protocols("Cons="));
    assert_eq!(false, contains_only_ssupported_protocols("Cons=1-"));
    assert_eq!(false, contains_only_ssupported_protocols("Cons"));
    assert_eq!(false, contains_only_ssupported_protocols("=1"));
    assert_eq!(false, contains_only_ssupported_protocols("cons=1"));
    assert_eq!(false, contains_only_ssupported_protocols("Wombat=1"));
    assert_eq!(false, contains_only_ssupported_protocols("Cons=1=2"));
    assert_eq!(false, contains_only_ssupported_protocols("Cons=1 "));
    assert_eq!(false, contains_only_ssupported_protocols("Cons=1-4000000000"));
    assert_eq!(false, contains_only_ssupported_protocols("Link=1 Cons=1"));
}

#[test]
fn entry_without_versions_is_supported() {
    assert_eq!(true, contains_only_ssupported_protocols("Cons=2-1"));
    assert_eq!(Ok((Proto::Cons, vec![])), get_proto_and_vers("Cons=2-1"));
}

#[test]
fn entry_errors() {
    assert_eq!(Err(ProtoverError::EmptyInput), get_proto_and_vers(""));
    assert_eq!(Err(ProtoverError::EmptyInput), get_proto_and_vers("Cons"));
    assert_eq!(Err(ProtoverError::EmptyInput), get_proto_and_vers("Cons="));
    assert_eq!(Err(ProtoverError::EmptyInput), get_proto_and_vers("Wombat="));
    assert_eq!(Err(ProtoverError::MalformedRange), get_proto_and_vers("Cons=1-"));
    assert_eq!(Err(ProtoverError::MalformedVersion), get_proto_and_vers("Cons=x"));
    assert_eq!(Err(ProtoverError::MalformedVersion), get_proto_and_vers("Cons=1=2"));
    assert_eq!(Err(ProtoverError::MalformedVersion), get_proto_and_vers("Wombat=x"));
    assert_eq!(Err(ProtoverError::TooManyVersions), get_proto_and_vers("Cons=1-501"));
    assert_eq!(Err(ProtoverError::UnknownProtocol), get_proto_and_vers("Wombat=9"));
    assert_eq!(Err(ProtoverError::UnknownProtocol), get_proto_and_vers("=9"));
    assert_eq!(Err(ProtoverError::UnknownProtocol), get_proto_and_vers("link=1"));
    assert_eq!(Ok((Proto::LinkAuth, vec![1, 3])), get_proto_and_vers("LinkAuth=3,1"));
}

#[test]
fn test_all_supported() {
    assert_eq!((true, String::from("")), all_supported("Cons=1"));
    assert_eq!(
        (false, String::from("Wombat=9")),
        all_supported("Cons=1 Wombat=9")
    );
}

#[test]
fn all_supported_scenarios() {
    let (is_supported, unsupported) = all_supported("Link=1");
    assert_eq!(true, is_supported);
    assert_eq!("", unsupported);

    let (is_supported, unsupported) = all_supported("Link=5-6");
    assert_eq!(false, is_supported);
    assert_eq!("Link=5-6", unsupported);
}

#[test]
fn all_supported_lists_failed_entries_in_order() {
    assert_eq!((true, String::new()), all_supported(""));
    assert_eq!((true, String::new()), all_supported("   "));
    assert_eq!((true, String::new()), all_supported(&get_supported_protocols()));
    assert_eq!(
        (false, String::from("Link=5 junk Cons=1-")),
        all_supported("Link=5 Desc=1 junk  Cons=1-\tHSDir=1\n")
    );
    assert_eq!(
        (false, String::from("Link=1-5")),
        all_supported("  Link=1-5 LinkAuth=1,3")
    );
    assert_eq!(
        (false, String::from("Link=9 Link=9")),
        all_supported("Link=9 Link=1 Link=9")
    );
    assert_eq!(
        (false, String::from("Liñk=1 Link=é")),
        all_supported("Liñk=1 Link=1 Link=é")
    );
}

#[test]
fn blanks_are_the_ascii_ones() {
    assert_eq!(
        (false, String::from("Link=9 Cons=9 Desc=9 Relay=9 HSDir=9")),
        all_supported("Link=9 Cons=9\tDesc=9\nRelay=9\rHSDir=9\u{c}Link=1")
    );
    assert_eq!(
        (false, String::from("Link=1\u{a0}Cons=1")),
        all_supported("Link=1\u{a0}Cons=1")
    );
    assert_eq!(
        (false, String::from("Link=1\u{b}Cons=1")),
        all_supported("Link=1\u{b}Cons=1")
    );
}

#[test]
fn string_supports_protocol_scenarios() {
    assert_eq!(true, protover_string_supports_protocol("Link=3-4 Cons=1", Proto::Cons, 1));
    assert_eq!(true, protover_string_supports_protocol("Link=3-4 Cons=1", Proto::Link, 4));
    assert_eq!(false, protover_string_supports_protocol("Link=3-4 Cons=1", Proto::Link, 2));
    assert_eq!(false, protover_string_supports_protocol("Link=3-4 Cons=1", Proto::Cons, 2));
    assert_eq!(false, protover_string_supports_protocol("Link=3-4 Cons=1", Proto::Desc, 1));
    assert_eq!(false, protover_string_supports_protocol("", Proto::Cons, 1));
    assert_eq!(true, protover_string_supports_protocol("Link=9", Proto::Link, 9));
    assert_eq!(true, protover_string_supports_protocol("  Link=3-4   Cons=1 ", Proto::Cons, 1));
}

#[test]
fn one_bad_entry_spoils_the_list() {
    assert_eq!(false, protover_string_supports_protocol("Link=3-4 Cons=1 x", Proto::Cons, 1));
    assert_eq!(false, protover_string_supports_protocol("Wombat=1 Cons=1", Proto::Cons, 1));
    assert_eq!(false, protover_string_supports_protocol("Cons=1 Link=1-", Proto::Cons, 1));
    assert_eq!(false, protover_string_supports_protocol("Cons=1 Link=", Proto::Cons, 1));
}

#[test]
fn later_entry_replaces_earlier() {
    assert_eq!(false, protover_string_supports_protocol("Link=1 Link=2", Proto::Link, 1));
    assert_eq!(true, protover_string_supports_protocol("Link=1 Link=2", Proto::Link, 2));
    let map = parse_protocols_from_string("Link=1-3 Cons=2 Link=7").ok().unwrap();
    assert_eq!(Some(&vec![7]), map.get(Proto::Link));
    assert_eq!(Some(&vec![2]), map.get(Proto::Cons));
    assert_eq!(None, map.get(Proto::Desc));
}

#[test]
fn parse_errors_name_the_first_fault() {
    assert_eq!(
        Some(ProtoverError::UnknownProtocol),
        parse_protocols_from_string("Link=1 Wombat=1 Cons=x").err()
    );
    assert_eq!(
        Some(ProtoverError::MalformedVersion),
        parse_protocols_from_string("Link=1 Cons=x Wombat=1").err()
    );
    assert_eq!(
        Some(ProtoverError::EmptyInput),
        parse_protocols(&["Link=1", "", "Cons=x"]).err()
    );
    assert_eq!(
        Some(ProtoverError::MalformedRange),
        parse_protocols(&["Link=1-"]).err()
    );
    assert_eq!(
        Some(ProtoverError::TooManyVersions),
        parse_protocols(&["Link=1-1000"]).err()
    );
    assert_eq!(
        Some(ProtoverError::MalformedVersion),
        parse_protocols(&["Link=1 Cons=1"]).err()
    );
    assert_eq!(
        Some(ProtoverError::UnknownProtocol),
        parse_protocols(&["Link=1", "Wombat=1"]).err()
    );
}

#[test]
fn parse_protocols_fills_the_map() {
    let map = parse_protocols(&["Link=1-2", "HSIntro=4,3"]).ok().unwrap();
    assert_eq!(Some(&vec![1, 2]), map.get(Proto::Link));
    assert_eq!(Some(&vec![3, 4]), map.get(Proto::HSIntro));
    assert_eq!(None, map.get(Proto::Relay));
    assert!(map.supports(Proto::Link, 2));
    assert!(!map.supports(Proto::Link, 3));
    assert!(!map.supports(Proto::Relay, 1));
    let none: [&str; 0] = [];
    let empty = parse_protocols(&none).ok().unwrap();
    for proto in ALL {
        assert_eq!(None, empty.get(proto));
    }
}

#[test]
fn proto_map_insert_and_get() {
    let mut map = ProtoMap::new();
    assert_eq!(None, map.get(Proto::Cons));
    map.insert(Proto::Cons, vec![1, 2]);
    map.insert(Proto::Relay, vec![5]);
    assert_eq!(Some(&vec![1, 2]), map.get(Proto::Cons));
    assert_eq!(Some(&vec![5]), map.get(Proto::Relay));
    map.insert(Proto::Cons, vec![9]);
    assert_eq!(Some(&vec![9]), map.get(Proto::Cons));
    assert!(map.supports(Proto::Cons, 9));
    assert!(!map.supports(Proto::Cons, 1));
}

#[test]
fn is_supported_here_scenarios() {
    assert_eq!(false, is_supported_here(Proto::Link, 5));
    assert_eq!(true, is_supported_here(Proto::Link, 1));
    assert_eq!(true, is_supported_here(Proto::Link, 4));
    assert_eq!(false, is_supported_here(Proto::Link, 0));
    assert_eq!(true, is_supported_here(Proto::LinkAuth, 1));
    assert_eq!(false, is_supported_here(Proto::LinkAuth, 2));
    assert_eq!(true, is_supported_here(Proto::LinkAuth, 3));
    assert_eq!(false, is_supported_here(Proto::HSIntro, 1));
    assert_eq!(true, is_supported_here(Proto::HSIntro, 3));
    assert_eq!(true, is_supported_here(Proto::HSIntro, 4));
    assert_eq!(false, is_supported_here(Proto::HSIntro, 5));
    assert_eq!(false, is_supported_here(Proto::Cons, 4294967295));
}

#[test]
fn supported_text_and_table_agree() {
    let text = get_supported_protocols();
    assert_eq!(
        "Cons=1-2 Desc=1-2 DirCache=1-2 HSDir=1-2 HSIntro=3-4 HSRend=1-2 \
         Link=1-4 LinkAuth=1,3 Microdesc=1-2 Relay=1-2",
        text
    );
    let parsed = parse_protocols_from_string(&text).ok().unwrap();
    let table = tor_supported();
    for proto in ALL {
        assert!(table.get(proto).is_some());
        assert_eq!(table.get(proto), parsed.get(proto));
        for version in 0..10 {
            assert_eq!(
                is_supported_here(proto, version),
                protover_string_supports_protocol(&text, proto, version)
            );
            assert_eq!(is_supported_here(proto, version), table.supports(proto, version));
        }
    }
}

#[test]
fn names_and_protocols_match() {
    let names = [
        "Cons",
        "Desc",
        "DirCache",
        "HSDir",
        "HSIntro",
        "HSRend",
        "Link",
        "LinkAuth",
        "Microdesc",
        "Relay",
    ];
    for i in 0..10 {
        assert_eq!(names[i], ALL[i].name());
        assert_eq!(Ok(ALL[i]), Proto::from_str(names[i]));
        assert_eq!(i, ALL[i].index());
    }
    assert_eq!(Err(ProtoverError::UnknownProtocol), Proto::from_str(""));
    assert_eq!(Err(ProtoverError::UnknownProtocol), Proto::from_str("link"));
    assert_eq!(Err(ProtoverError::UnknownProtocol), Proto::from_str("Link "));
    assert_eq!(Err(ProtoverError::UnknownProtocol), Proto::from_str("LinkAut"));
    assert_eq!(Err(ProtoverError::UnknownProtocol), Proto::from_str("LinkAuthX"));
}

#[test]
fn numbers_of_the_c_enumeration() {
    assert_eq!(Ok(Proto::Link), translate_to_rust(0));
    assert_eq!(Ok(Proto::LinkAuth), translate_to_rust(1));
    assert_eq!(Ok(Proto::Relay), translate_to_rust(2));
    assert_eq!(Ok(Proto::DirCache), translate_to_rust(3));
    assert_eq!(Ok(Proto::HSDir), translate_to_rust(4));
    assert_eq!(Ok(Proto::HSIntro), translate_to_rust(5));
    assert_eq!(Ok(Proto::HSRend), translate_to_rust(6));
    assert_eq!(Ok(Proto::Desc), translate_to_rust(7));
    assert_eq!(Ok(Proto::Microdesc), translate_to_rust(8));
    assert_eq!(Ok(Proto::Cons), translate_to_rust(9));
    assert_eq!(Err(ProtoverError::UnknownProtocol), translate_to_rust(10));
    assert_eq!(Err(ProtoverError::UnknownProtocol), translate_to_rust(4294967295));
}
