use protover::versions::write_versions;
use protover::{contract_protocol_list, expand_version_range, find_range, get_versions};
use protover::{ProtoverError, MAX_PROTOCOLS_TO_EXPAND};
use std::collections::HashSet;

fn set_of(versions: &[u32]) -> HashSet<u32> {
    let mut set = HashSet::new();
    for v in versions {
        set.insert(*v);
    }
    set
}

#[test]
fn test_get_versions() {
    assert_eq!(
        Err(ProtoverError::EmptyInput),
        get_versions(""),
        "version string is empty"
    );
    assert_eq!(Ok(vec![1]), get_versions("1"));
    assert_eq!(Ok(vec![1, 2]), get_versions("1,2"));
    assert_eq!(Ok(vec![1, 2, 3]), get_versions("1,2,3"));
    assert_eq!(Ok(vec![1, 2, 3]), get_versions("1-3"));
    assert_eq!(Ok(vec![1, 2, 3, 5]), get_versions("1-3,5"));
    assert_eq!(Ok(vec![1, 3, 4, 5]), get_versions("1,3-5"));
}

#[test]
fn test_find_range() {
    assert_eq!((false, 0), find_range(&vec![]));
    assert_eq!((false, 1), find_range(&vec![1]));
    assert_eq!((true, 2), find_range(&vec![1, 2]));
    assert_eq!((true, 3), find_range(&vec![1, 2, 3]));
    assert_eq!((true, 3), find_range(&vec![1, 2, 3, 5]));
}

#[test]
fn test_expand_version_range() {
    assert_eq!(
        Err(ProtoverError::EmptyInput),
        expand_version_range(""),
        "version string empty"
    );
    assert_eq!(Ok(vec![1, 2]), expand_version_range("1-2"));
    assert_eq!(Ok(vec![1, 2, 3, 4]), expand_version_range("1-4"));
    assert_eq!(
        Err(ProtoverError::MalformedRange),
        expand_version_range("a"),
        "cannot parse protocol range lower bound"
    );
    assert_eq!(
        Err(ProtoverError::MalformedRange),
        expand_version_range("1-a"),
        "cannot parse protocol range upper bound"
    );
}

#[test]
fn test_contract_protocol_list() {
    {
        let mut versions = HashSet::<u32>::new();
        assert_eq!(String::from(""), contract_protocol_list(&versions));

        versions.insert(1);
        assert_eq!(String::from("1"), contract_protocol_list(&versions));

        versions.insert(2);
        assert_eq!(String::from("1-2"), contract_protocol_list(&versions));
    }

    {
        let mut versions = HashSet::<u32>::new();
        versions.insert(1);
        versions.insert(3);
        assert_eq!(String::from("1,3"), contract_protocol_list(&versions));
    }

    {
        let mut versions = HashSet::<u32>::new();
        versions.insert(1);
        versions.insert(2);
        versions.insert(3);
        versions.insert(4);
        assert_eq!(String::from("1-4"), contract_protocol_list(&versions));
    }

    {
        let mut versions = HashSet::<u32>::new();
        versions.insert(1);
        versions.insert(3);
        versions.insert(5);
        versions.insert(6);
        versions.insert(7);
        assert_eq!(
            String::from("1,3,5-7"),
            contract_protocol_list(&versions)
        );
    }

    {
        let mut versions = HashSet::<u32>::new();
        versions.insert(1);
        versions.insert(2);
        versions.insert(3);
        versions.insert(500);
        assert_eq!(
            String::from("1-3,500"),
            contract_protocol_list(&versions)
        );
    }
}

#[test]
fn cap_is_five_hundred() {
    assert_eq!(500, MAX_PROTOCOLS_TO_EXPAND);
}

#[test]
fn versions_are_sorted_and_merged() {
    assert_eq!(Ok(vec![1, 2, 5]), get_versions("5,1,2"));
    assert_eq!(Ok(vec![1, 2]), get_versions("1,2,1"));
    assert_eq!(Ok(vec![1, 2, 3]), get_versions("1-3,2"));
    assert_eq!(Ok(vec![1, 2, 3, 4, 5, 6]), get_versions("4-6,1-3"));
    assert_eq!(Ok(vec![1, 2, 3, 4, 5]), get_versions("2-4,1-5"));
    assert_eq!(Ok(vec![7]), get_versions("7,7,7"));
}

#[test]
fn numbers_are_plain_decimal() {
    assert_eq!(Ok(vec![7]), get_versions("007"));
    assert_eq!(Ok(vec![0]), get_versions("0"));
    assert_eq!(Ok(vec![4294967295]), get_versions("4294967295"));
    assert_eq!(Err(ProtoverError::MalformedVersion), get_versions("4294967296"));
    assert_eq!(
        Err(ProtoverError::MalformedVersion),
        get_versions("99999999999999999999999999")
    );
    assert_eq!(Err(ProtoverError::MalformedVersion), get_versions("+1"));
    assert_eq!(Err(ProtoverError::MalformedVersion), get_versions(" 1"));
    assert_eq!(Err(ProtoverError::MalformedVersion), get_versions("1 "));
    assert_eq!(Err(ProtoverError::MalformedVersion), get_versions("a"));
    assert_eq!(Err(ProtoverError::MalformedVersion), get_versions("1,"));
    assert_eq!(Err(ProtoverError::MalformedVersion), get_versions(",1"));
    assert_eq!(Err(ProtoverError::MalformedVersion), get_versions("1,,2"));
    assert_eq!(Err(ProtoverError::MalformedVersion), get_versions("١"));
}

#[test]
fn ranges_need_both_bounds() {
    assert_eq!(Err(ProtoverError::MalformedRange), get_versions("1-"));
    assert_eq!(Err(ProtoverError::MalformedRange), get_versions("-1"));
    assert_eq!(Err(ProtoverError::MalformedRange), get_versions("-"));
    assert_eq!(Err(ProtoverError::MalformedRange), get_versions("1-a"));
    assert_eq!(Err(ProtoverError::MalformedRange), get_versions("a-1"));
    assert_eq!(Err(ProtoverError::MalformedRange), get_versions("1-2-3"));
    assert_eq!(Err(ProtoverError::MalformedRange), get_versions("1--2"));
    assert_eq!(Err(ProtoverError::MalformedRange), get_versions("1-4294967296"));
    assert_eq!(Err(ProtoverError::MalformedRange), expand_version_range("1"));
    assert_eq!(Err(ProtoverError::MalformedRange), expand_version_range("1-2-3"));
    assert_eq!(Err(ProtoverError::MalformedRange), expand_version_range("1-2,3"));
}

#[test]
fn inverted_range_is_empty() {
    assert_eq!(Ok(vec![]), get_versions("5-3"));
    assert_eq!(Ok(vec![]), expand_version_range("5-3"));
    assert_eq!(Ok(vec![9]), get_versions("5-3,9"));
    assert_eq!(Ok(vec![]), get_versions("4294967295-0"));
    assert_eq!(Ok(vec![5]), get_versions("5-5"));
    assert_eq!(Ok(vec![5]), expand_version_range("5-5"));
}

#[test]
fn first_fault_decides() {
    assert_eq!(Err(ProtoverError::MalformedVersion), get_versions("x,1-"));
    assert_eq!(Err(ProtoverError::MalformedRange), get_versions("1-,x"));
    assert_eq!(Err(ProtoverError::TooManyVersions), get_versions("1-501,x"));
    assert_eq!(Err(ProtoverError::MalformedVersion), get_versions("x,1-501"));
}

#[test]
fn range_of_five_hundred_is_read() {
    let expected: Vec<u32> = (1..=500).collect();
    assert_eq!(Ok(expected.clone()), get_versions("1-500"));
    assert_eq!(Ok(expected), expand_version_range("1-500"));
    let high: Vec<u32> = (4294966796..=4294967295).collect();
    assert_eq!(Ok(high), get_versions("4294966796-4294967295"));
}

#[test]
fn range_of_five_hundred_and_one_is_refused() {
    assert_eq!(Err(ProtoverError::TooManyVersions), get_versions("1-501"));
    assert_eq!(Err(ProtoverError::TooManyVersions), expand_version_range("1-501"));
    assert_eq!(Err(ProtoverError::TooManyVersions), get_versions("0-500"));
    assert_eq!(Err(ProtoverError::TooManyVersions), get_versions("1-4000000000"));
    assert_eq!(
        Err(ProtoverError::TooManyVersions),
        expand_version_range("1-4000000000")
    );
    assert_eq!(Err(ProtoverError::TooManyVersions), get_versions("0-4294967295"));
}

#[test]
fn cap_counts_different_versions() {
    assert_eq!(Err(ProtoverError::TooManyVersions), get_versions("1-500,501"));
    assert_eq!(Err(ProtoverError::TooManyVersions), get_versions("1-300,301-600"));
    let expected: Vec<u32> = (1..=500).collect();
    assert_eq!(Ok(expected.clone()), get_versions("1-500,1-500"));
    assert_eq!(Ok(expected.clone()), get_versions("1-500,250"));
    assert_eq!(Ok(expected), get_versions("1-250,200-500"));
}

#[test]
fn find_range_stops_at_a_gap() {
    assert_eq!((false, 7), find_range(&vec![7, 9, 10]));
    assert_eq!((true, 4294967295), find_range(&vec![4294967294, 4294967295]));
    assert_eq!((false, 4294967295), find_range(&vec![4294967295, 0]));
    assert_eq!((false, 3), find_range(&vec![3, 3, 4]));
}

#[test]
fn compress_scenarios() {
    assert_eq!("1-3,500", contract_protocol_list(&set_of(&[1, 2, 3, 500])));
    assert_eq!("1,3,5-7", contract_protocol_list(&set_of(&[1, 3, 5, 6, 7])));
    assert_eq!("0", contract_protocol_list(&set_of(&[0])));
    assert_eq!(
        "4294967294-4294967295",
        contract_protocol_list(&set_of(&[4294967295, 4294967294]))
    );
    assert_eq!("10-12,100", contract_protocol_list(&set_of(&[100, 12, 11, 10])));
    assert_eq!("1-2,4-5", write_versions(&vec![1, 2, 4, 5]));
    assert_eq!("", write_versions(&vec![]));
}

#[test]
fn written_list_reads_back() {
    let sets: Vec<Vec<u32>> = vec![
        vec![1],
        vec![1, 2],
        vec![1, 3],
        vec![1, 2, 3, 500],
        vec![1, 3, 5, 6, 7],
        vec![0, 4294967295],
        (1..=500).collect(),
        (1..=250).map(|v| 2 * v).collect(),
    ];
    for versions in sets {
        let text = contract_protocol_list(&set_of(&versions));
        assert_eq!(Ok(versions), get_versions(&text));
    }
}

#[test]
fn written_list_is_in_final_form() {
    let sets: Vec<Vec<u32>> = vec![vec![1], vec![4, 5, 6, 9], vec![10, 20, 21, 22, 30]];
    for versions in sets {
        let text = contract_protocol_list(&set_of(&versions));
        let read = get_versions(&text).unwrap();
        assert_eq!(text, contract_protocol_list(&set_of(&read)));
    }
    assert_eq!(
        "1-3,5",
        contract_protocol_list(&set_of(&get_versions("3,2,1,5,2").unwrap()))
    );
}

#[test]
fn empty_set_does_not_read_back() {
    let text = contract_protocol_list(&HashSet::new());
    assert_eq!("", text);
    assert_eq!(Err(ProtoverError::EmptyInput), get_versions(&text));
}
