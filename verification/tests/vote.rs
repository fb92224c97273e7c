use protover::{compute_vote, parse_protocols_with_duplicates, write_vote_to_string};

fn reports(texts: &[&str]) -> Vec<String> {
    texts.iter().map(|t| String::from(*t)).collect()
}

#[test]
fn vote_scenario() {
    let protos = vec![String::from("Link=3-4"), String::from("Link=3")];
    let vote = compute_vote(protos, 2);
    assert_eq!("Link=3", vote);
}

#[test]
fn no_reports_no_vote() {
    assert_eq!("", compute_vote(vec![], 1));
    assert_eq!("", compute_vote(vec![], 0));
    assert_eq!("", compute_vote(vec![], -1));
    assert_eq!("", compute_vote(reports(&["", "  "]), 0));
}

#[test]
fn threshold_counts_entries() {
    let all = ["Link=1-4 Cons=1", "Link=2-5 Cons=1-2", "Link=3-6"];
    assert_eq!("Cons=1-2 Link=1-6", compute_vote(reports(&all), 1));
    assert_eq!("Cons=1 Link=2-5", compute_vote(reports(&all), 2));
    assert_eq!("Link=3-4", compute_vote(reports(&all), 3));
    assert_eq!("", compute_vote(reports(&all), 4));
    assert_eq!("", compute_vote(reports(&all), 2147483647));
}

#[test]
fn threshold_of_zero_or_less_lets_all_pass() {
    let all = ["Link=1-2", "Link=2,7 Cons=1"];
    assert_eq!("Cons=1 Link=1-2,7", compute_vote(reports(&all), 0));
    assert_eq!("Cons=1 Link=1-2,7", compute_vote(reports(&all), -1));
    assert_eq!("Cons=1 Link=1-2,7", compute_vote(reports(&all), -2147483648));
    assert_eq!("Cons=1 Link=1-2,7", compute_vote(reports(&all), 1));
}

#[test]
fn entries_of_one_report_count_each() {
    assert_eq!("Link=1", compute_vote(reports(&["Link=1 Link=1"]), 2));
    assert_eq!("Link=2", compute_vote(reports(&["Link=1-2 Link=2-3", "Cons=1"]), 2));
    assert_eq!("", compute_vote(reports(&["Link=1,1,1"]), 2));
    assert_eq!("Link=1", compute_vote(reports(&["Link=1,1,1"]), 1));
}

#[test]
fn bad_entries_are_passed_over() {
    let all = ["Link=1 junk Cons=1- Desc=", "Link=1 Cons=x Relay=2 =3"];
    assert_eq!("=3 Link=1 Relay=2", compute_vote(reports(&all), 1));
    assert_eq!("Link=1", compute_vote(reports(&all), 2));
    assert_eq!(
        "Link=2",
        compute_vote(reports(&["Link=1-4000000000", "Link=2"]), 1)
    );
}

#[test]
fn names_need_not_be_known() {
    let all = ["Wombat=1-3 Link=1", "Wombat=2-4"];
    assert_eq!("Link=1 Wombat=1-4", compute_vote(reports(&all), 1));
    assert_eq!("Wombat=2-3", compute_vote(reports(&all), 2));
}

#[test]
fn names_are_sorted_by_code_point() {
    let all = ["b=1 a=1 B=1 ab=1 A=1 é=1 Z=1 aa=1 =1 a0=1"];
    assert_eq!(
        "=1 A=1 B=1 Z=1 a=1 a0=1 aa=1 ab=1 b=1 é=1",
        compute_vote(reports(&all), 1)
    );
    let mut names: Vec<&str> = vec!["b", "a", "B", "ab", "A", "é", "Z", "aa", "", "a0", "𝄞", "ｚ"];
    let all: Vec<String> = names.iter().map(|n| format!("{}=1", n)).collect();
    names.sort();
    let expected: Vec<String> = names.iter().map(|n| format!("{}=1", n)).collect();
    assert_eq!(expected.join(" "), compute_vote(all, 1));
}

#[test]
fn empty_version_set_is_left_out() {
    assert_eq!("Cons=1", compute_vote(reports(&["Link=5-3 Cons=1"]), 1));
    assert_eq!("Cons=1", compute_vote(reports(&["Link=5-3 Cons=1"]), 0));
}

#[test]
fn vote_may_exceed_what_one_entry_can_name() {
    let all = ["Link=1-500", "Link=501-1000"];
    assert_eq!("Link=1-1000", compute_vote(reports(&all), 1));
}

#[test]
fn tally_keeps_duplicates_in_order_of_first_name() {
    let tally = parse_protocols_with_duplicates(reports(&[
        "Link=3-4 Cons=1 bad",
        "Cons=2,1 Link=3 Wombat=5-4 x=",
    ]));
    assert_eq!(
        vec![
            (String::from("Link"), vec![3, 4, 3]),
            (String::from("Cons"), vec![1, 1, 2]),
            (String::from("Wombat"), vec![]),
        ],
        tally
    );
    assert_eq!(
        Vec::<(String, Vec<u32>)>::new(),
        parse_protocols_with_duplicates(vec![])
    );
}

#[test]
fn vote_is_written_in_order_of_names() {
    let vote = vec![
        (String::from("Link"), String::from("1-4")),
        (String::from("Cons"), String::from("1")),
        (String::from("LinkAuth"), String::from("1,3")),
    ];
    assert_eq!("Cons=1 Link=1-4 LinkAuth=1,3", write_vote_to_string(&vote));
    assert_eq!("", write_vote_to_string(&vec![]));
    let same = vec![
        (String::from("b"), String::from("2")),
        (String::from("a"), String::from("1")),
        (String::from("b"), String::from("1")),
    ];
    assert_eq!("a=1 b=2 b=1", write_vote_to_string(&same));
}
