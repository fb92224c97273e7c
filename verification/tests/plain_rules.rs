use protover::versions::write_versions;
use protover::{
    all_supported, compute_vote, contains_only_ssupported_protocols, contract_protocol_list,
    get_proto_and_vers, get_versions, is_supported_here, parse_protocols_from_string,
    protover_string_supports_protocol, Proto, ProtoverError,
};
use std::collections::{BTreeMap, BTreeSet, HashSet};

// A small generator of pseudo-random numbers, so that every run tries the
// same inputs.
struct Gen(u64);

impl Gen {
    fn next(&mut self) -> u64 {
        self.0 ^= self.0 << 13;
        self.0 ^= self.0 >> 7;
        self.0 ^= self.0 << 17;
        self.0
    }

    fn below(&mut self, n: usize) -> usize {
        (self.next() % (n as u64)) as usize
    }

    fn text(&mut self, alphabet: &[&str], max_len: usize) -> String {
        let len = self.below(max_len + 1);
        let mut s = String::new();
        for _ in 0..len {
            s.push_str(alphabet[self.below(alphabet.len())]);
        }
        s
    }

    // A version list that is mostly well formed.
    fn versions(&mut self) -> String {
        let mut pieces = Vec::new();
        for _ in 0..1 + self.below(3) {
            let low = self.below(7);
            pieces.push(match self.below(10) {
                0..=4 => format!("{}", low),
                5..=7 => format!("{}-{}", low, low + self.below(3)),
                8 => format!("{}-{}", low + 1, low),
                _ => self.text(&["1", "-", ",", "x", "=", "+"], 3),
            });
        }
        pieces.join(",")
    }

    // An entry that is mostly well formed.
    fn entry(&mut self, names: &[&str]) -> String {
        let name = names[self.below(names.len())];
        match self.below(12) {
            0 => format!("{}{}", name, self.versions()),
            1 => format!("{}=", name),
            2 => self.text(&["L", "=", "1", "-", "é"], 4),
            _ => format!("{}={}", name, self.versions()),
        }
    }

    // A protocol list that is mostly well formed.
    fn list(&mut self, names: &[&str], max_len: usize) -> String {
        let mut s = String::new();
        if self.below(8) == 0 {
            s.push(' ');
        }
        for i in 0..self.below(max_len + 1) {
            if i > 0 {
                s.push_str([" ", " ", " ", "  ", "\t", "\n", "\r\n", "\u{c}"][self.below(8)]);
            }
            s.push_str(&self.entry(names));
        }
        if self.below(8) == 0 {
            s.push(' ');
        }
        s
    }
}

const PROTOS: [(&str, Proto); 10] = [
    ("Cons", Proto::Cons),
    ("Desc", Proto::Desc),
    ("DirCache", Proto::DirCache),
    ("HSDir", Proto::HSDir),
    ("HSIntro", Proto::HSIntro),
    ("HSRend", Proto::HSRend),
    ("Link", Proto::Link),
    ("LinkAuth", Proto::LinkAuth),
    ("Microdesc", Proto::Microdesc),
    ("Relay", Proto::Relay),
];

fn plain_number(s: &str) -> Option<u32> {
    if s.is_empty() || !s.bytes().all(|b| b.is_ascii_digit()) {
        None
    } else {
        s.parse().ok()
    }
}

fn plain_piece(piece: &str) -> Result<Vec<u32>, ProtoverError> {
    match piece.find('-') {
        Some(dash) => {
            let low = plain_number(&piece[..dash]);
            let high = plain_number(&piece[dash + 1..]);
            match (low, high) {
                (Some(lo), Some(hi)) => {
                    if hi >= lo && hi - lo >= 500 {
                        Err(ProtoverError::TooManyVersions)
                    } else {
                        Ok((lo..=hi).collect())
                    }
                }
                _ => Err(ProtoverError::MalformedRange),
            }
        }
        None => match plain_number(piece) {
            Some(n) => Ok(vec![n]),
            None => Err(ProtoverError::MalformedVersion),
        },
    }
}

fn plain_versions(text: &str) -> Result<Vec<u32>, ProtoverError> {
    if text.is_empty() {
        return Err(ProtoverError::EmptyInput);
    }
    let mut set = BTreeSet::new();
    for piece in text.split(',') {
        for v in plain_piece(piece)? {
            set.insert(v);
        }
        if set.len() > 500 {
            return Err(ProtoverError::TooManyVersions);
        }
    }
    Ok(set.into_iter().collect())
}

fn plain_words(text: &str) -> Vec<&str> {
    text.split(|c| c == ' ' || c == '\t' || c == '\n' || c == '\x0C' || c == '\r')
        .filter(|w| !w.is_empty())
        .collect()
}

fn plain_entry(entry: &str) -> Result<(Proto, Vec<u32>), ProtoverError> {
    let eq = match entry.find('=') {
        Some(eq) => eq,
        None => return Err(ProtoverError::EmptyInput),
    };
    let versions = plain_versions(&entry[eq + 1..])?;
    for (name, proto) in PROTOS {
        if name == &entry[..eq] {
            return Ok((proto, versions));
        }
    }
    Err(ProtoverError::UnknownProtocol)
}

fn plain_entry_supported(entry: &str) -> bool {
    match plain_entry(entry) {
        Err(_) => false,
        Ok((proto, versions)) => versions.iter().all(|v| is_supported_here(proto, *v)),
    }
}

fn plain_compress(versions: &BTreeSet<u32>) -> String {
    let sorted: Vec<u32> = versions.iter().cloned().collect();
    let mut pieces = Vec::new();
    let mut i = 0;
    while i < sorted.len() {
        let mut j = i;
        while j + 1 < sorted.len() && sorted[j] != u32::MAX && sorted[j + 1] == sorted[j] + 1 {
            j += 1;
        }
        if j > i {
            pieces.push(format!("{}-{}", sorted[i], sorted[j]));
        } else {
            pieces.push(format!("{}", sorted[i]));
        }
        i = j + 1;
    }
    pieces.join(",")
}

fn plain_vote(reports: &[String], threshold: i32) -> String {
    let mut counts: BTreeMap<String, BTreeMap<u32, i64>> = BTreeMap::new();
    for report in reports {
        for entry in plain_words(report) {
            let eq = match entry.find('=') {
                Some(eq) => eq,
                None => continue,
            };
            let versions = match plain_versions(&entry[eq + 1..]) {
                Ok(versions) => versions,
                Err(_) => continue,
            };
            let votes = counts.entry(String::from(&entry[..eq])).or_default();
            for v in versions {
                *votes.entry(v).or_insert(0) += 1;
            }
        }
    }
    let mut lines = Vec::new();
    for (name, votes) in counts {
        let kept: BTreeSet<u32> = votes
            .iter()
            .filter(|(_, n)| **n >= 1 && **n >= threshold as i64)
            .map(|(v, _)| *v)
            .collect();
        if !kept.is_empty() {
            lines.push(format!("{}={}", name, plain_compress(&kept)));
        }
    }
    lines.join(" ")
}

#[test]
fn version_lists_read_as_by_the_plain_rules() {
    let alphabet = [
        "0", "1", "2", "3", "4", "5", "9", "10", "499", "500", "501", "1000", ",", ",", "-", "-",
        "4294967295", "4294967296", "+", " ", "a", "=",
    ];
    let mut gen = Gen(0x9E3779B97F4A7C15);
    let mut ok = 0;
    for _ in 0..30000 {
        let text = gen.text(&alphabet, 7);
        let expected = plain_versions(&text);
        if expected.is_ok() {
            ok += 1;
        }
        assert_eq!(expected, get_versions(&text), "{:?}", text);
    }
    assert!(ok > 1000);
}

#[test]
fn entries_read_as_by_the_plain_rules() {
    let names = ["Link", "Cons", "LinkAuth", "HSIntro", "Relay", "Wombat", "link", "", "Link "];
    let mut gen = Gen(0xD1B54A32D192ED03);
    let mut ok = 0;
    for _ in 0..30000 {
        let text = gen.entry(&names);
        let expected = plain_entry(&text);
        if expected.is_ok() {
            ok += 1;
        }
        assert_eq!(expected, get_proto_and_vers(&text), "{:?}", text);
        assert_eq!(
            plain_entry_supported(&text),
            contains_only_ssupported_protocols(&text),
            "{:?}",
            text
        );
    }
    assert!(ok > 5000);
}

#[test]
fn written_lists_are_as_by_the_plain_rules() {
    let mut gen = Gen(0x2545F4914F6CDD1D);
    for _ in 0..3000 {
        let size = gen.below(12);
        let top = [8usize, 30, 4294967295][gen.below(3)];
        let mut set = BTreeSet::new();
        for _ in 0..size {
            let v = if gen.below(4) == 0 {
                4294967295 - gen.below(6) as u32
            } else {
                gen.below(top) as u32
            };
            set.insert(v);
        }
        let expected = plain_compress(&set);
        let hashed: HashSet<u32> = set.iter().cloned().collect();
        assert_eq!(expected, contract_protocol_list(&hashed));
        let sorted: Vec<u32> = set.iter().cloned().collect();
        assert_eq!(expected, write_versions(&sorted));
        if !set.is_empty() {
            assert_eq!(Ok(sorted), get_versions(&expected));
        }
    }
}

#[test]
fn support_is_judged_as_by_the_plain_rules() {
    let names = ["Link", "Cons", "LinkAuth", "HSIntro", "Wombat"];
    let mut gen = Gen(0x853C49E6748FEA9B);
    let mut all = 0;
    let mut none = 0;
    for _ in 0..20000 {
        let text = gen.list(&names, 4);
        let failed: Vec<&str> = plain_words(&text)
            .into_iter()
            .filter(|e| !plain_entry_supported(e))
            .collect();
        if failed.is_empty() {
            all += 1;
        } else {
            none += 1;
        }
        assert_eq!(
            (failed.is_empty(), failed.join(" ")),
            all_supported(&text),
            "{:?}",
            text
        );
    }
    assert!(all > 2000);
    assert!(none > 2000);
}

#[test]
fn lists_are_searched_as_by_the_plain_rules() {
    let names = ["Link", "Cons", "LinkAuth", "HSIntro"];
    let mut gen = Gen(0xDA942042E4DD58B5);
    let mut found = 0;
    let mut bad = 0;
    for _ in 0..10000 {
        let text = gen.list(&names, 4);
        let mut map: BTreeMap<usize, Vec<u32>> = BTreeMap::new();
        let mut good = true;
        for entry in plain_words(&text) {
            match plain_entry(entry) {
                Ok((proto, versions)) => {
                    map.insert(proto.index(), versions);
                }
                Err(_) => {
                    good = false;
                    break;
                }
            }
        }
        if !good {
            bad += 1;
        }
        assert_eq!(good, parse_protocols_from_string(&text).is_ok(), "{:?}", text);
        for (_, proto) in PROTOS {
            for v in 0..9 {
                let expected = good
                    && map
                        .get(&proto.index())
                        .map_or(false, |versions| versions.contains(&v));
                if expected {
                    found += 1;
                }
                assert_eq!(
                    expected,
                    protover_string_supports_protocol(&text, proto, v),
                    "{:?}",
                    text
                );
            }
        }
    }
    assert!(found > 5000);
    assert!(bad > 1000);
}

#[test]
fn votes_are_counted_as_by_the_plain_rules() {
    let names = ["Link", "Cons", "a", "b", "", "é", "A"];
    let mut gen = Gen(0x94D049BB133111EB);
    let mut some = 0;
    for _ in 0..5000 {
        let n = gen.below(6);
        let mut reports = Vec::new();
        for _ in 0..n {
            reports.push(gen.list(&names, 4));
        }
        let threshold = gen.below(5) as i32 - 1;
        let expected = plain_vote(&reports, threshold);
        if !expected.is_empty() {
            some += 1;
        }
        assert_eq!(
            expected,
            compute_vote(reports.clone(), threshold),
            "{:?} {}",
            reports,
            threshold
        );
    }
    assert!(some > 1000);
}
