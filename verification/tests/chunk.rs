use combinations::chunk::{append_record, place_record, write_chunk};
use combinations::encoding::to_base64_string;
use combinations::exclusion::ExclusionSet;
use combinations::partition::{Partition, SubRange};

const ALPHABET: &str = "0123456789abcdefghijklmnopqrstuvwxyzABCDEFGHIJKLMNOPQRSTUVWXYZ+-";

fn tokens_of(bytes: &[u8]) -> Vec<String> {
    assert!(bytes.is_empty() || bytes[bytes.len() - 1] == b'\\');
    let text = String::from_utf8(bytes.to_vec()).unwrap();
    let mut parts: Vec<String> = text.split('\\').map(|s| s.to_string()).collect();
    assert_eq!(parts.pop().unwrap(), "");
    parts
}

#[test]
fn exclusion_set_starts_empty() {
    let set = ExclusionSet::new();
    for n in 0..5000 {
        assert!(!set.excludes(n));
    }
    assert!(!set.contains(b"0"));
    assert!(!set.contains(b""));
}

#[test]
fn exclusion_set_holds_what_was_inserted() {
    let mut set = ExclusionSet::new();
    assert!(set.insert(b"a"));
    assert!(set.insert(b"10"));
    assert!(set.insert(b"7mYQl"));
    assert!(set.contains(b"a"));
    assert!(set.contains(b"10"));
    assert!(set.contains(b"7mYQl"));
    assert!(!set.contains(b"b"));
    assert!(!set.contains(b"A"));
    assert!(!set.contains(b"01"));
    assert!(set.excludes(10));
    assert!(set.excludes(64));
    assert!(set.excludes(123456789));
    assert!(!set.excludes(11));
    assert!(!set.excludes(0));
    assert!(set.insert(b"a"));
    assert!(set.contains(b"a"));
}

#[test]
fn exclusion_set_drops_what_is_no_token() {
    let mut set = ExclusionSet::new();
    assert!(!set.insert(b""));
    assert!(!set.insert(b"01"));
    assert!(!set.insert(b"a\\"));
    assert!(!set.insert(b"hello world"));
    assert!(!set.insert(b"-----------"));
    assert!(!set.contains(b""));
    assert!(!set.contains(b"01"));
    assert!(!set.contains(b"a\\"));
    assert!(!set.contains(b"-----------"));
    assert!(!set.excludes(1));
    assert!(set.insert(b"7----------"));
    assert!(set.excludes(i64::MAX));
}

#[test]
fn append_record_adds_token_and_separator() {
    let mut file = Vec::new();
    append_record(&mut file, b"ab");
    assert_eq!(file, b"ab\\".to_vec());
    append_record(&mut file, b"c");
    assert_eq!(file, b"ab\\c\\".to_vec());
    append_record(&mut file, b"");
    assert_eq!(file, b"ab\\c\\\\".to_vec());
}

#[test]
fn place_record_at_the_end_appends() {
    let mut file = b"aa\\bb\\".to_vec();
    place_record(&mut file, 2, 3, b"cc");
    assert_eq!(file, b"aa\\bb\\cc\\".to_vec());
    let mut empty = Vec::new();
    place_record(&mut empty, 0, 3, b"zz");
    assert_eq!(empty, b"zz\\".to_vec());
}

#[test]
fn place_record_overwrites_the_slot() {
    let mut file = b"aa\\bb\\cc\\".to_vec();
    place_record(&mut file, 1, 3, b"XY");
    assert_eq!(file, b"aa\\XY\\cc\\".to_vec());
    place_record(&mut file, 0, 3, b"01");
    assert_eq!(file, b"01\\XY\\cc\\".to_vec());
    place_record(&mut file, 2, 3, b"-+");
    assert_eq!(file, b"01\\XY\\-+\\".to_vec());
}

#[test]
fn place_record_beyond_the_end_leaves_zero_bytes() {
    let mut file = b"aa\\".to_vec();
    place_record(&mut file, 3, 3, b"dd");
    assert_eq!(file, b"aa\\\0\0\0\0\0\0dd\\".to_vec());
}

#[test]
fn place_record_of_another_width_writes_over_what_is_in_the_way() {
    let mut file = b"aa\\bb\\cc\\".to_vec();
    place_record(&mut file, 1, 2, b"WXYZ");
    assert_eq!(file, b"aaWXYZ\\c\\".to_vec());
    let mut short = b"aa\\b".to_vec();
    place_record(&mut short, 1, 3, b"xy");
    assert_eq!(short, b"aa\\xy\\".to_vec());
}

#[test]
fn one_digit_file_holds_all_64_tokens() {
    let set = ExclusionSet::new();
    let bytes = write_chunk(1, SubRange { start: 0, end: 64 }, &set, false);
    let mut expected = Vec::new();
    for c in ALPHABET.bytes() {
        expected.push(c);
        expected.push(b'\\');
    }
    assert_eq!(bytes.len(), 128);
    assert_eq!(bytes, expected);
    let tokens = tokens_of(&bytes);
    assert_eq!(tokens.len(), 64);
    for (i, t) in tokens.iter().enumerate() {
        assert_eq!(t.as_str(), &ALPHABET[i..i + 1]);
    }
}

#[test]
fn one_digit_run_through_the_partition() {
    let p = Partition::new(1, 140_000_000).unwrap();
    assert_eq!(p.file_count(), 1);
    assert_eq!(p.file_name(0), "0");
    let bytes = p.file_bytes(0, &ExclusionSet::new(), false).unwrap();
    let tokens = tokens_of(&bytes);
    let expected: Vec<String> = ALPHABET.chars().map(|c| c.to_string()).collect();
    assert_eq!(tokens, expected);
    assert!(p.file_bytes(1, &ExclusionSet::new(), false).is_none());
}

#[test]
fn empty_range_gives_an_empty_file() {
    let set = ExclusionSet::new();
    assert_eq!(write_chunk(1, SubRange { start: 5, end: 5 }, &set, false), Vec::<u8>::new());
    assert_eq!(write_chunk(2, SubRange { start: 64, end: 64 }, &set, true), Vec::<u8>::new());
}

#[test]
fn part_of_a_range_in_order() {
    let set = ExclusionSet::new();
    let bytes = write_chunk(2, SubRange { start: 64, end: 68 }, &set, false);
    assert_eq!(bytes, b"10\\11\\12\\13\\".to_vec());
    let bytes = write_chunk(2, SubRange { start: 4093, end: 4096 }, &set, false);
    assert_eq!(bytes, b"-Z\\-+\\--\\".to_vec());
}

#[test]
fn excluded_tokens_leave_no_gap() {
    let mut set = ExclusionSet::new();
    set.insert(b"11");
    set.insert(b"13");
    set.insert(b"zz");
    let bytes = write_chunk(2, SubRange { start: 64, end: 70 }, &set, false);
    assert_eq!(bytes, b"10\\12\\14\\15\\".to_vec());
}

#[test]
fn everything_excluded_gives_an_empty_file() {
    let mut set = ExclusionSet::new();
    for c in ALPHABET.bytes() {
        set.insert(&[c]);
    }
    assert_eq!(write_chunk(1, SubRange { start: 0, end: 64 }, &set, false), Vec::<u8>::new());
    assert_eq!(write_chunk(1, SubRange { start: 0, end: 64 }, &set, true), Vec::<u8>::new());
}

#[test]
fn no_excluded_token_is_written_in_order() {
    let mut set = ExclusionSet::new();
    let mut excluded = Vec::new();
    for n in (64..4096i64).step_by(7) {
        let t = to_base64_string(n);
        set.insert(&t);
        excluded.push(String::from_utf8(t).unwrap());
    }
    let bytes = write_chunk(2, SubRange { start: 64, end: 4096 }, &set, false);
    let tokens = tokens_of(&bytes);
    assert_eq!(tokens.len(), 4032 - excluded.len());
    for t in &tokens {
        assert!(!excluded.contains(t));
    }
    let mut expected = Vec::new();
    for n in 64..4096i64 {
        if (n - 64) % 7 != 0 {
            expected.push(String::from_utf8(to_base64_string(n)).unwrap());
        }
    }
    assert_eq!(tokens, expected);
}

#[test]
fn two_digit_run_in_two_files_covers_the_space_once() {
    let p = Partition::new(2, 2016 * 3).unwrap();
    assert_eq!(p.file_count(), 2);
    let set = ExclusionSet::new();
    let mut all = Vec::new();
    for i in 0..p.file_count() {
        let bytes = p.file_bytes(i, &set, false).unwrap();
        assert_eq!(bytes.len(), 2016 * 3);
        let tokens = tokens_of(&bytes);
        assert_eq!(tokens.len(), 2016);
        all.extend(tokens);
    }
    let expected: Vec<String> =
        (64..4096i64).map(|n| String::from_utf8(to_base64_string(n)).unwrap()).collect();
    assert_eq!(all, expected);
    let distinct: std::collections::HashSet<&String> = all.iter().collect();
    assert_eq!(distinct.len(), 4032);
    assert!(p.file_bytes(2, &set, false).is_none());
}

#[test]
fn three_digit_run_covers_the_space_once() {
    let p = Partition::new(3, 5000).unwrap();
    let set = ExclusionSet::new();
    let mut all = Vec::new();
    for i in 0..p.file_count() {
        let range = p.sub_range(i).unwrap();
        let bytes = p.file_bytes(i, &set, false).unwrap();
        assert_eq!(bytes, write_chunk(3, range, &set, false));
        assert!(bytes.len() as i64 <= p.bytes_per_file());
        all.extend(tokens_of(&bytes));
    }
    let expected: Vec<String> =
        (4096..262144i64).map(|n| String::from_utf8(to_base64_string(n)).unwrap()).collect();
    assert_eq!(all, expected);
}

fn check_random_file(bytes: &[u8], digits: usize, range: SubRange, excluded: &[i64]) {
    let width = digits + 1;
    assert_eq!(bytes.len() % width, 0);
    let survivors: Vec<Vec<u8>> = (range.start..range.end)
        .filter(|n| !excluded.contains(n))
        .map(to_base64_string)
        .collect();
    assert!(bytes.len() <= survivors.len() * width);
    if !survivors.is_empty() {
        assert!(bytes.len() >= width);
    }
    for slot in bytes.chunks(width) {
        if slot.iter().all(|&b| b == 0) {
            continue;
        }
        assert_eq!(slot[digits], b'\\');
        assert!(survivors.contains(&slot[..digits].to_vec()));
    }
}

#[test]
fn random_file_is_made_of_slots() {
    let set = ExclusionSet::new();
    for _ in 0..20 {
        let range = SubRange { start: 0, end: 64 };
        let bytes = write_chunk(1, range, &set, true);
        check_random_file(&bytes, 1, range, &[]);
        let range = SubRange { start: 64, end: 700 };
        let bytes = write_chunk(2, range, &set, true);
        check_random_file(&bytes, 2, range, &[]);
    }
}

#[test]
fn random_file_of_one_token() {
    let set = ExclusionSet::new();
    assert_eq!(write_chunk(1, SubRange { start: 7, end: 8 }, &set, true), b"7\\".to_vec());
    assert_eq!(write_chunk(2, SubRange { start: 64, end: 65 }, &set, true), b"10\\".to_vec());
}

#[test]
fn no_excluded_token_is_written_at_random() {
    let mut set = ExclusionSet::new();
    let mut excluded = Vec::new();
    for n in (64..1000i64).step_by(3) {
        set.insert(&to_base64_string(n));
        excluded.push(n);
    }
    for _ in 0..10 {
        let range = SubRange { start: 64, end: 1000 };
        let bytes = write_chunk(2, range, &set, true);
        check_random_file(&bytes, 2, range, &excluded);
        for slot in bytes.chunks(3) {
            for n in &excluded {
                assert_ne!(slot[..2].to_vec(), to_base64_string(*n));
            }
        }
    }
}

#[test]
fn random_slots_are_not_always_the_last() {
    let set = ExclusionSet::new();
    let range = SubRange { start: 64, end: 4096 };
    let in_order = write_chunk(2, range, &set, false);
    let at_random = write_chunk(2, range, &set, true);
    assert_ne!(at_random, in_order);
}

#[test]
fn random_slots_vary() {
    let set = ExclusionSet::new();
    let range = SubRange { start: 64, end: 4096 };
    let first = write_chunk(2, range, &set, true);
    let mut differs = false;
    for _ in 0..5 {
        if write_chunk(2, range, &set, true) != first {
            differs = true;
        }
    }
    assert!(differs);
}

#[test]
fn random_file_through_the_partition() {
    let p = Partition::new(2, 2016 * 3).unwrap();
    let set = ExclusionSet::new();
    for i in 0..p.file_count() {
        let range = p.sub_range(i).unwrap();
        let bytes = p.file_bytes(i, &set, true).unwrap();
        check_random_file(&bytes, 2, range, &[]);
    }
    assert!(p.file_bytes(2, &set, true).is_none());
}

#[test]
fn random_slots_are_not_always_the_first() {
    let set = ExclusionSet::new();
    let range = SubRange { start: 64, end: 4096 };
    let bytes = write_chunk(2, range, &set, true);
    assert!(bytes.len() > 3);
}
