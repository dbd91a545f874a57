use bpe_rs::bpe::{
    assign_new_unit, assign_pair_to_new_unit, bytes_to_units, construct_dictionary, count_pairs,
    default_unit_map, from_pair, into_pair, remove_unnecessary_units_in_map, step, train,
    units_to_bytes, Unit,
};
use bpe_rs::config::DictionaryConfig;
use bpe_rs::dictionary::Dictionary;

const SAMPLE: &str = "The quick brown fox jumps over the lazy dog. \
    A byte pair encoding learns the pairs that occur most often, \
    and the quick brown fox keeps jumping over the lazy dog again and again. \
    Then the dog sleeps, and the fox runs home through the brown forest.";

fn corpus(repeats: usize) -> Vec<u8> {
    let mut bytes = Vec::new();
    for i in 0..repeats {
        bytes.extend_from_slice(SAMPLE.as_bytes());
        bytes.extend_from_slice(format!(" line {i}\n").as_bytes());
    }
    bytes
}

fn weight(d: &Dictionary) -> usize {
    let mut sum = 0;
    for (word, appearance) in d.iter() {
        sum += word.len() * appearance;
    }
    sum
}

#[test]
fn unit_pair_roundtrip() {
    assert_eq!((0, 1), from_pair(into_pair(0, 1)));
}

#[test]
fn pair_packing_values() {
    assert_eq!(into_pair(0x1234_5678, 0x9abc_def0), 0x1234_5678_9abc_def0);
    assert_eq!(from_pair(0x1234_5678_9abc_def0), (0x1234_5678, 0x9abc_def0));
    assert_eq!(from_pair(into_pair(u32::MAX, 7)), (u32::MAX, 7));
    assert_ne!(into_pair(1, 2), into_pair(2, 1));
}

#[test]
fn simple_bytes_roundtrip() {
    let sample = "This is a sample text.";
    let units = bytes_to_units(sample.as_bytes());
    let bytes = units_to_bytes(&units, &default_unit_map());

    assert_eq!(sample.as_bytes(), bytes);
}

#[test]
fn empty_bytes_roundtrip() {
    let units = bytes_to_units(&[]);
    assert!(units.is_empty());
    assert!(units_to_bytes(&units, &default_unit_map()).is_empty());
}

#[test]
fn all_bytes_roundtrip() {
    let all: Vec<u8> = (0..=255u8).collect();
    let units = bytes_to_units(&all);
    assert_eq!(units[200], 200);
    assert_eq!(units_to_bytes(&units, &default_unit_map()), all);
    assert_eq!(default_unit_map().len(), 256);
}

#[test]
fn assign_pair_to_new_unit_test() {
    let samples = vec![
        ("abcd abcd abab", (b'a', b'b'), b'X', "Xcd Xcd XX"),
        ("aaaa", (b'a', b'a'), b'Y', "YY"),
        ("This is an apple", (b'i', b's'), b'X', "ThX X an apple"),
    ];

    for (s, (p1, p2), new_unit, answer) in samples.into_iter() {
        let s_units = bytes_to_units(s.as_bytes());
        let answer_units = bytes_to_units(answer.as_bytes());
        let pair = into_pair(p1 as Unit, p2 as Unit);

        assert_eq!(assign_pair_to_new_unit(&s_units, pair, new_unit as Unit), answer_units,);
    }
}

#[test]
fn rewrite_runs_and_trailing_left() {
    let a = b'a' as Unit;
    let b = b'b' as Unit;
    // a run of three `a` before `b`: two stay, the last pairs up
    assert_eq!(assign_pair_to_new_unit(&[a, a, a, b], into_pair(a, b), 300), vec![a, a, 300]);
    // a pending `a` at the end is emitted
    assert_eq!(assign_pair_to_new_unit(&[b, a], into_pair(a, b), 300), vec![b, a]);
    assert_eq!(assign_pair_to_new_unit(&[a, a, a], into_pair(a, a), 300), vec![300, a]);
    assert!(assign_pair_to_new_unit(&[], into_pair(a, b), 300).is_empty());
}

#[test]
fn count_pairs_overlapping() {
    let counts = count_pairs(&bytes_to_units(b"aaaab"));
    let a = b'a' as Unit;
    assert_eq!(counts.get(&into_pair(a, a)), Some(&3));
    assert_eq!(counts.get(&into_pair(a, b'b' as Unit)), Some(&1));
    assert_eq!(counts.len(), 2);
    assert!(count_pairs(&[7]).is_empty());
}

#[test]
fn assign_new_unit_ids() {
    let mut map = default_unit_map();
    let ab = into_pair(b'a' as Unit, b'b' as Unit);
    let first = assign_new_unit(ab, &mut map, None);
    assert_eq!(first, 256);
    assert_eq!(units_to_bytes(&[first], &map), b"ab".to_vec());
    let second = assign_new_unit(into_pair(first, b'c' as Unit), &mut map, Some(1000));
    assert_eq!(second, 1000);
    assert_eq!(units_to_bytes(&[second], &map), b"abc".to_vec());
    // a hint already in use is ignored
    let third = assign_new_unit(ab, &mut map, Some(1000));
    assert_eq!(third, 257);
    assert_eq!(map.len(), 259);
}

#[test]
fn prune_removes_unused() {
    let mut map = default_unit_map();
    let u = assign_new_unit(into_pair(b'a' as Unit, b'b' as Unit), &mut map, None);
    let units = vec![u, b'c' as Unit];
    let removed = remove_unnecessary_units_in_map(&units, &mut map, true);
    assert_eq!(removed, 0);
    assert_eq!(map.len(), 257);
    let removed = remove_unnecessary_units_in_map(&units, &mut map, false);
    assert_eq!(removed, 255);
    assert_eq!(map.len(), 2);
    assert_eq!(units_to_bytes(&units, &map), b"abc".to_vec());
}

#[test]
fn step_merges_most_frequent_pair() {
    let mut map = default_unit_map();
    let s = bytes_to_units(b"xabyabzab");
    let (next, nothing) = step(&s, &mut map, 2, None);
    assert!(!nothing);
    assert_eq!(next, vec![b'x' as Unit, 256, b'y' as Unit, 256, b'z' as Unit, 256]);
    assert_eq!(units_to_bytes(&[256], &map), b"ab".to_vec());
}

#[test]
fn step_ties_take_smallest_pair() {
    let mut map = default_unit_map();
    let s = bytes_to_units(b"cdab");
    let (next, nothing) = step(&s, &mut map, 1, None);
    assert!(!nothing);
    // (a,b), (b,c)... all once: the numerically smallest pair is (a,b)
    assert_eq!(next, vec![b'c' as Unit, b'd' as Unit, 256]);
}

#[test]
fn step_respects_minimum_and_separator() {
    let mut map = default_unit_map();
    let s = bytes_to_units(b"abab");
    let (next, nothing) = step(&s, &mut map, 3, None);
    assert!(nothing);
    assert_eq!(next, s);
    assert_eq!(map.len(), 256);
    let s = bytes_to_units(b" a a a b");
    let (next, nothing) = step(&s, &mut map, 2, Some(b' '));
    assert!(nothing);
    assert_eq!(next, s);
}

#[test]
fn dictionary_count_test() {
    dictionary_count_test_worker(&corpus(20), 256);
    dictionary_count_test_worker(&corpus(20), 512);
    dictionary_count_test_worker(&corpus(40), 256);
    dictionary_count_test_worker(&corpus(40), 1024);
}

fn dictionary_count_test_worker(bytes: &[u8], dictionary_size: usize) {
    let result = construct_dictionary(
        bytes,
        DictionaryConfig::default().set_dictionary_size(dictionary_size).to_owned(),
    );
    assert_eq!(bytes.len(), weight(&result));
}

#[test]
fn short_buffer_conservation() {
    let bytes = b"tiny text".to_vec();
    let result = construct_dictionary(&bytes, DictionaryConfig::default());
    assert_eq!(weight(&result), bytes.len());
    // every single byte is listed, unseen ones at zero
    assert_eq!(result.get(b"z"), Some(0));
    assert_eq!(result.get(b"t"), Some(3));
    assert_eq!(result.len(), 256);
}

#[test]
fn empty_buffer_dictionary() {
    let result = construct_dictionary(&[], DictionaryConfig::default());
    assert_eq!(weight(&result), 0);
    let result = construct_dictionary(
        &[],
        DictionaryConfig::default().set_keep_single_byte_tokens(false).to_owned(),
    );
    assert_eq!(result.len(), 0);
}

#[test]
fn table_size_bound() {
    let bytes = corpus(40);
    let config = DictionaryConfig::default().set_dictionary_size(300).to_owned();
    let (units, map) = train(&bytes, &config);
    assert!(map.len() <= 300);
    assert_eq!(units_to_bytes(&units, &map), bytes);
    let config = DictionaryConfig::default().set_dictionary_size(1024).to_owned();
    let (units, map) = train(&bytes, &config);
    assert!(map.len() <= 1024);
    assert!(units.len() < bytes.len());
    assert_eq!(units_to_bytes(&units, &map), bytes);
}

#[test]
fn separator_purity() {
    let bytes = corpus(20);
    let config = DictionaryConfig::default().set_ultimate_separator(Some(b' ')).to_owned();
    let (units, map) = train(&bytes, &config);
    assert_eq!(units_to_bytes(&units, &map), bytes);
    let mut compounds = 0;
    for unit in map.keys() {
        if *unit >= 256 {
            compounds += 1;
            assert!(!units_to_bytes(&[*unit], &map).contains(&b' '));
        }
    }
    assert!(compounds > 0);
    let result = construct_dictionary(&bytes, config);
    for (word, appearance) in result.iter() {
        if word.len() > 1 && *appearance > 0 {
            assert!(!word.contains(&b' '));
        }
    }
}

#[test]
fn minimum_appearance_unset_means_two() {
    let bytes = b"abcabcabcabcabcabcabcabcxyz".to_vec();
    let config = DictionaryConfig::default()
        .set_minimum_appearance(None)
        .set_keep_single_byte_tokens(false)
        .to_owned();
    let result = construct_dictionary(&bytes, config);
    assert_eq!(weight(&result), bytes.len());
    assert!(result.len() < 10);
}
