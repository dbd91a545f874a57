use bpe_rs::bpe::construct_dictionary;
use bpe_rs::config::{DictionaryConfig, DirOption};
use bpe_rs::dictionary::Dictionary;
use bpe_rs::utils::prettify_file_size;

fn entries(d: &Dictionary) -> Vec<(Vec<u8>, usize)> {
    d.iter().to_vec()
}

fn total(d: &Dictionary) -> usize {
    d.iter().iter().map(|(w, c)| w.len() * c).sum()
}

fn trained(text: &str) -> Dictionary {
    construct_dictionary(
        text.as_bytes(),
        DictionaryConfig::default().set_keep_single_byte_tokens(false).to_owned(),
    )
}

#[test]
fn merge_with_empty_is_identity() {
    let d = trained("the cat and the hat and the bat sat on the mat with the rat");
    let mut left = trained("the cat and the hat and the bat sat on the mat with the rat");
    left.merge(&Dictionary::empty());
    assert_eq!(entries(&left), entries(&d));
    let mut right = Dictionary::empty();
    right.merge(&d);
    assert_eq!(entries(&right), entries(&d));
}

#[test]
fn merge_adds_counts() {
    let mut a = trained("aaaa bbbb aaaa bbbb aaaa bbbb aaaa");
    let b = trained("aaaa cccc aaaa cccc aaaa cccc aaaa");
    let before_a: Vec<(Vec<u8>, usize)> = entries(&a);
    a.merge(&b);
    for (w, c) in entries(&b) {
        let old = before_a.iter().find(|(x, _)| *x == w).map(|(_, n)| *n).unwrap_or(0);
        assert_eq!(a.get(&w), Some(old + c));
    }
    assert_eq!(total(&a), 34 + 34);
}

#[test]
fn merge_of_chunks_conserves_bytes() {
    let text = "one fish two fish red fish blue fish, this one has a little star, this one has a little car";
    let (left, right) = text.as_bytes().split_at(40);
    let mut merged = construct_dictionary(left, DictionaryConfig::default());
    merged.merge(&construct_dictionary(right, DictionaryConfig::default()));
    assert_eq!(total(&merged), text.len());
}

#[test]
fn get_and_len() {
    let d = Dictionary::empty();
    assert_eq!(d.len(), 0);
    assert_eq!(d.get(b"a"), None);
    let d = trained("xyxyxyxyxyxyxyxyxyxyxyxy");
    assert!(d.len() >= 1);
    assert_eq!(d.get(b"q"), None);
    assert!(d.can_merge(&d));
}

#[test]
fn words_as_strings() {
    let d = construct_dictionary(b"hi", DictionaryConfig::default().set_keep_single_byte_tokens(false).to_owned());
    let mut words = d.get_words_as_strings();
    words.sort();
    assert_eq!(words, vec!["h".to_string(), "i".to_string()]);
    let d = construct_dictionary(&[0xff], DictionaryConfig::default().set_keep_single_byte_tokens(false).to_owned());
    assert_eq!(d.get_words_as_strings(), vec!["\u{fffd}".to_string()]);
}

#[test]
fn config_defaults_and_setters() {
    let config = DictionaryConfig::default();
    assert_eq!(config.dictionary_size, 2048);
    assert!(config.keep_single_byte_tokens);
    assert_eq!(config.minimum_appearance, Some(3));
    assert_eq!(config.ultimate_separator, None);
    assert_eq!(config.dir_option, DirOption::default());
    assert_eq!(config.dir_option.file_chunk_size, 8 * 1024 * 1024);
    let config = DictionaryConfig::default()
        .set_dictionary_size(16384)
        .set_dir("./corpus".to_string())
        .set_extension_to_read("md".to_string())
        .set_file_chunk_size(100)
        .set_file_separator(Some(0))
        .set_ultimate_separator(Some(0))
        .set_worker_count(Some(4))
        .set_log_file(Some("./log.txt".to_string()))
        .set_dump_file(Some("./dump.txt".to_string()))
        .set_minimum_appearance(Some(5))
        .set_keep_single_byte_tokens(false)
        .to_owned();
    assert_eq!(config.dictionary_size, 16384);
    assert_eq!(config.dir_option.path, "./corpus");
    assert_eq!(config.dir_option.ext, "md");
    assert_eq!(config.dir_option.file_chunk_size, 100);
    assert_eq!(config.dir_option.file_separator, Some(0));
    assert_eq!(config.ultimate_separator, Some(0));
    assert_eq!(config.parallel_worker_count, Some(4));
    assert_eq!(config.write_log_at, Some("./log.txt".to_string()));
    assert_eq!(config.dump_result_at, Some("./dump.txt".to_string()));
    assert_eq!(config.minimum_appearance, Some(5));
    assert!(!config.keep_single_byte_tokens);
}

#[test]
fn file_sizes_are_prettified() {
    assert_eq!(prettify_file_size(0), "0B");
    assert_eq!(prettify_file_size(1023), "1023B");
    assert_eq!(prettify_file_size(1024), "1kiB");
    assert_eq!(prettify_file_size(5 * 1024 * 1024 + 7), "5MiB");
    assert_eq!(prettify_file_size(3 << 30), "3GiB");
    assert_eq!(prettify_file_size(u64::MAX), "17179869183GiB");
}

#[test]
fn ranking_by_descending_count() {
    let d = construct_dictionary(
        b"abcabcabcabcabcabcabcabcabcabcabcabcabcabcabcabcabcabcabcabcaab",
        DictionaryConfig::default().set_minimum_appearance(Some(100)).to_owned(),
    );
    let order = d.ranked_indices();
    let entries = d.iter();
    assert_eq!(order.len(), 3);
    let words: Vec<&[u8]> = order.iter().map(|i| entries[*i].0.as_slice()).collect();
    let counts: Vec<usize> = order.iter().map(|i| entries[*i].1).collect();
    assert_eq!(words, vec![b"a".as_slice(), b"b".as_slice(), b"c".as_slice()]);
    assert_eq!(counts, vec![22, 21, 20]);
    assert!(Dictionary::empty().ranked_indices().is_empty());
}
