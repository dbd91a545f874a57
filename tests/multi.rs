use bpe_rs::bpe::construct_dictionary;
use bpe_rs::config::DictionaryConfig;
use bpe_rs::multi::{join_files, order_by_size, plan_chunks, Coordinator, MessageToMain, WorkerState};

#[test]
fn files_ordered_by_size_stably() {
    assert_eq!(order_by_size(&[30, 10, 20, 10]), vec![1, 3, 2, 0]);
    assert!(order_by_size(&[]).is_empty());
}

#[test]
fn chunks_fill_up_to_size() {
    assert_eq!(plan_chunks(&[1, 2, 3, 4, 10, 1], 5), vec![3, 5, 6]);
    assert_eq!(plan_chunks(&[100, 1, 1], 5), vec![1, 3]);
    assert_eq!(plan_chunks(&[1, 1, 1], 0), vec![1, 2, 3]);
    assert!(plan_chunks(&[], 5).is_empty());
}

#[test]
fn worker_gives_up_after_idle_rounds() {
    let mut w = WorkerState::new();
    for _ in 0..5 {
        assert!(!w.end_round(false));
    }
    assert!(!w.end_round(true));
    assert_eq!(w.idle_rounds, 0);
    for _ in 0..5 {
        assert!(!w.end_round(false));
    }
    assert!(w.end_round(false));
}

#[test]
fn coordinator_merges_and_counts_done() {
    let mut c = Coordinator::new(2);
    assert!(!c.finished());
    let d = construct_dictionary(b"abcabc", DictionaryConfig::default());
    assert!(c.on_message(MessageToMain::NewDictionary(d)));
    assert_eq!(c.result.get(b"a"), Some(2));
    assert!(!c.on_message(MessageToMain::Done));
    assert!(!c.finished());
    assert!(!c.on_message(MessageToMain::Done));
    assert!(c.finished());
    assert!(!c.on_message(MessageToMain::Done));
    assert_eq!(c.done, 2);
}

#[test]
fn files_joined_with_separator() {
    let parts = vec![b"ab".to_vec(), Vec::new(), b"c".to_vec()];
    assert_eq!(join_files(&parts, Some(0)), vec![b'a', b'b', 0, 0, b'c']);
    assert_eq!(join_files(&parts, None), b"abc".to_vec());
    assert!(join_files(&[], Some(0)).is_empty());
}
