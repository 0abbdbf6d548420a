use doc_pipeline::index::{union_sorted, InMemoryIndex};
use doc_pipeline::stages::{
    first_error, index_document, index_to_publish, merge_segments, reference_index, run_stages, FailureKind,
    Merger, PipelineError,
};

fn s(t: &str) -> String {
    t.to_string()
}

fn words(text: &str) -> Vec<String> {
    text.split(' ').map(|w| w.to_string()).collect()
}

fn all_pairs(idx: &InMemoryIndex) -> Vec<(String, Vec<u64>)> {
    let mut out: Vec<(String, Vec<u64>)> = idx
        .entries
        .iter()
        .map(|e| (e.term.clone(), e.docs.clone()))
        .collect();
    out.sort();
    out
}

#[test]
fn union_sorted_merges_and_dedups() {
    assert_eq!(union_sorted(&vec![1, 3, 5], &vec![2, 3, 6]), vec![1, 2, 3, 5, 6]);
    assert_eq!(union_sorted(&vec![], &vec![4]), vec![4]);
    assert_eq!(union_sorted(&vec![7], &vec![]), vec![7]);
}

#[test]
fn insert_keeps_postings_sorted_without_duplicates() {
    let mut idx = InMemoryIndex::new();
    assert!(idx.is_empty());
    idx.insert(&s("cat"), 5);
    idx.insert(&s("cat"), 2);
    idx.insert(&s("cat"), 5);
    idx.insert(&s("dog"), 1);
    assert_eq!(idx.postings(&s("cat")), vec![2, 5]);
    assert_eq!(idx.postings(&s("dog")), vec![1]);
    assert_eq!(idx.postings(&s("eel")), Vec::<u64>::new());
    assert_eq!(idx.term_count(), 2);
    assert!(!idx.is_empty());
}

#[test]
fn merge_is_order_independent() {
    let a = index_document(1, &words("the cat sat"));
    let b = index_document(2, &words("the dog sat"));
    let c = index_document(3, &words("a cat ran"));
    let mut left = InMemoryIndex::new();
    left.merge(&a);
    left.merge(&b);
    left.merge(&c);
    let mut bc = InMemoryIndex::new();
    bc.merge(&c);
    bc.merge(&b);
    let mut right = InMemoryIndex::new();
    right.merge(&bc);
    right.merge(&a);
    assert_eq!(all_pairs(&left), all_pairs(&right));
    assert_eq!(left.postings(&s("cat")), vec![1, 3]);
    assert_eq!(left.postings(&s("sat")), vec![1, 2]);
}

#[test]
fn merge_twice_adds_nothing() {
    let a = index_document(4, &words("x y x"));
    let mut m = InMemoryIndex::new();
    m.merge(&a);
    m.merge(&a);
    assert_eq!(m.postings(&s("x")), vec![4]);
    assert_eq!(m.term_count(), 2);
}

#[test]
fn concrete_two_documents() {
    let reads = vec![Some(words("the cat sat")), Some(words("the dog sat"))];
    let (idx, failed) = run_stages(&reads, 2);
    assert_eq!(failed, None);
    assert_eq!(idx.postings(&s("the")), vec![0, 1]);
    assert_eq!(idx.postings(&s("cat")), vec![0]);
    assert_eq!(idx.postings(&s("sat")), vec![0, 1]);
    assert_eq!(idx.postings(&s("dog")), vec![1]);
    assert_eq!(idx.term_count(), 4);
}

#[test]
fn staged_run_matches_reference() {
    let docs: Vec<Vec<String>> = (0..50)
        .map(|k| vec![format!("t{}", k % 7), format!("u{}", k % 3), s("all")])
        .collect();
    let reads: Vec<Option<Vec<String>>> = docs.iter().map(|d| Some(d.clone())).collect();
    for threshold in [0usize, 1, 3, 100] {
        let (idx, failed) = run_stages(&reads, threshold);
        assert_eq!(failed, None);
        assert_eq!(all_pairs(&idx), all_pairs(&reference_index(&docs)));
    }
}

#[test]
fn read_failure_keeps_documents_before_it() {
    let reads = vec![Some(words("a b")), Some(words("b c")), None, Some(words("d"))];
    let (idx, failed) = run_stages(&reads, 1);
    assert_eq!(failed, Some(2));
    assert_eq!(idx.postings(&s("b")), vec![0, 1]);
    assert_eq!(idx.postings(&s("d")), Vec::<u64>::new());
    let docs = vec![words("a b"), words("b c")];
    assert_eq!(all_pairs(&idx), all_pairs(&reference_index(&docs)));
}

#[test]
fn threshold_one_over_a_thousand_documents() {
    let reads: Vec<Option<Vec<String>>> =
        (0..1000).map(|k| Some(vec![format!("w{}", k), s("common")])).collect();
    let (idx, failed) = run_stages(&reads, 1);
    assert_eq!(failed, None);
    assert_eq!(idx.postings(&s("common")), (0..1000).collect::<Vec<u64>>());
    assert_eq!(idx.term_count(), 1001);
}

#[test]
fn merger_flushes_when_size_exceeds_threshold() {
    let mut merger = Merger::new(2);
    assert!(merger.push(&index_document(0, &words("a b"))).is_none());
    let seg = merger.push(&index_document(1, &words("b c"))).unwrap();
    assert_eq!(seg.term_count(), 3);
    assert!(merger.acc.is_empty());
    assert!(merger.push(&index_document(2, &words("d"))).is_none());
    let last = merger.finish().unwrap();
    assert_eq!(last.postings(&s("d")), vec![2]);
    assert!(Merger::new(3).finish().is_none());
    let all = merge_segments(&vec![seg, last]);
    assert_eq!(all.postings(&s("b")), vec![0, 1]);
}

#[test]
fn merger_never_emits_an_empty_segment() {
    let mut merger = Merger::new(0);
    assert!(merger.push(&InMemoryIndex::new()).is_none());
    assert!(merger.push(&index_document(0, &vec![])).is_none());
    assert!(merger.finish().is_none());
    let mut merger = Merger::new(0);
    let seg = merger.push(&index_document(3, &words("x"))).unwrap();
    assert_eq!(seg.postings(&s("x")), vec![3]);
}

#[test]
fn publish_only_when_writer_and_merger_succeeded() {
    let idx = index_document(0, &words("a"));
    let kept = index_to_publish(&Ok(()), Ok(idx)).ok().unwrap().unwrap();
    assert_eq!(kept.postings(&s("a")), vec![0]);
    let idx = index_document(0, &words("a"));
    let r = index_to_publish(&err(FailureKind::WriteFailure, "seg"), Ok(idx));
    assert!(matches!(r, Ok(None)));
    let r = index_to_publish(&Ok(()), err_index(FailureKind::MergeFailure, "out"));
    assert_eq!(r.err().unwrap().kind, FailureKind::MergeFailure);
}

fn err_index(kind: FailureKind, resource: &str) -> Result<InMemoryIndex, PipelineError> {
    Err(PipelineError { kind, resource: s(resource), message: s("failed") })
}

fn err(kind: FailureKind, resource: &str) -> Result<(), PipelineError> {
    Err(PipelineError { kind, resource: s(resource), message: s("failed") })
}

#[test]
fn first_error_follows_stage_order() {
    let r = first_error(Ok(()), err(FailureKind::WriteFailure, "seg"), err(FailureKind::MergeFailure, "out"));
    assert_eq!(r.unwrap_err().kind, FailureKind::WriteFailure);
    let r = first_error(err(FailureKind::ReadFailure, "doc"), Ok(()), err(FailureKind::MergeFailure, "out"));
    let e = r.unwrap_err();
    assert_eq!(e.kind, FailureKind::ReadFailure);
    assert_eq!(e.resource, s("doc"));
    let r = first_error(Ok(()), Ok(()), err(FailureKind::MergeFailure, "out"));
    assert_eq!(r.unwrap_err().kind, FailureKind::MergeFailure);
    assert!(first_error(Ok(()), Ok(()), Ok(())).is_ok());
}
