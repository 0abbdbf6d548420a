use doc_pipeline::codec::{deserialize, serialize};
use doc_pipeline::index::InMemoryIndex;
use doc_pipeline::stages::{index_document, index_text, merge_segments};
use doc_pipeline::tokenize::tokenize;

fn s(t: &str) -> String {
    t.to_string()
}

fn sorted_entries(idx: &InMemoryIndex) -> Vec<(String, Vec<u64>)> {
    let mut out: Vec<(String, Vec<u64>)> =
        idx.entries.iter().map(|e| (e.term.clone(), e.docs.clone())).collect();
    out.sort();
    out
}

fn word(v: u64) -> Vec<u8> {
    v.to_be_bytes().to_vec()
}

#[test]
fn serialize_layout() {
    let mut idx = InMemoryIndex::new();
    idx.insert(&s("ab"), 7);
    idx.insert(&s("ab"), 3);
    let mut expected = Vec::new();
    for w in [2u64, 'a' as u64, 'b' as u64, 2, 3, 7] {
        expected.extend(word(w));
    }
    assert_eq!(serialize(&idx), expected);
    assert_eq!(serialize(&InMemoryIndex::new()), Vec::<u8>::new());
}

#[test]
fn round_trip_keeps_every_pair() {
    let a = index_document(0, &vec![s("the"), s("cat"), s("sat"), s("café")]);
    let b = index_document(5, &vec![s("the"), s("dog"), s("ünïcödé")]);
    let idx = merge_segments(&vec![a, b]);
    let back = deserialize(&serialize(&idx)).unwrap();
    assert_eq!(sorted_entries(&back), sorted_entries(&idx));
    let empty = deserialize(&[]).unwrap();
    assert!(empty.is_empty());
}

#[test]
fn deserialize_rejects_malformed() {
    assert!(deserialize(&[0u8; 7]).is_none());
    // a term of length 5 with nothing after it
    assert!(deserialize(&word(5)).is_none());
    // documents out of order
    let mut bytes = Vec::new();
    for w in [1u64, 'x' as u64, 2, 9, 4] {
        bytes.extend(word(w));
    }
    assert!(deserialize(&bytes).is_none());
    // a surrogate is no character
    let mut bytes = Vec::new();
    for w in [1u64, 0xD800, 1, 4] {
        bytes.extend(word(w));
    }
    assert!(deserialize(&bytes).is_none());
    // no documents
    let mut bytes = Vec::new();
    for w in [1u64, 'x' as u64, 0] {
        bytes.extend(word(w));
    }
    assert!(deserialize(&bytes).is_none());
}

#[test]
fn tokenize_splits_and_lowercases() {
    assert_eq!(tokenize("The cat, sat!"), vec![s("the"), s("cat"), s("sat")]);
    assert_eq!(tokenize(""), Vec::<String>::new());
    assert_eq!(tokenize("  ...  "), Vec::<String>::new());
    assert_eq!(tokenize("R2D2 und Ärger"), vec![s("r2d2"), s("und"), s("ärger")]);
}

#[test]
fn two_documents_through_the_tokenizer() {
    let doc1 = index_text(1, "the cat sat");
    let doc2 = index_text(2, "the dog sat");
    let idx = merge_segments(&vec![doc1, doc2]);
    assert_eq!(idx.postings(&s("the")), vec![1, 2]);
    assert_eq!(idx.postings(&s("cat")), vec![1]);
    assert_eq!(idx.postings(&s("sat")), vec![1, 2]);
    assert_eq!(idx.postings(&s("dog")), vec![2]);
    assert_eq!(idx.term_count(), 4);
}
