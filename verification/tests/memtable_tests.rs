use aetherdb::collection::IndexType;
use aetherdb::document::Document;
use aetherdb::memtable::{get_memtable, FlatMemTable};

#[test]
fn test_flat_memtable() {}

fn doc(id: u128, content: &str) -> Document {
    let mut d = Document::new(vec![1.0f32.to_bits(), 2.0f32.to_bits()], content.to_string());
    d.id = id;
    d
}

#[test]
fn flat_memtable_upsert_get_delete() {
    let mut m = FlatMemTable::new();
    assert_eq!(m.size(), 0);
    m.upsert(doc(2, "b"));
    m.upsert(doc(1, "a"));
    m.upsert(doc(3, "c"));
    assert_eq!(m.size(), 3);

    // Replacement keeps the size and swaps the value.
    m.upsert(doc(2, "b2"));
    assert_eq!(m.size(), 3);
    assert_eq!(m.get(&2).expect("present").content, "b2");

    m.delete(&1);
    assert_eq!(m.size(), 2);
    assert!(m.get(&1).is_none());
    m.delete(&42);
    assert_eq!(m.size(), 2);

    // The sorted traversal ascends by id.
    let sorted = m.sorted_docs();
    let ids: Vec<u128> = sorted.iter().map(|d| d.id).collect();
    assert_eq!(ids, vec![2, 3]);
}

#[test]
fn memtable_kinds() {
    let flat = get_memtable(&IndexType::Flat);
    assert_eq!(flat.size(), 0);
    let mut flat = flat;
    flat.upsert(doc(9, "z"));
    assert_eq!(flat.size(), 1);
    assert_eq!(flat.get(&9).expect("present").content, "z");
    let copy = flat.snapshot();
    assert_eq!(copy.size(), 1);
    assert_eq!(copy.get(&9).expect("present").content, "z");
}
