use aetherdb::document::Document;
use aetherdb::wal::{Operation, WalManager};

fn bits(values: &[f32]) -> Vec<u32> {
    values.iter().map(|v| v.to_bits()).collect()
}

#[test]
fn test_write_and_read() {
    let mut wal = WalManager::new("test");
    let doc1 = Document::new(bits(&[1.0, 2.0]), "doc1".to_string());
    let doc2 = Document::new(bits(&[3.0, 4.0]), "doc2".to_string());

    wal.write(Operation::Insert, &doc1);
    wal.write(Operation::Delete, &doc2);

    let records = wal.read();
    assert_eq!(records.len(), 2);

    match &records[0] {
        (Operation::Insert, d) => assert_eq!(d.content, "doc1"),
        _ => panic!("Expected Insert"),
    }

    match &records[1] {
        (Operation::Delete, d) => assert_eq!(d.content, "doc2"),
        _ => panic!("Expected Delete"),
    }
}

#[test]
fn test_rotate() {
    let mut wal = WalManager::new("test_rotate");

    let doc1 = Document::new(bits(&[1.0]), "doc1".to_string());
    wal.write(Operation::Insert, &doc1);

    wal.rotate();

    let doc2 = Document::new(bits(&[2.0]), "doc2".to_string());
    wal.write(Operation::Insert, &doc2);

    // After rotate, read() should read the new segment (seq_no=1)
    let records = wal.read();
    assert_eq!(records.len(), 1);
    assert_eq!(records[0].1.content, "doc2");
}

#[test]
fn test_performance() {
    let count = 100;
    let mut wal = WalManager::new("test_perf");
    let doc = Document::new(bits(&[1.0, 2.0]), "data".to_string());

    let start = std::time::Instant::now();
    for _ in 0..count {
        wal.write(Operation::Insert, &doc);
    }
    let duration = start.elapsed();
    println!(
        "Write {} ops in {:?}, {:.2} ops/sec",
        count,
        duration,
        count as f64 / duration.as_secs_f64()
    );
}

#[test]
fn test_large_write() {
    let mut wal = WalManager::new("test_large");
    // 70KB of vector data, past any reasonable buffer size
    let large_data = vec![1.0f32; 17500];
    let doc = Document::new(bits(&large_data), "large_doc".to_string());

    wal.write(Operation::Insert, &doc);

    let records = wal.read();
    assert_eq!(records.len(), 1);
    match &records[0] {
        (Operation::Insert, d) => {
            assert_eq!(d.vector.len(), 17500);
            assert_eq!(d.content, "large_doc");
        }
        _ => panic!("Expected Insert"),
    }
}

#[test]
fn wal_rotation_keeps_old_segments() {
    // Rotation boundary: the current segment holds only post-rotate
    // records, while sealed segments stay readable by sequence number.
    let mut wal = WalManager::new("c");
    let d1 = Document::new(bits(&[1.0]), "one".to_string());
    wal.write(Operation::Insert, &d1);
    wal.rotate();
    let d2 = Document::new(bits(&[2.0]), "two".to_string());
    wal.write(Operation::Insert, &d2);

    let current = wal.read();
    assert_eq!(current.len(), 1);
    assert_eq!(current[0].1.content, "two");

    let sealed = wal.read_segment(0).expect("segment 0 exists");
    assert_eq!(sealed.len(), 1);
    assert_eq!(sealed[0].1.content, "one");
    assert_eq!(sealed[0].1.id, d1.id);

    assert!(wal.read_segment(2).is_none());
    assert_eq!(wal.get_seq_no(), 1);
}

#[test]
fn operation_labels() {
    assert_eq!(Operation::Insert.label(), "insert");
    assert_eq!(Operation::Delete.label(), "delete");
}
