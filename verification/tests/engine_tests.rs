use aetherdb::collection::{Collection, DistanceType, IndexConfig, IndexType};
use aetherdb::compact::{CompactionManager, Lane};
use aetherdb::document::Document;
use aetherdb::error::{CollectionError, DatabaseError, WalError};
use aetherdb::index::{IndexManager, SSTMetadata};
use aetherdb::memtable::FlatMemTable;
use aetherdb::sst::SSTManager;
use aetherdb::wal::{replay_into, WalManager};

fn bits(values: &[f32]) -> Vec<u32> {
    values.iter().map(|v| v.to_bits()).collect()
}

fn flat_collection(name: &str, dimension: i32, threshold: usize) -> Collection {
    Collection::new(
        name,
        dimension,
        "l2",
        IndexConfig::new_with_default_config("flat").expect("flat parses"),
        WalManager::new(name),
        threshold,
    )
    .expect("collection builds")
}

#[test]
fn create_upsert_fetch() {
    let mut c = flat_collection("c", 4, 1000);
    let doc = Document::new(bits(&[1.0, 2.0, 3.0, 4.0]), "x".to_string());
    let id = doc.id;
    c.upsert(doc).expect("upsert succeeds");
    let fetched = c.fetch(&id).expect("document is visible");
    assert_eq!(fetched.id, id);
    assert_eq!(fetched.content, "x");
    assert_eq!(fetched.vector, bits(&[1.0, 2.0, 3.0, 4.0]));
}

#[test]
fn flush_on_threshold() {
    // With a threshold of 2, the second upsert freezes the memtable and
    // produces one compaction task of two entries; the third document
    // lands in a fresh active memtable. All three stay fetchable.
    let mut c = flat_collection("c", 2, 2);
    let d1 = Document::new(bits(&[1.0, 1.0]), "d1".to_string());
    let d2 = Document::new(bits(&[2.0, 2.0]), "d2".to_string());
    let d3 = Document::new(bits(&[3.0, 3.0]), "d3".to_string());
    let (id1, id2, id3) = (d1.id, d2.id, d3.id);

    let out1 = c.upsert(d1).expect("first upsert");
    assert!(out1.task.is_none());
    assert_eq!(out1.wal_seq_no, 0);

    let out2 = c.upsert(d2).expect("second upsert");
    let task = out2.task.expect("threshold reached: one task");
    assert_eq!(task.collection_name, "c");
    assert_eq!(task.seq_no, 1);
    assert_eq!(task.layer, 0);
    assert_eq!(task.memtable.size(), 2);

    let out3 = c.upsert(d3).expect("third upsert");
    assert!(out3.task.is_none());
    assert_eq!(out3.wal_seq_no, 1);

    // The frozen table flushes to one SST with both records.
    let manager = CompactionManager::new("root".to_string());
    let (file, event) = manager.run_task(&task);
    assert_eq!(event.metadata.entry_count, 2);
    assert_eq!(event.metadata.collection_name, "c");
    assert_eq!(event.metadata.seq_no, 1);
    assert_eq!(event.metadata.path, "root/data/c/L0/000001.sst");
    let sst = SSTManager::new("root".to_string());
    assert_eq!(sst.read(&file, id1).expect("d1 in SST").content, "d1");
    assert_eq!(sst.read(&file, id2).expect("d2 in SST").content, "d2");

    // Reads see the active memtable and the frozen list.
    assert_eq!(c.fetch(&id1).expect("d1 visible").content, "d1");
    assert_eq!(c.fetch(&id2).expect("d2 visible").content, "d2");
    assert_eq!(c.fetch(&id3).expect("d3 visible").content, "d3");
}

#[test]
fn dimension_guard() {
    // A mismatched vector length is rejected and nothing changes: the
    // memtable misses the document and the WAL stays empty.
    let mut c = flat_collection("c", 4, 1000);
    let doc = Document::new(bits(&[1.0, 2.0]), "short".to_string());
    let id = doc.id;
    let err = match c.upsert(doc) {
        Ok(_) => panic!("dimension mismatch must fail"),
        Err(e) => e,
    };
    match err {
        CollectionError::InvalidDimension(Some(m)) => assert_eq!(m, "Dimension mismatch"),
        other => panic!("unexpected error: {}", other.message()),
    }
    assert!(c.fetch(&id).is_none());
    assert_eq!(c.wal_manager.read().len(), 0);
}

#[test]
fn wal_replay_rebuilds_memtable() {
    // Replaying the current WAL segment into a fresh memtable rebuilds
    // the collection's live contents.
    let mut c = flat_collection("c", 2, 1000);
    let docs: Vec<Document> =
        (0..5).map(|i| Document::new(bits(&[i as f32, 0.0]), format!("doc-{}", i))).collect();
    let ids: Vec<u128> = docs.iter().map(|d| d.id).collect();
    for d in docs {
        c.upsert(d).expect("upsert succeeds");
    }

    let records = c.wal_manager.read();
    assert_eq!(records.len(), 5);
    let mut fresh = FlatMemTable::new();
    replay_into(&mut fresh, &records);

    for id in &ids {
        let live = c.fetch(id).expect("visible in collection");
        let replayed = fresh.get(id).expect("visible after replay");
        assert_eq!(live.id, replayed.id);
        assert_eq!(live.vector, replayed.vector);
        assert_eq!(live.content, replayed.content);
    }
}

#[test]
fn lane_orders_tasks_and_excludes_workers() {
    // Per-lane FIFO: tasks come back in submission order, under an
    // acquire/release discipline that admits one holder at a time.
    let mut c = flat_collection("a", 1, 1);
    let d1 = Document::new(bits(&[1.0]), "t1".to_string());
    let d2 = Document::new(bits(&[2.0]), "t2".to_string());
    let t1 = c.upsert(d1).expect("upsert").task.expect("task 1");
    let t2 = c.upsert(d2).expect("upsert").task.expect("task 2");
    let (s1, s2) = (t1.seq_no, t2.seq_no);
    assert!(s1 < s2, "tasks carry ascending sequence numbers");

    let mut lane = Lane::new();
    lane.push_task(t1);
    lane.push_task(t2);

    assert!(lane.try_acquire(), "first acquire wins");
    assert!(!lane.try_acquire(), "no second holder while processing");
    let first = lane.pop_task().expect("head task");
    assert_eq!(first.seq_no, s1);
    lane.release();

    assert!(lane.try_acquire(), "free lane can be acquired again");
    let second = lane.pop_task().expect("next task");
    assert_eq!(second.seq_no, s2);
    assert!(lane.pop_task().is_none());
    lane.release();
}

#[test]
fn cross_collection_lanes_run_independently() {
    // Lanes of different collections can both be held at once, while each
    // lane alone stays exclusive.
    let mut ca = flat_collection("a", 1, 1);
    let mut cb = flat_collection("b", 1, 1);
    let ta = ca.upsert(Document::new(bits(&[1.0]), "a1".to_string())).unwrap().task.unwrap();
    let tb = cb.upsert(Document::new(bits(&[1.0]), "b1".to_string())).unwrap().task.unwrap();

    let mut manager = CompactionManager::new("root".to_string());
    let ia = manager.dispatch(ta);
    let ib = manager.dispatch(tb);
    assert_ne!(ia, ib, "each collection gets its own lane");
    assert_eq!(manager.lanes.len(), 2);

    assert!(manager.lanes[ia].1.try_acquire());
    assert!(manager.lanes[ib].1.try_acquire(), "the other lane is independent");
    assert!(!manager.lanes[ia].1.try_acquire());

    let task_a = manager.lanes[ia].1.pop_task().expect("a's task");
    assert_eq!(task_a.collection_name, "a");
    let task_b = manager.lanes[ib].1.pop_task().expect("b's task");
    assert_eq!(task_b.collection_name, "b");
    manager.lanes[ia].1.release();
    manager.lanes[ib].1.release();
}

#[test]
fn dispatch_reuses_a_collections_lane() {
    let mut ca = flat_collection("a", 1, 1);
    let t1 = ca.upsert(Document::new(bits(&[1.0]), "x".to_string())).unwrap().task.unwrap();
    let t2 = ca.upsert(Document::new(bits(&[2.0]), "y".to_string())).unwrap().task.unwrap();
    let mut manager = CompactionManager::new("root".to_string());
    let i1 = manager.dispatch(t1);
    let i2 = manager.dispatch(t2);
    assert_eq!(i1, i2);
    assert_eq!(manager.lanes.len(), 1);
    assert_eq!(manager.lanes[i1].1.task_queue.len(), 2);
}

#[test]
fn document_codec_round_trip() {
    let doc = Document::new(bits(&[0.25, -1.5, 3.25]), "καλημέρα".to_string());
    let encoded = doc.serialize();
    let decoded = Document::deserialize(&encoded).expect("well-formed bytes decode");
    assert_eq!(decoded.id, doc.id);
    assert_eq!(decoded.vector, doc.vector);
    assert_eq!(decoded.content, doc.content);

    assert!(Document::deserialize(&vec![1, 2, 3]).is_none());
    let mut truncated = encoded.clone();
    truncated.truncate(encoded.len() - 1);
    assert!(Document::deserialize(&truncated).is_none());
}

#[test]
fn document_codec_rejects_invalid_content_bytes() {
    // The content region must be valid UTF-8; a stray 0xFF byte there
    // fails decoding.
    let doc = Document::new(bits(&[1.0]), "abc".to_string());
    let mut encoded = doc.serialize();
    let last = encoded.len() - 1;
    encoded[last] = 0xff;
    assert!(Document::deserialize(&encoded).is_none());
}

#[test]
fn document_ids_carry_v4_marks() {
    let doc = Document::new(bits(&[1.0]), "id".to_string());
    assert_eq!((doc.id >> 76) & 0xf, 4, "version nibble");
    assert_eq!((doc.id >> 62) & 0x3, 2, "variant bits");
    assert_eq!(doc.dimension(), 1);
}

#[test]
fn configuration_parses_case_insensitively() {
    assert!(matches!(IndexType::from_str("HNSW"), Ok(IndexType::HNSW)));
    assert!(matches!(IndexType::from_str("Ivf"), Ok(IndexType::IVF)));
    assert!(matches!(IndexType::from_str("flat"), Ok(IndexType::Flat)));
    match IndexType::from_str("tree") {
        Err(CollectionError::InvalidIndexType(Some(m))) => assert_eq!(m, "Invalid index type"),
        _ => panic!("unknown kinds must fail"),
    }

    assert!(matches!(DistanceType::from_str("COSINE"), Ok(DistanceType::Cosine)));
    assert!(matches!(DistanceType::from_str("L2"), Ok(DistanceType::L2)));
    assert!(matches!(DistanceType::from_str("dot"), Ok(DistanceType::Dot)));
    match DistanceType::from_str("manhattan") {
        Err(CollectionError::InvalidDistanceType(Some(m))) => {
            assert_eq!(m, "Invalid distance type")
        }
        _ => panic!("unknown distances must fail"),
    }
}

#[test]
fn default_configurations() {
    let hnsw = IndexConfig::new_with_default_config("hnsw").expect("hnsw parses");
    let params: Vec<(String, String)> = hnsw.params;
    assert_eq!(params.len(), 3);
    assert_eq!(params[0], ("m".to_string(), "16".to_string()));
    assert_eq!(params[1], ("efConstruction".to_string(), "200".to_string()));
    assert_eq!(params[2], ("efSearch".to_string(), "50".to_string()));

    let ivf = IndexConfig::new_with_default_config("ivf").expect("ivf parses");
    assert_eq!(ivf.params[0], ("nlist".to_string(), "1024".to_string()));
    assert_eq!(ivf.params[1], ("quantization".to_string(), "PQ16".to_string()));
    assert_eq!(ivf.params[2], ("nprobe".to_string(), "10".to_string()));

    let flat = IndexConfig::new_with_default_config("flat").expect("flat parses");
    assert!(flat.params.is_empty());

    let default = IndexConfig::default();
    assert!(matches!(default.index, IndexType::HNSW));
    assert_eq!(default.params.len(), 3);
}

#[test]
fn collection_validation_errors() {
    let make = |dim: i32, distance: &str| {
        Collection::new(
            "c",
            dim,
            distance,
            IndexConfig::new_with_default_config("flat").unwrap(),
            WalManager::new("c"),
            10,
        )
    };
    match make(0, "l2") {
        Err(CollectionError::InvalidDimension(Some(m))) => {
            assert_eq!(m, "Dimension must be between 1 and 65332")
        }
        _ => panic!("dimension 0 must fail"),
    }
    match make(65333, "l2") {
        Err(CollectionError::InvalidDimension(Some(_))) => {}
        _ => panic!("dimension above the cap must fail"),
    }
    assert!(make(65332, "l2").is_ok());
    match make(4, "hamming") {
        Err(CollectionError::InvalidDistanceType(Some(m))) => {
            assert_eq!(m, "Invalid distance type")
        }
        _ => panic!("unknown distance must fail"),
    }
}

#[test]
fn error_messages_render() {
    assert_eq!(
        CollectionError::InvalidDimension(Some("oops".to_string())).message(),
        "Invalid dimension: oops"
    );
    assert_eq!(CollectionError::NotFound(None).message(), "Collection not found");
    assert_eq!(
        CollectionError::InternalError(Some("closed".to_string())).message(),
        "Internal error: closed"
    );
    assert_eq!(
        DatabaseError::InvalidPath(Some("Database is locked by another process".to_string()))
            .message(),
        "Invalid path: Database is locked by another process"
    );
    assert_eq!(WalError::WriteError(None).message(), "Write error");
    assert_eq!(
        WalError::InvalidOperation(Some("bad tag".to_string())).message(),
        "Invalid operation: bad tag"
    );
    let wrapped = CollectionError::from_wal(&WalError::WriteError(Some("disk".to_string())));
    assert_eq!(wrapped.message(), "Collection error from wal: Write error: disk");
}

#[test]
fn catalog_returns_first_match_in_scan_order() {
    let mut index = IndexManager::new();
    let meta = |layer: u64, seq_no: u64, min_id: u128, max_id: u128| SSTMetadata {
        collection_name: "c".to_string(),
        seq_no,
        layer,
        min_id,
        max_id,
        path: format!("data/c/L{}/{:06}.sst", layer, seq_no),
        entry_count: 1,
    };
    index.add_sst_metadata(meta(0, 1, 10, 20));
    index.add_sst_metadata(meta(0, 2, 15, 30));
    index.add_sst_metadata(meta(1, 3, 0, 100));

    // Lowest layer first, then insertion order.
    let hit = index.get_sst_metadata(16).expect("in range");
    assert_eq!((hit.layer, hit.seq_no), (0, 1));
    let hit = index.get_sst_metadata(25).expect("in range");
    assert_eq!((hit.layer, hit.seq_no), (0, 2));
    let hit = index.get_sst_metadata(50).expect("only the deep layer");
    assert_eq!((hit.layer, hit.seq_no), (1, 3));
    assert!(index.get_sst_metadata(200).is_none());

    // A layer beyond the initial ten grows the catalog.
    index.add_sst_metadata(meta(12, 4, 300, 400));
    let hit = index.get_sst_metadata(350).expect("deep layer");
    assert_eq!((hit.layer, hit.seq_no), (12, 4));
}

#[test]
fn delete_touches_only_the_active_memtable() {
    let mut c = flat_collection("c", 1, 1000);
    let doc = Document::new(bits(&[1.0]), "gone".to_string());
    let id = doc.id;
    c.upsert(doc).expect("upsert");
    assert!(c.fetch(&id).is_some());
    c.delete(&id);
    assert!(c.fetch(&id).is_none());
    // Deleting an absent id is a no-op.
    c.delete(&id);
    assert!(c.fetch(&id).is_none());
}
