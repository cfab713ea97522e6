use aetherdb::collection::IndexType;
use aetherdb::document::Document;
use aetherdb::memtable::get_memtable;
use aetherdb::sst::{Footer, SSTError, SSTManager, SST_MAGIC};
use std::collections::HashMap;

/// A small deterministic generator, so test inputs are reproducible.
struct Lcg(u64);

impl Lcg {
    fn next(&mut self) -> u64 {
        self.0 = self.0.wrapping_mul(6364136223846793005).wrapping_add(1442695040888963407);
        self.0
    }
}

fn random_document(rng: &mut Lcg, dim: usize) -> Document {
    let vector: Vec<u32> = (0..dim).map(|_| ((rng.next() as f32 / u64::MAX as f32) - 0.5).to_bits()).collect();
    let mut doc = Document::new(vector, "test".to_string());
    doc.id = ((rng.next() as u128) << 64) | rng.next() as u128;
    doc
}

fn bulk_random_documents(rng: &mut Lcg, dim: usize, count: usize) -> Vec<Document> {
    (0..count).map(|_| random_document(rng, dim)).collect()
}

#[test]
fn test_sst_write_and_read_all_documents() {
    let sst_manager = SSTManager::new("t_sst_rw".to_string());

    let collection_name = "test_collection";
    let seq_no = 1;
    let layer = 0;

    let mut rng = Lcg(42);
    let docs = bulk_random_documents(&mut rng, 128, 100);

    let mut expected: HashMap<u128, (Vec<u32>, String)> = HashMap::new();
    for doc in &docs {
        expected.insert(doc.id, (doc.vector.clone(), doc.content.clone()));
    }

    let mut memtable = get_memtable(&IndexType::Flat);
    for doc in docs {
        memtable.upsert(doc);
    }

    let (file, metadata) = sst_manager.write_memtable(collection_name, seq_no, layer, &memtable);
    assert_eq!(metadata.entry_count as usize, expected.len());

    for (id, (expected_vector, expected_content)) in expected.iter() {
        let doc = sst_manager
            .read(&file, *id)
            .unwrap_or_else(|_| panic!("Failed to read document with id {}", id));

        assert_eq!(doc.id, *id, "ID mismatch");
        assert_eq!(doc.vector, *expected_vector, "Vector mismatch for id {}", id);
        assert_eq!(doc.content, *expected_content, "Content mismatch for id {}", id);
    }
}

#[test]
fn test_sst_read_not_found() {
    let sst_manager = SSTManager::new("t_sst_nf".to_string());

    let collection_name = "test_collection";
    let seq_no = 1;
    let layer = 0;

    let mut rng = Lcg(7);
    let docs = bulk_random_documents(&mut rng, 64, 10);
    let mut memtable = get_memtable(&IndexType::Flat);
    for doc in docs {
        memtable.upsert(doc);
    }

    let (file, _) = sst_manager.write_memtable(collection_name, seq_no, layer, &memtable);

    // Try to read a non-existent ID
    let result = sst_manager.read(&file, 12345678901234567890);
    assert!(matches!(result, Err(SSTError::NotFound)));
}

#[test]
fn sst_lookup_bounds() {
    // Ids {10, 20, 30}: out-of-range and in-range-but-absent ids report
    // NotFound; a present id returns its document.
    let sst_manager = SSTManager::new("t_bounds".to_string());
    let mut memtable = get_memtable(&IndexType::Flat);
    for id in [10u128, 20, 30] {
        let mut doc = Document::new(vec![1.0f32.to_bits()], format!("doc-{}", id));
        doc.id = id;
        memtable.upsert(doc);
    }
    let (file, metadata) = sst_manager.write_memtable("c", 1, 0, &memtable);
    assert_eq!(metadata.min_id, 10);
    assert_eq!(metadata.max_id, 30);

    assert!(matches!(sst_manager.read(&file, 5), Err(SSTError::NotFound)));
    assert!(matches!(sst_manager.read(&file, 15), Err(SSTError::NotFound)));
    let doc = sst_manager.read(&file, 20).expect("id 20 is present");
    assert_eq!(doc.id, 20);
    assert_eq!(doc.content, "doc-20");
}

#[test]
fn footer_magic_corruption_fails_read() {
    // Flipping any byte of the stored magic makes every read fail with
    // InvalidMagic.
    let sst_manager = SSTManager::new("t_magic".to_string());
    let mut memtable = get_memtable(&IndexType::Flat);
    for id in [1u128, 2, 3] {
        let mut doc = Document::new(vec![0.5f32.to_bits()], "x".to_string());
        doc.id = id;
        memtable.upsert(doc);
    }
    let (file, _) = sst_manager.write_memtable("c", 1, 0, &memtable);
    let magic_start = file.len() - 8;
    let magic_end = file.len() - 4;
    for j in magic_start..magic_end {
        let mut corrupted = file.clone();
        corrupted[j] ^= 0xff;
        for id in [1u128, 2, 3, 99] {
            assert!(matches!(sst_manager.read(&corrupted, id), Err(SSTError::InvalidMagic)));
        }
    }
}

#[test]
fn out_of_range_needs_only_footer() {
    // An id outside [min_id, max_id] reports NotFound from the footer
    // alone: corrupting the index section does not change the answer.
    let sst_manager = SSTManager::new("t_oor".to_string());
    let mut memtable = get_memtable(&IndexType::Flat);
    for id in [100u128, 200] {
        let mut doc = Document::new(vec![1.0f32.to_bits()], "y".to_string());
        doc.id = id;
        memtable.upsert(doc);
    }
    let (file, metadata) = sst_manager.write_memtable("c", 1, 0, &memtable);
    let mut corrupted = file.clone();
    // Clobber the first byte of the index section.
    let index_offset = (file.len() - 64) - (8 + 28 * metadata.entry_count as usize);
    corrupted[index_offset] ^= 0xff;
    assert!(matches!(sst_manager.read(&corrupted, 5), Err(SSTError::NotFound)));
    assert!(matches!(sst_manager.read(&corrupted, 900), Err(SSTError::NotFound)));
}

#[test]
fn corrupt_index_section_reports_deserialize_error() {
    // For an in-range id the index section must decode; an impossible
    // entry count is corruption.
    let sst_manager = SSTManager::new("t_badix".to_string());
    let mut memtable = get_memtable(&IndexType::Flat);
    for id in [100u128, 200] {
        let mut doc = Document::new(vec![1.0f32.to_bits()], "y".to_string());
        doc.id = id;
        memtable.upsert(doc);
    }
    let (file, metadata) = sst_manager.write_memtable("c", 1, 0, &memtable);
    let mut corrupted = file.clone();
    let index_offset = (file.len() - 64) - (8 + 28 * metadata.entry_count as usize);
    corrupted[index_offset] = 0xff;  // the count's low byte, now far too large
    assert!(matches!(sst_manager.read(&corrupted, 150), Err(SSTError::DeserializeError(_))));
}

#[test]
fn empty_memtable_writes_empty_table() {
    let sst_manager = SSTManager::new("t_empty".to_string());
    let memtable = get_memtable(&IndexType::Flat);
    let (file, metadata) = sst_manager.write_memtable("c", 4, 0, &memtable);
    assert_eq!(metadata.entry_count, 0);
    assert_eq!(metadata.min_id, u128::MAX);
    assert_eq!(metadata.max_id, 0);
    for id in [0u128, 1, u128::MAX] {
        assert!(matches!(sst_manager.read(&file, id), Err(SSTError::NotFound)));
    }
}

#[test]
fn footer_codec_round_trip() {
    let footer = Footer::new(1, 2, 3, 4, 5);
    assert_eq!(footer.magic, SST_MAGIC);
    assert_eq!(footer.magic, 0x53535401);
    assert_eq!(footer.version, 1);
    let bytes = footer.to_bytes();
    assert_eq!(bytes.len(), 64);
    let back = Footer::from_bytes(&bytes);
    assert_eq!(back, footer);
    // Big-endian field layout: min_id's low byte sits at offset 15.
    assert_eq!(bytes[15], 1);
    assert_eq!(bytes[31], 2);
}

#[test]
fn sst_paths_follow_the_layout() {
    let sst_manager = SSTManager::new("root".to_string());
    let memtable = get_memtable(&IndexType::Flat);
    let (_, metadata) = sst_manager.write_memtable("vectors", 7, 2, &memtable);
    assert_eq!(metadata.path, "root/data/vectors/L2/000007.sst");
    assert_eq!(aetherdb::paths::wal_file_name("vectors", 3), "vectors_000000003.wal");
    assert_eq!(aetherdb::paths::u64_to_dec(90210), "90210");
    assert_eq!(aetherdb::paths::u64_to_dec_padded(42, 6), "000042");
    assert_eq!(aetherdb::paths::u64_to_dec_padded(1234567, 6), "1234567");
}
