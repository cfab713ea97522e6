use aetherdb::collection::{Collection, CollectionManager, IndexConfig};
use aetherdb::document::Document;
use aetherdb::wal::WalManager;

/// A small deterministic generator, so test inputs are reproducible.
struct Lcg(u64);

impl Lcg {
    fn next(&mut self) -> u64 {
        self.0 = self.0.wrapping_mul(6364136223846793005).wrapping_add(1442695040888963407);
        self.0
    }
}

fn random_document(rng: &mut Lcg, dim: usize) -> Document {
    let vector: Vec<u32> =
        (0..dim).map(|_| ((rng.next() as f32 / u64::MAX as f32) - 0.5).to_bits()).collect();
    Document::new(vector, "test".to_string())
}

fn test_collection(name: &str, dimension: i32, threshold: usize) -> Collection {
    Collection::new(
        name,
        dimension,
        "l2",
        IndexConfig::new_with_default_config("flat").expect("flat parses"),
        WalManager::new(name),
        threshold,
    )
    .expect("collection builds")
}

#[test]
fn test_add_documents() {
    let test_dimension = 12345;
    let mut rng = Lcg(1);
    let test_document = random_document(&mut rng, test_dimension as usize);

    let mut collection = test_collection("abcde", test_dimension, 1000);
    collection.upsert(test_document).expect("upsert succeeds");
}

#[test]
fn test_fetch_documents() {
    let test_dimension = 12345;
    let mut rng = Lcg(2);
    let test_document = random_document(&mut rng, test_dimension as usize);
    let test_id = test_document.id;

    let mut collection = test_collection("abcde", test_dimension, 1000);
    collection.upsert(test_document).expect("upsert succeeds");

    assert!(collection.fetch(&test_id).is_some(), "Document not found");

    let missing_id = uuid::Uuid::new_v4().as_u128();
    assert!(collection.fetch(&missing_id).is_none(), "Document should not be found");
}

#[test]
fn test_create_collection() {
    let test_collection_name = "test_collection";
    let mut manager = CollectionManager::new();
    let collection = Collection::new(
        test_collection_name,
        128,
        "cosine",
        IndexConfig::default(),
        WalManager::new(test_collection_name),
        1000,
    )
    .expect("collection builds");
    manager.create_collection(collection);

    assert!(manager.get_collection(test_collection_name).is_some(), "Collection should exist");
    assert!(manager.get_collection("other").is_none());
}
