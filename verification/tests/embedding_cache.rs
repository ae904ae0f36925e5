use trufflepig::digest;
use trufflepig::semantic::embedding::Embedding;
use trufflepig::semantic::embedding_cache::cache_format::{
    content_key, encode, manifest_digest, CacheStatus, Provenance, NORMALIZATION,
};
use trufflepig::semantic::embedding_cache::table::{
    has_current_schema, limit_pages, max_entries, schema_action, CacheEntry, CacheRow,
    EmbeddingCache, Opening, SchemaAction, MAX_BATCH_ENTRIES, MIN_LIMIT, PAGE_SIZE, SCHEMA_VERSION,
};
use trufflepig::semantic::pins::{ModelPins, DIMENSIONS};
use trufflepig::semantic::session::{is_cache_lock, DatabaseFault, Lookup, SemanticSession};
use trufflepig::text::Failure;

const MANIFEST: &[u8] = b"{\"model\":\"pinned\"}";

/// The size that a cache has when nothing else is asked for.
const CACHE_BYTES: u64 = 512 * 1024 * 1024;

fn pins() -> ModelPins {
    ModelPins {
        model_name: "model".into(),
        model_revision: "revision".into(),
        input_version: "input-v1".into(),
        reranker_name: "reranker".into(),
        reranker_revision: "rerank-revision".into(),
        build: "build".into(),
    }
}

fn vector(axis: usize) -> Embedding {
    let mut values = vec![0.0f32.to_bits(); DIMENSIONS];
    values[axis] = 1.0f32.to_bits();
    Embedding(values)
}

fn with_limit(limit: u64) -> EmbeddingCache {
    EmbeddingCache::new(max_entries(limit_pages(limit).unwrap()), MANIFEST)
}

fn get(cache: &EmbeddingCache, key: &str) -> Option<Embedding> {
    cache.get(&pins(), key, &mut CacheStatus::new())
}

#[test]
fn semantic_cache_survives_restart_and_evicts() {
    let first = vector(0);
    let mut cache = with_limit(MIN_LIMIT);
    cache.put(&pins(), "first", Ok(first.clone())).unwrap();
    assert!(get(&cache, "first").is_some());
    cache.put(&pins(), "second", Ok(first.clone())).unwrap();
    assert!(get(&cache, "first").is_none());
    assert!(get(&cache, "second").is_some());
    assert_eq!(cache.rows.len(), 1);
    let (key, row) = cache.rows.at(0);
    assert_eq!(key, "second");
    assert_eq!(row.provenance.model_revision.as_deref(), Some("revision"));
    assert_eq!(row.provenance.input_version.as_deref(), Some("input-v1"));
    assert_eq!(row.provenance.dimensions, Some(DIMENSIONS as i64));
    assert_eq!(row.provenance.normalization.as_deref(), Some(NORMALIZATION));
    let digest = manifest_digest(MANIFEST);
    assert_eq!(row.provenance.manifest_digest.as_deref(), Some(digest.as_str()));
}

fn overwrite(cache: &mut EmbeddingCache, key: &str, bytes: Vec<u8>) {
    let touched = cache.rows.get(key).unwrap().touched;
    let provenance = Provenance::of_build(&pins(), &manifest_digest(MANIFEST));
    // None of the vectors that are written here has length one.
    cache.rows.set(key.into(), CacheRow { bytes, unit: false, touched, provenance });
}

#[test]
fn semantic_cache_rejects_raw_corruption_and_provenance_mismatch() {
    let mut cache = with_limit(MIN_LIMIT * 2);
    let mut status = CacheStatus::new();
    let key = "corrupt";
    cache.put(&pins(), key, Ok(vector(0))).unwrap();
    overwrite(&mut cache, key, vec![0_u8; DIMENSIONS * 4]);
    assert!(cache.get(&pins(), key, &mut status).is_none());
    assert_eq!(status.corrupt_misses, 1);
    cache.put(&pins(), key, Ok(vector(0))).unwrap();
    let mut wrong_norm = vec![0_u8; DIMENSIONS * 4];
    wrong_norm[..4].copy_from_slice(&2.0_f32.to_le_bytes());
    overwrite(&mut cache, key, wrong_norm);
    assert!(cache.get(&pins(), key, &mut status).is_none());
    assert_eq!(status.corrupt_misses, 2);
    cache.put(&pins(), key, Ok(vector(0))).unwrap();
    let mut nonfinite = vec![0_u8; DIMENSIONS * 4];
    nonfinite[..4].copy_from_slice(&f32::NAN.to_le_bytes());
    overwrite(&mut cache, key, nonfinite);
    assert!(cache.get(&pins(), key, &mut status).is_none());
    assert_eq!(status.corrupt_misses, 3);
    cache.put(&pins(), key, Ok(vector(0))).unwrap();
    let mut provenance = Provenance::of_build(&pins(), &manifest_digest(MANIFEST));
    provenance.input_version = Some("old".into());
    let touched = cache.rows.get(key).unwrap().touched;
    let bytes = encode(&vector(0));
    cache.rows.set(key.into(), CacheRow { bytes, unit: true, touched, provenance });
    assert!(cache.get(&pins(), key, &mut status).is_none());
    assert_eq!(status.provenance_misses, 1);
}

#[test]
fn truncated_vectors_are_corrupt() {
    let mut cache = with_limit(MIN_LIMIT * 2);
    let mut status = CacheStatus::new();
    cache.put(&pins(), "short", Ok(vector(0))).unwrap();
    let provenance = Provenance::of_build(&pins(), &manifest_digest(MANIFEST));
    let row = CacheRow { bytes: vec![0; 8], unit: true, touched: 1, provenance };
    cache.rows.set("short".into(), row);
    assert!(cache.get(&pins(), "short", &mut status).is_none());
    assert_eq!((status.corrupt_misses, status.provenance_misses), (1, 0));
}

fn write(key: &str, vector: &Embedding) -> CacheEntry {
    CacheEntry { key: key.into(), vector: Ok(vector.clone()) }
}

#[test]
fn semantic_cache_batches_reads_and_writes_in_one_snapshot() {
    let mut cache = with_limit(MIN_LIMIT * 32);
    let first = vector(0);
    let second = vector(1);
    let writes = vec![write("a", &first), write("b", &second), write("a", &second)];
    cache.put_many(&pins(), writes).unwrap();
    let keys: Vec<String> = ["a", "b", "missing", "a"].map(String::from).to_vec();
    let values = cache.get_many(&pins(), &keys, &mut CacheStatus::new()).unwrap();
    assert_eq!(values.len(), 4);
    assert_eq!(values[0].as_ref().unwrap().0, second.0);
    assert_eq!(values[1].as_ref().unwrap().0, second.0);
    assert!(values[2].is_none());
    assert_eq!(values[3].as_ref().unwrap().0, second.0);
}

#[test]
fn batches_have_a_limit() {
    let mut cache = with_limit(MIN_LIMIT * 32);
    let keys = vec!["key".to_string(); MAX_BATCH_ENTRIES + 1];
    assert!(cache.get_many(&pins(), &keys, &mut CacheStatus::new()).is_err());
    let one = vector(0);
    let writes = (0..MAX_BATCH_ENTRIES + 1).map(|_| write("key", &one)).collect();
    assert!(cache.put_many(&pins(), writes).is_err());
    assert_eq!(cache.rows.len(), 0);
}

#[test]
fn vectors_without_a_direction_are_not_written() {
    let mut cache = with_limit(MIN_LIMIT * 32);
    let no_direction = || Failure::new("invalid_embedding: vector has no direction");
    let refused = cache.put(&pins(), "zeros", Err(no_direction())).unwrap_err();
    assert_eq!(refused.message, "invalid_embedding: vector has no direction");
    let entries = vec![
        write("a", &vector(0)),
        CacheEntry { key: "b".into(), vector: Err(no_direction()) },
        CacheEntry { key: "c".into(), vector: Err(Failure::new("later")) },
    ];
    let refused = cache.put_many(&pins(), entries).unwrap_err();
    assert_eq!(refused.message, "invalid_embedding: vector has no direction");
    assert_eq!((cache.rows.len(), cache.tick), (0, 0));
    cache.put_many(&pins(), Vec::new()).unwrap();
    assert_eq!(cache.tick, 0);
}

#[test]
fn batches_with_a_late_failure_are_too_large_first() {
    let mut cache = with_limit(MIN_LIMIT * 32);
    let one = vector(0);
    let mut entries: Vec<CacheEntry> =
        (0..MAX_BATCH_ENTRIES).map(|_| write("key", &one)).collect();
    entries.push(CacheEntry { key: "late".into(), vector: Err(Failure::new("late")) });
    let refused = cache.put_many(&pins(), entries).unwrap_err();
    assert_eq!(refused.message, "embedding cache batch exceeds 4096 entries");
    assert_eq!(cache.rows.len(), 0);
}

fn row(touched: i64) -> CacheRow {
    let provenance = Provenance::of_build(&pins(), &manifest_digest(MANIFEST));
    CacheRow { bytes: encode(&vector(0)), unit: true, touched, provenance }
}

#[test]
fn caches_with_too_many_rows_are_trimmed() {
    let mut cache = EmbeddingCache::new(3, MANIFEST);
    for (key, touched) in [("e", 5), ("b", 2), ("d", 2), ("c", 2), ("a", 1)] {
        cache.rows.set(key.into(), row(touched));
    }
    cache.tick = 5;
    cache.put(&pins(), "new", Ok(vector(1))).unwrap();
    let kept: Vec<bool> =
        ["a", "b", "c", "d", "e", "new"].map(|key| get(&cache, key).is_some()).to_vec();
    // The oldest go first; of those as old, the ones whose keys come first.
    assert_eq!(kept, [false, false, false, true, true, true]);
    assert_eq!(cache.rows.get("new").unwrap().touched, 6);
}

#[test]
fn rows_stay_while_there_is_room() {
    let mut cache = EmbeddingCache::new(3, MANIFEST);
    cache.put_many(&pins(), vec![write("a", &vector(0)), write("b", &vector(1))]).unwrap();
    cache.put_many(&pins(), vec![write("b", &vector(2)), write("c", &vector(3))]).unwrap();
    assert_eq!(get(&cache, "a").unwrap(), vector(0));
    assert_eq!(get(&cache, "b").unwrap(), vector(2));
    assert_eq!(get(&cache, "c").unwrap(), vector(3));
    cache.put(&pins(), "d", Ok(vector(4))).unwrap();
    assert!(get(&cache, "a").is_none());
    assert_eq!(cache.rows.len(), 3);
}

#[test]
fn semantic_cache_get_does_not_write_recency() {
    let mut cache = with_limit(MIN_LIMIT * 32);
    cache.put(&pins(), "stable", Ok(vector(0))).unwrap();
    let before = cache.tick;
    assert!(get(&cache, "stable").is_some());
    let after = cache.tick;
    assert_eq!(before, after);
}

#[test]
fn query_cache_writer_initializes_an_empty_cache() {
    let action = schema_action(Opening::QueryWriter, 0, false, true).unwrap();
    assert!(matches!(action, SchemaAction::Create));
    let vector = vector(0);
    let mut cache = with_limit(CACHE_BYTES);
    cache.put(&pins(), "first", Ok(vector)).unwrap();
    let action = schema_action(Opening::Query, SCHEMA_VERSION, true, false).unwrap();
    assert!(matches!(action, SchemaAction::Keep));
    assert!(get(&cache, "first").is_some());
    assert_eq!(limit_pages(CACHE_BYTES).unwrap(), (CACHE_BYTES / PAGE_SIZE) as i64);
    assert!(cache.max_entries < CACHE_BYTES / PAGE_SIZE);
}

#[test]
fn other_schemas_are_reset_by_their_owner_alone() {
    assert!(matches!(schema_action(Opening::Owner, 1, true, false).unwrap(), SchemaAction::Reset));
    assert!(schema_action(Opening::Query, 1, true, false).is_err());
    assert!(schema_action(Opening::QueryWriter, 1, true, false).is_err());
    assert!(!has_current_schema(&Vec::new(), &Vec::new()));
    assert!(limit_pages(MIN_LIMIT - 1).is_err());
    assert_eq!(limit_pages(MIN_LIMIT).unwrap(), 16);
    assert_eq!(max_entries(16), 1);
}

#[test]
fn content_key_binds_provenance_and_content() {
    let key = |text: &str| content_key(&pins(), MANIFEST, text);
    assert_eq!(key("same"), key("same"));
    assert_ne!(key("same"), key("changed"));
    assert_ne!(key("same").len(), 0);
    let revised = ModelPins { model_revision: "other".into(), ..pins() };
    assert_ne!(content_key(&revised, MANIFEST, "same"), key("same"));
    assert_ne!(content_key(&pins(), b"{}", "same"), key("same"));
}

#[test]
fn vectors_are_stored_in_little_endian_words() {
    let bytes = encode(&vector(1));
    assert_eq!(bytes.len(), DIMENSIONS * 4);
    assert_eq!(&bytes[..8], &[0, 0, 0, 0, 0, 0, 128, 63]);
}

#[test]
fn digests_are_those_of_their_algorithms() {
    assert_eq!(
        digest::blake3_hex(b""),
        "af1349b9f5f9a1a6a0404dea36dcc9499bcb25c9adc112b7cc9a93cae41f3262"
    );
    assert_eq!(
        digest::sha256_hex(b""),
        "e3b0c44298fc1c149afbf4c8996fb92427ae41e4649b934ca495991b7852b855"
    );
    assert_eq!(manifest_digest(b""), digest::sha256_hex(b""));
    assert_eq!(digest::hex_text(&[0, 171]), "00ab");
}

// Sessions.

fn no_lookup() -> Lookup {
    panic!("the cache is not looked at")
}

fn no_worker() -> Result<Embedding, Failure> {
    panic!("the worker is not asked")
}

#[test]
fn semantic_disabled_does_not_create_cache() {
    let mut session = SemanticSession::new();
    assert!(session.prepare(false, no_lookup, no_worker, |_| {}).unwrap().is_none());
}

#[test]
fn semantic_no_daemon_reads_cached_query_without_model() {
    let mut cache = with_limit(MIN_LIMIT);
    let key = content_key(&pins(), MANIFEST, "cached");
    cache.put(&pins(), &key, Ok(vector(0))).unwrap();
    let look = |text: &str| match get(&cache, &content_key(&pins(), MANIFEST, text)) {
        Some(vector) => Lookup::Found(vector),
        None => Lookup::Missing,
    };
    let mut session = SemanticSession::new();
    session.set_no_daemon(true);
    let found = session.prepare(true, || look("cached"), no_worker, |_| {}).unwrap().unwrap();
    assert_eq!(f32::from_bits(found.0[0]), 1.0);
    assert!(session
        .prepare(true, || look("missing"), no_worker, |_| {})
        .unwrap_err()
        .message
        .contains("semantic_pending"));
    assert!(!session.is_loaded());
    assert_eq!(session.initializations(), 0);
}

#[test]
fn sessions_ask_the_worker_and_keep_what_it_says() {
    let mut session = SemanticSession::new();
    let kept = std::cell::RefCell::new(None);
    let keep = |vector: &Embedding| *kept.borrow_mut() = Some(vector.0.clone());
    let found = session.prepare(true, || Lookup::Missing, || Ok(vector(2)), keep).unwrap();
    assert_eq!(found.unwrap(), vector(2));
    assert_eq!(kept.borrow().as_ref().unwrap(), &vector(2).0);
    let locked = || Lookup::Failed(vec![DatabaseFault::Other, DatabaseFault::Busy]);
    assert_eq!(session.prepare(true, locked, || Ok(vector(3)), |_| {}).unwrap().unwrap(), vector(3));
    let refused = session.prepare(true, || Lookup::Missing, || Err(Failure::new("no")), |_| {});
    assert!(refused.is_err());
    assert!(is_cache_lock(&[DatabaseFault::Locked]));
    assert!(!is_cache_lock(&[DatabaseFault::Other]));
}
