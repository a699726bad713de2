use simple_db_nn::embedding::{DummyEmbedding, Embedding, DEFAULT_DIMS};
use simple_db_nn::metric::Metric;
use simple_db_nn::store::{DBConfig, SimpleDBNN};
use simple_db_nn::StoreError;

fn fresh_db(seed: u64) -> SimpleDBNN<DummyEmbedding> {
    SimpleDBNN::new(
        DummyEmbedding,
        DEFAULT_DIMS,
        0,
        seed,
        Metric::SquaredEuclidean,
        &None,
    )
    .unwrap()
}

fn small_embedding(dims: usize) -> Embedding {
    Embedding::new(vec![0i64; dims]).unwrap()
}

#[test]
fn db_dummy_test() {
    let mut dummy_db = fresh_db(46);
    let content = "Hello, world!";
    dummy_db
        .put_db(content.as_bytes(), 0, small_embedding(10))
        .unwrap();
    let elems = dummy_db.get_db(0).unwrap().unwrap();
    let restored_content = String::from_utf8(elems.content.clone()).unwrap();
    println!("{:?}", restored_content);
    assert_eq!(content, restored_content);
}

#[test]
fn simple_db_nn_dummy_test() {
    let mut dummy_db = fresh_db(46);
    let content = "Hello, world!";
    dummy_db
        .put_db(content.as_bytes(), 0, small_embedding(10))
        .unwrap();
    let elems = dummy_db.get_db(0).unwrap().unwrap();
    let restored_content = String::from_utf8(elems.content.clone()).unwrap();
    println!("{:?}", restored_content);
    assert_eq!(content, restored_content);
}

#[test]
fn db_not_find_test() {
    let mut dummy_db = fresh_db(46);
    let content = "Hello, world!";
    dummy_db
        .put_db(content.as_bytes(), 0, small_embedding(10))
        .unwrap();
    let non_found = dummy_db.get_db(1).unwrap();
    assert!(non_found.is_none());
}

#[test]
fn simple_db_nn_not_find_test() {
    let mut dummy_db = fresh_db(46);
    let content = "Hello, world!";
    dummy_db
        .put_db(content.as_bytes(), 0, small_embedding(10))
        .unwrap();
    let non_found = dummy_db.get_db(1).unwrap();
    assert!(non_found.is_none());
}

#[test]
fn db_nn_dummy_test() {
    let mut dummy_db = fresh_db(46);
    dummy_db.put_nn("Hello, world!".as_bytes(), 0, 0).unwrap();
    dummy_db.put_nn("Hello, world2!".as_bytes(), 1, 0).unwrap();
    dummy_db.put_nn("Hello, world3!".as_bytes(), 2, 0).unwrap();
    dummy_db.put_nn("$$$$$$$$$$$".as_bytes(), 3, 0).unwrap();

    let results = dummy_db.get_nn("hello".as_bytes(), 0, 4).unwrap();
    println!("{:?}", results);
    assert_eq!(4, results.len());
    let worse_result = results.last().unwrap();
    assert_eq!(worse_result.0, 3);
    assert!(worse_result.1 > 1000);
}

#[test]
fn simple_db_nn_nn_dummy_test() {
    let mut dummy_db = fresh_db(46);
    dummy_db.put_nn("Hello, world!".as_bytes(), 0, 0).unwrap();
    dummy_db.put_nn("Hello, world2!".as_bytes(), 1, 0).unwrap();
    dummy_db.put_nn("Hello, world3!".as_bytes(), 2, 0).unwrap();
    dummy_db.put_nn("$$$$$$$$$$$".as_bytes(), 3, 0).unwrap();

    let results = dummy_db.get_nn("hello".as_bytes(), 0, 4).unwrap();
    println!("{:?}", results);
    assert_eq!(4, results.len());
    let worse_result = results.last().unwrap();
    assert_eq!(worse_result.0, 3);
    assert!(worse_result.1 > 1000);
}

#[test]
fn nn_batch_dummy_test() {
    let mut dummy_db = fresh_db(46);
    let batch: Vec<Vec<u8>> = vec![
        "Hello, world!".as_bytes().to_vec(),
        "Hello, world2!".as_bytes().to_vec(),
        "Hello, world3!".as_bytes().to_vec(),
        "$$$$$$$$$$$".as_bytes().to_vec(),
    ];
    dummy_db.put_batch(batch, 0).unwrap();

    let results = dummy_db.get_nn("hello".as_bytes(), 0, 4).unwrap();
    println!("{:?}", results);
    assert_eq!(4, results.len());
    let worse_result = results.last().unwrap();
    assert!(worse_result.1 > 1000);
}

#[test]
fn real_batch_dummy_test() {
    let mut dummy_db = fresh_db(46);
    let batch: Vec<Vec<u8>> = vec![
        "Hello, world!".as_bytes().to_vec(),
        "Hello, world2!".as_bytes().to_vec(),
        "Hello, world3!".as_bytes().to_vec(),
        "$$$$$$$$$$$".as_bytes().to_vec(),
    ];
    dummy_db.put_batch(batch, 0).unwrap();

    let results = dummy_db.get("hello".as_bytes(), 4).unwrap();
    println!("{:?}", results.len());
    assert_eq!(4, results.len());
    let worse_result = results.last().unwrap();
    assert_eq!(worse_result.0, 3);
    assert!(worse_result.1 > 1000);
}

// Round trip: the content and embedding stored by a put come back unchanged
// from a read of the issued id.
#[test]
fn put_get_round_trip() {
    let mut db = fresh_db(42);
    let embedding = db.put("some document".as_bytes()).unwrap();
    let entry = db.get_db(0).unwrap().unwrap();
    assert_eq!(entry.content, "some document".as_bytes().to_vec());
    assert_eq!(entry.embedding.as_coords(), embedding.as_coords());
    assert_eq!(embedding.len(), DEFAULT_DIMS);
    assert_eq!(db.get_current_id(), 1);
}

// Allocator monotonicity: puts and batches issue strictly increasing,
// gapless ids, and the counter survives a simulated restart through the
// rendered state file.
#[test]
fn allocator_monotonic_across_restart() {
    let mut db = fresh_db(7);
    db.put("a".as_bytes()).unwrap();
    db.put("b".as_bytes()).unwrap();
    db.put_batch(vec![b"c".to_vec(), b"d".to_vec(), b"e".to_vec()], 0)
        .unwrap();
    let snapshot = db.config_snapshot();
    assert_eq!(db.get_current_id(), 5);

    // Restart: a fresh store recovers the counter from the saved bytes.
    let mut db2: SimpleDBNN<DummyEmbedding> = SimpleDBNN::new(
        DummyEmbedding,
        DEFAULT_DIMS,
        0,
        7,
        Metric::SquaredEuclidean,
        &Some(snapshot),
    )
    .unwrap();
    db2.put("f".as_bytes()).unwrap();
    assert_eq!(db2.get_current_id(), 6);
}

// Index determinism: the same seed and the same insert sequence give
// identical ordered query results across fresh builds.
#[test]
fn index_determinism() {
    let mut results = Vec::new();
    for _ in 0..2 {
        let mut db = fresh_db(46);
        db.put_nn(b"one", 0, 0).unwrap();
        db.put_nn(b"$outlier", 1, 0).unwrap();
        db.put_nn(b"two", 2, 0).unwrap();
        results.push(db.get_nn(b"query", 0, 3).unwrap());
    }
    assert_eq!(results[0], results[1]);
}

// Batch equivalence: one batch leaves the same content and index state as
// the same sequence of single puts over the same id range.
#[test]
fn batch_equals_sequential_puts() {
    let contents: [&[u8]; 3] = [b"c1", b"c2", b"$c3"];

    let mut batch_db = fresh_db(9);
    batch_db
        .put_batch(contents.iter().map(|c| c.to_vec()).collect(), 0)
        .unwrap();

    let mut seq_db = fresh_db(9);
    for c in contents.iter() {
        seq_db.put(c).unwrap();
    }

    for id in 0..3u32 {
        let a = batch_db.get_db(id).unwrap().unwrap();
        let b = seq_db.get_db(id).unwrap().unwrap();
        assert_eq!(a.content, b.content);
        assert_eq!(a.embedding.as_coords(), b.embedding.as_coords());
    }
    let qa = batch_db.get_nn(b"near", 0, 3).unwrap();
    let qb = seq_db.get_nn(b"near", 0, 3).unwrap();
    assert_eq!(qa, qb);
    assert_eq!(batch_db.get_current_id(), seq_db.get_current_id());
}

#[test]
fn wrong_dimensionality_is_config_error() {
    // The oracle always emits the default length; a store configured for 10
    // coordinates must reject every put.
    let mut db: SimpleDBNN<DummyEmbedding> =
        SimpleDBNN::new(DummyEmbedding, 10, 0, 1, Metric::SquaredEuclidean, &None).unwrap();
    assert_eq!(db.put(b"x").unwrap_err(), StoreError::InvalidEmbedding);
    assert_eq!(
        db.put_batch(vec![b"x".to_vec()], 0).unwrap_err(),
        StoreError::InvalidEmbedding
    );
    assert_eq!(db.get(b"x", 1).unwrap_err(), StoreError::InvalidEmbedding);
}

#[test]
fn id_space_exhausted() {
    let mut db = fresh_db(3);
    db.update_id(u32::MAX);
    assert_eq!(db.put(b"x").unwrap_err(), StoreError::IdSpaceExhausted);
    assert_eq!(
        db.put_batch(vec![b"x".to_vec()], 0).unwrap_err(),
        StoreError::IdSpaceExhausted
    );
}

#[test]
fn consistency_violation_detected() {
    // An index-only write leaves an id the content store lacks: resolving a
    // query must fail the whole call, distinctly from "not found".
    let mut db = fresh_db(3);
    db.put_nn(b"ghost", 0, 0).unwrap();
    assert_eq!(
        db.get(b"anything", 1).unwrap_err(),
        StoreError::ConsistencyViolation
    );
}

#[test]
fn clear_empties_the_store() {
    let mut db = fresh_db(5);
    db.put(b"a").unwrap();
    db.put(b"$b").unwrap();
    db.clear().unwrap();
    assert!(db.get_db(0).unwrap().is_none());
    assert!(db.get_db(1).unwrap().is_none());
    assert_eq!(db.get_nn(b"a", 0, 4).unwrap().len(), 0);
    // The in-memory counter survives a clear; ids are not reused.
    assert_eq!(db.get_current_id(), 2);
}

#[test]
fn from_base_dir_layout() {
    let config: DBConfig<DummyEmbedding> = DBConfig::from_base_dir("base");
    assert_eq!(config.db_path, "base/db");
    assert_eq!(config.embedded_path, "base/embedded");
    assert_eq!(config.config_path, "base/config");
    assert_eq!(config.dimensions, DEFAULT_DIMS);
    assert_eq!(config.index, 0);
    assert_eq!(config.seed, 42);
}

#[test]
fn from_config_builds_store() {
    let config: DBConfig<DummyEmbedding> = DBConfig::from_base_dir("base");
    let mut db = SimpleDBNN::from_config(config, Metric::SquaredEuclidean, &None).unwrap();
    db.put(b"hello").unwrap();
    assert_eq!(db.get_current_id(), 1);
}

#[test]
fn manhattan_metric_orders_too() {
    let mut db: SimpleDBNN<DummyEmbedding> = SimpleDBNN::new(
        DummyEmbedding,
        DEFAULT_DIMS,
        0,
        46,
        Metric::Manhattan,
        &None,
    )
    .unwrap();
    db.put_nn(b"near", 0, 0).unwrap();
    db.put_nn(b"$far", 1, 0).unwrap();
    let results = db.get_nn(b"query", 0, 2).unwrap();
    assert_eq!(results.len(), 2);
    assert_eq!(results[0].0, 0);
    assert_eq!(results[1].0, 1);
    // 384 coordinates each off by 100.0 (100_000 thousandths).
    assert_eq!(results[1].1, 384 * 100_000);
}

#[test]
fn cosine_metric_orders_by_similarity() {
    let mut db: SimpleDBNN<DummyEmbedding> =
        SimpleDBNN::new(DummyEmbedding, DEFAULT_DIMS, 0, 46, Metric::Cosine, &None).unwrap();
    db.put_nn(b"$aligned", 0, 0).unwrap();
    db.put_nn(b"directionless", 1, 0).unwrap();
    let results = db.get_nn(b"$query", 0, 2).unwrap();
    // The aligned document sits at zero cosine distance; the zero-norm
    // document has no direction and ranks farthest.
    assert_eq!(results, vec![(0, 0), (1, 2000)]);
}
