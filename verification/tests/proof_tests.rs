use simple_db_nn::embedding::{DummyEmbedding, Embedding, DEFAULT_DIMS};
use simple_db_nn::metric::Metric;
use simple_db_nn::receipt::{
    execute_and_serialize_receipt, guest_program_id, new_key, prove, verify_receipt, ProgramId,
};
use simple_db_nn::simcheck::{isqrt, similarity_check};
use simple_db_nn::store::SimpleDBNN;
use simple_db_nn::{ProveError, VerifyError};

fn emb(coords: Vec<i64>) -> Embedding {
    Embedding::new(coords).unwrap()
}

// Proof soundness, functional half: identical embeddings are similar above
// the threshold with similarity exactly 1.0; orthogonal embeddings are not,
// with similarity exactly 0.0.
#[test]
fn similarity_identical_and_orthogonal() {
    let a = emb(vec![3000, 4000, 0]);
    let b = emb(vec![3000, 4000, 0]);
    assert_eq!(similarity_check(&a, &b).unwrap(), (true, 1000));

    let x = emb(vec![1000, 0]);
    let y = emb(vec![0, 1000]);
    assert_eq!(similarity_check(&x, &y).unwrap(), (false, 0));
}

#[test]
fn similarity_exact_fraction() {
    // cos((1,0), (1,1)) = 1/sqrt(2): 707 thousandths, below the 0.8
    // threshold.
    let a = emb(vec![1000, 0]);
    let b = emb(vec![1000, 1000]);
    assert_eq!(similarity_check(&a, &b).unwrap(), (false, 707));
}

#[test]
fn similarity_zero_norm_is_declared_error() {
    let z = emb(vec![0, 0]);
    let a = emb(vec![1000, 0]);
    assert_eq!(similarity_check(&z, &a).unwrap_err(), ProveError::ZeroNorm);
    assert_eq!(similarity_check(&a, &z).unwrap_err(), ProveError::ZeroNorm);
}

#[test]
fn similarity_dimension_mismatch() {
    let a = emb(vec![1000, 0]);
    let b = emb(vec![1000, 0, 0]);
    assert_eq!(
        similarity_check(&a, &b).unwrap_err(),
        ProveError::DimensionMismatch
    );
}

// Prove then verify recovers exactly the committed journal.
#[test]
fn prove_verify_round_trip() {
    let pid = guest_program_id();
    let a = emb(vec![500, 500, 0]);
    let receipt = prove(&pid, &a, &a).unwrap();
    assert_eq!(verify_receipt(&receipt, &pid).unwrap(), (true, 1000));

    let x = emb(vec![1000, 0]);
    let y = emb(vec![0, 1000]);
    let receipt2 = prove(&pid, &x, &y).unwrap();
    assert_eq!(verify_receipt(&receipt2, &pid).unwrap(), (false, 0));
}

// Program-id binding: a receipt never verifies against a different identity,
// however valid it is otherwise.
#[test]
fn wrong_program_id_always_fails() {
    let pid = guest_program_id();
    let a = emb(vec![500, 500]);
    let receipt = prove(&pid, &a, &a).unwrap();
    let wrong = ProgramId::from_words([1, 2, 3, 4, 5, 6, 7, 8]);
    assert!(!pid.matches(&wrong));
    assert_eq!(
        verify_receipt(&receipt, &wrong).unwrap_err(),
        VerifyError::ProgramIdMismatch
    );
}

#[test]
fn flipped_or_truncated_receipt_rejected() {
    let pid = guest_program_id();
    let a = emb(vec![500, 500]);
    let receipt = prove(&pid, &a, &a).unwrap();

    // Truncation: no longer a receipt at all.
    let truncated = &receipt[..receipt.len() - 1];
    assert_eq!(
        verify_receipt(truncated, &pid).unwrap_err(),
        VerifyError::MalformedReceipt
    );

    // A flipped journal byte breaks the commitment.
    let mut flipped = receipt.clone();
    let journal_pos = 4 + 32; // behind the tag and the identity words
    flipped[journal_pos] ^= 1;
    assert_eq!(
        verify_receipt(&flipped, &pid).unwrap_err(),
        VerifyError::InvalidProof
    );

    // A flipped identity byte binds the receipt to some other program.
    let mut other_pid = receipt.clone();
    other_pid[4] ^= 1;
    assert_eq!(
        verify_receipt(&other_pid, &pid).unwrap_err(),
        VerifyError::ProgramIdMismatch
    );

    // Garbage of the right length still lacks the tag.
    let garbage = vec![7u8; receipt.len()];
    assert_eq!(
        verify_receipt(&garbage, &pid).unwrap_err(),
        VerifyError::MalformedReceipt
    );
}

#[test]
fn prove_rejects_undefined_similarity() {
    let pid = guest_program_id();
    let z = emb(vec![0, 0]);
    let a = emb(vec![1000, 0]);
    assert_eq!(prove(&pid, &z, &a).unwrap_err(), ProveError::ZeroNorm);
    let c = emb(vec![1000, 0, 0]);
    assert_eq!(
        prove(&pid, &a, &c).unwrap_err(),
        ProveError::DimensionMismatch
    );
}

// Search attaches receipts that verify against the program identity they
// were produced under.
#[test]
fn search_attaches_verifiable_receipts() {
    let pid = guest_program_id();
    let mut db: SimpleDBNN<DummyEmbedding> = SimpleDBNN::new(
        DummyEmbedding,
        DEFAULT_DIMS,
        0,
        46,
        Metric::SquaredEuclidean,
        &None,
    )
    .unwrap();
    db.put(b"$doc-far").unwrap();
    db.put(b"doc-near").unwrap();

    // A '$' query embeds to the outlier vector: nonzero norm, so the first
    // result (the identical outlier document) carries a verifiable receipt.
    let results = db.search(b"$query", 2, &pid).unwrap();
    assert_eq!(results.len(), 2);
    assert_eq!(results[0].id, 0);
    let verdict = verify_receipt(&results[0].receipt, &pid).unwrap();
    assert_eq!(verdict, (true, 1000));

    // The zero-vector document has no defined cosine similarity: its receipt
    // is empty, and an empty blob never verifies.
    assert_eq!(results[1].id, 1);
    assert!(results[1].receipt.is_empty());
    assert_eq!(
        verify_receipt(&results[1].receipt, &pid).unwrap_err(),
        VerifyError::MalformedReceipt
    );
}

#[test]
fn serialized_receipt_uses_builtin_identity() {
    let a = emb(vec![250, -250, 0]);
    let receipt = execute_and_serialize_receipt(&a, &a).unwrap();
    assert_eq!(
        verify_receipt(&receipt, &guest_program_id()).unwrap(),
        (true, 1000)
    );
    let z = emb(vec![0, 0, 0]);
    assert_eq!(
        execute_and_serialize_receipt(&a, &z).unwrap_err(),
        ProveError::ZeroNorm
    );
}

#[test]
fn new_key_is_content_digest() {
    let key = new_key("Hello, world!");
    assert_eq!(key.len(), 32);
    assert_eq!(&key, blake3::hash("Hello, world!".as_bytes()).as_bytes());
    assert_ne!(key, new_key("hello, world!"));
}

#[test]
fn isqrt_exact_bounds() {
    assert_eq!(isqrt(0), 0);
    assert_eq!(isqrt(1), 1);
    assert_eq!(isqrt(2), 1);
    assert_eq!(isqrt(4), 2);
    assert_eq!(isqrt(99), 9);
    assert_eq!(isqrt(100), 10);
    assert_eq!(isqrt(u64::MAX as u128 * u64::MAX as u128), u64::MAX);
    assert_eq!(isqrt(u64::MAX as u128 * u64::MAX as u128 - 1), u64::MAX - 1);
}
