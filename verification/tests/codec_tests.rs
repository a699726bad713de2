use simple_db_nn::config_state::{parse_state, AllocatorState};
use simple_db_nn::content_store::DBEntry;
use simple_db_nn::document::{DocumentEntry, UploadFileForm};
use simple_db_nn::embedding::Embedding;
use simple_db_nn::StoreError;

#[test]
fn state_file_exact_format() {
    let state = AllocatorState { next_id: 42 };
    let rendered = state.render();
    assert_eq!(rendered, b"{\n  \"next_id\": 42\n}".to_vec());
}

#[test]
fn state_file_round_trip() {
    for n in [0u32, 1, 9, 10, 99, 4096, 123_456_789, u32::MAX] {
        let state = AllocatorState { next_id: n };
        let rendered = state.render();
        assert_eq!(parse_state(&rendered), Some(n));
        let reloaded = AllocatorState::load(&Some(rendered));
        assert_eq!(reloaded.next_id, n);
    }
}

#[test]
fn state_file_rejects_noise() {
    assert_eq!(parse_state(b""), None);
    assert_eq!(parse_state(b"{\n  \"next_id\": \n}"), None);
    assert_eq!(parse_state(b"{\n  \"next_id\": 007\n}"), None);
    assert_eq!(parse_state(b"{\n  \"next_id\": 4294967296\n}"), None);
    assert_eq!(parse_state(b"{\n  \"next_id\": 12x\n}"), None);
    assert_eq!(parse_state(b"(\n  \"next_id\": 12\n}"), None);
    // The largest counter still parses.
    assert_eq!(parse_state(b"{\n  \"next_id\": 4294967295\n}"), Some(u32::MAX));
}

#[test]
fn missing_state_file_starts_at_zero() {
    let state = AllocatorState::load(&None);
    assert_eq!(state.next_id, 0);
    let garbled = AllocatorState::load(&Some(b"not a state file".to_vec()));
    assert_eq!(garbled.next_id, 0);
    assert_eq!(state.allocate_next(), 0);
}

#[test]
fn record_bytes_round_trip() {
    let embedding = Embedding::new(vec![-1_000_000, -1, 0, 1, 999_999]).unwrap();
    let entry = DBEntry::new(b"some stored text".to_vec(), embedding);
    let bytes = entry.encode();
    let back = DBEntry::decode(&bytes).unwrap();
    assert_eq!(back.content, entry.content);
    assert_eq!(back.embedding.as_coords(), entry.embedding.as_coords());
}

#[test]
fn record_decode_rejects_damage() {
    let embedding = Embedding::new(vec![5, -5]).unwrap();
    let entry = DBEntry::new(b"abc".to_vec(), embedding);
    let bytes = entry.encode();
    // Truncated framing.
    assert!(DBEntry::decode(&bytes[..bytes.len() - 1]).is_none());
    assert!(DBEntry::decode(b"").is_none());
    // A coordinate pushed out of range.
    let mut damaged = bytes.clone();
    let last_coord = bytes.len() - 8;
    for b in damaged[last_coord..].iter_mut() {
        *b = 0xff;
    }
    assert!(DBEntry::decode(&damaged).is_none());
}

#[test]
fn out_of_range_embedding_rejected() {
    assert_eq!(
        Embedding::new(vec![2_000_000]).unwrap_err(),
        StoreError::InvalidEmbedding
    );
    assert_eq!(
        Embedding::new(vec![0; 5000]).unwrap_err(),
        StoreError::InvalidEmbedding
    );
}

#[test]
fn document_entry_fields() {
    let doc = DocumentEntry::new("example", "encoding");
    assert_eq!(doc.name, "example");
    assert_eq!(doc.content, "encoding");
}

#[test]
fn upload_form_query_text() {
    let form = UploadFileForm {
        name: Some("title".to_string()),
        content: Some("body".to_string()),
    };
    assert_eq!(form.query_text().unwrap(), "title\nbody");

    let unnamed = UploadFileForm {
        name: None,
        content: Some("body".to_string()),
    };
    assert_eq!(unnamed.query_text().unwrap(), "\nbody");

    let empty = UploadFileForm {
        name: Some("title".to_string()),
        content: Some(String::new()),
    };
    assert!(empty.query_text().is_none());
    let missing = UploadFileForm {
        name: None,
        content: None,
    };
    assert!(missing.query_text().is_none());
}
