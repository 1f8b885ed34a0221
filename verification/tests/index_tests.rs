use rla::Index;
use rla::index::IndexLoadError;

#[test]
fn contains_after_learn() {
    let mut idx = Index::new();
    assert!(!idx.contains(b"building..."));
    idx.learn(b"building...".to_vec());
    assert!(idx.contains(b"building..."));
    assert!(!idx.contains(b"panic"));
}

#[test]
fn learn_deduplicates() {
    let mut idx = Index::new();
    idx.learn(b"ok".to_vec());
    idx.learn(b"ok".to_vec());
    let bytes = idx.encode();
    // one version word, one count word, one item of two bytes
    assert_eq!(bytes.len(), 8 + 8 + 8 + 2);
}

#[test]
fn roundtrip_preserves_contains() {
    let mut idx = Index::new();
    let corpus: [&[u8]; 3] = [b"building...", b"ok", b"warning: unused var"];
    for line in corpus.iter() {
        idx.learn(line.to_vec());
    }
    let bytes = idx.encode();
    let back = Index::decode(&bytes).expect("roundtrip should decode");
    for line in corpus.iter() {
        assert!(back.contains(line));
    }
    assert!(!back.contains(b"panic: index out of bounds"));
    assert!(!back.contains(b""));
}

#[test]
fn roundtrip_of_empty_index() {
    let idx = Index::new();
    let bytes = idx.encode();
    assert_eq!(bytes.len(), 16);
    let back = Index::decode(&bytes).expect("empty container should decode");
    assert!(!back.contains(b"anything"));
}

#[test]
fn decode_of_short_input_is_corrupt() {
    assert_eq!(Index::decode(b"").err().unwrap(), IndexLoadError::Corrupt);
    assert_eq!(Index::decode(&[1, 0, 0]).err().unwrap(), IndexLoadError::Corrupt);
}

#[test]
fn decode_of_unknown_version_is_format_mismatch() {
    let mut bytes = Index::new().encode();
    bytes[0] = 2;
    assert_eq!(Index::decode(&bytes).err().unwrap(), IndexLoadError::FormatMismatch);
}

#[test]
fn decode_of_header_without_count_is_corrupt() {
    let bytes = [1u8, 0, 0, 0, 0, 0, 0, 0];
    assert_eq!(Index::decode(&bytes).err().unwrap(), IndexLoadError::Corrupt);
}

#[test]
fn decode_of_truncated_payload_is_corrupt() {
    let mut idx = Index::new();
    idx.learn(b"ok".to_vec());
    let mut bytes = idx.encode();
    bytes.pop();
    assert_eq!(Index::decode(&bytes).err().unwrap(), IndexLoadError::Corrupt);
}

#[test]
fn decode_of_trailing_garbage_is_corrupt() {
    let mut bytes = Index::new().encode();
    bytes.push(0);
    assert_eq!(Index::decode(&bytes).err().unwrap(), IndexLoadError::Corrupt);
}

#[test]
fn decode_of_overrunning_item_length_is_corrupt() {
    let mut idx = Index::new();
    idx.learn(b"ok".to_vec());
    let mut bytes = idx.encode();
    // inflate the stored length of the one item far past the payload
    bytes[16] = 0xff;
    assert_eq!(Index::decode(&bytes).err().unwrap(), IndexLoadError::Corrupt);
}
