use flux::codec;
use flux::errors::ServerError;

#[test]
fn round_trip_bytes() {
    let cases: Vec<Vec<u8>> = vec![
        Vec::new(),
        b"hello world".to_vec(),
        vec![0u8; 4096],
        (0u8..=255).collect(),
    ];
    for raw in cases {
        let compressed = codec::encode(&raw).unwrap();
        let back = codec::decode(&compressed).unwrap();
        assert_eq!(back, raw);
    }
}

#[test]
fn encode_really_compresses() {
    let raw = vec![7u8; 100_000];
    let compressed = codec::encode(&raw).unwrap();
    assert_ne!(compressed, raw);
    assert!(compressed.len() < raw.len());
}

#[test]
fn decode_rejects_garbage() {
    let garbage = b"this is not a compressed frame".to_vec();
    let r = codec::decode(&garbage);
    assert!(matches!(r, Err(ServerError::Compression(_))));
}

#[test]
fn encode_is_deterministic() {
    let raw = b"same input, same frame".to_vec();
    let a = codec::encode(&raw).unwrap();
    let b = codec::encode(&raw).unwrap();
    assert_eq!(a, b);
}
