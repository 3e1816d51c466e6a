use stilts::{ArithmeticCompressor, CodecError};

fn owned(v: &[&str]) -> Vec<String> {
    v.iter().map(|s| s.to_string()).collect()
}

#[test]
fn test_arithmetic_basic() {
    let tags = vec!["tag1".to_string(), "tag2".to_string(), "tag1".to_string()];
    let mut compressor = ArithmeticCompressor::new();
    compressor.build_from_corpus(&tags).unwrap();
    let compressed = compressor.compress(&tags).unwrap();
    assert!(!compressed.is_empty());
}

#[test]
fn arithmetic_payload_layout() {
    let tags = owned(&["tag1", "tag2", "tag1"]);
    let mut c = ArithmeticCompressor::new();
    c.build_from_corpus(&tags).unwrap();
    let payload = c.compress(&tags).unwrap();
    // tag1 owns [0, 2/3), tag2 [2/3, 1): the interval narrows to
    // [1908874353, 2545165804), whose midpoint is 2227020078
    let mut expected: Vec<u8> = vec![3, 0, 0, 0, 46, 161, 189, 132, 28, 0, 0, 0, 2, 0, 0, 0];
    expected.extend_from_slice(&[4, 0, 0, 0]);
    expected.extend_from_slice(b"tag1");
    expected.extend_from_slice(&[2, 0, 0, 0, 4, 0, 0, 0]);
    expected.extend_from_slice(b"tag2");
    expected.extend_from_slice(&[1, 0, 0, 0]);
    assert_eq!(payload, expected);
    assert_eq!(c.decompress(&payload).unwrap(), tags);
}

#[test]
fn arithmetic_short_sequences_read_back() {
    let corpus = owned(&["a", "b", "a", "c", "a", "d", "b"]);
    let mut c = ArithmeticCompressor::new();
    c.build_from_corpus(&corpus).unwrap();
    let input = owned(&["d", "a", "c", "b", "a"]);
    let payload = c.compress(&input).unwrap();
    assert_eq!(ArithmeticCompressor::new().decompress(&payload).unwrap(), input);
}

#[test]
fn arithmetic_empty_sequence() {
    let mut c = ArithmeticCompressor::new();
    c.build_from_corpus(&owned(&["a"])).unwrap();
    let payload = c.compress(&[]).unwrap();
    assert_eq!(&payload[..8], &[0, 0, 0, 0, 0, 0, 0, 128]);
    assert_eq!(c.decompress(&payload).unwrap(), Vec::<String>::new());
}

#[test]
fn arithmetic_unknown_token_fails() {
    let mut c = ArithmeticCompressor::new();
    c.build_from_corpus(&owned(&["a", "b"])).unwrap();
    assert_eq!(c.compress(&owned(&["a", "c"])), Err(CodecError::UnknownToken));
}

#[test]
fn arithmetic_empty_corpus_fails() {
    let mut c = ArithmeticCompressor::new();
    assert_eq!(c.build_from_corpus(&[]), Err(CodecError::ModelConstruction));
    assert_eq!(c.compress(&[]), Err(CodecError::ModelConstruction));
}

#[test]
fn arithmetic_truncated_payload_fails() {
    let corpus = owned(&["x", "y", "x"]);
    let mut c = ArithmeticCompressor::new();
    c.build_from_corpus(&corpus).unwrap();
    let payload = c.compress(&corpus).unwrap();
    for cut in 0..payload.len() {
        assert_eq!(c.decompress(&payload[..cut]), Err(CodecError::MalformedPayload), "cut {}", cut);
    }
}

#[test]
fn arithmetic_compress_is_deterministic() {
    let corpus = owned(&["x", "y", "x", "z"]);
    let mut c = ArithmeticCompressor::new();
    c.build_from_corpus(&corpus).unwrap();
    assert_eq!(c.compress(&corpus).unwrap(), c.compress(&corpus).unwrap());
}

#[test]
fn arithmetic_lazy_model_from_tokens() {
    let c = ArithmeticCompressor::new();
    let input = owned(&["p", "q", "p"]);
    let payload = c.compress(&input).unwrap();
    assert_eq!(c.decompress(&payload).unwrap(), input);
}

#[test]
fn arithmetic_refuses_intervals_too_narrow() {
    let mut c = ArithmeticCompressor::new();
    c.build_from_corpus(&owned(&["a", "b"])).unwrap();
    // each `a` halves the interval; after 32 of them it is one unit wide,
    // narrower than the two counts, so a 33rd cannot be told from `b`
    let long: Vec<String> = vec!["a".to_string(); 33];
    let payload = c.compress(&long).unwrap();
    assert_eq!(c.decompress(&payload), Err(CodecError::MalformedPayload));
    let short: Vec<String> = vec!["a".to_string(); 31];
    let payload = c.compress(&short).unwrap();
    assert_eq!(c.decompress(&payload).unwrap(), short);
}
