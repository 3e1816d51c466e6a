use stilts::dictionary::write_varcode;
use stilts::{ArithmeticCompressor, Codec, CodecError, DictionaryCompressor, HuffmanCompressor};

fn owned(v: &[&str]) -> Vec<String> {
    v.iter().map(|s| s.to_string()).collect()
}

#[test]
fn test_huffman_basic() {
    let tags = vec!["tag1".to_string(), "tag2".to_string(), "tag1".to_string()];
    let mut compressor = HuffmanCompressor::new();
    compressor.build_from_corpus(&tags).unwrap();
    let compressed = compressor.compress(&tags).unwrap();
    let decompressed = compressor.decompress(&compressed).unwrap();
    assert_eq!(tags, decompressed);
}

#[test]
fn test_dictionary_basic() {
    let tags = vec!["tag1".to_string(), "tag2".to_string(), "tag1".to_string()];
    let mut compressor = DictionaryCompressor::new();
    compressor.build_from_corpus(&tags).unwrap();
    let compressed = compressor.compress(&tags).unwrap();
    let decompressed = compressor.decompress(&compressed).unwrap();
    assert_eq!(tags, decompressed);
}

#[test]
fn huffman_example_corpus_codes() {
    let corpus = owned(&["a", "b", "a", "c", "a"]);
    let mut h = HuffmanCompressor::new();
    h.build_from_corpus(&corpus).unwrap();
    let a = h.code_for(&"a".to_string()).unwrap();
    let b = h.code_for(&"b".to_string()).unwrap();
    let c = h.code_for(&"c".to_string()).unwrap();
    assert_eq!(a.len(), 1);
    assert_eq!(b.len(), 2);
    assert_eq!(c.len(), 2);
    assert_eq!(a, vec![true]);
    assert_eq!(b, vec![false, false]);
    assert_eq!(c, vec![false, true]);
    let input = owned(&["a", "a", "b"]);
    let payload = h.compress(&input).unwrap();
    // count 3, then bits 1 1 0 0 packed from the lowest bit
    assert_eq!(payload, vec![3, 0, 0, 0, 0b0000_0011]);
    assert_eq!(h.decompress(&payload).unwrap(), input);
}

#[test]
fn huffman_codes_are_prefix_free() {
    let corpus = owned(&["x", "y", "y", "z", "z", "z", "w", "w", "w", "w", "v", "u", "u"]);
    let mut h = HuffmanCompressor::new();
    h.build_from_corpus(&corpus).unwrap();
    let names = ["u", "v", "w", "x", "y", "z"];
    let codes: Vec<Vec<bool>> = names.iter().map(|n| h.code_for(&n.to_string()).unwrap()).collect();
    for i in 0..codes.len() {
        assert!(!codes[i].is_empty());
        for j in 0..codes.len() {
            if i != j {
                let (p, q) = (&codes[i], &codes[j]);
                assert!(!(p.len() <= q.len() && q[..p.len()] == p[..]), "{:?} starts {:?}", p, q);
            }
        }
    }
}

#[test]
fn huffman_single_token_gets_one_bit() {
    let corpus = owned(&["only", "only"]);
    let mut h = HuffmanCompressor::new();
    h.build_from_corpus(&corpus).unwrap();
    assert_eq!(h.code_for(&"only".to_string()).unwrap(), vec![false]);
    let input = owned(&["only", "only", "only"]);
    let payload = h.compress(&input).unwrap();
    assert_eq!(payload, vec![3, 0, 0, 0, 0]);
    assert_eq!(h.decompress(&payload).unwrap(), input);
}

#[test]
fn huffman_round_trip_with_repeats() {
    let corpus = owned(&["red", "green", "blue", "red", "red", "blue", "cyan", "magenta"]);
    let mut h = HuffmanCompressor::new();
    h.build_from_corpus(&corpus).unwrap();
    let input = owned(&["blue", "red", "red", "magenta", "cyan", "green", "red", "blue", "blue"]);
    let payload = h.compress(&input).unwrap();
    assert_eq!(h.decompress(&payload).unwrap(), input);
    let empty: Vec<String> = Vec::new();
    let payload = h.compress(&empty).unwrap();
    assert_eq!(payload, vec![0, 0, 0, 0]);
    assert_eq!(h.decompress(&payload).unwrap(), empty);
}

#[test]
fn huffman_compress_is_deterministic() {
    let corpus = owned(&["a", "b", "c", "a", "d", "a", "b"]);
    let mut h = HuffmanCompressor::new();
    h.build_from_corpus(&corpus).unwrap();
    let input = owned(&["d", "a", "b", "c", "a"]);
    assert_eq!(h.compress(&input).unwrap(), h.compress(&input).unwrap());
}

#[test]
fn huffman_unknown_token_fails() {
    let mut h = HuffmanCompressor::new();
    h.build_from_corpus(&owned(&["a", "b"])).unwrap();
    assert_eq!(h.compress(&owned(&["a", "zzz"])), Err(CodecError::UnknownToken));
}

#[test]
fn huffman_empty_corpus_fails() {
    let mut h = HuffmanCompressor::new();
    assert_eq!(h.build_from_corpus(&[]), Err(CodecError::ModelConstruction));
    assert_eq!(h.compress(&[]), Err(CodecError::ModelConstruction));
}

#[test]
fn huffman_truncated_payload_fails() {
    let corpus = owned(&["a", "b", "a", "c", "a", "d"]);
    let mut h = HuffmanCompressor::new();
    h.build_from_corpus(&corpus).unwrap();
    let payload = h.compress(&corpus).unwrap();
    for cut in 0..payload.len() {
        assert_eq!(h.decompress(&payload[..cut]), Err(CodecError::MalformedPayload), "cut {}", cut);
    }
}

#[test]
fn huffman_lazy_model_serves_one_call() {
    let h = HuffmanCompressor::new();
    let input = owned(&["p", "q", "p"]);
    let payload = h.compress(&input).unwrap();
    assert_eq!(&payload[..4], &[3, 0, 0, 0]);
    assert_eq!(h.code_for(&"p".to_string()), None);
    let mut built = HuffmanCompressor::new();
    built.build_from_corpus(&input).unwrap();
    assert_eq!(built.decompress(&payload).unwrap(), input);
}

#[test]
fn dictionary_example_corpus_payload() {
    let corpus = owned(&["a", "b", "a", "c", "a"]);
    let mut d = DictionaryCompressor::new();
    d.build_from_corpus(&corpus).unwrap();
    assert_eq!(d.code_for(&"a".to_string()), Some(0));
    assert_eq!(d.code_for(&"b".to_string()), Some(1));
    assert_eq!(d.code_for(&"c".to_string()), Some(2));
    let payload = d.compress(&owned(&["a"])).unwrap();
    let expected: Vec<u8> = vec![
        3, 0, 0, 0, //
        1, 0, 0, 0, b'a', 0, 0, 0, 0, //
        1, 0, 0, 0, b'b', 1, 0, 0, 0, //
        1, 0, 0, 0, b'c', 2, 0, 0, 0, //
        1, 0, 0, 0, //
        0x00,
    ];
    assert_eq!(payload, expected);
    assert_eq!(d.decompress(&payload).unwrap(), owned(&["a"]));
}

#[test]
fn dictionary_codes_grow_with_rank() {
    let mut corpus = Vec::new();
    for i in 0..200 {
        for _ in 0..(200 - i) {
            corpus.push(format!("t{}", i));
        }
    }
    let mut d = DictionaryCompressor::new();
    d.build_from_corpus(&corpus).unwrap();
    for i in 0..200u32 {
        assert_eq!(d.code_for(&format!("t{}", i)), Some(i));
    }
    let one = d.compress(&owned(&["t0"])).unwrap();
    let two = d.compress(&owned(&["t150"])).unwrap();
    assert_eq!(two.len(), one.len() + 1);
    // code 150: low seven bits with the high bit set, then the rest
    assert_eq!(&two[two.len() - 2..], &[128 + 150 % 128, 1]);
    let input: Vec<String> = (0..200).rev().map(|i| format!("t{}", i)).collect();
    let payload = d.compress(&input).unwrap();
    assert_eq!(d.decompress(&payload).unwrap(), input);
}

#[test]
fn dictionary_ties_keep_first_occurrence_order() {
    let corpus = owned(&["z", "y", "x", "y", "z", "w"]);
    let mut d = DictionaryCompressor::new();
    d.build_from_corpus(&corpus).unwrap();
    assert_eq!(d.code_for(&"z".to_string()), Some(0));
    assert_eq!(d.code_for(&"y".to_string()), Some(1));
    assert_eq!(d.code_for(&"x".to_string()), Some(2));
    assert_eq!(d.code_for(&"w".to_string()), Some(3));
}

#[test]
fn dictionary_round_trip_non_ascii() {
    let corpus = owned(&["caf\u{e9}", "na\u{ef}ve", "\u{65e5}\u{672c}", "caf\u{e9}"]);
    let mut d = DictionaryCompressor::new();
    d.build_from_corpus(&corpus).unwrap();
    let payload = d.compress(&corpus).unwrap();
    // the entry of the first token holds its five UTF-8 bytes
    assert_eq!(&payload[4..8], &[5, 0, 0, 0]);
    assert_eq!(&payload[8..13], "caf\u{e9}".as_bytes());
    assert_eq!(DictionaryCompressor::new().decompress(&payload).unwrap(), corpus);
}

#[test]
fn dictionary_invalid_utf8_entry_fails() {
    let payload: Vec<u8> = vec![1, 0, 0, 0, 1, 0, 0, 0, 0xff, 0, 0, 0, 0, 1, 0, 0, 0, 0];
    assert_eq!(DictionaryCompressor::new().decompress(&payload), Err(CodecError::MalformedPayload));
}

#[test]
fn dictionary_unknown_code_fails() {
    let payload: Vec<u8> = vec![1, 0, 0, 0, 1, 0, 0, 0, b'a', 0, 0, 0, 0, 1, 0, 0, 0, 5];
    assert_eq!(DictionaryCompressor::new().decompress(&payload), Err(CodecError::MalformedPayload));
}

#[test]
fn dictionary_compress_is_deterministic() {
    let corpus = owned(&["a", "b", "c", "a"]);
    let mut d = DictionaryCompressor::new();
    d.build_from_corpus(&corpus).unwrap();
    assert_eq!(d.compress(&corpus).unwrap(), d.compress(&corpus).unwrap());
}

#[test]
fn dictionary_unknown_token_fails() {
    let mut d = DictionaryCompressor::new();
    d.build_from_corpus(&owned(&["a", "b"])).unwrap();
    assert_eq!(d.compress(&owned(&["c"])), Err(CodecError::UnknownToken));
}

#[test]
fn dictionary_empty_corpus_fails() {
    let mut d = DictionaryCompressor::new();
    assert_eq!(d.build_from_corpus(&[]), Err(CodecError::ModelConstruction));
    assert_eq!(d.compress(&[]), Err(CodecError::ModelConstruction));
}

#[test]
fn dictionary_truncated_payload_fails() {
    let corpus = owned(&["a", "bb", "a", "ccc"]);
    let mut d = DictionaryCompressor::new();
    d.build_from_corpus(&corpus).unwrap();
    let payload = d.compress(&corpus).unwrap();
    for cut in 0..payload.len() {
        assert_eq!(d.decompress(&payload[..cut]), Err(CodecError::MalformedPayload), "cut {}", cut);
    }
}

#[test]
fn dictionary_lazy_model_embeds_dictionary() {
    let d = DictionaryCompressor::new();
    let input = owned(&["q", "p", "p"]);
    let payload = d.compress(&input).unwrap();
    assert_eq!(d.decompress(&payload).unwrap(), input);
    assert_eq!(d.code_for(&"p".to_string()), None);
}

#[test]
fn error_messages_are_distinct() {
    let all = [
        CodecError::ModelConstruction,
        CodecError::UnknownToken,
        CodecError::MalformedPayload,
        CodecError::EncodingInvariant,
    ];
    for i in 0..all.len() {
        assert!(!all[i].message().is_empty());
        for j in 0..i {
            assert_ne!(all[i].message(), all[j].message());
        }
    }
}

#[test]
fn codec_dispatches_to_each_strategy() {
    let corpus = owned(&["a", "b", "a", "c", "a"]);
    let mut h = HuffmanCompressor::new();
    h.build_from_corpus(&corpus).unwrap();
    let mut d = DictionaryCompressor::new();
    d.build_from_corpus(&corpus).unwrap();
    let mut r = ArithmeticCompressor::new();
    r.build_from_corpus(&corpus).unwrap();
    let codecs = vec![Codec::Huffman(h), Codec::Dictionary(d), Codec::Arithmetic(r)];
    let names: Vec<&str> = codecs.iter().map(|c| c.algorithm_name()).collect();
    assert_eq!(names, vec!["huffman", "dictionary", "arithmetic"]);
    let input = owned(&["a", "a", "b"]);
    for c in &codecs {
        let payload = c.compress(&input).unwrap();
        assert_eq!(c.decompress(&payload).unwrap(), input, "{}", c.algorithm_name());
        assert_eq!(c.compress(&owned(&["zz"])), Err(CodecError::UnknownToken));
    }
    assert_eq!(codecs[0].compress(&input).unwrap(), vec![3, 0, 0, 0, 0b0000_0011]);
}

#[test]
fn varcode_forms() {
    let cases: Vec<(u32, Vec<u8>)> = vec![
        (0, vec![0]),
        (127, vec![127]),
        (128, vec![128, 1]),
        (16383, vec![255, 127]),
        (16384, vec![128, 128, 1, 0]),
        (1073741823, vec![255, 255, 255, 255]),
    ];
    for (code, bytes) in cases {
        let mut out = vec![9u8];
        write_varcode(&mut out, code);
        assert_eq!(out[0], 9);
        assert_eq!(&out[1..], &bytes[..], "code {}", code);
    }
}

#[test]
fn huffman_more_frequent_never_longer() {
    let mut corpus = Vec::new();
    let weights = [1usize, 1, 2, 3, 5, 8, 13, 21, 2, 1];
    for (i, w) in weights.iter().enumerate() {
        for _ in 0..*w {
            corpus.push(format!("k{}", i));
        }
    }
    let mut h = HuffmanCompressor::new();
    h.build_from_corpus(&corpus).unwrap();
    let lens: Vec<usize> = (0..weights.len()).map(|i| h.code_for(&format!("k{}", i)).unwrap().len()).collect();
    for i in 0..weights.len() {
        for j in 0..weights.len() {
            if weights[i] > weights[j] {
                assert!(lens[i] <= lens[j], "{:?}", lens);
            }
        }
    }
    let kraft: u64 = lens.iter().map(|l| 1u64 << (20 - l)).sum();
    assert_eq!(kraft, 1u64 << 20);
}
