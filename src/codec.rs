//! One type for the three strategies, chosen at run time.
use vstd::prelude::*;
use crate::arithmetic::ArithmeticCompressor;
use crate::dictionary::{DictionaryCompressor, U32_LIMIT};
use crate::error::CodecError;
use crate::frequency::texts;
use crate::huffman::HuffmanCompressor;

verus! {

/// A compressor of any of the three strategies.
pub enum Codec {
    Huffman(HuffmanCompressor),
    Dictionary(DictionaryCompressor),
    Arithmetic(ArithmeticCompressor),
}

impl Codec {
    /// Compresses `tokens` with the chosen strategy.
    pub fn compress(&self, tokens: &[String]) -> (r: Result<Vec<u8>, CodecError>)
        requires
            tokens@.len() <= U32_LIMIT,
        ensures
            match self {
                Codec::Huffman(c) => c.compress_outcome(texts(tokens@), r),
                Codec::Dictionary(c) => c.compress_outcome(texts(tokens@), r),
                Codec::Arithmetic(c) => c.compress_outcome(texts(tokens@), r),
            },
    {
        match self {
            Codec::Huffman(c) => c.compress(tokens),
            Codec::Dictionary(c) => c.compress(tokens),
            Codec::Arithmetic(c) => c.compress(tokens),
        }
    }

    /// Decompresses `data` with the chosen strategy.
    pub fn decompress(&self, data: &[u8]) -> (r: Result<Vec<String>, CodecError>)
        ensures
            match self {
                Codec::Huffman(c) => c.decompress_outcome(data@, r),
                Codec::Dictionary(c) => c.decompress_outcome(data@, r),
                Codec::Arithmetic(c) => c.decompress_outcome(data@, r),
            },
    {
        match self {
            Codec::Huffman(c) => c.decompress(data),
            Codec::Dictionary(c) => c.decompress(data),
            Codec::Arithmetic(c) => c.decompress(data),
        }
    }

    /// The name of the chosen strategy.
    pub fn algorithm_name(&self) -> (r: &'static str)
        ensures
            match self {
                Codec::Huffman(_) => r@ == "huffman"@,
                Codec::Dictionary(_) => r@ == "dictionary"@,
                Codec::Arithmetic(_) => r@ == "arithmetic"@,
            },
    {
        match self {
            Codec::Huffman(c) => c.algorithm_name(),
            Codec::Dictionary(c) => c.algorithm_name(),
            Codec::Arithmetic(c) => c.algorithm_name(),
        }
    }
}

} // verus!
