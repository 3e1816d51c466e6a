//! Compact binary encodings for sequences of short textual tokens ("tags").
//!
//! Three codecs share one shape: build a model from a corpus, then compress
//! and decompress token sequences against it.
//! - [`HuffmanCompressor`]: a prefix code built by repeatedly merging the two
//!   least frequent subtrees;
//! - [`DictionaryCompressor`]: frequency-ranked integer codes written as
//!   self-describing variable-length byte groups, with the dictionary embedded
//!   in every payload;
//! - [`ArithmeticCompressor`]: a fixed-point range coder.
//!
//! Each `compress` states the exact payload as a function of the model and
//! the tokens, and each `decompress` the exact result of reading a payload.
//! The prefix and dictionary codecs carry proved round-trip laws, the range
//! codec a law that it reads back the tokens compressed or fails; all three
//! reject every strict prefix of a payload. Around them: the frequency
//! table ([`frequency`]), bit packing ([`bits`]), the prefix-code builder
//! ([`prefix_code`]), tag text parsers and serializers ([`parser`],
//! [`serializer`]), synthetic tag data ([`samples`]) and [`Codec`], which
//! picks a strategy at run time.

pub mod error;
pub mod bits;
pub mod frequency;
pub mod prefix_code;
pub mod huffman;
pub mod dictionary;
pub mod arithmetic;
pub mod parser;
pub mod serializer;
pub mod samples;
pub mod codec;

pub use error::CodecError;

pub use arithmetic::ArithmeticCompressor;
pub use codec::Codec;
pub use dictionary::DictionaryCompressor;
pub use huffman::HuffmanCompressor;
pub use parser::{CommaSeparatedParser, FormatError, JsonParser, SpaceSeparatedParser, TagParser};
pub use samples::{MLBenchmarkRunner, MappyComparisonRunner};
pub use serializer::{CommaSeparatedSerializer, JsonSerializer, SpaceSeparatedSerializer, TagSerializer};
