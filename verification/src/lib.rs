//! Dictionary compression for collections of short strings.
//!
//! A compressor learns a vocabulary of at most 65 536 byte strings (tokens)
//! from the strings it is given and stores each string as a sequence of
//! 16-bit token ids. Any single string can be decoded on its own.

pub mod dictionary;
pub mod fx;
pub mod lpm;
pub mod lpm16;
pub mod matching;
pub mod model;
pub mod model16;
pub mod onpair;
pub mod onpair16;
pub mod short_index;
pub mod static_lpm16;
pub mod training;
pub mod word;

pub use crate::dictionary::Compressed;
pub use crate::lpm::LongestPrefixMatcher;
pub use crate::lpm16::LongestPrefixMatcher16;
pub use crate::onpair::OnPair;
pub use crate::onpair16::OnPair16;
pub use crate::static_lpm16::StaticLongestPrefixMatcher16;
pub use crate::training::flatten_strings;
pub use crate::word::is_prefix;
pub use crate::word::load_u64_le_masked;
pub use crate::word::shared_prefix_size;
