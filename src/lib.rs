//! Byte-pair encoding vocabulary training.
//!
//! `bpe` holds the symbol algebra, the pair counter, the rewriter, the symbol
//! table and the trainer; `dictionary` the counted words that training yields;
//! `multi` the decisions of the work harness that trains on many files at once.
pub mod bpe;
pub mod config;
pub mod dictionary;
pub mod multi;
pub mod small;
pub mod utils;

pub use bpe::{construct_dictionary, train};
pub use config::{DictionaryConfig, DirOption};
pub use dictionary::Dictionary;
