//! Pinyin-to-character conversion with n-gram language models.

use vstd::prelude::*;

pub mod context;
pub mod decode;
pub mod mapping;
pub mod scanner;
pub mod train;

pub use context::{Gram, Match, Match0, Match1, Match2, Match3};
pub use decode::{convert, DecodeError, Model, State, Weight};
pub use mapping::{ConfigurationError, Mapping};
pub use scanner::{Match1Iter, Match2Iter, Match3Iter};
pub use train::{Counts, Ratio};

verus! {

/// One corpus record: a news article whose raw HTML text is scanned for n-grams.
pub struct News {
    pub html: String,
    pub time: String,
    pub title: String,
    pub url: String,
}

} // verus!
