//! Streaming search for multi-token phrases in byte streams whose characters may be
//! shifted by a constant codepoint offset and encoded with one or two bytes each.

pub mod finder;
pub mod finder_service;
pub mod phrase;
pub mod ring;
pub mod search;
pub mod text;
pub mod theorems;

pub use finder::Finder;
pub use finder_service::{FinderService, State};
pub use phrase::{Phrase, PhraseInstance, PhraseInstanceGroup};
pub use search::{
    search, search_2bytes, search_2bytes_with_diff, search_multibyte, search_with_diff,
    TokenInstance,
};
pub use text::{get_2bytes, Text};
