//! Inline vocabulary glosses for running text.
//!
//! The crate scans prose, finds the longest dictionary entry at each position
//! and wraps it with a short definition when the entry is difficult enough,
//! leaving every other character as it was.
//!
//! - `text`, `tokens` and `numbers` hold the character classes, the split
//!   into tokens and the reading of integers.
//! - `cleaner` separates the core of a token from its decoration.
//! - `types` holds the dictionary record and the renderings of a term.
//! - `annotation` resolves terms and annotates a text; `laws` states what
//!   follows from its definitions.
//! - `lexicon` builds the dictionary and the lemma table from CSV data.
//! - `document` cuts a document into text and markup, and `rewriter`
//!   rewrites it unit by unit.

pub mod annotation;
pub mod cleaner;
pub mod document;
pub mod laws;
pub mod lexicon;
pub mod numbers;
pub mod rewriter;
pub mod text;
pub mod tokens;
pub mod types;

pub use annotation::{annotate_phrase, get_dict_record};
pub use cleaner::{Clean, Cleaner};
pub use document::{split_units, Scanner, UnclosedMarkup, Unit};
pub use lexicon::{load_dict, load_lemma, LoadError};
pub use rewriter::{rewrite_unit, rewrite_units, transform_text, Emission, Progress, Rewriter};
pub use types::{Annotator, DictRecord, RubyAnnotator};
pub use vstd::hash_map::StringHashMap;
