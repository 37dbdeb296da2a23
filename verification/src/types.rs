//! Dictionary records and the renderings of an annotated term.

use crate::cleaner::{prefix_of, stem_bounds, stem_of, suffix_of};
use crate::text::{chars_to_string, str_chars};
use vstd::prelude::*;
use vstd::string::StringExecFns;

verus! {

/// One dictionary entry.
#[derive(Clone, Debug)]
pub struct DictRecord {
    /// The headword or phrase, as the dictionary stores it.
    pub word: String,
    /// Phonetic transcription; may be empty.
    pub phoneme: String,
    /// The full definition.
    pub full_def: String,
    /// The condensed definition.
    pub short_def: String,
    /// Reference text that annotation does not use.
    pub example_sentences: String,
    /// How advanced the term is; higher means harder.
    pub hint_lvl: i32,
}

impl DictRecord {
    /// The gloss shown for this entry: the condensed definition at detail
    /// level 1, the full definition at every other level, after the
    /// transcription and a space when that is asked for and not empty.
    pub open spec fn meaning(&self, def_length: i32, including_phoneme: bool) -> Seq<char> {
        let gloss = if def_length == 1 {
            self.short_def@
        } else {
            self.full_def@
        };
        if including_phoneme && self.phoneme@.len() > 0 {
            self.phoneme@ + seq![' '] + gloss
        } else {
            gloss
        }
    }

    /// Returns the gloss shown for this entry.
    pub fn get_meaning(&self, def_length: i32, including_phoneme: bool) -> (r: String)
        ensures
            r@ == self.meaning(def_length, including_phoneme),
    {
        let mut out = String::new();
        if including_phoneme && !self.phoneme.as_str().is_empty() {
            out.append(self.phoneme.as_str());
            out.push(' ');
        }
        if def_length == 1 {
            out.append(self.short_def.as_str());
        } else {
            out.append(self.full_def.as_str());
        }
        assert(out@ =~= self.meaning(def_length, including_phoneme));
        out
    }
}

/// A way to render a matched term together with its gloss.
pub trait Annotator {
    /// The text that stands for `word` once it is annotated from `record`.
    /// An annotator that does not say otherwise leaves the word as it is.
    open spec fn rendering(
        &self,
        record: &DictRecord,
        word: Seq<char>,
        def_length: i32,
        including_phoneme: bool,
    ) -> Seq<char> {
        word
    }

    /// Renders `word`, the surface text that was matched, with the gloss of
    /// `record`.
    fn annotate(
        &self,
        record: &DictRecord,
        word: &str,
        def_length: i32,
        including_phoneme: bool,
    ) -> (r: String)
        ensures
            r@ == self.rendering(record, word@, def_length, including_phoneme),
    ;
}

/// Renders a term as a ruby annotation: the stem of the surface text is the
/// base, the gloss is the ruby text, and the decoration around the stem stays
/// outside the markup.
pub struct RubyAnnotator {}

impl Annotator for RubyAnnotator {
    open spec fn rendering(
        &self,
        record: &DictRecord,
        word: Seq<char>,
        def_length: i32,
        including_phoneme: bool,
    ) -> Seq<char> {
        prefix_of(word) + "<ruby>"@ + stem_of(word) + "<rt>"@ + record.meaning(
            def_length,
            including_phoneme,
        ) + "</rt></ruby>"@ + suffix_of(word)
    }

    fn annotate(
        &self,
        record: &DictRecord,
        word: &str,
        def_length: i32,
        including_phoneme: bool,
    ) -> (r: String) {
        let chars = str_chars(word);
        let (start, end) = stem_bounds(&chars);
        let mut out = chars_to_string(&chars, 0, start);
        out.append("<ruby>");
        out.append(chars_to_string(&chars, start, end).as_str());
        out.append("<rt>");
        out.append(record.get_meaning(def_length, including_phoneme).as_str());
        out.append("</rt></ruby>");
        out.append(chars_to_string(&chars, end, chars.len()).as_str());
        out
    }
}

} // verus!
