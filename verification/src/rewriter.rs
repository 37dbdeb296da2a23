//! Rewriting a document: text is annotated, markup goes through untouched,
//! and progress is counted in units.

use crate::annotation::{annotate_phrase, annotated};
use crate::document::{initial_state, Scanner, UnclosedMarkup, Unit};
use crate::text::{chars_to_string, push_str_chars, str_chars};
use crate::tokens::{chars_are_blank, is_blank};
use crate::types::{Annotator, DictRecord};
use vstd::hash_map::StringHashMap;
use vstd::prelude::*;

verus! {

/// What becomes of the text of one unit: text that is empty or holds white
/// space only stays as it is, any other text is annotated.
pub open spec fn transformed<A: Annotator + ?Sized>(
    annotator: &A,
    text: Seq<char>,
    dict: Map<Seq<char>, DictRecord>,
    lemmas: Map<Seq<char>, String>,
    def_length: i32,
    including_phoneme: bool,
    hint_level: i32,
) -> Seq<char> {
    if is_blank(text) {
        text
    } else {
        annotated(annotator, text, dict, lemmas, def_length, including_phoneme, hint_level)
    }
}

/// What is written for one unit: markup as it stands, text transformed.
pub open spec fn rewritten<A: Annotator + ?Sized>(
    annotator: &A,
    unit: Unit,
    dict: Map<Seq<char>, DictRecord>,
    lemmas: Map<Seq<char>, String>,
    def_length: i32,
    including_phoneme: bool,
    hint_level: i32,
) -> Seq<char> {
    match unit {
        Unit::Markup(tag) => tag@,
        Unit::Text(text) => transformed(
            annotator,
            text@,
            dict,
            lemmas,
            def_length,
            including_phoneme,
            hint_level,
        ),
    }
}

/// What is written for the units of `units`, one after the other.
pub open spec fn rewritten_units<A: Annotator + ?Sized>(
    annotator: &A,
    units: Seq<Unit>,
    dict: Map<Seq<char>, DictRecord>,
    lemmas: Map<Seq<char>, String>,
    def_length: i32,
    including_phoneme: bool,
    hint_level: i32,
) -> Seq<char>
    decreases units.len(),
{
    if units.len() == 0 {
        Seq::empty()
    } else {
        rewritten_units(
            annotator,
            units.drop_last(),
            dict,
            lemmas,
            def_length,
            including_phoneme,
            hint_level,
        ) + rewritten(
            annotator,
            units.last(),
            dict,
            lemmas,
            def_length,
            including_phoneme,
            hint_level,
        )
    }
}

/// Transforms the text of one unit: annotates it, unless it is empty or
/// holds white space only.
pub fn transform_text<A: Annotator + ?Sized>(
    annotator: &A,
    input: &str,
    dict: &StringHashMap<DictRecord>,
    lemma_dict: &StringHashMap<String>,
    def_length: i32,
    including_phoneme: bool,
    hint_level: i32,
) -> (result: String)
    ensures
        result@ == transformed(
            annotator,
            input@,
            dict@,
            lemma_dict@,
            def_length,
            including_phoneme,
            hint_level,
        ),
{
    let chars = str_chars(input);
    if chars_are_blank(&chars) {
        return input.to_owned();
    }
    annotate_phrase(annotator, input, dict, lemma_dict, def_length, including_phoneme, hint_level)
}

/// Rewrites one unit. Markup is never handed to the annotation and comes
/// back character for character.
pub fn rewrite_unit<A: Annotator + ?Sized>(
    annotator: &A,
    unit: &Unit,
    dict: &StringHashMap<DictRecord>,
    lemma_dict: &StringHashMap<String>,
    def_length: i32,
    including_phoneme: bool,
    hint_level: i32,
) -> (result: String)
    ensures
        result@ == rewritten(
            annotator,
            *unit,
            dict@,
            lemma_dict@,
            def_length,
            including_phoneme,
            hint_level,
        ),
        unit is Markup ==> result@ == unit.content(),
{
    match unit {
        Unit::Markup(tag) => tag.clone(),
        Unit::Text(text) => transform_text(
            annotator,
            text.as_str(),
            dict,
            lemma_dict,
            def_length,
            including_phoneme,
            hint_level,
        ),
    }
}

/// Rewrites the units of a document and puts the results together.
pub fn rewrite_units<A: Annotator + ?Sized>(
    annotator: &A,
    units: &Vec<Unit>,
    dict: &StringHashMap<DictRecord>,
    lemma_dict: &StringHashMap<String>,
    def_length: i32,
    including_phoneme: bool,
    hint_level: i32,
) -> (result: String)
    ensures
        result@ == rewritten_units(
            annotator,
            units@,
            dict@,
            lemma_dict@,
            def_length,
            including_phoneme,
            hint_level,
        ),
{
    let mut out: Vec<char> = Vec::new();
    let mut i: usize = 0;
    assert(units@.take(0) =~= Seq::<Unit>::empty());
    while i < units.len()
        invariant
            i <= units.len(),
            out@ == rewritten_units(
                annotator,
                units@.take(i as int),
                dict@,
                lemma_dict@,
                def_length,
                including_phoneme,
                hint_level,
            ),
        decreases units.len() - i,
    {
        let piece = rewrite_unit(
            annotator,
            &units[i],
            dict,
            lemma_dict,
            def_length,
            including_phoneme,
            hint_level,
        );
        push_str_chars(&mut out, piece.as_str());
        assert(units@.take(i + 1).drop_last() =~= units@.take(i as int));
        i += 1;
    }
    assert(units@.take(i as int) =~= units@);
    chars_to_string(&out, 0, out.len())
}

/// Counts the units that were rewritten, and says when the count is due to
/// be reported.
#[derive(Clone, Copy, Debug)]
pub struct Progress {
    /// The number of units rewritten so far.
    pub done: u64,
    /// A report is due after every `every` units; never when it is 0.
    pub every: u64,
}

impl Progress {
    /// The count after one more unit: one more, unless the count is at the
    /// largest `u64` already.
    pub open spec fn advanced(self) -> Progress {
        if self.done < u64::MAX {
            Progress { done: (self.done + 1) as u64, every: self.every }
        } else {
            self
        }
    }

    /// The count to report after one more unit: the new count when it is a
    /// multiple of `every`, nothing otherwise, and nothing once the count
    /// stands at the largest `u64`.
    pub open spec fn due(self) -> Option<u64> {
        if self.done < u64::MAX && self.every > 0 && (self.done + 1) % (self.every as int) == 0 {
            Some((self.done + 1) as u64)
        } else {
            None
        }
    }

    /// A count of 0 that is reported after every `every` units.
    pub fn new(every: u64) -> (progress: Progress)
        ensures
            progress.done == 0,
            progress.every == every,
    {
        Progress { done: 0, every }
    }

    /// Counts one more unit and returns the count if it is due to be
    /// reported. The count never goes down, and every reported count is
    /// greater than the counts before it.
    pub fn advance(&mut self) -> (report: Option<u64>)
        ensures
            *final(self) == old(self).advanced(),
            report == old(self).due(),
            final(self).done >= old(self).done,
            report matches Some(count) ==> count == final(self).done && count > old(self).done,
    {
        if self.done == u64::MAX {
            return None;
        }
        self.done = self.done + 1;
        if self.every > 0 && self.done % self.every == 0 {
            Some(self.done)
        } else {
            None
        }
    }
}

/// What the rewriter hands out for one unit: the text to write, and the
/// count of units to report if a report is due.
pub struct Emission {
    /// The text to write in place of the unit.
    pub output: String,
    /// The number of units rewritten so far, when it is due to be reported.
    pub report: Option<u64>,
}

/// Rewrites a document as its characters arrive. It holds the unit that is
/// not complete yet and the count of units, and nothing else of the
/// document.
pub struct Rewriter {
    /// Cuts the document into units.
    pub scanner: Scanner,
    /// Counts the units.
    pub progress: Progress,
}

impl Rewriter {
    /// A rewriter at the start of a document, which reports its progress
    /// after every `report_every` units.
    pub fn new(report_every: u64) -> (rewriter: Rewriter)
        ensures
            rewriter.scanner@ == initial_state(),
            rewriter.progress.done == 0,
            rewriter.progress.every == report_every,
    {
        Rewriter { scanner: Scanner::new(), progress: Progress::new(report_every) }
    }

    /// Reads the next character of the document. When the character
    /// completes a unit, the unit is rewritten and counted, and what is to be
    /// written for it is returned.
    pub fn feed<A: Annotator + ?Sized>(
        &mut self,
        annotator: &A,
        c: char,
        dict: &StringHashMap<DictRecord>,
        lemma_dict: &StringHashMap<String>,
        def_length: i32,
        including_phoneme: bool,
        hint_level: i32,
    ) -> (r: Option<Emission>)
        ensures
            final(self).scanner@ == old(self).scanner@.after(c),
            match r {
                Some(emission) => {
                    &&& old(self).scanner@.completed_by(c) matches Some(unit)
                    &&& emission.output@ == if unit.is_text {
                        transformed(
                            annotator,
                            unit.content,
                            dict@,
                            lemma_dict@,
                            def_length,
                            including_phoneme,
                            hint_level,
                        )
                    } else {
                        unit.content
                    }
                    &&& emission.report == old(self).progress.due()
                    &&& final(self).progress == old(self).progress.advanced()
                },
                None => old(self).scanner@.completed_by(c) is None && final(self).progress
                    == old(self).progress,
            },
    {
        match self.scanner.feed(c) {
            Some(unit) => {
                let output = rewrite_unit(
                    annotator,
                    &unit,
                    dict,
                    lemma_dict,
                    def_length,
                    including_phoneme,
                    hint_level,
                );
                let report = self.progress.advance();
                Some(Emission { output, report })
            },
            None => None,
        }
    }

    /// Ends the document. The text that was pending, if there was any, is
    /// rewritten and counted, and what is to be written for it is returned.
    /// A document that ends inside a tag is refused.
    pub fn finish<A: Annotator + ?Sized>(
        self,
        annotator: &A,
        dict: &StringHashMap<DictRecord>,
        lemma_dict: &StringHashMap<String>,
        def_length: i32,
        including_phoneme: bool,
        hint_level: i32,
    ) -> (r: Result<Option<Emission>, UnclosedMarkup>)
        ensures
            match r {
                Ok(Some(emission)) => {
                    &&& !self.scanner@.in_markup
                    &&& self.scanner@.pending.len() > 0
                    &&& emission.output@ == transformed(
                        annotator,
                        self.scanner@.pending,
                        dict@,
                        lemma_dict@,
                        def_length,
                        including_phoneme,
                        hint_level,
                    )
                    &&& emission.report == self.progress.due()
                },
                Ok(None) => !self.scanner@.in_markup && self.scanner@.pending.len() == 0,
                Err(_) => self.scanner@.in_markup,
            },
    {
        let Rewriter { scanner, mut progress } = self;
        match scanner.finish() {
            Ok(Some(unit)) => {
                let output = rewrite_unit(
                    annotator,
                    &unit,
                    dict,
                    lemma_dict,
                    def_length,
                    including_phoneme,
                    hint_level,
                );
                let report = progress.advance();
                Ok(Some(Emission { output, report }))
            },
            Ok(None) => Ok(None),
            Err(e) => Err(e),
        }
    }
}

} // verus!
