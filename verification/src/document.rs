//! Cutting a document into units of text and of markup, one character at a
//! time.

use crate::text::str_chars;
use vstd::prelude::*;

verus! {

/// One lexical unit of a document.
#[derive(Clone, Debug)]
pub enum Unit {
    /// Text between two tags.
    Text(String),
    /// A tag, from its `<` to its `>`.
    Markup(String),
}

impl Unit {
    /// The characters of the unit, as they stand in the document.
    pub open spec fn content(&self) -> Seq<char> {
        match self {
            Unit::Text(s) => s@,
            Unit::Markup(s) => s@,
        }
    }

    /// Tells whether the unit is text.
    pub open spec fn is_text(&self) -> bool {
        self is Text
    }
}

/// The document ended inside a tag.
#[derive(Clone, Copy, Debug, PartialEq, Eq)]
pub struct UnclosedMarkup;

/// What a unit is, without its storage: whether it is text, and its
/// characters.
pub struct UnitSpec {
    /// Whether the unit is text; a tag otherwise.
    pub is_text: bool,
    /// The characters of the unit, as they stand in the document.
    pub content: Seq<char>,
}

/// Where a scan stands: whether it is inside a tag, and the characters of
/// the unit that is not complete yet.
pub struct ScanState {
    /// Whether the scan is inside a tag.
    pub in_markup: bool,
    /// The characters read since the last complete unit.
    pub pending: Seq<char>,
}

impl ScanState {
    /// The unit that the character `c` completes, if it completes one. A `<`
    /// outside a tag ends the text before it, if there is any; a `>` inside a
    /// tag ends the tag, and belongs to it.
    pub open spec fn completed_by(self, c: char) -> Option<UnitSpec> {
        if !self.in_markup && c == '<' && self.pending.len() > 0 {
            Some(UnitSpec { is_text: true, content: self.pending })
        } else if self.in_markup && c == '>' {
            Some(UnitSpec { is_text: false, content: self.pending.push(c) })
        } else {
            None
        }
    }

    /// The state after the character `c`.
    pub open spec fn after(self, c: char) -> ScanState {
        if !self.in_markup && c == '<' {
            ScanState { in_markup: true, pending: seq![c] }
        } else if self.in_markup && c == '>' {
            ScanState { in_markup: false, pending: Seq::empty() }
        } else {
            ScanState { in_markup: self.in_markup, pending: self.pending.push(c) }
        }
    }
}

/// The state in which a scan starts.
pub open spec fn initial_state() -> ScanState {
    ScanState { in_markup: false, pending: Seq::empty() }
}

/// The state of a scan that has read `input`.
pub open spec fn state_after(input: Seq<char>) -> ScanState
    decreases input.len(),
{
    if input.len() == 0 {
        initial_state()
    } else {
        state_after(input.drop_last()).after(input.last())
    }
}

/// The units that a scan of `input` has completed, in order.
pub open spec fn units_of(input: Seq<char>) -> Seq<UnitSpec>
    decreases input.len(),
{
    if input.len() == 0 {
        Seq::empty()
    } else {
        let before = units_of(input.drop_last());
        match state_after(input.drop_last()).completed_by(input.last()) {
            Some(unit) => before.push(unit),
            None => before,
        }
    }
}

/// The contents of `units`, one after the other.
pub open spec fn contents(units: Seq<UnitSpec>) -> Seq<char>
    decreases units.len(),
{
    if units.len() == 0 {
        Seq::empty()
    } else {
        contents(units.drop_last()) + units.last().content
    }
}

/// A scan loses nothing and changes nothing: the units completed so far,
/// followed by the pending characters, are the input read so far.
pub proof fn lemma_scan_is_lossless(input: Seq<char>)
    ensures
        contents(units_of(input)) + state_after(input).pending == input,
    decreases input.len(),
{
    if input.len() > 0 {
        let shorter = input.drop_last();
        let c = input.last();
        lemma_scan_is_lossless(shorter);
        let state = state_after(shorter);
        let before = units_of(shorter);
        match state.completed_by(c) {
            Some(unit) => {
                assert(before.push(unit).drop_last() =~= before);
            },
            None => {},
        }
        assert(contents(units_of(input)) + state_after(input).pending =~= (contents(before)
            + state.pending).push(c));
        assert(shorter.push(c) =~= input);
    } else {
        assert(contents(units_of(input)) + state_after(input).pending =~= input);
    }
}

/// Text never holds a `<`, and a tag holds one `>`, at its end.
pub proof fn lemma_scan_separates(input: Seq<char>)
    ensures
        !state_after(input).in_markup ==> !state_after(input).pending.contains('<'),
        state_after(input).in_markup ==> !state_after(input).pending.contains('>')
            && state_after(input).pending.len() > 0,
        forall|k: int|
            0 <= k < units_of(input).len() ==> {
                let unit = #[trigger] units_of(input)[k];
                &&& unit.content.len() > 0
                &&& unit.is_text ==> !unit.content.contains('<')
                &&& !unit.is_text ==> unit.content.first() == '<' && unit.content.last() == '>'
                    && !unit.content.drop_last().contains('>')
            },
    decreases input.len(),
{
    if input.len() > 0 {
        let shorter = input.drop_last();
        let c = input.last();
        lemma_scan_separates(shorter);
        lemma_scan_starts_tags(shorter);
        let state = state_after(shorter);
        let before = units_of(shorter);
        let now = state.after(c);
        if !now.in_markup && now.pending.contains('<') {
            let k = choose|k: int| 0 <= k < now.pending.len() && now.pending[k] == '<';
            if k < state.pending.len() {
                assert(state.pending[k] == '<');
            }
        }
        if now.in_markup && now.pending.contains('>') {
            let k = choose|k: int| 0 <= k < now.pending.len() && now.pending[k] == '>';
            if state.in_markup && k < state.pending.len() {
                assert(state.pending[k] == '>');
            }
        }
        assert forall|k: int| 0 <= k < units_of(input).len() implies {
            let unit = #[trigger] units_of(input)[k];
            &&& unit.content.len() > 0
            &&& unit.is_text ==> !unit.content.contains('<')
            &&& !unit.is_text ==> unit.content.first() == '<' && unit.content.last() == '>'
                && !unit.content.drop_last().contains('>')
        } by {
            if k < before.len() {
                assert(units_of(input)[k] == before[k]);
            } else {
                let unit = units_of(input)[k];
                if !unit.is_text {
                    assert(unit.content.drop_last() =~= state.pending);
                }
            }
        }
    }
}

/// Inside a tag the pending characters start with `<`.
proof fn lemma_scan_starts_tags(input: Seq<char>)
    ensures
        state_after(input).in_markup ==> state_after(input).pending.len() > 0
            && state_after(input).pending.first() == '<',
    decreases input.len(),
{
    if input.len() > 0 {
        lemma_scan_starts_tags(input.drop_last());
    }
}

/// Cuts a document into units as its characters arrive. It holds the unit
/// that is not complete yet and nothing else of the document.
pub struct Scanner {
    /// Whether the scan is inside a tag.
    pub in_markup: bool,
    /// The characters of the unit that is not complete yet.
    pub pending: String,
}

impl View for Scanner {
    type V = ScanState;

    open spec fn view(&self) -> ScanState {
        ScanState { in_markup: self.in_markup, pending: self.pending@ }
    }
}

impl Scanner {
    /// A scanner at the start of a document.
    pub fn new() -> (scanner: Scanner)
        ensures
            scanner@ == initial_state(),
    {
        Scanner { in_markup: false, pending: String::new() }
    }

    /// Reads the next character of the document and returns the unit that
    /// it completes, if it completes one.
    pub fn feed(&mut self, c: char) -> (r: Option<Unit>)
        ensures
            final(self)@ == old(self)@.after(c),
            match r {
                Some(unit) => old(self)@.completed_by(c) == Some(
                    UnitSpec { is_text: unit.is_text(), content: unit.content() },
                ),
                None => old(self)@.completed_by(c) is None,
            },
    {
        if !self.in_markup && c == '<' {
            let mut text = String::new();
            std::mem::swap(&mut text, &mut self.pending);
            self.pending.push(c);
            self.in_markup = true;
            assert(self.pending@ =~= seq![c]);
            if text.as_str().is_empty() {
                None
            } else {
                Some(Unit::Text(text))
            }
        } else if self.in_markup && c == '>' {
            let mut tag = String::new();
            std::mem::swap(&mut tag, &mut self.pending);
            tag.push(c);
            self.in_markup = false;
            Some(Unit::Markup(tag))
        } else {
            self.pending.push(c);
            None
        }
    }

    /// Ends the document and returns the text that was pending, if there
    /// was any. A document that ends inside a tag is refused.
    pub fn finish(self) -> (r: Result<Option<Unit>, UnclosedMarkup>)
        ensures
            match r {
                Ok(Some(unit)) => !self@.in_markup && self@.pending.len() > 0 && unit.is_text()
                    && unit.content() == self@.pending,
                Ok(None) => !self@.in_markup && self@.pending.len() == 0,
                Err(_) => self@.in_markup,
            },
    {
        if self.in_markup {
            Err(UnclosedMarkup)
        } else if self.pending.as_str().is_empty() {
            Ok(None)
        } else {
            Ok(Some(Unit::Text(self.pending)))
        }
    }
}

/// The units of the whole document `text`, with the text at its end.
pub open spec fn document_units(text: Seq<char>) -> Seq<UnitSpec> {
    if state_after(text).pending.len() > 0 {
        units_of(text).push(UnitSpec { is_text: true, content: state_after(text).pending })
    } else {
        units_of(text)
    }
}

/// What the units of `units` are, without their storage.
pub open spec fn unit_specs(units: Seq<Unit>) -> Seq<UnitSpec> {
    Seq::new(units.len(), |k: int| UnitSpec { is_text: units[k].is_text(), content: units[k].content() })
}

/// Cuts the whole document `text` into its units. A document that ends
/// inside a tag is refused.
pub fn split_units(text: &str) -> (r: Result<Vec<Unit>, UnclosedMarkup>)
    ensures
        match r {
            Ok(units) => !state_after(text@).in_markup && unit_specs(units@) == document_units(
                text@,
            ),
            Err(_) => state_after(text@).in_markup,
        },
{
    let chars = str_chars(text);
    let mut scanner = Scanner::new();
    let mut units: Vec<Unit> = Vec::new();
    let mut i: usize = 0;
    assert(chars@.take(0) =~= Seq::<char>::empty());
    assert(unit_specs(units@) =~= units_of(chars@.take(0)));
    while i < chars.len()
        invariant
            i <= chars.len(),
            scanner@ == state_after(chars@.take(i as int)),
            unit_specs(units@) == units_of(chars@.take(i as int)),
        decreases chars.len() - i,
    {
        let ghost before = unit_specs(units@);
        assert(chars@.take(i + 1).drop_last() =~= chars@.take(i as int));
        match scanner.feed(chars[i]) {
            Some(unit) => {
                units.push(unit);
                assert(unit_specs(units@) =~= before.push(
                    UnitSpec { is_text: unit.is_text(), content: unit.content() },
                ));
            },
            None => {},
        }
        i += 1;
    }
    assert(chars@.take(i as int) =~= chars@);
    let ghost before = unit_specs(units@);
    match scanner.finish() {
        Ok(Some(unit)) => {
            units.push(unit);
            assert(unit_specs(units@) =~= before.push(
                UnitSpec { is_text: unit.is_text(), content: unit.content() },
            ));
            Ok(units)
        },
        Ok(None) => Ok(units),
        Err(e) => Err(e),
    }
}

} // verus!
