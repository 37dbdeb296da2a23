//! Laws of annotation, proved from the definitions of the annotation module.

use crate::annotation::{
    annotated, gated, is_entry, lemma_longest_entry, nothing_resolves, pieces_from, resolve,
    step_at, surface_at, tokens_left, window, MAX_PHRASE_LENGTH,
};
use crate::cleaner::core_of;
use crate::text::is_whitespace;
use crate::tokens::{
    is_token, join, lemma_join_concat, lemma_join_ends_with_token, lemma_join_holds_space,
    lemma_split_gives_tokens, lemma_split_of_join, split_whitespace, trailing_whitespace,
    trim_end_of,
};
use crate::types::{Annotator, DictRecord};
use vstd::prelude::*;

verus! {

/// The spans of tokens, as pairs of a first index and an index one past the
/// last, that are annotated from position `i` on.
pub open spec fn annotated_spans(
    tokens: Seq<Seq<char>>,
    i: int,
    dict: Map<Seq<char>, DictRecord>,
    lemmas: Map<Seq<char>, String>,
    hint_level: i32,
) -> Set<(int, int)>
    decreases tokens_left(tokens, i),
{
    if 0 <= i < tokens.len() {
        let n = step_at(tokens, i, dict);
        let rest = annotated_spans(tokens, i + n, dict, lemmas, hint_level);
        if resolve(surface_at(tokens, i, dict), dict, lemmas, hint_level) is Some {
            rest.insert((i, i + n))
        } else {
            rest
        }
    } else {
        Set::empty()
    }
}

/// A step consumes at least one token, at most `MAX_PHRASE_LENGTH`, and
/// never runs past the end.
pub proof fn lemma_step_bounds(tokens: Seq<Seq<char>>, i: int, dict: Map<Seq<char>, DictRecord>)
    requires
        0 <= i < tokens.len(),
    ensures
        1 <= step_at(tokens, i, dict) <= MAX_PHRASE_LENGTH,
        i + step_at(tokens, i, dict) <= tokens.len(),
{
    lemma_longest_entry(tokens, i, window(tokens, i), dict);
}

/// Longest match wins: when the `n` tokens from `i` on are a dictionary
/// entry and `n` is within the window, the step at `i` takes at least `n`
/// tokens, and what it takes is itself an entry.
pub proof fn lemma_longest_match_priority(
    tokens: Seq<Seq<char>>,
    i: int,
    n: nat,
    dict: Map<Seq<char>, DictRecord>,
)
    requires
        0 <= i < tokens.len(),
        1 <= n <= MAX_PHRASE_LENGTH,
        i + n <= tokens.len(),
        is_entry(join(tokens.subrange(i, i + n)), dict),
    ensures
        step_at(tokens, i, dict) >= n,
        is_entry(surface_at(tokens, i, dict), dict),
{
    lemma_longest_entry(tokens, i, window(tokens, i), dict);
}

/// Where nothing resolves, the pieces from `i` on are the remaining tokens,
/// joined, and one space.
proof fn lemma_unmatched_pieces<A: Annotator + ?Sized>(
    annotator: &A,
    tokens: Seq<Seq<char>>,
    i: int,
    dict: Map<Seq<char>, DictRecord>,
    lemmas: Map<Seq<char>, String>,
    def_length: i32,
    including_phoneme: bool,
    hint_level: i32,
)
    requires
        0 <= i < tokens.len(),
        nothing_resolves(tokens, dict, lemmas, hint_level),
    ensures
        pieces_from(
            annotator,
            tokens,
            i,
            dict,
            lemmas,
            def_length,
            including_phoneme,
            hint_level,
        ) == join(tokens.subrange(i, tokens.len() as int)) + seq![' '],
    decreases tokens.len() - i,
{
    lemma_step_bounds(tokens, i, dict);
    let n = step_at(tokens, i, dict) as int;
    let taken = tokens.subrange(i, i + n);
    assert(resolve(join(taken), dict, lemmas, hint_level) is None);
    if i + n < tokens.len() {
        lemma_unmatched_pieces(
            annotator,
            tokens,
            i + n,
            dict,
            lemmas,
            def_length,
            including_phoneme,
            hint_level,
        );
        let rest = tokens.subrange(i + n, tokens.len() as int);
        assert(taken + rest =~= tokens.subrange(i, tokens.len() as int));
        lemma_join_concat(taken, rest);
        assert(join(taken) + seq![' '] + (join(rest) + seq![' ']) =~= join(taken + rest) + seq![
            ' ',
        ]);
    } else {
        assert(pieces_from(
            annotator,
            tokens,
            i + n,
            dict,
            lemmas,
            def_length,
            including_phoneme,
            hint_level,
        ) =~= Seq::<char>::empty());
        assert(join(taken) + seq![' '] + Seq::<char>::empty() =~= join(taken) + seq![' ']);
    }
}

/// Text without dictionary terms comes back unchanged but for its white
/// space: when no run of tokens of `text` resolves, the annotated text is
/// the tokens of `text` joined by single spaces.
pub proof fn lemma_unmatched_text_is_unchanged<A: Annotator + ?Sized>(
    annotator: &A,
    text: Seq<char>,
    dict: Map<Seq<char>, DictRecord>,
    lemmas: Map<Seq<char>, String>,
    def_length: i32,
    including_phoneme: bool,
    hint_level: i32,
)
    requires
        nothing_resolves(split_whitespace(text), dict, lemmas, hint_level),
    ensures
        annotated(annotator, text, dict, lemmas, def_length, including_phoneme, hint_level)
            == join(split_whitespace(text)),
{
    let tokens = split_whitespace(text);
    let pieces = pieces_from(
        annotator,
        tokens,
        0,
        dict,
        lemmas,
        def_length,
        including_phoneme,
        hint_level,
    );
    if tokens.len() == 0 {
        assert(trim_end_of(pieces) =~= join(tokens));
    } else {
        lemma_unmatched_pieces(
            annotator,
            tokens,
            0,
            dict,
            lemmas,
            def_length,
            including_phoneme,
            hint_level,
        );
        assert(tokens.subrange(0, tokens.len() as int) =~= tokens);
        lemma_split_gives_tokens(text);
        lemma_join_ends_with_token(tokens);
        let joined = join(tokens);
        assert(pieces.drop_last() =~= joined);
        assert(is_whitespace(' '));
        assert(trailing_whitespace(joined) == 0);
        assert(trailing_whitespace(pieces) == 1);
        assert(trim_end_of(pieces) =~= joined);
    }
}

/// Annotating text without dictionary terms is idempotent: what comes back
/// is left as it is when it is annotated again.
pub proof fn lemma_unmatched_text_is_fixed_point<A: Annotator + ?Sized>(
    annotator: &A,
    text: Seq<char>,
    dict: Map<Seq<char>, DictRecord>,
    lemmas: Map<Seq<char>, String>,
    def_length: i32,
    including_phoneme: bool,
    hint_level: i32,
)
    requires
        nothing_resolves(split_whitespace(text), dict, lemmas, hint_level),
    ensures
        annotated(
            annotator,
            annotated(annotator, text, dict, lemmas, def_length, including_phoneme, hint_level),
            dict,
            lemmas,
            def_length,
            including_phoneme,
            hint_level,
        ) == annotated(annotator, text, dict, lemmas, def_length, including_phoneme, hint_level),
{
    lemma_unmatched_text_is_unchanged(
        annotator,
        text,
        dict,
        lemmas,
        def_length,
        including_phoneme,
        hint_level,
    );
    lemma_split_gives_tokens(text);
    lemma_split_of_join(split_whitespace(text));
    lemma_unmatched_text_is_unchanged(
        annotator,
        join(split_whitespace(text)),
        dict,
        lemmas,
        def_length,
        including_phoneme,
        hint_level,
    );
}

/// An empty dictionary annotates nothing.
pub proof fn lemma_empty_dictionary_annotates_nothing<A: Annotator + ?Sized>(
    annotator: &A,
    text: Seq<char>,
    lemmas: Map<Seq<char>, String>,
    def_length: i32,
    including_phoneme: bool,
    hint_level: i32,
)
    ensures
        annotated(
            annotator,
            text,
            Map::<Seq<char>, DictRecord>::empty(),
            lemmas,
            def_length,
            including_phoneme,
            hint_level,
        ) == join(split_whitespace(text)),
{
    lemma_unmatched_text_is_unchanged(
        annotator,
        text,
        Map::<Seq<char>, DictRecord>::empty(),
        lemmas,
        def_length,
        including_phoneme,
        hint_level,
    );
}

/// Raising the threshold never adds a match: what resolves at the higher
/// threshold resolves to the same record at the lower one.
pub proof fn lemma_resolve_is_monotonic(
    word: Seq<char>,
    dict: Map<Seq<char>, DictRecord>,
    lemmas: Map<Seq<char>, String>,
    low: i32,
    high: i32,
)
    requires
        low <= high,
    ensures
        resolve(word, dict, lemmas, high) is Some ==> resolve(word, dict, lemmas, low) == resolve(
            word,
            dict,
            lemmas,
            high,
        ),
{
}

/// Difficulty gating is monotonic: the spans annotated at a threshold are
/// among those annotated at any lower threshold.
pub proof fn lemma_gating_is_monotonic(
    tokens: Seq<Seq<char>>,
    i: int,
    dict: Map<Seq<char>, DictRecord>,
    lemmas: Map<Seq<char>, String>,
    low: i32,
    high: i32,
)
    requires
        low <= high,
    ensures
        annotated_spans(tokens, i, dict, lemmas, high).subset_of(
            annotated_spans(tokens, i, dict, lemmas, low),
        ),
    decreases tokens_left(tokens, i),
{
    if 0 <= i < tokens.len() {
        let n = step_at(tokens, i, dict);
        lemma_gating_is_monotonic(tokens, i + n, dict, lemmas, low, high);
        lemma_resolve_is_monotonic(surface_at(tokens, i, dict), dict, lemmas, low, high);
    }
}

/// The lemma table serves single tokens only: a surface text of two or more
/// tokens resolves as it would with no lemma table at all.
pub proof fn lemma_phrases_ignore_lemmas(
    tokens: Seq<Seq<char>>,
    dict: Map<Seq<char>, DictRecord>,
    lemmas: Map<Seq<char>, String>,
    hint_level: i32,
)
    requires
        tokens.len() >= 2,
    ensures
        resolve(join(tokens), dict, lemmas, hint_level) == resolve(
            join(tokens),
            dict,
            Map::<Seq<char>, String>::empty(),
            hint_level,
        ),
{
    lemma_join_holds_space(tokens);
}

/// A single token whose core is no dictionary key, but an inflected form of
/// a key, resolves to the record of its base form, behind the difficulty
/// gate.
pub proof fn lemma_single_token_uses_lemma(
    token: Seq<char>,
    dict: Map<Seq<char>, DictRecord>,
    lemmas: Map<Seq<char>, String>,
    hint_level: i32,
)
    requires
        is_token(token),
        !dict.contains_key(core_of(token, true)),
        lemmas.contains_key(core_of(token, true)),
        dict.contains_key(lemmas[core_of(token, true)]@),
    ensures
        resolve(token, dict, lemmas, hint_level) == gated(
            dict[lemmas[core_of(token, true)]@],
            hint_level,
        ),
{
    assert(is_whitespace(' '));
    if token.contains(' ') {
        let k = choose|k: int| 0 <= k < token.len() && token[k] == ' ';
        assert(!is_whitespace(token[k]));
    }
}

} // verus!
