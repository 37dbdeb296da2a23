//! Longest-match annotation of a text against a dictionary.

use crate::cleaner::{core_of, lowercase_core};
use crate::laws::lemma_unmatched_text_is_unchanged;
use crate::text::{chars_to_string, push_chars, push_str_chars, str_chars};
use crate::tokens::{join, split_tokens, split_whitespace, token_views, trim_end, trim_end_of};
use crate::types::{Annotator, DictRecord};
use vstd::hash_map::StringHashMap;
use vstd::prelude::*;

verus! {

/// The greatest number of tokens that one dictionary phrase may span.
pub const MAX_PHRASE_LENGTH: usize = 5;

/// The difficulty gate: a record is shown only when its hint level reaches
/// the threshold.
pub open spec fn gated(record: DictRecord, hint_level: i32) -> Option<DictRecord> {
    if record.hint_lvl >= hint_level {
        Some(record)
    } else {
        None
    }
}

/// The record for a cleaned core. A core that is a dictionary key is looked up
/// directly and never through the lemma table. A core that is no key, and
/// stands for a single token, is looked up through its base form. Either way
/// the record passes the difficulty gate or there is no match.
pub open spec fn lookup(
    core: Seq<char>,
    single: bool,
    dict: Map<Seq<char>, DictRecord>,
    lemmas: Map<Seq<char>, String>,
    hint_level: i32,
) -> Option<DictRecord> {
    if dict.contains_key(core) {
        gated(dict[core], hint_level)
    } else if single && lemmas.contains_key(core) && dict.contains_key(lemmas[core]@) {
        gated(dict[lemmas[core]@], hint_level)
    } else {
        None
    }
}

/// The record that annotates the surface text `word`, if any: its lowercase
/// core is looked up, as a single token when `word` holds no space.
pub open spec fn resolve(
    word: Seq<char>,
    dict: Map<Seq<char>, DictRecord>,
    lemmas: Map<Seq<char>, String>,
    hint_level: i32,
) -> Option<DictRecord> {
    lookup(core_of(word, true), !word.contains(' '), dict, lemmas, hint_level)
}

/// Tells whether the lowercase core of `phrase` is a dictionary key.
pub open spec fn is_entry(phrase: Seq<char>, dict: Map<Seq<char>, DictRecord>) -> bool {
    dict.contains_key(core_of(phrase, true))
}

/// The greatest `n` in `1..=limit` for which the `n` tokens from `i` on,
/// joined, are a dictionary entry; 0 when there is none.
pub open spec fn longest_entry(
    tokens: Seq<Seq<char>>,
    i: int,
    limit: nat,
    dict: Map<Seq<char>, DictRecord>,
) -> nat
    decreases limit,
{
    if limit == 0 {
        0
    } else if is_entry(join(tokens.subrange(i, i + limit)), dict) {
        limit
    } else {
        longest_entry(tokens, i, (limit - 1) as nat, dict)
    }
}

/// The number of tokens that a phrase starting at `i` may span.
pub open spec fn window(tokens: Seq<Seq<char>>, i: int) -> nat {
    if tokens.len() - i >= MAX_PHRASE_LENGTH {
        MAX_PHRASE_LENGTH as nat
    } else if tokens.len() - i >= 0 {
        (tokens.len() - i) as nat
    } else {
        0
    }
}

/// The number of tokens consumed at position `i`: the length of the longest
/// entry that starts there, or one token when nothing matches.
pub open spec fn step_at(tokens: Seq<Seq<char>>, i: int, dict: Map<Seq<char>, DictRecord>) -> nat {
    let n = longest_entry(tokens, i, window(tokens, i), dict);
    if n == 0 {
        1
    } else {
        n
    }
}

/// The surface text emitted at position `i`.
pub open spec fn surface_at(
    tokens: Seq<Seq<char>>,
    i: int,
    dict: Map<Seq<char>, DictRecord>,
) -> Seq<char> {
    join(tokens.subrange(i, i + step_at(tokens, i, dict)))
}

/// What is emitted for one surface text: its rendering when a record
/// resolves, the text itself when none does.
pub open spec fn piece<A: Annotator + ?Sized>(
    annotator: &A,
    surface: Seq<char>,
    dict: Map<Seq<char>, DictRecord>,
    lemmas: Map<Seq<char>, String>,
    def_length: i32,
    including_phoneme: bool,
    hint_level: i32,
) -> Seq<char> {
    match resolve(surface, dict, lemmas, hint_level) {
        Some(record) => annotator.rendering(&record, surface, def_length, including_phoneme),
        None => surface,
    }
}

/// The number of tokens from position `i` on.
pub open spec fn tokens_left(tokens: Seq<Seq<char>>, i: int) -> nat {
    if 0 <= i < tokens.len() {
        (tokens.len() - i) as nat
    } else {
        0
    }
}

/// The pieces emitted from position `i` on, each followed by one space.
pub open spec fn pieces_from<A: Annotator + ?Sized>(
    annotator: &A,
    tokens: Seq<Seq<char>>,
    i: int,
    dict: Map<Seq<char>, DictRecord>,
    lemmas: Map<Seq<char>, String>,
    def_length: i32,
    including_phoneme: bool,
    hint_level: i32,
) -> Seq<char>
    decreases tokens_left(tokens, i),
{
    if 0 <= i < tokens.len() {
        piece(
            annotator,
            surface_at(tokens, i, dict),
            dict,
            lemmas,
            def_length,
            including_phoneme,
            hint_level,
        ) + seq![' '] + pieces_from(
            annotator,
            tokens,
            i + step_at(tokens, i, dict),
            dict,
            lemmas,
            def_length,
            including_phoneme,
            hint_level,
        )
    } else {
        Seq::empty()
    }
}

/// The annotated form of `text`: its tokens are scanned from left to right,
/// the longest dictionary entry is taken at each position, every piece is
/// followed by a space, and the white space at the end is removed.
pub open spec fn annotated<A: Annotator + ?Sized>(
    annotator: &A,
    text: Seq<char>,
    dict: Map<Seq<char>, DictRecord>,
    lemmas: Map<Seq<char>, String>,
    def_length: i32,
    including_phoneme: bool,
    hint_level: i32,
) -> Seq<char> {
    trim_end_of(
        pieces_from(
            annotator,
            split_whitespace(text),
            0,
            dict,
            lemmas,
            def_length,
            including_phoneme,
            hint_level,
        ),
    )
}

/// No run of at most `MAX_PHRASE_LENGTH` consecutive tokens resolves to a
/// record.
pub open spec fn nothing_resolves(
    tokens: Seq<Seq<char>>,
    dict: Map<Seq<char>, DictRecord>,
    lemmas: Map<Seq<char>, String>,
    hint_level: i32,
) -> bool {
    forall|i: int, n: int|
        0 <= i && 1 <= n <= MAX_PHRASE_LENGTH && i + n <= tokens.len() ==> resolve(
            #[trigger] join(tokens.subrange(i, i + n)),
            dict,
            lemmas,
            hint_level,
        ) is None
}

/// Tells whether `v` holds a space.
pub fn contains_space(v: &Vec<char>) -> (b: bool)
    ensures
        b == v@.contains(' '),
{
    let mut i: usize = 0;
    while i < v.len()
        invariant
            i <= v.len(),
            forall|k: int| 0 <= k < i ==> v@[k] != ' ',
        decreases v.len() - i,
    {
        if v[i] == ' ' {
            return true;
        }
        i += 1;
    }
    false
}

/// Looks up a cleaned, lowercase core: directly, else, for a single token,
/// through its base form; the record must pass the difficulty gate.
pub fn lookup_record<'a>(
    core: &str,
    single: bool,
    wordwise_dict: &'a StringHashMap<DictRecord>,
    lemma_dict: &StringHashMap<String>,
    hint_level: i32,
) -> (r: Option<&'a DictRecord>)
    ensures
        match r {
            Some(record) => lookup(core@, single, wordwise_dict@, lemma_dict@, hint_level) == Some(
                *record,
            ),
            None => lookup(core@, single, wordwise_dict@, lemma_dict@, hint_level) is None,
        },
{
    if let Some(dict_record) = wordwise_dict.get(core) {
        if dict_record.hint_lvl >= hint_level {
            return Some(dict_record);
        }
        return None;
    }
    if single {
        if let Some(normal_form) = lemma_dict.get(core) {
            if let Some(dict_record) = wordwise_dict.get(normal_form.as_str()) {
                if dict_record.hint_lvl >= hint_level {
                    return Some(dict_record);
                }
                return None;
            }
        }
    }
    None
}

/// Resolves the surface text `word` to its record, if it has one.
pub fn resolve_chars<'a>(
    word: &Vec<char>,
    wordwise_dict: &'a StringHashMap<DictRecord>,
    lemma_dict: &StringHashMap<String>,
    hint_level: i32,
) -> (r: Option<&'a DictRecord>)
    ensures
        match r {
            Some(record) => resolve(word@, wordwise_dict@, lemma_dict@, hint_level) == Some(
                *record,
            ),
            None => resolve(word@, wordwise_dict@, lemma_dict@, hint_level) is None,
        },
{
    let core = lowercase_core(word);
    let single = !contains_space(word);
    lookup_record(core.as_str(), single, wordwise_dict, lemma_dict, hint_level)
}

/// Resolves the surface text `word`, a token or a phrase, to the record that
/// annotates it: the record of its lowercase core, or for a single token
/// with no entry of its own the record of its base form, if the record's
/// hint level is at least `hint_level`.
pub fn get_dict_record<'a>(
    word: &str,
    wordwise_dict: &'a StringHashMap<DictRecord>,
    lemma_dict: &StringHashMap<String>,
    hint_level: i32,
) -> (r: Option<&'a DictRecord>)
    ensures
        match r {
            Some(record) => resolve(word@, wordwise_dict@, lemma_dict@, hint_level) == Some(
                *record,
            ),
            None => resolve(word@, wordwise_dict@, lemma_dict@, hint_level) is None,
        },
{
    let chars = str_chars(word);
    resolve_chars(&chars, wordwise_dict, lemma_dict, hint_level)
}

/// An entry found within `limit` tokens spans at most `limit` tokens, and
/// no longer run of tokens within the limit is an entry.
pub proof fn lemma_longest_entry(
    tokens: Seq<Seq<char>>,
    i: int,
    limit: nat,
    dict: Map<Seq<char>, DictRecord>,
)
    ensures
        longest_entry(tokens, i, limit, dict) <= limit,
        longest_entry(tokens, i, limit, dict) > 0 ==> is_entry(
            join(tokens.subrange(i, i + longest_entry(tokens, i, limit, dict))),
            dict,
        ),
        forall|n: nat|
            longest_entry(tokens, i, limit, dict) < n <= limit ==> !is_entry(
                #[trigger] join(tokens.subrange(i, i + n)),
                dict,
            ),
    decreases limit,
{
    if limit > 0 && !is_entry(join(tokens.subrange(i, i + limit)), dict) {
        lemma_longest_entry(tokens, i, (limit - 1) as nat, dict);
    }
}

/// Tells whether the lowercase core of `phrase` is a dictionary key.
pub fn phrase_is_entry(phrase: &Vec<char>, wordwise_dict: &StringHashMap<DictRecord>) -> (b: bool)
    ensures
        b == is_entry(phrase@, wordwise_dict@),
{
    let core = lowercase_core(phrase);
    wordwise_dict.contains_key(core.as_str())
}

/// Finds what is emitted at token `i`: the surface text of the longest
/// dictionary entry that starts there and spans at most `MAX_PHRASE_LENGTH`
/// tokens, or the token itself when there is none, with the number of tokens
/// that it spans.
pub fn longest_phrase(
    tokens: &Vec<Vec<char>>,
    i: usize,
    wordwise_dict: &StringHashMap<DictRecord>,
) -> (r: (Vec<char>, usize))
    requires
        i < tokens.len(),
    ensures
        r.0@ == surface_at(token_views(tokens@), i as int, wordwise_dict@),
        r.1 == step_at(token_views(tokens@), i as int, wordwise_dict@),
        1 <= r.1 <= MAX_PHRASE_LENGTH,
        i + r.1 <= tokens.len(),
{
    let ghost views = token_views(tokens@);
    let mut phrase: Vec<char> = Vec::new();
    let mut keep: usize = 0;
    let mut longest: usize = 0;
    let mut n: usize = 0;
    assert(views.subrange(i as int, i as int) =~= Seq::<Seq<char>>::empty());
    while n < MAX_PHRASE_LENGTH && n < tokens.len() - i
        invariant
            i < tokens.len(),
            views == token_views(tokens@),
            n <= window(views, i as int),
            phrase@ == join(views.subrange(i as int, i + n)),
            longest == longest_entry(views, i as int, n as nat, wordwise_dict@),
            longest <= n,
            keep <= phrase.len(),
            n >= 1 ==> phrase@.take(keep as int) == join(
                views.subrange(
                    i as int,
                    i + if longest == 0 {
                        1int
                    } else {
                        longest as int
                    },
                ),
            ),
        decreases MAX_PHRASE_LENGTH - n,
    {
        let ghost kept = phrase@.take(keep as int);
        if n > 0 {
            phrase.push(' ');
        }
        push_chars(&mut phrase, &tokens[i + n]);
        n += 1;
        proof {
            let run = views.subrange(i as int, i + n);
            assert(run.drop_last() =~= views.subrange(i as int, i + n - 1));
            assert(run.last() == tokens@[i + n - 1]@);
            assert(phrase@ =~= join(run));
            assert(phrase@.take(keep as int) =~= kept);
        }
        if n == 1 {
            keep = phrase.len();
            assert(phrase@.take(keep as int) =~= phrase@);
        }
        if phrase_is_entry(&phrase, wordwise_dict) {
            longest = n;
            keep = phrase.len();
            assert(phrase@.take(keep as int) =~= phrase@);
        }
    }
    phrase.truncate(keep);
    assert(n == window(views, i as int));
    (phrase, if longest == 0 {
        1
    } else {
        longest
    })
}

/// Annotates `sentence`. Its tokens are scanned from left to right. At each
/// position the longest run of at most `MAX_PHRASE_LENGTH` tokens that is a
/// dictionary entry is taken, or one token when no run is. What was taken is
/// replaced by the annotator's rendering when it resolves to a record whose
/// hint level reaches `hint_level`, and is left as it stands otherwise. The
/// pieces are joined by single spaces. A sentence in which nothing resolves
/// comes back as its tokens, joined by single spaces.
pub fn annotate_phrase<A: Annotator + ?Sized>(
    annotator: &A,
    sentence: &str,
    dict: &StringHashMap<DictRecord>,
    lemma_dict: &StringHashMap<String>,
    def_length: i32,
    including_phoneme: bool,
    hint_level: i32,
) -> (result: String)
    ensures
        result@ == annotated(
            annotator,
            sentence@,
            dict@,
            lemma_dict@,
            def_length,
            including_phoneme,
            hint_level,
        ),
        nothing_resolves(split_whitespace(sentence@), dict@, lemma_dict@, hint_level) ==> result@
            == join(split_whitespace(sentence@)),
{
    proof {
        if nothing_resolves(split_whitespace(sentence@), dict@, lemma_dict@, hint_level) {
            lemma_unmatched_text_is_unchanged(
                annotator,
                sentence@,
                dict@,
                lemma_dict@,
                def_length,
                including_phoneme,
                hint_level,
            );
        }
    }
    let chars = str_chars(sentence);
    let words = split_tokens(&chars);
    let ghost views = token_views(words@);
    let mut out: Vec<char> = Vec::new();
    let mut i: usize = 0;
    while i < words.len()
        invariant
            i <= words.len(),
            views == token_views(words@),
            out@ + pieces_from(
                annotator,
                views,
                i as int,
                dict@,
                lemma_dict@,
                def_length,
                including_phoneme,
                hint_level,
            ) == pieces_from(
                annotator,
                views,
                0,
                dict@,
                lemma_dict@,
                def_length,
                including_phoneme,
                hint_level,
            ),
        decreases words.len() - i,
    {
        let ghost before = out@;
        let (surface, step) = longest_phrase(&words, i, dict);
        match resolve_chars(&surface, dict, lemma_dict, hint_level) {
            Some(dict_record) => {
                let word = chars_to_string(&surface, 0, surface.len());
                assert(word@ =~= surface@);
                let rendered = annotator.annotate(
                    dict_record,
                    word.as_str(),
                    def_length,
                    including_phoneme,
                );
                push_str_chars(&mut out, rendered.as_str());
            },
            None => {
                push_chars(&mut out, &surface);
            },
        }
        out.push(' ');
        proof {
            let here = piece(
                annotator,
                surface@,
                dict@,
                lemma_dict@,
                def_length,
                including_phoneme,
                hint_level,
            );
            let rest = pieces_from(
                annotator,
                views,
                i + step,
                dict@,
                lemma_dict@,
                def_length,
                including_phoneme,
                hint_level,
            );
            assert(out@ =~= before + here + seq![' ']);
            assert(out@ + rest =~= before + (here + seq![' '] + rest));
        }
        i += step;
    }
    assert(out@ =~= pieces_from(
        annotator,
        views,
        0,
        dict@,
        lemma_dict@,
        def_length,
        including_phoneme,
        hint_level,
    ));
    trim_end(&mut out);
    chars_to_string(&out, 0, out.len())
}

} // verus!
