//! Separating the core of a token from the decoration around it.

use crate::text::{
    char_is_decoration, chars_to_string, is_decoration, lowercase_of, str_chars, to_lowercase,
};
use vstd::prelude::*;

verus! {

/// Length of the longest run of decoration at the start of `s`.
pub open spec fn leading_decoration(s: Seq<char>) -> nat
    decreases s.len(),
{
    if s.len() > 0 && is_decoration(s.first()) {
        1 + leading_decoration(s.drop_first())
    } else {
        0
    }
}

/// Length of the longest run of decoration at the end of `s`.
pub open spec fn trailing_decoration(s: Seq<char>) -> nat
    decreases s.len(),
{
    if s.len() > 0 && is_decoration(s.last()) {
        1 + trailing_decoration(s.drop_last())
    } else {
        0
    }
}

/// The decoration at the start of `token`: its longest leading run.
pub open spec fn prefix_of(token: Seq<char>) -> Seq<char> {
    token.take(leading_decoration(token) as int)
}

/// What is left of `token` once its prefix is removed.
pub open spec fn after_prefix(token: Seq<char>) -> Seq<char> {
    token.skip(leading_decoration(token) as int)
}

/// The decoration at the end of `token`: the longest trailing run of what
/// follows the prefix.
pub open spec fn suffix_of(token: Seq<char>) -> Seq<char> {
    let rest = after_prefix(token);
    rest.skip(rest.len() - trailing_decoration(rest))
}

/// The part of `token` between its prefix and its suffix, in its own case.
pub open spec fn stem_of(token: Seq<char>) -> Seq<char> {
    let rest = after_prefix(token);
    rest.take(rest.len() - trailing_decoration(rest))
}

/// The matchable core of `token`: its stem, in lowercase when asked. An
/// empty stem gives an empty core.
pub open spec fn core_of(token: Seq<char>, lowercase: bool) -> Seq<char> {
    if lowercase && stem_of(token).len() > 0 {
        lowercase_of(stem_of(token))
    } else {
        stem_of(token)
    }
}

/// The leading run lies within `s`, holds decoration only, and ends at the
/// first character that is none.
pub proof fn lemma_leading_decoration(s: Seq<char>)
    ensures
        leading_decoration(s) <= s.len(),
        forall|i: int| 0 <= i < leading_decoration(s) ==> is_decoration(#[trigger] s[i]),
        leading_decoration(s) < s.len() ==> !is_decoration(s[leading_decoration(s) as int]),
    decreases s.len(),
{
    if s.len() > 0 && is_decoration(s.first()) {
        let t = s.drop_first();
        lemma_leading_decoration(t);
        assert forall|i: int| 0 <= i < leading_decoration(s) implies is_decoration(
            #[trigger] s[i],
        ) by {
            if i > 0 {
                assert(s[i] == t[i - 1]);
            }
        }
        if leading_decoration(s) < s.len() {
            assert(s[leading_decoration(s) as int] == t[leading_decoration(t) as int]);
        }
    }
}

/// The trailing run lies within `s`, holds decoration only, and starts just
/// after the last character that is none.
pub proof fn lemma_trailing_decoration(s: Seq<char>)
    ensures
        trailing_decoration(s) <= s.len(),
        forall|i: int|
            s.len() - trailing_decoration(s) <= i < s.len() ==> is_decoration(#[trigger] s[i]),
        trailing_decoration(s) < s.len() ==> !is_decoration(
            s[s.len() - trailing_decoration(s) - 1],
        ),
    decreases s.len(),
{
    if s.len() > 0 && is_decoration(s.last()) {
        let t = s.drop_last();
        lemma_trailing_decoration(t);
        assert forall|i: int| s.len() - trailing_decoration(s) <= i < s.len() implies is_decoration(
            #[trigger] s[i],
        ) by {
            if i < s.len() - 1 {
                assert(s[i] == t[i]);
            }
        }
        if trailing_decoration(s) < s.len() {
            assert(s[s.len() - trailing_decoration(s) - 1] == t[t.len() - trailing_decoration(t)
                - 1]);
        }
    }
}

/// Cleaning loses nothing: prefix, stem and suffix, put back together, are
/// the token, and the core is the stem in the case that was asked for. The
/// prefix and the suffix hold decoration only, and a stem that is not empty
/// neither starts nor ends with decoration. A token of decoration only is
/// all prefix, and an empty token gives three empty parts.
pub proof fn lemma_clean_round_trip(token: Seq<char>, lowercase: bool)
    ensures
        prefix_of(token) + stem_of(token) + suffix_of(token) == token,
        prefix_of(token) + core_of(token, false) + suffix_of(token) == token,
        core_of(token, true) == if stem_of(token).len() > 0 {
            lowercase_of(stem_of(token))
        } else {
            Seq::<char>::empty()
        },
        (forall|i: int| 0 <= i < token.len() ==> is_decoration(#[trigger] token[i])) ==> prefix_of(
            token,
        ) == token && core_of(token, lowercase).len() == 0 && suffix_of(token).len() == 0,
        forall|i: int| 0 <= i < prefix_of(token).len() ==> is_decoration(#[trigger] prefix_of(token)[i]),
        forall|i: int| 0 <= i < suffix_of(token).len() ==> is_decoration(#[trigger] suffix_of(token)[i]),
        stem_of(token).len() > 0 ==> !is_decoration(stem_of(token).first()) && !is_decoration(
            stem_of(token).last(),
        ),
{
    lemma_leading_decoration(token);
    let rest = after_prefix(token);
    lemma_trailing_decoration(rest);
    assert(stem_of(token) + suffix_of(token) =~= rest);
    assert(prefix_of(token) + rest =~= token);
    assert(prefix_of(token) + stem_of(token) + suffix_of(token) =~= token);
    if stem_of(token).len() == 0 {
        assert(core_of(token, true) =~= Seq::<char>::empty());
    }
    if forall|i: int| 0 <= i < token.len() ==> is_decoration(#[trigger] token[i]) {
        assert(leading_decoration(token) == token.len());
        assert(prefix_of(token) =~= token);
    }
    if stem_of(token).len() > 0 {
        assert(stem_of(token).first() == token[leading_decoration(token) as int]);
        assert(stem_of(token).last() == rest[rest.len() - trailing_decoration(rest) - 1]);
    }
}

/// The bounds of the stem of `v`: it is `v[start..end]`, the prefix is
/// `v[..start]` and the suffix `v[end..]`.
pub fn stem_bounds(v: &Vec<char>) -> (r: (usize, usize))
    ensures
        r.0 <= r.1 <= v.len(),
        v@.subrange(0, r.0 as int) == prefix_of(v@),
        v@.subrange(r.0 as int, r.1 as int) == stem_of(v@),
        v@.subrange(r.1 as int, v.len() as int) == suffix_of(v@),
{
    let n = v.len();
    let mut start: usize = 0;
    assert(v@.skip(0) =~= v@);
    while start < n && char_is_decoration(v[start])
        invariant
            start <= n == v.len(),
            leading_decoration(v@) == start + leading_decoration(v@.skip(start as int)),
        decreases n - start,
    {
        assert(v@.skip(start as int).drop_first() =~= v@.skip(start + 1));
        start += 1;
    }
    let ghost rest = v@.skip(start as int);
    assert(leading_decoration(rest) == 0);
    assert(rest.take(n - start) =~= rest);
    let mut end: usize = n;
    while end > start && char_is_decoration(v[end - 1])
        invariant
            start <= end <= n == v.len(),
            rest == v@.skip(start as int),
            trailing_decoration(rest) == (n - end) + trailing_decoration(rest.take(end - start)),
        decreases end,
    {
        assert(rest.take(end - start).drop_last() =~= rest.take(end - start - 1));
        end -= 1;
    }
    proof {
        assert(trailing_decoration(rest.take(end - start)) == 0);
        assert(v@.subrange(0, start as int) =~= prefix_of(v@));
        assert(v@.subrange(start as int, end as int) =~= stem_of(v@));
        assert(v@.subrange(end as int, n as int) =~= suffix_of(v@));
    }
    (start, end)
}

/// The lowercase core of `word`, as a string.
pub fn lowercase_core(word: &Vec<char>) -> (core: String)
    ensures
        core@ == core_of(word@, true),
{
    let (start, end) = stem_bounds(word);
    if start == end {
        return String::new();
    }
    let stem = chars_to_string(word, start, end);
    to_lowercase(stem.as_str())
}

/// Splits a token into its matchable core and the decoration around it.
pub trait Clean {
    /// Returns the core of `word`, then its prefix, then its suffix. The
    /// core is in lowercase when `lowercase` is set; prefix and suffix are
    /// never changed.
    fn clean_word(word: &str, lowercase: bool) -> (r: (String, String, String))
        ensures
            r.0@ == core_of(word@, lowercase),
            r.1@ == prefix_of(word@),
            r.2@ == suffix_of(word@),
            !lowercase ==> r.1@ + r.0@ + r.2@ == word@,
            word@.len() == 0 ==> r.0@.len() == 0 && r.1@.len() == 0 && r.2@.len() == 0,
    ;
}

/// The cleaner that strips the decoration of `is_decoration`.
pub struct Cleaner;

impl Clean for Cleaner {
    fn clean_word(word: &str, lowercase: bool) -> (r: (String, String, String)) {
        let chars = str_chars(word);
        let (start, end) = stem_bounds(&chars);
        let prefix = chars_to_string(&chars, 0, start);
        let stem = chars_to_string(&chars, start, end);
        let suffix = chars_to_string(&chars, end, chars.len());
        proof {
            lemma_clean_round_trip(word@, lowercase);
        }
        if lowercase && start < end {
            (to_lowercase(stem.as_str()), prefix, suffix)
        } else {
            (stem, prefix, suffix)
        }
    }
}

} // verus!
