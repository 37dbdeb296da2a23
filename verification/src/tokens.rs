//! Splitting text into tokens at white space, and joining tokens again.

use crate::text::{char_is_whitespace, is_whitespace};
use vstd::prelude::*;

verus! {

/// The tokens of `s`: its maximal runs of characters that are not white
/// space, from left to right. Read from the end: a white space character adds
/// nothing, a character that follows a token character extends the last
/// token, and any other character starts a new one.
pub open spec fn split_whitespace(s: Seq<char>) -> Seq<Seq<char>>
    decreases s.len(),
{
    if s.len() == 0 {
        Seq::empty()
    } else {
        let before = split_whitespace(s.drop_last());
        let c = s.last();
        if is_whitespace(c) {
            before
        } else if s.len() >= 2 && !is_whitespace(s[s.len() - 2]) {
            before.drop_last().push(before.last().push(c))
        } else {
            before.push(seq![c])
        }
    }
}

/// The tokens joined by single spaces.
pub open spec fn join(tokens: Seq<Seq<char>>) -> Seq<char>
    decreases tokens.len(),
{
    if tokens.len() == 0 {
        Seq::empty()
    } else if tokens.len() == 1 {
        tokens[0]
    } else {
        join(tokens.drop_last()) + seq![' '] + tokens.last()
    }
}

/// A token: not empty, and free of white space.
pub open spec fn is_token(t: Seq<char>) -> bool {
    t.len() > 0 && forall|k: int| 0 <= k < t.len() ==> !is_whitespace(#[trigger] t[k])
}

/// Length of the longest run of white space at the end of `s`.
pub open spec fn trailing_whitespace(s: Seq<char>) -> nat
    decreases s.len(),
{
    if s.len() > 0 && is_whitespace(s.last()) {
        1 + trailing_whitespace(s.drop_last())
    } else {
        0
    }
}

/// `s` without the white space at its end.
pub open spec fn trim_end_of(s: Seq<char>) -> Seq<char> {
    s.take(s.len() - trailing_whitespace(s))
}

/// Tells whether `s` holds white space only; the empty text does.
pub open spec fn is_blank(s: Seq<char>) -> bool {
    forall|k: int| 0 <= k < s.len() ==> is_whitespace(#[trigger] s[k])
}

/// The character sequences that the vectors of `v` hold.
pub open spec fn token_views(v: Seq<Vec<char>>) -> Seq<Seq<char>> {
    Seq::new(v.len(), |k: int| v[k]@)
}

/// Every element of `split_whitespace(s)` is a token, and a text that ends
/// with a token character has at least one.
pub proof fn lemma_split_gives_tokens(s: Seq<char>)
    ensures
        forall|k: int|
            0 <= k < split_whitespace(s).len() ==> is_token(#[trigger] split_whitespace(s)[k]),
        s.len() > 0 && !is_whitespace(s.last()) ==> split_whitespace(s).len() > 0,
    decreases s.len(),
{
    if s.len() > 0 {
        let before = split_whitespace(s.drop_last());
        lemma_split_gives_tokens(s.drop_last());
        let c = s.last();
        if is_whitespace(c) {
        } else if s.len() >= 2 && !is_whitespace(s[s.len() - 2]) {
            assert(s.drop_last().last() == s[s.len() - 2]);
            let grown = before.last().push(c);
            assert(is_token(before.last()));
            assert(is_token(grown)) by {
                assert forall|k: int| 0 <= k < grown.len() implies !is_whitespace(
                    #[trigger] grown[k],
                ) by {
                    if k < before.last().len() {
                        assert(grown[k] == before.last()[k]);
                    }
                }
            }
            assert forall|k: int| 0 <= k < split_whitespace(s).len() implies is_token(
                #[trigger] split_whitespace(s)[k],
            ) by {
                if k < before.len() - 1 {
                    assert(split_whitespace(s)[k] == before[k]);
                }
            }
        } else {
            assert(is_token(seq![c]));
            assert forall|k: int| 0 <= k < split_whitespace(s).len() implies is_token(
                #[trigger] split_whitespace(s)[k],
            ) by {
                if k < before.len() {
                    assert(split_whitespace(s)[k] == before[k]);
                }
            }
        }
    }
}

/// Joining two runs of tokens, neither empty, is joining each and putting
/// one space between them.
pub proof fn lemma_join_concat(a: Seq<Seq<char>>, b: Seq<Seq<char>>)
    requires
        a.len() > 0,
        b.len() > 0,
    ensures
        join(a + b) == join(a) + seq![' '] + join(b),
    decreases b.len(),
{
    let ab = a + b;
    assert(ab.last() == b.last());
    if b.len() == 1 {
        assert(ab.drop_last() =~= a);
        assert(join(b) == b[0]);
    } else {
        assert(ab.drop_last() =~= a + b.drop_last());
        lemma_join_concat(a, b.drop_last());
        assert(join(ab) =~= join(a) + seq![' '] + join(b));
    }
}

/// A joined run of tokens ends with the last character of its last token.
pub proof fn lemma_join_ends_with_token(tokens: Seq<Seq<char>>)
    requires
        tokens.len() > 0,
        is_token(tokens.last()),
    ensures
        join(tokens).len() > 0,
        join(tokens).last() == tokens.last().last(),
{
}

/// A joined run of two or more tokens holds a space.
pub proof fn lemma_join_holds_space(tokens: Seq<Seq<char>>)
    requires
        tokens.len() >= 2,
    ensures
        join(tokens).contains(' '),
{
    let before = join(tokens.drop_last());
    assert(join(tokens)[before.len() as int] == ' ');
}

/// A token that follows white space, or stands at the start, is split off
/// as it is.
pub proof fn lemma_split_appended_token(s: Seq<char>, t: Seq<char>)
    requires
        is_token(t),
        s.len() > 0 ==> is_whitespace(s.last()),
    ensures
        split_whitespace(s + t) == split_whitespace(s).push(t),
    decreases t.len(),
{
    let whole = s + t;
    let c = t.last();
    assert(whole.last() == c);
    assert(!is_whitespace(c));
    if t.len() == 1 {
        assert(whole.drop_last() =~= s);
        if s.len() > 0 {
            assert(whole[whole.len() - 2] == s.last());
        }
        assert(seq![c] =~= t);
    } else {
        let shorter = t.drop_last();
        assert(is_token(shorter)) by {
            assert forall|k: int| 0 <= k < shorter.len() implies !is_whitespace(
                #[trigger] shorter[k],
            ) by {
                assert(shorter[k] == t[k]);
            }
        }
        lemma_split_appended_token(s, shorter);
        assert(whole.drop_last() =~= s + shorter);
        assert(whole[whole.len() - 2] == t[t.len() - 2]);
        let before = split_whitespace(s).push(shorter);
        assert(before.drop_last() =~= split_whitespace(s));
        assert(before.last().push(c) =~= t);
    }
}

/// Splitting undoes joining: tokens that were joined by single spaces come
/// back as they were.
pub proof fn lemma_split_of_join(tokens: Seq<Seq<char>>)
    requires
        forall|k: int| 0 <= k < tokens.len() ==> is_token(#[trigger] tokens[k]),
    ensures
        split_whitespace(join(tokens)) == tokens,
    decreases tokens.len(),
{
    if tokens.len() == 0 {
        assert(split_whitespace(join(tokens)) =~= tokens);
    } else if tokens.len() == 1 {
        lemma_split_appended_token(Seq::empty(), tokens[0]);
        assert(Seq::<char>::empty() + tokens[0] =~= tokens[0]);
        assert(Seq::<Seq<char>>::empty().push(tokens[0]) =~= tokens);
    } else {
        let before = tokens.drop_last();
        lemma_split_of_join(before);
        let spaced = join(before) + seq![' '];
        assert(spaced.drop_last() =~= join(before));
        assert(is_whitespace(' '));
        assert(split_whitespace(spaced) == before);
        lemma_split_appended_token(spaced, tokens.last());
        assert(before.push(tokens.last()) =~= tokens);
    }
}

/// Splits `chars` into its tokens.
pub fn split_tokens(chars: &Vec<char>) -> (tokens: Vec<Vec<char>>)
    ensures
        token_views(tokens@) == split_whitespace(chars@),
{
    let mut tokens: Vec<Vec<char>> = Vec::new();
    let mut current: Vec<char> = Vec::new();
    let mut i: usize = 0;
    assert(token_views(tokens@) =~= Seq::<Seq<char>>::empty());
    assert(chars@.take(0) =~= Seq::<char>::empty());
    while i < chars.len()
        invariant
            i <= chars.len(),
            current@.len() > 0 <==> (i > 0 && !is_whitespace(chars@[i - 1])),
            split_whitespace(chars@.take(i as int)) == if current@.len() > 0 {
                token_views(tokens@).push(current@)
            } else {
                token_views(tokens@)
            },
        decreases chars.len() - i,
    {
        let c = chars[i];
        let ghost before = chars@.take(i as int);
        let ghost now = chars@.take(i + 1);
        let ghost done = token_views(tokens@);
        let ghost open = current@;
        assert(now.drop_last() =~= before);
        assert(now.last() == c);
        if char_is_whitespace(c) {
            if current.len() > 0 {
                tokens.push(current);
                current = Vec::new();
                assert(token_views(tokens@) =~= done.push(open));
            }
        } else {
            current.push(c);
            proof {
                if i > 0 {
                    assert(now[now.len() - 2] == chars@[i - 1]);
                }
                if open.len() > 0 {
                    assert(done.push(open).drop_last() =~= done);
                    assert(done.push(open).last() == open);
                } else {
                    assert(current@ =~= seq![c]);
                }
            }
        }
        i += 1;
    }
    assert(chars@.take(i as int) =~= chars@);
    if current.len() > 0 {
        let ghost done = token_views(tokens@);
        let ghost open = current@;
        tokens.push(current);
        assert(token_views(tokens@) =~= done.push(open));
    }
    tokens
}

/// Removes the white space at the end of `v`.
pub fn trim_end(v: &mut Vec<char>)
    ensures
        final(v)@ == trim_end_of(old(v)@),
{
    let ghost all = v@;
    assert(all.take(all.len() as int) =~= all);
    while v.len() > 0 && char_is_whitespace(v[v.len() - 1])
        invariant
            v@.len() <= all.len(),
            v@ == all.take(v@.len() as int),
            trailing_whitespace(all) == (all.len() - v@.len()) + trailing_whitespace(v@),
        decreases v.len(),
    {
        assert(v@.drop_last() =~= all.take(v@.len() - 1));
        v.pop();
    }
}

/// Tells whether `chars` holds white space only.
pub fn chars_are_blank(chars: &Vec<char>) -> (b: bool)
    ensures
        b == is_blank(chars@),
{
    let mut i: usize = 0;
    while i < chars.len()
        invariant
            i <= chars.len(),
            forall|k: int| 0 <= k < i ==> is_whitespace(#[trigger] chars@[k]),
        decreases chars.len() - i,
    {
        if !char_is_whitespace(chars[i]) {
            return false;
        }
        i += 1;
    }
    true
}

} // verus!
