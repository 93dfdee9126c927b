//! Normalisation of raw lines and their division into tokens.

use vstd::prelude::*;
use vstd::std_specs::iter::IteratorSpec;
use vstd::string::*;

verus! {

/// The first character that `char::to_lowercase` yields for `c`.
pub uninterp spec fn lowercase_of(c: char) -> char;

/// Whether `char::is_alphabetic` holds of `c`.
pub uninterp spec fn alphabetic(c: char) -> bool;

/// Whether `char::is_whitespace` holds of `c`.
pub uninterp spec fn whitespace(c: char) -> bool;

/// Calls `char::to_lowercase` and takes the first character of the mapping,
/// which std documents to hold at least one character. The result is named
/// `lowercase_of`; nothing more is claimed of it.
#[verifier::external_body]
fn lowercase_first(c: char) -> (r: char)
    ensures
        r == lowercase_of(c),
{
    c.to_lowercase().next().unwrap()
}

/// Calls `char::is_alphabetic`; the result is named `alphabetic`.
#[verifier::external_body]
fn is_alphabetic_char(c: char) -> (r: bool)
    ensures
        r == alphabetic(c),
{
    c.is_alphabetic()
}

/// Calls `char::is_whitespace`; the result is named `whitespace`.
#[verifier::external_body]
fn is_whitespace_char(c: char) -> (r: bool)
    ensures
        r == whitespace(c),
{
    c.is_whitespace()
}

/// `String::push` puts one character at the end of the string.
pub assume_specification[ String::push ](s: &mut String, c: char)
    ensures
        final(s)@ == old(s)@.push(c),
;

/// The characters of `s`, in order.
fn chars_of(s: &str) -> (r: Vec<char>)
    ensures
        r@ == s@,
{
    broadcast use {axiom_spec_iter, next_postcondition};

    let mut it = s.chars();
    let mut out: Vec<char> = Vec::new();
    assert(out@ + it.remaining() =~= s@);
    loop
        invariant
            it.obeys_prophetic_iter_laws(),
            it.decrease() is Some,
            out@ + it.remaining() == s@,
        ensures
            out@ == s@,
        decreases it.decrease()->0,
    {
        match it.next() {
            Some(c) => {
                out.push(c);
                assert(out@ + it.remaining() =~= s@);
            },
            None => {
                assert(out@ =~= s@);
                break ;
            },
        }
    }
    out
}

/// The views of a sequence of strings.
pub open spec fn words(v: Seq<String>) -> Seq<Seq<char>> {
    v.map_values(|s: String| s@)
}

/// What one character of a line becomes: its lowercase form, set between
/// two spaces unless it is alphabetic.
pub open spec fn normalized_char(c: char) -> Seq<char> {
    let l = lowercase_of(c);
    if alphabetic(l) {
        seq![l]
    } else {
        seq![' ', l, ' ']
    }
}

/// The normalised form of a line: the normalised characters, in order.
pub open spec fn normalized(s: Seq<char>) -> Seq<char>
    decreases s.len(),
{
    if s.len() == 0 {
        Seq::empty()
    } else {
        normalized(s.drop_last()) + normalized_char(s.last())
    }
}

/// A line is blank when it holds nothing but whitespace.
pub open spec fn blank(s: Seq<char>) -> bool {
    forall|i: int| 0 <= i < s.len() ==> whitespace(#[trigger] s[i])
}

/// The word in progress, as a sequence of zero or one tokens.
pub open spec fn pending(word: Seq<char>) -> Seq<Seq<char>> {
    if word.len() == 0 {
        Seq::empty()
    } else {
        seq![word]
    }
}

/// The tokens of `s` when `word` has been read just before it: the maximal
/// runs of characters other than a space.
pub open spec fn tokens_after(word: Seq<char>, s: Seq<char>) -> Seq<Seq<char>>
    decreases s.len(),
{
    if s.len() == 0 {
        pending(word)
    } else if s[0] == ' ' {
        pending(word) + tokens_after(Seq::empty(), s.skip(1))
    } else {
        tokens_after(word.push(s[0]), s.skip(1))
    }
}

/// The tokens of a line: it is cut at every space, and empty pieces are
/// dropped.
pub open spec fn tokens(s: Seq<char>) -> Seq<Seq<char>> {
    tokens_after(Seq::empty(), s)
}

/// A sentence written out: every word followed by one space.
pub open spec fn joined(sentence: Seq<Seq<char>>) -> Seq<char>
    decreases sentence.len(),
{
    if sentence.len() == 0 {
        Seq::empty()
    } else {
        joined(sentence.drop_last()) + sentence.last().push(' ')
    }
}

/// Normalises one line of training text.
pub fn normalize(s: &str) -> (out: String)
    ensures
        out@ == normalized(s@),
{
    let chars = chars_of(s);
    let mut out = String::new();
    let mut i: usize = 0;
    while i < chars.len()
        invariant
            i <= chars.len(),
            chars@ == s@,
            out@ == normalized(chars@.take(i as int)),
        decreases chars.len() - i,
    {
        let l = lowercase_first(chars[i]);
        proof {
            assert(chars@.take(i + 1).drop_last() =~= chars@.take(i as int));
        }
        if is_alphabetic_char(l) {
            out.push(l);
            assert(out@ =~= normalized(chars@.take(i as int)) + seq![l]);
        } else {
            out.push(' ');
            out.push(l);
            out.push(' ');
            assert(out@ =~= normalized(chars@.take(i as int)) + seq![' ', l, ' ']);
        }
        i += 1;
    }
    proof {
        assert(chars@.take(i as int) =~= chars@);
    }
    out
}

/// Whether a line holds nothing but whitespace.
pub fn is_blank(s: &str) -> (b: bool)
    ensures
        b == blank(s@),
{
    let chars = chars_of(s);
    let mut i: usize = 0;
    while i < chars.len()
        invariant
            i <= chars.len(),
            chars@ == s@,
            forall|k: int| 0 <= k < i ==> whitespace(#[trigger] chars@[k]),
        decreases chars.len() - i,
    {
        if !is_whitespace_char(chars[i]) {
            return false;
        }
        i += 1;
    }
    true
}

/// Cuts a line at its spaces and returns the pieces that are not empty.
pub fn split_tokens(s: &str) -> (out: Vec<String>)
    ensures
        words(out@) == tokens(s@),
{
    let chars = chars_of(s);
    let mut out: Vec<String> = Vec::new();
    let mut word = String::new();
    let mut i: usize = 0;
    proof {
        assert(chars@.skip(0) =~= chars@);
        assert(words(out@) + tokens(s@) =~= tokens(s@));
    }
    while i < chars.len()
        invariant
            i <= chars.len(),
            chars@ == s@,
            words(out@) + tokens_after(word@, chars@.skip(i as int)) == tokens(s@),
        decreases chars.len() - i,
    {
        let ghost goal = words(out@) + tokens_after(word@, chars@.skip(i as int));
        let c = chars[i];
        let ghost before = words(out@);
        let ghost run = word@;
        proof {
            assert(chars@.skip(i as int).skip(1) =~= chars@.skip(i + 1));
            assert(chars@.skip(i as int)[0] == c);
        }
        if c == ' ' {
            if !word.as_str().is_empty() {
                out.push(word);
                assert(words(out@) =~= before + pending(run));
                word = String::new();
            }
            proof {
                let rest = tokens_after(Seq::empty(), chars@.skip(i + 1));
                assert(words(out@) =~= before + pending(run));
                assert(word@ =~= Seq::<char>::empty());
                assert((before + pending(run)) + rest =~= before + (pending(run) + rest));
                assert(words(out@) + tokens_after(word@, chars@.skip(i + 1)) == goal);
            }
        } else {
            word.push(c);
            assert(words(out@) + tokens_after(word@, chars@.skip(i + 1)) == goal);
        }
        i += 1;
    }
    if !word.as_str().is_empty() {
        let ghost before = words(out@);
        let ghost run = word@;
        out.push(word);
        assert(words(out@) =~= before + seq![run]);
    }
    assert(words(out@) =~= tokens(s@));
    out
}

/// Writes a sentence out: every word followed by one space.
pub fn join_sentence(v: Vec<String>) -> (s: String)
    ensures
        s@ == joined(words(v@)),
{
    let mut s = String::new();
    let mut i: usize = 0;
    while i < v.len()
        invariant
            i <= v.len(),
            s@ == joined(words(v@).take(i as int)),
        decreases v.len() - i,
    {
        let ghost before = s@;
        s.append(v[i].as_str());
        s.append(" ");
        proof {
            reveal_strlit(" ");
            let said = words(v@).take(i + 1);
            assert(said.drop_last() =~= words(v@).take(i as int));
            assert(said.last() == v@[i as int]@);
            assert(s@ =~= before + said.last().push(' '));
        }
        i += 1;
    }
    assert(words(v@).take(i as int) =~= words(v@));
    s
}

} // verus!
