//! Splitting a message into sentences, and a sentence into words.

use vstd::prelude::*;

verus! {

/// Whether `char::is_whitespace` holds of a character.
pub uninterp spec fn char_is_whitespace(c: char) -> bool;

/// Whether `char::is_alphanumeric` holds of a character.
pub uninterp spec fn char_is_alphanumeric(c: char) -> bool;

/// Calls `char::is_whitespace`; the answer is taken as given, under the name
/// `char_is_whitespace`.
#[verifier::external_body]
pub(crate) fn is_whitespace(c: char) -> (b: bool)
    ensures
        b == char_is_whitespace(c),
{
    c.is_whitespace()
}

/// Calls `char::is_alphanumeric`; the answer is taken as given, under the
/// name `char_is_alphanumeric`.
#[verifier::external_body]
pub(crate) fn is_alphanumeric(c: char) -> (b: bool)
    ensures
        b == char_is_alphanumeric(c),
{
    c.is_alphanumeric()
}

/// The characters that end a sentence.
pub open spec fn is_delimiter(c: char) -> bool {
    c == '.' || c == '!' || c == '?' || c == '\n'
}

/// The sentences of `s` from position `i` on, where `open` is the part of
/// the current sentence already read: a delimiter closes the current
/// sentence and is dropped, and the end of the text closes the last one.
pub open spec fn sentences_from(s: Seq<char>, i: int, open: Seq<char>) -> Seq<Seq<char>>
    decreases s.len() - i,
{
    if i < 0 || i >= s.len() {
        seq![open]
    } else if is_delimiter(s[i]) {
        seq![open] + sentences_from(s, i + 1, Seq::empty())
    } else {
        sentences_from(s, i + 1, open.push(s[i]))
    }
}

/// The sentences of a message: the stretches between delimiters, empty ones
/// included. A message without a delimiter is one sentence.
pub open spec fn sentences(s: Seq<char>) -> Seq<Seq<char>> {
    sentences_from(s, 0, Seq::empty())
}

/// A finished run of characters as a list of words: one word, or none if
/// the run is empty.
pub open spec fn closed_word(run: Seq<char>) -> Seq<Seq<char>> {
    if run.len() > 0 {
        seq![run]
    } else {
        Seq::empty()
    }
}

/// The words of `s` from position `i` on, where `open` is the part of the
/// current word already read: whitespace closes the current word.
pub open spec fn words_from(s: Seq<char>, i: int, open: Seq<char>) -> Seq<Seq<char>>
    decreases s.len() - i,
{
    if i < 0 || i >= s.len() {
        closed_word(open)
    } else if char_is_whitespace(s[i]) {
        closed_word(open) + words_from(s, i + 1, Seq::empty())
    } else {
        words_from(s, i + 1, open.push(s[i]))
    }
}

/// The words of a sentence: its maximal runs of characters that are not
/// whitespace, in order.
pub open spec fn words(s: Seq<char>) -> Seq<Seq<char>> {
    words_from(s, 0, Seq::empty())
}

/// The number of alphanumeric characters in a text.
pub open spec fn alphanumeric_count(s: Seq<char>) -> nat
    decreases s.len(),
{
    if s.len() == 0 {
        0
    } else {
        alphanumeric_count(s.drop_last()) + if char_is_alphanumeric(s.last()) {
            1nat
        } else {
            0nat
        }
    }
}

/// The texts of a list of string slices.
pub open spec fn slice_texts(v: Seq<&str>) -> Seq<Seq<char>> {
    Seq::new(v.len(), |i: int| v[i]@)
}

/// The texts of a list of strings.
pub open spec fn string_texts(v: Seq<String>) -> Seq<Seq<char>> {
    Seq::new(v.len(), |i: int| v[i]@)
}

/// The characters of a string, one by one.
pub fn chars_of(s: &str) -> (v: Vec<char>)
    ensures
        v@ == s@,
{
    let mut v: Vec<char> = Vec::new();
    for c in it: s.chars()
        invariant
            it.seq() == s@,
            v@ == it.seq().take(it.index() as int),
    {
        v.push(c);
        proof {
            assert(v@ =~= it.seq().take(it.index() + 1));
        }
    }
    proof {
        assert(v@ =~= s@);
    }
    v
}

/// Whether a character ends a sentence.
pub fn ends_sentence(c: char) -> (b: bool)
    ensures
        b == is_delimiter(c),
{
    c == '.' || c == '!' || c == '?' || c == '\n'
}

/// Splits a message into its sentences.
pub fn split_sentences<'a>(s: &'a str) -> (r: Vec<&'a str>)
    ensures
        slice_texts(r@) == sentences(s@),
{
    let cs = chars_of(s);
    let n = cs.len();
    let mut r: Vec<&'a str> = Vec::new();
    let mut start: usize = 0;
    let mut i: usize = 0;
    proof {
        assert(s@.subrange(0, 0) =~= Seq::<char>::empty());
        assert(slice_texts(r@) =~= Seq::<Seq<char>>::empty());
        assert(Seq::<Seq<char>>::empty() + sentences(s@) =~= sentences(s@));
    }
    while i < n
        invariant
            cs@ == s@,
            n == cs.len(),
            start <= i <= n,
            sentences(s@) == slice_texts(r@) + sentences_from(
                s@,
                i as int,
                s@.subrange(start as int, i as int),
            ),
        decreases n - i,
    {
        let ghost before = slice_texts(r@);
        let ghost open = s@.subrange(start as int, i as int);
        if ends_sentence(cs[i]) {
            let piece = s.substring_char(start, i);
            r.push(piece);
            start = i + 1;
            proof {
                assert(slice_texts(r@) =~= before + seq![open]);
                assert(s@.subrange(start as int, start as int) =~= Seq::<char>::empty());
                assert(before + (seq![open] + sentences_from(s@, i + 1, Seq::empty()))
                    =~= (before + seq![open]) + sentences_from(s@, i + 1, Seq::empty()));
            }
        } else {
            proof {
                assert(open.push(s@[i as int]) =~= s@.subrange(start as int, i + 1));
            }
        }
        i = i + 1;
    }
    let ghost before = slice_texts(r@);
    let piece = s.substring_char(start, n);
    r.push(piece);
    proof {
        assert(slice_texts(r@) =~= before + seq![s@.subrange(start as int, n as int)]);
    }
    r
}

/// Splits a sentence into its words.
pub fn split_words(s: &str) -> (r: Vec<String>)
    ensures
        string_texts(r@) == words(s@),
        forall|k: int| 0 <= k < r@.len() ==> (#[trigger] r@[k])@.len() > 0,
{
    let cs = chars_of(s);
    let n = cs.len();
    let mut r: Vec<String> = Vec::new();
    let mut start: usize = 0;
    let mut i: usize = 0;
    proof {
        assert(s@.subrange(0, 0) =~= Seq::<char>::empty());
        assert(string_texts(r@) =~= Seq::<Seq<char>>::empty());
        assert(Seq::<Seq<char>>::empty() + words(s@) =~= words(s@));
    }
    while i < n
        invariant
            cs@ == s@,
            n == cs.len(),
            start <= i <= n,
            words(s@) == string_texts(r@) + words_from(
                s@,
                i as int,
                s@.subrange(start as int, i as int),
            ),
            forall|k: int| 0 <= k < r@.len() ==> (#[trigger] r@[k])@.len() > 0,
        decreases n - i,
    {
        let ghost before = string_texts(r@);
        let ghost open = s@.subrange(start as int, i as int);
        if is_whitespace(cs[i]) {
            if start < i {
                let word = String::from_str(s.substring_char(start, i));
                r.push(word);
                proof {
                    assert(string_texts(r@) =~= before + seq![open]);
                }
            }
            start = i + 1;
            proof {
                assert(s@.subrange(start as int, start as int) =~= Seq::<char>::empty());
                assert(before + (closed_word(open) + words_from(s@, i + 1, Seq::empty()))
                    =~= (before + closed_word(open)) + words_from(s@, i + 1, Seq::empty()));
                assert(before + Seq::<Seq<char>>::empty() =~= before);
            }
        } else {
            proof {
                assert(open.push(s@[i as int]) =~= s@.subrange(start as int, i + 1));
            }
        }
        i = i + 1;
    }
    if start < n {
        let ghost before = string_texts(r@);
        let word = String::from_str(s.substring_char(start, n));
        r.push(word);
        proof {
            assert(string_texts(r@) =~= before + seq![s@.subrange(start as int, n as int)]);
        }
    } else {
        proof {
            assert(string_texts(r@) + Seq::<Seq<char>>::empty() =~= string_texts(r@));
        }
    }
    r
}

/// Counts the alphanumeric characters of a text.
pub fn count_alphanumeric(s: &str) -> (n: usize)
    ensures
        n == alphanumeric_count(s@),
{
    let cs = chars_of(s);
    let mut n: usize = 0;
    let mut i: usize = 0;
    while i < cs.len()
        invariant
            cs@ == s@,
            i <= cs.len(),
            n <= i,
            n == alphanumeric_count(s@.take(i as int)),
        decreases cs.len() - i,
    {
        proof {
            assert(s@.take(i + 1).drop_last() =~= s@.take(i as int));
        }
        if is_alphanumeric(cs[i]) {
            n = n + 1;
        }
        i = i + 1;
    }
    proof {
        assert(s@.take(i as int) =~= s@);
    }
    n
}

} // verus!
