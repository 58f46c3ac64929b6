//! The vocabulary of the model: two sentinels and the words between them.

use vstd::prelude::*;

verus! {

/// What a token stands for: the start sentinel, a word by its text, or the
/// end sentinel. Two words are the same symbol exactly when their texts are
/// equal.
pub enum Symbol {
    Start,
    Word(Seq<char>),
    End,
}

/// A word is never empty.
pub open spec fn proper(s: Symbol) -> bool {
    match s {
        Symbol::Word(text) => text.len() > 0,
        _ => true,
    }
}

/// Three consecutive symbols of a sentence: a state and its successor.
pub type Triplet = (Symbol, Symbol, Symbol);

/// An atomic unit of a sentence.
#[derive(Debug, PartialEq, Eq)]
pub enum Token {
    /// Marks the beginning of a sentence.
    Start,
    /// A run of text without whitespace, with its case and punctuation.
    Word(String),
    /// Marks the end of a sentence.
    End,
}

impl View for Token {
    type V = Symbol;

    open spec fn view(&self) -> Symbol {
        match self {
            Token::Start => Symbol::Start,
            Token::Word(text) => Symbol::Word(text@),
            Token::End => Symbol::End,
        }
    }
}

impl Clone for Token {
    fn clone(&self) -> (r: Self)
        ensures
            r@ == self@,
    {
        match self {
            Token::Start => Token::Start,
            Token::Word(text) => Token::Word(text.clone()),
            Token::End => Token::End,
        }
    }
}

impl Token {
    /// Whether two tokens stand for the same symbol.
    pub fn same(&self, other: &Token) -> (b: bool)
        ensures
            b == (self@ == other@),
    {
        match (self, other) {
            (Token::Start, Token::Start) => true,
            (Token::End, Token::End) => true,
            (Token::Word(a), Token::Word(b)) => *a == *b,
            _ => false,
        }
    }
}

} // verus!
