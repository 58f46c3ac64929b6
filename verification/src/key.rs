//! Keys under which the table indexes its triplets, so that a triplet is
//! looked up among the few that share its key.

use crate::text::chars_of;
use crate::token::{Symbol, Token, Triplet};
use vstd::prelude::*;

verus! {

/// The modulus of the keys: the largest prime below two to the power 64.
pub(crate) const MODULUS: u64 = 18446744073709551557;

/// A key extended by one value.
pub(crate) open spec fn mixed(h: u64, v: u64) -> u64 {
    ((h as int * 31 + v as int) % (MODULUS as int)) as u64
}

/// A key extended by the characters of a text.
pub(crate) open spec fn text_key(h: u64, text: Seq<char>) -> u64
    decreases text.len(),
{
    if text.len() == 0 {
        h
    } else {
        mixed(text_key(h, text.drop_last()), text.last() as u64)
    }
}

/// A key extended by a symbol.
pub(crate) open spec fn symbol_key(h: u64, s: Symbol) -> u64 {
    match s {
        Symbol::Start => mixed(h, 1),
        Symbol::End => mixed(h, 2),
        Symbol::Word(text) => text_key(mixed(h, 3), text),
    }
}

/// The key of a triplet.
pub(crate) open spec fn triplet_key(x: Triplet) -> u64 {
    symbol_key(symbol_key(symbol_key(0, x.0), x.1), x.2)
}

/// Extends a key by one value.
pub(crate) fn mix(h: u64, v: u64) -> (r: u64)
    ensures
        r == mixed(h, v),
{
    ((h as u128 * 31 + v as u128) % (MODULUS as u128)) as u64
}

/// Extends a key by a token.
pub(crate) fn key_with(h: u64, t: &Token) -> (r: u64)
    ensures
        r == symbol_key(h, t@),
{
    match t {
        Token::Start => mix(h, 1),
        Token::End => mix(h, 2),
        Token::Word(text) => {
            let cs = chars_of(text.as_str());
            let mut r = mix(h, 3);
            let mut i: usize = 0;
            while i < cs.len()
                invariant
                    cs@ == text@,
                    i <= cs.len(),
                    r == text_key(mixed(h, 3), text@.take(i as int)),
                decreases cs.len() - i,
            {
                proof {
                    assert(text@.take(i + 1).drop_last() =~= text@.take(i as int));
                }
                r = mix(r, cs[i] as u64);
                i = i + 1;
            }
            proof {
                assert(text@.take(i as int) =~= text@);
            }
            r
        },
    }
}

/// The key of a triplet of tokens.
pub(crate) fn key_of(a: &Token, b: &Token, c: &Token) -> (r: u64)
    ensures
        r == triplet_key((a@, b@, c@)),
{
    key_with(key_with(key_with(0, a), b), c)
}

} // verus!
