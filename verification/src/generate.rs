//! Generation: a weighted random walk over the table.

use crate::chain::MChain;
use crate::text::{alphanumeric_count, count_alphanumeric};
use crate::token::{Symbol, Token, Triplet};
use crate::weight::{draw_weights, sampling_weights, sum_weights, total, DRAW_MAX};
use rand::distributions::{Distribution, Weighted, WeightedChoice};
use rand::rngs::StdRng;
use rand::{Rng, SeedableRng};
use vstd::pervasive::unreached;
use vstd::prelude::*;
use vstd::string::StringExecFns;

verus! {

/// The generator type of the `rand` crate from which draws are made.
#[verifier::external_type_specification]
#[verifier::external_body]
pub struct ExStdRng(StdRng);

/// Draws a place in `weights` with `WeightedChoice::new` and its `sample`,
/// from the given generator. Which place comes back is not stated: only that
/// it is a place of the list, and one whose weight is not zero, since the
/// draw takes the first place at which the running total exceeds a number
/// below the total. The conditions keep away the lists on which
/// `WeightedChoice::new` panics: an empty one, a total of zero, and a total
/// above `u32::MAX`.
#[verifier::external_body]
pub(crate) fn pick_weighted(rng: &mut StdRng, weights: &Vec<u32>) -> (j: usize)
    requires
        weights@.len() > 0,
        0 < total(weights@) <= DRAW_MAX,
    ensures
        j < weights@.len(),
        weights@[j as int] > 0,
{
    let mut items: Vec<Weighted<usize>> =
        weights.iter().enumerate().map(|(item, w)| Weighted { weight: *w, item }).collect();
    WeightedChoice::new(&mut items).sample(rng)
}

/// Makes a generator with `StdRng::from_seed`, on a seed taken from
/// `rand::thread_rng`. Nothing is stated of it.
#[verifier::external_body]
pub(crate) fn thread_seeded() -> (rng: StdRng) {
    StdRng::from_seed(rand::thread_rng().gen())
}

/// The symbol at place `i` of a walk that emits the words `ws`: the start
/// sentinel before the first word.
pub open spec fn symbol_at(ws: Seq<Seq<char>>, i: int) -> Symbol {
    if i < 0 {
        Symbol::Start
    } else {
        Symbol::Word(ws[i])
    }
}

/// The text of a walk: each word behind a separating space.
pub open spec fn rendered(ws: Seq<Seq<char>>) -> Seq<char>
    decreases ws.len(),
{
    if ws.len() == 0 {
        Seq::empty()
    } else {
        rendered(ws.drop_last()) + seq![' '] + ws.last()
    }
}

/// The triplet that a walk takes when it emits its word at place `i`.
pub open spec fn step_at(ws: Seq<Seq<char>>, i: int) -> Triplet {
    (symbol_at(ws, i - 2), symbol_at(ws, i - 1), symbol_at(ws, i))
}

/// Every word of the walk is a successor, in the table, of the two symbols
/// before it.
pub open spec fn follows(t: Map<Triplet, nat>, ws: Seq<Seq<char>>) -> bool {
    forall|i: int| 0 <= i < ws.len() ==> t.contains_key(#[trigger] step_at(ws, i))
}

/// What a walk returns for the text it has gathered: nothing for an empty
/// text or one with fewer alphanumeric characters than `minimum`.
pub open spec fn gated(text: Seq<char>, minimum: nat) -> Option<Seq<char>> {
    if text.len() == 0 || alphanumeric_count(text) < minimum {
        None
    } else {
        Some(text)
    }
}

/// The text of an optional string.
pub open spec fn text_of(r: Option<String>) -> Option<Seq<char>> {
    match r {
        Some(s) => Some(s@),
        None => None,
    }
}

/// Applies the minimum-length gate to the text of a walk.
pub fn finish(text: String, minimum: usize) -> (r: Option<String>)
    ensures
        text_of(r) == gated(text@, minimum as nat),
{
    if text.as_str().is_empty() {
        return None;
    }
    if count_alphanumeric(text.as_str()) < minimum {
        return None;
    }
    Some(text)
}

impl MChain {
    /// Whether a walk that has reached the state `(a, b)` may stop there: the
    /// end sentinel is a successor, or the state has no successor, or the
    /// weights of its successors scale down to a total of zero.
    pub open spec fn stops(&self, a: Symbol, b: Symbol) -> bool {
        ||| self@.contains_key((a, b, Symbol::End))
        ||| (forall|c: Symbol| !self@.contains_key((a, b, c)))
        ||| total(draw_weights(self.stored_weights(a, b))) == 0
    }

    /// Every word of the walk had a positive weight in the draw that chose
    /// it.
    pub open spec fn drawn(&self, ws: Seq<Seq<char>>) -> bool {
        forall|i: int| 0 <= i < ws.len() ==> self.draw_weight(#[trigger] step_at(ws, i)) > 0
    }

    /// Whether `ws` are the words of a walk from the initial state that the
    /// table admits under the given limit: each word follows in the table
    /// from the two symbols before it, with a positive weight in its draw,
    /// and the walk has either used up the limit or reached a state at which
    /// it may stop.
    pub open spec fn walk(&self, ws: Seq<Seq<char>>, limit: nat) -> bool {
        &&& ws.len() <= limit
        &&& follows(self@, ws)
        &&& self.drawn(ws)
        &&& (ws.len() == limit || self.stops(
            symbol_at(ws, ws.len() - 2),
            symbol_at(ws, ws.len() - 1),
        ))
    }

    /// Generates a sentence by a random walk of at most `limit` words from
    /// the initial state, drawing from the given generator. The result is the
    /// gated text of some walk that the table admits; which one is up to the
    /// draws.
    pub fn generate_string_with(&self, rng: &mut StdRng, limit: usize, minimum: usize) -> (r:
        Option<String>)
        requires
            self.wf(),
        ensures
            exists|ws: Seq<Seq<char>>| #[trigger]
                self.walk(ws, limit as nat) && text_of(r) == gated(rendered(ws), minimum as nat),
            r is Some ==> alphanumeric_count(r->0@) >= minimum,
            (forall|c: Symbol| !self@.contains_key((Symbol::Start, Symbol::Start, c))) ==> r is None,
            limit == 0 ==> r is None,
    {
        let mut out = String::new();
        let mut prev2 = Token::Start;
        let mut prev1 = Token::Start;
        let ghost mut path: Seq<Seq<char>> = Seq::empty();
        let mut n: usize = 0;
        let mut done = false;
        while n < limit && !done
            invariant
                self.wf(),
                n == path.len(),
                n <= limit,
                out@ == rendered(path),
                follows(self@, path),
                self.drawn(path),
                prev2@ == symbol_at(path, n - 2),
                prev1@ == symbol_at(path, n - 1),
                done ==> self.stops(prev2@, prev1@),
            decreases
                    limit - n + if done {
                        0int
                    } else {
                        1int
                    },
        {
            let (places, raw) = self.successors(&prev2, &prev1);
            if places.len() == 0 {
                done = true;
            } else {
                let weights = sampling_weights(&raw);
                if sum_weights(&weights) == 0 {
                    done = true;
                } else {
                    let j = pick_weighted(rng, &weights);
                    match &self.entries[places[j]].next {
                        Token::Word(w) => {
                            let ghost longer = path.push(w@);
                            proof {
                                reveal_strlit(" ");
                                assert(" "@ =~= seq![' ']);
                                assert(longer.drop_last() =~= path);
                                assert forall|i: int| 0 <= i < longer.len() implies self@.contains_key(
                                    #[trigger] step_at(longer, i),
                                ) && self.draw_weight(step_at(longer, i)) > 0 by {
                                    if i < path.len() {
                                        assert(step_at(longer, i) == step_at(path, i));
                                    }
                                }
                            }
                            out.append(" ");
                            out.append(w.as_str());
                            let next = Token::Word(w.clone());
                            prev2 = prev1;
                            prev1 = next;
                            n = n + 1;
                            proof {
                                path = longer;
                            }
                        },
                        Token::End => {
                            done = true;
                        },
                        Token::Start => {
                            // No entry of the table leads to the start sentinel.
                            unreached::<()>();
                        },
                    }
                }
            }
        }
        let r = finish(out, minimum);
        proof {
            assert(self.walk(path, limit as nat));
            if forall|c: Symbol| !self@.contains_key((Symbol::Start, Symbol::Start, c)) {
                if path.len() > 0 {
                    assert(self@.contains_key(step_at(path, 0)));
                }
            }
        }
        r
    }

    /// Generates a sentence by a random walk of at most `limit` words from
    /// the initial state, on a generator seeded from the thread's own.
    pub fn generate_string(&self, limit: usize, minimum: usize) -> (r: Option<String>)
        requires
            self.wf(),
        ensures
            exists|ws: Seq<Seq<char>>| #[trigger]
                self.walk(ws, limit as nat) && text_of(r) == gated(rendered(ws), minimum as nat),
            r is Some ==> alphanumeric_count(r->0@) >= minimum,
            (forall|c: Symbol| !self@.contains_key((Symbol::Start, Symbol::Start, c))) ==> r is None,
            limit == 0 ==> r is None,
    {
        let mut rng = thread_seeded();
        self.generate_string_with(&mut rng, limit, minimum)
    }
}

} // verus!
