//! Ingestion: what a text adds to the table.

use crate::chain::{inserted, MChain};
use crate::text::{sentences, slice_texts, split_sentences, split_words, string_texts, words};
use crate::token::{Symbol, Token, Triplet};
use vstd::prelude::*;

verus! {

/// The table after the triplets of `xs`, taken in order.
pub open spec fn inserted_all(t: Map<Triplet, nat>, xs: Seq<Triplet>) -> Map<Triplet, nat>
    decreases xs.len(),
{
    if xs.len() == 0 {
        t
    } else {
        inserted(inserted_all(t, xs.drop_last()), xs.last())
    }
}

/// A sentence between its sentinels.
pub open spec fn padded(ws: Seq<Seq<char>>) -> Seq<Symbol> {
    Seq::new(
        ws.len() + 2,
        |i: int|
            if i == 0 {
                Symbol::Start
            } else if i <= ws.len() {
                Symbol::Word(ws[i - 1])
            } else {
                Symbol::End
            },
    )
}

/// Every three consecutive symbols of a sequence, in order.
pub open spec fn windows(p: Seq<Symbol>) -> Seq<Triplet> {
    Seq::new(
        if p.len() >= 2 {
            (p.len() - 2) as nat
        } else {
            0
        },
        |i: int| (p[i], p[i + 1], p[i + 2]),
    )
}

/// The triplets that a sentence of the given words contributes: none for a
/// sentence without words; otherwise the triplet that leads from the initial
/// state to the first word, then the windows of the padded sentence.
pub open spec fn sentence_triplets(ws: Seq<Seq<char>>) -> Seq<Triplet> {
    if ws.len() == 0 {
        Seq::empty()
    } else {
        seq![(Symbol::Start, Symbol::Start, Symbol::Word(ws[0]))] + windows(padded(ws))
    }
}

/// The table after the given sentences, taken in order.
pub open spec fn with_sentences(t: Map<Triplet, nat>, ss: Seq<Seq<char>>) -> Map<Triplet, nat>
    decreases ss.len(),
{
    if ss.len() == 0 {
        t
    } else {
        inserted_all(with_sentences(t, ss.drop_last()), sentence_triplets(words(ss.last())))
    }
}

/// The table after one message.
pub open spec fn ingested(t: Map<Triplet, nat>, message: Seq<char>) -> Map<Triplet, nat> {
    with_sentences(t, sentences(message))
}

/// The table after the given messages, taken in order.
pub open spec fn ingested_all(t: Map<Triplet, nat>, messages: Seq<Seq<char>>) -> Map<Triplet, nat>
    decreases messages.len(),
{
    if messages.len() == 0 {
        t
    } else {
        ingested(ingested_all(t, messages.drop_last()), messages.last())
    }
}

/// What a list of tokens stands for.
pub open spec fn symbols(ts: Seq<Token>) -> Seq<Symbol> {
    Seq::new(ts.len(), |i: int| ts[i]@)
}

/// What a list of token triplets stands for.
pub open spec fn triplets_of(ts: Seq<(Token, Token, Token)>) -> Seq<Triplet> {
    Seq::new(ts.len(), |i: int| (ts[i].0@, ts[i].1@, ts[i].2@))
}

/// Inserting a list of triplets and then one more is inserting the longer
/// list.
pub proof fn lemma_inserted_all_push(t: Map<Triplet, nat>, xs: Seq<Triplet>, x: Triplet)
    ensures
        inserted_all(t, xs.push(x)) == inserted(inserted_all(t, xs), x),
{
    assert(xs.push(x).drop_last() =~= xs);
}

/// Every three consecutive tokens of a list, in order.
pub fn to_triplets(tokens: &Vec<Token>) -> (r: Vec<(Token, Token, Token)>)
    ensures
        triplets_of(r@) == windows(symbols(tokens@)),
{
    let mut r: Vec<(Token, Token, Token)> = Vec::new();
    let mut i: usize = 0;
    while tokens.len() >= 3 && i < tokens.len() - 2
        invariant
            r@.len() == i,
            i + 2 <= tokens@.len() || i == 0,
            forall|k: int|
                0 <= k < i ==> ((#[trigger] r@[k]).0@, r@[k].1@, r@[k].2@) == (
                    tokens@[k]@,
                    tokens@[k + 1]@,
                    tokens@[k + 2]@,
                ),
        decreases tokens@.len() - i,
    {
        r.push((tokens[i].clone(), tokens[i + 1].clone(), tokens[i + 2].clone()));
        i = i + 1;
    }
    proof {
        assert(triplets_of(r@) =~= windows(symbols(tokens@)));
    }
    r
}

impl MChain {
    /// Ingests one sentence, given as its words, none of them empty.
    pub fn add_sentence(&mut self, sentence: &Vec<String>)
        requires
            old(self).wf(),
            forall|k: int| 0 <= k < sentence@.len() ==> (#[trigger] sentence@[k])@.len() > 0,
        ensures
            final(self).wf(),
            final(self)@ == inserted_all(old(self)@, sentence_triplets(string_texts(sentence@))),
    {
        if sentence.len() == 0 {
            return ;
        }
        let ghost texts = string_texts(sentence@);
        let mut tokens: Vec<Token> = Vec::new();
        tokens.push(Token::Start);
        let mut i: usize = 0;
        while i < sentence.len()
            invariant
                i <= sentence@.len(),
                tokens@.len() == i + 1,
                texts == string_texts(sentence@),
                forall|k: int| 0 <= k < sentence@.len() ==> (#[trigger] sentence@[k])@.len() > 0,
                forall|k: int| 0 <= k < tokens@.len() ==> (#[trigger] tokens@[k])@ == padded(texts)[k],
            decreases sentence@.len() - i,
        {
            tokens.push(Token::Word(sentence[i].clone()));
            i = i + 1;
        }
        tokens.push(Token::End);
        proof {
            assert(symbols(tokens@) =~= padded(texts));
        }
        let triplets = to_triplets(&tokens);
        let ghost all = sentence_triplets(texts);
        let ghost start = self@;
        self.insert_triplet(Token::Start, Token::Start, tokens[1].clone());
        proof {
            assert(all.take(1) =~= Seq::<Triplet>::empty().push(all[0]));
            lemma_inserted_all_push(start, Seq::<Triplet>::empty(), all[0]);
        }
        let mut k: usize = 0;
        while k < triplets.len()
            invariant
                k <= triplets@.len(),
                self.wf(),
                all == sentence_triplets(texts),
                texts.len() > 0,
                forall|i: int| 0 <= i < texts.len() ==> (#[trigger] texts[i]).len() > 0,
                triplets_of(triplets@) == windows(padded(texts)),
                self@ == inserted_all(start, all.take(k + 1)),
            decreases triplets@.len() - k,
        {
            let t = &triplets[k];
            proof {
                assert(triplets_of(triplets@)[k as int] == windows(padded(texts))[k as int]);
                assert(all.take(k + 2) =~= all.take(k + 1).push(all[k + 1]));
                lemma_inserted_all_push(start, all.take(k + 1), all[k + 1]);
            }
            self.insert_triplet(t.0.clone(), t.1.clone(), t.2.clone());
            k = k + 1;
        }
        proof {
            assert(all.take(k + 1) =~= all);
        }
    }

    /// Ingests one message: each of its sentences, in order.
    pub fn add_string(&mut self, s: &str)
        requires
            old(self).wf(),
        ensures
            final(self).wf(),
            final(self)@ == ingested(old(self)@, s@),
    {
        let pieces = split_sentences(s);
        let ghost start = self@;
        let ghost all = sentences(s@);
        let mut k: usize = 0;
        while k < pieces.len()
            invariant
                k <= pieces@.len(),
                self.wf(),
                slice_texts(pieces@) == all,
                self@ == with_sentences(start, all.take(k as int)),
            decreases pieces@.len() - k,
        {
            let sentence = split_words(pieces[k]);
            proof {
                assert(slice_texts(pieces@)[k as int] == pieces@[k as int]@);
                assert(all.take(k + 1).drop_last() =~= all.take(k as int));
            }
            self.add_sentence(&sentence);
            k = k + 1;
        }
        proof {
            assert(all.take(k as int) =~= all);
        }
    }

    /// Ingests a list of messages, in order.
    pub fn extend(&mut self, messages: &[&str])
        requires
            old(self).wf(),
        ensures
            final(self).wf(),
            final(self)@ == ingested_all(old(self)@, slice_texts(messages@)),
    {
        let ghost start = self@;
        let ghost all = slice_texts(messages@);
        let mut k: usize = 0;
        while k < messages.len()
            invariant
                k <= messages@.len(),
                self.wf(),
                all == slice_texts(messages@),
                self@ == ingested_all(start, all.take(k as int)),
            decreases messages@.len() - k,
        {
            proof {
                assert(all.take(k + 1).drop_last() =~= all.take(k as int));
            }
            self.add_string(messages[k]);
            k = k + 1;
        }
        proof {
            assert(all.take(k as int) =~= all);
        }
    }

    /// A model built from a list of messages.
    pub fn from_iter(messages: &[&str]) -> (r: MChain)
        ensures
            r.wf(),
            r@ == ingested_all(Map::<Triplet, nat>::empty(), slice_texts(messages@)),
    {
        let mut r = MChain::new();
        r.extend(messages);
        r
    }

    /// Ingests a list of owned messages, in order.
    pub fn extend_owned(&mut self, messages: &[String])
        requires
            old(self).wf(),
        ensures
            final(self).wf(),
            final(self)@ == ingested_all(old(self)@, string_texts(messages@)),
    {
        let ghost start = self@;
        let ghost all = string_texts(messages@);
        let mut k: usize = 0;
        while k < messages.len()
            invariant
                k <= messages@.len(),
                self.wf(),
                all == string_texts(messages@),
                self@ == ingested_all(start, all.take(k as int)),
            decreases messages@.len() - k,
        {
            proof {
                assert(all.take(k + 1).drop_last() =~= all.take(k as int));
            }
            self.add_string(messages[k].as_str());
            k = k + 1;
        }
        proof {
            assert(all.take(k as int) =~= all);
        }
    }

    /// A model built from a list of owned messages.
    pub fn from_owned(messages: &[String]) -> (r: MChain)
        ensures
            r.wf(),
            r@ == ingested_all(Map::<Triplet, nat>::empty(), string_texts(messages@)),
    {
        let mut r = MChain::new();
        r.extend_owned(messages);
        r
    }
}

} // verus!
