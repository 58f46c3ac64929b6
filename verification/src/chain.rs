//! The model: a table of weighted triplets.

use crate::key::{key_of, triplet_key};
use crate::token::{proper, Symbol, Token, Triplet};
use crate::weight::{
    draw_weights, lemma_drawable, projection, reinforce, reinforced, total, DRAW_MAX, ONE,
};
use std::collections::HashMap;
use vstd::prelude::*;

verus! {

broadcast use vstd::std_specs::hash::group_hash_axioms;

/// The table after one more occurrence of the triplet `x`: a triplet not seen
/// before enters at weight 1.0, and in either case its weight is multiplied
/// by 1.1.
pub open spec fn inserted(t: Map<Triplet, nat>, x: Triplet) -> Map<Triplet, nat> {
    t.insert(
        x,
        reinforced(
            if t.contains_key(x) {
                t[x]
            } else {
                ONE as nat
            },
        ),
    )
}

/// One triplet of the table with its weight.
pub(crate) struct Entry {
    pub(crate) prev2: Token,
    pub(crate) prev1: Token,
    pub(crate) next: Token,
    pub(crate) weight: u64,
}

impl Entry {
    pub(crate) open spec fn triplet(&self) -> Triplet {
        (self.prev2@, self.prev1@, self.next@)
    }
}

/// Whether some entry holds the triplet `x`.
pub(crate) open spec fn holds(es: Seq<Entry>, x: Triplet) -> bool {
    exists|i: int| 0 <= i < es.len() && (#[trigger] es[i]).triplet() == x
}

/// The place of an entry that holds the triplet `x`.
pub(crate) open spec fn place(es: Seq<Entry>, x: Triplet) -> int {
    choose|i: int| 0 <= i < es.len() && (#[trigger] es[i]).triplet() == x
}

/// No triplet stands in two entries.
pub(crate) open spec fn distinct(es: Seq<Entry>) -> bool {
    forall|i: int, j: int|
        0 <= i < j < es.len() ==> (#[trigger] es[i]).triplet() != (#[trigger] es[j]).triplet()
}

/// The table that a list of entries stands for.
pub(crate) open spec fn table_of(es: Seq<Entry>) -> Map<Triplet, nat> {
    Map::new(|x: Triplet| holds(es, x), |x: Triplet| es[place(es, x)].weight as nat)
}

/// The weights of the entries whose state is `(a, b)`, in the order in which
/// they are stored.
pub(crate) open spec fn weights_at(es: Seq<Entry>, a: Symbol, b: Symbol) -> Seq<u64>
    decreases es.len(),
{
    if es.len() == 0 {
        Seq::empty()
    } else if es.last().prev2@ == a && es.last().prev1@ == b {
        weights_at(es.drop_last(), a, b).push(es.last().weight)
    } else {
        weights_at(es.drop_last(), a, b)
    }
}

/// The weights listed for a state are no more than the entries, each is the
/// weight of an entry, and there is one if an entry has that state.
pub(crate) proof fn lemma_weights_at(es: Seq<Entry>, a: Symbol, b: Symbol)
    ensures
        weights_at(es, a, b).len() <= es.len(),
        (forall|i: int| 0 <= i < es.len() ==> (#[trigger] es[i]).weight >= ONE) ==> forall|k: int|
            0 <= k < weights_at(es, a, b).len() ==> #[trigger] weights_at(es, a, b)[k] >= ONE,
        (exists|i: int| 0 <= i < es.len() && (#[trigger] es[i]).prev2@ == a && es[i].prev1@ == b)
            ==> weights_at(es, a, b).len() > 0,
    decreases es.len(),
{
    if es.len() > 0 {
        let rest = es.drop_last();
        lemma_weights_at(rest, a, b);
        if forall|i: int| 0 <= i < es.len() ==> (#[trigger] es[i]).weight >= ONE {
            assert forall|i: int| 0 <= i < rest.len() implies (#[trigger] rest[i]).weight >= ONE by {
                assert(rest[i] == es[i]);
            }
        }
        if exists|i: int| 0 <= i < es.len() && (#[trigger] es[i]).prev2@ == a && es[i].prev1@ == b {
            let i = choose|i: int|
                0 <= i < es.len() && (#[trigger] es[i]).prev2@ == a && es[i].prev1@ == b;
            if i < es.len() - 1 {
                assert(rest[i] == es[i]);
            }
        }
    }
}

/// An entry's weight stands, in the list for its state, behind those of the
/// entries of that state before it.
pub(crate) proof fn lemma_weights_at_rank(es: Seq<Entry>, i: int)
    requires
        0 <= i < es.len(),
    ensures
        weights_at(es.take(i), es[i].prev2@, es[i].prev1@).len() < weights_at(
            es,
            es[i].prev2@,
            es[i].prev1@,
        ).len(),
        weights_at(es, es[i].prev2@, es[i].prev1@)[weights_at(
            es.take(i),
            es[i].prev2@,
            es[i].prev1@,
        ).len() as int] == es[i].weight,
    decreases es.len(),
{
    let a = es[i].prev2@;
    let b = es[i].prev1@;
    if i == es.len() - 1 {
        assert(es.take(i) =~= es.drop_last());
    } else {
        lemma_weights_at_rank(es.drop_last(), i);
        assert(es.drop_last().take(i) =~= es.take(i));
    }
}

/// Where the entry at place `i` is the only one of its state, the list for
/// that state holds its weight and nothing else.
pub(crate) proof fn lemma_weights_at_single(es: Seq<Entry>, a: Symbol, b: Symbol, i: int)
    requires
        0 <= i < es.len(),
        forall|j: int|
            0 <= j < es.len() ==> (((#[trigger] es[j]).prev2@ == a && es[j].prev1@ == b) <==> j
                == i),
    ensures
        weights_at(es, a, b) == seq![es[i].weight],
    decreases es.len(),
{
    let rest = es.drop_last();
    if i == es.len() - 1 {
        assert forall|j: int| 0 <= j < rest.len() implies !((#[trigger] rest[j]).prev2@ == a
            && rest[j].prev1@ == b) by {
            assert(rest[j] == es[j]);
        }
        lemma_weights_at(rest, a, b);
        if weights_at(rest, a, b).len() > 0 {
            lemma_weights_at_matches(rest, a, b);
        }
        assert(weights_at(rest, a, b) =~= Seq::<u64>::empty());
        assert(weights_at(es, a, b) =~= seq![es[i].weight]);
    } else {
        assert forall|j: int| 0 <= j < rest.len() implies (((#[trigger] rest[j]).prev2@ == a
            && rest[j].prev1@ == b) <==> j == i) by {
            assert(rest[j] == es[j]);
        }
        lemma_weights_at_single(rest, a, b, i);
        assert(rest[i] == es[i]);
    }
}

/// A list of weights for a state is empty unless an entry has that state.
pub(crate) proof fn lemma_weights_at_matches(es: Seq<Entry>, a: Symbol, b: Symbol)
    requires
        weights_at(es, a, b).len() > 0,
    ensures
        exists|j: int| 0 <= j < es.len() && (#[trigger] es[j]).prev2@ == a && es[j].prev1@ == b,
    decreases es.len(),
{
    if es.len() > 0 {
        if es.last().prev2@ == a && es.last().prev1@ == b {
            assert(es[es.len() - 1].prev2@ == a);
        } else {
            lemma_weights_at_matches(es.drop_last(), a, b);
            let j = choose|j: int|
                0 <= j < es.drop_last().len() && (#[trigger] es.drop_last()[j]).prev2@ == a
                    && es.drop_last()[j].prev1@ == b;
            assert(es[j] == es.drop_last()[j]);
        }
    }
}

/// Each weight listed for a state is that of an entry of that state.
pub(crate) proof fn lemma_weights_at_source(es: Seq<Entry>, a: Symbol, b: Symbol, k: int)
    requires
        0 <= k < weights_at(es, a, b).len(),
    ensures
        exists|i: int|
            0 <= i < es.len() && (#[trigger] es[i]).prev2@ == a && es[i].prev1@ == b
                && es[i].weight == weights_at(es, a, b)[k],
    decreases es.len(),
{
    let rest = es.drop_last();
    if es.last().prev2@ == a && es.last().prev1@ == b && k == weights_at(rest, a, b).len() {
        assert(es[es.len() - 1].weight == weights_at(es, a, b)[k]);
    } else {
        lemma_weights_at_source(rest, a, b, k);
        let i = choose|i: int|
            0 <= i < rest.len() && (#[trigger] rest[i]).prev2@ == a && rest[i].prev1@ == b
                && rest[i].weight == weights_at(rest, a, b)[k];
        assert(es[i] == rest[i]);
    }
}

/// In a list without repeats, each entry is found at its own place.
pub(crate) proof fn lemma_place(es: Seq<Entry>, i: int)
    requires
        distinct(es),
        0 <= i < es.len(),
    ensures
        holds(es, es[i].triplet()),
        place(es, es[i].triplet()) == i,
        table_of(es).contains_key(es[i].triplet()),
        table_of(es)[es[i].triplet()] == es[i].weight,
{
    let x = es[i].triplet();
    let j = place(es, x);
    assert(0 <= j < es.len() && es[j].triplet() == x);
    if j < i {
        assert(es[j].triplet() != es[i].triplet());
    } else if i < j {
        assert(es[i].triplet() != es[j].triplet());
    }
}

/// Whether the index lists the place `i` under the key `h`.
pub(crate) open spec fn listed(index: Map<u64, Vec<usize>>, h: u64, i: int) -> bool {
    index.contains_key(h) && exists|k: int|
        0 <= k < index[h]@.len() && #[trigger] index[h]@[k] == i
}

/// Whether the index lists every entry under the key of its triplet, and
/// lists nothing but places of entries.
pub(crate) open spec fn indexed(es: Seq<Entry>, index: Map<u64, Vec<usize>>) -> bool {
    &&& forall|i: int| 0 <= i < es.len() ==> listed(index, triplet_key((#[trigger] es[i]).triplet()), i)
    &&& forall|h: u64, k: int|
        index.contains_key(h) && 0 <= k < index[h]@.len() ==> (#[trigger] index[h]@[k]) < es.len()
}

/// A second-order text model: a table from triplets of tokens to weights.
pub struct MChain {
    /// The triplets of the table, each once, in the order in which they were
    /// first seen.
    pub(crate) entries: Vec<Entry>,
    /// The places of the entries, by the key of their triplet.
    pub(crate) index: HashMap<u64, Vec<usize>>,
}

impl Default for MChain {
    fn default() -> (r: MChain)
        ensures
            r.wf(),
            r@ == Map::<Triplet, nat>::empty(),
    {
        MChain::new()
    }
}

impl View for MChain {
    type V = Map<Triplet, nat>;

    closed spec fn view(&self) -> Map<Triplet, nat> {
        table_of(self.entries@)
    }
}

impl MChain {
    /// What holds of every model that this library builds: no triplet is
    /// stored twice, each is listed under its key, no state leads to the
    /// start sentinel or away from the end sentinel, every weight is above
    /// 1.0, and no word is empty.
    pub closed spec fn wf(&self) -> bool {
        &&& distinct(self.entries@)
        &&& indexed(self.entries@, self.index@)
        &&& forall|i: int|
            0 <= i < self.entries@.len() ==> {
                &&& (#[trigger] self.entries@[i]).next@ != Symbol::Start
                &&& self.entries@[i].prev1@ != Symbol::End
                &&& self.entries@[i].prev2@ != Symbol::End
                &&& self.entries@[i].weight > ONE
                &&& proper(self.entries@[i].prev2@)
                &&& proper(self.entries@[i].prev1@)
                &&& proper(self.entries@[i].next@)
            }
    }

    /// The shape of every table: no state leads to the start sentinel, none
    /// leads away from the end sentinel, every stored weight is above 1.0, so
    /// none is zero or negative, and no word is empty.
    pub proof fn lemma_table_shape(&self)
        requires
            self.wf(),
        ensures
            forall|a: Symbol, b: Symbol, c: Symbol| #[trigger]
                self@.contains_key((a, b, c)) ==> {
                    &&& c != Symbol::Start
                    &&& a != Symbol::End && b != Symbol::End
                    &&& ONE < self@[(a, b, c)] <= u64::MAX
                    &&& proper(a) && proper(b) && proper(c)
                },
    {
        assert forall|a: Symbol, b: Symbol, c: Symbol| #[trigger]
            self@.contains_key((a, b, c)) implies {
            &&& c != Symbol::Start
            &&& a != Symbol::End && b != Symbol::End
            &&& ONE < self@[(a, b, c)] <= u64::MAX
            &&& proper(a) && proper(b) && proper(c)
        } by {
            let i = place(self.entries@, (a, b, c));
            lemma_place(self.entries@, i);
        }
    }

    /// A model that has seen no text.
    pub fn new() -> (r: MChain)
        ensures
            r.wf(),
            r@ == Map::<Triplet, nat>::empty(),
    {
        let r = MChain { entries: Vec::new(), index: HashMap::new() };
        proof {
            assert(r@ =~= Map::<Triplet, nat>::empty());
        }
        r
    }

    /// The place of the entry that holds a triplet, if there is one.
    pub(crate) fn find(&self, a: &Token, b: &Token, c: &Token) -> (r: Option<usize>)
        requires
            self.wf(),
        ensures
            match r {
                Some(i) => i < self.entries@.len() && self.entries@[i as int].triplet() == (
                    a@,
                    b@,
                    c@,
                ),
                None => !holds(self.entries@, (a@, b@, c@)),
            },
    {
        let ghost x = (a@, b@, c@);
        let h = key_of(a, b, c);
        match self.index.get(&h) {
            None => {
                proof {
                    if holds(self.entries@, x) {
                        let i = place(self.entries@, x);
                        assert(listed(self.index@, triplet_key(self.entries@[i].triplet()), i));
                    }
                }
                None
            },
            Some(bucket) => {
                let mut k: usize = 0;
                while k < bucket.len()
                    invariant
                        self.wf(),
                        self.index@.contains_key(h),
                        bucket@ == self.index@[h]@,
                        k <= bucket@.len(),
                        x == (a@, b@, c@),
                        forall|j: int|
                            0 <= j < k ==> self.entries@[(#[trigger] bucket@[j]) as int].triplet()
                                != x,
                    decreases bucket@.len() - k,
                {
                    let i = bucket[k];
                    let e = &self.entries[i];
                    if e.prev2.same(a) && e.prev1.same(b) && e.next.same(c) {
                        return Some(i);
                    }
                    k = k + 1;
                }
                proof {
                    if holds(self.entries@, x) {
                        let i = place(self.entries@, x);
                        assert(listed(self.index@, triplet_key(self.entries@[i].triplet()), i));
                    }
                }
                None
            },
        }
    }

    /// The weight of a triplet, if the table holds it.
    pub fn weight_of(&self, a: &Token, b: &Token, c: &Token) -> (r: Option<u64>)
        requires
            self.wf(),
        ensures
            r is Some <==> self@.contains_key((a@, b@, c@)),
            r is Some ==> r->0 == self@[(a@, b@, c@)],
    {
        match self.find(a, b, c) {
            Some(i) => {
                proof {
                    lemma_place(self.entries@, i as int);
                }
                Some(self.entries[i].weight)
            },
            None => None,
        }
    }

    /// Records one occurrence of a triplet.
    pub(crate) fn insert_triplet(&mut self, a: Token, b: Token, c: Token)
        requires
            old(self).wf(),
            c@ != Symbol::Start,
            a@ != Symbol::End,
            b@ != Symbol::End,
            proper(a@) && proper(b@) && proper(c@),
        ensures
            final(self).wf(),
            final(self)@ == inserted(old(self)@, (a@, b@, c@)),
    {
        let ghost x = (a@, b@, c@);
        let ghost before = self.entries@;
        match self.find(&a, &b, &c) {
            Some(i) => {
                proof {
                    lemma_place(before, i as int);
                }
                let w: u64 = reinforce(self.entries[i].weight);
                self.entries[i].weight = w;
                proof {
                    let after = self.entries@;
                    assert forall|k: int| 0 <= k < after.len() implies (#[trigger] after[k]).triplet()
                        == before[k].triplet() by {}
                    assert forall|k: int| 0 <= k < after.len() implies listed(
                        self.index@,
                        triplet_key((#[trigger] after[k]).triplet()),
                        k,
                    ) by {
                        assert(listed(self.index@, triplet_key(before[k].triplet()), k));
                    }
                    assert forall|y: Triplet| holds(after, y) == holds(before, y) by {
                        if holds(after, y) {
                            let k = place(after, y);
                            assert(before[k].triplet() == y);
                        }
                        if holds(before, y) {
                            let k = place(before, y);
                            assert(after[k].triplet() == y);
                        }
                    }
                    assert forall|y: Triplet| holds(after, y) implies #[trigger] table_of(after)[y]
                        == inserted(table_of(before), x)[y] by {
                        let k = place(after, y);
                        lemma_place(after, k);
                        lemma_place(before, k);
                    }
                    assert(table_of(after) =~= inserted(table_of(before), x));
                }
            },
            None => {
                let h = key_of(&a, &b, &c);
                let place_of_new = self.entries.len();
                let ghost listing = self.index@;
                self.entries.push(Entry { prev2: a, prev1: b, next: c, weight: reinforce(ONE) });
                let mut bucket = match self.index.remove(&h) {
                    Some(bucket) => bucket,
                    None => Vec::new(),
                };
                let ghost shorter = bucket@;
                bucket.push(place_of_new);
                self.index.insert(h, bucket);
                proof {
                    let after = self.entries@;
                    let n = before.len() as int;
                    assert(after[n].triplet() == x);
                    assert(listing.contains_key(h) ==> shorter == listing[h]@);
                    assert(self.index@[h]@ == shorter.push(place_of_new));
                    assert forall|i: int| 0 <= i < after.len() implies listed(
                        self.index@,
                        triplet_key((#[trigger] after[i]).triplet()),
                        i,
                    ) by {
                        if i < n {
                            let hi = triplet_key(before[i].triplet());
                            assert(after[i] == before[i]);
                            assert(listed(listing, hi, i));
                            let k = choose|k: int|
                                0 <= k < listing[hi]@.len() && #[trigger] listing[hi]@[k] == i;
                            if hi == h {
                                assert(self.index@[h]@[k] == i);
                            } else {
                                assert(self.index@[hi]@[k] == i);
                            }
                        } else {
                            assert(self.index@[h]@[shorter.len() as int] == i);
                        }
                    }
                    assert forall|g: u64, k: int|
                        self.index@.contains_key(g) && 0 <= k < self.index@[g]@.len() implies (
                    #[trigger] self.index@[g]@[k]) < after.len() by {
                        if g == h {
                            if k < shorter.len() {
                                assert(listing[h]@[k] < before.len());
                            }
                        } else {
                            assert(listing[g]@[k] < before.len());
                        }
                    }
                    assert forall|i: int, j: int| 0 <= i < j < after.len() implies (#[trigger] after[i]).triplet()
                        != (#[trigger] after[j]).triplet() by {
                        if j == n {
                            assert(before[i].triplet() != x);
                        } else {
                            assert(before[i].triplet() != before[j].triplet());
                        }
                    }
                    assert forall|y: Triplet| holds(after, y) == (holds(before, y) || y == x) by {
                        if holds(after, y) && y != x {
                            let k = place(after, y);
                            assert(before[k].triplet() == y);
                        }
                        if holds(before, y) {
                            let k = place(before, y);
                            assert(after[k].triplet() == y);
                        }
                    }
                    assert forall|y: Triplet| holds(after, y) implies #[trigger] table_of(after)[y]
                        == inserted(table_of(before), x)[y] by {
                        let k = place(after, y);
                        lemma_place(after, k);
                        if k < n {
                            lemma_place(before, k);
                        }
                    }
                    assert(table_of(after) =~= inserted(table_of(before), x));
                }
            },
        }
    }

    /// The weights stored for the successors of the state `(a, b)`, in the
    /// order in which a draw considers them.
    pub closed spec fn stored_weights(&self, a: Symbol, b: Symbol) -> Seq<u64> {
        weights_at(self.entries@, a, b)
    }

    /// Each weight stored for a state is the weight of one of its successors.
    pub proof fn lemma_stored_weight_source(&self, a: Symbol, b: Symbol, k: int)
        requires
            self.wf(),
            0 <= k < self.stored_weights(a, b).len(),
        ensures
            exists|c: Symbol| #[trigger]
                self@.contains_key((a, b, c)) && self@[(a, b, c)] == self.stored_weights(a, b)[k],
    {
        let es = self.entries@;
        lemma_weights_at_source(es, a, b, k);
        let i = choose|i: int|
            0 <= i < es.len() && (#[trigger] es[i]).prev2@ == a && es[i].prev1@ == b
                && es[i].weight == weights_at(es, a, b)[k];
        lemma_place(es, i);
        assert(self@.contains_key((a, b, es[i].next@)));
    }

    /// The weight of each successor of a state is among those stored for the
    /// state.
    pub proof fn lemma_stored_weight_listed(&self, a: Symbol, b: Symbol, c: Symbol)
        requires
            self.wf(),
            self@.contains_key((a, b, c)),
        ensures
            exists|k: int|
                0 <= k < self.stored_weights(a, b).len() && self@[(a, b, c)]
                    == #[trigger] self.stored_weights(a, b)[k],
    {
        let es = self.entries@;
        let i = place(es, (a, b, c));
        lemma_place(es, i);
        lemma_weights_at_rank(es, i);
        let k = weights_at(es.take(i), a, b).len() as int;
        assert(self.stored_weights(a, b)[k] == self@[(a, b, c)]);
    }

    /// The integer weight with which a triplet's successor is drawn at its
    /// state: its place among the draw weights of the state's successors, and
    /// zero for a triplet that the table does not hold.
    pub closed spec fn draw_weight(&self, x: Triplet) -> nat {
        if holds(self.entries@, x) {
            draw_weights(weights_at(self.entries@, x.0, x.1))[weights_at(
                self.entries@.take(place(self.entries@, x)),
                x.0,
                x.1,
            ).len() as int] as nat
        } else {
            0
        }
    }

    /// Where the whole parts of the weights at a state total no more than a
    /// draw can, each successor is drawn with the whole part of its weight.
    pub proof fn lemma_draw_weight_unscaled(&self, x: Triplet)
        requires
            self.wf(),
            self@.contains_key(x),
            total(projection(self.stored_weights(x.0, x.1))) <= DRAW_MAX,
        ensures
            self.draw_weight(x) == self@[x] / (ONE as nat),
    {
        let es = self.entries@;
        let i = place(es, x);
        lemma_place(es, i);
        lemma_weights_at_rank(es, i);
    }

    /// The number of triplets that the table holds.
    pub closed spec fn triplet_count(&self) -> nat {
        self.entries@.len()
    }

    /// The number of triplets that the table holds.
    pub fn len(&self) -> (n: usize)
        ensures
            n == self.triplet_count(),
    {
        self.entries.len()
    }

    /// In a table of no more triplets than a draw can total, every state
    /// with a successor can be drawn from.
    pub proof fn lemma_state_drawable(&self, a: Symbol, b: Symbol, c: Symbol)
        requires
            self.wf(),
            self.triplet_count() <= DRAW_MAX,
            self@.contains_key((a, b, c)),
        ensures
            total(draw_weights(self.stored_weights(a, b))) > 0,
    {
        let es = self.entries@;
        let i = place(es, (a, b, c));
        assert(es[i].prev2@ == a && es[i].prev1@ == b);
        lemma_weights_at(es, a, b);
        lemma_drawable(weights_at(es, a, b));
    }

    /// A state with exactly one successor can be drawn from.
    pub proof fn lemma_single_successor_drawable(&self, a: Symbol, b: Symbol, c: Symbol)
        requires
            self.wf(),
            self@.contains_key((a, b, c)),
            forall|other: Symbol| self@.contains_key((a, b, other)) ==> other == c,
        ensures
            total(draw_weights(self.stored_weights(a, b))) > 0,
    {
        let es = self.entries@;
        let i = place(es, (a, b, c));
        assert(es[i].triplet() == (a, b, c));
        assert forall|j: int| 0 <= j < es.len() implies (((#[trigger] es[j]).prev2@ == a
            && es[j].prev1@ == b) <==> j == i) by {
            if es[j].prev2@ == a && es[j].prev1@ == b {
                lemma_place(es, j);
                assert(self@.contains_key((a, b, es[j].next@)));
                assert(es[j].triplet() == es[i].triplet());
                if j < i {
                    assert(es[j].triplet() != es[i].triplet());
                } else if i < j {
                    assert(es[i].triplet() != es[j].triplet());
                }
            }
        }
        lemma_weights_at_single(es, a, b, i);
        lemma_drawable(seq![es[i].weight]);
    }

    /// The places of the entries whose state is `(a, b)`, with their weights.
    pub(crate) fn successors(&self, a: &Token, b: &Token) -> (r: (Vec<usize>, Vec<u64>))
        requires
            self.wf(),
        ensures
            r.0@.len() == r.1@.len(),
            r.1@ == self.stored_weights(a@, b@),
            forall|k: int|
                0 <= k < r.0@.len() ==> {
                    &&& (#[trigger] r.0@[k]) < self.entries@.len()
                    &&& self.entries@[r.0@[k] as int].prev2@ == a@
                    &&& self.entries@[r.0@[k] as int].prev1@ == b@
                    &&& self@.contains_key((a@, b@, self.entries@[r.0@[k] as int].next@))
                    &&& self.entries@[r.0@[k] as int].next@ != Symbol::Start
                    &&& self.draw_weight((a@, b@, self.entries@[r.0@[k] as int].next@))
                        == draw_weights(r.1@)[k]
                },
            r.0@.len() == 0 ==> forall|c: Symbol| !self@.contains_key((a@, b@, c)),
    {
        let mut places: Vec<usize> = Vec::new();
        let mut raw: Vec<u64> = Vec::new();
        let mut i: usize = 0;
        while i < self.entries.len()
            invariant
                self.wf(),
                i <= self.entries@.len(),
                places@.len() == raw@.len(),
                raw@ == weights_at(self.entries@.take(i as int), a@, b@),
                forall|k: int|
                    0 <= k < places@.len() ==> {
                        &&& (#[trigger] places@[k]) < i
                        &&& self.entries@[places@[k] as int].prev2@ == a@
                        &&& self.entries@[places@[k] as int].prev1@ == b@
                        &&& weights_at(self.entries@.take(places@[k] as int), a@, b@).len() == k
                    },
                places@.len() == 0 ==> forall|j: int|
                    0 <= j < i ==> !((#[trigger] self.entries@[j]).prev2@ == a@
                        && self.entries@[j].prev1@ == b@),
            decreases self.entries@.len() - i,
        {
            proof {
                assert(self.entries@.take(i + 1).drop_last() =~= self.entries@.take(i as int));
            }
            let e = &self.entries[i];
            if e.prev2.same(a) && e.prev1.same(b) {
                places.push(i);
                raw.push(e.weight);
            }
            i = i + 1;
        }
        proof {
            assert(self.entries@.take(i as int) =~= self.entries@);
            assert forall|k: int| 0 <= k < places@.len() implies {
                &&& self@.contains_key((a@, b@, self.entries@[(#[trigger] places@[k]) as int].next@))
                &&& self.entries@[places@[k] as int].next@ != Symbol::Start
                &&& self.draw_weight((a@, b@, self.entries@[places@[k] as int].next@))
                    == draw_weights(raw@)[k]
            } by {
                lemma_place(self.entries@, places@[k] as int);
            }
            if places@.len() == 0 {
                assert forall|c: Symbol| !self@.contains_key((a@, b@, c)) by {
                    if holds(self.entries@, (a@, b@, c)) {
                        let j = place(self.entries@, (a@, b@, c));
                        assert(self.entries@[j].prev2@ == a@);
                    }
                }
            }
        }
        (places, raw)
    }
}

} // verus!
