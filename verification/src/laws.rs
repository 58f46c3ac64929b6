//! What holds of ingestion whatever the text: the table counts occurrences,
//! so the order of messages does not matter, and a delimiter parts a message
//! as if its two sides had been ingested one after the other.

use crate::chain::MChain;
use crate::ingest::{
    ingested, inserted_all, padded, sentence_triplets, windows, with_sentences,
};
use crate::generate::{follows, step_at, symbol_at};
use crate::text::{is_delimiter, sentences, sentences_from, words};
use crate::token::{Symbol, Triplet};
use crate::weight::{reinforced, reinforced_times, ONE};
use vstd::prelude::*;

verus! {

/// The weight from which the next occurrence of `x` starts: the stored
/// weight, or 1.0 for a triplet that the table does not hold.
pub open spec fn standing(t: Map<Triplet, nat>, x: Triplet) -> nat {
    if t.contains_key(x) {
        t[x]
    } else {
        ONE as nat
    }
}

/// How often `x` occurs in `xs`.
pub open spec fn occurrences(xs: Seq<Triplet>, x: Triplet) -> nat
    decreases xs.len(),
{
    if xs.len() == 0 {
        0
    } else {
        occurrences(xs.drop_last(), x) + if xs.last() == x {
            1nat
        } else {
            0nat
        }
    }
}

/// How often `x` occurs among the triplets of the given sentences.
pub open spec fn sentence_occurrences(ss: Seq<Seq<char>>, x: Triplet) -> nat
    decreases ss.len(),
{
    if ss.len() == 0 {
        0
    } else {
        sentence_occurrences(ss.drop_last(), x) + occurrences(
            sentence_triplets(words(ss.last())),
            x,
        )
    }
}

/// Reinforcing `a` times and then `b` times is reinforcing `a + b` times.
pub proof fn lemma_reinforced_times_add(w: nat, a: nat, b: nat)
    ensures
        reinforced_times(reinforced_times(w, a), b) == reinforced_times(w, a + b),
    decreases b,
{
    if b > 0 {
        lemma_reinforced_times_add(w, a, (b - 1) as nat);
        assert((a + b - 1) as nat == a + (b - 1) as nat);
    }
}

/// A reinforced weight is no smaller, and it is larger unless it has reached
/// the largest representable weight.
pub proof fn lemma_reinforced_grows(w: nat)
    requires
        ONE <= w <= u64::MAX,
    ensures
        w <= reinforced(w) <= u64::MAX,
        reinforced(w) > w || reinforced(w) == u64::MAX,
{
}

/// However often a weight is reinforced, it does not shrink, and it stays
/// representable.
pub proof fn lemma_reinforced_times_grows(w: nat, n: nat)
    requires
        w <= u64::MAX,
    ensures
        w <= reinforced_times(w, n) <= u64::MAX,
    decreases n,
{
    if n > 0 {
        lemma_reinforced_times_grows(w, (n - 1) as nat);
    }
}

/// Reinforcement is monotone: a triplet seen more often weighs no less.
pub proof fn lemma_more_occurrences_weigh_more(w: nat, fewer: nat, more: nat)
    requires
        w <= u64::MAX,
        fewer <= more,
    ensures
        reinforced_times(w, fewer) <= reinforced_times(w, more),
{
    lemma_reinforced_times_grows(w, fewer);
    lemma_reinforced_times_add(w, fewer, (more - fewer) as nat);
    lemma_reinforced_times_grows(reinforced_times(w, fewer), (more - fewer) as nat);
}

/// After a list of triplets, the table holds `x` exactly if it held it before
/// or the list names it, and the weight of `x` has been reinforced once for
/// each of its occurrences in the list.
pub proof fn lemma_inserted_all_counts(t: Map<Triplet, nat>, xs: Seq<Triplet>, x: Triplet)
    ensures
        inserted_all(t, xs).contains_key(x) == (t.contains_key(x) || occurrences(xs, x) > 0),
        standing(inserted_all(t, xs), x) == reinforced_times(standing(t, x), occurrences(xs, x)),
    decreases xs.len(),
{
    if xs.len() > 0 {
        lemma_inserted_all_counts(t, xs.drop_last(), x);
    }
}

/// After a list of sentences, the table holds `x` exactly if it held it
/// before or a sentence gives it, and the weight of `x` has been reinforced
/// once for each time the sentences give it.
pub proof fn lemma_with_sentences_counts(t: Map<Triplet, nat>, ss: Seq<Seq<char>>, x: Triplet)
    ensures
        with_sentences(t, ss).contains_key(x) == (t.contains_key(x) || sentence_occurrences(ss, x)
            > 0),
        standing(with_sentences(t, ss), x) == reinforced_times(
            standing(t, x),
            sentence_occurrences(ss, x),
        ),
    decreases ss.len(),
{
    if ss.len() > 0 {
        let before = with_sentences(t, ss.drop_last());
        let xs = sentence_triplets(words(ss.last()));
        lemma_with_sentences_counts(t, ss.drop_last(), x);
        lemma_inserted_all_counts(before, xs, x);
        lemma_reinforced_times_add(
            standing(t, x),
            sentence_occurrences(ss.drop_last(), x),
            occurrences(xs, x),
        );
    }
}

/// The order of ingestion does not matter: two messages ingested one way
/// round leave the same table as ingested the other way round.
pub proof fn lemma_ingestion_order(t: Map<Triplet, nat>, a: Seq<char>, b: Seq<char>)
    ensures
        ingested(ingested(t, a), b) == ingested(ingested(t, b), a),
{
    let sa = sentences(a);
    let sb = sentences(b);
    let ab = ingested(ingested(t, a), b);
    let ba = ingested(ingested(t, b), a);
    assert forall|x: Triplet| #[trigger]
        ab.dom().contains(x) == ba.dom().contains(x) && (ab.dom().contains(x) ==> ab[x] == ba[x]) by {
        let ka = sentence_occurrences(sa, x);
        let kb = sentence_occurrences(sb, x);
        lemma_with_sentences_counts(t, sa, x);
        lemma_with_sentences_counts(ingested(t, a), sb, x);
        lemma_with_sentences_counts(t, sb, x);
        lemma_with_sentences_counts(ingested(t, b), sa, x);
        lemma_reinforced_times_add(standing(t, x), ka, kb);
        lemma_reinforced_times_add(standing(t, x), kb, ka);
        assert(ka + kb == kb + ka);
        assert(standing(ab, x) == standing(ba, x));
    }
    assert(ab =~= ba);
}

/// The table only grows: a message removes no triplet and lowers no weight.
pub proof fn lemma_ingestion_grows(t: Map<Triplet, nat>, message: Seq<char>, x: Triplet)
    requires
        t.contains_key(x),
        t[x] <= u64::MAX,
    ensures
        ingested(t, message).contains_key(x),
        ingested(t, message)[x] >= t[x],
{
    lemma_with_sentences_counts(t, sentences(message), x);
    lemma_reinforced_times_grows(t[x], sentence_occurrences(sentences(message), x));
}

/// Ingesting two lists of sentences one after the other is ingesting the
/// joined list.
pub proof fn lemma_with_sentences_add(t: Map<Triplet, nat>, xs: Seq<Seq<char>>, ys: Seq<Seq<char>>)
    ensures
        with_sentences(t, xs + ys) == with_sentences(with_sentences(t, xs), ys),
    decreases ys.len(),
{
    if ys.len() == 0 {
        assert(xs + ys =~= xs);
    } else {
        lemma_with_sentences_add(t, xs, ys.drop_last());
        assert((xs + ys).drop_last() =~= xs + ys.drop_last());
    }
}

/// Behind a delimiter, a text splits as its right-hand side does alone.
proof fn lemma_sentences_shift(a: Seq<char>, d: char, b: Seq<char>, j: int, open: Seq<char>)
    requires
        0 <= j <= b.len(),
    ensures
        sentences_from(a.push(d) + b, a.len() + 1 + j, open) == sentences_from(b, j, open),
    decreases b.len() - j,
{
    let s = a.push(d) + b;
    if j < b.len() {
        assert(s[a.len() + 1 + j] == b[j]);
        if is_delimiter(b[j]) {
            lemma_sentences_shift(a, d, b, j + 1, Seq::empty());
        } else {
            lemma_sentences_shift(a, d, b, j + 1, open.push(b[j]));
        }
    }
}

/// Up to a delimiter, a text splits as its left-hand side does alone, and
/// then as its right-hand side.
proof fn lemma_sentences_prefix(a: Seq<char>, d: char, b: Seq<char>, i: int, open: Seq<char>)
    requires
        0 <= i <= a.len(),
        is_delimiter(d),
    ensures
        sentences_from(a.push(d) + b, i, open) == sentences_from(a, i, open) + sentences(b),
    decreases a.len() - i,
{
    let s = a.push(d) + b;
    if i < a.len() {
        assert(s[i] == a[i]);
        if is_delimiter(a[i]) {
            lemma_sentences_prefix(a, d, b, i + 1, Seq::empty());
            assert(seq![open] + (sentences_from(a, i + 1, Seq::empty()) + sentences(b)) =~= (seq![
                open,
            ] + sentences_from(a, i + 1, Seq::empty())) + sentences(b));
        } else {
            lemma_sentences_prefix(a, d, b, i + 1, open.push(a[i]));
        }
    } else {
        assert(s[i] == d);
        lemma_sentences_shift(a, d, b, 0, Seq::empty());
    }
}

/// A delimiter parts a text: the sentences of `a`, the delimiter and `b` are
/// those of `a` followed by those of `b`.
pub proof fn lemma_sentences_split(a: Seq<char>, d: char, b: Seq<char>)
    requires
        is_delimiter(d),
    ensures
        sentences(a.push(d) + b) == sentences(a) + sentences(b),
{
    lemma_sentences_prefix(a, d, b, 0, Seq::empty());
}

/// No triplet crosses a delimiter: a message is ingested as its two sides
/// would be, one after the other.
pub proof fn lemma_delimiter_separates(t: Map<Triplet, nat>, a: Seq<char>, d: char, b: Seq<char>)
    requires
        is_delimiter(d),
    ensures
        ingested(t, a.push(d) + b) == ingested(ingested(t, a), b),
{
    lemma_sentences_split(a, d, b);
    lemma_with_sentences_add(t, sentences(a), sentences(b));
}

/// A table without a successor of the initial state, as that of a model that
/// has seen no text, admits the empty walk only.
pub proof fn lemma_empty_walk(chain: &MChain, ws: Seq<Seq<char>>, limit: nat)
    requires
        forall|c: Symbol| !chain@.contains_key((Symbol::Start, Symbol::Start, c)),
        chain.walk(ws, limit),
    ensures
        ws.len() == 0,
{
    if ws.len() > 0 {
        assert(chain@.contains_key(step_at(ws, 0)));
    }
}

/// A triplet occurs in a list exactly if the list holds it at some place.
pub proof fn lemma_occurrences_positive(xs: Seq<Triplet>, x: Triplet)
    ensures
        (occurrences(xs, x) > 0) == (exists|k: int| 0 <= k < xs.len() && xs[k] == x),
    decreases xs.len(),
{
    if xs.len() > 0 {
        let rest = xs.drop_last();
        lemma_occurrences_positive(rest, x);
        if exists|k: int| 0 <= k < xs.len() && xs[k] == x {
            let k = choose|k: int| 0 <= k < xs.len() && xs[k] == x;
            if k < xs.len() - 1 {
                assert(rest[k] == x);
            }
        }
        if occurrences(xs, x) > 0 {
            if xs.last() == x {
                assert(xs[xs.len() - 1] == x);
            } else {
                let k = choose|k: int| 0 <= k < rest.len() && rest[k] == x;
                assert(xs[k] == x);
            }
        }
    }
}

/// The triplet that leads from the initial state to the first word.
pub open spec fn opening(ws: Seq<Seq<char>>) -> Triplet {
    (Symbol::Start, Symbol::Start, Symbol::Word(ws[0]))
}

/// The window of the padded sentence that begins at place `k`.
pub open spec fn window_at(ws: Seq<Seq<char>>, k: int) -> Triplet {
    (padded(ws)[k], padded(ws)[k + 1], padded(ws)[k + 2])
}

/// The table of one sentence holds its opening triplet and its windows, and
/// nothing else.
pub proof fn lemma_sentence_table(ws: Seq<Seq<char>>, x: Triplet)
    requires
        ws.len() > 0,
    ensures
        inserted_all(Map::empty(), sentence_triplets(ws)).contains_key(x) <==> (x == opening(ws)
            || exists|k: int| 0 <= k < ws.len() && x == #[trigger] window_at(ws, k)),
{
    let xs = sentence_triplets(ws);
    lemma_inserted_all_counts(Map::empty(), xs, x);
    lemma_occurrences_positive(xs, x);
    assert(xs.len() == ws.len() + 1);
    assert(xs[0] == opening(ws));
    assert forall|k: int| 0 <= k < ws.len() implies xs[k + 1] == #[trigger] window_at(ws, k) by {
        assert(xs[k + 1] == windows(padded(ws))[k]);
    }
    if exists|k: int| 0 <= k < xs.len() && xs[k] == x {
        let k = choose|k: int| 0 <= k < xs.len() && xs[k] == x;
        if k > 0 {
            assert(x == window_at(ws, k - 1));
        }
    }
    if exists|k: int| 0 <= k < ws.len() && x == #[trigger] window_at(ws, k) {
        let k = choose|k: int| 0 <= k < ws.len() && x == #[trigger] window_at(ws, k);
        assert(xs[k + 1] == x);
    }
}

/// No word occurs twice.
pub open spec fn no_repeats(ws: Seq<Seq<char>>) -> bool {
    forall|i: int, j: int| 0 <= i < j < ws.len() ==> ws[i] != ws[j]
}

/// In the table of one sentence without repeated words, the state reached
/// after `m` of its words has one successor: the next word.
pub proof fn lemma_next_word(ws: Seq<Seq<char>>, m: int, c: Symbol)
    requires
        no_repeats(ws),
        0 <= m < ws.len(),
    ensures
        inserted_all(Map::empty(), sentence_triplets(ws)).contains_key(
            (symbol_at(ws, m - 2), symbol_at(ws, m - 1), Symbol::Word(ws[m])),
        ),
        inserted_all(Map::empty(), sentence_triplets(ws)).contains_key(
            (symbol_at(ws, m - 2), symbol_at(ws, m - 1), c),
        ) ==> c == Symbol::Word(ws[m]),
{
    let next = (symbol_at(ws, m - 2), symbol_at(ws, m - 1), Symbol::Word(ws[m]));
    lemma_sentence_table(ws, next);
    if m > 0 {
        assert(next == window_at(ws, m - 1));
    }
    let x = (symbol_at(ws, m - 2), symbol_at(ws, m - 1), c);
    lemma_sentence_table(ws, x);
    if inserted_all(Map::empty(), sentence_triplets(ws)).contains_key(x) && x != opening(ws) {
        let k = choose|k: int| 0 <= k < ws.len() && x == #[trigger] window_at(ws, k);
        if m >= 2 {
            if k - 1 < m - 2 {
                assert(ws[k - 1] != ws[m - 2]);
            } else if m - 2 < k - 1 {
                assert(ws[m - 2] != ws[k - 1]);
            }
        }
        assert(k == m - 1);
    }
}

/// A walk over the table of one sentence without repeated words emits that
/// sentence's words, in order.
pub proof fn lemma_walk_is_prefix(ws: Seq<Seq<char>>, xs: Seq<Seq<char>>, i: int)
    requires
        no_repeats(ws),
        ws.len() > 0,
        follows(inserted_all(Map::empty(), sentence_triplets(ws)), xs),
        0 <= i < xs.len(),
    ensures
        i < ws.len(),
        xs[i] == ws[i],
    decreases i,
{
    if i >= 1 {
        lemma_walk_is_prefix(ws, xs, i - 1);
    }
    if i >= 2 {
        lemma_walk_is_prefix(ws, xs, i - 2);
    }
    let t = inserted_all(Map::empty(), sentence_triplets(ws));
    let x = step_at(xs, i);
    assert(t.contains_key(x));
    assert(symbol_at(xs, i - 1) == symbol_at(ws, i - 1));
    assert(symbol_at(xs, i - 2) == symbol_at(ws, i - 2));
    lemma_sentence_table(ws, x);
    if x != opening(ws) {
        let k = choose|k: int| 0 <= k < ws.len() && x == #[trigger] window_at(ws, k);
        if i >= 2 {
            if k - 1 < i - 2 {
                assert(ws[k - 1] != ws[i - 2]);
            } else if i - 2 < k - 1 {
                assert(ws[i - 2] != ws[k - 1]);
            }
        }
        assert(k == i - 1);
    }
}

/// A text without a delimiter reads, from any place on, as itself.
proof fn lemma_sentences_plain(s: Seq<char>, i: int)
    requires
        forall|k: int| 0 <= k < s.len() ==> !is_delimiter(#[trigger] s[k]),
        0 <= i <= s.len(),
    ensures
        sentences_from(s, i, s.take(i)) == seq![s],
    decreases s.len() - i,
{
    if i < s.len() {
        assert(s.take(i).push(s[i]) =~= s.take(i + 1));
        lemma_sentences_plain(s, i + 1);
    } else {
        assert(s.take(i) =~= s);
    }
}

/// A message without a delimiter is one sentence, and is ingested as the
/// triplets of its words.
pub proof fn lemma_plain_message(t: Map<Triplet, nat>, message: Seq<char>)
    requires
        forall|k: int| 0 <= k < message.len() ==> !is_delimiter(#[trigger] message[k]),
    ensures
        sentences(message) == seq![message],
        ingested(t, message) == inserted_all(t, sentence_triplets(words(message))),
{
    assert(message.take(0) =~= Seq::<char>::empty());
    lemma_sentences_plain(message, 0);
    let ss = seq![message];
    assert(ss.drop_last() =~= Seq::<Seq<char>>::empty());
    assert(with_sentences(t, ss.drop_last()) == t);
    assert(ss.last() == message);
}

/// A single path: the table of one sentence without repeated words admits,
/// under a limit of at least the sentence's length, one walk only, which
/// emits the sentence.
pub proof fn lemma_single_path(chain: &MChain, ws: Seq<Seq<char>>, limit: nat, xs: Seq<Seq<char>>)
    requires
        chain.wf(),
        chain@ == inserted_all(Map::empty(), sentence_triplets(ws)),
        ws.len() > 0,
        no_repeats(ws),
        limit >= ws.len(),
        chain.walk(xs, limit),
    ensures
        xs == ws,
{
    assert forall|i: int| 0 <= i < xs.len() implies i < ws.len() && xs[i] == ws[i] by {
        lemma_walk_is_prefix(ws, xs, i);
    }
    let m = xs.len() as int;
    if m > 0 {
        lemma_walk_is_prefix(ws, xs, m - 1);
    }
    if m < ws.len() {
        let a = symbol_at(ws, m - 2);
        let b = symbol_at(ws, m - 1);
        let c = Symbol::Word(ws[m]);
        assert(symbol_at(xs, m - 1) == b);
        assert(symbol_at(xs, m - 2) == a);
        lemma_next_word(ws, m, c);
        lemma_next_word(ws, m, Symbol::End);
        assert forall|other: Symbol| chain@.contains_key((a, b, other)) implies other == c by {
            lemma_next_word(ws, m, other);
        }
        chain.lemma_single_successor_drawable(a, b, c);
        assert(chain.stops(a, b));
        assert(false);
    }
    assert(xs =~= ws);
}

} // verus!
