//! Transition weights and their projection to the integer weights that a
//! draw is made from.
//!
//! A weight is a fixed-point number with 32 fractional bits, kept in a `u64`:
//! `ONE` stands for 1.0. Multiplying by 1.1 adds a tenth of the weight,
//! rounded down, and stops at the largest value a `u64` holds, whose whole
//! part is the largest weight a draw can take.

use vstd::prelude::*;

verus! {

/// The fixed-point representation of the weight 1.0.
pub const ONE: u64 = 4294967296;

/// The largest weight a draw can take, and the largest total of a draw.
pub const DRAW_MAX: u32 = 4294967295;

/// A weight multiplied by 1.1, rounded down and held at the largest
/// representable weight.
pub open spec fn reinforced(w: nat) -> nat {
    if w + w / 10 > u64::MAX {
        u64::MAX as nat
    } else {
        w + w / 10
    }
}

/// A weight reinforced `n` times in a row.
pub open spec fn reinforced_times(w: nat, n: nat) -> nat
    decreases n,
{
    if n == 0 {
        w
    } else {
        reinforced(reinforced_times(w, (n - 1) as nat))
    }
}

/// The whole part of a fixed-point weight.
pub open spec fn projected(w: u64) -> u32 {
    (w / ONE) as u32
}

/// The whole parts of a sequence of weights, in the same order.
pub open spec fn projection(raw: Seq<u64>) -> Seq<u32> {
    Seq::new(raw.len(), |i: int| projected(raw[i]))
}

/// The sum of a sequence of integer weights.
pub open spec fn total(ws: Seq<u32>) -> nat
    decreases ws.len(),
{
    if ws.len() == 0 {
        0
    } else {
        total(ws.drop_last()) + ws.last() as nat
    }
}

/// Every weight divided by `d`, rounding down.
pub open spec fn divided(ws: Seq<u32>, d: nat) -> Seq<u32>
    recommends
        d >= 1,
{
    Seq::new(ws.len(), |i: int| (ws[i] as nat / d) as u32)
}

/// Integer weights brought down so that their total fits a draw: unchanged
/// while the total is within `DRAW_MAX`; otherwise each divided by the whole
/// number of times `DRAW_MAX` goes into the total, and, where that quotient
/// still leaves the total above `DRAW_MAX`, halved once more.
pub open spec fn scaled(ws: Seq<u32>) -> Seq<u32> {
    if total(ws) <= DRAW_MAX {
        ws
    } else {
        let once = divided(ws, total(ws) / (DRAW_MAX as nat));
        if total(once) <= DRAW_MAX {
            once
        } else {
            divided(once, 2)
        }
    }
}

/// The integer weights from which a successor is drawn, given the stored
/// weights of a state's successors.
pub open spec fn draw_weights(raw: Seq<u64>) -> Seq<u32> {
    scaled(projection(raw))
}

/// Multiplies a weight by 1.1.
pub fn reinforce(w: u64) -> (r: u64)
    ensures
        r == reinforced(w as nat),
        r >= w,
        w >= ONE ==> r > w || r == u64::MAX,
{
    let tenth: u64 = w / 10;
    if tenth > u64::MAX - w {
        u64::MAX
    } else {
        w + tenth
    }
}

/// The total of a prefix extended by one weight.
pub proof fn lemma_total_push(ws: Seq<u32>, w: u32)
    ensures
        total(ws.push(w)) == total(ws) + w as nat,
{
    assert(ws.push(w).drop_last() =~= ws);
}

/// Dividing every weight by `d` divides the total by at least `d`.
pub proof fn lemma_total_divided(ws: Seq<u32>, d: nat)
    requires
        d >= 1,
    ensures
        total(divided(ws, d)) * d <= total(ws),
    decreases ws.len(),
{
    if ws.len() > 0 {
        let rest = ws.drop_last();
        let w = ws.last() as nat;
        lemma_total_divided(rest, d);
        assert(divided(ws, d).drop_last() =~= divided(rest, d));
        assert(divided(ws, d).last() as nat == w / d);
        assert((w / d) * d <= w) by (nonlinear_arith)
            requires
                d >= 1,
        ;
        let t = total(divided(rest, d));
        assert(total(divided(ws, d)) == t + w / d);
        assert((t + w / d) * d == t * d + (w / d) * d) by (nonlinear_arith);
    } else {
        assert(total(divided(ws, d)) == 0);
        assert(0 * d == 0) by (nonlinear_arith);
    }
}

/// Overflow safety of the scaling: whatever the weights, the total of the
/// scaled weights fits a draw.
pub proof fn lemma_scaled_fits(ws: Seq<u32>)
    ensures
        total(scaled(ws)) <= DRAW_MAX,
        scaled(ws).len() == ws.len(),
        total(ws) > DRAW_MAX ==> total(ws) / (DRAW_MAX as nat) >= 1,
{
    let s = total(ws);
    let m = DRAW_MAX as nat;
    if s > m {
        let r = s / m;
        assert(r >= 1 && s < (r + 1) * m) by (nonlinear_arith)
            requires
                r == s / m,
                s > m,
                m > 0,
        ;
        let once = divided(ws, r);
        let t = total(once);
        lemma_total_divided(ws, r);
        if t > m {
            lemma_total_divided(once, 2);
            let u = total(divided(once, 2));
            assert(u < m) by (nonlinear_arith)
                requires
                    u * 2 <= t,
                    t * r <= s,
                    s < (r + 1) * m,
                    r >= 1,
            ;
        }
    }
}

/// A total is at least each weight that it sums.
pub proof fn lemma_total_reaches(ws: Seq<u32>, i: int)
    requires
        0 <= i < ws.len(),
    ensures
        total(ws) >= ws[i],
    decreases ws.len(),
{
    if i < ws.len() - 1 {
        lemma_total_reaches(ws.drop_last(), i);
    }
}

/// Weights that are each at most `b` sum to at most `b` for each of them.
pub proof fn lemma_total_within(ws: Seq<u32>, b: nat)
    requires
        forall|i: int| 0 <= i < ws.len() ==> ws[i] <= b,
    ensures
        total(ws) <= ws.len() * b,
    decreases ws.len(),
{
    if ws.len() > 0 {
        lemma_total_within(ws.drop_last(), b);
        assert((ws.len() - 1) * b + b == ws.len() * b) by (nonlinear_arith);
    } else {
        assert(0 * b == 0) by (nonlinear_arith);
    }
}

/// Dividing leaves something to draw from: if some weight is at least `d`,
/// the divided weights have a positive total.
proof fn lemma_divided_positive(ws: Seq<u32>, d: nat)
    requires
        d >= 1,
        exists|i: int| 0 <= i < ws.len() && ws[i] >= d,
    ensures
        total(divided(ws, d)) > 0,
{
    let i = choose|i: int| 0 <= i < ws.len() && ws[i] >= d;
    let w = ws[i] as nat;
    assert(w / d >= 1 && w / d <= w) by (nonlinear_arith)
        requires
            w >= d,
            d >= 1,
    ;
    assert(divided(ws, d)[i] >= 1);
    lemma_total_reaches(divided(ws, d), i);
}

/// A state with successors can be drawn from: stored weights of at least 1.0
/// each, no more of them than `DRAW_MAX`, give draw weights with a positive
/// total.
pub proof fn lemma_drawable(raw: Seq<u64>)
    requires
        0 < raw.len() <= DRAW_MAX,
        forall|i: int| 0 <= i < raw.len() ==> raw[i] >= ONE,
    ensures
        total(draw_weights(raw)) > 0,
{
    let p = projection(raw);
    let m = DRAW_MAX as nat;
    let n = p.len();
    assert forall|i: int| 0 <= i < n implies 1 <= #[trigger] p[i] by {
        assert(raw[i] / ONE >= 1);
    }
    lemma_total_reaches(p, 0);
    let s = total(p);
    if s > m {
        let r = s / m;
        assert(r >= 1 && r * m <= s) by (nonlinear_arith)
            requires
                r == s / m,
                s > m,
                m > 0,
        ;
        if forall|i: int| 0 <= i < n ==> p[i] <= r - 1 {
            lemma_total_within(p, (r - 1) as nat);
            assert(n * (r - 1) < r * m) by (nonlinear_arith)
                requires
                    n <= m,
                    r >= 1,
                    m > 0,
            ;
            assert(false);
        }
        lemma_divided_positive(p, r);
        let once = divided(p, r);
        if total(once) > m {
            if forall|i: int| 0 <= i < n ==> once[i] <= 1 {
                lemma_total_within(once, 1);
                assert(n * 1 == n) by (nonlinear_arith);
                assert(false);
            }
            lemma_divided_positive(once, 2);
        }
    }
}

/// Sums integer weights.
pub fn sum_weights(ws: &Vec<u32>) -> (s: u128)
    ensures
        s == total(ws@),
{
    let mut s: u128 = 0;
    let mut i: usize = 0;
    while i < ws.len()
        invariant
            i <= ws.len(),
            s == total(ws@.take(i as int)),
            s <= i * (DRAW_MAX as nat),
        decreases ws.len() - i,
    {
        proof {
            assert(ws@.take(i + 1) =~= ws@.take(i as int).push(ws@[i as int]));
            lemma_total_push(ws@.take(i as int), ws@[i as int]);
            assert(i * (DRAW_MAX as nat) + (DRAW_MAX as nat) == (i + 1) * (DRAW_MAX as nat))
                by (nonlinear_arith);
            assert(i * (DRAW_MAX as nat) <= usize::MAX * (DRAW_MAX as nat)) by (nonlinear_arith)
                requires
                    i <= usize::MAX,
            ;
            assert(usize::MAX * (DRAW_MAX as nat) + (DRAW_MAX as nat) <= u128::MAX) by (nonlinear_arith)
                requires
                    usize::MAX <= u64::MAX,
            ;
        }
        s = s + ws[i] as u128;
        i = i + 1;
    }
    proof {
        assert(ws@.take(i as int) =~= ws@);
    }
    s
}

/// Divides every weight by `d`.
pub fn divide_weights(ws: &Vec<u32>, d: u128) -> (r: Vec<u32>)
    requires
        d >= 1,
    ensures
        r@ == divided(ws@, d as nat),
{
    let mut r: Vec<u32> = Vec::new();
    let mut i: usize = 0;
    while i < ws.len()
        invariant
            i <= ws.len(),
            d >= 1,
            r@ == divided(ws@.take(i as int), d as nat),
        decreases ws.len() - i,
    {
        let q: u128 = ws[i] as u128 / d;
        proof {
            assert(q <= ws@[i as int]) by (nonlinear_arith)
                requires
                    q == ws@[i as int] as u128 / d,
                    d >= 1,
            ;
        }
        r.push(q as u32);
        i = i + 1;
        proof {
            assert(r@ =~= divided(ws@.take(i as int), d as nat));
        }
    }
    proof {
        assert(ws@.take(i as int) =~= ws@);
    }
    r
}

/// The integer weights from which a successor is drawn: the whole part of
/// each stored weight, scaled down where their total would not fit a draw.
pub fn sampling_weights(raw: &Vec<u64>) -> (r: Vec<u32>)
    ensures
        r@ == draw_weights(raw@),
        r@.len() == raw@.len(),
        total(r@) <= DRAW_MAX,
{
    let mut ws: Vec<u32> = Vec::new();
    let mut i: usize = 0;
    while i < raw.len()
        invariant
            i <= raw.len(),
            ws@ == projection(raw@.take(i as int)),
        decreases raw.len() - i,
    {
        ws.push((raw[i] / ONE) as u32);
        i = i + 1;
        proof {
            assert(ws@ =~= projection(raw@.take(i as int)));
        }
    }
    proof {
        assert(raw@.take(i as int) =~= raw@);
        lemma_scaled_fits(ws@);
    }
    let s: u128 = sum_weights(&ws);
    if s <= DRAW_MAX as u128 {
        ws
    } else {
        let once = divide_weights(&ws, s / (DRAW_MAX as u128));
        let t: u128 = sum_weights(&once);
        if t <= DRAW_MAX as u128 {
            once
        } else {
            divide_weights(&once, 2)
        }
    }
}

} // verus!
