//! Exact non-negative rational numbers.
//!
//! `Rt` is the mathematical (spec-level) rational as a numerator/denominator
//! pair of unbounded integers; `Q` is the executable counterpart over `u64`.
//! Two pairs denote the same rational when they cross-multiply equally
//! (`rt_eq`), so contracts throughout the crate are stated up to `rt_eq`.
//! Executable arithmetic is checked: an operation returns `None` when even
//! the gcd-reduced result does not fit in `u64`.

use vstd::prelude::*;

verus! {

use vstd::arithmetic::div_mod::lemma_fundamental_div_mod;

/// A spec-level rational: `num / den`.
pub struct Rt {
    pub num: int,
    pub den: int,
}

/// A well-formed rational is non-negative with a positive denominator.
pub open spec fn rt_wf(r: Rt) -> bool {
    r.den >= 1 && r.num >= 0
}

pub open spec fn rt_zero() -> Rt {
    Rt { num: 0, den: 1 }
}

pub open spec fn rt_one() -> Rt {
    Rt { num: 1, den: 1 }
}

/// `a` and `b` denote the same rational value.
pub open spec fn rt_eq(a: Rt, b: Rt) -> bool {
    a.num * b.den == b.num * a.den
}

/// `a < b` as rational values (meaningful for positive denominators).
pub open spec fn rt_lt(a: Rt, b: Rt) -> bool {
    a.num * b.den < b.num * a.den
}

/// `a <= b` as rational values (meaningful for positive denominators).
pub open spec fn rt_le(a: Rt, b: Rt) -> bool {
    a.num * b.den <= b.num * a.den
}

pub open spec fn rt_mul(a: Rt, b: Rt) -> Rt {
    Rt { num: a.num * b.num, den: a.den * b.den }
}

pub open spec fn rt_add(a: Rt, b: Rt) -> Rt {
    Rt { num: a.num * b.den + b.num * a.den, den: a.den * b.den }
}

/// `a / b`; meaningful when `b.num > 0`.
pub open spec fn rt_div(a: Rt, b: Rt) -> Rt {
    Rt { num: a.num * b.den, den: a.den * b.num }
}



pub proof fn lemma_rt_eq_trans(a: Rt, b: Rt, c: Rt) by (nonlinear_arith)
    requires
        rt_wf(a),
        rt_wf(b),
        rt_wf(c),
        rt_eq(a, b),
        rt_eq(b, c),
    ensures
        rt_eq(a, c),
{
    assert(b.den * (a.num * c.den) == b.den * (c.num * a.den));
}

pub proof fn lemma_rt_mul_wf(a: Rt, b: Rt) by (nonlinear_arith)
    requires
        rt_wf(a),
        rt_wf(b),
    ensures
        rt_wf(rt_mul(a, b)),
{
}

pub proof fn lemma_rt_add_wf(a: Rt, b: Rt) by (nonlinear_arith)
    requires
        rt_wf(a),
        rt_wf(b),
    ensures
        rt_wf(rt_add(a, b)),
{
}

pub proof fn lemma_rt_div_wf(a: Rt, b: Rt) by (nonlinear_arith)
    requires
        rt_wf(a),
        rt_wf(b),
        b.num >= 1,
    ensures
        rt_wf(rt_div(a, b)),
{
}

/// Multiplication respects rational equality.
pub proof fn lemma_rt_mul_congr(a: Rt, a2: Rt, b: Rt, b2: Rt) by (nonlinear_arith)
    requires
        rt_wf(a),
        rt_wf(a2),
        rt_wf(b),
        rt_wf(b2),
        rt_eq(a, a2),
        rt_eq(b, b2),
    ensures
        rt_eq(rt_mul(a, b), rt_mul(a2, b2)),
{
    assert((a.num * a2.den) * (b.num * b2.den) == (a2.num * a.den) * (b2.num * b.den));
}

/// Addition respects rational equality.
pub proof fn lemma_rt_add_congr(a: Rt, a2: Rt, b: Rt, b2: Rt)
    requires
        rt_wf(a),
        rt_wf(a2),
        rt_wf(b),
        rt_wf(b2),
        rt_eq(a, a2),
        rt_eq(b, b2),
    ensures
        rt_eq(rt_add(a, b), rt_add(a2, b2)),
{
    assert((a.num * b.den) * (a2.den * b2.den) == (a2.num * b2.den) * (a.den * b.den))
        by (nonlinear_arith)
        requires
            a.num * a2.den == a2.num * a.den,
    ;
    assert((b.num * a.den) * (a2.den * b2.den) == (b2.num * a2.den) * (a.den * b.den))
        by (nonlinear_arith)
        requires
            b.num * b2.den == b2.num * b.den,
    ;
    assert(rt_eq(rt_add(a, b), rt_add(a2, b2))) by (nonlinear_arith)
        requires
            (a.num * b.den) * (a2.den * b2.den) == (a2.num * b2.den) * (a.den * b.den),
            (b.num * a.den) * (a2.den * b2.den) == (b2.num * a2.den) * (a.den * b.den),
    ;
}

/// The strict order respects rational equality.
pub proof fn lemma_rt_lt_congr(a: Rt, a2: Rt, b: Rt, b2: Rt) by (nonlinear_arith)
    requires
        rt_wf(a),
        rt_wf(a2),
        rt_wf(b),
        rt_wf(b2),
        rt_eq(a, a2),
        rt_eq(b, b2),
    ensures
        rt_lt(a, b) == rt_lt(a2, b2),
{
}

/// Division respects rational equality of both arguments (for positive
/// divisors).
pub proof fn lemma_rt_div_congr(a: Rt, a2: Rt, c: Rt, c2: Rt)
    requires
        rt_wf(a),
        rt_wf(a2),
        rt_wf(c),
        rt_wf(c2),
        c.num >= 1,
        c2.num >= 1,
        rt_eq(a, a2),
        rt_eq(c, c2),
    ensures
        rt_eq(rt_div(a, c), rt_div(a2, c2)),
{
    assert((a.num * c.den) * (a2.den * c2.num) == (a2.num * c2.den) * (a.den * c.num))
        by (nonlinear_arith)
        requires
            a.num * a2.den == a2.num * a.den,
            c.num * c2.den == c2.num * c.den,
    ;
}

pub proof fn lemma_rt_le_trans(a: Rt, b: Rt, c: Rt) by (nonlinear_arith)
    requires
        rt_wf(a),
        rt_wf(b),
        rt_wf(c),
        rt_le(a, b),
        rt_le(b, c),
    ensures
        rt_le(a, c),
{
    assert(b.den * (a.num * c.den) <= b.den * (c.num * a.den));
}


pub proof fn lemma_rt_add_assoc(a: Rt, b: Rt, c: Rt)
    requires
        rt_wf(a),
        rt_wf(b),
        rt_wf(c),
    ensures
        rt_eq(rt_add(rt_add(a, b), c), rt_add(a, rt_add(b, c))),
{
    let an = a.num;
    let ad = a.den;
    let bn = b.num;
    let bd = b.den;
    let cn = c.num;
    let cd = c.den;
    let l = rt_add(rt_add(a, b), c);
    let r = rt_add(a, rt_add(b, c));
    assert((an * bd + bn * ad) * cd == (an * bd) * cd + (bn * ad) * cd) by (nonlinear_arith);
    assert((an * bd) * cd == an * (bd * cd)) by (nonlinear_arith);
    assert((bn * ad) * cd == (bn * cd) * ad) by (nonlinear_arith);
    assert(cn * (ad * bd) == (cn * bd) * ad) by (nonlinear_arith);
    assert((bn * cd + cn * bd) * ad == (bn * cd) * ad + (cn * bd) * ad) by (nonlinear_arith);
    assert(l.num == r.num);
    assert((ad * bd) * cd == ad * (bd * cd)) by (nonlinear_arith);
    assert(l.den == r.den);
}

/// Adding one more `w` to `w` taken `c` times gives `w` taken `c + 1` times.
pub proof fn lemma_rt_mul_succ(w: Rt, c: int)
    requires
        rt_wf(w),
    ensures
        rt_eq(rt_mul(w, Rt { num: c + 1, den: 1 }), rt_add(rt_mul(w, Rt { num: c, den: 1 }), w)),
{
    let l = rt_mul(w, Rt { num: c + 1, den: 1 });
    let r = rt_add(rt_mul(w, Rt { num: c, den: 1 }), w);
    assert(l.num * r.den == r.num * l.den) by (nonlinear_arith)
        requires
            l.num == w.num * (c + 1),
            l.den == w.den * 1,
            r.num == (w.num * c) * w.den + w.num * (w.den * 1),
            r.den == (w.den * 1) * w.den,
    ;
}

/// A value that equals `o` plus a non-negatively weighted count is at
/// least `o`: accumulation only grows an entry.
pub proof fn lemma_rt_grow(o: Rt, n: Rt, w: Rt, c: int)
    requires
        rt_wf(o),
        rt_wf(n),
        rt_wf(w),
        c >= 0,
        rt_eq(n, rt_add(o, rt_mul(w, Rt { num: c, den: 1 }))),
    ensures
        rt_le(o, n),
{
    let m = rt_add(o, rt_mul(w, Rt { num: c, den: 1 }));
    assert(rt_le(o, m)) by (nonlinear_arith)
        requires
            m.num == o.num * (w.den * 1) + (w.num * c) * o.den,
            m.den == o.den * (w.den * 1),
            o.num >= 0,
            o.den >= 1,
            w.num >= 0,
            w.den >= 1,
            c >= 0,
    ;
    assert(rt_le(o, n)) by (nonlinear_arith)
        requires
            o.num * m.den <= m.num * o.den,
            n.num * m.den == m.num * n.den,
            m.den == o.den * (w.den * 1),
            o.den >= 1,
            w.den >= 1,
            n.den >= 1,
            o.num >= 0,
            n.num >= 0,
            m.num >= 0,
    ;
}

/// Adding a zero-weighted contribution leaves a value unchanged.
pub proof fn lemma_rt_add_zero_mul(a: Rt, w: Rt)
    requires
        rt_wf(a),
        rt_wf(w),
    ensures
        rt_eq(a, rt_add(a, rt_mul(w, Rt { num: 0, den: 1 }))),
{
    let r = rt_add(a, rt_mul(w, Rt { num: 0, den: 1 }));
    assert(a.num * r.den == r.num * a.den) by (nonlinear_arith)
        requires
            r.num == a.num * (w.den * 1) + (w.num * 0) * a.den,
            r.den == a.den * (w.den * 1),
    ;
}

/// An executable rational: `num / den` with `den >= 1`.
#[derive(Clone, Copy, PartialEq, Eq, Structural, Debug)]
pub struct Q {
    pub num: u64,
    pub den: u64,
}

impl View for Q {
    type V = Rt;

    open spec fn view(&self) -> Rt {
        Rt { num: self.num as int, den: self.den as int }
    }
}

impl Q {
    pub open spec fn wf(self) -> bool {
        rt_wf(self@)
    }

    pub fn zero() -> (r: Q)
        ensures
            r@ == rt_zero(),
            r.wf(),
    {
        Q { num: 0, den: 1 }
    }

    pub fn one() -> (r: Q)
        ensures
            r@ == rt_one(),
            r.wf(),
    {
        Q { num: 1, den: 1 }
    }

    pub fn new(num: u64, den: u64) -> (r: Q)
        requires
            den >= 1,
        ensures
            r@ == (Rt { num: num as int, den: den as int }),
            r.wf(),
    {
        Q { num, den }
    }
}

fn gcd_u128(a: u128, b: u128) -> (g: u128)
    requires
        a >= 1 || b >= 1,
    ensures
        g >= 1,
{
    let mut x: u128 = a;
    let mut y: u128 = b;
    while y != 0
        invariant
            x >= 1 || y >= 1,
        decreases y,
    {
        let t: u128 = x % y;
        x = y;
        y = t;
    }
    x
}

/// Build a `Q` from a wide numerator/denominator pair, reducing by the gcd
/// first; `None` only when even the reduced pair does not fit in `u64`.
fn q_from_u128(n: u128, d: u128) -> (r: Option<Q>)
    requires
        d >= 1,
    ensures
        r matches Some(q) ==> q.wf() && rt_eq(q@, Rt { num: n as int, den: d as int }),
        n <= u64::MAX && d <= u64::MAX ==> r is Some,
        n == 0 ==> r == Some(Q { num: 0, den: 1 }),
        d == 1 && n <= u64::MAX ==> r == Some(Q { num: n as u64, den: 1 }),
        d == 1 && n > u64::MAX ==> r is None,
{
    if n == 0 {
        proof {
            assert(0int * (d as int) == 0 * 1) by (nonlinear_arith);
        }
        return Some(Q { num: 0, den: 1 });
    }
    if d == 1 {
        if n <= u64::MAX as u128 {
            return Some(Q { num: n as u64, den: 1 });
        }
        return None;
    }
    let g: u128 = gcd_u128(n, d);
    if n % g == 0 && d % g == 0 {
        let n2: u128 = n / g;
        let d2: u128 = d / g;
        if 1 <= d2 && d2 <= u64::MAX as u128 && n2 <= u64::MAX as u128 {
            proof {
                lemma_fundamental_div_mod(n as int, g as int);
                lemma_fundamental_div_mod(d as int, g as int);
                assert(n == g * n2 && d == g * d2);
                assert(n2 as int * d as int == n as int * d2 as int) by (nonlinear_arith)
                    requires
                        n == g * n2,
                        d == g * d2,
                ;
            }
            return Some(Q { num: n2 as u64, den: d2 as u64 });
        }
    }
    if n <= (u64::MAX as u128) && d <= (u64::MAX as u128) {
        return Some(Q { num: n as u64, den: d as u64 });
    }
    None
}

proof fn lemma_u64_mul_fits(a: u64, b: u64) by (nonlinear_arith)
    ensures
        (a as u128) * (b as u128) <= u128::MAX,
        a >= 1 && b >= 1 ==> (a as u128) * (b as u128) >= 1,
{
}

/// Checked exact multiplication.
pub fn q_mul(a: &Q, b: &Q) -> (r: Option<Q>)
    requires
        a.wf(),
        b.wf(),
    ensures
        r matches Some(q) ==> q.wf() && rt_eq(q@, rt_mul(a@, b@)),
        a@.num * b@.num <= u64::MAX && a@.den * b@.den <= u64::MAX ==> r is Some,
{
    proof {
        lemma_u64_mul_fits(a.num, b.num);
        lemma_u64_mul_fits(a.den, b.den);
    }
    let n: u128 = (a.num as u128) * (b.num as u128);
    let d: u128 = (a.den as u128) * (b.den as u128);
    q_from_u128(n, d)
}

/// Checked exact addition.
pub fn q_add(a: &Q, b: &Q) -> (r: Option<Q>)
    requires
        a.wf(),
        b.wf(),
    ensures
        r matches Some(q) ==> q.wf() && rt_eq(q@, rt_add(a@, b@)),
        a@.num * b@.den + b@.num * a@.den <= u64::MAX && a@.den * b@.den <= u64::MAX ==> r
            is Some,
        a@.num == 0 && b@.num == 0 ==> r == Some(Q { num: 0, den: 1 }),
        a@.den == 1 && b@.den == 1 && a@.num + b@.num <= u64::MAX ==> r == Some(
            Q { num: (a.num + b.num) as u64, den: 1 },
        ),
{
    proof {
        lemma_u64_mul_fits(a.num, b.den);
        lemma_u64_mul_fits(b.num, a.den);
        lemma_u64_mul_fits(a.den, b.den);
        if a@.num == 0 || b@.num == 0 || (a@.den == 1 && b@.den == 1) {
            assert(a@.num == 0 ==> a@.num * b@.den == 0) by (nonlinear_arith);
            assert(b@.num == 0 ==> b@.num * a@.den == 0) by (nonlinear_arith);
            assert(a@.den == 1 && b@.den == 1 ==> a@.num * b@.den == a@.num && b@.num * a@.den
                == b@.num && a@.den * b@.den == 1) by (nonlinear_arith);
        }
    }
    let n1: u128 = (a.num as u128) * (b.den as u128);
    let n2: u128 = (b.num as u128) * (a.den as u128);
    if n1 > u128::MAX - n2 {
        return None;
    }
    let n: u128 = n1 + n2;
    let d: u128 = (a.den as u128) * (b.den as u128);
    q_from_u128(n, d)
}

/// Checked exact division; the divisor must be a positive rational.
pub fn q_div(a: &Q, b: &Q) -> (r: Option<Q>)
    requires
        a.wf(),
        b.wf(),
        b@.num >= 1,
    ensures
        r matches Some(q) ==> q.wf() && rt_eq(q@, rt_div(a@, b@)),
        a@.num * b@.den <= u64::MAX && a@.den * b@.num <= u64::MAX ==> r is Some,
{
    proof {
        lemma_u64_mul_fits(a.num, b.den);
        lemma_u64_mul_fits(a.den, b.num);
    }
    let n: u128 = (a.num as u128) * (b.den as u128);
    let d: u128 = (a.den as u128) * (b.num as u128);
    q_from_u128(n, d)
}

/// Exact comparison of rational values.
pub fn q_lt(a: &Q, b: &Q) -> (r: bool)
    requires
        a.wf(),
        b.wf(),
    ensures
        r == rt_lt(a@, b@),
{
    proof {
        lemma_u64_mul_fits(a.num, b.den);
        lemma_u64_mul_fits(b.num, a.den);
    }
    (a.num as u128) * (b.den as u128) < (b.num as u128) * (a.den as u128)
}

/// A well-formed `Q` is zero as a rational value exactly when its numerator is.
pub fn q_is_zero(a: &Q) -> (r: bool)
    requires
        a.wf(),
    ensures
        r == rt_eq(a@, rt_zero()),
{
    a.num == 0
}

} // verus!
