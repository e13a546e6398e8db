//! The distribution normalizer.
//!
//! `normalize_vec` turns a slice of non-negative rationals into a probability
//! distribution: every entry is divided by the slice sum, and an all-zero
//! slice becomes the uniform distribution over the slice instead of a
//! degenerate one. `Grid` is a two-level table (a matrix, or a rank-3 table
//! with two axes flattened into one level) offering per-slice and
//! across-slice normalization, and an axis-checked entry point.

use vstd::prelude::*;

verus! {

use crate::rat::{Q, Rt, rt_wf, rt_zero, rt_one, rt_eq, rt_add, rt_div};
use crate::rat::{q_add, q_div, q_is_zero};
use crate::rat::{
    lemma_rt_eq_trans,
    lemma_rt_add_wf,
    lemma_rt_div_wf,
    lemma_rt_add_congr,
};

/// The views of the entries of a slice of executable rationals.
pub open spec fn qs(s: Seq<Q>) -> Seq<Rt> {
    Seq::new(s.len(), |i: int| s[i]@)
}

pub open spec fn rts_wf(s: Seq<Rt>) -> bool {
    forall|i: int| 0 <= i < s.len() ==> rt_wf(#[trigger] s[i])
}

pub open spec fn qs_wf(s: Seq<Q>) -> bool {
    forall|i: int| 0 <= i < s.len() ==> (#[trigger] s[i]).wf()
}

/// The rational sum of a sequence.
pub open spec fn rt_sum(s: Seq<Rt>) -> Rt
    decreases s.len(),
{
    if s.len() == 0 {
        rt_zero()
    } else {
        rt_add(rt_sum(s.drop_last()), s.last())
    }
}

/// Every entry is the rational zero.
pub open spec fn all_zero(s: Seq<Rt>) -> bool {
    forall|i: int| 0 <= i < s.len() ==> (#[trigger] s[i]).num == 0
}

/// The integer sum of the numerators of a sequence.
pub open spec fn rt_num_sum(s: Seq<Rt>) -> int
    decreases s.len(),
{
    if s.len() == 0 {
        0
    } else {
        rt_num_sum(s.drop_last()) + s.last().num
    }
}

/// Every entry is an integer (denominator one) and the numerators' total
/// fits in `u64`: normalization is then owed success.
pub open spec fn slice_fits(s: Seq<Rt>) -> bool {
    (forall|i: int| 0 <= i < s.len() ==> (#[trigger] s[i]).den == 1) && rt_num_sum(s)
        <= u64::MAX
}

/// A slice on which the normalizer is owed success: identically zero, or
/// integer entries with a bounded total.
pub open spec fn slice_ok(s: Seq<Rt>) -> bool {
    all_zero(s) || slice_fits(s)
}

pub proof fn lemma_rt_num_sum_take_step(s: Seq<Rt>, i: int)
    requires
        0 <= i < s.len(),
    ensures
        rt_num_sum(s.take(i + 1)) == rt_num_sum(s.take(i)) + s[i].num,
{
    assert(s.take(i + 1).drop_last() =~= s.take(i));
}

pub proof fn lemma_rt_num_sum_take_le(s: Seq<Rt>, i: int)
    requires
        0 <= i <= s.len(),
        forall|k: int| 0 <= k < s.len() ==> (#[trigger] s[k]).num >= 0,
    ensures
        0 <= rt_num_sum(s.take(i)) <= rt_num_sum(s),
    decreases s.len() - i,
{
    if i == s.len() {
        assert(s.take(i) =~= s);
        lemma_rt_num_sum_nonneg(s);
    } else {
        lemma_rt_num_sum_take_le(s, i + 1);
        lemma_rt_num_sum_take_step(s, i);
        assert(forall|k: int| 0 <= k < s.take(i).len() ==> (#[trigger] s.take(i)[k]).num >= 0);
        lemma_rt_num_sum_nonneg(s.take(i));
    }
}

pub proof fn lemma_rt_num_sum_nonneg(s: Seq<Rt>)
    requires
        forall|k: int| 0 <= k < s.len() ==> (#[trigger] s[k]).num >= 0,
    ensures
        rt_num_sum(s) >= 0,
    decreases s.len(),
{
    if s.len() > 0 {
        assert(forall|k: int|
            0 <= k < s.drop_last().len() ==> (#[trigger] s.drop_last()[k]).num >= 0);
        lemma_rt_num_sum_nonneg(s.drop_last());
    }
}

/// A slice of entries that are all exactly one sums to its length.
pub proof fn lemma_rt_num_sum_ones(s: Seq<Rt>)
    requires
        forall|i: int| 0 <= i < s.len() ==> (#[trigger] s[i]).num == 1,
    ensures
        rt_num_sum(s) == s.len(),
    decreases s.len(),
{
    if s.len() > 0 {
        assert(forall|i: int|
            0 <= i < s.drop_last().len() ==> (#[trigger] s.drop_last()[i]).num == 1);
        lemma_rt_num_sum_ones(s.drop_last());
    }
}

/// `out` is the normalization of `inp`: uniform where `inp` is all zero,
/// entry-by-entry division by the slice sum otherwise.
pub open spec fn normalized_of(out: Seq<Rt>, inp: Seq<Rt>) -> bool {
    &&& out.len() == inp.len()
    &&& rts_wf(out)
    &&& all_zero(inp) ==> (forall|i: int|
        0 <= i < out.len() ==> #[trigger] out[i] == (Rt { num: 1, den: inp.len() as int }))
    &&& !all_zero(inp) ==> (forall|i: int|
        0 <= i < out.len() ==> rt_eq(#[trigger] out[i], rt_div(inp[i], rt_sum(inp))))
}

pub proof fn lemma_rt_sum_wf(s: Seq<Rt>)
    requires
        rts_wf(s),
    ensures
        rt_wf(rt_sum(s)),
    decreases s.len(),
{
    if s.len() == 0 {
    } else {
        assert(rts_wf(s.drop_last()));
        lemma_rt_sum_wf(s.drop_last());
        lemma_rt_add_wf(rt_sum(s.drop_last()), s.last());
    }
}

/// One step of summation over a growing prefix.
pub proof fn lemma_rt_sum_take_step(s: Seq<Rt>, i: int)
    requires
        0 <= i < s.len(),
    ensures
        rt_sum(s.take(i + 1)) == rt_add(rt_sum(s.take(i)), s[i]),
{
    assert(s.take(i + 1).drop_last() =~= s.take(i));
    assert(s.take(i + 1).last() == s[i]);
}

/// The sum of well-formed entries is zero exactly when every entry is.
pub proof fn lemma_rt_sum_zero_iff(s: Seq<Rt>)
    requires
        rts_wf(s),
    ensures
        rt_sum(s).num == 0 <==> all_zero(s),
    decreases s.len(),
{
    if s.len() == 0 {
    } else {
        let d = s.drop_last();
        let l = s.last();
        assert(rts_wf(d));
        lemma_rt_sum_zero_iff(d);
        lemma_rt_sum_wf(d);
        let sd = rt_sum(d);
        assert(rt_sum(s).num == sd.num * l.den + l.num * sd.den);
        assert(sd.num * l.den + l.num * sd.den == 0 <==> (sd.num == 0 && l.num == 0))
            by (nonlinear_arith)
            requires
                sd.num >= 0,
                l.num >= 0,
                sd.den >= 1,
                l.den >= 1,
        ;
        assert(all_zero(s) <==> (all_zero(d) && l.num == 0)) by {
            if all_zero(d) && l.num == 0 {
                assert forall|i: int| 0 <= i < s.len() implies (#[trigger] s[i]).num == 0 by {
                    if i < s.len() - 1 {
                        assert(s[i] == d[i]);
                    }
                }
            }
        }
    }
}

/// Sum of a constant uniform slice.
pub proof fn lemma_rt_sum_uniform(s: Seq<Rt>, d: int)
    requires
        d >= 1,
        forall|i: int| 0 <= i < s.len() ==> #[trigger] s[i] == (Rt { num: 1, den: d }),
    ensures
        rt_eq(rt_sum(s), Rt { num: s.len() as int, den: d }),
    decreases s.len(),
{
    if s.len() == 0 {
        assert(rt_eq(rt_zero(), Rt { num: 0, den: d })) by (nonlinear_arith);
    } else {
        let dl = s.drop_last();
        lemma_rt_sum_uniform(dl, d);
        assert(rts_wf(dl));
        lemma_rt_sum_wf(dl);
        let sd = rt_sum(dl);
        let n = dl.len() as int;
        // sd == n/d, so sd + 1/d == (n+1)/d
        assert(rt_eq(rt_add(sd, s.last()), Rt { num: n + 1, den: d })) by (nonlinear_arith)
            requires
                s.last() == (Rt { num: 1, den: d }),
                sd.num * d == n * sd.den,
                sd.den >= 1,
                d >= 1,
        ;
    }
}

/// Division by a common positive rational distributes over the sum.
proof fn lemma_rt_div_add(a: Rt, b: Rt, c: Rt)
    requires
        rt_wf(a),
        rt_wf(b),
        rt_wf(c),
        c.num >= 1,
    ensures
        rt_eq(rt_add(rt_div(a, c), rt_div(b, c)), rt_div(rt_add(a, b), c)),
{
    let an = a.num;
    let ad = a.den;
    let bn = b.num;
    let bd = b.den;
    let cn = c.num;
    let cd = c.den;
    let s = an * bd + bn * ad;
    let l = rt_add(rt_div(a, c), rt_div(b, c));
    let r = rt_div(rt_add(a, b), c);
    assert((an * cd) * (bd * cn) == (an * bd) * (cd * cn)) by (nonlinear_arith);
    assert((bn * cd) * (ad * cn) == (bn * ad) * (cd * cn)) by (nonlinear_arith);
    let x = an * bd;
    let y = bn * ad;
    let z = cd * cn;
    assert((x + y) * z == x * z + y * z) by (nonlinear_arith);
    assert(l.num == s * (cd * cn));
    assert(s * (cd * cn) * ((ad * bd) * cn) == (s * cd) * ((ad * cn) * (bd * cn)))
        by (nonlinear_arith);
    assert(l.num * r.den == r.num * l.den) by (nonlinear_arith)
        requires
            l.num == s * (cd * cn),
            r.den == (ad * bd) * cn,
            r.num == s * cd,
            l.den == (ad * cn) * (bd * cn),
            s * (cd * cn) * ((ad * bd) * cn) == (s * cd) * ((ad * cn) * (bd * cn)),
    ;
}

/// Summing entry-wise quotients gives the quotient of the sum.
pub proof fn lemma_rt_sum_div(s: Seq<Rt>, t: Seq<Rt>, c: Rt)
    requires
        s.len() == t.len(),
        rts_wf(s),
        rts_wf(t),
        rt_wf(c),
        c.num >= 1,
        forall|i: int| 0 <= i < t.len() ==> rt_eq(#[trigger] t[i], rt_div(s[i], c)),
    ensures
        rt_eq(rt_sum(t), rt_div(rt_sum(s), c)),
    decreases s.len(),
{
    if s.len() == 0 {
        assert(rt_eq(rt_zero(), rt_div(rt_zero(), c))) by (nonlinear_arith)
            requires
                c.num >= 1,
                c.den >= 1,
        ;
    } else {
        let sd = s.drop_last();
        let td = t.drop_last();
        assert(rts_wf(sd));
        assert(rts_wf(td));
        lemma_rt_sum_div(sd, td, c);
        lemma_rt_sum_wf(sd);
        lemma_rt_sum_wf(td);
        lemma_rt_div_wf(rt_sum(sd), c);
        lemma_rt_div_wf(s.last(), c);
        lemma_rt_add_congr(rt_sum(td), rt_div(rt_sum(sd), c), t.last(), rt_div(s.last(), c));
        lemma_rt_div_add(rt_sum(sd), s.last(), c);
        lemma_rt_add_wf(rt_sum(td), t.last());
        lemma_rt_add_wf(rt_div(rt_sum(sd), c), rt_div(s.last(), c));
        lemma_rt_add_wf(rt_sum(sd), s.last());
        lemma_rt_div_wf(rt_add(rt_sum(sd), s.last()), c);
        lemma_rt_eq_trans(
            rt_sum(t),
            rt_add(rt_div(rt_sum(sd), c), rt_div(s.last(), c)),
            rt_div(rt_add(rt_sum(sd), s.last()), c),
        );
    }
}

/// Every normalized non-empty slice sums to exactly one.
pub proof fn lemma_normalized_sums_to_one(out: Seq<Rt>, inp: Seq<Rt>)
    requires
        rts_wf(inp),
        normalized_of(out, inp),
        inp.len() >= 1,
    ensures
        rt_eq(rt_sum(out), rt_one()),
{
    if all_zero(inp) {
        lemma_rt_sum_uniform(out, inp.len() as int);
        lemma_rt_sum_wf(out);
        lemma_rt_eq_trans(
            rt_sum(out),
            Rt { num: out.len() as int, den: inp.len() as int },
            rt_one(),
        );
    } else {
        let s = rt_sum(inp);
        lemma_rt_sum_wf(inp);
        lemma_rt_sum_zero_iff(inp);
        assert(s.num >= 1);
        lemma_rt_sum_div(inp, out, s);
        lemma_rt_sum_wf(out);
        lemma_rt_div_wf(s, s);
        assert(rt_eq(rt_div(s, s), rt_one())) by (nonlinear_arith)
            requires
                s.num >= 1,
                s.den >= 1,
        ;
        lemma_rt_eq_trans(rt_sum(out), rt_div(s, s), rt_one());
    }
}

/// A well-formed slice whose rational sum is exactly one.
pub open spec fn is_distribution(s: Seq<Rt>) -> bool {
    rts_wf(s) && rt_eq(rt_sum(s), rt_one())
}

pub proof fn lemma_qs_rts_wf(s: Seq<Q>)
    ensures
        qs_wf(s) <==> rts_wf(qs(s)),
{
    if qs_wf(s) {
        assert forall|i: int| 0 <= i < qs(s).len() implies rt_wf(#[trigger] qs(s)[i]) by {
            assert(s[i].wf());
        }
    }
    if rts_wf(qs(s)) {
        assert forall|i: int| 0 <= i < s.len() implies (#[trigger] s[i]).wf() by {
            assert(rt_wf(qs(s)[i]));
        }
    }
}

/// Errors of the training engine.
#[derive(Clone, Copy, PartialEq, Eq, Structural, Debug)]
pub enum EmError {
    /// An axis index was out of range for the table's rank.
    NormalizationAxis(usize),
    /// An exact rational no longer fit in the `u64` representation.
    Overflow,
}

/// The exact rational sum of a vector's entries, `None` on overflow.
pub fn sum_qs(v: &Vec<Q>) -> (r: Option<Q>)
    requires
        qs_wf(v@),
    ensures
        r matches Some(s) ==> s.wf() && rt_eq(s@, rt_sum(qs(v@))),
        all_zero(qs(v@)) ==> r == Some(Q { num: 0, den: 1 }),
        slice_fits(qs(v@)) ==> (r matches Some(s) && s@.den == 1 && s@.num == rt_num_sum(
            qs(v@),
        )),
{
    let ghost sq = qs(v@);
    proof {
        assert(rts_wf(sq));
    }
    let mut acc: Q = Q::zero();
    let mut i: usize = 0;
    while i < v.len()
        invariant
            qs_wf(v@),
            sq == qs(v@),
            rts_wf(sq),
            i <= v.len(),
            acc.wf(),
            rt_eq(acc@, rt_sum(sq.take(i as int))),
            all_zero(sq) ==> acc == (Q { num: 0, den: 1 }),
            slice_fits(sq) ==> acc@.den == 1 && acc@.num == rt_num_sum(sq.take(i as int)),
        decreases v.len() - i,
    {
        proof {
            if slice_fits(sq) {
                assert(forall|k: int| 0 <= k < sq.len() ==> (#[trigger] sq[k]).num >= 0);
                lemma_rt_num_sum_take_le(sq, i + 1);
                lemma_rt_num_sum_take_step(sq, i as int);
            }
        }
        let next = match q_add(&acc, &v[i]) {
            Some(s) => s,
            None => {
                return None;
            },
        };
        proof {
            lemma_rt_sum_take_step(sq, i as int);
            assert(rts_wf(sq.take(i as int)));
            lemma_rt_sum_wf(sq.take(i as int));
            assert(sq[i as int] == v@[i as int]@);
            lemma_rt_add_congr(acc@, rt_sum(sq.take(i as int)), v@[i as int]@, sq[i as int]);
            lemma_rt_add_wf(acc@, v@[i as int]@);
            lemma_rt_add_wf(rt_sum(sq.take(i as int)), sq[i as int]);
            lemma_rt_eq_trans(
                next@,
                rt_add(acc@, v@[i as int]@),
                rt_add(rt_sum(sq.take(i as int)), sq[i as int]),
            );
        }
        acc = next;
        i += 1;
    }
    proof {
        assert(sq.take(v.len() as int) =~= sq);
    }
    Some(acc)
}

/// Normalize one slice: divide by the slice sum, or substitute the uniform
/// distribution when the slice is identically zero. Never fails on degenerate
/// input; `Err` only reports an exact-arithmetic overflow.
pub fn normalize_vec(v: &Vec<Q>) -> (r: Result<Vec<Q>, EmError>)
    requires
        qs_wf(v@),
    ensures
        r matches Ok(out) ==> qs_wf(out@) && normalized_of(qs(out@), qs(v@)),
        r matches Err(e) ==> e == EmError::Overflow,
        slice_ok(qs(v@)) ==> r is Ok,
{
    let ghost sq = qs(v@);
    proof {
        assert(rts_wf(sq));
    }
    if v.len() == 0 {
        let out: Vec<Q> = Vec::new();
        proof {
            assert(qs(out@) =~= Seq::<Rt>::empty());
        }
        return Ok(out);
    }
    let s = match sum_qs(v) {
        Some(s) => s,
        None => {
            return Err(EmError::Overflow);
        },
    };
    proof {
        lemma_rt_sum_wf(sq);
        lemma_rt_sum_zero_iff(sq);
    }
    if q_is_zero(&s) {
        proof {
            // s == 0 and s equals the slice sum, so the sum's numerator is 0.
            let sm = rt_sum(sq);
            assert(sm.num == 0) by (nonlinear_arith)
                requires
                    s@.num * sm.den == sm.num * s@.den,
                    s@.num == 0,
                    s@.den >= 1,
                    sm.num >= 0,
            ;
            assert(all_zero(sq));
        }
        let den: u64 = v.len() as u64;
        let mut out: Vec<Q> = Vec::new();
        let mut i: usize = 0;
        while i < v.len()
            invariant
                den == v.len() as u64,
                den >= 1,
                i <= v.len(),
                out@.len() == i,
                forall|k: int|
                    0 <= k < i ==> out@[k] == (Q { num: 1, den: den }),
            decreases v.len() - i,
        {
            out.push(Q::new(1, den));
            i += 1;
        }
        proof {
            assert(forall|k: int|
                0 <= k < out@.len() ==> qs(out@)[k] == (Rt { num: 1, den: sq.len() as int }));
        }
        return Ok(out);
    }
    proof {
        // s is non-zero and equals the slice sum, so the sum is positive.
        assert(s@.num >= 1);
        let sm = rt_sum(sq);
        assert(sm.num >= 1) by (nonlinear_arith)
            requires
                s@.num * sm.den == sm.num * s@.den,
                s@.num >= 1,
                s@.den >= 1,
                sm.den >= 1,
                sm.num >= 0,
        ;
    }
    let mut out: Vec<Q> = Vec::new();
    let mut i: usize = 0;
    while i < v.len()
        invariant
            qs_wf(v@),
            sq == qs(v@),
            rts_wf(sq),
            s.wf(),
            s@.num >= 1,
            rt_eq(s@, rt_sum(sq)),
            rt_sum(sq).num >= 1,
            rt_wf(rt_sum(sq)),
            i <= v.len(),
            out@.len() == i,
            qs_wf(out@),
            !all_zero(sq),
            slice_fits(sq) ==> s@.den == 1,
            forall|k: int|
                0 <= k < i ==> rt_eq((#[trigger] out@[k])@, rt_div(sq[k], rt_sum(sq))),
        decreases v.len() - i,
    {
        let q = match q_div(&v[i], &s) {
            Some(q) => q,
            None => {
                proof {
                    if slice_fits(sq) {
                        assert(sq[i as int].den == 1);
                        assert(v@[i as int]@.num * s@.den <= u64::MAX) by (nonlinear_arith)
                            requires
                                s@.den == 1,
                                v@[i as int]@.num <= u64::MAX,
                        ;
                        assert(v@[i as int]@.den * s@.num <= u64::MAX) by (nonlinear_arith)
                            requires
                                v@[i as int]@.den == 1,
                                s@.num <= u64::MAX,
                        ;
                    }
                }
                return Err(EmError::Overflow);
            },
        };
        proof {
            lemma_rt_div_congr_den(v@[i as int]@, s@, rt_sum(sq));
            lemma_rt_div_wf(v@[i as int]@, s@);
            lemma_rt_div_wf(v@[i as int]@, rt_sum(sq));
            lemma_rt_eq_trans(
                q@,
                rt_div(v@[i as int]@, s@),
                rt_div(v@[i as int]@, rt_sum(sq)),
            );
        }
        out.push(q);
        i += 1;
    }
    proof {
        assert(forall|k: int| 0 <= k < out@.len() ==> #[trigger] qs(out@)[k] == out@[k]@);
    }
    Ok(out)
}

/// Division respects rational equality of the (positive) divisor.
proof fn lemma_rt_div_congr_den(a: Rt, c: Rt, c2: Rt)
    requires
        rt_wf(a),
        rt_wf(c),
        rt_wf(c2),
        c.num >= 1,
        c2.num >= 1,
        rt_eq(c, c2),
    ensures
        rt_eq(rt_div(a, c), rt_div(a, c2)),
{
    assert(rt_eq(rt_div(a, c), rt_div(a, c2))) by (nonlinear_arith)
        requires
            c.num * c2.den == c2.num * c.den,
            a.den >= 1,
            a.num >= 0,
    ;
}

/// Normalize a rank-1 distribution over its single axis. The only admissible
/// axis for rank 1 is `0` (or none, meaning the whole array); any other axis
/// is out of range and reported as a `NormalizationAxis` error.
pub fn normalize_distribution_vec(v: &Vec<Q>, axis: Option<usize>) -> (r: Result<
    Vec<Q>,
    EmError,
>)
    requires
        qs_wf(v@),
    ensures
        r matches Ok(out) ==> qs_wf(out@) && normalized_of(qs(out@), qs(v@)) && (axis is None
            || axis == Some(0usize)),
        r matches Err(e) ==> (e matches EmError::NormalizationAxis(k) ==> axis == Some(k) && k
            >= 1) && (e == EmError::Overflow ==> (axis is None || axis == Some(0usize))),
        axis is Some && axis->Some_0 >= 1 ==> r == Err::<Vec<Q>, EmError>(
            EmError::NormalizationAxis(axis->Some_0),
        ),
        (axis is None || axis == Some(0usize)) && slice_ok(qs(v@)) ==> r is Ok,
{
    match axis {
        Some(k) if k >= 1 => Err(EmError::NormalizationAxis(k)),
        _ => normalize_vec(v),
    }
}

/// A rectangular two-level table of rationals: `nslices` slices, each of
/// length `width`. A rank-2 table stores one axis per level; a rank-3 table
/// normalized jointly over a pair of axes stores that pair flattened into
/// the slice level.
pub struct Grid {
    pub slices: Vec<Vec<Q>>,
    pub width: usize,
}

impl Grid {
    pub open spec fn wf(self) -> bool {
        forall|s: int|
            0 <= s < self.slices@.len() ==> (#[trigger] self.slices@[s])@.len() == self.width
                && qs_wf(self.slices@[s]@)
    }

    pub open spec fn nslices(self) -> int {
        self.slices@.len() as int
    }

    pub open spec fn at(self, s: int, k: int) -> Rt {
        self.slices@[s]@[k]@
    }

    pub open spec fn slice_view(self, s: int) -> Seq<Rt> {
        qs(self.slices@[s]@)
    }

    pub open spec fn col_view(self, k: int) -> Seq<Rt> {
        Seq::new(self.slices@.len(), |s: int| self.at(s, k))
    }

    pub open spec fn same_shape(self, other: Grid) -> bool {
        self.width == other.width && self.nslices() == other.nslices()
    }

    pub fn n_slices(&self) -> (r: usize)
        ensures
            r == self.nslices(),
    {
        self.slices.len()
    }

    pub fn get(&self, s: usize, k: usize) -> (r: Q)
        requires
            self.wf(),
            s < self.nslices(),
            k < self.width,
        ensures
            r@ == self.at(s as int, k as int),
            r.wf(),
    {
        self.slices[s][k]
    }

    pub fn set_entry(&mut self, s: usize, k: usize, q: Q)
        requires
            old(self).wf(),
            s < old(self).nslices(),
            k < old(self).width,
            q.wf(),
        ensures
            final(self).wf(),
            final(self).same_shape(*old(self)),
            final(self).at(s as int, k as int) == q@,
            forall|s2: int, k2: int|
                0 <= s2 < final(self).nslices() && 0 <= k2 < final(self).width && !(s2 == s
                    && k2 == k) ==> final(self).at(s2, k2) == old(self).at(s2, k2),
    {
        let row = &mut self.slices[s];
        row[k] = q;
    }

    /// An all-zero table of the given shape.
    pub fn zeros(n_slices: usize, width: usize) -> (r: Grid)
        ensures
            r.wf(),
            r.nslices() == n_slices,
            r.width == width,
            forall|s: int, k: int|
                0 <= s < n_slices && 0 <= k < width ==> r.at(s, k) == rt_zero(),
    {
        let mut slices: Vec<Vec<Q>> = Vec::new();
        let mut s: usize = 0;
        while s < n_slices
            invariant
                s <= n_slices,
                slices@.len() == s,
                forall|s2: int|
                    0 <= s2 < s ==> (#[trigger] slices@[s2])@.len() == width && qs_wf(
                        slices@[s2]@,
                    ) && forall|k: int| 0 <= k < width ==> slices@[s2]@[k]@ == rt_zero(),
            decreases n_slices - s,
        {
            let mut row: Vec<Q> = Vec::new();
            let mut k: usize = 0;
            while k < width
                invariant
                    k <= width,
                    row@.len() == k,
                    forall|k2: int|
                        0 <= k2 < k ==> (#[trigger] row@[k2]).wf() && row@[k2]@ == rt_zero(),
                decreases width - k,
            {
                row.push(Q::zero());
                k += 1;
            }
            slices.push(row);
            s += 1;
        }
        Grid { slices, width }
    }

    /// Normalize every slice independently (the designated axis runs within
    /// a slice: a conditional distribution per slice).
    pub fn normalize_within(&self) -> (r: Result<Grid, EmError>)
        requires
            self.wf(),
        ensures
            r matches Ok(g) ==> g.wf() && g.same_shape(*self) && forall|s: int|
                0 <= s < g.nslices() ==> normalized_of(
                    #[trigger] g.slice_view(s),
                    self.slice_view(s),
                ),
            r matches Err(e) ==> e == EmError::Overflow,
            (forall|s: int| 0 <= s < self.nslices() ==> slice_ok(#[trigger] self.slice_view(s)))
                ==> r is Ok,
    {
        let mut slices: Vec<Vec<Q>> = Vec::new();
        let mut s: usize = 0;
        while s < self.slices.len()
            invariant
                self.wf(),
                s <= self.slices@.len(),
                slices@.len() == s,
                forall|s2: int|
                    0 <= s2 < s ==> qs_wf((#[trigger] slices@[s2])@) && slices@[s2]@.len()
                        == self.width && normalized_of(qs(slices@[s2]@), self.slice_view(s2)),
            decreases self.slices@.len() - s,
        {
            match normalize_vec(&self.slices[s]) {
                Ok(row) => {
                    proof {
                        assert(self.slice_view(s as int).len() == self.width);
                    }
                    slices.push(row);
                },
                Err(e) => {
                    proof {
                        assert(self.slice_view(s as int) == qs(self.slices@[s as int]@));
                    }
                    return Err(EmError::Overflow);
                },
            }
            s += 1;
        }
        Ok(Grid { slices, width: self.width })
    }

    /// The same table with the two levels exchanged.
    pub fn transpose(&self) -> (r: Grid)
        requires
            self.wf(),
        ensures
            r.wf(),
            r.nslices() == self.width,
            r.width == self.nslices(),
            forall|s: int, k: int|
                0 <= s < self.nslices() && 0 <= k < self.width ==> r.at(k, s) == self.at(s, k),
    {
        let n = self.slices.len();
        let mut slices: Vec<Vec<Q>> = Vec::new();
        let mut k: usize = 0;
        while k < self.width
            invariant
                self.wf(),
                n == self.nslices(),
                k <= self.width,
                slices@.len() == k,
                forall|k2: int|
                    0 <= k2 < k ==> (#[trigger] slices@[k2])@.len() == n && qs_wf(slices@[k2]@)
                        && forall|s2: int| 0 <= s2 < n ==> slices@[k2]@[s2]@ == self.at(s2, k2),
            decreases self.width - k,
        {
            let mut row: Vec<Q> = Vec::new();
            let mut s: usize = 0;
            while s < n
                invariant
                    self.wf(),
                    n == self.nslices(),
                    k < self.width,
                    s <= n,
                    row@.len() == s,
                    forall|s2: int|
                        0 <= s2 < s ==> (#[trigger] row@[s2]).wf() && row@[s2]@ == self.at(
                            s2,
                            k as int,
                        ),
                decreases n - s,
            {
                row.push(self.slices[s][k]);
                s += 1;
            }
            slices.push(row);
            k += 1;
        }
        Grid { slices, width: n }
    }

    /// Normalize across the slices (the designated axis runs over the slice
    /// index, for each fixed position within a slice).
    pub fn normalize_across(&self) -> (r: Result<Grid, EmError>)
        requires
            self.wf(),
        ensures
            r matches Ok(g) ==> g.wf() && g.same_shape(*self) && forall|k: int|
                0 <= k < g.width ==> normalized_of(
                    #[trigger] g.col_view(k),
                    self.col_view(k),
                ),
            r matches Err(e) ==> e == EmError::Overflow,
            (forall|k: int| 0 <= k < self.width ==> slice_ok(#[trigger] self.col_view(k))) ==> r
                is Ok,
    {
        let t = self.transpose();
        proof {
            assert forall|k: int| 0 <= k < t.nslices() implies #[trigger] t.slice_view(k)
                == self.col_view(k) by {
                assert(t.slice_view(k) =~= self.col_view(k));
            }
        }
        let nw = match t.normalize_within() {
            Ok(nw) => nw,
            Err(e) => {
                return Err(EmError::Overflow);
            },
        };
        let r = nw.transpose();
        proof {
            assert forall|k: int| 0 <= k < r.width implies normalized_of(
                #[trigger] r.col_view(k),
                self.col_view(k),
            ) by {
                assert(t.slice_view(k) =~= self.col_view(k));
                assert(r.col_view(k) =~= nw.slice_view(k));
            }
        }
        Ok(r)
    }

    /// Normalize along one axis of this rank-2 table: axis `0` runs across
    /// the slices, axis `1` within each slice. Any other axis index is out
    /// of range for the rank and is the only condition reported as a
    /// `NormalizationAxis` error.
    pub fn normalize_distribution(&self, axis: usize) -> (r: Result<Grid, EmError>)
        requires
            self.wf(),
        ensures
            r matches Ok(g) ==> g.wf() && g.same_shape(*self) && axis < 2,
            axis == 0 ==> (r matches Ok(g) ==> forall|k: int|
                0 <= k < g.width ==> normalized_of(
                    #[trigger] g.col_view(k),
                    self.col_view(k),
                )),
            axis == 1 ==> (r matches Ok(g) ==> forall|s: int|
                0 <= s < g.nslices() ==> normalized_of(
                    #[trigger] g.slice_view(s),
                    self.slice_view(s),
                )),
            axis >= 2 <==> r == Err::<Grid, EmError>(EmError::NormalizationAxis(axis)),
            axis == 1 && (forall|s: int|
                0 <= s < self.nslices() ==> slice_ok(#[trigger] self.slice_view(s))) ==> r is Ok,
            axis == 0 && (forall|k: int|
                0 <= k < self.width ==> slice_ok(#[trigger] self.col_view(k))) ==> r is Ok,
            r matches Err(e) ==> e == EmError::Overflow || e == EmError::NormalizationAxis(
                axis,
            ),
    {
        if axis == 0 {
            self.normalize_across()
        } else if axis == 1 {
            self.normalize_within()
        } else {
            Err(EmError::NormalizationAxis(axis))
        }
    }
}

} // verus!
