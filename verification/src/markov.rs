//! First-order Markov model over the four-letter nucleotide alphabet.
//!
//! A nucleotide is a `u8` below four. The model is a first-nucleotide bias
//! vector of length four plus a four-by-four transition `Grid` (slice index
//! is the previous base, position within the slice the next base).

use vstd::prelude::*;

verus! {

use crate::rat::{Q, Rt, rt_wf, rt_zero, rt_one, rt_eq, rt_add, rt_mul, rt_div};
use crate::rat::lemma_rt_div_wf;
use crate::rat::{q_add, q_mul};
use crate::rat::{
    lemma_rt_eq_trans,
    lemma_rt_add_wf,
    lemma_rt_mul_wf,
    lemma_rt_mul_congr,
    lemma_rt_add_congr,
    lemma_rt_add_assoc,
    lemma_rt_mul_succ,
    lemma_rt_add_zero_mul,
};
use crate::dist::{Grid, EmError, qs, qs_wf, rts_wf, rt_sum};

/// Every entry is a valid nucleotide.
pub open spec fn bases_wf(s: Seq<u8>) -> bool {
    forall|i: int| 0 <= i < s.len() ==> #[trigger] s[i] < 4
}

/// A bias vector of length four over well-formed rationals.
pub open spec fn bias_wf(b: Seq<Q>) -> bool {
    b.len() == 4 && qs_wf(b)
}

/// A four-by-four transition table over well-formed rationals.
pub open spec fn trans_wf(t: Grid) -> bool {
    t.wf() && t.nslices() == 4 && t.width == 4
}

/// 1 when the sequence starts with base `b`, 0 otherwise.
pub open spec fn first_count(s: Seq<u8>, b: u8) -> int {
    if s.len() >= 1 && s[0] == b {
        1
    } else {
        0
    }
}

/// How many adjacent positions of `s` read `x` then `y`.
pub open spec fn pair_count(s: Seq<u8>, x: u8, y: u8) -> int
    decreases s.len(),
{
    if s.len() < 2 {
        0
    } else {
        pair_count(s.drop_last(), x, y) + if s[s.len() - 2] == x && s.last() == y {
            1int
        } else {
            0int
        }
    }
}

pub proof fn lemma_pair_count_nonneg(s: Seq<u8>, x: u8, y: u8)
    ensures
        pair_count(s, x, y) >= 0,
    decreases s.len(),
{
    if s.len() >= 2 {
        lemma_pair_count_nonneg(s.drop_last(), x, y);
    }
}

proof fn lemma_pair_count_take_step(s: Seq<u8>, i: int, x: u8, y: u8)
    requires
        1 <= i < s.len(),
    ensures
        pair_count(s.take(i + 1), x, y) == pair_count(s.take(i), x, y) + if s[i - 1] == x && s[i]
            == y {
            1int
        } else {
            0int
        },
{
    assert(s.take(i + 1).drop_last() =~= s.take(i));
}

/// The likelihood of a nucleotide sequence under the chain: bias of the
/// first base times the product of the transition probabilities of every
/// adjacent pair. The empty sequence has likelihood one.
pub open spec fn sp_markov(bias: Seq<Rt>, tr: Grid, s: Seq<u8>) -> Rt
    decreases s.len(),
{
    if s.len() == 0 {
        rt_one()
    } else if s.len() == 1 {
        bias[s[0] as int]
    } else {
        rt_mul(
            sp_markov(bias, tr, s.drop_last()),
            tr.at(s[s.len() - 2] as int, s.last() as int),
        )
    }
}

pub proof fn lemma_sp_markov_wf(bias: Seq<Rt>, tr: Grid, s: Seq<u8>)
    requires
        bias.len() == 4,
        rts_wf(bias),
        trans_wf(tr),
        bases_wf(s),
    ensures
        rt_wf(sp_markov(bias, tr, s)),
    decreases s.len(),
{
    if s.len() == 0 {
    } else if s.len() == 1 {
    } else {
        assert(bases_wf(s.drop_last()));
        lemma_sp_markov_wf(bias, tr, s.drop_last());
        lemma_rt_mul_wf(
            sp_markov(bias, tr, s.drop_last()),
            tr.at(s[s.len() - 2] as int, s.last() as int),
        );
    }
}

/// The likelihood of the empty sequence is exactly one, whatever the model.
pub proof fn lemma_markov_empty(bias: Seq<Rt>, tr: Grid)
    ensures
        sp_markov(bias, tr, Seq::<u8>::empty()) == rt_one(),
{
}

/// The likelihood of a one-base sequence is exactly the bias entry.
pub proof fn lemma_markov_single(bias: Seq<Rt>, tr: Grid, b: u8)
    ensures
        sp_markov(bias, tr, seq![b]) == bias[b as int],
{
}

/// The likelihood of a two-base sequence is exactly bias times transition.
pub proof fn lemma_markov_two(bias: Seq<Rt>, tr: Grid, b0: u8, b1: u8)
    ensures
        sp_markov(bias, tr, seq![b0, b1]) == rt_mul(bias[b0 as int], tr.at(b0 as int, b1 as int)),
{
    let s = seq![b0, b1];
    assert(s.drop_last() =~= seq![b0]);
    assert(s[s.len() - 2] == b0 && s.last() == b1);
    assert(sp_markov(bias, tr, s.drop_last()) == bias[b0 as int]);
}

proof fn lemma_sp_markov_take_step(bias: Seq<Rt>, tr: Grid, s: Seq<u8>, i: int)
    requires
        1 <= i < s.len(),
    ensures
        sp_markov(bias, tr, s.take(i + 1)) == rt_mul(
            sp_markov(bias, tr, s.take(i)),
            tr.at(s[i - 1] as int, s[i] as int),
        ),
{
    assert(s.take(i + 1).drop_last() =~= s.take(i));
}

/// Exact sequence-composition likelihood under the chain; `None` only on
/// arithmetic overflow of the exact representation.
pub fn likelihood_markov(bias: &Vec<Q>, tr: &Grid, s: &Vec<u8>) -> (r: Option<Q>)
    requires
        bias_wf(bias@),
        trans_wf(*tr),
        bases_wf(s@),
    ensures
        r matches Some(q) ==> q.wf() && rt_eq(q@, sp_markov(qs(bias@), *tr, s@)),
        s@.len() == 0 ==> r == Some(Q { num: 1, den: 1 }),
        s@.len() == 1 ==> r == Some(bias@[s@[0] as int]),
        s@.len() <= 1 ==> r is Some,
{
    let ghost bv = qs(bias@);
    if s.len() == 0 {
        return Some(Q::one());
    }
    let b0 = s[0];
    let mut acc: Q = bias[b0 as usize];
    proof {
        assert(s@.take(1) =~= seq![b0]);
        lemma_markov_single(bv, *tr, b0);
        assert(bv[b0 as int] == bias@[b0 as int]@);
    }
    let mut i: usize = 1;
    while i < s.len()
        invariant
            bias_wf(bias@),
            trans_wf(*tr),
            bases_wf(s@),
            bv == qs(bias@),
            1 <= i <= s@.len(),
            acc.wf(),
            rt_eq(acc@, sp_markov(bv, *tr, s@.take(i as int))),
            s@.len() == 1 ==> acc == bias@[s@[0] as int],
        decreases s@.len() - i,
    {
        let prev = s[i - 1];
        let next = s[i];
        let t = tr.get(prev as usize, next as usize);
        let stepped = match q_mul(&acc, &t) {
            Some(q) => q,
            None => {
                return None;
            },
        };
        proof {
            lemma_sp_markov_take_step(bv, *tr, s@, i as int);
            assert(bases_wf(s@.take(i as int)));
            lemma_sp_markov_wf(bv, *tr, s@.take(i as int));
            lemma_rt_mul_congr(acc@, sp_markov(bv, *tr, s@.take(i as int)), t@, t@);
            lemma_rt_mul_wf(acc@, t@);
            lemma_rt_mul_wf(sp_markov(bv, *tr, s@.take(i as int)), t@);
            lemma_rt_eq_trans(
                stepped@,
                rt_mul(acc@, t@),
                rt_mul(sp_markov(bv, *tr, s@.take(i as int)), t@),
            );
        }
        acc = stepped;
        i += 1;
    }
    proof {
        assert(s@.take(s@.len() as int) =~= s@);
    }
    Some(acc)
}

/// One accumulation step: from `cur`, rationally equal to `base` plus `c`
/// copies of `w`, adding one more `w` reaches `base` plus `c + 1` copies.
proof fn lemma_acc_step(base: Rt, w: Rt, c: int, cur: Rt, next: Rt)
    requires
        rt_wf(base),
        rt_wf(w),
        rt_wf(cur),
        rt_wf(next),
        c >= 0,
        rt_eq(cur, rt_add(base, rt_mul(w, Rt { num: c, den: 1 }))),
        rt_eq(next, rt_add(cur, w)),
    ensures
        rt_eq(next, rt_add(base, rt_mul(w, Rt { num: c + 1, den: 1 }))),
{
    let wc = rt_mul(w, Rt { num: c, den: 1 });
    lemma_rt_mul_wf(w, Rt { num: c, den: 1 });
    lemma_rt_add_wf(base, wc);
    // next == cur + w == (base + w*c) + w == base + (w*c + w) == base + w*(c+1)
    lemma_rt_add_congr(cur, rt_add(base, wc), w, w);
    lemma_rt_add_wf(cur, w);
    lemma_rt_add_wf(rt_add(base, wc), w);
    lemma_rt_eq_trans(next, rt_add(cur, w), rt_add(rt_add(base, wc), w));
    lemma_rt_add_assoc(base, wc, w);
    lemma_rt_add_wf(wc, w);
    lemma_rt_add_wf(base, rt_add(wc, w));
    lemma_rt_eq_trans(next, rt_add(rt_add(base, wc), w), rt_add(base, rt_add(wc, w)));
    lemma_rt_mul_succ(w, c);
    lemma_rt_mul_wf(w, Rt { num: c + 1, den: 1 });
    lemma_rt_add_congr(base, base, rt_add(wc, w), rt_mul(w, Rt { num: c + 1, den: 1 }));
    lemma_rt_add_wf(base, rt_mul(w, Rt { num: c + 1, den: 1 }));
    lemma_rt_eq_trans(
        next,
        rt_add(base, rt_add(wc, w)),
        rt_add(base, rt_mul(w, Rt { num: c + 1, den: 1 })),
    );
}

/// Add `w` to the bias accumulator of the first base and to the transition
/// accumulator of every adjacent pair of `s`; a no-op on an empty sequence.
/// On overflow the accumulators keep well-formed shapes but the round is
/// abandoned by the caller.
pub fn update_markov_probas(bias: &mut Vec<Q>, tr: &mut Grid, s: &Vec<u8>, w: &Q) -> (r: Result<
    (),
    EmError,
>)
    requires
        bias_wf(old(bias)@),
        trans_wf(*old(tr)),
        bases_wf(s@),
        w.wf(),
    ensures
        bias_wf(final(bias)@),
        trans_wf(*final(tr)),
        r matches Err(e) ==> e == EmError::Overflow,
        s@.len() == 0 ==> r is Ok && *final(bias) == *old(bias) && *final(tr) == *old(tr),
        r is Ok ==> forall|b: u8|
            b < 4 ==> rt_eq(
                (#[trigger] final(bias)@[b as int])@,
                rt_add(old(bias)@[b as int]@, rt_mul(w@, Rt { num: first_count(s@, b), den: 1 })),
            ),
        r is Ok ==> forall|x: u8, y: u8|
            x < 4 && y < 4 ==> rt_eq(
                #[trigger] final(tr).at(x as int, y as int),
                rt_add(
                    old(tr).at(x as int, y as int),
                    rt_mul(w@, Rt { num: pair_count(s@, x, y), den: 1 }),
                ),
            ),
{
    if s.len() == 0 {
        proof {
            assert forall|b: u8| b < 4 implies rt_eq(
                (#[trigger] bias@[b as int])@,
                rt_add(bias@[b as int]@, rt_mul(w@, Rt { num: first_count(s@, b), den: 1 })),
            ) by {
                lemma_rt_add_zero_mul(bias@[b as int]@, w@);
            }
            assert forall|x: u8, y: u8| x < 4 && y < 4 implies rt_eq(
                #[trigger] tr.at(x as int, y as int),
                rt_add(
                    tr.at(x as int, y as int),
                    rt_mul(w@, Rt { num: pair_count(s@, x, y), den: 1 }),
                ),
            ) by {
                lemma_rt_add_zero_mul(tr.at(x as int, y as int), w@);
            }
        }
        return Ok(());
    }
    let b0 = s[0];
    let cur = bias[b0 as usize];
    let nv = match q_add(&cur, w) {
        Some(q) => q,
        None => {
            return Err(EmError::Overflow);
        },
    };
    bias[b0 as usize] = nv;
    proof {
        assert forall|b: u8| b < 4 implies rt_eq(
            (#[trigger] bias@[b as int])@,
            rt_add(old(bias)@[b as int]@, rt_mul(w@, Rt { num: first_count(s@, b), den: 1 })),
        ) by {
            if b == b0 {
                assert(first_count(s@, b) == 1);
                assert(rt_mul(w@, Rt { num: 1, den: 1 }) == Rt {
                    num: w@.num * 1,
                    den: w@.den * 1,
                });
                lemma_rt_add_congr(nv@, nv@, w@, rt_mul(w@, Rt { num: 1, den: 1 }));
                lemma_rt_add_congr(
                    cur@,
                    cur@,
                    w@,
                    rt_mul(w@, Rt { num: 1, den: 1 }),
                );
            } else {
                lemma_rt_add_zero_mul(old(bias)@[b as int]@, w@);
            }
        }
    }
    let ghost tr0 = *tr;
    proof {
        assert forall|x: u8, y: u8| x < 4 && y < 4 implies rt_eq(
            #[trigger] tr.at(x as int, y as int),
            rt_add(
                tr0.at(x as int, y as int),
                rt_mul(w@, Rt { num: pair_count(s@.take(1), x, y), den: 1 }),
            ),
        ) by {
            assert(s@.take(1).len() < 2);
            lemma_rt_add_zero_mul(tr0.at(x as int, y as int), w@);
        }
    }
    let mut i: usize = 1;
    while i < s.len()
        invariant
            trans_wf(*tr),
            trans_wf(tr0),
            bases_wf(s@),
            w.wf(),
            1 <= i <= s@.len(),
            tr.same_shape(tr0),
            bias_wf(bias@),
            forall|b: u8|
                b < 4 ==> rt_eq(
                    (#[trigger] bias@[b as int])@,
                    rt_add(
                        old(bias)@[b as int]@,
                        rt_mul(w@, Rt { num: first_count(s@, b), den: 1 }),
                    ),
                ),
            forall|x: u8, y: u8|
                x < 4 && y < 4 ==> rt_eq(
                    #[trigger] tr.at(x as int, y as int),
                    rt_add(
                        tr0.at(x as int, y as int),
                        rt_mul(w@, Rt { num: pair_count(s@.take(i as int), x, y), den: 1 }),
                    ),
                ),
        decreases s@.len() - i,
    {
        let prev = s[i - 1];
        let next = s[i];
        let cur_t = tr.get(prev as usize, next as usize);
        let nt = match q_add(&cur_t, w) {
            Some(q) => q,
            None => {
                return Err(EmError::Overflow);
            },
        };
        let ghost tr_before = *tr;
        tr.set_entry(prev as usize, next as usize, nt);
        proof {
            assert forall|x: u8, y: u8| x < 4 && y < 4 implies rt_eq(
                #[trigger] tr.at(x as int, y as int),
                rt_add(
                    tr0.at(x as int, y as int),
                    rt_mul(w@, Rt { num: pair_count(s@.take(i + 1), x, y), den: 1 }),
                ),
            ) by {
                lemma_pair_count_take_step(s@, i as int, x, y);
                lemma_pair_count_nonneg(s@.take(i as int), x, y);
                if x == prev && y == next {
                    lemma_acc_step(
                        tr0.at(x as int, y as int),
                        w@,
                        pair_count(s@.take(i as int), x, y),
                        cur_t@,
                        nt@,
                    );
                }
            }
        }
        i += 1;
    }
    proof {
        assert(s@.take(s@.len() as int) =~= s@);
    }
    Ok(())
}

/// The integer sum of a sequence of counts.
pub open spec fn count_sum(c: Seq<int>) -> int
    decreases c.len(),
{
    if c.len() == 0 {
        0
    } else {
        count_sum(c.drop_last()) + c.last()
    }
}

proof fn lemma_count_sum_ge_elem(c: Seq<int>, i: int)
    requires
        forall|k: int| 0 <= k < c.len() ==> c[k] >= 0,
        0 <= i < c.len(),
    ensures
        count_sum(c) >= c[i],
        count_sum(c) >= 0,
    decreases c.len(),
{
    if c.len() == 1 {
    } else {
        assert(forall|k: int| 0 <= k < c.drop_last().len() ==> c.drop_last()[k] >= 0);
        if i < c.len() - 1 {
            lemma_count_sum_ge_elem(c.drop_last(), i);
        } else {
            lemma_count_sum_ge_elem(c.drop_last(), 0);
        }
    }
}

/// `w*a + w*b` is `w*(a+b)`.
proof fn lemma_w_times_count(w: Rt, a: int, b: int)
    requires
        rt_wf(w),
    ensures
        rt_eq(
            rt_add(rt_mul(w, Rt { num: a, den: 1 }), rt_mul(w, Rt { num: b, den: 1 })),
            rt_mul(w, Rt { num: a + b, den: 1 }),
        ),
{
    let l = rt_add(rt_mul(w, Rt { num: a, den: 1 }), rt_mul(w, Rt { num: b, den: 1 }));
    let r = rt_mul(w, Rt { num: a + b, den: 1 });
    assert(l.num * r.den == r.num * l.den) by (nonlinear_arith)
        requires
            l.num == (w.num * a) * (w.den * 1) + (w.num * b) * (w.den * 1),
            l.den == (w.den * 1) * (w.den * 1),
            r.num == w.num * (a + b),
            r.den == w.den * 1,
    ;
}

/// The sum of an accumulator holding `w` times per-entry counts is `w`
/// times the total count.
proof fn lemma_sum_of_weighted(acc: Seq<Rt>, counts: Seq<int>, w: Rt)
    requires
        acc.len() == counts.len(),
        rts_wf(acc),
        rt_wf(w),
        forall|i: int| 0 <= i < counts.len() ==> counts[i] >= 0,
        forall|i: int|
            0 <= i < acc.len() ==> rt_eq(#[trigger] acc[i], rt_mul(w, Rt { num: counts[i], den: 1 })),
    ensures
        rt_eq(rt_sum(acc), rt_mul(w, Rt { num: count_sum(counts), den: 1 })),
    decreases acc.len(),
{
    if acc.len() == 0 {
        assert(rt_eq(rt_zero(), rt_mul(w, Rt { num: 0, den: 1 }))) by (nonlinear_arith)
            requires
                w.den >= 1,
        ;
    } else {
        let ad = acc.drop_last();
        let cd = counts.drop_last();
        let cl = counts.last();
        let tdl = count_sum(cd);
        assert(rts_wf(ad));
        assert(forall|i: int| 0 <= i < cd.len() ==> cd[i] >= 0);
        assert(forall|i: int|
            0 <= i < ad.len() ==> rt_eq(#[trigger] ad[i], rt_mul(w, Rt { num: cd[i], den: 1 })));
        lemma_sum_of_weighted(ad, cd, w);
        lemma_count_sum_ge_elem(counts, counts.len() - 1);
        if cd.len() >= 1 {
            lemma_count_sum_ge_elem(cd, 0);
        }
        lemma_rt_sum_wf_local(ad);
        lemma_rt_mul_wf(w, Rt { num: tdl, den: 1 });
        lemma_rt_mul_wf(w, Rt { num: cl, den: 1 });
        lemma_rt_add_congr(
            rt_sum(ad),
            rt_mul(w, Rt { num: tdl, den: 1 }),
            acc.last(),
            rt_mul(w, Rt { num: cl, den: 1 }),
        );
        lemma_w_times_count(w, tdl, cl);
        lemma_rt_add_wf(rt_sum(ad), acc.last());
        lemma_rt_add_wf(rt_mul(w, Rt { num: tdl, den: 1 }), rt_mul(w, Rt { num: cl, den: 1 }));
        lemma_rt_mul_wf(w, Rt { num: tdl + cl, den: 1 });
        lemma_rt_eq_trans(
            rt_sum(acc),
            rt_add(rt_mul(w, Rt { num: tdl, den: 1 }), rt_mul(w, Rt { num: cl, den: 1 })),
            rt_mul(w, Rt { num: tdl + cl, den: 1 }),
        );
    }
}

proof fn lemma_rt_sum_wf_local(s: Seq<Rt>)
    requires
        rts_wf(s),
    ensures
        rt_wf(crate::dist::rt_sum(s)),
{
    crate::dist::lemma_rt_sum_wf(s);
}

/// Single-sequence training round trip: an accumulator that holds exactly
/// `w` times the raw per-entry counts of one sequence (as
/// `update_markov_probas` leaves a zero-initialized accumulator), once
/// normalized, reproduces the raw counts' proportions — the weight cancels.
pub proof fn lemma_accumulate_normalize_round_trip(
    acc: Seq<Rt>,
    counts: Seq<int>,
    w: Rt,
    out: Seq<Rt>,
)
    requires
        acc.len() == counts.len(),
        rts_wf(acc),
        rt_wf(w),
        w.num >= 1,
        forall|i: int| 0 <= i < counts.len() ==> counts[i] >= 0,
        forall|i: int|
            0 <= i < acc.len() ==> rt_eq(#[trigger] acc[i], rt_mul(w, Rt { num: counts[i], den: 1 })),
        crate::dist::normalized_of(out, acc),
        exists|i: int| 0 <= i < counts.len() && counts[i] > 0,
    ensures
        forall|i: int|
            0 <= i < out.len() ==> rt_eq(
                #[trigger] out[i],
                Rt { num: counts[i], den: count_sum(counts) },
            ),
{
    let wit = choose|i: int| 0 <= i < counts.len() && counts[i] > 0;
    // the accumulator is not identically zero
    assert(acc[wit].num != 0) by {
        assert(rt_eq(acc[wit], rt_mul(w, Rt { num: counts[wit], den: 1 })));
        assert(acc[wit].num * (w.den * 1) == (w.num * counts[wit]) * acc[wit].den);
        assert(acc[wit].num >= 1) by (nonlinear_arith)
            requires
                acc[wit].num * (w.den * 1) == (w.num * counts[wit]) * acc[wit].den,
                w.num >= 1,
                counts[wit] >= 1,
                acc[wit].den >= 1,
                w.den >= 1,
                acc[wit].num >= 0,
        ;
    }
    assert(!crate::dist::all_zero(acc));
    let s = crate::dist::rt_sum(acc);
    lemma_sum_of_weighted(acc, counts, w);
    crate::dist::lemma_rt_sum_wf(acc);
    let t = count_sum(counts);
    lemma_count_sum_ge_elem(counts, wit);
    let wt = rt_mul(w, Rt { num: t, den: 1 });
    lemma_rt_mul_wf(w, Rt { num: t, den: 1 });
    assert(wt.num >= 1) by (nonlinear_arith)
        requires
            wt.num == w.num * t,
            w.num >= 1,
            t >= 1,
    ;
    assert(s.num >= 1) by (nonlinear_arith)
        requires
            s.num * wt.den == wt.num * s.den,
            wt.num >= 1,
            wt.den >= 1,
            s.den >= 1,
            s.num >= 0,
    ;
    assert forall|i: int| 0 <= i < out.len() implies rt_eq(
        #[trigger] out[i],
        Rt { num: counts[i], den: t },
    ) by {
        let wc = rt_mul(w, Rt { num: counts[i], den: 1 });
        lemma_rt_mul_wf(w, Rt { num: counts[i], den: 1 });
        // out[i] ~ acc[i]/s ~ (w*c)/(w*t) ~ c/t
        crate::rat::lemma_rt_div_congr(acc[i], wc, s, wt);
        let dv = rt_div(wc, wt);
        assert(rt_eq(dv, Rt { num: counts[i], den: t })) by (nonlinear_arith)
            requires
                dv.num == (w.num * counts[i]) * (w.den * 1),
                dv.den == (w.den * 1) * (w.num * t),
        ;
        lemma_rt_div_wf(acc[i], s);
        lemma_rt_div_wf(wc, wt);
        lemma_rt_eq_trans(out[i], rt_div(acc[i], s), dv);
        assert(rt_wf(Rt { num: counts[i], den: t }));
        lemma_rt_eq_trans(out[i], dv, Rt { num: counts[i], den: t });
    }
}

} // verus!
