//! The feature table and the expectation-maximization engine.
//!
//! A `FeaturesVDJ` is the full set of probability tables defining the
//! likelihood of one recombination scenario. `MarginalsVDJ` owns the current
//! normalized table (`marginals`, read-only during a maximization pass) and
//! the unnormalized accumulator (`dirty_marginals`), and runs the round-based
//! EM loop over a corpus of aligned sequences.

use vstd::prelude::*;

verus! {

use crate::rat::{Q, Rt, rt_wf, rt_zero, rt_one, rt_eq, rt_add, rt_mul, rt_lt, rt_le};
use crate::rat::{q_add, q_mul, q_lt};
use crate::rat::{lemma_rt_add_zero_mul, lemma_rt_le_trans, lemma_rt_mul_wf, lemma_rt_mul_congr,
    lemma_rt_lt_congr, lemma_rt_eq_trans};
use crate::dist::{Grid, EmError, qs, qs_wf, normalize_vec, normalized_of, is_distribution,
    lemma_normalized_sums_to_one, lemma_qs_rts_wf, slice_ok, all_zero, slice_fits,
    lemma_rt_num_sum_ones};
use crate::markov::{bases_wf, bias_wf, trans_wf, first_count, pair_count, sp_markov,
    likelihood_markov, update_markov_probas};
use crate::sequence::SequenceVDJ;

/// Parameters of one inference run: the pruning threshold (0 disables
/// pruning) and the number of EM rounds (0 is a legal no-op).
pub struct InferenceParams {
    pub min_likelihood: Q,
    pub nb_rounds_em: usize,
}

/// 1 when the condition holds, 0 otherwise.
pub open spec fn ind(b: bool) -> int {
    if b {
        1
    } else {
        0
    }
}

/// One full probability model of a VDJ recombination scenario.
///
/// Layout of the grids: `dj.slices[d][j]`; `delv.slices[v][delv]`;
/// `delj.slices[j][delj]`; `deld.slices[d][deld3 * n_deld5 + deld5]`;
/// `markov_coefficients_*.slices[prev][next]`.
pub struct FeaturesVDJ {
    pub v: Vec<Q>,
    pub dj: Grid,
    pub delv: Grid,
    pub delj: Grid,
    pub deld: Grid,
    pub n_deld3: usize,
    pub n_deld5: usize,
    pub insvd: Vec<Q>,
    pub insdj: Vec<Q>,
    pub first_nt_bias_vd: Vec<Q>,
    pub markov_coefficients_vd: Grid,
    pub first_nt_bias_dj: Vec<Q>,
    pub markov_coefficients_dj: Grid,
}

impl FeaturesVDJ {
    pub open spec fn wf(self) -> bool {
        &&& qs_wf(self.v@)
        &&& self.dj.wf()
        &&& self.delv.wf()
        &&& self.delj.wf()
        &&& self.deld.wf()
        &&& qs_wf(self.insvd@)
        &&& qs_wf(self.insdj@)
        &&& bias_wf(self.first_nt_bias_vd@)
        &&& trans_wf(self.markov_coefficients_vd)
        &&& bias_wf(self.first_nt_bias_dj@)
        &&& trans_wf(self.markov_coefficients_dj)
        &&& self.deld.width == self.n_deld3 * self.n_deld5
        &&& self.delv.nslices() == self.v@.len()
        &&& self.delj.nslices() == self.dj.width
        &&& self.deld.nslices() == self.dj.nslices()
    }

    pub open spec fn same_shape(self, other: FeaturesVDJ) -> bool {
        &&& self.v@.len() == other.v@.len()
        &&& self.dj.same_shape(other.dj)
        &&& self.delv.same_shape(other.delv)
        &&& self.delj.same_shape(other.delj)
        &&& self.deld.same_shape(other.deld)
        &&& self.n_deld3 == other.n_deld3
        &&& self.n_deld5 == other.n_deld5
        &&& self.insvd@.len() == other.insvd@.len()
        &&& self.insdj@.len() == other.insdj@.len()
    }

    /// Every table entry is the rational zero.
    pub open spec fn all_zero(self) -> bool {
        &&& forall|k: int| 0 <= k < self.v@.len() ==> (#[trigger] self.v@[k])@ == rt_zero()
        &&& forall|s: int, k: int|
            0 <= s < self.dj.nslices() && 0 <= k < self.dj.width ==> self.dj.at(s, k) == rt_zero()
        &&& forall|s: int, k: int|
            0 <= s < self.delv.nslices() && 0 <= k < self.delv.width ==> self.delv.at(s, k)
                == rt_zero()
        &&& forall|s: int, k: int|
            0 <= s < self.delj.nslices() && 0 <= k < self.delj.width ==> self.delj.at(s, k)
                == rt_zero()
        &&& forall|s: int, k: int|
            0 <= s < self.deld.nslices() && 0 <= k < self.deld.width ==> self.deld.at(s, k)
                == rt_zero()
        &&& forall|k: int| 0 <= k < self.insvd@.len() ==> (#[trigger] self.insvd@[k])@ == rt_zero()
        &&& forall|k: int| 0 <= k < self.insdj@.len() ==> (#[trigger] self.insdj@[k])@ == rt_zero()
        &&& forall|k: int|
            0 <= k < 4 ==> (#[trigger] self.first_nt_bias_vd@[k])@ == rt_zero()
        &&& forall|s: int, k: int|
            0 <= s < 4 && 0 <= k < 4 ==> self.markov_coefficients_vd.at(s, k) == rt_zero()
        &&& forall|k: int|
            0 <= k < 4 ==> (#[trigger] self.first_nt_bias_dj@[k])@ == rt_zero()
        &&& forall|s: int, k: int|
            0 <= s < 4 && 0 <= k < 4 ==> self.markov_coefficients_dj.at(s, k) == rt_zero()
    }

    /// Every designated slice is non-empty, so every normalized table is a
    /// family of genuine distributions.
    pub open spec fn positive_dims(self) -> bool {
        &&& self.v@.len() >= 1
        &&& self.dj.nslices() >= 1
        &&& self.dj.width >= 1
        &&& self.delv.width >= 1
        &&& self.delj.width >= 1
        &&& self.deld.width >= 1
        &&& self.insvd@.len() >= 1
        &&& self.insdj@.len() >= 1
    }

    /// An all-zero table of the same shape as `model`.
    pub fn zeros_like(model: &FeaturesVDJ) -> (r: FeaturesVDJ)
        requires
            model.wf(),
        ensures
            r.wf(),
            r.same_shape(*model),
            r.all_zero(),
    {
        let mut v: Vec<Q> = Vec::new();
        let mut k: usize = 0;
        while k < model.v.len()
            invariant
                k <= model.v@.len(),
                v@.len() == k,
                forall|k2: int| 0 <= k2 < k ==> (#[trigger] v@[k2]) == (Q { num: 0, den: 1 }),
            decreases model.v@.len() - k,
        {
            v.push(Q::zero());
            k += 1;
        }
        let mut insvd: Vec<Q> = Vec::new();
        let mut k2: usize = 0;
        while k2 < model.insvd.len()
            invariant
                k2 <= model.insvd@.len(),
                insvd@.len() == k2,
                forall|i: int| 0 <= i < k2 ==> (#[trigger] insvd@[i]) == (Q { num: 0, den: 1 }),
            decreases model.insvd@.len() - k2,
        {
            insvd.push(Q::zero());
            k2 += 1;
        }
        let mut insdj: Vec<Q> = Vec::new();
        let mut k3: usize = 0;
        while k3 < model.insdj.len()
            invariant
                k3 <= model.insdj@.len(),
                insdj@.len() == k3,
                forall|i: int| 0 <= i < k3 ==> (#[trigger] insdj@[i]) == (Q { num: 0, den: 1 }),
            decreases model.insdj@.len() - k3,
        {
            insdj.push(Q::zero());
            k3 += 1;
        }
        let mut bias_vd: Vec<Q> = Vec::new();
        let mut k4: usize = 0;
        while k4 < 4
            invariant
                k4 <= 4,
                bias_vd@.len() == k4,
                forall|i: int| 0 <= i < k4 ==> (#[trigger] bias_vd@[i]) == (Q { num: 0, den: 1 }),
            decreases 4 - k4,
        {
            bias_vd.push(Q::zero());
            k4 += 1;
        }
        let mut bias_dj: Vec<Q> = Vec::new();
        let mut k5: usize = 0;
        while k5 < 4
            invariant
                k5 <= 4,
                bias_dj@.len() == k5,
                forall|i: int| 0 <= i < k5 ==> (#[trigger] bias_dj@[i]) == (Q { num: 0, den: 1 }),
            decreases 4 - k5,
        {
            bias_dj.push(Q::zero());
            k5 += 1;
        }
        FeaturesVDJ {
            v,
            dj: Grid::zeros(model.dj.n_slices(), model.dj.width),
            delv: Grid::zeros(model.delv.n_slices(), model.delv.width),
            delj: Grid::zeros(model.delj.n_slices(), model.delj.width),
            deld: Grid::zeros(model.deld.n_slices(), model.deld.width),
            n_deld3: model.n_deld3,
            n_deld5: model.n_deld5,
            insvd,
            insdj,
            first_nt_bias_vd: bias_vd,
            markov_coefficients_vd: Grid::zeros(4, 4),
            first_nt_bias_dj: bias_dj,
            markov_coefficients_dj: Grid::zeros(4, 4),
        }
    }

    /// Apply the distribution normalizer to each of the eleven sub-tables
    /// with its designated axes; the input is left untouched. `dj` is
    /// normalized sequentially over both its axes (across the D index, then
    /// within each D slice); `deld` jointly over its flattened deletion pair
    /// per D gene; every other table over its single designated axis.
    pub fn normalize(&self) -> (r: Result<FeaturesVDJ, EmError>)
        requires
            self.wf(),
        ensures
            r matches Ok(out) ==> out.wf() && out.same_shape(*self) && features_normalized_of(
                out,
                *self,
            ),
            r matches Err(e) ==> e == EmError::Overflow,
            features_normalizable(*self) ==> r is Ok,
    {
        let v = match normalize_vec(&self.v) {
            Ok(x) => x,
            Err(_) => {
                return Err(EmError::Overflow);
            },
        };
        proof {
            if features_normalizable(*self) {
                assert forall|k: int| 0 <= k < self.dj.width implies slice_ok(
                    #[trigger] self.dj.col_view(k),
                ) by {
                    if self.dj.nslices() == 0 {
                        assert(all_zero(self.dj.col_view(k)));
                    } else {
                        assert forall|s2: int|
                            0 <= s2 < self.dj.col_view(k).len() implies (
                        #[trigger] self.dj.col_view(k)[s2]).num == 0 by {
                            assert(self.dj.col_view(k)[s2] == self.dj.at(s2, k));
                        }
                        assert(all_zero(self.dj.col_view(k)));
                    }
                }
            }
        }
        let mid = match self.dj.normalize_across() {
            Ok(x) => x,
            Err(_) => {
                return Err(EmError::Overflow);
            },
        };
        proof {
            if features_normalizable(*self) {
                assert forall|s2: int| 0 <= s2 < mid.nslices() implies slice_ok(
                    #[trigger] mid.slice_view(s2),
                ) by {
                    assert(mid.slice_view(s2).len() == mid.width);
                    if self.dj.width == 0 {
                        assert(all_zero(mid.slice_view(s2)));
                    } else {
                        assert forall|k: int|
                            0 <= k < mid.slice_view(s2).len() implies #[trigger] mid.slice_view(
                            s2,
                        )[k] == (Rt { num: 1, den: 1 }) by {
                            assert forall|s3: int|
                                0 <= s3 < self.dj.col_view(k).len() implies (
                            #[trigger] self.dj.col_view(k)[s3]).num == 0 by {
                                assert(self.dj.col_view(k)[s3] == self.dj.at(s3, k));
                            }
                            assert(all_zero(self.dj.col_view(k)));
                            assert(normalized_of(mid.col_view(k), self.dj.col_view(k)));
                            assert(mid.col_view(k)[s2] == (Rt {
                                num: 1,
                                den: self.dj.col_view(k).len() as int,
                            }));
                            assert(mid.col_view(k)[s2] == mid.at(s2, k));
                            assert(mid.slice_view(s2)[k] == mid.at(s2, k));
                        }
                        lemma_rt_num_sum_ones(mid.slice_view(s2));
                        assert(slice_fits(mid.slice_view(s2)));
                    }
                }
            }
        }
        let dj = match mid.normalize_within() {
            Ok(x) => x,
            Err(_) => {
                return Err(EmError::Overflow);
            },
        };
        let delv = match self.delv.normalize_within() {
            Ok(x) => x,
            Err(_) => {
                return Err(EmError::Overflow);
            },
        };
        let delj = match self.delj.normalize_within() {
            Ok(x) => x,
            Err(_) => {
                return Err(EmError::Overflow);
            },
        };
        let deld = match self.deld.normalize_within() {
            Ok(x) => x,
            Err(_) => {
                return Err(EmError::Overflow);
            },
        };
        let insvd = match normalize_vec(&self.insvd) {
            Ok(x) => x,
            Err(_) => {
                return Err(EmError::Overflow);
            },
        };
        let insdj = match normalize_vec(&self.insdj) {
            Ok(x) => x,
            Err(_) => {
                return Err(EmError::Overflow);
            },
        };
        let bias_vd = match normalize_vec(&self.first_nt_bias_vd) {
            Ok(x) => x,
            Err(_) => {
                return Err(EmError::Overflow);
            },
        };
        let bias_dj = match normalize_vec(&self.first_nt_bias_dj) {
            Ok(x) => x,
            Err(_) => {
                return Err(EmError::Overflow);
            },
        };
        let markov_vd = match self.markov_coefficients_vd.normalize_within() {
            Ok(x) => x,
            Err(_) => {
                return Err(EmError::Overflow);
            },
        };
        let markov_dj = match self.markov_coefficients_dj.normalize_within() {
            Ok(x) => x,
            Err(_) => {
                return Err(EmError::Overflow);
            },
        };
        let out = FeaturesVDJ {
            v,
            dj,
            delv,
            delj,
            deld,
            n_deld3: self.n_deld3,
            n_deld5: self.n_deld5,
            insvd,
            insdj,
            first_nt_bias_vd: bias_vd,
            markov_coefficients_vd: markov_vd,
            first_nt_bias_dj: bias_dj,
            markov_coefficients_dj: markov_dj,
        };
        proof {
            assert forall|s: int|
                0 <= s < out.dj.nslices() && out.dj.width >= 1 implies is_distribution(
                #[trigger] out.dj.slice_view(s),
            ) by {
                lemma_qs_rts_wf(mid.slices@[s]@);
                lemma_normalized_sums_to_one(out.dj.slice_view(s), mid.slice_view(s));
            }
        }
        Ok(out)
    }
}

/// Every single-axis table consists of identically-zero or bounded-integer
/// slices, and the doubly normalized `dj` table is degenerate enough for
/// both passes to stay within exact `u64` arithmetic: under this condition
/// normalization is owed success.
pub open spec fn features_normalizable(f: FeaturesVDJ) -> bool {
    &&& slice_ok(qs(f.v@))
    &&& forall|s: int| 0 <= s < f.delv.nslices() ==> slice_ok(#[trigger] f.delv.slice_view(s))
    &&& forall|s: int| 0 <= s < f.delj.nslices() ==> slice_ok(#[trigger] f.delj.slice_view(s))
    &&& forall|s: int| 0 <= s < f.deld.nslices() ==> slice_ok(#[trigger] f.deld.slice_view(s))
    &&& slice_ok(qs(f.insvd@))
    &&& slice_ok(qs(f.insdj@))
    &&& slice_ok(qs(f.first_nt_bias_vd@))
    &&& slice_ok(qs(f.first_nt_bias_dj@))
    &&& forall|s: int|
        0 <= s < 4 ==> slice_ok(#[trigger] f.markov_coefficients_vd.slice_view(s))
    &&& forall|s: int|
        0 <= s < 4 ==> slice_ok(#[trigger] f.markov_coefficients_dj.slice_view(s))
    &&& f.dj.width == 0 || f.dj.nslices() == 0 || (f.dj.nslices() == 1 && forall|s: int, k: int|
        0 <= s < f.dj.nslices() && 0 <= k < f.dj.width ==> f.dj.at(s, k).num == 0)
}

/// An all-zero accumulator of a shape whose `dj` table is degenerate is
/// always normalizable.
pub proof fn lemma_zeros_normalizable(f: FeaturesVDJ)
    requires
        f.wf(),
        f.all_zero(),
        f.dj.width == 0 || f.dj.nslices() <= 1,
    ensures
        features_normalizable(f),
{
    assert(all_zero(qs(f.v@)));
    assert(all_zero(qs(f.insvd@)));
    assert(all_zero(qs(f.insdj@)));
    assert(all_zero(qs(f.first_nt_bias_vd@)));
    assert(all_zero(qs(f.first_nt_bias_dj@)));
    assert forall|s: int| 0 <= s < f.delv.nslices() implies slice_ok(
        #[trigger] f.delv.slice_view(s),
    ) by {
        assert forall|k: int|
            0 <= k < f.delv.slice_view(s).len() implies (#[trigger] f.delv.slice_view(
            s,
        )[k]).num == 0 by {
            assert(f.delv.slice_view(s)[k] == f.delv.at(s, k));
        }
    }
    assert forall|s: int| 0 <= s < f.delj.nslices() implies slice_ok(
        #[trigger] f.delj.slice_view(s),
    ) by {
        assert forall|k: int|
            0 <= k < f.delj.slice_view(s).len() implies (#[trigger] f.delj.slice_view(
            s,
        )[k]).num == 0 by {
            assert(f.delj.slice_view(s)[k] == f.delj.at(s, k));
        }
    }
    assert forall|s: int| 0 <= s < f.deld.nslices() implies slice_ok(
        #[trigger] f.deld.slice_view(s),
    ) by {
        assert forall|k: int|
            0 <= k < f.deld.slice_view(s).len() implies (#[trigger] f.deld.slice_view(
            s,
        )[k]).num == 0 by {
            assert(f.deld.slice_view(s)[k] == f.deld.at(s, k));
        }
    }
    assert forall|s: int| 0 <= s < 4 implies slice_ok(
        #[trigger] f.markov_coefficients_vd.slice_view(s),
    ) by {
        assert forall|k: int|
            0 <= k < f.markov_coefficients_vd.slice_view(s).len() implies (#[trigger] f.markov_coefficients_vd.slice_view(
            s,
        )[k]).num == 0 by {
            assert(f.markov_coefficients_vd.slice_view(s)[k] == f.markov_coefficients_vd.at(s, k));
        }
    }
    assert forall|s: int| 0 <= s < 4 implies slice_ok(
        #[trigger] f.markov_coefficients_dj.slice_view(s),
    ) by {
        assert forall|k: int|
            0 <= k < f.markov_coefficients_dj.slice_view(s).len() implies (#[trigger] f.markov_coefficients_dj.slice_view(
            s,
        )[k]).num == 0 by {
            assert(f.markov_coefficients_dj.slice_view(s)[k] == f.markov_coefficients_dj.at(s, k));
        }
    }
}

/// `out` is the normalization of `inp`: every single-axis table of `out`
/// entry-for-entry the normalized counterpart of `inp`'s, and every D slice
/// of the doubly normalized `dj` a distribution.
pub open spec fn features_normalized_of(out: FeaturesVDJ, inp: FeaturesVDJ) -> bool {
    &&& normalized_of(qs(out.v@), qs(inp.v@))
    &&& forall|s: int|
        0 <= s < out.delv.nslices() ==> normalized_of(
            #[trigger] out.delv.slice_view(s),
            inp.delv.slice_view(s),
        )
    &&& forall|s: int|
        0 <= s < out.delj.nslices() ==> normalized_of(
            #[trigger] out.delj.slice_view(s),
            inp.delj.slice_view(s),
        )
    &&& forall|s: int|
        0 <= s < out.deld.nslices() ==> normalized_of(
            #[trigger] out.deld.slice_view(s),
            inp.deld.slice_view(s),
        )
    &&& normalized_of(qs(out.insvd@), qs(inp.insvd@))
    &&& normalized_of(qs(out.insdj@), qs(inp.insdj@))
    &&& normalized_of(qs(out.first_nt_bias_vd@), qs(inp.first_nt_bias_vd@))
    &&& normalized_of(qs(out.first_nt_bias_dj@), qs(inp.first_nt_bias_dj@))
    &&& forall|s: int|
        0 <= s < 4 ==> normalized_of(
            #[trigger] out.markov_coefficients_vd.slice_view(s),
            inp.markov_coefficients_vd.slice_view(s),
        )
    &&& forall|s: int|
        0 <= s < 4 ==> normalized_of(
            #[trigger] out.markov_coefficients_dj.slice_view(s),
            inp.markov_coefficients_dj.slice_view(s),
        )
    &&& out.dj.width >= 1 ==> forall|s: int|
        0 <= s < out.dj.nslices() ==> is_distribution(#[trigger] out.dj.slice_view(s))
}

/// Every conditional distribution of a normalized table sums to exactly one
/// along its designated axis, provided its slices are non-empty.
pub proof fn lemma_feature_tables_sum_to_one(out: FeaturesVDJ, inp: FeaturesVDJ)
    requires
        inp.wf(),
        out.wf(),
        out.same_shape(inp),
        inp.positive_dims(),
        features_normalized_of(out, inp),
    ensures
        rt_eq(crate::dist::rt_sum(qs(out.v@)), rt_one()),
        forall|s: int|
            0 <= s < out.delv.nslices() ==> rt_eq(
                crate::dist::rt_sum(#[trigger] out.delv.slice_view(s)),
                rt_one(),
            ),
        forall|s: int|
            0 <= s < out.delj.nslices() ==> rt_eq(
                crate::dist::rt_sum(#[trigger] out.delj.slice_view(s)),
                rt_one(),
            ),
        forall|s: int|
            0 <= s < out.deld.nslices() ==> rt_eq(
                crate::dist::rt_sum(#[trigger] out.deld.slice_view(s)),
                rt_one(),
            ),
        forall|s: int|
            0 <= s < out.dj.nslices() ==> rt_eq(
                crate::dist::rt_sum(#[trigger] out.dj.slice_view(s)),
                rt_one(),
            ),
        rt_eq(crate::dist::rt_sum(qs(out.insvd@)), rt_one()),
        rt_eq(crate::dist::rt_sum(qs(out.insdj@)), rt_one()),
        rt_eq(crate::dist::rt_sum(qs(out.first_nt_bias_vd@)), rt_one()),
        rt_eq(crate::dist::rt_sum(qs(out.first_nt_bias_dj@)), rt_one()),
        forall|s: int|
            0 <= s < 4 ==> rt_eq(
                crate::dist::rt_sum(#[trigger] out.markov_coefficients_vd.slice_view(s)),
                rt_one(),
            ),
        forall|s: int|
            0 <= s < 4 ==> rt_eq(
                crate::dist::rt_sum(#[trigger] out.markov_coefficients_dj.slice_view(s)),
                rt_one(),
            ),
{
    lemma_qs_rts_wf(inp.v@);
    lemma_normalized_sums_to_one(qs(out.v@), qs(inp.v@));
    lemma_qs_rts_wf(inp.insvd@);
    lemma_normalized_sums_to_one(qs(out.insvd@), qs(inp.insvd@));
    lemma_qs_rts_wf(inp.insdj@);
    lemma_normalized_sums_to_one(qs(out.insdj@), qs(inp.insdj@));
    lemma_qs_rts_wf(inp.first_nt_bias_vd@);
    lemma_normalized_sums_to_one(qs(out.first_nt_bias_vd@), qs(inp.first_nt_bias_vd@));
    lemma_qs_rts_wf(inp.first_nt_bias_dj@);
    lemma_normalized_sums_to_one(qs(out.first_nt_bias_dj@), qs(inp.first_nt_bias_dj@));
    assert forall|s: int| 0 <= s < out.delv.nslices() implies rt_eq(
        crate::dist::rt_sum(#[trigger] out.delv.slice_view(s)),
        rt_one(),
    ) by {
        lemma_qs_rts_wf(inp.delv.slices@[s]@);
        lemma_normalized_sums_to_one(out.delv.slice_view(s), inp.delv.slice_view(s));
    }
    assert forall|s: int| 0 <= s < out.delj.nslices() implies rt_eq(
        crate::dist::rt_sum(#[trigger] out.delj.slice_view(s)),
        rt_one(),
    ) by {
        lemma_qs_rts_wf(inp.delj.slices@[s]@);
        lemma_normalized_sums_to_one(out.delj.slice_view(s), inp.delj.slice_view(s));
    }
    assert forall|s: int| 0 <= s < out.deld.nslices() implies rt_eq(
        crate::dist::rt_sum(#[trigger] out.deld.slice_view(s)),
        rt_one(),
    ) by {
        lemma_qs_rts_wf(inp.deld.slices@[s]@);
        lemma_normalized_sums_to_one(out.deld.slice_view(s), inp.deld.slice_view(s));
    }
    assert forall|s: int| 0 <= s < 4 implies rt_eq(
        crate::dist::rt_sum(#[trigger] out.markov_coefficients_vd.slice_view(s)),
        rt_one(),
    ) by {
        lemma_qs_rts_wf(inp.markov_coefficients_vd.slices@[s]@);
        lemma_normalized_sums_to_one(
            out.markov_coefficients_vd.slice_view(s),
            inp.markov_coefficients_vd.slice_view(s),
        );
    }
    assert forall|s: int| 0 <= s < 4 implies rt_eq(
        crate::dist::rt_sum(#[trigger] out.markov_coefficients_dj.slice_view(s)),
        rt_one(),
    ) by {
        lemma_qs_rts_wf(inp.markov_coefficients_dj.slices@[s]@);
        lemma_normalized_sums_to_one(
            out.markov_coefficients_dj.slice_view(s),
            inp.markov_coefficients_dj.slice_view(s),
        );
    }
}

/// The exact addition `e + w` stays within `u64` numerators and
/// denominators even before reduction.
pub open spec fn bump_fits(e: Rt, w: Rt) -> bool {
    e.num * w.den + w.num * e.den <= u64::MAX && e.den * w.den <= u64::MAX
}

/// Add `w * [k == idx]` to every entry of a rank-1 table.
fn bump_vec(tbl: &mut Vec<Q>, idx: usize, w: &Q) -> (r: Result<(), EmError>)
    requires
        qs_wf(old(tbl)@),
        idx < old(tbl)@.len(),
        w.wf(),
    ensures
        final(tbl)@.len() == old(tbl)@.len(),
        qs_wf(final(tbl)@),
        r matches Err(e) ==> e == EmError::Overflow && final(tbl)@ == old(tbl)@,
        bump_fits(old(tbl)@[idx as int]@, w@) ==> r is Ok,
        r is Ok ==> forall|k: int|
            0 <= k < final(tbl)@.len() ==> rt_eq(
                (#[trigger] final(tbl)@[k])@,
                rt_add(old(tbl)@[k]@, rt_mul(w@, Rt { num: ind(k == idx), den: 1 })),
            ),
{
    let cur = tbl[idx];
    let nv = match q_add(&cur, w) {
        Some(q) => q,
        None => {
            return Err(EmError::Overflow);
        },
    };
    tbl[idx] = nv;
    proof {
        assert forall|k: int| 0 <= k < tbl@.len() implies rt_eq(
            (#[trigger] tbl@[k])@,
            rt_add(old(tbl)@[k]@, rt_mul(w@, Rt { num: ind(k == idx), den: 1 })),
        ) by {
            if k == idx {
                assert(rt_mul(w@, Rt { num: 1, den: 1 }) == Rt {
                    num: w@.num * 1,
                    den: w@.den * 1,
                });
            } else {
                lemma_rt_add_zero_mul(old(tbl)@[k]@, w@);
            }
        }
    }
    Ok(())
}

/// Add `w * [(s, k) == (si, ki)]` to every entry of a grid.
fn bump_grid(g: &mut Grid, si: usize, ki: usize, w: &Q) -> (r: Result<(), EmError>)
    requires
        old(g).wf(),
        si < old(g).nslices(),
        ki < old(g).width,
        w.wf(),
    ensures
        final(g).wf(),
        final(g).same_shape(*old(g)),
        r matches Err(e) ==> e == EmError::Overflow && *final(g) == *old(g),
        bump_fits(old(g).at(si as int, ki as int), w@) ==> r is Ok,
        r is Ok ==> forall|s: int, k: int|
            0 <= s < final(g).nslices() && 0 <= k < final(g).width ==> rt_eq(
                final(g).at(s, k),
                rt_add(old(g).at(s, k), rt_mul(w@, Rt { num: ind(s == si && k == ki), den: 1 })),
            ),
{
    let cur = g.get(si, ki);
    let nv = match q_add(&cur, w) {
        Some(q) => q,
        None => {
            return Err(EmError::Overflow);
        },
    };
    g.set_entry(si, ki, nv);
    proof {
        assert forall|s: int, k: int|
            0 <= s < g.nslices() && 0 <= k < g.width implies rt_eq(
            g.at(s, k),
            rt_add(old(g).at(s, k), rt_mul(w@, Rt { num: ind(s == si && k == ki), den: 1 })),
        ) by {
            if s == si && k == ki {
                assert(rt_mul(w@, Rt { num: 1, den: 1 }) == Rt {
                    num: w@.num * 1,
                    den: w@.den * 1,
                });
            } else {
                lemma_rt_add_zero_mul(old(g).at(s, k), w@);
            }
        }
    }
    Ok(())
}

/// `nw` is `base` with one weighted recombination event accumulated: `w`
/// added at the chosen V, (D,J), deletion and insertion-length entries, and
/// the two insertion sequences fed with weight `w` into the Markov
/// accumulators of their junctions.
pub open spec fn accumulated_of(
    nw: FeaturesVDJ,
    base: FeaturesVDJ,
    v: int,
    d: int,
    j: int,
    delv: int,
    delj: int,
    deld3: int,
    deld5: int,
    insvd: Seq<u8>,
    insdj: Seq<u8>,
    w: Rt,
) -> bool {
    &&& forall|k: int|
        0 <= k < nw.v@.len() ==> rt_eq(
            (#[trigger] nw.v@[k])@,
            rt_add(base.v@[k]@, rt_mul(w, Rt { num: ind(k == v), den: 1 })),
        )
    &&& forall|s: int, k: int|
        0 <= s < nw.dj.nslices() && 0 <= k < nw.dj.width ==> rt_eq(
            nw.dj.at(s, k),
            rt_add(base.dj.at(s, k), rt_mul(w, Rt { num: ind(s == d && k == j), den: 1 })),
        )
    &&& forall|s: int, k: int|
        0 <= s < nw.delv.nslices() && 0 <= k < nw.delv.width ==> rt_eq(
            nw.delv.at(s, k),
            rt_add(base.delv.at(s, k), rt_mul(w, Rt { num: ind(s == v && k == delv), den: 1 })),
        )
    &&& forall|s: int, k: int|
        0 <= s < nw.delj.nslices() && 0 <= k < nw.delj.width ==> rt_eq(
            nw.delj.at(s, k),
            rt_add(base.delj.at(s, k), rt_mul(w, Rt { num: ind(s == j && k == delj), den: 1 })),
        )
    &&& forall|s: int, k: int|
        0 <= s < nw.deld.nslices() && 0 <= k < nw.deld.width ==> rt_eq(
            nw.deld.at(s, k),
            rt_add(
                base.deld.at(s, k),
                rt_mul(w, Rt { num: ind(s == d && k == deld3 * base.n_deld5 + deld5), den: 1 }),
            ),
        )
    &&& forall|k: int|
        0 <= k < nw.insvd@.len() ==> rt_eq(
            (#[trigger] nw.insvd@[k])@,
            rt_add(base.insvd@[k]@, rt_mul(w, Rt { num: ind(k == insvd.len()), den: 1 })),
        )
    &&& forall|k: int|
        0 <= k < nw.insdj@.len() ==> rt_eq(
            (#[trigger] nw.insdj@[k])@,
            rt_add(base.insdj@[k]@, rt_mul(w, Rt { num: ind(k == insdj.len()), den: 1 })),
        )
    &&& forall|b: u8|
        b < 4 ==> rt_eq(
            (#[trigger] nw.first_nt_bias_vd@[b as int])@,
            rt_add(
                base.first_nt_bias_vd@[b as int]@,
                rt_mul(w, Rt { num: first_count(insvd, b), den: 1 }),
            ),
        )
    &&& forall|x: u8, y: u8|
        x < 4 && y < 4 ==> rt_eq(
            #[trigger] nw.markov_coefficients_vd.at(x as int, y as int),
            rt_add(
                base.markov_coefficients_vd.at(x as int, y as int),
                rt_mul(w, Rt { num: pair_count(insvd, x, y), den: 1 }),
            ),
        )
    &&& forall|b: u8|
        b < 4 ==> rt_eq(
            (#[trigger] nw.first_nt_bias_dj@[b as int])@,
            rt_add(
                base.first_nt_bias_dj@[b as int]@,
                rt_mul(w, Rt { num: first_count(insdj, b), den: 1 }),
            ),
        )
    &&& forall|x: u8, y: u8|
        x < 4 && y < 4 ==> rt_eq(
            #[trigger] nw.markov_coefficients_dj.at(x as int, y as int),
            rt_add(
                base.markov_coefficients_dj.at(x as int, y as int),
                rt_mul(w, Rt { num: pair_count(insdj, x, y), den: 1 }),
            ),
        )
}

impl FeaturesVDJ {
    /// Accumulate one weighted event into this (dirty) table; the sole way
    /// any entry of an accumulator ever changes.
    pub fn accumulate(
        &mut self,
        v: usize,
        d: usize,
        j: usize,
        delv: usize,
        delj: usize,
        deld3: usize,
        deld5: usize,
        insvd: &Vec<u8>,
        insdj: &Vec<u8>,
        w: &Q,
    ) -> (r: Result<(), EmError>)
        requires
            old(self).wf(),
            v < old(self).v@.len(),
            d < old(self).dj.nslices(),
            j < old(self).dj.width,
            delv < old(self).delv.width,
            delj < old(self).delj.width,
            deld3 < old(self).n_deld3,
            deld5 < old(self).n_deld5,
            insvd@.len() < old(self).insvd@.len(),
            insdj@.len() < old(self).insdj@.len(),
            bases_wf(insvd@),
            bases_wf(insdj@),
            w.wf(),
        ensures
            final(self).wf(),
            final(self).same_shape(*old(self)),
            r matches Err(e) ==> e == EmError::Overflow,
            insvd@.len() == 0 && insdj@.len() == 0 && bump_fits(old(self).v@[v as int]@, w@)
                && bump_fits(old(self).dj.at(d as int, j as int), w@) && bump_fits(
                old(self).delv.at(v as int, delv as int),
                w@,
            ) && bump_fits(old(self).delj.at(j as int, delj as int), w@) && bump_fits(
                old(self).deld.at(d as int, deld3 * old(self).n_deld5 + deld5 as int),
                w@,
            ) && bump_fits(old(self).insvd@[0]@, w@) && bump_fits(old(self).insdj@[0]@, w@)
                ==> r is Ok,
            r is Ok ==> accumulated_of(
                *final(self),
                *old(self),
                v as int,
                d as int,
                j as int,
                delv as int,
                delj as int,
                deld3 as int,
                deld5 as int,
                insvd@,
                insdj@,
                w@,
            ),
    {
        proof {
            assert(deld3 * self.n_deld5 + deld5 < self.n_deld3 * self.n_deld5)
                by (nonlinear_arith)
                requires
                    deld3 < self.n_deld3,
                    deld5 < self.n_deld5,
            ;
        }
        let kd = deld3 * self.n_deld5 + deld5;
        match bump_vec(&mut self.v, v, w) {
            Ok(()) => (),
            Err(e) => {
                return Err(e);
            },
        }
        match bump_grid(&mut self.dj, d, j, w) {
            Ok(()) => (),
            Err(e) => {
                return Err(e);
            },
        }
        match bump_grid(&mut self.delv, v, delv, w) {
            Ok(()) => (),
            Err(e) => {
                return Err(e);
            },
        }
        match bump_grid(&mut self.delj, j, delj, w) {
            Ok(()) => (),
            Err(e) => {
                return Err(e);
            },
        }
        match bump_grid(&mut self.deld, d, kd, w) {
            Ok(()) => (),
            Err(e) => {
                return Err(e);
            },
        }
        let lvd = insvd.len();
        match bump_vec(&mut self.insvd, lvd, w) {
            Ok(()) => (),
            Err(e) => {
                return Err(e);
            },
        }
        let ldj = insdj.len();
        match bump_vec(&mut self.insdj, ldj, w) {
            Ok(()) => (),
            Err(e) => {
                return Err(e);
            },
        }
        match update_markov_probas(
            &mut self.first_nt_bias_vd,
            &mut self.markov_coefficients_vd,
            insvd,
            w,
        ) {
            Ok(()) => (),
            Err(e) => {
                return Err(e);
            },
        }
        match update_markov_probas(
            &mut self.first_nt_bias_dj,
            &mut self.markov_coefficients_dj,
            insdj,
            w,
        ) {
            Ok(()) => (),
            Err(e) => {
                return Err(e);
            },
        }
        Ok(())
    }
}

/// Every alignment of `seq` points inside the tables of `f`, and the
/// insertion-length tables cover every window of the sequence.
pub open spec fn compatible_with(seq: SequenceVDJ, f: FeaturesVDJ) -> bool {
    &&& seq.wf()
    &&& forall|i: int|
        0 <= i < seq.v_genes@.len() ==> (#[trigger] seq.v_genes@[i]).index < f.v@.len()
    &&& forall|i: int|
        0 <= i < seq.d_genes@.len() ==> (#[trigger] seq.d_genes@[i]).index < f.dj.nslices()
    &&& forall|i: int|
        0 <= i < seq.j_genes@.len() ==> (#[trigger] seq.j_genes@[i]).index < f.dj.width
    &&& f.insvd@.len() > seq.seq@.len()
    &&& f.insdj@.len() > seq.seq@.len()
}

/// The EM engine's state: the current normalized model and the accumulator
/// of expected event counts.
pub struct MarginalsVDJ {
    pub marginals: FeaturesVDJ,
    pub dirty_marginals: FeaturesVDJ,
}

impl MarginalsVDJ {
    pub open spec fn wf(self) -> bool {
        &&& self.marginals.wf()
        &&& self.dirty_marginals.wf()
        &&& self.dirty_marginals.same_shape(self.marginals)
    }

    /// Build the engine from an initial model: the current table is the
    /// normalization of the model's tables, the accumulator starts all-zero.
    pub fn new(model: &FeaturesVDJ) -> (r: Result<MarginalsVDJ, EmError>)
        requires
            model.wf(),
        ensures
            r matches Ok(m) ==> m.wf() && m.marginals.same_shape(*model)
                && features_normalized_of(m.marginals, *model) && m.dirty_marginals.all_zero(),
            r matches Err(e) ==> e == EmError::Overflow,
            features_normalizable(*model) ==> r is Ok,
    {
        let marginals = match model.normalize() {
            Ok(f) => f,
            Err(e) => {
                return Err(EmError::Overflow);
            },
        };
        let dirty_marginals = FeaturesVDJ::zeros_like(&marginals);
        Ok(MarginalsVDJ { marginals, dirty_marginals })
    }

    pub fn likelihood_v(&self, vi: usize) -> (r: Q)
        requires
            self.wf(),
            vi < self.marginals.v@.len(),
        ensures
            r == self.marginals.v@[vi as int],
            r.wf(),
    {
        self.marginals.v[vi]
    }

    pub fn likelihood_delv(&self, dv: usize, vi: usize) -> (r: Q)
        requires
            self.wf(),
            vi < self.marginals.delv.nslices(),
            dv < self.marginals.delv.width,
        ensures
            r@ == self.marginals.delv.at(vi as int, dv as int),
            r.wf(),
    {
        self.marginals.delv.get(vi, dv)
    }

    pub fn likelihood_dj(&self, di: usize, ji: usize) -> (r: Q)
        requires
            self.wf(),
            di < self.marginals.dj.nslices(),
            ji < self.marginals.dj.width,
        ensures
            r@ == self.marginals.dj.at(di as int, ji as int),
            r.wf(),
    {
        self.marginals.dj.get(di, ji)
    }

    pub fn likelihood_delj(&self, dj: usize, ji: usize) -> (r: Q)
        requires
            self.wf(),
            ji < self.marginals.delj.nslices(),
            dj < self.marginals.delj.width,
        ensures
            r@ == self.marginals.delj.at(ji as int, dj as int),
            r.wf(),
    {
        self.marginals.delj.get(ji, dj)
    }

    pub fn likelihood_deld(&self, dd3: usize, dd5: usize, di: usize) -> (r: Q)
        requires
            self.wf(),
            di < self.marginals.deld.nslices(),
            dd3 < self.marginals.n_deld3,
            dd5 < self.marginals.n_deld5,
        ensures
            r@ == self.marginals.deld.at(
                di as int,
                dd3 * self.marginals.n_deld5 + dd5,
            ),
            r.wf(),
    {
        proof {
            assert(dd3 * self.marginals.n_deld5 + dd5 < self.marginals.n_deld3
                * self.marginals.n_deld5) by (nonlinear_arith)
                requires
                    dd3 < self.marginals.n_deld3,
                    dd5 < self.marginals.n_deld5,
            ;
        }
        self.marginals.deld.get(di, dd3 * self.marginals.n_deld5 + dd5)
    }

    pub fn likelihood_nb_ins_vd(&self, seqvd: &Vec<u8>) -> (r: Q)
        requires
            self.wf(),
            seqvd@.len() < self.marginals.insvd@.len(),
        ensures
            r == self.marginals.insvd@[seqvd@.len() as int],
            r.wf(),
    {
        self.marginals.insvd[seqvd.len()]
    }

    pub fn likelihood_nb_ins_dj(&self, seqdj: &Vec<u8>) -> (r: Q)
        requires
            self.wf(),
            seqdj@.len() < self.marginals.insdj@.len(),
        ensures
            r == self.marginals.insdj@[seqdj@.len() as int],
            r.wf(),
    {
        self.marginals.insdj[seqdj.len()]
    }

    /// Markov-chain composition likelihood of a V-D insertion sequence.
    pub fn likelihood_ins_vd(&self, seqvd: &Vec<u8>) -> (r: Option<Q>)
        requires
            self.wf(),
            bases_wf(seqvd@),
        ensures
            r matches Some(q) ==> q.wf() && rt_eq(
                q@,
                sp_markov(
                    qs(self.marginals.first_nt_bias_vd@),
                    self.marginals.markov_coefficients_vd,
                    seqvd@,
                ),
            ),
            seqvd@.len() == 0 ==> r == Some(Q { num: 1, den: 1 }),
    {
        likelihood_markov(
            &self.marginals.first_nt_bias_vd,
            &self.marginals.markov_coefficients_vd,
            seqvd,
        )
    }

    /// Markov-chain composition likelihood of a D-J insertion sequence.
    pub fn likelihood_ins_dj(&self, seqdj: &Vec<u8>) -> (r: Option<Q>)
        requires
            self.wf(),
            bases_wf(seqdj@),
        ensures
            r matches Some(q) ==> q.wf() && rt_eq(
                q@,
                sp_markov(
                    qs(self.marginals.first_nt_bias_dj@),
                    self.marginals.markov_coefficients_dj,
                    seqdj@,
                ),
            ),
            seqdj@.len() == 0 ==> r == Some(Q { num: 1, den: 1 }),
    {
        likelihood_markov(
            &self.marginals.first_nt_bias_dj,
            &self.marginals.markov_coefficients_dj,
            seqdj,
        )
    }

    /// Accumulate one surviving combination into the dirty table; the only
    /// mutator of `dirty_marginals`.
    pub fn dirty_update(
        &mut self,
        v: usize,
        d: usize,
        j: usize,
        delv: usize,
        delj: usize,
        deld3: usize,
        deld5: usize,
        insvd: &Vec<u8>,
        insdj: &Vec<u8>,
        likelihood: Q,
    ) -> (r: Result<(), EmError>)
        requires
            old(self).wf(),
            v < old(self).marginals.v@.len(),
            d < old(self).marginals.dj.nslices(),
            j < old(self).marginals.dj.width,
            delv < old(self).marginals.delv.width,
            delj < old(self).marginals.delj.width,
            deld3 < old(self).marginals.n_deld3,
            deld5 < old(self).marginals.n_deld5,
            insvd@.len() < old(self).marginals.insvd@.len(),
            insdj@.len() < old(self).marginals.insdj@.len(),
            bases_wf(insvd@),
            bases_wf(insdj@),
            likelihood.wf(),
        ensures
            final(self).wf(),
            final(self).marginals == old(self).marginals,
            final(self).dirty_marginals.same_shape(old(self).dirty_marginals),
            r matches Err(e) ==> e == EmError::Overflow,
            insvd@.len() == 0 && insdj@.len() == 0 && bump_fits(
                old(self).dirty_marginals.v@[v as int]@,
                likelihood@,
            ) && bump_fits(old(self).dirty_marginals.dj.at(d as int, j as int), likelihood@)
                && bump_fits(
                old(self).dirty_marginals.delv.at(v as int, delv as int),
                likelihood@,
            ) && bump_fits(old(self).dirty_marginals.delj.at(j as int, delj as int), likelihood@)
                && bump_fits(
                old(self).dirty_marginals.deld.at(
                    d as int,
                    deld3 * old(self).dirty_marginals.n_deld5 + deld5 as int,
                ),
                likelihood@,
            ) && bump_fits(old(self).dirty_marginals.insvd@[0]@, likelihood@) && bump_fits(
                old(self).dirty_marginals.insdj@[0]@,
                likelihood@,
            ) ==> r is Ok,
            r is Ok ==> accumulated_of(
                final(self).dirty_marginals,
                old(self).dirty_marginals,
                v as int,
                d as int,
                j as int,
                delv as int,
                delj as int,
                deld3 as int,
                deld5 as int,
                insvd@,
                insdj@,
                likelihood@,
            ),
            r is Ok ==> features_ge(final(self).dirty_marginals, old(self).dirty_marginals),
    {
        let r = self.dirty_marginals.accumulate(
            v,
            d,
            j,
            delv,
            delj,
            deld3,
            deld5,
            insvd,
            insdj,
            &likelihood,
        );
        proof {
            if r is Ok {
                lemma_accumulate_grows(
                    self.dirty_marginals,
                    old(self).dirty_marginals,
                    v as int,
                    d as int,
                    j as int,
                    delv as int,
                    delj as int,
                    deld3 as int,
                    deld5 as int,
                    insvd@,
                    insdj@,
                    likelihood@,
                );
            }
        }
        r
    }

    /// Enumerate every V x delV x J x D x delJ x delD3 x delD5 combination
    /// for one aligned sequence, pruning a branch as soon as the partial
    /// likelihood product falls below the threshold: first after the four
    /// cheap factors P(v) P(delv|v) P(d,j) P(delj|j), again after the
    /// deletion-pair factor and before the insertion windows are
    /// materialized, and a third time after the insertion-length factors and
    /// before the Markov composition likelihood. Every surviving
    /// combination's full likelihood is accumulated into `dirty_marginals`;
    /// the current `marginals` is only read.
    pub fn update_marginals(
        &mut self,
        sequence: &SequenceVDJ,
        inference_params: &InferenceParams,
    ) -> (r: Result<(), EmError>)
        requires
            old(self).wf(),
            inference_params.min_likelihood.wf(),
            compatible_with(*sequence, old(self).marginals),
        ensures
            final(self).wf(),
            final(self).marginals == old(self).marginals,
            final(self).dirty_marginals.same_shape(old(self).dirty_marginals),
            r matches Err(e) ==> e == EmError::Overflow,
            r is Ok ==> features_ge(final(self).dirty_marginals, old(self).dirty_marginals),
            r is Ok ==> sequence_accumulated(
                old(self).marginals,
                *sequence,
                inference_params.min_likelihood@,
                old(self).dirty_marginals,
                final(self).dirty_marginals,
            ),
    {
        proof {
            lemma_features_ge_refl(self.dirty_marginals);
            lemma_folded_base(
                v_step(old(self).marginals, *sequence, inference_params.min_likelihood@),
                self.dirty_marginals,
            );
        }
        let min = inference_params.min_likelihood;
        let n_delv = self.marginals.delv.width;
        let n_delj = self.marginals.delj.width;
        let n_deld3 = self.marginals.n_deld3;
        let n_deld5 = self.marginals.n_deld5;
        let ghost gm = old(self).marginals;
        let ghost gsq = *sequence;
        let mut vi: usize = 0;
        while vi < sequence.v_genes.len()
            invariant
                self.wf(),
                self.marginals == old(self).marginals,
                self.dirty_marginals.same_shape(old(self).dirty_marginals),
                features_ge(self.dirty_marginals, old(self).dirty_marginals),
                old(self).wf(),
                compatible_with(*sequence, self.marginals),
                min.wf(),
                min == inference_params.min_likelihood,
                n_delv == self.marginals.delv.width,
                n_delj == self.marginals.delj.width,
                n_deld3 == self.marginals.n_deld3,
                n_deld5 == self.marginals.n_deld5,
                vi <= sequence.v_genes@.len(),
                folded(
                    v_step(gm, gsq, min@),
                    old(self).dirty_marginals,
                    self.dirty_marginals,
                    vi as int,
                ),
                gm == old(self).marginals,
                gsq == *sequence,
            decreases sequence.v_genes@.len() - vi,
        {
            let v_index = sequence.v_genes[vi].index;
            let l_v = self.likelihood_v(v_index);
            let ghost s_vi = self.dirty_marginals;
            proof {
                lemma_folded_base(delv_step(gm, gsq, min@, vi as int), self.dirty_marginals);
            }
            let mut dv: usize = 0;
            while dv < n_delv
                invariant
                    self.wf(),
                    self.marginals == old(self).marginals,
                    self.dirty_marginals.same_shape(old(self).dirty_marginals),
                    features_ge(self.dirty_marginals, old(self).dirty_marginals),
                    old(self).wf(),
                    compatible_with(*sequence, self.marginals),
                    min.wf(),
                    min == inference_params.min_likelihood,
                    n_delv == self.marginals.delv.width,
                    n_delj == self.marginals.delj.width,
                    n_deld3 == self.marginals.n_deld3,
                    n_deld5 == self.marginals.n_deld5,
                    l_v.wf(),
                    l_v == self.marginals.v@[v_index as int],
                    vi < sequence.v_genes@.len(),
                    v_index == sequence.v_genes@[vi as int].index,
                    dv <= n_delv,
                    folded(
                        v_step(gm, gsq, min@),
                        old(self).dirty_marginals,
                        s_vi,
                        vi as int,
                    ),
                    folded(
                        delv_step(gm, gsq, min@, vi as int),
                        s_vi,
                        self.dirty_marginals,
                        dv as int,
                    ),
                    gm == old(self).marginals,
                    gsq == *sequence,
                decreases n_delv - dv,
            {
                let l_delv = self.likelihood_delv(dv, v_index);
                let ghost s_dv = self.dirty_marginals;
                proof {
                    lemma_folded_base(
                        j_step(gm, gsq, min@, vi as int, dv as int),
                        self.dirty_marginals,
                    );
                }
                let mut ji: usize = 0;
                while ji < sequence.j_genes.len()
                    invariant
                        self.wf(),
                        self.marginals == old(self).marginals,
                        self.dirty_marginals.same_shape(old(self).dirty_marginals),
                        features_ge(self.dirty_marginals, old(self).dirty_marginals),
                        old(self).wf(),
                        compatible_with(*sequence, self.marginals),
                        min.wf(),
                        min == inference_params.min_likelihood,
                        n_delv == self.marginals.delv.width,
                        n_delj == self.marginals.delj.width,
                        n_deld3 == self.marginals.n_deld3,
                        n_deld5 == self.marginals.n_deld5,
                        l_v.wf(),
                        l_v == self.marginals.v@[v_index as int],
                        l_delv.wf(),
                        l_delv@ == self.marginals.delv.at(v_index as int, dv as int),
                        vi < sequence.v_genes@.len(),
                        v_index == sequence.v_genes@[vi as int].index,
                        dv < n_delv,
                        ji <= sequence.j_genes@.len(),
                        folded(
                            delv_step(gm, gsq, min@, vi as int),
                            s_vi,
                            s_dv,
                            dv as int,
                        ),
                        folded(
                            j_step(gm, gsq, min@, vi as int, dv as int),
                            s_dv,
                            self.dirty_marginals,
                            ji as int,
                        ),
                        gm == old(self).marginals,
                        gsq == *sequence,
                    decreases sequence.j_genes@.len() - ji,
                {
                    let j_index = sequence.j_genes[ji].index;
                    let ghost s_ji = self.dirty_marginals;
                    proof {
                        lemma_folded_base(
                            d_step(gm, gsq, min@, vi as int, dv as int, ji as int),
                            self.dirty_marginals,
                        );
                    }
                    let mut di: usize = 0;
                    while di < sequence.d_genes.len()
                        invariant
                            self.wf(),
                            self.marginals == old(self).marginals,
                            self.dirty_marginals.same_shape(old(self).dirty_marginals),
                            features_ge(self.dirty_marginals, old(self).dirty_marginals),
                            old(self).wf(),
                            compatible_with(*sequence, self.marginals),
                            min.wf(),
                            min == inference_params.min_likelihood,
                            n_delv == self.marginals.delv.width,
                            n_delj == self.marginals.delj.width,
                            n_deld3 == self.marginals.n_deld3,
                            n_deld5 == self.marginals.n_deld5,
                            l_v.wf(),
                            l_v == self.marginals.v@[v_index as int],
                            l_delv.wf(),
                            l_delv@ == self.marginals.delv.at(v_index as int, dv as int),
                            vi < sequence.v_genes@.len(),
                            v_index == sequence.v_genes@[vi as int].index,
                            dv < n_delv,
                            ji < sequence.j_genes@.len(),
                            j_index == sequence.j_genes@[ji as int].index,
                            di <= sequence.d_genes@.len(),
                            folded(
                                d_step(gm, gsq, min@, vi as int, dv as int, ji as int),
                                s_ji,
                                self.dirty_marginals,
                                di as int,
                            ),
                            gm == old(self).marginals,
                            gsq == *sequence,
                        decreases sequence.d_genes@.len() - di,
                    {
                        let d_index = sequence.d_genes[di].index;
                        let l_dj = self.likelihood_dj(d_index, j_index);
                        let ghost s_di = self.dirty_marginals;
                        proof {
                            lemma_folded_base(
                                delj_step(
                                    gm,
                                    gsq,
                                    min@,
                                    vi as int,
                                    dv as int,
                                    ji as int,
                                    di as int,
                                ),
                                self.dirty_marginals,
                            );
                        }
                        let mut djdel: usize = 0;
                        while djdel < n_delj
                            invariant
                                self.wf(),
                                self.marginals == old(self).marginals,
                                self.dirty_marginals.same_shape(old(self).dirty_marginals),
                                features_ge(self.dirty_marginals, old(self).dirty_marginals),
                                old(self).wf(),
                                compatible_with(*sequence, self.marginals),
                                min.wf(),
                                min == inference_params.min_likelihood,
                                n_delv == self.marginals.delv.width,
                                n_delj == self.marginals.delj.width,
                                n_deld3 == self.marginals.n_deld3,
                                n_deld5 == self.marginals.n_deld5,
                                l_v.wf(),
                                l_v == self.marginals.v@[v_index as int],
                                l_delv.wf(),
                                l_delv@ == self.marginals.delv.at(v_index as int, dv as int),
                                l_dj.wf(),
                                l_dj@ == self.marginals.dj.at(d_index as int, j_index as int),
                                vi < sequence.v_genes@.len(),
                                v_index == sequence.v_genes@[vi as int].index,
                                dv < n_delv,
                                ji < sequence.j_genes@.len(),
                                j_index == sequence.j_genes@[ji as int].index,
                                di < sequence.d_genes@.len(),
                                d_index == sequence.d_genes@[di as int].index,
                                djdel <= n_delj,
                                folded(
                                    delj_step(
                                        gm,
                                        gsq,
                                        min@,
                                        vi as int,
                                        dv as int,
                                        ji as int,
                                        di as int,
                                    ),
                                    s_di,
                                    self.dirty_marginals,
                                    djdel as int,
                                ),
                                gm == old(self).marginals,
                                gsq == *sequence,
                            decreases n_delj - djdel,
                        {
                            let l_delj = self.likelihood_delj(djdel, j_index);
                            let p1 = match self.mul4(&l_v, &l_delv, &l_dj, &l_delj) {
                                Ok(q) => q,
                                Err(e) => {
                                    return Err(e);
                                },
                            };
                            proof {
                                let gv = gsq.v_genes@[vi as int].index as int;
                                let gj = gsq.j_genes@[ji as int].index as int;
                                let gd = gsq.d_genes@[di as int].index as int;
                                assert((gm.v@[gv]).wf());
                                assert((gm.delv.slices@[gv]@[dv as int]).wf());
                                assert((gm.dj.slices@[gd]@[gj]).wf());
                                assert((gm.delj.slices@[gj]@[djdel as int]).wf());
                                lemma_rt_mul_wf(gm.v@[gv]@, gm.delv.at(gv, dv as int));
                                lemma_rt_mul_wf(
                                    rt_mul(gm.v@[gv]@, gm.delv.at(gv, dv as int)),
                                    gm.dj.at(gd, gj),
                                );
                                lemma_rt_mul_wf(
                                    rt_mul(
                                        rt_mul(gm.v@[gv]@, gm.delv.at(gv, dv as int)),
                                        gm.dj.at(gd, gj),
                                    ),
                                    gm.delj.at(gj, djdel as int),
                                );
                                assert(rt_eq(
                                    p1@,
                                    sp_p1(
                                        gm,
                                        gsq,
                                        vi as int,
                                        dv as int,
                                        ji as int,
                                        di as int,
                                        djdel as int,
                                    ),
                                ));
                            }
                            if q_lt(&p1, &min) {
                                proof {
                                    let gp1 = sp_p1(
                                        gm,
                                        gsq,
                                        vi as int,
                                        dv as int,
                                        ji as int,
                                        di as int,
                                        djdel as int,
                                    );
                                    lemma_rt_lt_congr(p1@, gp1, min@, min@);
                                    lemma_deld_block_pruned(
                                        gm,
                                        gsq,
                                        min@,
                                        self.dirty_marginals,
                                        vi as int,
                                        dv as int,
                                        ji as int,
                                        di as int,
                                        djdel as int,
                                    );
                                    lemma_folded_extend(
                                        delj_step(
                                            gm,
                                            gsq,
                                            min@,
                                            vi as int,
                                            dv as int,
                                            ji as int,
                                            di as int,
                                        ),
                                        s_di,
                                        self.dirty_marginals,
                                        self.dirty_marginals,
                                        djdel as int,
                                    );
                                }
                                djdel += 1;
                                continue;
                            }
                            let ghost dirty_before = self.dirty_marginals;
                            proof {
                                let gp1 = sp_p1(
                                    gm,
                                    gsq,
                                    vi as int,
                                    dv as int,
                                    ji as int,
                                    di as int,
                                    djdel as int,
                                );
                                lemma_rt_lt_congr(p1@, gp1, min@, min@);
                            }
                            match self.deld_pairs(
                                sequence,
                                vi,
                                dv,
                                ji,
                                di,
                                djdel,
                                &p1,
                                &min,
                            ) {
                                Ok(()) => proof {
                                    lemma_features_ge_trans(
                                        old(self).dirty_marginals,
                                        dirty_before,
                                        self.dirty_marginals,
                                    );
                                    lemma_folded_extend(
                                        delj_step(
                                            gm,
                                            gsq,
                                            min@,
                                            vi as int,
                                            dv as int,
                                            ji as int,
                                            di as int,
                                        ),
                                        s_di,
                                        dirty_before,
                                        self.dirty_marginals,
                                        djdel as int,
                                    );
                                },
                                Err(e) => {
                                    return Err(e);
                                },
                            }
                            djdel += 1;
                        }
                        proof {
                            lemma_folded_extend(
                                d_step(gm, gsq, min@, vi as int, dv as int, ji as int),
                                s_ji,
                                s_di,
                                self.dirty_marginals,
                                di as int,
                            );
                        }
                        di += 1;
                    }
                    proof {
                        lemma_folded_extend(
                            j_step(gm, gsq, min@, vi as int, dv as int),
                            s_dv,
                            s_ji,
                            self.dirty_marginals,
                            ji as int,
                        );
                    }
                    ji += 1;
                }
                proof {
                    lemma_folded_extend(
                        delv_step(gm, gsq, min@, vi as int),
                        s_vi,
                        s_dv,
                        self.dirty_marginals,
                        dv as int,
                    );
                }
                dv += 1;
            }
            proof {
                lemma_folded_extend(
                    v_step(gm, gsq, min@),
                    old(self).dirty_marginals,
                    s_vi,
                    self.dirty_marginals,
                    vi as int,
                );
            }
            vi += 1;
        }
        Ok(())
    }

    /// Exact product of the four cheap factors.
    fn mul4(&self, a: &Q, b: &Q, c: &Q, d: &Q) -> (r: Result<Q, EmError>)
        requires
            a.wf(),
            b.wf(),
            c.wf(),
            d.wf(),
        ensures
            r matches Ok(q) ==> q.wf() && rt_eq(
                q@,
                rt_mul(rt_mul(rt_mul(a@, b@), c@), d@),
            ),
            r matches Err(e) ==> e == EmError::Overflow,
    {
        let ab = match q_mul(a, b) {
            Some(q) => q,
            None => {
                return Err(EmError::Overflow);
            },
        };
        let abc = match q_mul(&ab, c) {
            Some(q) => q,
            None => {
                return Err(EmError::Overflow);
            },
        };
        let abcd = match q_mul(&abc, d) {
            Some(q) => q,
            None => {
                return Err(EmError::Overflow);
            },
        };
        proof {
            crate::rat::lemma_rt_mul_wf(a@, b@);
            crate::rat::lemma_rt_mul_congr(ab@, rt_mul(a@, b@), c@, c@);
            crate::rat::lemma_rt_mul_wf(ab@, c@);
            crate::rat::lemma_rt_mul_wf(rt_mul(a@, b@), c@);
            crate::rat::lemma_rt_eq_trans(
                abc@,
                rt_mul(ab@, c@),
                rt_mul(rt_mul(a@, b@), c@),
            );
            crate::rat::lemma_rt_mul_congr(abc@, rt_mul(rt_mul(a@, b@), c@), d@, d@);
            crate::rat::lemma_rt_mul_wf(abc@, d@);
            crate::rat::lemma_rt_mul_wf(rt_mul(rt_mul(a@, b@), c@), d@);
            crate::rat::lemma_rt_eq_trans(
                abcd@,
                rt_mul(abc@, d@),
                rt_mul(rt_mul(rt_mul(a@, b@), c@), d@),
            );
        }
        Ok(abcd)
    }

    /// The deletion-pair loop for one surviving prefix: fold in the
    /// deletion-pair factor, derive the insertion windows, fold in the
    /// insertion-length and Markov factors with a threshold check before
    /// each costly step, and accumulate what survives.
    fn deld_pairs(
        &mut self,
        sequence: &SequenceVDJ,
        vi: usize,
        dv: usize,
        ji: usize,
        di: usize,
        djdel: usize,
        p1: &Q,
        min: &Q,
    ) -> (r: Result<(), EmError>)
        requires
            old(self).wf(),
            compatible_with(*sequence, old(self).marginals),
            vi < sequence.v_genes@.len(),
            ji < sequence.j_genes@.len(),
            di < sequence.d_genes@.len(),
            dv < old(self).marginals.delv.width,
            djdel < old(self).marginals.delj.width,
            p1.wf(),
            min.wf(),
            rt_eq(
                p1@,
                sp_p1(
                    old(self).marginals,
                    *sequence,
                    vi as int,
                    dv as int,
                    ji as int,
                    di as int,
                    djdel as int,
                ),
            ),
            !rt_lt(
                sp_p1(
                    old(self).marginals,
                    *sequence,
                    vi as int,
                    dv as int,
                    ji as int,
                    di as int,
                    djdel as int,
                ),
                min@,
            ),
        ensures
            final(self).wf(),
            final(self).marginals == old(self).marginals,
            final(self).dirty_marginals.same_shape(old(self).dirty_marginals),
            r matches Err(e) ==> e == EmError::Overflow,
            r is Ok ==> features_ge(final(self).dirty_marginals, old(self).dirty_marginals),
            r is Ok ==> folded(
                deld3_step(
                    old(self).marginals,
                    *sequence,
                    min@,
                    vi as int,
                    dv as int,
                    ji as int,
                    di as int,
                    djdel as int,
                ),
                old(self).dirty_marginals,
                final(self).dirty_marginals,
                old(self).marginals.n_deld3 as int,
            ),
    {
        proof {
            lemma_features_ge_refl(self.dirty_marginals);
            lemma_folded_base(
                deld3_step(
                    old(self).marginals,
                    *sequence,
                    min@,
                    vi as int,
                    dv as int,
                    ji as int,
                    di as int,
                    djdel as int,
                ),
                self.dirty_marginals,
            );
        }
        let n_deld3 = self.marginals.n_deld3;
        let n_deld5 = self.marginals.n_deld5;
        let v_index = sequence.v_genes[vi].index;
        let j_index = sequence.j_genes[ji].index;
        let d_index = sequence.d_genes[di].index;
        let mut dd3: usize = 0;
        while dd3 < n_deld3
            invariant
                self.wf(),
                self.marginals == old(self).marginals,
                self.dirty_marginals.same_shape(old(self).dirty_marginals),
                features_ge(self.dirty_marginals, old(self).dirty_marginals),
                old(self).wf(),
                compatible_with(*sequence, self.marginals),
                p1.wf(),
                min.wf(),
                n_deld3 == self.marginals.n_deld3,
                n_deld5 == self.marginals.n_deld5,
                vi < sequence.v_genes@.len(),
                ji < sequence.j_genes@.len(),
                di < sequence.d_genes@.len(),
                v_index == sequence.v_genes@[vi as int].index,
                j_index == sequence.j_genes@[ji as int].index,
                d_index == sequence.d_genes@[di as int].index,
                dv < self.marginals.delv.width,
                djdel < self.marginals.delj.width,
                dd3 <= n_deld3,
                rt_eq(
                    p1@,
                    sp_p1(
                        old(self).marginals,
                        *sequence,
                        vi as int,
                        dv as int,
                        ji as int,
                        di as int,
                        djdel as int,
                    ),
                ),
                !rt_lt(
                    sp_p1(
                        old(self).marginals,
                        *sequence,
                        vi as int,
                        dv as int,
                        ji as int,
                        di as int,
                        djdel as int,
                    ),
                    min@,
                ),
                folded(
                    deld3_step(
                        old(self).marginals,
                        *sequence,
                        min@,
                        vi as int,
                        dv as int,
                        ji as int,
                        di as int,
                        djdel as int,
                    ),
                    old(self).dirty_marginals,
                    self.dirty_marginals,
                    dd3 as int,
                ),
            decreases n_deld3 - dd3,
        {
            let ghost at3 = self.dirty_marginals;
            proof {
                lemma_folded_base(
                    deld5_step(
                        old(self).marginals,
                        *sequence,
                        min@,
                        vi as int,
                        dv as int,
                        ji as int,
                        di as int,
                        djdel as int,
                        dd3 as int,
                    ),
                    self.dirty_marginals,
                );
            }
            let mut dd5: usize = 0;
            while dd5 < n_deld5
                invariant
                    self.wf(),
                    self.marginals == old(self).marginals,
                    self.dirty_marginals.same_shape(old(self).dirty_marginals),
                    features_ge(self.dirty_marginals, old(self).dirty_marginals),
                    old(self).wf(),
                    compatible_with(*sequence, self.marginals),
                    p1.wf(),
                    min.wf(),
                    n_deld3 == self.marginals.n_deld3,
                    n_deld5 == self.marginals.n_deld5,
                    vi < sequence.v_genes@.len(),
                    ji < sequence.j_genes@.len(),
                    di < sequence.d_genes@.len(),
                    v_index == sequence.v_genes@[vi as int].index,
                    j_index == sequence.j_genes@[ji as int].index,
                    d_index == sequence.d_genes@[di as int].index,
                    dv < self.marginals.delv.width,
                    djdel < self.marginals.delj.width,
                    dd3 < n_deld3,
                    dd5 <= n_deld5,
                    rt_eq(
                        p1@,
                        sp_p1(
                            old(self).marginals,
                            *sequence,
                            vi as int,
                            dv as int,
                            ji as int,
                            di as int,
                            djdel as int,
                        ),
                    ),
                    !rt_lt(
                        sp_p1(
                            old(self).marginals,
                            *sequence,
                            vi as int,
                            dv as int,
                            ji as int,
                            di as int,
                            djdel as int,
                        ),
                        min@,
                    ),
                    folded(
                        deld3_step(
                            old(self).marginals,
                            *sequence,
                            min@,
                            vi as int,
                            dv as int,
                            ji as int,
                            di as int,
                            djdel as int,
                        ),
                        old(self).dirty_marginals,
                        at3,
                        dd3 as int,
                    ),
                    folded(
                        deld5_step(
                            old(self).marginals,
                            *sequence,
                            min@,
                            vi as int,
                            dv as int,
                            ji as int,
                            di as int,
                            djdel as int,
                            dd3 as int,
                        ),
                        at3,
                        self.dirty_marginals,
                        dd5 as int,
                    ),
                decreases n_deld5 - dd5,
            {
                let l_deld = self.likelihood_deld(dd3, dd5, d_index);
                let p2 = match q_mul(p1, &l_deld) {
                    Some(q) => q,
                    None => {
                        return Err(EmError::Overflow);
                    },
                };
                proof {
                    lemma_partials_wf(
                        old(self).marginals,
                        *sequence,
                        vi as int,
                        dv as int,
                        ji as int,
                        di as int,
                        djdel as int,
                        dd3 as int,
                        dd5 as int,
                    );
                    let gm = old(self).marginals;
                    let gsq = *sequence;
                    let gp1 = sp_p1(gm, gsq, vi as int, dv as int, ji as int, di as int, djdel as int);
                    let gp2 = sp_p2(
                        gm,
                        gsq,
                        vi as int,
                        dv as int,
                        ji as int,
                        di as int,
                        djdel as int,
                        dd3 as int,
                        dd5 as int,
                    );
                    lemma_rt_mul_congr(p1@, gp1, l_deld@, l_deld@);
                    lemma_rt_mul_wf(p1@, l_deld@);
                    lemma_rt_eq_trans(p2@, rt_mul(p1@, l_deld@), gp2);
                }
                if q_lt(&p2, min) {
                    proof {
                        let gm = old(self).marginals;
                        let gsq = *sequence;
                        let gp2 = sp_p2(
                            gm,
                            gsq,
                            vi as int,
                            dv as int,
                            ji as int,
                            di as int,
                            djdel as int,
                            dd3 as int,
                            dd5 as int,
                        );
                        lemma_rt_lt_congr(p2@, gp2, min@, min@);
                        assert(!sp_survives(
                            gm,
                            gsq,
                            min@,
                            vi as int,
                            dv as int,
                            ji as int,
                            di as int,
                            djdel as int,
                            dd3 as int,
                            dd5 as int,
                        ));
                        assert(combo_step(
                            gm,
                            gsq,
                            min@,
                            self.dirty_marginals,
                            self.dirty_marginals,
                            vi as int,
                            dv as int,
                            ji as int,
                            di as int,
                            djdel as int,
                            dd3 as int,
                            dd5 as int,
                        ));
                        lemma_folded_extend(
                            deld5_step(
                                gm,
                                gsq,
                                min@,
                                vi as int,
                                dv as int,
                                ji as int,
                                di as int,
                                djdel as int,
                                dd3 as int,
                            ),
                            at3,
                            self.dirty_marginals,
                            self.dirty_marginals,
                            dd5 as int,
                        );
                    }
                    dd5 += 1;
                    continue;
                }
                let (insvd, insdj) = sequence.get_insertions_vd_dj(
                    &sequence.v_genes[vi],
                    dv,
                    &sequence.d_genes[di],
                    dd3,
                    dd5,
                    &sequence.j_genes[ji],
                    djdel,
                );
                proof {
                    assert(insvd@.len() <= sequence.seq@.len());
                    assert(insdj@.len() <= sequence.seq@.len());
                }
                let l_nb_vd = self.likelihood_nb_ins_vd(&insvd);
                let l_nb_dj = self.likelihood_nb_ins_dj(&insdj);
                let p3a = match q_mul(&p2, &l_nb_vd) {
                    Some(q) => q,
                    None => {
                        return Err(EmError::Overflow);
                    },
                };
                let p3 = match q_mul(&p3a, &l_nb_dj) {
                    Some(q) => q,
                    None => {
                        return Err(EmError::Overflow);
                    },
                };
                proof {
                    let gm = old(self).marginals;
                    let gsq = *sequence;
                    let gp2 = sp_p2(
                        gm,
                        gsq,
                        vi as int,
                        dv as int,
                        ji as int,
                        di as int,
                        djdel as int,
                        dd3 as int,
                        dd5 as int,
                    );
                    let givd = sp_insvd_of(gsq, vi as int, dv as int, di as int, dd5 as int);
                    let gidj = sp_insdj_of(gsq, di as int, dd3 as int, ji as int, djdel as int);
                    assert(insvd@ == givd);
                    assert(insdj@ == gidj);
                    let evd = gm.insvd@[givd.len() as int]@;
                    let edj = gm.insdj@[gidj.len() as int]@;
                    assert((gm.insvd@[givd.len() as int]).wf());
                    assert((gm.insdj@[gidj.len() as int]).wf());
                    lemma_rt_mul_congr(p2@, gp2, l_nb_vd@, l_nb_vd@);
                    lemma_rt_mul_wf(p2@, l_nb_vd@);
                    lemma_rt_mul_wf(gp2, evd);
                    lemma_rt_eq_trans(p3a@, rt_mul(p2@, l_nb_vd@), rt_mul(gp2, evd));
                    lemma_rt_mul_congr(p3a@, rt_mul(gp2, evd), l_nb_dj@, l_nb_dj@);
                    lemma_rt_mul_wf(p3a@, l_nb_dj@);
                    lemma_rt_mul_wf(rt_mul(gp2, evd), edj);
                    lemma_rt_eq_trans(
                        p3@,
                        rt_mul(p3a@, l_nb_dj@),
                        rt_mul(rt_mul(gp2, evd), edj),
                    );
                    assert(rt_mul(rt_mul(gp2, evd), edj) == sp_p3(
                        gm,
                        gsq,
                        vi as int,
                        dv as int,
                        ji as int,
                        di as int,
                        djdel as int,
                        dd3 as int,
                        dd5 as int,
                    ));
                }
                if q_lt(&p3, min) {
                    proof {
                        let gm = old(self).marginals;
                        let gsq = *sequence;
                        let gp3 = sp_p3(
                            gm,
                            gsq,
                            vi as int,
                            dv as int,
                            ji as int,
                            di as int,
                            djdel as int,
                            dd3 as int,
                            dd5 as int,
                        );
                        lemma_rt_lt_congr(p3@, gp3, min@, min@);
                        assert(!sp_survives(
                            gm,
                            gsq,
                            min@,
                            vi as int,
                            dv as int,
                            ji as int,
                            di as int,
                            djdel as int,
                            dd3 as int,
                            dd5 as int,
                        ));
                        assert(combo_step(
                            gm,
                            gsq,
                            min@,
                            self.dirty_marginals,
                            self.dirty_marginals,
                            vi as int,
                            dv as int,
                            ji as int,
                            di as int,
                            djdel as int,
                            dd3 as int,
                            dd5 as int,
                        ));
                        lemma_folded_extend(
                            deld5_step(
                                gm,
                                gsq,
                                min@,
                                vi as int,
                                dv as int,
                                ji as int,
                                di as int,
                                djdel as int,
                                dd3 as int,
                            ),
                            at3,
                            self.dirty_marginals,
                            self.dirty_marginals,
                            dd5 as int,
                        );
                    }
                    dd5 += 1;
                    continue;
                }
                let l_ins_vd = match self.likelihood_ins_vd(&insvd) {
                    Some(q) => q,
                    None => {
                        return Err(EmError::Overflow);
                    },
                };
                let l_ins_dj = match self.likelihood_ins_dj(&insdj) {
                    Some(q) => q,
                    None => {
                        return Err(EmError::Overflow);
                    },
                };
                let p4 = match q_mul(&p3, &l_ins_vd) {
                    Some(q) => q,
                    None => {
                        return Err(EmError::Overflow);
                    },
                };
                let l_total = match q_mul(&p4, &l_ins_dj) {
                    Some(q) => q,
                    None => {
                        return Err(EmError::Overflow);
                    },
                };
                proof {
                    let gm = old(self).marginals;
                    let gsq = *sequence;
                    let gp2 = sp_p2(
                        gm,
                        gsq,
                        vi as int,
                        dv as int,
                        ji as int,
                        di as int,
                        djdel as int,
                        dd3 as int,
                        dd5 as int,
                    );
                    let gp3 = sp_p3(
                        gm,
                        gsq,
                        vi as int,
                        dv as int,
                        ji as int,
                        di as int,
                        djdel as int,
                        dd3 as int,
                        dd5 as int,
                    );
                    let givd = sp_insvd_of(gsq, vi as int, dv as int, di as int, dd5 as int);
                    let gidj = sp_insdj_of(gsq, di as int, dd3 as int, ji as int, djdel as int);
                    let mvd = sp_markov(qs(gm.first_nt_bias_vd@), gm.markov_coefficients_vd, givd);
                    let mdj = sp_markov(qs(gm.first_nt_bias_dj@), gm.markov_coefficients_dj, gidj);
                    assert(bases_wf(givd) && bases_wf(gidj)) by {
                        assert(bases_wf(insvd@) && bases_wf(insdj@));
                    }
                    lemma_qs_rts_wf(gm.first_nt_bias_vd@);
                    lemma_qs_rts_wf(gm.first_nt_bias_dj@);
                    crate::markov::lemma_sp_markov_wf(
                        qs(gm.first_nt_bias_vd@),
                        gm.markov_coefficients_vd,
                        givd,
                    );
                    crate::markov::lemma_sp_markov_wf(
                        qs(gm.first_nt_bias_dj@),
                        gm.markov_coefficients_dj,
                        gidj,
                    );
                    lemma_rt_mul_congr(p3@, gp3, l_ins_vd@, mvd);
                    lemma_rt_mul_wf(p3@, l_ins_vd@);
                    lemma_rt_mul_wf(gp3, mvd);
                    lemma_rt_eq_trans(p4@, rt_mul(p3@, l_ins_vd@), rt_mul(gp3, mvd));
                    lemma_rt_mul_congr(p4@, rt_mul(gp3, mvd), l_ins_dj@, mdj);
                    lemma_rt_mul_wf(p4@, l_ins_dj@);
                    lemma_rt_mul_wf(rt_mul(gp3, mvd), mdj);
                    lemma_rt_eq_trans(
                        l_total@,
                        rt_mul(p4@, l_ins_dj@),
                        rt_mul(rt_mul(gp3, mvd), mdj),
                    );
                    assert(rt_mul(rt_mul(gp3, mvd), mdj) == sp_weight(
                        gm,
                        gsq,
                        vi as int,
                        dv as int,
                        ji as int,
                        di as int,
                        djdel as int,
                        dd3 as int,
                        dd5 as int,
                    ));
                    lemma_rt_lt_congr(p2@, gp2, min@, min@);
                    lemma_rt_lt_congr(p3@, gp3, min@, min@);
                    assert(sp_survives(
                        gm,
                        gsq,
                        min@,
                        vi as int,
                        dv as int,
                        ji as int,
                        di as int,
                        djdel as int,
                        dd3 as int,
                        dd5 as int,
                    ));
                }
                let ghost dirty_before = self.dirty_marginals;
                match self.dirty_update(
                    v_index,
                    d_index,
                    j_index,
                    dv,
                    djdel,
                    dd3,
                    dd5,
                    &insvd,
                    &insdj,
                    l_total,
                ) {
                    Ok(()) => proof {
                        lemma_features_ge_trans(
                            old(self).dirty_marginals,
                            dirty_before,
                            self.dirty_marginals,
                        );
                        let gm = old(self).marginals;
                        let gsq = *sequence;
                        assert(rt_wf(l_total@));
                        assert(combo_step(
                            gm,
                            gsq,
                            min@,
                            dirty_before,
                            self.dirty_marginals,
                            vi as int,
                            dv as int,
                            ji as int,
                            di as int,
                            djdel as int,
                            dd3 as int,
                            dd5 as int,
                        ));
                        lemma_folded_extend(
                            deld5_step(
                                gm,
                                gsq,
                                min@,
                                vi as int,
                                dv as int,
                                ji as int,
                                di as int,
                                djdel as int,
                                dd3 as int,
                            ),
                            at3,
                            dirty_before,
                            self.dirty_marginals,
                            dd5 as int,
                        );
                    },
                    Err(e) => {
                        return Err(e);
                    },
                }
                dd5 += 1;
            }
            proof {
                lemma_folded_extend(
                    deld3_step(
                        old(self).marginals,
                        *sequence,
                        min@,
                        vi as int,
                        dv as int,
                        ji as int,
                        di as int,
                        djdel as int,
                    ),
                    old(self).dirty_marginals,
                    at3,
                    self.dirty_marginals,
                    dd3 as int,
                );
            }
            dd3 += 1;
        }
        Ok(())
    }

    /// Normalize the accumulator and install the result as the new current
    /// model; the accumulator itself is left as it was.
    pub fn expectation_step(&mut self) -> (r: Result<(), EmError>)
        requires
            old(self).wf(),
        ensures
            final(self).wf(),
            final(self).dirty_marginals == old(self).dirty_marginals,
            final(self).marginals.same_shape(old(self).marginals),
            r matches Err(e) ==> e == EmError::Overflow && *final(self) == *old(self),
            r is Ok ==> features_normalized_of(
                final(self).marginals,
                old(self).dirty_marginals,
            ),
            features_normalizable(old(self).dirty_marginals) ==> r is Ok,
    {
        let f = match self.dirty_marginals.normalize() {
            Ok(f) => f,
            Err(e) => {
                return Err(EmError::Overflow);
            },
        };
        self.marginals = f;
        Ok(())
    }

    /// One maximization pass: reset the accumulator, then accumulate every
    /// sequence's surviving combinations into it.
    pub fn maximization_step(
        &mut self,
        sequences: &Vec<SequenceVDJ>,
        inference_params: &InferenceParams,
    ) -> (r: Result<(), EmError>)
        requires
            old(self).wf(),
            inference_params.min_likelihood.wf(),
            forall|i: int|
                0 <= i < sequences@.len() ==> compatible_with(
                    #[trigger] sequences@[i],
                    old(self).marginals,
                ),
        ensures
            final(self).wf(),
            final(self).marginals == old(self).marginals,
            final(self).dirty_marginals.same_shape(old(self).dirty_marginals),
            r matches Err(e) ==> e == EmError::Overflow,
            sequences@.len() == 0 ==> r is Ok && final(self).dirty_marginals.all_zero()
                && final(self).dirty_marginals.same_shape(old(self).marginals),
            r is Ok ==> exists|z: FeaturesVDJ|
                z.wf() && #[trigger] z.all_zero() && z.same_shape(old(self).marginals)
                    && corpus_accumulated(
                    old(self).marginals,
                    sequences@,
                    inference_params.min_likelihood@,
                    z,
                    final(self).dirty_marginals,
                ),
    {
        self.dirty_marginals = FeaturesVDJ::zeros_like(&self.marginals);
        let ghost z0 = self.dirty_marginals;
        let ghost gm = old(self).marginals;
        proof {
            lemma_folded_base(
                corpus_step(gm, sequences@, inference_params.min_likelihood@),
                self.dirty_marginals,
            );
        }
        let mut i: usize = 0;
        while i < sequences.len()
            invariant
                self.wf(),
                self.marginals == old(self).marginals,
                self.dirty_marginals.same_shape(old(self).dirty_marginals),
                inference_params.min_likelihood.wf(),
                i <= sequences@.len(),
                forall|k: int|
                    0 <= k < sequences@.len() ==> compatible_with(
                        #[trigger] sequences@[k],
                        old(self).marginals,
                    ),
                gm == old(self).marginals,
                z0.wf(),
                z0.all_zero(),
                z0.same_shape(old(self).marginals),
                folded(
                    corpus_step(gm, sequences@, inference_params.min_likelihood@),
                    z0,
                    self.dirty_marginals,
                    i as int,
                ),
            decreases sequences@.len() - i,
        {
            let ghost before = self.dirty_marginals;
            match self.update_marginals(&sequences[i], inference_params) {
                Ok(()) => proof {
                    assert(corpus_step(gm, sequences@, inference_params.min_likelihood@)(
                        before,
                        self.dirty_marginals,
                        i as int,
                    ));
                    lemma_folded_extend(
                        corpus_step(gm, sequences@, inference_params.min_likelihood@),
                        z0,
                        before,
                        self.dirty_marginals,
                        i as int,
                    );
                },
                Err(e) => {
                    return Err(e);
                },
            }
            i += 1;
        }
        Ok(())
    }

    /// The round-based EM loop: a maximization pass over the corpus, then an
    /// expectation step, for exactly the configured number of rounds. With
    /// zero rounds the engine is left exactly as constructed.
    pub fn expectation_maximization(
        &mut self,
        sequences: &Vec<SequenceVDJ>,
        inference_params: &InferenceParams,
    ) -> (r: Result<(), EmError>)
        requires
            old(self).wf(),
            inference_params.min_likelihood.wf(),
            forall|i: int|
                0 <= i < sequences@.len() ==> compatible_with(
                    #[trigger] sequences@[i],
                    old(self).marginals,
                ),
        ensures
            final(self).wf(),
            final(self).marginals.same_shape(old(self).marginals),
            inference_params.nb_rounds_em == 0 ==> r is Ok && *final(self) == *old(self),
            r matches Err(e) ==> e == EmError::Overflow,
            r is Ok && inference_params.nb_rounds_em >= 1 ==> features_normalized_of(
                final(self).marginals,
                final(self).dirty_marginals,
            ),
            r is Ok ==> em_rounds_done(
                sequences@,
                inference_params.min_likelihood@,
                *old(self),
                *final(self),
                inference_params.nb_rounds_em as int,
            ),
            sequences@.len() == 0 && (old(self).marginals.dj.width == 0
                || old(self).marginals.dj.nslices() <= 1) ==> r is Ok,
    {
        proof {
            lemma_em_rounds_base(sequences@, inference_params.min_likelihood@, *self);
        }
        let mut round: usize = 0;
        while round < inference_params.nb_rounds_em
            invariant
                self.wf(),
                self.marginals.same_shape(old(self).marginals),
                inference_params.min_likelihood.wf(),
                round <= inference_params.nb_rounds_em,
                round == 0 ==> *self == *old(self),
                forall|i: int|
                    0 <= i < sequences@.len() ==> compatible_with(
                        #[trigger] sequences@[i],
                        old(self).marginals,
                    ),
                round >= 1 ==> features_normalized_of(self.marginals, self.dirty_marginals),
                em_rounds_done(
                    sequences@,
                    inference_params.min_likelihood@,
                    *old(self),
                    *self,
                    round as int,
                ),
            decreases inference_params.nb_rounds_em - round,
        {
            proof {
                assert forall|i: int| 0 <= i < sequences@.len() implies compatible_with(
                    #[trigger] sequences@[i],
                    self.marginals,
                ) by {
                    assert(compatible_with(sequences@[i], old(self).marginals));
                }
            }
            let ghost before = *self;
            match self.maximization_step(sequences, inference_params) {
                Ok(()) => (),
                Err(e) => {
                    return Err(e);
                },
            }
            proof {
                if sequences@.len() == 0 && (old(self).marginals.dj.width == 0
                    || old(self).marginals.dj.nslices() <= 1) {
                    lemma_zeros_normalizable(self.dirty_marginals);
                }
            }
            match self.expectation_step() {
                Ok(()) => (),
                Err(e) => {
                    return Err(e);
                },
            }
            proof {
                assert(em_round(
                    sequences@,
                    inference_params.min_likelihood@,
                    before,
                    *self,
                ));
                lemma_em_rounds_extend(
                    sequences@,
                    inference_params.min_likelihood@,
                    *old(self),
                    before,
                    *self,
                    round as int,
                );
            }
            round += 1;
        }
        Ok(())
    }
}

/// Every entry of `a` is at least the corresponding entry of `b`: an
/// accumulator only ever grows during a maximization pass.
pub open spec fn features_ge(a: FeaturesVDJ, b: FeaturesVDJ) -> bool {
    &&& a.same_shape(b)
    &&& forall|k: int|
        0 <= k < a.v@.len() ==> rt_le(b.v@[k]@, (#[trigger] a.v@[k])@)
    &&& forall|s: int, k: int|
        0 <= s < a.dj.nslices() && 0 <= k < a.dj.width ==> rt_le(b.dj.at(s, k), a.dj.at(s, k))
    &&& forall|s: int, k: int|
        0 <= s < a.delv.nslices() && 0 <= k < a.delv.width ==> rt_le(
            b.delv.at(s, k),
            a.delv.at(s, k),
        )
    &&& forall|s: int, k: int|
        0 <= s < a.delj.nslices() && 0 <= k < a.delj.width ==> rt_le(
            b.delj.at(s, k),
            a.delj.at(s, k),
        )
    &&& forall|s: int, k: int|
        0 <= s < a.deld.nslices() && 0 <= k < a.deld.width ==> rt_le(
            b.deld.at(s, k),
            a.deld.at(s, k),
        )
    &&& forall|k: int|
        0 <= k < a.insvd@.len() ==> rt_le(b.insvd@[k]@, (#[trigger] a.insvd@[k])@)
    &&& forall|k: int|
        0 <= k < a.insdj@.len() ==> rt_le(b.insdj@[k]@, (#[trigger] a.insdj@[k])@)
    &&& forall|k: int|
        0 <= k < 4 ==> rt_le(b.first_nt_bias_vd@[k]@, (#[trigger] a.first_nt_bias_vd@[k])@)
    &&& forall|s: int, k: int|
        0 <= s < 4 && 0 <= k < 4 ==> rt_le(
            b.markov_coefficients_vd.at(s, k),
            a.markov_coefficients_vd.at(s, k),
        )
    &&& forall|k: int|
        0 <= k < 4 ==> rt_le(b.first_nt_bias_dj@[k]@, (#[trigger] a.first_nt_bias_dj@[k])@)
    &&& forall|s: int, k: int|
        0 <= s < 4 && 0 <= k < 4 ==> rt_le(
            b.markov_coefficients_dj.at(s, k),
            a.markov_coefficients_dj.at(s, k),
        )
}

pub proof fn lemma_features_ge_refl(a: FeaturesVDJ)
    ensures
        features_ge(a, a),
{
}

pub proof fn lemma_features_ge_trans(a: FeaturesVDJ, b: FeaturesVDJ, c: FeaturesVDJ)
    requires
        a.wf(),
        b.wf(),
        c.wf(),
        features_ge(c, b),
        features_ge(b, a),
    ensures
        features_ge(c, a),
{
    assert forall|k: int| 0 <= k < c.v@.len() implies rt_le(a.v@[k]@, (#[trigger] c.v@[k])@) by {
        lemma_rt_le_trans(a.v@[k]@, b.v@[k]@, c.v@[k]@);
    }
    assert forall|s: int, k: int|
        0 <= s < c.dj.nslices() && 0 <= k < c.dj.width implies rt_le(
        a.dj.at(s, k),
        c.dj.at(s, k),
    ) by {
        lemma_rt_le_trans(a.dj.at(s, k), b.dj.at(s, k), c.dj.at(s, k));
    }
    assert forall|s: int, k: int|
        0 <= s < c.delv.nslices() && 0 <= k < c.delv.width implies rt_le(
        a.delv.at(s, k),
        c.delv.at(s, k),
    ) by {
        lemma_rt_le_trans(a.delv.at(s, k), b.delv.at(s, k), c.delv.at(s, k));
    }
    assert forall|s: int, k: int|
        0 <= s < c.delj.nslices() && 0 <= k < c.delj.width implies rt_le(
        a.delj.at(s, k),
        c.delj.at(s, k),
    ) by {
        lemma_rt_le_trans(a.delj.at(s, k), b.delj.at(s, k), c.delj.at(s, k));
    }
    assert forall|s: int, k: int|
        0 <= s < c.deld.nslices() && 0 <= k < c.deld.width implies rt_le(
        a.deld.at(s, k),
        c.deld.at(s, k),
    ) by {
        lemma_rt_le_trans(a.deld.at(s, k), b.deld.at(s, k), c.deld.at(s, k));
    }
    assert forall|k: int|
        0 <= k < c.insvd@.len() implies rt_le(a.insvd@[k]@, (#[trigger] c.insvd@[k])@) by {
        lemma_rt_le_trans(a.insvd@[k]@, b.insvd@[k]@, c.insvd@[k]@);
    }
    assert forall|k: int|
        0 <= k < c.insdj@.len() implies rt_le(a.insdj@[k]@, (#[trigger] c.insdj@[k])@) by {
        lemma_rt_le_trans(a.insdj@[k]@, b.insdj@[k]@, c.insdj@[k]@);
    }
    assert forall|k: int|
        0 <= k < 4 implies rt_le(a.first_nt_bias_vd@[k]@, (#[trigger] c.first_nt_bias_vd@[k])@) by {
        lemma_rt_le_trans(a.first_nt_bias_vd@[k]@, b.first_nt_bias_vd@[k]@, c.first_nt_bias_vd@[k]@);
    }
    assert forall|s: int, k: int|
        0 <= s < 4 && 0 <= k < 4 implies rt_le(
        a.markov_coefficients_vd.at(s, k),
        c.markov_coefficients_vd.at(s, k),
    ) by {
        lemma_rt_le_trans(
            a.markov_coefficients_vd.at(s, k),
            b.markov_coefficients_vd.at(s, k),
            c.markov_coefficients_vd.at(s, k),
        );
    }
    assert forall|k: int|
        0 <= k < 4 implies rt_le(a.first_nt_bias_dj@[k]@, (#[trigger] c.first_nt_bias_dj@[k])@) by {
        lemma_rt_le_trans(a.first_nt_bias_dj@[k]@, b.first_nt_bias_dj@[k]@, c.first_nt_bias_dj@[k]@);
    }
    assert forall|s: int, k: int|
        0 <= s < 4 && 0 <= k < 4 implies rt_le(
        a.markov_coefficients_dj.at(s, k),
        c.markov_coefficients_dj.at(s, k),
    ) by {
        lemma_rt_le_trans(
            a.markov_coefficients_dj.at(s, k),
            b.markov_coefficients_dj.at(s, k),
            c.markov_coefficients_dj.at(s, k),
        );
    }
}

/// Accumulating one weighted event only grows the accumulator.
pub proof fn lemma_accumulate_grows(
    nw: FeaturesVDJ,
    base: FeaturesVDJ,
    v: int,
    d: int,
    j: int,
    delv: int,
    delj: int,
    deld3: int,
    deld5: int,
    insvd: Seq<u8>,
    insdj: Seq<u8>,
    w: Rt,
)
    requires
        nw.wf(),
        base.wf(),
        nw.same_shape(base),
        rt_wf(w),
        accumulated_of(nw, base, v, d, j, delv, delj, deld3, deld5, insvd, insdj, w),
    ensures
        features_ge(nw, base),
{
    assert forall|k: int| 0 <= k < nw.v@.len() implies rt_le(base.v@[k]@, (#[trigger] nw.v@[k])@) by {
        crate::rat::lemma_rt_grow(base.v@[k]@, nw.v@[k]@, w, ind(k == v));
    }
    assert forall|s: int, k: int|
        0 <= s < nw.dj.nslices() && 0 <= k < nw.dj.width implies rt_le(
        base.dj.at(s, k),
        nw.dj.at(s, k),
    ) by {
        crate::rat::lemma_rt_grow(base.dj.at(s, k), nw.dj.at(s, k), w, ind(s == d && k == j));
    }
    assert forall|s: int, k: int|
        0 <= s < nw.delv.nslices() && 0 <= k < nw.delv.width implies rt_le(
        base.delv.at(s, k),
        nw.delv.at(s, k),
    ) by {
        crate::rat::lemma_rt_grow(
            base.delv.at(s, k),
            nw.delv.at(s, k),
            w,
            ind(s == v && k == delv),
        );
    }
    assert forall|s: int, k: int|
        0 <= s < nw.delj.nslices() && 0 <= k < nw.delj.width implies rt_le(
        base.delj.at(s, k),
        nw.delj.at(s, k),
    ) by {
        crate::rat::lemma_rt_grow(
            base.delj.at(s, k),
            nw.delj.at(s, k),
            w,
            ind(s == j && k == delj),
        );
    }
    assert forall|s: int, k: int|
        0 <= s < nw.deld.nslices() && 0 <= k < nw.deld.width implies rt_le(
        base.deld.at(s, k),
        nw.deld.at(s, k),
    ) by {
        crate::rat::lemma_rt_grow(
            base.deld.at(s, k),
            nw.deld.at(s, k),
            w,
            ind(s == d && k == deld3 * base.n_deld5 + deld5),
        );
    }
    assert forall|k: int|
        0 <= k < nw.insvd@.len() implies rt_le(base.insvd@[k]@, (#[trigger] nw.insvd@[k])@) by {
        crate::rat::lemma_rt_grow(base.insvd@[k]@, nw.insvd@[k]@, w, ind(k == insvd.len()));
    }
    assert forall|k: int|
        0 <= k < nw.insdj@.len() implies rt_le(base.insdj@[k]@, (#[trigger] nw.insdj@[k])@) by {
        crate::rat::lemma_rt_grow(base.insdj@[k]@, nw.insdj@[k]@, w, ind(k == insdj.len()));
    }
    assert forall|k: int|
        0 <= k < 4 implies rt_le(
        base.first_nt_bias_vd@[k]@,
        (#[trigger] nw.first_nt_bias_vd@[k])@,
    ) by {
        let b = k as u8;
        assert(b < 4 && b as int == k);
        crate::rat::lemma_rt_grow(
            base.first_nt_bias_vd@[k]@,
            nw.first_nt_bias_vd@[k]@,
            w,
            first_count(insvd, b),
        );
    }
    assert forall|s: int, k: int|
        0 <= s < 4 && 0 <= k < 4 implies rt_le(
        base.markov_coefficients_vd.at(s, k),
        nw.markov_coefficients_vd.at(s, k),
    ) by {
        let x = s as u8;
        let y = k as u8;
        crate::markov::lemma_pair_count_nonneg(insvd, x, y);
        crate::rat::lemma_rt_grow(
            base.markov_coefficients_vd.at(s, k),
            nw.markov_coefficients_vd.at(s, k),
            w,
            pair_count(insvd, x, y),
        );
    }
    assert forall|k: int|
        0 <= k < 4 implies rt_le(
        base.first_nt_bias_dj@[k]@,
        (#[trigger] nw.first_nt_bias_dj@[k])@,
    ) by {
        let b = k as u8;
        crate::rat::lemma_rt_grow(
            base.first_nt_bias_dj@[k]@,
            nw.first_nt_bias_dj@[k]@,
            w,
            first_count(insdj, b),
        );
    }
    assert forall|s: int, k: int|
        0 <= s < 4 && 0 <= k < 4 implies rt_le(
        base.markov_coefficients_dj.at(s, k),
        nw.markov_coefficients_dj.at(s, k),
    ) by {
        let x = s as u8;
        let y = k as u8;
        crate::markov::lemma_pair_count_nonneg(insdj, x, y);
        crate::rat::lemma_rt_grow(
            base.markov_coefficients_dj.at(s, k),
            nw.markov_coefficients_dj.at(s, k),
            w,
            pair_count(insdj, x, y),
        );
    }
}


/// The product of the four cheap likelihood factors of one combination:
/// P(v) P(delv|v) P(d,j) P(delj|j), with indices drawn from the sequence's
/// alignment lists.
pub open spec fn sp_p1(
    m: FeaturesVDJ,
    sq: SequenceVDJ,
    vi: int,
    dv: int,
    ji: int,
    di: int,
    djdel: int,
) -> Rt {
    rt_mul(
        rt_mul(
            rt_mul(
                m.v@[sq.v_genes@[vi].index as int]@,
                m.delv.at(sq.v_genes@[vi].index as int, dv),
            ),
            m.dj.at(sq.d_genes@[di].index as int, sq.j_genes@[ji].index as int),
        ),
        m.delj.at(sq.j_genes@[ji].index as int, djdel),
    )
}

/// The running product after folding in the deletion-pair factor.
pub open spec fn sp_p2(
    m: FeaturesVDJ,
    sq: SequenceVDJ,
    vi: int,
    dv: int,
    ji: int,
    di: int,
    djdel: int,
    dd3: int,
    dd5: int,
) -> Rt {
    rt_mul(
        sp_p1(m, sq, vi, dv, ji, di, djdel),
        m.deld.at(sq.d_genes@[di].index as int, dd3 * m.n_deld5 + dd5),
    )
}

/// The V-D junction insertion implied by one combination.
pub open spec fn sp_insvd_of(sq: SequenceVDJ, vi: int, dv: int, di: int, dd5: int) -> Seq<u8> {
    crate::sequence::sp_ins_vd(sq.seq@, sq.v_genes@[vi], dv, sq.d_genes@[di], dd5)
}

/// The D-J junction insertion implied by one combination.
pub open spec fn sp_insdj_of(sq: SequenceVDJ, di: int, dd3: int, ji: int, djdel: int) -> Seq<u8> {
    crate::sequence::sp_ins_dj(sq.seq@, sq.d_genes@[di], dd3, sq.j_genes@[ji], djdel)
}

/// The running product after folding in the two insertion-length factors.
pub open spec fn sp_p3(
    m: FeaturesVDJ,
    sq: SequenceVDJ,
    vi: int,
    dv: int,
    ji: int,
    di: int,
    djdel: int,
    dd3: int,
    dd5: int,
) -> Rt {
    rt_mul(
        rt_mul(
            sp_p2(m, sq, vi, dv, ji, di, djdel, dd3, dd5),
            m.insvd@[sp_insvd_of(sq, vi, dv, di, dd5).len() as int]@,
        ),
        m.insdj@[sp_insdj_of(sq, di, dd3, ji, djdel).len() as int]@,
    )
}

/// The full likelihood of one combination: the three pruned partial
/// products times the Markov composition likelihood of both junctions,
/// each factor exactly once.
pub open spec fn sp_weight(
    m: FeaturesVDJ,
    sq: SequenceVDJ,
    vi: int,
    dv: int,
    ji: int,
    di: int,
    djdel: int,
    dd3: int,
    dd5: int,
) -> Rt {
    rt_mul(
        rt_mul(
            sp_p3(m, sq, vi, dv, ji, di, djdel, dd3, dd5),
            sp_markov(
                qs(m.first_nt_bias_vd@),
                m.markov_coefficients_vd,
                sp_insvd_of(sq, vi, dv, di, dd5),
            ),
        ),
        sp_markov(
            qs(m.first_nt_bias_dj@),
            m.markov_coefficients_dj,
            sp_insdj_of(sq, di, dd3, ji, djdel),
        ),
    )
}

/// A combination survives pruning when each of the three partial products
/// reaches the threshold, in the order the checks are made: the four cheap
/// factors, then the deletion-pair factor, then the insertion lengths.
pub open spec fn sp_survives(
    m: FeaturesVDJ,
    sq: SequenceVDJ,
    min: Rt,
    vi: int,
    dv: int,
    ji: int,
    di: int,
    djdel: int,
    dd3: int,
    dd5: int,
) -> bool {
    &&& !rt_lt(sp_p1(m, sq, vi, dv, ji, di, djdel), min)
    &&& !rt_lt(sp_p2(m, sq, vi, dv, ji, di, djdel, dd3, dd5), min)
    &&& !rt_lt(sp_p3(m, sq, vi, dv, ji, di, djdel, dd3, dd5), min)
}

/// One combination's effect on the accumulator: a surviving combination
/// contributes its full likelihood through `accumulated_of`; a pruned one
/// leaves the accumulator untouched.
pub open spec fn combo_step(
    m: FeaturesVDJ,
    sq: SequenceVDJ,
    min: Rt,
    s0: FeaturesVDJ,
    s1: FeaturesVDJ,
    vi: int,
    dv: int,
    ji: int,
    di: int,
    djdel: int,
    dd3: int,
    dd5: int,
) -> bool {
    if sp_survives(m, sq, min, vi, dv, ji, di, djdel, dd3, dd5) {
        exists|w: Rt|
            #[trigger] rt_wf(w) && rt_eq(w, sp_weight(m, sq, vi, dv, ji, di, djdel, dd3, dd5))
                && accumulated_of(
                s1,
                s0,
                sq.v_genes@[vi].index as int,
                sq.d_genes@[di].index as int,
                sq.j_genes@[ji].index as int,
                dv,
                djdel,
                dd3,
                dd5,
                sp_insvd_of(sq, vi, dv, di, dd5),
                sp_insdj_of(sq, di, dd3, ji, djdel),
                w,
            )
    } else {
        s1 == s0
    }
}

/// Every adjacent pair of the trace is one step.
pub open spec fn chain_ok(
    step: spec_fn(FeaturesVDJ, FeaturesVDJ, int) -> bool,
    tr: Seq<FeaturesVDJ>,
) -> bool {
    forall|k: int| 0 <= k < tr.len() - 1 ==> #[trigger] step(tr[k], tr[k + 1], k)
}

/// `s1` is reached from `s0` by the steps `0 .. n` of `step`, in order:
/// there is a trace of intermediate accumulator states joined by `step`.
pub open spec fn folded(
    step: spec_fn(FeaturesVDJ, FeaturesVDJ, int) -> bool,
    s0: FeaturesVDJ,
    s1: FeaturesVDJ,
    n: int,
) -> bool {
    exists|tr: Seq<FeaturesVDJ>|
        tr.len() == n + 1 && 0 <= n && tr[0] == s0 && tr[n] == s1 && #[trigger] chain_ok(
            step,
            tr,
        )
}

proof fn lemma_folded_base(step: spec_fn(FeaturesVDJ, FeaturesVDJ, int) -> bool, s: FeaturesVDJ)
    ensures
        folded(step, s, s, 0),
{
    let tr = seq![s];
    assert(chain_ok(step, tr));
}

proof fn lemma_folded_extend(
    step: spec_fn(FeaturesVDJ, FeaturesVDJ, int) -> bool,
    s0: FeaturesVDJ,
    s1: FeaturesVDJ,
    s2: FeaturesVDJ,
    n: int,
)
    requires
        folded(step, s0, s1, n),
        step(s1, s2, n),
    ensures
        folded(step, s0, s2, n + 1),
{
    let tr = choose|tr: Seq<FeaturesVDJ>|
        tr.len() == n + 1 && 0 <= n && tr[0] == s0 && tr[n] == s1 && #[trigger] chain_ok(
            step,
            tr,
        );
    let tr2 = tr.push(s2);
    assert forall|k: int| 0 <= k < tr2.len() - 1 implies #[trigger] step(tr2[k], tr2[k + 1], k) by {
        if k < n {
            assert(tr2[k] == tr[k] && tr2[k + 1] == tr[k + 1]);
            assert(step(tr[k], tr[k + 1], k));
        } else {
            assert(tr2[k] == s1 && tr2[k + 1] == s2);
        }
    }
    assert(tr2.len() == n + 2 && tr2[0] == s0 && tr2[n + 1] == s2 && chain_ok(step, tr2));
}

/// A run of steps that all leave the state untouched folds to no change.
proof fn lemma_folded_stutter(
    step: spec_fn(FeaturesVDJ, FeaturesVDJ, int) -> bool,
    s: FeaturesVDJ,
    n: int,
)
    requires
        n >= 0,
        forall|k: int| 0 <= k < n ==> #[trigger] step(s, s, k),
    ensures
        folded(step, s, s, n),
    decreases n,
{
    if n == 0 {
        lemma_folded_base(step, s);
    } else {
        lemma_folded_stutter(step, s, n - 1);
        lemma_folded_extend(step, s, s, s, n - 1);
    }
}

/// One D-5' deletion step for fixed outer choices.
pub open spec fn deld5_step(
    m: FeaturesVDJ,
    sq: SequenceVDJ,
    min: Rt,
    vi: int,
    dv: int,
    ji: int,
    di: int,
    djdel: int,
    dd3: int,
) -> spec_fn(FeaturesVDJ, FeaturesVDJ, int) -> bool {
    |a: FeaturesVDJ, b: FeaturesVDJ, k: int| combo_step(m, sq, min, a, b, vi, dv, ji, di, djdel, dd3, k)
}

/// One D-3' deletion step: its full block of D-5' choices.
pub open spec fn deld3_step(
    m: FeaturesVDJ,
    sq: SequenceVDJ,
    min: Rt,
    vi: int,
    dv: int,
    ji: int,
    di: int,
    djdel: int,
) -> spec_fn(FeaturesVDJ, FeaturesVDJ, int) -> bool {
    |a: FeaturesVDJ, b: FeaturesVDJ, k: int| folded(
        deld5_step(m, sq, min, vi, dv, ji, di, djdel, k),
        a,
        b,
        m.n_deld5 as int,
    )
}

/// One J-side deletion step: its full deletion-pair block.
pub open spec fn delj_step(
    m: FeaturesVDJ,
    sq: SequenceVDJ,
    min: Rt,
    vi: int,
    dv: int,
    ji: int,
    di: int,
) -> spec_fn(FeaturesVDJ, FeaturesVDJ, int) -> bool {
    |a: FeaturesVDJ, b: FeaturesVDJ, k: int| folded(
        deld3_step(m, sq, min, vi, dv, ji, di, k),
        a,
        b,
        m.n_deld3 as int,
    )
}

/// One D-gene candidate step: all its J-side deletions.
pub open spec fn d_step(
    m: FeaturesVDJ,
    sq: SequenceVDJ,
    min: Rt,
    vi: int,
    dv: int,
    ji: int,
) -> spec_fn(FeaturesVDJ, FeaturesVDJ, int) -> bool {
    |a: FeaturesVDJ, b: FeaturesVDJ, k: int| folded(
        delj_step(m, sq, min, vi, dv, ji, k),
        a,
        b,
        m.delj.width as int,
    )
}

/// One J-gene candidate step: all D-gene candidates.
pub open spec fn j_step(
    m: FeaturesVDJ,
    sq: SequenceVDJ,
    min: Rt,
    vi: int,
    dv: int,
) -> spec_fn(FeaturesVDJ, FeaturesVDJ, int) -> bool {
    |a: FeaturesVDJ, b: FeaturesVDJ, k: int| folded(
        d_step(m, sq, min, vi, dv, k),
        a,
        b,
        sq.d_genes@.len() as int,
    )
}

/// One V-side deletion step: all J-gene candidates.
pub open spec fn delv_step(
    m: FeaturesVDJ,
    sq: SequenceVDJ,
    min: Rt,
    vi: int,
) -> spec_fn(FeaturesVDJ, FeaturesVDJ, int) -> bool {
    |a: FeaturesVDJ, b: FeaturesVDJ, k: int| folded(
        j_step(m, sq, min, vi, k),
        a,
        b,
        sq.j_genes@.len() as int,
    )
}

/// One V-gene candidate step: all its V-side deletions.
pub open spec fn v_step(m: FeaturesVDJ, sq: SequenceVDJ, min: Rt) -> spec_fn(
    FeaturesVDJ,
    FeaturesVDJ,
    int,
) -> bool {
    |a: FeaturesVDJ, b: FeaturesVDJ, k: int| folded(
        delv_step(m, sq, min, k),
        a,
        b,
        m.delv.width as int,
    )
}

/// `s1` is `s0` with one aligned sequence's whole enumeration accumulated:
/// every combination of V candidate x V deletion x J candidate x D
/// candidate x J deletion x deletion pair, in order; each surviving
/// combination contributes its exact likelihood (`combo_step`), each pruned
/// one contributes nothing.
pub open spec fn sequence_accumulated(
    m: FeaturesVDJ,
    sq: SequenceVDJ,
    min: Rt,
    s0: FeaturesVDJ,
    s1: FeaturesVDJ,
) -> bool {
    folded(v_step(m, sq, min), s0, s1, sq.v_genes@.len() as int)
}

/// When the four cheap factors already miss the threshold, every
/// combination of the deletion-pair block is pruned and the accumulator is
/// untouched.
proof fn lemma_deld_block_pruned(
    m: FeaturesVDJ,
    sq: SequenceVDJ,
    min: Rt,
    s: FeaturesVDJ,
    vi: int,
    dv: int,
    ji: int,
    di: int,
    djdel: int,
)
    requires
        rt_lt(sp_p1(m, sq, vi, dv, ji, di, djdel), min),
    ensures
        folded(deld3_step(m, sq, min, vi, dv, ji, di, djdel), s, s, m.n_deld3 as int),
{
    assert forall|k: int| 0 <= k < m.n_deld3 as int implies #[trigger] deld3_step(
        m,
        sq,
        min,
        vi,
        dv,
        ji,
        di,
        djdel,
    )(s, s, k) by {
        assert forall|k5: int| 0 <= k5 < m.n_deld5 as int implies #[trigger] deld5_step(
            m,
            sq,
            min,
            vi,
            dv,
            ji,
            di,
            djdel,
            k,
        )(s, s, k5) by {
            assert(!sp_survives(m, sq, min, vi, dv, ji, di, djdel, k, k5));
            assert(combo_step(m, sq, min, s, s, vi, dv, ji, di, djdel, k, k5));
        }
        lemma_folded_stutter(deld5_step(m, sq, min, vi, dv, ji, di, djdel, k), s, m.n_deld5 as int);
    }
    lemma_folded_stutter(deld3_step(m, sq, min, vi, dv, ji, di, djdel), s, m.n_deld3 as int);
}

/// The spec partial products and junction factors of one in-bounds
/// combination are well-formed rationals, and the insertion windows fit the
/// insertion-length tables.
proof fn lemma_partials_wf(
    m: FeaturesVDJ,
    sq: SequenceVDJ,
    vi: int,
    dv: int,
    ji: int,
    di: int,
    djdel: int,
    dd3: int,
    dd5: int,
)
    requires
        m.wf(),
        compatible_with(sq, m),
        0 <= vi < sq.v_genes@.len(),
        0 <= ji < sq.j_genes@.len(),
        0 <= di < sq.d_genes@.len(),
        0 <= dv < m.delv.width,
        0 <= djdel < m.delj.width,
        0 <= dd3 < m.n_deld3,
        0 <= dd5 < m.n_deld5,
    ensures
        rt_wf(sp_p1(m, sq, vi, dv, ji, di, djdel)),
        rt_wf(sp_p2(m, sq, vi, dv, ji, di, djdel, dd3, dd5)),
        rt_wf(sp_p3(m, sq, vi, dv, ji, di, djdel, dd3, dd5)),
        rt_wf(sp_weight(m, sq, vi, dv, ji, di, djdel, dd3, dd5)),
        sp_insvd_of(sq, vi, dv, di, dd5).len() < m.insvd@.len(),
        sp_insdj_of(sq, di, dd3, ji, djdel).len() < m.insdj@.len(),
{
    let v = sq.v_genes@[vi].index as int;
    let j = sq.j_genes@[ji].index as int;
    let d = sq.d_genes@[di].index as int;
    assert((m.v@[v]).wf());
    assert((m.delv.slices@[v]@[dv]).wf());
    assert((m.dj.slices@[d]@[j]).wf());
    assert((m.delj.slices@[j]@[djdel]).wf());
    lemma_rt_mul_wf(m.v@[v]@, m.delv.at(v, dv));
    lemma_rt_mul_wf(rt_mul(m.v@[v]@, m.delv.at(v, dv)), m.dj.at(d, j));
    lemma_rt_mul_wf(
        rt_mul(rt_mul(m.v@[v]@, m.delv.at(v, dv)), m.dj.at(d, j)),
        m.delj.at(j, djdel),
    );
    assert(dd3 * m.n_deld5 + dd5 < m.n_deld3 * m.n_deld5) by (nonlinear_arith)
        requires
            0 <= dd3 < m.n_deld3,
            0 <= dd5 < m.n_deld5,
    ;
    assert(dd3 * m.n_deld5 + dd5 >= 0) by (nonlinear_arith)
        requires
            dd3 >= 0,
            dd5 >= 0,
            m.n_deld5 >= 0,
    ;
    assert((m.deld.slices@[d]@[dd3 * m.n_deld5 + dd5]).wf());
    lemma_rt_mul_wf(sp_p1(m, sq, vi, dv, ji, di, djdel), m.deld.at(d, dd3 * m.n_deld5 + dd5));
    let ivd = sp_insvd_of(sq, vi, dv, di, dd5);
    let idj = sp_insdj_of(sq, di, dd3, ji, djdel);
    assert(ivd.len() <= sq.seq@.len());
    assert(idj.len() <= sq.seq@.len());
    assert((m.insvd@[ivd.len() as int]).wf());
    assert((m.insdj@[idj.len() as int]).wf());
    lemma_rt_mul_wf(
        sp_p2(m, sq, vi, dv, ji, di, djdel, dd3, dd5),
        m.insvd@[ivd.len() as int]@,
    );
    lemma_rt_mul_wf(
        rt_mul(sp_p2(m, sq, vi, dv, ji, di, djdel, dd3, dd5), m.insvd@[ivd.len() as int]@),
        m.insdj@[idj.len() as int]@,
    );
    assert(bases_wf(ivd)) by {
        assert(forall|x: int| 0 <= x < ivd.len() ==> #[trigger] ivd[x] < 4);
    }
    assert(bases_wf(idj)) by {
        assert(forall|x: int| 0 <= x < idj.len() ==> #[trigger] idj[x] < 4);
    }
    lemma_qs_rts_wf(m.first_nt_bias_vd@);
    lemma_qs_rts_wf(m.first_nt_bias_dj@);
    crate::markov::lemma_sp_markov_wf(qs(m.first_nt_bias_vd@), m.markov_coefficients_vd, ivd);
    crate::markov::lemma_sp_markov_wf(qs(m.first_nt_bias_dj@), m.markov_coefficients_dj, idj);
    lemma_rt_mul_wf(
        sp_p3(m, sq, vi, dv, ji, di, djdel, dd3, dd5),
        sp_markov(qs(m.first_nt_bias_vd@), m.markov_coefficients_vd, ivd),
    );
    lemma_rt_mul_wf(
        rt_mul(
            sp_p3(m, sq, vi, dv, ji, di, djdel, dd3, dd5),
            sp_markov(qs(m.first_nt_bias_vd@), m.markov_coefficients_vd, ivd),
        ),
        sp_markov(qs(m.first_nt_bias_dj@), m.markov_coefficients_dj, idj),
    );
}

/// One corpus step: the `k`-th sequence's whole enumeration.
pub open spec fn corpus_step(m: FeaturesVDJ, seqs: Seq<SequenceVDJ>, min: Rt) -> spec_fn(
    FeaturesVDJ,
    FeaturesVDJ,
    int,
) -> bool {
    |a: FeaturesVDJ, b: FeaturesVDJ, k: int| sequence_accumulated(m, seqs[k], min, a, b)
}

/// `s1` is `s0` with every sequence of the corpus accumulated, in order,
/// against the read-only model `m`.
pub open spec fn corpus_accumulated(
    m: FeaturesVDJ,
    seqs: Seq<SequenceVDJ>,
    min: Rt,
    s0: FeaturesVDJ,
    s1: FeaturesVDJ,
) -> bool {
    folded(corpus_step(m, seqs, min), s0, s1, seqs.len() as int)
}

/// One EM round: the accumulator is rebuilt from all-zero by a full
/// maximization pass against `a`'s model, and the new model is its
/// normalization.
pub open spec fn em_round(seqs: Seq<SequenceVDJ>, min: Rt, a: MarginalsVDJ, b: MarginalsVDJ) -> bool {
    &&& exists|z: FeaturesVDJ|
        z.wf() && #[trigger] z.all_zero() && z.same_shape(a.marginals) && corpus_accumulated(
            a.marginals,
            seqs,
            min,
            z,
            b.dirty_marginals,
        )
    &&& features_normalized_of(b.marginals, b.dirty_marginals)
}

pub open spec fn em_chain_ok(seqs: Seq<SequenceVDJ>, min: Rt, tr: Seq<MarginalsVDJ>) -> bool {
    forall|k: int| 0 <= k < tr.len() - 1 ==> #[trigger] em_round(seqs, min, tr[k], tr[k + 1])
}

/// `b` is reached from `a` by exactly `n` EM rounds.
pub open spec fn em_rounds_done(
    seqs: Seq<SequenceVDJ>,
    min: Rt,
    a: MarginalsVDJ,
    b: MarginalsVDJ,
    n: int,
) -> bool {
    exists|tr: Seq<MarginalsVDJ>|
        tr.len() == n + 1 && 0 <= n && tr[0] == a && tr[n] == b && #[trigger] em_chain_ok(
            seqs,
            min,
            tr,
        )
}

proof fn lemma_em_rounds_base(seqs: Seq<SequenceVDJ>, min: Rt, a: MarginalsVDJ)
    ensures
        em_rounds_done(seqs, min, a, a, 0),
{
    let tr = seq![a];
    assert(em_chain_ok(seqs, min, tr));
}

proof fn lemma_em_rounds_extend(
    seqs: Seq<SequenceVDJ>,
    min: Rt,
    a: MarginalsVDJ,
    b: MarginalsVDJ,
    c: MarginalsVDJ,
    n: int,
)
    requires
        em_rounds_done(seqs, min, a, b, n),
        em_round(seqs, min, b, c),
    ensures
        em_rounds_done(seqs, min, a, c, n + 1),
{
    let tr = choose|tr: Seq<MarginalsVDJ>|
        tr.len() == n + 1 && 0 <= n && tr[0] == a && tr[n] == b && #[trigger] em_chain_ok(
            seqs,
            min,
            tr,
        );
    let tr2 = tr.push(c);
    assert forall|k: int| 0 <= k < tr2.len() - 1 implies #[trigger] em_round(
        seqs,
        min,
        tr2[k],
        tr2[k + 1],
    ) by {
        if k < n {
            assert(tr2[k] == tr[k] && tr2[k + 1] == tr[k + 1]);
            assert(em_round(seqs, min, tr[k], tr[k + 1]));
        } else {
            assert(tr2[k] == b && tr2[k + 1] == c);
        }
    }
    assert(tr2.len() == n + 2 && tr2[0] == a && tr2[n + 1] == c && em_chain_ok(seqs, min, tr2));
}

/// Pruning only removes mass, never adds: the three threshold checks of the
/// enumeration are monotone in the threshold. A combination whose partial
/// products `p1`, `p2`, `p3` pass every check at a threshold `min2` also
/// passes every check at any lower threshold `min1`; and since the weight a
/// surviving combination contributes does not mention the threshold at all,
/// raising the threshold can only drop contributions, so the total weight
/// accumulated in one maximization pass can only shrink.
pub proof fn lemma_pruning_monotone(min1: Rt, min2: Rt, p1: Rt, p2: Rt, p3: Rt)
    requires
        rt_wf(min1),
        rt_wf(min2),
        rt_wf(p1),
        rt_wf(p2),
        rt_wf(p3),
        rt_le(min1, min2),
        !rt_lt(p1, min2),
        !rt_lt(p2, min2),
        !rt_lt(p3, min2),
    ensures
        !rt_lt(p1, min1),
        !rt_lt(p2, min1),
        !rt_lt(p3, min1),
{
    lemma_rt_le_trans(min1, min2, p1);
    lemma_rt_le_trans(min1, min2, p2);
    lemma_rt_le_trans(min1, min2, p3);
}

/// A threshold of zero disables pruning: every well-formed likelihood
/// passes every check.
pub proof fn lemma_zero_threshold_prunes_nothing(p: Rt)
    requires
        rt_wf(p),
    ensures
        !rt_lt(p, rt_zero()),
{
}

} // verus!
