//! Aligned input sequences.
//!
//! A sequence is a string of nucleotides (`u8` below four) together with the
//! candidate V-, D- and J-gene alignments produced by the (external)
//! alignment stage. Gene coordinates already include palindromic insertions.

use vstd::prelude::*;

verus! {

use crate::markov::bases_wf;

/// Alignment of a V or J gene against the sequence. `errors[u]` is the
/// number of mismatches left when `u` nucleotides are deleted from the
/// gene's sequence-facing end.
#[derive(Clone, Debug)]
pub struct VJAlignment {
    pub index: usize,
    pub start_seq: usize,
    pub end_seq: usize,
    pub start_gene: usize,
    pub end_gene: usize,
    pub errors: Vec<usize>,
}

impl VJAlignment {
    /// Mismatches left after deleting `del` nucleotides; past the recorded
    /// range the last recorded value applies (0 when nothing was recorded).
    pub fn nb_errors(&self, del: usize) -> (r: usize)
        ensures
            del < self.errors@.len() ==> r == self.errors@[del as int],
            del >= self.errors@.len() && self.errors@.len() == 0 ==> r == 0,
            del >= self.errors@.len() && self.errors@.len() >= 1 ==> r == self.errors@[self.errors@.len() - 1],
    {
        if del >= self.errors.len() {
            if self.errors.len() == 0 {
                return 0;
            }
            return self.errors[self.errors.len() - 1];
        }
        self.errors[del]
    }
}

/// Alignment of a D gene against the sequence: `errors_left[u]`
/// (`errors_right[u]`) count mismatches surviving `u` deletions on the
/// 5' (3') side.
#[derive(Clone, Debug)]
pub struct DAlignment {
    pub index: usize,
    pub len_d: usize,
    pub pos: usize,
    pub errors_left: Vec<usize>,
    pub errors_right: Vec<usize>,
}

impl DAlignment {
    pub fn nb_errors(&self, deld3: usize, deld5: usize) -> (r: usize)
        requires
            deld5 < self.errors_left@.len(),
            deld3 < self.errors_right@.len(),
            self.errors_left@[deld5 as int] + self.errors_right@[deld3 as int] <= usize::MAX,
        ensures
            r == self.errors_left@[deld5 as int] + self.errors_right@[deld3 as int],
    {
        self.errors_left[deld5] + self.errors_right[deld3]
    }

    pub fn len(&self) -> (r: usize)
        ensures
            r == self.len_d,
    {
        self.len_d
    }

    pub fn is_empty(&self) -> (r: bool)
        ensures
            r == (self.len_d == 0),
    {
        self.len_d == 0
    }
}

/// One pre-aligned input sequence with its candidate gene alignments.
#[derive(Clone, Debug)]
pub struct SequenceVDJ {
    pub seq: Vec<u8>,
    pub v_genes: Vec<VJAlignment>,
    pub d_genes: Vec<DAlignment>,
    pub j_genes: Vec<VJAlignment>,
}

/// The V-D junction insertion implied by a choice of gene boundaries and
/// deletions: the window from the trimmed V end to the trimmed D start,
/// empty when the choice is inconsistent with the sequence.
pub open spec fn sp_ins_vd(s: Seq<u8>, v: VJAlignment, delv: int, d: DAlignment, deld5: int) -> Seq<
    u8,
> {
    let a = v.end_seq - delv;
    let b = d.pos + deld5;
    if 0 <= a && a <= b && b <= s.len() {
        s.subrange(a, b)
    } else {
        Seq::empty()
    }
}

/// The D-J junction insertion: the window from the trimmed D end to the
/// trimmed J start, empty when inconsistent.
pub open spec fn sp_ins_dj(s: Seq<u8>, d: DAlignment, deld3: int, j: VJAlignment, delj: int) -> Seq<
    u8,
> {
    let a = d.pos + d.len_d - deld3;
    let b = j.start_seq + delj;
    if 0 <= a && a <= b && b <= s.len() {
        s.subrange(a, b)
    } else {
        Seq::empty()
    }
}

impl SequenceVDJ {
    pub open spec fn wf(self) -> bool {
        &&& bases_wf(self.seq@)
        &&& forall|i: int|
            0 <= i < self.d_genes@.len() ==> (#[trigger] self.d_genes@[i]).pos
                + self.d_genes@[i].len_d <= usize::MAX
    }

    /// Materialize the two junction insertions for one recombination choice.
    pub fn get_insertions_vd_dj(
        &self,
        v: &VJAlignment,
        delv: usize,
        d: &DAlignment,
        deld3: usize,
        deld5: usize,
        j: &VJAlignment,
        delj: usize,
    ) -> (r: (Vec<u8>, Vec<u8>))
        requires
            self.wf(),
            d.pos + d.len_d <= usize::MAX,
        ensures
            r.0@ == sp_ins_vd(self.seq@, *v, delv as int, *d, deld5 as int),
            r.1@ == sp_ins_dj(self.seq@, *d, deld3 as int, *j, delj as int),
            bases_wf(r.0@),
            bases_wf(r.1@),
    {
        let ins_vd: Vec<u8> = if delv <= v.end_seq && d.pos <= self.seq.len() && deld5
            <= self.seq.len() - d.pos && v.end_seq - delv <= d.pos + deld5 {
            self.copy_window(v.end_seq - delv, d.pos + deld5)
        } else {
            Vec::new()
        };
        let d_end_ok = deld3 <= d.pos + d.len_d;
        let ins_dj: Vec<u8> = if d_end_ok && j.start_seq <= self.seq.len() && delj <= self.seq.len()
            - j.start_seq && d.pos + d.len_d - deld3 <= j.start_seq + delj {
            self.copy_window(d.pos + d.len_d - deld3, j.start_seq + delj)
        } else {
            Vec::new()
        };
        (ins_vd, ins_dj)
    }

    fn copy_window(&self, a: usize, b: usize) -> (r: Vec<u8>)
        requires
            self.wf(),
            a <= b,
            b <= self.seq@.len(),
        ensures
            r@ == self.seq@.subrange(a as int, b as int),
            bases_wf(r@),
    {
        let mut out: Vec<u8> = Vec::new();
        let mut i: usize = a;
        while i < b
            invariant
                self.wf(),
                a <= i <= b,
                b <= self.seq@.len(),
                out@ == self.seq@.subrange(a as int, i as int),
            decreases b - i,
        {
            out.push(self.seq[i]);
            proof {
                assert(out@ =~= self.seq@.subrange(a as int, i + 1));
            }
            i += 1;
        }
        out
    }
}

} // verus!
