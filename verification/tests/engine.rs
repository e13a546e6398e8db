use vdj_em::dist::Grid;
use vdj_em::feature::{FeaturesVDJ, InferenceParams, MarginalsVDJ};
use vdj_em::rat::{q_add, Q};
use vdj_em::sequence::{DAlignment, SequenceVDJ, VJAlignment};

fn q(num: u64, den: u64) -> Q {
    Q::new(num, den)
}

fn same_value(a: &Q, b: &Q) -> bool {
    (a.num as u128) * (b.den as u128) == (b.num as u128) * (a.den as u128)
}

/// A toy 2-V / 1-D / 2-J model with uniform tables, no deletions and
/// insertion-length tables covering a four-base sequence.
fn toy_model() -> FeaturesVDJ {
    FeaturesVDJ {
        v: vec![q(1, 2), q(1, 2)],
        dj: Grid {
            slices: vec![vec![q(1, 2), q(1, 2)]],
            width: 2,
        },
        delv: Grid {
            slices: vec![vec![q(1, 1)], vec![q(1, 1)]],
            width: 1,
        },
        delj: Grid {
            slices: vec![vec![q(1, 1)], vec![q(1, 1)]],
            width: 1,
        },
        deld: Grid {
            slices: vec![vec![q(1, 1)]],
            width: 1,
        },
        n_deld3: 1,
        n_deld5: 1,
        insvd: vec![q(1, 5); 5],
        insdj: vec![q(1, 5); 5],
        first_nt_bias_vd: vec![q(1, 4); 4],
        markov_coefficients_vd: Grid {
            slices: vec![vec![q(1, 4); 4]; 4],
            width: 4,
        },
        first_nt_bias_dj: vec![q(1, 4); 4],
        markov_coefficients_dj: Grid {
            slices: vec![vec![q(1, 4); 4]; 4],
            width: 4,
        },
    }
}

/// One synthetic sequence with a single unambiguous V/D/J alignment and
/// zero deletions/insertions: V covers [0,2), D sits at [2,3), J at [3,4).
fn toy_sequence() -> SequenceVDJ {
    SequenceVDJ {
        seq: vec![0, 1, 2, 3],
        v_genes: vec![VJAlignment {
            index: 0,
            start_seq: 0,
            end_seq: 2,
            start_gene: 0,
            end_gene: 2,
            errors: vec![0],
        }],
        d_genes: vec![DAlignment {
            index: 0,
            len_d: 1,
            pos: 2,
            errors_left: vec![0],
            errors_right: vec![0],
        }],
        j_genes: vec![VJAlignment {
            index: 1,
            start_seq: 3,
            end_seq: 4,
            start_gene: 0,
            end_gene: 1,
            errors: vec![0],
        }],
    }
}

fn total_v_weight(f: &FeaturesVDJ) -> Q {
    let mut acc = Q::zero();
    for e in &f.v {
        acc = q_add(&acc, e).expect("fits");
    }
    acc
}

#[test]
fn zero_rounds_leave_marginals_unchanged() {
    let model = toy_model();
    let mut m = MarginalsVDJ::new(&model).expect("builds");
    let v_before = m.marginals.v.clone();
    let dj_before = m.marginals.dj.slices.clone();
    let insvd_before = m.marginals.insvd.clone();
    let params = InferenceParams {
        min_likelihood: Q::zero(),
        nb_rounds_em: 0,
    };
    let seqs = vec![toy_sequence()];
    m.expectation_maximization(&seqs, &params).expect("runs");
    assert_eq!(m.marginals.v, v_before);
    assert_eq!(m.marginals.dj.slices, dj_before);
    assert_eq!(m.marginals.insvd, insvd_before);
}

#[test]
fn construction_normalizes_the_initial_tables() {
    let mut model = toy_model();
    // unnormalized input: entries 3 and 1 should become 3/4 and 1/4
    model.v = vec![q(3, 1), q(1, 1)];
    let m = MarginalsVDJ::new(&model).expect("builds");
    assert!(same_value(&m.marginals.v[0], &q(3, 4)));
    assert!(same_value(&m.marginals.v[1], &q(1, 4)));
    // the accumulator starts all-zero
    assert_eq!(m.dirty_marginals.v, vec![q(0, 1), q(0, 1)]);
    assert_eq!(m.dirty_marginals.dj.slices, vec![vec![q(0, 1), q(0, 1)]]);
}

#[test]
fn one_em_round_on_unambiguous_alignment_gives_certainty() {
    let model = toy_model();
    let mut m = MarginalsVDJ::new(&model).expect("builds");
    let params = InferenceParams {
        min_likelihood: Q::zero(),
        nb_rounds_em: 1,
    };
    let seqs = vec![toy_sequence()];
    m.expectation_maximization(&seqs, &params).expect("runs");
    // all mass lands on the aligned V gene
    assert_eq!(m.marginals.v[0], q(1, 1));
    assert_eq!(m.marginals.v[1], q(0, 1));
    // the slice conditioned on the unseen V gene falls back to uniform
    assert_eq!(m.marginals.delv.slices[1], vec![q(1, 1)]);
    // D is certain, and J mass follows the double dj normalization
    assert!(same_value(&m.marginals.dj.slices[0][1], &q(1, 2)));
    // only the zero-insertion length was observed
    assert_eq!(m.marginals.insvd[0], q(1, 1));
    assert_eq!(m.marginals.insvd[1], q(0, 1));
}

#[test]
fn raising_the_threshold_cannot_increase_accumulated_weight() {
    let params_all = InferenceParams {
        min_likelihood: Q::zero(),
        nb_rounds_em: 1,
    };
    // the single combination's final likelihood is 1/100; 1/50 prunes it
    let params_pruned = InferenceParams {
        min_likelihood: q(1, 50),
        nb_rounds_em: 1,
    };
    let seqs = vec![toy_sequence()];

    let mut m_all = MarginalsVDJ::new(&toy_model()).expect("builds");
    m_all.maximization_step(&seqs, &params_all).expect("runs");
    let t_all = total_v_weight(&m_all.dirty_marginals);

    let mut m_pruned = MarginalsVDJ::new(&toy_model()).expect("builds");
    m_pruned
        .maximization_step(&seqs, &params_pruned)
        .expect("runs");
    let t_pruned = total_v_weight(&m_pruned.dirty_marginals);

    // t_pruned <= t_all, exactly
    assert!(
        (t_pruned.num as u128) * (t_all.den as u128) <= (t_all.num as u128) * (t_pruned.den as u128)
    );
    assert!(same_value(&t_all, &q(1, 100)));
    assert!(same_value(&t_pruned, &q(0, 1)));
}

#[test]
fn vj_alignment_error_counts() {
    let a = VJAlignment {
        index: 0,
        start_seq: 0,
        end_seq: 0,
        start_gene: 0,
        end_gene: 0,
        errors: vec![5, 4, 3],
    };
    assert_eq!(a.nb_errors(0), 5);
    assert_eq!(a.nb_errors(2), 3);
    assert_eq!(a.nb_errors(10), 3);
    let empty = VJAlignment {
        index: 0,
        start_seq: 0,
        end_seq: 0,
        start_gene: 0,
        end_gene: 0,
        errors: vec![],
    };
    assert_eq!(empty.nb_errors(7), 0);
}

#[test]
fn d_alignment_error_counts_and_length() {
    let d = DAlignment {
        index: 0,
        len_d: 11,
        pos: 4,
        errors_left: vec![4, 4, 3],
        errors_right: vec![4, 3, 3],
    };
    assert_eq!(d.nb_errors(1, 2), 3 + 3);
    assert_eq!(d.len(), 11);
    assert!(!d.is_empty());
    let e = DAlignment {
        index: 0,
        len_d: 0,
        pos: 0,
        errors_left: vec![],
        errors_right: vec![],
    };
    assert!(e.is_empty());
}

#[test]
fn insertion_windows_follow_the_trimmed_boundaries() {
    let s = SequenceVDJ {
        seq: vec![0, 1, 2, 3, 3, 2],
        v_genes: vec![VJAlignment {
            index: 0,
            start_seq: 0,
            end_seq: 2,
            start_gene: 0,
            end_gene: 2,
            errors: vec![],
        }],
        d_genes: vec![DAlignment {
            index: 0,
            len_d: 2,
            pos: 3,
            errors_left: vec![],
            errors_right: vec![],
        }],
        j_genes: vec![VJAlignment {
            index: 0,
            start_seq: 5,
            end_seq: 6,
            start_gene: 0,
            end_gene: 1,
            errors: vec![],
        }],
    };
    let v = s.v_genes[0].clone();
    let d = s.d_genes[0].clone();
    let j = s.j_genes[0].clone();
    // V trimmed by 1 ends at 1; D trimmed by 1 on the 5' side starts at 4
    let (insvd, insdj) = s.get_insertions_vd_dj(&v, 1, &d, 0, 1, &j, 1);
    assert_eq!(insvd, vec![1, 2, 3]);
    // D ends at 5, J trimmed by 1 starts at 6
    assert_eq!(insdj, vec![2]);
    // an inconsistent choice yields the empty window
    let (bad, _) = s.get_insertions_vd_dj(&v, 3, &d, 0, 0, &j, 0);
    assert_eq!(bad, Vec::<u8>::new());
}
