use vdj_em::dist::Grid;
use vdj_em::markov::{likelihood_markov, update_markov_probas};
use vdj_em::rat::Q;

fn q(num: u64, den: u64) -> Q {
    Q::new(num, den)
}

fn same_value(a: &Q, b: &Q) -> bool {
    (a.num as u128) * (b.den as u128) == (b.num as u128) * (a.den as u128)
}

fn bias() -> Vec<Q> {
    vec![q(1, 2), q(1, 4), q(1, 8), q(1, 8)]
}

fn trans() -> Grid {
    Grid {
        slices: vec![
            vec![q(1, 10), q(2, 10), q(3, 10), q(4, 10)],
            vec![q(4, 10), q(3, 10), q(2, 10), q(1, 10)],
            vec![q(1, 4), q(1, 4), q(1, 4), q(1, 4)],
            vec![q(1, 2), q(1, 2), q(0, 1), q(0, 1)],
        ],
        width: 4,
    }
}

#[test]
fn empty_sequence_has_likelihood_exactly_one() {
    let r = likelihood_markov(&bias(), &trans(), &vec![]).expect("fits");
    assert_eq!(r, q(1, 1));
}

#[test]
fn one_base_likelihood_is_the_bias_entry() {
    for b in 0u8..4u8 {
        let r = likelihood_markov(&bias(), &trans(), &vec![b]).expect("fits");
        assert!(same_value(&r, &bias()[b as usize]));
    }
}

#[test]
fn two_base_likelihood_is_bias_times_transition() {
    // bias(1) * trans(1 -> 2) = 1/4 * 2/10 = 1/20
    let r = likelihood_markov(&bias(), &trans(), &vec![1, 2]).expect("fits");
    assert!(same_value(&r, &q(1, 20)));
}

#[test]
fn longer_chain_multiplies_every_transition() {
    // bias(0) * trans(0->1) * trans(1->1) = 1/2 * 2/10 * 3/10 = 6/200
    let r = likelihood_markov(&bias(), &trans(), &vec![0, 1, 1]).expect("fits");
    assert!(same_value(&r, &q(6, 200)));
}

#[test]
fn accumulate_then_normalize_reproduces_composition() {
    // Accumulate one sequence with weight 1/2 into zero accumulators, then
    // normalize: the proportions are those of the raw sequence, with the
    // weight cancelled.
    let mut acc_bias = vec![q(0, 1); 4];
    let mut acc_trans = Grid {
        slices: vec![vec![q(0, 1); 4]; 4],
        width: 4,
    };
    let seq: Vec<u8> = vec![0, 1, 1, 0, 1];
    let w = q(1, 2);
    update_markov_probas(&mut acc_bias, &mut acc_trans, &seq, &w).expect("fits");

    // bias: only the first base (0) was counted
    let nb = vdj_em::dist::normalize_vec(&acc_bias).expect("fits");
    assert!(same_value(&nb[0], &q(1, 1)));
    assert!(same_value(&nb[1], &q(0, 1)));

    // transitions from 0: one (0,1) out of one; from 1: (1,1) once and
    // (1,0) once out of two
    let nt = acc_trans.normalize_distribution(1).expect("fits");
    assert!(same_value(&nt.slices[0][1], &q(1, 1)));
    assert!(same_value(&nt.slices[0][0], &q(0, 1)));
    assert!(same_value(&nt.slices[1][1], &q(1, 2)));
    assert!(same_value(&nt.slices[1][0], &q(1, 2)));
    assert!(same_value(&nt.slices[1][2], &q(0, 1)));
    // rows never touched fall back to uniform
    assert_eq!(nt.slices[2][0], q(1, 4));
    assert_eq!(nt.slices[3][3], q(1, 4));
}

#[test]
fn accumulate_empty_sequence_is_a_no_op() {
    let mut acc_bias = vec![q(0, 1); 4];
    let mut acc_trans = Grid {
        slices: vec![vec![q(0, 1); 4]; 4],
        width: 4,
    };
    update_markov_probas(&mut acc_bias, &mut acc_trans, &vec![], &q(3, 4)).expect("fits");
    for b in &acc_bias {
        assert_eq!(*b, q(0, 1));
    }
    for row in &acc_trans.slices {
        for e in row {
            assert_eq!(*e, q(0, 1));
        }
    }
}
