use simulations::genotype::{landscape_size, possible_sequences, Genotype};

#[test]
fn genotype_general() {
    let genotype1 = Genotype::<5>::from_sequence(&[0, 0, 0, 1, 0]);
    let mut genotype2 = Genotype::<5>::new();
    genotype2.mutate(3);

    assert_eq!(genotype1, genotype2);
}

#[test]
fn landscape_size_is_two_to_the_length() {
    assert_eq!(landscape_size::<0>(), 1);
    assert_eq!(landscape_size::<5>(), 32);
}

#[test]
fn possible_sequences_count_in_binary() {
    let seqs = possible_sequences::<3>();
    assert_eq!(seqs.len(), 8);
    assert_eq!(seqs[0], [0, 0, 0]);
    assert_eq!(seqs[1], [1, 0, 0]);
    assert_eq!(seqs[6], [0, 1, 1]);
    assert_eq!(seqs[7], [1, 1, 1]);
}

#[test]
fn index_and_from_index_agree() {
    for i in 0..32usize {
        let g = Genotype::<5>::from_index(i);
        assert_eq!(g.index(), i);
    }
    let g = Genotype::<5>::from_sequence(&[1, 0, 1, 0, 0]);
    assert_eq!(g.index(), 5);
    assert_eq!(Genotype::<5>::from_index(37), Genotype::<5>::from_index(5));
}

#[test]
fn sum_order_and_differences() {
    let g = Genotype::<4>::from_sequence(&[1, 1, 0, 1]);
    assert_eq!(g.sum(), 3);
    assert_eq!(g.index(), 11);
    assert_eq!(g.order(), 11 + 16 * 3);
    let h = Genotype::<4>::new();
    assert_eq!(g.n_differences(&h), 3);
    assert_eq!(h.order(), 0);
}

#[test]
fn cmutate_leaves_the_source_unchanged() {
    let g = Genotype::<3>::new();
    let h = g.cmutate(1);
    assert_eq!(g.to_vec(), vec![0, 0, 0]);
    assert_eq!(h.to_vec(), vec![0, 1, 0]);
    assert_eq!(h.iter(), &[0, 1, 0]);
    assert_eq!(h.cmutate(1), g);
}

#[test]
fn random_genotype_is_binary() {
    for _ in 0..20 {
        let g = Genotype::<8>::random();
        assert!(g.iter().iter().all(|&a| a <= 1));
    }
}
