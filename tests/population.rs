use simulations::genotype::Genotype;
use simulations::population::FixedSizePopulation;

const L: usize = 5;

#[test]
fn population_general() {
    let size = 100;
    let mut population = FixedSizePopulation::<L>::new(size);
    population.initialize(Genotype::<L>::new());

    // No individual acquires a mutation.
    population.mutation(&vec![vec![]]);
    assert_eq!(population.get(&Genotype::<L>::new()), size);
    assert_eq!(population.get(&Genotype::<L>::from_sequence(&[0, 1, 0, 1, 0])), 0);

    // Every individual mutates every locus.
    population.mutation(&vec![vec![L; size]]);
    assert_eq!(population.get(&Genotype::<L>::new()), 0);
}

#[test]
fn full_mutation_flips_every_allele() {
    let mut population = FixedSizePopulation::<L>::from_vec(&vec![
        (vec![0, 0, 0, 0, 0], 3),
        (vec![1, 0, 1, 0, 0], 2),
    ]);
    population.mutation(&vec![vec![L; 3], vec![L; 2]]);
    assert_eq!(population.get(&Genotype::from_sequence(&[1, 1, 1, 1, 1])), 3);
    assert_eq!(population.get(&Genotype::from_sequence(&[0, 1, 0, 1, 1])), 2);
    assert_eq!(population.get(&Genotype::from_sequence(&[0, 0, 0, 0, 0])), 0);
    assert_eq!(population.n_genotypes(), 2);
    assert_eq!(population.size(), 5);
}

#[test]
fn mutation_keeps_the_total() {
    let mut population = FixedSizePopulation::<L>::new(50);
    population.initialize(Genotype::<L>::from_sequence(&[1, 0, 0, 1, 0]));
    population.mutation(&vec![vec![1, 2, 3, 1, 1, 4, 5]]);
    let (_, counts) = population.to_vector();
    assert_eq!(counts.iter().sum::<usize>(), 50);
    assert!(population.get(&Genotype::from_sequence(&[1, 0, 0, 1, 0])) >= 43);
    assert!(counts.iter().all(|&n| n > 0));
}

#[test]
fn single_mutation_moves_one_individual_one_step() {
    let mut population = FixedSizePopulation::<L>::new(4);
    population.initialize(Genotype::<L>::new());
    population.mutation(&vec![vec![1]]);
    assert_eq!(population.get(&Genotype::<L>::new()), 3);
    let (genotypes, counts) = population.to_vector();
    assert_eq!(genotypes.len(), 2);
    assert_eq!(counts, vec![3, 1]);
    assert_eq!(genotypes[1].sum(), 1);
}

#[test]
fn wright_fisher_tallies_the_draws() {
    let mut population = FixedSizePopulation::<L>::from_vec(&vec![
        (vec![0, 0, 0, 0, 0], 2),
        (vec![1, 0, 0, 0, 0], 2),
        (vec![0, 1, 0, 0, 0], 2),
    ]);
    population.wright_fisher(&vec![0, 2, 2, 2, 0, 2]);
    assert_eq!(population.get(&Genotype::from_sequence(&[0, 0, 0, 0, 0])), 2);
    assert_eq!(population.get(&Genotype::from_sequence(&[1, 0, 0, 0, 0])), 0);
    assert_eq!(population.get(&Genotype::from_sequence(&[0, 1, 0, 0, 0])), 4);
    assert_eq!(population.n_genotypes(), 2);
    assert_eq!(population.size(), 6);
}

#[test]
fn from_vec_merges_equal_genotypes() {
    let population = FixedSizePopulation::<3>::from_vec(&vec![
        (vec![0, 1, 0], 2),
        (vec![1, 1, 0], 1),
        (vec![0, 1, 0], 4),
    ]);
    assert_eq!(population.size(), 7);
    assert_eq!(population.n_genotypes(), 2);
    assert_eq!(population.get(&Genotype::from_sequence(&[0, 1, 0])), 6);
    assert_eq!(population.to_vec(), vec![(vec![0, 1, 0], 6), (vec![1, 1, 0], 1)]);
}

#[test]
fn add_individual_and_genotype() {
    let mut population = FixedSizePopulation::<2>::new(3);
    let g = Genotype::<2>::from_sequence(&[1, 0]);
    population.add_individual(g);
    population.add_genotype(g, 2);
    population.add_genotype(Genotype::new(), 0);
    assert_eq!(population.get(&g), 3);
    assert_eq!(population.n_genotypes(), 1);
}

#[test]
fn initialize_discards_previous_contents() {
    let mut population = FixedSizePopulation::<3>::from_vec(&vec![(vec![0, 1, 0], 2), (vec![1, 1, 0], 1)]);
    population.initialize(Genotype::from_sequence(&[1, 1, 1]));
    assert_eq!(population.to_vec(), vec![(vec![1, 1, 1], 3)]);
}
