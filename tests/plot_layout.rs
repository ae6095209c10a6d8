use simulations::fitness_landscape::FitnessType;
use simulations::genotype::Genotype;
use simulations::plot_layout::{binomial_coefficient, factorial, get_connections};

#[test]
fn factorials_and_binomials() {
    assert_eq!(factorial(0), 1);
    assert_eq!(factorial(5), 120);
    assert_eq!(factorial(20), 2432902008176640000);
    assert_eq!(binomial_coefficient(2, 5), 10);
    assert_eq!(binomial_coefficient(0, 4), 1);
    assert_eq!(binomial_coefficient(3, 3), 1);
}

#[test]
fn connections_join_genotypes_one_mutation_apart() {
    let genotypes: Vec<Genotype<2>> = (0..4).map(Genotype::<2>::from_index).collect();
    // 00, 10, 01, 11
    assert_eq!(get_connections(&genotypes), vec![(1, 0), (2, 0), (3, 1), (3, 2)]);
}

#[test]
fn fitness_types_compare() {
    assert_eq!(FitnessType::Additive, FitnessType::Additive);
    assert_ne!(FitnessType::Additive, FitnessType::Multiplicative);
}

use simulations::plot_layout::Color;

#[test]
fn colors_convert_between_forms() {
    assert_eq!(Color::Hex("#0A66C2".to_string()).as_tuple(), (10, 102, 194));
    assert_eq!(Color::Hex("#dc143c".to_string()).as_tuple(), (220, 20, 60));
    assert_eq!(Color::Hex("#0A66C2 é".to_string()).as_tuple(), (10, 102, 194));
    assert_eq!(Color::RGB(255, 0, 16).as_string(), "#FF010");
    assert_eq!(Color::RGB(-1, 0, 0).as_string(), "#FFFFFFFF00");
    assert_eq!(Color::Hex("#AAAAAA".to_string()).as_string(), "#AAAAAA");
    match Color::Hex("#+F-A10".to_string()).to_rgb() {
        Color::RGB(r, g, b) => assert_eq!((r, g, b), (15, -10, 16)),
        Color::Hex(_) => panic!("expected channels"),
    }
    match Color::RGB(1, 2, 3).to_hex() {
        Color::Hex(s) => assert_eq!(s, "#123"),
        Color::RGB(..) => panic!("expected a string"),
    }
}
