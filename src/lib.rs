//! Evolution of a fixed-size haploid population on a resource-competition
//! fitness landscape: genotypes, population bookkeeping, the binary codec of
//! landscape models and the stability detector.

pub mod fitness_landscape;
pub mod fitness_model;
pub mod genotype;
pub mod linear_algebra;
pub mod plot_layout;
pub mod population;
pub mod stability;
