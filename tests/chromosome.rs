use replisim::{Chromosome, DomainError};

#[test]
fn replicate_single_pos() {
    let mut chromosome = Chromosome::new(500, 10);
    chromosome = chromosome.replicate(100).unwrap();
    assert!(chromosome.is_replicated(100).unwrap());
}

#[test]
fn out_of_bounds_low() {
    let chromosome = Chromosome::new(500, 10);
    assert_eq!(chromosome.replicate(-2).err(), Some(DomainError::BelowStart));
}

#[test]
fn out_of_bounds_high() {
    let chromosome = Chromosome::new(500, 10);
    assert_eq!(chromosome.replicate(510).err(), Some(DomainError::PastEnd));
}

#[test]
fn chromosome_query_bounds() {
    let chromosome = Chromosome::new(500, 10);
    assert_eq!(chromosome.is_replicated(0), Ok(false));
    assert_eq!(chromosome.is_replicated(499), Ok(false));
    assert_eq!(chromosome.is_replicated(500), Err(DomainError::PastEnd));
    assert_eq!(chromosome.is_replicated(-1), Err(DomainError::BelowStart));
}

#[test]
fn replicate_touches_only_its_position() {
    let chromosome = Chromosome::new(500, 10).replicate(100).unwrap();
    assert_eq!(chromosome.is_replicated(99), Ok(false));
    assert_eq!(chromosome.is_replicated(100), Ok(true));
    assert_eq!(chromosome.is_replicated(101), Ok(false));
    assert_eq!(chromosome.genome_length(), 500);
}

#[test]
fn replicate_neighbours_join() {
    let chromosome = Chromosome::new(500, 10)
        .replicate(100)
        .unwrap()
        .replicate(101)
        .unwrap()
        .replicate(100)
        .unwrap();
    assert_eq!(chromosome.is_replicated(99), Ok(false));
    assert_eq!(chromosome.is_replicated(100), Ok(true));
    assert_eq!(chromosome.is_replicated(101), Ok(true));
    assert_eq!(chromosome.is_replicated(102), Ok(false));
}

#[test]
fn replicate_both_ends() {
    let chromosome = Chromosome::new(5, 1).replicate(0).unwrap().replicate(4).unwrap();
    assert_eq!(chromosome.is_replicated(0), Ok(true));
    assert_eq!(chromosome.is_replicated(1), Ok(false));
    assert_eq!(chromosome.is_replicated(3), Ok(false));
    assert_eq!(chromosome.is_replicated(4), Ok(true));
}
