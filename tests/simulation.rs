use rand::SeedableRng;
use rand_chacha::ChaCha8Rng;
use replisim::{Cell, CellState, Genome};

#[test]
fn random_points_are_unreplicated() {
    let mut rng = ChaCha8Rng::seed_from_u64(11);
    let mut genome = Genome::new(50, 2);
    genome.insert_origin(10);
    genome.insert_origin(30);
    for _ in 0..200 {
        let p = genome.random_unreplicated_point(&mut rng).unwrap();
        assert!(p < 50);
        assert_eq!(genome.is_replicated(p), Ok(false));
    }
}

#[test]
fn random_point_of_complete_track() {
    let mut rng = ChaCha8Rng::seed_from_u64(11);
    let genome = Genome::from_lengths(vec![9, 0, 0, 0, 0]).unwrap();
    assert_eq!(genome.random_unreplicated_point(&mut rng), None);
}

#[test]
fn sample_and_place_places_one_origin() {
    let mut rng = ChaCha8Rng::seed_from_u64(3);
    let mut genome = Genome::new(1000, 3);
    assert!(genome.sample_and_place(&mut rng));
    assert_eq!(genome.unreplicated_count(), 999);
    let state = genome.replication_state();
    assert_eq!(state.iter().sum::<usize>(), 1000);
    assert_eq!(state[2], 1);
}

#[test]
fn sample_and_place_on_complete_track() {
    let mut rng = ChaCha8Rng::seed_from_u64(3);
    let mut genome = Genome::from_lengths(vec![9, 0, 0, 0, 0]).unwrap();
    assert!(!genome.sample_and_place(&mut rng));
    assert_eq!(genome.replication_state(), vec![9, 0, 0, 0, 0]);
}

#[test]
fn gate_with_zero_threshold_opens_at_once() {
    let mut rng = ChaCha8Rng::seed_from_u64(5);
    let mut cell = Cell::new(100, 2, 5);
    assert_eq!(cell.cell_state(), CellState::GPhase);
    assert!(cell.advance(&mut rng, 0, 10));
    assert_eq!(cell.cell_state(), CellState::SPhase);
    assert_eq!(cell.warmup_iters(), 0);
    assert!(!cell.advance(&mut rng, 0, 10));
    assert_eq!(cell.cell_state(), CellState::SPhase);
}

#[test]
fn gate_counts_draws_that_do_not_open_it() {
    let mut rng = ChaCha8Rng::seed_from_u64(5);
    let mut cell = Cell::new(100, 2, 5);
    let mut draws: u64 = 0;
    while !cell.advance(&mut rng, 9, 10) {
        draws += 1;
        assert_eq!(cell.cell_state(), CellState::GPhase);
    }
    assert_eq!(cell.warmup_iters(), draws);
    assert_eq!(cell.cell_state(), CellState::SPhase);
}

#[test]
fn assign_replicators_uses_the_quota() {
    let mut rng = ChaCha8Rng::seed_from_u64(9);
    let mut cell = Cell::new(10_000, 4, 5);
    cell.assign_replicators(&mut rng);
    assert_eq!(cell.unassigned_replicators(), 0);
    assert_eq!(cell.genome().unreplicated_count(), 9_996);
    let merged = cell.replicate_and_merge();
    assert_eq!(cell.unassigned_replicators(), merged);
}

#[test]
fn small_run_completes() {
    let mut rng = ChaCha8Rng::seed_from_u64(1701);
    let mut cell = Cell::new(10_000, 5, 20);
    let iterations = cell.full_replication(&mut rng, 9, 10);
    assert!(iterations > 0);
    assert!(cell.genome().is_fully_replicated());
    assert_eq!(cell.cell_state(), CellState::SPhase);
    assert_eq!(cell.genome().replication_state().iter().sum::<usize>(), 10_000);
    assert_eq!(cell.genome().is_replicated(0), Ok(true));
    assert_eq!(cell.genome().is_replicated(9_999), Ok(true));
}

#[test]
fn end_to_end_full_genome() {
    let mut rng = ChaCha8Rng::seed_from_u64(1701);
    let length: usize = 500_000_000;
    let mut cell = Cell::new(length, 312, 50);
    assert_eq!(cell.genome().is_replicated(100_000), Ok(false));
    let iterations = cell.full_replication(&mut rng, 9, 10);
    assert!(iterations > 0 && iterations < usize::MAX);
    assert!(cell.genome().is_fully_replicated());
    assert_eq!(cell.genome().is_replicated(0), Ok(true));
    assert_eq!(cell.genome().is_replicated(length - 1), Ok(true));
    assert!(cell.genome().is_replicated(length).is_err());
}

#[test]
fn same_seed_same_run() {
    let run = |seed: u64| {
        let mut rng = ChaCha8Rng::seed_from_u64(seed);
        let mut cell = Cell::new(2_000_000, 16, 50);
        let iterations = cell.full_replication(&mut rng, 9, 10);
        (iterations, cell.genome().replication_state(), cell.warmup_iters())
    };
    let first = run(42);
    let second = run(42);
    assert_eq!(first, second);
}
