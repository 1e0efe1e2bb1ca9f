use replisim::{DomainError, Genome};

#[test]
fn new_track_layout() {
    let genome = Genome::new(100, 2);
    assert_eq!(genome.replication_state(), vec![0, 100, 0, 0, 0, 0, 0]);
    assert_eq!(genome.genome_length(), 100);
    assert_eq!(genome.num_origins(), 2);
    assert!(!genome.is_fully_replicated());
}

#[test]
fn contains_boundaries() {
    let genome = Genome::new(500, 10);
    assert_eq!(genome.is_replicated(0), Ok(false));
    assert_eq!(genome.is_replicated(499), Ok(false));
    assert_eq!(genome.is_replicated(500), Err(DomainError::PastEnd));
    assert_eq!(genome.is_replicated(usize::MAX), Err(DomainError::PastEnd));
}

#[test]
fn insert_origin_splits_gap() {
    let mut genome = Genome::new(100, 2);
    genome.insert_origin(40);
    assert_eq!(genome.replication_state(), vec![0, 40, 1, 59, 0, 0, 0]);
    assert_eq!(genome.is_replicated(39), Ok(false));
    assert_eq!(genome.is_replicated(40), Ok(true));
    assert_eq!(genome.is_replicated(41), Ok(false));
    genome.insert_origin(70);
    assert_eq!(genome.replication_state(), vec![0, 40, 1, 29, 1, 29, 0]);
    assert_eq!(genome.is_replicated(70), Ok(true));
    assert_eq!(genome.unreplicated_count(), 98);
}

#[test]
fn insert_origin_at_start() {
    let mut genome = Genome::new(10, 1);
    genome.insert_origin(0);
    assert_eq!(genome.replication_state(), vec![0, 0, 1, 9, 0]);
    assert_eq!(genome.is_replicated(0), Ok(true));
}

#[test]
fn merge_of_two_replicated_runs() {
    let mut genome = Genome::from_lengths(vec![5, 3, 5, 0, 0]).unwrap();
    assert_eq!(genome.replicate_and_merge(4), 1);
    assert_eq!(genome.replication_state(), vec![13, 0, 0, 0, 0]);
    assert!(genome.is_fully_replicated());
}

#[test]
fn growth_into_one_sided_gaps() {
    let mut genome = Genome::from_lengths(vec![0, 10, 1, 10, 0]).unwrap();
    assert_eq!(genome.replicate_and_merge(3), 0);
    assert_eq!(genome.replication_state(), vec![0, 7, 7, 7, 0]);
}

#[test]
fn growth_reaching_start_trims_leading_pair() {
    let mut genome = Genome::from_lengths(vec![0, 0, 1, 5, 0]).unwrap();
    assert_eq!(genome.replicate_and_merge(2), 0);
    assert_eq!(genome.replication_state(), vec![3, 3, 0, 0, 0]);
}

#[test]
fn growth_at_the_tail() {
    let mut genome = Genome::from_lengths(vec![2, 4, 0, 0, 0]).unwrap();
    assert_eq!(genome.replicate_and_merge(3), 0);
    assert_eq!(genome.replication_state(), vec![5, 1, 0, 0, 0]);
    assert_eq!(genome.replicate_and_merge(3), 0);
    assert_eq!(genome.replication_state(), vec![6, 0, 0, 0, 0]);
    assert!(genome.is_fully_replicated());
}

#[test]
fn complete_track_stays_complete() {
    let mut genome = Genome::from_lengths(vec![7, 0, 0, 0, 0]).unwrap();
    assert!(genome.is_fully_replicated());
    assert_eq!(genome.replicate_and_merge(5), 0);
    assert_eq!(genome.replication_state(), vec![7, 0, 0, 0, 0]);
    assert!(genome.is_fully_replicated());
}

#[test]
fn unreplicated_length_never_grows() {
    let mut genome = Genome::new(1000, 3);
    genome.insert_origin(100);
    genome.insert_origin(500);
    genome.insert_origin(900);
    let mut last = genome.unreplicated_count();
    assert_eq!(last, 997);
    let mut total_merges = 0;
    while !genome.is_fully_replicated() {
        total_merges += genome.replicate_and_merge(10);
        let now = genome.unreplicated_count();
        assert!(now < last);
        let state = genome.replication_state();
        assert_eq!(state.iter().sum::<usize>(), 1000);
        last = now;
    }
    assert_eq!(total_merges, 2);
    assert_eq!(genome.replication_state(), vec![1000, 0, 0, 0, 0, 0, 0, 0, 0]);
}

#[test]
fn from_lengths_checks_shape() {
    assert!(Genome::from_lengths(vec![1, 2, 3, 4]).is_none());
    assert!(Genome::from_lengths(vec![1, 2, 3]).is_none());
    assert!(Genome::from_lengths(vec![0, 0, 0, 0, 0]).is_none());
    assert!(Genome::from_lengths(vec![usize::MAX, 1, 0, 0, 0]).is_none());
    let genome = Genome::from_lengths(vec![1, 2, 3, 4, 5, 0, 0]).unwrap();
    assert_eq!(genome.genome_length(), 15);
    assert_eq!(genome.num_origins(), 2);
}

#[test]
fn ranks_map_to_unreplicated_positions() {
    let mut genome = Genome::new(100, 2);
    genome.insert_origin(40);
    assert_eq!(genome.unreplicated_count(), 99);
    assert_eq!(genome.nth_unreplicated(0), 0);
    assert_eq!(genome.nth_unreplicated(39), 39);
    assert_eq!(genome.nth_unreplicated(40), 41);
    assert_eq!(genome.nth_unreplicated(98), 99);
}

#[test]
fn replicated_positions_match_even_slots() {
    let mut genome = Genome::new(60, 3);
    genome.insert_origin(5);
    genome.insert_origin(30);
    genome.insert_origin(59);
    genome.replicate_and_merge(4);
    let state = genome.replication_state();
    let even_sum: usize = state.iter().step_by(2).sum();
    let odd_sum: usize = state.iter().skip(1).step_by(2).sum();
    let replicated = (0..60).filter(|&p| genome.is_replicated(p) == Ok(true)).count();
    assert_eq!(replicated, even_sum);
    assert_eq!(60 - replicated, odd_sum);
    assert_eq!(genome.unreplicated_count(), odd_sum);
}

#[test]
fn replicated_positions_stay_replicated() {
    let mut genome = Genome::new(200, 4);
    genome.insert_origin(20);
    genome.insert_origin(90);
    genome.insert_origin(150);
    let mut before: Vec<bool> = (0..200).map(|p| genome.is_replicated(p).unwrap()).collect();
    while !genome.is_fully_replicated() {
        genome.replicate_and_merge(7);
        let after: Vec<bool> = (0..200).map(|p| genome.is_replicated(p).unwrap()).collect();
        for p in 0..200 {
            assert!(!before[p] || after[p]);
        }
        before = after;
    }
}

#[test]
fn single_position_genome() {
    let mut genome = Genome::new(1, 1);
    assert_eq!(genome.is_replicated(0), Ok(false));
    assert_eq!(genome.is_replicated(1), Err(DomainError::PastEnd));
    genome.insert_origin(0);
    assert_eq!(genome.replication_state(), vec![0, 0, 1, 0, 0]);
    assert_eq!(genome.replicate_and_merge(1), 0);
    assert_eq!(genome.replication_state(), vec![1, 0, 0, 0, 0]);
    assert!(genome.is_fully_replicated());
}

#[test]
fn growth_at_rate_zero_changes_nothing_but_joins() {
    let mut genome = Genome::from_lengths(vec![0, 4, 2, 0, 3, 5, 0]).unwrap();
    assert_eq!(genome.replicate_and_merge(0), 1);
    assert_eq!(genome.replication_state(), vec![0, 4, 5, 5, 0, 0, 0]);
}

#[test]
fn growth_replicates_positions_within_rate() {
    let mut genome = Genome::new(120, 3);
    genome.insert_origin(3);
    genome.insert_origin(50);
    genome.insert_origin(57);
    let rate = 6;
    let before: Vec<bool> = (0..120).map(|p| genome.is_replicated(p).unwrap()).collect();
    genome.replicate_and_merge(rate);
    for p in 0..120usize {
        let near = (0..120usize).any(|q| before[q] && p.abs_diff(q) <= rate);
        assert_eq!(genome.is_replicated(p), Ok(near));
    }
    assert_eq!(genome.replication_state(), vec![10, 34, 20, 56, 0, 0, 0, 0, 0]);
}
