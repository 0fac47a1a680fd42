use maze_runner::genetics::{ConfigError, GeneticAlgorithm, SCALE};
use maze_runner::ranking::top_indices;
use maze_runner::genome::{copy_bits, hamming_distance, Genome};

fn genome(bits: &[u8], fitness: i64, stagnation: usize) -> Genome {
    Genome { bits: bits.to_vec(), fitness, stagnation }
}

fn engine(pop_size: usize, chromo_length: usize, elitism: u64, limit: usize) -> GeneticAlgorithm {
    GeneticAlgorithm::new(0, 0, pop_size, elitism, limit, chromo_length, 2).unwrap()
}

fn count_zero_moves(moves: Vec<u8>) -> i64 {
    moves.iter().filter(|&&m| m == 0).count() as i64
}

#[test]
fn new_builds_a_full_random_population() {
    let ga = GeneticAlgorithm::new(700_000, 10_000, 6, 200_000, 5, 8, 2).unwrap();
    assert_eq!(ga.population.len(), 6);
    for g in &ga.population {
        assert_eq!(g.bits.len(), 8);
        assert!(g.bits.iter().all(|&b| b <= 1));
        assert_eq!(g.fitness, 0);
        assert_eq!(g.stagnation, 0);
    }
    assert_eq!(ga.generation, 0);
    assert_eq!(ga.fittest_index, 0);
    assert_eq!(ga.total_fitness, 0);
    assert_eq!(ga.crossover_rate, 700_000);
    assert_eq!(ga.mutation_rate, 10_000);
}

#[test]
fn new_rejects_an_empty_population() {
    assert_eq!(GeneticAlgorithm::new(0, 0, 0, 0, 1, 4, 2).err(), Some(ConfigError::EmptyPopulation));
}

#[test]
fn new_rejects_rates_above_one() {
    assert_eq!(
        GeneticAlgorithm::new(SCALE + 1, 0, 4, 0, 1, 4, 2).err(),
        Some(ConfigError::CrossoverRateOutOfRange)
    );
    assert_eq!(
        GeneticAlgorithm::new(0, SCALE + 1, 4, 0, 1, 4, 2).err(),
        Some(ConfigError::MutationRateOutOfRange)
    );
    assert_eq!(
        GeneticAlgorithm::new(0, 0, 4, SCALE + 1, 1, 4, 2).err(),
        Some(ConfigError::ElitismOutOfRange)
    );
    assert!(GeneticAlgorithm::new(SCALE, SCALE, 4, SCALE, 1, 4, 2).is_ok());
}

#[test]
fn decode_maps_each_pair_of_bits() {
    let ga = engine(1, 8, 0, 1);
    assert_eq!(ga.decode(&[0, 0, 0, 1, 1, 0, 1, 1]), vec![0, 1, 2, 3]);
}

#[test]
fn decode_drops_a_trailing_bit() {
    let ga = engine(1, 5, 0, 1);
    assert_eq!(ga.decode(&[1, 1, 0, 1, 1]), vec![3, 1]);
    assert_eq!(ga.decode(&[1]), Vec::<u8>::new());
}

#[test]
fn decode_then_encode_round_trips() {
    let ga = engine(1, 10, 0, 1);
    let bits = vec![1, 0, 0, 1, 1, 1, 0, 0, 1, 0];
    let moves = ga.decode(&bits);
    let mut encoded = Vec::new();
    for m in moves {
        encoded.push(m / 2);
        encoded.push(m % 2);
    }
    assert_eq!(encoded, bits);
}

#[test]
fn crossover_of_identical_parents_clones_them() {
    let ga = GeneticAlgorithm::new(SCALE, 0, 2, 0, 1, 6, 2).unwrap();
    let a = vec![1, 0, 1, 1, 0, 0];
    for _ in 0..50 {
        let (c1, c2) = ga.crossover(&a, &a);
        assert_eq!(c1, a);
        assert_eq!(c2, a);
    }
}

#[test]
fn crossover_always_splices_at_one_point() {
    let ga = GeneticAlgorithm::new(SCALE, 0, 2, 0, 1, 4, 2).unwrap();
    let mom = vec![0, 0, 0, 0];
    let dad = vec![1, 1, 1, 1];
    for _ in 0..50 {
        let (c1, c2) = ga.crossover(&mom, &dad);
        let cp = c1.iter().take_while(|&&b| b == 0).count();
        assert!(cp < 4);
        assert!(c1[cp..].iter().all(|&b| b == 1));
        assert_eq!(c2.iter().take_while(|&&b| b == 1).count(), cp);
        assert!(c2[cp..].iter().all(|&b| b == 0));
    }
}

#[test]
fn crossover_with_rate_zero_keeps_parents() {
    let ga = engine(2, 4, 0, 1);
    let (c1, c2) = ga.crossover(&[0, 1, 0, 1], &[1, 1, 0, 0]);
    assert_eq!(c1, vec![0, 1, 0, 1]);
    assert_eq!(c2, vec![1, 1, 0, 0]);
}

#[test]
fn cross_at_swaps_tails() {
    let (c1, c2) = maze_runner::genome::cross_at(&[0, 0, 0, 0, 0], &[1, 1, 1, 1, 1], 2);
    assert_eq!(c1, vec![0, 0, 1, 1, 1]);
    assert_eq!(c2, vec![1, 1, 0, 0, 0]);
    let (d1, d2) = maze_runner::genome::cross_at(&[0, 1], &[1, 0], 0);
    assert_eq!(d1, vec![1, 0]);
    assert_eq!(d2, vec![0, 1]);
}

#[test]
fn mutation_rate_zero_and_one() {
    let ga = engine(1, 6, 0, 1);
    let mut bits = vec![1, 0, 1, 1, 0, 0];
    ga.mutate(&mut bits);
    assert_eq!(bits, vec![1, 0, 1, 1, 0, 0]);
    let mut ga = engine(1, 6, 0, 1);
    ga.set_mutation_rate(SCALE);
    ga.mutate(&mut bits);
    assert_eq!(bits, vec![0, 1, 0, 0, 1, 1]);
}

#[test]
fn same_bits_and_copy_bits() {
    assert!(maze_runner::genome::same_bits(&[1, 0, 1], &[1, 0, 1]));
    assert!(!maze_runner::genome::same_bits(&[1, 0, 1], &[1, 0, 0]));
    assert!(!maze_runner::genome::same_bits(&[1, 0], &[1, 0, 0]));
    assert_eq!(copy_bits(&[3, 1, 2]), vec![3, 1, 2]);
}

#[test]
fn hamming_distance_counts_differences() {
    assert_eq!(hamming_distance(&[0, 1, 1, 0], &[1, 1, 0, 0]), 2);
    assert_eq!(hamming_distance(&[0, 1], &[0, 1]), 0);
    assert_eq!(hamming_distance(&[1, 1, 1], &[0, 0]), 2);
    assert_eq!(hamming_distance(&[], &[1]), 0);
}

#[test]
fn update_fitness_totals_and_fittest() {
    let mut ga = engine(4, 4, 0, 5);
    ga.population = vec![
        genome(&[0, 0, 0, 0], 0, 0),
        genome(&[0, 1, 0, 0], 0, 0),
        genome(&[1, 1, 1, 1], 0, 0),
        genome(&[0, 0, 1, 1], 0, 0),
    ];
    ga.update_fitness(count_zero_moves);
    let fits: Vec<i64> = ga.population.iter().map(|g| g.fitness).collect();
    assert_eq!(fits, vec![2, 1, 0, 1]);
    assert_eq!(ga.total_fitness, 4);
    assert_eq!(ga.best_fitness, 2);
    assert_eq!(ga.fittest_index, 0);
    assert_eq!(ga.population[ga.fittest_index].fitness, ga.best_fitness);
    let stags: Vec<usize> = ga.population.iter().map(|g| g.stagnation).collect();
    assert_eq!(stags, vec![0, 0, 1, 0]);
}

#[test]
fn apply_scores_first_maximum_wins() {
    let mut ga = engine(3, 2, 0, 5);
    ga.population = vec![genome(&[0, 0], 5, 2), genome(&[0, 1], 1, 0), genome(&[1, 1], 0, 7)];
    ga.apply_scores(&vec![-3, 9, 9]);
    assert_eq!(ga.fittest_index, 1);
    assert_eq!(ga.best_fitness, 9);
    assert_eq!(ga.total_fitness, 15);
    let stags: Vec<usize> = ga.population.iter().map(|g| g.stagnation).collect();
    assert_eq!(stags, vec![3, 0, 0]);
}

#[test]
fn apply_scores_handles_negative_scores() {
    let mut ga = engine(2, 2, 0, 5);
    ga.population = vec![genome(&[0, 0], 0, 0), genome(&[0, 1], 0, 0)];
    ga.apply_scores(&vec![-7, -2]);
    assert_eq!(ga.total_fitness, -9);
    assert_eq!(ga.best_fitness, -2);
    assert_eq!(ga.fittest_index, 1);
}

#[test]
fn epoch_keeps_population_size() {
    for elitism in [0, 250_000, 500_000, 750_000, SCALE] {
        let mut ga = GeneticAlgorithm::new(700_000, 20_000, 5, elitism, 2, 6, 2).unwrap();
        ga.update_fitness(count_zero_moves);
        for generation in 1..=6 {
            ga.epoch(count_zero_moves);
            assert_eq!(ga.population.len(), 5);
            assert_eq!(ga.generation, generation);
            assert!(ga.population.iter().all(|g| g.bits.len() == 6));
        }
    }
}

#[test]
fn epoch_fills_an_odd_remainder() {
    // Three elites of four leave a single slot, which one child fills.
    let mut ga = engine(4, 4, 750_000, 10);
    ga.update_fitness(count_zero_moves);
    ga.epoch(count_zero_moves);
    assert_eq!(ga.population.len(), 4);
}

#[test]
fn full_elitism_keeps_the_population() {
    let mut ga = engine(4, 4, SCALE, 10);
    ga.population = vec![
        genome(&[1, 1, 1, 1], 0, 0),
        genome(&[0, 0, 0, 0], 0, 0),
        genome(&[0, 1, 0, 1], 0, 0),
        genome(&[1, 0, 0, 0], 0, 0),
    ];
    ga.update_fitness(count_zero_moves);
    let mut before: Vec<Vec<u8>> = ga.population.iter().map(|g| g.bits.clone()).collect();
    ga.epoch(count_zero_moves);
    let mut after: Vec<Vec<u8>> = ga.population.iter().map(|g| g.bits.clone()).collect();
    // Sorted by fitness, best first.
    assert_eq!(after[0], vec![0, 0, 0, 0]);
    before.sort();
    after.sort();
    assert_eq!(before, after);
}

#[test]
fn elites_are_clones_of_the_fittest() {
    let mut ga = GeneticAlgorithm::new(0, 0, 4, 500_000, 2, 4, 2).unwrap();
    ga.population = vec![
        genome(&[1, 1, 1, 1], 0, 0),
        genome(&[0, 0, 1, 0], 0, 0),
        genome(&[0, 0, 0, 0], 0, 0),
        genome(&[1, 0, 1, 1], 0, 0),
    ];
    ga.update_fitness(count_zero_moves);
    let mut ranked: Vec<Genome> = ga.population.clone();
    ranked.sort_by(|a, b| b.fitness.cmp(&a.fitness));
    ga.epoch(count_zero_moves);
    assert_eq!(ga.population.len(), 4);
    for t in 0..2 {
        assert_eq!(ga.population[t].bits, ranked[t].bits);
        assert_eq!(ga.population[t].fitness, ranked[t].fitness);
    }
    // With crossover and mutation off, every child copies some parent.
    let parents: Vec<Vec<u8>> = ranked.iter().map(|g| g.bits.clone()).collect();
    for child in &ga.population[2..] {
        assert!(parents.contains(&child.bits));
    }
}

#[test]
fn a_steadily_worsening_genome_is_culled() {
    let limit = 2;
    let mut ga = engine(3, 2, 0, limit);
    ga.population = vec![genome(&[0, 0], 0, 0), genome(&[0, 1], 0, 0), genome(&[1, 1], 0, 0)];
    ga.apply_scores(&vec![10, 1, 1]);
    ga.apply_scores(&vec![9, 2, 2]);
    assert!(ga.population.iter().any(|g| g.bits == vec![0, 0]));
    ga.apply_scores(&vec![8, 3, 3]);
    assert_eq!(ga.population[0].stagnation, limit);
    ga.cull();
    assert_eq!(ga.population.len(), 2);
    assert!(ga.population.iter().all(|g| g.bits != vec![0, 0]));
}

#[test]
fn stagnant_genomes_are_replaced_in_an_epoch() {
    let mut ga = engine(3, 4, 0, 1);
    ga.population = vec![
        genome(&[0, 0, 0, 0], 5, 1),
        genome(&[1, 1, 1, 1], 5, 1),
        genome(&[0, 1, 0, 1], 5, 1),
    ];
    ga.epoch(count_zero_moves);
    assert_eq!(ga.population.len(), 3);
}

#[test]
fn inject_truncates_to_pop_size() {
    let mut ga = engine(4, 3, 0, 1);
    ga.population.truncate(1);
    let first = ga.population[0].bits.clone();
    ga.inject_random_individuals(2);
    assert_eq!(ga.population.len(), 3);
    assert_eq!(ga.population[0].bits, first);
    ga.inject_random_individuals(10);
    assert_eq!(ga.population.len(), 4);
    assert!(ga.population[1..].iter().all(|g| g.fitness == 0 && g.stagnation == 0 && g.bits.len() == 3));
}

#[test]
fn average_hamming_distance_of_two() {
    let mut ga = engine(2, 5, 0, 1);
    ga.population = vec![genome(&[0, 1, 1, 0, 1], 1, 0), genome(&[1, 1, 0, 0, 1], 2, 0)];
    assert_eq!(ga.average_hamming_distance(2), 2 * SCALE as u128);
    assert_eq!(ga.average_hamming_distance(9), 2 * SCALE as u128);
    assert_eq!(ga.average_hamming_distance(1), 0);
    assert_eq!(ga.average_hamming_distance(0), 0);
}

#[test]
fn average_hamming_distance_of_the_fittest() {
    let mut ga = engine(4, 3, 0, 1);
    ga.population = vec![
        genome(&[0, 0, 0], 1, 0),
        genome(&[1, 1, 1], 9, 0),
        genome(&[1, 1, 0], 5, 0),
        genome(&[0, 0, 1], 7, 0),
    ];
    // The three fittest: 111, 001, 110 with distances 2, 1, 3.
    assert_eq!(ga.average_hamming_distance(3), 2 * SCALE as u128);
    // All four: pairs sum to 3+1+2+2+1+3 = 12 over 6 pairs.
    assert_eq!(ga.average_hamming_distance(4), 2 * SCALE as u128);
    // 111 and 001 only.
    assert_eq!(ga.average_hamming_distance(2), 2 * SCALE as u128);
}

#[test]
fn average_hamming_distance_rounds_down() {
    let mut ga = engine(3, 2, 0, 1);
    ga.population = vec![genome(&[0, 0], 3, 0), genome(&[0, 1], 2, 0), genome(&[0, 0], 1, 0)];
    // Distances 1, 0, 1 over three pairs.
    assert_eq!(ga.average_hamming_distance(3), 666_666);
}

#[test]
fn adapt_raises_a_rate_when_diversity_is_low() {
    let mut ga = GeneticAlgorithm::new(0, 100_000, 4, 500_000, 1, 4, 2).unwrap();
    for g in ga.population.iter_mut() {
        g.bits = vec![1, 0, 1, 0];
    }
    ga.adapt_mutation_rate(50_000, 300_000, 500_000);
    assert_eq!(ga.mutation_rate, 110_000);
    let mut last = ga.mutation_rate;
    for _ in 0..40 {
        ga.adapt_mutation_rate(50_000, 300_000, 500_000);
        assert!(ga.mutation_rate >= last);
        assert!(ga.mutation_rate <= 300_000);
        last = ga.mutation_rate;
    }
    assert_eq!(ga.mutation_rate, 300_000);
}

#[test]
fn adapt_lowers_a_rate_when_diversity_is_high() {
    let mut ga = GeneticAlgorithm::new(0, 100_000, 2, SCALE, 1, 4, 2).unwrap();
    ga.population = vec![genome(&[0, 0, 0, 0], 1, 0), genome(&[1, 1, 1, 1], 0, 0)];
    ga.adapt_mutation_rate(50_000, 300_000, 1_000_000);
    assert_eq!(ga.mutation_rate, 90_000);
    for _ in 0..20 {
        ga.adapt_mutation_rate(50_000, 300_000, 1_000_000);
    }
    assert_eq!(ga.mutation_rate, 50_000);
}

#[test]
fn reset_restarts_the_run() {
    let mut ga = engine(3, 4, 0, 2);
    ga.update_fitness(count_zero_moves);
    ga.epoch(count_zero_moves);
    ga.reset();
    assert_eq!(ga.generation, 0);
    assert_eq!(ga.total_fitness, 0);
    assert_eq!(ga.best_fitness, 0);
    assert_eq!(ga.fittest_index, 0);
    assert_eq!(ga.population.len(), 3);
    assert!(ga.population.iter().all(|g| g.fitness == 0 && g.stagnation == 0));
}

#[test]
fn roulette_pick_walks_the_running_total() {
    let mut ga = engine(3, 2, 0, 1);
    ga.population = vec![genome(&[0, 0], 2, 0), genome(&[0, 1], 3, 0), genome(&[1, 1], 5, 0)];
    assert_eq!(ga.roulette_pick(0), 0);
    assert_eq!(ga.roulette_pick(1), 0);
    assert_eq!(ga.roulette_pick(2), 1);
    assert_eq!(ga.roulette_pick(4), 1);
    assert_eq!(ga.roulette_pick(5), 2);
    assert_eq!(ga.roulette_pick(9), 2);
    assert_eq!(ga.roulette_pick(10), 0);
}

#[test]
fn roulette_selection_falls_back_to_the_first() {
    let mut ga = engine(3, 2, 0, 1);
    ga.population = vec![genome(&[0, 0], 0, 0), genome(&[0, 1], 0, 0), genome(&[1, 1], 0, 0)];
    ga.total_fitness = 0;
    assert_eq!(ga.roulette_selection(), 0);
    ga.population[2].fitness = 4;
    ga.total_fitness = 4;
    for _ in 0..20 {
        assert_eq!(ga.roulette_selection(), 2);
    }
}

#[test]
fn tournament_winner_prefers_the_first_best() {
    let mut ga = engine(4, 2, 0, 1);
    ga.population = vec![
        genome(&[0, 0], 1, 0),
        genome(&[0, 1], 7, 0),
        genome(&[1, 0], 7, 0),
        genome(&[1, 1], -2, 0),
    ];
    assert_eq!(ga.tournament_winner(&vec![3, 2, 1, 0]), 2);
    assert_eq!(ga.tournament_winner(&vec![0, 3]), 0);
    assert_eq!(ga.tournament_winner(&vec![3]), 3);
    for _ in 0..20 {
        assert!(ga.tournament_selection(3) < 4);
        assert!(ga.tournament_selection(0) < 4);
    }
}

#[test]
fn top_indices_sort_stably() {
    let pop = vec![
        genome(&[0], 3, 0),
        genome(&[0], 8, 0),
        genome(&[0], 3, 0),
        genome(&[0], 8, 0),
        genome(&[0], -1, 0),
    ];
    assert_eq!(top_indices(&pop, 5), vec![1, 3, 0, 2, 4]);
    assert_eq!(top_indices(&pop, 2), vec![1, 3]);
    assert_eq!(top_indices(&pop, 0), Vec::<usize>::new());
}

#[test]
fn new_random_genome_is_binary() {
    let g = Genome::new_random(64);
    assert_eq!(g.bits.len(), 64);
    assert!(g.bits.iter().all(|&b| b <= 1));
    let d = g.duplicate();
    assert_eq!(d.bits, g.bits);
}

#[test]
fn random_index_stays_below_its_bound() {
    for n in 1..20 {
        assert!(maze_runner::random::random_index(n) < n);
    }
    assert!(maze_runner::random::random_bit() <= 1);
}

#[test]
fn crossover_with_follows_the_draw() {
    let ga = GeneticAlgorithm::new(300_000, 0, 2, 0, 1, 4, 2).unwrap();
    let mom = [0, 0, 0, 0];
    let dad = [1, 1, 1, 1];
    // A draw below the rate recombines at the cut point.
    assert_eq!(ga.crossover_with(&mom, &dad, 299_999, 1), (vec![0, 1, 1, 1], vec![1, 0, 0, 0]));
    assert_eq!(ga.crossover_with(&mom, &dad, 0, 3), (vec![0, 0, 0, 1], vec![1, 1, 1, 0]));
    // A draw at or above the rate clones the parents.
    assert_eq!(ga.crossover_with(&mom, &dad, 300_000, 1), (vec![0, 0, 0, 0], vec![1, 1, 1, 1]));
    // Equal parents are cloned whatever the draw.
    assert_eq!(ga.crossover_with(&mom, &mom, 0, 2), (vec![0, 0, 0, 0], vec![0, 0, 0, 0]));
}

#[test]
fn crossover_at_full_rate_always_recombines() {
    let ga = GeneticAlgorithm::new(SCALE, 0, 2, 0, 1, 3, 2).unwrap();
    for _ in 0..50 {
        let (c1, c2) = ga.crossover(&[0, 0, 0], &[1, 1, 1]);
        let cp = c1.iter().take_while(|&&b| b == 0).count();
        assert!(cp < 3);
        let mut e1 = vec![0; cp];
        e1.extend(vec![1; 3 - cp]);
        let mut e2 = vec![1; cp];
        e2.extend(vec![0; 3 - cp]);
        assert_eq!((c1, c2), (e1, e2));
    }
}

#[test]
fn mutate_with_flips_where_the_draw_is_below_the_rate() {
    let mut ga = engine(1, 5, 0, 1);
    ga.set_mutation_rate(400_000);
    let mut bits = vec![1, 0, 1, 0, 1];
    ga.mutate_with(&mut bits, &vec![0, 399_999, 400_000, 999_999, 123]);
    assert_eq!(bits, vec![0, 1, 1, 0, 0]);
}

#[test]
fn adapt_raises_even_a_tiny_rate() {
    let mut ga = GeneticAlgorithm::new(0, 5, 4, 500_000, 1, 4, 2).unwrap();
    for g in ga.population.iter_mut() {
        g.bits = vec![0, 0, 1, 1];
    }
    let mut last = ga.mutation_rate;
    for _ in 0..5 {
        ga.adapt_mutation_rate(1, 300_000, 1);
        assert!(ga.mutation_rate > last);
        last = ga.mutation_rate;
    }
    // 5 -> 6 -> 7 -> 8 -> 9 -> 10, each rise rounded up.
    assert_eq!(ga.mutation_rate, 10);
    for _ in 0..200 {
        ga.adapt_mutation_rate(1, 300_000, 1);
    }
    assert_eq!(ga.mutation_rate, 300_000);
}

#[test]
fn generation_counter_stops_at_its_maximum() {
    let mut ga = engine(3, 4, 0, 5);
    ga.generation = usize::MAX;
    ga.epoch(count_zero_moves);
    assert_eq!(ga.generation, usize::MAX);
    assert_eq!(ga.population.len(), 3);
}
