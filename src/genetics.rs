//! The evolution engine: a population of genomes, the genetic operators with
//! their rates, selection, and the generational step.
//!
//! Rates and fractions are fixed-point numbers in millionths: `SCALE` stands
//! for 1, so a mutation rate of 50_000 is 5%.
use crate::diversity::{
    bits_at, diversity_fits, lemma_pair_distance_sum_prefix, lemma_row_distance_monotone,
    lemma_pair_distance_sum_bound, lemma_two_genome_diversity, mean_pair_distance, pair_distance_sum, row_distance, top_count,
};
use crate::genome::{
    copy_bits, cross_at, decode_bits, hamming, hamming_distance, is_binary, same_bits, spliced,
    Genome,
};
use crate::random::{random_below, random_index};
use crate::ranking::{is_top_selection, lemma_distinct_indices, ranks_before, top_indices};
use vstd::prelude::*;

verus! {

/// The fixed-point value of 1 for rates and fractions.
pub const SCALE: u64 = 1000000;

/// Why a configuration was refused.
#[derive(Clone, Copy, Debug, PartialEq, Eq, Structural)]
pub enum ConfigError {
    /// The population size is 0.
    EmptyPopulation,
    /// The crossover rate is above `SCALE`.
    CrossoverRateOutOfRange,
    /// The mutation rate is above `SCALE`.
    MutationRateOutOfRange,
    /// The elitism fraction is above `SCALE`.
    ElitismOutOfRange,
}

/// The engine state: the population, the parameters, and what the last
/// evaluation observed.
pub struct GeneticAlgorithm {
    pub population: Vec<Genome>,
    pub pop_size: usize,
    /// Fraction of the population carried over unchanged, in millionths.
    pub elitism: u64,
    pub stagnation_limit: usize,
    /// Probability of recombining two parents, in millionths.
    pub crossover_rate: u64,
    /// Probability of flipping each bit of a child, in millionths.
    pub mutation_rate: u64,
    pub chromo_length: usize,
    pub gene_length: usize,
    pub fittest_index: usize,
    pub best_fitness: i64,
    pub total_fitness: i128,
    pub generation: usize,
}

/// The first rule that a configuration breaks, if any.
pub open spec fn config_error(
    crossover_rate: u64,
    mutation_rate: u64,
    pop_size: usize,
    elitism: u64,
) -> Option<ConfigError> {
    if pop_size == 0 {
        Some(ConfigError::EmptyPopulation)
    } else if crossover_rate > SCALE {
        Some(ConfigError::CrossoverRateOutOfRange)
    } else if mutation_rate > SCALE {
        Some(ConfigError::MutationRateOutOfRange)
    } else if elitism > SCALE {
        Some(ConfigError::ElitismOutOfRange)
    } else {
        None
    }
}

/// Every genome of `pop` holds `len` binary symbols.
pub open spec fn genomes_well_formed(pop: Seq<Genome>, len: usize) -> bool {
    forall|i: int|
        0 <= i < pop.len() ==> {
            &&& (#[trigger] pop[i]).bits@.len() == len
            &&& is_binary(pop[i].bits@)
        }
}

/// A freshly drawn genome: `len` binary symbols, fitness 0, stagnation 0.
pub open spec fn is_fresh(g: Genome, len: usize) -> bool {
    &&& g.bits@.len() == len
    &&& is_binary(g.bits@)
    &&& g.fitness == 0
    &&& g.stagnation == 0
}

/// `a` and `b` hold the same bits, fitness and stagnation.
pub open spec fn same_genome(a: Genome, b: Genome) -> bool {
    &&& a.bits@ == b.bits@
    &&& a.fitness == b.fitness
    &&& a.stagnation == b.stagnation
}

/// The number of elites: `floor(elitism * pop_size)`.
pub open spec fn elite_count(elitism: u64, pop_size: usize) -> int {
    (elitism as int * pop_size as int) / (SCALE as int)
}

/// The size of the subset whose diversity steers the mutation rate:
/// `ceil(elitism * pop_size)`.
pub open spec fn elite_ceil(elitism: u64, pop_size: usize) -> int {
    (elitism as int * pop_size as int + SCALE as int - 1) / (SCALE as int)
}

/// Each symbol of `bits` XOR 1.
pub open spec fn complement(bits: Seq<u8>) -> Seq<u8> {
    Seq::new(bits.len(), |i: int| bits[i] ^ 1u8)
}

/// `bits` with symbol `i` flipped exactly where `draws[i] < rate`.
pub open spec fn mutated(bits: Seq<u8>, draws: Seq<u64>, rate: u64) -> Seq<u8> {
    Seq::new(bits.len(), |i: int| if draws[i] < rate { bits[i] ^ 1u8 } else { bits[i] })
}

/// The children of `mom` and `dad` for a recombination draw `draw` and a cut
/// point `cp`: the single-point crossover at `cp` where `draw < rate` and the
/// parents differ, else the parents themselves.
pub open spec fn crossover_result(mom: Seq<u8>, dad: Seq<u8>, rate: u64, draw: u64, cp: int) -> (
    Seq<u8>,
    Seq<u8>,
) {
    if draw >= rate || mom == dad {
        (mom, dad)
    } else {
        (spliced(mom, dad, cp), spliced(dad, mom, cp))
    }
}

/// The sum of the fitness values of `pop`.
pub open spec fn fitness_sum(pop: Seq<Genome>) -> int
    decreases pop.len(),
{
    if pop.len() == 0 {
        0
    } else {
        fitness_sum(pop.drop_last()) + pop.last().fitness
    }
}

/// The stagnation of a genome that scored `score` after `fitness`: reset on a
/// strict improvement, counted up (up to `usize::MAX`) otherwise.
pub open spec fn next_stagnation(fitness: i64, stagnation: usize, score: i64) -> usize {
    if score > fitness {
        0
    } else if stagnation == usize::MAX {
        stagnation
    } else {
        (stagnation + 1) as usize
    }
}

/// `index` is the first genome of `pop` whose fitness is the largest, and
/// `best` is that fitness.
pub open spec fn is_first_fittest(pop: Seq<Genome>, index: int, best: i64) -> bool {
    &&& 0 <= index < pop.len()
    &&& pop[index].fitness == best
    &&& forall|j: int| 0 <= j < pop.len() ==> (#[trigger] pop[j]).fitness <= best
    &&& forall|j: int| 0 <= j < index ==> (#[trigger] pop[j]).fitness < best
}

/// The roulette wheel's pick for `threshold`: the first genome whose running
/// fitness total exceeds it, or the first genome where none does.
pub open spec fn roulette_choice(pop: Seq<Genome>, threshold: int, r: int) -> bool {
    &&& 0 <= r < pop.len()
    &&& (forall|j: int| 0 <= j < r ==> fitness_sum(#[trigger] pop.take(j + 1)) <= threshold)
    &&& (fitness_sum(pop.take(r + 1)) > threshold || (r == 0 && forall|j: int|
        0 <= j < pop.len() ==> fitness_sum(#[trigger] pop.take(j + 1)) <= threshold))
}

/// The winner of a tournament among the genomes at `draws`: the first drawn
/// genome whose fitness no other drawn genome exceeds.
pub open spec fn tournament_choice(pop: Seq<Genome>, draws: Seq<usize>, r: int) -> bool {
    exists|w: int|
        0 <= w < draws.len() && r == draws[w] && (forall|j: int|
            0 <= j < draws.len() ==> pop[#[trigger] draws[j] as int].fitness <= pop[r].fitness)
            && (forall|j: int|
            0 <= j < w ==> pop[#[trigger] draws[j] as int].fitness < pop[r].fitness)
}

/// A sum of `pop.len()` values of type `i64` lies within `pop.len()` times the
/// range of `i64`.
pub proof fn lemma_fitness_sum_bound(pop: Seq<Genome>)
    ensures
        -(pop.len() as int) * 0x8000_0000_0000_0000 <= fitness_sum(pop) <= (pop.len() as int)
            * 0x8000_0000_0000_0000,
    decreases pop.len(),
{
    if pop.len() > 0 {
        lemma_fitness_sum_bound(pop.drop_last());
    }
}

proof fn lemma_fitness_sum_take(pop: Seq<Genome>, i: int)
    requires
        0 <= i < pop.len(),
    ensures
        fitness_sum(pop.take(i + 1)) == fitness_sum(pop.take(i)) + pop[i].fitness,
{
    assert(pop.take(i + 1).drop_last() =~= pop.take(i));
}


/// `new` is `old` after recording `scores`: bits and parameters kept, each
/// fitness replaced and each stagnation stepped, and the totals recomputed.
pub open spec fn scored(old: GeneticAlgorithm, new: GeneticAlgorithm, scores: Seq<i64>) -> bool {
    &&& new.same_config(&old)
    &&& new.generation == old.generation
    &&& new.population@.len() == old.population@.len()
    &&& forall|i: int|
        0 <= i < old.population@.len() ==> {
            &&& (#[trigger] new.population@[i]).bits@ == old.population@[i].bits@
            &&& new.population@[i].fitness == scores[i]
            &&& new.population@[i].stagnation == next_stagnation(
                old.population@[i].fitness,
                old.population@[i].stagnation,
                scores[i],
            )
        }
    &&& new.total_fitness == fitness_sum(new.population@)
    &&& new.population@.len() > 0 ==> is_first_fittest(
        new.population@,
        new.fittest_index as int,
        new.best_fitness,
    )
    &&& new.population@.len() == 0 ==> new.fittest_index == 0 && new.best_fitness == i64::MIN
}

/// The genomes of `pop` whose stagnation is below `limit`, in order.
pub open spec fn survivors(pop: Seq<Genome>, limit: usize) -> Seq<Genome> {
    pop.filter(|g: Genome| g.stagnation < limit)
}

/// `cross` is `a` itself or a single-point crossover of `a` with `b`: `a` up
/// to a cut point below `a.len()`, then `b`.
pub open spec fn is_cross_of(a: Seq<u8>, b: Seq<u8>, cross: Seq<u8>) -> bool {
    cross == a || exists|cp: int| 0 <= cp < a.len() && cross == spliced(a, b, cp)
}

/// `child` was bred from two genomes `p` and `q` of `parents`: its fitness is
/// 0 and its stagnation the truncated mean of theirs. Its bits are a crossing
/// of `p` with `q` (`p` itself where crossover is off), kept as they are where
/// mutation is off and all flipped where mutation is certain.
pub open spec fn is_child(
    parents: Seq<Genome>,
    child: Genome,
    crossover_rate: u64,
    mutation_rate: u64,
) -> bool {
    &&& child.fitness == 0
    &&& exists|p: int, q: int, cross: Seq<u8>|
        0 <= p < parents.len() && 0 <= q < parents.len() && child.stagnation == (
        parents[p].stagnation + parents[q].stagnation) / 2 && #[trigger] is_cross_of(
            parents[p].bits@,
            parents[q].bits@,
            cross,
        ) && (crossover_rate == 0 ==> cross == parents[p].bits@) && (mutation_rate == 0
            ==> child.bits@ == cross) && (mutation_rate >= SCALE ==> child.bits@ == complement(
            cross,
        ))
}

/// `next` is a generation bred from `parents`: its first `k` genomes are
/// copies of the `k` fittest parents, best first, and the rest are children.
pub open spec fn bred_population(
    parents: Seq<Genome>,
    next: Seq<Genome>,
    k: int,
    crossover_rate: u64,
    mutation_rate: u64,
) -> bool {
    &&& exists|idx: Seq<usize>|
        is_top_selection(parents, idx, k) && forall|t: int|
            0 <= t < k ==> same_genome(#[trigger] next[t], parents[idx[t] as int])
    &&& forall|i: int|
        k <= i < next.len() ==> is_child(parents, #[trigger] next[i], crossover_rate, mutation_rate)
}

/// `new` is the generation after `old`: the stagnant genomes of `old` are
/// replaced by fresh ones, and from that population a full new one is bred.
pub open spec fn bred_from(old: GeneticAlgorithm, new: GeneticAlgorithm) -> bool {
    let kept = survivors(old.population@, old.stagnation_limit);
    &&& new.wf()
    &&& new.same_config(&old)
    &&& new.generation == next_count(old.generation)
    &&& new.fittest_index == old.fittest_index
    &&& new.best_fitness == old.best_fitness
    &&& new.total_fitness == old.total_fitness
    &&& exists|fresh: Seq<Genome>|
        kept.len() + fresh.len() == old.pop_size && (forall|i: int|
            0 <= i < fresh.len() ==> is_fresh(#[trigger] fresh[i], old.chromo_length))
            && bred_population(
            kept + fresh,
            new.population@,
            elite_count(old.elitism, old.pop_size),
            old.crossover_rate,
            old.mutation_rate,
        )
}

/// A counter after one more step: one up, stopping at `usize::MAX`.
pub open spec fn next_count(n: usize) -> usize {
    if n < usize::MAX {
        (n + 1) as usize
    } else {
        n
    }
}

/// Every score is one that `oracle` may return for the moves that the genome
/// at the same position decodes to.
pub open spec fn evaluated_by<F: Fn(Vec<u8>) -> i64>(
    oracle: F,
    pop: Seq<Genome>,
    scores: Seq<i64>,
) -> bool {
    &&& scores.len() == pop.len()
    &&& forall|i: int|
        0 <= i < pop.len() ==> may_score(oracle, pop[i].bits@, #[trigger] scores[i])
}

/// `score` is a result that `oracle` may return for the moves `bits` decode to.
pub open spec fn may_score<F: Fn(Vec<u8>) -> i64>(oracle: F, bits: Seq<u8>, score: i64) -> bool {
    exists|m: Vec<u8>| m@ == decode_bits(bits) && call_ensures(oracle, (m,), score)
}

/// `new` is `old` after one epoch with `oracle`: a generation bred from `old`,
/// then scored by `oracle`.
pub open spec fn epoch_result<F: Fn(Vec<u8>) -> i64>(
    old: GeneticAlgorithm,
    new: GeneticAlgorithm,
    oracle: F,
) -> bool {
    exists|bred: GeneticAlgorithm|
        bred_from(old, bred) && exists|scores: Seq<i64>|
            evaluated_by(oracle, bred.population@, scores) && scored(bred, new, scores)
}

/// The survivors of a population of well-formed genomes are well-formed.
pub proof fn lemma_survivors_well_formed(pop: Seq<Genome>, limit: usize, len: usize)
    requires
        genomes_well_formed(pop, len),
    ensures
        genomes_well_formed(survivors(pop, limit), len),
    decreases pop.len(),
{
    reveal(Seq::filter);
    if pop.len() > 0 {
        lemma_survivors_well_formed(pop.drop_last(), limit, len);
    }
}

/// Where no genome has reached the stagnation limit, every genome survives.
pub proof fn lemma_survivors_all(pop: Seq<Genome>, limit: usize)
    requires
        forall|i: int| 0 <= i < pop.len() ==> (#[trigger] pop[i]).stagnation < limit,
    ensures
        survivors(pop, limit) == pop,
    decreases pop.len(),
{
    reveal(Seq::filter);
    if pop.len() > 0 {
        lemma_survivors_all(pop.drop_last(), limit);
        assert(pop.drop_last().push(pop.last()) =~= pop);
    }
}

/// `d` is the diversity of the `top_n` fittest genomes of `pop` (all of them
/// where there are fewer): their mean pairwise Hamming distance in millionths.
pub open spec fn is_diversity(pop: Seq<Genome>, top_n: int, d: int) -> bool {
    exists|idx: Seq<usize>|
        is_top_selection(pop, idx, top_count(pop, top_n)) && d == mean_pair_distance(
            bits_at(pop, idx),
        )
}

/// The mutation rate after one adaptation step: up by 10% (at most `max_rate`)
/// where the diversity is below the target, else down by 10% (at least
/// `min_rate`). A rise is rounded up and a fall rounded down, so
/// every positive rate moves.
pub open spec fn adapted_rate(
    rate: u64,
    diversity: int,
    min_rate: u64,
    max_rate: u64,
    target: u64,
) -> u64 {
    if diversity < target {
        let up = (rate as int * 11 + 9) / 10;
        if up < max_rate {
            up as u64
        } else {
            max_rate
        }
    } else {
        let down = rate as int * 9 / 10;
        if down > min_rate {
            down as u64
        } else {
            min_rate
        }
    }
}

impl GeneticAlgorithm {
    /// The parameters of `self` and `other` agree.
    pub open spec fn same_config(&self, other: &GeneticAlgorithm) -> bool {
        &&& self.pop_size == other.pop_size
        &&& self.elitism == other.elitism
        &&& self.stagnation_limit == other.stagnation_limit
        &&& self.crossover_rate == other.crossover_rate
        &&& self.mutation_rate == other.mutation_rate
        &&& self.chromo_length == other.chromo_length
        &&& self.gene_length == other.gene_length
    }

    /// The state holds between generations: a valid configuration and a full
    /// population of well-formed genomes.
    pub open spec fn wf(&self) -> bool {
        &&& self.pop_size > 0
        &&& self.elitism <= SCALE
        &&& self.population@.len() == self.pop_size
        &&& genomes_well_formed(self.population@, self.chromo_length)
    }

    /// An engine with the given parameters and a random starting population,
    /// or the first rule the parameters break.
    pub fn new(
        crossover_rate: u64,
        mutation_rate: u64,
        pop_size: usize,
        elitism: u64,
        stagnation_limit: usize,
        chromo_length: usize,
        gene_length: usize,
    ) -> (r: Result<GeneticAlgorithm, ConfigError>)
        ensures
            r is Ok <==> config_error(crossover_rate, mutation_rate, pop_size, elitism).is_none(),
            r matches Err(e) ==> config_error(crossover_rate, mutation_rate, pop_size, elitism)
                == Some(e),
            r matches Ok(ga) ==> {
                &&& ga.wf()
                &&& ga.crossover_rate == crossover_rate
                &&& ga.mutation_rate == mutation_rate
                &&& ga.pop_size == pop_size
                &&& ga.elitism == elitism
                &&& ga.stagnation_limit == stagnation_limit
                &&& ga.chromo_length == chromo_length
                &&& ga.gene_length == gene_length
                &&& ga.fittest_index == 0
                &&& ga.best_fitness == 0
                &&& ga.total_fitness == 0
                &&& ga.generation == 0
                &&& forall|i: int|
                    0 <= i < ga.population@.len() ==> is_fresh(
                        #[trigger] ga.population@[i],
                        chromo_length,
                    )
            },
    {
        if pop_size == 0 {
            return Err(ConfigError::EmptyPopulation);
        }
        if crossover_rate > SCALE {
            return Err(ConfigError::CrossoverRateOutOfRange);
        }
        if mutation_rate > SCALE {
            return Err(ConfigError::MutationRateOutOfRange);
        }
        if elitism > SCALE {
            return Err(ConfigError::ElitismOutOfRange);
        }
        let mut algo = GeneticAlgorithm {
            population: Vec::new(),
            pop_size,
            elitism,
            stagnation_limit,
            crossover_rate,
            mutation_rate,
            chromo_length,
            gene_length,
            fittest_index: 0,
            best_fitness: 0,
            total_fitness: 0,
            generation: 0,
        };
        algo.create_start_population();
        Ok(algo)
    }

    /// Replaces the population with `pop_size` fresh random genomes.
    fn create_start_population(&mut self)
        ensures
            final(self).same_config(old(self)),
            final(self).population@.len() == old(self).pop_size,
            forall|i: int|
                0 <= i < final(self).population@.len() ==> is_fresh(
                    #[trigger] final(self).population@[i],
                    old(self).chromo_length,
                ),
            final(self).fittest_index == old(self).fittest_index,
            final(self).best_fitness == old(self).best_fitness,
            final(self).total_fitness == old(self).total_fitness,
            final(self).generation == old(self).generation,
    {
        let mut pop: Vec<Genome> = Vec::new();
        let mut i: usize = 0;
        while i < self.pop_size
            invariant
                i <= self.pop_size,
                pop@.len() == i,
                forall|j: int| 0 <= j < i ==> is_fresh(#[trigger] pop@[j], self.chromo_length),
            decreases self.pop_size - i,
        {
            pop.push(Genome::new_random(self.chromo_length));
            i = i + 1;
        }
        self.population = pop;
    }

    /// The move codes that `bits` encode, two bits per move; a trailing
    /// unpaired bit is dropped.
    pub fn decode(&self, bits: &[u8]) -> (r: Vec<u8>)
        ensures
            r@ == decode_bits(bits@),
    {
        let n: usize = bits.len() / 2;
        let mut decoded: Vec<u8> = Vec::new();
        let mut g: usize = 0;
        while g < n
            invariant
                n == bits@.len() / 2,
                2 * n <= bits@.len(),
                bits@.len() <= usize::MAX,
                g <= n,
                decoded@ == decode_bits(bits@).take(g as int),
            decreases n - g,
        {
            let hi = bits[2 * g];
            let lo = bits[2 * g + 1];
            let dir: u8 = if hi == 0 && lo == 0 {
                0
            } else if hi == 0 && lo == 1 {
                1
            } else if hi == 1 && lo == 0 {
                2
            } else if hi == 1 && lo == 1 {
                3
            } else {
                0
            };
            decoded.push(dir);
            g = g + 1;
            assert(decoded@ =~= decode_bits(bits@).take(g as int));
        }
        assert(decode_bits(bits@).take(n as int) =~= decode_bits(bits@));
        decoded
    }

    /// Flips each bit whose draw is below `mutation_rate`: bit `i` is flipped
    /// exactly when `draws[i] < mutation_rate`.
    pub fn mutate_with(&self, bits: &mut Vec<u8>, draws: &Vec<u64>)
        requires
            draws@.len() == old(bits)@.len(),
        ensures
            final(bits)@ == mutated(old(bits)@, draws@, self.mutation_rate),
    {
        let ghost start = bits@;
        let mut i: usize = 0;
        while i < bits.len()
            invariant
                bits@.len() == start.len(),
                draws@.len() == start.len(),
                i <= bits@.len(),
                forall|j: int| i <= j < start.len() ==> #[trigger] bits@[j] == start[j],
                forall|j: int|
                    0 <= j < i ==> #[trigger] bits@[j] == mutated(start, draws@, self.mutation_rate)[j],
            decreases bits@.len() - i,
        {
            if draws[i] < self.mutation_rate {
                let b = bits[i];
                bits.set(i, b ^ 1u8);
            }
            i = i + 1;
        }
        assert(bits@ =~= mutated(start, draws@, self.mutation_rate));
    }

    /// Flips each bit independently with probability `mutation_rate`: one draw
    /// in `[0, SCALE)` per bit, handed to `mutate_with`.
    pub fn mutate(&self, bits: &mut Vec<u8>)
        ensures
            exists|draws: Seq<u64>|
                draws.len() == old(bits)@.len() && (forall|i: int|
                    0 <= i < draws.len() ==> #[trigger] draws[i] < SCALE) && final(bits)@ == mutated(
                    old(bits)@,
                    draws,
                    self.mutation_rate,
                ),
            final(bits)@.len() == old(bits)@.len(),
            self.mutation_rate == 0 ==> final(bits)@ == old(bits)@,
            self.mutation_rate >= SCALE ==> final(bits)@ == complement(old(bits)@),
            is_binary(old(bits)@) ==> is_binary(final(bits)@),
    {
        let ghost start = bits@;
        let mut draws: Vec<u64> = Vec::new();
        let mut i: usize = 0;
        while i < bits.len()
            invariant
                bits@ == start,
                i <= bits@.len(),
                draws@.len() == i,
                forall|j: int| 0 <= j < i ==> #[trigger] draws@[j] < SCALE,
            decreases bits@.len() - i,
        {
            draws.push(random_below(SCALE as u128) as u64);
            i = i + 1;
        }
        self.mutate_with(bits, &draws);
        proof {
            if self.mutation_rate == 0 {
                assert(bits@ =~= start);
            }
            if self.mutation_rate >= SCALE {
                assert(bits@ =~= complement(start));
            }
            if is_binary(start) {
                assert forall|j: int| 0 <= j < bits@.len() implies #[trigger] bits@[j] <= 1 by {
                    let b = start[j];
                    assert(b <= 1 ==> b ^ 1u8 <= 1) by (bit_vector);
                }
            }
        }
    }

    /// The children for a recombination draw `draw` (in millionths) and a cut
    /// point `cp`: where `draw < crossover_rate` and the parents differ, the
    /// single-point crossover at `cp`; otherwise the parents unchanged.
    pub fn crossover_with(&self, mom: &[u8], dad: &[u8], draw: u64, cp: usize) -> (r: (
        Vec<u8>,
        Vec<u8>,
    ))
        requires
            mom@.len() == self.chromo_length,
            dad@.len() == self.chromo_length,
            cp <= self.chromo_length,
        ensures
            (r.0@, r.1@) == crossover_result(mom@, dad@, self.crossover_rate, draw, cp as int),
    {
        if draw >= self.crossover_rate || same_bits(mom, dad) {
            return (copy_bits(mom), copy_bits(dad));
        }
        cross_at(mom, dad, cp)
    }

    /// Recombines with probability `crossover_rate`: a draw in `[0, SCALE)` and
    /// a cut point in `[0, chromo_length)` are handed to `crossover_with`. Equal
    /// parents always come back unchanged; at rate 0 no pair recombines, and at
    /// rate `SCALE` every pair of differing parents does.
    pub fn crossover(&self, mom: &[u8], dad: &[u8]) -> (r: (Vec<u8>, Vec<u8>))
        requires
            mom@.len() == self.chromo_length,
            dad@.len() == self.chromo_length,
        ensures
            exists|draw: u64, cp: int|
                draw < SCALE && (0 <= cp < self.chromo_length || (cp == 0 && self.chromo_length
                    == 0)) && (r.0@, r.1@) == crossover_result(
                    mom@,
                    dad@,
                    self.crossover_rate,
                    draw,
                    cp,
                ),
            mom@ == dad@ ==> r.0@ == mom@ && r.1@ == dad@,
            self.crossover_rate == 0 ==> r.0@ == mom@ && r.1@ == dad@,
            self.crossover_rate >= SCALE && mom@ != dad@ ==> exists|cp: int|
                0 <= cp < self.chromo_length && r.0@ == spliced(mom@, dad@, cp) && r.1@ == spliced(
                    dad@,
                    mom@,
                    cp,
                ),
            (r.0@ == mom@ && r.1@ == dad@) || exists|cp: int|
                0 <= cp < self.chromo_length && r.0@ == spliced(mom@, dad@, cp) && r.1@ == spliced(
                    dad@,
                    mom@,
                    cp,
                ),
    {
        let draw = random_below(SCALE as u128) as u64;
        let cp: usize = if self.chromo_length > 0 {
            random_index(self.chromo_length)
        } else {
            0
        };
        if self.chromo_length == 0 {
            assert(mom@ =~= dad@);
        }
        self.crossover_with(mom, dad, draw, cp)
    }

    /// The roulette wheel's pick for `threshold` (see `roulette_choice`).
    pub fn roulette_pick(&self, threshold: i128) -> (r: usize)
        requires
            self.population@.len() > 0,
        ensures
            roulette_choice(self.population@, threshold as int, r as int),
    {
        let ghost pop = self.population@;
        let mut total: i128 = 0;
        let mut i: usize = 0;
        while i < self.population.len()
            invariant
                pop == self.population@,
                i <= pop.len(),
                total == fitness_sum(pop.take(i as int)),
                forall|j: int| 0 <= j < i ==> fitness_sum(#[trigger] pop.take(j + 1)) <= threshold,
            decreases pop.len() - i,
        {
            proof {
                lemma_fitness_sum_take(pop, i as int);
                lemma_fitness_sum_bound(pop.take(i as int + 1));
            }
            total = total + self.population[i].fitness as i128;
            if total > threshold {
                return i;
            }
            i = i + 1;
        }
        0
    }

    /// Roulette-wheel selection: a threshold is drawn in `[0, total_fitness)`
    /// and handed to `roulette_pick`. Where `total_fitness` is not positive the
    /// first genome is chosen.
    pub fn roulette_selection(&self) -> (r: usize)
        requires
            self.population@.len() > 0,
        ensures
            r < self.population@.len(),
            self.total_fitness <= 0 ==> r == 0,
            self.total_fitness > 0 ==> exists|t: int|
                0 <= t < self.total_fitness && roulette_choice(self.population@, t, r as int),
    {
        if self.total_fitness <= 0 {
            return 0;
        }
        let t = random_below(self.total_fitness as u128) as i128;
        self.roulette_pick(t)
    }

    /// The winner of a tournament among the genomes at `draws` (see
    /// `tournament_choice`).
    pub fn tournament_winner(&self, draws: &Vec<usize>) -> (r: usize)
        requires
            draws@.len() > 0,
            forall|j: int| 0 <= j < draws@.len() ==> #[trigger] draws@[j] < self.population@.len(),
        ensures
            r < self.population@.len(),
            tournament_choice(self.population@, draws@, r as int),
    {
        let ghost pop = self.population@;
        let mut w: usize = 0;
        let mut best: usize = draws[0];
        let mut j: usize = 1;
        while j < draws.len()
            invariant
                pop == self.population@,
                1 <= j <= draws@.len(),
                w < j,
                best == draws@[w as int],
                best < pop.len(),
                forall|i: int| 0 <= i < draws@.len() ==> #[trigger] draws@[i] < pop.len(),
                forall|i: int| 0 <= i < j ==> pop[#[trigger] draws@[i] as int].fitness <= pop[best as int].fitness,
                forall|i: int| 0 <= i < w ==> pop[#[trigger] draws@[i] as int].fitness < pop[best as int].fitness,
            decreases draws@.len() - j,
        {
            let contender = draws[j];
            if self.population[contender].fitness > self.population[best].fitness {
                best = contender;
                w = j;
            }
            j = j + 1;
        }
        best
    }

    /// Tournament selection: `k` genomes (at least one) are drawn uniformly
    /// with replacement and `tournament_winner` picks among them.
    pub fn tournament_selection(&self, k: usize) -> (r: usize)
        requires
            self.population@.len() > 0,
        ensures
            r < self.population@.len(),
            exists|draws: Seq<usize>|
                draws.len() == if k == 0 { 1 } else { k } && tournament_choice(self.population@, draws, r as int),
    {
        let rounds: usize = if k == 0 { 1 } else { k };
        let mut draws: Vec<usize> = Vec::new();
        let mut i: usize = 0;
        while i < rounds
            invariant
                i <= rounds,
                draws@.len() == i,
                forall|j: int| 0 <= j < i ==> #[trigger] draws@[j] < self.population@.len(),
                self.population@.len() > 0,
            decreases rounds - i,
        {
            draws.push(random_index(self.population.len()));
            i = i + 1;
        }
        self.tournament_winner(&draws)
    }

    /// Records `scores[i]` as the fitness of genome `i`: its stagnation is reset
    /// on a strict improvement and counted up otherwise. `total_fitness`,
    /// `best_fitness` and `fittest_index` are recomputed from scratch.
    pub fn apply_scores(&mut self, scores: &Vec<i64>)
        requires
            scores@.len() == old(self).population@.len(),
        ensures
            scored(*old(self), *final(self), scores@),
    {
        let ghost start = self.population@;
        let n = self.population.len();
        let mut total: i128 = 0;
        let mut best: i64 = i64::MIN;
        let mut index: usize = 0;
        let mut i: usize = 0;
        while i < n
            invariant
                n == start.len(),
                scores@.len() == n,
                self.population@.len() == n,
                i <= n,
                forall|j: int| 0 <= j < n ==> (#[trigger] self.population@[j]).bits@ == start[j].bits@,
                forall|j: int| i <= j < n ==> #[trigger] self.population@[j] == start[j],
                forall|j: int| 0 <= j < i ==> (#[trigger] self.population@[j]).fitness == scores@[j],
                forall|j: int| 0 <= j < i ==> (#[trigger] self.population@[j]).stagnation
                    == next_stagnation(start[j].fitness, start[j].stagnation, scores@[j]),
                total == fitness_sum(self.population@.take(i as int)),
                forall|j: int| 0 <= j < i ==> (#[trigger] self.population@[j]).fitness <= best,
                forall|j: int| 0 <= j < index ==> (#[trigger] self.population@[j]).fitness < best,
                (best == i64::MIN && index == 0) || (index < i && self.population@[index as int].fitness == best),
                self.same_config(old(self)),
                self.generation == old(self).generation,
            decreases n - i,
        {
            let score = scores[i];
            let prev = self.population[i].fitness;
            let stag = self.population[i].stagnation;
            let new_stag: usize = if score > prev {
                0
            } else if stag == usize::MAX {
                stag
            } else {
                stag + 1
            };
            let ghost before = self.population@;
            self.population[i].fitness = score;
            self.population[i].stagnation = new_stag;
            proof {
                lemma_fitness_sum_take(self.population@, i as int);
                lemma_fitness_sum_bound(self.population@.take(i as int + 1));
                assert(self.population@.take(i as int) =~= before.take(i as int));
            }
            total = total + score as i128;
            if score > best {
                best = score;
                index = i;
            }
            i = i + 1;
        }
        self.total_fitness = total;
        self.best_fitness = best;
        self.fittest_index = index;
        assert(self.population@.take(n as int) =~= self.population@);
    }

    /// Scores every genome with `oracle`, called on its decoded moves one
    /// genome after another, and records the scores as `apply_scores` does.
    /// A caller that evaluates the genomes concurrently hands its scores, in
    /// population order, to `apply_scores` instead: the outcome is the same.
    pub fn update_fitness<F: Fn(Vec<u8>) -> i64>(&mut self, oracle: F)
        requires
            forall|m: Vec<u8>| call_requires(oracle, (m,)),
        ensures
            exists|scores: Seq<i64>|
                evaluated_by(oracle, old(self).population@, scores) && scored(
                    *old(self),
                    *final(self),
                    scores,
                ),
            final(self).total_fitness == fitness_sum(final(self).population@),
            final(self).population@.len() > 0 ==> is_first_fittest(
                final(self).population@,
                final(self).fittest_index as int,
                final(self).best_fitness,
            ),
            old(self).wf() ==> final(self).wf(),
    {
        let n = self.population.len();
        let mut scores: Vec<i64> = Vec::new();
        let mut i: usize = 0;
        while i < n
            invariant
                n == self.population@.len(),
                i <= n,
                scores@.len() == i,
                forall|m: Vec<u8>| call_requires(oracle, (m,)),
                forall|j: int|
                    0 <= j < i ==> may_score(oracle, self.population@[j].bits@, #[trigger] scores@[j]),
            decreases n - i,
        {
            let moves = self.decode(self.population[i].bits.as_slice());
            let ghost mv = moves;
            let score = oracle(moves);
            let ghost prev = scores@;
            scores.push(score);
            proof {
                assert forall|j: int| 0 <= j < i + 1 implies may_score(
                    oracle,
                    self.population@[j].bits@,
                    #[trigger] scores@[j],
                ) by {
                    if j < i {
                        assert(scores@[j] == prev[j]);
                    } else {
                        assert(mv@ == decode_bits(self.population@[j].bits@) && call_ensures(
                            oracle,
                            (mv,),
                            scores@[j],
                        ));
                    }
                }
            }
            i = i + 1;
        }
        let ghost before = *self;
        self.apply_scores(&scores);
        assert(evaluated_by(oracle, before.population@, scores@));
        proof {
            if before.wf() {
                assert forall|j: int| 0 <= j < self.population@.len() implies {
                    &&& (#[trigger] self.population@[j]).bits@.len() == self.chromo_length
                    &&& is_binary(self.population@[j].bits@)
                } by {
                    assert(self.population@[j].bits@ == before.population@[j].bits@);
                }
            }
        }
    }

    /// Removes every genome whose stagnation has reached `stagnation_limit`.
    pub fn cull(&mut self)
        ensures
            final(self).population@ == survivors(old(self).population@, old(self).stagnation_limit),
            final(self).same_config(old(self)),
            final(self).generation == old(self).generation,
            final(self).fittest_index == old(self).fittest_index,
            final(self).best_fitness == old(self).best_fitness,
            final(self).total_fitness == old(self).total_fitness,
    {
        let ghost start = self.population@;
        let ghost limit = self.stagnation_limit;
        let mut kept: Vec<Genome> = Vec::new();
        let n = self.population.len();
        let mut i: usize = 0;
        while i < n
            invariant
                n == start.len(),
                self.population@.len() == n,
                i <= n,
                limit == self.stagnation_limit,
                forall|j: int| i <= j < n ==> #[trigger] self.population@[j] == start[j],
                kept@ == survivors(start.take(i as int), limit),
                self.same_config(old(self)),
                self.generation == old(self).generation,
                self.fittest_index == old(self).fittest_index,
                self.best_fitness == old(self).best_fitness,
                self.total_fitness == old(self).total_fitness,
            decreases n - i,
        {
            proof {
                assert(start.take(i as int + 1).drop_last() =~= start.take(i as int));
                reveal(Seq::filter);
            }
            if self.population[i].stagnation < self.stagnation_limit {
                let mut g = Genome { bits: Vec::new(), fitness: 0, stagnation: 0 };
                std::mem::swap(&mut g, &mut self.population[i]);
                kept.push(g);
            }
            i = i + 1;
        }
        assert(start.take(n as int) =~= start);
        self.population = kept;
    }

    /// Appends `count` fresh random genomes, then truncates the population to
    /// `pop_size`.
    pub fn inject_random_individuals(&mut self, count: usize)
        ensures
            final(self).population@.len() == if old(self).population@.len() + count
                > old(self).pop_size {
                old(self).pop_size as int
            } else {
                old(self).population@.len() + count
            },
            forall|i: int|
                0 <= i < final(self).population@.len() && i < old(self).population@.len()
                    ==> #[trigger] final(self).population@[i] == old(self).population@[i],
            forall|i: int|
                old(self).population@.len() <= i < final(self).population@.len() ==> is_fresh(
                    #[trigger] final(self).population@[i],
                    old(self).chromo_length,
                ),
            final(self).same_config(old(self)),
            final(self).generation == old(self).generation,
            final(self).fittest_index == old(self).fittest_index,
            final(self).best_fitness == old(self).best_fitness,
            final(self).total_fitness == old(self).total_fitness,
    {
        let ghost start = self.population@;
        let mut i: usize = 0;
        while i < count && self.population.len() < self.pop_size
            invariant
                i <= count,
                self.population@.len() == start.len() + i,
                i > 0 ==> self.population@.len() <= self.pop_size,
                forall|j: int| 0 <= j < start.len() ==> #[trigger] self.population@[j] == start[j],
                forall|j: int|
                    start.len() <= j < self.population@.len() ==> is_fresh(
                        #[trigger] self.population@[j],
                        self.chromo_length,
                    ),
                self.same_config(old(self)),
                self.generation == old(self).generation,
                self.fittest_index == old(self).fittest_index,
                self.best_fitness == old(self).best_fitness,
                self.total_fitness == old(self).total_fitness,
            decreases count - i,
        {
            self.population.push(Genome::new_random(self.chromo_length));
            i = i + 1;
        }
        if self.population.len() > self.pop_size {
            self.population.truncate(self.pop_size);
        }
    }

    /// One generational step up to the evaluation: genomes that reached the
    /// stagnation limit are culled and replaced by fresh ones, the fittest
    /// `floor(elitism * pop_size)` are copied over unchanged, and the rest of
    /// the new population is bred by tournament selection (of three),
    /// crossover and mutation. The generation counter goes up by one, stopping
    /// at `usize::MAX`.
    pub fn next_generation(&mut self)
        requires
            old(self).wf(),
        ensures
            bred_from(*old(self), *final(self)),
    {
        let ghost start = *self;
        self.cull();
        let ghost kept = self.population@;
        proof {
            start.population@.lemma_filter_len(|g: Genome| g.stagnation < start.stagnation_limit);
            lemma_survivors_well_formed(start.population@, start.stagnation_limit, start.chromo_length);
        }
        let missing = self.pop_size - self.population.len();
        self.inject_random_individuals(missing);
        let ghost parents = self.population@;
        let ghost fresh = parents.skip(kept.len() as int);
        proof {
            assert(parents =~= kept + fresh);
            assert forall|i: int| 0 <= i < parents.len() implies {
                &&& (#[trigger] parents[i]).bits@.len() == self.chromo_length
                &&& is_binary(parents[i].bits@)
            } by {
                if i < kept.len() {
                    assert(parents[i] == kept[i]);
                } else {
                    assert(is_fresh(parents[i], self.chromo_length));
                }
            }
            assert forall|i: int| 0 <= i < fresh.len() implies is_fresh(
                #[trigger] fresh[i],
                self.chromo_length,
            ) by {
                assert(fresh[i] == parents[i + kept.len()]);
            }
        }
        proof {
            assert(self.elitism as int * self.pop_size as int <= SCALE as int * self.pop_size as int)
                by (nonlinear_arith)
                requires
                    self.elitism <= SCALE,
            ;
            assert((self.elitism as int * self.pop_size as int) / (SCALE as int) <= self.pop_size)
                by (nonlinear_arith)
                requires
                    self.elitism as int * self.pop_size as int <= SCALE as int * self.pop_size as int,
            ;
            assert(self.elitism as int * self.pop_size as int <= 0xffff_ffff_ffff_ffff_ffff_ffff_ffff_ffff)
                by (nonlinear_arith)
                requires
                    self.elitism <= SCALE,
                    self.pop_size <= usize::MAX,
            ;
        }
        let k: usize = ((self.elitism as u128 * self.pop_size as u128) / (SCALE as u128)) as usize;
        let idx = top_indices(&self.population, k);
        let mut next: Vec<Genome> = Vec::new();
        let mut t: usize = 0;
        while t < k
            invariant
                parents == self.population@,
                genomes_well_formed(parents, self.chromo_length),
                is_top_selection(parents, idx@, k as int),
                k <= self.pop_size,
                t <= k,
                next@.len() == t,
                forall|u: int| 0 <= u < t ==> same_genome(#[trigger] next@[u], parents[idx@[u] as int]),
                genomes_well_formed(next@, self.chromo_length),
            decreases k - t,
        {
            let g = self.population[idx[t]].duplicate();
            next.push(g);
            t = t + 1;
        }
        while next.len() < self.pop_size
            invariant
                parents == self.population@,
                parents.len() == self.pop_size,
                self.pop_size > 0,
                genomes_well_formed(parents, self.chromo_length),
                k <= next@.len() <= self.pop_size,
                forall|u: int| 0 <= u < k ==> same_genome(#[trigger] next@[u], parents[idx@[u] as int]),
                forall|i: int|
                    k <= i < next@.len() ==> is_child(
                        parents,
                        #[trigger] next@[i],
                        self.crossover_rate,
                        self.mutation_rate,
                    ),
                genomes_well_formed(next@, self.chromo_length),
            decreases self.pop_size - next@.len(),
        {
            let mom = self.tournament_selection(3);
            let dad = self.tournament_selection(3);
            let (mut baby1, mut baby2) = self.crossover(
                self.population[mom].bits.as_slice(),
                self.population[dad].bits.as_slice(),
            );
            proof {
                let mb = parents[mom as int].bits@;
                let db = parents[dad as int].bits@;
                assert(is_binary(mb) && is_binary(db));
                if !(baby1@ == mb && baby2@ == db) {
                    let cp = choose|cp: int|
                        0 <= cp < self.chromo_length && baby1@ == spliced(mb, db, cp) && baby2@
                            == spliced(db, mb, cp);
                    assert forall|i: int| 0 <= i < baby1@.len() implies #[trigger] baby1@[i] <= 1 by {
                        if i < cp {
                            assert(baby1@[i] == mb[i]);
                        } else {
                            assert(baby1@[i] == db[i]);
                        }
                    }
                    assert forall|i: int| 0 <= i < baby2@.len() implies #[trigger] baby2@[i] <= 1 by {
                        if i < cp {
                            assert(baby2@[i] == db[i]);
                        } else {
                            assert(baby2@[i] == mb[i]);
                        }
                    }
                }
            }
            let ghost cross1 = baby1@;
            let ghost cross2 = baby2@;
            self.mutate(&mut baby1);
            self.mutate(&mut baby2);
            let stagnation: usize = ((self.population[mom].stagnation as u128
                + self.population[dad].stagnation as u128) / 2) as usize;
            let ghost before = next@;
            next.push(Genome { bits: baby1, fitness: 0, stagnation });
            proof {
                let mb = parents[mom as int].bits@;
                let db = parents[dad as int].bits@;
                assert(is_cross_of(mb, db, cross1));
                assert(is_cross_of(db, mb, cross2));
                assert(parents[mom as int].stagnation + parents[dad as int].stagnation
                    == parents[dad as int].stagnation + parents[mom as int].stagnation);
                assert(is_child(parents, next@[before.len() as int], self.crossover_rate, self.mutation_rate));
                assert forall|i: int| 0 <= i < before.len() implies #[trigger] next@[i] == before[i] by {}
            }
            if next.len() < self.pop_size {
                let ghost before2 = next@;
                next.push(Genome { bits: baby2, fitness: 0, stagnation });
                proof {
                    assert(is_child(parents, next@[before2.len() as int], self.crossover_rate, self.mutation_rate));
                    assert forall|i: int| 0 <= i < before2.len() implies #[trigger] next@[i] == before2[i] by {}
                }
            }
        }
        self.population = next;
        if self.generation < usize::MAX {
            self.generation = self.generation + 1;
        }
        proof {
            assert(kept + fresh == parents);
            assert(bred_population(
                parents,
                self.population@,
                elite_count(self.elitism, self.pop_size),
                self.crossover_rate,
                self.mutation_rate,
            ));
        }
    }

    /// One full generation: `next_generation`, then `update_fitness` on the new
    /// population.
    pub fn epoch<F: Fn(Vec<u8>) -> i64>(&mut self, oracle: F)
        requires
            old(self).wf(),
            forall|m: Vec<u8>| call_requires(oracle, (m,)),
        ensures
            final(self).wf(),
            final(self).population@.len() == final(self).pop_size,
            final(self).same_config(old(self)),
            final(self).generation == next_count(old(self).generation),
            epoch_result(*old(self), *final(self), oracle),
            final(self).total_fitness == fitness_sum(final(self).population@),
            is_first_fittest(
                final(self).population@,
                final(self).fittest_index as int,
                final(self).best_fitness,
            ),
    {
        self.next_generation();
        let ghost bred = *self;
        self.update_fitness(oracle);
        assert(bred_from(*old(self), bred));
        assert(exists|scores: Seq<i64>|
            evaluated_by(oracle, bred.population@, scores) && scored(bred, *self, scores));
    }

    /// The mean pairwise Hamming distance, in millionths and rounded down, of
    /// the `top_n` fittest genomes (all of them where there are fewer); 0 where
    /// fewer than two are taken.
    pub fn average_hamming_distance(&self, top_n: usize) -> (r: u128)
        requires
            diversity_fits(self.population@, top_n as int),
        ensures
            is_diversity(self.population@, top_n as int, r as int),
            top_n < 2 ==> r == 0,
            self.population@.len() == 2 && top_n >= 2 ==> r == SCALE * hamming(
                self.population@[0].bits@,
                self.population@[1].bits@,
            ),
    {
        let ghost pop = self.population@;
        let m: usize = if top_n < self.population.len() {
            top_n
        } else {
            self.population.len()
        };
        let idx = top_indices(&self.population, m);
        let ghost sel = bits_at(pop, idx@);
        assert(m as int == top_count(pop, top_n as int));
        assert(is_top_selection(pop, idx@, top_count(pop, top_n as int)));
        if m < 2 {
            return 0;
        }
        proof {
            lemma_pair_distance_sum_prefix(sel, 1);
        }
        let mut total: u128 = 0;
        let mut j: usize = 1;
        assert(sel.take(1).drop_last() =~= sel.take(0));
        assert(pair_distance_sum(sel.take(0)) == 0);
        assert(row_distance(sel.take(1), sel.take(1).last(), 0) == 0);
        while j < m
            invariant
                pop == self.population@,
                m == idx@.len(),
                2 <= m <= pop.len(),
                sel == bits_at(pop, idx@),
                forall|t: int| 0 <= t < m ==> #[trigger] idx@[t] < pop.len(),
                m > 2 ==> pair_distance_sum(sel) <= u64::MAX,
                pair_distance_sum(sel.take(1)) == 0,
                1 <= j <= m,
                total == pair_distance_sum(sel.take(j as int)),
                total <= u64::MAX,
            decreases m - j,
        {
            let ghost row = sel.take(j as int + 1);
            proof {
                assert(row.drop_last() =~= sel.take(j as int));
                lemma_pair_distance_sum_prefix(sel, j as int + 1);
            }
            let b = self.population[idx[j]].bits.as_slice();
            let mut i: usize = 0;
            while i < j
                invariant
                    pop == self.population@,
                    m == idx@.len(),
                    2 <= m,
                    1 <= j < m,
                    i <= j,
                    sel == bits_at(pop, idx@),
                    row == sel.take(j as int + 1),
                    b@ == sel[j as int],
                    forall|t: int| 0 <= t < m ==> #[trigger] idx@[t] < pop.len(),
                    m > 2 ==> pair_distance_sum(sel) <= u64::MAX,
                    pair_distance_sum(row) <= pair_distance_sum(sel),
                    pair_distance_sum(sel.take(1)) == 0,
                    total == pair_distance_sum(sel.take(j as int)) + row_distance(row, b@, i as int),
                    total <= u64::MAX,
                    pair_distance_sum(row) == pair_distance_sum(sel.take(j as int)) + row_distance(row, b@, j as int),
                decreases j - i,
            {
                let d = hamming_distance(self.population[idx[i]].bits.as_slice(), b);
                proof {
                    assert(row[i as int] == sel[i as int]);
                    lemma_row_distance_monotone(row, b@, i as int + 1, j as int);
                    if m == 2 {
                        assert(j == 1 && i == 0);
                        assert(row_distance(row, b@, 0) == 0);
                    }
                }
                total = total + d as u128;
                i = i + 1;
            }
            j = j + 1;
        }
        assert(sel.take(m as int) =~= sel);
        proof {
            assert((m as int) * ((m - 1) as int) <= 0xffff_ffff_ffff_ffff * 0xffff_ffff_ffff_ffff)
                by (nonlinear_arith)
                requires
                    m <= 0xffff_ffff_ffff_ffff,
            ;
            assert((m as int) * ((m - 1) as int) >= 2) by (nonlinear_arith)
                requires
                    m >= 2,
            ;
        }
        let ordered_pairs: u128 = (m as u128) * ((m - 1) as u128);
        let scaled: u128 = total * 2 * (SCALE as u128) / ordered_pairs;
        proof {
            if pop.len() == 2 && top_n >= 2 {
                lemma_two_genome_diversity(pop, idx@);
            }
        }
        scaled
    }

    /// Steers the mutation rate by the diversity of the elite: with the
    /// diversity of the `ceil(elitism * pop_size)` fittest genomes below
    /// `target_diversity` (both in millionths), the rate rises by 10% up to
    /// `max_rate`; otherwise it falls by 10% down to `min_rate`.
    pub fn adapt_mutation_rate(&mut self, min_rate: u64, max_rate: u64, target_diversity: u64)
        requires
            old(self).wf(),
            diversity_fits(old(self).population@, elite_ceil(old(self).elitism, old(self).pop_size)),
        ensures
            exists|d: int|
                is_diversity(
                    old(self).population@,
                    elite_ceil(old(self).elitism, old(self).pop_size),
                    d,
                ) && final(self).mutation_rate == adapted_rate(
                    old(self).mutation_rate,
                    d,
                    min_rate,
                    max_rate,
                    target_diversity,
                ),
            final(self).population@ == old(self).population@,
            final(self).pop_size == old(self).pop_size,
            final(self).elitism == old(self).elitism,
            final(self).stagnation_limit == old(self).stagnation_limit,
            final(self).crossover_rate == old(self).crossover_rate,
            final(self).chromo_length == old(self).chromo_length,
            final(self).gene_length == old(self).gene_length,
            final(self).fittest_index == old(self).fittest_index,
            final(self).best_fitness == old(self).best_fitness,
            final(self).total_fitness == old(self).total_fitness,
            final(self).generation == old(self).generation,
    {
        proof {
            assert(self.elitism as int * self.pop_size as int + SCALE as int - 1
                <= 0xffff_ffff_ffff_ffff_ffff_ffff_ffff_ffff) by (nonlinear_arith)
                requires
                    self.elitism <= SCALE,
                    self.pop_size <= usize::MAX,
            ;
            assert((self.elitism as int * self.pop_size as int + SCALE as int - 1) / (SCALE as int)
                <= self.pop_size) by (nonlinear_arith)
                requires
                    self.elitism <= SCALE,
            ;
        }
        let ghost start = *self;
        let elite: usize = ((self.elitism as u128 * self.pop_size as u128 + (SCALE as u128) - 1)
            / (SCALE as u128)) as usize;
        assert(elite as int == elite_ceil(self.elitism, self.pop_size));
        let diversity = self.average_hamming_distance(elite);
        let rate: u128 = self.mutation_rate as u128;
        if diversity < target_diversity as u128 {
            let up: u128 = (rate * 11 + 9) / 10;
            self.mutation_rate = if up < max_rate as u128 {
                up as u64
            } else {
                max_rate
            };
        } else {
            let down: u128 = rate * 9 / 10;
            self.mutation_rate = if down > min_rate as u128 {
                down as u64
            } else {
                min_rate
            };
        }
        assert(self.mutation_rate == adapted_rate(
            start.mutation_rate,
            diversity as int,
            min_rate,
            max_rate,
            target_diversity,
        ));
    }

    /// Draws a new starting population and clears the counters; the parameters
    /// are kept.
    pub fn reset(&mut self)
        ensures
            final(self).same_config(old(self)),
            final(self).population@.len() == old(self).pop_size,
            forall|i: int|
                0 <= i < final(self).population@.len() ==> is_fresh(
                    #[trigger] final(self).population@[i],
                    old(self).chromo_length,
                ),
            final(self).fittest_index == 0,
            final(self).best_fitness == 0,
            final(self).total_fitness == 0,
            final(self).generation == 0,
            old(self).wf() ==> final(self).wf(),
    {
        self.fittest_index = 0;
        self.best_fitness = 0;
        self.total_fitness = 0;
        self.generation = 0;
        self.create_start_population();
    }

    /// Sets the probability of flipping each bit, in millionths.
    pub fn set_mutation_rate(&mut self, rate: u64)
        ensures
            final(self).mutation_rate == rate,
            final(self).population@ == old(self).population@,
            final(self).pop_size == old(self).pop_size,
            final(self).elitism == old(self).elitism,
            final(self).stagnation_limit == old(self).stagnation_limit,
            final(self).crossover_rate == old(self).crossover_rate,
            final(self).chromo_length == old(self).chromo_length,
            final(self).gene_length == old(self).gene_length,
            final(self).fittest_index == old(self).fittest_index,
            final(self).best_fitness == old(self).best_fitness,
            final(self).total_fitness == old(self).total_fitness,
            final(self).generation == old(self).generation,
    {
        self.mutation_rate = rate;
    }
}

/// Some genome of `pop` holds the bits `b`.
pub open spec fn holds_bits(pop: Seq<Genome>, b: Seq<u8>) -> bool {
    exists|j: int| 0 <= j < pop.len() && pop[j].bits@ == b
}

/// With elitism at 1 and no genome at the stagnation limit, the breeding step
/// keeps the population: every genome before the step has one with the same
/// bits after it, and every genome after the step has one with the same bits
/// before it.
pub proof fn lemma_full_elitism_breeding(old: GeneticAlgorithm, new: GeneticAlgorithm)
    requires
        old.wf(),
        old.elitism == SCALE,
        forall|i: int|
            0 <= i < old.population@.len() ==> (#[trigger] old.population@[i]).stagnation
                < old.stagnation_limit,
        bred_from(old, new),
    ensures
        forall|i: int|
            0 <= i < old.population@.len() ==> holds_bits(
                new.population@,
                (#[trigger] old.population@[i]).bits@,
            ),
        forall|j: int|
            0 <= j < new.population@.len() ==> holds_bits(
                old.population@,
                (#[trigger] new.population@[j]).bits@,
            ),
{
    let pop = old.population@;
    let n = old.pop_size as int;
    lemma_survivors_all(pop, old.stagnation_limit);
    let kept = survivors(pop, old.stagnation_limit);
    let fresh = choose|fresh: Seq<Genome>|
        kept.len() + fresh.len() == old.pop_size && (forall|i: int|
            0 <= i < fresh.len() ==> is_fresh(#[trigger] fresh[i], old.chromo_length))
            && bred_population(
            kept + fresh,
            new.population@,
            elite_count(old.elitism, old.pop_size),
            old.crossover_rate,
            old.mutation_rate,
        );
    assert(fresh.len() == 0);
    assert(kept + fresh =~= pop);
    assert(elite_count(old.elitism, old.pop_size) == n) by {
        assert((1000000 * n) / 1000000 == n) by (nonlinear_arith);
    }
    let idx = choose|idx: Seq<usize>|
        is_top_selection(pop, idx, n) && forall|t: int|
            0 <= t < n ==> same_genome(#[trigger] new.population@[t], pop[idx[t] as int]);
    assert forall|s: int, t: int| 0 <= s < t < idx.len() implies idx[s] != idx[t] by {
        assert(ranks_before(pop, idx[s] as int, idx[t] as int));
    }
    lemma_distinct_indices(idx, n);
    assert forall|i: int| 0 <= i < pop.len() implies holds_bits(
        new.population@,
        (#[trigger] pop[i]).bits@,
    ) by {
        assert(idx.contains(i as usize));
        let t = choose|t: int| 0 <= t < idx.len() && idx[t] == i as usize;
        assert(same_genome(new.population@[t], pop[idx[t] as int]));
    }
    assert forall|j: int| 0 <= j < new.population@.len() implies holds_bits(
        pop,
        (#[trigger] new.population@[j]).bits@,
    ) by {
        assert(same_genome(new.population@[j], pop[idx[j] as int]));
    }
}

/// With elitism at 1 and no genome at the stagnation limit, an epoch keeps the
/// population: the genomes after it hold exactly the bit strings of the
/// genomes before it, each bit string before having a genome after, and each
/// genome after having one before.
pub proof fn lemma_full_elitism_keeps_population<F: Fn(Vec<u8>) -> i64>(
    old: GeneticAlgorithm,
    new: GeneticAlgorithm,
    oracle: F,
)
    requires
        old.wf(),
        old.elitism == SCALE,
        forall|i: int|
            0 <= i < old.population@.len() ==> (#[trigger] old.population@[i]).stagnation
                < old.stagnation_limit,
        epoch_result(old, new, oracle),
    ensures
        forall|i: int|
            0 <= i < old.population@.len() ==> holds_bits(
                new.population@,
                (#[trigger] old.population@[i]).bits@,
            ),
        forall|j: int|
            0 <= j < new.population@.len() ==> holds_bits(
                old.population@,
                (#[trigger] new.population@[j]).bits@,
            ),
{
    let bred = choose|bred: GeneticAlgorithm|
        bred_from(old, bred) && exists|scores: Seq<i64>|
            evaluated_by(oracle, bred.population@, scores) && scored(bred, new, scores);
    let scores = choose|scores: Seq<i64>|
        evaluated_by(oracle, bred.population@, scores) && scored(bred, new, scores);
    lemma_full_elitism_breeding(old, bred);
    assert forall|i: int| 0 <= i < old.population@.len() implies holds_bits(
        new.population@,
        (#[trigger] old.population@[i]).bits@,
    ) by {
        assert(holds_bits(bred.population@, old.population@[i].bits@));
        let j = choose|j: int|
            0 <= j < bred.population@.len() && bred.population@[j].bits@ == old.population@[i].bits@;
        assert(new.population@[j].bits@ == bred.population@[j].bits@);
    }
    assert forall|j: int| 0 <= j < new.population@.len() implies holds_bits(
        old.population@,
        (#[trigger] new.population@[j]).bits@,
    ) by {
        assert(new.population@[j].bits@ == bred.population@[j].bits@);
        assert(holds_bits(old.population@, bred.population@[j].bits@));
    }
}

/// The diversity of any number of genomes can be computed where the population
/// is small enough: `len` symbols per genome and at most `u64::MAX` for the
/// population size squared times `len`.
pub proof fn lemma_small_population_fits(pop: Seq<Genome>, len: usize, top_n: int)
    requires
        genomes_well_formed(pop, len),
        pop.len() * pop.len() * len <= u64::MAX,
    ensures
        diversity_fits(pop, top_n),
{
    let k = top_count(pop, top_n);
    if k > 2 {
        assert forall|idx: Seq<usize>| #[trigger] is_top_selection(pop, idx, k) implies pair_distance_sum(
            bits_at(pop, idx),
        ) <= u64::MAX by {
            let sel = bits_at(pop, idx);
            assert forall|t: int| 0 <= t < sel.len() implies (#[trigger] sel[t]).len() <= len by {
                assert(sel[t] == pop[idx[t] as int].bits@);
            }
            lemma_pair_distance_sum_bound(sel, len as int);
            let n = pop.len() as int;
            assert(k * k * len <= n * n * len) by (nonlinear_arith)
                requires
                    0 <= k <= n,
                    len >= 0,
            ;
        }
    }
}

/// While the diversity stays below the target, an adaptation step never
/// takes the rate above `max_rate`, never lowers a rate that does not exceed
/// `max_rate`, strictly raises a positive rate below `max_rate`, and reaches
/// `max_rate` once 110% of the rate does.
pub proof fn lemma_rate_rises_to_cap(
    rate: u64,
    diversity: int,
    min_rate: u64,
    max_rate: u64,
    target: u64,
)
    requires
        diversity < target,
    ensures
        adapted_rate(rate, diversity, min_rate, max_rate, target) <= max_rate,
        rate <= max_rate ==> rate <= adapted_rate(rate, diversity, min_rate, max_rate, target),
        0 < rate < max_rate ==> rate < adapted_rate(rate, diversity, min_rate, max_rate, target),
        rate as int * 11 >= max_rate as int * 10 ==> adapted_rate(
            rate,
            diversity,
            min_rate,
            max_rate,
            target,
        ) == max_rate,
{
}

} // verus!
