//! The pairwise Hamming distances of a set of genomes, which measure how
//! diverse a population is.
use crate::genetics::SCALE;
use crate::genome::{hamming, lemma_hamming_bound, lemma_hamming_symmetric, Genome};
use crate::ranking::{is_top_selection, ranks_before};
use vstd::prelude::*;

verus! {

/// The bits of the genomes of `pop` at the positions `idx`, in that order.
pub open spec fn bits_at(pop: Seq<Genome>, idx: Seq<usize>) -> Seq<Seq<u8>> {
    idx.map_values(|i: usize| pop[i as int].bits@)
}

/// The sum of the Hamming distances between `b` and each of the first `n`
/// entries of `s`.
pub open spec fn row_distance(s: Seq<Seq<u8>>, b: Seq<u8>, n: int) -> int
    decreases n,
{
    if n <= 0 {
        0
    } else {
        row_distance(s, b, n - 1) + hamming(s[n - 1], b)
    }
}

/// The sum of the Hamming distances over all unordered pairs of entries of `s`.
pub open spec fn pair_distance_sum(s: Seq<Seq<u8>>) -> int
    decreases s.len(),
{
    if s.len() == 0 {
        0
    } else {
        pair_distance_sum(s.drop_last()) + row_distance(s, s.last(), s.len() - 1)
    }
}

/// The mean pairwise Hamming distance of `s`, in millionths and rounded down;
/// 0 where `s` has fewer than two entries. Over `n` entries there are
/// `n * (n - 1) / 2` pairs.
pub open spec fn mean_pair_distance(s: Seq<Seq<u8>>) -> int {
    if s.len() < 2 {
        0
    } else {
        pair_distance_sum(s) * 2 * (SCALE as int) / (s.len() * (s.len() - 1))
    }
}

/// Each Hamming distance in a row is at most `len`.
pub(crate) proof fn lemma_row_distance_bound(s: Seq<Seq<u8>>, b: Seq<u8>, n: int, len: int)
    requires
        0 <= n <= s.len(),
        b.len() <= len,
    ensures
        0 <= row_distance(s, b, n) <= n * len,
    decreases n,
{
    if n > 0 {
        lemma_row_distance_bound(s, b, n - 1, len);
        lemma_hamming_bound(s[n - 1], b);
        assert((n - 1) * len + len == n * len) by (nonlinear_arith);
    }
}

/// The diversity of two genomes is their Hamming distance.
pub(crate) proof fn lemma_two_genome_diversity(pop: Seq<Genome>, idx: Seq<usize>)
    requires
        pop.len() == 2,
        is_top_selection(pop, idx, 2),
    ensures
        mean_pair_distance(bits_at(pop, idx)) == SCALE * hamming(pop[0].bits@, pop[1].bits@),
{
    let s = bits_at(pop, idx);
    assert(idx[0] != idx[1]) by {
        assert(ranks_before(pop, idx[0] as int, idx[1] as int));
    }
    assert(s.drop_last().drop_last().len() == 0);
    assert(pair_distance_sum(s.drop_last().drop_last()) == 0);
    assert(row_distance(s.drop_last(), s.drop_last().last(), 0) == 0);
    assert(pair_distance_sum(s.drop_last()) == 0);
    assert(row_distance(s, s[1], 0) == 0);
    assert(pair_distance_sum(s) == hamming(s[0], s[1]));
    lemma_hamming_symmetric(pop[0].bits@, pop[1].bits@);
    assert(hamming(s[0], s[1]) == hamming(pop[0].bits@, pop[1].bits@));
    let h = hamming(pop[0].bits@, pop[1].bits@) as int;
    assert(h * 2 * 1000000 / 2 == 1000000 * h) by (nonlinear_arith);
}

/// A row's running sum of distances does not shrink.
pub(crate) proof fn lemma_row_distance_monotone(s: Seq<Seq<u8>>, b: Seq<u8>, x: int, y: int)
    requires
        0 <= x <= y,
    ensures
        row_distance(s, b, x) <= row_distance(s, b, y),
    decreases y,
{
    if x < y {
        lemma_row_distance_monotone(s, b, x, y - 1);
    }
}

/// The pairwise sum over `n` sequences of at most `len` symbols is at most
/// `n * n * len`.
pub proof fn lemma_pair_distance_sum_bound(s: Seq<Seq<u8>>, len: int)
    requires
        0 <= len,
        forall|i: int| 0 <= i < s.len() ==> (#[trigger] s[i]).len() <= len,
    ensures
        0 <= pair_distance_sum(s) <= s.len() * s.len() * len,
    decreases s.len(),
{
    if s.len() > 0 {
        let n = s.len() as int;
        lemma_pair_distance_sum_bound(s.drop_last(), len);
        lemma_row_distance_bound(s, s.last(), n - 1, len);
        assert((n - 1) * (n - 1) * len + (n - 1) * len <= n * n * len) by (nonlinear_arith)
            requires
                n >= 1,
                len >= 0,
        ;
    }
}

/// The pairwise distance sum that the diversity of the `top_n` fittest genomes
/// of `pop` is taken over fits in 64 bits. Where at most two genomes are taken
/// this always holds.
pub open spec fn diversity_fits(pop: Seq<Genome>, top_n: int) -> bool {
    top_count(pop, top_n) <= 2 || forall|idx: Seq<usize>|
        #[trigger] is_top_selection(pop, idx, top_count(pop, top_n)) ==> pair_distance_sum(
            bits_at(pop, idx),
        ) <= u64::MAX
}

/// How many of `pop` the `top_n` fittest are: `top_n`, or all where there
/// are fewer.
pub open spec fn top_count(pop: Seq<Genome>, top_n: int) -> int {
    if top_n < pop.len() {
        top_n
    } else {
        pop.len() as int
    }
}

/// The sums over a prefix are never negative and never exceed the whole sum.
pub(crate) proof fn lemma_pair_distance_sum_prefix(s: Seq<Seq<u8>>, j: int)
    requires
        0 <= j <= s.len(),
    ensures
        0 <= pair_distance_sum(s.take(j)) <= pair_distance_sum(s),
    decreases s.len(),
{
    if s.len() > 0 {
        let n = s.len() - 1;
        lemma_row_distance_monotone(s, s.last(), 0, n);
        if j < s.len() {
            lemma_pair_distance_sum_prefix(s.drop_last(), j);
            assert(s.drop_last().take(j) =~= s.take(j));
        } else {
            lemma_pair_distance_sum_prefix(s.drop_last(), n);
            assert(s.drop_last().take(n) =~= s.drop_last());
            assert(s.take(j) =~= s);
        }
    } else {
        assert(s.take(j) =~= s);
    }
}

} // verus!
