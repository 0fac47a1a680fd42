//! Ranking a population by fitness, highest first, with ties kept in their
//! original order.
use crate::genome::Genome;
use vstd::prelude::*;

verus! {

/// Genome `a` of `pop` comes before genome `b` when the population is sorted
/// by fitness, highest first, keeping the order of equal ones.
pub open spec fn ranks_before(pop: Seq<Genome>, a: int, b: int) -> bool {
    pop[a].fitness > pop[b].fitness || (pop[a].fitness == pop[b].fitness && a < b)
}

/// `idx` lists, best first, the `k` genomes that lead `pop` when it is sorted
/// by fitness, highest first, with equal ones in their original order.
pub open spec fn is_top_selection(pop: Seq<Genome>, idx: Seq<usize>, k: int) -> bool {
    &&& idx.len() == k
    &&& forall|t: int| 0 <= t < k ==> #[trigger] idx[t] < pop.len()
    &&& forall|s: int, t: int|
        0 <= s < t < k ==> ranks_before(pop, #[trigger] idx[s] as int, #[trigger] idx[t] as int)
    &&& forall|j: int, t: int|
        0 <= j < pop.len() && 0 <= t < k && !idx.contains(j as usize) ==> #[trigger] ranks_before(
            pop,
            idx[t] as int,
            j,
        )
}

/// A sequence of distinct indices below `n` has at most `n` entries, and
/// exactly `n` only when it holds every index below `n`.
pub proof fn lemma_distinct_indices(idx: Seq<usize>, n: int)
    requires
        0 <= n <= usize::MAX,
        forall|t: int| 0 <= t < idx.len() ==> #[trigger] idx[t] < n,
        forall|s: int, t: int| 0 <= s < t < idx.len() ==> idx[s] != idx[t],
    ensures
        idx.len() <= n,
        idx.len() == n ==> forall|j: int| 0 <= j < n ==> #[trigger] idx.contains(j as usize),
        (forall|j: int| 0 <= j < n ==> #[trigger] idx.contains(j as usize)) ==> idx.len() == n,
{
    let ints = idx.map_values(|x: usize| x as int);
    assert(ints.no_duplicates()) by {
        assert forall|s: int, t: int| 0 <= s < ints.len() && 0 <= t < ints.len() && s != t implies ints[s]
            != ints[t] by {
            if s < t {
                assert(idx[s] != idx[t]);
            } else {
                assert(idx[t] != idx[s]);
            }
        }
    }
    ints.unique_seq_to_set();
    let range = vstd::set_lib::set_int_range(0, n);
    vstd::set_lib::lemma_int_range(0, n);
    assert(ints.to_set().subset_of(range)) by {
        assert forall|x: int| ints.to_set().contains(x) implies range.contains(x) by {
            let t = choose|t: int| 0 <= t < ints.len() && ints[t] == x;
            assert(idx[t] < n);
        }
    }
    vstd::set_lib::lemma_len_subset(ints.to_set(), range);
    if forall|j: int| 0 <= j < n ==> #[trigger] idx.contains(j as usize) {
        assert(range.subset_of(ints.to_set())) by {
            assert forall|x: int| range.contains(x) implies ints.to_set().contains(x) by {
                assert(idx.contains(x as usize));
                let t = choose|t: int| 0 <= t < idx.len() && idx[t] == x as usize;
                assert(ints[t] == x);
            }
        }
        vstd::set_lib::lemma_len_subset(range, ints.to_set());
    }
    if idx.len() == n {
        vstd::set_lib::lemma_subset_equality(ints.to_set(), range);
        assert forall|j: int| 0 <= j < n implies #[trigger] idx.contains(j as usize) by {
            assert(range.contains(j));
            assert(ints.to_set().contains(j));
            let t = choose|t: int| 0 <= t < ints.len() && ints[t] == j;
            assert(idx[t] == j as usize);
        }
    }
}

/// The positions, best first, of the `k` genomes that lead `pop` when it is
/// sorted by fitness, highest first, with equal ones in their original order.
pub fn top_indices(pop: &Vec<Genome>, k: usize) -> (r: Vec<usize>)
    requires
        k <= pop@.len(),
    ensures
        is_top_selection(pop@, r@, k as int),
{
    let n = pop.len();
    let mut taken: Vec<bool> = Vec::new();
    let mut j: usize = 0;
    while j < n
        invariant
            j <= n,
            taken@.len() == j,
            forall|i: int| 0 <= i < j ==> !#[trigger] taken@[i],
        decreases n - j,
    {
        taken.push(false);
        j = j + 1;
    }
    let mut idx: Vec<usize> = Vec::new();
    let mut t: usize = 0;
    while t < k
        invariant
            n == pop@.len(),
            k <= n,
            t <= k,
            taken@.len() == n,
            forall|i: int| 0 <= i < n ==> (#[trigger] taken@[i] <==> idx@.contains(i as usize)),
            forall|s: int, u: int| 0 <= s < u < idx@.len() ==> idx@[s] != idx@[u],
            is_top_selection(pop@, idx@, t as int),
        decreases k - t,
    {
        proof {
            lemma_distinct_indices(idx@, n as int);
        }
        let mut found: bool = false;
        let mut m: usize = 0;
        let mut i: usize = 0;
        while i < n
            invariant
                n == pop@.len(),
                taken@.len() == n,
                i <= n,
                found ==> m < i && !taken@[m as int],
                found ==> forall|x: int| 0 <= x < i && !taken@[x] ==> x == m || ranks_before(pop@, m as int, x),
                !found ==> forall|x: int| 0 <= x < i ==> #[trigger] taken@[x],
            decreases n - i,
        {
            if !taken[i] {
                if !found || pop[i].fitness > pop[m].fitness {
                    m = i;
                    found = true;
                }
            }
            i = i + 1;
        }
        proof {
            if !found {
                assert forall|x: int| 0 <= x < n implies #[trigger] idx@.contains(x as usize) by {
                    assert(taken@[x]);
                }
                assert(idx@.len() < n);
                lemma_distinct_indices(idx@, n as int);
                assert(false);
            }
        }
        let ghost prev = idx@;
        idx.push(m);
        taken.set(m, true);
        proof {
            assert(!prev.contains(m));
            assert forall|x: int| 0 <= x < n implies (#[trigger] taken@[x] <==> idx@.contains(x as usize)) by {
                if x == m {
                    assert(idx@[prev.len() as int] == m);
                } else if prev.contains(x as usize) {
                    let w = choose|w: int| 0 <= w < prev.len() && prev[w] == x as usize;
                    assert(idx@[w] == x as usize);
                } else {
                    if idx@.contains(x as usize) {
                        let w = choose|w: int| 0 <= w < idx@.len() && idx@[w] == x as usize;
                        assert(w < prev.len() ==> prev[w] == x as usize);
                    }
                }
            }
            assert forall|s: int, u: int| 0 <= s < u < t + 1 implies ranks_before(
                pop@,
                #[trigger] idx@[s] as int,
                #[trigger] idx@[u] as int,
            ) by {
                if u == t {
                    assert(!prev.contains(m));
                    assert(ranks_before(pop@, prev[s] as int, m as int));
                }
            }
            assert forall|x: int, u: int|
                0 <= x < n && 0 <= u < t + 1 && !idx@.contains(x as usize) implies #[trigger] ranks_before(
                pop@,
                idx@[u] as int,
                x,
            ) by {
                assert(!prev.contains(x as usize)) by {
                    if prev.contains(x as usize) {
                        let w = choose|w: int| 0 <= w < prev.len() && prev[w] == x as usize;
                        assert(idx@[w] == x as usize);
                    }
                }
                assert(x != m) by {
                    assert(idx@[prev.len() as int] == m);
                }
                assert(!taken@[x]);
            }
        }
        t = t + 1;
    }
    idx
}

} // verus!
