//! Genomes, their decoding into move codes, and the distance between them.
use crate::random::random_bit;
use vstd::prelude::*;

verus! {

/// One candidate solution: a bit string with the score it last received and
/// the number of consecutive evaluations in which that score did not improve.
#[derive(Clone, Debug)]
pub struct Genome {
    pub bits: Vec<u8>,
    pub fitness: i64,
    pub stagnation: usize,
}

/// Every symbol of `bits` is 0 or 1.
pub open spec fn is_binary(bits: Seq<u8>) -> bool {
    forall|i: int| 0 <= i < bits.len() ==> #[trigger] bits[i] <= 1
}

/// The move code of the two-bit group `hi lo`: 00 is 0, 01 is 1, 10 is 2 and
/// 11 is 3; a group holding any other symbol counts as 0.
pub open spec fn move_of(hi: u8, lo: u8) -> u8 {
    if hi == 0 && lo == 0 {
        0
    } else if hi == 0 && lo == 1 {
        1
    } else if hi == 1 && lo == 0 {
        2
    } else if hi == 1 && lo == 1 {
        3
    } else {
        0
    }
}

/// The moves that `bits` encode, two bits per move. A trailing bit that has no
/// partner is dropped.
pub open spec fn decode_bits(bits: Seq<u8>) -> Seq<u8> {
    Seq::new(bits.len() / 2, |i: int| move_of(bits[2 * i], bits[2 * i + 1]))
}

/// The two-bit code of each move, high bit first.
pub open spec fn encode_moves(moves: Seq<u8>) -> Seq<u8> {
    Seq::new(
        2 * moves.len(),
        |i: int|
            if i % 2 == 0 {
                (moves[i / 2] / 2) as u8
            } else {
                (moves[i / 2] % 2) as u8
            },
    )
}

/// The number of positions below `n` at which `a` and `b` differ.
pub open spec fn diff_count(a: Seq<u8>, b: Seq<u8>, n: int) -> nat
    decreases n,
{
    if n <= 0 {
        0
    } else {
        diff_count(a, b, n - 1) + if a[n - 1] != b[n - 1] {
            1nat
        } else {
            0nat
        }
    }
}

/// The Hamming distance: the number of positions, within the shorter of the
/// two sequences, at which they differ.
pub open spec fn hamming(a: Seq<u8>, b: Seq<u8>) -> nat {
    diff_count(a, b, if a.len() <= b.len() {
        a.len() as int
    } else {
        b.len() as int
    })
}

/// Decoding a binary bit string of even length and writing each move back as
/// its two-bit code gives the bit string back.
pub proof fn lemma_decode_round_trip(bits: Seq<u8>)
    requires
        is_binary(bits),
        bits.len() % 2 == 0,
    ensures
        encode_moves(decode_bits(bits)) == bits,
{
    let moves = decode_bits(bits);
    let enc = encode_moves(moves);
    assert forall|i: int| 0 <= i < bits.len() implies enc[i] == bits[i] by {
        let g = i / 2;
        assert(0 <= g < moves.len());
        assert(bits[2 * g] <= 1 && bits[2 * g + 1] <= 1);
        if i % 2 == 0 {
            assert(i == 2 * g);
        } else {
            assert(i == 2 * g + 1);
        }
    }
    assert(enc =~= bits);
}

proof fn lemma_diff_count_bound(a: Seq<u8>, b: Seq<u8>, n: int)
    ensures
        diff_count(a, b, n) <= if n < 0 { 0 } else { n },
    decreases n,
{
    if n > 0 {
        lemma_diff_count_bound(a, b, n - 1);
    }
}

proof fn lemma_diff_count_symmetric(a: Seq<u8>, b: Seq<u8>, n: int)
    ensures
        diff_count(a, b, n) == diff_count(b, a, n),
    decreases n,
{
    if n > 0 {
        lemma_diff_count_symmetric(a, b, n - 1);
    }
}

/// The Hamming distance does not depend on the order of its arguments.
pub proof fn lemma_hamming_symmetric(a: Seq<u8>, b: Seq<u8>)
    ensures
        hamming(a, b) == hamming(b, a),
{
    lemma_diff_count_symmetric(a, b, if a.len() <= b.len() {
        a.len() as int
    } else {
        b.len() as int
    });
}

/// The Hamming distance is at most the length of the shorter sequence.
pub proof fn lemma_hamming_bound(a: Seq<u8>, b: Seq<u8>)
    ensures
        hamming(a, b) <= a.len(),
        hamming(a, b) <= b.len(),
{
    lemma_diff_count_bound(a, b, if a.len() <= b.len() {
        a.len() as int
    } else {
        b.len() as int
    });
}

/// Counts the positions, within the shorter slice, at which `a` and `b` differ.
pub fn hamming_distance(a: &[u8], b: &[u8]) -> (r: usize)
    ensures
        r == hamming(a@, b@),
{
    let n: usize = if a.len() <= b.len() {
        a.len()
    } else {
        b.len()
    };
    let mut count: usize = 0;
    let mut i: usize = 0;
    while i < n
        invariant
            n <= a.len(),
            n <= b.len(),
            n == a.len() || n == b.len(),
            i <= n,
            count == diff_count(a@, b@, i as int),
        decreases n - i,
    {
        proof {
            lemma_diff_count_bound(a@, b@, i as int);
        }
        if a[i] != b[i] {
            count = count + 1;
        }
        i = i + 1;
    }
    count
}

/// Copies `bits` symbol by symbol.
pub fn copy_bits(bits: &[u8]) -> (r: Vec<u8>)
    ensures
        r@ == bits@,
{
    let mut r: Vec<u8> = Vec::new();
    let mut i: usize = 0;
    while i < bits.len()
        invariant
            i <= bits.len(),
            r@ == bits@.take(i as int),
        decreases bits.len() - i,
    {
        r.push(bits[i]);
        i = i + 1;
        assert(r@ =~= bits@.take(i as int));
    }
    assert(bits@.take(bits.len() as int) =~= bits@);
    r
}

/// The child of `mom` and `dad` cut at `cp`: `mom` up to `cp`, then `dad`.
pub open spec fn spliced(mom: Seq<u8>, dad: Seq<u8>, cp: int) -> Seq<u8> {
    mom.take(cp) + dad.skip(cp)
}

/// Whether `a` and `b` hold the same symbols.
pub fn same_bits(a: &[u8], b: &[u8]) -> (r: bool)
    ensures
        r == (a@ == b@),
{
    if a.len() != b.len() {
        return false;
    }
    let mut i: usize = 0;
    while i < a.len()
        invariant
            a@.len() == b@.len(),
            i <= a@.len(),
            forall|j: int| 0 <= j < i ==> a@[j] == b@[j],
        decreases a@.len() - i,
    {
        if a[i] != b[i] {
            return false;
        }
        i = i + 1;
    }
    assert(a@ =~= b@);
    true
}

/// The two children of a single-point crossover at `cp`: `mom`'s head with
/// `dad`'s tail, and `dad`'s head with `mom`'s tail.
pub fn cross_at(mom: &[u8], dad: &[u8], cp: usize) -> (r: (Vec<u8>, Vec<u8>))
    requires
        mom@.len() == dad@.len(),
        cp <= mom@.len(),
    ensures
        r.0@ == spliced(mom@, dad@, cp as int),
        r.1@ == spliced(dad@, mom@, cp as int),
{
    let mut baby1: Vec<u8> = Vec::new();
    let mut baby2: Vec<u8> = Vec::new();
    let mut i: usize = 0;
    while i < mom.len()
        invariant
            mom@.len() == dad@.len(),
            cp <= mom@.len(),
            i <= mom@.len(),
            baby1@ == spliced(mom@, dad@, cp as int).take(i as int),
            baby2@ == spliced(dad@, mom@, cp as int).take(i as int),
        decreases mom@.len() - i,
    {
        if i < cp {
            baby1.push(mom[i]);
            baby2.push(dad[i]);
        } else {
            baby1.push(dad[i]);
            baby2.push(mom[i]);
        }
        i = i + 1;
        assert(baby1@ =~= spliced(mom@, dad@, cp as int).take(i as int));
        assert(baby2@ =~= spliced(dad@, mom@, cp as int).take(i as int));
    }
    assert(spliced(mom@, dad@, cp as int).take(i as int) =~= spliced(mom@, dad@, cp as int));
    assert(spliced(dad@, mom@, cp as int).take(i as int) =~= spliced(dad@, mom@, cp as int));
    (baby1, baby2)
}

impl Genome {
    /// A genome of `num_bits` independently drawn bits, with fitness 0 and
    /// stagnation 0.
    pub fn new_random(num_bits: usize) -> (r: Genome)
        ensures
            r.bits@.len() == num_bits,
            is_binary(r.bits@),
            r.fitness == 0,
            r.stagnation == 0,
    {
        let mut bits: Vec<u8> = Vec::new();
        let mut i: usize = 0;
        while i < num_bits
            invariant
                i <= num_bits,
                bits@.len() == i,
                is_binary(bits@),
            decreases num_bits - i,
        {
            let b = random_bit();
            bits.push(b);
            i = i + 1;
        }
        Genome { bits, fitness: 0, stagnation: 0 }
    }

    /// A copy of this genome: the same bits, fitness and stagnation.
    pub fn duplicate(&self) -> (r: Genome)
        ensures
            r.bits@ == self.bits@,
            r.fitness == self.fitness,
            r.stagnation == self.stagnation,
    {
        Genome { bits: copy_bits(self.bits.as_slice()), fitness: self.fitness, stagnation: self.stagnation }
    }
}

} // verus!
