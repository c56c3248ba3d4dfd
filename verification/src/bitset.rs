//! Sets of small integers as bits of 64-bit words.

use vstd::prelude::*;

verus! {

/// Whether bit `i` of `word` is set.
pub open spec fn word_bit(word: u64, i: u64) -> bool {
    (word >> i) & 1 == 1
}

/// Whether `i` is in the set that `words` holds; an index beyond them is not.
pub open spec fn has_bit(words: Seq<u64>, i: int) -> bool {
    0 <= i / 64 < words.len() && word_bit(words[i / 64], (i % 64) as u64)
}

/// The empty set, with room for the integers below `n`.
pub fn bitvec_new(n: usize) -> (words: Vec<u64>)
    ensures
        words@.len() == (n + 63) / 64,
        forall|i: int| !#[trigger] has_bit(words@, i),
{
    let count: usize = n / 64 + (if n % 64 == 0 { 0usize } else { 1usize });
    let mut words: Vec<u64> = Vec::new();
    let mut k: usize = 0;
    while k < count
        invariant
            k <= count,
            words@.len() == k,
            forall|j: int| 0 <= j < k ==> #[trigger] words@[j] == 0,
        decreases count - k,
    {
        words.push(0);
        k = k + 1;
    }
    assert forall|i: int| !#[trigger] has_bit(words@, i) by {
        if 0 <= i / 64 < words@.len() {
            let b = (i % 64) as u64;
            assert((0u64 >> b) & 1 == 0) by (bit_vector);
        }
    }
    words
}

/// Adds `i` to the set.
pub fn bitvec_set(words: &mut Vec<u64>, i: usize)
    requires
        i / 64 < old(words)@.len(),
    ensures
        final(words)@.len() == old(words)@.len(),
        forall|j: int| 0 <= j ==> (#[trigger] has_bit(final(words)@, j) <==> has_bit(old(words)@, j) || j == i),
{
    let at: usize = i / 64;
    let b: u64 = (i % 64) as u64;
    let w: u64 = words[at];
    let before = Ghost(words@);
    words.set(at, w | (1u64 << b));
    assert forall|j: int| 0 <= j implies (#[trigger] has_bit(words@, j) <==> has_bit(before@, j) || j == i) by {
        if j / 64 == at {
            let c = (j % 64) as u64;
            assert(((w | (1u64 << b)) >> c) & 1 == 1 <==> ((w >> c) & 1 == 1 || c == b)) by (bit_vector)
                requires
                    b < 64,
                    c < 64,
            ;
            vstd::arithmetic::div_mod::lemma_fundamental_div_mod(j, 64);
            vstd::arithmetic::div_mod::lemma_fundamental_div_mod(i as int, 64);
        }
    }
}

/// Whether `i` is in the set.
pub fn bitvec_test(words: &Vec<u64>, i: usize) -> (r: bool)
    ensures
        r == has_bit(words@, i as int),
{
    let at: usize = i / 64;
    at < words.len() && (words[at] >> ((i % 64) as u64)) & 1 == 1
}

/// An integer is in a set exactly where its bit of its word is set.
pub proof fn law_bits_are_those_of_words(words: Seq<u64>, i: int)
    requires
        0 <= i,
    ensures
        has_bit(words, i) <==> i / 64 < words.len() && words[i / 64] & (1u64 << ((i % 64) as u64)) != 0,
{
    if i / 64 < words.len() {
        let w = words[i / 64];
        let b = (i % 64) as u64;
        assert(b < 64);
        assert(((w >> b) & 1 == 1) == (w & (1u64 << b) != 0)) by (bit_vector)
            requires
                b < 64,
        ;
    }
}

} // verus!
