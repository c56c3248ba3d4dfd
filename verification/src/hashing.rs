//! Hashes that turn rows, categories and category tuples into keys, folds and buckets.

use crate::num::Num;
use vstd::prelude::*;

verus! {

/// The key of a value that is missing.
pub const MISSING_KEY: i64 = i64::MIN;

pub const GOLDEN: u64 = 0x9E37_79B9_7F4A_7C15;

pub const MIX_A: u64 = 0xBF58_476D_1CE4_E5B9;

pub const MIX_B: u64 = 0x94D0_49BB_1331_11EB;

/// The SplitMix64 output function.
pub open spec fn scrambled(z: u64) -> u64 {
    let a: u64 = (z ^ (z >> 30)).wrapping_mul(MIX_A);
    let b: u64 = (a ^ (a >> 27)).wrapping_mul(MIX_B);
    b ^ (b >> 31)
}

pub fn scramble(z: u64) -> (r: u64)
    ensures
        r == scrambled(z),
{
    let a: u64 = (z ^ (z >> 30)).wrapping_mul(MIX_A);
    let b: u64 = (a ^ (a >> 27)).wrapping_mul(MIX_B);
    b ^ (b >> 31)
}

/// The fold of a row when `folds` folds are drawn by hashing the row with a seed.
pub open spec fn hashed_fold(row: usize, seed: u64, folds: usize) -> int {
    (scrambled((row as u64).wrapping_add(GOLDEN).wrapping_add(seed)) as usize) as int % folds as int
}

pub fn hash_fold(row: usize, seed: u64, folds: usize) -> (r: usize)
    requires
        folds > 0,
    ensures
        r == hashed_fold(row, seed, folds),
        r < folds,
{
    let z: u64 = scramble((row as u64).wrapping_add(GOLDEN).wrapping_add(seed));
    (#[verifier::truncate] (z as usize)) % folds
}

/// The key of a single category: its integer part, or the missing key for NaN.
pub open spec fn single_key(v: Num) -> i64 {
    if v.nan() {
        MISSING_KEY
    } else {
        crate::num::saturate(v.truncated(), i64::MIN as int, i64::MAX as int) as i64
    }
}

pub fn ctr_single_key(v: &Num) -> (r: i64)
    ensures
        r == single_key(*v),
{
    if v.is_nan() {
        MISSING_KEY
    } else {
        v.to_i64()
    }
}

/// The key of an ordered pair of category keys.
pub open spec fn pair_key(a: i64, b: i64) -> i64 {
    let x: u64 = (a as u64).wrapping_mul(0x9E37_79B1_85EB_CA87) ^ (b as u64).wrapping_mul(0xC2B2_AE3D_27D4_EB4F);
    let y: u64 = (x ^ (x >> 33)).wrapping_mul(0xFF51_AFD7_ED55_8CCD);
    (y ^ (y >> 33)) as i64
}

pub fn ctr_pair_key(a: i64, b: i64) -> (r: i64)
    ensures
        r == pair_key(a, b),
{
    let x: u64 = (#[verifier::truncate] (a as u64)).wrapping_mul(0x9E37_79B1_85EB_CA87) ^ (#[verifier::truncate] (
    b as u64)).wrapping_mul(0xC2B2_AE3D_27D4_EB4F);
    let y: u64 = (x ^ (x >> 33)).wrapping_mul(0xFF51_AFD7_ED55_8CCD);
    #[verifier::truncate]
    ((y ^ (y >> 33)) as i64)
}

/// The key of an ordered triple of category keys.
pub open spec fn triple_key(a: i64, b: i64, c: i64) -> i64 {
    pair_key(pair_key(a, b), c)
}

pub fn ctr_triple_key(a: i64, b: i64, c: i64) -> (r: i64)
    ensures
        r == triple_key(a, b, c),
{
    ctr_pair_key(ctr_pair_key(a, b), c)
}

/// The bucket, out of 256, of a pair of category values.
pub open spec fn pair_bucket(a: i64, b: i64) -> i64 {
    (a.wrapping_mul(1_000_003) ^ b.wrapping_mul(1_000_033)) & 255
}

/// The interaction bucket of two raw category values, or nothing where either is NaN.
pub fn cat_interaction_bucket(vi: &Num, vj: &Num) -> (r: Option<i64>)
    ensures
        r == (if vi.nan() || vj.nan() {
            None::<i64>
        } else {
            Some(pair_bucket(single_key(*vi), single_key(*vj)))
        }),
        r matches Some(b) ==> 0 <= b < 256,
{
    if vi.is_nan() || vj.is_nan() {
        return None;
    }
    let a: i64 = ctr_single_key(vi).wrapping_mul(1_000_003);
    let b: i64 = ctr_single_key(vj).wrapping_mul(1_000_033);
    let h: i64 = (a ^ b) & 255;
    assert(0 <= (a ^ b) & 255 < 256) by (bit_vector);
    Some(h)
}

/// One step of the category-tuple hash.
pub open spec fn tuple_step(h: u64, v: u64) -> u64 {
    scrambled(h ^ v.wrapping_mul(GOLDEN))
}

pub fn cfe_mix(h: u64, v: u64) -> (r: u64)
    ensures
        r == tuple_step(h, v),
{
    scramble(h ^ v.wrapping_mul(GOLDEN))
}

/// The hash state after the first `n` features of a row, started from a fixed word.
pub open spec fn tuple_hash(x: Seq<Num>, base: int, feats: Seq<usize>, n: nat) -> u64
    decreases n,
{
    if n == 0 {
        0x517C_C1B7
    } else {
        tuple_step(
            tuple_hash(x, base, feats, (n - 1) as nat),
            (crate::num::saturate(x[base + feats[n - 1]].rounded(), i64::MIN as int, i64::MAX as int) as i64) as u64,
        )
    }
}

/// The key of a row's category tuple: missing where one of the values is not finite.
pub open spec fn tuple_key(x: Seq<Num>, base: int, feats: Seq<usize>) -> i64 {
    if exists|i: int| 0 <= i < feats.len() && !(#[trigger] x[base + feats[i]]).finite() {
        MISSING_KEY
    } else {
        (tuple_hash(x, base, feats, feats.len()) >> 1) as i64
    }
}

fn row_tuple_key(x: &Vec<Num>, base: usize, feats: &Vec<usize>) -> (r: i64)
    requires
        forall|i: int| 0 <= i < feats@.len() ==> base + #[trigger] feats@[i] < x@.len(),
    ensures
        r == tuple_key(x@, base as int, feats@),
{
    let mut h: u64 = 0x517C_C1B7;
    let mut i: usize = 0;
    while i < feats.len()
        invariant
            i <= feats@.len(),
            forall|k: int| 0 <= k < feats@.len() ==> base + #[trigger] feats@[k] < x@.len(),
            forall|k: int| 0 <= k < i ==> (#[trigger] x@[base + feats@[k]]).finite(),
            h == tuple_hash(x@, base as int, feats@, i as nat),
        decreases feats@.len() - i,
    {
        assert(base + feats@[i as int] < x@.len());
        assert(x.len() == x@.len());
        let v: Num = x[base + feats[i]];
        if !v.is_finite() {
            assert(!x@[base + feats@[i as int]].finite());
            return MISSING_KEY;
        }
        h = cfe_mix(h, #[verifier::truncate] (v.round_to_i64() as u64));
        i = i + 1;
    }
    #[verifier::truncate]
    ((h >> 1) as i64)
}

/// The tuple keys of all rows of a row-major matrix.
pub fn cfe_keys(x: &Vec<Num>, n_rows: usize, n_features: usize, feats: &Vec<usize>) -> (keys: Vec<i64>)
    requires
        n_rows * n_features <= x@.len(),
        forall|i: int| 0 <= i < feats@.len() ==> #[trigger] feats@[i] < n_features,
    ensures
        keys@.len() == n_rows,
        forall|row: int| 0 <= row < n_rows ==> #[trigger] keys@[row] == tuple_key(x@, row * n_features, feats@),
{
    let mut keys: Vec<i64> = Vec::new();
    let mut row: usize = 0;
    while row < n_rows
        invariant
            row <= n_rows,
            n_rows * n_features <= x@.len(),
            forall|i: int| 0 <= i < feats@.len() ==> #[trigger] feats@[i] < n_features,
            keys@.len() == row,
            forall|k: int| 0 <= k < row ==> #[trigger] keys@[k] == tuple_key(x@, k * n_features, feats@),
        decreases n_rows - row,
    {
        assert(row * n_features + n_features <= n_rows * n_features) by (nonlinear_arith)
            requires
                row < n_rows,
        ;
        assert(x.len() == x@.len());
        let base: usize = row * n_features;
        assert forall|i: int| 0 <= i < feats@.len() implies base + #[trigger] feats@[i] < x@.len() by {}
        keys.push(row_tuple_key(x, base, feats));
        row = row + 1;
    }
    keys
}

/// The key of a category is the whole number it stands for, held to the range of keys, and
/// a value that is missing has a key of its own.
pub proof fn law_categories_are_their_number(v: Num, c: i64)
    ensures
        v.nan() ==> single_key(v) == i64::MIN,
        v.finite() && c >= 0 && c * vstd::arithmetic::power2::pow2(1074) <= v.scaled() < (c + 1)
            * vstd::arithmetic::power2::pow2(1074) ==> single_key(v) == c,
        v.finite() && c < 0 && (c - 1) * vstd::arithmetic::power2::pow2(1074) < v.scaled() <= c
            * vstd::arithmetic::power2::pow2(1074) ==> single_key(v) == c,
        !v.nan() && !v.finite() ==> single_key(v) == if v.bits < 0x8000_0000_0000_0000 {
            i64::MAX
        } else {
            i64::MIN
        },
{
    if v.finite() {
        crate::num::law_truncation_drops_the_fraction(v);
        vstd::arithmetic::power2::lemma_pow2_pos(1074);
        let u = vstd::arithmetic::power2::pow2(1074) as int;
        let t = v.truncated();
        let s = v.scaled();
        let k = c as int;
        assert(crate::num::scaled_magnitude(0) == 0);
        crate::num::law_key_orders_values(v, Num { bits: 0 });
        crate::num::law_key_orders_values(Num { bits: 0 }, v);
        if k >= 0 && k * u <= s < (k + 1) * u {
            if !v.negative() {
                assert(t == k) by (nonlinear_arith)
                    requires
                        u > 0,
                        t * u <= s < (t + 1) * u,
                        k * u <= s < (k + 1) * u,
                ;
            } else {
                assert(k == 0 && t == 0) by (nonlinear_arith)
                    requires
                        u > 0,
                        0 <= k,
                        s <= 0,
                        k * u <= s < (k + 1) * u,
                        (t - 1) * u < s <= t * u,
                ;
            }
        }
        if k < 0 && (k - 1) * u < s <= k * u {
            assert(s < 0) by (nonlinear_arith)
                requires
                    u > 0,
                    k < 0,
                    s <= k * u,
            ;
            assert(v.negative());
            assert(t == k) by (nonlinear_arith)
                requires
                    u > 0,
                    (k - 1) * u < s <= k * u,
                    (t - 1) * u < s <= t * u,
            ;
        }
    }
}

/// Values that round alike are the same to a tuple's hash: only the nearest whole numbers
/// of its members count.
pub proof fn law_tuples_hash_whole_numbers(x: Seq<Num>, base: int, y: Seq<Num>, at: int, feats: Seq<usize>, n: nat)
    requires
        n <= feats.len(),
        forall|j: int| 0 <= j < n ==> x[base + #[trigger] feats[j]].rounded() == y[at + feats[j]].rounded(),
    ensures
        tuple_hash(x, base, feats, n) == tuple_hash(y, at, feats, n),
    decreases n,
{
    if n > 0 {
        law_tuples_hash_whole_numbers(x, base, y, at, feats, (n - 1) as nat);
        assert(x[base + feats[n - 1]].rounded() == y[at + feats[n - 1]].rounded());
    }
}

/// A factor with an inverse tells words apart.
proof fn lemma_factor(a: u64, b: u64, factor: u64, inverse: u64, carry: u64)
    requires
        factor * inverse == 1 + carry * 0x1_0000_0000_0000_0000,
        a.wrapping_mul(factor) == b.wrapping_mul(factor),
    ensures
        a == b,
{
    lemma_undone(a, factor, inverse, carry);
    lemma_undone(b, factor, inverse, carry);
}

proof fn lemma_undone(a: u64, factor: u64, inverse: u64, carry: u64)
    requires
        factor * inverse == 1 + carry * 0x1_0000_0000_0000_0000,
    ensures
        (a.wrapping_mul(factor) * inverse) % 0x1_0000_0000_0000_0000 == a,
{
    let m: int = 0x1_0000_0000_0000_0000;
    let p = a * factor;
    let r = p % m;
    assert(a.wrapping_mul(factor) == r);
    vstd::arithmetic::div_mod::lemma_fundamental_div_mod(p, m);
    let q = p / m;
    assert(r * inverse == m * (a * carry - q * inverse) + a) by (nonlinear_arith)
        requires
            p == a * factor,
            p == m * q + r,
            factor * inverse == 1 + carry * m,
    ;
    let k = a * carry - q * inverse;
    assert(r * inverse == k * m + a) by (nonlinear_arith)
        requires
            r * inverse == m * k + a,
    ;
    vstd::arithmetic::div_mod::lemma_fundamental_div_mod_converse(r * inverse, m, k, a as int);
}

/// Scrambling loses nothing: different words stay different, and so do tuples that differ
/// in their last member.
pub proof fn law_scrambling_tells_words_apart(a: u64, b: u64, h: u64)
    requires
        a != b,
    ensures
        scrambled(a) != scrambled(b),
        tuple_step(h, a) != tuple_step(h, b),
        tuple_step(a, h) != tuple_step(b, h),
{
    lemma_scrambled(a, b);
    if a.wrapping_mul(GOLDEN) == b.wrapping_mul(GOLDEN) {
        assert(GOLDEN * 0xf1de_83e1_9937_733du64 == 1 + 10771413168148108919u64 * 0x1_0000_0000_0000_0000)
            by (nonlinear_arith)
            requires
                GOLDEN == 0x9E37_79B9_7F4A_7C15u64,
        ;
        lemma_factor(a, b, GOLDEN, 0xf1de_83e1_9937_733d, 10771413168148108919);
    }
    let x: u64 = a.wrapping_mul(GOLDEN);
    let y: u64 = b.wrapping_mul(GOLDEN);
    let z: u64 = h.wrapping_mul(GOLDEN);
    assert(x != y ==> h ^ x != h ^ y) by (bit_vector);
    assert(a != b ==> a ^ z != b ^ z) by (bit_vector);
    lemma_scrambled(h ^ x, h ^ y);
    lemma_scrambled(a ^ z, b ^ z);
}

proof fn lemma_scrambled(a: u64, b: u64)
    requires
        a != b,
    ensures
        scrambled(a) != scrambled(b),
{
    let c: u64 = a ^ (a >> 30);
    let d: u64 = b ^ (b >> 30);
    assert(a != b ==> a ^ (a >> 30) != b ^ (b >> 30)) by (bit_vector);
    if c.wrapping_mul(MIX_A) == d.wrapping_mul(MIX_A) {
        assert(MIX_A * 0x96de_1b17_3f11_9089u64 == 1 + 8125545580553827436u64 * 0x1_0000_0000_0000_0000)
            by (nonlinear_arith)
            requires
                MIX_A == 0xBF58_476D_1CE4_E5B9u64,
        ;
        lemma_factor(c, d, MIX_A, 0x96de_1b17_3f11_9089, 8125545580553827436);
    }
    let e: u64 = c.wrapping_mul(MIX_A);
    let f: u64 = d.wrapping_mul(MIX_A);
    assert(e != f ==> e ^ (e >> 27) != f ^ (f >> 27)) by (bit_vector);
    let g: u64 = e ^ (e >> 27);
    let k: u64 = f ^ (f >> 27);
    if g.wrapping_mul(MIX_B) == k.wrapping_mul(MIX_B) {
        assert(MIX_B * 0x3196_42b2_d24d_8ec3u64 == 1 + 2077064247507883091u64 * 0x1_0000_0000_0000_0000)
            by (nonlinear_arith)
            requires
                MIX_B == 0x94D0_49BB_1331_11EBu64,
        ;
        lemma_factor(g, k, MIX_B, 0x3196_42b2_d24d_8ec3, 2077064247507883091);
    }
    let l: u64 = g.wrapping_mul(MIX_B);
    let m: u64 = k.wrapping_mul(MIX_B);
    assert(l != m ==> l ^ (l >> 31) != m ^ (m >> 31)) by (bit_vector);
}

/// Pairs that share one category have the same key only where they share the other, and so
/// have triples that share two.
pub proof fn law_pair_keys_tell_categories_apart(a: i64, b: i64, c: i64, d: i64)
    requires
        b != c,
    ensures
        pair_key(a, b) != pair_key(a, c),
        pair_key(b, a) != pair_key(c, a),
        triple_key(a, d, b) != triple_key(a, d, c),
        triple_key(a, b, d) != triple_key(a, c, d),
        triple_key(b, a, d) != triple_key(c, a, d),
{
    lemma_pair_key(a, b, c);
    lemma_pair_key(pair_key(a, d), b, c);
    lemma_pair_key(d, pair_key(a, b), pair_key(a, c));
    lemma_pair_key(d, pair_key(b, a), pair_key(c, a));
}

proof fn lemma_pair_key(a: i64, b: i64, c: i64)
    requires
        b != c,
    ensures
        pair_key(a, b) != pair_key(a, c),
        pair_key(b, a) != pair_key(c, a),
{
    assert(b != c ==> b as u64 != c as u64) by (bit_vector);
    let p: u64 = b as u64;
    let q: u64 = c as u64;
    if p.wrapping_mul(0xC2B2_AE3D_27D4_EB4F) == q.wrapping_mul(0xC2B2_AE3D_27D4_EB4F) {
        assert(0xC2B2_AE3D_27D4_EB4Fu64 * 0x0ba7_9078_168d_4bafu64 == 1 + 638699622168397319u64
            * 0x1_0000_0000_0000_0000) by (nonlinear_arith);
        lemma_factor(p, q, 0xC2B2_AE3D_27D4_EB4F, 0x0ba7_9078_168d_4baf, 638699622168397319);
    }
    if p.wrapping_mul(0x9E37_79B1_85EB_CA87) == q.wrapping_mul(0x9E37_79B1_85EB_CA87) {
        assert(0x9E37_79B1_85EB_CA87u64 * 0x0887_4934_32ba_db37u64 == 1 + 379806830464837242u64
            * 0x1_0000_0000_0000_0000) by (nonlinear_arith);
        lemma_factor(p, q, 0x9E37_79B1_85EB_CA87, 0x0887_4934_32ba_db37, 379806830464837242);
    }
    let r: u64 = (a as u64).wrapping_mul(0x9E37_79B1_85EB_CA87);
    let s: u64 = (a as u64).wrapping_mul(0xC2B2_AE3D_27D4_EB4F);
    let e: u64 = p.wrapping_mul(0xC2B2_AE3D_27D4_EB4F);
    let f: u64 = q.wrapping_mul(0xC2B2_AE3D_27D4_EB4F);
    let g: u64 = p.wrapping_mul(0x9E37_79B1_85EB_CA87);
    let k: u64 = q.wrapping_mul(0x9E37_79B1_85EB_CA87);
    assert(e != f ==> r ^ e != r ^ f) by (bit_vector);
    assert(g != k ==> g ^ s != k ^ s) by (bit_vector);
    lemma_finish(r ^ e, r ^ f);
    lemma_finish(g ^ s, k ^ s);
}

proof fn lemma_finish(x: u64, y: u64)
    requires
        x != y,
    ensures
        ({
            let p: u64 = (x ^ (x >> 33)).wrapping_mul(0xFF51_AFD7_ED55_8CCD);
            let q: u64 = (y ^ (y >> 33)).wrapping_mul(0xFF51_AFD7_ED55_8CCD);
            (p ^ (p >> 33)) as i64 != (q ^ (q >> 33)) as i64
        }),
{
    assert(x != y ==> x ^ (x >> 33) != y ^ (y >> 33)) by (bit_vector);
    let a: u64 = x ^ (x >> 33);
    let b: u64 = y ^ (y >> 33);
    if a.wrapping_mul(0xFF51_AFD7_ED55_8CCD) == b.wrapping_mul(0xFF51_AFD7_ED55_8CCD) {
        assert(0xFF51_AFD7_ED55_8CCDu64 * 0x4f74_430c_22a5_4005u64 == 1 + 5710046619856821070u64
            * 0x1_0000_0000_0000_0000) by (nonlinear_arith);
        lemma_factor(a, b, 0xFF51_AFD7_ED55_8CCD, 0x4f74_430c_22a5_4005, 5710046619856821070);
    }
    let p: u64 = a.wrapping_mul(0xFF51_AFD7_ED55_8CCD);
    let q: u64 = b.wrapping_mul(0xFF51_AFD7_ED55_8CCD);
    assert(p != q ==> p ^ (p >> 33) != q ^ (q >> 33)) by (bit_vector);
    let c: u64 = p ^ (p >> 33);
    let d: u64 = q ^ (q >> 33);
    assert(c != d ==> c as i64 != d as i64) by (bit_vector);
}

/// The key of a tuple is half of its hash, and a pair's bucket the last byte of its mix.
pub proof fn law_keys_are_parts_of_hashes(x: Seq<Num>, base: int, feats: Seq<usize>, a: i64, b: i64)
    requires
        forall|i: int| 0 <= i < feats.len() ==> (#[trigger] x[base + feats[i]]).finite(),
    ensures
        2 * tuple_key(x, base, feats) <= tuple_hash(x, base, feats, feats.len()) <= 2 * tuple_key(x, base, feats) + 1,
        0 <= pair_bucket(a, b) < 256,
        pair_bucket(a, b) == ((a.wrapping_mul(1_000_003) ^ b.wrapping_mul(1_000_033)) as u64) % 256,
{
    let h: u64 = tuple_hash(x, base, feats, feats.len());
    assert(h >> 1 == h / 2) by (bit_vector);
    let m: i64 = a.wrapping_mul(1_000_003) ^ b.wrapping_mul(1_000_033);
    assert((m & 255) as u64 == (m as u64) % 256 && 0 <= (m & 255) < 256) by (bit_vector);
}

} // verus!
