//! Which shard a vector belongs to.

use rustc_hash::FxHasher;
use std::hash::{Hash, Hasher};
use vstd::prelude::*;

verus! {

/// A word rotated left: its upper `high` and lower `low` values change places.
pub open spec fn rotated(word: int, low: int, high: int) -> int {
    (word % low) * high + word / low
}

/// The Fx hash of an id. On a 64-bit machine the id is multiplied by a constant, modulo `2^64`,
/// and the product rotated left by 26 bits. On a 32-bit machine the id's lower half is multiplied
/// by a constant, its upper half added, the sum multiplied again, all modulo `2^32`, and the
/// product rotated left by 15 bits.
pub open spec fn fx(id: u64) -> int {
    if usize::BITS == 64 {
        rotated(
            (id * 0xf135_7aea_2e62_a9c5int) % 0x1_0000_0000_0000_0000int,
            0x40_0000_0000int,
            0x400_0000int,
        )
    } else {
        let first = ((id as int % 0x1_0000_0000int) * 0x93d7_65ddint) % 0x1_0000_0000int;
        rotated(
            ((first + id as int / 0x1_0000_0000int) * 0x93d7_65ddint) % 0x1_0000_0000int,
            0x2_0000int,
            0x8000int,
        )
    }
}

/// Hashes an id with `FxHasher` of rustc-hash, from its default state: the result is `fx(id)`.
#[verifier::external_body]
fn fx_hash(id: u64) -> (r: u64)
    ensures
        r == fx(id),
{
    let mut hasher = FxHasher::default();
    id.hash(&mut hasher);
    hasher.finish()
}

/// The shard of a vector: the Fx hash of its id, modulo the number of shards.
pub open spec fn shard_of(vector_id: u64, shard_count: u32) -> int {
    fx(vector_id) % shard_count as int
}

/// The shard of a vector in a collection of `shard_count` shards, fixed for the collection's
/// lifetime.
pub fn shard_id(vector_id: u64, shard_count: u32) -> (r: u32)
    requires
        shard_count > 0,
    ensures
        r == shard_of(vector_id, shard_count),
        r < shard_count,
        (fx(vector_id) - r) % shard_count as int == 0,
{
    let hash: u64 = fx_hash(vector_id);
    proof {
        shards_are_residues_of_the_hash(vector_id, shard_count);
    }
    (hash % shard_count as u64) as u32
}

/// Whatever the number of shards, an id's shard is the one of them that its hash is congruent to:
/// the number of shards divides the difference of the two. So all ids whose hashes leave the same
/// remainder share a shard, and no others do.
pub proof fn shards_are_residues_of_the_hash(vector_id: u64, shard_count: u32)
    requires
        shard_count > 0,
    ensures
        0 <= shard_of(vector_id, shard_count) < shard_count,
        (fx(vector_id) - shard_of(vector_id, shard_count)) % shard_count as int == 0,
        exists|times: int|
            fx(vector_id) == #[trigger] (times * shard_count) + shard_of(vector_id, shard_count),
        forall|other: u64|
            #![trigger shard_of(other, shard_count)]
            shard_of(other, shard_count) == shard_of(vector_id, shard_count) <==> (fx(other) - fx(
                vector_id,
            )) % shard_count as int == 0,
{
    let n = shard_count as int;
    let h = fx(vector_id);
    let q = h / n;
    vstd::arithmetic::div_mod::lemma_fundamental_div_mod(h, n);
    vstd::arithmetic::div_mod::lemma_mod_bound(h, n);
    assert(h == q * n + h % n) by (nonlinear_arith)
        requires
            h == n * q + h % n,
    ;
    vstd::arithmetic::div_mod::lemma_fundamental_div_mod_converse(h - h % n, n, q, 0);
    assert forall|other: u64|
        #![trigger shard_of(other, shard_count)]
        shard_of(other, shard_count) == shard_of(vector_id, shard_count) <==> (fx(other) - h) % n
            == 0 by {
        let g = fx(other);
        let p = g / n;
        vstd::arithmetic::div_mod::lemma_fundamental_div_mod(g, n);
        vstd::arithmetic::div_mod::lemma_mod_bound(g, n);
        let d = g % n - h % n;
        assert(g - h == (p - q) * n + d) by (nonlinear_arith)
            requires
                g == n * p + g % n,
                h == n * q + h % n,
                d == g % n - h % n,
        ;
        if d >= 0 {
            vstd::arithmetic::div_mod::lemma_fundamental_div_mod_converse(g - h, n, p - q, d);
        } else {
            assert(g - h == (p - q - 1) * n + (d + n)) by (nonlinear_arith)
                requires
                    g - h == (p - q) * n + d,
            ;
            vstd::arithmetic::div_mod::lemma_fundamental_div_mod_converse(
                g - h,
                n,
                p - q - 1,
                d + n,
            );
        }
    }
}

/// On a 64-bit machine the hash is one multiplication by an odd constant, the overflow dropped, and
/// one rotation by 26 bits, and different ids have different hashes.
pub proof fn wide_hashes_are_rotated_products(id: u64, other: u64, product: u64)
    requires
        usize::BITS == 64,
        (id * 0xf135_7aea_2e62_a9c5 - product) % 0x1_0000_0000_0000_0000 == 0,
    ensures
        fx(id) == ((product << 26u64) | (product >> 38u64)),
        fx(id) == fx(other) ==> id == other,
{
    let m: int = 0x1_0000_0000_0000_0000;
    let z = id * 0xf135_7aea_2e62_a9c5;
    let t = (z - product) / m;
    assert(z == t * m + product);
    vstd::arithmetic::div_mod::lemma_fundamental_div_mod_converse(z, m, t, product as int);
    assert((product << 26u64) | (product >> 38u64) == (product % 0x40_0000_0000u64)
        * 0x400_0000u64 + product / 0x40_0000_0000u64) by (bit_vector);
    if fx(id) == fx(other) {
        let y = other * 0xf135_7aea_2e62_a9c5;
        let word = y % m;
        lemma_rotation_keeps(product as int, word);
        lemma_product_keeps(id as int, other as int);
    }
}

/// On a 32-bit machine the hash takes an id in two halves: the lower one is multiplied by a
/// constant, the upper one added, and the sum multiplied again, the overflow dropped, and the
/// product rotated by 15 bits.
pub proof fn narrow_hashes_are_rotated_products(low: u32, high: u32, product: u32)
    requires
        usize::BITS == 32,
        ((low * 0x93d7_65dd + high) * 0x93d7_65dd - product) % 0x1_0000_0000 == 0,
    ensures
        fx((low + high * 0x1_0000_0000) as u64) == ((product << 15u32) | (product >> 17u32)),
{
    let m: int = 0x1_0000_0000;
    let id = (low + high * 0x1_0000_0000) as u64;
    assert(id as int % m == low && id as int / m == high);
    let first = (low * 0x93d7_65dd) % m;
    let over = (low * 0x93d7_65dd) / m;
    let z = (first + high) * 0x93d7_65dd;
    let t = ((low * 0x93d7_65dd + high) * 0x93d7_65dd - product) / m;
    assert(first == low * 0x93d7_65dd - over * m);
    assert(z == (t - over * 0x93d7_65dd) * m + product);
    vstd::arithmetic::div_mod::lemma_fundamental_div_mod_converse(
        z,
        m,
        t - over * 0x93d7_65dd,
        product as int,
    );
    assert((product << 15u32) | (product >> 17u32) == (product % 0x2_0000u32) * 0x8000u32
        + product / 0x2_0000u32) by (bit_vector);
}

proof fn lemma_rotation_keeps(a: int, b: int)
    requires
        0 <= a < 0x1_0000_0000_0000_0000,
        0 <= b < 0x1_0000_0000_0000_0000,
        rotated(a, 0x40_0000_0000, 0x400_0000) == rotated(b, 0x40_0000_0000, 0x400_0000),
    ensures
        a == b,
{
    let (ah, al) = (a / 0x40_0000_0000, a % 0x40_0000_0000);
    let (bh, bl) = (b / 0x40_0000_0000, b % 0x40_0000_0000);
    assert(al * 0x400_0000 + ah == bl * 0x400_0000 + bh);
    assert(0 <= ah < 0x400_0000 && 0 <= bh < 0x400_0000);
    assert(al == bl && ah == bh);
}

/// Multiplying by an odd constant loses nothing: multiplying by its inverse gives the factor back.
proof fn lemma_product_keeps(a: int, b: int)
    requires
        0 <= a < 0x1_0000_0000_0000_0000,
        0 <= b < 0x1_0000_0000_0000_0000,
        (a * 0xf135_7aea_2e62_a9c5) % 0x1_0000_0000_0000_0000 == (b * 0xf135_7aea_2e62_a9c5)
            % 0x1_0000_0000_0000_0000,
    ensures
        a == b,
{
    let m: int = 0x1_0000_0000_0000_0000;
    let p = (a * 0xf135_7aea_2e62_a9c5) / m;
    let q = (b * 0xf135_7aea_2e62_a9c5) / m;
    assert((a - b) * 0xf135_7aea_2e62_a9c5 == (p - q) * m);
    let d = a - b;
    assert(d * 0xf135_7aea_2e62_a9c5 * 8652704222047563021 == (p - q) * m * 8652704222047563021);
    assert(0xf135_7aea_2e62_a9c5 * 8652704222047563021 == 1 + 8152770805060793744 * m);
    assert(d == m * ((p - q) * 8652704222047563021 - 8152770805060793744 * d));
}

} // verus!
