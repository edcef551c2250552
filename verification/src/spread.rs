//! How evenly ids spread over four shards.
//!
//! With four shards, the shard of an id is the quarter in which a multiple of the id falls modulo a
//! power of two. The multiplier is close to a fraction of that power with a small denominator, so
//! that a block of as many consecutive ids as the denominator counts visits all quarters about
//! equally often.

use crate::sharding::{rotated, shard_of};
use vstd::prelude::*;
use vstd::set_lib::set_int_range;

verus! {

/// The ids among `n` consecutive ones from `lo` on that belong to one of four shards.
pub open spec fn in_shard(lo: int, n: int, shard: int) -> Set<int> {
    Set::new(|i: int| lo <= i < lo + n && shard_of(i as u64, 4) == shard)
}

/// Where ids end: at `2^64`, or on a 32-bit machine, whose hash takes larger ids in two halves, at
/// `2^32`.
pub open spec fn id_limit() -> int {
    if usize::BITS == 64 {
        0x1_0000_0000_0000_0000
    } else {
        0x1_0000_0000
    }
}

/// How many consecutive ids make a block.
spec fn block() -> int {
    if usize::BITS == 64 {
        176
    } else {
        406
    }
}

/// How many ids of a block every shard has at least.
spec fn share() -> int {
    if usize::BITS == 64 {
        43
    } else {
        100
    }
}

/// The last two bits of a rotated word are the two below a power of two: they tell the quarter in
/// which the word falls modulo that power.
proof fn lemma_quarter(word: int, a: int, low: int, quarter: int, high: int)
    requires
        quarter > 0,
        0 <= low < 4 * quarter,
        word == a * (4 * quarter) + low,
    ensures
        rotated(word, quarter, 4 * high) % 4 == low / quarter,
{
    let s = low / quarter;
    let x = low % quarter;
    vstd::arithmetic::div_mod::lemma_fundamental_div_mod(low, quarter);
    vstd::arithmetic::div_mod::lemma_mod_bound(low, quarter);
    assert(0 <= s < 4) by (nonlinear_arith)
        requires
            quarter > 0,
            0 <= low < 4 * quarter,
            low == quarter * s + x,
            0 <= x < quarter,
    ;
    assert(word == (4 * a + s) * quarter + x) by (nonlinear_arith)
        requires
            word == a * (4 * quarter) + low,
            low == quarter * s + x,
    ;
    vstd::arithmetic::div_mod::lemma_fundamental_div_mod_converse(word, quarter, 4 * a + s, x);
    assert(rotated(word, quarter, 4 * high) == (x * high + a) * 4 + s) by (nonlinear_arith)
        requires
            rotated(word, quarter, 4 * high) == x * (4 * high) + (4 * a + s),
    ;
    vstd::arithmetic::div_mod::lemma_fundamental_div_mod_converse(
        rotated(word, quarter, 4 * high),
        4,
        x * high + a,
        s,
    );
}

proof fn lemma_shard_wide(i: int)
    requires
        usize::BITS == 64,
        0 <= i < 0x1_0000_0000_0000_0000,
    ensures
        shard_of(i as u64, 4) == (i * 0xea_2e62_a9c5) % 0x100_0000_0000 / 0x40_0000_0000,
{
    let z = i * 0xf135_7aea_2e62_a9c5;
    let word = z % 0x1_0000_0000_0000_0000;
    let over = z / 0x1_0000_0000_0000_0000;
    let low = (i * 0xea_2e62_a9c5) % 0x100_0000_0000;
    let a = (i * 0xea_2e62_a9c5) / 0x100_0000_0000 + 15807866 * i - over * 0x100_0000;
    assert(word == a * 0x100_0000_0000 + low);
    lemma_quarter(word, a, low, 0x40_0000_0000, 0x100_0000);
}

/// In a block of 176 ids, one falls in each of 176 equal parts, give or take one part.
proof fn lemma_hit_wide(lo: int, shard: int, k: int) -> (j: int)
    requires
        usize::BITS == 64,
        0 <= lo,
        lo + 176 <= 0x1_0000_0000_0000_0000,
        0 <= shard < 4,
        44 * shard + 1 <= k <= 44 * shard + 43,
    ensures
        j == ((k - (176 * lo * 0xea_2e62_a9c5) / 0x100_0000_0000) * 129) % 176,
        0 <= j < 176,
        ((176 * lo * 0xea_2e62_a9c5) / 0x100_0000_0000 + 161 * j) % 176 == k,
        shard_of((lo + j) as u64, 4) == shard,
{
    let m: int = 0x100_0000_0000;
    let x = 176 * lo * 0xea_2e62_a9c5;
    let c = x / m;
    let r = x % m;
    let j = ((k - c) * 129) % 176;
    let u = ((k - c) * 129) / 176;
    let t = (k - c) * 118 - u * 161;
    assert(c + 161 * j == k + 176 * t);
    let i = lo + j;
    let v = i * 0xea_2e62_a9c5 - t * m;
    assert(176 * 0xea_2e62_a9c5 == 161 * m - 472598672);
    assert(176 * v == k * m + r - 472598672 * j);
    assert(shard * 0x40_0000_0000 <= v < (shard + 1) * 0x40_0000_0000);
    vstd::arithmetic::div_mod::lemma_fundamental_div_mod_converse(i * 0xea_2e62_a9c5, m, t, v);
    lemma_shard_wide(i);
    j
}

proof fn lemma_shard_narrow(i: int)
    requires
        usize::BITS != 64,
        0 <= i < 0x1_0000_0000,
    ensures
        shard_of(i as u64, 4) == (i * 401609) % 0x8_0000 / 0x2_0000,
{
    let first = (i * 0x93d7_65dd) % 0x1_0000_0000;
    let over = (i * 0x93d7_65dd) / 0x1_0000_0000;
    let word = (first * 0x93d7_65dd) % 0x1_0000_0000;
    let again = (first * 0x93d7_65dd) / 0x1_0000_0000;
    let low = (i * 401609) % 0x8_0000;
    let a = (i * 401609) / 0x8_0000 + 11734429925879 * i - over * 0x93d7_65dd * 0x2000 - again
        * 0x2000;
    assert(first == i * 0x93d7_65dd - over * 0x1_0000_0000);
    assert(word == first * 0x93d7_65dd - again * 0x1_0000_0000);
    assert(word == a * 0x8_0000 + low);
    lemma_quarter(word, a, low, 0x2_0000, 0x2000);
    vstd::arithmetic::div_mod::lemma_small_mod(i as nat, 0x1_0000_0000);
    vstd::arithmetic::div_mod::lemma_basic_div(i, 0x1_0000_0000);
}

/// The first of the parts that lie within a shard, of 406 equal ones.
spec fn first_part(shard: int) -> int {
    if shard == 0 {
        1
    } else if shard == 1 {
        103
    } else if shard == 2 {
        204
    } else {
        306
    }
}

/// In a block of 406 ids, one falls in each of 406 equal parts, give or take one part.
proof fn lemma_hit_narrow(lo: int, shard: int, k: int) -> (j: int)
    requires
        usize::BITS != 64,
        0 <= lo,
        lo + 406 <= 0x1_0000_0000,
        0 <= shard < 4,
        first_part(shard) <= k < first_part(shard) + 100,
    ensures
        j == ((k - (406 * lo * 401609) / 0x8_0000) * 47) % 406,
        0 <= j < 406,
        ((406 * lo * 401609) / 0x8_0000 + 311 * j) % 406 == k,
        shard_of((lo + j) as u64, 4) == shard,
{
    let m: int = 0x8_0000;
    let x = 406 * lo * 401609;
    let c = x / m;
    let r = x % m;
    let j = ((k - c) * 47) % 406;
    let u = ((k - c) * 47) / 406;
    let t = (k - c) * 36 - u * 311;
    assert(c + 311 * j == k + 406 * t);
    let i = lo + j;
    let v = i * 401609 - t * m;
    assert(406 * v == k * m + r - 314 * j);
    assert(203 * shard <= 2 * (k - 1) && 2 * (k + 1) <= 203 * (shard + 1));
    assert((k - 1) * m < 406 * v < (k + 1) * m);
    assert(shard * 0x2_0000 <= v < (shard + 1) * 0x2_0000);
    vstd::arithmetic::div_mod::lemma_fundamental_div_mod_converse(i * 401609, m, t, v);
    lemma_shard_narrow(i);
    j
}

proof fn lemma_finite(lo: int, n: int, shard: int)
    requires
        0 <= n,
    ensures
        in_shard(lo, n, shard).finite(),
{
    vstd::set_lib::lemma_int_range(lo, lo + n);
    vstd::set_lib::lemma_set_subset_finite(
        set_int_range(lo, lo + n),
        in_shard(lo, n, shard),
    );
}

proof fn lemma_block(lo: int, shard: int)
    requires
        0 <= lo,
        lo + block() <= id_limit(),
        0 <= shard < 4,
    ensures
        in_shard(lo, block(), shard).len() >= share(),
{
    let first = if usize::BITS == 64 {
        44 * shard + 1
    } else {
        first_part(shard)
    };
    let ks = set_int_range(first, first + share());
    let f = if usize::BITS == 64 {
        |k: int| lo + ((k - (176 * lo * 0xea_2e62_a9c5) / 0x100_0000_0000) * 129) % 176
    } else {
        |k: int| lo + ((k - (406 * lo * 401609) / 0x8_0000) * 47) % 406
    };
    vstd::set_lib::lemma_int_range(first, first + share());
    lemma_finite(lo, block(), shard);
    assert forall|k: int| #[trigger] ks.contains(k) implies in_shard(
        lo,
        block(),
        shard,
    ).contains(f(k)) by {
        if usize::BITS == 64 {
            let _ = lemma_hit_wide(lo, shard, k);
        } else {
            let _ = lemma_hit_narrow(lo, shard, k);
        }
    }
    assert forall|a: int, b: int|
        ks.contains(a) && ks.contains(b) && #[trigger] f(a) == #[trigger] f(b) implies a == b by {
        if usize::BITS == 64 {
            let _ = lemma_hit_wide(lo, shard, a);
            let _ = lemma_hit_wide(lo, shard, b);
        } else {
            let _ = lemma_hit_narrow(lo, shard, a);
            let _ = lemma_hit_narrow(lo, shard, b);
        }
    }
    vstd::set_lib::lemma_map_size(ks, ks.map(f), f);
    assert(ks.map(f).subset_of(in_shard(lo, block(), shard)));
    vstd::set_lib::lemma_len_subset(ks.map(f), in_shard(lo, block(), shard));
}

proof fn lemma_blocks(lo: int, b: int, shard: int)
    requires
        0 <= lo,
        0 <= b,
        lo + b * block() <= id_limit(),
        0 <= shard < 4,
    ensures
        in_shard(lo, b * block(), shard).len() >= b * share(),
    decreases b,
{
    if b > 0 {
        let before = (b - 1) * block();
        assert(b * block() == before + block() && b * share() == (b - 1) * share() + share())
            by (nonlinear_arith)
            requires
                before == (b - 1) * block(),
        ;
        assert(before >= 0) by (nonlinear_arith)
            requires
                before == (b - 1) * block(),
                b > 0,
                block() > 0,
        ;
        lemma_blocks(lo, b - 1, shard);
        lemma_block(lo + before, shard);
        let left = in_shard(lo, before, shard);
        let right = in_shard(lo + before, block(), shard);
        lemma_finite(lo, before, shard);
        lemma_finite(lo + before, block(), shard);
        assert(left.disjoint(right));
        vstd::set_lib::lemma_set_disjoint_lens(left, right);
        assert(in_shard(lo, b * block(), shard) =~= left + right);
    }
}

/// The four shards have all ids between them, each once.
proof fn lemma_partition(lo: int, n: int)
    requires
        0 <= lo,
        0 <= n,
        lo + n <= id_limit(),
    ensures
        in_shard(lo, n, 0).len() + in_shard(lo, n, 1).len() + in_shard(lo, n, 2).len() + in_shard(
            lo,
            n,
            3,
        ).len() == n,
{
    let (a, b, c, d) = (
        in_shard(lo, n, 0),
        in_shard(lo, n, 1),
        in_shard(lo, n, 2),
        in_shard(lo, n, 3),
    );
    lemma_finite(lo, n, 0);
    lemma_finite(lo, n, 1);
    lemma_finite(lo, n, 2);
    lemma_finite(lo, n, 3);
    vstd::set_lib::lemma_int_range(lo, lo + n);
    vstd::set_lib::lemma_set_disjoint_lens(a, b);
    vstd::set_lib::lemma_set_disjoint_lens(a + b, c);
    vstd::set_lib::lemma_set_disjoint_lens(a + b + c, d);
    assert forall|i: int| set_int_range(lo, lo + n).contains(i) implies (a + b + c + d).contains(
        i,
    ) by {
        let s = shard_of(i as u64, 4);
        assert(0 <= s < 4);
    }
    assert(a + b + c + d =~= set_int_range(lo, lo + n));
}

/// Ids spread evenly: of any 25,000 or more consecutive ids, each of four shards has a quarter, to
/// within a tenth of it.
pub proof fn ids_spread_evenly_over_four_shards(lo: int, n: int, shard: int)
    requires
        0 <= lo,
        25_000 <= n,
        lo + n <= id_limit(),
        0 <= shard < 4,
    ensures
        9 * n < 40 * in_shard(lo, n, shard).len() < 11 * n,
{
    let b = n / block();
    assert(b * block() <= n < b * block() + block()) by {
        vstd::arithmetic::div_mod::lemma_fundamental_div_mod(n, block());
        vstd::arithmetic::div_mod::lemma_mod_bound(n, block());
        vstd::arithmetic::mul::lemma_mul_is_commutative(b, block());
    }
    assert forall|s: int| 0 <= s < 4 implies #[trigger] in_shard(lo, n, s).len() >= b * share() by {
        lemma_blocks(lo, b, s);
        lemma_finite(lo, n, s);
        assert(in_shard(lo, b * block(), s).subset_of(in_shard(lo, n, s)));
        vstd::set_lib::lemma_len_subset(in_shard(lo, b * block(), s), in_shard(lo, n, s));
    }
    lemma_partition(lo, n);
    assert(in_shard(lo, n, 0).len() >= b * share());
    assert(in_shard(lo, n, 1).len() >= b * share());
    assert(in_shard(lo, n, 2).len() >= b * share());
    assert(in_shard(lo, n, 3).len() >= b * share());
}

} // verus!
