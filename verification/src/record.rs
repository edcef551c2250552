//! Vector records and scored results.
//!
//! Embedding elements and scores are single precision floating point numbers. The library holds
//! each of them as its IEEE 754 binary32 bit pattern in a `u32`: it moves, compares and ranks
//! them, and leaves the arithmetic to a [`Kernel`](crate::similarity::Kernel).

use std::cmp::Ordering;
use std::collections::HashMap;
use vstd::prelude::*;

verus! {

/// The bit pattern of negative zero: the sign bit alone.
pub const NEGATIVE_ZERO: u32 = 0x8000_0000;

/// The bit pattern of positive infinity. Above it, up to the sign bit, lie the positive NaNs.
pub const INFINITY: u32 = 0x7f80_0000;

/// Whether a bit pattern is one of the two zeros.
pub open spec fn is_zero(bits: u32) -> bool {
    bits == 0 || bits == NEGATIVE_ZERO
}

/// A bit pattern without its sign.
pub open spec fn magnitude(bits: u32) -> int {
    if bits < NEGATIVE_ZERO {
        bits as int
    } else {
        bits - NEGATIVE_ZERO
    }
}

/// Whether a bit pattern is a NaN.
pub open spec fn is_nan(bits: u32) -> bool {
    magnitude(bits) > INFINITY
}

/// Numeric equality of two bit patterns: a NaN equals nothing, and the two zeros are equal.
pub open spec fn numerically_equal(a: u32, b: u32) -> bool {
    &&& !is_nan(a)
    &&& !is_nan(b)
    &&& a == b || (is_zero(a) && is_zero(b))
}

/// The position of a bit pattern in the IEEE 754 total order: negative NaNs, negative infinity,
/// the negative numbers, negative zero, positive zero, the positive numbers, positive infinity,
/// positive NaNs.
pub open spec fn total_order(bits: u32) -> int {
    if bits < NEGATIVE_ZERO {
        bits as int
    } else {
        -1 - magnitude(bits)
    }
}

/// Whether a bit pattern is one of the two zeros.
pub fn zero_bits(bits: u32) -> (r: bool)
    ensures
        r == is_zero(bits),
{
    bits == 0 || bits == NEGATIVE_ZERO
}

fn nan_bits(bits: u32) -> (r: bool)
    ensures
        r == is_nan(bits),
{
    if bits < NEGATIVE_ZERO {
        bits > INFINITY
    } else {
        bits - NEGATIVE_ZERO > INFINITY
    }
}

/// Whether `a` lies strictly above `b` in the total order.
fn total_above(a: u32, b: u32) -> (r: bool)
    ensures
        r == (total_order(a) > total_order(b)),
{
    if a < NEGATIVE_ZERO {
        b >= NEGATIVE_ZERO || a > b
    } else {
        b >= NEGATIVE_ZERO && a < b
    }
}

/// What a vector record holds, as mathematical values.
#[verifier::ext_equal]
pub struct RecordView {
    pub id: u64,
    pub embedding: Seq<u32>,
    pub metadata: Map<String, String>,
}

/// One vector with its id and its unindexed metadata.
#[derive(Debug)]
pub struct VectorRecord {
    pub id: u64,
    /// The embedding's elements, each as its binary32 bit pattern.
    pub embedding: Vec<u32>,
    pub metadata: HashMap<String, String>,
}

impl View for VectorRecord {
    type V = RecordView;

    open spec fn view(&self) -> RecordView {
        RecordView { id: self.id, embedding: self.embedding@, metadata: self.metadata@ }
    }
}

impl VectorRecord {
    pub fn new(id: u64, embedding: Vec<u32>, metadata: HashMap<String, String>) -> (r: Self)
        ensures
            r@ == (RecordView { id, embedding: embedding@, metadata: metadata@ }),
            r.embedding == embedding,
            r.metadata == metadata,
    {
        Self { id, embedding, metadata }
    }
}

impl Clone for VectorRecord {
    fn clone(&self) -> (r: Self)
        ensures
            r@ == self@,
    {
        let embedding = self.embedding.clone();
        assert(embedding@ =~= self.embedding@);
        Self { id: self.id, embedding, metadata: self.metadata.clone() }
    }
}

/// A record's id with its score.
///
/// A higher score ranks above a lower one, and where scores tie the lower id ranks above the
/// higher, so that any two different values are ordered.
#[derive(Debug, Clone, Copy)]
pub struct ScoredId {
    pub id: u64,
    /// The score's binary32 bit pattern.
    pub score: u32,
}

/// Whether `a` ranks strictly above `b`.
pub open spec fn outranks(a: ScoredId, b: ScoredId) -> bool {
    ||| total_order(a.score) > total_order(b.score)
    ||| total_order(a.score) == total_order(b.score) && a.id < b.id
}

/// The order of `a` against `b`: the greater ranks above the other.
pub open spec fn rank_order(a: ScoredId, b: ScoredId) -> Ordering {
    if outranks(a, b) {
        Ordering::Greater
    } else if outranks(b, a) {
        Ordering::Less
    } else {
        Ordering::Equal
    }
}

impl ScoredId {
    /// Orders by score, the total order on floating point numbers, then by id, the lower id
    /// being the greater.
    pub fn cmp(&self, other: &Self) -> (r: Ordering)
        ensures
            r == rank_order(*self, *other),
    {
        if total_above(self.score, other.score) {
            Ordering::Greater
        } else if total_above(other.score, self.score) {
            Ordering::Less
        } else if self.id < other.id {
            Ordering::Greater
        } else if other.id < self.id {
            Ordering::Less
        } else {
            Ordering::Equal
        }
    }

    /// Whether `self` ranks strictly above `other`.
    pub fn ranks_above(&self, other: &Self) -> (r: bool)
        ensures
            r == outranks(*self, *other),
    {
        total_above(self.score, other.score) || (!total_above(other.score, self.score) && self.id
            < other.id)
    }
}

impl PartialEq for ScoredId {
    fn eq(&self, other: &Self) -> (r: bool) {
        self.id == other.id && !nan_bits(self.score) && !nan_bits(other.score) && (self.score
            == other.score || (zero_bits(self.score) && zero_bits(other.score)))
    }
}

impl vstd::std_specs::cmp::PartialEqSpecImpl for ScoredId {
    open spec fn obeys_eq_spec() -> bool {
        true
    }

    open spec fn eq_spec(&self, other: &Self) -> bool {
        self.id == other.id && numerically_equal(self.score, other.score)
    }
}

impl Eq for ScoredId {

}

impl PartialOrd for ScoredId {
    fn partial_cmp(&self, other: &Self) -> (r: Option<Ordering>) {
        Some(self.cmp(other))
    }
}

impl vstd::std_specs::cmp::PartialOrdSpecImpl for ScoredId {
    open spec fn obeys_partial_cmp_spec() -> bool {
        true
    }

    open spec fn partial_cmp_spec(&self, other: &Self) -> Option<Ordering> {
        Some(rank_order(*self, *other))
    }
}

/// Ranking is a strict total order: nothing outranks itself, ranking is transitive, and of two
/// different values one outranks the other.
pub proof fn ranking_is_total(a: ScoredId, b: ScoredId, c: ScoredId)
    ensures
        !outranks(a, a),
        outranks(a, b) ==> !outranks(b, a),
        outranks(a, b) && outranks(b, c) ==> outranks(a, c),
        a != b ==> outranks(a, b) || outranks(b, a),
{
}

/// A bit pattern is a zero exactly where nothing but its sign bit may be set.
pub proof fn zeros_have_no_magnitude(bits: u32)
    ensures
        is_zero(bits) <==> bits % 0x8000_0000 == 0,
{
}

/// Scores rank as the numbers they stand for: among positive ones the greater bit pattern is the
/// higher score, every positive one is above every negative one, and among negative ones the
/// greater bit pattern is the lower score. Equal scores rank by id, the lower one first.
pub proof fn scores_rank_as_numbers(a: ScoredId, b: ScoredId)
    ensures
        a.score == b.score ==> (outranks(a, b) <==> a.id < b.id),
        a.score != b.score && a.score < 0x8000_0000 && b.score < 0x8000_0000 ==> (outranks(a, b)
            <==> b.score < a.score),
        a.score != b.score && a.score >= 0x8000_0000 && b.score >= 0x8000_0000 ==> (outranks(a, b)
            <==> a.score < b.score),
        a.score < 0x8000_0000 <= b.score ==> outranks(a, b) && !outranks(b, a),
{
}

/// The order of two scored ids says which of them ranks above the other, and they are of one order
/// only where they are the same.
pub proof fn order_is_rank(a: ScoredId, b: ScoredId)
    ensures
        rank_order(a, b) == Ordering::Greater <==> outranks(a, b),
        rank_order(a, b) == Ordering::Less <==> outranks(b, a),
        rank_order(a, b) == Ordering::Equal <==> a == b,
{
}

/// Equality is that of numbers: a pattern above infinity, the sign aside, equals nothing, the two
/// zeros are equal, and any other pattern equals itself alone.
pub proof fn equality_is_numeric(a: u32, b: u32)
    ensures
        a % 0x8000_0000 > 0x7f80_0000 || b % 0x8000_0000 > 0x7f80_0000 ==> !numerically_equal(a, b),
        a % 0x8000_0000 <= 0x7f80_0000 && b % 0x8000_0000 <= 0x7f80_0000 ==> (numerically_equal(
            a,
            b,
        ) <==> a == b || (a % 0x8000_0000 == 0 && b % 0x8000_0000 == 0)),
{
}

/// Nothing of a record is left out of what it is taken to hold.
pub proof fn records_show_everything(record: VectorRecord)
    ensures
        record@.id == record.id,
        record@.embedding == record.embedding@,
        record@.metadata == record.metadata@,
{
}

} // verus!
