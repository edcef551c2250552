//! Cosine similarity of embeddings.
//!
//! What is summed, in which order, and when a score is zero by definition is decided here. The
//! floating point operations themselves come from a [`Kernel`].

use vstd::prelude::*;

verus! {

/// The floating point operations of a scan, on binary32 bit patterns.
pub struct Kernel<A, Q> {
    /// `(acc, x, y)` to `acc + x * y`, rounded after the product and after the sum.
    pub mul_acc: A,
    /// `(dot, a, b)` to `dot / (sqrt(a) * sqrt(b))`.
    pub quotient: Q,
}

/// Whether a kernel's operations take every bit pattern.
pub open spec fn total<A: Fn(u32, u32, u32) -> u32, Q: Fn(u32, u32, u32) -> u32>(
    kernel: Kernel<A, Q>,
) -> bool {
    &&& forall|acc: u32, x: u32, y: u32| #[trigger] call_requires(kernel.mul_acc, (acc, x, y))
    &&& forall|dot: u32, a: u32, b: u32| #[trigger] call_requires(kernel.quotient, (dot, a, b))
}

/// Whether a kernel's operations give one result for one input.
pub open spec fn functional<A: Fn(u32, u32, u32) -> u32, Q: Fn(u32, u32, u32) -> u32>(
    kernel: Kernel<A, Q>,
) -> bool {
    &&& forall|acc: u32, x: u32, y: u32, r: u32, s: u32| #[trigger]
        call_ensures(kernel.mul_acc, (acc, x, y), r) && #[trigger] call_ensures(
            kernel.mul_acc,
            (acc, x, y),
            s,
        ) ==> r == s
    &&& forall|dot: u32, a: u32, b: u32, r: u32, s: u32| #[trigger]
        call_ensures(kernel.quotient, (dot, a, b), r) && #[trigger] call_ensures(
            kernel.quotient,
            (dot, a, b),
            s,
        ) ==> r == s
}

/// Whether one running sum can follow another when the product of two elements is added.
pub open spec fn adds<A: Fn(u32, u32, u32) -> u32, Q>(
    kernel: Kernel<A, Q>,
    sums: Seq<u32>,
    a: Seq<u32>,
    b: Seq<u32>,
    i: int,
) -> bool {
    call_ensures(kernel.mul_acc, (sums[i], a[i], b[i]), sums[i + 1])
}

/// Whether `sums` can be the running sums of the products of two vectors' elements, taken in order
/// from positive zero. The longer vector is cut off.
pub open spec fn running_sums<A: Fn(u32, u32, u32) -> u32, Q>(
    kernel: Kernel<A, Q>,
    a: Seq<u32>,
    b: Seq<u32>,
    sums: Seq<u32>,
) -> bool {
    let n = crate::ranking::at_most(a.len(), b.len());
    &&& sums.len() == n + 1
    &&& sums[0] == 0
    &&& forall|i: int| 0 <= i < n ==> #[trigger] adds(kernel, sums, a, b, i)
}

/// Whether `r` can be the dot product of two vectors.
pub open spec fn is_dot<A: Fn(u32, u32, u32) -> u32, Q>(
    kernel: Kernel<A, Q>,
    a: Seq<u32>,
    b: Seq<u32>,
    r: u32,
) -> bool {
    exists|sums: Seq<u32>| #[trigger] running_sums(kernel, a, b, sums) && sums.last() == r
}

/// Whether `r` can be the squared norm of a vector.
pub open spec fn is_norm_sq<A: Fn(u32, u32, u32) -> u32, Q>(
    kernel: Kernel<A, Q>,
    v: Seq<u32>,
    r: u32,
) -> bool {
    is_dot(kernel, v, v, r)
}

/// Whether `r` can be the cosine similarity of two vectors with the given squared norms: positive
/// zero where a norm is zero, else the dot product over the product of the norms.
pub open spec fn is_cosine<A: Fn(u32, u32, u32) -> u32, Q: Fn(u32, u32, u32) -> u32>(
    kernel: Kernel<A, Q>,
    a: Seq<u32>,
    b: Seq<u32>,
    a_norm_sq: u32,
    b_norm_sq: u32,
    r: u32,
) -> bool {
    if crate::record::is_zero(a_norm_sq) || crate::record::is_zero(b_norm_sq) {
        r == 0
    } else {
        exists|dot: u32| #[trigger]
            is_dot(kernel, a, b, dot) && call_ensures(
                kernel.quotient,
                (dot, a_norm_sq, b_norm_sq),
                r,
            )
    }
}

/// Whether `r` can be the cosine similarity of two vectors.
pub open spec fn is_similarity<A: Fn(u32, u32, u32) -> u32, Q: Fn(u32, u32, u32) -> u32>(
    kernel: Kernel<A, Q>,
    a: Seq<u32>,
    b: Seq<u32>,
    r: u32,
) -> bool {
    exists|a_norm_sq: u32, b_norm_sq: u32| #[trigger]
        is_norm_sq(kernel, a, a_norm_sq) && #[trigger] is_norm_sq(kernel, b, b_norm_sq)
            && is_cosine(kernel, a, b, a_norm_sq, b_norm_sq, r)
}

/// The sum of the products of two vectors' elements, in order.
fn dot<A: Fn(u32, u32, u32) -> u32, Q: Fn(u32, u32, u32) -> u32>(
    a: &[u32],
    b: &[u32],
    kernel: &Kernel<A, Q>,
) -> (r: u32)
    requires
        total(*kernel),
    ensures
        is_dot(*kernel, a@, b@, r),
{
    let n: usize = if a.len() < b.len() {
        a.len()
    } else {
        b.len()
    };
    let mut acc: u32 = 0;
    let ghost mut sums = seq![acc];
    for i in 0..n
        invariant
            total(*kernel),
            n <= a.len(),
            n <= b.len(),
            sums.len() == i + 1,
            sums[0] == 0,
            sums[i as int] == acc,
            forall|j: int| 0 <= j < i ==> #[trigger] adds(*kernel, sums, a@, b@, j),
    {
        let ghost before = sums;
        acc = (kernel.mul_acc)(acc, a[i], b[i]);
        proof {
            sums = sums.push(acc);
            assert forall|j: int| 0 <= j < i + 1 implies #[trigger] adds(
                *kernel,
                sums,
                a@,
                b@,
                j,
            ) by {
                if j < i {
                    assert(adds(*kernel, before, a@, b@, j));
                }
            }
        }
    }
    assert(running_sums(*kernel, a@, b@, sums));
    acc
}

/// The squared norm of a vector: the sum of its elements' squares, in order.
pub fn norm_sq<A: Fn(u32, u32, u32) -> u32, Q: Fn(u32, u32, u32) -> u32>(
    v: &[u32],
    kernel: &Kernel<A, Q>,
) -> (r: u32)
    requires
        total(*kernel),
    ensures
        is_norm_sq(*kernel, v@, r),
{
    dot(v, v, kernel)
}

/// Cosine similarity given the squared norms: positive zero where one of them is zero.
pub fn cosine_from_norm_sq<A: Fn(u32, u32, u32) -> u32, Q: Fn(u32, u32, u32) -> u32>(
    a: &[u32],
    b: &[u32],
    a_norm_sq: u32,
    b_norm_sq: u32,
    kernel: &Kernel<A, Q>,
) -> (r: u32)
    requires
        total(*kernel),
    ensures
        is_cosine(*kernel, a@, b@, a_norm_sq, b_norm_sq, r),
{
    if crate::record::zero_bits(a_norm_sq) || crate::record::zero_bits(b_norm_sq) {
        return 0;
    }
    let dot: u32 = dot(a, b, kernel);
    (kernel.quotient)(dot, a_norm_sq, b_norm_sq)
}

/// Cosine similarity of two vectors of one length. A vector of norm zero has similarity zero to
/// every vector.
pub fn cosine_similarity<A: Fn(u32, u32, u32) -> u32, Q: Fn(u32, u32, u32) -> u32>(
    a: &[u32],
    b: &[u32],
    kernel: &Kernel<A, Q>,
) -> (r: u32)
    requires
        total(*kernel),
        a.len() == b.len(),
    ensures
        is_similarity(*kernel, a@, b@, r),
{
    let a_norm_sq: u32 = norm_sq(a, kernel);
    let b_norm_sq: u32 = norm_sq(b, kernel);
    cosine_from_norm_sq(a, b, a_norm_sq, b_norm_sq, kernel)
}

proof fn lemma_sums_unique<A: Fn(u32, u32, u32) -> u32, Q: Fn(u32, u32, u32) -> u32>(
    kernel: Kernel<A, Q>,
    a: Seq<u32>,
    b: Seq<u32>,
    r: Seq<u32>,
    s: Seq<u32>,
    n: int,
)
    requires
        functional(kernel),
        running_sums(kernel, a, b, r),
        running_sums(kernel, a, b, s),
        0 <= n < r.len(),
    ensures
        r[n] == s[n],
    decreases n,
{
    if n > 0 {
        lemma_sums_unique(kernel, a, b, r, s, n - 1);
        assert(adds(kernel, r, a, b, n - 1));
        assert(adds(kernel, s, a, b, n - 1));
    }
}

/// A dot product has one value where the kernel's operations have one.
pub proof fn dot_is_unique<A: Fn(u32, u32, u32) -> u32, Q: Fn(u32, u32, u32) -> u32>(
    kernel: Kernel<A, Q>,
    a: Seq<u32>,
    b: Seq<u32>,
    r: u32,
    s: u32,
)
    requires
        functional(kernel),
        is_dot(kernel, a, b, r),
        is_dot(kernel, a, b, s),
    ensures
        r == s,
{
    let x = choose|sums: Seq<u32>| #[trigger]
        running_sums(kernel, a, b, sums) && sums.last() == r;
    let y = choose|sums: Seq<u32>| #[trigger]
        running_sums(kernel, a, b, sums) && sums.last() == s;
    lemma_sums_unique(kernel, a, b, x, y, x.len() - 1);
}

/// A score has one value where the kernel's operations have one.
pub proof fn cosine_is_unique<A: Fn(u32, u32, u32) -> u32, Q: Fn(u32, u32, u32) -> u32>(
    kernel: Kernel<A, Q>,
    a: Seq<u32>,
    b: Seq<u32>,
    a_norm_sq: u32,
    b_norm_sq: u32,
    r: u32,
    s: u32,
)
    requires
        functional(kernel),
        is_cosine(kernel, a, b, a_norm_sq, b_norm_sq, r),
        is_cosine(kernel, a, b, a_norm_sq, b_norm_sq, s),
    ensures
        r == s,
{
    if !crate::record::is_zero(a_norm_sq) && !crate::record::is_zero(b_norm_sq) {
        let x = choose|dot: u32| #[trigger]
            is_dot(kernel, a, b, dot) && call_ensures(
                kernel.quotient,
                (dot, a_norm_sq, b_norm_sq),
                r,
            );
        let y = choose|dot: u32| #[trigger]
            is_dot(kernel, a, b, dot) && call_ensures(
                kernel.quotient,
                (dot, a_norm_sq, b_norm_sq),
                s,
            );
        dot_is_unique(kernel, a, b, x, y);
    }
}

/// Caching a vector's squared norm changes no score: where the kernel's operations are functions,
/// similarity from cached norms is bit for bit the similarity computed directly.
pub proof fn cached_norms_change_nothing<
    A: Fn(u32, u32, u32) -> u32,
    Q: Fn(u32, u32, u32) -> u32,
>(
    kernel: Kernel<A, Q>,
    a: Seq<u32>,
    b: Seq<u32>,
    a_norm_sq: u32,
    b_norm_sq: u32,
    cached: u32,
    direct: u32,
)
    requires
        functional(kernel),
        is_norm_sq(kernel, a, a_norm_sq),
        is_norm_sq(kernel, b, b_norm_sq),
        is_cosine(kernel, a, b, a_norm_sq, b_norm_sq, cached),
        is_similarity(kernel, a, b, direct),
    ensures
        cached == direct,
{
    let (an, bn) = choose|an: u32, bn: u32| #[trigger]
        is_norm_sq(kernel, a, an) && #[trigger] is_norm_sq(kernel, b, bn) && is_cosine(
            kernel,
            a,
            b,
            an,
            bn,
            direct,
        );
    dot_is_unique(kernel, a, a, an, a_norm_sq);
    dot_is_unique(kernel, b, b, bn, b_norm_sq);
    cosine_is_unique(kernel, a, b, an, bn, cached, direct);
}

/// A similarity has one value where the kernel's operations have one.
pub proof fn similarity_is_unique<A: Fn(u32, u32, u32) -> u32, Q: Fn(u32, u32, u32) -> u32>(
    kernel: Kernel<A, Q>,
    a: Seq<u32>,
    b: Seq<u32>,
    r: u32,
    s: u32,
)
    requires
        functional(kernel),
        is_similarity(kernel, a, b, r),
        is_similarity(kernel, a, b, s),
    ensures
        r == s,
{
    let (an, bn) = choose|an: u32, bn: u32| #[trigger]
        is_norm_sq(kernel, a, an) && #[trigger] is_norm_sq(kernel, b, bn) && is_cosine(
            kernel,
            a,
            b,
            an,
            bn,
            r,
        );
    cached_norms_change_nothing(kernel, a, b, an, bn, r, s);
}

/// A vector of squared norm zero has similarity zero to every vector.
pub proof fn similarity_to_nothing_is_zero<
    A: Fn(u32, u32, u32) -> u32,
    Q: Fn(u32, u32, u32) -> u32,
>(kernel: Kernel<A, Q>, a: Seq<u32>, b: Seq<u32>, a_norm_sq: u32, r: u32)
    requires
        functional(kernel),
        is_norm_sq(kernel, a, a_norm_sq),
        crate::record::is_zero(a_norm_sq),
        is_similarity(kernel, a, b, r) || is_similarity(kernel, b, a, r),
    ensures
        r == 0,
{
    if is_similarity(kernel, a, b, r) {
        let (an, bn) = choose|an: u32, bn: u32| #[trigger]
            is_norm_sq(kernel, a, an) && #[trigger] is_norm_sq(kernel, b, bn) && is_cosine(
                kernel,
                a,
                b,
                an,
                bn,
                r,
            );
        dot_is_unique(kernel, a, a, an, a_norm_sq);
    } else {
        let (bn, an) = choose|bn: u32, an: u32| #[trigger]
            is_norm_sq(kernel, b, bn) && #[trigger] is_norm_sq(kernel, a, an) && is_cosine(
                kernel,
                b,
                a,
                bn,
                an,
                r,
            );
        dot_is_unique(kernel, a, a, an, a_norm_sq);
    }
}

/// Whether a kernel's products do not depend on the order of their factors: that of two elements,
/// and that of two norms.
pub open spec fn commutative<A: Fn(u32, u32, u32) -> u32, Q: Fn(u32, u32, u32) -> u32>(
    kernel: Kernel<A, Q>,
) -> bool {
    &&& forall|acc: u32, x: u32, y: u32, r: u32| #[trigger]
        call_ensures(kernel.mul_acc, (acc, x, y), r) ==> call_ensures(
            kernel.mul_acc,
            (acc, y, x),
            r,
        )
    &&& forall|dot: u32, a: u32, b: u32, r: u32| #[trigger]
        call_ensures(kernel.quotient, (dot, a, b), r) ==> call_ensures(
            kernel.quotient,
            (dot, b, a),
            r,
        )
}

/// Similarity is symmetric where the kernel's products commute: what can be the similarity of two
/// vectors can be that of the two swapped, and where the operations are functions too, the two are
/// equal bit for bit.
pub proof fn similarity_is_symmetric<A: Fn(u32, u32, u32) -> u32, Q: Fn(u32, u32, u32) -> u32>(
    kernel: Kernel<A, Q>,
    a: Seq<u32>,
    b: Seq<u32>,
    r: u32,
    s: u32,
)
    requires
        commutative(kernel),
        is_similarity(kernel, a, b, r),
    ensures
        is_similarity(kernel, b, a, r),
        functional(kernel) && is_similarity(kernel, b, a, s) ==> r == s,
{
    let (an, bn) = choose|an: u32, bn: u32| #[trigger]
        is_norm_sq(kernel, a, an) && #[trigger] is_norm_sq(kernel, b, bn) && is_cosine(
            kernel,
            a,
            b,
            an,
            bn,
            r,
        );
    if !crate::record::is_zero(an) && !crate::record::is_zero(bn) {
        let dot = choose|dot: u32| #[trigger]
            is_dot(kernel, a, b, dot) && call_ensures(kernel.quotient, (dot, an, bn), r);
        let sums = choose|sums: Seq<u32>| #[trigger]
            running_sums(kernel, a, b, sums) && sums.last() == dot;
        assert forall|i: int|
            0 <= i < crate::ranking::at_most(b.len(), a.len()) implies #[trigger] adds(
            kernel,
            sums,
            b,
            a,
            i,
        ) by {
            assert(adds(kernel, sums, a, b, i));
        }
        assert(running_sums(kernel, b, a, sums));
        assert(is_dot(kernel, b, a, dot));
    }
    assert(is_cosine(kernel, b, a, bn, an, r));
    if functional(kernel) && is_similarity(kernel, b, a, s) {
        similarity_is_unique(kernel, b, a, r, s);
    }
}

/// Every element counts: of vectors of one length, the dot product with one more element each can
/// be just what adding the product of the two elements to a dot product without them can be, and
/// the dot product of empty vectors is positive zero alone.
pub proof fn every_element_counts<A: Fn(u32, u32, u32) -> u32, Q: Fn(u32, u32, u32) -> u32>(
    kernel: Kernel<A, Q>,
    a: Seq<u32>,
    b: Seq<u32>,
    x: u32,
    y: u32,
    r: u32,
)
    requires
        a.len() == b.len(),
    ensures
        is_dot(kernel, Seq::empty(), Seq::empty(), r) <==> r == 0,
        is_dot(kernel, a.push(x), b.push(y), r) <==> exists|s: u32| #[trigger]
            is_dot(kernel, a, b, s) && call_ensures(kernel.mul_acc, (s, x, y), r),
        is_norm_sq(kernel, Seq::empty(), r) <==> r == 0,
        is_norm_sq(kernel, a.push(x), r) <==> exists|s: u32| #[trigger]
            is_norm_sq(kernel, a, s) && call_ensures(kernel.mul_acc, (s, x, x), r),
{
    lemma_no_element(kernel, r);
    lemma_one_more_element(kernel, a, b, x, y, r);
    lemma_one_more_element(kernel, a, a, x, x, r);
    if is_norm_sq(kernel, a.push(x), r) {
        let s = choose|s: u32| #[trigger]
            is_dot(kernel, a, a, s) && call_ensures(kernel.mul_acc, (s, x, x), r);
        assert(is_norm_sq(kernel, a, s));
    }
    if exists|s: u32| #[trigger]
        is_norm_sq(kernel, a, s) && call_ensures(kernel.mul_acc, (s, x, x), r) {
        let s = choose|s: u32| #[trigger]
            is_norm_sq(kernel, a, s) && call_ensures(kernel.mul_acc, (s, x, x), r);
        assert(is_dot(kernel, a, a, s));
    }
}

proof fn lemma_no_element<A: Fn(u32, u32, u32) -> u32, Q>(kernel: Kernel<A, Q>, r: u32)
    ensures
        is_dot(kernel, Seq::empty(), Seq::empty(), r) <==> r == 0,
{
    let none = Seq::<u32>::empty();
    if r == 0 {
        assert(running_sums(kernel, none, none, seq![0u32]));
        assert(seq![0u32].last() == r);
    }
}

proof fn lemma_one_more_element<A: Fn(u32, u32, u32) -> u32, Q>(
    kernel: Kernel<A, Q>,
    a: Seq<u32>,
    b: Seq<u32>,
    x: u32,
    y: u32,
    r: u32,
)
    requires
        a.len() == b.len(),
    ensures
        is_dot(kernel, a.push(x), b.push(y), r) <==> exists|s: u32| #[trigger]
            is_dot(kernel, a, b, s) && call_ensures(kernel.mul_acc, (s, x, y), r),
{
    let n = a.len() as int;
    let (p, q) = (a.push(x), b.push(y));
    if is_dot(kernel, p, q, r) {
        let sums = choose|sums: Seq<u32>| #[trigger]
            running_sums(kernel, p, q, sums) && sums.last() == r;
        let before = sums.drop_last();
        assert forall|i: int| 0 <= i < n implies #[trigger] adds(kernel, before, a, b, i) by {
            assert(adds(kernel, sums, p, q, i));
        }
        assert(running_sums(kernel, a, b, before));
        assert(is_dot(kernel, a, b, before.last()));
        assert(adds(kernel, sums, p, q, n));
    }
    if exists|s: u32| #[trigger]
        is_dot(kernel, a, b, s) && call_ensures(kernel.mul_acc, (s, x, y), r) {
        let s = choose|s: u32| #[trigger]
            is_dot(kernel, a, b, s) && call_ensures(kernel.mul_acc, (s, x, y), r);
        let before = choose|sums: Seq<u32>| #[trigger]
            running_sums(kernel, a, b, sums) && sums.last() == s;
        let sums = before.push(r);
        assert forall|i: int| 0 <= i < n + 1 implies #[trigger] adds(kernel, sums, p, q, i) by {
            if i < n {
                assert(adds(kernel, before, a, b, i));
            }
        }
        assert(running_sums(kernel, p, q, sums));
        assert(sums.last() == r);
    }
}

/// What a longer vector has beyond the other's length does not count.
pub proof fn excess_does_not_count<A: Fn(u32, u32, u32) -> u32, Q>(
    kernel: Kernel<A, Q>,
    a: Seq<u32>,
    b: Seq<u32>,
    more: Seq<u32>,
    r: u32,
)
    requires
        a.len() == b.len(),
    ensures
        is_dot(kernel, a + more, b, r) <==> is_dot(kernel, a, b, r),
        is_dot(kernel, a, b + more, r) <==> is_dot(kernel, a, b, r),
{
    lemma_same_sums(kernel, a + more, b, a, b, r);
    lemma_same_sums(kernel, a, b, a + more, b, r);
    lemma_same_sums(kernel, a, b + more, a, b, r);
    lemma_same_sums(kernel, a, b, a, b + more, r);
}

proof fn lemma_same_sums<A: Fn(u32, u32, u32) -> u32, Q>(
    kernel: Kernel<A, Q>,
    a: Seq<u32>,
    b: Seq<u32>,
    c: Seq<u32>,
    d: Seq<u32>,
    r: u32,
)
    requires
        crate::ranking::at_most(a.len(), b.len()) == crate::ranking::at_most(c.len(), d.len()),
        forall|i: int|
            0 <= i < crate::ranking::at_most(a.len(), b.len()) ==> #[trigger] a[i] == c[i] && b[i]
                == d[i],
    ensures
        is_dot(kernel, a, b, r) ==> is_dot(kernel, c, d, r),
{
    if is_dot(kernel, a, b, r) {
        let sums = choose|sums: Seq<u32>| #[trigger]
            running_sums(kernel, a, b, sums) && sums.last() == r;
        assert forall|i: int|
            0 <= i < crate::ranking::at_most(c.len(), d.len()) implies #[trigger] adds(
            kernel,
            sums,
            c,
            d,
            i,
        ) by {
            assert(adds(kernel, sums, a, b, i));
            assert(a[i] == c[i]);
        }
        assert(running_sums(kernel, c, d, sums));
    }
}

/// A score is the dot product over the product of the norms: just that where neither squared norm
/// is a zero, and positive zero alone where one is. A similarity is a score with the vectors' own
/// squared norms.
pub proof fn scores_are_quotients<A: Fn(u32, u32, u32) -> u32, Q: Fn(u32, u32, u32) -> u32>(
    kernel: Kernel<A, Q>,
    a: Seq<u32>,
    b: Seq<u32>,
    a_norm_sq: u32,
    b_norm_sq: u32,
    r: u32,
)
    ensures
        a_norm_sq % 0x8000_0000 == 0 || b_norm_sq % 0x8000_0000 == 0 ==> (is_cosine(
            kernel,
            a,
            b,
            a_norm_sq,
            b_norm_sq,
            r,
        ) <==> r == 0),
        a_norm_sq % 0x8000_0000 != 0 && b_norm_sq % 0x8000_0000 != 0 ==> (is_cosine(
            kernel,
            a,
            b,
            a_norm_sq,
            b_norm_sq,
            r,
        ) <==> exists|dot: u32| #[trigger]
            is_dot(kernel, a, b, dot) && call_ensures(
                kernel.quotient,
                (dot, a_norm_sq, b_norm_sq),
                r,
            )),
        is_similarity(kernel, a, b, r) <==> exists|an: u32, bn: u32| #[trigger]
            is_dot(kernel, a, a, an) && #[trigger] is_dot(kernel, b, b, bn) && is_cosine(
                kernel,
                a,
                b,
                an,
                bn,
                r,
            ),
{
    crate::record::zeros_have_no_magnitude(a_norm_sq);
    crate::record::zeros_have_no_magnitude(b_norm_sq);
    if is_similarity(kernel, a, b, r) {
        let (an, bn) = choose|an: u32, bn: u32| #[trigger]
            is_norm_sq(kernel, a, an) && #[trigger] is_norm_sq(kernel, b, bn) && is_cosine(
                kernel,
                a,
                b,
                an,
                bn,
                r,
            );
        assert(is_dot(kernel, a, a, an) && is_dot(kernel, b, b, bn));
    }
    if exists|an: u32, bn: u32| #[trigger]
        is_dot(kernel, a, a, an) && #[trigger] is_dot(kernel, b, b, bn) && is_cosine(
            kernel,
            a,
            b,
            an,
            bn,
            r,
        ) {
        let (an, bn) = choose|an: u32, bn: u32| #[trigger]
            is_dot(kernel, a, a, an) && #[trigger] is_dot(kernel, b, b, bn) && is_cosine(
                kernel,
                a,
                b,
                an,
                bn,
                r,
            );
        assert(is_norm_sq(kernel, a, an) && is_norm_sq(kernel, b, bn));
    }
}

} // verus!
