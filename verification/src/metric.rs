use std::collections::hash_map::DefaultHasher;
use std::hash::{Hash, Hasher};
use vstd::prelude::*;
use vstd::std_specs::hash::DefaultHasherAdditionalSpecFns;
use vstd::relations::{sorted_by, total_ordering};
use vstd::seq_lib::lemma_sorted_unique;
use crate::pag::PagEdge;

verus! {

broadcast use vstd::seq_lib::group_to_multiset_ensures;

/// Feeds `value` into `hasher` through its `Hash` implementation.
///
/// Trusted: calls `<T as Hash>::hash`. What it writes depends on `T`'s
/// implementation, which the library cannot see, so nothing is stated.
#[verifier::external_body]
fn hash_into<T: Hash>(value: &T, hasher: &mut DefaultHasher) {
    value.hash(hasher);
}

/// Hashes an arbitrary value with a freshly created `DefaultHasher`: the
/// result is the digest that `DefaultHasher::finish` gives for the writes
/// that the value's `Hash` implementation made. Which writes those are
/// depends on that implementation, so they are not named.
pub fn hash_code<T: Hash>(value: &T) -> (r: u64)
    ensures
        exists|writes: Seq<Seq<u8>>| r == DefaultHasher::spec_finish(writes),
{
    let mut hasher = DefaultHasher::new();
    hash_into(value, &mut hasher);
    let r = hasher.finish();
    assert(r == DefaultHasher::spec_finish(hasher@));
    r
}

/// The operation `self * other * multiplicand`.
pub trait ScaleReduce: Sized {
    /// Whether the operation is defined (no intermediate result overflows).
    spec fn scale_reduce_fits(self, other: Self, multiplicand: usize) -> bool;

    /// The result of the operation.
    spec fn scaled_reduced(self, other: Self, multiplicand: usize) -> Self;

    /// Reduces the value of `self` with `other` and scales it with `multiplicand`.
    fn scale_reduce(self, other: Self, multiplicand: usize) -> (r: Self)
        requires
            self.scale_reduce_fits(other, multiplicand),
        ensures
            r == self.scaled_reduced(other, multiplicand),
    ;
}

impl ScaleReduce for u64 {
    open spec fn scale_reduce_fits(self, other: u64, multiplicand: usize) -> bool {
        &&& self * other <= u64::MAX
        &&& self * other * multiplicand <= u64::MAX
    }

    open spec fn scaled_reduced(self, other: u64, multiplicand: usize) -> u64 {
        (self * other * multiplicand) as u64
    }

    fn scale_reduce(self, other: u64, mult: usize) -> (r: u64) {
        self * other * mult as u64
    }
}

/// Whether a critical-participation count is reported: only edges that
/// more than one path goes through are.
pub fn is_reported(count: u64) -> (r: bool)
    ensures
        r == (count > 1),
{
    count > 1
}

/// Which of the two counts comes first does not change the product: the
/// operation is defined for both orders alike, with the same result.
pub proof fn lemma_scale_reduce_symmetric(a: u64, b: u64, m: usize)
    ensures
        a.scale_reduce_fits(b, m) == b.scale_reduce_fits(a, m),
        a.scale_reduce_fits(b, m) ==> a.scaled_reduced(b, m) == b.scaled_reduced(a, m),
{
    assert(a * b == b * a) by (nonlinear_arith);
}

/// The order in which counts are sorted.
pub open spec fn count_le() -> spec_fn(u64, u64) -> bool {
    |a: u64, b: u64| a <= b
}

/// The counts of `agg` in ascending order.
pub open spec fn sorted_counts(agg: Seq<u64>) -> Seq<u64> {
    agg.sort_by(count_le())
}

/// Whether combining the counts `agg` is defined: there is at least one,
/// and where there are several, the product does not overflow.
pub open spec fn combine_fits(agg: Seq<u64>) -> bool {
    let s = sorted_counts(agg);
    let n = agg.len();
    &&& n >= 1
    &&& n >= 2 ==> s[0].scale_reduce_fits(s[(n / 2) as int], (n / 2) as usize)
}

/// The critical participation of an edge from its counts `agg`: a single
/// count stands for itself; otherwise, with the counts in ascending order,
/// the smallest times the one at position `n / 2`, times `n / 2`.
pub open spec fn combined_count(agg: Seq<u64>) -> u64 {
    let s = sorted_counts(agg);
    let n = agg.len();
    if n == 1 {
        s[0]
    } else {
        s[0].scaled_reduced(s[(n / 2) as int], (n / 2) as usize)
    }
}

proof fn lemma_count_le_total()
    ensures
        total_ordering(count_le()),
{
}

/// Sorting keeps the counts and orders them.
pub proof fn lemma_sorted_counts(agg: Seq<u64>)
    ensures
        sorted_counts(agg).to_multiset() == agg.to_multiset(),
        sorted_counts(agg).len() == agg.len(),
        sorted_by(sorted_counts(agg), count_le()),
{
    lemma_count_le_total();
    agg.lemma_sort_by_ensures(count_le());
    assert(sorted_counts(agg).to_multiset().len() == agg.to_multiset().len());
}

proof fn lemma_insert_multiset(s: Seq<u64>, k: int, x: u64)
    requires
        0 <= k <= s.len(),
    ensures
        s.insert(k, x).to_multiset() == s.to_multiset().insert(x),
{
    let t = s.insert(k, x);
    assert(t.remove(k) =~= s);
    assert(t[k] == x);
    assert(t.remove(k).to_multiset() == t.to_multiset().remove(x));
    assert(t.contains(x));
    assert(t.to_multiset().count(x) > 0);
    assert(t.to_multiset() =~= t.to_multiset().remove(x).insert(x));
}

/// Sorts the counts in ascending order.
fn sort_counts(agg: &Vec<u64>) -> (r: Vec<u64>)
    ensures
        r@ == sorted_counts(agg@),
{
    let mut r: Vec<u64> = Vec::new();
    let mut i: usize = 0;
    while i < agg.len()
        invariant
            i <= agg@.len(),
            sorted_by(r@, count_le()),
            r@.to_multiset() == agg@.take(i as int).to_multiset(),
        decreases agg@.len() - i,
    {
        let x = agg[i];
        let mut k: usize = 0;
        while k < r.len() && r[k] <= x
            invariant
                k <= r@.len(),
                forall|j: int| 0 <= j < k ==> r@[j] <= x,
            decreases r@.len() - k,
        {
            k = k + 1;
        }
        let ghost before = r@;
        r.insert(k, x);
        proof {
            lemma_insert_multiset(before, k as int, x);
            assert(agg@.take(i + 1) =~= agg@.take(i as int).push(x));
            assert forall|a: int, b: int| 0 <= a < b < r@.len() implies #[trigger] count_le()(
                r@[a],
                r@[b],
            ) by {
                if b < k {
                    assert(r@[a] == before[a] && r@[b] == before[b]);
                    assert(count_le()(before[a], before[b]));
                } else if b == k {
                    assert(r@[a] == before[a]);
                } else if a == k {
                    assert(r@[b] == before[b - 1]);
                    if k < before.len() {
                        assert(x < before[k as int]);
                        if b - 1 > k {
                            assert(count_le()(before[k as int], before[b - 1]));
                        }
                    }
                } else if a < k {
                    assert(r@[a] == before[a] && r@[b] == before[b - 1]);
                    assert(count_le()(before[a], before[b - 1]));
                } else {
                    assert(r@[a] == before[a - 1] && r@[b] == before[b - 1]);
                    assert(count_le()(before[a - 1], before[b - 1]));
                }
            }
        }
        i = i + 1;
    }
    proof {
        assert(agg@.take(agg@.len() as int) =~= agg@);
        lemma_sorted_counts(agg@);
        lemma_count_le_total();
        lemma_sorted_unique(r@, sorted_counts(agg@), count_le());
    }
    r
}

/// Tests whether the counts `agg` can be combined (see `combine_fits`).
pub fn counts_combinable(agg: &Vec<u64>) -> (r: bool)
    ensures
        r == combine_fits(agg@),
{
    let sorted = sort_counts(agg);
    proof {
        lemma_sorted_counts(agg@);
    }
    let n = sorted.len();
    if n == 0 {
        return false;
    }
    if n == 1 {
        return true;
    }
    let a = sorted[0];
    let b = sorted[n / 2];
    let m = (n / 2) as u64;
    match a.checked_mul(b) {
        None => false,
        Some(ab) => match ab.checked_mul(m) {
            None => false,
            Some(_) => true,
        },
    }
}

/// Combines the counts that the forward and backward explorations found for
/// an edge into the edge's critical participation.
pub fn critical_participation(key: PagEdge, agg: Vec<u64>) -> (r: (PagEdge, u64))
    requires
        combine_fits(agg@),
    ensures
        r.0 == key,
        r.1 == combined_count(agg@),
{
    let sorted = sort_counts(&agg);
    proof {
        lemma_sorted_counts(agg@);
    }
    let n = sorted.len();
    if n == 1 {
        (key, sorted[0])
    } else {
        (key, sorted[0].scale_reduce(sorted[n / 2], n / 2))
    }
}

/// The combined count does not depend on the order in which the counts
/// arrived: any two arrangements of the same counts combine alike.
pub proof fn lemma_combined_count_ignores_order(a: Seq<u64>, b: Seq<u64>)
    requires
        a.to_multiset() == b.to_multiset(),
    ensures
        sorted_counts(a) == sorted_counts(b),
        combine_fits(a) == combine_fits(b),
        combined_count(a) == combined_count(b),
{
    lemma_sorted_counts(a);
    lemma_sorted_counts(b);
    lemma_count_le_total();
    lemma_sorted_unique(sorted_counts(a), sorted_counts(b), count_le());
    assert(a.len() == a.to_multiset().len());
    assert(b.len() == b.to_multiset().len());
}

/// A single count combines to itself.
pub proof fn lemma_combined_count_single(x: u64)
    ensures
        combine_fits(seq![x]),
        combined_count(seq![x]) == x,
{
    lemma_sorted_counts(seq![x]);
    lemma_count_le_total();
    lemma_sorted_unique(seq![x], sorted_counts(seq![x]), count_le());
}

/// An edge reached once forward and once backward gets the product of the
/// two counts: the number of paths through it.
pub proof fn lemma_combined_count_pair(x: u64, y: u64)
    ensures
        combine_fits(seq![x, y]) == (x * y <= u64::MAX),
        combine_fits(seq![x, y]) ==> combined_count(seq![x, y]) == x * y,
{
    let a = seq![x, y];
    let c = if x <= y {
        seq![x, y]
    } else {
        seq![y, x]
    };
    lemma_sorted_counts(a);
    lemma_count_le_total();
    assert(c.to_multiset() =~= a.to_multiset()) by {
        assert(a =~= seq![x].push(y));
        assert(seq![y] =~= Seq::<u64>::empty().push(y));
        assert(seq![x] =~= Seq::<u64>::empty().push(x));
        assert(seq![y, x] =~= seq![y].push(x));
    }
    assert(sorted_by(c, count_le()));
    lemma_sorted_unique(c, sorted_counts(a), count_le());
    let s = sorted_counts(a);
    assert(s[0] * s[1] == x * y) by (nonlinear_arith)
        requires
            (s[0] == x && s[1] == y) || (s[0] == y && s[1] == x),
    ;
}

} // verus!
