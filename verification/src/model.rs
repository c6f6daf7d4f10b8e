//! Mathematical model of batches and of the prefix-sum layout they form.

use vstd::prelude::*;
use crate::primes::is_prime;
use crate::primes::strikes;

verus! {

/// Model of a batch: the absolute offset of the first number it represents
/// and its marking buffer.  `marks[i]` speaks about the integer `start + i`;
/// `true` means known composite, `false` means prime or not yet disproven.
#[verifier::ext_equal]
pub ghost struct BatchModel {
    pub start: nat,
    pub marks: Seq<bool>,
}

impl BatchModel {
    /// One past the last integer the batch covers.
    pub open spec fn end(self) -> int {
        self.start + self.marks.len() as int
    }
}

/// The batch has not been sieved yet: no flag is set.
pub open spec fn all_unmarked(b: BatchModel) -> bool {
    forall|j: int| 0 <= j < b.marks.len() ==> !b.marks[j]
}

/// The batch has completed its sieve pass: a flag is set exactly on the
/// composite numbers (0 and 1 count as composite by convention, since
/// `is_prime` rejects them).
pub open spec fn sieved(b: BatchModel) -> bool {
    forall|j: int| 0 <= j < b.marks.len() ==> b.marks[j] == !is_prime(b.start + j)
}

/// The buffer after marking every proper multiple of `p` that falls inside
/// `[start, start + marks.len())`.
pub open spec fn sieve_marks(m: Seq<bool>, start: int, p: int) -> Seq<bool> {
    Seq::new(m.len(), |j: int| m[j] || strikes(p, start + j))
}

/// The batch with the same place in the layout and a fully sieved buffer.
pub open spec fn sieved_version(b: BatchModel) -> BatchModel {
    BatchModel { start: b.start, marks: Seq::new(b.marks.len(), |j: int| !is_prime(b.start + j)) }
}

/// Every batch replaced by its fully sieved version.
pub open spec fn sieved_versions(ms: Seq<BatchModel>) -> Seq<BatchModel> {
    Seq::new(ms.len(), |i: int| sieved_version(ms[i]))
}

/// Marking is idempotent: striking the multiples of a prime that were
/// already struck leaves the buffer unchanged.
pub proof fn lemma_sieve_marks_idempotent(m: Seq<bool>, start: int, p: int)
    ensures
        sieve_marks(sieve_marks(m, start, p), start, p) == sieve_marks(m, start, p),
{
    assert(sieve_marks(sieve_marks(m, start, p), start, p) =~= sieve_marks(m, start, p));
}

/// Sum of the lengths of the first `k` batches.
pub open spec fn sum_lens(ms: Seq<BatchModel>, k: int) -> nat
    decreases k,
{
    if k <= 0 {
        0
    } else {
        sum_lens(ms, k - 1) + ms[k - 1].marks.len()
    }
}

/// Sum of the lengths of all the batches.
pub open spec fn total_len(ms: Seq<BatchModel>) -> nat {
    sum_lens(ms, ms.len() as int)
}

/// The prefix-sum layout: every batch starts exactly where the lengths of
/// all earlier batches end, so the ranges tile `[0, total_len)` with no gap
/// and no overlap.
pub open spec fn layout_wf(ms: Seq<BatchModel>) -> bool {
    forall|i: int| 0 <= i < ms.len() ==> ms[i].start == sum_lens(ms, i)
}

/// Prefix sums only grow.
pub proof fn lemma_sum_lens_monotone(ms: Seq<BatchModel>, k1: int, k2: int)
    requires
        0 <= k1 <= k2,
    ensures
        sum_lens(ms, k1) <= sum_lens(ms, k2),
    decreases k2 - k1,
{
    if k1 < k2 {
        lemma_sum_lens_monotone(ms, k1, k2 - 1);
    }
}

/// Prefix sums depend only on the lengths of the batches.
pub proof fn lemma_sum_lens_same_lens(ms1: Seq<BatchModel>, ms2: Seq<BatchModel>, k: int)
    requires
        ms1.len() == ms2.len(),
        forall|i: int| 0 <= i < ms1.len() ==> ms1[i].marks.len() == ms2[i].marks.len(),
        k <= ms1.len(),
    ensures
        sum_lens(ms1, k) == sum_lens(ms2, k),
    decreases k,
{
    if k > 0 {
        lemma_sum_lens_same_lens(ms1, ms2, k - 1);
    }
}

/// A prefix of a layout keeps its prefix sums.
pub proof fn lemma_sum_lens_prefix(ms: Seq<BatchModel>, pre: Seq<BatchModel>, k: int)
    requires
        pre.len() <= ms.len(),
        forall|i: int| 0 <= i < pre.len() ==> pre[i] == ms[i],
        0 <= k <= pre.len(),
    ensures
        sum_lens(pre, k) == sum_lens(ms, k),
    decreases k,
{
    if k > 0 {
        lemma_sum_lens_prefix(ms, pre, k - 1);
    }
}

/// Some batch's range holds the number `v`.
pub open spec fn covered(ms: Seq<BatchModel>, v: int) -> bool {
    exists|i: int| 0 <= i < ms.len() && #[trigger] ms[i].start <= v < ms[i].end()
}

/// Coverage: in a prefix-sum layout the batch ranges are ordered and
/// disjoint, stay inside `[0, total_len)`, and every number below
/// `total_len` falls into some batch's range.
pub proof fn lemma_layout_coverage(ms: Seq<BatchModel>)
    requires
        layout_wf(ms),
    ensures
        forall|i: int| 0 <= i < ms.len() ==> 0 <= ms[i].start && #[trigger] ms[i].end() <= total_len(ms),
        forall|i1: int, i2: int|
            0 <= i1 < i2 < ms.len() ==> #[trigger] ms[i1].end() <= #[trigger] ms[i2].start,
        forall|v: int| 0 <= v < total_len(ms) ==> #[trigger] covered(ms, v),
{
    assert forall|i: int| 0 <= i < ms.len() implies 0 <= ms[i].start && #[trigger] ms[i].end()
        <= total_len(ms) by {
        assert(ms[i].start == sum_lens(ms, i));
        assert(sum_lens(ms, i + 1) == sum_lens(ms, i) + ms[i].marks.len());
        lemma_sum_lens_monotone(ms, i + 1, ms.len() as int);
    }
    assert forall|i1: int, i2: int| 0 <= i1 < i2 < ms.len() implies #[trigger] ms[i1].end()
        <= #[trigger] ms[i2].start by {
        assert(ms[i1].start == sum_lens(ms, i1));
        assert(ms[i2].start == sum_lens(ms, i2));
        assert(sum_lens(ms, i1 + 1) == sum_lens(ms, i1) + ms[i1].marks.len());
        lemma_sum_lens_monotone(ms, i1 + 1, i2);
    }
    assert forall|v: int| 0 <= v < total_len(ms) implies #[trigger] covered(ms, v) by {
        lemma_layout_find(ms, v, 0);
    }
}

/// Walking the layout from batch `k` finds the batch holding `v`.
proof fn lemma_layout_find(ms: Seq<BatchModel>, v: int, k: int)
    requires
        layout_wf(ms),
        0 <= k <= ms.len(),
        sum_lens(ms, k) <= v < total_len(ms),
    ensures
        covered(ms, v),
    decreases ms.len() - k,
{
    assert(k < ms.len()) by {
        if k == ms.len() {
            assert(sum_lens(ms, k) == total_len(ms));
        }
    }
    if v < sum_lens(ms, k + 1) {
        assert(ms[k].start <= v < ms[k].end());
    } else {
        lemma_layout_find(ms, v, k + 1);
    }
}

/// A layout reports `v` as prime when the batch holding `v` left its flag
/// clear.
pub open spec fn prime_reported(ms: Seq<BatchModel>, v: int) -> bool {
    exists|i: int|
        0 <= i < ms.len() && (#[trigger] ms[i]).start <= v < ms[i].end()
            && !ms[i].marks[v - ms[i].start]
}

/// In a fully sieved prefix-sum layout, the reported numbers are exactly
/// the primes below the total.
pub proof fn lemma_reported_iff_prime(ms: Seq<BatchModel>, v: int)
    requires
        layout_wf(ms),
        forall|i: int| 0 <= i < ms.len() ==> sieved(#[trigger] ms[i]),
        0 <= v < total_len(ms),
    ensures
        prime_reported(ms, v) == is_prime(v),
{
    lemma_layout_coverage(ms);
    if prime_reported(ms, v) {
        let i = choose|i: int|
            0 <= i < ms.len() && (#[trigger] ms[i]).start <= v < ms[i].end() && !ms[i].marks[v
                - ms[i].start];
        assert(ms[i].marks[v - ms[i].start] == !is_prime(v));
    }
    if is_prime(v) {
        assert(covered(ms, v));
        let i = choose|i: int| 0 <= i < ms.len() && #[trigger] ms[i].start <= v < ms[i].end();
        assert(ms[i].marks[v - ms[i].start] == !is_prime(v));
        assert(0 <= i < ms.len() && ms[i].start <= v < ms[i].end()
            && !ms[i].marks[v - ms[i].start]);
        assert(prime_reported(ms, v));
    }
}

/// Partition independence: what a fully sieved space reports of a number
/// depends only on the number, never on how the range was cut into
/// batches.  Two sieved layouts whose totals both exceed `v` agree on it.
pub proof fn lemma_partition_independent(ms1: Seq<BatchModel>, ms2: Seq<BatchModel>, v: int)
    requires
        layout_wf(ms1),
        layout_wf(ms2),
        forall|i: int| 0 <= i < ms1.len() ==> sieved(#[trigger] ms1[i]),
        forall|i: int| 0 <= i < ms2.len() ==> sieved(#[trigger] ms2[i]),
        0 <= v < total_len(ms1),
        v < total_len(ms2),
    ensures
        prime_reported(ms1, v) == prime_reported(ms2, v),
{
    lemma_reported_iff_prime(ms1, v);
    lemma_reported_iff_prime(ms2, v);
}

} // verus!
