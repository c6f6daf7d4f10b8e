//! Batch layout: how many batches a magnitude needs and where each one sits.

use vstd::prelude::*;
use vstd::arithmetic::power2::pow2;
use vstd::arithmetic::power2::lemma2_to64;
use vstd::arithmetic::power2::lemma_pow2_adds;
use vstd::arithmetic::power2::lemma_pow2_pos;
use vstd::arithmetic::power2::lemma_pow2_strictly_increases;
use vstd::arithmetic::power2::lemma_pow2_unfold;
use crate::model::BatchModel;
use crate::model::all_unmarked;
use crate::model::layout_wf;
use crate::model::sum_lens;
use crate::model::total_len;

verus! {

/// Smallest batch size, as a power of two: the first batch covers
/// `[0, 2^MINIMAL_BATCH_SIZE)` and every later batch doubles the length of
/// its predecessor.  Any value of at least 2 keeps the cross-batch sieve
/// sound; very large values only waste contiguous memory.
pub const MINIMAL_BATCH_SIZE: u32 = 8;

/// Number of batches needed to cover `[0, 2^power)` when the first batch has
/// length `2^min_power` and lengths double: `max(power - min_power, 0) + 1`.
pub open spec fn batch_count_spec(min_power: nat, power: nat) -> nat {
    if power >= min_power {
        (power - min_power + 1) as nat
    } else {
        1
    }
}

/// Number of batches used to analyze numbers up to `2^power`, for the
/// default minimal batch size.
pub fn batch_count(power: u32) -> (count: u32)
    ensures
        count == batch_count_spec(MINIMAL_BATCH_SIZE as nat, power as nat),
{
    if power >= MINIMAL_BATCH_SIZE {
        power - MINIMAL_BATCH_SIZE + 1
    } else {
        1
    }
}

/// Number of batches for a chosen minimal batch power.
pub fn batch_count_with(min_power: u32, power: u32) -> (count: u32)
    requires
        min_power >= 2,
    ensures
        count == batch_count_spec(min_power as nat, power as nat),
{
    if power >= min_power {
        power - min_power + 1
    } else {
        1
    }
}

/// `2^e` as a machine integer.
pub fn pow2_exec(e: u32) -> (r: usize)
    requires
        pow2(e as nat) <= usize::MAX,
    ensures
        r == pow2(e as nat),
{
    let mut r: usize = 1;
    let mut j: u32 = 0;
    proof {
        lemma2_to64();
    }
    while j < e
        invariant
            j <= e,
            r == pow2(j as nat),
            pow2(e as nat) <= usize::MAX,
        decreases e - j,
    {
        proof {
            lemma_pow2_unfold((j + 1) as nat);
            if j + 1 < e {
                lemma_pow2_strictly_increases((j + 1) as nat, e as nat);
            }
        }
        r = r * 2;
        j += 1;
    }
    r
}

/// `2^e` when it fits the machine, `None` when it does not.
pub fn checked_pow2(e: u32) -> (r: Option<usize>)
    ensures
        r is Some <==> pow2(e as nat) <= usize::MAX,
        r is Some ==> r.unwrap() == pow2(e as nat),
{
    let mut r: usize = 1;
    let mut j: u32 = 0;
    proof {
        lemma2_to64();
    }
    while j < e
        invariant
            j <= e,
            r == pow2(j as nat),
        decreases e - j,
    {
        proof {
            lemma_pow2_unfold((j + 1) as nat);
            if j + 1 < e {
                lemma_pow2_strictly_increases((j + 1) as nat, e as nat);
            }
        }
        if r > usize::MAX / 2 {
            return None;
        }
        r = r * 2;
        j += 1;
    }
    Some(r)
}

/// Where batch `i` starts: the lengths of all earlier batches add up to
/// `2^min_power * (2^i - 1)`.
pub open spec fn batch_start_spec(m: nat, i: nat) -> nat {
    pow2(m) * ((pow2(i) - 1) as nat)
}

/// The total length of the layout for magnitude `power`: one past the last
/// batch's range.
pub open spec fn space_total_spec(m: nat, p: nat) -> nat {
    batch_start_spec(m, batch_count_spec(m, p))
}

/// The full batch layout, still unsieved: batch `i` starts at
/// `batch_start_spec(m, i)` and covers `2^(m + i)` numbers.
pub open spec fn layout_models(m: nat, count: nat) -> Seq<BatchModel> {
    Seq::new(
        count,
        |i: int|
            BatchModel {
                start: batch_start_spec(m, i as nat),
                marks: Seq::new(pow2((m + i) as nat), |j: int| false),
            },
    )
}

/// One batch further: the next start is the current start plus the current
/// length.
pub proof fn lemma_batch_start_step(m: nat, i: nat)
    ensures
        batch_start_spec(m, i + 1) == batch_start_spec(m, i) + pow2(m + i),
{
    lemma_pow2_unfold(i + 1);
    lemma_pow2_adds(m, i);
    lemma_pow2_pos(i);
    assert(pow2(m) * ((2 * pow2(i) - 1) as nat) == pow2(m) * ((pow2(i) - 1) as nat) + pow2(m)
        * pow2(i)) by (nonlinear_arith)
        requires
            pow2(i) >= 1,
    ;
}

/// Starts only grow along the layout.
pub proof fn lemma_batch_start_mono(m: nat, i1: nat, i2: nat)
    requires
        i1 <= i2,
    ensures
        batch_start_spec(m, i1) <= batch_start_spec(m, i2),
    decreases i2 - i1,
{
    if i1 < i2 {
        lemma_batch_start_mono(m, i1, (i2 - 1) as nat);
        lemma_batch_start_step(m, (i2 - 1) as nat);
        lemma_pow2_pos((m + i2 - 1) as nat);
    }
}

/// The prefix sums of the layout are exactly the batch starts.
pub proof fn lemma_layout_sum(m: nat, count: nat, k: int)
    requires
        0 <= k <= count,
    ensures
        sum_lens(layout_models(m, count), k) == batch_start_spec(m, k as nat),
    decreases k,
{
    let ms = layout_models(m, count);
    if k == 0 {
        lemma2_to64();
        assert((pow2(0) - 1) as nat == 0);
        assert(pow2(m) * ((pow2(0) - 1) as nat) == 0) by (nonlinear_arith)
            requires
                (pow2(0) - 1) as nat == 0,
        ;
    } else {
        lemma_layout_sum(m, count, k - 1);
        assert(ms[k - 1].marks.len() == pow2((m + k - 1) as nat));
        lemma_batch_start_step(m, (k - 1) as nat);
    }
}

/// The layout is well formed: prefix-sum starts, non-empty machine-sized
/// batches, and from the second batch on, a range bounded by the square of
/// its own start, which is what lets it be sieved from earlier primes only.
pub proof fn lemma_layout_models_wf(m: nat, count: nat)
    requires
        2 <= m,
        1 <= count,
        batch_start_spec(m, count) <= usize::MAX,
    ensures
        layout_wf(layout_models(m, count)),
        total_len(layout_models(m, count)) == batch_start_spec(m, count),
        forall|i: int|
            0 <= i < count ==> (#[trigger] layout_models(m, count)[i]).marks.len() == pow2(
                (m + i) as nat,
            ),
        forall|i: int|
            0 <= i < count ==> 1 <= (#[trigger] layout_models(m, count)[i]).marks.len(),
        forall|i: int|
            0 <= i < count ==> (#[trigger] layout_models(m, count)[i]).start + layout_models(
                m,
                count,
            )[i].marks.len() <= usize::MAX,
        forall|i: int| 1 <= i < count ==> 2 <= (#[trigger] layout_models(m, count)[i]).start,
        forall|i: int|
            1 <= i < count ==> (#[trigger] layout_models(m, count)[i]).start + layout_models(
                m,
                count,
            )[i].marks.len() <= layout_models(m, count)[i].start * layout_models(m, count)[i].start,
        forall|i: int| 0 <= i < count ==> all_unmarked(#[trigger] layout_models(m, count)[i]),
{
    let ms = layout_models(m, count);
    assert forall|i: int| 0 <= i < count implies (#[trigger] ms[i]).start == sum_lens(ms, i) by {
        lemma_layout_sum(m, count, i);
    }
    lemma_layout_sum(m, count, count as int);
    assert forall|i: int| 0 <= i < count implies 1 <= (#[trigger] ms[i]).marks.len() by {
        lemma_pow2_pos((m + i) as nat);
    }
    assert forall|i: int| 0 <= i < count implies (#[trigger] ms[i]).start + ms[i].marks.len()
        <= usize::MAX by {
        lemma_batch_start_step(m, i as nat);
        lemma_batch_start_mono(m, (i + 1) as nat, count);
    }
    assert forall|i: int| 1 <= i < count implies 2 <= (#[trigger] ms[i]).start by {
        lemma_small_batch_bounds(m, i as nat);
    }
    assert forall|i: int| 1 <= i < count implies (#[trigger] ms[i]).start + ms[i].marks.len()
        <= ms[i].start * ms[i].start by {
        lemma_small_batch_bounds(m, i as nat);
    }
}

/// For every batch after the first: its start is at least 4 and its whole
/// range ends no later than the square of its start.
proof fn lemma_small_batch_bounds(m: nat, i: nat)
    requires
        2 <= m,
        1 <= i,
    ensures
        4 <= batch_start_spec(m, i),
        batch_start_spec(m, i) + pow2(m + i) <= batch_start_spec(m, i) * batch_start_spec(m, i),
{
    let s = batch_start_spec(m, i);
    lemma2_to64();
    if m > 2 {
        lemma_pow2_strictly_increases(2, m);
    }
    lemma_pow2_pos(i);
    if i > 1 {
        lemma_pow2_strictly_increases(1, i);
    }
    // pow2(i) - 1 >= pow2(i - 1): halves
    lemma_pow2_unfold(i);
    lemma_pow2_pos((i - 1) as nat);
    assert(pow2(i) - 1 >= pow2((i - 1) as nat));
    // s >= pow2(m + i - 1) and s >= 4
    lemma_pow2_adds(m, (i - 1) as nat);
    assert(s >= pow2(m) * pow2((i - 1) as nat)) by (nonlinear_arith)
        requires
            s == pow2(m) * ((pow2(i) - 1) as nat),
            pow2(i) - 1 >= pow2((i - 1) as nat),
            pow2(m) >= 4,
    ;
    assert(s >= 4) by (nonlinear_arith)
        requires
            s >= pow2(m) * pow2((i - 1) as nat),
            pow2(m) >= 4,
            pow2((i - 1) as nat) >= 1,
    ;
    // pow2(m + i) == 2 * pow2(m + i - 1) <= 2 * s
    lemma_pow2_unfold(m + i);
    assert(pow2((m + i - 1) as nat) == pow2(m) * pow2((i - 1) as nat));
    assert(s + pow2(m + i) <= 3 * s) by (nonlinear_arith)
        requires
            pow2(m + i) == 2 * pow2((m + i - 1) as nat),
            pow2((m + i - 1) as nat) <= s,
    ;
    assert(3 * s <= s * s) by (nonlinear_arith)
        requires
            s >= 4,
    ;
}

/// The layout total, computed with overflow checks: `None` exactly when it
/// does not fit the machine.
pub fn checked_space_total(min_power: u32, power: u32) -> (r: Option<usize>)
    requires
        2 <= min_power,
    ensures
        r is Some <==> space_total_spec(min_power as nat, power as nat) <= usize::MAX,
        r is Some ==> r.unwrap() == space_total_spec(min_power as nat, power as nat),
{
    let m: u32 = min_power;
    let count: u32 = batch_count_with(min_power, power);
    let mut starter: usize = 0;
    let mut i: u32 = 0;
    proof {
        lemma2_to64();
        assert((pow2(0) - 1) as nat == 0);
        assert(pow2(m as nat) * ((pow2(0) - 1) as nat) == 0) by (nonlinear_arith)
            requires
                (pow2(0) - 1) as nat == 0,
        ;
    }
    while i < count
        invariant
            2 <= m,
            m == min_power,
            count == batch_count_spec(m as nat, power as nat),
            power >= m ==> count == power - m + 1,
            power < m ==> count == 1,
            i <= count,
            starter == batch_start_spec(m as nat, i as nat),
        decreases count - i,
    {
        let e: u32 = m + i;
        proof {
            lemma_batch_start_step(m as nat, i as nat);
        }
        match checked_pow2(e) {
            None => {
                proof {
                    lemma_batch_start_mono(m as nat, (i + 1) as nat, count as nat);
                }
                return None;
            },
            Some(len) => {
                if starter > usize::MAX - len {
                    proof {
                        lemma_batch_start_mono(m as nat, (i + 1) as nat, count as nat);
                    }
                    return None;
                }
                starter = starter + len;
            },
        }
        i += 1;
    }
    Some(starter)
}

} // verus!
