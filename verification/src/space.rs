//! The space: a pending queue of unsieved batches and the ordered list of
//! completed ones, drained strictly in order so that every batch can lean on
//! the full history of earlier primes.

use vstd::prelude::*;
use std::collections::VecDeque;
use crate::batch::Batch;
use crate::batch::collect_sieve_primes;
use crate::batch::completed_ok;
use crate::batch::in_list;
use crate::batch::lemma_in_list_cat_l;
use crate::batch::lemma_in_list_cat_r;
use crate::batch::lemma_views_at;
use crate::batch::lemma_views_len;
use crate::batch::views;
use crate::layout::MINIMAL_BATCH_SIZE;
use crate::layout::batch_count_spec;
use crate::layout::batch_count_with;
use crate::layout::batch_start_spec;
use crate::layout::checked_space_total;
use crate::layout::layout_models;
use crate::layout::lemma_batch_start_mono;
use crate::layout::lemma_batch_start_step;
use crate::layout::lemma_layout_models_wf;
use crate::layout::pow2_exec;
use crate::layout::space_total_spec;
use crate::model::BatchModel;
use crate::model::covered;
use crate::model::lemma_layout_coverage;
use crate::model::all_unmarked;
use crate::model::layout_wf;
use crate::model::lemma_sum_lens_prefix;
use crate::model::lemma_sum_lens_same_lens;
use crate::model::sieved;
use crate::model::sieved_version;
use crate::model::sieved_versions;
use crate::model::sum_lens;
use crate::model::total_len;
use crate::primes::is_prime;
use vstd::arithmetic::power2::pow2;

verus! {

/// Model of a space: the batches still pending, in the order they will be
/// sieved, and the batches already completed, in ascending start order.
#[verifier::ext_equal]
pub ghost struct SpaceModel {
    pub pending: Seq<BatchModel>,
    pub completed: Seq<BatchModel>,
}

/// Drives the segmented sieve: batches are created unsieved, drained from
/// the front of the pending queue, and appended to the completed list.
pub struct Space {
    batches: VecDeque<Batch>,
    computed: Vec<Batch>,
}

impl View for Space {
    type V = SpaceModel;

    closed spec fn view(&self) -> SpaceModel {
        SpaceModel { pending: views(self.batches@), completed: views(self.computed@) }
    }
}

impl Space {
    /// Completed batches followed by pending ones: the whole layout.
    pub open spec fn all_batches(self) -> Seq<BatchModel> {
        self@.completed + self@.pending
    }

    /// The space's invariant: the batches tile the number line by prefix
    /// sums, every batch fits the machine, every batch after the first ends
    /// no later than the square of its own start, completed batches are
    /// sieved, and pending ones are untouched.
    pub open spec fn wf(self) -> bool {
        let all = self.all_batches();
        &&& layout_wf(all)
        &&& forall|i: int| 0 <= i < all.len() ==> (#[trigger] all[i]).marks.len() >= 1
        &&& forall|i: int|
            0 <= i < all.len() ==> (#[trigger] all[i]).start + all[i].marks.len() <= usize::MAX
        &&& forall|i: int| 1 <= i < all.len() ==> 2 <= (#[trigger] all[i]).start
        &&& forall|i: int|
            1 <= i < all.len() ==> (#[trigger] all[i]).start + all[i].marks.len() <= all[i].start
                * all[i].start
        &&& forall|i: int| 0 <= i < self@.completed.len() ==> sieved(#[trigger] self@.completed[i])
        &&& forall|i: int|
            0 <= i < self@.pending.len() ==> all_unmarked(#[trigger] self@.pending[i])
    }

    /// Coverage law: the batch ranges of a well-formed space are ordered
    /// and disjoint, and their union is exactly `[0, total_len)`: every
    /// number below the total falls into one batch's range, and none
    /// reaches beyond the total.
    pub proof fn lemma_space_coverage(self)
        requires
            self.wf(),
        ensures
            forall|i: int|
                0 <= i < self.all_batches().len() ==> 0 <= (#[trigger] self.all_batches()[i]).start
                    && self.all_batches()[i].end() <= total_len(self.all_batches()),
            forall|i1: int, i2: int|
                0 <= i1 < i2 < self.all_batches().len() ==> #[trigger] self.all_batches()[i1].end()
                    <= #[trigger] self.all_batches()[i2].start,
            forall|v: int|
                0 <= v < total_len(self.all_batches()) ==> #[trigger] covered(
                    self.all_batches(),
                    v,
                ),
    {
        lemma_layout_coverage(self.all_batches());
    }

    /// The completed list on its own is a well-formed sieved prefix.
    proof fn lemma_completed_ok(self)
        requires
            self.wf(),
        ensures
            completed_ok(self@.completed),
            total_len(self@.completed) == if self@.pending.len() > 0 {
                self@.pending[0].start
            } else {
                total_len(self.all_batches())
            },
    {
        let all = self.all_batches();
        let comp = self@.completed;
        let clen = comp.len() as int;
        assert(forall|i: int| 0 <= i < clen ==> comp[i] == all[i]);
        assert forall|i: int| 0 <= i < clen implies (#[trigger] comp[i]).start == sum_lens(
            comp,
            i,
        ) by {
            lemma_sum_lens_prefix(all, comp, i);
        }
        lemma_sum_lens_prefix(all, comp, clen);
        if self@.pending.len() > 0 {
            assert(all[clen] == self@.pending[0]);
            assert(all[clen].start == sum_lens(all, clen));
        }
    }

    /// Lay out all batches for magnitude `power` with a chosen minimal
    /// batch power, pre-allocated, unsieved and enqueued: batch `i` covers
    /// `2^(min_power + i)` numbers starting at `2^min_power * (2^i - 1)`.
    pub fn new_with_min_power(min_power: u32, power: u32) -> (s: Space)
        requires
            2 <= min_power,
            space_total_spec(min_power as nat, power as nat) <= usize::MAX,
        ensures
            s.wf(),
            s@.completed.len() == 0,
            s@.pending == layout_models(
                min_power as nat,
                batch_count_spec(min_power as nat, power as nat),
            ),
    {
        let count: u32 = batch_count_with(min_power, power);
        let ghost m = min_power as nat;
        let ghost target = layout_models(m, count as nat);
        proof {
            lemma_layout_models_wf(m, count as nat);
        }
        let mut batches: VecDeque<Batch> = VecDeque::new();
        let mut starter: usize = 0;
        let mut i: u32 = 0;
        proof {
            assert(views(batches@) =~= target.take(0));
            lemma_batch_start_mono(m, 0, count as nat);
            assert(batch_start_spec(m, 0) == sum_lens(target, 0));
        }
        while i < count
            invariant
                2 <= min_power,
                m == min_power as nat,
                count == batch_count_spec(m, power as nat),
                power >= min_power ==> count == power - min_power + 1,
                power < min_power ==> count == 1,
                target == layout_models(m, count as nat),
                batch_start_spec(m, count as nat) <= usize::MAX,
                layout_wf(target),
                total_len(target) == batch_start_spec(m, count as nat),
                forall|t: int|
                    0 <= t < count ==> (#[trigger] target[t]).marks.len() == pow2((m + t) as nat),
                i <= count,
                starter == batch_start_spec(m, i as nat),
                views(batches@) == target.take(i as int),
            decreases count - i,
        {
            proof {
                lemma_batch_start_step(m, i as nat);
                lemma_batch_start_mono(m, (i + 1) as nat, count as nat);
                assert(pow2((m + i) as nat) <= usize::MAX);
            }
            let len: usize = pow2_exec(min_power + i);
            let b = Batch::new(min_power + i, starter);
            let ghost bv = b@;
            let ghost old_batches = batches@;
            batches.push_back(b);
            starter = starter + len;
            proof {
                assert(target[i as int].start == batch_start_spec(m, i as nat));
                assert(bv.marks =~= target[i as int].marks);
                assert(bv =~= target[i as int]);
                assert(batches@ == old_batches.push(b));
                lemma_views_len(old_batches);
                lemma_views_len(batches@);
                assert(old_batches.len() == i);
                assert forall|t: int|
                    0 <= t < i + 1 implies #[trigger] views(batches@)[t] == target.take(i + 1)[t] by {
                    lemma_views_at(batches@, t);
                    assert(batches@[t] == old_batches.push(b)[t]);
                    if t < i {
                        assert(old_batches.push(b)[t] == old_batches[t]);
                        lemma_views_at(old_batches, t);
                        assert(views(old_batches)[t] == target.take(i as int)[t]);
                        assert(target.take(i as int)[t] == target[t]);
                        assert(target.take(i + 1)[t] == target[t]);
                    } else {
                        assert(old_batches.push(b)[t] == b);
                    }
                }
                assert(views(batches@) =~= target.take(i + 1));
            }
            i += 1;
        }
        let s = Space { batches, computed: Vec::new() };
        proof {
            assert(target.take(count as int) =~= target);
            assert(s@.pending == target);
            assert(s@.completed.len() == 0);
            assert(s.all_batches() =~= target);
        }
        s
    }

    /// Lay out all batches for magnitude `power` with the default minimal
    /// batch power.
    pub fn new(power: u32) -> (s: Space)
        requires
            space_total_spec(MINIMAL_BATCH_SIZE as nat, power as nat) <= usize::MAX,
        ensures
            s.wf(),
            s@.completed.len() == 0,
            s@.pending == layout_models(
                MINIMAL_BATCH_SIZE as nat,
                batch_count_spec(MINIMAL_BATCH_SIZE as nat, power as nat),
            ),
    {
        Space::new_with_min_power(MINIMAL_BATCH_SIZE, power)
    }

    /// Lay out the batches for magnitude `power`, or report that the range
    /// would not fit the machine: `None` exactly when the layout's total
    /// length overflows `usize`.
    pub fn try_new(power: u32) -> (r: Option<Space>)
        ensures
            r is Some <==> space_total_spec(MINIMAL_BATCH_SIZE as nat, power as nat)
                <= usize::MAX,
            r is Some ==> r.unwrap().wf() && r.unwrap()@.completed.len() == 0
                && r.unwrap()@.pending == layout_models(
                MINIMAL_BATCH_SIZE as nat,
                batch_count_spec(MINIMAL_BATCH_SIZE as nat, power as nat),
            ),
    {
        match checked_space_total(MINIMAL_BATCH_SIZE, power) {
            None => None,
            Some(_) => Some(Space::new(power)),
        }
    }

    /// Drain the pending queue in order: pop the front batch, run its sieve
    /// pass against the completed history, and append it to the completed
    /// list.  Afterwards every batch is completed and fully sieved.
    pub fn compute_all(&mut self)
        requires
            old(self).wf(),
        ensures
            final(self).wf(),
            final(self)@.pending.len() == 0,
            final(self)@.completed == old(self)@.completed + sieved_versions(old(self)@.pending),
            layout_wf(final(self)@.completed),
    {
        let ghost orig_completed = self@.completed;
        let ghost orig_pending = self@.pending;
        let ghost mut k: int = 0;
        proof {
            assert(self@.completed =~= orig_completed + sieved_versions(orig_pending.take(0)));
            assert(self@.pending =~= orig_pending.skip(0));
        }
        while self.batches.len() != 0
            invariant
                self.wf(),
                0 <= k <= orig_pending.len(),
                self@.pending == orig_pending.skip(k),
                self@.completed == orig_completed + sieved_versions(orig_pending.take(k)),
            decreases self.batches@.len(),
        {
            let ghost all = self.all_batches();
            let ghost comp = self@.completed;
            let ghost pend = self@.pending;
            let ghost clen = comp.len() as int;
            let ghost oldq = self.batches@;
            proof {
                self.lemma_completed_ok();
            }
            let popped = self.batches.pop_front();
            let mut batch = match popped {
                Some(b) => b,
                None => vstd::pervasive::unreached(),
            };
            proof {
                assert(self.batches@ == oldq.subrange(1, oldq.len() as int));
                assert(batch == oldq[0]);
                lemma_views_len(oldq);
                lemma_views_at(oldq, 0);
                assert(pend[0] == batch@);
                assert(all[clen] == pend[0]);
                assert(all[clen].start == sum_lens(all, clen));
                if clen > 0 {
                    assert(2 <= all[clen].start);
                }
            }
            batch.run(&self.computed);
            let ghost b_after = batch@;
            let ghost oldc = self.computed@;
            self.computed.push(batch);
            proof {
                k = k + 1;
                assert(self.computed@ == oldc.push(batch));
                assert forall|t: int|
                    0 <= t < clen + 1 implies #[trigger] views(self.computed@)[t] == comp.push(
                    b_after,
                )[t] by {
                    lemma_views_len(oldc);
                    lemma_views_len(self.computed@);
                    lemma_views_at(self.computed@, t);
                    assert(self.computed@[t] == oldc.push(batch)[t]);
                    if t < clen {
                        assert(oldc.push(batch)[t] == oldc[t]);
                        lemma_views_at(oldc, t);
                        assert(comp.push(b_after)[t] == comp[t]);
                    } else {
                        assert(oldc.push(batch)[t] == batch);
                        assert(comp.push(b_after)[t] == b_after);
                    }
                }
                assert(self@.completed =~= comp.push(b_after));
                // the finished batch is the sieved version of the popped one
                assert(b_after.marks =~= sieved_version(all[clen]).marks);
                assert(b_after =~= sieved_version(all[clen]));
                // the queue lost its front
                lemma_views_len(self.batches@);
                assert forall|t: int|
                    0 <= t < oldq.len() - 1 implies #[trigger] views(self.batches@)[t] == pend.skip(
                    1,
                )[t] by {
                    lemma_views_len(self.batches@);
                    lemma_views_at(self.batches@, t);
                    assert(self.batches@[t] == oldq.subrange(1, oldq.len() as int)[t]);
                    assert(oldq.subrange(1, oldq.len() as int)[t] == oldq[t + 1]);
                    lemma_views_at(oldq, t + 1);
                }
                assert(self@.pending =~= pend.skip(1));
                assert(pend.skip(1) =~= orig_pending.skip(k));
                assert(all[clen] == orig_pending[k - 1]);
                // one more sieved version on the completed side
                assert forall|t: int|
                    0 <= t < k implies #[trigger] sieved_versions(orig_pending.take(k))[t]
                    == (sieved_versions(orig_pending.take(k - 1)).push(
                    sieved_version(orig_pending[k - 1]),
                ))[t] by {
                    assert(sieved_versions(orig_pending.take(k))[t] == sieved_version(
                        orig_pending.take(k)[t],
                    ));
                    if t < k - 1 {
                        assert(sieved_versions(orig_pending.take(k - 1))[t] == sieved_version(
                            orig_pending.take(k - 1)[t],
                        ));
                        assert(orig_pending.take(k)[t] == orig_pending[t]);
                        assert(orig_pending.take(k - 1)[t] == orig_pending[t]);
                    } else {
                        assert(orig_pending.take(k)[t] == orig_pending[k - 1]);
                    }
                }
                assert(sieved_versions(orig_pending.take(k)) =~= sieved_versions(
                    orig_pending.take(k - 1),
                ).push(sieved_version(orig_pending[k - 1])));
                assert(self@.completed =~= orig_completed + sieved_versions(
                    orig_pending.take(k),
                ));
                // the layout is unchanged but for the freshly sieved marks
                let new_all = self.all_batches();
                assert forall|t: int|
                    0 <= t < all.len() implies #[trigger] new_all[t] == all.update(
                    clen,
                    b_after,
                )[t] by {
                    if t < clen {
                        assert(new_all[t] == self@.completed[t]);
                        assert(self@.completed[t] == comp.push(b_after)[t]);
                        assert(all[t] == comp[t]);
                    } else if t == clen {
                        assert(new_all[t] == self@.completed[t]);
                    } else {
                        assert(new_all[t] == self@.pending[t - clen - 1]);
                        assert(pend.skip(1)[t - clen - 1] == pend[t - clen]);
                        assert(all[t] == pend[t - clen]);
                    }
                }
                assert(new_all =~= all.update(clen, b_after));
                assert forall|i: int|
                    0 <= i < new_all.len() implies (#[trigger] new_all[i]).start == sum_lens(
                    new_all,
                    i,
                ) by {
                    lemma_sum_lens_same_lens(new_all, all, i);
                    assert(all[i].start == sum_lens(all, i));
                    assert(new_all[i].start == all[i].start);
                }
                assert forall|i: int|
                    0 <= i < self@.completed.len() implies sieved(
                    #[trigger] self@.completed[i],
                ) by {
                    assert(self@.completed[i] == comp.push(b_after)[i]);
                    if i < clen {
                        assert(comp.push(b_after)[i] == comp[i]);
                    }
                }
                assert forall|i: int|
                    0 <= i < self@.pending.len() implies all_unmarked(
                    #[trigger] self@.pending[i],
                ) by {
                    assert(self@.pending[i] == pend.skip(1)[i]);
                    assert(pend.skip(1)[i] == pend[i + 1]);
                }
            }
        }
        proof {
            assert(self@.pending.len() == 0);
            assert(k == orig_pending.len());
            assert(orig_pending.take(k) =~= orig_pending);
        }
    }

    /// How many batches have completed their sieve pass.
    pub fn completed_count(&self) -> (n: usize)
        ensures
            n == self@.completed.len(),
    {
        self.computed.len()
    }

    /// The starting offset of the `i`-th completed batch.
    pub fn batch_start(&self, i: usize) -> (s: usize)
        requires
            i < self@.completed.len(),
        ensures
            s == self@.completed[i as int].start,
    {
        self.computed[i].start()
    }

    /// The length of the `i`-th completed batch.
    pub fn batch_len(&self, i: usize) -> (n: usize)
        requires
            i < self@.completed.len(),
        ensures
            n == self@.completed[i as int].marks.len(),
    {
        self.computed[i].len()
    }

    /// The marking buffer of the `i`-th completed batch, copied out:
    /// `true` stands on composites.
    pub fn batch_marks(&self, i: usize) -> (r: Vec<bool>)
        requires
            i < self@.completed.len(),
        ensures
            r@ == self@.completed[i as int].marks,
    {
        let b = &self.computed[i];
        let len: usize = b.len();
        let mut r: Vec<bool> = Vec::new();
        let mut j: usize = 0;
        while j < len
            invariant
                len == b@.marks.len(),
                j <= len,
                r@.len() == j,
                forall|t: int| 0 <= t < j ==> r@[t] == b@.marks[t],
            decreases len - j,
        {
            r.push(b.is_marked(j));
            j += 1;
        }
        proof {
            assert(r@ =~= self@.completed[i as int].marks);
        }
        r
    }

    /// The primes discovered by the `i`-th completed batch, ascending.
    pub fn batch_primes(&self, i: usize) -> (r: Vec<usize>)
        requires
            self.wf(),
            i < self@.completed.len(),
        ensures
            forall|t: int| 0 <= t < r@.len() ==> is_prime((#[trigger] r@[t]) as int),
            forall|t: int|
                0 <= t < r@.len() ==> self@.completed[i as int].start <= (#[trigger] r@[t])
                    && r@[t] < self@.completed[i as int].end(),
            forall|t1: int, t2: int|
                0 <= t1 < t2 < r@.len() ==> (#[trigger] r@[t1]) < (#[trigger] r@[t2]),
            forall|v: int|
                self@.completed[i as int].start <= v < self@.completed[i as int].end()
                    && is_prime(v) ==> #[trigger] in_list(r@, v),
    {
        let ghost b = self@.completed[i as int];
        proof {
            assert(self.all_batches()[i as int] == b);
        }
        let r = self.computed[i].primes();
        proof {
            assert forall|t: int| 0 <= t < r@.len() implies is_prime((#[trigger] r@[t]) as int) by {
                assert(b.marks[r@[t] - b.start] == !is_prime(r@[t] as int));
            }
            assert forall|v: int|
                b.start <= v < b.end() && is_prime(v) implies #[trigger] in_list(r@, v) by {
                assert(b.marks[v - b.start] == !is_prime(v));
            }
        }
        r
    }

    /// All primes discovered in the completed range `[0, total)`, in
    /// ascending order: exactly the prime numbers below the total.
    pub fn primes(&self) -> (r: Vec<usize>)
        requires
            self.wf(),
        ensures
            forall|t: int| 0 <= t < r@.len() ==> is_prime((#[trigger] r@[t]) as int),
            forall|t: int| 0 <= t < r@.len() ==> (#[trigger] r@[t]) < total_len(self@.completed),
            forall|t1: int, t2: int|
                0 <= t1 < t2 < r@.len() ==> (#[trigger] r@[t1]) < (#[trigger] r@[t2]),
            forall|v: int|
                0 <= v < total_len(self@.completed) && is_prime(v) ==> #[trigger] in_list(r@, v),
    {
        let ghost ms = self@.completed;
        let mut r: Vec<usize> = Vec::new();
        let mut b_i: usize = 0;
        proof {
            self.lemma_completed_ok();
        }
        while b_i < self.computed.len()
            invariant
                self.wf(),
                completed_ok(ms),
                ms == self@.completed,
                b_i <= ms.len(),
                forall|t: int| 0 <= t < r@.len() ==> is_prime((#[trigger] r@[t]) as int),
                forall|t: int| 0 <= t < r@.len() ==> (#[trigger] r@[t]) < sum_lens(ms, b_i as int),
                forall|t1: int, t2: int|
                    0 <= t1 < t2 < r@.len() ==> (#[trigger] r@[t1]) < (#[trigger] r@[t2]),
                forall|v: int|
                    0 <= v < sum_lens(ms, b_i as int) && is_prime(v) ==> #[trigger] in_list(r@, v),
            decreases ms.len() - b_i,
        {
            let ghost b = ms[b_i as int];
            proof {
                assert(b.start == sum_lens(ms, b_i as int));
                assert(sum_lens(ms, b_i as int + 1) == sum_lens(ms, b_i as int) + b.marks.len());
            }
            let mut bp = self.batch_primes(b_i);
            let ghost bpv = bp@;
            let ghost prev = r@;
            r.append(&mut bp);
            proof {
                assert(r@ == prev + bpv);
                assert forall|t: int| 0 <= t < r@.len() implies is_prime(
                    (#[trigger] r@[t]) as int,
                ) by {
                    if t < prev.len() {
                        assert(r@[t] == prev[t]);
                    } else {
                        assert(r@[t] == bpv[t - prev.len()]);
                    }
                }
                assert forall|t: int| 0 <= t < r@.len() implies (#[trigger] r@[t]) < sum_lens(
                    ms,
                    b_i as int + 1,
                ) by {
                    if t < prev.len() {
                        assert(r@[t] == prev[t]);
                    } else {
                        assert(r@[t] == bpv[t - prev.len()]);
                    }
                }
                assert forall|t1: int, t2: int|
                    0 <= t1 < t2 < r@.len() implies (#[trigger] r@[t1]) < (#[trigger] r@[t2]) by {
                    if t2 < prev.len() {
                        assert(r@[t1] == prev[t1] && r@[t2] == prev[t2]);
                    } else if t1 >= prev.len() {
                        assert(r@[t1] == bpv[t1 - prev.len()] && r@[t2] == bpv[t2 - prev.len()]);
                    } else {
                        assert(r@[t1] == prev[t1] && r@[t2] == bpv[t2 - prev.len()]);
                    }
                }
                assert forall|v: int|
                    0 <= v < sum_lens(ms, b_i as int + 1) && is_prime(v) implies #[trigger] in_list(
                    r@,
                    v,
                ) by {
                    if v < b.start {
                        lemma_in_list_cat_l(prev, bpv, v);
                    } else {
                        assert(in_list(bpv, v));
                        lemma_in_list_cat_r(prev, bpv, v);
                    }
                }
            }
            b_i += 1;
        }
        r
    }

    /// The previously discovered primes that a further batch ending at
    /// `end` would consume, ascending: every prime below the completed
    /// range whose square is at most `end`, and nothing beyond that bound.
    pub fn sieve_primes_below(&self, end: usize) -> (ps: Vec<usize>)
        requires
            self.wf(),
        ensures
            forall|t: int| 0 <= t < ps@.len() ==> is_prime((#[trigger] ps@[t]) as int),
            forall|t: int|
                0 <= t < ps@.len() ==> ((#[trigger] ps@[t]) as int) * (ps@[t] as int) <= end,
            forall|q: int|
                is_prime(q) && q < total_len(self@.completed) && q * q <= end
                    ==> #[trigger] in_list(ps@, q),
    {
        proof {
            self.lemma_completed_ok();
        }
        collect_sieve_primes(&self.computed, end)
    }
}

} // verus!
