//! A batch: a fixed-size contiguous slice of the number line, owning its
//! composite-marking buffer and its absolute starting offset.

use vstd::prelude::*;
use vstd::arithmetic::div_mod::lemma_fundamental_div_mod;
use vstd::arithmetic::power2::pow2;
use crate::layout::pow2_exec;
use crate::model::BatchModel;
use crate::model::all_unmarked;
use crate::model::layout_wf;
use crate::model::sieve_marks;
use crate::model::sieved;
use crate::model::sum_lens;
use crate::model::total_len;
use crate::primes::is_prime;
use crate::primes::lemma_prime_factor;
use crate::primes::lemma_struck_is_composite;
use crate::primes::strikes;

verus! {

/// A slice `[start, start + data.len())` of the number line; `data[i]`
/// is `true` when `start + i` is known composite.
pub struct Batch {
    data: Vec<bool>,
    start: usize,
}

impl View for Batch {
    type V = BatchModel;

    closed spec fn view(&self) -> BatchModel {
        BatchModel { start: self.start as nat, marks: self.data@ }
    }
}

/// The value `start + j` is a multiple of `p` with a quotient in `[2, k)`:
/// exactly the flags set after the marking loop has run up to multiplier `k`.
spec fn struck_below(start: int, p: int, j: int, k: int) -> bool {
    (start + j) % p == 0 && 2 <= (start + j) / p && (start + j) / p < k
}

impl Batch {
    /// A fresh, unsieved batch of length `2^power` starting at `starter`.
    pub fn new(power: u32, starter: usize) -> (b: Batch)
        requires
            pow2(power as nat) <= usize::MAX,
        ensures
            b@.start == starter,
            b@.marks.len() == pow2(power as nat),
            all_unmarked(b@),
    {
        let n = pow2_exec(power);
        let mut data: Vec<bool> = Vec::new();
        let mut i: usize = 0;
        while i < n
            invariant
                i <= n,
                data@.len() == i,
                forall|j: int| 0 <= j < i ==> !data@[j],
            decreases n - i,
        {
            data.push(false);
            i += 1;
        }
        Batch { data, start: starter }
    }

    /// Mark every multiple `p * k` with `k >= 2` that falls inside this
    /// batch's range.  The scan starts at multiplier `max(2, start / prime)`,
    /// at or before the first multiple inside the batch, so that multiples
    /// belonging to earlier batches are never rescanned.
    pub fn sieve_prime(&mut self, prime: usize)
        requires
            prime >= 2,
            old(self)@.start + old(self)@.marks.len() <= usize::MAX,
        ensures
            final(self)@.start == old(self)@.start,
            final(self)@.marks == sieve_marks(
                old(self)@.marks,
                old(self)@.start as int,
                prime as int,
            ),
    {
        let ghost m0 = self.data@;
        let start: usize = self.start;
        let len: usize = self.data.len();
        if len == 0 {
            proof {
                assert(self.data@ =~= sieve_marks(m0, start as int, prime as int));
            }
            return;
        }
        let end: usize = start + len;
        let mut from: usize = start / prime;
        if from < 2 {
            from = 2;
        }
        let hi: usize = (end - 1) / prime;
        proof {
            lemma_window_init(m0, start as int, prime as int, from as int);
        }
        let mut k: usize = from;
        while k <= hi
            invariant
                self.start == start,
                self.data@.len() == len,
                len >= 1,
                end == start + len,
                end <= usize::MAX,
                prime >= 2,
                2 <= from <= k,
                hi == (end - 1) as int / prime as int,
                marked_window(self.data@, m0, start as int, prime as int, k as int),
            decreases hi + 1 - k,
        {
            proof {
                lemma_fundamental_div_mod(end - 1, prime as int);
                assert((prime as int) * (k as int) <= (prime as int) * (hi as int)
                    <= end - 1) by (nonlinear_arith)
                    requires
                        k <= hi,
                        prime >= 2,
                        hi == (end - 1) as int / prime as int,
                        end - 1 == (prime as int) * ((end - 1) as int / prime as int) + (end
                            - 1) as int % prime as int,
                        (end - 1) as int % prime as int >= 0,
                ;
            }
            let multiple: usize = prime * k;
            let ghost prev = self.data@;
            if multiple >= start {
                let idx: usize = multiple - start;
                self.data.set(idx, true);
                proof {
                    lemma_window_mark(
                        prev,
                        self.data@,
                        m0,
                        start as int,
                        prime as int,
                        k as int,
                        idx as int,
                    );
                }
            } else {
                proof {
                    lemma_window_skip(self.data@, m0, start as int, prime as int, k as int);
                }
            }
            k += 1;
        }
        proof {
            lemma_fundamental_div_mod(end - 1, prime as int);
            lemma_window_final(self.data@, m0, start as int, prime as int, k as int);
        }
    }

    /// The absolute offset of the first number this batch represents.
    pub fn start(&self) -> (s: usize)
        ensures
            s == self@.start,
    {
        self.start
    }

    /// How many consecutive integers this batch covers.
    pub fn len(&self) -> (n: usize)
        ensures
            n == self@.marks.len(),
    {
        self.data.len()
    }

    /// Whether the number `start + i` is marked composite.
    pub fn is_marked(&self, i: usize) -> (m: bool)
        requires
            i < self@.marks.len(),
        ensures
            m == self@.marks[i as int],
    {
        self.data[i]
    }

    /// The absolute values whose flag is still clear, in ascending order:
    /// after the sieve pass these are exactly the primes the batch
    /// discovered.  Before the pass the result merely lists every candidate.
    pub fn primes(&self) -> (r: Vec<usize>)
        requires
            self@.start + self@.marks.len() <= usize::MAX,
        ensures
            forall|t: int|
                0 <= t < r@.len() ==> self@.start <= (#[trigger] r@[t]) && r@[t] < self@.end(),
            forall|t: int| 0 <= t < r@.len() ==> !self@.marks[(#[trigger] r@[t]) - self@.start],
            forall|t1: int, t2: int|
                0 <= t1 < t2 < r@.len() ==> (#[trigger] r@[t1]) < (#[trigger] r@[t2]),
            forall|v: int|
                self@.start <= v < self@.end() && !self@.marks[v - self@.start] ==> #[trigger] in_list(
                    r@,
                    v,
                ),
    {
        let start: usize = self.start;
        let len: usize = self.data.len();
        let mut r: Vec<usize> = Vec::new();
        let mut i: usize = 0;
        while i < len
            invariant
                self@.start == start,
                self@.marks.len() == len,
                start + len <= usize::MAX,
                i <= len,
                forall|t: int|
                    0 <= t < r@.len() ==> start <= (#[trigger] r@[t]) && r@[t] < start + i,
                forall|t: int| 0 <= t < r@.len() ==> !self@.marks[(#[trigger] r@[t]) - start],
                forall|t1: int, t2: int|
                    0 <= t1 < t2 < r@.len() ==> (#[trigger] r@[t1]) < (#[trigger] r@[t2]),
                forall|v: int|
                    start <= v < start + i && !self@.marks[v - start] ==> #[trigger] in_list(r@, v),
            decreases len - i,
        {
            let ghost prev = r@;
            if !self.data[i] {
                r.push(start + i);
                proof {
                    assert(r@[prev.len() as int] == start + i);
                    assert forall|v: int|
                        start <= v < start + i + 1 && !self@.marks[v - start] implies #[trigger] in_list(
                        r@,
                        v,
                    ) by {
                        if v < start + i {
                            lemma_in_list_push(prev, (start + i) as usize, v);
                        } else {
                            assert(r@[prev.len() as int] == v);
                        }
                    }
                }
            } else {
                proof {
                    assert forall|v: int|
                        start <= v < start + i + 1 && !self@.marks[v - start] implies #[trigger] in_list(
                        r@,
                        v,
                    ) by {
                        assert(v != start + i);
                    }
                }
            }
            i += 1;
        }
        r
    }

    /// Run this batch's one-time sieve pass.  A batch starting at 0
    /// bootstraps by classical trial sieving bounded by the square root of
    /// its length; any later batch is sieved purely from the primes already
    /// discovered in the completed batches, which must tile `[0, start)`.
    pub fn run(&mut self, computed: &Vec<Batch>)
        requires
            old(self)@.marks.len() >= 1,
            old(self)@.start + old(self)@.marks.len() <= usize::MAX,
            all_unmarked(old(self)@),
            old(self)@.start == 0 || (old(self)@.start >= 2 && old(self)@.end() <= old(
                self,
            )@.start * old(self)@.start && completed_ok(views(computed@)) && total_len(
                views(computed@),
            ) == old(self)@.start),
        ensures
            final(self)@.start == old(self)@.start,
            final(self)@.marks.len() == old(self)@.marks.len(),
            sieved(final(self)@),
    {
        let len: usize = self.data.len();
        let start: usize = self.start;
        if start == 0 {
            self.data.set(0, true);
            if len > 1 {
                self.data.set(1, true);
            }
            let to: usize = len;
            proof {
                assert forall|j: int| 0 <= j < len implies (#[trigger] self.data@[j]) == (j < 2
                    || small_strike(len as int, 2, j)) by {
                    if small_strike(len as int, 2, j) {
                        let q = choose|q: int|
                            is_prime(q) && q * q <= len && 2 <= q < 2 && #[trigger] strikes(q, j);
                        assert(false);
                    }
                }
            }
            let mut c: usize = 2;
            while c <= to / c
                invariant
                    self.start == start,
                    start == 0,
                    self.data@.len() == len,
                    len == to,
                    len >= 1,
                    2 <= c,
                    forall|j: int|
                        0 <= j < len ==> (#[trigger] self.data@[j]) == (j < 2 || small_strike(
                            len as int,
                            c as int,
                            j,
                        )),
                decreases to - c,
            {
                proof {
                    lemma_fundamental_div_mod(to as int, c as int);
                    assert((c as int) * (c as int) <= to) by (nonlinear_arith)
                        requires
                            c <= to as int / c as int,
                            c >= 2,
                            to == (c as int) * (to as int / c as int) + (to as int) % (c as int),
                            (to as int) % (c as int) >= 0,
                    ;
                    assert(c < to) by (nonlinear_arith)
                        requires
                            c >= 2,
                            (c as int) * (c as int) <= to,
                    ;
                }
                let ghost prev = self.data@;
                if !self.data[c] {
                    proof {
                        lemma_boot_candidate_prime(prev, len as int, c as int);
                    }
                    self.sieve_prime(c);
                    proof {
                        lemma_boot_window_mark(prev, self.data@, len as int, c as int);
                    }
                } else {
                    proof {
                        lemma_boot_window_skip(prev, len as int, c as int);
                    }
                }
                c += 1;
            }
            proof {
                lemma_fundamental_div_mod(to as int, c as int);
                assert((c as int) * (c as int) > to) by (nonlinear_arith)
                    requires
                        c > to as int / c as int,
                        c >= 2,
                        to == (c as int) * (to as int / c as int) + (to as int) % (c as int),
                        0 <= (to as int) % (c as int) < c,
                ;
                lemma_boot_window_done(self.data@, len as int, c as int);
            }
        } else {
            let end: usize = start + len;
            let ps = collect_sieve_primes(computed, end);
            let ghost pv = ps@;
            let ghost ms = views(computed@);
            let mut i: usize = 0;
            proof {
                assert forall|j: int| 0 <= j < len implies (#[trigger] self.data@[j])
                    == list_strike(pv, start + j, 0) by {
                    if list_strike(pv, start + j, 0) {
                        let u = choose|u: int| 0 <= u < 0 && strikes(#[trigger] pv[u] as int, start + j);
                        assert(false);
                    }
                }
            }
            while i < ps.len()
                invariant
                    self.start == start,
                    self.data@.len() == len,
                    len >= 1,
                    end == start + len,
                    end <= usize::MAX,
                    i <= ps@.len(),
                    pv == ps@,
                    forall|t: int| 0 <= t < pv.len() ==> is_prime((#[trigger] pv[t]) as int),
                    forall|j: int|
                        0 <= j < len ==> (#[trigger] self.data@[j]) == list_strike(
                            pv,
                            start + j,
                            i as int,
                        ),
                decreases ps@.len() - i,
            {
                let p: usize = ps[i];
                let ghost prev = self.data@;
                proof {
                    assert(is_prime(pv[i as int] as int));
                }
                self.sieve_prime(p);
                proof {
                    lemma_list_window_step(prev, self.data@, pv, start as int, i as int);
                }
                i += 1;
            }
            proof {
                lemma_list_window_done(
                    self.data@,
                    pv,
                    ms,
                    start as int,
                    end as int,
                );
            }
        }
    }
}

/// The multiple `p * k` sits at offset `idx` from `start`, and its quotient
/// by `p` is exactly `k`.
proof fn lemma_multiple_quotient(start: int, p: int, k: int, idx: int)
    requires
        p >= 2,
        k >= 2,
        start + idx == p * k,
        idx >= 0,
    ensures
        (start + idx) % p == 0,
        (start + idx) / p == k,
        struck_below(start, p, idx, k + 1),
{
    assert(p * k == k * p) by (nonlinear_arith);
    vstd::arithmetic::div_mod::lemma_fundamental_div_mod_converse(p * k, p, k, 0);
}

/// The buffer state while the marking loop's multiplier stands at `k`:
/// a flag is set exactly where it was set before, or where the multiplier
/// window `[2, k)` has already struck.
spec fn marked_window(data: Seq<bool>, m0: Seq<bool>, start: int, p: int, k: int) -> bool {
    &&& data.len() == m0.len()
    &&& forall|j: int|
        0 <= j < data.len() ==> (#[trigger] data[j]) == (m0[j] || struck_below(start, p, j, k))
}

/// What the window predicate says at one offset.
proof fn lemma_window_at(data: Seq<bool>, m0: Seq<bool>, start: int, p: int, k: int, j: int)
    requires
        marked_window(data, m0, start, p, k),
        0 <= j < data.len(),
    ensures
        data[j] == (m0[j] || struck_below(start, p, j, k)),
{
}

/// At the starting multiplier `max(2, start / p)` nothing has been struck.
proof fn lemma_window_init(m0: Seq<bool>, start: int, p: int, from: int)
    requires
        p >= 2,
        start >= 0,
        from == if start / p < 2 { 2int } else { start / p },
    ensures
        marked_window(m0, m0, start, p, from),
{
    assert forall|j: int| 0 <= j < m0.len() implies (#[trigger] m0[j]) == (m0[j]
        || struck_below(start, p, j, from)) by {
        if (start + j) % p == 0 && 2 <= (start + j) / p {
            vstd::arithmetic::div_mod::lemma_div_is_ordered(start, start + j, p);
        }
    }
}

/// Striking the multiple `p * k` at offset `idx` widens the window to `k + 1`.
proof fn lemma_window_mark(
    prev: Seq<bool>,
    next: Seq<bool>,
    m0: Seq<bool>,
    start: int,
    p: int,
    k: int,
    idx: int,
)
    requires
        marked_window(prev, m0, start, p, k),
        p >= 2,
        k >= 2,
        0 <= idx < prev.len(),
        start + idx == p * k,
        next == prev.update(idx, true),
    ensures
        marked_window(next, m0, start, p, k + 1),
{
    lemma_multiple_quotient(start, p, k, idx);
    assert forall|j: int| 0 <= j < next.len() implies (#[trigger] next[j]) == (m0[j]
        || struck_below(start, p, j, k + 1)) by {
        lemma_window_at(prev, m0, start, p, k, j);
        if j != idx {
            if (start + j) % p == 0 && (start + j) / p == k {
                lemma_fundamental_div_mod(start + j, p);
            }
        }
    }
}

/// When the multiple `p * k` falls short of the batch, the window still
/// widens: no offset in range has quotient `k`.
proof fn lemma_window_skip(data: Seq<bool>, m0: Seq<bool>, start: int, p: int, k: int)
    requires
        marked_window(data, m0, start, p, k),
        p >= 2,
        k >= 2,
        p * k < start,
    ensures
        marked_window(data, m0, start, p, k + 1),
{
    assert forall|j: int| 0 <= j < data.len() implies (#[trigger] data[j]) == (m0[j]
        || struck_below(start, p, j, k + 1)) by {
        lemma_window_at(data, m0, start, p, k, j);
        if (start + j) % p == 0 && (start + j) / p == k {
            lemma_fundamental_div_mod(start + j, p);
        }
    }
}

/// Once the multiplier has passed the last in-range multiple, the window
/// describes exactly the proper multiples of `p` inside the batch.
proof fn lemma_window_final(data: Seq<bool>, m0: Seq<bool>, start: int, p: int, k: int)
    requires
        marked_window(data, m0, start, p, k),
        p >= 2,
        start >= 0,
        data.len() >= 1,
        (start + data.len() - 1) / p < k,
    ensures
        data == sieve_marks(m0, start, p),
{
    assert forall|j: int| 0 <= j < data.len() implies data[j] == (m0[j] || strikes(
        p,
        start + j,
    )) by {
        lemma_window_at(data, m0, start, p, k, j);
        let v = start + j;
        if v % p == 0 {
            lemma_fundamental_div_mod(v, p);
            vstd::arithmetic::div_mod::lemma_div_is_ordered(v, start + data.len() - 1, p);
            assert(2 <= v / p ==> v >= 2 * p) by (nonlinear_arith)
                requires
                    p >= 2,
                    v == p * (v / p) + v % p,
                    v % p == 0,
            ;
            assert(v >= 2 * p ==> 2 <= v / p) by (nonlinear_arith)
                requires
                    p >= 2,
                    v == p * (v / p) + v % p,
                    v % p == 0,
            ;
        }
    }
    assert(data =~= sieve_marks(m0, start, p));
}

/// The models of a sequence of batches.
pub open spec fn views(bs: Seq<Batch>) -> Seq<BatchModel> {
    bs.map_values(|b: Batch| b@)
}

/// The models sequence has one entry per batch.
pub proof fn lemma_views_len(bs: Seq<Batch>)
    ensures
        views(bs).len() == bs.len(),
{
}

/// The model at one position is the view of the batch there.
pub proof fn lemma_views_at(bs: Seq<Batch>, t: int)
    requires
        0 <= t < bs.len(),
    ensures
        views(bs)[t] == bs[t]@,
{
}

/// A well-formed completed list: a prefix-sum layout of fully sieved
/// batches whose bounds fit the machine.
pub open spec fn completed_ok(ms: Seq<BatchModel>) -> bool {
    &&& layout_wf(ms)
    &&& forall|i: int| 0 <= i < ms.len() ==> sieved(#[trigger] ms[i])
    &&& forall|i: int| 0 <= i < ms.len() ==> (#[trigger] ms[i]).start + ms[i].marks.len() <= usize::MAX
}

/// The value `q` occurs in the list.
pub open spec fn in_list(ps: Seq<usize>, q: int) -> bool {
    exists|t: int| 0 <= t < ps.len() && (#[trigger] ps[t]) == q
}

/// A value listed on the left is listed in the concatenation.
pub proof fn lemma_in_list_cat_l(a: Seq<usize>, b: Seq<usize>, q: int)
    requires
        in_list(a, q),
    ensures
        in_list(a + b, q),
{
    let t = choose|t: int| 0 <= t < a.len() && (#[trigger] a[t]) == q;
    assert((a + b)[t] == q);
}

/// A value listed on the right is listed in the concatenation.
pub proof fn lemma_in_list_cat_r(a: Seq<usize>, b: Seq<usize>, q: int)
    requires
        in_list(b, q),
    ensures
        in_list(a + b, q),
{
    let t = choose|t: int| 0 <= t < b.len() && (#[trigger] b[t]) == q;
    assert((a + b)[a.len() + t] == q);
}

/// Appending keeps every listed value listed.
proof fn lemma_in_list_push(ps: Seq<usize>, v: usize, q: int)
    requires
        in_list(ps, q),
    ensures
        in_list(ps.push(v), q),
{
    let t = choose|t: int| 0 <= t < ps.len() && (#[trigger] ps[t]) == q;
    assert(ps.push(v)[t] == q);
}

/// A flag of a sieved batch, read at one offset.
proof fn lemma_sieved_at(b: BatchModel, j: int)
    requires
        sieved(b),
        0 <= j < b.marks.len(),
    ensures
        b.marks[j] == !is_prime(b.start + j),
{
}

/// `j` is struck by some prime below `c` whose square is at most `len`.
spec fn small_strike(len: int, c: int, j: int) -> bool {
    exists|q: int| is_prime(q) && q * q <= len && 2 <= q < c && #[trigger] strikes(q, j)
}

/// An unmarked candidate of the bootstrap loop is prime: a composite would
/// already have been struck by one of its own prime factors, which is
/// smaller than the candidate and below the square-root bound.
proof fn lemma_boot_candidate_prime(prev: Seq<bool>, len: int, c: int)
    requires
        prev.len() == len,
        2 <= c,
        c * c <= len,
        forall|j: int| 0 <= j < len ==> (#[trigger] prev[j]) == (j < 2 || small_strike(len, c, j)),
        !prev[c],
    ensures
        is_prime(c),
{
    assert(c < len) by (nonlinear_arith)
        requires
            2 <= c,
            c * c <= len,
    ;
    assert(prev[c] == (c < 2 || small_strike(len, c, c)));
    if !is_prime(c) {
        lemma_prime_factor(c);
        let p = choose|p: int|
            is_prime(p) && #[trigger] (c % p) == 0 && p * p <= c && 2 * p <= c;
        assert(strikes(p, c));
        assert(2 <= p && p < c) by (nonlinear_arith)
            requires
                is_prime(p),
                p >= 2,
                p * p <= c,
                2 <= c,
        ;
        assert(small_strike(len, c, c));
    }
}

/// Sieving a prime candidate `c` widens the bootstrap window to `c + 1`.
proof fn lemma_boot_window_mark(prev: Seq<bool>, next: Seq<bool>, len: int, c: int)
    requires
        prev.len() == len,
        2 <= c,
        c * c <= len,
        is_prime(c),
        forall|j: int| 0 <= j < len ==> (#[trigger] prev[j]) == (j < 2 || small_strike(len, c, j)),
        next == sieve_marks(prev, 0, c),
    ensures
        forall|j: int|
            0 <= j < len ==> (#[trigger] next[j]) == (j < 2 || small_strike(len, c + 1, j)),
{
    assert forall|j: int| 0 <= j < len implies (#[trigger] next[j]) == (j < 2 || small_strike(
        len,
        c + 1,
        j,
    )) by {
        assert(next[j] == (prev[j] || strikes(c, j)));
        assert(prev[j] == (j < 2 || small_strike(len, c, j)));
        if strikes(c, j) {
            assert(small_strike(len, c + 1, j));
        }
        if small_strike(len, c, j) {
            let q = choose|q: int|
                is_prime(q) && q * q <= len && 2 <= q < c && #[trigger] strikes(q, j);
            assert(small_strike(len, c + 1, j));
        }
        if small_strike(len, c + 1, j) && !strikes(c, j) {
            let q = choose|q: int|
                is_prime(q) && q * q <= len && 2 <= q < c + 1 && #[trigger] strikes(q, j);
            assert(q < c);
            assert(small_strike(len, c, j));
        }
    }
}

/// Skipping a marked (composite) candidate leaves the window description
/// intact while it widens to `c + 1`.
proof fn lemma_boot_window_skip(prev: Seq<bool>, len: int, c: int)
    requires
        prev.len() == len,
        2 <= c,
        c * c <= len,
        forall|j: int| 0 <= j < len ==> (#[trigger] prev[j]) == (j < 2 || small_strike(len, c, j)),
        prev[c],
    ensures
        forall|j: int|
            0 <= j < len ==> (#[trigger] prev[j]) == (j < 2 || small_strike(len, c + 1, j)),
{
    assert(c < len) by (nonlinear_arith)
        requires
            2 <= c,
            c * c <= len,
    ;
    assert(prev[c] == (c < 2 || small_strike(len, c, c)));
    assert(small_strike(len, c, c));
    let qc = choose|q: int| is_prime(q) && q * q <= len && 2 <= q < c && #[trigger] strikes(q, c);
    lemma_struck_is_composite(qc, c);
    assert forall|j: int| 0 <= j < len implies (#[trigger] prev[j]) == (j < 2 || small_strike(
        len,
        c + 1,
        j,
    )) by {
        assert(prev[j] == (j < 2 || small_strike(len, c, j)));
        if small_strike(len, c, j) {
            let q = choose|q: int|
                is_prime(q) && q * q <= len && 2 <= q < c && #[trigger] strikes(q, j);
            assert(small_strike(len, c + 1, j));
        }
        if small_strike(len, c + 1, j) {
            let q = choose|q: int|
                is_prime(q) && q * q <= len && 2 <= q < c + 1 && #[trigger] strikes(q, j);
            if q == c {
                assert(false);
            }
            assert(small_strike(len, c, j));
        }
    }
}

/// Once the candidate's square exceeds the length, the bootstrap window
/// describes primality exactly: the batch is sieved.
proof fn lemma_boot_window_done(data: Seq<bool>, len: int, c: int)
    requires
        data.len() == len,
        2 <= c,
        c * c > len,
        forall|j: int| 0 <= j < len ==> (#[trigger] data[j]) == (j < 2 || small_strike(len, c, j)),
    ensures
        forall|j: int| 0 <= j < len ==> (#[trigger] data[j]) == !is_prime(j),
{
    assert forall|j: int| 0 <= j < len implies (#[trigger] data[j]) == !is_prime(j) by {
        assert(data[j] == (j < 2 || small_strike(len, c, j)));
        if j >= 2 {
            if small_strike(len, c, j) {
                let q = choose|q: int|
                    is_prime(q) && q * q <= len && 2 <= q < c && #[trigger] strikes(q, j);
                lemma_struck_is_composite(q, j);
            } else if !is_prime(j) {
                lemma_prime_factor(j);
                let p = choose|p: int|
                    is_prime(p) && #[trigger] (j % p) == 0 && p * p <= j && 2 * p <= j;
                assert(strikes(p, j));
                assert(p < c) by (nonlinear_arith)
                    requires
                        p * p <= j,
                        j < len,
                        len < c * c,
                        p >= 2,
                        c >= 2,
                ;
                assert(small_strike(len, c, j));
            }
        }
    }
}

/// The value `v` is struck by one of the first `t` listed primes.
spec fn list_strike(ps: Seq<usize>, v: int, t: int) -> bool {
    exists|u: int| 0 <= u < t && strikes((#[trigger] ps[u]) as int, v)
}

/// Sieving the `i`-th listed prime extends the struck description by one.
proof fn lemma_list_window_step(
    prev: Seq<bool>,
    next: Seq<bool>,
    pv: Seq<usize>,
    start: int,
    i: int,
)
    requires
        0 <= i < pv.len(),
        forall|j: int|
            0 <= j < prev.len() ==> (#[trigger] prev[j]) == list_strike(pv, start + j, i),
        next == sieve_marks(prev, start, pv[i] as int),
    ensures
        forall|j: int|
            0 <= j < prev.len() ==> (#[trigger] next[j]) == list_strike(pv, start + j, i + 1),
{
    assert forall|j: int| 0 <= j < prev.len() implies (#[trigger] next[j]) == list_strike(
        pv,
        start + j,
        i + 1,
    ) by {
        assert(next[j] == (prev[j] || strikes(pv[i] as int, start + j)));
        assert(prev[j] == list_strike(pv, start + j, i));
        if strikes(pv[i] as int, start + j) {
            assert(0 <= i < i + 1 && strikes((pv[i]) as int, start + j));
            assert(list_strike(pv, start + j, i + 1));
        }
        if list_strike(pv, start + j, i) {
            let u = choose|u: int| 0 <= u < i && strikes((#[trigger] pv[u]) as int, start + j);
            assert(list_strike(pv, start + j, i + 1));
        }
        if list_strike(pv, start + j, i + 1) && !strikes(pv[i] as int, start + j) {
            let u = choose|u: int|
                0 <= u < i + 1 && strikes((#[trigger] pv[u]) as int, start + j);
            assert(u < i);
            assert(list_strike(pv, start + j, i));
        }
    }
}

/// After every collected prime has been applied, a dependent batch is
/// sieved: each flag stands exactly on a composite number.
proof fn lemma_list_window_done(
    data: Seq<bool>,
    pv: Seq<usize>,
    ms: Seq<BatchModel>,
    start: int,
    end: int,
)
    requires
        data.len() >= 1,
        end == start + data.len(),
        2 <= start,
        end <= start * start,
        total_len(ms) == start,
        forall|t: int| 0 <= t < pv.len() ==> is_prime((#[trigger] pv[t]) as int),
        forall|t: int| 0 <= t < pv.len() ==> ((#[trigger] pv[t]) as int) * (pv[t] as int) <= end,
        forall|q: int|
            is_prime(q) && q < total_len(ms) && q * q <= end ==> #[trigger] in_list(pv, q),
        forall|j: int|
            0 <= j < data.len() ==> (#[trigger] data[j]) == list_strike(pv, start + j, pv.len() as int),
    ensures
        forall|j: int| 0 <= j < data.len() ==> (#[trigger] data[j]) == !is_prime(start + j),
{
    assert forall|j: int| 0 <= j < data.len() implies (#[trigger] data[j]) == !is_prime(start + j) by {
        let v = start + j;
        assert(data[j] == list_strike(pv, v, pv.len() as int));
        if list_strike(pv, v, pv.len() as int) {
            let u = choose|u: int| 0 <= u < pv.len() && strikes((#[trigger] pv[u]) as int, v);
            lemma_struck_is_composite(pv[u] as int, v);
        } else if !is_prime(v) {
            lemma_prime_factor(v);
            let p = choose|p: int|
                is_prime(p) && #[trigger] (v % p) == 0 && p * p <= v && 2 * p <= v;
            assert(strikes(p, v));
            assert(p * p <= end);
            assert(p < start) by (nonlinear_arith)
                requires
                    p * p <= v,
                    v < end,
                    end <= start * start,
                    p >= 2,
                    start >= 2,
            ;
            assert(in_list(pv, p));
            let u = choose|u: int| 0 <= u < pv.len() && (#[trigger] pv[u]) == p;
            assert(strikes(pv[u] as int, v));
            assert(list_strike(pv, v, pv.len() as int));
        }
    }
}

/// The primes discovered in the completed batches, ascending, cut off at
/// the square-root bound of `end`: a prime whose square exceeds `end`
/// cannot strike any composite below `end`, so none such is collected.
pub fn collect_sieve_primes(computed: &Vec<Batch>, end: usize) -> (ps: Vec<usize>)
    requires
        completed_ok(views(computed@)),
    ensures
        forall|t: int| 0 <= t < ps@.len() ==> is_prime((#[trigger] ps@[t]) as int),
        forall|t: int| 0 <= t < ps@.len() ==> ((#[trigger] ps@[t]) as int) * (ps@[t] as int) <= end,
        forall|q: int|
            is_prime(q) && q < total_len(views(computed@)) && q * q <= end ==> #[trigger] in_list(
                ps@,
                q,
            ),
{
    let ghost ms = views(computed@);
    let mut ps: Vec<usize> = Vec::new();
    let mut b_i: usize = 0;
    while b_i < computed.len()
        invariant
            completed_ok(ms),
            ms == views(computed@),
            b_i <= computed@.len(),
            forall|t: int| 0 <= t < ps@.len() ==> is_prime((#[trigger] ps@[t]) as int),
            forall|t: int|
                0 <= t < ps@.len() ==> ((#[trigger] ps@[t]) as int) * (ps@[t] as int) <= end,
            forall|q: int|
                is_prime(q) && q < sum_lens(ms, b_i as int) && q * q <= end ==> #[trigger] in_list(
                    ps@,
                    q,
                ),
        decreases computed@.len() - b_i,
    {
        proof {
            assert(ms[b_i as int] == computed@[b_i as int]@);
        }
        let bstart: usize = computed[b_i].start;
        let blen: usize = computed[b_i].data.len();
        let ghost b = ms[b_i as int];
        proof {
            assert(b.start == sum_lens(ms, b_i as int));
            assert(sieved(b));
            assert(b.start + b.marks.len() <= usize::MAX);
        }
        let mut v_idx: usize = 0;
        let mut stop = false;
        while v_idx < blen && !stop
            invariant
                completed_ok(ms),
                ms == views(computed@),
                b_i < computed@.len(),
                b == ms[b_i as int],
                ms[b_i as int] == computed@[b_i as int]@,
                bstart == b.start,
                blen == b.marks.len(),
                bstart + blen <= usize::MAX,
                v_idx <= blen,
                forall|t: int| 0 <= t < ps@.len() ==> is_prime((#[trigger] ps@[t]) as int),
                forall|t: int|
                    0 <= t < ps@.len() ==> ((#[trigger] ps@[t]) as int) * (ps@[t] as int) <= end,
                !stop ==> forall|q: int|
                    is_prime(q) && q < bstart + v_idx && q * q <= end ==> #[trigger] in_list(
                        ps@,
                        q,
                    ),
                stop ==> forall|q: int|
                    is_prime(q) && q * q <= end ==> #[trigger] in_list(ps@, q),
            decreases blen - v_idx,
        {
            let marked: bool = computed[b_i].data[v_idx];
            proof {
                assert(computed@[b_i as int]@.marks[v_idx as int] == b.marks[v_idx as int]);
                lemma_sieved_at(b, v_idx as int);
            }
            let ghost prev = ps@;
            if !marked {
                let v: usize = bstart + v_idx;
                proof {
                    assert(is_prime(v as int));
                }
                if v > end / v {
                    stop = true;
                    proof {
                        lemma_fundamental_div_mod(end as int, v as int);
                        assert((v as int) * (v as int) > end) by (nonlinear_arith)
                            requires
                                v as int > end as int / v as int,
                                v >= 2,
                                end == (v as int) * (end as int / v as int) + (end as int) % (
                                v as int),
                                0 <= (end as int) % (v as int) < v as int,
                        ;
                        assert forall|q: int| is_prime(q) && q * q <= end implies #[trigger] in_list(
                            ps@,
                            q,
                        ) by {
                            if q >= v {
                                assert(q * q > end) by (nonlinear_arith)
                                    requires
                                        q >= v as int,
                                        v >= 2,
                                        (v as int) * (v as int) > end,
                                ;
                            }
                        }
                    }
                } else {
                    proof {
                        lemma_fundamental_div_mod(end as int, v as int);
                        assert((v as int) * (v as int) <= end) by (nonlinear_arith)
                            requires
                                v as int <= end as int / v as int,
                                v >= 2,
                                end == (v as int) * (end as int / v as int) + (end as int) % (
                                v as int),
                                0 <= (end as int) % (v as int),
                        ;
                    }
                    ps.push(v);
                    proof {
                        assert(ps@[prev.len() as int] == v);
                        assert forall|q: int|
                            is_prime(q) && q < bstart + v_idx + 1 && q * q <= end implies #[trigger] in_list(
                            ps@,
                            q,
                        ) by {
                            if q < bstart + v_idx {
                                lemma_in_list_push(prev, v, q);
                            } else {
                                assert(q == v as int);
                                assert(ps@[prev.len() as int] == q);
                            }
                        }
                    }
                }
            } else {
                proof {
                    assert(!is_prime((bstart + v_idx) as int));
                    assert forall|q: int|
                        is_prime(q) && q < bstart + v_idx + 1 && q * q <= end implies #[trigger] in_list(
                        ps@,
                        q,
                    ) by {
                        assert(q != bstart + v_idx);
                    }
                }
            }
            v_idx += 1;
        }
        proof {
            assert(sum_lens(ms, b_i as int + 1) == sum_lens(ms, b_i as int) + b.marks.len());
            if !stop {
                assert(v_idx == blen);
            }
        }
        b_i += 1;
    }
    proof {
        assert(sum_lens(ms, ms.len() as int) == total_len(ms));
    }
    ps
}

} // verus!
