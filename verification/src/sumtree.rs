use vstd::pervasive::VecAdditionalExecFns;
use vstd::prelude::*;

use crate::errors::ReplayError;

verus! {

/// Largest leaf capacity a tree may be constructed with.  It keeps the node
/// array length `2 * padded - 1` and every index computation inside `usize`
/// on 32-bit as well as 64-bit platforms.
pub const MAX_CAPACITY: usize = 0x4000_0000;

/// True when `n` is a power of two.
pub open spec fn is_pow2(n: int) -> bool
    decreases n,
{
    if n <= 0 {
        false
    } else if n == 1 {
        true
    } else {
        n % 2 == 0 && is_pow2(n / 2)
    }
}

/// The sum of `w[lo..hi]` as an unbounded integer.
pub open spec fn range_sum(w: Seq<u64>, lo: int, hi: int) -> int
    decreases hi - lo,
{
    if lo >= hi {
        0
    } else {
        w[lo] + range_sum(w, lo + 1, hi)
    }
}

/// The total mass of a weight sequence: the sum of all its entries.
pub open spec fn sum_weights(w: Seq<u64>) -> int {
    range_sum(w, 0, w.len() as int)
}

/// The cumulative mass strictly before slot `k`.
pub open spec fn prefix_sum(w: Seq<u64>, k: int) -> int {
    range_sum(w, 0, k)
}

/// The slot on which the top-down cumulative-sum walk lands for input `u`:
/// the first slot whose cumulative interval contains `u`.  An input at or
/// past the total mass runs off the end and lands on the last slot.
pub open spec fn sample_index(w: Seq<u64>, u: int) -> int
    decreases w.len(),
{
    if w.len() <= 1 {
        0
    } else if u < w[0] {
        0
    } else {
        1 + sample_index(w.subrange(1, w.len() as int), u - w[0])
    }
}

/// A complete binary tree over a fixed array of non-negative weights.
///
/// Leaves hold the weights of `capacity` slots; every internal node holds the
/// sum of its two children, so the root holds the total mass.  Updating a
/// slot and sampling a slot proportionally to its weight both take
/// `O(log capacity)` node visits.  Internally the leaf row is padded to the
/// next power of two; padding leaves stay at weight zero forever.
pub struct SumTree {
    capacity: usize,
    padded: usize,
    nodes: Vec<u64>,
}

impl View for SumTree {
    type V = Seq<u64>;

    /// The tree viewed as its sequence of leaf weights, one per slot.
    closed spec fn view(&self) -> Seq<u64> {
        Seq::new(self.capacity as nat, |s: int| self.nodes@[self.padded - 1 + s])
    }
}

/// Number of leaves under node `m` of a perfect tree with `p` leaves laid
/// out heap-style (children of `m` at `2m+1` and `2m+2`).
spec fn blk_size(p: int, m: int) -> int
    decreases m,
{
    if m <= 0 {
        p
    } else {
        blk_size(p, (m - 1) / 2) / 2
    }
}

/// First leaf slot under node `m` of a perfect tree with `p` leaves.
spec fn blk_lo(p: int, m: int) -> int
    decreases m,
{
    if m <= 0 {
        0
    } else if m % 2 == 1 {
        blk_lo(p, (m - 1) / 2)
    } else {
        blk_lo(p, (m - 1) / 2) + blk_size(p, (m - 1) / 2) / 2
    }
}

proof fn lemma_range_sum_nonneg(w: Seq<u64>, lo: int, hi: int)
    ensures
        0 <= range_sum(w, lo, hi),
    decreases hi - lo,
{
    if lo < hi {
        lemma_range_sum_nonneg(w, lo + 1, hi);
    }
}

proof fn lemma_range_sum_split(w: Seq<u64>, lo: int, mid: int, hi: int)
    requires
        lo <= mid <= hi,
    ensures
        range_sum(w, lo, hi) == range_sum(w, lo, mid) + range_sum(w, mid, hi),
    decreases mid - lo,
{
    if lo < mid {
        lemma_range_sum_split(w, lo + 1, mid, hi);
    }
}

proof fn lemma_range_sum_agree(a: Seq<u64>, b: Seq<u64>, lo: int, hi: int)
    requires
        forall|i: int| lo <= i < hi ==> a[i] == b[i],
    ensures
        range_sum(a, lo, hi) == range_sum(b, lo, hi),
    decreases hi - lo,
{
    if lo < hi {
        lemma_range_sum_agree(a, b, lo + 1, hi);
    }
}

proof fn lemma_range_sum_zero(w: Seq<u64>, lo: int, hi: int)
    requires
        forall|i: int| lo <= i < hi ==> w[i] == 0,
    ensures
        range_sum(w, lo, hi) == 0,
    decreases hi - lo,
{
    if lo < hi {
        lemma_range_sum_zero(w, lo + 1, hi);
    }
}

proof fn lemma_range_sum_update(w: Seq<u64>, i: int, v: u64, lo: int, hi: int)
    requires
        0 <= i < w.len(),
        0 <= lo <= hi <= w.len(),
    ensures
        range_sum(w.update(i, v), lo, hi) == range_sum(w, lo, hi) + (
        if lo <= i < hi {
            v - w[i]
        } else {
            0
        }),
    decreases hi - lo,
{
    if lo < hi {
        lemma_range_sum_update(w, i, v, lo + 1, hi);
    }
}

proof fn lemma_range_sum_tail(w: Seq<u64>, lo: int, hi: int)
    requires
        1 <= lo <= hi <= w.len(),
    ensures
        range_sum(w, lo, hi) == range_sum(w.subrange(1, w.len() as int), lo - 1, hi - 1),
    decreases hi - lo,
{
    if lo < hi {
        lemma_range_sum_tail(w, lo + 1, hi);
    }
}

proof fn lemma_pow2_double(a: int, b: int)
    requires
        is_pow2(a),
        is_pow2(b),
        a < b,
    ensures
        2 * a <= b,
    decreases a,
{
    if a > 1 {
        lemma_pow2_double(a / 2, b / 2);
    }
}

/// Geometry of node `m` in a perfect tree with `p` leaves: its leaf block
/// `[blk_lo, blk_lo + blk_size)` is a power-of-two span inside `[0, p)`, the
/// node index determines the block through `(m + 1) * blk_size == p + blk_lo`,
/// and the leaf row is exactly the nodes with indices `p - 1` and above.
proof fn lemma_blk(p: int, m: int)
    requires
        is_pow2(p),
        0 <= m < 2 * p - 1,
    ensures
        1 <= blk_size(p, m),
        is_pow2(blk_size(p, m)),
        0 <= blk_lo(p, m),
        blk_lo(p, m) + blk_size(p, m) <= p,
        (m + 1) * blk_size(p, m) == p + blk_lo(p, m),
        m < p - 1 ==> 2 <= blk_size(p, m),
        p - 1 <= m ==> blk_size(p, m) == 1 && blk_lo(p, m) == m - (p - 1),
    decreases m,
{
    if m == 0 {
        assert((m + 1) * blk_size(p, m) == p + blk_lo(p, m)) by (nonlinear_arith)
            requires
                blk_size(p, m) == p,
                blk_lo(p, m) == 0,
                m == 0,
        ;
    } else {
        let mp = (m - 1) / 2;
        assert(0 <= mp < m);
        assert(mp <= p - 2);
        lemma_blk(p, mp);
        let sp = blk_size(p, mp);
        let lop = blk_lo(p, mp);
        assert(2 <= sp);
        assert(sp % 2 == 0 && is_pow2(sp / 2));
        let s = sp / 2;
        let lo = blk_lo(p, m);
        assert(blk_size(p, m) == s);
        if m % 2 == 1 {
            assert(m == 2 * mp + 1);
            assert(lo == lop);
            assert((m + 1) * s == p + lo) by (nonlinear_arith)
                requires
                    m == 2 * mp + 1,
                    sp == 2 * s,
                    (mp + 1) * sp == p + lop,
                    lo == lop,
            ;
        } else {
            assert(m == 2 * mp + 2);
            assert(lo == lop + s);
            assert((m + 1) * s == p + lo) by (nonlinear_arith)
                requires
                    m == 2 * mp + 2,
                    sp == 2 * s,
                    (mp + 1) * sp == p + lop,
                    lo == lop + s,
            ;
        }
        if p - 1 <= m {
            if 2 <= s {
                assert(false) by (nonlinear_arith)
                    requires
                        p <= m + 1,
                        2 <= s,
                        lo <= p - s,
                        0 <= lo,
                        (m + 1) * s == p + lo,
                        1 <= p,
                ;
            }
        }
        if m < p - 1 {
            if s == 1 {
                assert(m + 1 == p + lo);
                assert(false);
            }
        }
    }
}

/// During upward repropagation of a weight change at `slot`, after node `k`
/// was the last one updated: node `m` still awaits the delta exactly when its
/// block strictly contains the block of `k` (every such block contains
/// `slot`).
spec fn awaiting(p: int, m: int, k: int, slot: int) -> bool {
    blk_size(p, m) > blk_size(p, k) && blk_lo(p, m) <= slot < blk_lo(p, m) + blk_size(p, m)
}

/// Invariant of the upward climb in `SumTree::set`: with `cf` the padded leaf
/// row after the change, every node already holds its block sum over `cf`,
/// except the nodes still awaiting the delta, which are off by exactly
/// `old_w - new_w`.
spec fn climb_ok(
    nodes: Seq<u64>,
    cf: Seq<u64>,
    p: int,
    k: int,
    slot: int,
    old_w: u64,
    new_w: u64,
) -> bool {
    forall|m: int|
        0 <= m < 2 * p - 1 ==> #[trigger] nodes[m] as int == range_sum(
            cf,
            blk_lo(p, m),
            blk_lo(p, m) + blk_size(p, m),
        ) + (
        if awaiting(p, m, k, slot) {
            old_w - new_w
        } else {
            0
        })
}

/// Two nodes of the same block size whose blocks share a leaf are the same
/// node.
proof fn lemma_blk_unique(p: int, m1: int, m2: int, x: int)
    requires
        is_pow2(p),
        0 <= m1 < 2 * p - 1,
        0 <= m2 < 2 * p - 1,
        blk_size(p, m1) == blk_size(p, m2),
        blk_lo(p, m1) <= x < blk_lo(p, m1) + blk_size(p, m1),
        blk_lo(p, m2) <= x < blk_lo(p, m2) + blk_size(p, m2),
    ensures
        m1 == m2,
{
    lemma_blk(p, m1);
    lemma_blk(p, m2);
    let s = blk_size(p, m1);
    let lo1 = blk_lo(p, m1);
    let lo2 = blk_lo(p, m2);
    assert((m1 - m2) * s == lo1 - lo2) by (nonlinear_arith)
        requires
            (m1 + 1) * s == p + lo1,
            (m2 + 1) * s == p + lo2,
    ;
    assert(m1 == m2) by (nonlinear_arith)
        requires
            (m1 - m2) * s == lo1 - lo2,
            -s < lo1 - lo2 < s,
            1 <= s,
    ;
}

impl SumTree {
    /// The full padded leaf row, including the permanently zero padding
    /// leaves past `capacity`.
    closed spec fn full_leaves(&self) -> Seq<u64> {
        Seq::new(self.padded as nat, |s: int| self.nodes@[self.padded - 1 + s])
    }

    /// The number of leaf slots the tree was constructed with.
    pub closed spec fn capacity_spec(&self) -> int {
        self.capacity as int
    }

    /// The total mass: the sum of all leaf weights.
    pub open spec fn total_spec(&self) -> int {
        sum_weights(self@)
    }

    /// Structural well-formedness: the node array is a perfect heap-shaped
    /// tree over the padded leaf row, every internal node is the sum of its
    /// children, and the padding leaves are zero.
    pub closed spec fn wf(&self) -> bool {
        &&& 1 <= self.capacity <= MAX_CAPACITY
        &&& self.capacity <= self.padded < 2 * self.capacity
        &&& is_pow2(self.padded as int)
        &&& self.nodes@.len() == 2 * self.padded - 1
        &&& forall|i: int|
            0 <= i < self.padded - 1 ==> self.nodes@[i] as int == #[trigger] self.nodes@[2 * i
                + 1] as int + self.nodes@[2 * i + 2] as int
        &&& forall|s: int|
            self.capacity <= s < self.padded ==> #[trigger] self.nodes@[self.padded - 1 + s] == 0
    }

    /// Constructs a tree with the given number of leaf slots, all weights
    /// zero.
    pub fn new(capacity: usize) -> (r: SumTree)
        requires
            1 <= capacity <= MAX_CAPACITY,
        ensures
            r.wf(),
            r.capacity_spec() == capacity,
            r@.len() == capacity as int,
            forall|i: int| 0 <= i < capacity ==> r@[i] == 0,
            r.total_spec() == 0,
    {
        let mut padded: usize = 1;
        while padded < capacity
            invariant
                1 <= capacity <= MAX_CAPACITY,
                is_pow2(padded as int),
                1 <= padded < 2 * capacity,
            decreases 2 * capacity - padded,
        {
            padded = 2 * padded;
        }
        let len = 2 * padded - 1;
        let mut nodes: Vec<u64> = Vec::new();
        while nodes.len() < len
            invariant
                nodes@.len() <= len,
                forall|i: int| 0 <= i < nodes@.len() ==> nodes@[i] == 0,
            decreases len - nodes@.len(),
        {
            nodes.push(0u64);
        }
        let r = SumTree { capacity, padded, nodes };
        proof {
            lemma_range_sum_zero(r@, 0, r@.len() as int);
        }
        r
    }

    /// The number of leaf slots.
    pub fn capacity(&self) -> (r: usize)
        ensures
            r as int == self.capacity_spec(),
    {
        self.capacity
    }

    /// Reads the weight of one slot.
    pub fn get(&self, slot: usize) -> (r: Result<u64, ReplayError>)
        requires
            self.wf(),
        ensures
            slot < self.capacity_spec() ==> r == Ok::<u64, ReplayError>(self@[slot as int]),
            slot >= self.capacity_spec() ==> r == Err::<u64, ReplayError>(
                ReplayError::IndexOutOfRange,
            ),
    {
        if slot >= self.capacity {
            Err(ReplayError::IndexOutOfRange)
        } else {
            Ok(self.nodes[self.padded - 1 + slot])
        }
    }

    /// Returns the total mass: the sum of all current leaf weights.
    pub fn total(&self) -> (r: u64)
        requires
            self.wf(),
        ensures
            r as int == self.total_spec(),
    {
        proof {
            self.lemma_root_is_total();
        }
        self.nodes[0]
    }

    /// Sets the weight of one slot and propagates the delta `weight - old`
    /// up to the root, adjusting each ancestor's stored sum in
    /// `O(log capacity)` steps.
    ///
    /// The arithmetic precondition only demands that the new total mass fit
    /// in `u64`; it is trivially met whenever the weight does not grow.
    pub fn set(&mut self, slot: usize, weight: u64) -> (r: Result<(), ReplayError>)
        requires
            old(self).wf(),
            slot < old(self).capacity_spec() ==> old(self).total_spec() - old(self)@[slot as int]
                + weight <= u64::MAX,
        ensures
            final(self).wf(),
            final(self).capacity_spec() == old(self).capacity_spec(),
            slot >= old(self).capacity_spec() ==> r == Err::<(), ReplayError>(
                ReplayError::IndexOutOfRange,
            ) && *final(self) == *old(self),
            slot < old(self).capacity_spec() ==> r == Ok::<(), ReplayError>(()) && final(self)@
                == old(self)@.update(slot as int, weight) && final(self).total_spec() == old(
                self,
            ).total_spec() - old(self)@[slot as int] + weight,
    {
        if slot >= self.capacity {
            return Err(ReplayError::IndexOutOfRange);
        }
        let ghost p = self.padded as int;
        let ghost c = self.capacity as int;
        let ghost old_full = self.full_leaves();
        let leaf = self.padded - 1 + slot;
        let old_w = self.nodes[leaf];
        let ghost cf = old_full.update(slot as int, weight);
        proof {
            assert(old_w == old_full[slot as int]);
            assert(old_full[slot as int] == old(self)@[slot as int]);
            assert forall|m: int| 0 <= m < 2 * p - 1 implies #[trigger] old(
                self,
            ).nodes@[m] as int == range_sum(
                old_full,
                blk_lo(p, m),
                blk_lo(p, m) + blk_size(p, m),
            ) by {
                lemma_node_sum(*old(self), m);
            }
            old(self).lemma_root_is_total();
            lemma_range_sum_update(old_full, slot as int, weight, 0, p);
            lemma_range_sum_split(old_full, 0, c, p);
            lemma_range_sum_zero(old_full, c, p);
            lemma_range_sum_agree(old(self)@, old_full, 0, c);
            assert(blk_lo(p, 0) == 0 && blk_size(p, 0) == p);
            assert(range_sum(cf, 0, p) == old(self).total_spec() - old_w + weight);
        }
        self.nodes.set(leaf, weight);
        proof {
            lemma_blk(p, leaf as int);
            assert(self.full_leaves() =~= cf);
            assert forall|m: int| 0 <= m < 2 * p - 1 implies #[trigger] self.nodes@[m] as int
                == range_sum(cf, blk_lo(p, m), blk_lo(p, m) + blk_size(p, m)) + (
            if awaiting(p, m, leaf as int, slot as int) {
                old_w - weight
            } else {
                0
            }) by {
                lemma_blk(p, m);
                let lo = blk_lo(p, m);
                let s = blk_size(p, m);
                if m == leaf as int {
                    assert(range_sum(cf, lo + 1, lo + 1) == 0);
                    assert(range_sum(cf, lo, lo + 1) == cf[lo]);
                    assert(!awaiting(p, m, leaf as int, slot as int));
                } else {
                    assert(self.nodes@[m] == old(self).nodes@[m]);
                    lemma_range_sum_update(old_full, slot as int, weight, lo, lo + s);
                    if lo <= slot as int && (slot as int) < lo + s {
                        if s == 1 {
                            assert(lo == slot as int);
                            assert(m == p - 1 + lo);
                            assert(false);
                        }
                        assert(awaiting(p, m, leaf as int, slot as int));
                    } else {
                        assert(!awaiting(p, m, leaf as int, slot as int));
                    }
                }
            }
        }
        let mut k = leaf;
        while k > 0
            invariant
                self.capacity as int == c,
                self.padded as int == p,
                1 <= self.capacity <= MAX_CAPACITY,
                self.capacity <= self.padded < 2 * self.capacity,
                is_pow2(p),
                self.nodes@.len() == 2 * p - 1,
                0 <= k < 2 * p - 1,
                (slot as int) < c,
                blk_lo(p, k as int) <= (slot as int) < blk_lo(p, k as int) + blk_size(p, k as int),
                self.full_leaves() == cf,
                cf == old_full.update(slot as int, weight),
                old_w == old_full[slot as int],
                range_sum(cf, 0, p) <= u64::MAX,
                climb_ok(self.nodes@, cf, p, k as int, slot as int, old_w, weight),
            decreases k,
        {
            let parent = (k - 1) / 2;
            let ghost kk = k as int;
            let ghost pp = parent as int;
            proof {
                lemma_blk(p, kk);
                lemma_blk(p, pp);
                assert(kk == 2 * pp + 1 || kk == 2 * pp + 2);
                assert(blk_size(p, kk) == blk_size(p, pp) / 2);
                assert(blk_size(p, pp) == 2 * blk_size(p, kk));
                assert(blk_lo(p, pp) <= (slot as int) < blk_lo(p, pp) + blk_size(p, pp));
                assert(awaiting(p, pp, kk, slot as int));
                let lo = blk_lo(p, pp);
                let hi = blk_lo(p, pp) + blk_size(p, pp);
                assert(self.nodes@[pp] as int == range_sum(cf, lo, hi) + old_w - weight);
                lemma_range_sum_nonneg(cf, lo, hi);
                lemma_range_sum_nonneg(cf, 0, lo);
                lemma_range_sum_nonneg(cf, hi, p);
                lemma_range_sum_split(cf, 0, lo, p);
                lemma_range_sum_split(cf, lo, hi, p);
            }
            let nk = self.nodes[parent];
            let updated = if weight >= old_w {
                nk + (weight - old_w)
            } else {
                nk - (old_w - weight)
            };
            let ghost pre = self.nodes@;
            self.nodes.set(parent, updated);
            proof {
                assert forall|s2: int| 0 <= s2 < p implies #[trigger] self.nodes@[p - 1 + s2]
                    == cf[s2] by {
                    assert(pre[p - 1 + s2] == cf[s2]);
                }
                assert(self.full_leaves() =~= cf);
                assert forall|m: int| 0 <= m < 2 * p - 1 implies #[trigger] self.nodes@[m] as int
                    == range_sum(cf, blk_lo(p, m), blk_lo(p, m) + blk_size(p, m)) + (
                if awaiting(p, m, pp, slot as int) {
                    old_w - weight
                } else {
                    0
                }) by {
                    lemma_blk(p, m);
                    if m == pp {
                        assert(!awaiting(p, m, pp, slot as int));
                    } else {
                        assert(self.nodes@[m] == pre[m]);
                        if awaiting(p, m, pp, slot as int) {
                            assert(awaiting(p, m, kk, slot as int));
                        } else {
                            if awaiting(p, m, kk, slot as int) {
                                lemma_pow2_double(blk_size(p, kk), blk_size(p, m));
                                assert(blk_size(p, m) == blk_size(p, pp));
                                lemma_blk_unique(p, m, pp, slot as int);
                                assert(false);
                            }
                        }
                    }
                }
            }
            k = parent;
        }
        proof {
            assert forall|m: int| 0 <= m < 2 * p - 1 implies #[trigger] self.nodes@[m] as int
                == range_sum(cf, blk_lo(p, m), blk_lo(p, m) + blk_size(p, m)) by {
                lemma_blk(p, m);
                assert(blk_size(p, 0) == p);
                assert(!awaiting(p, m, 0, slot as int));
            }
            assert forall|i: int|
                0 <= i < p - 1 implies self.nodes@[i] as int == #[trigger] self.nodes@[2 * i
                + 1] as int + self.nodes@[2 * i + 2] as int by {
                lemma_blk(p, i);
                let lo = blk_lo(p, i);
                let s = blk_size(p, i);
                assert(blk_size(p, 2 * i + 1) == s / 2);
                assert(blk_lo(p, 2 * i + 1) == lo);
                assert(blk_size(p, 2 * i + 2) == s / 2);
                assert(blk_lo(p, 2 * i + 2) == lo + s / 2);
                lemma_range_sum_split(cf, lo, lo + s / 2, lo + s);
            }
            assert forall|i: int| 0 <= i < p implies #[trigger] self.nodes@[p - 1 + i]
                == cf[i] by {
                lemma_blk(p, p - 1 + i);
                assert(blk_lo(p, p - 1 + i) == i && blk_size(p, p - 1 + i) == 1);
                assert(range_sum(cf, i + 1, i + 1) == 0);
                assert(range_sum(cf, i, i + 1) == cf[i]);
            }
            assert forall|s2: int| c <= s2 < p implies #[trigger] self.nodes@[self.padded - 1
                + s2] == 0 by {
                assert(old(self).nodes@[old(self).padded - 1 + s2] == 0);
                assert(cf[s2] == old_full[s2]);
            }
            assert(self.wf());
            assert forall|i: int| 0 <= i < c implies self@[i] == old(self)@.update(
                slot as int,
                weight,
            )[i] by {
                assert(self.nodes@[p - 1 + i] == cf[i]);
                assert(old(self)@[i] == old_full[i]);
            }
            assert(self@ =~= old(self)@.update(slot as int, weight));
            assert forall|i: int| 0 <= i < c implies self@[i] == cf[i] by {
                assert(self.nodes@[p - 1 + i] == cf[i]);
            }
            lemma_range_sum_agree(self@, cf, 0, c);
            lemma_range_sum_split(cf, 0, c, p);
            assert forall|s2: int| c <= s2 < p implies #[trigger] cf[s2] == 0 by {
                assert(old(self).nodes@[old(self).padded - 1 + s2] == 0);
            }
            lemma_range_sum_zero(cf, c, p);
            assert(self.total_spec() == range_sum(cf, 0, p));
        }
        Ok(())
    }

    /// Draws the slot whose cumulative-weight interval contains `u`, walking
    /// from the root down to a leaf in `O(log capacity)` steps.
    ///
    /// A tree with total mass zero is reported as an error.  An input at or
    /// past the total mass is clamped to the last unit of mass, so a slot is
    /// returned whenever the total is positive; the returned slot always
    /// carries positive weight.
    pub fn sample(&self, u: u64) -> (r: Result<usize, ReplayError>)
        requires
            self.wf(),
        ensures
            self.total_spec() == 0 <==> r == Err::<usize, ReplayError>(ReplayError::EmptyTree),
            self.total_spec() > 0 ==> {
                let u0 = if u < self.total_spec() {
                    u as int
                } else {
                    self.total_spec() - 1
                };
                &&& r is Ok
                &&& r->Ok_0 as int == sample_index(self@, u0)
                &&& r->Ok_0 < self.capacity_spec()
                &&& self@[r->Ok_0 as int] > 0
                &&& prefix_sum(self@, r->Ok_0 as int) <= u0 < prefix_sum(self@, r->Ok_0 as int)
                    + self@[r->Ok_0 as int]
            },
    {
        let total = self.total();
        if total == 0 {
            return Err(ReplayError::EmptyTree);
        }
        let u0 = if u >= total { total - 1 } else { u };
        let ghost p = self.padded as int;
        let ghost c = self.capacity as int;
        let ghost full = self.full_leaves();
        let ghost uu = u0 as int;
        proof {
            lemma_node_sum(*self, 0);
            self.lemma_root_is_total();
            assert(blk_lo(p, 0) == 0 && blk_size(p, 0) == p);
            assert(range_sum(full, 0, 0) == 0);
        }
        let mut k: usize = 0;
        let mut rem = u0;
        while k < self.padded - 1
            invariant
                self.wf(),
                p == self.padded as int,
                c == self.capacity as int,
                full == self.full_leaves(),
                0 <= k < 2 * p - 1,
                0 <= uu,
                rem as int == uu - range_sum(full, 0, blk_lo(p, k as int)),
                (rem as int) < range_sum(
                    full,
                    blk_lo(p, k as int),
                    blk_lo(p, k as int) + blk_size(p, k as int),
                ),
            decreases 2 * p - k,
        {
            let ghost kk = k as int;
            proof {
                lemma_blk(p, kk);
                lemma_node_sum(*self, 2 * kk + 1);
                lemma_node_sum(*self, 2 * kk + 2);
                assert(blk_size(p, 2 * kk + 1) == blk_size(p, kk) / 2);
                assert(blk_lo(p, 2 * kk + 1) == blk_lo(p, kk));
                assert(blk_size(p, 2 * kk + 2) == blk_size(p, kk) / 2);
                assert(blk_lo(p, 2 * kk + 2) == blk_lo(p, kk) + blk_size(p, kk) / 2);
                let lo = blk_lo(p, kk);
                let s = blk_size(p, kk);
                lemma_range_sum_split(full, lo, lo + s / 2, lo + s);
                lemma_range_sum_split(full, 0, lo, lo + s / 2);
            }
            let left = self.nodes[2 * k + 1];
            if rem < left {
                k = 2 * k + 1;
            } else {
                rem = rem - left;
                k = 2 * k + 2;
            }
        }
        let slot = k - (self.padded - 1);
        proof {
            lemma_blk(p, k as int);
            assert(blk_lo(p, k as int) == slot as int && blk_size(p, k as int) == 1);
            assert(range_sum(full, slot as int + 1, slot as int + 1) == 0);
            assert(range_sum(full, slot as int, slot as int + 1) == full[slot as int]);
            if slot >= self.capacity {
                assert(self.nodes@[self.padded - 1 + slot as int] == 0);
                assert(full[slot as int] == 0);
                assert(false);
            }
            assert forall|i: int| 0 <= i < slot as int implies self@[i] == full[i] by {}
            lemma_range_sum_agree(self@, full, 0, slot as int);
            assert(self@[slot as int] == full[slot as int]);
            lemma_sample_index_window(self@, uu, slot as int);
        }
        Ok(slot)
    }

    /// The total mass of a well-formed tree fits in `u64`, and each slot's
    /// weight is at most the total.
    pub proof fn lemma_total_bounds(&self)
        requires
            self.wf(),
        ensures
            0 <= self.total_spec() <= u64::MAX,
            forall|i: int| 0 <= i < self@.len() ==> #[trigger] self@[i] <= self.total_spec(),
    {
        self.lemma_root_is_total();
        let c = self.capacity as int;
        lemma_range_sum_nonneg(self@, 0, c);
        assert forall|i: int| 0 <= i < self@.len() implies #[trigger] self@[i]
            <= self.total_spec() by {
            lemma_range_sum_split(self@, 0, i, c);
            lemma_range_sum_split(self@, i, i + 1, c);
            assert(range_sum(self@, i + 1, i + 1) == 0);
            assert(range_sum(self@, i, i + 1) == self@[i] + range_sum(self@, i + 1, i + 1));
            lemma_range_sum_nonneg(self@, 0, i);
            lemma_range_sum_nonneg(self@, i + 1, c);
        }
    }

    /// The root node holds the sum of the visible leaf weights.
    proof fn lemma_root_is_total(&self)
        requires
            self.wf(),
        ensures
            self.nodes@[0] as int == self.total_spec(),
    {
        let p = self.padded as int;
        let c = self.capacity as int;
        lemma_node_sum(*self, 0);
        lemma_range_sum_split(self.full_leaves(), 0, c, p);
        lemma_range_sum_zero(self.full_leaves(), c, p);
        lemma_range_sum_agree(self@, self.full_leaves(), 0, c);
    }
}

/// In a well-formed tree every node holds the sum of the padded leaf weights
/// in its block.
proof fn lemma_node_sum(t: SumTree, m: int)
    requires
        t.wf(),
        0 <= m < 2 * t.padded - 1,
    ensures
        t.nodes@[m] as int == range_sum(
            t.full_leaves(),
            blk_lo(t.padded as int, m),
            blk_lo(t.padded as int, m) + blk_size(t.padded as int, m),
        ),
    decreases 2 * (t.padded as int) - m,
{
    let p = t.padded as int;
    let full = t.full_leaves();
    lemma_blk(p, m);
    let lo = blk_lo(p, m);
    let s = blk_size(p, m);
    if p - 1 <= m {
        assert(full[lo] == t.nodes@[p - 1 + lo]);
        assert(range_sum(full, lo + 1, lo + 1) == 0);
        assert(range_sum(full, lo, lo + 1) == full[lo]);
    } else {
        lemma_node_sum(t, 2 * m + 1);
        lemma_node_sum(t, 2 * m + 2);
        assert(blk_size(p, 2 * m + 1) == s / 2);
        assert(blk_lo(p, 2 * m + 1) == lo);
        assert(blk_size(p, 2 * m + 2) == s / 2);
        assert(blk_lo(p, 2 * m + 2) == lo + s / 2);
        assert(s / 2 + s / 2 == s);
        lemma_range_sum_split(full, lo, lo + s / 2, lo + s);
        assert(t.nodes@[m] as int == t.nodes@[2 * m + 1] as int + t.nodes@[2 * m + 2] as int);
    }
}

/// An input inside slot `i`'s cumulative interval makes the walk land on `i`.
proof fn lemma_sample_index_window(w: Seq<u64>, u: int, i: int)
    requires
        0 <= i < w.len(),
        prefix_sum(w, i) <= u < prefix_sum(w, i) + w[i],
    ensures
        sample_index(w, u) == i,
    decreases i,
{
    if i == 0 {
        assert(range_sum(w, 0, 0) == 0);
    } else {
        lemma_range_sum_nonneg(w, 1, i);
        assert(prefix_sum(w, i) == w[0] + range_sum(w, 1, i));
        let t = w.subrange(1, w.len() as int);
        lemma_range_sum_tail(w, 1, i);
        assert(t[i - 1] == w[i]);
        lemma_sample_index_window(t, u - w[0], i - 1);
    }
}

/// For an input within the total mass, the walk lands inside `[0, len)` and
/// the input lies in the landed slot's cumulative interval.
proof fn lemma_sample_index_in_window(w: Seq<u64>, u: int)
    requires
        1 <= w.len(),
        0 <= u < sum_weights(w),
    ensures
        0 <= sample_index(w, u) < w.len(),
        prefix_sum(w, sample_index(w, u)) <= u,
        u < prefix_sum(w, sample_index(w, u)) + w[sample_index(w, u)],
    decreases w.len(),
{
    if w.len() == 1 {
        assert(range_sum(w, 1, 1) == 0);
        assert(sum_weights(w) == w[0] + range_sum(w, 1, 1));
        assert(range_sum(w, 0, 0) == 0);
    } else if u < w[0] {
        assert(range_sum(w, 0, 0) == 0);
    } else {
        let t = w.subrange(1, w.len() as int);
        assert(sum_weights(w) == w[0] + range_sum(w, 1, w.len() as int));
        lemma_range_sum_tail(w, 1, w.len() as int);
        lemma_sample_index_in_window(t, u - w[0]);
        let j = sample_index(t, u - w[0]);
        assert(sample_index(w, u) == 1 + j);
        lemma_range_sum_tail(w, 1, 1 + j);
        assert(prefix_sum(w, 1 + j) == w[0] + range_sum(w, 1, 1 + j));
        assert(t[j] == w[1 + j]);
    }
}

/// Law: for inputs within the total mass, the cumulative-sum walk partitions
/// the inputs among the slots — input `u` lands on slot `i` exactly when `u`
/// lies in the cumulative interval `[prefix_sum(w, i), prefix_sum(w, i) + w[i])`.
/// Hence exactly `w[i]` of the `sum_weights(w)` integer inputs land on slot
/// `i`: under uniformly distributed inputs each slot is drawn with
/// probability `w[i] / sum_weights(w)`.
pub proof fn lemma_sample_partition(w: Seq<u64>, u: int, i: int)
    requires
        1 <= w.len(),
        0 <= u < sum_weights(w),
        0 <= i < w.len(),
    ensures
        sample_index(w, u) == i <==> (prefix_sum(w, i) <= u < prefix_sum(w, i) + w[i]),
{
    lemma_sample_index_in_window(w, u);
    if prefix_sum(w, i) <= u < prefix_sum(w, i) + w[i] {
        lemma_sample_index_window(w, u, i);
    }
}

/// Law: of the `sum_weights(w)` integer inputs `0 <= u < sum_weights(w)`,
/// exactly `w[i]` land on slot `i` — so under uniformly distributed inputs a
/// slot is drawn with probability exactly `w[i] / sum_weights(w)`.
pub proof fn lemma_sample_frequency(w: Seq<u64>, i: int)
    requires
        1 <= w.len(),
        0 <= i < w.len(),
    ensures
        Set::new(|u: int| 0 <= u < sum_weights(w) && sample_index(w, u) == i).finite(),
        Set::new(|u: int| 0 <= u < sum_weights(w) && sample_index(w, u) == i).len() == w[i],
{
    let landing = Set::new(|u: int| 0 <= u < sum_weights(w) && sample_index(w, u) == i);
    let lo = prefix_sum(w, i);
    let hi = prefix_sum(w, i) + w[i];
    lemma_range_sum_nonneg(w, 0, i);
    lemma_range_sum_nonneg(w, i + 1, w.len() as int);
    lemma_range_sum_split(w, 0, i, w.len() as int);
    lemma_range_sum_split(w, i, i + 1, w.len() as int);
    assert(range_sum(w, i + 1, i + 1) == 0);
    assert(range_sum(w, i, i + 1) == w[i] + range_sum(w, i + 1, i + 1));
    assert(0 <= lo && hi <= sum_weights(w));
    assert forall|u: int| landing.contains(u) <==> vstd::set_lib::set_int_range(lo, hi).contains(
        u,
    ) by {
        if 0 <= u < sum_weights(w) {
            lemma_sample_partition(w, u, i);
        }
    }
    assert(landing =~= vstd::set_lib::set_int_range(lo, hi));
    vstd::set_lib::lemma_int_range(lo, hi);
}

} // verus!
