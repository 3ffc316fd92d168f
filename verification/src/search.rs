use vstd::prelude::*;
use crate::oracle::Oracle;
use crate::register::CancelRegister;
use crate::worker::Outcome;
use crate::worker::first_match_from;
use crate::worker::lemma_first_match_props;
use crate::worker::run_block;
use crate::worker::scan_end;
use crate::worker::scan_limit;
use crate::worker::scanned_set;

verus! {

/// The Coordinator's state machine.
#[derive(Clone, Copy, PartialEq, Eq, Structural, Debug)]
pub enum Phase {
    /// The pool is kept populated; finished Workers are replaced.
    Running,
    /// A match was found: no new blocks are dispatched, in-flight Workers
    /// drain to their own terminal state (one may still hold a smaller match).
    MatchDraining,
    /// External cancellation: same draining discipline, no result expected.
    CancelDraining,
    /// No Workers remain; the aggregate result is final.
    Done,
}

/// Whether index `i` lies inside one of the blocks in `blocks`, each of width
/// `size`.
pub open spec fn covered_by(blocks: Seq<u32>, size: u32, i: int) -> bool {
    exists|k: int| 0 <= k < blocks.len() && (#[trigger] blocks[k]) <= i < blocks[k] + size
}

/// Removing slot `k` by a last-slot swap (the way a finished Worker leaves
/// the pool) keeps every covered index covered by one of the other blocks.
proof fn lemma_covered_after_swap_remove(pre: Seq<u32>, k: int, size: u32, i: int)
    requires
        0 <= k < pre.len(),
        covered_by(pre.update(k, pre.last()).drop_last(), size, i),
    ensures
        exists|m: int| 0 <= m < pre.len() && m != k && (#[trigger] pre[m]) <= i < pre[m] + size,
{
    let post = pre.update(k, pre.last()).drop_last();
    let j = choose|j: int| 0 <= j < post.len() && (#[trigger] post[j]) <= i < post[j] + size;
    if j == k {
        assert(post[j] == pre[pre.len() - 1]);
        assert(pre[pre.len() - 1] <= i < pre[pre.len() - 1] + size);
    } else {
        assert(post[j] == pre[j]);
        assert(pre[j] <= i < pre[j] + size);
    }
}

/// An index covered by a block other than slot `k` stays covered after the
/// last-slot swap that removes slot `k`.
proof fn lemma_covered_before_swap_remove(pre: Seq<u32>, k: int, size: u32, i: int)
    requires
        0 <= k < pre.len(),
        covered_by(pre, size, i),
        !(pre[k] <= i < pre[k] + size),
    ensures
        covered_by(pre.update(k, pre.last()).drop_last(), size, i),
{
    let post = pre.update(k, pre.last()).drop_last();
    let j = choose|j: int| 0 <= j < pre.len() && (#[trigger] pre[j]) <= i < pre[j] + size;
    if j == pre.len() - 1 {
        assert(post[k] == pre[pre.len() - 1]);
        assert(post[k] <= i < post[k] + size);
    } else {
        assert(post[j] == pre[j]);
        assert(post[j] <= i < post[j] + size);
    }
}

/// Appending a block covers exactly the old blocks' indices plus the new
/// block's own range.
proof fn lemma_covered_push_cases(blocks: Seq<u32>, b: u32, size: u32, i: int)
    ensures
        covered_by(blocks.push(b), size, i) <==> (covered_by(blocks, size, i) || (b <= i && i < b
            + size)),
{
    if covered_by(blocks.push(b), size, i) {
        let j = choose|j: int|
            0 <= j < blocks.push(b).len() && (#[trigger] blocks.push(b)[j]) <= i < blocks.push(b)[j]
                + size;
        if j < blocks.len() {
            assert(blocks[j] <= i < blocks[j] + size);
        } else {
            assert(blocks.push(b)[j] == b);
        }
    }
    if covered_by(blocks, size, i) {
        let j = choose|j: int| 0 <= j < blocks.len() && (#[trigger] blocks[j]) <= i < blocks[j] + size;
        assert(blocks.push(b)[j] == blocks[j]);
        assert(blocks.push(b)[j] <= i < blocks.push(b)[j] + size);
    }
    if b <= i && i < b + size {
        assert(blocks.push(b)[blocks.len() as int] == b);
        assert(blocks.push(b)[blocks.len() as int] <= i < blocks.push(b)[blocks.len() as int]
            + size);
    }
}

/// The Dispatcher/Coordinator: owns the pool of in-flight blocks, hands out
/// blocks in increasing order with no gaps and no overlaps, records every
/// `Found` outcome, and lowers the Cancellation Register when a match is
/// reported.
///
/// This drives the search one Worker completion at a time: `poll_at` lets the
/// caller pick which in-flight Worker finishes next, so every completion
/// order of a concurrent pool can be played out, and the invariants below
/// hold for all of them.
pub struct Search<O: Oracle> {
    /// The predicate oracle; pure and deterministic.
    pub oracle: O,
    /// How many Workers are kept in flight while running.
    pub pool_size: usize,
    /// The width of every block, fixed per run.
    pub block_size: u32,
    /// The first index of the domain.
    pub domain_start: u32,
    /// The start of the next unclaimed block; everything below it has been
    /// dispatched.
    pub next_block: u32,
    /// The shared Cancellation Register.
    pub register: CancelRegister,
    /// The starts of the blocks currently assigned to in-flight Workers.
    pub active: Vec<u32>,
    /// Every `Found` index reported over the run's lifetime.
    pub found: Vec<u32>,
    pub phase: Phase,
    /// Whether external cancellation was requested.
    pub cancelled: bool,
    /// The set of domain indices evaluated so far (each exactly once: see
    /// the disjointness clause of `poll_at`).
    pub evaluated: Ghost<Set<int>>,
}

impl<O: Oracle> Search<O> {
    /// Index `i` lies in a block currently assigned to an in-flight Worker.
    pub open spec fn in_active_block(&self, i: int) -> bool {
        covered_by(self.active@, self.block_size, i)
    }

    /// The Coordinator's region bookkeeping, kept even while the pool is
    /// between a Worker's retirement and its replacement.
    pub open spec fn inv_core(&self) -> bool {
        &&& self.block_size >= 1
        &&& self.pool_size >= 1
        &&& self.domain_start <= self.next_block
        &&& self.active@.len() <= self.pool_size
        // every active block was dispatched: it fits below next_block
        &&& forall|k: int|
            0 <= k < self.active@.len() ==> self.domain_start <= #[trigger] self.active@[k]
                && self.active@[k] + self.block_size <= self.next_block
        // active blocks never overlap
        &&& forall|k1: int, k2: int|
            0 <= k1 < self.active@.len() && 0 <= k2 < self.active@.len() && k1 != k2
                ==> #[trigger] self.active@[k1] + self.block_size <= #[trigger] self.active@[k2]
                || self.active@[k2] + self.block_size <= self.active@[k1]
        // the dispatched region below the ceiling, outside the in-flight
        // blocks, holds no match
        &&& forall|i: int|
            self.domain_start <= i < self.register.ceiling() && i < self.next_block
                && !self.in_active_block(i) ==> !(#[trigger] self.oracle.matches(i as u32))
        // ... and was evaluated (no index is skipped)
        &&& forall|i: int|
            self.domain_start <= i < self.register.ceiling() && i < self.next_block
                && !self.in_active_block(i) ==> #[trigger] self.evaluated@.contains(i)
        // evaluation happens only in completed territory
        &&& forall|i: int| #[trigger]
            self.evaluated@.contains(i) ==> self.domain_start <= i < self.next_block
                && !self.in_active_block(i)
        // every recorded find is a real match in the dispatched region, and
        // the ceiling never rose above one
        &&& forall|k: int|
            0 <= k < self.found@.len() ==> self.oracle.matches(#[trigger] self.found@[k])
                && self.domain_start <= self.found@[k] && self.found@[k] < self.next_block
                && self.register.ceiling() <= self.found@[k]
        // ceiling provenance: unbounded until the first find, then the least
        // find; forced to the domain minimum by cancellation
        &&& (!self.cancelled && self.found@.len() == 0 ==> self.register.ceiling() == u32::MAX)
        &&& (!self.cancelled && self.found@.len() > 0 ==> self.found@.contains(
            self.register.ceiling(),
        ))
        &&& (self.cancelled ==> self.register.ceiling() == 0)
    }

    /// The Coordinator's invariant: region bookkeeping plus phase discipline.
    pub open spec fn wf(&self) -> bool {
        &&& self.inv_core()
        &&& (self.phase is Running ==> !self.cancelled && self.found@.len() == 0)
        &&& (self.cancelled ==> !(self.phase is Running))
        &&& (self.found@.len() > 0 ==> !(self.phase is Running))
        &&& ((self.phase is Done) <==> self.active@.len() == 0)
    }

    /// Begins a run: seeds the pool with the first blocks of the domain, one
    /// per Worker, consecutive and non-overlapping, and leaves the
    /// Cancellation Register unbounded.
    pub fn new(oracle: O, pool_size: usize, block_size: u32, domain_start: u32) -> (r: Search<O>)
        requires
            pool_size >= 1,
            block_size >= 1,
        ensures
            r.wf(),
            r.oracle == oracle,
            r.pool_size == pool_size,
            r.block_size == block_size,
            r.domain_start == domain_start,
            !r.cancelled,
            r.register.ceiling() == u32::MAX,
            r.found@.len() == 0,
            r.evaluated@ == Set::<int>::empty(),
            // the seeded pool: consecutive blocks from the domain start,
            // until the pool is full or the domain top is reached
            r.active@.len() > 0 ==> r.active@[0] == domain_start,
            forall|k: int|
                0 <= k && k + 1 < r.active@.len() ==> #[trigger] r.active@[k + 1] == r.active@[k]
                    + block_size,
            r.next_block == if r.active@.len() == 0 {
                domain_start as int
            } else {
                r.active@.last() + block_size
            },
            r.active@.len() == pool_size || r.next_block + block_size > u32::MAX,
            (r.phase is Running) <==> r.active@.len() > 0,
    {
        let mut s = Search {
            oracle,
            pool_size,
            block_size,
            domain_start,
            next_block: domain_start,
            register: CancelRegister::new(),
            active: Vec::new(),
            found: Vec::new(),
            phase: Phase::Running,
            cancelled: false,
            evaluated: Ghost(Set::empty()),
        };
        while s.active.len() < s.pool_size && s.next_block <= u32::MAX - s.block_size
            invariant
                s.pool_size == pool_size,
                s.block_size == block_size,
                s.domain_start == domain_start,
                s.oracle == oracle,
                s.register.ceiling() == u32::MAX,
                s.found@.len() == 0,
                !s.cancelled,
                s.phase is Running,
                s.evaluated@ == Set::<int>::empty(),
                block_size >= 1,
                pool_size >= 1,
                domain_start <= s.next_block,
                s.active@.len() <= pool_size,
                forall|k: int|
                    0 <= k < s.active@.len() ==> domain_start <= #[trigger] s.active@[k]
                        && s.active@[k] + block_size <= s.next_block,
                forall|k1: int, k2: int|
                    0 <= k1 < s.active@.len() && 0 <= k2 < s.active@.len() && k1 != k2
                        ==> #[trigger] s.active@[k1] + block_size <= #[trigger] s.active@[k2]
                        || s.active@[k2] + block_size <= s.active@[k1],
                forall|i: int|
                    domain_start <= i < s.next_block ==> covered_by(s.active@, block_size, i),
                s.active@.len() > 0 ==> s.active@[0] == domain_start,
                forall|k: int|
                    0 <= k && k + 1 < s.active@.len() ==> #[trigger] s.active@[k + 1]
                        == s.active@[k] + block_size,
                s.next_block == if s.active@.len() == 0 {
                    domain_start as int
                } else {
                    s.active@.last() + block_size
                },
            decreases s.pool_size - s.active.len(),
        {
            let b = s.next_block;
            let ghost pre = s.active@;
            s.active.push(b);
            s.next_block = b + s.block_size;
            proof {
                assert(s.active@ == pre.push(b));
                assert forall|i: int| domain_start <= i < s.next_block implies covered_by(
                    s.active@,
                    block_size,
                    i,
                ) by {
                    if i < b {
                        assert(covered_by(pre, block_size, i));
                        let k0 = choose|k0: int|
                            0 <= k0 < pre.len() && (#[trigger] pre[k0]) <= i < pre[k0] + block_size;
                        assert(s.active@[k0] == pre[k0]);
                        assert(s.active@[k0] <= i < s.active@[k0] + block_size);
                    } else {
                        assert(s.active@[s.active@.len() - 1] <= i < s.active@[s.active@.len() - 1]
                            + block_size);
                    }
                }
            }
        }
        if s.active.len() == 0 {
            s.phase = Phase::Done;
        }
        proof {
            assert forall|i: int|
                s.domain_start <= i < s.register.ceiling() && i < s.next_block
                    && !s.in_active_block(i) implies !(#[trigger] s.oracle.matches(i as u32)) by {
                assert(covered_by(s.active@, s.block_size, i));
            }
            assert forall|i: int|
                s.domain_start <= i < s.register.ceiling() && i < s.next_block
                    && !s.in_active_block(i) implies #[trigger] s.evaluated@.contains(i) by {
                assert(covered_by(s.active@, s.block_size, i));
            }
        }
        s
    }

    /// Triggers external cancellation: forces the ceiling to the domain
    /// minimum, so that every in-flight Worker stops at its next register
    /// check and no further block is dispatched.
    pub fn cancel(&mut self)
        requires
            old(self).wf(),
        ensures
            final(self).wf(),
            final(self).cancelled,
            final(self).register.ceiling() == 0,
            final(self).oracle == old(self).oracle,
            final(self).pool_size == old(self).pool_size,
            final(self).block_size == old(self).block_size,
            final(self).domain_start == old(self).domain_start,
            final(self).next_block == old(self).next_block,
            final(self).active@ == old(self).active@,
            final(self).found@ == old(self).found@,
            final(self).evaluated == old(self).evaluated,
            (final(self).phase is Done) <==> (old(self).phase is Done),
    {
        self.register.lower(0);
        self.cancelled = true;
        if self.phase == Phase::Running {
            self.phase = Phase::CancelDraining;
        }
    }

    /// Waits for the Worker on slot `k` to reach its terminal outcome, removes
    /// it from the pool (last-slot swap), logs the indices it evaluated, and
    /// on a find records the index and lowers the Cancellation Register.
    fn complete_block(&mut self, k: usize) -> (r: Outcome)
        requires
            old(self).wf(),
            k < old(self).active@.len(),
        ensures
            final(self).inv_core(),
            final(self).oracle == old(self).oracle,
            final(self).pool_size == old(self).pool_size,
            final(self).block_size == old(self).block_size,
            final(self).domain_start == old(self).domain_start,
            final(self).cancelled == old(self).cancelled,
            final(self).next_block == old(self).next_block,
            final(self).active@.len() == old(self).active@.len() - 1,
            final(self).active@ == old(self).active@.update(
                k as int,
                old(self).active@.last(),
            ).drop_last(),
            final(self).register.ceiling() <= old(self).register.ceiling(),
            ({
                let s0 = old(self).active@[k as int];
                let bs = old(self).block_size;
                let c = old(self).register.ceiling();
                let limit = scan_limit(s0, bs, c);
                let fm = first_match_from(old(self).oracle, s0 as int, limit);
                let region = scanned_set(old(self).oracle, s0, bs, c);
                &&& r == (if fm < limit {
                    Outcome::Found(fm as u32)
                } else if c >= s0 + bs {
                    Outcome::NoMatchExhausted
                } else {
                    Outcome::StoppedEarly
                })
                &&& (fm < limit ==> final(self).found@ == old(self).found@.push(fm as u32)
                    && final(self).register.ceiling() == fm && fm < c && !old(self).cancelled && (
                final(self).phase is MatchDraining))
                &&& (fm >= limit ==> final(self).found@ == old(self).found@ && final(self).register.ceiling() == c && final(self).phase == old(self).phase)
                &&& final(self).evaluated@ == old(self).evaluated@.union(region)
                &&& old(self).evaluated@.disjoint(region)
            }),
            (final(self).phase is Running) ==> (old(self).phase is Running),
            (final(self).phase is Running) ==> !final(self).cancelled && final(self).found@.len()
                == 0,
            !(final(self).phase is Done),
    {
        let s0 = self.active[k];
        let bs = self.block_size;
        let r = run_block(&self.oracle, s0, bs, &self.register);
        let ghost c = self.register.ceiling();
        let ghost limit = scan_limit(s0, bs, c);
        let ghost fm = first_match_from(self.oracle, s0 as int, limit);
        let ghost region = scanned_set(self.oracle, s0, bs, c);
        let ghost pre_active = self.active@;
        let ghost pre_eval = self.evaluated@;
        proof {
            lemma_first_match_props(self.oracle, s0 as int, limit);
            assert(s0 + bs <= self.next_block);
            assert(s0 <= scan_end(self.oracle, s0, bs, c) <= s0 + bs);
            assert forall|i: int| pre_eval.contains(i) implies !region.contains(i) by {
                if region.contains(i) {
                    assert(pre_active[k as int] <= i < pre_active[k as int] + bs);
                    assert(covered_by(pre_active, bs, i));
                }
            }
            assert(pre_eval.disjoint(region));
        }
        self.active.swap_remove(k);
        self.evaluated = Ghost(self.evaluated@.union(region));
        match r {
            Outcome::Found(m) => {
                proof {
                    assert(fm < limit);
                    assert(c >= limit);
                    assert(m == fm as u32);
                    assert(fm == m as int);
                    assert(!self.cancelled);
                }
                self.found.push(m);
                self.register.lower(m);
                self.phase = Phase::MatchDraining;
            },
            Outcome::NoMatchExhausted => {},
            Outcome::StoppedEarly => {},
        }
        proof {
            let post_active = self.active@;
            assert(post_active == pre_active.update(k as int, pre_active.last()).drop_last());
            assert(pre_active.last() == pre_active[pre_active.len() - 1]);
            assert forall|j: int| 0 <= j < post_active.len() implies (#[trigger] post_active[j]) == (
            if j == k as int {
                pre_active[pre_active.len() - 1]
            } else {
                pre_active[j]
            }) by {}
            // dispatched blocks still fit
            assert forall|j: int| 0 <= j < post_active.len() implies self.domain_start <= (
            #[trigger] post_active[j]) && post_active[j] + bs <= self.next_block by {
                if j == k as int {
                    assert(pre_active[pre_active.len() - 1] + bs <= self.next_block);
                } else {
                    assert(pre_active[j] + bs <= self.next_block);
                }
            }
            // ... and still never overlap
            assert forall|j1: int, j2: int|
                0 <= j1 < post_active.len() && 0 <= j2 < post_active.len() && j1 != j2 implies (
            #[trigger] post_active[j1]) + bs <= (#[trigger] post_active[j2]) || post_active[j2] + bs
                <= post_active[j1] by {
                let m1: int = if j1 == k as int {
                    pre_active.len() - 1
                } else {
                    j1
                };
                let m2: int = if j2 == k as int {
                    pre_active.len() - 1
                } else {
                    j2
                };
                assert(post_active[j1] == pre_active[m1]);
                assert(post_active[j2] == pre_active[m2]);
                assert(m1 != m2);
                assert(pre_active[m1] + bs <= pre_active[m2] || pre_active[m2] + bs
                    <= pre_active[m1]);
            }
            // the completed region below the (new) ceiling holds no match
            assert forall|i: int|
                self.domain_start <= i < self.register.ceiling() && i < self.next_block
                    && !covered_by(post_active, bs, i) implies !(#[trigger] self.oracle.matches(
                i as u32,
            )) by {
                if s0 <= i < s0 + bs {
                    if fm < limit {
                        assert(self.register.ceiling() == fm);
                        assert(i < fm);
                    } else {
                        assert(self.register.ceiling() == c);
                        assert(i < c && i < s0 + bs);
                        assert(i < limit);
                        assert(fm == limit);
                    }
                } else {
                    if covered_by(pre_active, bs, i) {
                        lemma_covered_before_swap_remove(pre_active, k as int, bs, i);
                        assert(false);
                    }
                    assert(i < c);
                }
            }
            // ... and was evaluated
            assert forall|i: int|
                self.domain_start <= i < self.register.ceiling() && i < self.next_block
                    && !covered_by(post_active, bs, i) implies #[trigger] self.evaluated@.contains(
                i,
            ) by {
                if s0 <= i < s0 + bs {
                    if fm < limit {
                        assert(self.register.ceiling() == fm);
                        assert(i < fm);
                    } else {
                        assert(self.register.ceiling() == c);
                        assert(i < c && i < s0 + bs);
                        assert(fm == limit);
                    }
                    assert(i < scan_end(self.oracle, s0, bs, c));
                    assert(region.contains(i));
                } else {
                    if covered_by(pre_active, bs, i) {
                        lemma_covered_before_swap_remove(pre_active, k as int, bs, i);
                        assert(false);
                    }
                    assert(i < c);
                    assert(pre_eval.contains(i));
                }
            }
            // evaluation stays within completed territory
            assert forall|i: int| #[trigger]
                self.evaluated@.contains(i) implies self.domain_start <= i < self.next_block && !covered_by(
                post_active,
                bs,
                i,
            ) by {
                if covered_by(post_active, bs, i) {
                    lemma_covered_after_swap_remove(pre_active, k as int, bs, i);
                    let m = choose|m: int|
                        0 <= m < pre_active.len() && m != k as int && (#[trigger] pre_active[m]) <= i
                            < pre_active[m] + bs;
                    if pre_eval.contains(i) {
                        assert(!covered_by(pre_active, bs, i));
                        assert(covered_by(pre_active, bs, i));
                    } else {
                        assert(s0 <= i < s0 + bs);
                        assert(pre_active[m] + bs <= pre_active[k as int] || pre_active[k as int]
                            + bs <= pre_active[m]);
                    }
                    assert(false);
                }
                if pre_eval.contains(i) {
                } else {
                    assert(region.contains(i));
                    assert(s0 <= i < s0 + bs);
                }
            }
            if fm < limit {
                assert(self.found@[self.found@.len() - 1] == fm as u32);
                assert(self.found@.contains(self.register.ceiling()));
            }
        }
        r
    }

    /// Assigns the next unclaimed block to a freshly spawned Worker, provided
    /// the domain still has room for a whole block and the ceiling at
    /// dispatch time still lies above the block's start.
    fn dispatch_next(&mut self)
        requires
            old(self).inv_core(),
            old(self).active@.len() < old(self).pool_size,
        ensures
            final(self).inv_core(),
            final(self).oracle == old(self).oracle,
            final(self).pool_size == old(self).pool_size,
            final(self).block_size == old(self).block_size,
            final(self).domain_start == old(self).domain_start,
            final(self).cancelled == old(self).cancelled,
            final(self).phase == old(self).phase,
            final(self).found@ == old(self).found@,
            final(self).register == old(self).register,
            final(self).evaluated == old(self).evaluated,
            final(self).next_block >= old(self).next_block,
            ({
                let fits = old(self).next_block + old(self).block_size <= u32::MAX;
                let allowed = old(self).register.ceiling() > old(self).next_block;
                &&& (fits && allowed ==> final(self).active@ == old(self).active@.push(
                    old(self).next_block,
                ) && final(self).next_block == old(self).next_block + old(self).block_size)
                &&& (!(fits && allowed) ==> final(self).active@ == old(self).active@
                    && final(self).next_block == old(self).next_block)
            }),
    {
        if self.next_block <= u32::MAX - self.block_size {
            let c = self.register.read();
            if c > self.next_block {
                let b = self.next_block;
                let ghost pre_active = self.active@;
                self.active.push(b);
                self.next_block = b + self.block_size;
                proof {
                    let post_active = self.active@;
                    assert(post_active == pre_active.push(b));
                    assert forall|j: int| 0 <= j < post_active.len() implies self.domain_start <= (
                    #[trigger] post_active[j]) && post_active[j] + self.block_size
                        <= self.next_block by {
                        if j < pre_active.len() {
                            assert(post_active[j] == pre_active[j]);
                        } else {
                            assert(post_active[j] == b);
                        }
                    }
                    assert forall|j1: int, j2: int|
                        0 <= j1 < post_active.len() && 0 <= j2 < post_active.len() && j1 != j2
                        implies (#[trigger] post_active[j1]) + self.block_size <= (
                    #[trigger] post_active[j2]) || post_active[j2] + self.block_size
                        <= post_active[j1] by {
                        if j1 < pre_active.len() && j2 < pre_active.len() {
                            assert(pre_active[j1] + self.block_size <= pre_active[j2]
                                || pre_active[j2] + self.block_size <= pre_active[j1]);
                        } else if j1 < pre_active.len() {
                            assert(pre_active[j1] + self.block_size <= b);
                        } else {
                            assert(pre_active[j2] + self.block_size <= b);
                        }
                    }
                    assert forall|i: int|
                        self.domain_start <= i < self.register.ceiling() && i < self.next_block
                            && !covered_by(post_active, self.block_size, i) implies !(
                    #[trigger] self.oracle.matches(i as u32)) by {
                        lemma_covered_push_cases(pre_active, b, self.block_size, i);
                        assert(i < b);
                        assert(!covered_by(pre_active, self.block_size, i));
                    }
                    assert forall|i: int|
                        self.domain_start <= i < self.register.ceiling() && i < self.next_block
                            && !covered_by(post_active, self.block_size, i) implies #[trigger] self.evaluated@.contains(
                        i,
                    ) by {
                        lemma_covered_push_cases(pre_active, b, self.block_size, i);
                        assert(i < b);
                        assert(!covered_by(pre_active, self.block_size, i));
                    }
                    assert forall|i: int| #[trigger]
                        self.evaluated@.contains(i) implies self.domain_start <= i
                            < self.next_block && !covered_by(post_active, self.block_size, i) by {
                        lemma_covered_push_cases(pre_active, b, self.block_size, i);
                        assert(i < b);
                    }
                }
            }
        }
    }

    /// One Coordinator reaction: the Worker on slot `k` finishes (with
    /// whatever outcome the predicate and the current ceiling dictate), its
    /// slot is retired, and — only while `Running` and only after a block
    /// exhausted without a match — the next unclaimed block is dispatched in
    /// its place. The pool empties exactly into the `Done` phase.
    ///
    /// The caller picks the slot, so any completion order of a concurrent
    /// pool can be played out; the invariant and the clauses below hold for
    /// every such order. In particular: a newly recorded find always lies
    /// below the ceiling as it stood when the Worker ran, and the indices
    /// this step evaluates are disjoint from everything evaluated before —
    /// no Domain Index is ever evaluated twice.
    pub fn poll_at(&mut self, k: usize) -> (r: Outcome)
        requires
            old(self).wf(),
            k < old(self).active@.len(),
        ensures
            final(self).wf(),
            final(self).oracle == old(self).oracle,
            final(self).pool_size == old(self).pool_size,
            final(self).block_size == old(self).block_size,
            final(self).domain_start == old(self).domain_start,
            final(self).cancelled == old(self).cancelled,
            final(self).next_block >= old(self).next_block,
            final(self).register.ceiling() <= old(self).register.ceiling(),
            final(self).active@.len() <= old(self).active@.len(),
            old(self).active@.len() - 1 <= final(self).active@.len(),
            !(old(self).phase is Running) ==> final(self).active@.len() == old(self).active@.len()
                - 1,
            (final(self).phase is Running) ==> (old(self).phase is Running),
            ({
                let s0 = old(self).active@[k as int];
                let bs = old(self).block_size;
                let c = old(self).register.ceiling();
                let limit = scan_limit(s0, bs, c);
                let fm = first_match_from(old(self).oracle, s0 as int, limit);
                let region = scanned_set(old(self).oracle, s0, bs, c);
                &&& r == (if fm < limit {
                    Outcome::Found(fm as u32)
                } else if c >= s0 + bs {
                    Outcome::NoMatchExhausted
                } else {
                    Outcome::StoppedEarly
                })
                &&& (fm < limit ==> final(self).found@ == old(self).found@.push(fm as u32)
                    && final(self).register.ceiling() == fm && fm < c)
                &&& (fm >= limit ==> final(self).found@ == old(self).found@
                    && final(self).register.ceiling() == c)
                &&& final(self).evaluated@ == old(self).evaluated@.union(region)
                &&& old(self).evaluated@.disjoint(region)
            }),
            // block-assignment policy: the freed slot is refilled with the
            // next unclaimed block exactly when the run is still `Running`,
            // the block exhausted without a match, a whole block still fits
            // in the domain, and the ceiling lies above the new block
            ({
                let retired = old(self).active@.update(
                    k as int,
                    old(self).active@.last(),
                ).drop_last();
                let refill = (old(self).phase is Running) && (r is NoMatchExhausted)
                    && old(self).next_block + old(self).block_size <= u32::MAX
                    && old(self).register.ceiling() > old(self).next_block;
                &&& (refill ==> final(self).active@ == retired.push(old(self).next_block)
                    && final(self).next_block == old(self).next_block + old(self).block_size)
                &&& (!refill ==> final(self).active@ == retired
                    && final(self).next_block == old(self).next_block)
            }),
    {
        let r = self.complete_block(k);
        let no_match = match r {
            Outcome::NoMatchExhausted => true,
            _ => false,
        };
        if no_match && self.phase == Phase::Running {
            self.dispatch_next();
        }
        if self.active.len() == 0 {
            self.phase = Phase::Done;
        }
        r
    }

    /// Polls Worker completions first-in-first-out until the run is `Done`,
    /// giving up after `budget` completions polled while still `Running`.
    /// The drain phases never consume budget: once a match is recorded or
    /// cancellation hit, every poll retires one Worker, so `AwaitResult`
    /// returns within at most a pool's worth of further polls.
    ///
    /// `Some(res)` means the run finished and `res` is the Aggregator's
    /// answer; `None` means the budget ran out while still `Running`.
    /// In a finished run without cancellation the answer is authoritative:
    /// `Some(m)` is the least matching index at or above the domain start,
    /// and `None` means the whole dispatched region holds no match.
    pub fn await_result(&mut self, budget: u32) -> (r: Option<Option<u32>>)
        requires
            old(self).wf(),
        ensures
            final(self).wf(),
            final(self).oracle == old(self).oracle,
            final(self).domain_start == old(self).domain_start,
            final(self).cancelled == old(self).cancelled,
            !(old(self).phase is Running) ==> (r is Some),
            (r is Some) <==> (final(self).phase is Done),
            r matches Some(res) ==> ({
                &&& ((res is None) <==> final(self).found@.len() == 0)
                &&& (res matches Some(m) ==> final(self).found@.contains(m) && (forall|j: int|
                    0 <= j < final(self).found@.len() ==> m <= #[trigger] final(self).found@[j]))
                &&& (!final(self).cancelled ==> (match res {
                    Some(m) => final(self).oracle.matches(m) && final(self).domain_start <= m && (
                    forall|i: int|
                        final(self).domain_start <= i < m ==> !(
                        #[trigger] final(self).oracle.matches(i as u32))),
                    None => forall|i: int|
                        final(self).domain_start <= i < final(self).next_block ==> !(
                        #[trigger] final(self).oracle.matches(i as u32)),
                }))
            }),
    {
        let mut budget_left: u32 = budget;
        while self.active.len() > 0 && (self.phase != Phase::Running || budget_left > 0)
            invariant
                self.wf(),
                self.oracle == old(self).oracle,
                self.domain_start == old(self).domain_start,
                self.cancelled == old(self).cancelled,
                (self.phase is Running) ==> (old(self).phase is Running),
            decreases budget_left, self.active.len(),
        {
            if self.phase == Phase::Running {
                budget_left = budget_left - 1;
            }
            self.poll_at(0);
        }
        if self.active.len() == 0 {
            let res = min_found(&self.found);
            proof {
                if !self.cancelled {
                    match res {
                        Some(m) => lemma_least_find_is_least_match(*self, m),
                        None => (),
                    }
                }
            }
            Some(res)
        } else {
            None
        }
    }
}

/// The race-freedom rule made precise: in a finished, uncancelled run, the
/// least recorded find is the least matching index of the whole domain at or
/// above the domain start — whatever completion order produced the finds, and
/// however many Workers raced past the first discovery.
pub proof fn lemma_least_find_is_least_match<O: Oracle>(s: Search<O>, m: u32)
    requires
        s.wf(),
        s.phase is Done,
        !s.cancelled,
        s.found@.contains(m),
        forall|j: int| 0 <= j < s.found@.len() ==> m <= #[trigger] s.found@[j],
    ensures
        s.oracle.matches(m),
        s.domain_start <= m,
        forall|i: int| s.domain_start <= i < m ==> !(#[trigger] s.oracle.matches(i as u32)),
{
    let jm = choose|jm: int| 0 <= jm < s.found@.len() && s.found@[jm] == m;
    assert(s.oracle.matches(s.found@[jm]));
    let cv = s.register.ceiling();
    assert(s.found@.contains(cv));
    let jc = choose|jc: int| 0 <= jc < s.found@.len() && s.found@[jc] == cv;
    assert(m <= s.found@[jc]);
    assert(cv <= s.found@[jm]);
    assert(cv == m);
    assert(s.active@.len() == 0);
    assert forall|i: int| s.domain_start <= i < m implies !(#[trigger] s.oracle.matches(i as u32)) by {
        assert(!s.in_active_block(i));
        assert(i < s.register.ceiling());
        assert(i < s.next_block);
    }
}

/// No Domain Index is skipped: in a finished run, every index from the
/// domain start up to the final ceiling (within the dispatched region) was
/// evaluated — and, by the disjointness clause of `poll_at`, each evaluation
/// across the whole run touched a fresh index.
pub proof fn lemma_no_index_skipped<O: Oracle>(s: Search<O>, i: int)
    requires
        s.wf(),
        s.phase is Done,
        s.domain_start <= i < s.register.ceiling(),
        i < s.next_block,
    ensures
        s.evaluated@.contains(i),
{
    assert(s.active@.len() == 0);
    assert(!s.in_active_block(i));
}

/// The Result Aggregator: the minimum over all recorded `Found` indices, or
/// `None` when no Worker ever reported a match. A pure reduction over the
/// whole multiset of finds: the answer does not depend on arrival order.
pub fn min_found(found: &Vec<u32>) -> (r: Option<u32>)
    ensures
        (r is None) <==> found@.len() == 0,
        r matches Some(m) ==> found@.contains(m) && (forall|j: int|
            0 <= j < found@.len() ==> m <= #[trigger] found@[j]),
{
    if found.len() == 0 {
        return None;
    }
    let mut best: u32 = found[0];
    proof {
        assert(found@[0] == best);
    }
    let mut k: usize = 1;
    while k < found.len()
        invariant
            1 <= k <= found@.len(),
            found@.contains(best),
            forall|j: int| 0 <= j < k ==> best <= #[trigger] found@[j],
        decreases found@.len() - k,
    {
        let v = found[k];
        if v < best {
            best = v;
            proof {
                assert(found@[k as int] == best);
            }
        }
        k = k + 1;
    }
    Some(best)
}

} // verus!
