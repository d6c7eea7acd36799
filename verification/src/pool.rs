//! The worker pool's decisions and bookkeeping.
//!
//! Threads, the channel and the mutex live outside the library.  Here
//! are the size rule the pool is built with, and a model of the queue's
//! lifecycle whose transitions prove that a job runs at most once and
//! that no more jobs run at a time than the pool has workers.

use vstd::prelude::*;

verus! {

/// Hard ceiling on the worker count.
pub const MAX_THREAD_AMOUNT: usize = 1024 * 8;

/// The size used when the requested one is out of range.
pub const DEFAULT_THREAD_COUNT: usize = 8;

/// The number of workers a pool is built with: the requested size when
/// it lies in `[1, MAX_THREAD_AMOUNT]`, the default otherwise.
pub fn pool_size(requested: usize) -> (s: usize)
    ensures
        s == (if 1 <= requested && requested <= MAX_THREAD_AMOUNT {
            requested as int
        } else {
            DEFAULT_THREAD_COUNT as int
        }),
        1 <= s <= MAX_THREAD_AMOUNT,
{
    if requested == 0 || requested > MAX_THREAD_AMOUNT {
        DEFAULT_THREAD_COUNT
    } else {
        requested
    }
}

/// Bookkeeping of the shared job queue: jobs waiting, jobs being
/// executed, jobs finished, each carried as the number it was submitted
/// under.
pub struct PoolModel {
    pub size: usize,
    pub queued: Vec<u64>,
    pub running: Vec<u64>,
    pub done: Vec<u64>,
    pub next_id: u64,
}

impl PoolModel {
    /// Every job number across the three stages, queue order first.
    pub open spec fn all_ids(&self) -> Seq<u64> {
        self.queued@ + self.running@ + self.done@
    }

    /// At most `size` jobs run at once; a job number appears in exactly
    /// one place; numbers come from the counter.
    pub open spec fn wf(&self) -> bool {
        &&& 1 <= self.size
        &&& self.running@.len() <= self.size
        &&& forall|a: int, b: int|
            0 <= a < b < self.all_ids().len() ==> self.all_ids()[a] != self.all_ids()[b]
        &&& forall|a: int| 0 <= a < self.all_ids().len() ==> self.all_ids()[a] < self.next_id
    }

    /// An idle pool of `size` workers.
    pub fn new(size: usize) -> (r: PoolModel)
        requires
            1 <= size,
        ensures
            r.wf(),
            r.size == size,
            r.queued@ =~= Seq::<u64>::empty(),
            r.running@ =~= Seq::<u64>::empty(),
            r.done@ =~= Seq::<u64>::empty(),
    {
        PoolModel { size, queued: Vec::new(), running: Vec::new(), done: Vec::new(), next_id: 0 }
    }

    /// Submit one job: it joins the queue under a fresh number and
    /// nothing else moves.
    pub fn submit(&mut self) -> (id: u64)
        requires
            old(self).wf(),
            old(self).next_id < u64::MAX,
        ensures
            final(self).wf(),
            id == old(self).next_id,
            final(self).queued@ == old(self).queued@.push(id),
            final(self).running@ == old(self).running@,
            final(self).done@ == old(self).done@,
            final(self).size == old(self).size,
    {
        let id = self.next_id;
        self.queued.push(id);
        self.next_id = self.next_id + 1;
        proof {
            let o = old(self);
            assert forall|a: int|
                0 <= a < self.all_ids().len() implies self.all_ids()[a] < self.next_id by {
                if a < o.queued@.len() {
                    assert(self.all_ids()[a] == o.all_ids()[a]);
                } else if a == o.queued@.len() {
                    assert(self.all_ids()[a] == id);
                } else {
                    assert(self.all_ids()[a] == o.all_ids()[a - 1]);
                }
            }
            assert forall|a: int, b: int|
                0 <= a < b < self.all_ids().len() implies self.all_ids()[a]
                != self.all_ids()[b] by {
                let f = |x: int|
                    if x < o.queued@.len() {
                        o.all_ids()[x]
                    } else if x == o.queued@.len() {
                        id
                    } else {
                        o.all_ids()[x - 1]
                    };
                assert(self.all_ids()[a] == f(a));
                assert(self.all_ids()[b] == f(b));
            }
        }
        id
    }

    /// A free worker takes the job at the head of the queue: it moves
    /// from queued to running, once, and the worker bound stays kept.
    pub fn begin_next(&mut self)
        requires
            old(self).wf(),
            old(self).queued@.len() > 0,
            old(self).running@.len() < old(self).size,
        ensures
            final(self).wf(),
            final(self).queued@ == old(self).queued@.drop_first(),
            final(self).running@ == old(self).running@.push(old(self).queued@[0]),
            final(self).done@ == old(self).done@,
            final(self).size == old(self).size,
    {
        let id = self.queued.remove(0);
        self.running.push(id);
        proof {
            let o = old(self);
            assert(self.queued@ =~= o.queued@.drop_first());
            let q = o.queued@.len() as int;
            let r = o.running@.len() as int;
            let f = |x: int|
                if x < q - 1 + r {
                    x + 1
                } else if x == q - 1 + r {
                    0
                } else {
                    x
                };
            assert forall|a: int|
                0 <= a < self.all_ids().len() implies #[trigger] self.all_ids()[a] == o.all_ids()[
                    f(a)
                ] by {
                if a < q - 1 {
                    assert(self.all_ids()[a] == o.queued@[a + 1]);
                    assert(o.all_ids()[a + 1] == o.queued@[a + 1]);
                } else if a < q - 1 + r {
                    assert(self.all_ids()[a] == o.running@[a - (q - 1)]);
                    assert(o.all_ids()[a + 1] == o.running@[a + 1 - q]);
                } else if a == q - 1 + r {
                    assert(self.all_ids()[a] == o.queued@[0]);
                    assert(o.all_ids()[0] == o.queued@[0]);
                } else {
                    assert(self.all_ids()[a] == o.done@[a - (q - 1 + r + 1)]);
                    assert(o.all_ids()[a] == o.done@[a - q - r]);
                }
            }
            assert forall|a: int, b: int|
                0 <= a < b < self.all_ids().len() implies self.all_ids()[a]
                != self.all_ids()[b] by {
                assert(self.all_ids()[a] == o.all_ids()[f(a)]);
                assert(self.all_ids()[b] == o.all_ids()[f(b)]);
            }
        }
    }

    /// The running job at `pos` finishes: it moves from running to done,
    /// exactly once.
    pub fn finish(&mut self, pos: usize)
        requires
            old(self).wf(),
            pos < old(self).running@.len(),
        ensures
            final(self).wf(),
            final(self).queued@ == old(self).queued@,
            final(self).running@ == old(self).running@.remove(pos as int),
            final(self).done@ == old(self).done@.push(old(self).running@[pos as int]),
            final(self).size == old(self).size,
    {
        let id = self.running.remove(pos);
        self.done.push(id);
        proof {
            let o = old(self);
            let q = o.queued@.len() as int;
            let r = o.running@.len() as int;
            let f = |x: int|
                if x < q + pos {
                    x
                } else if x < q + r - 1 {
                    x + 1
                } else if x == self.all_ids().len() - 1 {
                    q + pos
                } else {
                    x + 1
                };
            assert forall|a: int|
                0 <= a < self.all_ids().len() implies #[trigger] self.all_ids()[a] == o.all_ids()[f(a)] by {
                if a < q {
                    assert(self.all_ids()[a] == o.queued@[a]);
                    assert(o.all_ids()[a] == o.queued@[a]);
                } else if a < q + pos {
                    assert(self.all_ids()[a] == o.running@[a - q]);
                    assert(o.all_ids()[a] == o.running@[a - q]);
                } else if a < q + r - 1 {
                    assert(self.all_ids()[a] == o.running@[a - q + 1]);
                    assert(o.all_ids()[a + 1] == o.running@[a + 1 - q]);
                } else if a == self.all_ids().len() - 1 {
                    assert(self.all_ids()[a] == o.running@[pos as int]);
                    assert(o.all_ids()[q + pos] == o.running@[pos as int]);
                } else {
                    assert(self.all_ids()[a] == o.done@[a - q - (r - 1)]);
                    assert(o.all_ids()[a + 1] == o.done@[a + 1 - q - r]);
                }
            }
            assert forall|a: int, b: int|
                0 <= a < b < self.all_ids().len() implies self.all_ids()[a]
                != self.all_ids()[b] by {
                assert(self.all_ids()[a] == o.all_ids()[f(a)]);
                assert(self.all_ids()[b] == o.all_ids()[f(b)]);
            }
        }
    }
}

} // verus!
