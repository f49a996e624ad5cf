use vstd::prelude::*;

verus! {

/// One shard: an execution unit running its own readiness-driven event
/// loop over a disjoint set of connections. `busy` means its single
/// execution context is inside an application callback right now; `queue`
/// holds connection handles accepted for this shard whose dispatch has
/// not started. A connection handle never moves to another shard.
pub struct Shard {
    pub busy: bool,
    pub queue: Vec<u64>,
}

/// How many shards are executing a callback.
pub open spec fn busy_count(shards: Seq<Shard>) -> int
    decreases shards.len(),
{
    if shards.len() == 0 {
        0
    } else {
        busy_count(shards.drop_last()) + if shards.last().busy {
            1int
        } else {
            0int
        }
    }
}

/// At most one callback executes per shard, so never more than the
/// worker count in the whole pool — a slow callback stalls only its own
/// shard's connections.
pub proof fn lemma_busy_count_bounded(shards: Seq<Shard>)
    ensures
        0 <= busy_count(shards) <= shards.len(),
    decreases shards.len(),
{
    if shards.len() > 0 {
        lemma_busy_count_bounded(shards.drop_last());
    }
}

/// The fixed-size worker pool: the accept loop hands each new connection
/// to a shard round-robin; each shard starts queued dispatches only when
/// its execution context is free.
pub struct WorkerPool {
    shards: Vec<Shard>,
    next: usize,
    draining: bool,
}

impl WorkerPool {
    /// The shards.
    pub closed spec fn shards_view(&self) -> Seq<Shard> {
        self.shards@
    }

    /// The shard the next accepted connection goes to.
    pub closed spec fn next_shard(&self) -> int {
        self.next as int
    }

    /// Whether graceful shutdown began: no new connection is accepted,
    /// in-flight dispatches finish, queues drain.
    pub closed spec fn draining(&self) -> bool {
        self.draining
    }

    /// A pool has at least one shard and a valid round-robin cursor.
    pub closed spec fn wf(&self) -> bool {
        self.shards@.len() >= 1 && (self.next as int) < self.shards@.len()
    }

    /// Number of shards.
    pub fn worker_count(&self) -> (n: usize)
        ensures
            n == self.shards_view().len(),
    {
        self.shards.len()
    }

    /// A pool of `worker_count` idle shards with empty queues.
    pub fn new(worker_count: usize) -> (p: WorkerPool)
        requires
            worker_count >= 1,
        ensures
            p.wf(),
            p.shards_view().len() == worker_count,
            p.next_shard() == 0,
            !p.draining(),
            forall|i: int|
                0 <= i < worker_count ==> !(#[trigger] p.shards_view()[i]).busy
                    && p.shards_view()[i].queue@.len() == 0,
    {
        let mut shards: Vec<Shard> = Vec::new();
        let mut i: usize = 0;
        while i < worker_count
            invariant
                i <= worker_count,
                shards@.len() == i,
                forall|j: int|
                    0 <= j < i ==> !(#[trigger] shards@[j]).busy && shards@[j].queue@.len() == 0,
            decreases worker_count - i,
        {
            shards.push(Shard { busy: false, queue: Vec::new() });
            i = i + 1;
        }
        WorkerPool { shards, next: 0, draining: false }
    }

    /// Begins graceful shutdown: the accept loop must hand over nothing
    /// more; shards finish what is in flight and drain their queues.
    pub fn begin_drain(&mut self)
        requires
            old(self).wf(),
        ensures
            final(self).wf(),
            final(self).draining(),
            final(self).shards_view() == old(self).shards_view(),
            final(self).next_shard() == old(self).next_shard(),
    {
        self.draining = true;
    }

    /// Whether the pool still accepts new connections.
    pub fn accepting(&self) -> (b: bool)
        ensures
            b == !self.draining(),
    {
        !self.draining
    }

    /// The accept loop hands a new connection to the pool: it joins the
    /// round-robin shard's queue, the cursor advances, and no other shard
    /// changes — the single coordination point between the accept loop
    /// and the shards.
    pub fn assign(&mut self, conn: u64) -> (i: usize)
        requires
            old(self).wf(),
            !old(self).draining(),
        ensures
            final(self).wf(),
            final(self).draining() == old(self).draining(),
            i == old(self).next_shard(),
            final(self).shards_view().len() == old(self).shards_view().len(),
            final(self).next_shard() == (old(self).next_shard() + 1) % (
            old(self).shards_view().len() as int),
            final(self).shards_view()[i as int].busy == old(self).shards_view()[i as int].busy,
            final(self).shards_view()[i as int].queue@ == old(self).shards_view()[i as int].queue@.push(conn),
            forall|j: int|
                0 <= j < old(self).shards_view().len() && j != i ==> final(self).shards_view()[j]
                    == old(self).shards_view()[j],
    {
        let i = self.next;
        let mut sh = self.shards.remove(i);
        sh.queue.push(conn);
        self.shards.insert(i, sh);
        proof {
            assert(self.shards@ =~= old(self).shards@.update(
                i as int,
                Shard {
                    busy: old(self).shards@[i as int].busy,
                    queue: self.shards@[i as int].queue,
                },
            ));
        }
        let len = self.shards.len();
        proof {
            assert(self.next < len);
        }
        self.next = (self.next + 1) % len;
        i
    }

    /// Shard `i` begins its next dispatch, but only when its execution
    /// context is free: the head of its queue starts executing. A busy
    /// shard defers — its queued connections wait, while other shards go
    /// on serving theirs.
    pub fn start_next(&mut self, i: usize) -> (started: Option<u64>)
        requires
            old(self).wf(),
            i < old(self).shards_view().len(),
        ensures
            final(self).wf(),
            final(self).shards_view().len() == old(self).shards_view().len(),
            final(self).next_shard() == old(self).next_shard(),
            match started {
                Some(c) => !old(self).shards_view()[i as int].busy && old(self).shards_view()[i as int].queue@.len() > 0 && c == old(self).shards_view()[i as int].queue@[0] && final(self).shards_view()[i as int].busy && final(self).shards_view()[i as int].queue@ == old(self).shards_view()[i as int].queue@.skip(1),
                None => (old(self).shards_view()[i as int].busy || old(self).shards_view()[i as int].queue@.len() == 0) && final(self).shards_view() == old(self).shards_view(),
            },
            forall|j: int|
                0 <= j < old(self).shards_view().len() && j != i ==> final(self).shards_view()[j]
                    == old(self).shards_view()[j],
    {
        if self.shards[i].busy || self.shards[i].queue.len() == 0 {
            proof {
                assert(final(self).shards_view() =~= old(self).shards_view());
            }
            return None;
        }
        let mut sh = self.shards.remove(i);
        let c = sh.queue.remove(0);
        sh.busy = true;
        self.shards.insert(i, sh);
        proof {
            assert(self.shards@[i as int].queue@ =~= old(self).shards@[i as int].queue@.skip(1));
        }
        Some(c)
    }

    /// Shard `i`'s callback finished: its execution context frees up.
    pub fn finish(&mut self, i: usize)
        requires
            old(self).wf(),
            i < old(self).shards_view().len(),
            old(self).shards_view()[i as int].busy,
        ensures
            final(self).wf(),
            final(self).shards_view().len() == old(self).shards_view().len(),
            final(self).next_shard() == old(self).next_shard(),
            !final(self).shards_view()[i as int].busy,
            final(self).shards_view()[i as int].queue@ == old(self).shards_view()[i as int].queue@,
            forall|j: int|
                0 <= j < old(self).shards_view().len() && j != i ==> final(self).shards_view()[j]
                    == old(self).shards_view()[j],
    {
        let mut sh = self.shards.remove(i);
        sh.busy = false;
        self.shards.insert(i, sh);
    }

    /// How many shards are executing a callback right now; never more
    /// than the worker count.
    pub fn busy_workers(&self) -> (n: usize)
        requires
            self.wf(),
        ensures
            n == busy_count(self.shards_view()),
            n <= self.shards_view().len(),
    {
        let mut n: usize = 0;
        let mut i: usize = 0;
        proof {
            assert(self.shards@.subrange(0, 0) =~= Seq::<Shard>::empty());
        }
        while i < self.shards.len()
            invariant
                i <= self.shards@.len(),
                n as int == busy_count(self.shards@.subrange(0, i as int)),
                n <= i,
            decreases self.shards@.len() - i,
        {
            proof {
                assert(self.shards@.subrange(0, i + 1).drop_last() =~= self.shards@.subrange(
                    0,
                    i as int,
                ));
                assert(self.shards@.subrange(0, i + 1).last() == self.shards@[i as int]);
            }
            if self.shards[i].busy {
                n = n + 1;
            }
            i = i + 1;
        }
        proof {
            assert(self.shards@.subrange(0, self.shards@.len() as int) =~= self.shards@);
        }
        n
    }

    /// How many connections sit in shard `i`'s queue awaiting dispatch.
    pub fn queued(&self, i: usize) -> (n: usize)
        requires
            self.wf(),
            i < self.shards_view().len(),
        ensures
            n == self.shards_view()[i as int].queue@.len(),
    {
        self.shards[i].queue.len()
    }
}

} // verus!
