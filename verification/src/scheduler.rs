//! Threads and the round-robin scheduler of one processor.
//!
//! Runnable threads wait in first-in first-out run queues, one per priority band; the thread
//! that runs is taken off its queue and goes back to the end of it when the next one is
//! picked. Threads that ended are kept for reuse; new ones are counted against a limit.

use vstd::prelude::*;

use crate::ids::{ProcessId, ThreadId};
use crate::mapper::MemoryManager;

verus! {

/// The priority of a thread: higher runs first.
pub type ThreadPriority = u8;

/// The lowest priority.
pub const LOWEST_PRIORITY: ThreadPriority = 0u8;

/// The largest number of threads that are ever allocated.
pub const MAX_THREADS: usize = 10240;

/// The number of run queues.
pub const PRIORITY_LEVELS: usize = 1;

/// Why a thread could not be made.
#[derive(Clone, Copy, PartialEq, Eq, Structural, Debug)]
pub enum SchedulerError {
    OutOfMemory,
    ThreadLimit,
    SlotTaken,
}

/// A thread: its ids, its priority and the processor state it resumes with.
#[derive(Clone, Copy, PartialEq, Eq, Structural, Debug)]
pub struct Thread<C> {
    thread_id: ThreadId,
    spawned_by: Option<ThreadId>,
    priority: ThreadPriority,
    process_id: Option<ProcessId>,
    context: C,
}

/// The run queue that a thread of priority `p` goes to among `levels` of them, before it is
/// clamped to the last queue.
pub open spec fn priority_band(p: int, levels: int) -> int {
    (255 - p) / (255int / levels)
}

impl<C: Copy> Thread<C> {
    pub closed spec fn id_spec(&self) -> ThreadId {
        self.thread_id
    }

    pub closed spec fn spawned_by_spec(&self) -> Option<ThreadId> {
        self.spawned_by
    }

    pub closed spec fn priority_spec(&self) -> ThreadPriority {
        self.priority
    }

    pub closed spec fn process_spec(&self) -> Option<ProcessId> {
        self.process_id
    }

    pub closed spec fn context_spec(&self) -> C {
        self.context
    }

    pub fn new(
        thread_id: ThreadId,
        spawned_by: Option<ThreadId>,
        priority: ThreadPriority,
        process_id: Option<ProcessId>,
        context: C,
    ) -> (r: Self)
        ensures
            r.id_spec() == thread_id,
            r.spawned_by_spec() == spawned_by,
            r.priority_spec() == priority,
            r.process_spec() == process_id,
            r.context_spec() == context,
    {
        Self { thread_id, spawned_by, process_id, priority, context }
    }

    pub fn id(&self) -> (r: ThreadId)
        ensures
            r == self.id_spec(),
    {
        self.thread_id
    }

    pub fn priority(&self) -> (r: ThreadPriority)
        ensures
            r == self.priority_spec(),
    {
        self.priority
    }

    /// The run queue of the thread among `VEC_SIZE` of them: the priorities are split in
    /// `VEC_SIZE` bands, the highest first.
    pub fn priority_index<const VEC_SIZE: usize>(&self) -> (r: usize)
        requires
            crate::power::is_power_of_two(VEC_SIZE as nat),
            VEC_SIZE <= 255,
        ensures
            r == priority_band(self.priority_spec() as int, VEC_SIZE as int),
    {
        proof {
            let e = choose|e: nat| #[trigger] vstd::arithmetic::power2::pow2(e) == VEC_SIZE as nat;
            vstd::arithmetic::power2::lemma_pow2_pos(e);
        }
        let step_size: usize = 255usize / VEC_SIZE;
        proof {
            assert(step_size >= 1) by (nonlinear_arith)
                requires
                    step_size == 255usize / VEC_SIZE,
                    1 <= VEC_SIZE <= 255,
            ;
        }
        let lowered: u8 = 255u8 - self.priority();
        (lowered as usize) / step_size
    }

    /// Keep the processor state the thread resumes with.
    pub fn save_context(&mut self, ctx: C)
        ensures
            final(self).context_spec() == ctx,
            final(self).id_spec() == old(self).id_spec(),
            final(self).spawned_by_spec() == old(self).spawned_by_spec(),
            final(self).priority_spec() == old(self).priority_spec(),
            final(self).process_spec() == old(self).process_spec(),
    {
        self.context = ctx;
    }

    /// The processor state the thread resumes with.
    pub fn context(&self) -> (r: C)
        ensures
            r == self.context_spec(),
    {
        self.context
    }
}

/// The index of the run queue a thread of priority `p` goes to: its band, or the last queue
/// when there are fewer queues than bands.
pub open spec fn queue_index(p: int) -> int {
    let band = priority_band(p, PRIORITY_LEVELS as int);
    if band < PRIORITY_LEVELS {
        band
    } else {
        PRIORITY_LEVELS - 1
    }
}

/// The scheduler of one processor.
pub struct Scheduler<C> {
    id_autoincrement: ThreadId,
    run_queues: Vec<Vec<Thread<C>>>,
    retired_threads: Vec<Thread<C>>,
    allocated_threads: usize,
    allocation_exceeded: bool,
    current_thread: Option<Thread<C>>,
    current_thread_id: ThreadId,
    initialized: bool,
}

impl<C: Copy> Scheduler<C> {
    /// The last thread id handed out.
    pub closed spec fn last_id(&self) -> ThreadId {
        self.id_autoincrement
    }

    /// The run queues, each front first.
    pub closed spec fn queues(&self) -> Seq<Seq<Thread<C>>> {
        self.run_queues@.map_values(|q: Vec<Thread<C>>| q@)
    }

    /// The threads kept for reuse.
    pub closed spec fn retired(&self) -> Seq<Thread<C>> {
        self.retired_threads@
    }

    /// The number of threads allocated so far.
    pub closed spec fn allocated(&self) -> usize {
        self.allocated_threads
    }

    /// The limit of allocated threads was hit.
    pub closed spec fn exceeded(&self) -> bool {
        self.allocation_exceeded
    }

    /// The thread that runs.
    pub closed spec fn current(&self) -> Option<Thread<C>> {
        self.current_thread
    }

    /// The id of the thread that runs, or 0 for none.
    pub closed spec fn current_id(&self) -> ThreadId {
        self.current_thread_id
    }

    pub closed spec fn is_initialized(&self) -> bool {
        self.initialized
    }

    /// Initialized, with one run queue per priority band; the count of allocated threads
    /// passes the limit by at most one, and exactly when the limit was hit.
    pub open spec fn ready(&self) -> bool {
        &&& self.is_initialized()
        &&& self.queues().len() == PRIORITY_LEVELS
        &&& self.allocated() <= MAX_THREADS + 1
        &&& (self.exceeded() <==> self.allocated() > MAX_THREADS)
    }

    /// A scheduler that is not initialized.
    pub fn new() -> (r: Self)
        ensures
            !r.is_initialized(),
            r.last_id() == 0,
            r.allocated() == 0,
            !r.exceeded(),
            r.current() is None,
            r.current_id() == 0,
            r.queues() == Seq::<Seq<Thread<C>>>::empty(),
            r.retired() == Seq::<Thread<C>>::empty(),
    {
        let r = Scheduler {
            id_autoincrement: 0,
            run_queues: Vec::new(),
            retired_threads: Vec::new(),
            allocated_threads: 0,
            allocation_exceeded: false,
            current_thread: None,
            current_thread_id: 0,
            initialized: false,
        };
        proof {
            assert(r.queues() =~= Seq::<Seq<Thread<C>>>::empty());
        }
        r
    }

    /// Set up the run queues, all empty.
    pub fn init(&mut self)
        requires
            !old(self).is_initialized(),
            old(self).allocated() == 0,
            !old(self).exceeded(),
        ensures
            final(self).ready(),
            forall|i: int| 0 <= i < PRIORITY_LEVELS ==> (#[trigger] final(self).queues()[i]).len() == 0,
            final(self).retired() == Seq::<Thread<C>>::empty(),
            final(self).current() is None,
            final(self).current_id() == 0,
            final(self).last_id() == old(self).last_id(),
            final(self).allocated() == old(self).allocated(),
            final(self).exceeded() == old(self).exceeded(),
    {
        let mut queues: Vec<Vec<Thread<C>>> = Vec::new();
        let mut i: usize = 0;
        while i < PRIORITY_LEVELS
            invariant
                0 <= i <= PRIORITY_LEVELS,
                queues@.len() == i,
                forall|j: int| 0 <= j < i ==> (#[trigger] queues@[j])@.len() == 0,
            decreases PRIORITY_LEVELS - i,
        {
            queues.push(Vec::new());
            i = i + 1;
        }
        self.run_queues = queues;
        self.retired_threads = Vec::new();
        self.current_thread = None;
        self.current_thread_id = 0;
        self.initialized = true;
        proof {
            assert(self.queues().len() == PRIORITY_LEVELS);
            assert forall|i: int| 0 <= i < PRIORITY_LEVELS implies (#[trigger] self.queues()[i]).len() == 0 by {
                assert(self.queues()[i] == queues@[i]@);
            }
        }
    }

    /// Hand out the next thread id.
    fn alloc_thread_id(&mut self) -> (r: ThreadId)
        requires
            old(self).last_id() < u32::MAX,
        ensures
            r == old(self).last_id() + 1,
            final(self).last_id() == r,
            final(self).run_queues@ == old(self).run_queues@,
            final(self).retired_threads@ == old(self).retired_threads@,
            final(self).allocated() == old(self).allocated(),
            final(self).exceeded() == old(self).exceeded(),
            final(self).current() == old(self).current(),
            final(self).current_id() == old(self).current_id(),
            final(self).is_initialized() == old(self).is_initialized(),
    {
        self.id_autoincrement = self.id_autoincrement + 1;
        self.id_autoincrement
    }

    /// The id of the thread that runs, if any.
    fn current_thread_id(&self) -> (r: Option<ThreadId>)
        ensures
            r == if self.current_id() == 0 {
                None
            } else {
                Some(self.current_id())
            },
    {
        if self.current_thread_id == 0 {
            None
        } else {
            Some(self.current_thread_id)
        }
    }
}

/// Queue `i` is the first of `qs` that holds a thread.
pub open spec fn is_first_nonempty<C>(qs: Seq<Seq<Thread<C>>>, i: int) -> bool {
    &&& 0 <= i < qs.len()
    &&& qs[i].len() > 0
    &&& forall|j: int| 0 <= j < i ==> (#[trigger] qs[j]).len() == 0
}

/// The first queue of `qs` that holds a thread.
pub open spec fn first_nonempty<C>(qs: Seq<Seq<Thread<C>>>) -> Option<int> {
    if exists|i: int| is_first_nonempty(qs, i) {
        Some(choose|i: int| is_first_nonempty(qs, i))
    } else {
        None
    }
}

/// There is at most one first queue that holds a thread.
pub proof fn lemma_first_nonempty_unique<C>(qs: Seq<Seq<Thread<C>>>, i: int)
    requires
        is_first_nonempty(qs, i),
    ensures
        first_nonempty(qs) == Some(i),
{
    let k = choose|k: int| is_first_nonempty(qs, k);
    if k < i {
        assert(qs[k].len() == 0);
    } else if k > i {
        assert(qs[i].len() == 0);
    }
}

/// The queues after taking the next thread off them.
pub open spec fn taken_next<C>(qs: Seq<Seq<Thread<C>>>) -> Seq<Seq<Thread<C>>> {
    match first_nonempty(qs) {
        None => qs,
        Some(i) => qs.update(i, qs[i].drop_first()),
    }
}

/// The thread taken off the queues next.
pub open spec fn next_thread<C>(qs: Seq<Seq<Thread<C>>>) -> Option<Thread<C>> {
    match first_nonempty(qs) {
        None => None,
        Some(i) => Some(qs[i][0]),
    }
}

impl<C: Copy> Thread<C> {
    /// The thread with the processor state `ctx`.
    pub closed spec fn with_context(self, ctx: C) -> Thread<C> {
        Thread { context: ctx, ..self }
    }

    /// A thread with a new context keeps everything else.
    pub proof fn lemma_with_context(self, ctx: C)
        ensures
            self.with_context(ctx).context_spec() == ctx,
            self.with_context(ctx).id_spec() == self.id_spec(),
            self.with_context(ctx).spawned_by_spec() == self.spawned_by_spec(),
            self.with_context(ctx).priority_spec() == self.priority_spec(),
            self.with_context(ctx).process_spec() == self.process_spec(),
    {
    }
}

/// The queues after `t` joins the end of its queue.
pub open spec fn scheduled<C: Copy>(qs: Seq<Seq<Thread<C>>>, t: Thread<C>) -> Seq<Seq<Thread<C>>> {
    let i = queue_index(t.priority_spec() as int);
    qs.update(i, qs[i].push(t))
}

/// The queues once the thread that runs, if any, went back with its state `ctx`.
pub open spec fn requeued<C: Copy>(qs: Seq<Seq<Thread<C>>>, current: Option<Thread<C>>, ctx: C) -> Seq<Seq<Thread<C>>> {
    match current {
        Some(t) => scheduled(qs, t.with_context(ctx)),
        None => qs,
    }
}

impl<C: Copy> Scheduler<C> {
    /// The run queues are the same vectors, so nothing but their contents is compared.
    pub open spec fn same_but_queues(&self, other: &Self) -> bool {
        &&& self.last_id() == other.last_id()
        &&& self.retired() == other.retired()
        &&& self.allocated() == other.allocated()
        &&& self.exceeded() == other.exceeded()
        &&& self.current_id() == other.current_id()
        &&& self.is_initialized() == other.is_initialized()
    }

    /// Take the thread at the front of the first queue that holds one.
    fn next_node(&mut self) -> (r: Option<Thread<C>>)
        requires
            old(self).ready(),
        ensures
            final(self).ready(),
            r == next_thread(old(self).queues()),
            final(self).queues() == taken_next(old(self).queues()),
            final(self).same_but_queues(old(self)),
            final(self).current() == old(self).current(),
    {
        let ghost qs = self.queues();
        let mut i: usize = 0;
        while i < self.run_queues.len()
            invariant
                0 <= i <= qs.len(),
                qs == self.queues(),
                *self == *old(self),
                old(self).ready(),
                self.run_queues@.len() == qs.len(),
                forall|j: int| 0 <= j < i ==> (#[trigger] qs[j]).len() == 0,
            decreases qs.len() - i,
        {
            proof {
                assert(qs[i as int] == self.run_queues@[i as int]@);
            }
            if self.run_queues[i].len() > 0 {
                proof {
                    assert(is_first_nonempty(qs, i as int));
                    lemma_first_nonempty_unique(qs, i as int);
                }
                let ghost before = self.run_queues@;
                let t = self.run_queues[i].remove(0);
                proof {
                    assert(self.run_queues@ == before.update(i as int, self.run_queues@[i as int]));
                    assert(self.queues() =~= taken_next(qs));
                }
                return Some(t);
            }
            i = i + 1;
        }
        proof {
            if exists|k: int| is_first_nonempty(qs, k) {
                let k = choose|k: int| is_first_nonempty(qs, k);
                assert(qs[k].len() == 0);
            }
        }
        None
    }

    /// Put `t` at the end of the run queue of its priority.
    fn schedule_node(&mut self, t: Thread<C>)
        requires
            old(self).ready(),
        ensures
            final(self).ready(),
            final(self).queues() == scheduled(old(self).queues(), t),
            final(self).same_but_queues(old(self)),
            final(self).current() == old(self).current(),
    {
        proof {
            vstd::arithmetic::power2::lemma2_to64();
        }
        let index = t.priority_index::<PRIORITY_LEVELS>();
        let chosen: usize = if index < self.run_queues.len() {
            index
        } else {
            self.run_queues.len() - 1
        };
        let ghost before = self.run_queues@;
        self.run_queues[chosen].push(t);
        proof {
            assert(self.run_queues@ == before.update(chosen as int, self.run_queues@[chosen as int]));
            assert(self.queues() =~= scheduled(old(self).queues(), t));
        }
    }

    /// Keep the thread `t`, which ended, for reuse.
    fn deallocate_thread(&mut self, t: Thread<C>)
        requires
            old(self).ready(),
        ensures
            final(self).ready(),
            final(self).retired() == old(self).retired().push(t),
            final(self).queues() == old(self).queues(),
            final(self).last_id() == old(self).last_id(),
            final(self).allocated() == old(self).allocated(),
            final(self).exceeded() == old(self).exceeded(),
            final(self).current() == old(self).current(),
            final(self).current_id() == old(self).current_id(),
    {
        self.retired_threads.push(t);
    }
}

/// The thread `t` has the given ids, priority and state, and no process.
pub open spec fn made_as<C: Copy>(
    t: Thread<C>,
    thread: ThreadId,
    spawned_by: Option<ThreadId>,
    priority: ThreadPriority,
    context: C,
) -> bool {
    &&& t.id_spec() == thread
    &&& t.spawned_by_spec() == spawned_by
    &&& t.priority_spec() == priority
    &&& t.process_spec() is None
    &&& t.context_spec() == context
}

/// The thread that spawns a new one: the one that runs, if any; 0 stands for none.
pub open spec fn spawner(current_id: ThreadId) -> Option<ThreadId> {
    if current_id == 0 {
        None
    } else {
        Some(current_id)
    }
}

/// `new` is `old` with a thread made as given at the end of its queue.
pub open spec fn queued_new<C: Copy>(
    old: Seq<Seq<Thread<C>>>,
    new: Seq<Seq<Thread<C>>>,
    thread: ThreadId,
    spawned_by: Option<ThreadId>,
    priority: ThreadPriority,
    context: C,
) -> bool {
    exists|t: Thread<C>| #[trigger] made_as(t, thread, spawned_by, priority, context) && new == scheduled(old, t)
}

impl<C: Copy> Scheduler<C> {
    /// Make a thread: reuse one that ended if there is one, else count a new one against the
    /// limit.
    fn allocate_thread(
        &mut self,
        thread: ThreadId,
        spawned_by: Option<ThreadId>,
        priority: ThreadPriority,
        context: C,
    ) -> (r: Result<Thread<C>, SchedulerError>)
        requires
            old(self).ready(),
        ensures
            final(self).ready(),
            final(self).queues() == old(self).queues(),
            final(self).last_id() == old(self).last_id(),
            final(self).current() == old(self).current(),
            final(self).current_id() == old(self).current_id(),
            old(self).retired().len() > 0 ==> {
                &&& r is Ok
                &&& final(self).retired() == old(self).retired().drop_last()
                &&& final(self).allocated() == old(self).allocated()
                &&& final(self).exceeded() == old(self).exceeded()
            },
            old(self).retired().len() == 0 ==> final(self).retired() == old(self).retired(),
            old(self).retired().len() == 0 && old(self).exceeded() ==> {
                &&& r == Err::<Thread<C>, SchedulerError>(SchedulerError::ThreadLimit)
                &&& final(self).allocated() == old(self).allocated()
                &&& final(self).exceeded()
            },
            old(self).retired().len() == 0 && !old(self).exceeded() ==> {
                &&& final(self).allocated() == old(self).allocated() + 1
                &&& old(self).allocated() + 1 > MAX_THREADS ==> r == Err::<Thread<C>, SchedulerError>(
                    SchedulerError::ThreadLimit,
                ) && final(self).exceeded()
                &&& old(self).allocated() + 1 <= MAX_THREADS ==> r is Ok && !final(self).exceeded()
            },
            r is Ok ==> made_as(r.unwrap(), thread, spawned_by, priority, context),
    {
        let new_thread = Thread::new(thread, spawned_by, priority, None, context);
        if self.retired_threads.len() > 0 {
            let _retired = self.retired_threads.pop();
            return Ok(new_thread);
        }
        if self.allocation_exceeded {
            return Err(SchedulerError::ThreadLimit);
        }
        let old_count: usize = self.allocated_threads;
        self.allocated_threads = old_count + 1;
        if old_count + 1 > MAX_THREADS {
            self.allocation_exceeded = true;
            return Err(SchedulerError::ThreadLimit);
        }
        Ok(new_thread)
    }

    /// Make thread `new_thread_id`, spawned by the thread that runs.
    fn spawn_id(&mut self, new_thread_id: ThreadId, priority: ThreadPriority, context: C) -> (r: Result<
        Thread<C>,
        SchedulerError,
    >)
        requires
            old(self).ready(),
        ensures
            final(self).ready(),
            final(self).queues() == old(self).queues(),
            final(self).last_id() == old(self).last_id(),
            final(self).current() == old(self).current(),
            final(self).current_id() == old(self).current_id(),
            final(self).allocated() >= old(self).allocated(),
            r is Ok ==> made_as(
                r.unwrap(),
                new_thread_id,
                spawner(old(self).current_id()),
                priority,
                context,
            ),
            r is Err ==> r == Err::<Thread<C>, SchedulerError>(SchedulerError::ThreadLimit) && old(self).retired().len()
                == 0 && final(self).exceeded(),
            old(self).retired().len() == 0 && !old(self).exceeded() && old(self).allocated() + 1 <= MAX_THREADS
                ==> r is Ok,
            old(self).retired().len() > 0 ==> r is Ok,
            r is Ok ==> (old(self).retired().len() > 0 && final(self).retired() == old(self).retired().drop_last())
                || (old(self).retired().len() == 0 && final(self).retired() == old(self).retired()
                && final(self).allocated() == old(self).allocated() + 1),
    {
        let spawned_by = self.current_thread_id();
        self.allocate_thread(new_thread_id, spawned_by, priority, context)
    }

    /// Make a thread that resumes with `context` and queue it; returns its id.
    pub fn spawn_thread(&mut self, priority: ThreadPriority, context: C) -> (r: Result<ThreadId, SchedulerError>)
        requires
            old(self).ready(),
            old(self).last_id() < u32::MAX,
        ensures
            final(self).ready(),
            final(self).last_id() == old(self).last_id() + 1,
            final(self).current() == old(self).current(),
            final(self).current_id() == old(self).current_id(),
            r is Err ==> r == Err::<ThreadId, SchedulerError>(SchedulerError::ThreadLimit) && final(self).queues()
                == old(self).queues() && final(self).exceeded(),
            r is Ok ==> r == Ok::<ThreadId, SchedulerError>(final(self).last_id()) && queued_new(
                old(self).queues(),
                final(self).queues(),
                final(self).last_id(),
                spawner(old(self).current_id()),
                priority,
                context,
            ),
            old(self).retired().len() == 0 && !old(self).exceeded() && old(self).allocated() < MAX_THREADS
                ==> r is Ok,
            old(self).retired().len() > 0 ==> r is Ok,
    {
        let new_thread_id = self.alloc_thread_id();
        let t = match self.spawn_id(new_thread_id, priority, context) {
            Ok(t) => t,
            Err(e) => {
                return Err(e);
            },
        };
        self.schedule_node(t);
        Ok(new_thread_id)
    }

    /// Make the code that runs now a thread of priority `priority`; returns its id.
    ///
    /// Fails with [`SchedulerError::SlotTaken`] when a thread already runs.
    pub fn current_as_thread(&mut self, priority: ThreadPriority) -> (r: Result<ThreadId, SchedulerError>)
        where C: Default,
        requires
            old(self).ready(),
            old(self).last_id() < u32::MAX,
        ensures
            final(self).ready(),
            final(self).last_id() == old(self).last_id() + 1,
            final(self).queues() == old(self).queues(),
            old(self).current_id() != 0 ==> r == Err::<ThreadId, SchedulerError>(SchedulerError::SlotTaken)
                && final(self).current() == old(self).current() && final(self).current_id() == old(self).current_id(),
            old(self).current_id() == 0 ==> final(self).current_id() == final(self).last_id(),
            old(self).current_id() == 0 && r is Err ==> r == Err::<ThreadId, SchedulerError>(SchedulerError::ThreadLimit)
                && final(self).current() == old(self).current(),
            r is Ok ==> r == Ok::<ThreadId, SchedulerError>(final(self).last_id()) && final(self).current() is Some
                && final(self).current().unwrap().id_spec() == final(self).last_id()
                && final(self).current().unwrap().spawned_by_spec() == Some(final(self).last_id())
                && final(self).current().unwrap().priority_spec() == priority,
            old(self).current_id() == 0 && old(self).retired().len() > 0 ==> r is Ok,
    {
        let tid = self.alloc_thread_id();
        if self.current_thread_id != 0 {
            return Err(SchedulerError::SlotTaken);
        }
        self.current_thread_id = tid;
        let t = match self.spawn_id(tid, priority, C::default()) {
            Ok(t) => t,
            Err(e) => {
                return Err(e);
            },
        };
        self.current_thread = Some(t);
        Ok(tid)
    }

    /// Switch threads on a timer tick: the thread that runs, if any, keeps `current` as its
    /// state and goes to the end of its queue; the thread at the front of the first queue that
    /// holds one runs next, and its state is returned. `None` when no thread is left to run.
    pub fn next_ctx(&mut self, current: C) -> (r: Option<C>)
        requires
            old(self).ready(),
        ensures
            final(self).ready(),
            final(self).same_but_queues(old(self)),
            ({
                let qs = requeued(old(self).queues(), old(self).current(), current);
                &&& final(self).queues() == taken_next(qs)
                &&& final(self).current() == next_thread(qs)
                &&& r == match next_thread(qs) {
                    Some(t) => Some(t.context_spec()),
                    None => None::<C>,
                }
            }),
    {
        match self.current_thread.take() {
            Some(mut t) => {
                t.save_context(current);
                proof {
                    old(self).current().unwrap().lemma_with_context(current);
                    assert(t == old(self).current().unwrap().with_context(current));
                }
                self.schedule_node(t);
            },
            None => {},
        }
        let next = match self.next_node() {
            Some(n) => n,
            None => {
                return None;
            },
        };
        let ctx = next.context();
        self.current_thread = Some(next);
        Some(ctx)
    }
}

/// Every priority goes to the one run queue there is.
pub proof fn lemma_single_queue(p: int)
    requires
        0 <= p <= 255,
    ensures
        queue_index(p) == 0,
{
    assert(255int / (PRIORITY_LEVELS as int) == 255);
    assert(0 <= (255 - p) / 255 <= 1);
}

/// Law: with one run queue, a tick rotates the threads: the thread that ran goes to the back
/// of the queue with its saved state, the thread at the front runs next, and no thread is
/// lost or added.
pub proof fn lemma_next_ctx_rotates<C: Copy>(q: Seq<Thread<C>>, t: Thread<C>, ctx: C)
    ensures
        ({
            let qs = requeued(seq![q], Some(t), ctx);
            let all = q.push(t.with_context(ctx));
            &&& next_thread(qs) == Some(all[0])
            &&& taken_next(qs) == seq![all.drop_first()]
        }),
{
    let t2 = t.with_context(ctx);
    t.lemma_with_context(ctx);
    lemma_single_queue(t2.priority_spec() as int);
    let qs = requeued(seq![q], Some(t), ctx);
    let all = q.push(t2);
    assert(qs == seq![q].update(0, q.push(t2)));
    assert(qs =~= seq![all]);
    assert(is_first_nonempty(qs, 0));
    lemma_first_nonempty_unique(qs, 0);
    assert(taken_next(qs) =~= seq![all.drop_first()]);
}

/// Law: with one run queue and no thread running, a tick runs the thread at the front of the
/// queue, and runs nothing when the queue is empty.
pub proof fn lemma_next_ctx_idle<C: Copy>(q: Seq<Thread<C>>, ctx: C)
    ensures
        ({
            let qs = requeued(seq![q], None, ctx);
            &&& q.len() > 0 ==> next_thread(qs) == Some(q[0]) && taken_next(qs) == seq![q.drop_first()]
            &&& q.len() == 0 ==> next_thread(qs) is None && taken_next(qs) == seq![q]
        }),
{
    let qs = requeued(seq![q], None, ctx);
    assert(qs == seq![q]);
    if q.len() > 0 {
        assert(is_first_nonempty(qs, 0));
        lemma_first_nonempty_unique(qs, 0);
        assert(taken_next(qs) =~= seq![q.drop_first()]);
    } else {
        if exists|i: int| is_first_nonempty(qs, i) {
            let i = choose|i: int| is_first_nonempty(qs, i);
            assert(qs[i].len() > 0);
        }
    }
}

/// The timer tick: the thread that runs, if any, is put back with `current_context`, and the
/// next thread runs; returns the state it resumes with.
///
/// There must be a thread to switch to: the scheduler has no idle thread.
pub fn tick<C: Copy>(scheduler: &mut Scheduler<C>, current_context: C) -> (r: C)
    requires
        old(scheduler).ready(),
        next_thread(requeued(old(scheduler).queues(), old(scheduler).current(), current_context)) is Some,
    ensures
        final(scheduler).ready(),
        final(scheduler).same_but_queues(old(scheduler)),
        ({
            let qs = requeued(old(scheduler).queues(), old(scheduler).current(), current_context);
            &&& final(scheduler).queues() == taken_next(qs)
            &&& final(scheduler).current() == next_thread(qs)
            &&& r == next_thread(qs).unwrap().context_spec()
        }),
{
    match scheduler.next_ctx(current_context) {
        Some(next) => next,
        None => current_context,
    }
}

/// A process: its id, never 0, and its memory.
pub struct Process {
    process_id: ProcessId,
    manager: MemoryManager,
}

impl Process {
    pub closed spec fn id_spec(&self) -> ProcessId {
        self.process_id
    }

    pub fn new(process_id: ProcessId, manager: MemoryManager) -> (r: Self)
        requires
            process_id != 0,
        ensures
            r.id_spec() == process_id,
    {
        Process { process_id, manager }
    }

    pub fn id(&self) -> (r: ProcessId)
        ensures
            r == self.id_spec(),
    {
        self.process_id
    }
}

} // verus!
