//! Preemptive round-robin scheduler.
//!
//! The scheduler keeps the running thread, a FIFO run queue and the threads
//! that have exited but whose stacks may still be in use until the next
//! switch. Every switch runs the thread at the front of the queue and puts
//! the outgoing one at the back (or, when it exits, among the exited ones),
//! so runnable threads take turns in a fixed cycle.

pub mod thread;

use vstd::prelude::*;
use vstd::seq_lib::lemma_seq_union_to_multiset_commutative;
use std::collections::VecDeque;
use crate::usermode::UserMode;
use thread::{Thread, ThreadId, STACK_SIZE, STACK_WORDS, SWITCH_FRAME_QWORDS, holds_initial_frame, stack_top};

verus! {

/// The threads in the order they will run: the running one first, then the
/// run queue.
pub open spec fn live(current: Option<Box<Thread>>, queue: Seq<Box<Thread>>) -> Seq<Box<Thread>> {
    match current {
        Some(t) => seq![t] + queue,
        None => queue,
    }
}

/// One turn of round robin: the first thread goes to the back.
pub open spec fn rotate<T>(s: Seq<T>) -> Seq<T> {
    if s.len() == 0 {
        s
    } else {
        s.drop_first().push(s[0])
    }
}

/// `n` turns of round robin.
pub open spec fn rotate_n<T>(s: Seq<T>, n: nat) -> Seq<T>
    decreases n,
{
    if n == 0 {
        s
    } else {
        rotate(rotate_n(s, (n - 1) as nat))
    }
}

/// The ids of `ts`, in order.
pub open spec fn ids(ts: Seq<Box<Thread>>) -> Seq<ThreadId> {
    ts.map_values(|t: Box<Thread>| t.id)
}

/// State of the scheduler.
pub struct Scheduler {
    runqueue: VecDeque<Box<Thread>>,
    current: Option<Box<Thread>>,
    exited: Vec<Box<Thread>>,
    ready: bool,
    next_id: u64,
}

impl Scheduler {
    /// Once ready, the scheduler always knows the running thread.
    pub closed spec fn wf(&self) -> bool {
        self.ready ==> self.current is Some
    }

    /// The run queue, front first.
    pub closed spec fn queue(&self) -> Seq<Box<Thread>> {
        self.runqueue@
    }

    /// The running thread, once the scheduler knows one.
    pub closed spec fn current(&self) -> Option<Box<Thread>> {
        self.current
    }

    /// Threads that exited; their stacks are freed at the next switch.
    pub closed spec fn exited(&self) -> Seq<Box<Thread>> {
        self.exited@
    }

    /// True once the boot flow has been adopted and preemption may switch.
    pub closed spec fn is_ready(&self) -> bool {
        self.ready
    }

    /// The id the next spawned thread gets.
    pub closed spec fn next_id(&self) -> u64 {
        self.next_id
    }

    /// The running thread followed by the run queue.
    pub open spec fn live(&self) -> Seq<Box<Thread>> {
        live(self.current(), self.queue())
    }

    /// Every thread the scheduler holds: running, queued and exited.
    pub open spec fn all_threads(&self) -> Seq<Box<Thread>> {
        self.live() + self.exited()
    }

    /// No two threads share an id, and every id was handed out before the
    /// next one.
    pub open spec fn ids_unique(&self) -> bool {
        &&& ids(self.all_threads()).no_duplicates()
        &&& forall|i: int|
            0 <= i < self.all_threads().len() ==> (#[trigger] self.all_threads()[i]).id.0
                < self.next_id()
    }

    /// A scheduler with no threads; ids are handed out from 1 on (0 is the
    /// bootstrap thread's).
    pub fn new() -> (s: Scheduler)
        ensures
            s.queue() == Seq::<Box<Thread>>::empty(),
            s.current() is None,
            s.exited() == Seq::<Box<Thread>>::empty(),
            !s.is_ready(),
            s.next_id() == 1,
            s.wf(),
            s.ids_unique(),
    {
        Scheduler {
            runqueue: VecDeque::new(),
            current: None,
            exited: Vec::new(),
            ready: false,
            next_id: 1,
        }
    }

    /// How many threads wait in the run queue.
    pub fn queue_len(&self) -> (n: usize)
        ensures
            n == self.queue().len(),
    {
        self.runqueue.len()
    }

    /// Whether the scheduler knows the running thread.
    pub fn has_current(&self) -> (b: bool)
        ensures
            b == self.current() is Some,
    {
        self.current.is_some()
    }

    /// Adopt the current boot flow as thread 0 and enable preemption.
    pub fn init(&mut self)
        ensures
            final(self).current() matches Some(t) && t.id == ThreadId(0) && t.saved_rsp == 0
                && t.stack() is None,
            final(self).is_ready(),
            final(self).queue() == old(self).queue(),
            final(self).exited() == old(self).exited(),
            final(self).next_id() == old(self).next_id(),
            final(self).wf(),
            old(self).current() is None && old(self).ids_unique() && !ids(
                old(self).all_threads(),
            ).contains(ThreadId(0)) && old(self).next_id() > 0 ==> final(self).ids_unique(),
    {
        self.current = Some(Box::new(Thread::bootstrap()));
        self.ready = true;
        proof {
            if old(self).current() is None && old(self).ids_unique() && !ids(
                old(self).all_threads(),
            ).contains(ThreadId(0)) && old(self).next_id() > 0 {
                let s = ids(old(self).all_threads());
                let t = ids(self.all_threads());
                assert(self.all_threads() =~= seq![self.current->0] + old(self).all_threads());
                assert forall|i: int, j: int|
                    0 <= i < t.len() && 0 <= j < t.len() && i != j implies t[i] != t[j] by {
                    if i == 0 {
                        assert(t[j] == s[j - 1]);
                    } else if j == 0 {
                        assert(t[i] == s[i - 1]);
                    } else {
                        assert(t[i] == s[i - 1] && t[j] == s[j - 1]);
                    }
                }
                assert forall|i: int|
                    0 <= i < self.all_threads().len() implies (
                    #[trigger] self.all_threads()[i]).id.0 < self.next_id() by {
                    if i > 0 {
                        assert(self.all_threads()[i] == old(self).all_threads()[i - 1]);
                    }
                }
            }
        }
    }

    /// Add a new kernel thread running `entry` (through `trampoline`) on
    /// `stack`, whose first word lies at `stack_base`, at the back of the
    /// run queue, and return its id.
    pub fn spawn(&mut self, entry: usize, trampoline: usize, stack: Vec<u64>, stack_base: usize) -> (id:
        ThreadId)
        requires
            old(self).wf(),
            stack@.len() == STACK_WORDS,
            stack_base % 8 == 0,
            stack_base + STACK_SIZE <= usize::MAX,
        ensures
            id == ThreadId(old(self).next_id()),
            final(self).next_id() == (if old(self).next_id() == u64::MAX {
                0
            } else {
                (old(self).next_id() + 1) as u64
            }),
            final(self).queue().len() == old(self).queue().len() + 1,
            final(self).queue().drop_last() == old(self).queue(),
            final(self).queue().last().id == id,
            final(self).queue().last().stack_base() == stack_base,
            final(self).queue().last().saved_rsp == stack_top(stack_base) - SWITCH_FRAME_QWORDS
                * 8,
            holds_initial_frame(*final(self).queue().last(), stack@, entry, trampoline),
            final(self).current() == old(self).current(),
            final(self).exited() == old(self).exited(),
            final(self).is_ready() == old(self).is_ready(),
            final(self).wf(),
            old(self).ids_unique() && old(self).next_id() < u64::MAX ==> final(self).ids_unique(),
    {
        let mut next_id = self.next_id;
        let thread = Box::new(Thread::new(entry, trampoline, stack, stack_base, &mut next_id));
        self.next_id = next_id;
        let id = thread.id;
        self.runqueue.push_back(thread);
        assert(self.runqueue@.drop_last() =~= old(self).queue());
        proof {
            if old(self).ids_unique() && old(self).next_id() < u64::MAX {
                let o = old(self).all_threads();
                let n = self.all_threads();
                let p = old(self).live().len();
                assert(n.len() == o.len() + 1);
                assert forall|i: int| 0 <= i < n.len() implies #[trigger] n[i] == (if i < p {
                    o[i]
                } else if i == p {
                    self.runqueue@.last()
                } else {
                    o[i - 1]
                }) by {
                    assert(self.live() =~= old(self).live().push(self.runqueue@.last()));
                }
                assert forall|i: int, j: int|
                    0 <= i < ids(n).len() && 0 <= j < ids(n).len() && i != j implies ids(n)[i]
                    != ids(n)[j] by {
                    assert(ids(n)[i] == n[i].id);
                    assert(ids(n)[j] == n[j].id);
                    if i != p && j != p {
                        let gi = if i < p { i } else { i - 1 };
                        let gj = if j < p { j } else { j - 1 };
                        assert(ids(o)[gi] != ids(o)[gj]);
                    } else if i == p {
                        let gj = if j < p { j } else { j - 1 };
                        assert(o[gj].id.0 < old(self).next_id());
                    } else {
                        let gi = if i < p { i } else { i - 1 };
                        assert(o[gi].id.0 < old(self).next_id());
                    }
                }
                assert forall|i: int| 0 <= i < n.len() implies (#[trigger] n[i]).id.0
                    < self.next_id() by {
                    if i != p {
                        let gi = if i < p { i } else { i - 1 };
                        assert(o[gi].id.0 < old(self).next_id());
                    }
                }
            }
        }
        id
    }

    /// The saved-stack-pointer field of the running thread, where a switch
    /// away from it stores the outgoing stack pointer.
    pub fn current_rsp_slot(&mut self) -> (r: Option<&mut usize>)
        requires
            old(self).wf(),
        ensures
            final(self).wf(),
            final(self).queue() == old(self).queue(),
            final(self).exited() == old(self).exited(),
            final(self).is_ready() == old(self).is_ready(),
            final(self).next_id() == old(self).next_id(),
            match r {
                None => old(self).current() is None && final(self).current() is None,
                Some(slot) => {
                    &&& old(self).current() matches Some(t) && *slot == t.saved_rsp
                    &&& final(self).current() matches Some(u) && u.saved_rsp == *final(slot)
                        && u.id == old(self).current()->0.id && u.stack == old(
                        self,
                    ).current()->0.stack
                },
            },
    {
        let r = match &mut self.current {
            Some(t) => Some(&mut t.saved_rsp),
            None => None,
        };
        r
    }

    /// The core switch decision.
    ///
    /// Frees the threads that exited before, then runs the front of the run
    /// queue: the outgoing thread goes to the back of the queue, or among the
    /// exited threads when `exiting`. Returns the saved stack pointer of the
    /// thread to switch to, or `None` when the queue is empty and the running
    /// thread keeps going.
    pub fn schedule(&mut self, exiting: bool) -> (r: Option<usize>)
        requires
            exiting ==> old(self).queue().len() > 0,
            old(self).wf(),
            old(self).queue().len() > 0 ==> old(self).current() is Some,
        ensures
            final(self).wf(),
            old(self).ids_unique() ==> final(self).ids_unique(),
            final(self).next_id() == old(self).next_id(),
            final(self).is_ready() == old(self).is_ready(),
            old(self).queue().len() == 0 ==> {
                &&& r is None
                &&& final(self).current() == old(self).current()
                &&& final(self).queue() == old(self).queue()
                &&& final(self).exited() == Seq::<Box<Thread>>::empty()
            },
            old(self).queue().len() > 0 ==> {
                &&& r == Some(old(self).queue()[0].saved_rsp)
                &&& final(self).current() == Some(old(self).queue()[0])
                &&& !exiting ==> final(self).queue() == old(self).queue().drop_first().push(
                    old(self).current()->0,
                )
                &&& !exiting ==> final(self).exited() == Seq::<Box<Thread>>::empty()
                &&& exiting ==> final(self).queue() == old(self).queue().drop_first()
                &&& exiting ==> final(self).exited() == seq![old(self).current()->0]
                &&& !exiting ==> ids(final(self).live()).to_multiset() == ids(
                    old(self).live(),
                ).to_multiset()
                &&& exiting ==> ids(final(self).live()).to_multiset() == ids(
                    old(self).live(),
                ).to_multiset().remove(old(self).current()->0.id)
            },
    {
        self.exited.clear();
        let next = match self.runqueue.pop_front() {
            Some(t) => t,
            None => {
                proof {
                    if old(self).ids_unique() {
                        let o = old(self).all_threads();
                        let n = self.all_threads();
                        assert(n =~= old(self).live());
                        lemma_ids_reindex(o, n, |i: int| i, old(self).next_id());
                    }
                }
                return None;
            },
        };
        let old_thread = match self.current.take() {
            Some(t) => t,
            None => {
                assert(false);
                return None;
            },
        };
        if exiting {
            self.exited.push(old_thread);
        } else {
            self.runqueue.push_back(old_thread);
        }
        let new_sp = next.saved_rsp;
        self.current = Some(next);
        assert(self.runqueue@ =~= if exiting {
            old(self).queue().drop_first()
        } else {
            old(self).queue().drop_first().push(old(self).current()->0)
        });
        proof {
            if old(self).ids_unique() {
                let o = old(self).all_threads();
                let n = self.all_threads();
                let q = old(self).queue();
                assert(n =~= q.push(old(self).current()->0));
                assert(o =~= seq![old(self).current()->0] + q + old(self).exited());
                lemma_ids_reindex(o, n, |i: int| if i < q.len() { i + 1 } else { 0 }, old(self).next_id());
            }
            let c = old(self).current()->0;
            let q = old(self).queue();
            if exiting {
                lemma_exit_ids(c, q);
                assert(self.live() =~= q);
            } else {
                lemma_switch_rotates(c, q);
                lemma_rotate_ids(old(self).live());
            }
        }
        Some(new_sp)
    }

    /// Timer preemption point: a switch as in [`Scheduler::schedule`], but
    /// only once the scheduler is ready, and never while a ring-3 program
    /// runs (`user`): a user program runs on the one kernel stack its traps
    /// enter on, so preemption stays paused until it has ended.
    pub fn preempt(&mut self, user: &UserMode) -> (r: Option<usize>)
        requires
            old(self).wf(),
        ensures
            final(self).wf(),
            old(self).ids_unique() ==> final(self).ids_unique(),
            !old(self).is_ready() || user.running() ==> r is None && *final(self) == *old(self),
            old(self).is_ready() && !user.running() ==> {
                &&& final(self).is_ready()
                &&& final(self).next_id() == old(self).next_id()
                &&& final(self).exited() == Seq::<Box<Thread>>::empty()
                &&& final(self).current() == Some(
                    if old(self).queue().len() > 0 {
                        old(self).queue()[0]
                    } else {
                        old(self).current()->0
                    },
                )
                &&& final(self).live() == rotate(old(self).live())
                &&& r == if old(self).queue().len() > 0 {
                    Some(old(self).queue()[0].saved_rsp)
                } else {
                    None
                }
            },
    {
        if self.ready && !user.in_user() {
            let r = self.schedule(false);
            proof {
                lemma_switch_rotates(old(self).current()->0, old(self).queue());
            }
            r
        } else {
            None
        }
    }
}

/// Turning the line by one keeps the ids it holds, each as often as before.
proof fn lemma_rotate_ids(s: Seq<Box<Thread>>)
    ensures
        ids(rotate(s)).to_multiset() == ids(s).to_multiset(),
{
    if s.len() > 0 {
        let x = ids(s);
        assert(ids(rotate(s)) =~= x.drop_first() + seq![x[0]]);
        assert(x =~= seq![x[0]] + x.drop_first());
        lemma_seq_union_to_multiset_commutative(seq![x[0]], x.drop_first());
    }
}

/// Dropping the running thread from the line removes exactly its id.
proof fn lemma_exit_ids(cur: Box<Thread>, queue: Seq<Box<Thread>>)
    ensures
        ids(queue).to_multiset() == ids(seq![cur] + queue).to_multiset().remove(cur.id),
{
    broadcast use vstd::seq_lib::group_to_multiset_ensures;
    broadcast use vstd::multiset::group_multiset_axioms;

    let q = ids(queue);
    assert(ids(seq![cur] + queue) =~= seq![cur.id] + q);
    lemma_seq_union_to_multiset_commutative(seq![cur.id], q);
    assert(q + seq![cur.id] =~= q.push(cur.id));
    assert(q.to_multiset().insert(cur.id).remove(cur.id) =~= q.to_multiset());
}

/// Reordering threads and dropping some never makes two ids equal, and keeps
/// every id below the bound it was below.
proof fn lemma_ids_reindex(o: Seq<Box<Thread>>, n: Seq<Box<Thread>>, g: spec_fn(int) -> int, bound: u64)
    requires
        ids(o).no_duplicates(),
        forall|i: int| 0 <= i < o.len() ==> (#[trigger] o[i]).id.0 < bound,
        forall|i: int| 0 <= i < n.len() ==> 0 <= #[trigger] g(i) < o.len() && n[i] == o[g(i)],
        forall|i: int, j: int|
            0 <= i < n.len() && 0 <= j < n.len() && i != j ==> #[trigger] g(i) != #[trigger] g(j),
    ensures
        ids(n).no_duplicates(),
        forall|i: int| 0 <= i < n.len() ==> (#[trigger] n[i]).id.0 < bound,
{
    assert forall|i: int, j: int|
        0 <= i < ids(n).len() && 0 <= j < ids(n).len() && i != j implies ids(n)[i] != ids(n)[j] by {
        assert(ids(n)[i] == ids(o)[g(i)]);
        assert(ids(n)[j] == ids(o)[g(j)]);
    }
    assert forall|i: int| 0 <= i < n.len() implies (#[trigger] n[i]).id.0 < bound by {
        assert(n[i] == o[g(i)]);
    }
}

/// An exited thread never runs again: while ids are unique, no running or
/// queued thread carries the id of an exited one. Switches only rearrange
/// running and queued threads, and a new thread gets a fresh id, so the id
/// of a thread that exited is never the running one's.
pub proof fn lemma_exited_not_live(s: Scheduler, i: int, j: int)
    requires
        s.ids_unique(),
        0 <= i < s.exited().len(),
        0 <= j < s.live().len(),
    ensures
        s.exited()[i].id != s.live()[j].id,
{
    let a = s.all_threads();
    let k = s.live().len() + i;
    assert(a[k] == s.exited()[i]);
    assert(a[j] == s.live()[j]);
    assert(ids(a)[k] != ids(a)[j]);
}

/// A switch that does not exit moves the running thread behind the queue:
/// the order in which the threads run turns by one.
pub proof fn lemma_switch_rotates<T>(cur: T, queue: Seq<T>)
    ensures
        queue.len() > 0 ==> seq![queue[0]] + queue.drop_first().push(cur) == rotate(
            seq![cur] + queue,
        ),
        queue.len() == 0 ==> seq![cur] + queue == rotate(seq![cur] + queue),
{
    if queue.len() > 0 {
        assert(seq![queue[0]] + queue.drop_first().push(cur) =~= (seq![cur] + queue).drop_first().push(
            cur,
        ));
    } else {
        assert(seq![cur] + queue =~= (seq![cur] + queue).drop_first().push(cur));
    }
}

/// Round robin is fair: after `k` switches that do not exit, the thread
/// that was `k`-th in line runs, and after as many switches as there are
/// threads, every thread is back in its place.
pub proof fn lemma_round_robin<T>(line: Seq<T>, k: nat)
    requires
        k <= line.len(),
    ensures
        rotate_n(line, k) == line.skip(k as int) + line.take(k as int),
        k < line.len() ==> rotate_n(line, k)[0] == line[k as int],
        rotate_n(line, line.len()) == line,
{
    lemma_round_robin_prefix(line, k);
    lemma_round_robin_prefix(line, line.len());
    assert(line.skip(line.len() as int) + line.take(line.len() as int) =~= line);
}

proof fn lemma_round_robin_prefix<T>(line: Seq<T>, k: nat)
    requires
        k <= line.len(),
    ensures
        rotate_n(line, k) == line.skip(k as int) + line.take(k as int),
    decreases k,
{
    if k == 0 {
        assert(line.skip(0) + line.take(0) =~= line);
    } else {
        lemma_round_robin_prefix(line, (k - 1) as nat);
        let prev = rotate_n(line, (k - 1) as nat);
        assert(prev[0] == line[k - 1]);
        assert(rotate(prev) =~= line.skip(k as int) + line.take(k as int));
    }
}

} // verus!
