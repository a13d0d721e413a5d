//! The work queue, as the state that all threads share and the steps that
//! change it.
//!
//! Every step is what one thread does while it alone holds the queue. A
//! step never sleeps: where a thread has to wait, the step says so, and
//! the thread sleeps on the condition named, outside, and then takes the
//! step that follows a wake-up. Each outcome also tells which sleepers
//! are to be woken.
//!
//! The queue knows the number of its workers. It is quiescent when it is
//! empty and every worker is parked in a pop: then no work is left and
//! none can come.

use std::collections::VecDeque;
use vstd::prelude::*;

verus! {

/// How many sleepers on one condition are to be woken.
#[derive(Debug, Clone, Copy, PartialEq, Eq, Structural)]
pub enum Wake {
    Nobody,
    One,
    All,
}

/// Whom to wake after a step: those who sleep until there is more to pop,
/// until there is room to push, until the queue looks done.
#[derive(Debug, Clone, Copy, PartialEq, Eq, Structural)]
pub struct Signals {
    pub more: Wake,
    pub has_room: Wake,
    pub looks_done: Wake,
}

/// A snapshot of the queue's counters.
#[derive(Debug, Clone, Copy, PartialEq, Eq, Structural)]
pub struct QueueStats {
    pub curr_poppers: usize,
    pub curr_pushers: usize,
    pub curr_q_len: usize,
    pub max_q_len: usize,
}

/// Why a step failed.
#[derive(Debug, Clone, Copy, PartialEq, Eq, Structural)]
pub enum QueueError {
    /// A bounded queue is full and every worker is pushing.
    Overflow { len: usize, pushers: usize },
    /// A bounded queue is full and every worker waits to push.
    Stuck { len: usize, pushers: usize },
    /// Some thread gave up on an overflow.
    Dead { dead: usize },
}

/// How a push went.
#[derive(Debug)]
pub enum PushStep<T> {
    /// The item is in the queue. One sleeper for more is to be woken.
    Pushed,
    /// The queue is full. The item comes back; the thread is counted as a
    /// pusher, sleeps until there is room and pushes again.
    Full(T),
}

/// How a pop went.
#[derive(Debug)]
pub enum PopStep<T> {
    /// The item that was at the head. One sleeper for room is to be woken.
    Item(T),
    /// The queue is empty. The thread is counted as a popper, sleeps until
    /// there is more and pops again. With `quiescent` every worker is now
    /// parked, and one sleeper for the end is to be woken first.
    Empty { quiescent: bool },
}

/// Why a thread that waits for the end looks at the queue.
#[derive(Debug, Clone, Copy, PartialEq, Eq, Structural)]
pub enum WakeUp {
    /// It has not slept yet.
    First,
    /// It was woken.
    Notified,
    /// Its time ran out.
    TimedOut,
}

/// What a thread that waits for the end does next.
#[derive(Debug, Clone, Copy, PartialEq, Eq, Structural)]
pub enum FinishStep {
    /// The queue is quiescent, with this many poppers parked.
    Quiescent(usize),
    /// The time ran out.
    TimedOut,
    /// Sleep until the queue looks done.
    Wait,
}

/// The state of a queue, as contracts see it.
pub struct QueueView<T> {
    /// The items, the head first.
    pub items: Seq<T>,
    pub poppers: nat,
    pub pushers: nat,
    pub max_waiters: nat,
    pub dead: nat,
    pub max_len: nat,
    /// The most items a bounded queue holds; 0 for an unbounded one.
    pub limit: nat,
}

/// Empty, and every worker parked in a pop.
pub open spec fn quiescent<T>(v: QueueView<T>) -> bool {
    v.items.len() == 0 && v.poppers == v.max_waiters
}

/// A bounded queue at its limit with every worker pushing.
pub open spec fn stuck<T>(v: QueueView<T>) -> bool {
    v.limit != 0 && v.pushers >= v.max_waiters && v.items.len() >= v.limit
}

/// The queue with `item` at its tail.
pub open spec fn enqueued<T>(v: QueueView<T>, item: T) -> QueueView<T> {
    QueueView {
        items: v.items.push(item),
        max_len: if v.items.len() + 1 > v.max_len {
            v.items.len() + 1
        } else {
            v.max_len
        },
        ..v
    }
}

/// The queue without its head.
pub open spec fn dequeued<T>(v: QueueView<T>) -> QueueView<T> {
    QueueView { items: v.items.skip(1), ..v }
}

/// The queue with another number of poppers.
pub open spec fn with_poppers<T>(v: QueueView<T>, poppers: nat) -> QueueView<T> {
    QueueView { poppers, ..v }
}

/// The queue with another number of pushers.
pub open spec fn with_pushers<T>(v: QueueView<T>, pushers: nat) -> QueueView<T> {
    QueueView { pushers, ..v }
}

/// The queue after a push of `item`: the item is taken where there is
/// room; else the pusher is counted, and a thread is counted as dead if
/// with it every worker is pushing.
pub open spec fn push_result<T>(v: QueueView<T>, item: T) -> QueueView<T> {
    if v.limit == 0 || v.items.len() < v.limit {
        enqueued(v, item)
    } else if v.pushers + 1 < v.max_waiters {
        with_pushers(v, v.pushers + 1)
    } else {
        QueueView { pushers: v.pushers + 1, dead: v.dead + 1, ..v }
    }
}

/// The queue after a counted pusher pushed `item` again.
pub open spec fn push_retry_result<T>(v: QueueView<T>, item: T) -> QueueView<T> {
    if v.limit == 0 || v.items.len() < v.limit {
        with_pushers(enqueued(v, item), (v.pushers - 1) as nat)
    } else {
        v
    }
}

/// The queue after a pop: the head is taken, or the popper is counted.
pub open spec fn pop_result<T>(v: QueueView<T>) -> QueueView<T> {
    if v.items.len() > 0 {
        dequeued(v)
    } else {
        with_poppers(v, v.poppers + 1)
    }
}

/// The queue after a counted popper popped again.
pub open spec fn pop_retry_result<T>(v: QueueView<T>) -> QueueView<T> {
    if v.items.len() > 0 {
        with_poppers(dequeued(v), (v.poppers - 1) as nat)
    } else {
        v
    }
}

/// What holds of an unbounded queue from its making on: no thread has
/// given up on it.
pub open spec fn no_thread_lost<T>(v: QueueView<T>) -> bool {
    v.limit == 0 ==> v.dead == 0
}

impl<T> PushStep<T> {
    /// Whom to wake after this outcome.
    pub fn signals(&self) -> (r: Signals)
        ensures
            r.has_room == Wake::Nobody,
            r.looks_done == Wake::Nobody,
            r.more == if self is Pushed {
                Wake::One
            } else {
                Wake::Nobody
            },
    {
        match self {
            PushStep::Pushed => Signals { more: Wake::One, has_room: Wake::Nobody, looks_done: Wake::Nobody },
            PushStep::Full(_) => Signals { more: Wake::Nobody, has_room: Wake::Nobody,
                looks_done: Wake::Nobody },
        }
    }
}

impl<T> PopStep<T> {
    /// Whom to wake after this outcome.
    pub fn signals(&self) -> (r: Signals)
        ensures
            r.more == Wake::Nobody,
            r.has_room == if self is Item {
                Wake::One
            } else {
                Wake::Nobody
            },
            r.looks_done == if self matches PopStep::Empty { quiescent: true } {
                Wake::One
            } else {
                Wake::Nobody
            },
    {
        match self {
            PopStep::Item(_) => Signals { more: Wake::Nobody, has_room: Wake::One, looks_done: Wake::Nobody },
            PopStep::Empty { quiescent } => if *quiescent {
                Signals { more: Wake::Nobody, has_room: Wake::Nobody, looks_done: Wake::One }
            } else {
                Signals { more: Wake::Nobody, has_room: Wake::Nobody, looks_done: Wake::Nobody }
            },
        }
    }
}

impl QueueError {
    /// Whom to wake after this failure.
    pub fn signals(&self) -> (r: Signals)
        ensures
            r.more == Wake::Nobody,
            r.has_room == Wake::Nobody,
            r.looks_done == if self is Overflow {
                Wake::All
            } else {
                Wake::Nobody
            },
    {
        match self {
            QueueError::Overflow { .. } => Signals { more: Wake::Nobody, has_room: Wake::Nobody,
                looks_done: Wake::All },
            _ => Signals { more: Wake::Nobody, has_room: Wake::Nobody, looks_done: Wake::Nobody },
        }
    }
}

/// The queue that the workers feed and drain.
#[derive(Debug)]
pub struct WorkerQueue<T> {
    queue: VecDeque<T>,
    curr_poppers: usize,
    curr_pushers: usize,
    max_waiters: usize,
    dead: usize,
    max_q_len_reached: usize,
    limit: usize,
}

impl<T> View for WorkerQueue<T> {
    type V = QueueView<T>;

    closed spec fn view(&self) -> QueueView<T> {
        QueueView {
            items: self.queue@,
            poppers: self.curr_poppers as nat,
            pushers: self.curr_pushers as nat,
            max_waiters: self.max_waiters as nat,
            dead: self.dead as nat,
            max_len: self.max_q_len_reached as nat,
            limit: self.limit as nat,
        }
    }
}

impl<T> WorkerQueue<T> {
    /// Every counter of a queue fits in a machine word.
    pub proof fn lemma_counters_fit(&self)
        ensures
            self@.poppers <= usize::MAX,
            self@.pushers <= usize::MAX,
            self@.max_waiters <= usize::MAX,
            self@.dead <= usize::MAX,
            self@.max_len <= usize::MAX,
            self@.limit <= usize::MAX,
    {
    }

    /// An empty queue for `max_waits` workers. With `limit_` 0 it is
    /// unbounded; else it holds at most `limit_` items.
    pub fn new(max_waits: usize, limit_: usize) -> (r: WorkerQueue<T>)
        ensures
            r@ == (QueueView::<T> {
                items: Seq::empty(),
                poppers: 0,
                pushers: 0,
                max_waiters: max_waits as nat,
                dead: 0,
                max_len: 0,
                limit: limit_ as nat,
            }),
    {
        WorkerQueue {
            queue: VecDeque::new(),
            curr_poppers: 0,
            curr_pushers: 0,
            dead: 0,
            max_waiters: max_waits,
            max_q_len_reached: 0,
            limit: limit_,
        }
    }

    /// Puts `item` at the tail of the queue.
    ///
    /// An unbounded queue always takes it. A bounded queue that is full
    /// refuses with `Overflow` if, this thread counted, every worker is
    /// pushing, and counts the thread as dead; else it hands the item back
    /// and counts the thread as a pusher, to push again when there is room.
    pub fn push(&mut self, item: T) -> (r: Result<PushStep<T>, QueueError>)
        requires
            old(self)@.pushers < usize::MAX,
            old(self)@.dead < usize::MAX,
        ensures
            final(self)@ == push_result(old(self)@, item),
            old(self)@.limit == 0 ==> r is Ok,
            match r {
                Ok(PushStep::Pushed) => {
                    &&& old(self)@.limit == 0 || old(self)@.items.len() < old(self)@.limit
                    &&& final(self)@ == enqueued(old(self)@, item)
                },
                Ok(PushStep::Full(back)) => {
                    &&& old(self)@.limit != 0
                    &&& old(self)@.items.len() >= old(self)@.limit
                    &&& old(self)@.pushers + 1 < old(self)@.max_waiters
                    &&& back == item
                    &&& final(self)@ == with_pushers(old(self)@, old(self)@.pushers + 1)
                },
                Err(e) => {
                    &&& old(self)@.limit != 0
                    &&& old(self)@.items.len() >= old(self)@.limit
                    &&& old(self)@.pushers + 1 >= old(self)@.max_waiters
                    &&& e == (QueueError::Overflow {
                        len: old(self)@.items.len() as usize,
                        pushers: (old(self)@.pushers + 1) as usize,
                    })
                    &&& final(self)@ == (QueueView {
                        pushers: old(self)@.pushers + 1,
                        dead: old(self)@.dead + 1,
                        ..old(self)@
                    })
                },
            },
    {
        if self.limit != 0 && self.queue.len() >= self.limit {
            self.curr_pushers = self.curr_pushers + 1;
            if self.curr_pushers >= self.max_waiters {
                self.dead = self.dead + 1;
                return Err(QueueError::Overflow { len: self.queue.len(), pushers: self.curr_pushers });
            }
            return Ok(PushStep::Full(item));
        }
        self.queue.push_back(item);
        if self.queue.len() > self.max_q_len_reached {
            self.max_q_len_reached = self.queue.len();
        }
        Ok(PushStep::Pushed)
    }

    /// Pushes again after a sleep for room, for a thread that `push`
    /// counted as a pusher.
    pub fn push_retry(&mut self, item: T) -> (r: PushStep<T>)
        requires
            old(self)@.pushers > 0,
        ensures
            final(self)@ == push_retry_result(old(self)@, item),
            match r {
                PushStep::Pushed => {
                    &&& old(self)@.limit == 0 || old(self)@.items.len() < old(self)@.limit
                    &&& final(self)@
                        == with_pushers(enqueued(old(self)@, item), (old(self)@.pushers - 1) as nat)
                },
                PushStep::Full(back) => {
                    &&& old(self)@.limit != 0
                    &&& old(self)@.items.len() >= old(self)@.limit
                    &&& back == item
                    &&& final(self)@ == old(self)@
                },
            },
    {
        if self.limit != 0 && self.queue.len() >= self.limit {
            return PushStep::Full(item);
        }
        self.queue.push_back(item);
        if self.queue.len() > self.max_q_len_reached {
            self.max_q_len_reached = self.queue.len();
        }
        self.curr_pushers = self.curr_pushers - 1;
        PushStep::Pushed
    }

    /// Takes the item at the head of the queue. From an empty queue
    /// nothing is taken and the thread is counted as a popper.
    pub fn pop(&mut self) -> (r: PopStep<T>)
        requires
            old(self)@.poppers < usize::MAX,
        ensures
            final(self)@ == pop_result(old(self)@),
            match r {
                PopStep::Item(x) => {
                    &&& old(self)@.items.len() > 0
                    &&& x == old(self)@.items[0]
                    &&& final(self)@ == dequeued(old(self)@)
                },
                PopStep::Empty { quiescent: q } => {
                    &&& old(self)@.items.len() == 0
                    &&& final(self)@ == with_poppers(old(self)@, old(self)@.poppers + 1)
                    &&& q == quiescent(final(self)@)
                },
            },
    {
        match self.queue.pop_front() {
            Some(x) => PopStep::Item(x),
            None => {
                self.curr_poppers = self.curr_poppers + 1;
                proof {
                    assert(self.queue@ =~= old(self).queue@);
                }
                PopStep::Empty { quiescent: self.curr_poppers == self.max_waiters }
            },
        }
    }

    /// Pops again after a sleep for more, for a thread that `pop` counted
    /// as a popper.
    pub fn pop_retry(&mut self) -> (r: PopStep<T>)
        requires
            old(self)@.poppers > 0,
        ensures
            final(self)@ == pop_retry_result(old(self)@),
            match r {
                PopStep::Item(x) => {
                    &&& old(self)@.items.len() > 0
                    &&& x == old(self)@.items[0]
                    &&& final(self)@ == with_poppers(dequeued(old(self)@), (old(self)@.poppers - 1) as nat)
                },
                PopStep::Empty { quiescent: q } => {
                    &&& old(self)@.items.len() == 0
                    &&& final(self)@ == old(self)@
                    &&& q == quiescent(old(self)@)
                },
            },
    {
        match self.queue.pop_front() {
            Some(x) => {
                self.curr_poppers = self.curr_poppers - 1;
                PopStep::Item(x)
            },
            None => {
                proof {
                    assert(self.queue@ =~= old(self).queue@);
                }
                PopStep::Empty { quiescent: self.curr_poppers == self.max_waiters }
            },
        }
    }

    /// Number of threads parked in a pop.
    pub fn waiters(&self) -> (r: usize)
        ensures
            r == self@.poppers,
    {
        self.curr_poppers
    }

    /// Whether the queue is empty with every worker parked in a pop.
    pub fn is_quiescent(&self) -> (r: bool)
        ensures
            r == quiescent(self@),
    {
        self.queue.len() == 0 && self.curr_poppers == self.max_waiters
    }

    /// One look at the queue by a thread that waits, with a time limit,
    /// for the queue to be quiescent.
    ///
    /// Before its first sleep the thread only asks whether the queue is
    /// quiescent. After a sleep that ran out of time it stops. After a
    /// wake-up it fails if the queue is stuck or a thread is dead, and
    /// else asks again.
    pub fn wait_for_finish_timeout(&self, why: WakeUp) -> (r: Result<FinishStep, QueueError>)
        ensures
            r == timed_finish_step(self@, why),
            self@.limit == 0 && self@.dead == 0 ==> r is Ok,
    {
        proof {
            self.lemma_counters_fit();
        }
        match why {
            WakeUp::First => {},
            WakeUp::TimedOut => {
                return Ok(FinishStep::TimedOut);
            },
            WakeUp::Notified => {
                if self.limit != 0 && self.curr_pushers >= self.max_waiters
                    && self.queue.len() >= self.limit {
                    return Err(QueueError::Stuck { len: self.queue.len(), pushers: self.curr_pushers });
                }
                if self.dead > 0 {
                    return Err(QueueError::Dead { dead: self.dead });
                }
            },
        }
        if self.is_quiescent() {
            Ok(FinishStep::Quiescent(self.curr_poppers))
        } else {
            Ok(FinishStep::Wait)
        }
    }

    /// One look at the queue by a thread that waits, without a time
    /// limit, for the queue to be quiescent.
    ///
    /// Before its first sleep the thread fails if the queue is stuck.
    pub fn wait_for_finish(&self, why: WakeUp) -> (r: Result<FinishStep, QueueError>)
        ensures
            r == finish_step(self@, why),
            self@.limit == 0 ==> r is Ok,
    {
        proof {
            self.lemma_counters_fit();
        }
        match why {
            WakeUp::First => {
                if self.limit != 0 && self.curr_pushers >= self.max_waiters
                    && self.queue.len() >= self.limit {
                    return Err(QueueError::Stuck { len: self.queue.len(), pushers: self.curr_pushers });
                }
            },
            _ => {},
        }
        if self.is_quiescent() {
            Ok(FinishStep::Quiescent(self.curr_poppers))
        } else {
            Ok(FinishStep::Wait)
        }
    }

    /// Whom to wake when every sleeper for more and for room is to look
    /// at the queue again.
    pub fn notify_all(&self) -> (r: Signals)
        ensures
            r == (Signals { more: Wake::All, has_room: Wake::All, looks_done: Wake::Nobody }),
    {
        Signals { more: Wake::All, has_room: Wake::All, looks_done: Wake::Nobody }
    }

    /// A snapshot of the counters.
    pub fn get_stats(&self) -> (r: QueueStats)
        ensures
            r.curr_poppers == self@.poppers,
            r.curr_pushers == self@.pushers,
            r.curr_q_len == self@.items.len(),
            r.max_q_len == self@.max_len,
    {
        QueueStats {
            curr_pushers: self.curr_pushers,
            curr_poppers: self.curr_poppers,
            curr_q_len: self.queue.len(),
            max_q_len: self.max_q_len_reached,
        }
    }

    /// Number of workers that the queue was made for.
    pub fn max_waiters(&self) -> (r: usize)
        ensures
            r == self@.max_waiters,
    {
        self.max_waiters
    }

    /// Number of threads that gave up on an overflow.
    pub fn dead(&self) -> (r: usize)
        ensures
            r == self@.dead,
    {
        self.dead
    }
}

/// What a thread that waits for the end, with a time limit, does when it
/// looks at the queue `v`.
pub open spec fn timed_finish_step<T>(v: QueueView<T>, why: WakeUp) -> Result<FinishStep, QueueError> {
    if why == WakeUp::TimedOut {
        Ok(FinishStep::TimedOut)
    } else if why == WakeUp::Notified && stuck(v) {
        Err(QueueError::Stuck { len: v.items.len() as usize, pushers: v.pushers as usize })
    } else if why == WakeUp::Notified && v.dead > 0 {
        Err(QueueError::Dead { dead: v.dead as usize })
    } else if quiescent(v) {
        Ok(FinishStep::Quiescent(v.poppers as usize))
    } else {
        Ok(FinishStep::Wait)
    }
}

/// What a thread that waits for the end, without a time limit, does when
/// it looks at the queue `v`.
pub open spec fn finish_step<T>(v: QueueView<T>, why: WakeUp) -> Result<FinishStep, QueueError> {
    if why == WakeUp::First && stuck(v) {
        Err(QueueError::Stuck { len: v.items.len() as usize, pushers: v.pushers as usize })
    } else if quiescent(v) {
        Ok(FinishStep::Quiescent(v.poppers as usize))
    } else {
        Ok(FinishStep::Wait)
    }
}

/// An unbounded queue never fails. It is made with no thread lost; no
/// step on it loses one, for only a full queue counts a dead thread; and
/// so no look at it by a thread that waits for the end fails.
pub proof fn law_unbounded_queue_never_fails<T>(v: QueueView<T>, item: T, why: WakeUp)
    requires
        no_thread_lost(v),
    ensures
        no_thread_lost(push_result(v, item)),
        no_thread_lost(push_retry_result(v, item)),
        no_thread_lost(pop_result(v)),
        no_thread_lost(pop_retry_result(v)),
        push_result(v, item).limit == v.limit,
        push_retry_result(v, item).limit == v.limit,
        pop_result(v).limit == v.limit,
        pop_retry_result(v).limit == v.limit,
        v.limit == 0 ==> push_result(v, item) == enqueued(v, item),
        v.limit == 0 ==> timed_finish_step(v, why) is Ok,
        v.limit == 0 ==> finish_step(v, why) is Ok,
{
}

/// The queue `v` after each of `items` was pushed onto it in turn.
pub open spec fn pushed_all<T>(v: QueueView<T>, items: Seq<T>) -> QueueView<T>
    decreases items.len(),
{
    if items.len() == 0 {
        v
    } else {
        enqueued(pushed_all(v, items.drop_last()), items.last())
    }
}

/// The queue `v` after `n` parked poppers have each taken an item.
pub open spec fn popped<T>(v: QueueView<T>, n: nat) -> QueueView<T>
    decreases n,
{
    if n == 0 {
        v
    } else {
        let w = popped(v, (n - 1) as nat);
        with_poppers(dequeued(w), (w.poppers - 1) as nat)
    }
}

/// Pushes put the items behind those that were there, and change no
/// number of threads.
pub proof fn lemma_pushed_all<T>(v: QueueView<T>, items: Seq<T>)
    ensures
        pushed_all(v, items).items == v.items + items,
        pushed_all(v, items).poppers == v.poppers,
        pushed_all(v, items).pushers == v.pushers,
        pushed_all(v, items).max_waiters == v.max_waiters,
        pushed_all(v, items).limit == v.limit,
        pushed_all(v, items).dead == v.dead,
    decreases items.len(),
{
    if items.len() > 0 {
        lemma_pushed_all(v, items.drop_last());
        assert(v.items + items =~= (v.items + items.drop_last()).push(items.last()));
    } else {
        assert(v.items + items =~= v.items);
    }
}

/// Pops take the items from the head, one parked popper for each.
pub proof fn lemma_popped<T>(v: QueueView<T>, n: nat)
    requires
        n <= v.items.len(),
        n <= v.poppers,
    ensures
        popped(v, n).items == v.items.skip(n as int),
        popped(v, n).poppers == v.poppers - n,
        popped(v, n).max_waiters == v.max_waiters,
    decreases n,
{
    if n > 0 {
        lemma_popped(v, (n - 1) as nat);
        assert(v.items.skip(n - 1).skip(1) =~= v.items.skip(n as int));
    } else {
        assert(v.items.skip(0) =~= v.items);
    }
}

/// A queue holds its items in the order in which they were pushed: what
/// is pushed onto an empty queue is popped in the same order.
pub proof fn law_first_in_first_out<T>(v: QueueView<T>, items: Seq<T>, k: nat)
    requires
        v.items.len() == 0,
        k < items.len(),
        items.len() <= v.poppers,
    ensures
        popped(pushed_all(v, items), k).items.len() > 0,
        popped(pushed_all(v, items), k).items[0] == items[k as int],
{
    lemma_pushed_all(v, items);
    assert(v.items + items =~= items);
    lemma_popped(pushed_all(v, items), k);
}

/// Once a queue is quiescent, one sentinel for each worker releases every
/// worker exactly once: each parked popper takes one sentinel, and then
/// the queue is empty and no popper is parked.
pub proof fn law_sentinels_release_all<T>(v: QueueView<T>, sentinels: Seq<T>)
    requires
        quiescent(v),
        sentinels.len() == v.max_waiters,
    ensures
        forall|k: nat|
            k < sentinels.len() ==> (#[trigger] popped(pushed_all(v, sentinels), k)).items.len() > 0
                && popped(
                pushed_all(v, sentinels),
                k,
            ).items[0] == sentinels[k as int] && popped(pushed_all(v, sentinels), k).poppers > 0,
        popped(pushed_all(v, sentinels), sentinels.len()).items.len() == 0,
        popped(pushed_all(v, sentinels), sentinels.len()).poppers == 0,
{
    lemma_pushed_all(v, sentinels);
    assert(v.items + sentinels =~= sentinels);
    let full = pushed_all(v, sentinels);
    assert forall|k: nat| k < sentinels.len() implies (#[trigger] popped(full, k)).items.len() > 0 && popped(
        full,
        k,
    ).items[0] == sentinels[k as int] && popped(full, k).poppers > 0 by {
        lemma_popped(full, k);
    }
    lemma_popped(full, sentinels.len());
}

/// The queue after one turn of a worker: the head is taken, and what it
/// gives rise to is pushed. An empty queue stays as it is.
pub open spec fn turn<T>(v: QueueView<T>, found: spec_fn(T) -> Seq<T>) -> QueueView<T> {
    if v.items.len() == 0 {
        v
    } else {
        pushed_all(dequeued(v), found(v.items[0]))
    }
}

/// The queue after `n` turns.
pub open spec fn turns<T>(v: QueueView<T>, found: spec_fn(T) -> Seq<T>, n: nat) -> QueueView<T>
    decreases n,
{
    if n == 0 {
        v
    } else {
        turn(turns(v, found, (n - 1) as nat), found)
    }
}

/// The weights of the items, summed.
pub open spec fn work_left<T>(items: Seq<T>, weight: spec_fn(T) -> nat) -> nat
    decreases items.len(),
{
    if items.len() == 0 {
        0
    } else {
        work_left(items.drop_last(), weight) + weight(items.last())
    }
}

/// The weight of two lists of items is the sum of their weights.
pub proof fn lemma_work_left_add<T>(a: Seq<T>, b: Seq<T>, weight: spec_fn(T) -> nat)
    ensures
        work_left(a + b, weight) == work_left(a, weight) + work_left(b, weight),
    decreases b.len(),
{
    if b.len() == 0 {
        assert(a + b =~= a);
    } else {
        assert((a + b).drop_last() =~= a + b.drop_last());
        lemma_work_left_add(a, b.drop_last(), weight);
    }
}

/// The weight of a list of items is that of its first and of the rest.
pub proof fn lemma_work_left_first<T>(a: Seq<T>, weight: spec_fn(T) -> nat)
    requires
        a.len() > 0,
    ensures
        work_left(a, weight) == weight(a[0]) + work_left(a.skip(1), weight),
{
    let one = seq![a[0]];
    assert(a =~= one + a.skip(1));
    lemma_work_left_add(one, a.skip(1), weight);
    assert(one.drop_last() =~= Seq::<T>::empty());
    assert(work_left(one.drop_last(), weight) == 0);
    assert(one.last() == a[0]);
    assert(work_left(one, weight) == weight(a[0]));
}

/// A turn on a queue that is not empty leaves less work.
pub proof fn lemma_turn_leaves_less<T>(v: QueueView<T>, found: spec_fn(T) -> Seq<T>,
    weight: spec_fn(T) -> nat)
    requires
        forall|d: T| #[trigger] weight(d) >= 1 + work_left(found(d), weight),
        v.items.len() > 0,
    ensures
        work_left(turn(v, found).items, weight) < work_left(v.items, weight),
{
    let d = v.items[0];
    lemma_pushed_all(dequeued(v), found(d));
    lemma_work_left_add(v.items.skip(1), found(d), weight);
    lemma_work_left_first(v.items, weight);
    assert(weight(d) >= 1 + work_left(found(d), weight));
}

/// Where no work is left, the queue is empty.
pub proof fn lemma_no_work_left<T>(items: Seq<T>, weight: spec_fn(T) -> nat)
    requires
        forall|d: T| #[trigger] weight(d) >= 1,
        work_left(items, weight) == 0,
    ensures
        items.len() == 0,
{
    if items.len() > 0 {
        assert(weight(items.last()) >= 1);
    }
}

/// After `n` turns at most this much work is left.
pub proof fn lemma_turns_leave_less<T>(v: QueueView<T>, found: spec_fn(T) -> Seq<T>,
    weight: spec_fn(T) -> nat, n: nat)
    requires
        forall|d: T| #[trigger] weight(d) >= 1 + work_left(found(d), weight),
    ensures
        work_left(turns(v, found, n).items, weight) + n <= work_left(v.items, weight)
            || turns(v, found, n).items.len() == 0,
    decreases n,
{
    if n > 0 {
        let before = turns(v, found, (n - 1) as nat);
        lemma_turns_leave_less(v, found, weight, (n - 1) as nat);
        if before.items.len() > 0 {
            lemma_turn_leaves_less(before, found, weight);
        }
    }
}

/// The work of a finite tree runs out. Let every directory weigh more
/// than the directories found in it together, as it does in a finite
/// tree, where a directory can weigh the number of directories at and
/// below it. Then after as many turns as the queue weighs, the queue is
/// empty: every worker that pops is parked, and the queue is quiescent.
pub proof fn law_work_runs_out<T>(v: QueueView<T>, found: spec_fn(T) -> Seq<T>, weight: spec_fn(T) -> nat)
    requires
        forall|d: T| #[trigger] weight(d) >= 1 + work_left(found(d), weight),
    ensures
        turns(v, found, work_left(v.items, weight)).items.len() == 0,
{
    let n = work_left(v.items, weight);
    lemma_turns_leave_less(v, found, weight, n);
    let end = turns(v, found, n);
    if end.items.len() > 0 {
        assert forall|d: T| #[trigger] weight(d) >= 1 by {
            assert(weight(d) >= 1 + work_left(found(d), weight));
        }
        lemma_no_work_left(end.items, weight);
    }
}

/// A turn on a queue that is not empty, where every item weighs one more
/// than what it gives rise to, leaves one less to do, and loses no thread.
pub proof fn lemma_turn_takes_one<T>(v: QueueView<T>, found: spec_fn(T) -> Seq<T>, weight: spec_fn(T) -> nat)
    requires
        forall|d: T| #[trigger] weight(d) == 1 + work_left(found(d), weight),
        v.items.len() > 0,
    ensures
        work_left(turn(v, found).items, weight) + 1 == work_left(v.items, weight),
        turn(v, found).dead == v.dead,
        turn(v, found).limit == v.limit,
        turn(v, found).poppers == v.poppers,
{
    let d = v.items[0];
    lemma_pushed_all(dequeued(v), found(d));
    lemma_work_left_add(v.items.skip(1), found(d), weight);
    lemma_work_left_first(v.items, weight);
    assert(weight(d) == 1 + work_left(found(d), weight));
}

/// After `k` of the turns that a queue needs, so many less are left.
pub proof fn lemma_turns_take_one_each<T>(
    v: QueueView<T>,
    found: spec_fn(T) -> Seq<T>,
    weight: spec_fn(T) -> nat,
    k: nat,
)
    requires
        forall|d: T| #[trigger] weight(d) == 1 + work_left(found(d), weight),
        k <= work_left(v.items, weight),
    ensures
        work_left(turns(v, found, k).items, weight) + k == work_left(v.items, weight),
        turns(v, found, k).dead == v.dead,
        turns(v, found, k).limit == v.limit,
        turns(v, found, k).poppers == v.poppers,
    decreases k,
{
    if k > 0 {
        let before = turns(v, found, (k - 1) as nat);
        lemma_turns_take_one_each(v, found, weight, (k - 1) as nat);
        if before.items.len() == 0 {
            assert(work_left(before.items, weight) == 0);
        }
        lemma_turn_takes_one(before, found, weight);
    }
}

/// A scan lists every directory once, and is over no sooner. Let every
/// directory weigh one more than the directories found in it together:
/// the number of directories at and below it. Then the queue is empty
/// after as many turns as it weighs, one for each directory; before that
/// it is not empty, so it is not quiescent; and no turn loses a thread.
pub proof fn law_every_directory_is_listed<T>(
    v: QueueView<T>,
    found: spec_fn(T) -> Seq<T>,
    weight: spec_fn(T) -> nat,
    k: nat,
)
    requires
        forall|d: T| #[trigger] weight(d) == 1 + work_left(found(d), weight),
        k <= work_left(v.items, weight),
    ensures
        k < work_left(v.items, weight) ==> turns(v, found, k).items.len() > 0
            && !quiescent(turns(v, found, k)),
        k == work_left(v.items, weight) ==> turns(v, found, k).items.len() == 0,
        no_thread_lost(v) ==> no_thread_lost(turns(v, found, k)),
{
    lemma_turns_take_one_each(v, found, weight, k);
    let now = turns(v, found, k);
    if k == work_left(v.items, weight) {
        if now.items.len() > 0 {
            assert(weight(now.items.last()) == 1 + work_left(found(now.items.last()), weight));
        }
    }
}

/// Two ways of finding that find the same in every item give the same
/// turns.
pub proof fn lemma_turns_same_found<T>(v: QueueView<T>, one: spec_fn(T) -> Seq<T>,
    other: spec_fn(T) -> Seq<T>, n: nat)
    requires
        forall|d: T| #[trigger] one(d) == other(d),
    ensures
        turns(v, one, n) == turns(v, other, n),
    decreases n,
{
    if n > 0 {
        lemma_turns_same_found(v, one, other, (n - 1) as nat);
        let before = turns(v, one, (n - 1) as nat);
        if before.items.len() > 0 {
            assert(one(before.items[0]) == other(before.items[0]));
        }
    }
}

} // verus!
