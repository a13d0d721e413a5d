//! What each thread of a scan is doing, kept for whoever wants to watch.
//!
//! The tracker holds one status for each thread that was set up. A thread
//! gets a handle to its own status and writes through it; the tracker is
//! shared, and is read when the statuses are shown.

use vstd::prelude::*;

verus! {

/// The status of one thread, as contracts see it.
pub struct StatusView {
    pub name: Seq<char>,
    pub state: Seq<char>,
    /// The number that the system gave the thread; 0 until it registers.
    pub tid: usize,
}

/// The handle of a thread to its status.
#[derive(Debug, Clone, Copy)]
pub struct ThreadStatus {
    index: usize,
}

/// The statuses of all threads that were set up, in that order.
#[derive(Debug)]
pub struct ThreadTracker {
    names: Vec<String>,
    states: Vec<String>,
    tids: Vec<usize>,
}

impl View for ThreadTracker {
    type V = Seq<StatusView>;

    closed spec fn view(&self) -> Seq<StatusView> {
        Seq::new(
            self.names@.len(),
            |i: int| StatusView { name: self.names@[i]@, state: self.states@[i]@, tid: self.tids@[i] },
        )
    }
}

impl ThreadStatus {
    /// The place of the status in its tracker.
    pub closed spec fn slot(&self) -> int {
        self.index as int
    }

    /// A handle to the status at the place `index`.
    fn new(index: usize) -> (r: ThreadStatus)
        ensures
            r.slot() == index,
    {
        ThreadStatus { index }
    }

    /// The place of the status in its tracker.
    pub fn index(&self) -> (r: usize)
        ensures
            r == self.slot(),
    {
        self.index
    }

    /// Writes what the thread is doing now. A handle that is not of this
    /// tracker changes nothing.
    pub fn set_state(&self, tracker: &mut ThreadTracker, s: &str)
        requires
            old(tracker).wf(),
        ensures
            final(tracker).wf(),
            final(tracker)@ == if self.slot() < old(tracker)@.len() {
                old(tracker)@.update(
                    self.slot(),
                    StatusView { state: s@, ..old(tracker)@[self.slot()] },
                )
            } else {
                old(tracker)@
            },
    {
        if self.index < tracker.states.len() {
            tracker.states.set(self.index, s.to_owned());
            proof {
                assert(tracker@ =~= old(tracker)@.update(
                    self.slot(),
                    StatusView { state: s@, ..old(tracker)@[self.slot()] },
                ));
            }
        }
    }

    /// Writes what the thread is doing now, and the number `tid` that the
    /// system gave it. A handle that is not of this tracker changes
    /// nothing.
    pub fn register(&self, tracker: &mut ThreadTracker, state: &str, tid: usize)
        requires
            old(tracker).wf(),
        ensures
            final(tracker).wf(),
            final(tracker)@ == if self.slot() < old(tracker)@.len() {
                old(tracker)@.update(
                    self.slot(),
                    StatusView { state: state@, tid, ..old(tracker)@[self.slot()] },
                )
            } else {
                old(tracker)@
            },
    {
        if self.index < tracker.states.len() {
            tracker.states.set(self.index, state.to_owned());
            tracker.tids.set(self.index, tid);
            proof {
                assert(tracker@ =~= old(tracker)@.update(
                    self.slot(),
                    StatusView { state: state@, tid, ..old(tracker)@[self.slot()] },
                ));
            }
        }
    }
}

impl ThreadTracker {
    /// What every tracker made here satisfies.
    pub closed spec fn wf(&self) -> bool {
        self.names@.len() == self.states@.len() && self.names@.len() == self.tids@.len()
    }

    /// A tracker without threads.
    pub fn new() -> (r: ThreadTracker)
        ensures
            r.wf(),
            r@ == Seq::<StatusView>::empty(),
    {
        let r = ThreadTracker { names: Vec::new(), states: Vec::new(), tids: Vec::new() };
        proof {
            assert(r@ =~= Seq::<StatusView>::empty());
        }
        r
    }

    /// Sets up the status of one more thread, and gives the handle to it.
    pub fn setup_thread(&mut self, name: &str, state: &str) -> (r: ThreadStatus)
        requires
            old(self).wf(),
        ensures
            final(self).wf(),
            r.slot() == old(self)@.len(),
            final(self)@ == old(self)@.push(StatusView { name: name@, state: state@, tid: 0 }),
    {
        let index = self.names.len();
        self.names.push(name.to_owned());
        self.states.push(state.to_owned());
        self.tids.push(0);
        proof {
            assert(self@ =~= old(self)@.push(StatusView { name: name@, state: state@, tid: 0 }));
        }
        ThreadStatus::new(index)
    }

    /// Number of threads that were set up.
    pub fn len(&self) -> (r: usize)
        requires
            self.wf(),
        ensures
            r == self@.len(),
    {
        self.names.len()
    }

    /// The name, the number and the state of the `i`-th thread.
    pub fn status_at(&self, i: usize) -> (r: (&String, usize, &String))
        requires
            self.wf(),
            i < self@.len(),
        ensures
            r.0@ == self@[i as int].name,
            r.1 == self@[i as int].tid,
            r.2@ == self@[i as int].state,
    {
        (&self.names[i], self.tids[i], &self.states[i])
    }
}

} // verus!
