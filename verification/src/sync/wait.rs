//! Wait queues: the processes waiting for an event, in the order they are to
//! be woken.

use vstd::prelude::*;

use crate::process::{proc_state, Id, ProcessTable, State};
use crate::scheduler;

verus! {

/// The ids of the processes waiting, first to be woken first.
#[derive(Clone, Debug)]
pub struct WaitQueue {
    q: Vec<Id>,
}

impl WaitQueue {
    pub closed spec fn queue(&self) -> Seq<Id> {
        self.q@
    }

    pub fn new() -> (r: WaitQueue)
        ensures
            r.queue().len() == 0,
    {
        WaitQueue { q: Vec::new() }
    }

    /// A copy of the queue.
    pub fn snapshot(&self) -> (r: WaitQueue)
        ensures
            r.queue() == self.queue(),
    {
        let mut q: Vec<Id> = Vec::new();
        let mut i: usize = 0;
        while i < self.q.len()
            invariant
                i <= self.q@.len(),
                q@ == self.q@.take(i as int),
            decreases self.q@.len() - i,
        {
            q.push(self.q[i]);
            proof {
                assert(q@ =~= self.q@.take(i + 1));
            }
            i = i + 1;
        }
        proof {
            assert(self.q@.take(self.q@.len() as int) =~= self.q@);
        }
        WaitQueue { q }
    }

    /// The waiting processes, first to be woken first.
    pub fn ids(&self) -> (r: &[Id])
        ensures
            r@ == self.queue(),
    {
        self.q.as_slice()
    }

    /// Add a process to the end of the queue, unless it is already waiting.
    pub fn insert(&mut self, pid: Id)
        ensures
            old(self).queue().contains(pid) ==> final(self).queue() == old(self).queue(),
            !old(self).queue().contains(pid) ==> final(self).queue() == old(self).queue().push(pid),
    {
        let mut i: usize = 0;
        while i < self.q.len()
            invariant
                self.q@ == old(self).q@,
                i <= self.q@.len(),
                forall|j: int| 0 <= j < i ==> self.q@[j] != pid,
            decreases self.q@.len() - i,
        {
            if self.q[i] == pid {
                return;
            }
            i = i + 1;
        }
        self.q.push(pid);
    }

    /// Remove the last occurrence of a process from the queue. Whether it was
    /// waiting.
    pub fn remove(&mut self, pid: Id) -> (r: bool)
        ensures
            r == old(self).queue().contains(pid),
            r ==> exists|i: int|
                0 <= i < old(self).queue().len() && old(self).queue()[i] == pid && (forall|j: int|
                    i < j < old(self).queue().len() ==> old(self).queue()[j] != pid) && final(self).queue()
                    == old(self).queue().remove(i),
            !r ==> final(self).queue() == old(self).queue(),
    {
        let mut i: usize = self.q.len();
        while i > 0
            invariant
                self.q@ == old(self).q@,
                i <= self.q@.len(),
                forall|j: int| i <= j < self.q@.len() ==> self.q@[j] != pid,
            decreases i,
        {
            if self.q[i - 1] == pid {
                let ghost before = self.q@;
                self.q.remove(i - 1);
                proof {
                    assert(before[i - 1] == pid);
                    assert(0 <= i - 1 < old(self).queue().len() && old(self).queue()[i - 1] == pid && (forall|j: int|
                        i - 1 < j < old(self).queue().len() ==> old(self).queue()[j] != pid) && self.queue()
                        == old(self).queue().remove(i - 1));
                }
                return true;
            }
            i = i - 1;
        }
        false
    }

    /// Take the first waiting process off the queue.
    pub fn pop_front(&mut self) -> (r: Option<Id>)
        ensures
            old(self).queue().len() == 0 ==> r is None && final(self).queue() == old(self).queue(),
            old(self).queue().len() > 0 ==> r == Some(old(self).queue()[0]) && final(self).queue()
                == old(self).queue().drop_first(),
    {
        if self.q.len() == 0 {
            None
        } else {
            let pid = self.q.remove(0);
            proof {
                assert(self.q@ =~= old(self).q@.drop_first());
            }
            Some(pid)
        }
    }

    /// Put a process at the end of the queue.
    pub fn push_back(&mut self, pid: Id)
        ensures
            final(self).queue() == old(self).queue().push(pid),
    {
        self.q.push(pid);
    }
}

/// The process `id` is running or sleeping.
pub open spec fn alive_in(table: ProcessTable, id: Id) -> bool {
    table.state_of(id) == Some(State::Running) || table.state_of(id) == Some(State::Sleeping)
}

/// The process states after waking the sleeping processes among `ids`.
pub open spec fn woken(table: ProcessTable, ids: Seq<Id>, after: ProcessTable) -> bool {
    &&& after.procs().len() == table.procs().len()
    &&& forall|i: int|
        #![trigger after.procs()[i]]
        0 <= i < table.procs().len() ==> {
            let p = table.procs()[i];
            let q = after.procs()[i];
            &&& q.same_but_state(p)
            &&& q.spec_state() == (if ids.contains(p.spec_id()) && p.spec_state() == State::Sleeping {
                State::Running
            } else {
                p.spec_state()
            })
        }
}

impl WaitQueue {
    /// Wake the first waiting process that is alive (dropping the dead and
    /// unknown ones before it) and move it to the end of the queue. Whether
    /// there was one.
    pub fn awaken_one(&mut self, table: &mut ProcessTable) -> (r: bool)
        requires
            old(table).wf(),
        ensures
            final(table).wf(),
            final(table).current_id() == old(table).current_id(),
            r == exists|j: int| 0 <= j < old(self).queue().len() && alive_in(*old(table), #[trigger] old(self).queue()[j]),
            !r ==> final(self).queue().len() == 0 && final(table).procs() == old(table).procs()
                && final(table).run_queue() == old(table).run_queue(),
            r ==> exists|j: int| {
                let pid = old(self).queue()[j];
                &&& 0 <= j < old(self).queue().len()
                &&& alive_in(*old(table), #[trigger] old(self).queue()[j])
                &&& forall|k: int| 0 <= k < j ==> !alive_in(*old(table), #[trigger] old(self).queue()[k])
                &&& final(self).queue() == old(self).queue().skip(j + 1).push(pid)
                &&& old(table).state_of(pid) == Some(State::Running) ==> final(table).procs() == old(table).procs()
                    && final(table).run_queue() == old(table).run_queue()
                &&& old(table).state_of(pid) == Some(State::Sleeping) ==> woken(*old(table), seq![pid], *final(table))
                    && final(table).run_queue() == old(table).run_queue().push(pid)
            },
    {
        let ghost j: int = 0;
        loop
            invariant
                old(table).wf(),
                table.wf(),
                table.procs() == old(table).procs(),
                table.run_queue() == old(table).run_queue(),
                table.current_id() == old(table).current_id(),
                0 <= j <= old(self).queue().len(),
                self.queue() == old(self).queue().skip(j),
                forall|k: int| 0 <= k < j ==> !alive_in(*old(table), #[trigger] old(self).queue()[k]),
            decreases self.queue().len(),
        {
            let ghost before = self.queue();
            match self.pop_front() {
                None => {
                    proof {
                        assert(j == old(self).queue().len());
                    }
                    return false;
                },
                Some(pid) => {
                    proof {
                        assert(old(self).queue()[j] == pid);
                        assert(before.drop_first() =~= old(self).queue().skip(j + 1));
                    }
                    match table.index_of(pid) {
                        Some(i) => {
                            proof {
                                table.lemma_state_at(pid, i as int);
                            }
                            let ghost pre = *table;
                            let res = scheduler::awaken(table, pid);
                            if res.is_ok() {
                                self.push_back(pid);
                                proof {
                                    assert(alive_in(*old(table), old(self).queue()[j]));
                                    if old(table).state_of(pid) == Some(State::Sleeping) {
                                        let w = choose|w: int| #[trigger] pre.at(pid, w) && pre.with_state(*table, w, State::Running)
                                            && table.run_queue() == pre.run_queue().push(pid);
                                        pre.lemma_at_unique(pid, i as int, w);
                                        assert forall|x: int| #![trigger table.procs()[x]] 0 <= x < old(table).procs().len() implies {
                                            let p = old(table).procs()[x];
                                            let q = table.procs()[x];
                                            &&& q.same_but_state(p)
                                            &&& q.spec_state() == (if seq![pid].contains(p.spec_id()) && p.spec_state() == State::Sleeping {
                                                State::Running
                                            } else {
                                                p.spec_state()
                                            })
                                        } by {
                                            let p = old(table).procs()[x];
                                            if x != i && p.spec_id() == pid {
                                                assert(old(table).at(pid, x));
                                                old(table).lemma_at_unique(pid, i as int, x);
                                            }
                                            if x == i {
                                                assert(seq![pid][0] == pid);
                                                assert(seq![pid].contains(pid));
                                            } else {
                                                assert(!seq![pid].contains(p.spec_id()));
                                            }
                                        }
                                    }
                                }
                                return true;
                            }
                        },
                        None => {},
                    }
                    proof {
                        j = j + 1;
                    }
                },
            }
        }
    }

    /// Wake every waiting process that is asleep; they go on the run queue
    /// in the order they wait.
    pub fn awaken_all(&self, table: &mut ProcessTable)
        requires
            old(table).wf(),
            self.queue().no_duplicates(),
        ensures
            final(table).wf(),
            final(table).current_id() == old(table).current_id(),
            woken(*old(table), self.queue(), *final(table)),
            final(table).run_queue() == old(table).run_queue() + self.queue().filter(
                |id: Id| old(table).state_of(id) == Some(State::Sleeping),
            ),
    {
        let mut k: usize = 0;
        let ghost q = self.q@;
        proof {
            assert(q.take(0) =~= Seq::<Id>::empty());
            assert(old(table).run_queue() + q.take(0).filter(|id: Id| old(table).state_of(id) == Some(State::Sleeping))
                =~= old(table).run_queue());
        }
        while k < self.q.len()
            invariant
                q == self.q@,
                q.no_duplicates(),
                k <= q.len(),
                old(table).wf(),
                table.wf(),
                table.current_id() == old(table).current_id(),
                woken(*old(table), q.take(k as int), *table),
                table.run_queue() == old(table).run_queue() + q.take(k as int).filter(
                    |id: Id| old(table).state_of(id) == Some(State::Sleeping),
                ),
            decreases q.len() - k,
        {
            let pid = self.q[k];
            let ghost pre = *table;
            let idx = table.index_of(pid);
            proof {
                assert(q.take(k + 1).drop_last() =~= q.take(k as int));
                assert(q.take(k + 1).last() == pid);
                reveal_with_fuel(Seq::filter, 2);
                assert(!q.take(k as int).contains(pid));
            }
            let ghost f = |id: Id| old(table).state_of(id) == Some(State::Sleeping);
            proof {
                assert(q.take(k + 1).filter(f) == q.take(k as int).filter(f) + (if f(pid) {
                    seq![pid]
                } else {
                    Seq::empty()
                }));
            }
            match idx {
                Some(i) => {
                    let alive = table.procs_at(i).is_alive();
                    proof {
                        table.lemma_state_at(pid, i as int);
                        assert(old(table).procs()[i as int].spec_id() == pid);
                        assert(old(table).at(pid, i as int));
                        old(table).lemma_state_at(pid, i as int);
                        assert(table.procs()[i as int].spec_state() == old(table).procs()[i as int].spec_state());
                    }
                    if alive {
                        let _ = scheduler::awaken(table, pid);
                        proof {
                            let s0 = old(table).procs()[i as int].spec_state();
                            if s0 == State::Sleeping {
                                let j = choose|j: int| #[trigger] pre.at(pid, j) && pre.with_state(*table, j, State::Running)
                                    && table.run_queue() == pre.run_queue().push(pid);
                                pre.lemma_at_unique(pid, i as int, j);
                                assert(table.run_queue() =~= old(table).run_queue() + q.take(k + 1).filter(f));
                            } else {
                                assert(table.run_queue() =~= old(table).run_queue() + q.take(k + 1).filter(f));
                            }
                        }
                    } else {
                        proof {
                            assert(table.run_queue() =~= old(table).run_queue() + q.take(k + 1).filter(f));
                        }
                    }
                    proof {
                        assert forall|x: int| #![trigger table.procs()[x]] 0 <= x < old(table).procs().len() implies {
                            let p = old(table).procs()[x];
                            let r = table.procs()[x];
                            &&& r.same_but_state(p)
                            &&& r.spec_state() == (if q.take(k + 1).contains(p.spec_id()) && p.spec_state() == State::Sleeping {
                                State::Running
                            } else {
                                p.spec_state()
                            })
                        } by {
                            let p = old(table).procs()[x];
                            if x != i {
                                assert(table.procs()[x] == pre.procs()[x]);
                                if p.spec_id() == pid {
                                    assert(old(table).at(pid, x));
                                    old(table).lemma_at_unique(pid, i as int, x);
                                }
                                assert(q.take(k + 1).contains(p.spec_id()) == q.take(k as int).contains(p.spec_id()));
                            } else {
                                assert(q.take(k + 1).contains(pid));
                            }
                        }
                    }
                },
                None => {
                    proof {
                        if old(table).has(pid) {
                            let j = choose|j: int| #[trigger] crate::process::proc_at(old(table).procs(), pid, j);
                            assert(table.at(pid, j));
                        }
                        assert(old(table).state_of(pid) is None);
                        assert(table.run_queue() =~= old(table).run_queue() + q.take(k + 1).filter(f));
                        assert forall|x: int| #![trigger table.procs()[x]] 0 <= x < old(table).procs().len() implies {
                            let p = old(table).procs()[x];
                            let r = table.procs()[x];
                            &&& r.same_but_state(p)
                            &&& r.spec_state() == (if q.take(k + 1).contains(p.spec_id()) && p.spec_state() == State::Sleeping {
                                State::Running
                            } else {
                                p.spec_state()
                            })
                        } by {
                            let p = old(table).procs()[x];
                            if p.spec_id() == pid {
                                assert(table.at(pid, x));
                            }
                            assert(q.take(k + 1).contains(p.spec_id()) == q.take(k as int).contains(p.spec_id()));
                        }
                    }
                },
            }
            k = k + 1;
        }
        proof {
            assert(q.take(q.len() as int) =~= q);
        }
    }
}

} // verus!
