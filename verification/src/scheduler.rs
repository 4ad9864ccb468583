//! The scheduler: a run queue of processes ready to run, and the decisions
//! of which process runs next.

use vstd::prelude::*;

use crate::process::{Id, ProcessTable, State};

verus! {

/// Put the running process `id` at the end of the run queue.
pub fn push(table: &mut ProcessTable, id: Id)
    requires
        old(table).wf(),
        old(table).state_of(id) == Some(State::Running),
    ensures
        final(table).wf(),
        final(table).run_queue() == old(table).run_queue().push(id),
        final(table).procs() == old(table).procs(),
        final(table).current_id() == old(table).current_id(),
        final(table).spec_next_id() == old(table).spec_next_id(),
        final(table).mems() == old(table).mems(),
{
    table.run_queue_push(id);
}

/// The process `id` exists and is running.
pub open spec fn runnable(table: ProcessTable, id: Id) -> bool {
    table.state_of(id) == Some(State::Running)
}

/// Take the first running process off the run queue, dropping the
/// processes before it that are not running.
pub fn pop_running(table: &mut ProcessTable) -> (r: Option<Id>)
    requires
        old(table).wf(),
    ensures
        final(table).wf(),
        final(table).procs() == old(table).procs(),
        final(table).current_id() == old(table).current_id(),
        match r {
            None => final(table).run_queue().len() == 0 && forall|k: int|
                0 <= k < old(table).run_queue().len() ==> !runnable(*old(table), #[trigger] old(table).run_queue()[k]),
            Some(id) => exists|j: int|
                0 <= j < old(table).run_queue().len() && #[trigger] old(table).run_queue()[j] == id && runnable(*old(table), id)
                    && (forall|k: int| 0 <= k < j ==> !runnable(*old(table), #[trigger] old(table).run_queue()[k]))
                    && final(table).run_queue() == old(table).run_queue().skip(j + 1),
        },
{
    let ghost j: int = 0;
    loop
        invariant
            table.wf(),
            table.procs() == old(table).procs(),
            table.current_id() == old(table).current_id(),
            0 <= j <= old(table).run_queue().len(),
            table.run_queue() == old(table).run_queue().skip(j),
            forall|k: int| 0 <= k < j ==> !runnable(*old(table), #[trigger] old(table).run_queue()[k]),
        decreases table.run_queue().len(),
    {
        let ghost pre = *table;
        match table.run_queue_pop() {
            None => {
                proof {
                    assert(j == old(table).run_queue().len());
                }
                return None;
            },
            Some(id) => {
                proof {
                    assert(old(table).run_queue()[j] == id);
                    assert(pre.run_queue().drop_first() =~= old(table).run_queue().skip(j + 1));
                }
                let idx = table.index_of(id);
                let running = match idx {
                    Some(i) => table.procs_at(i).is_running(),
                    None => false,
                };
                proof {
                    match idx {
                        Some(i) => table.lemma_state_at(id, i as int),
                        None => {},
                    }
                }
                if running {
                    return Some(id);
                }
                proof {
                    j = j + 1;
                }
            },
        }
    }
}

/// Wake the process `id` if it is sleeping and put it at the end of the run
/// queue: `Ok(true)` if it was woken, `Ok(false)` if it was already running,
/// and `Err` with its state otherwise.
pub fn awaken(table: &mut ProcessTable, id: Id) -> (r: Result<bool, State>)
    requires
        old(table).wf(),
        old(table).has(id),
    ensures
        final(table).wf(),
        final(table).current_id() == old(table).current_id(),
        old(table).state_of(id) == Some(State::Running) ==> r == Ok::<bool, State>(false) && final(table).procs()
            == old(table).procs() && final(table).run_queue() == old(table).run_queue(),
        old(table).state_of(id) == Some(State::Sleeping) ==> r == Ok::<bool, State>(true) && exists|i: int|
            #[trigger] old(table).at(id, i) && old(table).with_state(*final(table), i, State::Running)
                && final(table).run_queue() == old(table).run_queue().push(id),
        forall|s: State|
            old(table).state_of(id) == Some(s) && s != State::Running && s != State::Sleeping ==> r == Err::<bool, State>(s)
                && final(table).procs() == old(table).procs() && final(table).run_queue() == old(table).run_queue(),
{
    let i = match table.index_of(id) {
        Some(i) => i,
        None => {
            proof {
                assert(false);
            }
            0
        },
    };
    proof {
        table.lemma_state_at(id, i as int);
    }
    let state = table.procs_at(i).state();
    match state {
        State::Running => Ok(false),
        State::Sleeping => {
            let ghost pre = *table;
            table.set_state(id, i, State::Running);
            proof {
                assert(table.at(id, i as int));
                table.lemma_state_at(id, i as int);
            }
            let ghost mid = *table;
            push(table, id);
            proof {
                assert(old(table).with_state(mid, i as int, State::Running));
                assert(old(table).with_state(*table, i as int, State::Running));
                assert(old(table).at(id, i as int));
            }
            Ok(true)
        },
        _ => Err(state),
    }
}

/// Switch to the process `next` if it is running: the current process goes
/// back on the run queue if it is still running. Whether `next` could be
/// switched to.
pub fn switch(table: &mut ProcessTable, next: Id) -> (r: bool)
    requires
        old(table).wf(),
    ensures
        final(table).wf(),
        final(table).procs() == old(table).procs(),
        r == runnable(*old(table), next),
        !r ==> final(table).current_id() == old(table).current_id() && final(table).run_queue() == old(table).run_queue(),
        r && next == old(table).current_id() ==> final(table).current_id() == next && final(table).run_queue()
            == old(table).run_queue(),
        r && next != old(table).current_id() ==> final(table).current_id() == next && final(table).run_queue() == (if runnable(
            *old(table),
            old(table).current_id(),
        ) {
            old(table).run_queue().push(old(table).current_id())
        } else {
            old(table).run_queue()
        }),
{
    let cur = table.current();
    let ghost curp = *cur;
    let current_id = cur.id();
    let current_running = cur.is_running();
    let idx = table.index_of(next);
    let next_running = match idx {
        Some(i) => table.procs_at(i).is_running(),
        None => false,
    };
    proof {
        match idx {
            Some(i) => table.lemma_state_at(next, i as int),
            None => {},
        }
        let c = choose|c: int| table.at(table.current_id(), c) && curp == table.procs()[c];
        table.lemma_state_at(current_id, c);
    }
    if !next_running {
        return false;
    }
    if current_id == next {
        return true;
    }
    if current_running {
        push(table, current_id);
    }
    table.set_current(next);
    true
}

/// Switch to the first running process on the run queue, if there is one.
/// Whether a switch happened.
pub fn preempt(table: &mut ProcessTable) -> (r: bool)
    requires
        old(table).wf(),
    ensures
        final(table).wf(),
        final(table).procs() == old(table).procs(),
        r == exists|k: int| 0 <= k < old(table).run_queue().len() && runnable(*old(table), #[trigger] old(table).run_queue()[k]),
        !r ==> final(table).current_id() == old(table).current_id() && final(table).run_queue().len() == 0,
        r ==> exists|j: int| #[trigger] preempted_to(*old(table), *final(table), j),
{
    match pop_running(table) {
        Some(next) => {
            let ghost mid = *table;
            let r = switch(table, next);
            proof {
                let j = choose|j: int|
                    0 <= j < old(table).run_queue().len() && #[trigger] old(table).run_queue()[j] == next && runnable(*old(table), next)
                        && (forall|k: int| 0 <= k < j ==> !runnable(*old(table), #[trigger] old(table).run_queue()[k]))
                        && mid.run_queue() == old(table).run_queue().skip(j + 1);
                assert(runnable(mid, next) == runnable(*old(table), next));
                assert(runnable(mid, old(table).current_id()) == runnable(*old(table), old(table).current_id()));
                assert(preempted_to(*old(table), *table, j));
            }
            r
        },
        None => false,
    }
}

/// `after` is `before` once preemption switched to the running process at
/// position `j` of the run queue, the first running one: it is current, the
/// queue keeps what came after it, and the process that was current goes to
/// the end of the queue if it is still running and is not the one chosen.
pub open spec fn preempted_to(before: ProcessTable, after: ProcessTable, j: int) -> bool {
    let q = before.run_queue();
    let rest = q.skip(j + 1);
    &&& 0 <= j < q.len()
    &&& runnable(before, q[j])
    &&& forall|k: int| 0 <= k < j ==> !runnable(before, #[trigger] q[k])
    &&& after.current_id() == q[j]
    &&& after.run_queue() == (if q[j] != before.current_id() && runnable(before, before.current_id()) {
        rest.push(before.current_id())
    } else {
        rest
    })
}

} // verus!
