//! A model of the pool as a whole: one FIFO queue shared by all workers, each
//! worker taking the next message when it is free and acting on it as
//! `worker::on_receive` decides. The laws of the pool are proved over it.
use vstd::prelude::*;

use super::worker::{action_of, state_after, Action, Message, WorkerState};

verus! {

/// The pool between two deliveries. Jobs are named by numbers.
pub struct PoolModel {
    /// Messages sent and not yet taken, oldest first.
    pub queue: Seq<Message<nat>>,
    /// The state of each worker, in order of creation.
    pub workers: Seq<WorkerState>,
    /// The jobs run so far, in the order they were taken.
    pub ran: Seq<nat>,
    /// How many `Quit` messages each worker has taken.
    pub quits: Seq<nat>,
}

/// A pool of `n` fresh workers and an empty queue.
pub open spec fn started(n: nat) -> PoolModel {
    PoolModel {
        queue: Seq::empty(),
        workers: Seq::new(n, |_i: int| WorkerState::Running),
        ran: Seq::empty(),
        quits: Seq::new(n, |_i: int| 0nat),
    }
}

/// One `Execute` message per job, in order.
pub open spec fn executes(jobs: Seq<nat>) -> Seq<Message<nat>> {
    jobs.map_values(|j: nat| Message::Execute(j))
}

/// `n` `Quit` messages.
pub open spec fn quits(n: nat) -> Seq<Message<nat>> {
    Seq::new(n, |_i: int| Message::Quit)
}

/// `m` after the jobs were submitted, in order, from one thread.
pub open spec fn submitted(m: PoolModel, jobs: Seq<nat>) -> PoolModel {
    PoolModel { queue: m.queue + executes(jobs), ..m }
}

/// `m` after the shutdown handshake sent its `Quit` messages: one per worker.
pub open spec fn shut_down(m: PoolModel) -> PoolModel {
    PoolModel { queue: m.queue + quits(m.workers.len()), ..m }
}

/// Worker `w` is running and a message waits for it.
pub open spec fn can_deliver(m: PoolModel, w: nat) -> bool {
    &&& w < m.workers.len()
    &&& m.workers[w as int] is Running
    &&& m.queue.len() > 0
}

/// Worker `w` takes the oldest message and acts on it.
pub open spec fn deliver(m: PoolModel, w: nat) -> PoolModel {
    let action = action_of(Some(m.queue[0]));
    PoolModel {
        queue: m.queue.drop_first(),
        workers: m.workers.update(w as int, state_after(action)),
        ran: match action {
            Action::Run(job) => m.ran.push(job),
            _ => m.ran,
        },
        quits: match action {
            Action::Exit => m.quits.update(w as int, m.quits[w as int] + 1),
            _ => m.quits,
        },
    }
}

/// `m` after the workers of `schedule`, in turn, each took one message.
pub open spec fn run(m: PoolModel, schedule: Seq<nat>) -> PoolModel
    decreases schedule.len(),
{
    if schedule.len() == 0 {
        m
    } else {
        deliver(run(m, schedule.drop_last()), schedule.last())
    }
}

/// Each worker of `schedule` is running and finds a message when its turn comes.
pub open spec fn valid_schedule(m: PoolModel, schedule: Seq<nat>) -> bool
    decreases schedule.len(),
{
    schedule.len() == 0 || (valid_schedule(m, schedule.drop_last()) && can_deliver(
        run(m, schedule.drop_last()),
        schedule.last(),
    ))
}

/// The number of running workers.
pub open spec fn running_count(workers: Seq<WorkerState>) -> nat
    decreases workers.len(),
{
    if workers.len() == 0 {
        0
    } else {
        running_count(workers.drop_last()) + if workers.last() is Running {
            1nat
        } else {
            0nat
        }
    }
}

proof fn lemma_running_all(n: nat)
    ensures
        running_count(Seq::new(n, |_i: int| WorkerState::Running)) == n,
    decreases n,
{
    if n > 0 {
        let ws = Seq::new(n, |_i: int| WorkerState::Running);
        assert(ws.drop_last() =~= Seq::new((n - 1) as nat, |_i: int| WorkerState::Running));
        lemma_running_all((n - 1) as nat);
    }
}

proof fn lemma_running_stop(ws: Seq<WorkerState>, w: int)
    requires
        0 <= w < ws.len(),
        ws[w] is Running,
    ensures
        running_count(ws.update(w, WorkerState::Stopped)) + 1 == running_count(ws),
    decreases ws.len(),
{
    let us = ws.update(w, WorkerState::Stopped);
    if w == ws.len() - 1 {
        assert(us.drop_last() =~= ws.drop_last());
    } else {
        assert(us.drop_last() =~= ws.drop_last().update(w, WorkerState::Stopped));
        lemma_running_stop(ws.drop_last(), w);
    }
}

proof fn lemma_running_witness(ws: Seq<WorkerState>)
    ensures
        running_count(ws) > 0 ==> exists|w: nat| w < ws.len() && ws[w as int] is Running,
        running_count(ws) == 0 ==> forall|w: int| 0 <= w < ws.len() ==> ws[w] is Stopped,
    decreases ws.len(),
{
    if ws.len() > 0 {
        lemma_running_witness(ws.drop_last());
        if running_count(ws) > 0 && ws.last() is Stopped {
            let w = choose|w: nat| w < ws.drop_last().len() && ws.drop_last()[w as int] is Running;
            assert(ws[w as int] is Running);
        }
        if running_count(ws) > 0 && ws.last() is Running {
            assert(ws[(ws.len() - 1) as int] is Running);
        }
        if running_count(ws) == 0 {
            assert forall|w: int| 0 <= w < ws.len() implies ws[w] is Stopped by {
                if w < ws.len() - 1 {
                    assert(ws.drop_last()[w] == ws[w]);
                }
            }
        }
    }
}

/// What holds at every point of a shutdown that began after `jobs` were
/// submitted to `n` fresh workers.
spec fn shutdown_inv(m: PoolModel, jobs: Seq<nat>, n: nat) -> bool {
    let k = m.ran.len();
    let r = running_count(m.workers);
    &&& m.workers.len() == n
    &&& m.quits.len() == n
    &&& k <= jobs.len()
    &&& m.ran == jobs.take(k as int)
    &&& m.queue == executes(jobs.skip(k as int)) + quits(r)
    &&& forall|w: int|
        0 <= w < n ==> (m.workers[w] is Running && m.quits[w] == 0) || (m.workers[w] is Stopped
            && m.quits[w] == 1)
    &&& r < n ==> k == jobs.len()
}

proof fn lemma_shutdown_inv(n: nat, jobs: Seq<nat>, schedule: Seq<nat>)
    requires
        n > 0,
        valid_schedule(shut_down(submitted(started(n), jobs)), schedule),
    ensures
        shutdown_inv(run(shut_down(submitted(started(n), jobs)), schedule), jobs, n),
        schedule.len() + run(shut_down(submitted(started(n), jobs)), schedule).queue.len()
            == jobs.len() + n,
    decreases schedule.len(),
{
    let s = shut_down(submitted(started(n), jobs));
    if schedule.len() == 0 {
        lemma_running_all(n);
        assert(jobs.take(0) =~= Seq::<nat>::empty());
        assert(jobs.skip(0) =~= jobs);
        assert(s.queue =~= executes(jobs) + quits(n));
    } else {
        lemma_shutdown_inv(n, jobs, schedule.drop_last());
        let m = run(s, schedule.drop_last());
        let w = schedule.last();
        let next = deliver(m, w);
        assert(next == run(s, schedule));
        let k = m.ran.len() as int;
        let r = running_count(m.workers);
        if k < jobs.len() {
            assert(m.queue[0] == Message::Execute(jobs[k]));
            assert(next.workers =~= m.workers);
            assert(next.ran =~= jobs.take(k + 1));
            assert(next.queue =~= executes(jobs.skip(k + 1)) + quits(r));
        } else {
            assert(jobs.skip(k) =~= Seq::<nat>::empty());
            assert(m.queue =~= quits(r));
            assert(m.queue[0] == Message::<nat>::Quit);
            lemma_running_stop(m.workers, w as int);
            assert(next.queue =~= executes(jobs.skip(k)) + quits((r - 1) as nat));
            assert forall|v: int| 0 <= v < n implies (next.workers[v] is Running
                && next.quits[v] == 0) || (next.workers[v] is Stopped && next.quits[v] == 1) by {
                if v != w {
                    assert(next.workers[v] == m.workers[v]);
                    assert(next.quits[v] == m.quits[v]);
                }
            }
        }
    }
}

/// Every job submitted to a pool of `n > 0` workers is run exactly once, in the
/// order of submission, whichever workers take them: any turn order among the
/// workers, with one turn per job, is possible and runs exactly the jobs.
pub proof fn lemma_jobs_run_once(n: nat, jobs: Seq<nat>, schedule: Seq<nat>)
    requires
        n > 0,
        schedule.len() == jobs.len(),
        forall|i: int| 0 <= i < schedule.len() ==> schedule[i] < n,
    ensures
        started(n).workers.len() == n,
        valid_schedule(submitted(started(n), jobs), schedule),
        run(submitted(started(n), jobs), schedule).ran == jobs,
        run(submitted(started(n), jobs), schedule).queue.len() == 0,
    decreases schedule.len(),
{
    lemma_jobs_run_prefix(n, jobs, schedule);
    assert(jobs.take(jobs.len() as int) =~= jobs);
}

proof fn lemma_jobs_run_prefix(n: nat, jobs: Seq<nat>, schedule: Seq<nat>)
    requires
        n > 0,
        schedule.len() <= jobs.len(),
        forall|i: int| 0 <= i < schedule.len() ==> schedule[i] < n,
    ensures
        valid_schedule(submitted(started(n), jobs), schedule),
        run(submitted(started(n), jobs), schedule).ran == jobs.take(schedule.len() as int),
        run(submitted(started(n), jobs), schedule).queue == executes(
            jobs.skip(schedule.len() as int),
        ),
        run(submitted(started(n), jobs), schedule).workers == started(n).workers,
    decreases schedule.len(),
{
    let s = submitted(started(n), jobs);
    if schedule.len() == 0 {
        assert(jobs.take(0) =~= Seq::<nat>::empty());
        assert(jobs.skip(0) =~= jobs);
        assert(s.queue =~= executes(jobs));
    } else {
        let k = (schedule.len() - 1) as int;
        lemma_jobs_run_prefix(n, jobs, schedule.drop_last());
        let m = run(s, schedule.drop_last());
        let next = deliver(m, schedule.last());
        assert(m.queue[0] == Message::Execute(jobs[k]));
        assert(next.workers =~= m.workers);
        assert(next.ran =~= jobs.take(k + 1));
        assert(next.queue =~= executes(jobs.skip(k + 1)));
    }
}

/// The shutdown handshake, begun after `jobs` were submitted to `n > 0`
/// workers, never gets stuck and ends with every worker stopped: while a
/// message waits some worker is running to take it; no worker takes more than
/// one `Quit`; at most `jobs.len() + n` deliveries happen; and once the queue
/// is empty every worker has taken exactly one `Quit` and stopped, so each
/// thread can be joined.
pub proof fn lemma_shutdown_completes(n: nat, jobs: Seq<nat>, schedule: Seq<nat>)
    requires
        n > 0,
        valid_schedule(shut_down(submitted(started(n), jobs)), schedule),
    ensures
        schedule.len() + run(shut_down(submitted(started(n), jobs)), schedule).queue.len()
            == jobs.len() + n,
        run(shut_down(submitted(started(n), jobs)), schedule).queue.len() > 0 ==> exists|w: nat|
            can_deliver(run(shut_down(submitted(started(n), jobs)), schedule), w),
        forall|w: int|
            0 <= w < n ==> run(shut_down(submitted(started(n), jobs)), schedule).quits[w] <= 1,
        run(shut_down(submitted(started(n), jobs)), schedule).queue.len() == 0 ==> forall|w: int|
            0 <= w < n ==> {
                &&& run(shut_down(submitted(started(n), jobs)), schedule).workers[w] is Stopped
                &&& run(shut_down(submitted(started(n), jobs)), schedule).quits[w] == 1
            },
{
    lemma_shutdown_inv(n, jobs, schedule);
    let m = run(shut_down(submitted(started(n), jobs)), schedule);
    let r = running_count(m.workers);
    lemma_running_witness(m.workers);
    if m.queue.len() > 0 {
        lemma_running_bound(m.workers);
        if m.ran.len() < jobs.len() {
            assert(r == n);
        } else {
            assert(executes(jobs.skip(m.ran.len() as int)).len() == 0);
        }
        let w = choose|w: nat| w < m.workers.len() && m.workers[w as int] is Running;
        assert(can_deliver(m, w));
    }
}

/// Jobs submitted before shutdown begins all run before any worker observes
/// its `Quit`: once some worker has stopped, every job has been taken, in the
/// order of submission.
pub proof fn lemma_jobs_before_quit(n: nat, jobs: Seq<nat>, schedule: Seq<nat>, w: int)
    requires
        n > 0,
        valid_schedule(shut_down(submitted(started(n), jobs)), schedule),
        0 <= w < n,
        run(shut_down(submitted(started(n), jobs)), schedule).workers[w] is Stopped,
    ensures
        run(shut_down(submitted(started(n), jobs)), schedule).ran == jobs,
{
    lemma_shutdown_inv(n, jobs, schedule);
    let m = run(shut_down(submitted(started(n), jobs)), schedule);
    let ws = m.workers.update(w, WorkerState::Running);
    lemma_running_stop(ws, w);
    assert(ws.update(w, WorkerState::Stopped) =~= m.workers);
    lemma_running_bound(ws);
    assert(running_count(m.workers) < n);
    assert(jobs.take(jobs.len() as int) =~= jobs);
}

proof fn lemma_running_bound(ws: Seq<WorkerState>)
    ensures
        running_count(ws) <= ws.len(),
    decreases ws.len(),
{
    if ws.len() > 0 {
        lemma_running_bound(ws.drop_last());
    }
}

} // verus!
