//! Coordination model of the bounded worker pool.
//!
//! The pool runs jobs on background threads; the threads themselves live
//! outside this crate. What is modelled and verified here is every decision
//! the pool takes: how a submission is dispatched, how a worker reacts to a
//! message, and how many shutdown signals teardown must send. Jobs are
//! identified by opaque ids; the queue is a sequence of messages.

use vstd::prelude::*;

verus! {

/// A message carried by the shared job queue: either a job to run or the
/// order to shut down.
#[derive(Clone, Copy, Debug, PartialEq, Eq, Structural)]
pub enum Message {
    NewJob(u64),
    Terminate,
}

/// What a worker does after dequeuing one message: run a job and keep
/// looping, or exit its loop.
#[derive(Clone, Copy, Debug, PartialEq, Eq, Structural)]
pub enum WorkerAction {
    Run(u64),
    Exit,
}

/// How a submission is carried out: run the job inline on the caller's
/// thread, or enqueue a message for the workers.
#[derive(Clone, Copy, Debug, PartialEq, Eq, Structural)]
pub enum DispatchAction {
    RunInline(u64),
    Enqueue(Message),
}

/// The job ids of the `NewJob` messages of a queue, in queue order.
pub open spec fn job_ids(q: Seq<Message>) -> Seq<u64>
    decreases q.len(),
{
    if q.len() == 0 {
        Seq::empty()
    } else {
        let rest = job_ids(q.drop_last());
        match q.last() {
            Message::NewJob(j) => rest.push(j),
            Message::Terminate => rest,
        }
    }
}

/// How many `Terminate` messages a queue holds.
pub open spec fn terminate_count(q: Seq<Message>) -> nat
    decreases q.len(),
{
    if q.len() == 0 {
        0
    } else {
        terminate_count(q.drop_last()) + match q.last() {
            Message::NewJob(_) => 0nat,
            Message::Terminate => 1nat,
        }
    }
}

/// A submission with no workers runs inline on the caller's thread, so the
/// call returns only once the job has fully run; with workers it is enqueued
/// as a `NewJob` and the call returns at once.
pub fn dispatch(worker_count: usize, job: u64) -> (a: DispatchAction)
    ensures
        worker_count == 0 <==> a == DispatchAction::RunInline(job),
        worker_count > 0 <==> a == DispatchAction::Enqueue(Message::NewJob(job)),
{
    if worker_count == 0 {
        DispatchAction::RunInline(job)
    } else {
        DispatchAction::Enqueue(Message::NewJob(job))
    }
}

/// A worker that dequeued `msg` runs the enclosed job and stays in its loop,
/// or exits; it exits exactly on `Terminate`.
pub fn worker_step(msg: Message) -> (a: WorkerAction)
    ensures
        a == WorkerAction::Exit <==> msg == Message::Terminate,
        forall|j: u64| msg == Message::NewJob(j) <==> a == WorkerAction::Run(j),
{
    match msg {
        Message::NewJob(j) => WorkerAction::Run(j),
        Message::Terminate => WorkerAction::Exit,
    }
}

/// The messages teardown sends before any join: one `Terminate` per live
/// worker, no more, no fewer.
pub fn shutdown_messages(worker_count: usize) -> (msgs: Vec<Message>)
    ensures
        msgs@.len() == worker_count,
        forall|i: int| 0 <= i < msgs@.len() ==> msgs@[i] == Message::Terminate,
        terminate_count(msgs@) == worker_count,
        job_ids(msgs@) == Seq::<u64>::empty(),
{
    let mut msgs: Vec<Message> = Vec::new();
    let mut i: usize = 0;
    while i < worker_count
        invariant
            0 <= i <= worker_count,
            msgs@.len() == i,
            forall|j: int| 0 <= j < msgs@.len() ==> msgs@[j] == Message::Terminate,
            terminate_count(msgs@) == i,
            job_ids(msgs@) == Seq::<u64>::empty(),
        decreases worker_count - i,
    {
        proof {
            assert(msgs@.push(Message::Terminate).drop_last() =~= msgs@);
        }
        msgs.push(Message::Terminate);
        i = i + 1;
    }
    msgs
}

/// Replays a queue through `worker_step`, one message at a time, as the
/// workers jointly would: returns the ids of the jobs that get run, in queue
/// order, and how many worker exits the queue causes.
pub fn drain(queue: &Vec<Message>) -> (r: (Vec<u64>, usize))
    requires
        terminate_count(queue@) <= usize::MAX,
    ensures
        r.0@ == job_ids(queue@),
        r.1 == terminate_count(queue@),
{
    let mut executed: Vec<u64> = Vec::new();
    let mut exits: usize = 0;
    let mut i: usize = 0;
    while i < queue.len()
        invariant
            0 <= i <= queue@.len(),
            executed@ == job_ids(queue@.take(i as int)),
            exits == terminate_count(queue@.take(i as int)),
            terminate_count(queue@) <= usize::MAX,
        decreases queue@.len() - i,
    {
        proof {
            assert(queue@.take(i + 1).drop_last() =~= queue@.take(i as int));
            assert(queue@.take(i + 1).last() == queue@[i as int]);
            lemma_terminate_count_monotone(queue@, i + 1);
        }
        match worker_step(queue[i]) {
            WorkerAction::Run(j) => {
                executed.push(j);
            },
            WorkerAction::Exit => {
                exits = exits + 1;
            },
        }
        i = i + 1;
    }
    proof {
        assert(queue@.take(queue@.len() as int) =~= queue@);
    }
    (executed, exits)
}

proof fn lemma_terminate_count_monotone(q: Seq<Message>, n: int)
    requires
        0 <= n <= q.len(),
    ensures
        terminate_count(q.take(n)) <= terminate_count(q),
    decreases q.len() - n,
{
    if n < q.len() {
        lemma_terminate_count_monotone(q, n + 1);
        assert(q.take(n + 1).drop_last() =~= q.take(n));
    } else {
        assert(q.take(n) =~= q);
    }
}

proof fn lemma_job_ids_concat(a: Seq<Message>, b: Seq<Message>)
    ensures
        job_ids(a + b) == job_ids(a) + job_ids(b),
        terminate_count(a + b) == terminate_count(a) + terminate_count(b),
    decreases b.len(),
{
    if b.len() == 0 {
        assert(a + b =~= a);
        assert(job_ids(a) + job_ids(b) =~= job_ids(a));
    } else {
        lemma_job_ids_concat(a, b.drop_last());
        assert((a + b).drop_last() =~= a + b.drop_last());
        assert((a + b).last() == b.last());
        match b.last() {
            Message::NewJob(j) => {
                assert(job_ids(a + b) == job_ids(a + b.drop_last()).push(j));
                assert(job_ids(a) + job_ids(b) =~= (job_ids(a) + job_ids(b.drop_last())).push(j));
            },
            Message::Terminate => {
                assert(job_ids(a) + job_ids(b) =~= job_ids(a) + job_ids(b.drop_last()));
            },
        }
    }
}

/// The queue a pool of `n` workers holds at teardown when the jobs `jobs`
/// were submitted in order: the jobs first, then the shutdown signals.
pub open spec fn queue_at_shutdown(jobs: Seq<u64>, n: nat) -> Seq<Message> {
    jobs.map_values(|j: u64| Message::NewJob(j)) + Seq::new(n, |i: int| Message::Terminate)
}

proof fn lemma_job_ids_of_jobs(jobs: Seq<u64>)
    ensures
        job_ids(jobs.map_values(|j: u64| Message::NewJob(j))) == jobs,
        terminate_count(jobs.map_values(|j: u64| Message::NewJob(j))) == 0,
    decreases jobs.len(),
{
    let q = jobs.map_values(|j: u64| Message::NewJob(j));
    if jobs.len() == 0 {
        assert(job_ids(q) =~= jobs);
    } else {
        lemma_job_ids_of_jobs(jobs.drop_last());
        assert(q.drop_last() =~= jobs.drop_last().map_values(|j: u64| Message::NewJob(j)));
        assert(q.last() == Message::NewJob(jobs.last()));
        assert(job_ids(q) =~= jobs.drop_last().push(jobs.last()));
        assert(jobs.drop_last().push(jobs.last()) =~= jobs);
    }
}

proof fn lemma_terminates_only(n: nat)
    ensures
        job_ids(Seq::new(n, |i: int| Message::Terminate)) == Seq::<u64>::empty(),
        terminate_count(Seq::new(n, |i: int| Message::Terminate)) == n,
    decreases n,
{
    let q = Seq::new(n, |i: int| Message::Terminate);
    if n > 0 {
        lemma_terminates_only((n - 1) as nat);
        assert(q.drop_last() =~= Seq::new((n - 1) as nat, |i: int| Message::Terminate));
    } else {
        assert(job_ids(q) =~= Seq::<u64>::empty());
    }
}

/// The shutdown protocol is lossless and orderly: when a pool of `n` workers
/// tears down after the jobs `jobs` were submitted, the queue runs every
/// submitted job exactly once, in submission order, before any shutdown
/// signal is reached, and it stops exactly `n` workers.
pub proof fn lemma_shutdown_protocol(jobs: Seq<u64>, n: nat)
    ensures
        job_ids(queue_at_shutdown(jobs, n)) == jobs,
        terminate_count(queue_at_shutdown(jobs, n)) == n,
        forall|i: int, j: int|
            0 <= i < jobs.len() && jobs.len() <= j < queue_at_shutdown(jobs, n).len()
                ==> (#[trigger] queue_at_shutdown(jobs, n)[i]) is NewJob
                    && (#[trigger] queue_at_shutdown(jobs, n)[j]) is Terminate,
{
    lemma_job_ids_of_jobs(jobs);
    lemma_terminates_only(n);
    lemma_job_ids_concat(
        jobs.map_values(|j: u64| Message::NewJob(j)),
        Seq::new(n, |i: int| Message::Terminate),
    );
}

/// One worker as teardown sees it: its id and whether its thread handle is
/// still there to be taken.
pub struct Worker {
    pub id: usize,
    pub handle_present: bool,
}

impl Worker {
    /// A freshly spawned worker holds its handle.
    pub fn new(id: usize) -> (w: Worker)
        ensures
            w.id == id,
            w.handle_present,
    {
        Worker { id, handle_present: true }
    }

    /// Takes the handle for the join: it is there until the first take and
    /// never again after, so a worker is joined at most once.
    pub fn take_handle(&mut self) -> (had: bool)
        ensures
            !final(self).handle_present,
            final(self).id == old(self).id,
            had == old(self).handle_present,
    {
        let had = self.handle_present;
        self.handle_present = false;
        had
    }
}

} // verus!
