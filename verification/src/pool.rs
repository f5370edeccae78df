//! The worker pool: how many workers to start, and what each worker does next.

use crate::expand::{Cmd, CmdView};
use crate::queue::{pop_front, WorkQueue};
use crate::sink::{record_line, record_text, Outcome};
use vstd::prelude::*;

verus! {

/// The size of the pool: the requested number of workers, or half the
/// processors (rounded down) when none is requested, but never more than
/// there are invocations to run.
pub open spec fn pool_size(requested: Option<usize>, cpus: usize, total: usize) -> usize {
    let wanted = match requested {
        Some(n) => n,
        None => cpus / 2,
    };
    if wanted <= total {
        wanted
    } else {
        total
    }
}

/// The pool is never larger than the work, so no worker starts with nothing
/// to do; short of that it is as large as asked for, and a request makes the
/// number of processors irrelevant.
pub proof fn lemma_pool_size_bounds(requested: Option<usize>, cpus: usize, total: usize)
    ensures
        pool_size(requested, cpus, total) <= total,
        requested matches Some(n) ==> pool_size(requested, cpus, total) <= n,
        requested is None ==> pool_size(requested, cpus, total) <= cpus / 2,
        requested matches Some(n) ==> n <= total ==> pool_size(requested, cpus, total) == n,
        requested is None ==> cpus / 2 <= total ==> pool_size(requested, cpus, total) == cpus
            / 2,
        requested is Some ==> forall|other: usize|
            pool_size(requested, other, total) == pool_size(requested, cpus, total),
{
}

/// The number of workers to start for `total` invocations on a machine with
/// `cpus` processors.
pub fn worker_count(requested: Option<usize>, cpus: usize, total: usize) -> (n: usize)
    ensures
        n == pool_size(requested, cpus, total),
        n <= total,
{
    let wanted: usize = match requested {
        Some(n) => n,
        None => cpus / 2,
    };
    if wanted <= total {
        wanted
    } else {
        total
    }
}

/// The number of logical processors available to this process, as
/// `num_cpus::get` reports it. Nothing is claimed of the number: it depends
/// on the machine and on the limits set for the process.
#[verifier::external_body]
fn available_cpus() -> usize {
    num_cpus::get()
}

/// The number of workers to start for `total` invocations on this machine.
///
/// The processor count is asked of the machine, so the default is not known
/// beforehand; a requested number decides the result alone.
pub fn effective_worker_count(requested: Option<usize>, total: usize) -> (n: usize)
    ensures
        n <= total,
        exists|cpus: usize| n == pool_size(requested, cpus, total),
        requested matches Some(wanted) ==> n == if wanted <= total {
            wanted
        } else {
            total
        },
{
    let cpus: usize = available_cpus();
    worker_count(requested, cpus, total)
}

/// Where a worker stands.
#[derive(Debug, Clone, PartialEq, Eq)]
pub enum WorkerState {
    /// Free to take the next invocation.
    Idle,
    /// Waiting for the invocation of this display name to end.
    Running(String),
    /// Has seen the queue empty and takes no more work.
    Stopped,
}

/// Where a worker stands, as mathematics.
pub enum WorkerStateView {
    Idle,
    Running(Seq<char>),
    Stopped,
}

impl View for WorkerState {
    type V = WorkerStateView;

    open spec fn view(&self) -> WorkerStateView {
        match self {
            WorkerState::Idle => WorkerStateView::Idle,
            WorkerState::Running(name) => WorkerStateView::Running(name@),
            WorkerState::Stopped => WorkerStateView::Stopped,
        }
    }
}

/// What a worker that asks for work gets, and what that makes of the worker
/// and the queue. An idle worker pops: with an invocation it is running, with
/// none it stops for good. A worker that is running or stopped gets nothing
/// and changes nothing.
pub open spec fn take_work(state: WorkerStateView, queue: Seq<CmdView>) -> (
    WorkerStateView,
    Seq<CmdView>,
    Option<CmdView>,
) {
    match state {
        WorkerStateView::Idle => match pop_front(queue).1 {
            Some(cmd) => (WorkerStateView::Running(cmd.name), pop_front(queue).0, Some(cmd)),
            None => (WorkerStateView::Stopped, queue, None),
        },
        _ => (state, queue, None),
    }
}

/// What a worker that reports an outcome writes to the sink, and what that
/// makes of the worker. A running worker writes the record of its invocation
/// and is idle again; any other has nothing to report.
pub open spec fn report_outcome(state: WorkerStateView, outcome: Outcome) -> (
    WorkerStateView,
    Option<Seq<char>>,
) {
    match state {
        WorkerStateView::Running(name) => (
            WorkerStateView::Idle,
            Some(record_text(name, outcome)),
        ),
        _ => (state, None),
    }
}

/// One worker of the pool. The caller drives it: ask for work with
/// [`Worker::next`], run what comes back, hand the outcome to
/// [`Worker::finish`], write the record, and ask again until nothing comes
/// back.
pub struct Worker {
    state: WorkerState,
}

impl View for Worker {
    type V = WorkerStateView;

    closed spec fn view(&self) -> WorkerStateView {
        self.state@
    }
}

impl Worker {
    /// A worker that is free to take work.
    pub fn new() -> (worker: Worker)
        ensures
            worker@ == WorkerStateView::Idle,
    {
        Worker { state: WorkerState::Idle }
    }

    /// Whether the worker has stopped for good.
    pub fn is_stopped(&self) -> (stopped: bool)
        ensures
            stopped == (self@ is Stopped),
    {
        match &self.state {
            WorkerState::Stopped => true,
            _ => false,
        }
    }

    /// Asks the queue for the next invocation to run.
    pub fn next(&mut self, queue: &mut WorkQueue) -> (work: Option<Cmd>)
        ensures
            final(self)@ == take_work(old(self)@, old(queue)@).0,
            final(queue)@ == take_work(old(self)@, old(queue)@).1,
            match work {
                Some(cmd) => take_work(old(self)@, old(queue)@).2 == Some(cmd@),
                None => take_work(old(self)@, old(queue)@).2 is None,
            },
    {
        match &self.state {
            WorkerState::Idle => {
                let work = queue.try_pop_front();
                match &work {
                    Some(cmd) => {
                        self.state = WorkerState::Running(cmd.name.clone());
                    },
                    None => {
                        self.state = WorkerState::Stopped;
                    },
                }
                work
            },
            _ => None,
        }
    }

    /// Reports how the running invocation ended, and returns its record for
    /// the sink.
    pub fn finish(&mut self, outcome: &Outcome) -> (line: Option<String>)
        ensures
            final(self)@ == report_outcome(old(self)@, *outcome).0,
            match line {
                Some(text) => report_outcome(old(self)@, *outcome).1 == Some(text@),
                None => report_outcome(old(self)@, *outcome).1 is None,
            },
    {
        match &self.state {
            WorkerState::Running(name) => {
                let text = record_line(name.as_str(), outcome);
                self.state = WorkerState::Idle;
                Some(text)
            },
            _ => None,
        }
    }
}

} // verus!
