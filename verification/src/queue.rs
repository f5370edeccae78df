//! The work queue: the invocations of a run, handed out first in, first out.

use crate::expand::{cmds_view, Cmd, CmdView, RangeError};
use crate::task::Task;
use std::collections::VecDeque;
use vstd::multiset::Multiset;
use vstd::prelude::*;

verus! {

/// What taking the front of a queue leaves and yields: an empty queue stays as
/// it is and yields nothing.
pub open spec fn pop_front<T>(queue: Seq<T>) -> (Seq<T>, Option<T>) {
    if queue.len() == 0 {
        (queue, None)
    } else {
        (queue.drop_first(), Some(queue.first()))
    }
}

/// The invocations of a list of named tasks, task after task.
pub open spec fn expansions(tasks: Seq<(String, Task)>) -> Seq<CmdView>
    decreases tasks.len(),
{
    if tasks.len() == 0 {
        Seq::empty()
    } else {
        expansions(tasks.drop_last()) + tasks.last().1.expansion(tasks.last().0@)
    }
}

/// A first-in, first-out queue of invocations. It is filled before the
/// workers start and only shrinks afterwards.
pub struct WorkQueue {
    items: VecDeque<Cmd>,
}

impl View for WorkQueue {
    type V = Seq<CmdView>;

    closed spec fn view(&self) -> Seq<CmdView> {
        cmds_view(self.items@)
    }
}

impl WorkQueue {
    /// An empty queue.
    pub fn new() -> (queue: WorkQueue)
        ensures
            queue@ == Seq::<CmdView>::empty(),
    {
        let queue = WorkQueue { items: VecDeque::new() };
        assert(queue@ =~= Seq::<CmdView>::empty());
        queue
    }

    /// Appends `cmds` to the back of the queue, in order.
    pub fn extend(&mut self, cmds: Vec<Cmd>)
        ensures
            final(self)@ == old(self)@ + cmds_view(cmds@),
    {
        let ghost before = self@;
        let ghost all = cmds@;
        for cmd in it: cmds.into_iter()
            invariant
                it.seq() == all,
                self@ == before + cmds_view(all.take(it.index() as int)),
        {
            let ghost i = it.index() as int;
            let ghost was = self.items@;
            self.items.push_back(cmd);
            assert(cmds_view(was.push(cmd)) =~= cmds_view(was).push(cmd@));
            assert(cmds_view(all.take(i + 1)) =~= cmds_view(all.take(i)).push(all[i]@));
        }
        assert(all.take(all.len() as int) =~= all);
    }

    /// The queue of a whole run: the invocations of every task, task after
    /// task in the order given. The first task that cannot be expanded stops
    /// the run before anything is queued.
    pub fn from_tasks(tasks: &Vec<(String, Task)>) -> (result: Result<WorkQueue, RangeError>)
        ensures
            match result {
                Ok(queue) => {
                    &&& forall|i: int|
                        0 <= i < tasks@.len() ==> (#[trigger] tasks@[i]).1.well_formed()
                    &&& queue@ == expansions(tasks@)
                },
                Err(error) => exists|i: int|
                    {
                        &&& 0 <= i < tasks@.len()
                        &&& forall|j: int| 0 <= j < i ==> (#[trigger] tasks@[j]).1.well_formed()
                        &&& !(#[trigger] tasks@[i]).1.well_formed()
                        &&& tasks@[i].1.first_range_error(tasks@[i].0@, error)
                    },
            },
    {
        let mut queue = WorkQueue::new();
        let mut i: usize = 0;
        while i < tasks.len()
            invariant
                i <= tasks@.len(),
                forall|j: int| 0 <= j < i ==> (#[trigger] tasks@[j]).1.well_formed(),
                queue@ == expansions(tasks@.take(i as int)),
            decreases tasks@.len() - i,
        {
            let named = &tasks[i];
            match named.1.expand(named.0.as_str()) {
                Ok(cmds) => {
                    queue.extend(cmds);
                },
                Err(error) => {
                    return Err(error);
                },
            }
            assert(tasks@.take(i as int + 1).drop_last() =~= tasks@.take(i as int));
            i = i + 1;
        }
        assert(tasks@.take(tasks@.len() as int) =~= tasks@);
        Ok(queue)
    }

    /// How many invocations are waiting.
    pub fn len(&self) -> (n: usize)
        ensures
            n == self@.len(),
    {
        self.items.len()
    }

    /// Whether nothing is waiting.
    pub fn is_empty(&self) -> (empty: bool)
        ensures
            empty == (self@.len() == 0),
    {
        self.items.len() == 0
    }

    /// Takes the invocation at the front, if there is one. This is the only
    /// way anything leaves the queue.
    pub fn try_pop_front(&mut self) -> (item: Option<Cmd>)
        ensures
            final(self)@ == pop_front(old(self)@).0,
            match item {
                Some(cmd) => pop_front(old(self)@).1 == Some(cmd@),
                None => pop_front(old(self)@).1 is None,
            },
    {
        let ghost was = self.items@;
        let item = self.items.pop_front();
        proof {
            if was.len() > 0 {
                assert(cmds_view(was.subrange(1, was.len() as int)) =~= cmds_view(
                    was,
                ).drop_first());
            }
        }
        item
    }
}

/// What worker `worker` has taken after the pops of `schedule`, in the order
/// taken. `schedule` names the worker that makes each successive pop: any
/// interleaving of the workers is some schedule.
pub open spec fn taken_by<T>(queue: Seq<T>, schedule: Seq<nat>, worker: nat) -> Seq<T>
    decreases schedule.len(),
{
    if schedule.len() == 0 {
        Seq::empty()
    } else {
        let (rest, item) = pop_front(queue);
        let later = taken_by(rest, schedule.drop_first(), worker);
        match item {
            Some(x) => if schedule.first() == worker {
                seq![x] + later
            } else {
                later
            },
            None => later,
        }
    }
}

/// What is still queued after the pops of `schedule`.
pub open spec fn left_after<T>(queue: Seq<T>, schedule: Seq<nat>) -> Seq<T>
    decreases schedule.len(),
{
    if schedule.len() == 0 {
        queue
    } else {
        left_after(pop_front(queue).0, schedule.drop_first())
    }
}

/// Everything that the workers `0 .. workers` have taken after the pops of
/// `schedule`, put together.
pub open spec fn taken_by_all<T>(queue: Seq<T>, schedule: Seq<nat>, workers: nat) -> Multiset<T>
    decreases workers,
{
    if workers == 0 {
        Multiset::empty()
    } else {
        taken_by_all(queue, schedule, (workers - 1) as nat).add(
            taken_by(queue, schedule, (workers - 1) as nat).to_multiset(),
        )
    }
}

/// A sequence holds its first element once more than the rest of it does.
proof fn lemma_first_and_rest<T>(s: Seq<T>)
    requires
        s.len() > 0,
    ensures
        s.to_multiset() == s.drop_first().to_multiset().insert(s.first()),
{
    broadcast use vstd::multiset::group_multiset_axioms;

    vstd::seq_lib::to_multiset_remove(s, 0);
    assert(s.remove(0) =~= s.drop_first());
    assert(s.contains(s[0]));
    s.to_multiset_ensures();
    assert(s.to_multiset() =~= s.drop_first().to_multiset().insert(s.first()));
}

/// One pop by worker `schedule[0]` adds the front item to what the workers
/// `0 .. workers` hold together exactly when that worker is among them.
proof fn lemma_taken_by_all_step<T>(queue: Seq<T>, schedule: Seq<nat>, workers: nat)
    requires
        schedule.len() > 0,
        queue.len() > 0,
    ensures
        taken_by_all(queue, schedule, workers) == if schedule.first() < workers {
            taken_by_all(queue.drop_first(), schedule.drop_first(), workers).insert(
                queue.first(),
            )
        } else {
            taken_by_all(queue.drop_first(), schedule.drop_first(), workers)
        },
    decreases workers,
{
    broadcast use vstd::multiset::group_multiset_axioms;

    let rest = queue.drop_first();
    let later = schedule.drop_first();
    if workers > 0 {
        let w = (workers - 1) as nat;
        lemma_taken_by_all_step(queue, schedule, w);
        let tail = taken_by(rest, later, w);
        if schedule.first() == w {
            let whole = seq![queue.first()] + tail;
            assert(taken_by(queue, schedule, w) == whole);
            lemma_first_and_rest(whole);
            assert(whole.drop_first() =~= tail);
            assert(taken_by_all(queue, schedule, workers) =~= taken_by_all(
                rest,
                later,
                workers,
            ).insert(queue.first()));
        } else {
            assert(taken_by(queue, schedule, w) == tail);
            if schedule.first() < w {
                assert(taken_by_all(queue, schedule, workers) =~= taken_by_all(
                    rest,
                    later,
                    workers,
                ).insert(queue.first()));
            }
        }
    }
}

/// On an empty queue every pop comes back empty-handed.
proof fn lemma_nothing_from_empty<T>(queue: Seq<T>, schedule: Seq<nat>, workers: nat)
    requires
        queue.len() == 0,
    ensures
        taken_by_all(queue, schedule, workers) == Multiset::<T>::empty(),
        left_after(queue, schedule) == queue,
    decreases workers, schedule.len(),
{
    broadcast use vstd::multiset::group_multiset_axioms;

    if schedule.len() > 0 {
        lemma_nothing_from_empty(queue, schedule.drop_first(), workers);
    }
    if workers > 0 {
        let w = (workers - 1) as nat;
        lemma_nothing_from_empty(queue, schedule, w);
        lemma_taken_nothing_from_empty(queue, schedule, w);
        assert(taken_by(queue, schedule, w).to_multiset() =~= Multiset::<T>::empty()) by {
            Seq::<T>::empty().to_multiset_ensures();
        }
        assert(taken_by_all(queue, schedule, workers) =~= Multiset::<T>::empty());
    }
}

/// On an empty queue a worker takes nothing.
proof fn lemma_taken_nothing_from_empty<T>(queue: Seq<T>, schedule: Seq<nat>, worker: nat)
    requires
        queue.len() == 0,
    ensures
        taken_by(queue, schedule, worker) == Seq::<T>::empty(),
    decreases schedule.len(),
{
    if schedule.len() > 0 {
        lemma_taken_nothing_from_empty(queue, schedule.drop_first(), worker);
    }
}

/// Nothing is lost and nothing is handed out twice. Whatever the order in
/// which the workers `0 .. workers` pop, what they have taken together with
/// what is still queued is exactly what was queued at the start, each item as
/// often as it was queued. Once there were at least as many pops as items the
/// queue is empty, and the workers together hold exactly what was queued.
pub proof fn lemma_drained_exactly_once<T>(queue: Seq<T>, schedule: Seq<nat>, workers: nat)
    requires
        forall|i: int| 0 <= i < schedule.len() ==> #[trigger] schedule[i] < workers,
    ensures
        taken_by_all(queue, schedule, workers).add(left_after(queue, schedule).to_multiset())
            == queue.to_multiset(),
        schedule.len() >= queue.len() ==> left_after(queue, schedule).len() == 0
            && taken_by_all(queue, schedule, workers) == queue.to_multiset(),
    decreases schedule.len(),
{
    broadcast use vstd::multiset::group_multiset_axioms;

    if queue.len() == 0 {
        lemma_nothing_from_empty(queue, schedule, workers);
        assert(Multiset::<T>::empty().add(queue.to_multiset()) =~= queue.to_multiset());
        assert(queue.to_multiset() =~= Multiset::<T>::empty()) by {
            queue.to_multiset_ensures();
        }
    } else if schedule.len() == 0 {
        assert(schedule =~= Seq::<nat>::empty());
        lemma_no_pops(queue, workers);
        assert(Multiset::<T>::empty().add(queue.to_multiset()) =~= queue.to_multiset());
    } else {
        let rest = queue.drop_first();
        let later = schedule.drop_first();
        assert forall|i: int| 0 <= i < later.len() implies #[trigger] later[i] < workers by {
            assert(later[i] == schedule[i + 1]);
        }
        lemma_drained_exactly_once(rest, later, workers);
        lemma_taken_by_all_step(queue, schedule, workers);
        assert(schedule.first() == schedule[0]);
        lemma_first_and_rest(queue);
        let left = left_after(rest, later).to_multiset();
        assert(taken_by_all(rest, later, workers).insert(queue.first()).add(left)
            =~= taken_by_all(rest, later, workers).add(left).insert(queue.first()));
        if schedule.len() >= queue.len() {
            assert(left =~= Multiset::<T>::empty()) by {
                left_after(rest, later).to_multiset_ensures();
            }
            assert(taken_by_all(queue, schedule, workers).add(left) =~= taken_by_all(
                queue,
                schedule,
                workers,
            ));
        }
    }
}

/// Without a pop nobody holds anything.
proof fn lemma_no_pops<T>(queue: Seq<T>, workers: nat)
    ensures
        taken_by_all(queue, Seq::<nat>::empty(), workers) == Multiset::<T>::empty(),
    decreases workers,
{
    broadcast use vstd::multiset::group_multiset_axioms;

    if workers > 0 {
        lemma_no_pops(queue, (workers - 1) as nat);
        assert(Seq::<T>::empty().to_multiset() =~= Multiset::<T>::empty()) by {
            Seq::<T>::empty().to_multiset_ensures();
        }
        assert(taken_by_all(queue, Seq::<nat>::empty(), workers) =~= Multiset::<T>::empty());
    }
}

} // verus!
