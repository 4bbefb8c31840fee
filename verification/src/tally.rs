//! What the totals of a download in tasks add up to.

use crate::jjp::{law_split_is_contiguous, Job, Task};
use crate::run::{Counters, RunState, Transfer};
use vstd::prelude::*;

verus! {

/// The sum of some numbers.
pub open spec fn sum_of(s: Seq<int>) -> int
    decreases s.len(),
{
    if s.len() == 0 {
        0
    } else {
        sum_of(s.drop_last()) + s.last()
    }
}

/// Where the tasks stand, one by one: at the next byte of its transfer where a task has one
/// under way, otherwise where the last transfer left it.
pub open spec fn positions(tasks: Seq<Task>, flights: Map<int, Transfer>) -> Seq<int> {
    Seq::new(
        tasks.len(),
        |i: int|
            if flights.contains_key(i) {
                flights[i].start as int
            } else {
                tasks[i].start_pos as int
            },
    )
}

/// The bytes by which the tasks of a download have moved on.
pub open spec fn moved(job: Job, state: RunState, flights: Map<int, Transfer>) -> int {
    sum_of(positions(state.tasks, flights)) - sum_of(positions(job.tasks(), Map::empty()))
}

/// True where the transfers under way are those of running tasks.
pub open spec fn in_flight(state: RunState, flights: Map<int, Transfer>) -> bool {
    forall|i: int| #[trigger]
        flights.contains_key(i) ==> {
            &&& 0 <= i < state.tasks.len()
            &&& flights[i].index == i
            &&& state.tasks[i].running
        }
}

/// True where as many bytes have been received since `base` as the tasks have moved on.
pub open spec fn adds_up(
    job: Job,
    base: nat,
    state: RunState,
    flights: Map<int, Transfer>,
) -> bool {
    &&& in_flight(state, flights)
    &&& state.counters.received_len == base + moved(job, state, flights)
}

proof fn lemma_sum_update(s: Seq<int>, i: int, v: int)
    requires
        0 <= i < s.len(),
    ensures
        sum_of(s.update(i, v)) == sum_of(s) - s[i] + v,
    decreases s.len(),
{
    let t = s.update(i, v);
    if i == s.len() - 1 {
        assert(t.drop_last() =~= s.drop_last());
    } else {
        assert(t.drop_last() =~= s.drop_last().update(i, v));
        lemma_sum_update(s.drop_last(), i, v);
    }
}

/// At the beginning nothing has been received and no task has moved.
pub proof fn law_adds_up_at_first(job: Job, carried: Counters)
    ensures
        adds_up(
            job,
            carried.received_len as nat,
            RunState::begin(job, carried),
            Map::empty(),
        ),
{
}

/// A transfer that begins leaves the sum as it is.
pub proof fn law_adds_up_after_next(
    job: Job,
    base: nat,
    state: RunState,
    flights: Map<int, Transfer>,
)
    requires
        adds_up(job, base, state, flights),
        state.tasks.len() <= usize::MAX,
    ensures
        match state.next() {
            Some(t) => adds_up(
                job,
                base,
                state.after_next(),
                flights.insert(t.index as int, t),
            ),
            None => adds_up(job, base, state.after_next(), flights),
        },
{
    crate::run::lemma_first_idle(state.tasks, 0);
    let after = state.after_next();
    match state.next() {
        Some(t) => {
            assert(positions(after.tasks, flights.insert(t.index as int, t)) =~= positions(
                state.tasks,
                flights,
            ));
        },
        None => {
            assert(positions(after.tasks, flights) =~= positions(state.tasks, flights));
        },
    }
}

/// A transfer that brought nothing leaves the sum as it is, whether its request failed or
/// was refused.
pub proof fn law_adds_up_after_failure(
    job: Job,
    base: nat,
    state: RunState,
    flights: Map<int, Transfer>,
    index: int,
    forbidden: bool,
)
    requires
        adds_up(job, base, state, flights),
        flights.contains_key(index),
        flights[index].start == state.tasks[index].start_pos,
    ensures
        adds_up(job, base, state.after_refusal(index), flights.remove(index)),
        adds_up(job, base, state.after_failure(index, forbidden), flights.remove(index)),
{
    assert(positions(state.after_refusal(index).tasks, flights.remove(index)) =~= positions(
        state.tasks,
        flights,
    ));
}

/// Bytes that have been written move their task on by their number.
pub proof fn law_adds_up_after_bytes(
    job: Job,
    base: nat,
    state: RunState,
    flights: Map<int, Transfer>,
    index: int,
    n: usize,
)
    requires
        adds_up(job, base, state, flights),
        flights.contains_key(index),
        flights[index].start + n <= usize::MAX,
        state.counters.received_len + n <= usize::MAX,
    ensures
        adds_up(
            job,
            base,
            state.after_bytes(n),
            flights.insert(
                index,
                Transfer { start: (flights[index].start + n) as usize, ..flights[index] },
            ),
        ),
{
    let later = flights.insert(
        index,
        Transfer { start: (flights[index].start + n) as usize, ..flights[index] },
    );
    let before = positions(state.tasks, flights);
    assert(positions(state.tasks, later) =~= before.update(index, before[index] + n));
    lemma_sum_update(before, index, before[index] + n);
}

/// A transfer that ends leaves its task where it stopped.
pub proof fn law_adds_up_after_end(
    job: Job,
    base: nat,
    state: RunState,
    flights: Map<int, Transfer>,
    index: int,
)
    requires
        adds_up(job, base, state, flights),
        flights.contains_key(index),
    ensures
        adds_up(job, base, state.after_end(flights[index]), flights.remove(index)),
{
    assert(positions(state.after_end(flights[index]).tasks, flights.remove(index)) =~= positions(
        state.tasks,
        flights,
    ));
}

/// The places right behind the ends of the tasks.
pub open spec fn behind_ends(tasks: Seq<Task>) -> Seq<int> {
    Seq::new(tasks.len(), |i: int| tasks[i].end_pos + 1)
}

proof fn lemma_ends_less_starts(job: Job, n: int)
    requires
        job.is_split(),
        0 < n <= job.parallel_num,
    ensures
        sum_of(behind_ends(job.tasks()).take(n)) - sum_of(
            positions(job.tasks(), Map::empty()).take(n),
        ) == job.tasks()[n - 1].end_pos + 1,
    decreases n,
{
    law_split_is_contiguous(job);
    let ends = behind_ends(job.tasks());
    let starts = positions(job.tasks(), Map::empty());
    assert(ends.take(n).drop_last() =~= ends.take(n - 1));
    assert(starts.take(n).drop_last() =~= starts.take(n - 1));
    if n == 1 {
        assert(ends.take(0) =~= Seq::empty());
        assert(starts.take(0) =~= Seq::empty());
    } else {
        lemma_ends_less_starts(job, n - 1);
        assert(job.tasks()[n - 1].start_pos == job.tasks()[n - 2].end_pos + 1);
    }
}

/// Once every task stands right behind its end, exactly the length of the file has been
/// received.
pub proof fn law_whole_file_is_received(job: Job, base: nat, state: RunState)
    requires
        job.is_split(),
        adds_up(job, base, state, Map::empty()),
        state.tasks.len() == job.parallel_num,
        forall|i: int|
            0 <= i < state.tasks.len() ==> (#[trigger] state.tasks[i]).start_pos
                == job.tasks()[i].end_pos + 1,
    ensures
        state.counters.received_len == base + job.length,
{
    let n = job.parallel_num as int;
    let ends = behind_ends(job.tasks());
    let starts = positions(job.tasks(), Map::empty());
    law_split_is_contiguous(job);
    lemma_ends_less_starts(job, n);
    assert(ends.take(n) =~= ends);
    assert(starts.take(n) =~= starts);
    assert(positions(state.tasks, Map::empty()) =~= ends);
}

} // verus!
