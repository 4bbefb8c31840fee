//! The course of a download in tasks: which task is transferred next, what becomes of a
//! task when its transfer ends, and the progress line that goes with it.

use crate::clock::Elapsed;
use crate::jjp::{JjP, Job, Task};
use crate::text::{
    byte_len, law_range_names_its_ends, lemma_encode_joined, push_run, range_text, range_value,
    read_number, run_of, NumberError,
};
use crate::utils::{bar_fill, bar_line, filled, is_success, show_bar, BAR_LEN};
use vstd::prelude::*;
use vstd::utf8::{encode_utf8, is_ascii_chars_encode_utf8};

verus! {

/// Totals that go on counting from one download to the next.
#[derive(Clone, Copy, PartialEq, Eq, Debug, Structural)]
pub struct Counters {
    /// The transfers under way.
    pub count: usize,
    /// The bytes received.
    pub received_len: usize,
    /// The tasks completed.
    pub done: usize,
}

impl Default for Counters {
    fn default() -> (r: Counters)
        ensures
            r == (Counters { count: 0, received_len: 0, done: 0 }),
    {
        Counters { count: 0, received_len: 0, done: 0 }
    }
}

/// The transfer of one task: the index of the task, the next byte to come and the last
/// one.
#[derive(Clone, Copy, PartialEq, Eq, Debug, Structural)]
pub struct Transfer {
    pub index: usize,
    pub start: usize,
    pub end: usize,
}

impl Transfer {
    /// The transfer after `n` bytes have been written.
    pub open spec fn after_bytes(self, n: usize) -> Transfer {
        Transfer { start: (self.start + n) as usize, ..self }
    }
}

/// How far a download has come.
#[verifier::ext_equal]
pub struct RunState {
    pub parallel: bool,
    pub parallel_num: nat,
    pub tasks: Seq<Task>,
    /// Whether more than one transfer may be under way.
    pub more: bool,
    pub counters: Counters,
    /// The length in bytes of the longest progress line so far.
    pub max_len: usize,
}

/// The first task from `from` on that is neither done nor under way.
pub open spec fn first_idle(tasks: Seq<Task>, from: int) -> Option<int>
    decreases tasks.len() - from,
{
    if from < 0 || from >= tasks.len() {
        None
    } else if !tasks[from].done && !tasks[from].running {
        Some(from)
    } else {
        first_idle(tasks, from + 1)
    }
}

/// The number of completed tasks.
pub open spec fn done_tasks(tasks: Seq<Task>) -> nat
    decreases tasks.len(),
{
    if tasks.len() == 0 {
        0
    } else {
        done_tasks(tasks.drop_last()) + if tasks.last().done {
            1nat
        } else {
            0
        }
    }
}

impl RunState {
    /// The state in which a download begins.
    pub open spec fn begin(job: Job, carried: Counters) -> RunState {
        RunState {
            parallel: job.parallel,
            parallel_num: job.parallel_num,
            tasks: job.tasks(),
            more: job.parallel,
            counters: carried,
            max_len: 0,
        }
    }

    /// True where the total of completed tasks is that of this download on top of `base`.
    pub open spec fn accounts(self, base: nat) -> bool {
        self.counters.done == base + done_tasks(self.tasks)
    }

    /// True until as many tasks are completed as there are.
    pub open spec fn unfinished(self) -> bool {
        self.counters.done != self.parallel_num
    }

    /// True where a further transfer may begin: no second one once the server has refused
    /// to serve several.
    pub open spec fn admits(self) -> bool {
        self.more || self.counters.count != 1
    }

    /// The transfer that begins next, if one does.
    pub open spec fn next(self) -> Option<Transfer> {
        match first_idle(self.tasks, 0) {
            Some(i) => if self.admits() {
                Some(
                    Transfer {
                        index: i as usize,
                        start: self.tasks[i].start_pos,
                        end: self.tasks[i].end_pos,
                    },
                )
            } else {
                None
            },
            None => None,
        }
    }

    /// The state after the next task has been looked for. The task that was found counts
    /// as under way, also where no transfer may begin.
    pub open spec fn after_next(self) -> RunState {
        match first_idle(self.tasks, 0) {
            Some(i) => RunState {
                tasks: self.tasks.update(i, Task { running: true, ..self.tasks[i] }),
                counters: if self.admits() {
                    Counters {
                        count: self.counters.count.wrapping_add(1),
                        ..self.counters
                    }
                } else {
                    self.counters
                },
                ..self
            },
            None => self,
        }
    }

    /// The state after a transfer that brought nothing.
    pub open spec fn after_refusal(self, index: int) -> RunState {
        RunState {
            tasks: self.tasks.update(index, Task { running: false, ..self.tasks[index] }),
            counters: Counters { count: self.counters.count.wrapping_sub(1), ..self.counters },
            ..self
        }
    }

    /// The state after a request that failed, with the answer that it is forbidden or
    /// without.
    pub open spec fn after_failure(self, index: int, forbidden: bool) -> RunState {
        RunState { more: self.more && !forbidden, ..self.after_refusal(index) }
    }

    /// The value of the `range` field of the request for a task, where the server serves ranges.
    pub open spec fn range(self, transfer: Transfer) -> Option<Seq<char>> {
        if self.parallel {
            Some(range_text(transfer.start as nat, transfer.end as nat))
        } else {
            None
        }
    }

    /// Where the next bytes of a transfer are written: where the server serves ranges, at the
    /// next byte of the task, otherwise behind what has been written.
    pub open spec fn place(self, transfer: Transfer) -> Option<u64> {
        if self.parallel {
            Some(transfer.start as u64)
        } else {
            None
        }
    }

    /// The state after `n` bytes have been written.
    pub open spec fn after_bytes(self, n: usize) -> RunState {
        RunState {
            counters: Counters {
                received_len: self.counters.received_len.wrapping_add(n),
                ..self.counters
            },
            ..self
        }
    }

    /// The state after a transfer has ended: the task goes on where the transfer stopped,
    /// and is completed once that lies behind its end.
    pub open spec fn after_end(self, transfer: Transfer) -> RunState {
        let i = transfer.index as int;
        let complete = transfer.start > transfer.end;
        RunState {
            tasks: self.tasks.update(
                i,
                Task {
                    running: false,
                    done: self.tasks[i].done || complete,
                    start_pos: transfer.start,
                    end_pos: self.tasks[i].end_pos,
                },
            ),
            counters: Counters {
                count: self.counters.count.wrapping_sub(1),
                done: if complete {
                    self.counters.done.wrapping_add(1)
                } else {
                    self.counters.done
                },
                ..self.counters
            },
            ..self
        }
    }

    /// The progress line: the bar of what has been received, with the number of tasks that
    /// are not completed.
    pub open spec fn line(self, name: Seq<char>, length: nat, span: Elapsed) -> Seq<char> {
        bar_line(
            name,
            self.counters.received_len as nat,
            length,
            self.counters.received_len as nat,
            span,
            (self.parallel_num - self.counters.done) as nat,
        )
    }

    /// True where the progress line can be made.
    pub open spec fn shows(self, length: nat) -> bool {
        &&& self.counters.done <= self.parallel_num
        &&& filled(self.counters.received_len as nat, length) <= BAR_LEN - 2
    }

    /// The longest line, once `line` has been printed too.
    pub open spec fn widest(self, line: Seq<char>) -> usize {
        if self.max_len < byte_len(line) {
            byte_len(line)
        } else {
            self.max_len
        }
    }

    /// A line as it is printed over the one before: padded with spaces to the longest.
    pub open spec fn printed(self, line: Seq<char>) -> Seq<char> {
        "\r"@ + line + run_of(' ', (self.widest(line) - byte_len(line)) as nat)
    }
}

/// The course of a download in tasks.
pub struct Run {
    parallel: bool,
    parallel_num: usize,
    tasks: Vec<Task>,
    more: bool,
    counters: Counters,
    max_len: usize,
}

impl View for Run {
    type V = RunState;

    closed spec fn view(&self) -> RunState {
        RunState {
            parallel: self.parallel,
            parallel_num: self.parallel_num as nat,
            tasks: self.tasks@,
            more: self.more,
            counters: self.counters,
            max_len: self.max_len,
        }
    }
}

impl JjP {
    /// Begins the download, with the totals that earlier ones have left.
    pub fn run(&self, carried: Counters) -> (r: Run)
        requires
            self@.splittable(),
        ensures
            r@ == RunState::begin(self@, carried),
    {
        Run {
            parallel: self.parallel(),
            parallel_num: self.tasks_wanted(),
            tasks: self.split_task(),
            more: self.parallel(),
            counters: carried,
            max_len: 0,
        }
    }
}

impl Run {
    /// Whether the download goes on.
    pub fn is_unfinished(&self) -> (r: bool)
        ensures
            r == self@.unfinished(),
    {
        self.counters.done != self.parallel_num
    }

    /// The totals, to be left to the next download.
    pub fn counters(&self) -> (r: Counters)
        ensures
            r == self@.counters,
    {
        self.counters
    }

    /// Looks for a task to transfer.
    pub fn next_transfer(&mut self) -> (r: Option<Transfer>)
        ensures
            r == old(self)@.next(),
            final(self)@ == old(self)@.after_next(),
    {
        let mut i: usize = 0;
        while i < self.tasks.len() && (self.tasks[i].done || self.tasks[i].running)
            invariant
                i <= self.tasks@.len(),
                *self == *old(self),
                first_idle(self.tasks@, 0) == first_idle(self.tasks@, i as int),
            decreases self.tasks@.len() - i,
        {
            i = i + 1;
        }
        if i == self.tasks.len() {
            return None;
        }
        let task = self.tasks[i];
        self.tasks.set(i, Task { running: true, ..task });
        if !self.more && self.counters.count == 1 {
            return None;
        }
        self.counters = Counters {
            count: self.counters.count.wrapping_add(1),
            received_len: self.counters.received_len,
            done: self.counters.done,
        };
        Some(Transfer { index: i, start: task.start_pos, end: task.end_pos })
    }

    /// The value of the `range` field of the request for a task, where the server serves
    /// ranges.
    pub fn request_range(&self, transfer: &Transfer) -> (r: Option<String>)
        ensures
            r is Some <==> self@.range(*transfer) is Some,
            r matches Some(text) ==> self@.range(*transfer) == Some(text@),
            r is Some <==> self@.parallel,
            r matches Some(text) ==> text@ == range_text(
                transfer.start as nat,
                transfer.end as nat,
            ),
    {
        if self.parallel {
            Some(range_value(transfer.start, transfer.end))
        } else {
            None
        }
    }

    /// Takes the status of the answer. Other than with a success the transfer is over.
    pub fn on_status(&mut self, transfer: &Transfer, status: u16) -> (go_on: bool)
        requires
            transfer.index < old(self)@.tasks.len(),
        ensures
            go_on == is_success(status),
            go_on ==> final(self)@ == old(self)@,
            !go_on ==> final(self)@ == old(self)@.after_refusal(transfer.index as int),
    {
        if status / 100 == 2 {
            return true;
        }
        self.give_back(transfer.index);
        false
    }

    /// Takes the failure of a request.
    pub fn on_send_error(&mut self, transfer: &Transfer, forbidden: bool)
        requires
            transfer.index < old(self)@.tasks.len(),
        ensures
            final(self)@ == old(self)@.after_failure(transfer.index as int, forbidden),
    {
        if forbidden {
            self.more = false;
        }
        self.give_back(transfer.index);
    }

    fn give_back(&mut self, index: usize)
        requires
            index < old(self)@.tasks.len(),
        ensures
            final(self)@ == old(self)@.after_refusal(index as int),
    {
        let task = self.tasks[index];
        self.tasks.set(index, Task { running: false, ..task });
        self.release();
        assert(self@ =~= old(self)@.after_refusal(index as int));
    }

    fn release(&mut self)
        ensures
            final(self)@ == (RunState {
                counters: Counters {
                    count: old(self)@.counters.count.wrapping_sub(1),
                    ..old(self)@.counters
                },
                ..old(self)@
            }),
    {
        self.counters = Counters {
            count: self.counters.count.wrapping_sub(1),
            received_len: self.counters.received_len,
            done: self.counters.done,
        };
    }

    /// Where the next bytes of a transfer are written, if not behind what has been written.
    pub fn write_place(&self, transfer: &Transfer) -> (r: Option<u64>)
        ensures
            r == self@.place(*transfer),
    {
        if self.parallel {
            Some(transfer.start as u64)
        } else {
            None
        }
    }

    /// Takes note of `n` bytes that have been written.
    pub fn on_bytes(&mut self, transfer: &mut Transfer, n: usize)
        requires
            old(transfer).start + n <= usize::MAX,
        ensures
            *final(transfer) == (Transfer {
                start: (old(transfer).start + n) as usize,
                ..*old(transfer)
            }),
            *final(transfer) == old(transfer).after_bytes(n),
            final(self)@ == old(self)@.after_bytes(n),
    {
        transfer.start = transfer.start + n;
        self.counters = Counters {
            count: self.counters.count,
            received_len: self.counters.received_len.wrapping_add(n),
            done: self.counters.done,
        };
    }

    /// Takes the end of a transfer, whatever ended it.
    pub fn on_end(&mut self, transfer: &Transfer)
        requires
            transfer.index < old(self)@.tasks.len(),
        ensures
            final(self)@ == old(self)@.after_end(*transfer),
    {
        let task = self.tasks[transfer.index];
        let complete = transfer.start > transfer.end;
        self.tasks.set(
            transfer.index,
            Task {
                running: false,
                done: task.done || complete,
                start_pos: transfer.start,
                end_pos: task.end_pos,
            },
        );
        if complete {
            self.counters = Counters {
                count: self.counters.count,
                received_len: self.counters.received_len,
                done: self.counters.done.wrapping_add(1),
            };
        }
        self.release();
        assert(self@ =~= old(self)@.after_end(*transfer));
    }

    /// Whether the progress line can be made.
    pub fn can_show(&self, length: usize) -> (r: bool)
        ensures
            r == self@.shows(length as nat),
    {
        self.counters.done <= self.parallel_num && bar_fill(
            self.counters.received_len,
            length,
        ) <= (BAR_LEN - 2) as u128
    }

    /// The progress line, padded so that it covers the line before.
    pub fn show(&mut self, name: &str, length: usize, span: Elapsed) -> (r: String)
        requires
            span.wf(),
            old(self)@.shows(length as nat),
        ensures
            r@ == old(self)@.printed(old(self)@.line(name@, length as nat, span)),
            final(self)@ == (RunState {
                max_len: old(self)@.widest(old(self)@.line(name@, length as nat, span)),
                ..old(self)@
            }),
    {
        let received = self.counters.received_len;
        let con = self.parallel_num - self.counters.done;
        let bar = show_bar(name, received, length, received, span, con);
        let len = bar.as_str().len();
        if self.max_len < len {
            self.max_len = len;
        }
        let mut out = "\r".to_string();
        out.append(bar.as_str());
        push_run(&mut out, ' ', self.max_len - len);
        out
    }
}

/// The task that is found is idle, and none before it is.
pub proof fn lemma_first_idle(tasks: Seq<Task>, from: int)
    requires
        0 <= from <= tasks.len(),
    ensures
        match first_idle(tasks, from) {
            Some(i) => {
                &&& from <= i < tasks.len()
                &&& !tasks[i].done && !tasks[i].running
                &&& forall|k: int| from <= k < i ==> #[trigger] tasks[k].done || tasks[k].running
            },
            None => forall|k: int|
                from <= k < tasks.len() ==> #[trigger] tasks[k].done || tasks[k].running,
        },
    decreases tasks.len() - from,
{
    if from < tasks.len() && (tasks[from].done || tasks[from].running) {
        lemma_first_idle(tasks, from + 1);
    }
}

proof fn lemma_done_update(tasks: Seq<Task>, i: int, task: Task)
    requires
        0 <= i < tasks.len(),
    ensures
        done_tasks(tasks.update(i, task)) + (if tasks[i].done {
            1nat
        } else {
            0
        }) == done_tasks(tasks) + (if task.done {
            1nat
        } else {
            0
        }),
    decreases tasks.len(),
{
    let after = tasks.update(i, task);
    if i == tasks.len() - 1 {
        assert(after.drop_last() =~= tasks.drop_last());
    } else {
        assert(after.drop_last() =~= tasks.drop_last().update(i, task));
        lemma_done_update(tasks.drop_last(), i, task);
    }
}

/// All tasks are completed exactly when as many are completed as there are.
pub proof fn lemma_done_bounds(tasks: Seq<Task>)
    ensures
        done_tasks(tasks) <= tasks.len(),
        done_tasks(tasks) == tasks.len() <==> forall|i: int|
            0 <= i < tasks.len() ==> #[trigger] tasks[i].done,
    decreases tasks.len(),
{
    if tasks.len() > 0 {
        let rest = tasks.drop_last();
        lemma_done_bounds(rest);
        assert(forall|i: int| 0 <= i < rest.len() ==> rest[i] == #[trigger] tasks[i]);
        if done_tasks(tasks) == tasks.len() {
            assert forall|i: int| 0 <= i < tasks.len() implies #[trigger] tasks[i].done by {
                if i < rest.len() {
                    assert(rest[i].done);
                }
            }
        }
    }
}

/// The task of a transfer that begins was idle and is the first such. From then on it is
/// under way, so that no other transfer takes it up.
pub proof fn law_task_is_taken_once(state: RunState)
    requires
        state.tasks.len() <= usize::MAX,
        state.next() is Some,
    ensures
        ({
            let t = state.next()->Some_0;
            &&& t.index < state.tasks.len()
            &&& !state.tasks[t.index as int].done && !state.tasks[t.index as int].running
            &&& forall|k: int|
                0 <= k < t.index ==> #[trigger] state.tasks[k].done || state.tasks[k].running
            &&& state.after_next().tasks[t.index as int].running
        }),
        forall|later: RunState, i: int|
            0 <= i < later.tasks.len() <= usize::MAX && (#[trigger] later.tasks[i]).running
                ==> !(later.next() matches Some(t) && t.index == i),
{
    lemma_first_idle(state.tasks, 0);
    assert forall|later: RunState, i: int|
        0 <= i < later.tasks.len() <= usize::MAX && (
        #[trigger] later.tasks[i]).running implies !(later.next() matches Some(t) && t.index
        == i) by {
        lemma_first_idle(later.tasks, 0);
    }
}

/// No step changes the number of tasks or the end of one.
pub proof fn law_tasks_keep_their_ends(
    state: RunState,
    transfer: Transfer,
    forbidden: bool,
    n: usize,
)
    requires
        transfer.index < state.tasks.len(),
    ensures
        same_ends(state.after_next().tasks, state.tasks),
        same_ends(state.after_refusal(transfer.index as int).tasks, state.tasks),
        same_ends(state.after_failure(transfer.index as int, forbidden).tasks, state.tasks),
        same_ends(state.after_bytes(n).tasks, state.tasks),
        same_ends(state.after_end(transfer).tasks, state.tasks),
{
    lemma_first_idle(state.tasks, 0);
}

/// True of as many tasks with the same ends.
pub open spec fn same_ends(a: Seq<Task>, b: Seq<Task>) -> bool {
    &&& a.len() == b.len()
    &&& forall|i: int| 0 <= i < a.len() ==> (#[trigger] a[i]).end_pos == b[i].end_pos
}

/// The total of completed tasks stays what the tasks say, whatever happens: a task is
/// counted when it is completed, and once. `transfer` is the transfer of a task that is
/// not completed yet.
pub proof fn law_completed_tasks_are_counted(
    state: RunState,
    base: nat,
    transfer: Transfer,
    forbidden: bool,
    n: usize,
)
    requires
        state.accounts(base),
        transfer.index < state.tasks.len(),
        !state.tasks[transfer.index as int].done,
        base + state.tasks.len() <= usize::MAX,
    ensures
        state.after_next().accounts(base),
        state.after_refusal(transfer.index as int).accounts(base),
        state.after_failure(transfer.index as int, forbidden).accounts(base),
        state.after_bytes(n).accounts(base),
        state.after_end(transfer).accounts(base),
{
    let i = transfer.index as int;
    lemma_first_idle(state.tasks, 0);
    lemma_done_bounds(state.tasks);
    lemma_done_bounds(state.after_end(transfer).tasks);
    match first_idle(state.tasks, 0) {
        Some(k) => {
            lemma_done_update(state.tasks, k, state.after_next().tasks[k]);
        },
        None => {},
    }
    lemma_done_update(state.tasks, i, state.after_refusal(i).tasks[i]);
    lemma_done_update(state.tasks, i, state.after_end(transfer).tasks[i]);
}

/// A download begins with no task completed. While the total is its own, it goes on
/// exactly until every task is completed.
pub proof fn law_ends_when_all_tasks_are_done(job: Job, carried: Counters, state: RunState)
    requires
        state.accounts(0),
        state.tasks.len() == state.parallel_num,
    ensures
        RunState::begin(job, carried).accounts(carried.done as nat),
        state.unfinished() <==> exists|i: int|
            0 <= i < state.tasks.len() && !(#[trigger] state.tasks[i]).done,
{
    lemma_done_bounds(state.tasks);
    lemma_none_done(job.tasks());
}

/// Where no task is completed, none is counted.
pub proof fn lemma_none_done(tasks: Seq<Task>)
    requires
        forall|i: int| 0 <= i < tasks.len() ==> !(#[trigger] tasks[i]).done,
    ensures
        done_tasks(tasks) == 0,
    decreases tasks.len(),
{
    if tasks.len() > 0 {
        lemma_none_done(tasks.drop_last());
    }
}

/// A task whose transfer stopped early is resumed at the byte where it stopped, up to the
/// same end, and is not completed.
pub proof fn law_task_resumes(state: RunState, transfer: Transfer)
    requires
        state.tasks.len() <= usize::MAX,
        transfer.index < state.tasks.len(),
        transfer.start <= transfer.end,
    ensures
        state.after_end(transfer).tasks[transfer.index as int].done
            == state.tasks[transfer.index as int].done,
        state.after_end(transfer).counters.done == state.counters.done,
        state.after_end(transfer).next() matches Some(t) && t.index == transfer.index
            ==> state.after_end(transfer).next() == Some(
            Transfer {
                index: transfer.index,
                start: transfer.start,
                end: state.tasks[transfer.index as int].end_pos,
            },
        ),
{
    lemma_first_idle(state.after_end(transfer).tasks, 0);
}

/// Every line covers the one before: behind the carriage return it takes up as many bytes
/// as the longest line so far, which never becomes shorter.
pub proof fn law_lines_cover(state: RunState, line: Seq<char>)
    requires
        encode_utf8(line).len() <= usize::MAX,
    ensures
        state.max_len <= state.widest(line),
        encode_utf8(state.printed(line)).len() == 1 + state.widest(line),
{
    let padding = run_of(' ', (state.widest(line) - byte_len(line)) as nat);
    reveal_strlit("\r");
    is_ascii_chars_encode_utf8("\r"@);
    is_ascii_chars_encode_utf8(padding);
    lemma_encode_joined("\r"@, line);
    lemma_encode_joined("\r"@ + line, padding);
}

/// A download begins with the tasks of its file, all idle, with the totals that were left to
/// it, and with several transfers at a time where the server serves ranges.
pub proof fn law_begins_idle(job: Job, carried: Counters, i: int)
    requires
        0 <= i < job.tasks().len(),
    ensures
        ({
            let state = RunState::begin(job, carried);
            &&& state.parallel == job.parallel
            &&& state.more == job.parallel
            &&& state.parallel_num == job.parallel_num
            &&& state.counters == carried
            &&& state.max_len == 0
            &&& state.tasks.len() == job.tasks().len()
            &&& state.tasks[i] == job.tasks()[i]
            &&& !state.tasks[i].running && !state.tasks[i].done
        }),
{
}

/// While several transfers may be under way, or not exactly one is, every idle task is in time
/// transferred: where there is one, a transfer begins, and that of the first. It goes from
/// where the task stands to its end.
pub proof fn law_idle_task_is_found(state: RunState, i: int)
    requires
        state.tasks.len() <= usize::MAX,
        0 <= i < state.tasks.len(),
        !state.tasks[i].done && !state.tasks[i].running,
        state.more || state.counters.count != 1,
    ensures
        state.next() is Some,
        ({
            let t = state.next()->Some_0;
            &&& t.index <= i
            &&& t.start == state.tasks[t.index as int].start_pos
            &&& t.end == state.tasks[t.index as int].end_pos
        }),
{
    lemma_first_idle(state.tasks, 0);
}

/// No transfer begins without an idle task, nor a second one once the server has refused to
/// serve several.
pub proof fn law_no_transfer_begins(state: RunState)
    requires
        (!state.more && state.counters.count == 1) || forall|i: int|
            0 <= i < state.tasks.len() ==> #[trigger] state.tasks[i].done || state.tasks[i].running,
    ensures
        state.next() is None,
{
    lemma_first_idle(state.tasks, 0);
}

/// The search for a task marks the first idle one as running and counts a transfer that begins.
/// Nothing else changes.
pub proof fn law_next_marks_one_task(state: RunState, i: int, k: int)
    requires
        state.tasks.len() <= usize::MAX,
        state.counters.count < usize::MAX,
        0 <= i < state.tasks.len(),
        !state.tasks[i].done && !state.tasks[i].running,
        forall|j: int| 0 <= j < i ==> #[trigger] state.tasks[j].done || state.tasks[j].running,
        0 <= k < state.tasks.len(),
    ensures
        ({
            let after = state.after_next();
            &&& after.tasks.len() == state.tasks.len()
            &&& after.tasks[i].running && !after.tasks[i].done
            &&& after.tasks[i].start_pos == state.tasks[i].start_pos
            &&& after.tasks[i].end_pos == state.tasks[i].end_pos
            &&& k != i ==> after.tasks[k] == state.tasks[k]
            &&& after.counters.count == if state.next() is Some {
                state.counters.count + 1
            } else {
                state.counters.count as int
            }
            &&& after.counters.received_len == state.counters.received_len
            &&& after.counters.done == state.counters.done
            &&& after.more == state.more
            &&& after.parallel == state.parallel
            &&& after.parallel_num == state.parallel_num
            &&& after.max_len == state.max_len
        }),
{
    lemma_first_idle(state.tasks, 0);
}

/// Where no task is idle, the search for one changes nothing.
pub proof fn law_next_without_idle_tasks(state: RunState)
    requires
        forall|i: int|
            0 <= i < state.tasks.len() ==> #[trigger] state.tasks[i].done || state.tasks[i].running,
    ensures
        state.after_next() == state,
{
    lemma_first_idle(state.tasks, 0);
}

/// Only the answer that it is forbidden ends the transfers side by side, and it does so for
/// good. No other step changes whether there may be several.
pub proof fn law_only_forbidden_ends_parallel(
    state: RunState,
    transfer: Transfer,
    n: usize,
)
    ensures
        state.after_failure(transfer.index as int, false).more == state.more,
        !state.after_failure(transfer.index as int, true).more,
        state.after_refusal(transfer.index as int).more == state.more,
        state.after_next().more == state.more,
        state.after_bytes(n).more == state.more,
        state.after_end(transfer).more == state.more,
{
}

/// A request that failed or was refused gives its task back as it was and ends one transfer.
/// Nothing else changes.
pub proof fn law_failure_gives_back(state: RunState, i: int, k: int, forbidden: bool)
    requires
        0 <= i < state.tasks.len(),
        0 <= k < state.tasks.len(),
        state.counters.count > 0,
    ensures
        given_back(state, state.after_refusal(i), i, k),
        given_back(state, state.after_failure(i, forbidden), i, k),
{
}

/// True where the task `i` has been given back as it was and one transfer less is under way,
/// with the task `k` and everything else unchanged, but for whether there may be several
/// transfers.
pub open spec fn given_back(state: RunState, after: RunState, i: int, k: int) -> bool {
    &&& after.tasks.len() == state.tasks.len()
    &&& !after.tasks[i].running
    &&& after.tasks[i].done == state.tasks[i].done
    &&& after.tasks[i].start_pos == state.tasks[i].start_pos
    &&& after.tasks[i].end_pos == state.tasks[i].end_pos
    &&& k != i ==> after.tasks[k] == state.tasks[k]
    &&& after.counters.count == state.counters.count - 1
    &&& after.counters.received_len == state.counters.received_len
    &&& after.counters.done == state.counters.done
    &&& after.parallel == state.parallel
    &&& after.parallel_num == state.parallel_num
    &&& after.max_len == state.max_len
}

/// A request that fails, other than with the answer that it is forbidden, or that is refused
/// undoes the beginning of its transfer: the same transfer begins next.
pub proof fn law_failed_transfer_is_undone(state: RunState)
    requires
        state.tasks.len() <= usize::MAX,
        state.counters.count < usize::MAX,
        state.next() is Some,
    ensures
        ({
            let t = state.next()->Some_0;
            &&& state.after_next().after_failure(t.index as int, false) == state
            &&& state.after_next().after_refusal(t.index as int) == state
            &&& state.after_next().after_failure(t.index as int, false).next() == Some(t)
        }),
{
    lemma_first_idle(state.tasks, 0);
    let t = state.next()->Some_0;
    let back = state.after_next().after_refusal(t.index as int);
    assert(back.tasks =~= state.tasks);
    assert(back =~= state);
    assert(state.after_next().after_failure(t.index as int, false) =~= state);
}

/// A task whose request failed is requested again at once, next to the transfers under way,
/// where no task before it is idle.
pub proof fn law_failed_task_is_next(state: RunState, i: int)
    requires
        state.tasks.len() <= usize::MAX,
        0 <= i < state.tasks.len(),
        !state.tasks[i].done,
        forall|j: int| 0 <= j < i ==> #[trigger] state.tasks[j].done || state.tasks[j].running,
        state.more || state.counters.count != 2,
        state.counters.count > 0,
    ensures
        state.after_failure(i, false).next() == Some(
            Transfer {
                index: i as usize,
                start: state.tasks[i].start_pos,
                end: state.tasks[i].end_pos,
            },
        ),
        state.after_refusal(i).next() == state.after_failure(i, false).next(),
{
    let after = state.after_failure(i, false);
    lemma_first_idle(after.tasks, 0);
    lemma_first_idle(state.after_refusal(i).tasks, 0);
    assert(!after.tasks[i].done && !after.tasks[i].running);
    assert(after.counters.count == state.counters.count - 1);
    match first_idle(after.tasks, 0) {
        Some(k) => {
            if k < i {
                assert(state.tasks[k].done || state.tasks[k].running);
                assert(state.tasks[k] == after.tasks[k]);
            }
        },
        None => {},
    }
}

/// With ranges every write goes to the next byte of the task. Without them none seeks: it goes
/// behind what has been written.
pub proof fn law_only_ranges_seek(state: RunState, transfer: Transfer)
    ensures
        !state.parallel ==> state.place(transfer) is None,
        state.parallel ==> (state.place(transfer) matches Some(p) && p == transfer.start),
{
}

/// With ranges the request for a task asks for exactly the bytes that are missing: from the next
/// one to the last, both as plain numbers that read back. Without them it asks for no range.
pub proof fn law_request_asks_for_the_rest(state: RunState, transfer: Transfer) -> (r: (
    Seq<char>,
    Seq<char>,
))
    ensures
        !state.parallel ==> state.range(transfer) is None,
        state.parallel ==> state.range(transfer) == Some(
            seq!['b', 'y', 't', 'e', 's', '='] + r.0 + seq!['-'] + r.1,
        ),
        read_number(r.0) == Ok::<nat, NumberError>(transfer.start as nat),
        read_number(r.1) == Ok::<nat, NumberError>(transfer.end as nat),
        forall|i: int| 0 <= i < r.0.len() ==> '0' <= #[trigger] r.0[i] <= '9',
        forall|i: int| 0 <= i < r.1.len() ==> '0' <= #[trigger] r.1[i] <= '9',
{
    law_range_names_its_ends(transfer.start as nat, transfer.end as nat)
}

/// Bytes move their transfer on by their number, and leave its task and its end.
pub proof fn law_bytes_move_the_transfer(transfer: Transfer, n: usize)
    requires
        transfer.start + n <= usize::MAX,
    ensures
        transfer.after_bytes(n).start == transfer.start + n,
        transfer.after_bytes(n).end == transfer.end,
        transfer.after_bytes(n).index == transfer.index,
{
}

/// Bytes are counted in full. Nothing else changes.
pub proof fn law_bytes_are_counted(state: RunState, n: usize)
    requires
        state.counters.received_len + n <= usize::MAX,
    ensures
        ({
            let after = state.after_bytes(n);
            &&& after.counters.received_len == state.counters.received_len + n
            &&& after.counters.count == state.counters.count
            &&& after.counters.done == state.counters.done
            &&& after.tasks == state.tasks
            &&& after.more == state.more
            &&& after.parallel == state.parallel
            &&& after.parallel_num == state.parallel_num
            &&& after.max_len == state.max_len
        }),
{
}

/// A transfer that ends leaves its task idle where it stopped, and completes it exactly when
/// that lies behind its end. Nothing else changes.
pub proof fn law_end_leaves_the_task(state: RunState, transfer: Transfer, k: int)
    requires
        transfer.index < state.tasks.len(),
        0 <= k < state.tasks.len(),
        state.counters.count > 0,
        state.counters.done < usize::MAX,
        !state.tasks[transfer.index as int].done,
    ensures
        ({
            let i = transfer.index as int;
            let after = state.after_end(transfer);
            &&& after.tasks.len() == state.tasks.len()
            &&& !after.tasks[i].running
            &&& after.tasks[i].start_pos == transfer.start
            &&& after.tasks[i].end_pos == state.tasks[i].end_pos
            &&& after.tasks[i].done <==> transfer.start > transfer.end
            &&& k != i ==> after.tasks[k] == state.tasks[k]
            &&& after.counters.count == state.counters.count - 1
            &&& after.counters.done - state.counters.done == if transfer.start > transfer.end {
                1int
            } else {
                0
            }
            &&& after.counters.received_len == state.counters.received_len
            &&& after.more == state.more
            &&& after.parallel == state.parallel
            &&& after.parallel_num == state.parallel_num
            &&& after.max_len == state.max_len
        }),
{
}

/// A download goes on until as many tasks are completed as there are.
pub proof fn law_goes_on(state: RunState)
    ensures
        state.unfinished() <==> state.counters.done < state.parallel_num || state.counters.done
            > state.parallel_num,
{
}

/// A progress line is printed behind a carriage return, with nothing but spaces behind it.
pub proof fn law_printed_shows_the_line(state: RunState, line: Seq<char>)
    requires
        encode_utf8(line).len() <= usize::MAX,
    ensures
        ({
            let printed = state.printed(line);
            let n = line.len() as int;
            &&& printed.len() >= 1 + n
            &&& printed[0] == '\r'
            &&& printed.subrange(1, 1 + n) == line
            &&& forall|i: int| 1 + n <= i < printed.len() ==> #[trigger] printed[i] == ' '
        }),
        state.widest(line) >= state.max_len,
        state.widest(line) >= encode_utf8(line).len(),
        state.widest(line) == state.max_len || state.widest(line) == encode_utf8(line).len(),
{
    reveal_strlit("\r");
    let printed = state.printed(line);
    assert(printed.subrange(1, 1 + line.len() as int) =~= line);
}

/// The line shows the bytes received of the length of the file, and how many tasks are not
/// completed.
pub proof fn law_line_is_that_of_the_totals(
    state: RunState,
    name: Seq<char>,
    length: nat,
    span: Elapsed,
)
    requires
        state.counters.done <= state.parallel_num,
    ensures
        ({
            let received = state.counters.received_len as nat;
            let open = (state.parallel_num - state.counters.done) as nat;
            state.line(name, length, span) == bar_line(name, received, length, received, span, open)
        }),
        state.shows(length) <==> filled(state.counters.received_len as nat, length) <= 26,
{
}

/// A line cannot be made once more tasks are counted as completed than there are.
pub proof fn law_too_many_done(state: RunState, length: nat)
    requires
        state.counters.done > state.parallel_num,
    ensures
        !state.shows(length),
{
}

} // verus!
