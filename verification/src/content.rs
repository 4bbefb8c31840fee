//! What stands in the file: the bytes that a server serves, each at its own place.

use crate::download::{law_segments_cover_once, segments_from};
use crate::jjp::{law_split_covers_once, Job};
use crate::map_file::{MapState, SeekFrom};
use crate::run::{
    first_idle, law_completed_tasks_are_counted, lemma_done_bounds, lemma_first_idle,
    lemma_none_done, Counters, RunState, Transfer,
};
use crate::transfer::{fills, Body};
use vstd::prelude::*;

verus! {

/// A file, as the bytes that stand at places.
pub open spec fn file_of(bytes: Seq<u8>) -> Map<int, u8> {
    Map::new(|p: int| 0 <= p < bytes.len(), |p: int| bytes[p])
}

/// A file after `data` has been written at the place `at`.
pub open spec fn written_at(file: Map<int, u8>, at: int, data: Seq<u8>) -> Map<int, u8> {
    Map::new(
        |p: int| file.contains_key(p) || at <= p < at + data.len(),
        |p: int|
            if at <= p < at + data.len() {
                data[p - at]
            } else {
                file[p]
            },
    )
}

/// True where the byte of the content at the place `p` stands there in the file.
pub open spec fn in_place(file: Map<int, u8>, content: Seq<u8>, p: int) -> bool {
    file.contains_key(p) && file[p] == content[p]
}

/// True where every byte of the content from `from` up to `to` stands at its place.
pub open spec fn stands(file: Map<int, u8>, content: Seq<u8>, from: int, to: int) -> bool {
    forall|p: int|
        from <= p < to && 0 <= p < content.len() ==> #[trigger] in_place(file, content, p)
}

/// True of bytes that are those of the content from the place `at` on.
pub open spec fn served(content: Seq<u8>, at: int, data: Seq<u8>) -> bool {
    forall|j: int|
        0 <= j < data.len() && 0 <= at + j < content.len() ==> #[trigger] data[j] == content[at + j]
}

/// True of a file that holds the whole content.
pub open spec fn holds_all(file: Map<int, u8>, content: Seq<u8>) -> bool {
    stands(file, content, 0, content.len() as int)
}

/// Where a task stands: at the next byte of its transfer where one is under way, otherwise
/// where the last transfer left it.
pub open spec fn position(state: RunState, flights: Map<int, Transfer>, i: int) -> int {
    if flights.contains_key(i) {
        flights[i].start as int
    } else {
        state.tasks[i].start_pos as int
    }
}

/// True where the transfers under way go on with tasks that are running and not completed.
pub open spec fn flights_match(job: Job, state: RunState, flights: Map<int, Transfer>) -> bool {
    forall|i: int| #[trigger]
        flights.contains_key(i) ==> {
            &&& 0 <= i < state.tasks.len()
            &&& flights[i].index == i
            &&& flights[i].start >= state.tasks[i].start_pos
            &&& flights[i].end == job.tasks()[i].end_pos
            &&& state.tasks[i].running
            &&& !state.tasks[i].done
        }
}

/// What holds of a download in tasks from its beginning to its end. Every byte of a task from
/// its first up to the position stands at its place in the file, and a task is completed only
/// once the position has passed its end.
pub open spec fn in_order(
    job: Job,
    content: Seq<u8>,
    state: RunState,
    flights: Map<int, Transfer>,
    file: Map<int, u8>,
) -> bool {
    &&& state.parallel
    &&& state.parallel_num == job.parallel_num
    &&& state.tasks.len() == job.parallel_num
    &&& state.accounts(0)
    &&& flights_match(job, state, flights)
    &&& forall|i: int|
        0 <= i < state.tasks.len() ==> {
            &&& (#[trigger] state.tasks[i]).end_pos == job.tasks()[i].end_pos
            &&& state.tasks[i].done ==> state.tasks[i].start_pos > state.tasks[i].end_pos
            &&& stands(
                file,
                content,
                job.tasks()[i].start_pos as int,
                position(state, flights, i),
            )
        }
}

/// A download begins in order, whatever the file holds.
pub proof fn law_in_order_at_first(
    job: Job,
    content: Seq<u8>,
    carried: Counters,
    file: Map<int, u8>,
)
    requires
        job.is_split(),
        carried.done == 0,
    ensures
        in_order(job, content, RunState::begin(job, carried), Map::empty(), file),
{
    lemma_none_done(job.tasks());
}

/// A transfer that begins keeps the order.
pub proof fn law_in_order_after_next(
    job: Job,
    content: Seq<u8>,
    state: RunState,
    flights: Map<int, Transfer>,
    file: Map<int, u8>,
)
    requires
        in_order(job, content, state, flights, file),
        job.parallel_num <= usize::MAX,
    ensures
        match state.next() {
            Some(t) => in_order(
                job,
                content,
                state.after_next(),
                flights.insert(t.index as int, t),
                file,
            ),
            None => in_order(job, content, state.after_next(), flights, file),
        },
{
    lemma_first_idle(state.tasks, 0);
    match first_idle(state.tasks, 0) {
        None => {},
        Some(k) => {
            let t = Transfer { index: k as usize, start: 0, end: 0 };
            law_completed_tasks_are_counted(state, 0, t, false, 0);
            let later = match state.next() {
                Some(t) => flights.insert(t.index as int, t),
                None => flights,
            };
            assert(!flights.contains_key(k));
            let after = state.after_next();
            assert forall|i: int| 0 <= i < after.tasks.len() implies {
                &&& (#[trigger] after.tasks[i]).end_pos == job.tasks()[i].end_pos
                &&& after.tasks[i].done ==> after.tasks[i].start_pos > after.tasks[i].end_pos
                &&& stands(
                    file,
                    content,
                    job.tasks()[i].start_pos as int,
                    position(after, later, i),
                )
            } by {
                assert(state.tasks[i].end_pos == job.tasks()[i].end_pos);
                assert(position(after, later, i) == position(state, flights, i));
            }
        },
    }
}

/// A request that failed or was refused keeps the order.
pub proof fn law_in_order_after_failure(
    job: Job,
    content: Seq<u8>,
    state: RunState,
    flights: Map<int, Transfer>,
    file: Map<int, u8>,
    index: int,
    forbidden: bool,
)
    requires
        in_order(job, content, state, flights, file),
        job.parallel_num <= usize::MAX,
        flights.contains_key(index),
    ensures
        in_order(job, content, state.after_refusal(index), flights.remove(index), file),
        in_order(job, content, state.after_failure(index, forbidden), flights.remove(index), file),
{
    law_completed_tasks_are_counted(state, 0, flights[index], forbidden, 0);
    let after = state.after_refusal(index);
    let later = flights.remove(index);
    assert forall|i: int| 0 <= i < after.tasks.len() implies {
        &&& (#[trigger] after.tasks[i]).end_pos == job.tasks()[i].end_pos
        &&& after.tasks[i].done ==> after.tasks[i].start_pos > after.tasks[i].end_pos
        &&& stands(file, content, job.tasks()[i].start_pos as int, position(after, later, i))
    } by {
        assert(state.tasks[i].end_pos == job.tasks()[i].end_pos);
        assert(position(after, later, i) <= position(state, flights, i));
    }
}

/// Served bytes that are written at their place leave what stands in the file standing, and
/// stand there themselves.
proof fn lemma_write_keeps(file: Map<int, u8>, content: Seq<u8>, at: int, data: Seq<u8>)
    requires
        served(content, at, data),
    ensures
        forall|p: int| #[trigger]
            in_place(file, content, p) && 0 <= p < content.len() ==> in_place(
                written_at(file, at, data),
                content,
                p,
            ),
        stands(written_at(file, at, data), content, at, at + data.len()),
{
    let after = written_at(file, at, data);
    assert forall|p: int| 0 <= p < content.len() && at <= p < at + data.len() implies in_place(
        after,
        content,
        p,
    ) by {
        assert(data[p - at] == content[at + (p - at)]);
    }
}

/// A write of served bytes at their place keeps the order, also where the transfer breaks off
/// before they are counted.
pub proof fn law_in_order_after_write(
    job: Job,
    content: Seq<u8>,
    state: RunState,
    flights: Map<int, Transfer>,
    file: Map<int, u8>,
    at: int,
    data: Seq<u8>,
)
    requires
        in_order(job, content, state, flights, file),
        served(content, at, data),
    ensures
        in_order(job, content, state, flights, written_at(file, at, data)),
{
    lemma_write_keeps(file, content, at, data);
    let after = written_at(file, at, data);
    assert forall|i: int| 0 <= i < state.tasks.len() implies stands(
        after,
        content,
        job.tasks()[i].start_pos as int,
        #[trigger] position(state, flights, i),
    ) by {
        assert(state.tasks[i].end_pos == job.tasks()[i].end_pos);
        let (from, to) = (job.tasks()[i].start_pos as int, position(state, flights, i));
        assert(stands(file, content, from, to));
        assert forall|p: int| from <= p < to && 0 <= p < content.len() implies in_place(
            after,
            content,
            p,
        ) by {
            assert(in_place(file, content, p));
        }
    }
}

/// Served bytes that are written at the place of the transfer, and counted, keep the order.
pub proof fn law_in_order_after_bytes(
    job: Job,
    content: Seq<u8>,
    state: RunState,
    flights: Map<int, Transfer>,
    file: Map<int, u8>,
    index: int,
    data: Seq<u8>,
)
    requires
        in_order(job, content, state, flights, file),
        flights.contains_key(index),
        flights[index].start + data.len() <= usize::MAX,
        served(content, flights[index].start as int, data),
    ensures
        in_order(
            job,
            content,
            state.after_bytes(data.len() as usize),
            flights.insert(
                index,
                Transfer { start: (flights[index].start + data.len()) as usize, ..flights[index] },
            ),
            written_at(file, state.place(flights[index])->Some_0 as int, data),
        ),
        state.place(flights[index]) is Some,
{
    let at = flights[index].start as int;
    let after = state.after_bytes(data.len() as usize);
    let later = flights.insert(
        index,
        Transfer { start: (at + data.len()) as usize, ..flights[index] },
    );
    let wider = written_at(file, at, data);
    lemma_write_keeps(file, content, at, data);
    assert forall|i: int| 0 <= i < after.tasks.len() implies {
        &&& (#[trigger] after.tasks[i]).end_pos == job.tasks()[i].end_pos
        &&& after.tasks[i].done ==> after.tasks[i].start_pos > after.tasks[i].end_pos
        &&& stands(wider, content, job.tasks()[i].start_pos as int, position(after, later, i))
    } by {
        assert(state.tasks[i].end_pos == job.tasks()[i].end_pos);
        let from = job.tasks()[i].start_pos as int;
        assert(stands(file, content, from, position(state, flights, i)));
        assert forall|p: int|
            from <= p < position(after, later, i) && 0 <= p < content.len() implies in_place(
            wider,
            content,
            p,
        ) by {
            if p < position(state, flights, i) {
                assert(in_place(file, content, p));
            }
        }
    }
}

/// A transfer that ends keeps the order, whatever ended it.
pub proof fn law_in_order_after_end(
    job: Job,
    content: Seq<u8>,
    state: RunState,
    flights: Map<int, Transfer>,
    file: Map<int, u8>,
    index: int,
)
    requires
        in_order(job, content, state, flights, file),
        job.parallel_num <= usize::MAX,
        flights.contains_key(index),
    ensures
        in_order(job, content, state.after_end(flights[index]), flights.remove(index), file),
{
    law_completed_tasks_are_counted(state, 0, flights[index], false, 0);
    let after = state.after_end(flights[index]);
    let later = flights.remove(index);
    assert forall|i: int| 0 <= i < after.tasks.len() implies {
        &&& (#[trigger] after.tasks[i]).end_pos == job.tasks()[i].end_pos
        &&& after.tasks[i].done ==> after.tasks[i].start_pos > after.tasks[i].end_pos
        &&& stands(file, content, job.tasks()[i].start_pos as int, position(after, later, i))
    } by {
        assert(state.tasks[i].end_pos == job.tasks()[i].end_pos);
        assert(position(after, later, i) == position(state, flights, i));
    }
}

/// A download in order that is finished has left the whole content in the file.
pub proof fn law_finished_file_is_whole(
    job: Job,
    content: Seq<u8>,
    state: RunState,
    flights: Map<int, Transfer>,
    file: Map<int, u8>,
)
    requires
        job.is_split(),
        content.len() == job.length,
        in_order(job, content, state, flights, file),
        !state.unfinished(),
    ensures
        holds_all(file, content),
{
    lemma_done_bounds(state.tasks);
    assert forall|p: int| 0 <= p < content.len() implies in_place(file, content, p) by {
        let i = job.owner(p);
        law_split_covers_once(job, p, 0);
        law_split_covers_once(job, p, i);
        assert(state.tasks[i].done);
        assert(state.tasks[i].end_pos == job.tasks()[i].end_pos);
        assert(!flights.contains_key(i));
        assert(stands(file, content, job.tasks()[i].start_pos as int, position(state, flights, i)));
    }
}

/// True of a file in which nothing stands behind the end of the content.
pub open spec fn within(file: Map<int, u8>, content: Seq<u8>) -> bool {
    forall|p: int| #[trigger] file.contains_key(p) ==> 0 <= p < content.len()
}

/// Nothing comes to stand behind the end of the content while nothing is served beyond it.
pub proof fn law_writes_stay_within(file: Map<int, u8>, content: Seq<u8>, at: int, data: Seq<u8>)
    requires
        within(file, content),
        0 <= at,
        at + data.len() <= content.len(),
    ensures
        within(written_at(file, at, data), content),
{
}

/// A file that holds the whole content, and nothing behind its end, is the content.
pub proof fn law_whole_file_is_the_content(file: Map<int, u8>, content: Seq<u8>)
    requires
        holds_all(file, content),
        within(file, content),
    ensures
        file == file_of(content),
{
    let whole = file_of(content);
    assert forall|p: int| #[trigger] whole.contains_key(p) implies in_place(file, content, p) by {}
    assert(file.dom() =~= whole.dom());
    assert(file =~= whole);
}

/// A file that is written to: what stands in it, and the place behind the last write.
pub struct Written {
    pub file: Map<int, u8>,
    pub end: int,
}

/// The file after a further piece, written at the given place, or where there is none behind
/// the last write.
pub open spec fn after_piece(written: Written, place: Option<u64>, data: Seq<u8>) -> Written {
    let at = match place {
        Some(p) => p as int,
        None => written.end,
    };
    Written { file: written_at(written.file, at, data), end: at + data.len() }
}

/// The state, the transfer and the file after the pieces of a transfer, each written at the
/// place that the transfer has for it, and then counted.
pub open spec fn after_transfer(
    state: RunState,
    transfer: Transfer,
    written: Written,
    pieces: Seq<Seq<u8>>,
) -> (RunState, Transfer, Written)
    decreases pieces.len(),
{
    if pieces.len() == 0 {
        (state, transfer, written)
    } else {
        let (s, t, w) = after_transfer(state, transfer, written, pieces.drop_last());
        let data = pieces.last();
        (
            s.after_bytes(data.len() as usize),
            Transfer { start: (t.start + data.len()) as usize, ..t },
            after_piece(w, s.place(t), data),
        )
    }
}

/// The pieces one after the other.
pub open spec fn joined(pieces: Seq<Seq<u8>>) -> Seq<u8>
    decreases pieces.len(),
{
    if pieces.len() == 0 {
        Seq::empty()
    } else {
        joined(pieces.drop_last()) + pieces.last()
    }
}

/// The pieces of a transfer come to stand one behind the other: with ranges from the first byte
/// of the transfer on, without ranges from the end of what has been written before.
pub proof fn law_pieces_follow_one_another(
    state: RunState,
    transfer: Transfer,
    written: Written,
    pieces: Seq<Seq<u8>>,
)
    requires
        transfer.start + joined(pieces).len() <= usize::MAX,
    ensures
        ({
            let (s, t, w) = after_transfer(state, transfer, written, pieces);
            let at = if state.parallel {
                transfer.start as int
            } else {
                written.end
            };
            &&& w.file == written_at(written.file, at, joined(pieces))
            &&& pieces.len() > 0 || !state.parallel ==> w.end == at + joined(pieces).len()
            &&& t == (Transfer {
                start: (transfer.start + joined(pieces).len()) as usize,
                ..transfer
            })
            &&& s.parallel == state.parallel
            &&& s.tasks == state.tasks
        }),
    decreases pieces.len(),
{
    if pieces.len() == 0 {
        let at = if state.parallel {
            transfer.start as int
        } else {
            written.end
        };
        assert(written.file =~= written_at(written.file, at, joined(pieces)));
    } else {
        let before = pieces.drop_last();
        let data = pieces.last();
        law_pieces_follow_one_another(state, transfer, written, before);
        let at = if state.parallel {
            transfer.start as int
        } else {
            written.end
        };
        let one = written_at(written.file, at, joined(before));
        assert(written_at(one, at + joined(before).len(), data) =~= written_at(
            written.file,
            at,
            joined(pieces),
        ));
    }
}

/// Without ranges the file holds the pieces of the transfer, one behind the other, and nothing
/// else.
pub proof fn law_file_without_ranges(
    state: RunState,
    transfer: Transfer,
    pieces: Seq<Seq<u8>>,
)
    requires
        !state.parallel,
        transfer.start + joined(pieces).len() <= usize::MAX,
    ensures
        ({
            let empty = Written { file: Map::empty(), end: 0 };
            let (s, t, w) = after_transfer(state, transfer, empty, pieces);
            w.file == file_of(joined(pieces))
        }),
{
    let empty = Written { file: Map::empty(), end: 0 };
    law_pieces_follow_one_another(state, transfer, empty, pieces);
    assert(written_at(empty.file, 0, joined(pieces)) =~= file_of(joined(pieces)));
}

/// A memory map takes a write after a seek as any file does, where there is room for it.
pub proof fn law_map_takes_writes(map: MapState, at: u64, data: Seq<u8>)
    requires
        map.valid(),
        at + data.len() <= map.len,
    ensures
        map.target(SeekFrom::Start(at)) is Ok,
        map.after_seek(SeekFrom::Start(at)).accepted(data.len()) == data.len(),
        file_of(map.after_seek(SeekFrom::Start(at)).after_write(data).bytes) == written_at(
            file_of(map.bytes),
            at as int,
            data,
        ),
{
    let there = map.after_seek(SeekFrom::Start(at));
    assert(data.take(data.len() as int) =~= data);
    assert(file_of(there.after_write(data).bytes) =~= written_at(
        file_of(map.bytes),
        at as int,
        data,
    ));
}

/// True where all that a body has written stands at its place in the file.
pub open spec fn body_stands(body: Body, content: Seq<u8>, file: Map<int, u8>) -> bool {
    stands(file, content, body.start as int, body.start + body.written_len)
}

/// A piece of a body that is served and written behind the others stands in the file, and so
/// does all that this body or another has written before.
pub proof fn law_bodies_stand(
    body: Body,
    other: Body,
    content: Seq<u8>,
    file: Map<int, u8>,
    data: Seq<u8>,
)
    requires
        body_stands(body, content, file),
        body_stands(other, content, file),
        body.written_len + data.len() <= usize::MAX,
        served(content, body.next_place(), data),
    ensures
        ({
            let after = written_at(file, body.next_place(), data);
            &&& body_stands(body.after_bytes(data.len() as usize), content, after)
            &&& body_stands(other, content, after)
        }),
{
    let at = body.start + body.written_len;
    let after = written_at(file, at, data);
    lemma_write_keeps(file, content, at, data);
    let (a, b) = (body.start as int, other.start as int);
    assert forall|p: int|
        a <= p < at + data.len() && 0 <= p < content.len() implies in_place(after, content, p) by {
        if p < at {
            assert(in_place(file, content, p));
        }
    }
    assert forall|p: int|
        b <= p < b + other.written_len && 0 <= p < content.len() implies in_place(
        after,
        content,
        p,
    ) by {
        assert(in_place(file, content, p));
    }
}

/// Once the bodies of all segments have come in full, the file holds the whole content.
pub proof fn law_segments_hold_the_content(
    content: Seq<u8>,
    chunk_len: nat,
    bodies: Seq<Body>,
    file: Map<int, u8>,
)
    requires
        chunk_len > 0,
        content.len() <= usize::MAX,
        bodies.len() == segments_from(0, content.len(), chunk_len).len(),
        forall|k: int|
            0 <= k < bodies.len() ==> #[trigger] fills(
                bodies[k],
                segments_from(0, content.len(), chunk_len)[k],
            ) && body_stands(bodies[k], content, file),
    ensures
        holds_all(file, content),
{
    let all = segments_from(0, content.len(), chunk_len);
    assert forall|p: int| 0 <= p < content.len() implies in_place(file, content, p) by {
        let k = p / (chunk_len as int);
        lemma_some_segment(content.len(), chunk_len);
        law_segments_cover_once(content.len(), chunk_len, p, 0);
        law_segments_cover_once(content.len(), chunk_len, p, k);
        assert(fills(bodies[k], all[k]));
    }
}

proof fn lemma_some_segment(length: nat, chunk_len: nat)
    requires
        chunk_len > 0,
        length > 0,
    ensures
        segments_from(0, length, chunk_len).len() > 0,
{
}

/// A body in one piece that has come in full leaves the whole content in the file.
pub proof fn law_single_body_holds_the_content(
    content: Seq<u8>,
    body: Body,
    file: Map<int, u8>,
)
    requires
        body.start == 0,
        body.length == content.len(),
        body.length > 0,
        body.complete(),
        body_stands(body, content, file),
    ensures
        holds_all(file, content),
{
}

} // verus!
