//! The steps of a download in one piece or in segments: what a response body adds up to,
//! when a failed transfer is tried again, and when several transfers give way to one.

use crate::download::{bytes_in, law_segments_add_up, segments_from, JjP, Segment};
use crate::text::{
    decimal, law_decimal_is_plain, law_numbers_are_read_back, push_decimal, read_number,
    NumberError,
};
use std::collections::VecDeque;
use vstd::prelude::*;

verus! {

/// What has come of a response body: where in the file it is written, how long it should
/// be, or zero where that is not known, and how many bytes have been written.
#[derive(Clone, Copy, PartialEq, Eq, Debug, Structural)]
pub struct Body {
    pub start: usize,
    pub length: usize,
    pub written_len: usize,
}

/// How a response body has ended.
#[derive(Debug)]
pub enum BodyEnd {
    /// As long as it should be.
    Complete,
    /// Not as long as it should be: the progress to be taken back, and what to say.
    WrongLength(isize, String),
}

/// The message about a body of the wrong length.
pub open spec fn wrong_length_text(length: nat, written_len: nat) -> Seq<char> {
    "download fail, expected length: "@ + decimal(length) + ", written length: "@ + decimal(
        written_len,
    )
}

impl Body {
    /// True where the body is as long as it should be.
    pub open spec fn complete(self) -> bool {
        self.length == 0 || self.length == self.written_len
    }

    /// True where what has been written can be taken back from the progress.
    pub open spec fn revocable(self) -> bool {
        self.written_len as isize != isize::MIN
    }

    /// What is reported where all that has been written is to be written again.
    pub open spec fn setback(self) -> int {
        -(self.written_len as isize)
    }

    /// The body after `n` more bytes.
    pub open spec fn after_bytes(self, n: usize) -> Body {
        Body { written_len: (self.written_len + n) as usize, ..self }
    }

    /// The place in the file for the next bytes.
    pub open spec fn next_place(self) -> int {
        self.start + self.written_len
    }

    /// A body of which nothing has come yet.
    pub fn new(start: usize, length: usize) -> (r: Body)
        ensures
            r == (Body { start, length, written_len: 0 }),
    {
        Body { start, length, written_len: 0 }
    }

    /// The place in the file where the writing begins.
    pub fn place(&self) -> (r: u64)
        ensures
            r == self.start,
            self.written_len == 0 ==> r == self.next_place(),
    {
        self.start as u64
    }

    /// Takes note of `n` bytes that have been written, and gives the progress to report.
    pub fn on_bytes(&mut self, n: usize) -> (r: isize)
        requires
            old(self).written_len + n <= usize::MAX,
        ensures
            r == n as isize,
            r == reported(seq![n]),
            *final(self) == old(self).after_bytes(n),
    {
        assert(seq![n].drop_last() =~= Seq::<usize>::empty());
        reveal_with_fuel(reported, 2);
        self.written_len = self.written_len + n;
        n as isize
    }

    /// The progress to report where the body breaks off: all that was written is to be
    /// written again.
    pub fn on_stream_error(&self) -> (r: isize)
        requires
            self.revocable(),
        ensures
            r == self.setback(),
    {
        -(self.written_len as isize)
    }

    /// Whether what has been written can be taken back from the progress.
    pub fn is_revocable(&self) -> (r: bool)
        ensures
            r == self.revocable(),
    {
        self.written_len as isize != isize::MIN
    }

    /// Judges a body that has come to its end.
    pub fn on_end(&self) -> (r: BodyEnd)
        requires
            self.complete() || self.revocable(),
        ensures
            r is Complete <==> self.complete(),
            r matches BodyEnd::WrongLength(progress, text) ==> progress == self.setback() && text@
                == wrong_length_text(self.length as nat, self.written_len as nat),
    {
        if self.length != 0 && self.length != self.written_len {
            let mut text = "download fail, expected length: ".to_string();
            push_decimal(&mut text, self.length as u128);
            text.append(", written length: ");
            push_decimal(&mut text, self.written_len as u128);
            BodyEnd::WrongLength(-(self.written_len as isize), text)
        } else {
            BodyEnd::Complete
        }
    }
}

/// The body after pieces of the given lengths.
pub open spec fn after_pieces(body: Body, pieces: Seq<usize>) -> Body
    decreases pieces.len(),
{
    if pieces.len() == 0 {
        body
    } else {
        after_pieces(body, pieces.drop_last()).after_bytes(pieces.last())
    }
}

/// The progress that is reported for pieces of the given lengths.
pub open spec fn reported(pieces: Seq<usize>) -> int
    decreases pieces.len(),
{
    if pieces.len() == 0 {
        0
    } else {
        reported(pieces.drop_last()) + pieces.last() as isize
    }
}

/// The length of all pieces together.
pub open spec fn sum(pieces: Seq<usize>) -> nat
    decreases pieces.len(),
{
    if pieces.len() == 0 {
        0
    } else {
        sum(pieces.drop_last()) + pieces.last() as nat
    }
}

/// A body in pieces is as long as the pieces together, they are reported in full, and a
/// setback takes back exactly what has been reported.
pub proof fn law_setback_cancels(start: usize, length: usize, pieces: Seq<usize>)
    requires
        sum(pieces) <= isize::MAX,
    ensures
        ({
            let body = after_pieces(Body { start, length, written_len: 0 }, pieces);
            &&& body.start == start && body.length == length
            &&& body.written_len == sum(pieces)
            &&& body.revocable()
            &&& reported(pieces) == sum(pieces)
            &&& reported(pieces) + body.setback() == 0
        }),
    decreases pieces.len(),
{
    if pieces.len() > 0 {
        law_setback_cancels(start, length, pieces.drop_last());
    }
}

/// A body of known length is accepted exactly when the pieces make up that length.
pub proof fn law_body_is_checked(start: usize, length: usize, pieces: Seq<usize>)
    requires
        sum(pieces) <= isize::MAX,
        length != 0,
    ensures
        after_pieces(Body { start, length, written_len: 0 }, pieces).complete() <==> sum(pieces)
            == length,
{
    law_setback_cancels(start, length, pieces);
}

/// A download in one piece: its length, or zero where that is not known, how many retries
/// there have been, and how many there may be.
#[derive(Clone, Copy, PartialEq, Eq, Debug, Structural)]
pub struct SingleDownload {
    pub length: usize,
    pub retries: usize,
    pub max_retries: usize,
}

/// What to do about a failed transfer of the whole file.
#[derive(Debug)]
pub enum RetryStep {
    /// Nothing more, and what to say.
    GiveUp(String),
    /// Try again after so many milliseconds.
    Wait(u64),
}

/// The message about a download that is given up.
pub open spec fn give_up_text(retries: nat) -> Seq<char> {
    "single download retries: "@ + decimal(retries)
}

impl SingleDownload {
    /// A download that has not failed yet.
    pub open spec fn first(length: usize, max_retries: usize) -> SingleDownload {
        SingleDownload { length, retries: 0, max_retries }
    }

    /// True once all retries are used up.
    pub open spec fn exhausted(self) -> bool {
        self.retries >= self.max_retries
    }

    /// The milliseconds before the next retry: a tenth of a second for every retry so far,
    /// and not more than a second.
    pub open spec fn delay(self) -> int {
        if self.retries * 100 < 1000 {
            self.retries * 100
        } else {
            1000
        }
    }

    /// The state after a failure.
    pub open spec fn after_failure(self) -> SingleDownload {
        if self.exhausted() {
            self
        } else {
            SingleDownload { retries: (self.retries + 1) as usize, ..self }
        }
    }

    /// The state after `n` failures.
    pub open spec fn after_failures(self, n: nat) -> SingleDownload
        decreases n,
    {
        if n == 0 {
            self
        } else {
            self.after_failures((n - 1) as nat).after_failure()
        }
    }

    /// The body of an attempt: every attempt writes the whole file.
    pub fn body(&self) -> (r: Body)
        ensures
            r == (Body { start: 0, length: self.length, written_len: 0 }),
    {
        Body::new(0, self.length)
    }

    /// Takes a failure.
    pub fn on_failure(&mut self) -> (r: RetryStep)
        ensures
            r is GiveUp <==> old(self).exhausted(),
            r matches RetryStep::GiveUp(text) ==> text@ == give_up_text(old(self).retries as nat),
            r matches RetryStep::Wait(millis) ==> millis == old(self).delay(),
            *final(self) == old(self).after_failure(),
    {
        if self.retries >= self.max_retries {
            let mut text = "single download retries: ".to_string();
            push_decimal(&mut text, self.retries as u128);
            return RetryStep::GiveUp(text);
        }
        let millis: u64 = if self.retries < 10 {
            self.retries as u64 * 100
        } else {
            1000
        };
        self.retries = self.retries + 1;
        RetryStep::Wait(millis)
    }
}

impl JjP {
    /// Begins this download in one piece.
    pub fn single_download(&self, length: usize) -> (r: SingleDownload)
        ensures
            r == (SingleDownload { length, retries: 0, max_retries: self@.max_retries }),
            r == SingleDownload::first(length, self@.max_retries),
    {
        SingleDownload { length, retries: 0, max_retries: self.max_retries() }
    }
}

/// A download in one piece is given up at the failure that follows as many retries as were
/// chosen, and not before.
pub proof fn law_retries_are_bounded(length: usize, max_retries: usize, failures: nat)
    ensures
        ({
            let retry = SingleDownload { length, retries: 0, max_retries }.after_failures(failures);
            &&& retry.exhausted() <==> failures >= max_retries
            &&& failures <= max_retries ==> retry.retries == failures
            &&& retry.max_retries == max_retries
            &&& retry.retries <= max_retries
        }),
    decreases failures,
{
    if failures > 0 {
        law_retries_are_bounded(length, max_retries, (failures - 1) as nat);
    }
}

/// The delay never becomes shorter from one retry to the next.
pub proof fn law_delay_grows(retry: SingleDownload)
    ensures
        retry.delay() <= retry.after_failure().delay() <= 1000,
{
}

impl Segment {
    /// The body of an attempt: every attempt writes the whole segment.
    pub fn body(&self) -> (r: Body)
        requires
            self.start <= self.end,
            self.end - self.start < usize::MAX,
        ensures
            r == (Body {
                start: self.start,
                length: (self.end - self.start + 1) as usize,
                written_len: 0,
            }),
            fills(Body { written_len: r.length, ..r }, *self),
    {
        Body::new(self.start, self.length())
    }
}

/// True of the body of a segment that has come in full.
pub open spec fn fills(body: Body, segment: Segment) -> bool {
    &&& segment.start <= segment.end
    &&& body.start == segment.start
    &&& body.length == segment.end - segment.start + 1
    &&& body.complete()
}

/// The bytes written for some bodies together.
pub open spec fn written(bodies: Seq<Body>) -> int
    decreases bodies.len(),
{
    if bodies.len() == 0 {
        0
    } else {
        written(bodies.drop_first()) + bodies[0].written_len
    }
}

/// What a full body has written reaches exactly from the first byte of its segment to the
/// last.
pub proof fn law_body_fills_its_segment(body: Body, segment: Segment)
    requires
        fills(body, segment),
    ensures
        body.start == segment.start,
        body.start + body.written_len - 1 == segment.end,
{
}

proof fn lemma_written(bodies: Seq<Body>, segments: Seq<Segment>)
    requires
        bodies.len() == segments.len(),
        forall|k: int| 0 <= k < bodies.len() ==> #[trigger] fills(bodies[k], segments[k]),
    ensures
        written(bodies) == bytes_in(segments),
    decreases bodies.len(),
{
    if bodies.len() > 0 {
        let b = bodies.drop_first();
        let s = segments.drop_first();
        assert forall|k: int| 0 <= k < b.len() implies #[trigger] fills(b[k], s[k]) by {
            assert(fills(bodies[k + 1], segments[k + 1]));
        }
        lemma_written(b, s);
        assert(fills(bodies[0], segments[0]));
    }
}

/// Once the bodies of all segments have come in full, as many bytes have been written as the
/// file is long.
pub proof fn law_full_bodies_make_the_file(length: nat, chunk_len: nat, bodies: Seq<Body>)
    requires
        chunk_len > 0,
        length <= usize::MAX,
        bodies.len() == segments_from(0, length, chunk_len).len(),
        forall|k: int|
            0 <= k < bodies.len() ==> #[trigger] fills(
                bodies[k],
                segments_from(0, length, chunk_len)[k],
            ),
    ensures
        written(bodies) == length,
{
    law_segments_add_up(length, chunk_len);
    lemma_written(bodies, segments_from(0, length, chunk_len));
}

/// The retries of a segment.
#[derive(Clone, Copy, PartialEq, Eq, Debug, Structural)]
pub struct SegmentRetry {
    pub retries: u64,
}

/// What to do about a failed transfer of a segment.
#[derive(Clone, Copy, PartialEq, Eq, Debug, Structural)]
pub enum SegmentStep {
    /// Let the whole download go in one piece.
    FallBack,
    /// Try again after so many milliseconds.
    Wait(u64),
}

impl SegmentRetry {
    /// True where the milliseconds before a retry fit in `u64`.
    pub open spec fn countable(self) -> bool {
        self.retries * 100 + 100 <= u64::MAX
    }

    /// What to do about a failure, where there is room among those that wait or not.
    pub open spec fn step(self, admitted: bool) -> SegmentStep {
        if admitted {
            SegmentStep::Wait((self.retries * 100 + 100) as u64)
        } else {
            SegmentStep::FallBack
        }
    }

    /// The retries after a failure.
    pub open spec fn after(self, admitted: bool) -> int {
        if admitted {
            self.retries + 1
        } else {
            self.retries as int
        }
    }

    /// A segment that has not failed yet.
    pub fn new() -> (r: SegmentRetry)
        ensures
            r.retries == 0,
    {
        SegmentRetry { retries: 0 }
    }

    /// Whether the milliseconds before a retry fit in `u64`.
    pub fn is_countable(&self) -> (r: bool)
        ensures
            r == self.countable(),
    {
        self.retries <= (u64::MAX - 100) / 100
    }

    /// Takes a failure. A segment may wait for a retry only while not all the others do:
    /// `admitted` tells whether there is room for it among those that wait.
    pub fn on_failure(&mut self, admitted: bool) -> (r: SegmentStep)
        requires
            admitted ==> old(self).countable(),
        ensures
            r == old(self).step(admitted),
            final(self).retries == old(self).after(admitted),
            r == if admitted {
                SegmentStep::Wait((old(self).retries * 100 + 100) as u64)
            } else {
                SegmentStep::FallBack
            },
            final(self).retries == if admitted {
                old(self).retries + 1
            } else {
                old(self).retries as int
            },
    {
        if !admitted {
            return SegmentStep::FallBack;
        }
        let millis: u64 = self.retries * 100 + 100;
        self.retries = self.retries + 1;
        SegmentStep::Wait(millis)
    }
}

/// What the keeper of the handles of running transfers hears.
pub enum HandleEvent<T> {
    /// A transfer has begun.
    Begun(T),
    /// No further transfer will begin.
    Closed,
    /// Nothing has been heard for a while.
    Timeout,
}

/// What the keeper of the handles does.
pub enum HandleStep<T> {
    /// Wait for the next event.
    GoOn,
    /// Stop.
    Stop,
    /// Abort these transfers and stop.
    Abort(VecDeque<T>),
}

/// The handles of the transfers that began last.
pub struct Handles<T> {
    handles: VecDeque<T>,
    limit: usize,
}

impl<T> View for Handles<T> {
    type V = Seq<T>;

    closed spec fn view(&self) -> Seq<T> {
        self.handles@
    }
}

/// The handles once an event has been taken in.
pub open spec fn with_event<T>(handles: Seq<T>, event: HandleEvent<T>) -> Seq<T> {
    match event {
        HandleEvent::Begun(h) => handles.push(h),
        _ => handles,
    }
}

/// True of the event that ends the keeping of handles.
pub open spec fn stops<T>(event: HandleEvent<T>) -> bool {
    event is Closed
}

/// True where all transfers whose handles are kept are to be aborted.
pub open spec fn aborts<T>(event: HandleEvent<T>, change_single: bool) -> bool {
    change_single && !stops(event)
}

/// Transfers are aborted where the download falls back to a single piece, and only there, unless
/// no further one will begin: then all are left to end.
pub proof fn law_only_fallback_aborts<T>(h: T, change_single: bool)
    ensures
        stops(HandleEvent::<T>::Closed),
        !stops(HandleEvent::Begun(h)) && !stops(HandleEvent::<T>::Timeout),
        !aborts(HandleEvent::<T>::Closed, change_single),
        aborts(HandleEvent::Begun(h), change_single) <==> change_single,
        aborts(HandleEvent::<T>::Timeout, change_single) <==> change_single,
{
}

/// The last `limit` of the handles, or all where they are fewer.
pub open spec fn last_of<T>(handles: Seq<T>, limit: nat) -> Seq<T> {
    if handles.len() <= limit {
        handles
    } else {
        handles.skip(handles.len() - limit)
    }
}

impl<T> Handles<T> {
    /// The number of handles that are kept.
    pub closed spec fn limit(&self) -> nat {
        self.limit as nat
    }

    /// No more handles are kept than the limit says.
    pub open spec fn wf(&self) -> bool {
        self@.len() <= self.limit()
    }

    /// No handles yet, and never more than `limit`.
    pub fn new(limit: usize) -> (r: Handles<T>)
        ensures
            r@ == Seq::<T>::empty(),
            r.limit() == limit,
            r.wf(),
    {
        Handles { handles: VecDeque::new(), limit }
    }

    /// Takes an event. Where the download falls back to a single piece, all transfers
    /// whose handles are kept are to be aborted. Otherwise the oldest handle beyond the
    /// limit is dropped.
    pub fn on_event(&mut self, event: HandleEvent<T>, change_single: bool) -> (r: HandleStep<T>)
        requires
            old(self).wf(),
        ensures
            final(self).limit() == old(self).limit(),
            final(self).wf(),
            r is Stop <==> event is Closed,
            r is Stop <==> stops(event),
            r is Abort <==> aborts(event, change_single),
            r is Abort <==> !(event is Closed) && change_single,
            r matches HandleStep::Abort(all) ==> all@ == with_event(old(self)@, event)
                && final(self)@ == Seq::<T>::empty(),
            r is Stop ==> final(self)@ == old(self)@,
            r is GoOn ==> final(self)@ == last_of(
                with_event(old(self)@, event),
                old(self).limit(),
            ),
    {
        match event {
            HandleEvent::Begun(h) => {
                self.handles.push_back(h);
            },
            HandleEvent::Closed => {
                return HandleStep::Stop;
            },
            HandleEvent::Timeout => {},
        }
        if change_single {
            let mut all: VecDeque<T> = VecDeque::new();
            std::mem::swap(&mut all, &mut self.handles);
            return HandleStep::Abort(all);
        }
        if self.handles.len() > self.limit {
            let _ = self.handles.pop_front();
        }
        assert(self@ =~= last_of(with_event(old(self)@, event), old(self).limit()));
        HandleStep::GoOn
    }
}

/// The handles that are kept are those of the transfers that began last: keeping the last
/// ones from step to step comes to the same as keeping the last of all.
pub proof fn law_last_handles_are_kept<T>(begun: Seq<T>, event: HandleEvent<T>, limit: nat)
    ensures
        last_of(with_event(last_of(begun, limit), event), limit) == last_of(
            with_event(begun, event),
            limit,
        ),
{
    assert(last_of(with_event(last_of(begun, limit), event), limit) =~= last_of(
        with_event(begun, event),
        limit,
    ));
}

/// What is heard of the watch over the progress.
#[derive(Clone, Copy, PartialEq, Eq, Debug, Structural)]
pub enum Receipt {
    /// It is over: everything has been written.
    Done,
    /// It still goes on.
    Empty,
    /// Nothing will be heard of it.
    Closed,
}

/// What the download does next.
#[derive(Clone, Copy, PartialEq, Eq, Debug, Structural)]
pub enum Settlement {
    /// Begin anew in one piece.
    FallBack,
    /// Nothing more.
    Finish,
    /// Ask again after so many milliseconds.
    Wait(u64),
    /// Ask again at once.
    Again,
}

/// What a download does once all its segments have been handed out.
pub open spec fn settled(change_single: bool, receipt: Receipt) -> Settlement {
    match (change_single, receipt) {
        (true, _) => Settlement::FallBack,
        (false, Receipt::Done) => Settlement::Finish,
        (false, Receipt::Empty) => Settlement::Wait(100),
        (false, Receipt::Closed) => Settlement::Again,
    }
}

/// A download that is to fall back does so, whatever is heard of the watch, and no other does.
/// It is finished exactly when the watch is over and it need not fall back. Until then it asks
/// again: after a tenth of a second while the watch goes on, at once where nothing will be heard
/// of it.
pub proof fn law_download_settles(change_single: bool, receipt: Receipt)
    ensures
        settled(change_single, receipt) is FallBack <==> change_single,
        settled(change_single, receipt) is Finish <==> !change_single && receipt is Done,
        settled(change_single, receipt) is Wait <==> !change_single && receipt is Empty,
        settled(change_single, receipt) matches Settlement::Wait(millis) ==> millis == 100,
{
}

/// Decides what a download does once all its segments have been handed out.
pub fn settle(change_single: bool, receipt: Receipt) -> (r: Settlement)
    ensures
        r == settled(change_single, receipt),
        r == if change_single {
            Settlement::FallBack
        } else {
            match receipt {
                Receipt::Done => Settlement::Finish,
                Receipt::Empty => Settlement::Wait(100),
                Receipt::Closed => Settlement::Again,
            }
        },
{
    if change_single {
        return Settlement::FallBack;
    }
    match receipt {
        Receipt::Done => Settlement::Finish,
        Receipt::Empty => Settlement::Wait(100),
        Receipt::Closed => Settlement::Again,
    }
}

/// A body of unknown length is complete however long it is, and one of known length exactly
/// when as many bytes have been written.
pub proof fn law_complete_body(body: Body)
    ensures
        body.length == 0 ==> body.complete(),
        body.length > 0 ==> (body.complete() <==> body.written_len == body.length),
{
}

/// Bytes are counted in full, and the place and the length of a body stay. All that has been
/// written can be taken back, up to the largest `isize`.
pub proof fn law_body_counts(body: Body, n: usize)
    requires
        body.written_len + n <= usize::MAX,
    ensures
        body.after_bytes(n).written_len == body.written_len + n,
        body.after_bytes(n).start == body.start,
        body.after_bytes(n).length == body.length,
        body.written_len <= isize::MAX ==> body.revocable() && body.setback() + body.written_len
            == 0,
{
}

/// The first bytes of a body go to its start, and what follows behind what has been written.
pub proof fn law_bytes_go_behind_the_others(start: usize, length: usize, body: Body, n: usize)
    requires
        body.written_len + n <= usize::MAX,
    ensures
        (Body { start, length, written_len: 0 }).next_place() == start,
        body.after_bytes(n).next_place() == body.next_place() + n,
{
}

/// The message about a body of the wrong length names the length that was expected and the one
/// that was written.
pub proof fn law_wrong_length_is_named(length: nat, written_len: nat) -> (r: (
    Seq<char>,
    Seq<char>,
))
    requires
        length <= usize::MAX,
        written_len <= usize::MAX,
    ensures
        wrong_length_text(length, written_len) == "download fail, expected length: "@ + r.0
            + ", written length: "@ + r.1,
        read_number(r.0) == Ok::<nat, NumberError>(length),
        read_number(r.1) == Ok::<nat, NumberError>(written_len),
        r.0[0] == '0' ==> length == 0,
        r.1[0] == '0' ==> written_len == 0,
        r.0[0] != '+' && r.1[0] != '+',
{
    law_numbers_are_read_back(length);
    law_numbers_are_read_back(written_len);
    law_decimal_is_plain(length);
    law_decimal_is_plain(written_len);
    (decimal(length), decimal(written_len))
}

/// The message about a download that is given up names the number of retries.
pub proof fn law_retries_are_named(retries: nat) -> (r: Seq<char>)
    requires
        retries <= usize::MAX,
    ensures
        give_up_text(retries) == "single download retries: "@ + r,
        read_number(r) == Ok::<nat, NumberError>(retries),
        r[0] == '0' ==> retries == 0,
        r[0] != '+',
{
    law_numbers_are_read_back(retries);
    law_decimal_is_plain(retries);
    decimal(retries)
}

/// The first retry comes at once, each further one a tenth of a second later than the one
/// before, and from the eleventh on all come after a second.
pub proof fn law_delays(single: SingleDownload)
    ensures
        single.retries == 0 ==> single.delay() == 0,
        !single.exhausted() && single.retries < 10 ==> single.after_failure().delay()
            == single.delay() + 100,
        single.retries >= 10 ==> single.delay() == 1000,
{
}

/// A download in one piece begins with the length that was told and all retries that were
/// chosen.
pub proof fn law_single_download_begins(length: usize, max_retries: usize)
    ensures
        SingleDownload::first(length, max_retries).length == length,
        SingleDownload::first(length, max_retries).retries == 0,
        SingleDownload::first(length, max_retries).max_retries == max_retries,
{
}

/// A failure uses up one retry, where one is left. Everything else stays.
pub proof fn law_failure_uses_a_retry(single: SingleDownload)
    ensures
        single.exhausted() <==> single.retries >= single.max_retries,
        single.retries < single.max_retries ==> single.after_failure().retries == single.retries
            + 1,
        single.retries >= single.max_retries ==> single.after_failure().retries == single.retries,
        single.after_failure().max_retries == single.max_retries,
        single.after_failure().length == single.length,
{
}

/// A failed segment gives up the segments where there is no room among those that wait. It is
/// otherwise tried again, after a tenth of a second for each time that it has failed.
pub proof fn law_segment_waits(retry: SegmentRetry)
    requires
        retry.countable(),
    ensures
        retry.step(false) == SegmentStep::FallBack,
        retry.after(false) == retry.retries,
        retry.after(true) == retry.retries + 1,
        retry.step(true) matches SegmentStep::Wait(millis) && millis == 100 * retry.after(true),
{
}

/// The milliseconds before a retry of a segment can be counted up to the largest `u64`.
pub proof fn law_segment_retries(retry: SegmentRetry)
    ensures
        retry.countable() <==> retry.retries <= 184_467_440_737_095_515,
{
}

/// A transfer that begins is the last whose handle is kept. Other events bring none.
pub proof fn law_handles_come_last<T>(handles: Seq<T>, h: T)
    ensures
        with_event(handles, HandleEvent::Begun(h)).len() == handles.len() + 1,
        with_event(handles, HandleEvent::Begun(h)).last() == h,
        with_event(handles, HandleEvent::Begun(h)).drop_last() == handles,
        with_event(handles, HandleEvent::Closed) == handles,
        with_event(handles, HandleEvent::Timeout) == handles,
{
    assert(with_event(handles, HandleEvent::Begun(h)).drop_last() =~= handles);
}

/// Of more handles than the limit allows, that many stay, and they are the last ones. Fewer all
/// stay.
pub proof fn law_oldest_handles_go<T>(handles: Seq<T>, limit: nat, i: int)
    ensures
        handles.len() <= limit ==> last_of(handles, limit) == handles,
        handles.len() > limit ==> {
            &&& last_of(handles, limit).len() == limit
            &&& 0 <= i < limit ==> last_of(handles, limit)[i] == handles[handles.len() - limit + i]
        },
{
}

} // verus!
