//! The progress line of a download: how many bytes there are, how fast they come, and
//! when it is time to say so.

use crate::clock::{exact_rate, lemma_rate_bounds, lemma_seconds_bounds, Elapsed};
use crate::closeness::{
    close, law_rounding_is_close, lemma_close_more, lemma_of_int_close, lemma_over_close,
    lemma_plus_close, lemma_times_close,
};
use crate::rounding::{
    law_division_by_1024_is_exact, law_rounding_keeps_singles, lemma_nearest_keeps_order,
    lemma_rounded_is_scaled,
};
use crate::single::{
    hundredths, is_single, lemma_of_int_bounds, lemma_over_1024_bounds, lemma_rounded_bounds,
    lemma_rounded_caps, lemma_single, lemma_single_parts, lemma_whole_factor, less, nearest, of_int,
    over, plus, rounded, scaled, times, whole, Ratio, Single, LARGEST, MANTISSA_END, MANTISSA_MIN,
};
use crate::text::{decimal, push_decimal, push_two_places, two_places};
use vstd::prelude::*;

verus! {

/// The unit of a size that has been divided by 1024 `index` times.
pub open spec fn human_unit(index: nat) -> Seq<char> {
    if index == 0 {
        "B"@
    } else if index == 1 {
        "KB"@
    } else if index == 2 {
        "MB"@
    } else if index == 3 {
        "GB"@
    } else {
        "TB"@
    }
}

/// A size, divided by 1024 until it is at most 1024 or the units are used up, with two
/// digits behind the point and the unit.
pub open spec fn human(size: Ratio, index: nat) -> Seq<char>
    decreases 4 - index,
{
    if index < 4 && less(whole(1024), size) {
        human(over(size, whole(1024)), index + 1)
    } else {
        two_places(hundredths(size)) + human_unit(index)
    }
}

/// A size with its unit.
pub fn to_human(speed: Single) -> (r: String)
    ensures
        r@ == human(speed@, 0),
{
    let step = Single::whole(1024);
    let mut size = speed;
    let mut index: usize = 0;
    proof {
        use_type_invariant(&speed);
        lemma_single(speed);
    }
    while index < 4 && step.less(size)
        invariant
            index <= 4,
            step@ == whole(1024),
            is_single(size@),
            index > 0 ==> size@.num <= LARGEST / 512,
            human(size@, index as nat) == human(speed@, 0),
        decreases 4 - index,
    {
        proof {
            lemma_whole_factor(1024, size@);
            lemma_over_1024_bounds(size@);
        }
        size = size.over(step);
        index = index + 1;
        proof {
            use_type_invariant(&size);
            lemma_single(size);
        }
    }
    let mut out = String::new();
    push_two_places(&mut out, size.hundredths());
    if index == 0 {
        out.append("B");
    } else if index == 1 {
        out.append("KB");
    } else if index == 2 {
        out.append("MB");
    } else if index == 3 {
        out.append("GB");
    } else {
        out.append("TB");
    }
    assert(out@ =~= human(size@, index as nat));
    out
}

/// 1024 to the power `index`.
pub open spec fn unit_size(index: nat) -> nat
    decreases index,
{
    if index == 0 {
        1
    } else {
        1024 * unit_size((index - 1) as nat)
    }
}

/// True where a size is at most 1024 units.
pub open spec fn fits_unit(size: Ratio, index: nat) -> bool {
    size.num <= 1024 * unit_size(index) * size.den
}

proof fn lemma_human_from(mantissa: nat, exponent: int, index: nat, last: nat)
    requires
        mantissa <= MANTISSA_END,
        index <= last <= 4,
        last == 4 || fits_unit(scaled(mantissa, exponent), (last - index) as nat),
        forall|j: nat| j < last - index ==> !#[trigger] fits_unit(scaled(mantissa, exponent), j),
    ensures
        human(scaled(mantissa, exponent), index) == two_places(
            nearest(
                100 * scaled(mantissa, exponent).num,
                scaled(mantissa, exponent).den * unit_size((last - index) as nat),
            ),
        ) + human_unit(last),
    decreases last - index,
{
    let b = scaled(mantissa, exponent);
    law_division_by_1024_is_exact(mantissa, exponent);
    lemma_whole_factor(1024, b);
    if index == last {
        assert(b.den * unit_size(0) == b.den);
    } else {
        let k = (last - index - 1) as nat;
        assert(!fits_unit(b, 0));
        let c = over(b, whole(1024));
        let (m, x) = lemma_rounded_is_scaled(b.num, b.den * 1024);
        assert forall|j: nat|
            #![trigger fits_unit(c, j)]
            fits_unit(c, j) <==> fits_unit(b, j + 1) by {
            lemma_unit_below(b, c, j);
        }
        lemma_unit_below(b, c, k);
        lemma_human_from(m, x, index + 1, last);
        lemma_same_hundredths(b, c, k);
    }
}

/// A size that has been divided by 1024 fits a unit where the size itself fits the next.
proof fn lemma_unit_below(b: Ratio, c: Ratio, j: nat)
    requires
        b.den > 0,
        c.den > 0,
        1024 * (c.num * b.den) == b.num * c.den,
    ensures
        fits_unit(c, j) <==> fits_unit(b, j + 1),
{
    let u = unit_size(j);
    let v = unit_size(j + 1);
    assert(v == 1024 * u);
    if c.num <= 1024 * u * c.den {
        assert(b.num <= 1024 * v * b.den) by (nonlinear_arith)
            requires
                c.num <= 1024 * u * c.den,
                1024 * (c.num * b.den) == b.num * c.den,
                v == 1024 * u,
                c.den > 0,
                b.den > 0,
        ;
    }
    if b.num <= 1024 * v * b.den {
        assert(c.num <= 1024 * u * c.den) by (nonlinear_arith)
            requires
                b.num <= 1024 * v * b.den,
                1024 * (c.num * b.den) == b.num * c.den,
                v == 1024 * u,
                c.den > 0,
                b.den > 0,
        ;
    }
}

/// A size that has been divided by 1024 has the same hundredths in the unit below.
pub proof fn lemma_same_hundredths(b: Ratio, c: Ratio, k: nat)
    requires
        b.den > 0,
        c.den > 0,
        1024 * (c.num * b.den) == b.num * c.den,
    ensures
        nearest(100 * c.num, c.den * unit_size(k)) == nearest(
            100 * b.num,
            b.den * unit_size(k + 1),
        ),
{
    let u = unit_size(k);
    let v = unit_size(k + 1);
    lemma_unit_positive(k);
    assert((100 * c.num) * (b.den * v) == (100 * b.num) * (c.den * u)) by (nonlinear_arith)
        requires
            1024 * (c.num * b.den) == b.num * c.den,
            v == 1024 * u,
    ;
    assert(c.den * u > 0 && b.den * v > 0) by (nonlinear_arith)
        requires
            c.den > 0,
            b.den > 0,
            u > 0,
            v > 0,
    ;
    lemma_nearest_keeps_order(100 * c.num, c.den * u, 100 * b.num, b.den * v);
    lemma_nearest_keeps_order(100 * b.num, b.den * v, 100 * c.num, c.den * u);
}

proof fn lemma_unit_positive(k: nat)
    ensures
        unit_size(k) > 0,
    decreases k,
{
    if k > 0 {
        lemma_unit_positive((k - 1) as nat);
    }
}

/// A size is shown in the smallest unit of which it is at most 1024, or in the largest there
/// is, and the number before the unit is the exact quotient, rounded to hundredths.
pub proof fn law_sizes_are_exact(speed: Single, index: nat)
    requires
        speed.wf(),
        index <= 4,
        index == 4 || fits_unit(speed@, index),
        forall|j: nat| j < index ==> !#[trigger] fits_unit(speed@, j),
    ensures
        human(speed@, 0) == two_places(
            nearest(100 * speed@.num, speed@.den * unit_size(index)),
        ) + human_unit(index),
{
    let (mantissa, exponent) = lemma_single_parts(speed);
    lemma_human_from(mantissa, exponent, 0, index);
}

/// What the progress line is about: the name of the file, its length or zero where that is
/// not known, and the number of transfers at a time.
pub struct Subject {
    pub filename: Seq<char>,
    pub size: nat,
    pub parallel_num: nat,
}

/// The part of the file that is there, in percent.
pub open spec fn share_in_percent(total: nat, size: nat) -> Ratio {
    times(
        whole(100),
        if size == 0 {
            whole(0)
        } else {
            over(of_int(total), of_int(size))
        },
    )
}

/// The smallest step above 1 in single precision. A shorter span of time gives no speed.
pub open spec fn shortest_span() -> Ratio {
    rounded(1, 0x80_0000)
}

impl Subject {
    /// The progress line for `total` bytes, of which `segment` came within `span`. There is
    /// none without bytes, after a setback or within no time.
    pub open spec fn line(self, total: int, segment: int, span: Elapsed) -> Option<Seq<char>> {
        if total <= 0 || less(span.in_seconds(), shortest_span()) || segment < 0 {
            None
        } else {
            Some(
                "\rf:"@ + self.filename + " c:"@ + decimal(self.parallel_num) + " p:"@ + two_places(
                    hundredths(share_in_percent(total as nat, self.size)),
                ) + "% ps:"@ + human(of_int(total as nat), 0) + "/"@ + human(of_int(self.size), 0)
                    + " s:"@ + human(exact_rate(segment as nat, span), 0) + "/s "@,
            )
        }
    }
}

/// Something that happens while progress is watched.
#[derive(Clone, Copy, PartialEq, Eq, Debug, Structural)]
pub enum Notice {
    /// So many bytes have been written, or, below zero, are to be written again.
    Received(isize),
    /// Nothing has been heard for the length of a part.
    Timeout,
    /// Nothing will be heard any more.
    Closed,
}

/// The state of the watch: the bytes since the last line, all bytes, and the seconds that
/// have to pass between two lines.
pub struct Watch {
    pub segment_len: int,
    pub total_len: int,
    pub part_flag: Ratio,
}

/// The seconds between two lines grow by a tenth from notice to notice, up to one.
pub open spec fn grown(part_flag: Ratio) -> Ratio {
    let next = plus(part_flag, rounded(1, 10));
    if less(whole(1), next) {
        whole(1)
    } else {
        next
    }
}

impl Watch {
    /// The state before the first notice.
    pub open spec fn begin() -> Watch {
        Watch { segment_len: 0, total_len: 0, part_flag: whole(0) }
    }

    /// The bytes that a notice adds.
    pub open spec fn gain(notice: Notice) -> int {
        match notice {
            Notice::Received(n) => n as int,
            _ => 0,
        }
    }

    /// True where the sums stay within `isize`.
    pub open spec fn fits(self, notice: Notice) -> bool {
        &&& isize::MIN <= self.segment_len + Self::gain(notice) <= isize::MAX
        &&& isize::MIN <= self.total_len + Self::gain(notice) <= isize::MAX
    }

    /// True where a notice calls for a line: received bytes do only when the time between
    /// two lines has passed, everything else does at once.
    pub open spec fn due(self, notice: Notice, span: Elapsed) -> bool {
        notice is Received ==> !less(span.in_seconds(), grown(self.part_flag))
    }

    /// The state after a notice. A line begins a new segment.
    pub open spec fn after(self, notice: Notice, span: Elapsed) -> Watch {
        Watch {
            segment_len: if self.due(notice, span) {
                0
            } else {
                self.segment_len + Self::gain(notice)
            },
            total_len: self.total_len + Self::gain(notice),
            part_flag: grown(self.part_flag),
        }
    }
}

/// The state after several notices, each with the time since the last line.
pub open spec fn after_all(watch: Watch, notices: Seq<(Notice, Elapsed)>) -> Watch
    decreases notices.len(),
{
    if notices.len() == 0 {
        watch
    } else {
        let (notice, span) = notices.last();
        after_all(watch, notices.drop_last()).after(notice, span)
    }
}

/// The bytes that several notices add.
pub open spec fn gains(notices: Seq<(Notice, Elapsed)>) -> int
    decreases notices.len(),
{
    if notices.len() == 0 {
        0
    } else {
        gains(notices.drop_last()) + Watch::gain(notices.last().0)
    }
}

/// All bytes are counted, whatever lines were printed and however the time went.
pub proof fn law_all_bytes_are_counted(notices: Seq<(Notice, Elapsed)>)
    ensures
        after_all(Watch::begin(), notices).total_len == gains(notices),
    decreases notices.len(),
{
    if notices.len() > 0 {
        law_all_bytes_are_counted(notices.drop_last());
    }
}

/// The bytes since the last line are those of the notices since then: a notice that is due
/// begins anew, and the notices behind it that are not due add up.
pub proof fn law_lines_begin_anew(
    watch: Watch,
    last: (Notice, Elapsed),
    later: Seq<(Notice, Elapsed)>,
)
    requires
        watch.due(last.0, last.1),
        forall|i: int|
            0 <= i < later.len() ==> !after_all(
                watch.after(last.0, last.1),
                #[trigger] later.take(i),
            ).due(later[i].0, later[i].1),
    ensures
        after_all(watch.after(last.0, last.1), later).segment_len == gains(later),
    decreases later.len(),
{
    if later.len() > 0 {
        let before = later.drop_last();
        assert forall|i: int| 0 <= i < before.len() implies !after_all(
            watch.after(last.0, last.1),
            #[trigger] before.take(i),
        ).due(before[i].0, before[i].1) by {
            assert(before.take(i) =~= later.take(i));
        }
        law_lines_begin_anew(watch, last, before);
        assert(later.take(later.len() - 1) =~= before);
    }
}

/// No more than a second has to pass between two lines, and nothing but bytes has to wait.
pub proof fn law_lines_are_not_held_back(watch: Watch, notice: Notice, span: Elapsed)
    ensures
        !less(whole(1), watch.after(notice, span).part_flag),
        !(notice is Received) ==> watch.due(notice, span),
{
}

/// What is to be done about a notice.
#[derive(Debug)]
pub struct Response {
    /// The line to be printed, if one is.
    pub line: Option<String>,
    /// Whether the time since the last line begins anew.
    pub restart: bool,
    /// Whether the watch is over.
    pub stop: bool,
}

/// The watch over the progress of a download.
pub struct Progress {
    filename: String,
    size: usize,
    parallel_num: usize,
    segment_len: isize,
    total_len: isize,
    part_flag: Single,
}

impl View for Progress {
    type V = Watch;

    closed spec fn view(&self) -> Watch {
        Watch {
            segment_len: self.segment_len as int,
            total_len: self.total_len as int,
            part_flag: self.part_flag@,
        }
    }
}

/// Bounds that the time between two lines keeps.
spec fn flag_bounds(flag: Ratio) -> bool {
    0 < flag.den <= 0x2000_0000 && flag.num <= 0x2000_0000
}

proof fn lemma_grown_bounds(flag: Ratio)
    requires
        flag_bounds(flag),
    ensures
        ({
            let tenth = rounded(1, 10);
            let next = plus(flag, tenth);
            &&& 0 < flag.den * tenth.den <= 0x80_0000_0000_0000_0000_0000_0000
            &&& flag.num * tenth.den + tenth.num * flag.den
                <= 0x2000_0000_0000_0000_0000_0000_0000_0000
        }),
        flag_bounds(grown(flag)),
{
    let tenth = rounded(1, 10);
    lemma_rounded_bounds(1, 10);
    assert(tenth.den <= 0xa00_0000);
    let d = flag.den * tenth.den;
    let n = flag.num * tenth.den + tenth.num * flag.den;
    assert(0 < d <= 0x2000_0000 * 0xa00_0000) by (nonlinear_arith)
        requires
            d == flag.den * tenth.den,
            0 < flag.den <= 0x2000_0000,
            0 < tenth.den <= 0xa00_0000,
    ;
    assert(n <= 0x2000_0000 * 0xa00_0000 + 0x100_0000 * 0x2000_0000) by (nonlinear_arith)
        requires
            n == flag.num * tenth.den + tenth.num * flag.den,
            0 < flag.den <= 0x2000_0000,
            0 <= flag.num <= 0x2000_0000,
            0 < tenth.den <= 0xa00_0000,
            0 <= tenth.num <= 0x100_0000,
    ;
    assert(n >= MANTISSA_MIN * flag.den) by (nonlinear_arith)
        requires
            n == flag.num * tenth.den + tenth.num * flag.den,
            tenth.num >= MANTISSA_MIN,
            flag.num >= 0,
            tenth.den >= 0,
            flag.den >= 0,
    ;
    lemma_rounded_bounds(n, d);
    let next = rounded(n, d);
    if n >= MANTISSA_MIN * d {
        assert(next.num <= 2 * n) by (nonlinear_arith)
            requires
                next.num * d <= 2 * n,
                d >= 1,
                next.num >= 0,
        ;
    } else {
        assert(next.den <= 2 * tenth.den) by (nonlinear_arith)
            requires
                next.den * n <= MANTISSA_END * d,
                n >= MANTISSA_MIN * flag.den,
                d == flag.den * tenth.den,
                flag.den > 0,
                next.den >= 0,
                tenth.den >= 0,
        ;
    }
    lemma_whole_factor(1, next);
}

impl Progress {
    #[verifier::type_invariant]
    closed spec fn wf(&self) -> bool {
        flag_bounds(self.part_flag@)
    }

    /// What the watch is about.
    pub closed spec fn subject(&self) -> Subject {
        Subject {
            filename: self.filename@,
            size: self.size as nat,
            parallel_num: self.parallel_num as nat,
        }
    }

    /// Begins to watch.
    pub fn new(filename: String, size: usize, parallel_num: usize) -> (r: Progress)
        ensures
            r@ == Watch::begin(),
            r.subject() == (Subject {
                filename: filename@,
                size: size as nat,
                parallel_num: parallel_num as nat,
            }),
    {
        Progress {
            filename,
            size,
            parallel_num,
            segment_len: 0,
            total_len: 0,
            part_flag: Single::whole(0),
        }
    }

    /// Whether the sums stay within `isize`.
    pub fn has_room(&self, notice: Notice) -> (r: bool)
        ensures
            r == self@.fits(notice),
    {
        match notice {
            Notice::Received(n) => self.segment_len.checked_add(n).is_some()
                && self.total_len.checked_add(n).is_some(),
            _ => true,
        }
    }

    /// Takes a notice, `span` after the time last began anew.
    pub fn on_notice(&mut self, notice: Notice, span: Elapsed) -> (r: Response)
        requires
            span.wf(),
            old(self)@.fits(notice),
        ensures
            final(self)@ == old(self)@.after(notice, span),
            final(self).subject() == old(self).subject(),
            r.restart == old(self)@.due(notice, span),
            r.stop == (notice is Closed),
            ({
                let shown = if old(self)@.due(notice, span) {
                    old(self).subject().line(
                        old(self)@.total_len + Watch::gain(notice),
                        old(self)@.segment_len + Watch::gain(notice),
                        span,
                    )
                } else {
                    None
                };
                match r.line {
                    Some(text) => shown == Some(text@),
                    None => shown is None,
                }
            }),
    {
        proof {
            use_type_invariant(&*self);
            lemma_grown_bounds(self.part_flag@);
        }
        let flag = Progress::grow(self.part_flag);
        self.part_flag = flag;
        let (gain, received): (isize, bool) = match notice {
            Notice::Received(n) => (n, true),
            _ => (0, false),
        };
        let segment: isize = self.segment_len + gain;
        let total: isize = self.total_len + gain;
        self.total_len = total;
        let seconds = span.seconds();
        if received && seconds.less(flag) {
            self.segment_len = segment;
            return Response { line: None, restart: false, stop: false };
        }
        self.segment_len = 0;
        let line = self.line(total, segment, span);
        let stop = match notice {
            Notice::Closed => true,
            _ => false,
        };
        Response { line, restart: true, stop }
    }

    fn grow(flag: Single) -> (r: Single)
        requires
            flag_bounds(flag@),
        ensures
            r@ == grown(flag@),
    {
        proof {
            lemma_rounded_bounds(1, 10);
            lemma_grown_bounds(flag@);
        }
        let next = flag.plus(Single::rounded(1, 10));
        let one = Single::whole(1);
        if one.less(next) {
            one
        } else {
            next
        }
    }

    /// The progress line.
    fn line(&self, total: isize, segment: isize, span: Elapsed) -> (r: Option<String>)
        requires
            span.wf(),
        ensures
            match r {
                Some(text) => self.subject().line(total as int, segment as int, span) == Some(
                    text@,
                ),
                None => self.subject().line(total as int, segment as int, span) is None,
            },
    {
        let seconds = span.seconds();
        let shortest = Single::rounded(1, 0x80_0000);
        proof {
            lemma_seconds_bounds(span);
            lemma_rounded_bounds(1, 0x80_0000);
        }
        if total <= 0 || seconds.less(shortest) || segment < 0 {
            return None;
        }
        proof {
            if seconds@.num == 0 {
                assert(less(seconds@, shortest@)) by (nonlinear_arith)
                    requires
                        seconds@.num == 0,
                        shortest@.num > 0,
                        seconds@.den > 0,
                ;
            }
            lemma_rate_bounds(segment as nat, span);
            lemma_of_int_bounds(segment as nat);
            lemma_of_int_bounds(total as nat);
            lemma_of_int_bounds(self.size as nat);
        }
        let speed = Single::of_int(segment as u64).over(seconds);
        let percent = Progress::percent(total, self.size);
        let mut out = "\rf:".to_string();
        out.append(self.filename.as_str());
        out.append(" c:");
        push_decimal(&mut out, self.parallel_num as u128);
        out.append(" p:");
        push_two_places(&mut out, percent.hundredths());
        out.append("% ps:");
        out.append(to_human(Single::of_int(total as u64)).as_str());
        out.append("/");
        out.append(to_human(Single::of_int(self.size as u64)).as_str());
        out.append(" s:");
        out.append(to_human(speed).as_str());
        out.append("/s ");
        Some(out)
    }

    /// The part of the file that is there, in percent.
    fn percent(total: isize, size: usize) -> (r: Single)
        requires
            total > 0,
        ensures
            r@ == share_in_percent(total as nat, size as nat),
            0 < r@.den <= 0x800_0000_0000_0000_0000_0000,
            r@.num <= 0x8000_0000_0000_0000_0000,
    {
        proof {
            lemma_of_int_bounds(total as nat);
            lemma_of_int_bounds(size as nat);
        }
        let part = if size == 0 {
            Single::whole(0)
        } else {
            let t = Single::of_int(total as u64);
            let s = Single::of_int(size as u64);
            proof {
                assert(t@.num * s@.den == t@.num && t@.den * s@.num == s@.num);
                lemma_rounded_caps(
                    t@.num,
                    s@.num,
                    0x2_0000_0000_0000_0000,
                    0x2_0000_0000_0000_0000,
                );
            }
            t.over(s)
        };
        proof {
            lemma_whole_factor(100, part@);
            lemma_rounded_caps(
                100 * part@.num,
                part@.den,
                400 * 0x2_0000_0000_0000_0000,
                0x200_0000_0000_0000_0000_0000,
            );
        }
        Single::whole(100).times(part)
    }
}

/// The part of the file that is there is close to the exact percentage.
pub proof fn law_share_is_close(total: nat, size: nat)
    ensures
        size > 0 ==> close(share_in_percent(total, size), 100 * total, size, 8),
        size == 0 ==> share_in_percent(total, size) == whole(0),
{
    if size > 0 {
        lemma_of_int_close(total);
        lemma_of_int_close(size);
        lemma_over_close(of_int(total), total, 1, 1, of_int(size), size, 1, 1);
        lemma_times_close(100, over(of_int(total), of_int(size)), total, size, 6);
    } else {
        lemma_whole_factor(100, whole(0));
    }
}

/// Received bytes are added, or taken away below zero, in full. Nothing else adds any.
pub proof fn law_gains(n: isize)
    ensures
        Watch::gain(Notice::Received(n)) == n,
        Watch::gain(Notice::Timeout) == 0,
        Watch::gain(Notice::Closed) == 0,
{
}

/// The watch begins with nothing.
pub proof fn law_watch_begins()
    ensures
        Watch::begin().total_len == 0,
        Watch::begin().segment_len == 0,
        Watch::begin().part_flag.num == 0 && Watch::begin().part_flag.den > 0,
{
}

/// A notice adds its bytes to all there are, and to those since the last line unless it calls
/// for one. Received bytes call for a line once the time between two lines has passed, which
/// has by then grown.
pub proof fn law_notice_is_taken(watch: Watch, n: isize, span: Elapsed)
    ensures
        ({
            let received = Notice::Received(n);
            let after = watch.after(received, span);
            &&& after.total_len == watch.total_len + n
            &&& after.part_flag == grown(watch.part_flag)
            &&& watch.due(received, span) <==> !less(span.in_seconds(), grown(watch.part_flag))
            &&& watch.due(received, span) ==> after.segment_len == 0
            &&& !watch.due(received, span) ==> after.segment_len == watch.segment_len + n
        }),
        forall|other: Notice|
            !(other is Received) ==> {
                &&& #[trigger] watch.due(other, span)
                &&& watch.after(other, span).total_len == watch.total_len
                &&& watch.after(other, span).segment_len == 0
                &&& watch.after(other, span).part_flag == grown(watch.part_flag)
            },
        watch.fits(Notice::Received(n)) <==> isize::MIN <= watch.segment_len + n <= isize::MAX
            && isize::MIN <= watch.total_len + n <= isize::MAX,
{
}

/// The seconds between two lines grow by a tenth, up to one.
pub proof fn law_time_between_lines_grows(flag: Ratio)
    requires
        flag.den > 0,
    ensures
        grown(flag) == whole(1) || close(
            grown(flag),
            10 * flag.num + flag.den,
            10 * flag.den,
            4,
        ),
        100 * (10 * flag.num + flag.den) <= 99 * (10 * flag.den) ==> close(
            grown(flag),
            10 * flag.num + flag.den,
            10 * flag.den,
            4,
        ),
        10 * flag.num + flag.den >= 2 * (10 * flag.den) ==> grown(flag) == whole(1),
        !less(whole(1), grown(flag)),
{
    let tenth = rounded(1, 10);
    law_rounding_is_close(1, 10);
    let exact: nat = 10 * flag.num + flag.den;
    let d: nat = 10 * flag.den;
    assert(close(flag, flag.num, flag.den, 1)) by {
        let t = flag.num * flag.den;
        assert(0xff_ffff * t <= 0x100_0000 * t <= 0x100_0001 * t) by (nonlinear_arith)
            requires
                t >= 0,
        ;
    }
    lemma_plus_close(flag, flag.num, flag.den, tenth, 1, 10, 1);
    let next = plus(flag, tenth);
    assert(flag.num * 10 + 1 * flag.den == exact && flag.den * 10 == d);
    lemma_close_more(next, exact, d, 3, 4);
    lemma_whole_factor(1, next);
    let (x, y) = (next.num as int, next.den as int);
    if 100 * exact <= 99 * d {
        assert(x <= y) by (nonlinear_arith)
            requires
                0x100_0000 * (x * d) <= (0x100_0000 + 4) * (exact * y),
                100 * exact <= 99 * d,
                d > 0,
                y > 0,
        ;
    }
    if exact >= 2 * d {
        assert(x > y) by (nonlinear_arith)
            requires
                (0x100_0000 - 4) * (exact * y) <= 0x100_0000 * (x * d),
                exact >= 2 * d,
                d > 0,
                y > 0,
        ;
    }
}

/// The shortest span that gives a speed is one part of a second in 2 to the power 23.
pub proof fn law_shortest_span()
    ensures
        shortest_span().den > 0,
        shortest_span().num * 0x80_0000 == shortest_span().den,
{
    vstd::arithmetic::power2::lemma2_to64();
    law_rounding_keeps_singles(1, -23);
    let s = shortest_span();
    assert(1 * s.den == s.den);
}

/// There is no progress line without bytes, after a setback, or within less than the shortest
/// span. Otherwise it tells, in this order: the name, the number of transfers, the percentage,
/// the bytes that are there, the length of the file and the speed.
pub proof fn law_progress_line_tells(subject: Subject, total: int, segment: int, span: Elapsed)
    ensures
        total <= 0 || segment < 0 || less(span.in_seconds(), shortest_span()) <==> subject.line(
            total,
            segment,
            span,
        ) is None,
        subject.line(total, segment, span) matches Some(text) ==> text == seq!['\r', 'f', ':']
            + subject.filename + seq![' ', 'c', ':'] + decimal(subject.parallel_num) + seq![
            ' ',
            'p',
            ':',
        ] + two_places(hundredths(share_in_percent(total as nat, subject.size))) + seq![
            '%',
            ' ',
            'p',
            's',
            ':',
        ] + human(of_int(total as nat), 0) + seq!['/'] + human(of_int(subject.size), 0) + seq![
            ' ',
            's',
            ':',
        ] + human(exact_rate(segment as nat, span), 0) + seq!['/', 's', ' '],
{
    reveal_strlit("\rf:");
    reveal_strlit(" c:");
    reveal_strlit(" p:");
    reveal_strlit("% ps:");
    reveal_strlit("/");
    reveal_strlit(" s:");
    reveal_strlit("/s ");
    assert("\rf:"@ =~= seq!['\r', 'f', ':']);
    assert(" c:"@ =~= seq![' ', 'c', ':']);
    assert(" p:"@ =~= seq![' ', 'p', ':']);
    assert("% ps:"@ =~= seq!['%', ' ', 'p', 's', ':']);
    assert("/"@ =~= seq!['/']);
    assert(" s:"@ =~= seq![' ', 's', ':']);
    assert("/s "@ =~= seq!['/', 's', ' ']);
}

/// Every unit is written with the letter of its size, if it has one, and that of the byte.
pub proof fn law_unit_names(index: nat)
    ensures
        index == 0 ==> human_unit(index) == seq!['B'],
        index > 0 ==> human_unit(index).len() == 2 && human_unit(index)[1] == 'B',
        index > 0 ==> human_unit(index)[0] == if index == 1 {
            'K'
        } else if index == 2 {
            'M'
        } else if index == 3 {
            'G'
        } else {
            'T'
        },
{
    reveal_strlit("B");
    reveal_strlit("KB");
    reveal_strlit("MB");
    reveal_strlit("GB");
    reveal_strlit("TB");
    assert("B"@ =~= seq!['B']);
}

} // verus!
