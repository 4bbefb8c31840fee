//! The answer to a probing request, and the one-line progress bar.

use crate::clock::{rate, whole_rate, Elapsed};
use crate::headers::{
    content_range, content_range_text, header_fields, law_content_range_is_read, range_total,
    spells,
};
use crate::closeness::{
    close, lemma_of_int_close, lemma_over_close, lemma_times_close, lemma_whole_close,
};
use crate::progress::{lemma_same_hundredths, unit_size};
use crate::rounding::{
    at_most, law_division_by_1024_is_exact, law_rounding_keeps_whole_bounds,
    law_rounding_stays_close, law_scaled_counts_units, law_whole_parts, lemma_ceiling_bounds,
    lemma_ceiling_keeps_order, lemma_of_int_keeps_order, lemma_over_keeps_order,
    lemma_rounded_is_scaled, lemma_times_keeps_order,
};
use crate::single::{
    ceiling, hundredths, lemma_of_int_bounds, lemma_over_1024_bounds, lemma_rounded_bounds,
    lemma_rounded_caps, lemma_whole_factor, less, nearest, of_int, over, rounded, rounded_low,
    scaled, times, whole, Ratio, Single, MANTISSA_END, MANTISSA_MIN,
};
use crate::text::{
    after_last, decimal, holds, law_decimal_is_plain, law_numbers_are_read_back,
    law_tail_is_behind_the_last, push_decimal, push_run, push_two_places, read_number, run_of,
    two_places, NumberError,
};
use reqwest::header::HeaderMap;
use vstd::prelude::*;

verus! {

/// Why the answer to a probing request is of no use.
#[derive(Clone, Copy, PartialEq, Eq, Debug, Structural)]
pub enum PrepareError {
    /// The content range holds something other than visible text.
    NotText,
    /// What follows the last slash is no length.
    BadLength(NumberError),
}

/// True of the status codes of success.
pub open spec fn is_success(status: u16) -> bool {
    status / 100 == 2
}

/// What the answer to a probing request says: whether the server serves ranges, and
/// how long the file is.
pub open spec fn prepared(
    status: u16,
    fields: Map<Seq<char>, Seq<Seq<u8>>>,
) -> Result<(bool, nat), PrepareError> {
    if !is_success(status) {
        Ok((false, 0))
    } else {
        match content_range_text(fields) {
            None => Err(PrepareError::NotText),
            Some(text) => match read_number(after_last(text, '/')) {
                Ok(n) => Ok((true, n)),
                Err(e) => Err(PrepareError::BadLength(e)),
            },
        }
    }
}

/// Reads the answer to a probing request for the first byte. A success has to come with
/// a content range, and that with a slash.
pub fn prepare(status: u16, headers: &HeaderMap) -> (r: Result<(bool, usize), PrepareError>)
    requires
        readable(status, header_fields(*headers)),
    ensures
        match r {
            Ok((parallel, length)) => prepared(status, header_fields(*headers)) == Ok::<
                (bool, nat),
                PrepareError,
            >((parallel, length as nat)),
            Err(e) => prepared(status, header_fields(*headers)) == Err::<
                (bool, nat),
                PrepareError,
            >(e),
        },
{
    if status / 100 != 2 {
        return Ok((false, 0));
    }
    match content_range(headers) {
        Some(Ok(text)) => match range_total(text.as_str()) {
            Ok(length) => Ok((true, length)),
            Err(e) => Err(PrepareError::BadLength(e)),
        },
        _ => Err(PrepareError::NotText),
    }
}

/// True where the answer to a probing request can be read: a success comes with a content
/// range, and that, where it is text, with a slash.
pub open spec fn readable(status: u16, fields: Map<Seq<char>, Seq<Seq<u8>>>) -> bool {
    is_success(status) ==> {
        &&& fields.contains_key("content-range"@)
        &&& content_range_text(fields) matches Some(text) ==> text.contains('/')
    }
}

/// Reads the answer to a probing request for the first byte, if it can be read.
pub fn try_prepare(status: u16, headers: &HeaderMap) -> (r: Option<
    Result<(bool, usize), PrepareError>,
>)
    ensures
        r is Some <==> readable(status, header_fields(*headers)),
        r matches Some(Ok((parallel, length))) ==> prepared(status, header_fields(*headers))
            == Ok::<(bool, nat), PrepareError>((parallel, length as nat)),
        r matches Some(Err(e)) ==> prepared(status, header_fields(*headers))
            == Err::<(bool, nat), PrepareError>(e),
{
    if status / 100 == 2 {
        match content_range(headers) {
            None => {
                return None;
            },
            Some(Ok(text)) => {
                if !holds(text.as_str(), '/') {
                    return None;
                }
            },
            Some(Err(_)) => {},
        }
    }
    Some(prepare(status, headers))
}

/// The statuses of success are those from 200 to 299.
pub proof fn law_success(status: u16)
    ensures
        is_success(status) <==> 200 <= status <= 299,
{
}

/// A success tells the number that stands behind the last slash of its content range, or why
/// that is no number. Any other answer says that there are no ranges.
pub proof fn law_answer_is_read(
    status: u16,
    fields: Map<Seq<char>, Seq<Seq<u8>>>,
    head: Seq<char>,
    tail: Seq<char>,
)
    requires
        fields.contains_key("content-range"@),
        spells(fields["content-range"@][0], head + seq!['/'] + tail),
        !tail.contains('/'),
    ensures
        readable(status, fields),
        200 <= status <= 299 ==> match read_number(tail) {
            Ok(n) => prepared(status, fields) == Ok::<(bool, nat), PrepareError>((true, n)),
            Err(e) => prepared(status, fields) == Err::<(bool, nat), PrepareError>(
                PrepareError::BadLength(e),
            ),
        },
        !(200 <= status <= 299) ==> prepared(status, fields) == Ok::<(bool, nat), PrepareError>(
            (false, 0),
        ),
{
    let text = head + seq!['/'] + tail;
    law_content_range_is_read(fields, text, 0);
    law_tail_is_behind_the_last(head, tail, '/');
    assert(text =~= head.push('/') + tail);
    assert(text[head.len() as int] == '/');
}

/// Where a success ends its content range with a slash and a number, that is the length that is
/// told.
pub proof fn law_length_is_that_of_the_answer(
    status: u16,
    fields: Map<Seq<char>, Seq<Seq<u8>>>,
    head: Seq<char>,
    n: nat,
)
    requires
        200 <= status <= 299,
        n <= usize::MAX,
        fields.contains_key("content-range"@),
        spells(fields["content-range"@][0], head + seq!['/'] + decimal(n)),
    ensures
        readable(status, fields),
        prepared(status, fields) == Ok::<(bool, nat), PrepareError>((true, n)),
{
    law_decimal_is_plain(n);
    law_numbers_are_read_back(n);
    assert(!decimal(n).contains('/')) by {
        assert forall|i: int| 0 <= i < decimal(n).len() implies decimal(n)[i] != '/' by {}
    }
    law_answer_is_read(status, fields, head, decimal(n));
}

/// An answer without success can always be read, and says that there are no ranges. A success
/// cannot be read without a content range, nor where that is text without a slash. One that is
/// no text is refused.
pub proof fn law_bad_answers(
    status: u16,
    fields: Map<Seq<char>, Seq<Seq<u8>>>,
    text: Seq<char>,
    bad: int,
)
    ensures
        !(200 <= status <= 299) ==> readable(status, fields) && prepared(status, fields) == Ok::<
            (bool, nat),
            PrepareError,
        >((false, 0)),
        200 <= status <= 299 && !fields.contains_key("content-range"@) ==> !readable(
            status,
            fields,
        ),
        200 <= status <= 299 && spells(fields["content-range"@][0], text) && !text.contains('/')
            ==> !readable(status, fields),
        ({
            let first = fields["content-range"@][0];
            &&& 200 <= status <= 299
            &&& fields.contains_key("content-range"@)
            &&& 0 <= bad < first.len() && first[bad] != 9 && !(32 <= first[bad] < 127)
        }) ==> readable(status, fields) && prepared(status, fields) == Err::<
            (bool, nat),
            PrepareError,
        >(PrepareError::NotText),
{
    law_content_range_is_read(fields, text, bad);
}

/// Names longer than this many characters are shortened.
pub const NAME_LEN: usize = 19;

/// The width of the bar, brackets included.
pub const BAR_LEN: usize = 28;

/// The characters that a shortened name keeps at either end.
pub const NAME_END_LEN: usize = 8;

/// A name as the bar shows it: a long one loses its middle.
pub open spec fn shown_name(name: Seq<char>) -> Seq<char> {
    if name.len() > NAME_LEN {
        name.take(NAME_END_LEN as int) + "..."@ + name.skip(name.len() - NAME_END_LEN)
    } else {
        name
    }
}

/// The unit of a size that has been divided by 1024 `index` times.
pub open spec fn unit(index: nat) -> Seq<char> {
    if index == 0 {
        "B "@
    } else if index == 1 {
        "KB"@
    } else if index == 2 {
        "MB"@
    } else {
        "GB"@
    }
}

/// A size, divided by 1024 until it is at most 99.9 or the units are used up, with two
/// digits behind the point and the unit.
pub open spec fn in_units(size: Ratio, index: nat) -> Seq<char>
    decreases 3 - index,
{
    if index < 3 && less(rounded(999, 10), size) {
        in_units(over(size, whole(1024)), index + 1)
    } else {
        two_places(hundredths(size)) + unit(index)
    }
}

/// The part of the whole that has been received, in percent.
pub open spec fn percent(received: nat, total: nat) -> Ratio {
    if total == 0 {
        whole(0)
    } else {
        over(times(whole(100), of_int(received)), of_int(total))
    }
}

/// The number of filled places in the bar.
pub open spec fn filled(received: nat, total: nat) -> nat {
    ceiling(over(times(whole((BAR_LEN - 2) as nat), percent(received, total)), whole(100)))
}

/// The bar with `head` filled places.
pub open spec fn bar(head: nat) -> Seq<char> {
    seq!['['] + run_of('>', head) + run_of('_', (BAR_LEN - 2 - head) as nat) + seq![']']
}

/// The progress line.
pub open spec fn bar_line(
    name: Seq<char>,
    received: nat,
    total: nat,
    bytes: nat,
    dur: Elapsed,
    con: nat,
) -> Seq<char> {
    shown_name(name) + " "@ + bar(filled(received, total)) + " "@ + two_places(
        hundredths(percent(received, total)),
    ) + "% "@ + in_units(of_int(received), 0) + "/"@ + in_units(of_int(total), 0) + " "@ + in_units(
        of_int(whole_rate(bytes, dur)),
        0,
    ) + "/s con:"@ + decimal(con)
}

/// The bar always has the same width.
pub proof fn law_bar_has_its_width(head: nat)
    requires
        head <= BAR_LEN - 2,
    ensures
        bar(head).len() == BAR_LEN,
{
}

/// The bar never becomes shorter while bytes come in.
pub proof fn law_bar_grows(received: nat, later: nat, total: nat)
    requires
        received <= later,
    ensures
        filled(received, total) <= filled(later, total),
{
    if total > 0 {
        let (a, b) = (of_int(received), of_int(later));
        lemma_of_int_bounds(received);
        lemma_of_int_bounds(later);
        lemma_of_int_bounds(total);
        lemma_of_int_keeps_order(received, later);
        lemma_times_keeps_order(100, a, b);
        lemma_over_keeps_order(times(whole(100), a), times(whole(100), b), of_int(total));
        let (p, q) = (percent(received, total), percent(later, total));
        lemma_times_keeps_order(26, p, q);
        lemma_over_keeps_order(times(whole(26), p), times(whole(26), q), whole(100));
        lemma_ceiling_keeps_order(
            over(times(whole(26), p), whole(100)),
            over(times(whole(26), q), whole(100)),
        );
    }
}

/// A bar that has room for the complete file has room for every part of it.
pub proof fn law_bar_fits(received: nat, total: nat)
    requires
        received <= total,
        filled(total, total) <= BAR_LEN - 2,
    ensures
        filled(received, total) <= BAR_LEN - 2,
{
    law_bar_grows(received, total, total);
}

/// A percentage of at most a hundred does not reach beyond the bar.
proof fn lemma_full_bar(p: Ratio)
    requires
        p.den > 0,
        p.num <= 100 * p.den,
    ensures
        ceiling(over(times(whole(26), p), whole(100))) <= 26,
{
    lemma_whole_factor(26, p);
    law_rounding_keeps_whole_bounds(26 * p.num, p.den, 2600);
    let q = times(whole(26), p);
    lemma_whole_factor(100, q);
    law_rounding_keeps_whole_bounds(q.num, q.den * 100, 26);
    let s = over(q, whole(100));
    let limit = whole(26);
    assert(ceiling(limit) == 26);
    lemma_ceiling_keeps_order(s, limit);
}

/// The bar has room for the complete file where the hundredfold of its length is not rounded
/// up.
pub proof fn law_complete_file_fits(total: nat)
    requires
        at_most(times(whole(100), of_int(total)), whole(100 * of_int(total).num)),
    ensures
        filled(total, total) <= BAR_LEN - 2,
{
    let t = of_int(total);
    lemma_of_int_bounds(total);
    if total == 0 {
        lemma_full_bar(whole(0));
    } else {
        let x = times(whole(100), t);
        lemma_times_keeps_order(100, t, t);
        assert(0 < x.den * t.num && x.num * t.den <= 100 * (x.den * t.num)) by (nonlinear_arith)
            requires
                x.num * 1 <= 100 * t.num * x.den,
                t.den == 1,
                t.num > 0,
                x.den > 0,
        ;
        law_rounding_keeps_whole_bounds(x.num * t.den, x.den * t.num, 100);
        lemma_full_bar(percent(total, total));
    }
}

/// Nothing received leaves the bar empty, and the complete file fills all of it. It fills
/// no more while the hundredfold of its length is a whole number of 24 bits.
pub proof fn law_bar_ends(total: nat)
    requires
        total > 0,
    ensures
        filled(0, total) == 0,
        filled(total, total) >= BAR_LEN - 2,
        total <= 167_772 ==> filled(total, total) == BAR_LEN - 2,
{
    let t = of_int(total);
    lemma_of_int_bounds(0);
    lemma_of_int_bounds(total);
    lemma_whole_factor(100, whole(0));
    lemma_empty_bar();
    assert(of_int(0) == whole(0));
    assert(times(whole(100), whole(0)) == rounded(0, 1));
    assert(whole(0).num * t.den == 0) by (nonlinear_arith)
        requires
            whole(0).num == 0,
    ;
    assert(over(whole(0), t) == rounded(0, whole(0).den * t.num));
    assert(percent(0, total) == whole(0));
    lemma_complete_bar(total);
    if total <= 167_772 {
        lemma_whole_factor(100, t);
        law_rounding_keeps_whole_bounds(100 * total, 1, 100 * total);
        law_complete_file_fits(total);
    }
}

/// A percentage of zero fills nothing.
proof fn lemma_empty_bar()
    ensures
        ceiling(over(times(whole(26), whole(0)), whole(100))) == 0,
{
    lemma_whole_factor(26, whole(0));
    lemma_whole_factor(100, whole(0));
    assert(26 * whole(0).num == 0);
    assert(times(whole(26), whole(0)) == rounded(0, 1));
    assert(rounded(0, 1) == whole(0));
    assert(over(whole(0), whole(100)) == rounded(0, whole(0).den * 100));
    assert(over(whole(0), whole(100)) == whole(0));
    assert(ceiling(whole(0)) == 0);
}

proof fn lemma_complete_bar(total: nat)
    requires
        total > 0,
    ensures
        filled(total, total) >= BAR_LEN - 2,
{
    let t = of_int(total);
    lemma_of_int_bounds(total);
    lemma_whole_factor(100, t);
    law_rounding_stays_close(100 * t.num, 1);
    let x = times(whole(100), t);
    let d = x.den * t.num;
    assert(d > 0 && 10 * x.num >= 999 * d) by (nonlinear_arith)
        requires
            1000 * (x.num * 1) >= 999 * (100 * t.num * x.den),
            d == x.den * t.num,
            x.den > 0,
            t.num > 0,
    ;
    assert(x.num * t.den == x.num);
    law_rounding_stays_close(x.num, d);
    let p = percent(total, total);
    assert(100 * p.num >= 9980 * p.den) by (nonlinear_arith)
        requires
            1000 * (p.num * d) >= 999 * (x.num * p.den),
            10 * x.num >= 999 * d,
            d > 0,
            p.den > 0,
    ;
    lemma_whole_factor(26, p);
    law_rounding_stays_close(26 * p.num, p.den);
    let q = times(whole(26), p);
    assert(10 * q.num >= 25900 * q.den) by (nonlinear_arith)
        requires
            1000 * (q.num * p.den) >= 999 * (26 * p.num * q.den),
            100 * p.num >= 9980 * p.den,
            p.den > 0,
            q.den > 0,
    ;
    lemma_whole_factor(100, q);
    law_rounding_stays_close(q.num, q.den * 100);
    let s = over(q, whole(100));
    assert(s.num > 25 * s.den) by (nonlinear_arith)
        requires
            1000 * (s.num * (q.den * 100)) >= 999 * (q.num * s.den),
            10 * q.num >= 25900 * q.den,
            q.den > 0,
            s.den > 0,
    ;
    lemma_ceiling_bounds(s);
    let c = ceiling(s);
    assert(c >= 26) by (nonlinear_arith)
        requires
            s.num <= c * s.den,
            s.num > 25 * s.den,
            s.den > 0,
    ;
}

/// A name is never shown longer than the limit, and keeps its beginning and its end.
pub proof fn law_names_are_short(name: Seq<char>)
    ensures
        shown_name(name).len() <= NAME_LEN,
        name.len() <= NAME_LEN ==> shown_name(name) == name,
        name.len() > NAME_LEN ==> {
            &&& shown_name(name).take(NAME_END_LEN as int) == name.take(NAME_END_LEN as int)
            &&& shown_name(name).skip(NAME_LEN - NAME_END_LEN) == name.skip(
                name.len() - NAME_END_LEN,
            )
        },
{
    reveal_strlit("...");
    if name.len() > NAME_LEN {
        assert(shown_name(name).take(NAME_END_LEN as int) =~= name.take(NAME_END_LEN as int));
        assert(shown_name(name).skip(NAME_LEN - NAME_END_LEN) =~= name.skip(
            name.len() - NAME_END_LEN,
        ));
    }
}

/// Shortens a name for the bar.
fn show_name(name: &str) -> (r: String)
    ensures
        r@ == shown_name(name@),
{
    let n = name.unicode_len();
    if n > NAME_LEN {
        let mut out = name.substring_char(0, NAME_END_LEN).to_string();
        out.append("...");
        out.append(name.substring_char(n - NAME_END_LEN, n));
        assert(out@ =~= shown_name(name@));
        out
    } else {
        name.to_string()
    }
}

proof fn lemma_percent_bounds(received: nat, total: nat)
    requires
        received <= u64::MAX,
        0 < total <= u64::MAX,
    ensures
        times(whole(100), of_int(received)).num <= 0x200_0000_0000_0000_0000,
        0 < times(whole(100), of_int(received)).den <= MANTISSA_END,
        0 < times(whole(100), of_int(received)).den * of_int(total).num
            <= 0x200_0000_0000_0000_0000_0000,
        percent(received, total).num <= 0x400_0000_0000_0000_0000,
        0 < percent(received, total).den <= 0x400_0000_0000_0000_0000_0000,
        percent(received, total).num == 0 || percent(received, total).num >= MANTISSA_MIN,
        percent(received, total).num == 0 ==> percent(received, total).den == 1,
{
    lemma_of_int_bounds(received);
    lemma_of_int_bounds(total);
    let r = of_int(received);
    let t = of_int(total);
    lemma_rounded_caps(100 * r.num, 1, 0x100_0000_0000_0000_0000, 1);
    let a = times(whole(100), r);
    assert(a == rounded(100 * r.num, 1));
    assert(a.den * t.num <= 0x100_0000 * 0x2_0000_0000_0000_0000) by (nonlinear_arith)
        requires
            a.den <= 0x100_0000,
            t.num <= 0x2_0000_0000_0000_0000,
            a.den >= 0,
            t.num >= 0,
    ;
    assert(a.den * t.num > 0) by (nonlinear_arith)
        requires
            a.den > 0,
            t.num > 0,
    ;
    assert(a.num * t.den == a.num);
    lemma_rounded_caps(
        a.num,
        a.den * t.num,
        0x200_0000_0000_0000_0000,
        0x200_0000_0000_0000_0000_0000,
    );
}

/// The part of the whole that has been received, in percent.
fn percentage(received: usize, total: usize) -> (r: Single)
    ensures
        r@ == percent(received as nat, total as nat),
        r@.num <= 0x400_0000_0000_0000_0000,
        0 < r@.den <= 0x400_0000_0000_0000_0000_0000,
        r@.num == 0 || r@.num >= MANTISSA_MIN,
        r@.num == 0 ==> r@.den == 1,
{
    if total == 0 {
        return Single::whole(0);
    }
    proof {
        lemma_percent_bounds(received as nat, total as nat);
        lemma_of_int_bounds(received as nat);
        lemma_of_int_bounds(total as nat);
    }
    Single::whole(100).times(Single::of_int(received as u64)).over(Single::of_int(total as u64))
}

/// The number of places that the bar would fill. It fits the bar only up to
/// `BAR_LEN - 2`.
pub fn bar_fill(received: usize, total: usize) -> (r: u128)
    ensures
        r == filled(received as nat, total as nat),
{
    let p = percentage(received, total);
    proof {
        lemma_rounded_caps(
            26 * p@.num,
            p@.den,
            26 * 0x400_0000_0000_0000_0000,
            0x400_0000_0000_0000_0000_0000,
        );
    }
    let places = Single::whole((BAR_LEN - 2) as u32);
    proof {
        lemma_whole_factor(26, p@);
    }
    let q = places.times(p);
    proof {
        lemma_whole_factor(100, q@);
        lemma_rounded_caps(
            q@.num,
            q@.den * 100,
            52 * 0x400_0000_0000_0000_0000,
            200 * 0x400_0000_0000_0000_0000_0000,
        );
    }
    q.over(Single::whole(100)).ceiling()
}

/// A size with its unit.
pub fn to_unit(num: usize) -> (r: String)
    ensures
        r@ == in_units(of_int(num as nat), 0),
{
    proof {
        lemma_of_int_bounds(num as nat);
        lemma_rounded_bounds(999, 10);
    }
    let limit = Single::rounded(999, 10);
    let mut size = Single::of_int(num as u64);
    let mut index: usize = 0;
    while index < 3 && limit.less(size)
        invariant
            index <= 3,
            limit@ == rounded(999, 10),
            0 < limit@.den <= limit@.num,
            size@.num <= 0x2_0000_0000_0000_0000,
            0 < size@.den <= MANTISSA_END * 1024,
            in_units(size@, index as nat) == in_units(of_int(num as nat), 0),
        decreases 3 - index,
    {
        proof {
            assert(size@.den <= size@.num) by (nonlinear_arith)
                requires
                    limit@.num * size@.den < size@.num * limit@.den,
                    0 < limit@.den <= limit@.num,
                    size@.num >= 0,
                    size@.den >= 0,
            ;
            lemma_over_1024_bounds(size@);
        }
        size = size.over(Single::whole(1024));
        index = index + 1;
    }
    let mut out = String::new();
    push_two_places(&mut out, size.hundredths());
    if index == 0 {
        out.append("B ");
    } else if index == 1 {
        out.append("KB");
    } else if index == 2 {
        out.append("MB");
    } else {
        out.append("GB");
    }
    assert(out@ =~= in_units(size@, index as nat));
    out
}

/// The progress line: the name, a bar, the percentage, the sizes, the speed and the
/// number of connections. The filled places have to fit the bar.
pub fn show_bar(
    name: &str,
    received: usize,
    total: usize,
    bytes: usize,
    dur: Elapsed,
    con: usize,
) -> (r: String)
    requires
        dur.wf(),
        filled(received as nat, total as nat) <= BAR_LEN - 2,
    ensures
        r@ == bar_line(
            name@,
            received as nat,
            total as nat,
            bytes as nat,
            dur,
            con as nat,
        ),
{
    let speed = rate(bytes, dur);
    let head = bar_fill(received, total) as usize;
    let mut out = show_name(name);
    out.append(" ");
    let ghost before = out@;
    out.push('[');
    push_run(&mut out, '>', head);
    push_run(&mut out, '_', BAR_LEN - 2 - head);
    out.push(']');
    assert(out@ =~= before + bar(head as nat));
    out.append(" ");
    push_two_places(&mut out, percentage(received, total).hundredths());
    out.append("% ");
    out.append(to_unit(received).as_str());
    out.append("/");
    out.append(to_unit(total).as_str());
    out.append(" ");
    out.append(to_unit(speed).as_str());
    out.append("/s con:");
    push_decimal(&mut out, con as u128);
    out
}

/// The percentage is close to the hundredfold of what has been received, divided by the whole.
pub proof fn law_percentage_is_close(received: nat, total: nat)
    ensures
        total > 0 ==> close(percent(received, total), 100 * received, total, 8),
        total == 0 ==> percent(received, total) == whole(0),
{
    if total > 0 {
        lemma_of_int_close(received);
        lemma_of_int_close(total);
        lemma_times_close(100, of_int(received), received, 1, 1);
        lemma_over_close(
            times(whole(100), of_int(received)),
            100 * received,
            1,
            3,
            of_int(total),
            total,
            1,
            1,
        );
    }
}

/// The filled places are in proportion to what has been received of the whole, rounded up, but
/// for what rounding leads away. Of an unknown whole nothing is filled.
pub proof fn law_bar_is_in_proportion(received: nat, total: nat)
    ensures
        total > 0 ==> {
            let n = filled(received, total);
            &&& (0x100_0000 - 13) * (26 * received) <= 0x100_0000 * (n * total)
            &&& 0x100_0000 * ((n - 1) * total) < (0x100_0000 + 13) * (26 * received) || n == 0
        },
        total == 0 ==> filled(received, total) == 0,
{
    if total == 0 {
        lemma_empty_bar();
    } else {
        let p = percent(received, total);
        law_percentage_is_close(received, total);
        lemma_times_close(26, p, 100 * received, total, 8);
        let q = times(whole(26), p);
        lemma_whole_close(100, 0);
        lemma_over_close(q, 26 * (100 * received), total, 10, whole(100), 100, 1, 0);
        let s = over(q, whole(100));
        law_whole_parts(s);
        let n = filled(received, total);
        assert(n == ceiling(s));
        assert(total * 100 == 100 * total && 26 * (100 * received) == 100 * (26 * received));
        let (x, y) = ((26 * received) as int, s.den as int);
        let t = total as int;
        let c: int = 0x100_0000;
        assert((c - 13) * (x * y) <= c * (s.num * t) && c * (s.num * t) <= (c + 13) * (x * y))
            by (nonlinear_arith)
            requires
                (c - 13) * ((100 * x) * y) <= c * (s.num * (t * 100)),
                c * (s.num * (t * 100)) <= (c + 13) * ((100 * x) * y),
        ;
        assert((c - 13) * x <= c * (n * t)) by (nonlinear_arith)
            requires
                (c - 13) * (x * y) <= c * (s.num * t),
                s.num <= n * y,
                y > 0,
                t > 0,
                c == 0x100_0000,
        ;
        assert(c * ((n - 1) * t) < (c + 13) * x) by (nonlinear_arith)
            requires
                c * (s.num * t) <= (c + 13) * (x * y),
                (n - 1) * y < s.num,
                y > 0,
                t > 0,
                c == 0x100_0000,
        ;
    }
}

/// The bar stands in brackets. Its first places are filled, as many as was said, and the others
/// are not.
pub proof fn law_bar_shows_the_filled_places(head: nat, i: int)
    requires
        head <= 26,
    ensures
        bar(head).len() == 28,
        bar(head)[0] == '[',
        bar(head)[27] == ']',
        0 < i <= head ==> bar(head)[i] == '>',
        head < i < 27 ==> bar(head)[i] == '_',
{
}

/// A long name is shown as its first eight characters, three points and its last eight.
pub proof fn law_long_names_lose_their_middle(name: Seq<char>, i: int)
    requires
        name.len() > 19,
    ensures
        shown_name(name).len() == 19,
        0 <= i < 8 ==> shown_name(name)[i] == name[i],
        8 <= i < 11 ==> shown_name(name)[i] == '.',
        11 <= i < 19 ==> shown_name(name)[i] == name[name.len() - 19 + i],
{
    reveal_strlit("...");
}

/// True where a size is at most 99.9 units, as that number is in single precision.
pub open spec fn fits_short_unit(size: Ratio, index: nat) -> bool {
    size.num * 131_072 <= 13_094_093 * (unit_size(index) * size.den)
}

proof fn lemma_limit()
    ensures
        rounded(999, 10) == (Ratio { num: 13_094_093, den: 131_072 }),
{
    reveal_with_fuel(rounded_low, 19);
}

proof fn lemma_in_units_from(mantissa: nat, exponent: int, index: nat, last: nat)
    requires
        mantissa <= MANTISSA_END,
        index <= last <= 3,
        last == 3 || fits_short_unit(scaled(mantissa, exponent), (last - index) as nat),
        forall|j: nat|
            j < last - index ==> !#[trigger] fits_short_unit(scaled(mantissa, exponent), j),
    ensures
        in_units(scaled(mantissa, exponent), index) == two_places(
            nearest(
                100 * scaled(mantissa, exponent).num,
                scaled(mantissa, exponent).den * unit_size((last - index) as nat),
            ),
        ) + unit(last),
    decreases last - index,
{
    let b = scaled(mantissa, exponent);
    law_division_by_1024_is_exact(mantissa, exponent);
    lemma_whole_factor(1024, b);
    lemma_limit();
    assert(unit_size(0) == 1);
    assert(fits_short_unit(b, 0) <==> !less(rounded(999, 10), b));
    if index == last {
        assert(b.den * unit_size(0) == b.den);
    } else {
        let k = (last - index - 1) as nat;
        assert(!fits_short_unit(b, 0));
        let c = over(b, whole(1024));
        let (m, x) = lemma_rounded_is_scaled(b.num, b.den * 1024);
        assert forall|j: nat|
            #![trigger fits_short_unit(c, j)]
            fits_short_unit(c, j) <==> fits_short_unit(b, j + 1) by {
            lemma_short_unit_below(b, c, j);
        }
        lemma_short_unit_below(b, c, k);
        lemma_in_units_from(m, x, index + 1, last);
        lemma_same_hundredths(b, c, k);
    }
}

proof fn lemma_short_unit_below(b: Ratio, c: Ratio, j: nat)
    requires
        b.den > 0,
        c.den > 0,
        1024 * (c.num * b.den) == b.num * c.den,
    ensures
        fits_short_unit(c, j) <==> fits_short_unit(b, j + 1),
{
    let u = unit_size(j);
    let v = unit_size(j + 1);
    assert(v == 1024 * u);
    if fits_short_unit(c, j) {
        assert(b.num * 131_072 <= 13_094_093 * (v * b.den)) by (nonlinear_arith)
            requires
                c.num * 131_072 <= 13_094_093 * (u * c.den),
                1024 * (c.num * b.den) == b.num * c.den,
                v == 1024 * u,
                c.den > 0,
                b.den > 0,
        ;
    }
    if fits_short_unit(b, j + 1) {
        assert(c.num * 131_072 <= 13_094_093 * (u * c.den)) by (nonlinear_arith)
            requires
                b.num * 131_072 <= 13_094_093 * (v * b.den),
                1024 * (c.num * b.den) == b.num * c.den,
                v == 1024 * u,
                c.den > 0,
                b.den > 0,
        ;
    }
}

/// A size is shown in the smallest unit of which it is at most 99.9, or in the largest there is,
/// and the number before the unit is the exact quotient, rounded to hundredths.
pub proof fn law_short_sizes_are_exact(num: nat, index: nat)
    requires
        index <= 3,
        index == 3 || fits_short_unit(of_int(num), index),
        forall|j: nat| j < index ==> !#[trigger] fits_short_unit(of_int(num), j),
    ensures
        in_units(of_int(num), 0) == two_places(
            nearest(100 * of_int(num).num, of_int(num).den * unit_size(index)),
        ) + unit(index),
{
    lemma_of_int_bounds(num);
    if num < MANTISSA_END {
        law_scaled_counts_units(num, 0);
        lemma_in_units_from(num, 0, 0, index);
    } else {
        assert(rounded(num, 1) == of_int(num));
        let (m, x) = lemma_rounded_is_scaled(num, 1);
        lemma_in_units_from(m, x, 0, index);
    }
}

/// The progress line tells, in this order: the name, the bar, the percentage, what has been
/// received, the whole, the speed and the number of connections.
pub proof fn law_bar_line_tells(
    name: Seq<char>,
    received: nat,
    total: nat,
    bytes: nat,
    dur: Elapsed,
    con: nat,
)
    ensures
        bar_line(name, received, total, bytes, dur, con) == shown_name(name).push(' ') + bar(
            filled(received, total),
        ).push(' ') + two_places(hundredths(percent(received, total))).push('%').push(' ')
            + in_units(of_int(received), 0).push('/') + in_units(of_int(total), 0).push(' ')
            + in_units(of_int(whole_rate(bytes, dur)), 0) + seq![
            '/',
            's',
            ' ',
            'c',
            'o',
            'n',
            ':',
        ] + decimal(con),
{
    reveal_strlit(" ");
    reveal_strlit("% ");
    reveal_strlit("/");
    reveal_strlit("/s con:");
    assert("/s con:"@ =~= seq!['/', 's', ' ', 'c', 'o', 'n', ':']);
    assert(bar_line(name, received, total, bytes, dur, con) =~= shown_name(name).push(' ') + bar(
        filled(received, total),
    ).push(' ') + two_places(hundredths(percent(received, total))).push('%').push(' ') + in_units(
        of_int(received),
        0,
    ).push('/') + in_units(of_int(total), 0).push(' ') + in_units(
        of_int(whole_rate(bytes, dur)),
        0,
    ) + seq!['/', 's', ' ', 'c', 'o', 'n', ':'] + decimal(con));
}

/// Every unit is written with two characters: the letter of its size, if it has one, and that of
/// the byte.
pub proof fn law_short_unit_names(index: nat)
    ensures
        index == 0 ==> unit(index) == seq!['B', ' '],
        index > 0 ==> unit(index).len() == 2 && unit(index)[1] == 'B',
        index > 0 ==> unit(index)[0] == if index == 1 {
            'K'
        } else if index == 2 {
            'M'
        } else {
            'G'
        },
{
    reveal_strlit("B ");
    reveal_strlit("KB");
    reveal_strlit("MB");
    reveal_strlit("GB");
    assert("B "@ =~= seq!['B', ' ']);
}

} // verus!
