//! A download in segments: its settings, whether it goes in one piece or in several, and
//! the segments that it is cut into.

use crate::headers::{
    content_range, content_range_text, copy_headers, has_room, header_fields, is_field_text,
    law_content_range_is_read, no_fields, no_headers, put_range, range_total, spells,
};
use crate::text::{
    after_last, decimal, digit, law_decimal_is_plain, law_numbers_are_read_back,
    law_range_names_its_ends, law_tail_is_behind_the_last, range_text, range_value, read_number,
    tail_after, NumberError,
};
use crate::utils::{is_success, prepared, PrepareError};
use reqwest::header::{HeaderMap, InvalidHeaderValue, MaxSizeReached};
use vstd::prelude::*;
use vstd::utf8::encode_utf8;

verus! {

/// The length of a segment, unless another is chosen: 32 MiB.
pub const CHUNK_LEN: usize = 0x200_0000;

/// The number of retries, unless another is chosen.
pub const MAX_RETRIES: usize = 3;

/// The number of transfers at a time where the machine does not tell how many it can run.
pub const FALLBACK_PARALLEL_NUM: usize = 8;

/// The seconds after which a silent connection is given up.
pub const KEEP_ALIVE_SECS: u64 = 15;

/// The value of the `range` field that asks for the first byte only.
pub const PROBE_RANGE: &'static str = "bytes=0-0";

/// What has been chosen for a download.
#[verifier::ext_equal]
pub struct Choices {
    pub url: Seq<char>,
    pub filename: Option<Seq<char>>,
    pub headers: Option<Map<Seq<char>, Seq<Seq<u8>>>>,
    pub parallel_num: Option<usize>,
    pub max_retries: Option<usize>,
    pub chunk_len: Option<usize>,
}

/// What a download goes by.
#[verifier::ext_equal]
pub struct Setup {
    pub url: Seq<char>,
    pub filename: Seq<char>,
    pub headers: Map<Seq<char>, Seq<Seq<u8>>>,
    pub parallel_num: usize,
    pub max_retries: usize,
    pub chunk_len: usize,
}

impl Choices {
    /// Nothing chosen but the URL.
    pub open spec fn only(url: Seq<char>) -> Choices {
        Choices {
            url,
            filename: None,
            headers: None,
            parallel_num: None,
            max_retries: None,
            chunk_len: None,
        }
    }

    /// What the choices come to on a machine that can run `available` things at a time, or
    /// does not tell. Without a chosen name the file is called like the end of the URL.
    pub open spec fn setup(self, available: Option<usize>) -> Setup {
        Setup {
            url: self.url,
            filename: match self.filename {
                Some(name) => name,
                None => after_last(self.url, '/'),
            },
            headers: match self.headers {
                Some(headers) => headers,
                None => no_fields(),
            },
            parallel_num: match self.parallel_num {
                Some(n) => n,
                None => match available {
                    Some(n) => n,
                    None => FALLBACK_PARALLEL_NUM,
                },
            },
            max_retries: match self.max_retries {
                Some(n) => n,
                None => MAX_RETRIES,
            },
            chunk_len: match self.chunk_len {
                Some(n) => n,
                None => CHUNK_LEN,
            },
        }
    }
}

/// Settings of a download.
#[derive(Debug)]
pub struct JjPBuilder {
    url: String,
    filename: Option<String>,
    headers: Option<HeaderMap>,
    parallel_num: Option<usize>,
    max_retries: Option<usize>,
    chunk_len: Option<usize>,
}

impl View for JjPBuilder {
    type V = Choices;

    closed spec fn view(&self) -> Choices {
        Choices {
            url: self.url@,
            filename: match self.filename {
                Some(name) => Some(name@),
                None => None,
            },
            headers: match self.headers {
                Some(headers) => Some(header_fields(headers)),
                None => None,
            },
            parallel_num: self.parallel_num,
            max_retries: self.max_retries,
            chunk_len: self.chunk_len,
        }
    }
}

impl Default for JjPBuilder {
    fn default() -> (r: JjPBuilder)
        ensures
            r@ == Choices::only(Seq::empty()),
    {
        JjPBuilder::new(String::new())
    }
}

impl JjPBuilder {
    /// Settings for a URL.
    pub fn new(url: String) -> (r: JjPBuilder)
        ensures
            r@ == Choices::only(url@),
    {
        JjPBuilder {
            url,
            filename: None,
            headers: None,
            parallel_num: None,
            max_retries: None,
            chunk_len: None,
        }
    }

    /// Chooses the name of the file.
    pub fn set_filename(self, filename: String) -> (r: JjPBuilder)
        ensures
            r@ == (Choices { filename: Some(filename@), ..self@ }),
    {
        JjPBuilder { filename: Some(filename), ..self }
    }

    /// Chooses the header fields of every request.
    pub fn set_headers(self, headers: HeaderMap) -> (r: JjPBuilder)
        ensures
            r@ == (Choices { headers: Some(header_fields(headers)), ..self@ }),
    {
        JjPBuilder { headers: Some(headers), ..self }
    }

    /// Chooses the number of transfers at a time.
    pub fn set_parallel_num(self, parallel_num: usize) -> (r: JjPBuilder)
        ensures
            r@ == (Choices { parallel_num: Some(parallel_num), ..self@ }),
    {
        JjPBuilder { parallel_num: Some(parallel_num), ..self }
    }

    /// Chooses the number of retries.
    pub fn set_max_retries(self, max_retries: usize) -> (r: JjPBuilder)
        ensures
            r@ == (Choices { max_retries: Some(max_retries), ..self@ }),
    {
        JjPBuilder { max_retries: Some(max_retries), ..self }
    }

    /// Chooses the length of a segment.
    pub fn set_chunk_len(self, chunk_len: usize) -> (r: JjPBuilder)
        ensures
            r@ == (Choices { chunk_len: Some(chunk_len), ..self@ }),
    {
        JjPBuilder { chunk_len: Some(chunk_len), ..self }
    }

    /// The download that these settings make on a machine that can run `available` things
    /// at a time.
    pub fn build(self, available: Option<usize>) -> (r: JjP)
        ensures
            r@ == self@.setup(available),
    {
        let filename = match self.filename {
            Some(name) => name,
            None => tail_after(self.url.as_str(), '/'),
        };
        let headers = match self.headers {
            Some(headers) => headers,
            None => no_headers(),
        };
        let parallel_num = match self.parallel_num {
            Some(n) => n,
            None => match available {
                Some(n) => n,
                None => FALLBACK_PARALLEL_NUM,
            },
        };
        let max_retries = match self.max_retries {
            Some(n) => n,
            None => MAX_RETRIES,
        };
        let chunk_len = match self.chunk_len {
            Some(n) => n,
            None => CHUNK_LEN,
        };
        JjP { url: self.url, filename, headers, parallel_num, max_retries, chunk_len }
    }
}

/// A download.
pub struct JjP {
    url: String,
    filename: String,
    headers: HeaderMap,
    parallel_num: usize,
    max_retries: usize,
    chunk_len: usize,
}

impl View for JjP {
    type V = Setup;

    closed spec fn view(&self) -> Setup {
        Setup {
            url: self.url@,
            filename: self.filename@,
            headers: header_fields(self.headers),
            parallel_num: self.parallel_num,
            max_retries: self.max_retries,
            chunk_len: self.chunk_len,
        }
    }
}

/// How a download goes.
#[derive(Clone, Copy, PartialEq, Eq, Debug, Structural)]
pub enum Plan {
    /// In one piece of the given length, or of an unknown one where it is zero.
    Single(usize),
    /// In segments, if there are enough of them.
    Parallel(usize),
}

/// The length of the file that the answer to a probing request tells, if it does: a number
/// other than zero behind the last slash of its content range.
pub open spec fn told_length(fields: Map<Seq<char>, Seq<Seq<u8>>>) -> Option<nat> {
    match content_range_text(fields) {
        None => None,
        Some(text) => match read_number(after_last(text, '/')) {
            Ok(n) => if n == 0 {
                None
            } else {
                Some(n)
            },
            Err(_) => None,
        },
    }
}

/// One stretch of the file, from its first byte to its last.
#[derive(Clone, Copy, PartialEq, Eq, Debug, Structural)]
pub struct Segment {
    pub start: usize,
    pub end: usize,
}

/// Why a segment cannot be asked for.
#[derive(Clone, Copy, PartialEq, Eq, Debug, Structural)]
pub enum SegmentError {
    /// The range cannot stand in a header.
    BadRange,
    /// The header map has no room for the range.
    HeadersFull,
}

/// What comes of header fields into which a range was to be put: the fields, if it was.
pub fn with_range(
    headers: HeaderMap,
    put: Result<Result<(), MaxSizeReached>, InvalidHeaderValue>,
) -> (r: Result<HeaderMap, SegmentError>)
    ensures
        match put {
            Ok(Ok(())) => r == Ok::<HeaderMap, SegmentError>(headers),
            Ok(Err(_)) => r == Err::<HeaderMap, SegmentError>(SegmentError::HeadersFull),
            Err(_) => r == Err::<HeaderMap, SegmentError>(SegmentError::BadRange),
        },
{
    match put {
        Ok(Ok(())) => Ok(headers),
        Ok(Err(_)) => Err(SegmentError::HeadersFull),
        Err(_) => Err(SegmentError::BadRange),
    }
}

/// The segments of `chunk_len` bytes, the last perhaps shorter, from `start` to the end of
/// the file.
pub open spec fn segments_from(start: nat, length: nat, chunk_len: nat) -> Seq<Segment>
    decreases length + chunk_len - start,
{
    if start >= length || chunk_len == 0 {
        Seq::empty()
    } else {
        let behind = if start + chunk_len < length {
            start + chunk_len
        } else {
            length
        };
        seq![Segment { start: start as usize, end: (behind - 1) as usize }] + segments_from(
            start + chunk_len,
            length,
            chunk_len,
        )
    }
}

impl Setup {
    /// The number of transfers at a time: not more than there are full segments, and one at
    /// least.
    pub open spec fn lanes(self, length: nat) -> nat {
        let full = length / (self.chunk_len as nat);
        let n = if full < self.parallel_num {
            full
        } else {
            self.parallel_num as nat
        };
        if n < 1 {
            1
        } else {
            n
        }
    }

    /// The way a download goes once the length of the file is known, or is known not to be
    /// told.
    pub open spec fn plan(self, length: Option<usize>) -> Plan {
        match length {
            Some(n) => if self.parallel_num == 1 {
                Plan::Single(n)
            } else {
                Plan::Parallel(n)
            },
            None => Plan::Single(0),
        }
    }

    /// The header fields of the request for a segment.
    pub open spec fn segment_fields(self, segment: Segment) -> Map<Seq<char>, Seq<Seq<u8>>> {
        self.headers.insert(
            "range"@,
            seq![encode_utf8(range_text(segment.start as nat, segment.end as nat))],
        )
    }
}

impl Segment {
    /// The number of bytes.
    pub fn length(&self) -> (r: usize)
        requires
            self.start <= self.end,
            self.end - self.start < usize::MAX,
        ensures
            r == self.end - self.start + 1,
            r == bytes_in(seq![*self]),
    {
        assert(seq![*self].drop_first() =~= Seq::<Segment>::empty());
        reveal_with_fuel(bytes_in, 2);
        self.end - self.start + 1
    }
}

/// The segments that are still to be handed out.
pub struct Segments {
    start: usize,
    length: usize,
    chunk_len: usize,
}

impl View for Segments {
    type V = Seq<Segment>;

    closed spec fn view(&self) -> Seq<Segment> {
        segments_from(self.start as nat, self.length as nat, self.chunk_len as nat)
    }
}

impl Segments {
    /// The next segment, unless the download falls back to a single piece.
    pub fn next(&mut self, change_single: bool) -> (r: Option<Segment>)
        ensures
            r is Some <==> !change_single && old(self)@.len() > 0,
            r matches Some(segment) ==> segment == old(self)@[0] && final(self)@
                == old(self)@.drop_first(),
            r is None ==> final(self)@ == old(self)@,
    {
        if change_single || self.start >= self.length || self.chunk_len == 0 {
            return None;
        }
        let start = self.start;
        let ghost rest = segments_from(
            (self.start + self.chunk_len) as nat,
            self.length as nat,
            self.chunk_len as nat,
        );
        assert(self@.drop_first() =~= rest);
        if self.length - start > self.chunk_len {
            self.start = start + self.chunk_len;
            Some(Segment { start, end: self.start - 1 })
        } else {
            self.start = self.length;
            assert(self@ =~= rest);
            Some(Segment { start, end: self.length - 1 })
        }
    }
}

/// A download in segments: the number of transfers at a time, the number of them that may
/// wait for a retry at a time, and the segments.
pub struct Fanout {
    pub lanes: usize,
    pub spare: usize,
    pub segments: Segments,
}

impl JjP {
    /// The length of the file, from the header fields of the answer to a probing request,
    /// if one came.
    pub fn fetch_length(answer: Option<&HeaderMap>) -> (r: Option<usize>)
        ensures
            match answer {
                None => r is None,
                Some(headers) => match told_length(header_fields(*headers)) {
                    Some(n) => r matches Some(length) && length == n,
                    None => r is None,
                },
            },
    {
        match answer {
            None => None,
            Some(headers) => match content_range(headers) {
                Some(Ok(text)) => match range_total(text.as_str()) {
                    Ok(n) => if n == 0 {
                        None
                    } else {
                        Some(n)
                    },
                    Err(_) => None,
                },
                _ => None,
            },
        }
    }

    /// How the download goes, once the length of the file is known or is known not to be
    /// told.
    pub fn download(&self, length: Option<usize>) -> (r: Plan)
        ensures
            r == self@.plan(length),
    {
        match length {
            Some(n) => if self.parallel_num == 1 {
                Plan::Single(n)
            } else {
                Plan::Parallel(n)
            },
            None => Plan::Single(0),
        }
    }

    /// The segments, unless there are too few of them: then the download goes in one piece.
    pub fn parallel_download(&self, length: usize) -> (r: Option<Fanout>)
        requires
            self@.chunk_len > 0,
        ensures
            r is None <==> self@.lanes(length as nat) == 1,
            r matches Some(fanout) ==> {
                &&& fanout.lanes == self@.lanes(length as nat)
                &&& fanout.spare == self@.lanes(length as nat) - 1
                &&& fanout.segments@ == segments_from(0, length as nat, self@.chunk_len as nat)
            },
    {
        let full = length / self.chunk_len;
        let n = if full < self.parallel_num {
            full
        } else {
            self.parallel_num
        };
        let lanes: usize = if n < 1 {
            1
        } else {
            n
        };
        if lanes == 1 {
            return None;
        }
        Some(
            Fanout {
                lanes,
                spare: lanes - 1,
                segments: Segments { start: 0, length, chunk_len: self.chunk_len },
            },
        )
    }

    /// The header fields of the request for a segment: those of every request, and the
    /// range. They are refused only where the map of those of every request is so full that
    /// it cannot grow.
    pub fn segment_headers(&self, segment: &Segment) -> (r: Result<HeaderMap, SegmentError>)
        ensures
            r matches Ok(headers) ==> header_fields(headers) == self@.segment_fields(*segment),
            r matches Err(e) ==> e == SegmentError::HeadersFull && !has_room(self@.headers),
    {
        let mut headers = copy_headers(&self.headers);
        let value = range_value(segment.start, segment.end);
        proof {
            lemma_range_is_field_text(segment.start as nat, segment.end as nat);
        }
        let put = put_range(&mut headers, value.as_str());
        with_range(headers, put)
    }

    /// The header fields of every request.
    pub fn headers(&self) -> (r: &HeaderMap)
        ensures
            header_fields(*r) == self@.headers,
    {
        &self.headers
    }

    /// The URL to download from.
    pub fn url(&self) -> (r: &str)
        ensures
            r@ == self@.url,
    {
        self.url.as_str()
    }

    /// The name of the file.
    pub fn filename(&self) -> (r: &str)
        ensures
            r@ == self@.filename,
    {
        self.filename.as_str()
    }

    /// The number of retries of a download in one piece.
    pub fn max_retries(&self) -> (r: usize)
        ensures
            r == self@.max_retries,
    {
        self.max_retries
    }

    /// The length of a segment.
    pub fn chunk_len(&self) -> (r: usize)
        ensures
            r == self@.chunk_len,
    {
        self.chunk_len
    }
}

proof fn lemma_decimal_is_digits(n: nat)
    ensures
        forall|i: int| 0 <= i < decimal(n).len() ==> '0' <= #[trigger] decimal(n)[i] <= '9',
    decreases n,
{
    if n >= 10 {
        lemma_decimal_is_digits(n / 10);
        let rest = decimal(n / 10);
        assert forall|i: int| 0 <= i < decimal(n).len() implies '0' <= #[trigger] decimal(n)[i]
            <= '9' by {
            if i < rest.len() {
                assert(decimal(n)[i] == rest[i]);
            } else {
                assert(decimal(n)[i] == digit(n % 10));
            }
        }
    }
}

/// The value of a `range` field can stand in a header.
proof fn lemma_range_is_field_text(start: nat, end: nat)
    ensures
        is_field_text(range_text(start, end)),
{
    lemma_decimal_is_digits(start);
    lemma_decimal_is_digits(end);
    reveal_strlit("bytes=");
    reveal_strlit("-");
    let text = range_text(start, end);
    let a = "bytes="@.len() as int;
    let b = a + decimal(start).len();
    let c = b + 1;
    assert forall|i: int| 0 <= i < text.len() implies #[trigger] text[i] == '\t' || (text[i] >= ' '
        && text[i] != '\u{7f}') by {
        if i < a {
            assert(text[i] == "bytes="@[i]);
        } else if i < b {
            assert(text[i] == decimal(start)[i - a]);
        } else if i < c {
            assert(text[i] == '-');
        } else {
            assert(text[i] == decimal(end)[i - c]);
        }
    }
}

proof fn lemma_segment_at(start: nat, length: nat, chunk_len: nat, k: int)
    requires
        chunk_len > 0,
        length <= usize::MAX,
        0 <= k < segments_from(start, length, chunk_len).len(),
    ensures
        ({
            let s = segments_from(start, length, chunk_len)[k];
            &&& s.start == start + k * chunk_len
            &&& s.start < length
            &&& s.end == if start + (k + 1) * chunk_len < length {
                start + (k + 1) * chunk_len - 1
            } else {
                length - 1
            }
        }),
    decreases length + chunk_len - start,
{
    let all = segments_from(start, length, chunk_len);
    if k == 0 {
        assert(0 * chunk_len == 0 && 1 * chunk_len == chunk_len);
    } else {
        let rest = segments_from(start + chunk_len, length, chunk_len);
        assert(all[k] == rest[k - 1]);
        lemma_segment_at(start + chunk_len, length, chunk_len, k - 1);
        assert((k - 1) * chunk_len + chunk_len == k * chunk_len) by (nonlinear_arith);
        assert(k * chunk_len + chunk_len == (k + 1) * chunk_len) by (nonlinear_arith);
    }
}

proof fn lemma_segment_count(start: nat, length: nat, chunk_len: nat)
    requires
        chunk_len > 0,
    ensures
        ({
            let n = segments_from(start, length, chunk_len).len() as int;
            &&& start < length ==> n > 0
            &&& n > 0 ==> start + (n - 1) * chunk_len < length <= start + n * chunk_len
        }),
    decreases length + chunk_len - start,
{
    if start < length {
        let rest = segments_from(start + chunk_len, length, chunk_len);
        lemma_segment_count(start + chunk_len, length, chunk_len);
        let n = segments_from(start, length, chunk_len).len() as int;
        assert(n == rest.len() + 1);
        assert(chunk_len + (n - 1) * chunk_len == n * chunk_len) by (nonlinear_arith);
        assert(chunk_len + (n - 2) * chunk_len == (n - 1) * chunk_len) by (nonlinear_arith);
        if n == 1 {
            assert(0 * chunk_len == 0 && 1 * chunk_len == chunk_len);
        }
    }
}

/// Every byte of the file lies in exactly one segment.
pub proof fn law_segments_cover_once(length: nat, chunk_len: nat, byte: int, k: int)
    requires
        chunk_len > 0,
        length <= usize::MAX,
        0 <= byte < length,
        0 <= k < segments_from(0, length, chunk_len).len(),
    ensures
        ({
            let all = segments_from(0, length, chunk_len);
            let owner = byte / (chunk_len as int);
            &&& 0 <= owner < all.len()
            &&& all[k].start <= byte <= all[k].end <==> k == owner
        }),
{
    let c = chunk_len as int;
    let q = byte / c;
    let n = segments_from(0, length, chunk_len).len() as int;
    lemma_segment_at(0, length, chunk_len, k);
    lemma_segment_count(0, length, chunk_len);
    vstd::arithmetic::div_mod::lemma_fundamental_div_mod(byte, c);
    assert(byte == q * c + byte % c) by (nonlinear_arith)
        requires
            byte == c * q + byte % c,
    ;
    assert(q >= 0) by (nonlinear_arith)
        requires
            byte == q * c + byte % c,
            byte >= 0,
            byte % c < c,
            c > 0,
    ;
    assert(q < n) by (nonlinear_arith)
        requires
            q * c <= byte,
            byte < length,
            length <= n * c,
            c > 0,
    ;
    assert((k + 1) * c == k * c + c) by (nonlinear_arith);
    assert((q + 1) * c == q * c + c) by (nonlinear_arith);
    if k < q {
        assert((k + 1) * c <= q * c) by (nonlinear_arith)
            requires
                k + 1 <= q,
                c > 0,
        ;
    }
    if k > q {
        assert((q + 1) * c <= k * c) by (nonlinear_arith)
            requires
                q + 1 <= k,
                c > 0,
        ;
    }
}

/// The segments go from the first byte of the file to the last, each where the one before
/// ends. None is empty or longer than was chosen, and only the last can be shorter.
pub proof fn law_segments_are_contiguous(length: nat, chunk_len: nat)
    requires
        chunk_len > 0,
        0 < length <= usize::MAX,
    ensures
        ({
            let all = segments_from(0, length, chunk_len);
            &&& all.len() > 0
            &&& all[0].start == 0
            &&& all.last().end == length - 1
            &&& forall|k: int|
                0 < k < all.len() ==> (#[trigger] all[k]).start == all[k - 1].end + 1
            &&& forall|k: int|
                0 <= k < all.len() ==> 1 <= (#[trigger] all[k]).end - all[k].start + 1 <= chunk_len
            &&& forall|k: int|
                0 <= k < all.len() - 1 ==> (#[trigger] all[k]).end - all[k].start + 1 == chunk_len
        }),
{
    let c = chunk_len as int;
    let all = segments_from(0, length, chunk_len);
    let n = all.len() as int;
    lemma_segment_count(0, length, chunk_len);
    lemma_segment_at(0, length, chunk_len, 0);
    lemma_segment_at(0, length, chunk_len, n - 1);
    assert forall|k: int| 0 <= k < n implies {
        &&& 1 <= (#[trigger] all[k]).end - all[k].start + 1 <= chunk_len
        &&& k < n - 1 ==> all[k].end - all[k].start + 1 == chunk_len
    } by {
        lemma_segment_at(0, length, chunk_len, k);
        assert((k + 1) * c == k * c + c) by (nonlinear_arith);
        if k < n - 1 {
            assert((k + 1) * c <= (n - 1) * c) by (nonlinear_arith)
                requires
                    k + 1 <= n - 1,
                    c > 0,
            ;
        }
    }
    assert forall|k: int| 0 < k < n implies (#[trigger] all[k]).start == all[k - 1].end + 1 by {
        lemma_segment_at(0, length, chunk_len, k);
        lemma_segment_at(0, length, chunk_len, k - 1);
        assert(k * c <= (n - 1) * c) by (nonlinear_arith)
            requires
                k <= n - 1,
                c > 0,
        ;
    }
}

/// The bytes of some segments together.
pub open spec fn bytes_in(segments: Seq<Segment>) -> int
    decreases segments.len(),
{
    if segments.len() == 0 {
        0
    } else {
        bytes_in(segments.drop_first()) + (segments[0].end - segments[0].start + 1)
    }
}

proof fn lemma_bytes_from(start: nat, length: nat, chunk_len: nat)
    requires
        chunk_len > 0,
        length <= usize::MAX,
    ensures
        bytes_in(segments_from(start, length, chunk_len)) == if start < length {
            length - start
        } else {
            0
        },
    decreases length + chunk_len - start,
{
    if start < length {
        let all = segments_from(start, length, chunk_len);
        assert(all.drop_first() =~= segments_from(start + chunk_len, length, chunk_len));
        lemma_bytes_from(start + chunk_len, length, chunk_len);
    }
}

/// The segments together are as long as the file.
pub proof fn law_segments_add_up(length: nat, chunk_len: nat)
    requires
        chunk_len > 0,
        length <= usize::MAX,
    ensures
        bytes_in(segments_from(0, length, chunk_len)) == length,
{
    lemma_bytes_from(0, length, chunk_len);
}

/// The request for a segment carries the range, and otherwise what every request carries.
pub proof fn law_other_fields_stay(setup: Setup, segment: Segment, name: Seq<char>)
    ensures
        setup.segment_fields(segment)["range"@] == seq![
            encode_utf8(range_text(segment.start as nat, segment.end as nat)),
        ],
        name != "range"@ ==> {
            &&& setup.segment_fields(segment).contains_key(name) <==> setup.headers.contains_key(
                name,
            )
            &&& setup.segment_fields(segment)[name] == setup.headers[name]
        },
{
}

/// Where a success tells a length, both ways of downloading read the same one.
pub proof fn law_probes_agree(status: u16, fields: Map<Seq<char>, Seq<Seq<u8>>>, length: nat)
    requires
        is_success(status),
        length > 0,
    ensures
        told_length(fields) == Some(length) <==> prepared(status, fields) == Ok::<
            (bool, nat),
            PrepareError,
        >((true, length)),
{
}

/// The length that is told is the number behind the last slash of the content range, if that
/// is a number other than zero.
pub proof fn law_tail_tells_the_length(
    fields: Map<Seq<char>, Seq<Seq<u8>>>,
    head: Seq<char>,
    tail: Seq<char>,
)
    requires
        fields.contains_key("content-range"@),
        !tail.contains('/'),
        spells(fields["content-range"@][0], head + seq!['/'] + tail) || spells(
            fields["content-range"@][0],
            tail,
        ),
    ensures
        match read_number(tail) {
            Ok(n) => if n > 0 {
                told_length(fields) == Some(n)
            } else {
                told_length(fields) is None
            },
            Err(_) => told_length(fields) is None,
        },
{
    let text = head + seq!['/'] + tail;
    law_content_range_is_read(fields, text, 0);
    law_content_range_is_read(fields, tail, 0);
    law_tail_is_behind_the_last(head, tail, '/');
    assert(text =~= head.push('/') + tail);
}

/// Where the content range ends with a slash and a number other than zero, that number is the
/// length that is told.
pub proof fn law_length_is_told(fields: Map<Seq<char>, Seq<Seq<u8>>>, head: Seq<char>, n: nat)
    requires
        0 < n <= usize::MAX,
        fields.contains_key("content-range"@),
        spells(fields["content-range"@][0], head + seq!['/'] + decimal(n)),
    ensures
        told_length(fields) == Some(n),
{
    law_decimal_is_plain(n);
    law_numbers_are_read_back(n);
    assert(!decimal(n).contains('/')) by {
        assert forall|i: int| 0 <= i < decimal(n).len() implies decimal(n)[i] != '/' by {}
    }
    law_tail_tells_the_length(fields, head, decimal(n));
}

/// Nothing is told without a content range, nor by one that is no text.
pub proof fn law_nothing_is_told(fields: Map<Seq<char>, Seq<Seq<u8>>>, bad: int)
    ensures
        !fields.contains_key("content-range"@) ==> told_length(fields) is None,
        ({
            let first = fields["content-range"@][0];
            0 <= bad < first.len() && first[bad] != 9 && !(32 <= first[bad] < 127)
        }) ==> told_length(fields) is None,
{
    law_content_range_is_read(fields, Seq::empty(), bad);
}

/// The request for a segment asks for exactly its bytes: the one value of its `range` field
/// names the first byte and the last, as plain numbers that read back.
pub proof fn law_segment_asks_for_its_bytes(setup: Setup, segment: Segment) -> (r: (
    Seq<char>,
    Seq<char>,
))
    ensures
        setup.segment_fields(segment).contains_key("range"@),
        setup.segment_fields(segment)["range"@].len() == 1,
        setup.segment_fields(segment)["range"@][0] == encode_utf8(
            seq!['b', 'y', 't', 'e', 's', '='] + r.0 + seq!['-'] + r.1,
        ),
        read_number(r.0) == Ok::<nat, NumberError>(segment.start as nat),
        read_number(r.1) == Ok::<nat, NumberError>(segment.end as nat),
        forall|i: int| 0 <= i < r.0.len() ==> '0' <= #[trigger] r.0[i] <= '9',
        forall|i: int| 0 <= i < r.1.len() ==> '0' <= #[trigger] r.1[i] <= '9',
{
    law_range_names_its_ends(segment.start as nat, segment.end as nat)
}

/// Every choice counts. What has not been chosen is made up for: no header fields, as many
/// transfers as the machine can run or eight where it does not tell, three retries and segments
/// of 32 MiB.
pub proof fn law_choices_count(choices: Choices, available: Option<usize>, name: Seq<char>)
    ensures
        ({
            let setup = choices.setup(available);
            &&& setup.url == choices.url
            &&& choices.filename matches Some(f) ==> setup.filename == f
            &&& choices.headers matches Some(h) ==> setup.headers == h
            &&& choices.headers is None ==> !setup.headers.contains_key(name)
            &&& choices.parallel_num matches Some(n) ==> setup.parallel_num == n
            &&& choices.parallel_num is None ==> match available {
                Some(n) => setup.parallel_num == n,
                None => setup.parallel_num == 8,
            }
            &&& choices.max_retries matches Some(n) ==> setup.max_retries == n
            &&& choices.max_retries is None ==> setup.max_retries == 3
            &&& choices.chunk_len matches Some(n) ==> setup.chunk_len == n
            &&& choices.chunk_len is None ==> setup.chunk_len == 32 * 1024 * 1024
        }),
        Choices::only(name).url == name,
        Choices::only(name).filename is None && Choices::only(name).headers is None,
        Choices::only(name).parallel_num is None && Choices::only(name).max_retries is None,
        Choices::only(name).chunk_len is None,
{
}

/// A file without a chosen name is called like what follows the last slash of the URL, or like
/// all of it where there is none.
pub proof fn law_file_is_called_like_the_url(
    choices: Choices,
    available: Option<usize>,
    head: Seq<char>,
    tail: Seq<char>,
)
    requires
        choices.filename is None,
        !tail.contains('/'),
        choices.url == head + seq!['/'] + tail || choices.url == tail,
    ensures
        choices.setup(available).filename == tail,
{
    law_tail_is_behind_the_last(head, tail, '/');
    assert(head + seq!['/'] + tail =~= head.push('/') + tail);
}

/// A download of a told length keeps to it, and goes in one piece from the first only where one
/// transfer at a time was asked for. Without a length it goes in one piece.
pub proof fn law_plan_keeps_the_length(setup: Setup, n: usize)
    ensures
        setup.parallel_num == 1 ==> setup.plan(Some(n)) == Plan::Single(n),
        setup.parallel_num != 1 ==> setup.plan(Some(n)) == Plan::Parallel(n),
        setup.plan(None) == Plan::Single(0),
{
}

/// There are as many transfers as were asked for, unless there is no full segment for one more.
pub proof fn law_no_lane_is_wasted(setup: Setup, length: nat)
    requires
        setup.chunk_len > 0,
    ensures
        setup.lanes(length) < setup.parallel_num ==> (setup.lanes(length) + 1) * setup.chunk_len
            > length,
        setup.parallel_num <= 1 ==> setup.lanes(length) == 1,
{
    let c = setup.chunk_len as int;
    let l = length as int;
    let n = setup.lanes(length) as int;
    vstd::arithmetic::div_mod::lemma_fundamental_div_mod(l, c);
    if n < setup.parallel_num {
        assert((n + 1) * c > l) by (nonlinear_arith)
            requires
                n >= l / c,
                l == c * (l / c) + l % c,
                l % c < c,
                c > 0,
        ;
    }
}

/// There is always a transfer, never more than were asked for, and where there are several
/// the file has a full segment for each.
pub proof fn law_lanes_have_work(setup: Setup, length: nat)
    requires
        setup.chunk_len > 0,
    ensures
        setup.lanes(length) >= 1,
        setup.lanes(length) > 1 ==> {
            &&& setup.lanes(length) <= setup.parallel_num
            &&& setup.lanes(length) * setup.chunk_len <= length
        },
{
    let c = setup.chunk_len as int;
    let l = length as int;
    let n = setup.lanes(length) as int;
    vstd::arithmetic::div_mod::lemma_fundamental_div_mod(l, c);
    if n > 1 {
        assert(n * c <= l) by (nonlinear_arith)
            requires
                n <= l / c,
                l == c * (l / c) + l % c,
                l % c >= 0,
                c > 0,
        ;
    }
}

/// A probing request asks for the first byte and no other.
pub proof fn law_probe_asks_for_the_first_byte()
    ensures
        PROBE_RANGE@ == range_text(0, 0),
{
    reveal_strlit("bytes=0-0");
    reveal_strlit("bytes=");
    reveal_strlit("-");
    assert(PROBE_RANGE@ =~= range_text(0, 0));
}

} // verus!
