//! HTTP header fields: what a header map holds, and the two fields that matter to a
//! download, `range` and `content-range`.

use crate::text::{after_last, parse_number, read_number, tail_after, NumberError};
use reqwest::header::{
    HeaderMap, HeaderValue, InvalidHeaderValue, MaxSizeReached, ToStrError, CONTENT_RANGE, RANGE,
};
use vstd::prelude::*;
use vstd::utf8::encode_utf8;

verus! {

/// The header map of the `http` crate.
#[verifier::external_type_specification]
#[verifier::external_body]
#[verifier::reject_recursive_types(T)]
pub struct ExHeaderMap<T>(HeaderMap<T>);

/// One value in a header map.
#[verifier::external_type_specification]
#[verifier::external_body]
pub struct ExHeaderValue(HeaderValue);

/// The refusal of a text as a header value.
#[verifier::external_type_specification]
#[verifier::external_body]
pub struct ExInvalidHeaderValue(InvalidHeaderValue);

/// The refusal of one more field in a header map that cannot grow.
#[verifier::external_type_specification]
#[verifier::external_body]
pub struct ExMaxSizeReached(MaxSizeReached);

/// The refusal to read a header value as text.
#[verifier::external_type_specification]
#[verifier::external_body]
pub struct ExToStrError(ToStrError);

/// What a header map holds: under each field name, in lower case, the values of that
/// field in their order.
pub uninterp spec fn header_fields(headers: HeaderMap<HeaderValue>) -> Map<Seq<char>, Seq<Seq<u8>>>;

/// Below this number of field names a header map always takes in one more.
pub const FIELD_LIMIT: usize = 6554;

/// The fields of a map that holds none.
pub open spec fn no_fields() -> Map<Seq<char>, Seq<Seq<u8>>> {
    Map::empty()
}

/// True of a map that is sure to have room for one more field name.
pub open spec fn has_room(fields: Map<Seq<char>, Seq<Seq<u8>>>) -> bool {
    fields.dom().finite() && fields.dom().len() < FIELD_LIMIT
}

/// True of a text without control characters other than the tabulator.
pub open spec fn is_field_text(text: Seq<char>) -> bool {
    forall|i: int|
        0 <= i < text.len() ==> #[trigger] text[i] == '\t' || (text[i] >= ' ' && text[i]
            != '\u{7f}')
}

/// True of bytes that are all visible ASCII, space or tabulator.
pub open spec fn is_visible(bytes: Seq<u8>) -> bool {
    forall|i: int| 0 <= i < bytes.len() ==> #[trigger] bytes[i] == 9 || 32 <= bytes[i] < 127
}

/// The characters that ASCII bytes stand for.
pub open spec fn ascii_text(bytes: Seq<u8>) -> Seq<char> {
    Seq::new(bytes.len(), |i: int| bytes[i] as char)
}

/// `HeaderMap::default` makes a map without any field.
#[verifier::external_body]
pub(crate) fn no_headers() -> (r: HeaderMap)
    ensures
        header_fields(r) == no_fields(),
{
    HeaderMap::default()
}

/// `HeaderMap::clone` makes a map with the same fields.
#[verifier::external_body]
pub(crate) fn copy_headers(headers: &HeaderMap) -> (r: HeaderMap)
    ensures
        header_fields(r) == header_fields(*headers),
{
    headers.clone()
}

/// `HeaderValue::try_from` refuses a text with a control character: the outer error.
/// `HeaderMap::try_insert` puts the text under the name `range`, in place of every value
/// that stood there, and leaves the other fields alone. It refuses to where the map would
/// have to grow and cannot: the inner error. That never happens below `FIELD_LIMIT` names.
/// From there on it rests on how the names lie in the map, and is left open. A refusal of
/// either kind changes no field.
#[verifier::external_body]
pub(crate) fn put_range(headers: &mut HeaderMap, text: &str) -> (r: Result<
    Result<(), MaxSizeReached>,
    InvalidHeaderValue,
>)
    ensures
        r is Ok <==> is_field_text(text@),
        r matches Ok(Ok(())) ==> header_fields(*final(headers)) == header_fields(
            *old(headers),
        ).insert("range"@, seq![encode_utf8(text@)]),
        r matches Ok(Err(_)) ==> !has_room(header_fields(*old(headers))),
        !(r matches Ok(Ok(()))) ==> header_fields(*final(headers)) == header_fields(*old(headers)),
{
    let value = HeaderValue::try_from(text.to_string())?;
    Ok(headers.try_insert(RANGE, value).map(|_| ()))
}

/// `HeaderMap::get` gives the first value of the field `content-range`, if there is
/// one, and `HeaderValue::to_str` reads it as text if all of it is visible.
#[verifier::external_body]
pub(crate) fn content_range(headers: &HeaderMap) -> (r: Option<Result<String, ToStrError>>)
    ensures
        r is Some <==> header_fields(*headers).contains_key("content-range"@),
        r matches Some(v) ==> header_fields(*headers)["content-range"@].len() > 0 && {
            let first = header_fields(*headers)["content-range"@][0];
            match v {
                Ok(text) => is_visible(first) && text@ == ascii_text(first),
                Err(_) => !is_visible(first),
            }
        },
{
    headers.get(CONTENT_RANGE).map(|v| v.to_str().map(|s| s.to_string()))
}

/// What the field `content-range` reads, where it is there and all of it is visible.
pub open spec fn content_range_text(fields: Map<Seq<char>, Seq<Seq<u8>>>) -> Option<Seq<char>> {
    if fields.contains_key("content-range"@) && is_visible(fields["content-range"@][0]) {
        Some(ascii_text(fields["content-range"@][0]))
    } else {
        None
    }
}

/// True of bytes that are the visible characters of `text`, one for one.
pub open spec fn spells(bytes: Seq<u8>, text: Seq<char>) -> bool {
    &&& bytes.len() == text.len()
    &&& forall|i: int|
        0 <= i < bytes.len() ==> {
            &&& #[trigger] bytes[i] == 9 || 32 <= bytes[i] < 127
            &&& bytes[i] as char == text[i]
        }
}

/// The content range reads what its first value spells. There is nothing to read without the
/// field, or where that value holds a byte other than a visible one, a space or a tabulator.
pub proof fn law_content_range_is_read(
    fields: Map<Seq<char>, Seq<Seq<u8>>>,
    text: Seq<char>,
    bad: int,
)
    ensures
        !fields.contains_key("content-range"@) ==> content_range_text(fields) is None,
        fields.contains_key("content-range"@) && spells(fields["content-range"@][0], text)
            ==> content_range_text(fields) == Some(text),
        ({
            let first = fields["content-range"@][0];
            0 <= bad < first.len() && first[bad] != 9 && !(32 <= first[bad] < 127)
        }) ==> content_range_text(fields) is None,
{
    let first = fields["content-range"@][0];
    if spells(first, text) {
        assert(ascii_text(first) =~= text);
    }
}

/// The length that a `content-range` text gives behind its last slash.
pub fn range_total(text: &str) -> (r: Result<usize, NumberError>)
    ensures
        match r {
            Ok(n) => read_number(after_last(text@, '/')) == Ok::<nat, NumberError>(n as nat),
            Err(e) => read_number(after_last(text@, '/')) == Err::<nat, NumberError>(e),
        },
{
    parse_number(tail_after(text, '/').as_str())
}

} // verus!
