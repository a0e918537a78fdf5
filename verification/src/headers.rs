//! HTTP header names, values and maps, as the `http` crate holds them.
//!
//! Contracts speak of a header value by its bytes, of a header name by its (lower-case) text,
//! and of a header map by the values that it lists under each name.

use http::header::{InvalidHeaderValue, ToStrError};
use http::{HeaderMap, HeaderName, HeaderValue};
use vstd::prelude::*;
use vstd::string::StringSliceAdditionalSpecFns;

verus! {

/// `http::HeaderMap`, opaque.
#[verifier::external_type_specification]
#[verifier::external_body]
#[verifier::reject_recursive_types(T)]
pub struct ExHeaderMap<T>(http::HeaderMap<T>);

/// `http::HeaderName`, opaque.
#[verifier::external_type_specification]
#[verifier::external_body]
pub struct ExHeaderName(http::HeaderName);

/// `http::HeaderValue`, opaque.
#[verifier::external_type_specification]
#[verifier::external_body]
pub struct ExHeaderValue(http::HeaderValue);

/// `http::header::ToStrError`, opaque.
#[verifier::external_type_specification]
#[verifier::external_body]
pub struct ExToStrError(http::header::ToStrError);

/// `http::header::InvalidHeaderValue`, opaque.
#[verifier::external_type_specification]
#[verifier::external_body]
pub struct ExInvalidHeaderValue(http::header::InvalidHeaderValue);

/// The bytes that a header value holds.
pub uninterp spec fn value_bytes(value: HeaderValue) -> Seq<u8>;

/// The text that a header name holds, in lower case.
pub uninterp spec fn name_text(name: HeaderName) -> Seq<char>;

/// The values, each by its bytes, that a header map lists under each name.
pub uninterp spec fn header_fields(map: HeaderMap<HeaderValue>) -> Map<Seq<char>, Seq<Seq<u8>>>;

/// The largest number of names that a header map may hold for an insertion to be certain to
/// succeed.
pub const NAME_LIMIT: usize = 6553;

/// A byte that reads as text in a header value: visible ASCII, a space or a tab.
pub open spec fn is_visible(b: u8) -> bool {
    (32 <= b && b < 127) || b == 9
}

/// A byte that a header value may hold.
pub open spec fn is_value_byte(b: u8) -> bool {
    (32 <= b && b != 127) || b == 9
}

/// All bytes of `s` read as text.
pub open spec fn all_visible(s: Seq<u8>) -> bool {
    forall|i: int| 0 <= i < s.len() ==> is_visible(#[trigger] s[i])
}

/// All bytes of `s` may stand in a header value.
pub open spec fn all_value_bytes(s: Seq<u8>) -> bool {
    forall|i: int| 0 <= i < s.len() ==> is_value_byte(#[trigger] s[i])
}

/// `HeaderValue::to_str`: the value as text, exactly where all of its bytes are visible ASCII,
/// spaces or tabs.
pub assume_specification[ http::HeaderValue::to_str ](value: &HeaderValue) -> (r: Result<
    &str,
    ToStrError,
>)
    ensures
        r is Ok <==> all_visible(value_bytes(*value)),
        r matches Ok(s) ==> s.spec_bytes() == value_bytes(*value),
;

/// `HeaderValue::is_empty`: true exactly where the value holds no byte.
#[verifier::external_body]
pub(crate) fn is_empty_value(value: &HeaderValue) -> (r: bool)
    ensures
        r == (value_bytes(*value).len() == 0),
{
    value.is_empty()
}

/// `HeaderValue::from_bytes`: a value of these bytes, exactly where each of them may stand in a
/// header value.
pub assume_specification[ http::HeaderValue::from_bytes ](src: &[u8]) -> (r: Result<
    HeaderValue,
    InvalidHeaderValue,
>)
    ensures
        r is Ok <==> all_value_bytes(src@),
        r matches Ok(v) ==> value_bytes(v) == src@,
;

/// `HeaderValue::from_static`: a value of this text. It panics on other than visible ASCII,
/// spaces and tabs, which are therefore asked for.
pub assume_specification[ http::HeaderValue::from_static ](src: &'static str) -> (r: HeaderValue)
    requires
        all_visible(src.spec_bytes()),
    ensures
        value_bytes(r) == src.spec_bytes(),
;

/// A text that names a header: lower-case ASCII letters and hyphens, at least one of them.
pub open spec fn is_plain_name(s: Seq<char>) -> bool {
    &&& 0 < s.len() < 65536
    &&& forall|i: int| 0 <= i < s.len() ==> ('a' <= #[trigger] s[i] && s[i] <= 'z') || s[i] == '-'
}

/// `HeaderName::from_static`: the name of this text. It panics on a text that is no lower-case
/// header name, so only plain names are let through.
pub assume_specification[ http::HeaderName::from_static ](src: &'static str) -> (r: HeaderName)
    requires
        is_plain_name(src@),
    ensures
        name_text(r) == src@,
;

/// `HeaderMap::get` by a header name: the first value under the name, if there is any.
#[verifier::external_body]
pub(crate) fn first_value<'a>(map: &'a HeaderMap<HeaderValue>, name: &HeaderName) -> (r: Option<
    &'a HeaderValue,
>)
    ensures
        match r {
            Some(v) => {
                &&& header_fields(*map).contains_key(name_text(*name))
                &&& header_fields(*map)[name_text(*name)].len() > 0
                &&& value_bytes(*v) == header_fields(*map)[name_text(*name)][0]
            },
            None => !header_fields(*map).contains_key(name_text(*name)),
        },
{
    map.get(name)
}

/// `HeaderValue::from_str`: a value of this text, exactly where each of its bytes may stand in a
/// header value.
pub assume_specification[ http::HeaderValue::from_str ](src: &str) -> (r: Result<
    HeaderValue,
    InvalidHeaderValue,
>)
    ensures
        r is Ok <==> all_value_bytes(src.spec_bytes()),
        r matches Ok(v) ==> value_bytes(v) == src.spec_bytes(),
;

/// `HeaderValue::clone`: a value of the same bytes.
pub assume_specification[ <http::HeaderValue as Clone>::clone ](value: &HeaderValue) -> (r:
    HeaderValue)
    ensures
        value_bytes(r) == value_bytes(*value),
;

/// A map without any field.
pub open spec fn no_fields() -> Map<Seq<char>, Seq<Seq<u8>>> {
    Map::empty()
}

/// `HeaderMap::new`: a map without any field.
pub assume_specification[ http::HeaderMap::new ]() -> (r: HeaderMap<HeaderValue>)
    ensures
        header_fields(r) == no_fields(),
;

/// The map holds exactly `n` names.
pub open spec fn has_names(fields: Map<Seq<char>, Seq<Seq<u8>>>, n: int) -> bool {
    fields.dom().finite() && fields.dom().len() == n
}

/// The map holds no more than `n` names.
pub open spec fn at_most(fields: Map<Seq<char>, Seq<Seq<u8>>>, n: int) -> bool {
    fields.dom().finite() && fields.dom().len() <= n
}

/// `HeaderMap::insert`: the value, alone, under the name. It panics on a map that cannot grow any
/// more, which no map does that holds at most `NAME_LIMIT` names.
#[verifier::external_body]
pub(crate) fn insert_value(map: &mut HeaderMap<HeaderValue>, name: HeaderName, value: HeaderValue)
    requires
        at_most(header_fields(*old(map)), NAME_LIMIT as int),
    ensures
        header_fields(*final(map)) == header_fields(*old(map)).insert(
            name_text(name),
            seq![value_bytes(value)],
        ),
{
    map.insert(name, value);
}

/// `HeaderMap::clone`: a map of the same fields.
#[verifier::external_body]
pub(crate) fn clone_headers(map: &HeaderMap<HeaderValue>) -> (r: HeaderMap<HeaderValue>)
    ensures
        header_fields(r) == header_fields(*map),
{
    map.clone()
}

/// `HeaderMap::keys_len`: the number of names in the map.
#[verifier::external_body]
fn name_count(map: &HeaderMap<HeaderValue>) -> (r: usize)
    ensures
        has_names(header_fields(*map), r as int),
{
    map.keys_len()
}

/// Whether a map holds no more than `n` names.
pub fn holds_at_most(map: &HeaderMap<HeaderValue>, n: usize) -> (r: bool)
    ensures
        r == at_most(header_fields(*map), n as int),
{
    name_count(map) <= n
}

/// The values under a name; none where the map does not have it.
pub open spec fn values_of(fields: Map<Seq<char>, Seq<Seq<u8>>>, name: Seq<char>) -> Seq<Seq<u8>> {
    if fields.contains_key(name) {
        fields[name]
    } else {
        Seq::empty()
    }
}

/// The fields of `a` with those of `b` behind them.
pub open spec fn appended(
    a: Map<Seq<char>, Seq<Seq<u8>>>,
    b: Map<Seq<char>, Seq<Seq<u8>>>,
) -> Map<Seq<char>, Seq<Seq<u8>>> {
    Map::new(
        |name: Seq<char>| a.contains_key(name) || b.contains_key(name),
        |name: Seq<char>| values_of(a, name) + values_of(b, name),
    )
}

/// `HeaderMap::extend` with the pairs of `HeaderMap::iter`: under each name, the values of `source`
/// behind those that were there. It panics on a map that cannot grow any more, which no map does
/// that holds at most `NAME_LIMIT` names.
#[verifier::external_body]
pub(crate) fn append_headers(target: &mut HeaderMap<HeaderValue>, source: &HeaderMap<HeaderValue>)
    requires
        at_most(
            appended(header_fields(*old(target)), header_fields(*source)),
            NAME_LIMIT as int,
        ),
    ensures
        header_fields(*final(target)) == appended(
            header_fields(*old(target)),
            header_fields(*source),
        ),
{
    target.extend(source.iter().map(|(name, value)| (name.clone(), value.clone())));
}

/// Appending one map to another makes no names but those of the two.
pub proof fn lemma_appended_size(
    a: Map<Seq<char>, Seq<Seq<u8>>>,
    b: Map<Seq<char>, Seq<Seq<u8>>>,
    m: int,
    n: int,
)
    requires
        at_most(a, m),
        at_most(b, n),
    ensures
        at_most(appended(a, b), m + n),
{
    assert(appended(a, b).dom() =~= a.dom().union(b.dom()));
    vstd::set_lib::lemma_len_union(a.dom(), b.dom());
}

/// Under each name, the appended values stand behind those that were there, and none is lost.
pub proof fn lemma_appended_values(
    a: Map<Seq<char>, Seq<Seq<u8>>>,
    b: Map<Seq<char>, Seq<Seq<u8>>>,
    name: Seq<char>,
)
    ensures
        appended(a, b).contains_key(name) <==> a.contains_key(name) || b.contains_key(name),
        a.contains_key(name) && !b.contains_key(name) ==> appended(a, b)[name] == a[name],
        !a.contains_key(name) && b.contains_key(name) ==> appended(a, b)[name] == b[name],
        a.contains_key(name) && b.contains_key(name) ==> appended(a, b)[name] == a[name] + b[name],
{
    let none = Seq::<Seq<u8>>::empty();
    assert(a[name] + none =~= a[name]);
    assert(none + b[name] =~= b[name]);
}

/// A map holds at most the number of names that it has.
pub proof fn lemma_at_most(map: &HeaderMap<HeaderValue>, n: usize, r: bool)
    requires
        call_ensures(holds_at_most, (map, n), r),
    ensures
        r <==> header_fields(*map).dom().finite() && header_fields(*map).dom().len() <= n,
{
}

} // verus!
