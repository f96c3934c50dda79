//! Form bodies of page requests: MessagePack maps of `field_*` / `var_*` texts.
//!
//! Serving ignores the body of a request; this is for callers that want to
//! interpret form data.

use vstd::prelude::*;
use vstd::slice::slice_to_vec;
use vstd::utf8::*;

use crate::decimal;
use crate::decimal::signed_decimal_text;
use crate::error::ErrorView;
use crate::error::NomadError;
use crate::field_map::FieldMap;
use crate::text;
use crate::text::byte_len;

verus! {

/// Max MessagePack body accepted by [`decode_request_fields`].
pub const MAX_REQUEST_BODY_BYTES: usize = 64 * 1024;

/// Max map entries retained after decode.
pub const MAX_REQUEST_FIELDS: usize = 64;

/// Max UTF-8 bytes for a single map key.
pub const MAX_REQUEST_FIELD_KEY_BYTES: usize = 256;

/// Max UTF-8 bytes for a single map value.
pub const MAX_REQUEST_FIELD_VALUE_BYTES: usize = 4 * 1024;

/// Max MessagePack nesting depth while decoding.
pub const MAX_REQUEST_MSGPACK_DEPTH: usize = 8;

/// A key or value of a form body.
#[derive(Debug)]
pub enum FormScalar {
    /// A string; none where its bytes are not UTF-8.
    Text(Option<String>),
    /// Raw bytes.
    Binary(Vec<u8>),
    Boolean(bool),
    /// An integer; none where it exceeds `i64`.
    Integer(Option<i64>),
    /// A double-precision number, in its shortest decimal form.
    Real(String),
    /// Anything else: nil, a single-precision number, an array, a map, an
    /// extension.
    Other,
}

/// The contents of a [`FormScalar`].
pub enum ScalarView {
    Text(Option<Seq<char>>),
    Binary(Seq<u8>),
    Boolean(bool),
    Integer(Option<i64>),
    Real(Seq<char>),
    Other,
}

impl View for FormScalar {
    type V = ScalarView;

    open spec fn view(&self) -> ScalarView {
        match *self {
            FormScalar::Text(Some(s)) => ScalarView::Text(Some(s@)),
            FormScalar::Text(None) => ScalarView::Text(None),
            FormScalar::Binary(b) => ScalarView::Binary(b@),
            FormScalar::Boolean(b) => ScalarView::Boolean(b),
            FormScalar::Integer(n) => ScalarView::Integer(n),
            FormScalar::Real(s) => ScalarView::Real(s@),
            FormScalar::Other => ScalarView::Other,
        }
    }
}

/// A decoded form body.
#[derive(Debug)]
pub enum FormBody {
    /// A map, its entries in the order they were sent.
    Entries(Vec<(FormScalar, FormScalar)>),
    /// Something that is not a map.
    NotAMap,
    /// Not MessagePack, or nested too deeply.
    Malformed,
}

/// The contents of a [`FormBody`].
pub enum BodyView {
    Entries(Seq<(ScalarView, ScalarView)>),
    NotAMap,
    Malformed,
}

/// The entries, each taken by its contents.
pub open spec fn scalar_views(s: Seq<(FormScalar, FormScalar)>) -> Seq<(ScalarView, ScalarView)> {
    s.map_values(|e: (FormScalar, FormScalar)| (e.0@, e.1@))
}

impl View for FormBody {
    type V = BodyView;

    open spec fn view(&self) -> BodyView {
        match *self {
            FormBody::Entries(entries) => BodyView::Entries(scalar_views(entries@)),
            FormBody::NotAMap => BodyView::NotAMap,
            FormBody::Malformed => BodyView::Malformed,
        }
    }
}

/// Parsed request fields from a Nomad page form submission.
#[derive(Debug)]
pub struct NomadRequestFields {
    /// Original MessagePack (or empty) bytes.
    pub raw: Vec<u8>,
    /// String keys (e.g. `field_*`, `var_*`) mapped to string values.
    ///
    /// Decoding accepts any string→string map entry; prefix filtering is left
    /// to the caller.
    pub fields: FieldMap,
}

impl Default for NomadRequestFields {
    fn default() -> (r: Self)
        ensures
            r.raw@.len() == 0,
            r.fields@ == Map::<Seq<char>, Seq<char>>::empty(),
    {
        NomadRequestFields { raw: Vec::new(), fields: FieldMap::new() }
    }
}

impl Clone for NomadRequestFields {
    fn clone(&self) -> (r: Self)
        ensures
            r.raw@ == self.raw@,
            r.fields@ == self.fields@,
    {
        NomadRequestFields {
            raw: slice_to_vec(self.raw.as_slice()),
            fields: self.fields.clone(),
        }
    }
}

/// What `rmpv::decode::read_value_with_max_depth` makes of the bytes under a
/// nesting limit.
pub uninterp spec fn decoded_body(data: Seq<u8>, max_depth: nat) -> BodyView;

/// `rmpv::decode::read_value_with_max_depth`: reads the first MessagePack value
/// of the bytes, nested no deeper than the limit. What it reads depends on the
/// bytes and the limit alone; the value is taken apart variant by variant,
/// strings by `Utf8String::into_str`, integers by `Integer::as_i64`, doubles by
/// `to_string`. The limit bounds the recursion, so it is kept to that of rmpv's
/// own `read_value`.
#[verifier::external_body]
fn read_body(data: &[u8], max_depth: usize) -> (r: FormBody)
    requires
        max_depth <= 1024,
    ensures
        r@ == decoded_body(data@, max_depth as nat),
{
    let scalar = |v: rmpv::Value| match v {
        rmpv::Value::String(s) => FormScalar::Text(s.into_str()),
        rmpv::Value::Binary(b) => FormScalar::Binary(b),
        rmpv::Value::Boolean(b) => FormScalar::Boolean(b),
        rmpv::Value::Integer(n) => FormScalar::Integer(n.as_i64()),
        rmpv::Value::F64(x) => FormScalar::Real(x.to_string()),
        _ => FormScalar::Other,
    };
    match rmpv::decode::read_value_with_max_depth(&mut &*data, max_depth) {
        Ok(rmpv::Value::Map(map)) => FormBody::Entries(
            map.into_iter().map(|(k, v)| (scalar(k), scalar(v))).collect()),
        Ok(_) => FormBody::NotAMap,
        Err(_) => FormBody::Malformed,
    }
}

/// `String::from_utf8`: the text that the bytes encode, if they are UTF-8.
#[verifier::external_body]
fn text_from_utf8(bytes: Vec<u8>) -> (r: Option<String>)
    ensures
        r is Some <==> valid_utf8(bytes@),
        r matches Some(s) ==> s@ == decode_utf8(bytes@),
{
    String::from_utf8(bytes).ok()
}

/// The text that a key or value stands for, if it stands for one.
pub open spec fn scalar_text(v: ScalarView) -> Option<Seq<char>> {
    match v {
        ScalarView::Text(t) => t,
        ScalarView::Binary(b) => if valid_utf8(b) {
            Some(decode_utf8(b))
        } else {
            None
        },
        ScalarView::Boolean(b) => Some(
            if b {
                "true"@
            } else {
                "false"@
            },
        ),
        ScalarView::Integer(Some(n)) => Some(decimal::signed_decimal(n as int)),
        ScalarView::Integer(None) => None,
        ScalarView::Real(t) => Some(t),
        ScalarView::Other => None,
    }
}

/// The fields with one more entry of the body: taken if both its key and its
/// value stand for a text and neither is too long.
pub open spec fn with_entry(
    fields: Map<Seq<char>, Seq<char>>,
    entry: (ScalarView, ScalarView),
) -> Map<Seq<char>, Seq<char>> {
    match (scalar_text(entry.0), scalar_text(entry.1)) {
        (Some(k), Some(v)) => if text::utf8_len(k) <= MAX_REQUEST_FIELD_KEY_BYTES && text::utf8_len(
            v,
        ) <= MAX_REQUEST_FIELD_VALUE_BYTES {
            fields.insert(k, v)
        } else {
            fields
        },
        _ => fields,
    }
}

/// The fields of the entries; of two entries with one key the later counts.
pub open spec fn gathered(entries: Seq<(ScalarView, ScalarView)>) -> Map<Seq<char>, Seq<char>>
    decreases entries.len(),
{
    if entries.len() == 0 {
        Map::empty()
    } else {
        with_entry(gathered(entries.drop_last()), entries.last())
    }
}

/// The entries that are looked at: the first `MAX_REQUEST_FIELDS`.
pub open spec fn first_entries(entries: Seq<(ScalarView, ScalarView)>) -> Seq<
    (ScalarView, ScalarView),
> {
    if entries.len() <= MAX_REQUEST_FIELDS {
        entries
    } else {
        entries.take(MAX_REQUEST_FIELDS as int)
    }
}

/// The fields of a decoded body: none unless it is a map.
pub open spec fn body_fields(body: BodyView) -> Map<Seq<char>, Seq<char>> {
    match body {
        BodyView::Entries(entries) => gathered(first_entries(entries)),
        _ => Map::empty(),
    }
}

/// The text that a key or value stands for, if it stands for one.
pub fn value_as_string(value: &FormScalar) -> (r: Option<String>)
    ensures
        match r {
            Some(s) => scalar_text(value@) == Some(s@),
            None => scalar_text(value@) is None,
        },
{
    match value {
        FormScalar::Text(Some(s)) => Some(s.clone()),
        FormScalar::Text(None) => None,
        FormScalar::Binary(b) => text_from_utf8(slice_to_vec(b.as_slice())),
        FormScalar::Boolean(b) => Some(
            if *b {
                "true".to_owned()
            } else {
                "false".to_owned()
            },
        ),
        FormScalar::Integer(Some(n)) => Some(signed_decimal_text(*n)),
        FormScalar::Integer(None) => None,
        FormScalar::Real(s) => Some(s.clone()),
        FormScalar::Other => None,
    }
}

/// The fields of a decoded body.
pub fn fields_of_body(body: &FormBody) -> (r: FieldMap)
    ensures
        r@ == body_fields(body@),
{
    let mut fields = FieldMap::new();
    match body {
        FormBody::Entries(entries) => {
            let n: usize = if entries.len() <= MAX_REQUEST_FIELDS {
                entries.len()
            } else {
                MAX_REQUEST_FIELDS
            };
            let ghost all = scalar_views(entries@);
            let mut i: usize = 0;
            while i < n
                invariant
                    i <= n <= entries@.len(),
                    all == scalar_views(entries@),
                    fields@ == gathered(all.take(i as int)),
                decreases n - i,
            {
                proof {
                    assert(all.take(i + 1).drop_last() =~= all.take(i as int));
                    assert(all[i as int] == (entries@[i as int].0@, entries@[i as int].1@));
                }
                match (value_as_string(&entries[i].0), value_as_string(&entries[i].1)) {
                    (Some(k), Some(v)) => if byte_len(k.as_str()) <= MAX_REQUEST_FIELD_KEY_BYTES
                        && byte_len(v.as_str()) <= MAX_REQUEST_FIELD_VALUE_BYTES {
                        fields.insert(k, v);
                    },
                    _ => {},
                }
                i = i + 1;
            }
            assert(all.take(n as int) =~= first_entries(all));
        },
        _ => {},
    }
    fields
}

/// Decode request body bytes into typed fields.
///
/// Accepts a MessagePack map of string→string (canonical NomadNet form data).
/// Non-map or empty input yields an empty field map with `raw` preserved when
/// the body is within [`MAX_REQUEST_BODY_BYTES`]. Oversized bodies return
/// [`NomadError::TooLarge`].
pub fn decode_request_fields(data: &[u8]) -> (r: Result<NomadRequestFields, NomadError>)
    ensures
        match r {
            Err(e) => data@.len() > MAX_REQUEST_BODY_BYTES && e@ == (ErrorView::TooLarge {
                size: data@.len(),
                max: MAX_REQUEST_BODY_BYTES as nat,
            }),
            Ok(parsed) => {
                &&& data@.len() <= MAX_REQUEST_BODY_BYTES
                &&& parsed.raw@ == data@
                &&& parsed.fields@ == if data@.len() == 0 {
                    Map::empty()
                } else {
                    body_fields(decoded_body(data@, MAX_REQUEST_MSGPACK_DEPTH as nat))
                }
            },
        },
{
    if data.len() > MAX_REQUEST_BODY_BYTES {
        return Err(NomadError::TooLarge { size: data.len(), max: MAX_REQUEST_BODY_BYTES });
    }
    let raw = slice_to_vec(data);
    if data.len() == 0 {
        return Ok(NomadRequestFields { raw, fields: FieldMap::new() });
    }
    let body = read_body(data, MAX_REQUEST_MSGPACK_DEPTH);
    Ok(NomadRequestFields { raw, fields: fields_of_body(&body) })
}

proof fn lemma_gathered_is_bounded(entries: Seq<(ScalarView, ScalarView)>)
    ensures
        gathered(entries).dom().finite(),
        gathered(entries).dom().len() <= entries.len(),
        forall|k: Seq<char>| #[trigger]
            gathered(entries).dom().contains(k) ==> text::utf8_len(k) <= MAX_REQUEST_FIELD_KEY_BYTES
                && text::utf8_len(gathered(entries)[k]) <= MAX_REQUEST_FIELD_VALUE_BYTES,
    decreases entries.len(),
{
    if entries.len() > 0 {
        lemma_gathered_is_bounded(entries.drop_last());
    }
}

/// Whatever a body holds, its fields are few and short: no more than
/// `MAX_REQUEST_FIELDS`, no key over `MAX_REQUEST_FIELD_KEY_BYTES`, no value over
/// `MAX_REQUEST_FIELD_VALUE_BYTES`.
pub proof fn law_fields_are_bounded(body: BodyView)
    ensures
        body_fields(body).dom().finite(),
        body_fields(body).dom().len() <= MAX_REQUEST_FIELDS,
        forall|k: Seq<char>| #[trigger]
            body_fields(body).dom().contains(k) ==> text::utf8_len(k)
                <= MAX_REQUEST_FIELD_KEY_BYTES && text::utf8_len(body_fields(body)[k])
                <= MAX_REQUEST_FIELD_VALUE_BYTES,
{
    match body {
        BodyView::Entries(entries) => lemma_gathered_is_bounded(first_entries(entries)),
        _ => {},
    }
}

/// Does the entry stand for the field: both its key and its value for a text, of at
/// most 256 and 4096 bytes?
pub open spec fn is_field(entry: (ScalarView, ScalarView), k: Seq<char>, v: Seq<char>) -> bool {
    &&& scalar_text(entry.0) == Some(k)
    &&& scalar_text(entry.1) == Some(v)
    &&& encode_utf8(k).len() <= 256
    &&& encode_utf8(v).len() <= 4096
}

/// Does the entry stand for a field with the key?
pub open spec fn has_key(entry: (ScalarView, ScalarView), k: Seq<char>) -> bool {
    exists|v: Seq<char>| is_field(entry, k, v)
}

proof fn lemma_gathered_fields(entries: Seq<(ScalarView, ScalarView)>, k: Seq<char>)
    ensures
        gathered(entries).dom().contains(k) <==> exists|i: int|
            0 <= i < entries.len() && has_key(#[trigger] entries[i], k),
        forall|i: int, v: Seq<char>|
            0 <= i < entries.len() && #[trigger] is_field(entries[i], k, v) && (forall|j: int|
                i < j < entries.len() ==> !has_key(#[trigger] entries[j], k)) ==> gathered(
                entries,
            ).dom().contains(k) && gathered(entries)[k] == v,
    decreases entries.len(),
{
    if entries.len() > 0 {
        let before = entries.drop_last();
        let last = entries.last();
        let end = entries.len() - 1;
        assert(entries[end] == last);
        lemma_gathered_fields(before, k);
        assert(has_key(last, k) ==> gathered(entries).dom().contains(k)) by {
            if has_key(last, k) {
                let v = choose|v: Seq<char>| is_field(last, k, v);
                assert(is_field(last, k, v));
            }
        }
        if gathered(entries).dom().contains(k) && !gathered(before).dom().contains(k) {
            let v = scalar_text(last.1)->Some_0;
            assert(is_field(last, k, v));
            assert(has_key(entries[end], k));
        }
        if gathered(before).dom().contains(k) {
            let i = choose|i: int| 0 <= i < before.len() && has_key(#[trigger] before[i], k);
            assert(has_key(entries[i], k));
        }
        if exists|i: int| 0 <= i < entries.len() && has_key(#[trigger] entries[i], k) {
            let i = choose|i: int| 0 <= i < entries.len() && has_key(#[trigger] entries[i], k);
            if i < end {
                assert(has_key(before[i], k));
            }
        }
        assert forall|i: int, v: Seq<char>|
            0 <= i < entries.len() && #[trigger] is_field(entries[i], k, v) && (forall|j: int|
                i < j < entries.len() ==> !has_key(
                    #[trigger] entries[j],
                    k,
                )) implies gathered(entries).dom().contains(k) && gathered(entries)[k] == v by {
            if i < end {
                assert(is_field(before[i], k, v));
                assert forall|j: int| i < j < before.len() implies !has_key(
                    #[trigger] before[j],
                    k,
                ) by {
                    assert(before[j] == entries[j]);
                }
                assert(!has_key(entries[end], k));
                if gathered(entries) != gathered(before) {
                    let key = scalar_text(last.0)->Some_0;
                    let value = scalar_text(last.1)->Some_0;
                    assert(is_field(last, key, value));
                    if key == k {
                        assert(has_key(last, k));
                    }
                }
            }
        }
    }
}

/// Every entry within the limits is kept, and nothing else: among the first 64
/// entries of a map, a key is there exactly if an entry stands for a field with that
/// key, and its value is that of the last such entry.
pub proof fn law_fields_are_those_of_the_entries(
    entries: Seq<(ScalarView, ScalarView)>,
    k: Seq<char>,
)
    ensures
        ({
            let n: int = if entries.len() <= 64 {
                entries.len() as int
            } else {
                64
            };
            let fields = body_fields(BodyView::Entries(entries));
            &&& fields.dom().contains(k) <==> exists|i: int|
                0 <= i < n && has_key(#[trigger] entries[i], k)
            &&& forall|i: int, v: Seq<char>|
                0 <= i < n && #[trigger] is_field(entries[i], k, v) && (forall|j: int|
                    i < j < n ==> !has_key(#[trigger] entries[j], k)) ==> fields.dom().contains(k)
                    && fields[k] == v
        }),
        body_fields(BodyView::NotAMap) == Map::<Seq<char>, Seq<char>>::empty(),
        body_fields(BodyView::Malformed) == Map::<Seq<char>, Seq<char>>::empty(),
{
    let n: int = if entries.len() <= 64 {
        entries.len() as int
    } else {
        64
    };
    let first = first_entries(entries);
    assert(first =~= entries.take(n));
    lemma_gathered_fields(first, k);
    let fields = body_fields(BodyView::Entries(entries));
    if exists|i: int| 0 <= i < n && has_key(#[trigger] entries[i], k) {
        let i = choose|i: int| 0 <= i < n && has_key(#[trigger] entries[i], k);
        assert(has_key(first[i], k));
    }
    if fields.dom().contains(k) {
        let i = choose|i: int| 0 <= i < first.len() && has_key(#[trigger] first[i], k);
        assert(has_key(entries[i], k));
    }
    assert forall|i: int, v: Seq<char>|
        0 <= i < n && #[trigger] is_field(entries[i], k, v) && (forall|j: int|
            i < j < n ==> !has_key(#[trigger] entries[j], k)) implies fields.dom().contains(k)
        && fields[k] == v by {
        assert(is_field(first[i], k, v));
        assert forall|j: int| i < j < first.len() implies !has_key(#[trigger] first[j], k) by {
            assert(first[j] == entries[j]);
        }
    }
}

/// What a key or value stands for: a string for itself, bytes for the text they
/// encode, truth values and integers for their names; what is no text for none.
pub proof fn law_scalars_stand_for_their_texts(t: Seq<char>, b: Seq<u8>, n: i64)
    ensures
        scalar_text(ScalarView::Text(Some(t))) == Some(t),
        scalar_text(ScalarView::Text(None)) is None,
        scalar_text(ScalarView::Binary(encode_utf8(t))) == Some(t),
        scalar_text(ScalarView::Binary(b)) matches Some(s) ==> encode_utf8(s) == b,
        scalar_text(ScalarView::Boolean(true)) == Some("true"@),
        scalar_text(ScalarView::Boolean(false)) == Some("false"@),
        scalar_text(ScalarView::Integer(Some(n))) matches Some(s) && if n >= 0 {
            s == decimal::decimal(n as nat)
        } else {
            s == "-"@ + decimal::decimal((-n) as nat)
        },
        scalar_text(ScalarView::Integer(None)) is None,
        scalar_text(ScalarView::Real(t)) == Some(t),
        scalar_text(ScalarView::Other) is None,
{
    encode_utf8_valid_utf8(t);
    encode_utf8_decode_utf8(t);
    if valid_utf8(b) {
        decode_utf8_encode_utf8(b);
    }
    reveal_strlit("-");
    assert("-"@ =~= seq!['-']);
}

} // verus!
