//! Moving the fields of a message to and from the wire.
//!
//! Writing goes through the fields in declaration order and puts each
//! value where its placement says. Reading is the inverse: it takes each
//! field from its place, and fails with the error of the first field that
//! cannot be read.

use vstd::prelude::*;
use crate::api::metadata::{is_present, opt_text, present, Method, Paths, PathsView};
use crate::api::{FieldDescriptor, FieldView, Kind, Placement, PlacementView};
use crate::error::{DecodingError, EncodingError};
use crate::path::{
    captured, has_placeholder, lookup, rendered, segments_of, value_from, PathTemplate,
};
use crate::text::{chars_of, same_text};
use crate::urlencoded::de::{group_for, is_grouping, lemma_entry_of_grouping, shaped, Deserializer};
use crate::urlencoded::ser::{append_pairs, field_pairs, field_to_pairs};
use crate::wire::{FieldValue, FieldValueView, WireMessage, MessageView};

verus! {

/// The value is of the form that the placement of the field takes. A
/// query value has the shape that the field asks for. A path value fills
/// one segment, so it holds no slash.
pub open spec fn suits(field: FieldView, value: FieldValueView) -> bool {
    match field.placement {
        PlacementView::Body => value is InPayload,
        PlacementView::Query(shape) => value matches FieldValueView::Query(v) && v.shape() == shape,
        PlacementView::QueryMap => value is Entries,
        PlacementView::Path => value matches FieldValueView::Text(text) && !text.contains('/'),
        PlacementView::Header(_) => value is Text,
        PlacementView::RawBody => value is Raw,
    }
}

/// There is one value for each field, and each suits its field.
pub open spec fn all_suit(fields: Seq<FieldView>, values: Seq<FieldValueView>) -> bool {
    &&& fields.len() == values.len()
    &&& forall|i: int| 0 <= i < fields.len() ==> suits(#[trigger] fields[i], values[i])
}

/// What a field adds to the query: a query field one pair for each of its
/// texts under its name, a query map its entries as they are.
pub open spec fn query_part(field: FieldView, value: FieldValueView) -> Seq<(Seq<char>, Seq<char>)> {
    match (field.placement, value) {
        (PlacementView::Query(_), FieldValueView::Query(v)) => field_pairs(field.name, v.texts()),
        (PlacementView::QueryMap, FieldValueView::Entries(entries)) => entries,
        _ => Seq::empty(),
    }
}

/// What a field adds to the headers.
pub open spec fn header_part(field: FieldView, value: FieldValueView) -> Seq<(Seq<char>, Seq<char>)> {
    match (field.placement, value) {
        (PlacementView::Header(name), FieldValueView::Text(text)) => seq![(name, text)],
        _ => Seq::empty(),
    }
}

/// What a field adds to the values that fill the path template.
pub open spec fn path_part(field: FieldView, value: FieldValueView) -> Seq<(Seq<char>, Seq<char>)> {
    match (field.placement, value) {
        (PlacementView::Path, FieldValueView::Text(text)) => seq![(field.name, text)],
        _ => Seq::empty(),
    }
}

/// The query that the first `n` fields give.
pub open spec fn query_of(fields: Seq<FieldView>, values: Seq<FieldValueView>, n: int) -> Seq<
    (Seq<char>, Seq<char>),
>
    decreases n,
{
    if n <= 0 {
        Seq::empty()
    } else {
        query_of(fields, values, n - 1) + query_part(fields[n - 1], values[n - 1])
    }
}

/// The headers that the first `n` fields give.
pub open spec fn headers_of(fields: Seq<FieldView>, values: Seq<FieldValueView>, n: int) -> Seq<
    (Seq<char>, Seq<char>),
>
    decreases n,
{
    if n <= 0 {
        Seq::empty()
    } else {
        headers_of(fields, values, n - 1) + header_part(fields[n - 1], values[n - 1])
    }
}

/// The path values that the first `n` fields give.
pub open spec fn path_values_of(fields: Seq<FieldView>, values: Seq<FieldValueView>, n: int) -> Seq<
    (Seq<char>, Seq<char>),
>
    decreases n,
{
    if n <= 0 {
        Seq::empty()
    } else {
        path_values_of(fields, values, n - 1) + path_part(fields[n - 1], values[n - 1])
    }
}

/// The body that the first `n` fields give: the value of the raw body
/// field if there is one among them, else the payload.
pub open spec fn body_of(
    fields: Seq<FieldView>,
    values: Seq<FieldValueView>,
    payload: Seq<u8>,
    n: int,
) -> Seq<u8>
    decreases n,
{
    if n <= 0 {
        payload
    } else {
        match (fields[n - 1].placement, values[n - 1]) {
            (PlacementView::RawBody, FieldValueView::Raw(bytes)) => bytes,
            _ => body_of(fields, values, payload, n - 1),
        }
    }
}

/// The template has a placeholder for every path field.
pub open spec fn binds_all(template: Seq<char>, fields: Seq<FieldView>) -> bool {
    forall|i: int|
        0 <= i < fields.len() && (#[trigger] fields[i]).placement.kind() == Kind::Path
            ==> has_placeholder(segments_of(template), fields[i].name)
}

/// The message that writing gives. `payload` is the structured payload of
/// the body fields. Writing fails if a value does not suit its field, and
/// else if the template lacks a placeholder for a path field.
pub open spec fn written(
    method: Method,
    fields: Seq<FieldView>,
    values: Seq<FieldValueView>,
    payload: Seq<u8>,
    template: Seq<char>,
) -> Result<MessageView, EncodingError> {
    let n = fields.len() as int;
    if !all_suit(fields, values) {
        Err(EncodingError::Unrepresentable)
    } else if !binds_all(template, fields) {
        Err(EncodingError::UnboundPathField)
    } else {
        Ok(
            MessageView {
                method,
                path: rendered(segments_of(template), path_values_of(fields, values, n)),
                query: query_of(fields, values, n),
                headers: headers_of(fields, values, n),
                body: body_of(fields, values, payload, n),
            },
        )
    }
}

/// Whether the text holds the character.
pub fn has_char(text: &str, c: char) -> (r: bool)
    ensures
        r == text@.contains(c),
{
    let chars = chars_of(text);
    let mut i: usize = 0;
    while i < chars.len()
        invariant
            i <= chars.len(),
            chars@ == text@,
            forall|j: int| 0 <= j < i ==> text@[j] != c,
        decreases chars.len() - i,
    {
        if chars[i] == c {
            assert(text@[i as int] == c);
            return true;
        }
        i += 1;
    }
    false
}

/// A copy of each pair, in order.
pub(crate) fn duplicate_pairs(pairs: &Vec<(String, String)>) -> (r: Vec<(String, String)>)
    ensures
        r.deep_view() == pairs.deep_view(),
{
    let mut r: Vec<(String, String)> = Vec::new();
    let mut i: usize = 0;
    while i < pairs.len()
        invariant
            i <= pairs.len(),
            r.len() == i,
            forall|j: int| 0 <= j < i ==> (#[trigger] r.deep_view()[j]) == pairs.deep_view()[j],
        decreases pairs.len() - i,
    {
        let ghost before = r.deep_view();
        r.push((pairs[i].0.clone(), pairs[i].1.clone()));
        assert(r.deep_view() =~= before.push((pairs[i as int].0@, pairs[i as int].1@)));
        i += 1;
    }
    assert(r.deep_view() =~= pairs.deep_view());
    r
}

/// A copy of the bytes.
pub(crate) fn duplicate_bytes(bytes: &Vec<u8>) -> (r: Vec<u8>)
    ensures
        r@ == bytes@,
{
    let mut r: Vec<u8> = Vec::new();
    let mut i: usize = 0;
    while i < bytes.len()
        invariant
            i <= bytes.len(),
            r@ == bytes@.take(i as int),
        decreases bytes.len() - i,
    {
        r.push(bytes[i]);
        assert(bytes@.take(i + 1) =~= bytes@.take(i as int).push(bytes[i as int]));
        i += 1;
    }
    assert(bytes@.take(bytes.len() as int) =~= bytes@);
    r
}

/// Writes the values of the fields into a message.
pub fn write_fields(
    method: Method,
    fields: &Vec<FieldDescriptor>,
    values: &Vec<FieldValue>,
    payload: Vec<u8>,
    template: &str,
) -> (r: Result<WireMessage, EncodingError>)
    ensures
        match r {
            Ok(message) => written(
                method,
                fields.deep_view(),
                values.deep_view(),
                payload@,
                template@,
            ) == Ok::<MessageView, EncodingError>(message@),
            Err(e) => written(method, fields.deep_view(), values.deep_view(), payload@, template@)
                == Err::<MessageView, EncodingError>(e),
        },
{
    let ghost fs = fields.deep_view();
    let ghost vs = values.deep_view();
    if values.len() != fields.len() {
        return Err(EncodingError::Unrepresentable);
    }
    let mut query: Vec<(String, String)> = Vec::new();
    let mut headers: Vec<(String, String)> = Vec::new();
    let mut path_values: Vec<(String, String)> = Vec::new();
    let mut body = payload;
    let mut i: usize = 0;
    assert(query.deep_view() =~= Seq::empty());
    assert(headers.deep_view() =~= Seq::empty());
    assert(path_values.deep_view() =~= Seq::empty());
    while i < fields.len()
        invariant
            i <= fields.len(),
            fs == fields.deep_view(),
            vs == values.deep_view(),
            fields.len() == values.len(),
            forall|j: int| 0 <= j < i ==> suits(#[trigger] fs[j], vs[j]),
            query.deep_view() == query_of(fs, vs, i as int),
            headers.deep_view() == headers_of(fs, vs, i as int),
            path_values.deep_view() == path_values_of(fs, vs, i as int),
            body@ == body_of(fs, vs, payload@, i as int),
        decreases fields.len() - i,
    {
        let field = &fields[i];
        let value = &values[i];
        assert(fs[i as int] == field@);
        assert(vs[i as int] == value@);
        let ghost q = query.deep_view();
        let ghost h = headers.deep_view();
        let ghost p = path_values.deep_view();
        let ok = match &field.placement {
            Placement::Body => match value {
                FieldValue::InPayload => true,
                _ => false,
            },
            Placement::Query(shape) => match value {
                FieldValue::Query(v) => {
                    if v.shape() == *shape {
                        append_pairs(&mut query, field_to_pairs(field.name.as_str(), v));
                        true
                    } else {
                        false
                    }
                },
                _ => false,
            },
            Placement::QueryMap => match value {
                FieldValue::Entries(entries) => {
                    append_pairs(&mut query, duplicate_pairs(entries));
                    true
                },
                _ => false,
            },
            Placement::Path => match value {
                FieldValue::Text(text) => {
                    if has_char(text.as_str(), '/') {
                        false
                    } else {
                        path_values.push((field.name.clone(), text.clone()));
                        assert(path_values.deep_view() =~= p + seq![(field.name@, text@)]);
                        true
                    }
                },
                _ => false,
            },
            Placement::Header(name) => match value {
                FieldValue::Text(text) => {
                    headers.push((name.clone(), text.clone()));
                    assert(headers.deep_view() =~= h + seq![(name@, text@)]);
                    true
                },
                _ => false,
            },
            Placement::RawBody => match value {
                FieldValue::Raw(bytes) => {
                    body = duplicate_bytes(bytes);
                    true
                },
                _ => false,
            },
        };
        if !ok {
            assert(!suits(fs[i as int], vs[i as int]));
            return Err(EncodingError::Unrepresentable);
        }
        assert(query.deep_view() =~= q + query_part(fs[i as int], vs[i as int]));
        assert(headers.deep_view() =~= h + header_part(fs[i as int], vs[i as int]));
        assert(path_values.deep_view() =~= p + path_part(fs[i as int], vs[i as int]));
        i += 1;
    }
    assert(all_suit(fs, vs));
    let parsed = PathTemplate::new(template);
    let mut k: usize = 0;
    while k < fields.len()
        invariant
            k <= fields.len(),
            fs == fields.deep_view(),
            vs == values.deep_view(),
            all_suit(fs, vs),
            parsed@ == segments_of(template@),
            forall|j: int|
                0 <= j < k && (#[trigger] fs[j]).placement.kind() == Kind::Path ==> has_placeholder(
                    segments_of(template@),
                    fs[j].name,
                ),
        decreases fields.len() - k,
    {
        assert(fs[k as int] == fields[k as int]@);
        if fields[k].placement.kind() == Kind::Path && !parsed.binds(fields[k].name.as_str()) {
            assert(!binds_all(template@, fs));
            return Err(EncodingError::UnboundPathField);
        }
        k += 1;
    }
    assert(binds_all(template@, fs));
    let path = parsed.render(&path_values);
    Ok(WireMessage { method, path, query, headers, body })
}

/// What the path gives for the placeholders of the endpoint's templates:
/// the values taken by the first template that is present and that the
/// path fits, trying the stable one first, then r0, then the unstable one.
pub open spec fn first_capture(paths: PathsView, path: Seq<char>) -> Option<
    Seq<(Seq<char>, Seq<char>)>,
> {
    if present(paths.stable) && captured(segments_of(paths.stable->0), path) is Some {
        captured(segments_of(paths.stable->0), path)
    } else if present(paths.r0) && captured(segments_of(paths.r0->0), path) is Some {
        captured(segments_of(paths.r0->0), path)
    } else if present(paths.unstable) && captured(segments_of(paths.unstable->0), path) is Some {
        captured(segments_of(paths.unstable->0), path)
    } else {
        None
    }
}

/// The code of a character, with the upper-case ASCII letters taken as
/// their lower-case forms.
pub open spec fn lower(c: char) -> u32 {
    if 65 <= c as u32 <= 90 {
        (c as u32 + 32) as u32
    } else {
        c as u32
    }
}

/// Two header names are the same: equal but for the case of ASCII letters.
pub open spec fn same_name(a: Seq<char>, b: Seq<char>) -> bool {
    &&& a.len() == b.len()
    &&& forall|i: int| 0 <= i < a.len() ==> lower(#[trigger] a[i]) == lower(b[i])
}

/// The value of the first header from `from` on that has the given name.
pub open spec fn header_from(headers: Seq<(Seq<char>, Seq<char>)>, name: Seq<char>, from: int) -> Option<
    Seq<char>,
>
    decreases headers.len() - from,
{
    if from < 0 || from >= headers.len() {
        None
    } else if same_name(headers[from].0, name) {
        Some(headers[from].1)
    } else {
        header_from(headers, name, from + 1)
    }
}

/// The key is the name of a query field or of a path field.
pub open spec fn takes_key(fields: Seq<FieldView>, key: Seq<char>) -> bool {
    exists|i: int|
        0 <= i < fields.len() && claims(#[trigger] fields[i]) && fields[i].name == key
}

/// The field takes the query key of its name for itself.
pub open spec fn claims(field: FieldView) -> bool {
    field.placement.kind() == Kind::Query || field.placement.kind() == Kind::Path
}

/// The pairs of the query whose key no query field and no path field
/// takes, in order: what a query map catches.
pub open spec fn unclaimed(query: Seq<(Seq<char>, Seq<char>)>, fields: Seq<FieldView>) -> Seq<
    (Seq<char>, Seq<char>),
>
    decreases query.len(),
{
    if query.len() == 0 {
        Seq::empty()
    } else if takes_key(fields, query.last().0) {
        unclaimed(query.drop_last(), fields)
    } else {
        unclaimed(query.drop_last(), fields).push(query.last())
    }
}

/// What reading one field from a message gives. A path field is missing
/// if the path fits no template or the fitting template has no placeholder
/// of its name; a query field if the query has no pair of its name; a
/// header field if no header has its name. A query field is read as the
/// codec reads a field of its name and shape from the pairs of the query:
/// a key given more than once is a structural mismatch for a scalar.
pub open spec fn read_field(
    paths: PathsView,
    fields: Seq<FieldView>,
    message: MessageView,
    field: FieldView,
) -> Result<FieldValueView, DecodingError> {
    match field.placement {
        PlacementView::Body => Ok(FieldValueView::InPayload),
        PlacementView::RawBody => Ok(FieldValueView::Raw(message.body)),
        PlacementView::QueryMap => Ok(FieldValueView::Entries(unclaimed(message.query, fields))),
        PlacementView::Query(shape) => match shaped(group_for(message.query, field.name), shape) {
            Ok(value) => Ok(FieldValueView::Query(value)),
            Err(e) => Err(e),
        },
        PlacementView::Header(name) => match header_from(message.headers, name, 0) {
            Some(text) => Ok(FieldValueView::Text(text)),
            None => Err(DecodingError::MissingField),
        },
        PlacementView::Path => match first_capture(paths, message.path) {
            None => Err(DecodingError::MissingField),
            Some(taken) => match value_from(taken, field.name, 0) {
                Some(text) => Ok(FieldValueView::Text(text)),
                None => Err(DecodingError::MissingField),
            },
        },
    }
}

/// What reading the first `n` fields gives: their values in declaration
/// order, or the error of the first field that cannot be read.
pub open spec fn read_upto(paths: PathsView, fields: Seq<FieldView>, message: MessageView, n: int) -> Result<
    Seq<FieldValueView>,
    DecodingError,
>
    decreases n,
{
    if n <= 0 {
        Ok(Seq::empty())
    } else {
        match read_upto(paths, fields, message, n - 1) {
            Err(e) => Err(e),
            Ok(values) => match read_field(paths, fields, message, fields[n - 1]) {
                Err(e) => Err(e),
                Ok(value) => Ok(values.push(value)),
            },
        }
    }
}

/// What reading a message gives.
pub open spec fn read(paths: PathsView, fields: Seq<FieldView>, message: MessageView) -> Result<
    Seq<FieldValueView>,
    DecodingError,
> {
    read_upto(paths, fields, message, fields.len() as int)
}

/// Once a field cannot be read, reading fails with its error, whatever
/// fields follow.
proof fn lemma_read_fails(
    paths: PathsView,
    fields: Seq<FieldView>,
    message: MessageView,
    upto: int,
    n: int,
)
    requires
        0 <= upto <= n,
        read_upto(paths, fields, message, upto) is Err,
    ensures
        read_upto(paths, fields, message, n) == read_upto(paths, fields, message, upto),
    decreases n - upto,
{
    if upto < n {
        lemma_read_fails(paths, fields, message, upto, n - 1);
    }
}

/// Whether two header names are the same but for the case of ASCII letters.
pub fn same_header(a: &str, b: &str) -> (r: bool)
    ensures
        r == same_name(a@, b@),
{
    let x = chars_of(a);
    let y = chars_of(b);
    if x.len() != y.len() {
        return false;
    }
    let mut i: usize = 0;
    while i < x.len()
        invariant
            i <= x.len(),
            x.len() == y.len(),
            x@ == a@,
            y@ == b@,
            forall|j: int| 0 <= j < i ==> lower(#[trigger] a@[j]) == lower(b@[j]),
        decreases x.len() - i,
    {
        if lower_code(x[i]) != lower_code(y[i]) {
            assert(lower(a@[i as int]) != lower(b@[i as int]));
            return false;
        }
        i += 1;
    }
    true
}

/// The code of a character, upper-case ASCII letters lowered.
fn lower_code(c: char) -> (r: u32)
    ensures
        r == lower(c),
{
    let code: u32 = c as u32;
    if 65 <= code && code <= 90 {
        code + 32
    } else {
        code
    }
}

/// The value of the first header of the given name.
pub fn header_value(headers: &Vec<(String, String)>, name: &str) -> (r: Option<String>)
    ensures
        match r {
            Some(value) => header_from(headers.deep_view(), name@, 0) == Some(value@),
            None => header_from(headers.deep_view(), name@, 0) is None,
        },
{
    let mut i: usize = 0;
    while i < headers.len()
        invariant
            i <= headers.len(),
            header_from(headers.deep_view(), name@, 0) == header_from(
                headers.deep_view(),
                name@,
                i as int,
            ),
        decreases headers.len() - i,
    {
        assert(headers.deep_view()[i as int] == (headers[i as int].0@, headers[i as int].1@));
        if same_header(headers[i].0.as_str(), name) {
            return Some(headers[i].1.clone());
        }
        i += 1;
    }
    None
}

/// Whether the key is the name of a query field or of a path field.
pub fn is_claimed(fields: &Vec<FieldDescriptor>, key: &str) -> (r: bool)
    ensures
        r == takes_key(fields.deep_view(), key@),
{
    let mut i: usize = 0;
    while i < fields.len()
        invariant
            i <= fields.len(),
            forall|j: int|
                0 <= j < i ==> !(claims(#[trigger] fields.deep_view()[j])
                    && fields.deep_view()[j].name == key@),
        decreases fields.len() - i,
    {
        assert(fields.deep_view()[i as int] == fields[i as int]@);
        let kind = fields[i].placement.kind();
        if (kind == Kind::Query || kind == Kind::Path) && same_text(fields[i].name.as_str(), key) {
            return true;
        }
        i += 1;
    }
    false
}

/// The pairs of the query whose key no query field and no path field
/// takes.
pub fn catch_all(query: &Vec<(String, String)>, fields: &Vec<FieldDescriptor>) -> (r: Vec<
    (String, String),
>)
    ensures
        r.deep_view() == unclaimed(query.deep_view(), fields.deep_view()),
{
    let mut r: Vec<(String, String)> = Vec::new();
    let ghost all = query.deep_view();
    let mut i: usize = 0;
    assert(all.take(0) =~= Seq::empty());
    assert(r.deep_view() =~= Seq::empty());
    while i < query.len()
        invariant
            i <= query.len(),
            all == query.deep_view(),
            r.deep_view() == unclaimed(all.take(i as int), fields.deep_view()),
        decreases query.len() - i,
    {
        let ghost before = r.deep_view();
        assert(all[i as int] == (query[i as int].0@, query[i as int].1@));
        assert(all.take(i + 1).drop_last() =~= all.take(i as int));
        assert(all.take(i + 1).last() == all[i as int]);
        if !is_claimed(fields, query[i].0.as_str()) {
            r.push((query[i].0.clone(), query[i].1.clone()));
            assert(r.deep_view() =~= before.push(all[i as int]));
        }
        i += 1;
    }
    assert(all.take(query.len() as int) =~= all);
    r
}

/// What a template takes from the path, if the template is present and
/// the path fits it.
fn capture_with(template: &Option<String>, path: &str) -> (r: Option<Vec<(String, String)>>)
    ensures
        match r {
            Some(taken) => present(opt_text(*template)) && captured(
                segments_of(opt_text(*template)->0),
                path@,
            ) == Some(taken.deep_view()),
            None => !(present(opt_text(*template)) && captured(
                segments_of(opt_text(*template)->0),
                path@,
            ) is Some),
        },
{
    if !is_present(template) {
        return None;
    }
    match template {
        Some(text) => PathTemplate::new(text.as_str()).capture(path),
        None => None,
    }
}

/// What the path gives for the placeholders of the endpoint's templates.
pub fn capture_first(paths: &Paths, path: &str) -> (r: Option<Vec<(String, String)>>)
    ensures
        match r {
            Some(taken) => first_capture(paths@, path@) == Some(taken.deep_view()),
            None => first_capture(paths@, path@) is None,
        },
{
    match capture_with(&paths.stable, path) {
        Some(taken) => Some(taken),
        None => match capture_with(&paths.r0, path) {
            Some(taken) => Some(taken),
            None => capture_with(&paths.unstable, path),
        },
    }
}

/// Reads the values of the fields from a message.
pub fn read_fields(paths: &Paths, fields: &Vec<FieldDescriptor>, message: &WireMessage) -> (r: Result<
    Vec<FieldValue>,
    DecodingError,
>)
    ensures
        match r {
            Ok(values) => read(paths@, fields.deep_view(), message@) == Ok::<
                Seq<FieldValueView>,
                DecodingError,
            >(values.deep_view()),
            Err(e) => read(paths@, fields.deep_view(), message@) == Err::<
                Seq<FieldValueView>,
                DecodingError,
            >(e),
        },
{
    let ghost fs = fields.deep_view();
    let groups = Deserializer::new(duplicate_pairs(&message.query));
    let taken = capture_first(paths, message.path.as_str());
    let mut values: Vec<FieldValue> = Vec::new();
    let mut i: usize = 0;
    assert(values.deep_view() =~= Seq::empty());
    while i < fields.len()
        invariant
            i <= fields.len(),
            fs == fields.deep_view(),
            is_grouping(groups@, message@.query),
            match taken {
                Some(t) => first_capture(paths@, message@.path) == Some(t.deep_view()),
                None => first_capture(paths@, message@.path) is None,
            },
            read_upto(paths@, fs, message@, i as int) == Ok::<Seq<FieldValueView>, DecodingError>(
                values.deep_view(),
            ),
        decreases fields.len() - i,
    {
        let field = &fields[i];
        let ghost before = values.deep_view();
        assert(fs[i as int] == field@);
        let value = match &field.placement {
            Placement::Body => Ok(FieldValue::InPayload),
            Placement::RawBody => Ok(FieldValue::Raw(duplicate_bytes(&message.body))),
            Placement::QueryMap => Ok(FieldValue::Entries(catch_all(&message.query, fields))),
            Placement::Query(shape) => {
                proof {
                    lemma_entry_of_grouping(groups@, message@.query, field.name@);
                }
                match groups.deserialize_field(field.name.as_str(), *shape) {
                    Ok(value) => Ok(FieldValue::Query(value)),
                    Err(e) => Err(e),
                }
            },
            Placement::Header(name) => match header_value(&message.headers, name.as_str()) {
                Some(text) => Ok(FieldValue::Text(text)),
                None => Err(DecodingError::MissingField),
            },
            Placement::Path => match &taken {
                None => Err(DecodingError::MissingField),
                Some(t) => match lookup(t, field.name.as_str()) {
                    Some(text) => Ok(FieldValue::Text(text)),
                    None => Err(DecodingError::MissingField),
                },
            },
        };
        match value {
            Err(e) => {
                proof {
                    assert(read_field(paths@, fs, message@, fs[i as int]) == Err::<
                        FieldValueView,
                        DecodingError,
                    >(e));
                    lemma_read_fails(paths@, fs, message@, i + 1, fs.len() as int);
                }
                return Err(e);
            },
            Ok(v) => {
                assert(read_field(paths@, fs, message@, fs[i as int]) == Ok::<
                    FieldValueView,
                    DecodingError,
                >(v@));
                values.push(v);
                assert(values.deep_view() =~= before.push(v@));
            },
        }
        i += 1;
    }
    Ok(values)
}

} // verus!
