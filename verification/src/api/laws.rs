//! Reading undoes writing.
//!
//! A message written from the values of its fields is read back as the same
//! values, provided that the values can be told apart on the wire: see
//! [`faithful`].

use vstd::prelude::*;
use crate::api::binding::{
    all_suit, binds_all, body_of, claims, first_capture, header_from, header_part, headers_of,
    path_part, path_values_of, query_of, query_part, read, read_field, read_upto, same_name, suits,
    takes_key, unclaimed, written,
};
use crate::api::metadata::{Method, PathsView};
use crate::api::{all_bound, bound, placed, resolved, FieldView, Kind, PlacementView};
use crate::error::DecodingError;
use crate::path::{
    captured, filled, has_placeholder, in_braces, lemma_capture_rendered, piece_of, rendered,
    segment_of, segments_of, taken, value_from, SegmentView,
};
use crate::text::split;
use crate::urlencoded::de::values_for;
use crate::urlencoded::ser::{lemma_values_for_concat, lemma_values_for_field};
use crate::urlencoded::value::ValueView;
use crate::wire::FieldValueView;

verus! {

/// No two fields of the given kind share a name.
pub open spec fn distinct_names(fields: Seq<FieldView>, kind: Kind) -> bool {
    forall|i: int, j: int|
        0 <= i < fields.len() && 0 <= j < fields.len() && i != j && (#[trigger] fields[i]).placement.kind()
            == kind && (#[trigger] fields[j]).placement.kind() == kind ==> fields[i].name
            != fields[j].name
}

/// There is at most one field of the given kind.
pub open spec fn at_most_one(fields: Seq<FieldView>, kind: Kind) -> bool {
    forall|i: int, j: int|
        0 <= i < fields.len() && 0 <= j < fields.len() && (#[trigger] fields[i]).placement.kind()
            == kind && (#[trigger] fields[j]).placement.kind() == kind ==> i == j
}

/// No two header fields travel in the same header.
pub open spec fn distinct_headers(fields: Seq<FieldView>) -> bool {
    forall|i: int, j: int|
        0 <= i < fields.len() && 0 <= j < fields.len() && i != j ==> match (
            (#[trigger] fields[i]).placement,
            (#[trigger] fields[j]).placement,
        ) {
            (PlacementView::Header(a), PlacementView::Header(b)) => !same_name(a, b),
            _ => true,
        }
}

/// The value is in a form that can be read back: a sequence of the query
/// is not empty, since no value is written as no pair, which is read as a
/// missing field; the entries of a query map have keys that no other field
/// takes.
pub open spec fn readable(fields: Seq<FieldView>, value: FieldValueView) -> bool {
    match value {
        FieldValueView::Query(ValueView::Sequence(texts)) => texts.len() >= 1,
        FieldValueView::Entries(entries) => forall|k: int|
            0 <= k < entries.len() ==> !takes_key(fields, (#[trigger] entries[k]).0),
        _ => true,
    }
}

/// The values can be written and told apart on the wire: each suits its
/// field and is in a form that can be read back; the chosen template binds
/// every path field and is the one that the written path is read with; no
/// two query fields and no two path fields share a name, no two header
/// fields a header; and there is at most one query map and one raw body.
pub open spec fn faithful(
    paths: PathsView,
    fields: Seq<FieldView>,
    values: Seq<FieldValueView>,
    template: Seq<char>,
) -> bool {
    let path = rendered(
        segments_of(template),
        path_values_of(fields, values, fields.len() as int),
    );
    &&& all_suit(fields, values)
    &&& binds_all(template, fields)
    &&& forall|i: int| 0 <= i < values.len() ==> readable(fields, #[trigger] values[i])
    &&& distinct_names(fields, Kind::Query)
    &&& distinct_names(fields, Kind::Path)
    &&& distinct_headers(fields)
    &&& at_most_one(fields, Kind::QueryMap)
    &&& at_most_one(fields, Kind::RawBody)
    &&& first_capture(paths, path) == captured(segments_of(template), path)
}

/// A field of a kind is counted among the fields of that kind.
proof fn lemma_placed_one(fields: Seq<FieldView>, kind: Kind, i: int)
    requires
        0 <= i < fields.len(),
        fields[i].placement.kind() == kind,
    ensures
        placed(fields, kind).len() >= 1,
    decreases fields.len(),
{
    assert(fields.last() == fields[fields.len() - 1]);
    if i < fields.len() - 1 {
        assert(fields.drop_last()[i] == fields[i]);
        lemma_placed_one(fields.drop_last(), kind, i);
    }
}

/// Two fields of a kind are both counted among the fields of that kind.
proof fn lemma_placed_two(fields: Seq<FieldView>, kind: Kind, i: int, j: int)
    requires
        0 <= i < j < fields.len(),
        fields[i].placement.kind() == kind,
        fields[j].placement.kind() == kind,
    ensures
        placed(fields, kind).len() >= 2,
    decreases fields.len(),
{
    let front = fields.drop_last();
    assert(fields.last() == fields[fields.len() - 1]);
    assert(front[i] == fields[i]);
    if j < fields.len() - 1 {
        assert(front[j] == fields[j]);
        lemma_placed_two(front, kind, i, j);
    } else {
        lemma_placed_one(front, kind, i);
    }
}

/// Fields that resolve hold at most one query map and at most one raw
/// body: a definition that compiles meets these two conditions of
/// [`faithful`].
pub proof fn lemma_resolved_single(fields: Seq<FieldView>)
    requires
        resolved(fields) is Ok,
    ensures
        at_most_one(fields, Kind::QueryMap),
        at_most_one(fields, Kind::RawBody),
{
    assert forall|i: int, j: int|
        0 <= i < fields.len() && 0 <= j < fields.len() && (#[trigger] fields[i]).placement.kind()
            == Kind::QueryMap && (#[trigger] fields[j]).placement.kind()
            == Kind::QueryMap implies i == j by {
        if i < j {
            lemma_placed_two(fields, Kind::QueryMap, i, j);
        } else if j < i {
            lemma_placed_two(fields, Kind::QueryMap, j, i);
        }
    }
    assert forall|i: int, j: int|
        0 <= i < fields.len() && 0 <= j < fields.len() && (#[trigger] fields[i]).placement.kind()
            == Kind::RawBody && (#[trigger] fields[j]).placement.kind()
            == Kind::RawBody implies i == j by {
        if i < j {
            lemma_placed_two(fields, Kind::RawBody, i, j);
        } else if j < i {
            lemma_placed_two(fields, Kind::RawBody, j, i);
        }
    }
}

/// Each template of a definition that compiles binds every path field: a
/// template picked from the metadata meets this condition of [`faithful`].
pub proof fn lemma_bound_templates_bind(paths: PathsView, fields: Seq<FieldView>, template: Seq<char>)
    requires
        all_bound(paths, fields),
        template.len() > 0,
        paths.unstable == Some(template) || paths.r0 == Some(template) || paths.stable == Some(
            template,
        ),
    ensures
        binds_all(template, fields),
{
    assert forall|i: int|
        0 <= i < fields.len() && (#[trigger] fields[i]).placement.kind()
            == Kind::Path implies has_placeholder(segments_of(template), fields[i].name) by {
        assert(bound(paths, fields[i].name));
    }
}

/// Pairs of which none has the key give no value under it.
proof fn lemma_values_for_none(pairs: Seq<(Seq<char>, Seq<char>)>, key: Seq<char>)
    requires
        forall|k: int| 0 <= k < pairs.len() ==> (#[trigger] pairs[k]).0 != key,
    ensures
        values_for(pairs, key) == Seq::<Seq<char>>::empty(),
    decreases pairs.len(),
{
    if pairs.len() > 0 {
        let front = pairs.drop_last();
        assert forall|k: int| 0 <= k < front.len() implies (#[trigger] front[k]).0 != key by {
            assert(front[k] == pairs[k]);
        }
        lemma_values_for_none(front, key);
        assert(pairs.last() == pairs[pairs.len() - 1]);
    }
}

/// In the written query, the values under the name of a query field are
/// the texts of that field.
proof fn lemma_query_values(fields: Seq<FieldView>, values: Seq<FieldValueView>, n: int, at: int)
    requires
        all_suit(fields, values),
        forall|i: int| 0 <= i < values.len() ==> readable(fields, #[trigger] values[i]),
        distinct_names(fields, Kind::Query),
        0 <= n <= fields.len(),
        0 <= at < fields.len(),
        fields[at].placement.kind() == Kind::Query,
    ensures
        values_for(query_of(fields, values, n), fields[at].name) == if at < n {
            values[at]->Query_0.texts()
        } else {
            Seq::<Seq<char>>::empty()
        },
    decreases n,
{
    let key = fields[at].name;
    if n > 0 {
        let i = n - 1;
        let part = query_part(fields[i], values[i]);
        lemma_query_values(fields, values, i, at);
        lemma_values_for_concat(query_of(fields, values, i), part, key);
        assert(suits(fields[i], values[i]));
        let front = values_for(query_of(fields, values, i), key);
        match (fields[i].placement, values[i]) {
            (PlacementView::Query(_), FieldValueView::Query(v)) => {
                lemma_values_for_field(fields[i].name, v.texts(), key);
                if i == at {
                    assert(front + v.texts() =~= v.texts());
                } else {
                    assert(fields[i].name != key);
                    assert(front + Seq::<Seq<char>>::empty() =~= front);
                }
            },
            (PlacementView::QueryMap, FieldValueView::Entries(entries)) => {
                assert(readable(fields, values[i]));
                assert(claims(fields[at]));
                assert(takes_key(fields, key));
                lemma_values_for_none(entries, key);
                assert(front + Seq::<Seq<char>>::empty() =~= front);
            },
            _ => {
                assert(part =~= Seq::<(Seq<char>, Seq<char>)>::empty());
                assert(front + Seq::<Seq<char>>::empty() =~= front);
            },
        }
    }
}

/// What a query map catches from two runs of pairs is what it catches from
/// each.
proof fn lemma_unclaimed_concat(
    a: Seq<(Seq<char>, Seq<char>)>,
    b: Seq<(Seq<char>, Seq<char>)>,
    fields: Seq<FieldView>,
)
    ensures
        unclaimed(a + b, fields) == unclaimed(a, fields) + unclaimed(b, fields),
    decreases b.len(),
{
    if b.len() == 0 {
        assert(a + b =~= a);
        assert(unclaimed(a, fields) + unclaimed(b, fields) =~= unclaimed(a, fields));
    } else {
        assert((a + b).drop_last() =~= a + b.drop_last());
        assert((a + b).last() == b.last());
        lemma_unclaimed_concat(a, b.drop_last(), fields);
        if !takes_key(fields, b.last().0) {
            assert(unclaimed(a + b, fields) =~= unclaimed(a, fields) + unclaimed(b, fields));
        }
    }
}

/// A query map catches nothing from pairs whose keys are all taken, and
/// everything from pairs of which no key is taken.
proof fn lemma_unclaimed_all(pairs: Seq<(Seq<char>, Seq<char>)>, fields: Seq<FieldView>, taken: bool)
    requires
        forall|k: int| 0 <= k < pairs.len() ==> takes_key(fields, (#[trigger] pairs[k]).0) == taken,
    ensures
        unclaimed(pairs, fields) == if taken {
            Seq::<(Seq<char>, Seq<char>)>::empty()
        } else {
            pairs
        },
    decreases pairs.len(),
{
    if pairs.len() > 0 {
        let front = pairs.drop_last();
        assert forall|k: int| 0 <= k < front.len() implies takes_key(
            fields,
            (#[trigger] front[k]).0,
        ) == taken by {
            assert(front[k] == pairs[k]);
        }
        lemma_unclaimed_all(front, fields, taken);
        assert(pairs.last() == pairs[pairs.len() - 1]);
        if !taken {
            assert(front.push(pairs.last()) =~= pairs);
        }
    } else {
        assert(pairs =~= Seq::<(Seq<char>, Seq<char>)>::empty());
    }
}

/// From the written query, the query map catches its own entries and
/// nothing else.
proof fn lemma_query_caught(fields: Seq<FieldView>, values: Seq<FieldValueView>, n: int, at: int)
    requires
        all_suit(fields, values),
        forall|i: int| 0 <= i < values.len() ==> readable(fields, #[trigger] values[i]),
        at_most_one(fields, Kind::QueryMap),
        0 <= n <= fields.len(),
        0 <= at < fields.len(),
        fields[at].placement.kind() == Kind::QueryMap,
    ensures
        unclaimed(query_of(fields, values, n), fields) == if at < n {
            values[at]->Entries_0
        } else {
            Seq::<(Seq<char>, Seq<char>)>::empty()
        },
    decreases n,
{
    let none = Seq::<(Seq<char>, Seq<char>)>::empty();
    if n > 0 {
        let i = n - 1;
        let part = query_part(fields[i], values[i]);
        lemma_query_caught(fields, values, i, at);
        lemma_unclaimed_concat(query_of(fields, values, i), part, fields);
        assert(suits(fields[i], values[i]));
        let front = unclaimed(query_of(fields, values, i), fields);
        match (fields[i].placement, values[i]) {
            (PlacementView::Query(_), FieldValueView::Query(v)) => {
                assert(claims(fields[i]));
                assert(takes_key(fields, fields[i].name));
                lemma_unclaimed_all(part, fields, true);
                assert(front + none =~= front);
            },
            (PlacementView::QueryMap, FieldValueView::Entries(entries)) => {
                assert(i == at);
                assert(readable(fields, values[i]));
                lemma_unclaimed_all(entries, fields, false);
                assert(none + entries =~= entries);
            },
            _ => {
                assert(part =~= none);
                assert(front + none =~= front);
            },
        }
    }
}

/// The first header of a name among headers and one more is the first
/// among the headers, or else the one more if it has the name.
proof fn lemma_header_from_push(
    headers: Seq<(Seq<char>, Seq<char>)>,
    more: (Seq<char>, Seq<char>),
    name: Seq<char>,
    from: int,
)
    requires
        0 <= from <= headers.len(),
    ensures
        header_from(headers.push(more), name, from) == match header_from(headers, name, from) {
            Some(value) => Some(value),
            None => if same_name(more.0, name) {
                Some(more.1)
            } else {
                None
            },
        },
    decreases headers.len() - from,
{
    let longer = headers.push(more);
    if from < headers.len() {
        assert(longer[from] == headers[from]);
        lemma_header_from_push(headers, more, name, from + 1);
    } else {
        assert(longer[from] == more);
        assert(header_from(longer, name, from + 1) is None);
    }
}

/// Among the written headers, the first of the name of a header field
/// holds the text of that field.
proof fn lemma_header_value(fields: Seq<FieldView>, values: Seq<FieldValueView>, n: int, at: int)
    requires
        all_suit(fields, values),
        distinct_headers(fields),
        0 <= n <= fields.len(),
        0 <= at < fields.len(),
        fields[at].placement is Header,
    ensures
        header_from(headers_of(fields, values, n), fields[at].placement->Header_0, 0) == if at < n {
            Some(values[at]->Text_0)
        } else {
            None
        },
    decreases n,
{
    let name = fields[at].placement->Header_0;
    if n > 0 {
        let i = n - 1;
        let front = headers_of(fields, values, i);
        lemma_header_value(fields, values, i, at);
        assert(suits(fields[i], values[i]));
        match (fields[i].placement, values[i]) {
            (PlacementView::Header(held), FieldValueView::Text(text)) => {
                assert(front + seq![(held, text)] =~= front.push((held, text)));
                lemma_header_from_push(front, (held, text), name, 0);
                if i == at {
                    assert(same_name(name, name));
                } else {
                    assert(!same_name(held, name));
                }
            },
            _ => {
                assert(header_part(fields[i], values[i]) =~= Seq::<
                    (Seq<char>, Seq<char>),
                >::empty());
                assert(front + Seq::<(Seq<char>, Seq<char>)>::empty() =~= front);
            },
        }
    }
}

/// The written body is the value of the raw body field, if there is one.
proof fn lemma_body_value(
    fields: Seq<FieldView>,
    values: Seq<FieldValueView>,
    payload: Seq<u8>,
    n: int,
    at: int,
)
    requires
        all_suit(fields, values),
        at_most_one(fields, Kind::RawBody),
        0 <= at < n <= fields.len(),
        fields[at].placement.kind() == Kind::RawBody,
    ensures
        body_of(fields, values, payload, n) == values[at]->Raw_0,
    decreases n,
{
    let i = n - 1;
    assert(suits(fields[i], values[i]));
    if i != at {
        assert(fields[i].placement.kind() != Kind::RawBody);
        lemma_body_value(fields, values, payload, i, at);
    }
}

/// The first value of a name among pairs and one more is the first among
/// the pairs, or else that of the one more if it has the name.
proof fn lemma_value_from_push(
    pairs: Seq<(Seq<char>, Seq<char>)>,
    more: (Seq<char>, Seq<char>),
    name: Seq<char>,
    from: int,
)
    requires
        0 <= from <= pairs.len(),
    ensures
        value_from(pairs.push(more), name, from) == match value_from(pairs, name, from) {
            Some(value) => Some(value),
            None => if more.0 == name {
                Some(more.1)
            } else {
                None
            },
        },
    decreases pairs.len() - from,
{
    let longer = pairs.push(more);
    if from < pairs.len() {
        assert(longer[from] == pairs[from]);
        lemma_value_from_push(pairs, more, name, from + 1);
    } else {
        assert(longer[from] == more);
        assert(value_from(longer, name, from + 1) is None);
    }
}

/// Among the values written for the path, the value of a name is the text
/// of the path field of that name, and no value holds a slash.
proof fn lemma_path_value(fields: Seq<FieldView>, values: Seq<FieldValueView>, n: int, name: Seq<char>)
    requires
        all_suit(fields, values),
        distinct_names(fields, Kind::Path),
        0 <= n <= fields.len(),
    ensures
        forall|at: int|
            0 <= at < n && (#[trigger] fields[at]).placement.kind() == Kind::Path && fields[at].name
                == name ==> value_from(path_values_of(fields, values, n), name, 0) == Some(
                values[at]->Text_0,
            ),
        value_from(path_values_of(fields, values, n), name, 0) matches Some(text)
            ==> !text.contains('/'),
    decreases n,
{
    if n > 0 {
        let i = n - 1;
        let front = path_values_of(fields, values, i);
        lemma_path_value(fields, values, i, name);
        assert(suits(fields[i], values[i]));
        match (fields[i].placement, values[i]) {
            (PlacementView::Path, FieldValueView::Text(text)) => {
                assert(front + seq![(fields[i].name, text)] =~= front.push((fields[i].name, text)));
                lemma_value_from_push(front, (fields[i].name, text), name, 0);
                assert forall|at: int|
                    0 <= at < n && (#[trigger] fields[at]).placement.kind() == Kind::Path
                        && fields[at].name == name implies value_from(
                    path_values_of(fields, values, n),
                    name,
                    0,
                ) == Some(values[at]->Text_0) by {
                    if at < i {
                        assert(value_from(front, name, 0) == Some(values[at]->Text_0));
                    } else {
                        if value_from(front, name, 0) is Some {
                            lemma_value_source(fields, values, i, name);
                        }
                    }
                }
            },
            _ => {
                assert(path_part(fields[i], values[i]) =~= Seq::<(Seq<char>, Seq<char>)>::empty());
                assert(front + Seq::<(Seq<char>, Seq<char>)>::empty() =~= front);
            },
        }
    }
}

/// A name has a value among the values written for the path only if
/// a path field has that name.
proof fn lemma_value_source(fields: Seq<FieldView>, values: Seq<FieldValueView>, n: int, name: Seq<char>)
    requires
        all_suit(fields, values),
        0 <= n <= fields.len(),
        value_from(path_values_of(fields, values, n), name, 0) is Some,
    ensures
        exists|at: int|
            0 <= at < n && (#[trigger] fields[at]).placement.kind() == Kind::Path && fields[at].name
                == name,
    decreases n,
{
    if n > 0 {
        let i = n - 1;
        let front = path_values_of(fields, values, i);
        assert(suits(fields[i], values[i]));
        match (fields[i].placement, values[i]) {
            (PlacementView::Path, FieldValueView::Text(text)) => {
                assert(front + seq![(fields[i].name, text)] =~= front.push((fields[i].name, text)));
                lemma_value_from_push(front, (fields[i].name, text), name, 0);
                if value_from(front, name, 0) is Some {
                    lemma_value_source(fields, values, i, name);
                    let at = choose|at: int|
                        0 <= at < i && (#[trigger] fields[at]).placement.kind() == Kind::Path
                            && fields[at].name == name;
                    assert(0 <= at < n && fields[at].placement.kind() == Kind::Path);
                } else {
                    assert(fields[i].placement.kind() == Kind::Path && fields[i].name == name);
                }
            },
            _ => {
                assert(path_part(fields[i], values[i]) =~= Seq::<(Seq<char>, Seq<char>)>::empty());
                assert(front + Seq::<(Seq<char>, Seq<char>)>::empty() =~= front);
                lemma_value_source(fields, values, i, name);
                let at = choose|at: int|
                    0 <= at < i && (#[trigger] fields[at]).placement.kind() == Kind::Path
                        && fields[at].name == name;
                assert(0 <= at < n && fields[at].placement.kind() == Kind::Path);
            },
        }
    }
}

/// What the placeholders of a template take from the pieces written for it
/// gives, under the name of a placeholder, the piece written for it.
proof fn lemma_taken_value(
    segments: Seq<SegmentView>,
    values: Seq<(Seq<char>, Seq<char>)>,
    name: Seq<char>,
)
    ensures
        value_from(taken(segments, filled(segments, values)), name, 0) == if has_placeholder(
            segments,
            name,
        ) {
            Some(piece_of(SegmentView::Placeholder(name), values))
        } else {
            None
        },
    decreases segments.len(),
{
    let pieces = filled(segments, values);
    if segments.len() > 0 {
        let front = segments.drop_last();
        assert(pieces.drop_last() =~= filled(front, values));
        lemma_taken_value(front, values, name);
        let before = taken(front, filled(front, values));
        let last = segments.last();
        assert(last == segments[segments.len() - 1]);
        if has_placeholder(front, name) {
            let i = choose|i: int|
                0 <= i < front.len() && #[trigger] front[i] == SegmentView::Placeholder(name);
            assert(segments[i] == SegmentView::Placeholder(name));
        }
        if has_placeholder(segments, name) && !has_placeholder(front, name) {
            let i = choose|i: int|
                0 <= i < segments.len() && #[trigger] segments[i] == SegmentView::Placeholder(name);
            if i < front.len() {
                assert(front[i] == SegmentView::Placeholder(name));
            }
            assert(last == SegmentView::Placeholder(name));
        }
        match last {
            SegmentView::Literal(_) => {},
            SegmentView::Placeholder(held) => {
                assert(pieces.last() == piece_of(last, values));
                lemma_value_from_push(before, (held, pieces.last()), name, 0);
            },
        }
    }
}

/// No piece of a text that was cut at a separator holds the separator.
proof fn lemma_split_pieces_plain(text: Seq<char>, sep: char)
    ensures
        split(text, sep).len() > 0,
        forall|i: int| 0 <= i < split(text, sep).len() ==> !(#[trigger] split(text, sep)[i]).contains(
            sep,
        ),
    decreases text.len(),
{
    if text.len() > 0 {
        let front = split(text.drop_last(), sep);
        lemma_split_pieces_plain(text.drop_last(), sep);
        let pieces = split(text, sep);
        assert forall|i: int| 0 <= i < pieces.len() implies !(#[trigger] pieces[i]).contains(sep) by {
            if i < pieces.len() - 1 {
                assert(pieces[i] == front[i]);
            } else if text.last() != sep {
                let grown = front.last().push(text.last());
                assert(pieces[i] == grown);
                if grown.contains(sep) {
                    let k = choose|k: int| 0 <= k < grown.len() && grown[k] == sep;
                    assert(front.last()[k] == sep);
                }
            }
        }
    }
}

/// No piece written for a template holds a slash, if no value does.
proof fn lemma_pieces_plain(template: Seq<char>, values: Seq<(Seq<char>, Seq<char>)>)
    requires
        forall|name: Seq<char>|
            (#[trigger] value_from(values, name, 0)) is Some ==> !(value_from(
                values,
                name,
                0,
            )->0).contains('/'),
    ensures
        segments_of(template).len() > 0,
        forall|i: int|
            0 <= i < segments_of(template).len() ==> !piece_of(
                #[trigger] segments_of(template)[i],
                values,
            ).contains('/'),
{
    let parts = split(template, '/');
    let segments = segments_of(template);
    lemma_split_pieces_plain(template, '/');
    assert forall|i: int| 0 <= i < segments.len() implies !piece_of(
        #[trigger] segments[i],
        values,
    ).contains('/') by {
        let part = parts[i];
        assert(segments[i] == segment_of(part));
        assert(!part.contains('/'));
        match segments[i] {
            SegmentView::Literal(_) => {},
            SegmentView::Placeholder(name) => {
                match value_from(values, name, 0) {
                    Some(_) => {},
                    None => {
                        let written = in_braces(name);
                        if written.contains('/') {
                            let k = choose|k: int| 0 <= k < written.len() && written[k] == '/';
                            assert(0 < k < written.len() - 1);
                            assert(written[k] == name[k - 1]);
                            assert(part[k] == '/');
                        }
                    },
                }
            },
        }
    }
}

/// Each field of a written message is read back as its value.
proof fn lemma_read_field_written(
    method: Method,
    paths: PathsView,
    fields: Seq<FieldView>,
    values: Seq<FieldValueView>,
    payload: Seq<u8>,
    template: Seq<char>,
    at: int,
)
    requires
        faithful(paths, fields, values, template),
        0 <= at < fields.len(),
    ensures
        written(method, fields, values, payload, template) is Ok,
        read_field(
            paths,
            fields,
            written(method, fields, values, payload, template)->Ok_0,
            fields[at],
        ) == Ok::<FieldValueView, DecodingError>(values[at]),
{
    let n = fields.len() as int;
    let message = written(method, fields, values, payload, template)->Ok_0;
    assert(suits(fields[at], values[at]));
    assert(readable(fields, values[at]));
    match fields[at].placement {
        PlacementView::Body => {},
        PlacementView::RawBody => {
            lemma_body_value(fields, values, payload, n, at);
        },
        PlacementView::QueryMap => {
            lemma_query_caught(fields, values, n, at);
        },
        PlacementView::Query(shape) => {
            lemma_query_values(fields, values, n, at);
            match values[at]->Query_0 {
                ValueView::Scalar(text) => {},
                ValueView::Sequence(texts) => {
                    if texts.len() == 1 {
                        assert(seq![texts[0]] =~= texts);
                    }
                },
            }
        },
        PlacementView::Header(_) => {
            lemma_header_value(fields, values, n, at);
        },
        PlacementView::Path => {
            let name = fields[at].name;
            let segments = segments_of(template);
            let given = path_values_of(fields, values, n);
            assert forall|other: Seq<char>| (#[trigger] value_from(given, other, 0)) is Some implies !(
            value_from(given, other, 0)->0).contains('/') by {
                lemma_path_value(fields, values, n, other);
            }
            lemma_pieces_plain(template, given);
            lemma_capture_rendered(segments, given);
            lemma_path_value(fields, values, n, name);
            assert(has_placeholder(segments, name));
            lemma_taken_value(segments, given, name);
        },
    }
}

/// The first `upto` fields of a written message are read back as their
/// values.
proof fn lemma_read_upto_written(
    method: Method,
    paths: PathsView,
    fields: Seq<FieldView>,
    values: Seq<FieldValueView>,
    payload: Seq<u8>,
    template: Seq<char>,
    upto: int,
)
    requires
        faithful(paths, fields, values, template),
        0 <= upto <= fields.len(),
    ensures
        written(method, fields, values, payload, template) is Ok,
        read_upto(
            paths,
            fields,
            written(method, fields, values, payload, template)->Ok_0,
            upto,
        ) == Ok::<Seq<FieldValueView>, DecodingError>(values.take(upto)),
    decreases upto,
{
    if upto == 0 {
        assert(values.take(0) =~= Seq::<FieldValueView>::empty());
    } else {
        lemma_read_upto_written(method, paths, fields, values, payload, template, upto - 1);
        lemma_read_field_written(method, paths, fields, values, payload, template, upto - 1);
        assert(values.take(upto - 1).push(values[upto - 1]) =~= values.take(upto));
    }
}

/// Reading undoes writing: values that can be written and told apart on
/// the wire are written to a message from which the same values are read.
pub proof fn lemma_read_written(
    method: Method,
    paths: PathsView,
    fields: Seq<FieldView>,
    values: Seq<FieldValueView>,
    payload: Seq<u8>,
    template: Seq<char>,
)
    requires
        faithful(paths, fields, values, template),
    ensures
        written(method, fields, values, payload, template) is Ok,
        read(paths, fields, written(method, fields, values, payload, template)->Ok_0) == Ok::<
            Seq<FieldValueView>,
            DecodingError,
        >(values),
{
    lemma_read_upto_written(method, paths, fields, values, payload, template, fields.len() as int);
    assert(values.take(fields.len() as int) =~= values);
}

} // verus!
