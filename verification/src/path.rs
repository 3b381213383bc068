//! Path templates.
//!
//! A template is a path whose segments, the pieces between slashes, are
//! either literal text or a placeholder: a name in braces, filling the whole
//! segment. A template is built once from its text and then only read.

use vstd::prelude::*;
use vstd::string::StringExecFns;
use vstd::string::StrSliceExecFns;
use crate::text::{chars_of, join, lemma_split_join, split};

verus! {

/// One segment of a template.
pub enum SegmentView {
    /// Text that stands for itself.
    Literal(Seq<char>),
    /// A place for the value of the path field of this name.
    Placeholder(Seq<char>),
}

/// What a piece of a template is: a placeholder if it is a name in braces,
/// else a literal.
pub open spec fn segment_of(piece: Seq<char>) -> SegmentView {
    if piece.len() >= 2 && piece[0] == '{' && piece.last() == '}' {
        SegmentView::Placeholder(piece.subrange(1, piece.len() - 1))
    } else {
        SegmentView::Literal(piece)
    }
}

/// The segments of a template.
pub open spec fn segments_of(template: Seq<char>) -> Seq<SegmentView> {
    split(template, '/').map_values(|piece: Seq<char>| segment_of(piece))
}

/// Some segment is a placeholder of the given name.
pub open spec fn has_placeholder(segments: Seq<SegmentView>, name: Seq<char>) -> bool {
    exists|i: int|
        0 <= i < segments.len() && #[trigger] segments[i] == SegmentView::Placeholder(name)
}

/// The value given for `name`: that of the first pair of this name.
pub open spec fn value_from(values: Seq<(Seq<char>, Seq<char>)>, name: Seq<char>, from: int) -> Option<
    Seq<char>,
>
    decreases values.len() - from,
{
    if from < 0 || from >= values.len() {
        None
    } else if values[from].0 == name {
        Some(values[from].1)
    } else {
        value_from(values, name, from + 1)
    }
}

/// A placeholder as it is written in a template: the name in braces.
pub open spec fn in_braces(name: Seq<char>) -> Seq<char> {
    seq!['{'] + name + seq!['}']
}

/// What stands in the path for a segment: a literal as it is, a
/// placeholder as the value given for its name, or as it is written if no
/// value is given.
pub open spec fn piece_of(segment: SegmentView, values: Seq<(Seq<char>, Seq<char>)>) -> Seq<char> {
    match segment {
        SegmentView::Literal(text) => text,
        SegmentView::Placeholder(name) => match value_from(values, name, 0) {
            Some(value) => value,
            None => in_braces(name),
        },
    }
}

/// The pieces of the path that a template gives with the values filled
/// in.
pub open spec fn filled(segments: Seq<SegmentView>, values: Seq<(Seq<char>, Seq<char>)>) -> Seq<
    Seq<char>,
> {
    segments.map_values(|segment: SegmentView| piece_of(segment, values))
}

/// The path that a template gives with the values filled in.
pub open spec fn rendered(segments: Seq<SegmentView>, values: Seq<(Seq<char>, Seq<char>)>) -> Seq<
    char,
> {
    join(filled(segments, values), '/')
}

/// The pieces fit the segments one to one, each literal being met by the
/// same text.
pub open spec fn fits(segments: Seq<SegmentView>, pieces: Seq<Seq<char>>) -> bool {
    &&& segments.len() == pieces.len()
    &&& forall|i: int|
        0 <= i < segments.len() ==> match #[trigger] segments[i] {
            SegmentView::Literal(text) => pieces[i] == text,
            SegmentView::Placeholder(_) => true,
        }
}

/// The values that the placeholders take from the pieces, by name, in the
/// order of the template.
pub open spec fn taken(segments: Seq<SegmentView>, pieces: Seq<Seq<char>>) -> Seq<
    (Seq<char>, Seq<char>),
>
    decreases segments.len(),
{
    if segments.len() == 0 || pieces.len() != segments.len() {
        Seq::empty()
    } else {
        let front = taken(segments.drop_last(), pieces.drop_last());
        match segments.last() {
            SegmentView::Literal(_) => front,
            SegmentView::Placeholder(name) => front.push((name, pieces.last())),
        }
    }
}

/// What a template takes from a path: the values of its placeholders if
/// the path fits it, else nothing.
pub open spec fn captured(segments: Seq<SegmentView>, path: Seq<char>) -> Option<
    Seq<(Seq<char>, Seq<char>)>,
> {
    if fits(segments, split(path, '/')) {
        Some(taken(segments, split(path, '/')))
    } else {
        None
    }
}

/// One segment of a template.
#[derive(Clone, Debug, PartialEq, Eq)]
pub enum Segment {
    Literal(String),
    Placeholder(String),
}

impl DeepView for Segment {
    type V = SegmentView;

    open spec fn deep_view(&self) -> SegmentView {
        match self {
            Segment::Literal(text) => SegmentView::Literal(text@),
            Segment::Placeholder(name) => SegmentView::Placeholder(name@),
        }
    }
}

/// A path template, cut into its segments.
#[derive(Clone, Debug, PartialEq, Eq)]
pub struct PathTemplate {
    pub segments: Vec<Segment>,
}

impl View for PathTemplate {
    type V = Seq<SegmentView>;

    open spec fn view(&self) -> Seq<SegmentView> {
        self.segments.deep_view()
    }
}

/// Cuts a path at each slash.
pub fn split_path(text: &str) -> (r: Vec<String>)
    ensures
        r.deep_view() == split(text@, '/'),
{
    let sep = '/';
    let chars = chars_of(text);
    let mut pieces: Vec<String> = Vec::new();
    let mut start: usize = 0;
    let mut i: usize = 0;
    assert(text@.take(0) =~= Seq::empty());
    assert(pieces.deep_view().push(text@.subrange(0, 0)) =~= seq![Seq::<char>::empty()]);
    while i < chars.len()
        invariant
            start <= i <= chars.len(),
            chars@ == text@,
            split(text@.take(i as int), sep) == pieces.deep_view().push(
                text@.subrange(start as int, i as int),
            ),
        decreases chars.len() - i,
    {
        let ghost before = pieces.deep_view();
        let ghost open = text@.subrange(start as int, i as int);
        assert(text@.take(i + 1).drop_last() =~= text@.take(i as int));
        assert(text@.take(i + 1).last() == chars@[i as int]);
        assert(before.push(open).drop_last() =~= before);
        if chars[i] == sep {
            let piece = text.substring_char(start, i).to_owned();
            pieces.push(piece);
            start = i + 1;
            assert(pieces.deep_view() =~= before.push(open));
            assert(text@.subrange(start as int, i + 1) =~= Seq::empty());
        } else {
            assert(text@.subrange(start as int, i + 1) =~= open.push(chars@[i as int]));
        }
        i += 1;
    }
    let ghost before = pieces.deep_view();
    let last = text.substring_char(start, i).to_owned();
    pieces.push(last);
    assert(text@.take(i as int) =~= text@);
    assert(pieces.deep_view() =~= before.push(text@.subrange(start as int, i as int)));
    pieces
}

/// Joins the pieces of a path with a slash between them.
pub fn join_path(pieces: &Vec<String>) -> (r: String)
    ensures
        r@ == join(pieces.deep_view(), '/'),
{
    let sep = "/";
    proof {
        reveal_strlit("/");
    }
    let mut r = String::new();
    let ghost all = pieces.deep_view();
    let mut i: usize = 0;
    assert(all.take(0) =~= Seq::empty());
    while i < pieces.len()
        invariant
            i <= pieces.len(),
            all == pieces.deep_view(),
            sep@.len() == 1,
            r@ == join(all.take(i as int), sep@[0]),
        decreases pieces.len() - i,
    {
        let ghost before = r@;
        assert(all.take(i + 1).drop_last() =~= all.take(i as int));
        assert(all.take(i + 1).last() == pieces[i as int]@);
        if i > 0 {
            r.append(sep);
            assert(sep@ =~= seq![sep@[0]]);
        }
        r.append(pieces[i].as_str());
        proof {
            if i == 0 {
                assert(before =~= Seq::empty());
                assert(all.take(1)[0] == pieces[0]@);
                assert(r@ =~= pieces[0]@);
            }
        }
        i += 1;
    }
    assert(all.take(pieces.len() as int) =~= all);
    r
}

impl PathTemplate {
    /// Cuts a template into its segments.
    pub fn new(template: &str) -> (r: PathTemplate)
        ensures
            r@ == segments_of(template@),
    {
        let pieces = split_path(template);
        let mut segments: Vec<Segment> = Vec::new();
        let mut i: usize = 0;
        let ghost texts = pieces.deep_view();
        while i < pieces.len()
            invariant
                i <= pieces.len(),
                texts == pieces.deep_view(),
                segments.len() == i,
                forall|j: int|
                    0 <= j < i ==> (#[trigger] segments.deep_view()[j]) == segment_of(texts[j]),
            decreases pieces.len() - i,
        {
            let piece = pieces[i].as_str();
            let chars = chars_of(piece);
            let n = chars.len();
            let ghost before = segments.deep_view();
            assert(texts[i as int] == piece@);
            let segment = if n >= 2 && chars[0] == '{' && chars[n - 1] == '}' {
                Segment::Placeholder(piece.substring_char(1, n - 1).to_owned())
            } else {
                Segment::Literal(piece.to_owned())
            };
            segments.push(segment);
            assert(segments.deep_view() =~= before.push(segment_of(texts[i as int])));
            i += 1;
        }
        assert(segments.deep_view() =~= segments_of(template@));
        PathTemplate { segments }
    }

    /// Whether the template has a placeholder of the given name.
    pub fn binds(&self, name: &str) -> (r: bool)
        ensures
            r == has_placeholder(self@, name@),
    {
        let mut i: usize = 0;
        while i < self.segments.len()
            invariant
                i <= self.segments.len(),
                forall|j: int|
                    0 <= j < i ==> (#[trigger] self@[j]) != SegmentView::Placeholder(name@),
            decreases self.segments.len() - i,
        {
            assert(self@[i as int] == self.segments[i as int].deep_view());
            match &self.segments[i] {
                Segment::Placeholder(held) => {
                    if crate::text::same_text(held.as_str(), name) {
                        return true;
                    }
                },
                Segment::Literal(_) => {},
            }
            i += 1;
        }
        false
    }

    /// Fills the values into the placeholders and gives the path. A
    /// placeholder for which there is no value stays as it is written.
    pub fn render(&self, values: &Vec<(String, String)>) -> (r: String)
        ensures
            r@ == rendered(self@, values.deep_view()),
    {
        let mut pieces: Vec<String> = Vec::new();
        let mut i: usize = 0;
        while i < self.segments.len()
            invariant
                i <= self.segments.len(),
                pieces.len() == i,
                forall|j: int|
                    0 <= j < i ==> (#[trigger] pieces.deep_view()[j]) == piece_of(
                        self@[j],
                        values.deep_view(),
                    ),
            decreases self.segments.len() - i,
        {
            let ghost before = pieces.deep_view();
            assert(self@[i as int] == self.segments[i as int].deep_view());
            let piece = match &self.segments[i] {
                Segment::Literal(text) => text.clone(),
                Segment::Placeholder(name) => match lookup(values, name.as_str()) {
                    Some(value) => value,
                    None => {
                        let mut written = String::new();
                        written.append("{");
                        written.append(name.as_str());
                        written.append("}");
                        proof {
                            reveal_strlit("{");
                            reveal_strlit("}");
                            assert(written@ =~= in_braces(name@));
                        }
                        written
                    },
                },
            };
            pieces.push(piece);
            assert(pieces.deep_view() =~= before.push(piece@));
            i += 1;
        }
        assert(pieces.deep_view() =~= filled(self@, values.deep_view()));
        join_path(&pieces)
    }

    /// Takes the values of the placeholders from a path, by name and in
    /// the order of the template, or nothing if the path does not fit.
    pub fn capture(&self, path: &str) -> (r: Option<Vec<(String, String)>>)
        ensures
            match r {
                Some(values) => captured(self@, path@) == Some(values.deep_view()),
                None => captured(self@, path@) is None,
            },
    {
        let pieces = split_path(path);
        if pieces.len() != self.segments.len() {
            return None;
        }
        let ghost texts = pieces.deep_view();
        let mut values: Vec<(String, String)> = Vec::new();
        let mut i: usize = 0;
        assert(values.deep_view() =~= Seq::empty());
        while i < self.segments.len()
            invariant
                i <= self.segments.len(),
                pieces.len() == self.segments.len(),
                texts == pieces.deep_view(),
                texts == split(path@, '/'),
                values.deep_view() == taken(self@.take(i as int), texts.take(i as int)),
                forall|j: int|
                    0 <= j < i ==> match #[trigger] self@[j] {
                        SegmentView::Literal(text) => texts[j] == text,
                        SegmentView::Placeholder(_) => true,
                    },
            decreases self.segments.len() - i,
        {
            let ghost before = values.deep_view();
            assert(self@[i as int] == self.segments[i as int].deep_view());
            assert(texts[i as int] == pieces[i as int]@);
            assert(self@.take(i + 1).drop_last() =~= self@.take(i as int));
            assert(self@.take(i + 1).last() == self@[i as int]);
            assert(texts.take(i + 1).drop_last() =~= texts.take(i as int));
            assert(texts.take(i + 1).last() == texts[i as int]);
            match &self.segments[i] {
                Segment::Literal(text) => {
                    if !crate::text::same_text(text.as_str(), pieces[i].as_str()) {
                        assert(self@[i as int] == SegmentView::Literal(text@));
                        assert(!fits(self@, texts));
                        return None;
                    }
                },
                Segment::Placeholder(name) => {
                    values.push((name.clone(), pieces[i].clone()));
                    assert(values.deep_view() =~= before.push((name@, texts[i as int])));
                },
            }
            i += 1;
        }
        assert(self@.take(self.segments.len() as int) =~= self@);
        assert(texts.take(pieces.len() as int) =~= texts);
        assert(fits(self@, texts));
        Some(values)
    }
}

/// The value of the first pair named `name`.
pub fn lookup(values: &Vec<(String, String)>, name: &str) -> (r: Option<String>)
    ensures
        match r {
            Some(value) => value_from(values.deep_view(), name@, 0) == Some(value@),
            None => value_from(values.deep_view(), name@, 0) is None,
        },
{
    let mut i: usize = 0;
    while i < values.len()
        invariant
            i <= values.len(),
            value_from(values.deep_view(), name@, 0) == value_from(
                values.deep_view(),
                name@,
                i as int,
            ),
        decreases values.len() - i,
    {
        assert(values.deep_view()[i as int] == (values[i as int].0@, values[i as int].1@));
        if crate::text::same_text(values[i].0.as_str(), name) {
            return Some(values[i].1.clone());
        }
        i += 1;
    }
    None
}

/// Capturing undoes rendering: a path rendered from a template fits the
/// template, and each placeholder takes back the piece that was written
/// for it, provided that no piece holds a slash.
pub proof fn lemma_capture_rendered(segments: Seq<SegmentView>, values: Seq<(Seq<char>, Seq<char>)>)
    requires
        segments.len() > 0,
        forall|i: int|
            0 <= i < segments.len() ==> !piece_of(#[trigger] segments[i], values).contains('/'),
    ensures
        captured(segments, rendered(segments, values)) == Some(
            taken(segments, filled(segments, values)),
        ),
{
    let pieces = filled(segments, values);
    assert forall|i: int| 0 <= i < pieces.len() implies !(#[trigger] pieces[i]).contains('/') by {
        assert(pieces[i] == piece_of(segments[i], values));
    }
    lemma_split_join(pieces, '/');
    assert(fits(segments, pieces));
}

} // verus!
