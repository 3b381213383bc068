//! Typed values as the codec sees them: scalars and sequences of scalars.

use vstd::prelude::*;
use crate::urlencoded::de::Part;

verus! {

/// The shape that a target asks of a field.
#[derive(Clone, Copy, Debug, PartialEq, Eq, Structural)]
pub enum Shape {
    /// One value.
    Scalar,
    /// Any number of values, in order.
    Sequence,
}

/// A field of a target struct: the key it is read from and its shape.
#[derive(Clone, Debug, PartialEq, Eq)]
pub struct Field {
    pub name: String,
    pub shape: Shape,
}

impl DeepView for Field {
    type V = (Seq<char>, Shape);

    open spec fn deep_view(&self) -> (Seq<char>, Shape) {
        (self.name@, self.shape)
    }
}

/// The text of a field's value.
pub enum ValueView {
    Scalar(Seq<char>),
    Sequence(Seq<Seq<char>>),
}

impl ValueView {
    /// The shape of the value.
    pub open spec fn shape(self) -> Shape {
        match self {
            ValueView::Scalar(_) => Shape::Scalar,
            ValueView::Sequence(_) => Shape::Sequence,
        }
    }

    /// The texts that the value is written as, one for each pair.
    pub open spec fn texts(self) -> Seq<Seq<char>> {
        match self {
            ValueView::Scalar(v) => seq![v],
            ValueView::Sequence(vs) => vs,
        }
    }
}

/// The value of a field: a scalar or a homogeneous sequence of scalars.
#[derive(Clone, Debug, PartialEq, Eq)]
pub enum Value {
    Scalar(Part),
    Sequence(Vec<Part>),
}

impl View for Value {
    type V = ValueView;

    open spec fn view(&self) -> ValueView {
        match self {
            Value::Scalar(v) => ValueView::Scalar(v@),
            Value::Sequence(vs) => ValueView::Sequence(vs.deep_view()),
        }
    }
}

impl Value {
    /// The shape of the value.
    pub fn shape(&self) -> (r: Shape)
        ensures
            r == self@.shape(),
    {
        match self {
            Value::Scalar(_) => Shape::Scalar,
            Value::Sequence(_) => Shape::Sequence,
        }
    }
}

impl DeepView for Value {
    type V = ValueView;

    open spec fn deep_view(&self) -> ValueView {
        self@
    }
}

} // verus!
