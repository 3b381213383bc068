//! The scalar-or-sequence accumulator.

use vstd::prelude::*;
use crate::error::DecodingError;
use crate::urlencoded::de::Part;

verus! {

/// What a key of a query string stands for: the values given under it, in
/// the order in which they were met.
pub enum Group {
    /// The key occurred once.
    Val(Seq<char>),
    /// The key occurred more than once.
    Vec(Seq<Seq<char>>),
}

impl Group {
    /// The values of the group in encounter order.
    pub open spec fn values(self) -> Seq<Seq<char>> {
        match self {
            Group::Val(v) => seq![v],
            Group::Vec(vs) => vs,
        }
    }

    /// The group that an accumulator holds after taking in `values` one by
    /// one: a lone value stays a scalar, anything else is a sequence.
    pub open spec fn of(values: Seq<Seq<char>>) -> Group {
        if values.len() == 1 {
            Group::Val(values[0])
        } else {
            Group::Vec(values)
        }
    }
}

/// One value, or the sequence that it was promoted to when a second value
/// arrived for the same key.
#[derive(Clone, Debug, PartialEq, Eq)]
pub enum ValOrVec {
    Val(Part),
    Vec(Vec<Part>),
}

impl View for ValOrVec {
    type V = Group;

    open spec fn view(&self) -> Group {
        match self {
            ValOrVec::Val(v) => Group::Val(v@),
            ValOrVec::Vec(vs) => Group::Vec(vs.deep_view()),
        }
    }
}

impl DeepView for ValOrVec {
    type V = Group;

    open spec fn deep_view(&self) -> Group {
        self@
    }
}

impl ValOrVec {
    /// Adds a value behind those already held, promoting a scalar to a
    /// sequence.
    pub fn push(&mut self, new_val: Part)
        ensures
            final(self)@ == Group::Vec(old(self)@.values().push(new_val@)),
    {
        let mut held = ValOrVec::Vec(Vec::new());
        std::mem::swap(self, &mut held);
        match held {
            ValOrVec::Val(val) => {
                let mut vec: Vec<Part> = Vec::new();
                vec.push(val);
                vec.push(new_val);
                assert(vec.deep_view() =~= seq![val@].push(new_val@));
                *self = ValOrVec::Vec(vec);
            },
            ValOrVec::Vec(mut vec) => {
                let ghost before = vec.deep_view();
                vec.push(new_val);
                assert(vec.deep_view() =~= before.push(new_val@));
                *self = ValOrVec::Vec(vec);
            },
        }
    }

    /// Reads the entry as a scalar. Repeated values are not narrowed to one:
    /// a sequence is a structural mismatch.
    pub fn deserialize_any(self) -> (r: Result<Part, DecodingError>)
        ensures
            match self@ {
                Group::Val(v) => r matches Ok(s) && s@ == v,
                Group::Vec(_) => r matches Err(e) && e == DecodingError::StructuralMismatch,
            },
    {
        match self {
            ValOrVec::Val(val) => Ok(val),
            ValOrVec::Vec(_) => Err(DecodingError::StructuralMismatch),
        }
    }

    /// Reads the entry as a sequence: a scalar is a sequence of one.
    pub fn deserialize_seq(self) -> (r: Vec<Part>)
        ensures
            r.deep_view() == self@.values(),
    {
        match self {
            ValOrVec::Val(val) => {
                let mut vec: Vec<Part> = Vec::new();
                vec.push(val);
                assert(vec.deep_view() =~= seq![val@]);
                vec
            },
            ValOrVec::Vec(vec) => vec,
        }
    }
}

} // verus!
