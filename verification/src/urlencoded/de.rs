//! Decoding of `application/x-www-form-urlencoded` data.

use vstd::prelude::*;
use vstd::utf8::encode_utf8;
use crate::error::{DecodingError, ScalarFault};
use crate::text::{key_lt, key_order, KeyOrder, lemma_key_lt_transitive, lemma_key_lt_trichotomy};
use crate::urlencoded::form::{is_utf8, pairs_of, parse_pairs, unescape, well_formed};
use crate::urlencoded::scalar::{parse_bool, parse_boolean, parse_integer, parse_signed, parse_unsigned};
use crate::urlencoded::val_or_vec::{Group, ValOrVec};
use crate::urlencoded::value::{Field, Shape, Value, ValueView};

verus! {

/// Decodes `application/x-www-form-urlencoded` bytes into the structure
/// grouped by key. The input is refused as a whole if an escape is
/// incomplete or the unescaped bytes are not UTF-8.
pub fn from_bytes(input: &[u8]) -> (r: Result<Deserializer, DecodingError>)
    ensures
        match r {
            Ok(de) => well_formed(input@) && is_grouping(de@, pairs_of(input@)),
            Err(e) => e == DecodingError::Malformed && !well_formed(input@),
        },
{
    match decode_pairs(input) {
        Ok(pairs) => Ok(Deserializer::new(pairs)),
        Err(e) => Err(e),
    }
}

/// Decodes an `application/x-www-form-urlencoded` string; see
/// [`from_bytes`].
pub fn from_str(input: &str) -> (r: Result<Deserializer, DecodingError>)
    ensures
        match r {
            Ok(de) => well_formed(encode_utf8(input@)) && is_grouping(
                de@,
                pairs_of(encode_utf8(input@)),
            ),
            Err(e) => e == DecodingError::Malformed && !well_formed(encode_utf8(input@)),
        },
{
    from_bytes(input.as_bytes())
}

/// Splits the input into its key/value pairs, unescaped, in input order.
pub fn decode_pairs(input: &[u8]) -> (r: Result<Vec<(String, String)>, DecodingError>)
    ensures
        match r {
            Ok(pairs) => well_formed(input@) && pairs.deep_view() == pairs_of(input@),
            Err(e) => e == DecodingError::Malformed && !well_formed(input@),
        },
{
    match unescape(input) {
        None => Err(DecodingError::Malformed),
        Some(bytes) => {
            if is_utf8(bytes.as_slice()) {
                Ok(parse_pairs(input))
            } else {
                Err(DecodingError::Malformed)
            }
        },
    }
}

/// The grouped form of a query string, from which a target takes a map, a
/// sequence of pairs, or nothing.
pub struct Deserializer {
    inner: Vec<(String, ValOrVec)>,
}

impl View for Deserializer {
    type V = Seq<(Seq<char>, Group)>;

    closed spec fn view(&self) -> Seq<(Seq<char>, Group)> {
        self.inner.deep_view()
    }
}

/// Every group holds a value; a sequence holds at least two.
pub open spec fn groups_filled(groups: Seq<(Seq<char>, Group)>) -> bool {
    forall|i: int| 0 <= i < groups.len() ==> match (#[trigger] groups[i]).1 {
        Group::Val(_) => true,
        Group::Vec(values) => values.len() >= 2,
    }
}

/// The group of the first entry from `from` on whose key is `key`.
pub open spec fn entry_from(groups: Seq<(Seq<char>, Group)>, key: Seq<char>, from: int) -> Option<
    Group,
>
    decreases groups.len() - from,
{
    if from < 0 || from >= groups.len() {
        None
    } else if groups[from].0 == key {
        Some(groups[from].1)
    } else {
        entry_from(groups, key, from + 1)
    }
}

/// The group that `groups` holds under `key`, if any.
pub open spec fn entry_for(groups: Seq<(Seq<char>, Group)>, key: Seq<char>) -> Option<Group> {
    entry_from(groups, key, 0)
}

/// What an entry decodes to in the shape that a field asks for. No entry
/// is a missing field. A single value can be read as a scalar or as a
/// sequence of one; repeated values can only be read as a sequence, and are
/// a structural mismatch where a scalar is asked for.
pub open spec fn shaped(entry: Option<Group>, shape: Shape) -> Result<ValueView, DecodingError> {
    match entry {
        None => Err(DecodingError::MissingField),
        Some(Group::Val(v)) => match shape {
            Shape::Scalar => Ok(ValueView::Scalar(v)),
            Shape::Sequence => Ok(ValueView::Sequence(seq![v])),
        },
        Some(Group::Vec(vs)) => match shape {
            Shape::Scalar => Err(DecodingError::StructuralMismatch),
            Shape::Sequence => Ok(ValueView::Sequence(vs)),
        },
    }
}

/// What a field of the given name and shape decodes to: the entry of its
/// name, in its shape.
pub open spec fn field_value(groups: Seq<(Seq<char>, Group)>, name: Seq<char>, shape: Shape) -> Result<
    ValueView,
    DecodingError,
> {
    shaped(entry_for(groups, name), shape)
}

/// What pairs hold under a key, as a group: nothing if no pair has the
/// key.
pub open spec fn group_for(pairs: Seq<(Seq<char>, Seq<char>)>, key: Seq<char>) -> Option<Group> {
    if values_for(pairs, key).len() > 0 {
        Some(Group::of(values_for(pairs, key)))
    } else {
        None
    }
}

/// What a struct with the given fields decodes to: the value of each field
/// in declaration order, or the error of the first field that fails. Keys
/// that no field asks for are ignored.
pub open spec fn struct_value(groups: Seq<(Seq<char>, Group)>, fields: Seq<(Seq<char>, Shape)>) -> Result<
    Seq<ValueView>,
    DecodingError,
>
    decreases fields.len(),
{
    if fields.len() == 0 {
        Ok(seq![])
    } else {
        match struct_value(groups, fields.drop_last()) {
            Err(e) => Err(e),
            Ok(values) => match field_value(groups, fields.last().0, fields.last().1) {
                Err(e) => Err(e),
                Ok(value) => Ok(values.push(value)),
            },
        }
    }
}

/// The first entry with a given key decides what the key stands for.
pub proof fn lemma_entry_from_found(
    groups: Seq<(Seq<char>, Group)>,
    key: Seq<char>,
    from: int,
    at: int,
)
    requires
        0 <= from <= at < groups.len(),
        groups[at].0 == key,
        forall|j: int| from <= j < at ==> (#[trigger] groups[j]).0 != key,
    ensures
        entry_from(groups, key, from) == Some(groups[at].1),
    decreases at - from,
{
    if from < at {
        assert(groups[from].0 != key);
        lemma_entry_from_found(groups, key, from + 1, at);
    }
}

/// A key that no entry has stands for nothing.
pub proof fn lemma_entry_from_absent(groups: Seq<(Seq<char>, Group)>, key: Seq<char>, from: int)
    requires
        0 <= from,
        forall|j: int| from <= j < groups.len() ==> (#[trigger] groups[j]).0 != key,
    ensures
        entry_from(groups, key, from) is None,
    decreases groups.len() - from,
{
    if from < groups.len() {
        assert(groups[from].0 != key);
        lemma_entry_from_absent(groups, key, from + 1);
    }
}

/// The groups as pairs of strings, if every group is a scalar: else a
/// structural mismatch.
pub open spec fn scalar_pairs(groups: Seq<(Seq<char>, Group)>) -> Result<
    Seq<(Seq<char>, Seq<char>)>,
    DecodingError,
>
    decreases groups.len(),
{
    if groups.len() == 0 {
        Ok(Seq::empty())
    } else {
        match scalar_pairs(groups.drop_last()) {
            Err(e) => Err(e),
            Ok(front) => match groups.last().1 {
                Group::Val(value) => Ok(front.push((groups.last().0, value))),
                Group::Vec(_) => Err(DecodingError::StructuralMismatch),
            },
        }
    }
}

/// Once a group is no scalar, the groups are no pairs of strings, whatever
/// groups follow.
proof fn lemma_scalar_pairs_fails(groups: Seq<(Seq<char>, Group)>, upto: int)
    requires
        0 <= upto <= groups.len(),
        scalar_pairs(groups.take(upto)) is Err,
    ensures
        scalar_pairs(groups) == scalar_pairs(groups.take(upto)),
    decreases groups.len() - upto,
{
    if upto == groups.len() {
        assert(groups.take(upto) =~= groups);
    } else {
        assert(groups.take(upto + 1).drop_last() =~= groups.take(upto));
        lemma_scalar_pairs_fails(groups, upto + 1);
    }
}

/// The slot found for a key among ascending entries tells what the key
/// stands for.
proof fn lemma_slot_is_entry(groups: Seq<(Seq<char>, Group)>, key: Seq<char>, slot: int, found: bool)
    requires
        0 <= slot <= groups.len(),
        forall|j: int| 0 <= j < slot ==> key_lt((#[trigger] groups[j]).0, key),
        found ==> slot < groups.len() && groups[slot].0 == key,
        !found ==> forall|j: int| slot <= j < groups.len() ==> key_lt(key, (#[trigger] groups[j]).0),
    ensures
        entry_for(groups, key) == if found {
            Some(groups[slot].1)
        } else {
            None
        },
{
    if found {
        assert forall|j: int| 0 <= j < slot implies (#[trigger] groups[j]).0 != key by {
            lemma_key_lt_trichotomy(groups[j].0, key);
        }
        lemma_entry_from_found(groups, key, 0, slot);
    } else {
        assert forall|j: int| 0 <= j < groups.len() implies (#[trigger] groups[j]).0 != key by {
            lemma_key_lt_trichotomy(groups[j].0, key);
        }
        lemma_entry_from_absent(groups, key, 0);
    }
}

/// In the grouping of some pairs, a key stands for the values that the
/// pairs give under it, and for nothing if they give none.
pub proof fn lemma_entry_of_grouping(
    groups: Seq<(Seq<char>, Group)>,
    pairs: Seq<(Seq<char>, Seq<char>)>,
    key: Seq<char>,
)
    requires
        is_grouping(groups, pairs),
    ensures
        entry_for(groups, key) == group_for(pairs, key),
{
    if values_for(pairs, key).len() > 0 {
        assert(has_key(groups, key));
        let slot = choose|i: int| 0 <= i < groups.len() && (#[trigger] groups[i]).0 == key;
        assert forall|j: int| 0 <= j < slot implies (#[trigger] groups[j]).0 != key by {
            assert(key_lt(groups[j].0, groups[slot].0));
            lemma_key_lt_trichotomy(groups[j].0, groups[slot].0);
        }
        lemma_entry_from_found(groups, key, 0, slot);
    } else {
        assert forall|j: int| 0 <= j < groups.len() implies (#[trigger] groups[j]).0 != key by {
            if groups[j].0 == key {
                assert(values_for(pairs, groups[j].0).len() > 0);
            }
        }
        lemma_entry_from_absent(groups, key, 0);
    }
}

impl Deserializer {
    #[verifier::type_invariant]
    spec fn well_grouped(self) -> bool {
        ascending(self.inner.deep_view()) && groups_filled(self.inner.deep_view())
    }

    /// Groups the pairs of a query string.
    pub fn new(pairs: Vec<(String, String)>) -> (r: Self)
        ensures
            is_grouping(r@, pairs.deep_view()),
    {
        let ghost flat = pairs.deep_view();
        let inner = group_entries(pairs);
        proof {
            lemma_grouping_filled(inner.deep_view(), flat);
        }
        Deserializer { inner }
    }

    /// Hands out the entries for a target that states no shape: as a map.
    pub fn deserialize_any(self) -> (r: Vec<(String, ValOrVec)>)
        ensures
            r.deep_view() == self@,
            ascending(self@),
            groups_filled(self@),
    {
        self.deserialize_map()
    }

    /// Hands out the entries as a map, in ascending order of the keys.
    pub fn deserialize_map(self) -> (r: Vec<(String, ValOrVec)>)
        ensures
            r.deep_view() == self@,
            ascending(self@),
            groups_filled(self@),
    {
        proof {
            use_type_invariant(&self);
        }
        self.inner
    }

    /// Hands out the entries as a sequence of pairs: the same pairs as the
    /// map, in ascending order of the keys and not in input order.
    pub fn deserialize_seq(self) -> (r: Vec<(String, ValOrVec)>)
        ensures
            r.deep_view() == self@,
            ascending(self@),
            groups_filled(self@),
    {
        proof {
            use_type_invariant(&self);
        }
        self.inner
    }

    /// The entry of the given key, if there is one.
    pub fn get(&self, key: &str) -> (r: Option<&ValOrVec>)
        ensures
            match r {
                Some(entry) => entry_for(self@, key@) == Some(entry@),
                None => entry_for(self@, key@) is None,
            },
            ascending(self@),
            groups_filled(self@),
    {
        proof {
            use_type_invariant(self);
        }
        let ghost groups = self.inner.deep_view();
        let (slot, found) = find_slot(&self.inner, key);
        proof {
            lemma_slot_is_entry(groups, key@, slot as int, found);
        }
        if found {
            assert(groups[slot as int].1 == self.inner[slot as int].1@);
            Some(&self.inner[slot].1)
        } else {
            None
        }
    }

    /// Decodes one field: reads the entry of its name in the shape that
    /// the field asks for.
    pub fn deserialize_field(&self, name: &str, shape: Shape) -> (r: Result<Value, DecodingError>)
        ensures
            match r {
                Ok(value) => field_value(self@, name@, shape) == Ok::<ValueView, DecodingError>(
                    value@,
                ),
                Err(e) => field_value(self@, name@, shape) == Err::<ValueView, DecodingError>(e),
            },
    {
        match self.get(name) {
            None => Err(DecodingError::MissingField),
            Some(ValOrVec::Val(part)) => match shape {
                Shape::Scalar => Ok(Value::Scalar(part.duplicate())),
                Shape::Sequence => {
                    let mut parts: Vec<Part> = Vec::new();
                    parts.push(part.duplicate());
                    assert(parts.deep_view() =~= seq![part@]);
                    Ok(Value::Sequence(parts))
                },
            },
            Some(ValOrVec::Vec(parts)) => match shape {
                Shape::Scalar => Err(DecodingError::StructuralMismatch),
                Shape::Sequence => Ok(Value::Sequence(duplicate_parts(parts))),
            },
        }
    }

    /// Decodes a struct: reads each field from the entry of its name, in
    /// the shape that the field asks for.
    pub fn deserialize_struct(&self, fields: &Vec<Field>) -> (r: Result<Vec<Value>, DecodingError>)
        ensures
            match r {
                Ok(values) => struct_value(self@, fields.deep_view()) == Ok::<
                    Seq<ValueView>,
                    DecodingError,
                >(values.deep_view()),
                Err(e) => struct_value(self@, fields.deep_view()) == Err::<
                    Seq<ValueView>,
                    DecodingError,
                >(e),
            },
    {
        let ghost groups = self@;
        let ghost decls = fields.deep_view();
        let mut values: Vec<Value> = Vec::new();
        let mut i: usize = 0;
        assert(decls.take(0) =~= Seq::empty());
        assert(values.deep_view() =~= Seq::empty());
        while i < fields.len()
            invariant
                i <= fields.len(),
                groups == self@,
                decls == fields.deep_view(),
                struct_value(groups, decls.take(i as int)) == Ok::<Seq<ValueView>, DecodingError>(
                    values.deep_view(),
                ),
            decreases fields.len() - i,
        {
            let field = &fields[i];
            let ghost before = values.deep_view();
            assert(decls[i as int] == (field.name@, field.shape));
            assert(decls.take(i + 1).drop_last() =~= decls.take(i as int));
            assert(decls.take(i + 1).last() == decls[i as int]);
            match self.deserialize_field(field.name.as_str(), field.shape) {
                Err(e) => {
                    proof {
                        lemma_struct_value_fails(groups, decls, i + 1);
                    }
                    return Err(e);
                },
                Ok(value) => {
                    values.push(value);
                    assert(values.deep_view() =~= before.push(value@));
                },
            }
            i += 1;
        }
        assert(decls.take(decls.len() as int) =~= decls);
        Ok(values)
    }

    /// Decodes a sequence of pairs of strings: the pairs of the map, in
    /// ascending order of the keys. A key that was given more than once has
    /// no single value, which is a structural mismatch.
    pub fn deserialize_pairs(self) -> (r: Result<Vec<(String, String)>, DecodingError>)
        ensures
            match r {
                Ok(pairs) => scalar_pairs(self@) == Ok::<
                    Seq<(Seq<char>, Seq<char>)>,
                    DecodingError,
                >(pairs.deep_view()),
                Err(e) => scalar_pairs(self@) == Err::<Seq<(Seq<char>, Seq<char>)>, DecodingError>(
                    e,
                ),
            },
            ascending(self@),
    {
        proof {
            use_type_invariant(&self);
        }
        let ghost groups = self.inner.deep_view();
        let ghost raw = self.inner@;
        let mut pairs: Vec<(String, String)> = Vec::new();
        assert(groups.take(0) =~= Seq::empty());
        assert(pairs.deep_view() =~= Seq::empty());
        for entry in it: self.inner
            invariant
                it.seq() == raw,
                groups == self@,
                ascending(groups),
                groups.len() == raw.len(),
                forall|i: int| 0 <= i < raw.len() ==> groups[i] == (raw[i].0@, raw[i].1@),
                scalar_pairs(groups.take(it.index() as int)) == Ok::<
                    Seq<(Seq<char>, Seq<char>)>,
                    DecodingError,
                >(pairs.deep_view()),
        {
            let ghost before = pairs.deep_view();
            let ghost at = it.index() as int;
            assert(groups.take(at + 1).drop_last() =~= groups.take(at));
            assert(groups.take(at + 1).last() == groups[at]);
            let (key, value) = entry;
            match value {
                ValOrVec::Val(part) => {
                    pairs.push((key, part.0));
                    assert(pairs.deep_view() =~= before.push((key@, part@)));
                },
                ValOrVec::Vec(_) => {
                    proof {
                        lemma_scalar_pairs_fails(groups, at + 1);
                    }
                    return Err(DecodingError::StructuralMismatch);
                },
            }
        }
        assert(groups.take(groups.len() as int) =~= groups);
        Ok(pairs)
    }

    /// Decodes nothing: succeeds only if there is no entry.
    pub fn deserialize_unit(self) -> (r: Result<(), DecodingError>)
        ensures
            self@.len() == 0 ==> r is Ok,
            self@.len() > 0 ==> r == Err::<(), DecodingError>(DecodingError::UnexpectedData),
    {
        if self.inner.len() == 0 {
            Ok(())
        } else {
            Err(DecodingError::UnexpectedData)
        }
    }
}

/// One key or value of a query string: the leaf from which scalars are
/// read.
#[derive(Clone, Debug, PartialEq, Eq)]
pub struct Part(pub String);

impl View for Part {
    type V = Seq<char>;

    open spec fn view(&self) -> Seq<char> {
        self.0@
    }
}

impl DeepView for Part {
    type V = Seq<char>;

    open spec fn deep_view(&self) -> Seq<char> {
        self.0@
    }
}

/// What a variant of a target enum carries.
#[derive(Clone, Copy, Debug, PartialEq, Eq, Structural)]
pub enum VariantKind {
    Unit,
    Newtype,
    Tuple,
    Struct,
}

/// A variant that a target enum declares.
#[derive(Clone, Debug, PartialEq, Eq)]
pub struct Variant {
    pub name: String,
    pub kind: VariantKind,
}

impl DeepView for Variant {
    type V = (Seq<char>, VariantKind);

    open spec fn deep_view(&self) -> (Seq<char>, VariantKind) {
        (self.name@, self.kind)
    }
}

/// The index of the first variant from `from` on whose name is exactly
/// `name`.
pub open spec fn variant_from(
    variants: Seq<(Seq<char>, VariantKind)>,
    name: Seq<char>,
    from: int,
) -> Option<int>
    decreases variants.len() - from,
{
    if from < 0 || from >= variants.len() {
        None
    } else if variants[from].0 == name {
        Some(from)
    } else {
        variant_from(variants, name, from + 1)
    }
}

/// The index of the variant that `name` selects: the first one declared
/// under exactly that name, letter case included.
pub open spec fn variant_named(variants: Seq<(Seq<char>, VariantKind)>, name: Seq<char>) -> Option<
    int,
> {
    variant_from(variants, name, 0)
}

/// What decoding `name` as a unit-only enum gives: the index of the variant
/// of that name if it carries nothing.
pub open spec fn unit_variant_named(
    variants: Seq<(Seq<char>, VariantKind)>,
    name: Seq<char>,
) -> Result<int, DecodingError> {
    match variant_named(variants, name) {
        None => Err(DecodingError::StructuralMismatch),
        Some(i) => if variants[i].1 == VariantKind::Unit {
            Ok(i)
        } else {
            Err(DecodingError::ExpectedUnitVariant)
        },
    }
}

/// A scalar read from text, or the fault as a decoding error.
pub open spec fn scalar_result<T>(parsed: Result<T, ScalarFault>) -> Result<T, DecodingError> {
    match parsed {
        Ok(v) => Ok(v),
        Err(fault) => Err(DecodingError::InvalidScalar(fault)),
    }
}

/// What decoding `text` as an integer between `min` and `max` gives.
pub open spec fn integer_outcome(text: Seq<char>, signed: bool, min: int, max: int) -> Result<
    int,
    DecodingError,
> {
    scalar_result(parse_integer(text, signed, min, max))
}

/// A copy of each part, in order.
pub(crate) fn duplicate_parts(parts: &Vec<Part>) -> (r: Vec<Part>)
    ensures
        r.deep_view() == parts.deep_view(),
{
    let mut r: Vec<Part> = Vec::new();
    let mut i: usize = 0;
    while i < parts.len()
        invariant
            i <= parts.len(),
            r.deep_view() == parts.deep_view().take(i as int),
        decreases parts.len() - i,
    {
        let ghost before = r.deep_view();
        r.push(parts[i].duplicate());
        assert(r.deep_view() =~= before.push(parts[i as int]@));
        assert(parts.deep_view().take(i + 1) =~= parts.deep_view().take(i as int).push(
            parts[i as int]@,
        ));
        i += 1;
    }
    assert(parts.deep_view().take(parts.len() as int) =~= parts.deep_view());
    r
}

/// Once a field has failed, the struct fails with the error of that field,
/// whatever fields follow.
proof fn lemma_struct_value_fails(
    groups: Seq<(Seq<char>, Group)>,
    fields: Seq<(Seq<char>, Shape)>,
    upto: int,
)
    requires
        0 <= upto <= fields.len(),
        struct_value(groups, fields.take(upto)) is Err,
    ensures
        struct_value(groups, fields) == struct_value(groups, fields.take(upto)),
    decreases fields.len() - upto,
{
    if upto == fields.len() {
        assert(fields.take(upto) =~= fields);
    } else {
        assert(fields.take(upto + 1).drop_last() =~= fields.take(upto));
        lemma_struct_value_fails(groups, fields, upto + 1);
    }
}

impl Part {
    /// A copy of the part.
    pub fn duplicate(&self) -> (r: Part)
        ensures
            r@ == self@,
    {
        Part(self.0.clone())
    }

    /// Passes the text through as a string.
    pub fn deserialize_any(self) -> (r: String)
        ensures
            r@ == self@,
    {
        self.0
    }

    /// An entry that exists is always present: the format has no way to
    /// write an absent value.
    pub fn deserialize_option(self) -> (r: Option<Part>)
        ensures
            r == Some(self),
    {
        Some(self)
    }

    /// Passes through a wrapper type with a single field.
    pub fn deserialize_newtype_struct(self) -> (r: Part)
        ensures
            r == self,
    {
        self
    }

    /// Selects a unit variant of the target enum by its exact name.
    pub fn deserialize_enum(self, variants: &Vec<Variant>) -> (r: Result<usize, DecodingError>)
        ensures
            match r {
                Ok(i) => unit_variant_named(variants.deep_view(), self@) == Ok::<int, DecodingError>(
                    i as int,
                ),
                Err(e) => unit_variant_named(variants.deep_view(), self@) == Err::<
                    int,
                    DecodingError,
                >(e),
            },
    {
        let (index, access) = ValueEnumAccess(self.0).variant_seed(variants)?;
        assert(variants.deep_view()[index as int].1 == variants[index as int].kind);
        let done = match variants[index].kind {
            VariantKind::Unit => access.unit_variant(),
            VariantKind::Newtype => access.newtype_variant_seed(),
            VariantKind::Tuple => access.tuple_variant(),
            VariantKind::Struct => access.struct_variant(),
        };
        match done {
            Ok(()) => Ok(index),
            Err(e) => Err(e),
        }
    }

    /// Reads `true` or `false`.
    pub fn deserialize_bool(&self) -> (r: Result<bool, DecodingError>)
        ensures
            r == scalar_result(parse_boolean(self@)),
    {
        match parse_bool(self.0.as_str()) {
            Ok(v) => Ok(v),
            Err(e) => Err(DecodingError::InvalidScalar(e)),
        }
    }

    /// Reads an unsigned decimal integer of 8 bits.
    pub fn deserialize_u8(&self) -> (r: Result<u8, DecodingError>)
        ensures
            match r {
                Ok(v) => integer_outcome(self@, false, 0, u8::MAX as int) == Ok::<
                    int,
                    DecodingError,
                >(v as int),
                Err(e) => integer_outcome(self@, false, 0, u8::MAX as int) == Err::<
                    int,
                    DecodingError,
                >(e),
            },
    {
        match parse_unsigned(self.0.as_str(), u8::MAX as u64) {
            Ok(v) => Ok(v as u8),
            Err(e) => Err(DecodingError::InvalidScalar(e)),
        }
    }

    /// Reads an unsigned decimal integer of 16 bits.
    pub fn deserialize_u16(&self) -> (r: Result<u16, DecodingError>)
        ensures
            match r {
                Ok(v) => integer_outcome(self@, false, 0, u16::MAX as int) == Ok::<
                    int,
                    DecodingError,
                >(v as int),
                Err(e) => integer_outcome(self@, false, 0, u16::MAX as int) == Err::<
                    int,
                    DecodingError,
                >(e),
            },
    {
        match parse_unsigned(self.0.as_str(), u16::MAX as u64) {
            Ok(v) => Ok(v as u16),
            Err(e) => Err(DecodingError::InvalidScalar(e)),
        }
    }

    /// Reads an unsigned decimal integer of 32 bits.
    pub fn deserialize_u32(&self) -> (r: Result<u32, DecodingError>)
        ensures
            match r {
                Ok(v) => integer_outcome(self@, false, 0, u32::MAX as int) == Ok::<
                    int,
                    DecodingError,
                >(v as int),
                Err(e) => integer_outcome(self@, false, 0, u32::MAX as int) == Err::<
                    int,
                    DecodingError,
                >(e),
            },
    {
        match parse_unsigned(self.0.as_str(), u32::MAX as u64) {
            Ok(v) => Ok(v as u32),
            Err(e) => Err(DecodingError::InvalidScalar(e)),
        }
    }

    /// Reads an unsigned decimal integer of 64 bits.
    pub fn deserialize_u64(&self) -> (r: Result<u64, DecodingError>)
        ensures
            match r {
                Ok(v) => integer_outcome(self@, false, 0, u64::MAX as int) == Ok::<
                    int,
                    DecodingError,
                >(v as int),
                Err(e) => integer_outcome(self@, false, 0, u64::MAX as int) == Err::<
                    int,
                    DecodingError,
                >(e),
            },
    {
        match parse_unsigned(self.0.as_str(), u64::MAX as u64) {
            Ok(v) => Ok(v as u64),
            Err(e) => Err(DecodingError::InvalidScalar(e)),
        }
    }

    /// Reads a signed decimal integer of 8 bits.
    pub fn deserialize_i8(&self) -> (r: Result<i8, DecodingError>)
        ensures
            match r {
                Ok(v) => integer_outcome(self@, true, i8::MIN as int, i8::MAX as int)
                    == Ok::<int, DecodingError>(v as int),
                Err(e) => integer_outcome(self@, true, i8::MIN as int, i8::MAX as int)
                    == Err::<int, DecodingError>(e),
            },
    {
        match parse_signed(self.0.as_str(), i8::MIN as i64, i8::MAX as i64) {
            Ok(v) => Ok(v as i8),
            Err(e) => Err(DecodingError::InvalidScalar(e)),
        }
    }

    /// Reads a signed decimal integer of 16 bits.
    pub fn deserialize_i16(&self) -> (r: Result<i16, DecodingError>)
        ensures
            match r {
                Ok(v) => integer_outcome(self@, true, i16::MIN as int, i16::MAX as int)
                    == Ok::<int, DecodingError>(v as int),
                Err(e) => integer_outcome(self@, true, i16::MIN as int, i16::MAX as int)
                    == Err::<int, DecodingError>(e),
            },
    {
        match parse_signed(self.0.as_str(), i16::MIN as i64, i16::MAX as i64) {
            Ok(v) => Ok(v as i16),
            Err(e) => Err(DecodingError::InvalidScalar(e)),
        }
    }

    /// Reads a signed decimal integer of 32 bits.
    pub fn deserialize_i32(&self) -> (r: Result<i32, DecodingError>)
        ensures
            match r {
                Ok(v) => integer_outcome(self@, true, i32::MIN as int, i32::MAX as int)
                    == Ok::<int, DecodingError>(v as int),
                Err(e) => integer_outcome(self@, true, i32::MIN as int, i32::MAX as int)
                    == Err::<int, DecodingError>(e),
            },
    {
        match parse_signed(self.0.as_str(), i32::MIN as i64, i32::MAX as i64) {
            Ok(v) => Ok(v as i32),
            Err(e) => Err(DecodingError::InvalidScalar(e)),
        }
    }

    /// Reads a signed decimal integer of 64 bits.
    pub fn deserialize_i64(&self) -> (r: Result<i64, DecodingError>)
        ensures
            match r {
                Ok(v) => integer_outcome(self@, true, i64::MIN as int, i64::MAX as int)
                    == Ok::<int, DecodingError>(v as int),
                Err(e) => integer_outcome(self@, true, i64::MIN as int, i64::MAX as int)
                    == Err::<int, DecodingError>(e),
            },
    {
        match parse_signed(self.0.as_str(), i64::MIN as i64, i64::MAX as i64) {
            Ok(v) => Ok(v as i64),
            Err(e) => Err(DecodingError::InvalidScalar(e)),
        }
    }
}

/// Access to the variant that a value names.
pub struct ValueEnumAccess(pub String);

impl View for ValueEnumAccess {
    type V = Seq<char>;

    open spec fn view(&self) -> Seq<char> {
        self.0@
    }
}

impl ValueEnumAccess {
    /// Finds the variant named by the value, and gives access to what it
    /// carries: nothing, since a value cannot hold data for a variant.
    pub fn variant_seed(self, variants: &Vec<Variant>) -> (r: Result<
        (usize, UnitOnlyVariantAccess),
        DecodingError,
    >)
        ensures
            match r {
                Ok((i, _)) => variant_named(variants.deep_view(), self@) == Some(i as int) && i
                    < variants.len(),
                Err(e) => e == DecodingError::StructuralMismatch && variant_named(
                    variants.deep_view(),
                    self@,
                ) is None,
            },
    {
        let mut i: usize = 0;
        while i < variants.len()
            invariant
                i <= variants.len(),
                variant_named(variants.deep_view(), self@) == variant_from(
                    variants.deep_view(),
                    self@,
                    i as int,
                ),
            decreases variants.len() - i,
        {
            assert(variants.deep_view()[i as int].0 == variants[i as int].name@);
            if variants[i].name == self.0 {
                return Ok((i, UnitOnlyVariantAccess));
            }
            i += 1;
        }
        Err(DecodingError::StructuralMismatch)
    }
}

/// Access to the content of a variant selected by a bare value. Only a unit
/// variant can be read from it.
pub struct UnitOnlyVariantAccess;

impl UnitOnlyVariantAccess {
    /// A unit variant carries nothing, so there is nothing to read.
    pub fn unit_variant(self) -> (r: Result<(), DecodingError>)
        ensures
            r is Ok,
    {
        Ok(())
    }

    /// A variant with one unnamed field cannot be read from a bare value.
    pub fn newtype_variant_seed(self) -> (r: Result<(), DecodingError>)
        ensures
            r == Err::<(), DecodingError>(DecodingError::ExpectedUnitVariant),
    {
        Err(DecodingError::ExpectedUnitVariant)
    }

    /// A variant with several unnamed fields cannot be read from a bare
    /// value.
    pub fn tuple_variant(self) -> (r: Result<(), DecodingError>)
        ensures
            r == Err::<(), DecodingError>(DecodingError::ExpectedUnitVariant),
    {
        Err(DecodingError::ExpectedUnitVariant)
    }

    /// A variant with named fields cannot be read from a bare value.
    pub fn struct_variant(self) -> (r: Result<(), DecodingError>)
        ensures
            r == Err::<(), DecodingError>(DecodingError::ExpectedUnitVariant),
    {
        Err(DecodingError::ExpectedUnitVariant)
    }
}

/// The values that `pairs` gives under `key`, in encounter order.
pub open spec fn values_for(pairs: Seq<(Seq<char>, Seq<char>)>, key: Seq<char>) -> Seq<Seq<char>>
    decreases pairs.len(),
{
    if pairs.len() == 0 {
        seq![]
    } else if pairs.last().0 == key {
        values_for(pairs.drop_last(), key).push(pairs.last().1)
    } else {
        values_for(pairs.drop_last(), key)
    }
}

/// The keys of `groups` are strictly ascending in the byte-wise order.
pub open spec fn ascending(groups: Seq<(Seq<char>, Group)>) -> bool {
    forall|i: int, j: int| 0 <= i < j < groups.len() ==> key_lt(#[trigger] groups[i].0, #[trigger] groups[j].0)
}

/// `groups` is the grouping of `pairs`: one entry for each key that occurs,
/// ordered by key, holding the values of that key in encounter order, as a
/// scalar if there is one and as a sequence if there are more.
pub open spec fn is_grouping(
    groups: Seq<(Seq<char>, Group)>,
    pairs: Seq<(Seq<char>, Seq<char>)>,
) -> bool {
    &&& ascending(groups)
    &&& forall|i: int| 0 <= i < groups.len() ==> {
        &&& values_for(pairs, (#[trigger] groups[i]).0).len() > 0
        &&& groups[i].1 == Group::of(values_for(pairs, groups[i].0))
    }
    &&& forall|key: Seq<char>| (#[trigger] values_for(pairs, key)).len() > 0 ==> has_key(groups, key)
}

/// Some entry of `groups` has the key `key`.
pub open spec fn has_key(groups: Seq<(Seq<char>, Group)>, key: Seq<char>) -> bool {
    exists|i: int| 0 <= i < groups.len() && (#[trigger] groups[i]).0 == key
}

/// Where `key` belongs among ascending entries: the index of the first
/// entry whose key is not below it, and whether that entry has this very key.
fn find_slot(entries: &Vec<(String, ValOrVec)>, key: &str) -> (r: (usize, bool))
    requires
        ascending(entries.deep_view()),
    ensures
        r.0 <= entries.len(),
        forall|j: int| 0 <= j < r.0 ==> key_lt((#[trigger] entries.deep_view()[j]).0, key@),
        r.1 ==> r.0 < entries.len() && entries.deep_view()[r.0 as int].0 == key@,
        !r.1 ==> forall|j: int|
            r.0 <= j < entries.len() ==> key_lt(key@, (#[trigger] entries.deep_view()[j]).0),
{
    let ghost groups = entries.deep_view();
    let mut low: usize = 0;
    let mut high: usize = entries.len();
    while low < high
        invariant
            low <= high <= entries.len(),
            groups == entries.deep_view(),
            ascending(groups),
            forall|j: int| 0 <= j < low ==> key_lt((#[trigger] groups[j]).0, key@),
            forall|j: int| high <= j < entries.len() ==> key_lt(key@, (#[trigger] groups[j]).0),
        decreases high - low,
    {
        let middle = low + (high - low) / 2;
        let order = key_order(entries[middle].0.as_str(), key);
        assert(groups[middle as int].0 == entries[middle as int].0@);
        if order == KeyOrder::Equal {
            assert forall|j: int| 0 <= j < middle implies key_lt((#[trigger] groups[j]).0, key@) by {
                assert(key_lt(groups[j].0, groups[middle as int].0));
            }
            return (middle, true);
        }
        if order == KeyOrder::Less {
            assert forall|j: int| 0 <= j < middle + 1 implies key_lt(
                (#[trigger] groups[j]).0,
                key@,
            ) by {
                if j < middle {
                    assert(key_lt(groups[j].0, groups[middle as int].0));
                    lemma_key_lt_transitive(groups[j].0, groups[middle as int].0, key@);
                }
            }
            low = middle + 1;
        } else {
            assert forall|j: int| middle <= j < entries.len() implies key_lt(
                key@,
                (#[trigger] groups[j]).0,
            ) by {
                if j > middle {
                    assert(key_lt(groups[middle as int].0, groups[j].0));
                    lemma_key_lt_transitive(key@, groups[middle as int].0, groups[j].0);
                }
            }
            high = middle;
        }
    }
    (low, false)
}

/// Taking in one more pair changes only the values of that pair's key.
proof fn lemma_values_for_push(
    pairs: Seq<(Seq<char>, Seq<char>)>,
    key: Seq<char>,
    value: Seq<char>,
    other: Seq<char>,
)
    ensures
        values_for(pairs.push((key, value)), other) == if other == key {
            values_for(pairs, other).push(value)
        } else {
            values_for(pairs, other)
        },
{
    let longer = pairs.push((key, value));
    assert(longer.drop_last() =~= pairs);
    assert(longer.last() == (key, value));
}

/// The values of a group made by [`Group::of`] are the values it was made of.
pub proof fn lemma_group_of_values(values: Seq<Seq<char>>)
    ensures
        Group::of(values).values() == values,
{
    if values.len() == 1 {
        assert(seq![values[0]] =~= values);
    }
}

/// No two entries of an ascending sequence share a key.
pub proof fn lemma_ascending_distinct(groups: Seq<(Seq<char>, Group)>, i: int, j: int)
    requires
        ascending(groups),
        0 <= i < groups.len(),
        0 <= j < groups.len(),
        groups[i].0 == groups[j].0,
    ensures
        i == j,
{
    lemma_key_lt_trichotomy(groups[i].0, groups[j].0);
    if i < j {
        assert(key_lt(groups[i].0, groups[j].0));
    } else if j < i {
        assert(key_lt(groups[j].0, groups[i].0));
    }
}

/// A pair whose key is already grouped adds its value behind the values of
/// that entry, which becomes a sequence.
proof fn lemma_grouping_extend(
    groups: Seq<(Seq<char>, Group)>,
    pairs: Seq<(Seq<char>, Seq<char>)>,
    slot: int,
    value: Seq<char>,
)
    requires
        is_grouping(groups, pairs),
        0 <= slot < groups.len(),
    ensures
        is_grouping(
            groups.update(
                slot,
                (groups[slot].0, Group::Vec(groups[slot].1.values().push(value))),
            ),
            pairs.push((groups[slot].0, value)),
        ),
{
    let key = groups[slot].0;
    let longer = pairs.push((key, value));
    let after = groups.update(slot, (key, Group::Vec(groups[slot].1.values().push(value))));
    assert forall|i: int, j: int| 0 <= i < j < after.len() implies key_lt(
        #[trigger] after[i].0,
        #[trigger] after[j].0,
    ) by {
        assert(after[i].0 == groups[i].0);
        assert(after[j].0 == groups[j].0);
    }
    assert forall|i: int| 0 <= i < after.len() implies {
        &&& values_for(longer, (#[trigger] after[i]).0).len() > 0
        &&& after[i].1 == Group::of(values_for(longer, after[i].0))
    } by {
        lemma_values_for_push(pairs, key, value, groups[i].0);
        assert(after[i].0 == groups[i].0);
        if i == slot {
            lemma_group_of_values(values_for(pairs, key));
        } else {
            if groups[i].0 == key {
                lemma_ascending_distinct(groups, i, slot);
            }
        }
    }
    assert forall|k: Seq<char>| (#[trigger] values_for(longer, k)).len() > 0 implies has_key(
        after,
        k,
    ) by {
        lemma_values_for_push(pairs, key, value, k);
        if k == key {
            assert(after[slot].0 == k);
        } else {
            assert(has_key(groups, k));
            let i = choose|i: int| 0 <= i < groups.len() && (#[trigger] groups[i]).0 == k;
            assert(after[i].0 == k);
        }
    }
}

/// A pair whose key is new adds a scalar entry at the place that keeps the
/// keys ascending.
proof fn lemma_grouping_insert(
    groups: Seq<(Seq<char>, Group)>,
    pairs: Seq<(Seq<char>, Seq<char>)>,
    slot: int,
    key: Seq<char>,
    value: Seq<char>,
)
    requires
        is_grouping(groups, pairs),
        0 <= slot <= groups.len(),
        forall|j: int| 0 <= j < slot ==> key_lt((#[trigger] groups[j]).0, key),
        forall|j: int| slot <= j < groups.len() ==> key_lt(key, (#[trigger] groups[j]).0),
    ensures
        is_grouping(groups.insert(slot, (key, Group::Val(value))), pairs.push((key, value))),
{
    let longer = pairs.push((key, value));
    let after = groups.insert(slot, (key, Group::Val(value)));
    assert forall|i: int| 0 <= i < groups.len() implies (#[trigger] groups[i]).0 != key by {
        lemma_key_lt_trichotomy(groups[i].0, key);
    }
    assert(values_for(pairs, key).len() == 0) by {
        if values_for(pairs, key).len() > 0 {
            assert(has_key(groups, key));
        }
    }
    assert forall|i: int, j: int| 0 <= i < j < after.len() implies key_lt(
        #[trigger] after[i].0,
        #[trigger] after[j].0,
    ) by {
        if i < slot {
            assert(after[i] == groups[i]);
        } else if i > slot {
            assert(after[i] == groups[i - 1]);
        }
        if j < slot {
            assert(after[j] == groups[j]);
        } else if j > slot {
            assert(after[j] == groups[j - 1]);
        }
    }
    assert forall|i: int| 0 <= i < after.len() implies {
        &&& values_for(longer, (#[trigger] after[i]).0).len() > 0
        &&& after[i].1 == Group::of(values_for(longer, after[i].0))
    } by {
        lemma_values_for_push(pairs, key, value, after[i].0);
        if i < slot {
            assert(after[i] == groups[i]);
        } else if i > slot {
            assert(after[i] == groups[i - 1]);
        } else {
            assert(values_for(longer, key) =~= seq![value]);
        }
    }
    assert forall|k: Seq<char>| (#[trigger] values_for(longer, k)).len() > 0 implies has_key(
        after,
        k,
    ) by {
        lemma_values_for_push(pairs, key, value, k);
        if k == key {
            assert(after[slot].0 == k);
        } else {
            assert(has_key(groups, k));
            let i = choose|i: int| 0 <= i < groups.len() && (#[trigger] groups[i]).0 == k;
            if i < slot {
                assert(after[i].0 == k);
            } else {
                assert(after[i + 1].0 == k);
            }
        }
    }
}

/// Two groupings of the same pairs have the same keys at the same places.
proof fn lemma_grouping_keys(
    a: Seq<(Seq<char>, Group)>,
    b: Seq<(Seq<char>, Group)>,
    pairs: Seq<(Seq<char>, Seq<char>)>,
    n: int,
)
    requires
        is_grouping(a, pairs),
        is_grouping(b, pairs),
        0 <= n <= a.len(),
        n <= b.len(),
    ensures
        forall|j: int| 0 <= j < n ==> (#[trigger] a[j]).0 == b[j].0,
    decreases n,
{
    if n > 0 {
        lemma_grouping_keys(a, b, pairs, n - 1);
        let i = n - 1;
        let ka = a[i].0;
        let kb = b[i].0;
        assert(values_for(pairs, ka).len() > 0);
        assert(has_key(b, ka));
        let m = choose|m: int| 0 <= m < b.len() && (#[trigger] b[m]).0 == ka;
        assert(values_for(pairs, kb).len() > 0);
        assert(has_key(a, kb));
        let w = choose|w: int| 0 <= w < a.len() && (#[trigger] a[w]).0 == kb;
        if m < i {
            assert(a[m].0 == b[m].0);
            lemma_ascending_distinct(a, m, i);
        }
        if w < i {
            assert(a[w].0 == b[w].0);
            lemma_ascending_distinct(b, w, i);
        }
        lemma_key_lt_trichotomy(ka, kb);
        if m > i {
            assert(key_lt(b[i].0, b[m].0));
            if w > i {
                assert(key_lt(a[i].0, a[w].0));
            }
        }
    }
}

/// The grouping of given pairs is unique: the pairs determine every key,
/// its place and its values.
pub proof fn lemma_grouping_unique(
    a: Seq<(Seq<char>, Group)>,
    b: Seq<(Seq<char>, Group)>,
    pairs: Seq<(Seq<char>, Seq<char>)>,
)
    requires
        is_grouping(a, pairs),
        is_grouping(b, pairs),
    ensures
        a == b,
{
    if a.len() > b.len() {
        lemma_grouping_keys(a, b, pairs, b.len() as int);
        let extra = a[b.len() as int].0;
        assert(values_for(pairs, extra).len() > 0);
        assert(has_key(b, extra));
        let m = choose|m: int| 0 <= m < b.len() && (#[trigger] b[m]).0 == extra;
        assert(a[m].0 == b[m].0);
        lemma_ascending_distinct(a, m, b.len() as int);
    } else if b.len() > a.len() {
        lemma_grouping_keys(a, b, pairs, a.len() as int);
        let extra = b[a.len() as int].0;
        assert(values_for(pairs, extra).len() > 0);
        assert(has_key(a, extra));
        let m = choose|m: int| 0 <= m < a.len() && (#[trigger] a[m]).0 == extra;
        assert(a[m].0 == b[m].0);
        lemma_ascending_distinct(b, m, a.len() as int);
    } else {
        lemma_grouping_keys(a, b, pairs, a.len() as int);
        assert forall|j: int| 0 <= j < a.len() implies a[j] == b[j] by {
            assert(a[j].0 == b[j].0);
            assert(a[j].1 == Group::of(values_for(pairs, a[j].0)));
            assert(b[j].1 == Group::of(values_for(pairs, b[j].0)));
        }
        assert(a =~= b);
    }
}

/// A grouping has no empty group, and its sequences hold two values or more.
proof fn lemma_grouping_filled(groups: Seq<(Seq<char>, Group)>, pairs: Seq<(Seq<char>, Seq<char>)>)
    requires
        is_grouping(groups, pairs),
    ensures
        groups_filled(groups),
{
}

/// Groups pairs by key. Each key of the input appears once in the result,
/// keys ascend in byte-wise order whatever the order of the input, and the
/// values of a key keep the order in which they were met: a key met once
/// holds a scalar, a key met again holds a sequence.
pub fn group_entries(pairs: Vec<(String, String)>) -> (res: Vec<(String, ValOrVec)>)
    ensures
        is_grouping(res.deep_view(), pairs.deep_view()),
{
    let mut res: Vec<(String, ValOrVec)> = Vec::new();
    let ghost raw = pairs@;
    let ghost all = pairs.deep_view();
    let ghost mut done: Seq<(Seq<char>, Seq<char>)> = Seq::empty();
    assert(is_grouping(res.deep_view(), done));
    for pair in it: pairs
        invariant
            it.seq() == raw,
            all.len() == raw.len(),
            forall|i: int| 0 <= i < raw.len() ==> all[i] == (raw[i].0@, raw[i].1@),
            done == all.take(it.index() as int),
            is_grouping(res.deep_view(), done),
    {
        let (key, value) = pair;
        let ghost before = res.deep_view();
        let (slot, found) = find_slot(&res, key.as_str());
        if found {
            res[slot].1.push(Part(value));
            proof {
                lemma_grouping_extend(before, done, slot as int, value@);
                assert(res.deep_view() =~= before.update(
                    slot as int,
                    (before[slot as int].0, Group::Vec(before[slot as int].1.values().push(value@))),
                ));
            }
        } else {
            res.insert(slot, (key, ValOrVec::Val(Part(value))));
            proof {
                lemma_grouping_insert(before, done, slot as int, key@, value@);
                assert(res.deep_view() =~= before.insert(slot as int, (key@, Group::Val(value@))));
            }
        }
        proof {
            assert(all.take(it.index() + 1) =~= done.push((key@, value@)));
            done = done.push((key@, value@));
        }
    }
    assert(all.take(all.len() as int) =~= all);
    res
}

} // verus!
