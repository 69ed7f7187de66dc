//! Records and tagged unions, described by an explicit list of fields.
//!
//! A record travels as its tag, a text, followed by its fields in the order
//! in which they were declared; nothing stands between two fields, and no
//! field carries its name or its length. A value of a tagged union travels
//! in the same way, with the name of its variant, qualified by the name of
//! the union, as its tag. A decoder is handed the description of the type it
//! is to read.
//!
//! The module holds, in this order: the types and their views; the model of
//! the codec, `encode_value` and `decode_value`; the laws of the model; the
//! executable codec, which computes what the model says.

use vstd::prelude::*;
use vstd::string::*;
use crate::error::{agrees, fault, is_truncation, DecodeError, DecodeErrorKind, Fault};
use crate::codec::Serialized;
use crate::literals::{decode_text, encode_text, leading_tag, push_all, Float32, Float64};
use crate::math::{decode_matrix, encode_matrix, Matrix, MatrixView, Vector};

verus! {

/// The type of a field.
#[derive(Debug, PartialEq, Eq)]
pub enum FieldType {
    U8,
    U16,
    U32,
    U64,
    Usize,
    I8,
    I16,
    I32,
    I64,
    Isize,
    F32,
    F64,
    Text,
    Vector,
    Matrix,
    /// A record: its tag and the types of its fields, in declaration order.
    Struct { tag: String, fields: Vec<FieldType> },
    /// A tagged union: its name and its variants, in declaration order.
    Enum { name: String, variants: Vec<VariantSchema> },
}

/// One variant of a tagged union: its name and the types of its fields, in
/// declaration order. A variant without fields has an empty list.
#[derive(Debug, PartialEq, Eq)]
pub struct VariantSchema {
    pub name: String,
    pub fields: Vec<FieldType>,
}

/// A value of one of the types that `FieldType` describes.
#[derive(Debug, PartialEq, Eq)]
pub enum Value {
    U8(u8),
    U16(u16),
    U32(u32),
    U64(u64),
    Usize(usize),
    I8(i8),
    I16(i16),
    I32(i32),
    I64(i64),
    Isize(isize),
    F32(Float32),
    F64(Float64),
    Text(String),
    Vector(Vector),
    Matrix(Matrix),
    /// A record or a value of a tagged union: the tag and the fields. The
    /// tag of a record is the tag of its type; the tag of a value of a union
    /// is the qualified name of its variant.
    Tagged { tag: String, fields: Vec<Value> },
}

/// A field type as specifications see it.
pub enum TypeView {
    U8,
    U16,
    U32,
    U64,
    Usize,
    I8,
    I16,
    I32,
    I64,
    Isize,
    F32,
    F64,
    Text,
    Vector,
    Matrix,
    Struct { tag: Seq<char>, fields: Seq<TypeView> },
    Enum { name: Seq<char>, variants: Seq<VariantView> },
}

/// A variant as specifications see it.
pub struct VariantView {
    pub name: Seq<char>,
    pub fields: Seq<TypeView>,
}

/// A value as specifications see it.
pub enum ValueView {
    U8(u8),
    U16(u16),
    U32(u32),
    U64(u64),
    Usize(usize),
    I8(i8),
    I16(i16),
    I32(i32),
    I64(i64),
    Isize(isize),
    F32(u32),
    F64(u64),
    Text(Seq<char>),
    Vector(Seq<u64>),
    Matrix(MatrixView),
    Tagged { tag: Seq<char>, fields: Seq<ValueView> },
}

impl View for FieldType {
    type V = TypeView;

    open spec fn view(&self) -> TypeView
        decreases self, 0nat,
    {
        match self {
            FieldType::U8 => TypeView::U8,
            FieldType::U16 => TypeView::U16,
            FieldType::U32 => TypeView::U32,
            FieldType::U64 => TypeView::U64,
            FieldType::Usize => TypeView::Usize,
            FieldType::I8 => TypeView::I8,
            FieldType::I16 => TypeView::I16,
            FieldType::I32 => TypeView::I32,
            FieldType::I64 => TypeView::I64,
            FieldType::Isize => TypeView::Isize,
            FieldType::F32 => TypeView::F32,
            FieldType::F64 => TypeView::F64,
            FieldType::Text => TypeView::Text,
            FieldType::Vector => TypeView::Vector,
            FieldType::Matrix => TypeView::Matrix,
            FieldType::Struct { tag, fields } => TypeView::Struct {
                tag: tag@,
                fields: type_views(fields@),
            },
            FieldType::Enum { name, variants } => TypeView::Enum {
                name: name@,
                variants: variant_views(variants@),
            },
        }
    }
}

/// The views of the field types of `types`, in order.
pub open spec fn type_views(types: Seq<FieldType>) -> Seq<TypeView>
    decreases types, 1nat,
{
    Seq::new(
        types.len(),
        |i: int|
            if 0 <= i < types.len() {
                types[i]@
            } else {
                TypeView::U8
            },
    )
}

impl View for VariantSchema {
    type V = VariantView;

    open spec fn view(&self) -> VariantView
        decreases self, 0nat,
    {
        VariantView { name: self.name@, fields: type_views(self.fields@) }
    }
}

/// The views of the variants of `variants`, in order.
pub open spec fn variant_views(variants: Seq<VariantSchema>) -> Seq<VariantView>
    decreases variants, 1nat,
{
    Seq::new(
        variants.len(),
        |k: int|
            if 0 <= k < variants.len() {
                variants[k]@
            } else {
                VariantView { name: Seq::empty(), fields: Seq::empty() }
            },
    )
}

impl View for Value {
    type V = ValueView;

    open spec fn view(&self) -> ValueView
        decreases self, 0nat,
    {
        match self {
            Value::U8(x) => ValueView::U8(*x),
            Value::U16(x) => ValueView::U16(*x),
            Value::U32(x) => ValueView::U32(*x),
            Value::U64(x) => ValueView::U64(*x),
            Value::Usize(x) => ValueView::Usize(*x),
            Value::I8(x) => ValueView::I8(*x),
            Value::I16(x) => ValueView::I16(*x),
            Value::I32(x) => ValueView::I32(*x),
            Value::I64(x) => ValueView::I64(*x),
            Value::Isize(x) => ValueView::Isize(*x),
            Value::F32(x) => ValueView::F32(x@),
            Value::F64(x) => ValueView::F64(x@),
            Value::Text(s) => ValueView::Text(s@),
            Value::Vector(v) => ValueView::Vector(v@),
            Value::Matrix(m) => ValueView::Matrix(m@),
            Value::Tagged { tag, fields } => ValueView::Tagged {
                tag: tag@,
                fields: value_views(fields@),
            },
        }
    }
}

/// The views of the values of `values`, in order.
pub open spec fn value_views(values: Seq<Value>) -> Seq<ValueView>
    decreases values, 1nat,
{
    Seq::new(
        values.len(),
        |i: int|
            if 0 <= i < values.len() {
                values[i]@
            } else {
                ValueView::U8(0)
            },
    )
}

/// The tag of the variant `variant` of the union `name`: the two names with
/// `::` between them.
pub open spec fn variant_tag(name: Seq<char>, variant: Seq<char>) -> Seq<char> {
    name + "::"@ + variant
}

/// The first variant at or after `from` whose tag is `tag`, if there is one.
pub open spec fn find_variant(
    name: Seq<char>,
    variants: Seq<VariantView>,
    tag: Seq<char>,
    from: int,
) -> Option<int>
    decreases variants.len() - from,
{
    if from < 0 || from >= variants.len() {
        None
    } else if variant_tag(name, variants[from].name) == tag {
        Some(from)
    } else {
        find_variant(name, variants, tag, from + 1)
    }
}

/// Whether `v` is a value of the type `t`, and one that can be written down.
/// A value of a union belongs to the first variant that has its tag.
pub open spec fn conforms(v: ValueView, t: TypeView) -> bool
    decreases t, 0nat,
{
    match t {
        TypeView::U8 => v is U8,
        TypeView::U16 => v is U16,
        TypeView::U32 => v is U32,
        TypeView::U64 => v is U64,
        TypeView::Usize => v is Usize,
        TypeView::I8 => v is I8,
        TypeView::I16 => v is I16,
        TypeView::I32 => v is I32,
        TypeView::I64 => v is I64,
        TypeView::Isize => v is Isize,
        TypeView::F32 => v is F32,
        TypeView::F64 => v is F64,
        TypeView::Text => v matches ValueView::Text(s) && String::valid(s),
        TypeView::Vector => v matches ValueView::Vector(s) && Vector::valid(s),
        TypeView::Matrix => v matches ValueView::Matrix(m) && Matrix::valid(m),
        TypeView::Struct { tag, fields } => {
            &&& v matches ValueView::Tagged { tag: found, fields: values }
            &&& found == tag
            &&& String::valid(found)
            &&& conforms_all(values, fields)
        },
        TypeView::Enum { name, variants } => {
            &&& v matches ValueView::Tagged { tag: found, fields: values }
            &&& String::valid(found)
            &&& match find_variant(name, variants, found, 0) {
                Some(k) => 0 <= k < variants.len() && conforms_all(values, variants[k].fields),
                None => false,
            }
        },
    }
}

/// Whether `values` has one value of each of the types `types`, in order.
pub open spec fn conforms_all(values: Seq<ValueView>, types: Seq<TypeView>) -> bool
    decreases types, 1nat,
{
    if types.len() == 0 {
        values.len() == 0
    } else {
        &&& values.len() > 0
        &&& conforms(values[0], types[0])
        &&& conforms_all(values.drop_first(), types.drop_first())
    }
}

/// The bytes that encode `v`.
pub open spec fn encode_value(v: ValueView) -> Seq<u8>
    decreases v, 0nat,
{
    match v {
        ValueView::U8(x) => u8::encode_spec(x),
        ValueView::U16(x) => u16::encode_spec(x),
        ValueView::U32(x) => u32::encode_spec(x),
        ValueView::U64(x) => u64::encode_spec(x),
        ValueView::Usize(x) => usize::encode_spec(x),
        ValueView::I8(x) => i8::encode_spec(x),
        ValueView::I16(x) => i16::encode_spec(x),
        ValueView::I32(x) => i32::encode_spec(x),
        ValueView::I64(x) => i64::encode_spec(x),
        ValueView::Isize(x) => isize::encode_spec(x),
        ValueView::F32(x) => Float32::encode_spec(x),
        ValueView::F64(x) => Float64::encode_spec(x),
        ValueView::Text(s) => encode_text(s),
        ValueView::Vector(s) => Vector::encode_spec(s),
        ValueView::Matrix(m) => encode_matrix(m),
        ValueView::Tagged { tag, fields } => encode_text(tag) + encode_fields(fields),
    }
}

/// The bytes that encode the fields `values`: the encodings of the fields,
/// one after the other.
pub open spec fn encode_fields(values: Seq<ValueView>) -> Seq<u8>
    decreases values, 1nat,
{
    if values.len() == 0 {
        Seq::empty()
    } else {
        encode_value(values[0]) + encode_fields(values.drop_first())
    }
}

/// The outcome `r` of a decoder of a scalar, as the outcome of a decoder of
/// values: `wrap` makes the value.
pub open spec fn lifted<A>(r: Result<(A, nat), Fault>, wrap: spec_fn(A) -> ValueView) -> Result<
    (ValueView, nat),
    Fault,
> {
    match r {
        Ok((x, n)) => Ok((wrap(x), n)),
        Err(f) => Err(f),
    }
}

/// The outcome `r` of decoding the fields of a record whose tag `tag` took
/// up the first `n` bytes, as the outcome of decoding the record.
pub open spec fn after_tag(tag: Seq<char>, n: nat, r: Result<(Seq<ValueView>, nat), Fault>) -> Result<
    (ValueView, nat),
    Fault,
> {
    match r {
        Ok((values, m)) => Ok((ValueView::Tagged { tag, fields: values }, n + m)),
        Err(f) => Err(f.shifted(n)),
    }
}

/// The outcome `r` of decoding the fields that follow the fields `done` of
/// `n` bytes in all, as the outcome of decoding `done` and them.
pub open spec fn after_fields(
    done: Seq<ValueView>,
    n: nat,
    r: Result<(Seq<ValueView>, nat), Fault>,
) -> Result<(Seq<ValueView>, nat), Fault> {
    match r {
        Ok((values, m)) => Ok((done + values, n + m)),
        Err(f) => Err(f.shifted(n)),
    }
}

/// What a decoder of the type `t` makes of `data`, read from its first byte.
pub open spec fn decode_value(t: TypeView, data: Seq<u8>) -> Result<(ValueView, nat), Fault>
    decreases t, 0nat,
{
    match t {
        TypeView::U8 => lifted(u8::decode_spec(data), |x: u8| ValueView::U8(x)),
        TypeView::U16 => lifted(u16::decode_spec(data), |x: u16| ValueView::U16(x)),
        TypeView::U32 => lifted(u32::decode_spec(data), |x: u32| ValueView::U32(x)),
        TypeView::U64 => lifted(u64::decode_spec(data), |x: u64| ValueView::U64(x)),
        TypeView::Usize => lifted(usize::decode_spec(data), |x: usize| ValueView::Usize(x)),
        TypeView::I8 => lifted(i8::decode_spec(data), |x: i8| ValueView::I8(x)),
        TypeView::I16 => lifted(i16::decode_spec(data), |x: i16| ValueView::I16(x)),
        TypeView::I32 => lifted(i32::decode_spec(data), |x: i32| ValueView::I32(x)),
        TypeView::I64 => lifted(i64::decode_spec(data), |x: i64| ValueView::I64(x)),
        TypeView::Isize => lifted(isize::decode_spec(data), |x: isize| ValueView::Isize(x)),
        TypeView::F32 => lifted(Float32::decode_spec(data), |x: u32| ValueView::F32(x)),
        TypeView::F64 => lifted(Float64::decode_spec(data), |x: u64| ValueView::F64(x)),
        TypeView::Text => lifted(decode_text(data), |s: Seq<char>| ValueView::Text(s)),
        TypeView::Vector => lifted(Vector::decode_spec(data), |s: Seq<u64>| ValueView::Vector(s)),
        TypeView::Matrix => lifted(decode_matrix(data), |m: MatrixView| ValueView::Matrix(m)),
        TypeView::Struct { tag, fields } => match decode_text(data) {
            Err(f) => Err(f),
            Ok((found, n)) => if found != tag {
                Err(fault(DecodeErrorKind::TagMismatch, 0))
            } else {
                after_tag(found, n, decode_fields(fields, data.subrange(n as int, data.len() as int)))
            },
        },
        TypeView::Enum { name, variants } => match decode_text(data) {
            Err(f) => Err(f),
            Ok((found, n)) => match find_variant(name, variants, found, 0) {
                None => Err(fault(DecodeErrorKind::UnknownTag, 0)),
                Some(k) => if 0 <= k < variants.len() {
                    after_tag(
                        found,
                        n,
                        decode_fields(variants[k].fields, data.subrange(n as int, data.len() as int)),
                    )
                } else {
                    Err(fault(DecodeErrorKind::UnknownTag, 0))
                },
            },
        },
    }
}

/// What a decoder of fields of the types `types` makes of `data`: each field
/// is read where the one before it ended.
pub open spec fn decode_fields(types: Seq<TypeView>, data: Seq<u8>) -> Result<
    (Seq<ValueView>, nat),
    Fault,
>
    decreases types, 1nat,
{
    if types.len() == 0 {
        Ok((Seq::empty(), 0))
    } else {
        match decode_value(types[0], data) {
            Err(f) => Err(f),
            Ok((v, n)) => after_fields(
                seq![v],
                n,
                decode_fields(types.drop_first(), data.subrange(n as int, data.len() as int)),
            ),
        }
    }
}

/// What `find_variant` finds lies at or after `from`, has the tag, and is
/// the first to have it.
pub proof fn lemma_find_variant(
    name: Seq<char>,
    variants: Seq<VariantView>,
    tag: Seq<char>,
    from: int,
)
    requires
        0 <= from,
    ensures
        match find_variant(name, variants, tag, from) {
            Some(k) => {
                &&& from <= k < variants.len()
                &&& variant_tag(name, variants[k].name) == tag
                &&& forall|j: int| from <= j < k ==> variant_tag(name, variants[j].name) != tag
            },
            None => forall|j: int|
                from <= j < variants.len() ==> variant_tag(name, variants[j].name) != tag,
        },
    decreases variants.len() - from,
{
    if from < variants.len() && variant_tag(name, variants[from].name) != tag {
        lemma_find_variant(name, variants, tag, from + 1);
    }
}

/// Appending a field appends its encoding.
pub proof fn lemma_encode_fields_push(values: Seq<ValueView>, v: ValueView)
    ensures
        encode_fields(values.push(v)) == encode_fields(values) + encode_value(v),
    decreases values.len(),
{
    if values.len() == 0 {
        assert(values.push(v).drop_first() =~= Seq::<ValueView>::empty());
        assert(encode_fields(values.push(v)) =~= encode_value(v) + encode_fields(
            Seq::<ValueView>::empty(),
        ));
        assert(encode_fields(values.push(v)) =~= encode_fields(values) + encode_value(v));
    } else {
        lemma_encode_fields_push(values.drop_first(), v);
        assert(values.push(v).drop_first() =~= values.drop_first().push(v));
        assert(encode_fields(values.push(v)) =~= encode_fields(values) + encode_value(v));
    }
}

/// Round trip: the encoding of a value of the type `t` decodes, as `t`, to
/// the value and to the length of the encoding, whatever bytes follow it.
pub proof fn lemma_value_round_trip(t: TypeView, v: ValueView, rest: Seq<u8>)
    requires
        conforms(v, t),
    ensures
        decode_value(t, encode_value(v) + rest) == Ok::<(ValueView, nat), Fault>(
            (v, encode_value(v).len()),
        ),
    decreases t, 0nat,
{
    match t {
        TypeView::U8 => u8::lemma_round_trip(v->U8_0, rest),
        TypeView::U16 => u16::lemma_round_trip(v->U16_0, rest),
        TypeView::U32 => u32::lemma_round_trip(v->U32_0, rest),
        TypeView::U64 => u64::lemma_round_trip(v->U64_0, rest),
        TypeView::Usize => usize::lemma_round_trip(v->Usize_0, rest),
        TypeView::I8 => i8::lemma_round_trip(v->I8_0, rest),
        TypeView::I16 => i16::lemma_round_trip(v->I16_0, rest),
        TypeView::I32 => i32::lemma_round_trip(v->I32_0, rest),
        TypeView::I64 => i64::lemma_round_trip(v->I64_0, rest),
        TypeView::Isize => isize::lemma_round_trip(v->Isize_0, rest),
        TypeView::F32 => Float32::lemma_round_trip(v->F32_0, rest),
        TypeView::F64 => Float64::lemma_round_trip(v->F64_0, rest),
        TypeView::Text => String::lemma_round_trip(v->Text_0, rest),
        TypeView::Vector => Vector::lemma_round_trip(v->Vector_0, rest),
        TypeView::Matrix => Matrix::lemma_round_trip(v->Matrix_0, rest),
        TypeView::Struct { tag, fields } => {
            lemma_tagged_round_trip(v->tag, fields, v->fields, rest);
        },
        TypeView::Enum { name, variants } => {
            let k = find_variant(name, variants, v->tag, 0)->0;
            lemma_tagged_round_trip(v->tag, variants[k].fields, v->fields, rest);
        },
    }
}

/// Round trip of what a record and a value of a union have in common: the
/// tag is read back, and the fields after it.
pub proof fn lemma_tagged_round_trip(
    tag: Seq<char>,
    types: Seq<TypeView>,
    values: Seq<ValueView>,
    rest: Seq<u8>,
)
    requires
        String::valid(tag),
        conforms_all(values, types),
    ensures
        ({
            let data = encode_text(tag) + encode_fields(values) + rest;
            let n = encode_text(tag).len();
            &&& decode_text(data) == Ok::<(Seq<char>, nat), Fault>((tag, n))
            &&& decode_fields(types, data.subrange(n as int, data.len() as int)) == Ok::<
                (Seq<ValueView>, nat),
                Fault,
            >((values, encode_fields(values).len()))
        }),
    decreases types, 2nat,
{
    let data = encode_text(tag) + encode_fields(values) + rest;
    let n = encode_text(tag).len();
    assert(data =~= encode_text(tag) + (encode_fields(values) + rest));
    String::lemma_round_trip(tag, encode_fields(values) + rest);
    assert(data.subrange(n as int, data.len() as int) =~= encode_fields(values) + rest);
    lemma_fields_round_trip(types, values, rest);
}

/// Round trip of a list of fields.
pub proof fn lemma_fields_round_trip(types: Seq<TypeView>, values: Seq<ValueView>, rest: Seq<u8>)
    requires
        conforms_all(values, types),
    ensures
        decode_fields(types, encode_fields(values) + rest) == Ok::<(Seq<ValueView>, nat), Fault>(
            (values, encode_fields(values).len()),
        ),
    decreases types, 1nat,
{
    if types.len() > 0 {
        let first = encode_value(values[0]);
        let tail = encode_fields(values.drop_first());
        let data = encode_fields(values) + rest;
        assert(data =~= first + (tail + rest));
        lemma_value_round_trip(types[0], values[0], tail + rest);
        assert(data.subrange(first.len() as int, data.len() as int) =~= tail + rest);
        lemma_fields_round_trip(types.drop_first(), values.drop_first(), rest);
        assert(seq![values[0]] + values.drop_first() =~= values);
    } else {
        assert(values =~= Seq::<ValueView>::empty());
    }
}

/// A cut encoding is truncated input: a decoder of the type `t` that is
/// handed the encoding of a value of `t` without its last byte, or without
/// more of its end, fails for want of input.
pub proof fn lemma_cut_value(t: TypeView, v: ValueView, cut: int)
    requires
        conforms(v, t),
        0 <= cut < encode_value(v).len(),
    ensures
        is_truncation(decode_value(t, encode_value(v).subrange(0, cut))),
    decreases t, 0nat,
{
    match t {
        TypeView::U8 => u8::lemma_cut_is_truncated(v->U8_0, cut),
        TypeView::U16 => u16::lemma_cut_is_truncated(v->U16_0, cut),
        TypeView::U32 => u32::lemma_cut_is_truncated(v->U32_0, cut),
        TypeView::U64 => u64::lemma_cut_is_truncated(v->U64_0, cut),
        TypeView::Usize => usize::lemma_cut_is_truncated(v->Usize_0, cut),
        TypeView::I8 => i8::lemma_cut_is_truncated(v->I8_0, cut),
        TypeView::I16 => i16::lemma_cut_is_truncated(v->I16_0, cut),
        TypeView::I32 => i32::lemma_cut_is_truncated(v->I32_0, cut),
        TypeView::I64 => i64::lemma_cut_is_truncated(v->I64_0, cut),
        TypeView::Isize => isize::lemma_cut_is_truncated(v->Isize_0, cut),
        TypeView::F32 => Float32::lemma_cut_is_truncated(v->F32_0, cut),
        TypeView::F64 => Float64::lemma_cut_is_truncated(v->F64_0, cut),
        TypeView::Text => String::lemma_cut_is_truncated(v->Text_0, cut),
        TypeView::Vector => Vector::lemma_cut_is_truncated(v->Vector_0, cut),
        TypeView::Matrix => Matrix::lemma_cut_is_truncated(v->Matrix_0, cut),
        TypeView::Struct { tag, fields } => {
            lemma_cut_tagged(v->tag, fields, v->fields, cut);
        },
        TypeView::Enum { name, variants } => {
            let k = find_variant(name, variants, v->tag, 0)->0;
            lemma_cut_tagged(v->tag, variants[k].fields, v->fields, cut);
            let tag = encode_text(v->tag);
            if cut >= tag.len() {
                let left = cut - tag.len();
                let data = encode_value(v).subrange(0, cut);
                assert(data =~= tag + encode_fields(v->fields).subrange(0, left));
                String::lemma_round_trip(v->tag, encode_fields(v->fields).subrange(0, left));
            }
        },
    }
}

/// The part of `lemma_cut_value` that a record and a value of a union have
/// in common: a cut inside the tag stops the reader of the tag, and a cut
/// after it stops the reader of the fields.
pub proof fn lemma_cut_tagged(
    tag: Seq<char>,
    types: Seq<TypeView>,
    values: Seq<ValueView>,
    cut: int,
)
    requires
        String::valid(tag),
        conforms_all(values, types),
        0 <= cut < encode_text(tag).len() + encode_fields(values).len(),
    ensures
        ({
            let data = (encode_text(tag) + encode_fields(values)).subrange(0, cut);
            match decode_text(data) {
                Err(f) => f.kind == DecodeErrorKind::Truncated,
                Ok((found, n)) => found == tag && is_truncation(
                    after_tag(
                        found,
                        n,
                        decode_fields(types, data.subrange(n as int, data.len() as int)),
                    ),
                ),
            }
        }),
    decreases types, 2nat,
{
    let head = encode_text(tag);
    let body = encode_fields(values);
    let data = (head + body).subrange(0, cut);
    if cut < head.len() {
        assert(data =~= head.subrange(0, cut));
        String::lemma_cut_is_truncated(tag, cut);
    } else {
        let left = cut - head.len();
        assert(data =~= head + body.subrange(0, left));
        String::lemma_round_trip(tag, body.subrange(0, left));
        assert(data.subrange(head.len() as int, data.len() as int) =~= body.subrange(0, left));
        lemma_cut_fields(types, values, left);
    }
}

/// A cut list of fields is truncated input.
pub proof fn lemma_cut_fields(types: Seq<TypeView>, values: Seq<ValueView>, cut: int)
    requires
        conforms_all(values, types),
        0 <= cut < encode_fields(values).len(),
    ensures
        is_truncation(decode_fields(types, encode_fields(values).subrange(0, cut))),
    decreases types, 1nat,
{
    let first = encode_value(values[0]);
    let tail = encode_fields(values.drop_first());
    let data = encode_fields(values).subrange(0, cut);
    if cut < first.len() {
        assert(data =~= first.subrange(0, cut));
        lemma_cut_value(types[0], values[0], cut);
    } else {
        let left = cut - first.len();
        assert(data =~= first + tail.subrange(0, left));
        lemma_value_round_trip(types[0], values[0], tail.subrange(0, left));
        assert(data.subrange(first.len() as int, data.len() as int) =~= tail.subrange(0, left));
        lemma_cut_fields(types.drop_first(), values.drop_first(), left);
    }
}

/// No lookahead: a decoder of values looks at no byte after those that it
/// takes up. Where it gives a value for `data`, it gives the same value,
/// and takes up as many bytes, for any input that starts with the bytes it
/// took up.
pub proof fn lemma_value_ignores_what_follows(t: TypeView, data: Seq<u8>, other: Seq<u8>)
    ensures
        match decode_value(t, data) {
            Ok((v, n)) => decode_value(t, data.subrange(0, n as int) + other) == Ok::<
                (ValueView, nat),
                Fault,
            >((v, n)),
            Err(_) => true,
        },
{
    lemma_decode_value_within(t, data);
    if let Ok((v, n)) = decode_value(t, data) {
        lemma_value_round_trip(t, v, other);
    }
}

/// Offset additivity for values: where the encoding of `b` follows that of
/// `a`, decoding at the first byte gives `a` and the length of its encoding,
/// and decoding at that length gives `b`.
pub proof fn lemma_value_offset_additivity(
    ta: TypeView,
    a: ValueView,
    tb: TypeView,
    b: ValueView,
    rest: Seq<u8>,
)
    requires
        conforms(a, ta),
        conforms(b, tb),
    ensures
        ({
            let data = encode_value(a) + encode_value(b) + rest;
            let n = encode_value(a).len();
            &&& decode_value(ta, data) == Ok::<(ValueView, nat), Fault>((a, n))
            &&& decode_value(tb, data.subrange(n as int, data.len() as int)) == Ok::<
                (ValueView, nat),
                Fault,
            >((b, encode_value(b).len()))
        }),
{
    let data = encode_value(a) + encode_value(b) + rest;
    let n = encode_value(a).len();
    assert(data =~= encode_value(a) + (encode_value(b) + rest));
    lemma_value_round_trip(ta, a, encode_value(b) + rest);
    assert(data.subrange(n as int, data.len() as int) =~= encode_value(b) + rest);
    lemma_value_round_trip(tb, b, rest);
}

/// Tag rejection: a decoder of records succeeds only on an input that
/// starts with the tag of the record's type, and it fails with a tag
/// mismatch on an input that starts with another tag.
pub proof fn lemma_tag_rejection(tag: Seq<char>, fields: Seq<TypeView>, data: Seq<u8>)
    ensures
        decode_value(TypeView::Struct { tag, fields }, data) is Ok ==> leading_tag(data) == Some(
            tag,
        ),
        leading_tag(data) is Some && leading_tag(data) != Some(tag) ==> decode_value(
            TypeView::Struct { tag, fields },
            data,
        ) == Err::<(ValueView, nat), Fault>(fault(DecodeErrorKind::TagMismatch, 0)),
{
}

/// Closed dispatch: a decoder of a union succeeds only on an input that
/// starts with the tag of one of its variants, and it fails with an unknown
/// tag on an input that starts with another text.
pub proof fn lemma_unknown_variant(name: Seq<char>, variants: Seq<VariantView>, data: Seq<u8>)
    ensures
        decode_value(TypeView::Enum { name, variants }, data) is Ok ==> exists|k: int|
            0 <= k < variants.len() && leading_tag(data) == Some(
                variant_tag(name, #[trigger] variants[k].name),
            ),
        leading_tag(data) is Some && (forall|k: int|
            0 <= k < variants.len() ==> leading_tag(data) != Some(
                variant_tag(name, #[trigger] variants[k].name),
            )) ==> decode_value(TypeView::Enum { name, variants }, data) == Err::<
            (ValueView, nat),
            Fault,
        >(fault(DecodeErrorKind::UnknownTag, 0)),
{
    if let Ok((found, _)) = decode_text(data) {
        lemma_find_variant(name, variants, found, 0);
    }
}

/// A decoder of values stays inside its input: what it takes up is a prefix
/// of the input, the value is of the type asked for, and it encodes to that
/// prefix again; a failure lies at an offset of the input.
pub proof fn lemma_decode_value_within(t: TypeView, data: Seq<u8>)
    ensures
        match decode_value(t, data) {
            Ok((v, n)) => n <= data.len() && conforms(v, t) && encode_value(v) == data.subrange(
                0,
                n as int,
            ),
            Err(f) => f.at <= data.len(),
        },
    decreases t, 0nat,
{
    match t {
        TypeView::U8 => u8::lemma_decode_within(data),
        TypeView::U16 => u16::lemma_decode_within(data),
        TypeView::U32 => u32::lemma_decode_within(data),
        TypeView::U64 => u64::lemma_decode_within(data),
        TypeView::Usize => usize::lemma_decode_within(data),
        TypeView::I8 => i8::lemma_decode_within(data),
        TypeView::I16 => i16::lemma_decode_within(data),
        TypeView::I32 => i32::lemma_decode_within(data),
        TypeView::I64 => i64::lemma_decode_within(data),
        TypeView::Isize => isize::lemma_decode_within(data),
        TypeView::F32 => Float32::lemma_decode_within(data),
        TypeView::F64 => Float64::lemma_decode_within(data),
        TypeView::Text => String::lemma_decode_within(data),
        TypeView::Vector => Vector::lemma_decode_within(data),
        TypeView::Matrix => Matrix::lemma_decode_within(data),
        TypeView::Struct { tag, fields } => {
            lemma_decode_tagged_within(fields, data);
        },
        TypeView::Enum { name, variants } => {
            String::lemma_decode_within(data);
            if let Ok((found, n)) = decode_text(data) {
                lemma_find_variant(name, variants, found, 0);
                if let Some(k) = find_variant(name, variants, found, 0) {
                    lemma_decode_tagged_within(variants[k].fields, data);
                }
            }
        },
    }
}

/// The part of `lemma_decode_value_within` that a record and a value of a
/// union have in common.
pub proof fn lemma_decode_tagged_within(types: Seq<TypeView>, data: Seq<u8>)
    ensures
        match decode_text(data) {
            Ok((found, n)) => {
                &&& n <= data.len()
                &&& String::valid(found)
                &&& match after_tag(
                    found,
                    n,
                    decode_fields(types, data.subrange(n as int, data.len() as int)),
                ) {
                    Ok((v, total)) => {
                        &&& total <= data.len()
                        &&& conforms_all(v->fields, types)
                        &&& encode_value(v) == data.subrange(0, total as int)
                    },
                    Err(f) => f.at <= data.len(),
                }
            },
            Err(f) => f.at <= data.len(),
        },
    decreases types, 2nat,
{
    String::lemma_decode_within(data);
    if let Ok((found, n)) = decode_text(data) {
        let after = data.subrange(n as int, data.len() as int);
        lemma_decode_fields_within(types, after);
        if let Ok((values, m)) = decode_fields(types, after) {
            assert(after.subrange(0, m as int) =~= data.subrange(n as int, (n + m) as int));
            assert(data.subrange(0, (n + m) as int) =~= data.subrange(0, n as int) + data.subrange(
                n as int,
                (n + m) as int,
            ));
        }
    }
}

/// A decoder of fields stays inside its input.
pub proof fn lemma_decode_fields_within(types: Seq<TypeView>, data: Seq<u8>)
    ensures
        match decode_fields(types, data) {
            Ok((values, n)) => n <= data.len() && conforms_all(values, types) && encode_fields(
                values,
            ) == data.subrange(0, n as int),
            Err(f) => f.at <= data.len(),
        },
    decreases types, 1nat,
{
    if types.len() == 0 {
        assert(encode_fields(Seq::<ValueView>::empty()) =~= data.subrange(0, 0));
    } else {
        lemma_decode_value_within(types[0], data);
        if let Ok((v, n)) = decode_value(types[0], data) {
            let after = data.subrange(n as int, data.len() as int);
            lemma_decode_fields_within(types.drop_first(), after);
            if let Ok((values, m)) = decode_fields(types.drop_first(), after) {
                let all = seq![v] + values;
                assert(all.drop_first() =~= values);
                assert(after.subrange(0, m as int) =~= data.subrange(n as int, (n + m) as int));
                assert(data.subrange(0, (n + m) as int) =~= data.subrange(0, n as int) + data.subrange(
                    n as int,
                    (n + m) as int,
                ));
            }
        }
    }
}

/// Reading one more field after the fields `done`: the field joins them.
proof fn lemma_after_fields_step(
    done: Seq<ValueView>,
    at: nat,
    v: ValueView,
    n: nat,
    r: Result<(Seq<ValueView>, nat), Fault>,
)
    ensures
        after_fields(done, at, after_fields(seq![v], n, r)) == after_fields(done.push(v), at + n, r),
{
    match r {
        Ok((values, m)) => {
            assert(done + (seq![v] + values) =~= done.push(v) + values);
        },
        Err(f) => {},
    }
}

/// The tag of the variant `variant` of the union `name`: the two names with
/// `::` between them.
pub fn variant_name_str(name: &str, variant: &str) -> (tag: String)
    ensures
        tag@ == variant_tag(name@, variant@),
{
    let mut tag: String = name.to_owned();
    tag.append("::");
    tag.append(variant);
    tag
}

/// The first variant of the union `name` whose tag is `tag`, if there is one.
fn lookup_variant(name: &String, variants: &Vec<VariantSchema>, tag: &String) -> (found: Option<
    usize,
>)
    ensures
        match found {
            Some(k) => k < variants.len() && find_variant(
                name@,
                variant_views(variants@),
                tag@,
                0,
            ) == Some(k as int),
            None => find_variant(name@, variant_views(variants@), tag@, 0) is None,
        },
{
    let mut k: usize = 0;
    while k < variants.len()
        invariant
            k <= variants.len(),
            find_variant(name@, variant_views(variants@), tag@, 0) == find_variant(
                name@,
                variant_views(variants@),
                tag@,
                k as int,
            ),
        decreases variants.len() - k,
    {
        let candidate: String = variant_name_str(name.as_str(), variants[k].name.as_str());
        if candidate == *tag {
            return Some(k);
        }
        k = k + 1;
    }
    None
}

/// Appends the encoding of `v` to `out`.
fn write_value(v: &Value, out: &mut Vec<u8>)
    ensures
        final(out)@ == old(out)@ + encode_value(v@),
    decreases v, 0nat,
{
    match v {
        Value::U8(x) => {
            let bytes: Vec<u8> = x.serialize_binary();
            push_all(out, bytes.as_slice());
        },
        Value::U16(x) => {
            let bytes: Vec<u8> = x.serialize_binary();
            push_all(out, bytes.as_slice());
        },
        Value::U32(x) => {
            let bytes: Vec<u8> = x.serialize_binary();
            push_all(out, bytes.as_slice());
        },
        Value::U64(x) => {
            let bytes: Vec<u8> = x.serialize_binary();
            push_all(out, bytes.as_slice());
        },
        Value::Usize(x) => {
            let bytes: Vec<u8> = x.serialize_binary();
            push_all(out, bytes.as_slice());
        },
        Value::I8(x) => {
            let bytes: Vec<u8> = x.serialize_binary();
            push_all(out, bytes.as_slice());
        },
        Value::I16(x) => {
            let bytes: Vec<u8> = x.serialize_binary();
            push_all(out, bytes.as_slice());
        },
        Value::I32(x) => {
            let bytes: Vec<u8> = x.serialize_binary();
            push_all(out, bytes.as_slice());
        },
        Value::I64(x) => {
            let bytes: Vec<u8> = x.serialize_binary();
            push_all(out, bytes.as_slice());
        },
        Value::Isize(x) => {
            let bytes: Vec<u8> = x.serialize_binary();
            push_all(out, bytes.as_slice());
        },
        Value::F32(x) => {
            let bytes: Vec<u8> = x.serialize_binary();
            push_all(out, bytes.as_slice());
        },
        Value::F64(x) => {
            let bytes: Vec<u8> = x.serialize_binary();
            push_all(out, bytes.as_slice());
        },
        Value::Text(s) => {
            let bytes: Vec<u8> = s.serialize_binary();
            push_all(out, bytes.as_slice());
        },
        Value::Vector(x) => {
            let bytes: Vec<u8> = x.serialize_binary();
            push_all(out, bytes.as_slice());
        },
        Value::Matrix(m) => {
            let bytes: Vec<u8> = m.serialize_binary();
            push_all(out, bytes.as_slice());
        },
        Value::Tagged { tag, fields } => {
            let bytes: Vec<u8> = tag.serialize_binary();
            push_all(out, bytes.as_slice());
            write_fields(fields, out);
            assert(out@ =~= old(out)@ + encode_value(v@));
        },
    }
}

/// Appends the encodings of `values`, one after the other, to `out`.
fn write_fields(values: &Vec<Value>, out: &mut Vec<u8>)
    ensures
        final(out)@ == old(out)@ + encode_fields(value_views(values@)),
    decreases values, 1nat,
{
    let ghost views = value_views(values@);
    let mut i: usize = 0;
    assert(out@ =~= old(out)@ + encode_fields(views.take(0)));
    while i < values.len()
        invariant
            i <= values.len(),
            views == value_views(values@),
            out@ == old(out)@ + encode_fields(views.take(i as int)),
        decreases values.len() - i,
    {
        write_value(&values[i], out);
        proof {
            lemma_encode_fields_push(views.take(i as int), values[i as int]@);
            assert(views.take(i as int).push(values[i as int]@) =~= views.take(i + 1));
            assert(out@ =~= old(out)@ + encode_fields(views.take(i + 1)));
        }
        i = i + 1;
    }
    assert(views.take(values.len() as int) =~= views);
}

/// Reads a value of the type `t` from the front of `data`.
fn read_value(t: &FieldType, data: &[u8]) -> (r: Result<(Value, usize), DecodeError>)
    ensures
        agrees(r, decode_value(t@, data@)),
    decreases t, 0nat,
{
    match t {
        FieldType::U8 => match u8::deserialize_binary(data) {
            Ok((x, n)) => Ok((Value::U8(x), n)),
            Err(e) => Err(e),
        },
        FieldType::U16 => match u16::deserialize_binary(data) {
            Ok((x, n)) => Ok((Value::U16(x), n)),
            Err(e) => Err(e),
        },
        FieldType::U32 => match u32::deserialize_binary(data) {
            Ok((x, n)) => Ok((Value::U32(x), n)),
            Err(e) => Err(e),
        },
        FieldType::U64 => match u64::deserialize_binary(data) {
            Ok((x, n)) => Ok((Value::U64(x), n)),
            Err(e) => Err(e),
        },
        FieldType::Usize => match usize::deserialize_binary(data) {
            Ok((x, n)) => Ok((Value::Usize(x), n)),
            Err(e) => Err(e),
        },
        FieldType::I8 => match i8::deserialize_binary(data) {
            Ok((x, n)) => Ok((Value::I8(x), n)),
            Err(e) => Err(e),
        },
        FieldType::I16 => match i16::deserialize_binary(data) {
            Ok((x, n)) => Ok((Value::I16(x), n)),
            Err(e) => Err(e),
        },
        FieldType::I32 => match i32::deserialize_binary(data) {
            Ok((x, n)) => Ok((Value::I32(x), n)),
            Err(e) => Err(e),
        },
        FieldType::I64 => match i64::deserialize_binary(data) {
            Ok((x, n)) => Ok((Value::I64(x), n)),
            Err(e) => Err(e),
        },
        FieldType::Isize => match isize::deserialize_binary(data) {
            Ok((x, n)) => Ok((Value::Isize(x), n)),
            Err(e) => Err(e),
        },
        FieldType::F32 => match Float32::deserialize_binary(data) {
            Ok((x, n)) => Ok((Value::F32(x), n)),
            Err(e) => Err(e),
        },
        FieldType::F64 => match Float64::deserialize_binary(data) {
            Ok((x, n)) => Ok((Value::F64(x), n)),
            Err(e) => Err(e),
        },
        FieldType::Text => match String::deserialize_binary(data) {
            Ok((x, n)) => Ok((Value::Text(x), n)),
            Err(e) => Err(e),
        },
        FieldType::Vector => match Vector::deserialize_binary(data) {
            Ok((x, n)) => Ok((Value::Vector(x), n)),
            Err(e) => Err(e),
        },
        FieldType::Matrix => match Matrix::deserialize_binary(data) {
            Ok((x, n)) => Ok((Value::Matrix(x), n)),
            Err(e) => Err(e),
        },
        FieldType::Struct { tag, fields } => match String::deserialize_binary(data) {
            Err(e) => Err(e),
            Ok((found, n)) => {
                if found != *tag {
                    Err(DecodeError::new(DecodeErrorKind::TagMismatch, 0))
                } else {
                    read_tagged(found, n, fields, data)
                }
            },
        },
        FieldType::Enum { name, variants } => match String::deserialize_binary(data) {
            Err(e) => Err(e),
            Ok((found, n)) => match lookup_variant(name, variants, &found) {
                None => Err(DecodeError::new(DecodeErrorKind::UnknownTag, 0)),
                Some(k) => {
                    assert(variant_views(variants@)[k as int] == variants[k as int]@);
                    read_tagged(found, n, &variants[k].fields, data)
                },
            },
        },
    }
}

/// Reads the fields of a record whose tag `tag` took up the first `n` bytes
/// of `data`.
fn read_tagged(tag: String, n: usize, types: &Vec<FieldType>, data: &[u8]) -> (r: Result<
    (Value, usize),
    DecodeError,
>)
    requires
        decode_text(data@) == Ok::<(Seq<char>, nat), Fault>((tag@, n as nat)),
    ensures
        agrees(
            r,
            after_tag(
                tag@,
                n as nat,
                decode_fields(type_views(types@), data@.subrange(n as int, data@.len() as int)),
            ),
        ),
    decreases types, 2nat,
{
    proof {
        lemma_decode_tagged_within(type_views(types@), data@);
    }
    let after: &[u8] = vstd::slice::slice_subrange(data, n, data.len());
    match read_fields(types, after) {
        Err(e) => Err(e.shifted(n)),
        Ok((values, m)) => Ok((Value::Tagged { tag, fields: values }, n + m)),
    }
}

/// Reads fields of the types `types`, one after the other, from the front
/// of `data`.
fn read_fields(types: &Vec<FieldType>, data: &[u8]) -> (r: Result<(Vec<Value>, usize), DecodeError>)
    ensures
        match r {
            Ok((values, n)) => decode_fields(type_views(types@), data@) == Ok::<
                (Seq<ValueView>, nat),
                Fault,
            >((value_views(values@), n as nat)),
            Err(e) => decode_fields(type_views(types@), data@) == Err::<
                (Seq<ValueView>, nat),
                Fault,
            >(e@),
        },
    decreases types, 1nat,
{
    let ghost all = type_views(types@);
    let mut values: Vec<Value> = Vec::new();
    let mut at: usize = 0;
    let mut i: usize = 0;
    proof {
        assert(all.subrange(0, all.len() as int) =~= all);
        assert(data@.subrange(0, data@.len() as int) =~= data@);
        let whole = decode_fields(all, data@);
        match whole {
            Ok((found, m)) => {
                assert(value_views(values@) + found =~= found);
            },
            Err(f) => {},
        }
    }
    while i < types.len()
        invariant
            i <= types.len(),
            at <= data.len(),
            all == type_views(types@),
            decode_fields(all, data@) == after_fields(
                value_views(values@),
                at as nat,
                decode_fields(
                    all.subrange(i as int, all.len() as int),
                    data@.subrange(at as int, data@.len() as int),
                ),
            ),
        decreases types.len() - i,
    {
        let after: &[u8] = vstd::slice::slice_subrange(data, at, data.len());
        let ghost left = all.subrange(i as int, all.len() as int);
        proof {
            lemma_decode_value_within(types[i as int]@, after@);
            assert(left[0] == types[i as int]@);
            assert(left.drop_first() =~= all.subrange(i + 1, all.len() as int));
        }
        match read_value(&types[i], after) {
            Err(e) => {
                return Err(e.shifted(at));
            },
            Ok((v, n)) => {
                proof {
                    assert(after@.subrange(n as int, after@.len() as int) =~= data@.subrange(
                        at + n,
                        data@.len() as int,
                    ));
                    lemma_after_fields_step(
                        value_views(values@),
                        at as nat,
                        v@,
                        n as nat,
                        decode_fields(
                            all.subrange(i + 1, all.len() as int),
                            data@.subrange(at + n, data@.len() as int),
                        ),
                    );
                    assert(value_views(values@.push(v)) =~= value_views(values@).push(v@));
                }
                values.push(v);
                at = at + n;
                i = i + 1;
            },
        }
    }
    proof {
        assert(all.subrange(i as int, all.len() as int).len() == 0);
        assert(value_views(values@) + Seq::<ValueView>::empty() =~= value_views(values@));
    }
    Ok((values, at))
}

/// Values that are of given types are as many as the types.
proof fn lemma_conforms_all_len(values: Seq<ValueView>, types: Seq<TypeView>)
    requires
        conforms_all(values, types),
    ensures
        values.len() == types.len(),
    decreases types.len(),
{
    if types.len() > 0 {
        lemma_conforms_all_len(values.drop_first(), types.drop_first());
    }
}

/// Whether `v` is a value of the type `t`.
fn check_value(v: &Value, t: &FieldType) -> (ok: bool)
    ensures
        ok == conforms(v@, t@),
    decreases t, 0nat,
{
    match t {
        FieldType::U8 => matches!(v, Value::U8(_)),
        FieldType::U16 => matches!(v, Value::U16(_)),
        FieldType::U32 => matches!(v, Value::U32(_)),
        FieldType::U64 => matches!(v, Value::U64(_)),
        FieldType::Usize => matches!(v, Value::Usize(_)),
        FieldType::I8 => matches!(v, Value::I8(_)),
        FieldType::I16 => matches!(v, Value::I16(_)),
        FieldType::I32 => matches!(v, Value::I32(_)),
        FieldType::I64 => matches!(v, Value::I64(_)),
        FieldType::Isize => matches!(v, Value::Isize(_)),
        FieldType::F32 => matches!(v, Value::F32(_)),
        FieldType::F64 => matches!(v, Value::F64(_)),
        FieldType::Text => match v {
            Value::Text(s) => {
                let n: usize = s.as_str().as_bytes().len();
                true
            },
            _ => false,
        },
        FieldType::Vector => match v {
            Value::Vector(x) => {
                let n: usize = x.len();
                true
            },
            _ => false,
        },
        FieldType::Matrix => match v {
            Value::Matrix(m) => {
                let cells: &Vec<u64> = m.data();
                let rows: usize = m.rows();
                let cols: usize = m.cols();
                true
            },
            _ => false,
        },
        FieldType::Struct { tag, fields } => match v {
            Value::Tagged { tag: found, fields: values } => {
                let n: usize = found.as_str().as_bytes().len();
                *found == *tag && check_fields(values, fields)
            },
            _ => false,
        },
        FieldType::Enum { name, variants } => match v {
            Value::Tagged { tag: found, fields: values } => {
                let n: usize = found.as_str().as_bytes().len();
                match lookup_variant(name, variants, found) {
                    None => false,
                    Some(k) => {
                        assert(variant_views(variants@)[k as int] == variants[k as int]@);
                        check_fields(values, &variants[k].fields)
                    },
                }
            },
            _ => false,
        },
    }
}

/// Whether `values` has one value of each of the types `types`, in order.
fn check_fields(values: &Vec<Value>, types: &Vec<FieldType>) -> (ok: bool)
    ensures
        ok == conforms_all(value_views(values@), type_views(types@)),
    decreases types, 1nat,
{
    let ghost vs = value_views(values@);
    let ghost ts = type_views(types@);
    if values.len() != types.len() {
        proof {
            if conforms_all(vs, ts) {
                lemma_conforms_all_len(vs, ts);
            }
        }
        return false;
    }
    let mut i: usize = 0;
    proof {
        assert(vs.subrange(0, vs.len() as int) =~= vs);
        assert(ts.subrange(0, ts.len() as int) =~= ts);
    }
    while i < types.len()
        invariant
            i <= types.len(),
            values.len() == types.len(),
            vs == value_views(values@),
            ts == type_views(types@),
            conforms_all(vs, ts) == conforms_all(
                vs.subrange(i as int, vs.len() as int),
                ts.subrange(i as int, ts.len() as int),
            ),
        decreases types.len() - i,
    {
        let ghost left_values = vs.subrange(i as int, vs.len() as int);
        let ghost left_types = ts.subrange(i as int, ts.len() as int);
        proof {
            assert(left_values[0] == values[i as int]@);
            assert(left_types[0] == types[i as int]@);
            assert(left_values.drop_first() =~= vs.subrange(i + 1, vs.len() as int));
            assert(left_types.drop_first() =~= ts.subrange(i + 1, ts.len() as int));
        }
        if !check_value(&values[i], &types[i]) {
            return false;
        }
        i = i + 1;
    }
    true
}

/// A copy of the field type `t`.
fn copy_type(t: &FieldType) -> (copy: FieldType)
    ensures
        copy@ == t@,
    decreases t, 0nat,
{
    match t {
        FieldType::U8 => FieldType::U8,
        FieldType::U16 => FieldType::U16,
        FieldType::U32 => FieldType::U32,
        FieldType::U64 => FieldType::U64,
        FieldType::Usize => FieldType::Usize,
        FieldType::I8 => FieldType::I8,
        FieldType::I16 => FieldType::I16,
        FieldType::I32 => FieldType::I32,
        FieldType::I64 => FieldType::I64,
        FieldType::Isize => FieldType::Isize,
        FieldType::F32 => FieldType::F32,
        FieldType::F64 => FieldType::F64,
        FieldType::Text => FieldType::Text,
        FieldType::Vector => FieldType::Vector,
        FieldType::Matrix => FieldType::Matrix,
        FieldType::Struct { tag, fields } => FieldType::Struct {
            tag: tag.clone(),
            fields: copy_types(fields),
        },
        FieldType::Enum { name, variants } => FieldType::Enum {
            name: name.clone(),
            variants: copy_variants(variants),
        },
    }
}

/// Copies of the variants `variants`.
fn copy_variants(variants: &Vec<VariantSchema>) -> (copies: Vec<VariantSchema>)
    ensures
        variant_views(copies@) == variant_views(variants@),
    decreases variants, 2nat,
{
    let mut copies: Vec<VariantSchema> = Vec::new();
    let mut k: usize = 0;
    while k < variants.len()
        invariant
            k <= variants.len(),
            copies@.len() == k,
            forall|j: int| 0 <= j < k ==> (#[trigger] copies@[j])@ == variants@[j]@,
        decreases variants.len() - k,
    {
        copies.push(
            VariantSchema {
                name: variants[k].name.clone(),
                fields: copy_types(&variants[k].fields),
            },
        );
        k = k + 1;
    }
    proof {
        assert(variant_views(copies@) =~= variant_views(variants@));
    }
    copies
}

/// Copies of the field types `types`.
fn copy_types(types: &Vec<FieldType>) -> (copies: Vec<FieldType>)
    ensures
        type_views(copies@) == type_views(types@),
    decreases types, 1nat,
{
    let mut copies: Vec<FieldType> = Vec::new();
    let mut i: usize = 0;
    while i < types.len()
        invariant
            i <= types.len(),
            copies@.len() == i,
            forall|j: int| 0 <= j < i ==> (#[trigger] copies@[j])@ == types@[j]@,
        decreases types.len() - i,
    {
        copies.push(copy_type(&types[i]));
        i = i + 1;
    }
    proof {
        assert(type_views(copies@) =~= type_views(types@));
    }
    copies
}

/// A copy of the value `v`.
fn copy_value(v: &Value) -> (copy: Value)
    ensures
        copy@ == v@,
    decreases v, 0nat,
{
    match v {
        Value::U8(x) => Value::U8(*x),
        Value::U16(x) => Value::U16(*x),
        Value::U32(x) => Value::U32(*x),
        Value::U64(x) => Value::U64(*x),
        Value::Usize(x) => Value::Usize(*x),
        Value::I8(x) => Value::I8(*x),
        Value::I16(x) => Value::I16(*x),
        Value::I32(x) => Value::I32(*x),
        Value::I64(x) => Value::I64(*x),
        Value::Isize(x) => Value::Isize(*x),
        Value::F32(x) => Value::F32(*x),
        Value::F64(x) => Value::F64(*x),
        Value::Text(s) => Value::Text(s.clone()),
        Value::Vector(x) => Value::Vector(x.clone()),
        Value::Matrix(m) => Value::Matrix(m.clone()),
        Value::Tagged { tag, fields } => Value::Tagged {
            tag: tag.clone(),
            fields: copy_values(fields),
        },
    }
}

/// Copies of the values `values`.
fn copy_values(values: &Vec<Value>) -> (copies: Vec<Value>)
    ensures
        value_views(copies@) == value_views(values@),
    decreases values, 1nat,
{
    let mut copies: Vec<Value> = Vec::new();
    let mut i: usize = 0;
    while i < values.len()
        invariant
            i <= values.len(),
            copies@.len() == i,
            forall|j: int| 0 <= j < i ==> (#[trigger] copies@[j])@ == values@[j]@,
        decreases values.len() - i,
    {
        copies.push(copy_value(&values[i]));
        i = i + 1;
    }
    proof {
        assert(value_views(copies@) =~= value_views(values@));
    }
    copies
}

impl Clone for FieldType {
    fn clone(&self) -> (copy: FieldType)
        ensures
            copy@ == self@,
    {
        copy_type(self)
    }
}

impl Clone for VariantSchema {
    fn clone(&self) -> (copy: VariantSchema)
        ensures
            copy@ == self@,
    {
        VariantSchema { name: self.name.clone(), fields: copy_types(&self.fields) }
    }
}

impl Clone for Value {
    fn clone(&self) -> (copy: Value)
        ensures
            copy@ == self@,
    {
        copy_value(self)
    }
}

impl Value {
    /// Encodes `self`: a scalar, a text, a vector or a matrix as its own
    /// codec does; a tagged value as its tag followed by its fields.
    pub fn serialize_binary(&self) -> (data: Vec<u8>)
        ensures
            data@ == encode_value(self@),
    {
        let mut data: Vec<u8> = Vec::new();
        write_value(self, &mut data);
        data
    }

    /// Decodes one value of the type `schema` from the front of `data` and
    /// says how many bytes it took up. Bytes after those are not looked at.
    pub fn deserialize_binary(schema: &FieldType, data: &[u8]) -> (r: Result<
        (Value, usize),
        DecodeError,
    >)
        ensures
            agrees(r, decode_value(schema@, data@)),
    {
        read_value(schema, data)
    }

    /// Whether `self` is a value of the type `schema`: whether `schema` is
    /// the type to hand to a decoder of what `serialize_binary` returns.
    pub fn conforms(&self, schema: &FieldType) -> (ok: bool)
        ensures
            ok == conforms(self@, schema@),
    {
        check_value(self, schema)
    }

    /// The record with the tag `tag` and the fields `fields`.
    pub fn record(tag: &str, fields: Vec<Value>) -> (v: Value)
        ensures
            v@ == (ValueView::Tagged { tag: tag@, fields: value_views(fields@) }),
    {
        Value::Tagged { tag: tag.to_owned(), fields }
    }

    /// The value of the variant `variant` of the union `name` with the
    /// fields `fields`.
    pub fn variant(name: &str, variant: &str, fields: Vec<Value>) -> (v: Value)
        ensures
            v@ == (ValueView::Tagged {
                tag: variant_tag(name@, variant@),
                fields: value_views(fields@),
            }),
    {
        Value::Tagged { tag: variant_name_str(name, variant), fields }
    }
}

impl FieldType {
    /// The type of the records with the tag `tag` and fields of the types
    /// `fields`, in this order.
    pub fn record(tag: &str, fields: Vec<FieldType>) -> (t: FieldType)
        ensures
            t@ == (TypeView::Struct { tag: tag@, fields: type_views(fields@) }),
    {
        FieldType::Struct { tag: tag.to_owned(), fields }
    }

    /// The tagged union with the name `name` and the variants `variants`.
    pub fn union(name: &str, variants: Vec<VariantSchema>) -> (t: FieldType)
        ensures
            t@ == (TypeView::Enum { name: name@, variants: variant_views(variants@) }),
    {
        FieldType::Enum { name: name.to_owned(), variants }
    }
}

impl VariantSchema {
    /// The variant with the name `name` and fields of the types `fields`,
    /// in this order.
    pub fn new(name: &str, fields: Vec<FieldType>) -> (variant: VariantSchema)
        ensures
            variant@ == (VariantView { name: name@, fields: type_views(fields@) }),
    {
        VariantSchema { name: name.to_owned(), fields }
    }
}

} // verus!
