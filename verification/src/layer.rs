//! The layers of a network, as far as they are stored: the pointwise
//! nonlinearities, which carry no numbers, and the affine layers, which
//! carry a matrix of weights and a vector of biases.
//!
//! The set of kinds of layers is closed. A stored layer names its kind with
//! a tag, and a decoder finds the kind in a fixed table.
//!
//! The module holds, in this order: the nonlinearities and their two
//! codecs; the affine layers and their codec; the table of the kinds of
//! layers; the stored layers, with the model of their codec, its laws, and
//! the executable codec.

use vstd::prelude::*;
use vstd::string::*;
use vstd::utf8::*;
use crate::error::{agrees, fault, is_truncation, DecodeError, DecodeErrorKind, Fault};
use crate::codec::Serialized;
use crate::literals::{
    decode_text, decode_word, encode_text, leading_tag, lemma_word_round_trip, lemma_word_within,
    push_all, read_word,
};
use crate::math::{decode_matrix, encode_matrix, Matrix, MatrixView, Vector};
use crate::schema::{
    conforms, conforms_all, decode_fields, decode_value, encode_fields, encode_value, find_variant, lifted,
    type_views, value_views, variant_name_str, variant_tag, variant_views, FieldType, TypeView,
    Value, ValueView, VariantSchema, VariantView,
};
use crate::wire::{be_bytes, lemma_be_bytes_len, lemma_pow256_values, push_be};

verus! {

/// Something with a name to show.
pub trait LayerName {
    /// The name, as `name` returns it.
    spec fn name_spec(&self) -> Seq<char>;

    /// The name of the kind of thing that `self` is.
    fn name(&self) -> (name: String)
        ensures
            name@ == self.name_spec(),
    ;

    /// A text that describes `self`; the name, unless an instance says more.
    fn display(&self) -> (text: String)
        default_ensures
            text@ == self.name_spec(),
    {
        self.name()
    }
}

/// A pointwise nonlinearity.
#[derive(Clone, Copy, Debug, PartialEq, Eq, Structural)]
pub enum Activation {
    Sigmoid,
    ReLU,
    Tanh,
}

impl View for Activation {
    type V = Activation;

    open spec fn view(&self) -> Activation {
        *self
    }
}

/// An affine layer: `weights` has one column for each input and one row for
/// each output, `biases` one element for each output.
#[derive(Clone, Debug, PartialEq, Eq)]
pub struct Dense {
    pub weights: Matrix,
    pub biases: Vector,
}

/// An affine layer as specifications see it.
pub struct DenseView {
    pub weights: MatrixView,
    pub biases: Seq<u64>,
}

impl View for Dense {
    type V = DenseView;

    open spec fn view(&self) -> DenseView {
        DenseView { weights: self.weights@, biases: self.biases@ }
    }
}

/// The name of the variant `a`.
pub open spec fn activation_name(a: Activation) -> Seq<char> {
    match a {
        Activation::Sigmoid => "Sigmoid"@,
        Activation::ReLU => "ReLU"@,
        Activation::Tanh => "Tanh"@,
    }
}

/// The tag that stands for `a` on the wire: the name of the variant,
/// qualified by the name of the type.
pub open spec fn activation_tag(a: Activation) -> Seq<char> {
    variant_tag("Activation"@, activation_name(a))
}

/// The number that stands for `a` where activations travel as numbers.
pub open spec fn activation_code(a: Activation) -> nat {
    match a {
        Activation::Sigmoid => 0,
        Activation::ReLU => 1,
        Activation::Tanh => 2,
    }
}

/// What reading an activation, written as its tag, from the front of `data`
/// gives.
pub open spec fn decode_activation(data: Seq<u8>) -> Result<(Activation, nat), Fault> {
    match decode_text(data) {
        Err(f) => Err(f),
        Ok((found, n)) => if found == activation_tag(Activation::Sigmoid) {
            Ok((Activation::Sigmoid, n))
        } else if found == activation_tag(Activation::ReLU) {
            Ok((Activation::ReLU, n))
        } else if found == activation_tag(Activation::Tanh) {
            Ok((Activation::Tanh, n))
        } else {
            Err(fault(DecodeErrorKind::UnknownTag, 0))
        },
    }
}

/// What reading an activation, written as its number, from the front of
/// `data` gives.
pub open spec fn decode_activation_code(data: Seq<u8>) -> Result<(Activation, nat), Fault> {
    match decode_word(data, 8) {
        Err(f) => Err(f),
        Ok((code, n)) => if code == 0 {
            Ok((Activation::Sigmoid, n))
        } else if code == 1 {
            Ok((Activation::ReLU, n))
        } else if code == 2 {
            Ok((Activation::Tanh, n))
        } else {
            Err(fault(DecodeErrorKind::UnknownTag, 0))
        },
    }
}

/// A text of ASCII characters that a machine can hold is a valid text, and
/// it takes up one byte for each character.
pub proof fn lemma_ascii_text(text: Seq<char>)
    requires
        is_ascii_chars(text),
        text.len() <= usize::MAX,
    ensures
        String::valid(text),
        encode_utf8(text).len() == text.len(),
{
    is_ascii_chars_encode_utf8(text);
}

/// The tags of the three activations are valid texts, and no two of them
/// are the same.
pub proof fn lemma_activation_tags()
    ensures
        forall|a: Activation| #[trigger] String::valid(activation_tag(a)),
        forall|a: Activation, b: Activation|
            #[trigger] activation_tag(a) == #[trigger] activation_tag(b) ==> a == b,
{
    reveal_strlit("Activation");
    reveal_strlit("::");
    reveal_strlit("Sigmoid");
    reveal_strlit("ReLU");
    reveal_strlit("Tanh");
    let sigmoid = activation_tag(Activation::Sigmoid);
    let relu = activation_tag(Activation::ReLU);
    let tanh = activation_tag(Activation::Tanh);
    assert(sigmoid.len() == 19);
    assert(relu.len() == 16);
    assert(tanh.len() == 16);
    assert(relu[12] == 'R');
    assert(tanh[12] == 'T');
    assert forall|a: Activation| #[trigger] String::valid(activation_tag(a)) by {
        lemma_ascii_text(activation_tag(a));
    }
}

impl Serialized for Activation {
    open spec fn tag_spec() -> Seq<char> {
        "Activation"@
    }

    open spec fn valid(v: Activation) -> bool {
        true
    }

    open spec fn encode_spec(v: Activation) -> Seq<u8> {
        encode_text(activation_tag(v))
    }

    open spec fn decode_spec(data: Seq<u8>) -> Result<(Activation, nat), Fault> {
        decode_activation(data)
    }

    proof fn lemma_round_trip(v: Activation, rest: Seq<u8>) {
        lemma_activation_tags();
        String::lemma_round_trip(activation_tag(v), rest);
    }

    proof fn lemma_decode_within(data: Seq<u8>) {
        String::lemma_decode_within(data);
    }

    proof fn lemma_cut_is_truncated(v: Activation, cut: int) {
        lemma_activation_tags();
        String::lemma_cut_is_truncated(activation_tag(v), cut);
    }

    fn serialize_binary(&self) -> (data: Vec<u8>) {
        let tag: String = variant_name_str("Activation", self.variant_name());
        tag.serialize_binary()
    }

    fn deserialize_binary(data: &[u8]) -> (r: Result<(Self, usize), DecodeError>) {
        match String::deserialize_binary(data) {
            Err(e) => Err(e),
            Ok((found, n)) => {
                if found == variant_name_str("Activation", Activation::Sigmoid.variant_name()) {
                    Ok((Activation::Sigmoid, n))
                } else if found == variant_name_str("Activation", Activation::ReLU.variant_name()) {
                    Ok((Activation::ReLU, n))
                } else if found == variant_name_str("Activation", Activation::Tanh.variant_name()) {
                    Ok((Activation::Tanh, n))
                } else {
                    Err(DecodeError::new(DecodeErrorKind::UnknownTag, 0))
                }
            },
        }
    }

    fn tag() -> (t: &'static str) {
        "Activation"
    }
}

/// The tagged union that `Activation` is: its name and its three variants,
/// none of which has a field.
pub open spec fn activation_type() -> TypeView {
    TypeView::Enum {
        name: "Activation"@,
        variants: seq![
            VariantView { name: "Sigmoid"@, fields: Seq::empty() },
            VariantView { name: "ReLU"@, fields: Seq::empty() },
            VariantView { name: "Tanh"@, fields: Seq::empty() },
        ],
    }
}

/// The activation `a` as a value of the tagged union `activation_type()`.
pub open spec fn activation_value(a: Activation) -> ValueView {
    ValueView::Tagged { tag: activation_tag(a), fields: Seq::empty() }
}

/// The codec of `Activation` is the codec of tagged unions at the type
/// `activation_type()`: both write an activation as the same bytes, and
/// both make the same of every input.
pub proof fn lemma_activation_is_a_union(data: Seq<u8>)
    ensures
        forall|a: Activation|
            #![trigger activation_value(a)]
            conforms(activation_value(a), activation_type()) && encode_value(activation_value(a))
                == Activation::encode_spec(a),
        decode_value(activation_type(), data) == lifted(
            decode_activation(data),
            |a: Activation| activation_value(a),
        ),
{
    let name = "Activation"@;
    let variants = activation_type()->variants;
    let nothing = Seq::<ValueView>::empty();
    lemma_activation_tags();
    reveal_with_fuel(find_variant, 4);
    assert(variants[0].name == activation_name(Activation::Sigmoid));
    assert(variants[1].name == activation_name(Activation::ReLU));
    assert(variants[2].name == activation_name(Activation::Tanh));
    assert(encode_fields(nothing) =~= Seq::<u8>::empty());
    assert forall|a: Activation| #![trigger activation_value(a)] conforms(
        activation_value(a),
        activation_type(),
    ) && encode_value(activation_value(a)) == Activation::encode_spec(a) by {
        let tag = activation_tag(a);
        assert(find_variant(name, variants, tag, 0) is Some);
        assert(encode_value(activation_value(a)) =~= Activation::encode_spec(a));
    }
    String::lemma_decode_within(data);
    if let Ok((found, n)) = decode_text(data) {
        let after = data.subrange(n as int, data.len() as int);
        assert(decode_fields(Seq::<TypeView>::empty(), after) == Ok::<
            (Seq<ValueView>, nat),
            Fault,
        >((nothing, 0)));
    }
}

impl Activation {
    /// The name of the variant.
    pub fn variant_name(&self) -> (name: &'static str)
        ensures
            name@ == activation_name(*self),
    {
        match self {
            Activation::Sigmoid => "Sigmoid",
            Activation::ReLU => "ReLU",
            Activation::Tanh => "Tanh",
        }
    }

    /// The tagged union that `Activation` is, for the codec of tagged
    /// unions.
    pub fn schema() -> (t: FieldType)
        ensures
            t@ == activation_type(),
    {
        let mut variants: Vec<VariantSchema> = Vec::new();
        variants.push(VariantSchema::new(Activation::Sigmoid.variant_name(), Vec::new()));
        variants.push(VariantSchema::new(Activation::ReLU.variant_name(), Vec::new()));
        variants.push(VariantSchema::new(Activation::Tanh.variant_name(), Vec::new()));
        let t = FieldType::union("Activation", variants);
        proof {
            assert(type_views(Seq::<FieldType>::empty()) =~= Seq::<TypeView>::empty());
            assert(variant_views(variants@) =~= activation_type()->variants);
        }
        t
    }

    /// `self` as a value of the tagged union `Activation::schema()`.
    pub fn to_value(&self) -> (v: Value)
        ensures
            v@ == activation_value(*self),
    {
        let v = Value::variant("Activation", self.variant_name(), Vec::new());
        proof {
            assert(value_views(Seq::<Value>::empty()) =~= Seq::<ValueView>::empty());
        }
        v
    }

    /// The number that stands for `self` where activations travel as
    /// numbers.
    pub fn code(&self) -> (code: u64)
        ensures
            code == activation_code(*self),
    {
        match self {
            Activation::Sigmoid => 0,
            Activation::ReLU => 1,
            Activation::Tanh => 2,
        }
    }

    /// The activation that the number `code` stands for; an unknown-tag
    /// failure where it stands for none.
    pub fn from_code(code: u64) -> (r: Result<Activation, DecodeError>)
        ensures
            match r {
                Ok(a) => activation_code(a) == code,
                Err(e) => code > 2 && e == (DecodeError {
                    kind: DecodeErrorKind::UnknownTag,
                    offset: 0,
                }),
            },
    {
        if code == 0 {
            Ok(Activation::Sigmoid)
        } else if code == 1 {
            Ok(Activation::ReLU)
        } else if code == 2 {
            Ok(Activation::Tanh)
        } else {
            Err(DecodeError::new(DecodeErrorKind::UnknownTag, 0))
        }
    }

    /// Encodes `self` as its number, on 8 bytes.
    pub fn serialize_code(&self) -> (data: Vec<u8>)
        ensures
            data@ == be_bytes(activation_code(*self), 8),
    {
        let mut data: Vec<u8> = Vec::new();
        push_be(&mut data, self.code(), 8);
        data
    }

    /// Decodes an activation, written as its number, from the front of
    /// `data`.
    pub fn deserialize_code(data: &[u8]) -> (r: Result<(Activation, usize), DecodeError>)
        ensures
            agrees(r, decode_activation_code(data@)),
    {
        match read_word(data, 8) {
            Err(e) => Err(e),
            Ok(code) => match Activation::from_code(code) {
                Ok(a) => Ok((a, 8)),
                Err(e) => Err(e),
            },
        }
    }
}

/// Round trip of an activation that travels as its number.
pub proof fn lemma_activation_code_round_trip(a: Activation, rest: Seq<u8>)
    ensures
        decode_activation_code(be_bytes(activation_code(a), 8) + rest) == Ok::<
            (Activation, nat),
            Fault,
        >((a, 8)),
{
    lemma_pow256_values();
    lemma_word_round_trip(activation_code(a), 8, rest);
}

/// A decoder of activations that travel as numbers stays inside its input.
pub proof fn lemma_activation_code_within(data: Seq<u8>)
    ensures
        match decode_activation_code(data) {
            Ok((a, n)) => n <= data.len() && be_bytes(activation_code(a), 8) == data.subrange(
                0,
                n as int,
            ),
            Err(f) => f.at <= data.len(),
        },
{
    lemma_word_within(data, 8);
}

impl LayerName for Activation {
    open spec fn name_spec(&self) -> Seq<char> {
        "Activation"@
    }

    fn name(&self) -> (name: String) {
        "Activation".to_owned()
    }

    fn display(&self) -> (text: String)
        ensures
            text@ == activation_name(*self),
    {
        self.variant_name().to_owned()
    }
}

/// What reading an affine layer from the front of `data` gives: the matrix
/// of weights, then the vector of biases.
pub open spec fn decode_dense(data: Seq<u8>) -> Result<(DenseView, nat), Fault> {
    match decode_matrix(data) {
        Err(f) => Err(f),
        Ok((weights, n)) => match Vector::decode_spec(data.subrange(n as int, data.len() as int)) {
            Err(f) => Err(f.shifted(n)),
            Ok((biases, m)) => Ok((DenseView { weights, biases }, n + m)),
        },
    }
}

/// The bytes of the affine layer `d`: the matrix of weights, then the
/// vector of biases.
pub open spec fn encode_dense(d: DenseView) -> Seq<u8> {
    encode_matrix(d.weights) + Vector::encode_spec(d.biases)
}

impl Serialized for Dense {
    open spec fn tag_spec() -> Seq<char> {
        "Dense"@
    }

    open spec fn valid(v: DenseView) -> bool {
        Matrix::valid(v.weights) && Vector::valid(v.biases)
    }

    open spec fn encode_spec(v: DenseView) -> Seq<u8> {
        encode_dense(v)
    }

    open spec fn decode_spec(data: Seq<u8>) -> Result<(DenseView, nat), Fault> {
        decode_dense(data)
    }

    proof fn lemma_round_trip(v: DenseView, rest: Seq<u8>) {
        let weights = encode_matrix(v.weights);
        let biases = Vector::encode_spec(v.biases);
        let data = encode_dense(v) + rest;
        assert(data =~= weights + (biases + rest));
        Matrix::lemma_round_trip(v.weights, biases + rest);
        assert(data.subrange(weights.len() as int, data.len() as int) =~= biases + rest);
        Vector::lemma_round_trip(v.biases, rest);
    }

    proof fn lemma_decode_within(data: Seq<u8>) {
        Matrix::lemma_decode_within(data);
        if let Ok((weights, n)) = decode_matrix(data) {
            let after = data.subrange(n as int, data.len() as int);
            Vector::lemma_decode_within(after);
            if let Ok((biases, m)) = Vector::decode_spec(after) {
                assert(after.subrange(0, m as int) =~= data.subrange(n as int, (n + m) as int));
                assert(data.subrange(0, (n + m) as int) =~= data.subrange(0, n as int)
                    + data.subrange(n as int, (n + m) as int));
            }
        }
    }

    proof fn lemma_cut_is_truncated(v: DenseView, cut: int) {
        let weights = encode_matrix(v.weights);
        let biases = Vector::encode_spec(v.biases);
        let data = encode_dense(v).subrange(0, cut);
        if cut < weights.len() {
            assert(data =~= weights.subrange(0, cut));
            Matrix::lemma_cut_is_truncated(v.weights, cut);
        } else {
            let left = cut - weights.len();
            assert(data =~= weights + biases.subrange(0, left));
            Matrix::lemma_round_trip(v.weights, biases.subrange(0, left));
            assert(data.subrange(weights.len() as int, data.len() as int) =~= biases.subrange(
                0,
                left,
            ));
            Vector::lemma_cut_is_truncated(v.biases, left);
        }
    }

    fn serialize_binary(&self) -> (data: Vec<u8>) {
        let mut data: Vec<u8> = self.weights.serialize_binary();
        let biases: Vec<u8> = self.biases.serialize_binary();
        push_all(&mut data, biases.as_slice());
        data
    }

    fn deserialize_binary(data: &[u8]) -> (r: Result<(Self, usize), DecodeError>) {
        proof {
            Matrix::lemma_decode_within(data@);
        }
        match Matrix::deserialize_binary(data) {
            Err(e) => Err(e),
            Ok((weights, n)) => {
                let after: &[u8] = vstd::slice::slice_subrange(data, n, data.len());
                proof {
                    Vector::lemma_decode_within(after@);
                }
                match Vector::deserialize_binary(after) {
                    Err(e) => Err(e.shifted(n)),
                    Ok((biases, m)) => Ok((Dense { weights, biases }, n + m)),
                }
            },
        }
    }

    fn tag() -> (t: &'static str) {
        "Dense"
    }
}

/// The decimal digit `d` as a character.
pub open spec fn digit(d: nat) -> char {
    if d == 0 {
        '0'
    } else if d == 1 {
        '1'
    } else if d == 2 {
        '2'
    } else if d == 3 {
        '3'
    } else if d == 4 {
        '4'
    } else if d == 5 {
        '5'
    } else if d == 6 {
        '6'
    } else if d == 7 {
        '7'
    } else if d == 8 {
        '8'
    } else {
        '9'
    }
}

/// The number `n` in decimal, without leading zeros.
pub open spec fn decimal(n: nat) -> Seq<char>
    decreases n,
{
    if n < 10 {
        seq![digit(n)]
    } else {
        decimal(n / 10).push(digit(n % 10))
    }
}

/// What `display` shows of an affine layer whose matrix of weights has
/// `cols` columns and `rows` rows.
pub open spec fn dense_display(cols: nat, rows: nat) -> Seq<char> {
    "Dense("@ + decimal(cols) + "x"@ + decimal(rows) + ")"@
}

/// The decimal digit `d` as a text.
fn digit_text(d: usize) -> (text: &'static str)
    requires
        d < 10,
    ensures
        text@ == seq![digit(d as nat)],
{
    proof {
        reveal_strlit("0");
        reveal_strlit("1");
        reveal_strlit("2");
        reveal_strlit("3");
        reveal_strlit("4");
        reveal_strlit("5");
        reveal_strlit("6");
        reveal_strlit("7");
        reveal_strlit("8");
        reveal_strlit("9");
    }
    let text: &'static str = if d == 0 {
        "0"
    } else if d == 1 {
        "1"
    } else if d == 2 {
        "2"
    } else if d == 3 {
        "3"
    } else if d == 4 {
        "4"
    } else if d == 5 {
        "5"
    } else if d == 6 {
        "6"
    } else if d == 7 {
        "7"
    } else if d == 8 {
        "8"
    } else {
        "9"
    };
    assert(text@ =~= seq![digit(d as nat)]);
    text
}

/// The number `n` in decimal, without leading zeros.
pub fn decimal_text(n: usize) -> (text: String)
    ensures
        text@ == decimal(n as nat),
    decreases n,
{
    if n < 10 {
        digit_text(n).to_owned()
    } else {
        let mut text: String = decimal_text(n / 10);
        text.append(digit_text(n % 10));
        text
    }
}

impl Dense {
    /// The record that `Dense` is, for the codec of records.
    pub fn schema() -> (t: FieldType)
        ensures
            t@ == dense_type(),
    {
        let mut fields: Vec<FieldType> = Vec::new();
        fields.push(FieldType::Matrix);
        fields.push(FieldType::Vector);
        let t = FieldType::record("Dense", fields);
        proof {
            assert(type_views(fields@) =~= seq![TypeView::Matrix, TypeView::Vector]);
        }
        t
    }

    /// `self` as a value of the record `Dense::schema()`.
    pub fn to_value(&self) -> (v: Value)
        ensures
            v@ == dense_value(self@),
    {
        let mut fields: Vec<Value> = Vec::new();
        fields.push(Value::Matrix(self.weights.clone()));
        fields.push(Value::Vector(self.biases.clone()));
        let v = Value::record("Dense", fields);
        proof {
            assert(value_views(fields@) =~= seq![
                ValueView::Matrix(self@.weights),
                ValueView::Vector(self@.biases),
            ]);
        }
        v
    }
}

impl LayerName for Dense {
    open spec fn name_spec(&self) -> Seq<char> {
        "Dense"@
    }

    fn name(&self) -> (name: String) {
        "Dense".to_owned()
    }

    fn display(&self) -> (text: String)
        ensures
            text@ == dense_display(self@.weights.cols, self@.weights.rows),
    {
        let mut text: String = "Dense(".to_owned();
        let cols: String = decimal_text(self.weights.cols());
        let rows: String = decimal_text(self.weights.rows());
        text.append(cols.as_str());
        text.append("x");
        text.append(rows.as_str());
        text.append(")");
        text
    }
}

/// A kind of layer. The list is closed: a new kind of layer is a new
/// variant here and a new line in the table of `registry`.
#[derive(Clone, Copy, Debug, PartialEq, Eq, Structural)]
pub enum LayerKind {
    Activation,
    Dense,
}

/// The tag that names the kind `kind` in a stored layer.
pub open spec fn kind_tag(kind: LayerKind) -> Seq<char> {
    match kind {
        LayerKind::Activation => "Activation"@,
        LayerKind::Dense => "Dense"@,
    }
}

/// The table of the kinds of layers, in the order in which a decoder tries
/// them.
pub open spec fn registry_spec() -> Seq<LayerKind> {
    seq![LayerKind::Activation, LayerKind::Dense]
}

/// The first kind at or after `from` in `kinds` whose tag is `tag`, if
/// there is one.
pub open spec fn find_kind_from(kinds: Seq<LayerKind>, tag: Seq<char>, from: int) -> Option<
    LayerKind,
>
    decreases kinds.len() - from,
{
    if from < 0 || from >= kinds.len() {
        None
    } else if kind_tag(kinds[from]) == tag {
        Some(kinds[from])
    } else {
        find_kind_from(kinds, tag, from + 1)
    }
}

/// The kind that the tag `tag` names in the table, if it names one.
pub open spec fn find_kind(tag: Seq<char>) -> Option<LayerKind> {
    find_kind_from(registry_spec(), tag, 0)
}

/// The tags of the kinds are valid texts and differ, and the table finds
/// each kind by its tag.
pub proof fn lemma_kind_tags()
    ensures
        forall|kind: LayerKind| #[trigger] String::valid(kind_tag(kind)),
        forall|kind: LayerKind| #[trigger] find_kind(kind_tag(kind)) == Some(kind),
        forall|tag: Seq<char>, kind: LayerKind|
            #![trigger find_kind(tag), kind_tag(kind)]
            find_kind(tag) == Some(kind) ==> tag == kind_tag(kind),
{
    reveal_strlit("Activation");
    reveal_strlit("Dense");
    reveal_with_fuel(find_kind_from, 3);
    assert(kind_tag(LayerKind::Activation).len() == 10);
    assert(kind_tag(LayerKind::Dense).len() == 5);
    assert forall|kind: LayerKind| #[trigger] String::valid(kind_tag(kind)) by {
        lemma_ascii_text(kind_tag(kind));
    }
}

impl LayerKind {
    /// The tag that names this kind in a stored layer.
    pub fn tag(&self) -> (tag: &'static str)
        ensures
            tag@ == kind_tag(*self),
    {
        match self {
            LayerKind::Activation => "Activation",
            LayerKind::Dense => "Dense",
        }
    }
}

/// The table of the kinds of layers.
pub fn registry() -> (kinds: Vec<LayerKind>)
    ensures
        kinds@ == registry_spec(),
{
    let mut kinds: Vec<LayerKind> = Vec::new();
    kinds.push(LayerKind::Activation);
    kinds.push(LayerKind::Dense);
    assert(kinds@ =~= registry_spec());
    kinds
}

/// Looks the tag `tag` up in the table.
pub fn lookup_kind(tag: &str) -> (found: Option<LayerKind>)
    ensures
        found == find_kind(tag@),
{
    let kinds: Vec<LayerKind> = registry();
    let wanted: String = tag.to_owned();
    let mut i: usize = 0;
    while i < kinds.len()
        invariant
            i <= kinds.len(),
            wanted@ == tag@,
            kinds@ == registry_spec(),
            find_kind(tag@) == find_kind_from(kinds@, tag@, i as int),
        decreases kinds.len() - i,
    {
        let candidate: String = kinds[i].tag().to_owned();
        if candidate == wanted {
            return Some(kinds[i]);
        }
        i = i + 1;
    }
    None
}

/// How the nonlinearities of a stored network are written.
#[derive(Clone, Copy, Debug, PartialEq, Eq, Structural)]
pub enum Protocol {
    /// As the tag of the variant, a text.
    Tagged,
    /// As a number on 8 bytes.
    Compact,
}

/// A layer of a network.
#[derive(Clone, Debug, PartialEq, Eq)]
pub enum Layer {
    Activation(Activation),
    Dense(Dense),
}

/// A layer as specifications see it.
pub enum LayerView {
    Activation(Activation),
    Dense(DenseView),
}

impl View for Layer {
    type V = LayerView;

    open spec fn view(&self) -> LayerView {
        match self {
            Layer::Activation(a) => LayerView::Activation(*a),
            Layer::Dense(d) => LayerView::Dense(d@),
        }
    }
}

impl LayerView {
    /// The kind of the layer.
    pub open spec fn kind(self) -> LayerKind {
        match self {
            LayerView::Activation(_) => LayerKind::Activation,
            LayerView::Dense(_) => LayerKind::Dense,
        }
    }

    /// Whether the layer can be written down.
    pub open spec fn valid(self) -> bool {
        match self {
            LayerView::Activation(_) => true,
            LayerView::Dense(d) => Dense::valid(d),
        }
    }
}

/// The bytes of what the layer `layer` carries, without the tag of its kind.
pub open spec fn encode_payload(layer: LayerView, protocol: Protocol) -> Seq<u8> {
    match layer {
        LayerView::Activation(a) => match protocol {
            Protocol::Tagged => Activation::encode_spec(a),
            Protocol::Compact => be_bytes(activation_code(a), 8),
        },
        LayerView::Dense(d) => encode_dense(d),
    }
}

/// What reading what a layer of the kind `kind` carries from the front of
/// `data` gives.
pub open spec fn decode_payload(kind: LayerKind, data: Seq<u8>, protocol: Protocol) -> Result<
    (LayerView, nat),
    Fault,
> {
    match kind {
        LayerKind::Activation => {
            let read = match protocol {
                Protocol::Tagged => decode_activation(data),
                Protocol::Compact => decode_activation_code(data),
            };
            match read {
                Ok((a, n)) => Ok((LayerView::Activation(a), n)),
                Err(f) => Err(f),
            }
        },
        LayerKind::Dense => match decode_dense(data) {
            Ok((d, n)) => Ok((LayerView::Dense(d), n)),
            Err(f) => Err(f),
        },
    }
}

/// The bytes of the stored layer `layer`: the tag of its kind, then what it
/// carries.
#[verifier::opaque]
pub open spec fn encode_layer(layer: LayerView, protocol: Protocol) -> Seq<u8> {
    encode_text(kind_tag(layer.kind())) + encode_payload(layer, protocol)
}

/// What reading a stored layer from the front of `data` gives: the tag is
/// read and looked up in the table, and the decoder of the kind it names
/// reads the rest.
#[verifier::opaque]
pub open spec fn decode_layer(data: Seq<u8>, protocol: Protocol) -> Result<(LayerView, nat), Fault> {
    match decode_text(data) {
        Err(f) => Err(f),
        Ok((tag, n)) => match find_kind(tag) {
            None => Err(fault(DecodeErrorKind::UnknownTag, 0)),
            Some(kind) => match decode_payload(
                kind,
                data.subrange(n as int, data.len() as int),
                protocol,
            ) {
                Ok((layer, m)) => Ok((layer, n + m)),
                Err(f) => Err(f.shifted(n)),
            },
        },
    }
}

/// The record that `Dense` is: its tag and the types of its two fields.
pub open spec fn dense_type() -> TypeView {
    TypeView::Struct { tag: "Dense"@, fields: seq![TypeView::Matrix, TypeView::Vector] }
}

/// The affine layer `d` as a value of the record `dense_type()`.
pub open spec fn dense_value(d: DenseView) -> ValueView {
    ValueView::Tagged {
        tag: "Dense"@,
        fields: seq![ValueView::Matrix(d.weights), ValueView::Vector(d.biases)],
    }
}

/// A stored affine layer is the record `Dense` as the codec of records
/// writes it: the tag, then the weights, then the biases.
pub proof fn lemma_dense_layer_is_a_record(d: DenseView, protocol: Protocol)
    requires
        Dense::valid(d),
    ensures
        conforms(dense_value(d), dense_type()),
        encode_value(dense_value(d)) == encode_layer(LayerView::Dense(d), protocol),
{
    reveal(encode_layer);
    reveal_with_fuel(encode_fields, 3);
    reveal_with_fuel(conforms_all, 3);
    lemma_kind_tags();
    let fields = seq![ValueView::Matrix(d.weights), ValueView::Vector(d.biases)];
    assert(fields.drop_first() =~= seq![ValueView::Vector(d.biases)]);
    assert(fields.drop_first().drop_first() =~= Seq::<ValueView>::empty());
    let types = seq![TypeView::Matrix, TypeView::Vector];
    assert(types.drop_first() =~= seq![TypeView::Vector]);
    assert(types.drop_first().drop_first() =~= Seq::<TypeView>::empty());
    assert(String::valid(kind_tag(LayerKind::Dense)));
    assert(encode_fields(fields) =~= encode_dense(d));
    assert(conforms(fields[0], types[0]));
    assert(conforms(fields[1], types[1]));
    assert(conforms_all(fields.drop_first().drop_first(), types.drop_first().drop_first()));
    assert(conforms_all(fields.drop_first(), types.drop_first()));
    assert(conforms_all(fields, types));
}

/// Closed dispatch: a decoder of stored layers succeeds only on an input
/// that starts with the tag of a kind of the table, and it fails with an
/// unknown tag on an input that starts with another text.
pub proof fn lemma_unknown_layer(data: Seq<u8>, protocol: Protocol)
    ensures
        decode_layer(data, protocol) is Ok ==> exists|kind: LayerKind|
            leading_tag(data) == Some(#[trigger] kind_tag(kind)),
        leading_tag(data) is Some && (forall|kind: LayerKind|
            leading_tag(data) != Some(#[trigger] kind_tag(kind))) ==> decode_layer(data, protocol)
            == Err::<(LayerView, nat), Fault>(fault(DecodeErrorKind::UnknownTag, 0)),
{
    reveal(decode_layer);
    lemma_kind_tags();
    if let Ok((tag, _)) = decode_text(data) {
        if let Some(kind) = find_kind(tag) {
            assert(tag == kind_tag(kind));
        }
    }
}

/// Round trip of what a layer carries.
pub proof fn lemma_payload_round_trip(layer: LayerView, protocol: Protocol, rest: Seq<u8>)
    requires
        layer.valid(),
    ensures
        decode_payload(layer.kind(), encode_payload(layer, protocol) + rest, protocol) == Ok::<
            (LayerView, nat),
            Fault,
        >((layer, encode_payload(layer, protocol).len())),
{
    match layer {
        LayerView::Activation(a) => match protocol {
            Protocol::Tagged => Activation::lemma_round_trip(a, rest),
            Protocol::Compact => {
                lemma_activation_code_round_trip(a, rest);
                lemma_be_bytes_len(activation_code(a), 8);
            },
        },
        LayerView::Dense(d) => Dense::lemma_round_trip(d, rest),
    }
}

/// Round trip of a stored layer.
pub proof fn lemma_layer_round_trip(layer: LayerView, protocol: Protocol, rest: Seq<u8>)
    requires
        layer.valid(),
    ensures
        decode_layer(encode_layer(layer, protocol) + rest, protocol) == Ok::<
            (LayerView, nat),
            Fault,
        >((layer, encode_layer(layer, protocol).len())),
{
    reveal(encode_layer);
    reveal(decode_layer);
    let tag = encode_text(kind_tag(layer.kind()));
    let payload = encode_payload(layer, protocol);
    let data = encode_layer(layer, protocol) + rest;
    lemma_kind_tags();
    assert(data =~= tag + (payload + rest));
    String::lemma_round_trip(kind_tag(layer.kind()), payload + rest);
    assert(data.subrange(tag.len() as int, data.len() as int) =~= payload + rest);
    lemma_payload_round_trip(layer, protocol, rest);
}

/// A cut payload is truncated input.
pub proof fn lemma_cut_payload(layer: LayerView, protocol: Protocol, cut: int)
    requires
        layer.valid(),
        0 <= cut < encode_payload(layer, protocol).len(),
    ensures
        is_truncation(
            decode_payload(layer.kind(), encode_payload(layer, protocol).subrange(0, cut), protocol),
        ),
{
    match layer {
        LayerView::Activation(a) => match protocol {
            Protocol::Tagged => Activation::lemma_cut_is_truncated(a, cut),
            Protocol::Compact => {
                lemma_be_bytes_len(activation_code(a), 8);
            },
        },
        LayerView::Dense(d) => Dense::lemma_cut_is_truncated(d, cut),
    }
}

/// A cut stored layer is truncated input: a decoder that is handed a
/// stored layer without its last byte, or without more of its end, fails
/// for want of input.
pub proof fn lemma_cut_layer(layer: LayerView, protocol: Protocol, cut: int)
    requires
        layer.valid(),
        0 <= cut < encode_layer(layer, protocol).len(),
    ensures
        is_truncation(decode_layer(encode_layer(layer, protocol).subrange(0, cut), protocol)),
{
    reveal(encode_layer);
    reveal(decode_layer);
    let tag = encode_text(kind_tag(layer.kind()));
    let payload = encode_payload(layer, protocol);
    let data = encode_layer(layer, protocol).subrange(0, cut);
    lemma_kind_tags();
    if cut < tag.len() {
        assert(data =~= tag.subrange(0, cut));
        String::lemma_cut_is_truncated(kind_tag(layer.kind()), cut);
    } else {
        let left = cut - tag.len();
        assert(data =~= tag + payload.subrange(0, left));
        String::lemma_round_trip(kind_tag(layer.kind()), payload.subrange(0, left));
        assert(data.subrange(tag.len() as int, data.len() as int) =~= payload.subrange(0, left));
        lemma_cut_payload(layer, protocol, left);
    }
}

/// A decoder of what a layer carries stays inside its input.
pub proof fn lemma_decode_payload_within(kind: LayerKind, data: Seq<u8>, protocol: Protocol)
    ensures
        match decode_payload(kind, data, protocol) {
            Ok((layer, n)) => {
                &&& n <= data.len()
                &&& layer.valid()
                &&& layer.kind() == kind
                &&& encode_payload(layer, protocol) == data.subrange(0, n as int)
            },
            Err(f) => f.at <= data.len(),
        },
{
    match kind {
        LayerKind::Activation => match protocol {
            Protocol::Tagged => Activation::lemma_decode_within(data),
            Protocol::Compact => lemma_activation_code_within(data),
        },
        LayerKind::Dense => Dense::lemma_decode_within(data),
    }
}

/// A decoder of stored layers stays inside its input.
pub proof fn lemma_decode_layer_within(data: Seq<u8>, protocol: Protocol)
    ensures
        match decode_layer(data, protocol) {
            Ok((layer, n)) => {
                &&& n <= data.len()
                &&& layer.valid()
                &&& encode_layer(layer, protocol) == data.subrange(0, n as int)
            },
            Err(f) => f.at <= data.len(),
        },
{
    reveal(encode_layer);
    reveal(decode_layer);
    String::lemma_decode_within(data);
    lemma_kind_tags();
    if let Ok((tag, n)) = decode_text(data) {
        if let Some(kind) = find_kind(tag) {
            let after = data.subrange(n as int, data.len() as int);
            lemma_decode_payload_within(kind, after, protocol);
            if let Ok((layer, m)) = decode_payload(kind, after, protocol) {
                assert(after.subrange(0, m as int) =~= data.subrange(n as int, (n + m) as int));
                assert(data.subrange(0, (n + m) as int) =~= data.subrange(0, n as int)
                    + data.subrange(n as int, (n + m) as int));
            }
        }
    }
}

impl Layer {
    /// The kind of the layer.
    pub fn kind(&self) -> (kind: LayerKind)
        ensures
            kind == self@.kind(),
    {
        match self {
            Layer::Activation(_) => LayerKind::Activation,
            Layer::Dense(_) => LayerKind::Dense,
        }
    }

    /// A number for the kind of the layer: 1 for a nonlinearity, 2 for an
    /// affine layer.
    pub fn layer_id(&self) -> (id: usize)
        ensures
            id == match self@ {
                LayerView::Activation(_) => 1usize,
                LayerView::Dense(_) => 2usize,
            },
    {
        match self {
            Layer::Activation(_) => 1,
            Layer::Dense(_) => 2,
        }
    }

    /// Appends the stored form of `self` to `out`: the tag of its kind,
    /// then what it carries.
    pub fn serialize_into(&self, protocol: Protocol, out: &mut Vec<u8>)
        ensures
            self@.valid(),
            final(out)@ == old(out)@ + encode_layer(self@, protocol),
    {
        proof {
            reveal(encode_layer);
        }
        let tag: String = self.kind().tag().to_owned();
        let head: Vec<u8> = tag.serialize_binary();
        push_all(out, head.as_slice());
        let payload: Vec<u8> = match self {
            Layer::Activation(a) => match protocol {
                Protocol::Tagged => a.serialize_binary(),
                Protocol::Compact => a.serialize_code(),
            },
            Layer::Dense(d) => d.serialize_binary(),
        };
        push_all(out, payload.as_slice());
        assert(out@ =~= old(out)@ + encode_layer(self@, protocol));
    }

    /// Decodes one stored layer from the front of `data`.
    pub fn deserialize_with(data: &[u8], protocol: Protocol) -> (r: Result<
        (Layer, usize),
        DecodeError,
    >)
        ensures
            agrees(r, decode_layer(data@, protocol)),
    {
        proof {
            reveal(decode_layer);
            String::lemma_decode_within(data@);
        }
        match String::deserialize_binary(data) {
            Err(e) => Err(e),
            Ok((tag, n)) => match lookup_kind(tag.as_str()) {
                None => Err(DecodeError::new(DecodeErrorKind::UnknownTag, 0)),
                Some(kind) => {
                    let after: &[u8] = vstd::slice::slice_subrange(data, n, data.len());
                    proof {
                        lemma_decode_payload_within(kind, after@, protocol);
                    }
                    let read: Result<(Layer, usize), DecodeError> = match kind {
                        LayerKind::Activation => {
                            let inner: Result<(Activation, usize), DecodeError> = match protocol {
                                Protocol::Tagged => Activation::deserialize_binary(after),
                                Protocol::Compact => Activation::deserialize_code(after),
                            };
                            match inner {
                                Ok((a, m)) => Ok((Layer::Activation(a), m)),
                                Err(e) => Err(e),
                            }
                        },
                        LayerKind::Dense => match Dense::deserialize_binary(after) {
                            Ok((d, m)) => Ok((Layer::Dense(d), m)),
                            Err(e) => Err(e),
                        },
                    };
                    match read {
                        Ok((layer, m)) => Ok((layer, n + m)),
                        Err(e) => Err(e.shifted(n)),
                    }
                },
            },
        }
    }
}

impl LayerName for Layer {
    open spec fn name_spec(&self) -> Seq<char> {
        kind_tag(self@.kind())
    }

    fn name(&self) -> (name: String) {
        match self {
            Layer::Activation(a) => a.name(),
            Layer::Dense(d) => d.name(),
        }
    }

    fn display(&self) -> (text: String)
        ensures
            text@ == match self@ {
                LayerView::Activation(a) => activation_name(a),
                LayerView::Dense(d) => dense_display(d.weights.cols, d.weights.rows),
            },
    {
        match self {
            Layer::Activation(a) => a.display(),
            Layer::Dense(d) => d.display(),
        }
    }
}

} // verus!
