//! The first format of a stored network, in which every layer is an affine
//! layer followed by a nonlinearity.
//!
//! A file starts with the four bytes of the number 0x12092004. Then come,
//! each on 4 big-endian bytes, the number of layers, the number of inputs
//! of the network, the number of neurons of each layer, and the number that
//! stands for the nonlinearity of each layer. Then come, 8 bytes each, the
//! biases of each layer, and after them the weights of each layer, column
//! by column: a column holds the weights that one input has on the neurons
//! of the layer.
//!
//! The module holds, in this order: the types and their views; the model of
//! the lists of counts and of the blocks of numbers; the model of the whole
//! file, `encode_network` and `decode_network`; the executable functions;
//! the laws of the model.

use vstd::prelude::*;
use vstd::slice::slice_subrange;
use crate::error::{fault, DecodeError, DecodeErrorKind, Fault};
use crate::math::{Matrix, MatrixView, Vector};
use crate::wire::{
    be_bytes, be_value, decode_words, encode_words, first_missing_word, lemma_be_bytes_len,
    lemma_be_value_bound, lemma_be_value_of_bytes, lemma_encode_words_layout,
    lemma_first_missing_word, lemma_pow256_values, lemma_words_round_trip, push_be, push_words,
    read_be, read_words, word32_at,
};

verus! {

/// The nonlinearity of a layer.
#[derive(Clone, Copy, Debug, PartialEq, Eq, Structural)]
pub enum ActivationFunction {
    Sigmoid,
    Softmax,
    ReLU,
}

/// What a layer is to be like: the number of its neurons and its
/// nonlinearity.
#[derive(Clone, Copy, Debug, PartialEq, Eq, Structural)]
pub struct LayerSpec {
    pub neurons: usize,
    pub activation: ActivationFunction,
}

impl From<(usize, ActivationFunction)> for LayerSpec {
    /// The description of a layer of `pair.0` neurons with the nonlinearity
    /// `pair.1`.
    fn from(pair: (usize, ActivationFunction)) -> (spec: LayerSpec) {
        LayerSpec { neurons: pair.0, activation: pair.1 }
    }
}

impl vstd::std_specs::convert::FromSpecImpl<(usize, ActivationFunction)> for LayerSpec {
    open spec fn obeys_from_spec() -> bool {
        true
    }

    open spec fn from_spec(pair: (usize, ActivationFunction)) -> LayerSpec {
        LayerSpec { neurons: pair.0, activation: pair.1 }
    }
}

/// A layer: `weights` has one row for each neuron and one column for each
/// input of the layer, `biases` one element for each neuron.
#[derive(Clone, Debug, PartialEq, Eq)]
pub struct Layer {
    pub weights: Matrix,
    pub biases: Vector,
    pub activation: ActivationFunction,
}

/// A network: its layers, the one nearest the input first, and the number
/// of its inputs.
#[derive(Clone, Debug, PartialEq, Eq)]
pub struct Network {
    pub layers: Vec<Layer>,
    pub input_size: usize,
}

/// A layer as specifications see it.
pub struct LayerView {
    pub weights: MatrixView,
    pub biases: Seq<u64>,
    pub activation: ActivationFunction,
}

/// A network as specifications see it.
pub struct NetworkView {
    pub layers: Seq<LayerView>,
    pub input_size: nat,
}

impl View for Layer {
    type V = LayerView;

    open spec fn view(&self) -> LayerView {
        LayerView { weights: self.weights@, biases: self.biases@, activation: self.activation }
    }
}

impl View for Network {
    type V = NetworkView;

    open spec fn view(&self) -> NetworkView {
        NetworkView {
            layers: Seq::new(self.layers@.len(), |k: int| self.layers@[k]@),
            input_size: self.input_size as nat,
        }
    }
}

impl Layer {
    /// The layer with the weights `weights`, the biases `biases` and the
    /// nonlinearity `activation`.
    pub fn new(weights: Matrix, biases: Vector, activation: ActivationFunction) -> (layer: Layer)
        ensures
            layer.weights == weights,
            layer.biases == biases,
            layer.activation == activation,
    {
        Layer { weights, biases, activation }
    }

    /// The number of neurons of the layer.
    pub fn size(&self) -> (n: usize)
        ensures
            n == self@.biases.len(),
    {
        self.biases.len()
    }
}

/// The number that stands for the nonlinearity `activation`.
pub open spec fn activation_number(activation: ActivationFunction) -> nat {
    match activation {
        ActivationFunction::Sigmoid => 0,
        ActivationFunction::ReLU => 1,
        ActivationFunction::Softmax => 2,
    }
}

/// The nonlinearity that the number `code` stands for, if it stands for
/// one.
pub open spec fn activation_of_number(code: nat) -> Option<ActivationFunction> {
    if code == 0 {
        Some(ActivationFunction::Sigmoid)
    } else if code == 1 {
        Some(ActivationFunction::ReLU)
    } else if code == 2 {
        Some(ActivationFunction::Softmax)
    } else {
        None
    }
}

/// The number that stands for the nonlinearity `activation`.
pub fn serialize_activation(activation: ActivationFunction) -> (code: u32)
    ensures
        code == activation_number(activation),
        activation_of_number(code as nat) == Some(activation),
{
    match activation {
        ActivationFunction::Sigmoid => 0,
        ActivationFunction::ReLU => 1,
        ActivationFunction::Softmax => 2,
    }
}

/// The nonlinearity that the number `activation` stands for; nothing where
/// it stands for none.
pub fn deserialize_activation(activation: u32) -> (found: Option<ActivationFunction>)
    ensures
        found == activation_of_number(activation as nat),
{
    if activation == 0 {
        Some(ActivationFunction::Sigmoid)
    } else if activation == 1 {
        Some(ActivationFunction::ReLU)
    } else if activation == 2 {
        Some(ActivationFunction::Softmax)
    } else {
        None
    }
}

/// The bytes of the numbers of `s`, 4 big-endian bytes each, in order.
pub open spec fn encode_counts(s: Seq<nat>) -> Seq<u8>
    decreases s.len(),
{
    if s.len() == 0 {
        Seq::empty()
    } else {
        encode_counts(s.drop_last()) + be_bytes(s.last(), 4)
    }
}

/// The `count` numbers of 4 bytes each that `data` holds from its first
/// byte on.
pub open spec fn decode_counts(data: Seq<u8>, count: nat) -> Seq<nat> {
    Seq::new(count, |k: int| be_value(data.subrange(4 * k, 4 * k + 4)))
}

/// `encode_counts` yields 4 bytes for each number, and the bytes of the
/// `k`-th number stand at offset `4 * k`.
pub proof fn lemma_encode_counts_layout(s: Seq<nat>)
    ensures
        encode_counts(s).len() == 4 * s.len(),
        forall|k: int|
            0 <= k < s.len() ==> #[trigger] encode_counts(s).subrange(4 * k, 4 * k + 4) == be_bytes(
                s[k],
                4,
            ),
    decreases s.len(),
{
    if s.len() > 0 {
        let init = s.drop_last();
        let tail = be_bytes(s.last(), 4);
        lemma_encode_counts_layout(init);
        lemma_be_bytes_len(s.last(), 4);
        assert forall|k: int| 0 <= k < s.len() implies #[trigger] encode_counts(s).subrange(
            4 * k,
            4 * k + 4,
        ) == be_bytes(s[k], 4) by {
            if k < init.len() {
                assert(encode_counts(init).subrange(4 * k, 4 * k + 4) == be_bytes(init[k], 4));
                assert(encode_counts(s).subrange(4 * k, 4 * k + 4) =~= encode_counts(init).subrange(
                    4 * k,
                    4 * k + 4,
                ));
            } else {
                assert(encode_counts(s).subrange(4 * k, 4 * k + 4) =~= tail);
            }
        }
    }
}

/// Numbers that fit 4 bytes are read back from their bytes, whatever
/// follows them.
pub proof fn lemma_counts_round_trip(s: Seq<nat>, rest: Seq<u8>)
    requires
        forall|k: int| 0 <= k < s.len() ==> #[trigger] s[k] <= u32::MAX,
    ensures
        decode_counts(encode_counts(s) + rest, s.len()) == s,
{
    let data = encode_counts(s) + rest;
    lemma_encode_counts_layout(s);
    lemma_pow256_values();
    assert forall|k: int| 0 <= k < s.len() implies decode_counts(data, s.len())[k] == s[k] by {
        assert(data.subrange(4 * k, 4 * k + 4) =~= encode_counts(s).subrange(4 * k, 4 * k + 4));
        lemma_be_value_of_bytes(s[k], 4);
    }
    assert(decode_counts(data, s.len()) =~= s);
}

/// The bytes of the blocks of numbers `blocks`, one block after the other,
/// 8 bytes for each number.
pub open spec fn encode_blocks(blocks: Seq<Seq<u64>>) -> Seq<u8>
    decreases blocks.len(),
{
    if blocks.len() == 0 {
        Seq::empty()
    } else {
        encode_words(blocks[0]) + encode_blocks(blocks.drop_first())
    }
}

/// The outcome `r` of reading the blocks that follow the blocks `done` of
/// `n` bytes in all, as the outcome of reading `done` and them.
pub open spec fn after_blocks(
    done: Seq<Seq<u64>>,
    n: nat,
    r: Result<(Seq<Seq<u64>>, nat), Fault>,
) -> Result<(Seq<Seq<u64>>, nat), Fault> {
    match r {
        Ok((blocks, m)) => Ok((done + blocks, n + m)),
        Err(f) => Err(f.shifted(n)),
    }
}

/// What reading blocks of `lengths[0]`, `lengths[1]`, ... numbers of 8
/// bytes each from the front of `data` gives. Where the input does not hold
/// a block in full, the failure lies where the first number starts that the
/// input does not hold in full.
pub open spec fn decode_blocks(lengths: Seq<nat>, data: Seq<u8>) -> Result<
    (Seq<Seq<u64>>, nat),
    Fault,
>
    decreases lengths.len(),
{
    if lengths.len() == 0 {
        Ok((Seq::empty(), 0))
    } else if data.len() < 8 * lengths[0] {
        Err(fault(DecodeErrorKind::Truncated, first_missing_word(0, data.len())))
    } else {
        after_blocks(
            seq![decode_words(data.subrange(0, 8 * lengths[0] as int), lengths[0])],
            8 * lengths[0],
            decode_blocks(
                lengths.drop_first(),
                data.subrange(8 * lengths[0] as int, data.len() as int),
            ),
        )
    }
}

/// The lengths of the blocks `blocks`.
pub open spec fn lengths_of(blocks: Seq<Seq<u64>>) -> Seq<nat> {
    Seq::new(blocks.len(), |k: int| blocks[k].len())
}

/// Appending a block appends its bytes.
pub proof fn lemma_encode_blocks_push(blocks: Seq<Seq<u64>>, block: Seq<u64>)
    ensures
        encode_blocks(blocks.push(block)) == encode_blocks(blocks) + encode_words(block),
    decreases blocks.len(),
{
    if blocks.len() == 0 {
        assert(blocks.push(block).drop_first() =~= Seq::<Seq<u64>>::empty());
        assert(encode_blocks(blocks.push(block)) =~= encode_words(block) + encode_blocks(
            Seq::<Seq<u64>>::empty(),
        ));
        assert(encode_blocks(blocks.push(block)) =~= encode_blocks(blocks) + encode_words(block));
    } else {
        lemma_encode_blocks_push(blocks.drop_first(), block);
        assert(blocks.push(block).drop_first() =~= blocks.drop_first().push(block));
        assert(encode_blocks(blocks.push(block)) =~= encode_blocks(blocks) + encode_words(block));
    }
}

/// Reading one more block after the blocks `done`: the block joins them.
proof fn lemma_after_blocks_step(
    done: Seq<Seq<u64>>,
    at: nat,
    block: Seq<u64>,
    n: nat,
    r: Result<(Seq<Seq<u64>>, nat), Fault>,
)
    ensures
        after_blocks(done, at, after_blocks(seq![block], n, r)) == after_blocks(
            done.push(block),
            at + n,
            r,
        ),
{
    match r {
        Ok((blocks, m)) => {
            assert(done + (seq![block] + blocks) =~= done.push(block) + blocks);
        },
        Err(f) => {},
    }
}

/// Blocks are read back from their bytes, whatever follows them.
pub proof fn lemma_blocks_round_trip(blocks: Seq<Seq<u64>>, rest: Seq<u8>)
    ensures
        decode_blocks(lengths_of(blocks), encode_blocks(blocks) + rest) == Ok::<
            (Seq<Seq<u64>>, nat),
            Fault,
        >((blocks, encode_blocks(blocks).len())),
    decreases blocks.len(),
{
    let lengths = lengths_of(blocks);
    if blocks.len() > 0 {
        let first = encode_words(blocks[0]);
        let tail = encode_blocks(blocks.drop_first());
        let data = encode_blocks(blocks) + rest;
        lemma_encode_words_layout(blocks[0]);
        assert(data =~= first + (tail + rest));
        assert(data.subrange(0, 8 * lengths[0] as int) =~= first + Seq::<u8>::empty());
        lemma_words_round_trip(blocks[0], Seq::<u8>::empty());
        assert(data.subrange(8 * lengths[0] as int, data.len() as int) =~= tail + rest);
        assert(lengths.drop_first() =~= lengths_of(blocks.drop_first()));
        lemma_blocks_round_trip(blocks.drop_first(), rest);
        assert(seq![blocks[0]] + blocks.drop_first() =~= blocks);
    } else {
        assert(blocks =~= Seq::<Seq<u64>>::empty());
    }
}

/// A reader of blocks stays inside its input and gives blocks of the
/// lengths asked for.
pub proof fn lemma_decode_blocks_within(lengths: Seq<nat>, data: Seq<u8>)
    ensures
        match decode_blocks(lengths, data) {
            Ok((blocks, n)) => n <= data.len() && lengths_of(blocks) == lengths,
            Err(f) => f.at <= data.len(),
        },
    decreases lengths.len(),
{
    lemma_first_missing_word(0, data.len());
    if lengths.len() > 0 && data.len() >= 8 * lengths[0] {
        let after = data.subrange(8 * lengths[0] as int, data.len() as int);
        lemma_decode_blocks_within(lengths.drop_first(), after);
        if let Ok((blocks, m)) = decode_blocks(lengths.drop_first(), after) {
            let first = decode_words(data.subrange(0, 8 * lengths[0] as int), lengths[0]);
            let all = seq![first] + blocks;
            assert(lengths_of(all) =~= lengths) by {
                assert forall|k: int| 0 <= k < lengths.len() implies lengths_of(all)[k]
                    == lengths[k] by {
                    if k > 0 {
                        assert(all[k] == blocks[k - 1]);
                        assert(lengths_of(blocks)[k - 1] == lengths.drop_first()[k - 1]);
                    }
                }
            }
        }
    } else if lengths.len() == 0 {
        assert(lengths_of(Seq::<Seq<u64>>::empty()) =~= lengths);
    }
}

/// The four bytes that a file starts with.
pub open spec fn magic() -> Seq<u8> {
    seq![0x12u8, 0x09u8, 0x20u8, 0x04u8]
}

/// The numbers of neurons of the layers `layers`.
pub open spec fn sizes_of(layers: Seq<LayerView>) -> Seq<nat> {
    Seq::new(layers.len(), |k: int| layers[k].biases.len())
}

/// The numbers that stand for the nonlinearities of the layers `layers`.
pub open spec fn numbers_of(layers: Seq<LayerView>) -> Seq<nat> {
    Seq::new(layers.len(), |k: int| activation_number(layers[k].activation))
}

/// The biases of the layers `layers`, a block for each layer.
pub open spec fn bias_blocks(layers: Seq<LayerView>) -> Seq<Seq<u64>> {
    Seq::new(layers.len(), |k: int| layers[k].biases)
}

/// The weights of the layers `layers`, a block for each layer, column by
/// column.
pub open spec fn weight_blocks(layers: Seq<LayerView>) -> Seq<Seq<u64>> {
    Seq::new(layers.len(), |k: int| layers[k].weights.cells)
}

/// The number of inputs of the layer `k` of a network of `input_size`
/// inputs whose layers have `sizes` neurons: the inputs of the network for
/// the first layer, the neurons of the layer before it for another.
pub open spec fn inputs_of(input_size: nat, sizes: Seq<nat>, k: int) -> nat {
    if k == 0 {
        input_size
    } else {
        sizes[k - 1]
    }
}

/// The numbers of weights of the layers: for each layer, one for each pair
/// of a neuron and an input.
pub open spec fn cell_counts(input_size: nat, sizes: Seq<nat>) -> Seq<nat> {
    Seq::new(sizes.len(), |k: int| sizes[k] * inputs_of(input_size, sizes, k))
}

/// Whether the layer `k` of `v` has a row of weights for each of its
/// neurons and a column for each of its inputs, and no more neurons than 4
/// bytes can count.
pub open spec fn layer_fits(v: NetworkView, k: int) -> bool {
    let layer = v.layers[k];
    &&& layer.biases.len() <= u32::MAX
    &&& layer.weights.wf()
    &&& layer.weights.rows == layer.biases.len()
    &&& layer.weights.cols == inputs_of(v.input_size, sizes_of(v.layers), k)
}

/// Whether the format can hold `v`: its counts fit 4 bytes each, and each
/// layer has the weights that its place in the network asks for.
pub open spec fn fits(v: NetworkView) -> bool {
    &&& v.input_size <= u32::MAX
    &&& v.layers.len() <= u32::MAX
    &&& forall|k: int| 0 <= k < v.layers.len() ==> #[trigger] layer_fits(v, k)
}

/// The bytes of the stored network `v`.
pub open spec fn encode_network(v: NetworkView) -> Seq<u8> {
    magic() + be_bytes(v.layers.len(), 4) + be_bytes(v.input_size, 4) + encode_counts(
        sizes_of(v.layers),
    ) + encode_counts(numbers_of(v.layers)) + encode_blocks(bias_blocks(v.layers)) + encode_blocks(
        weight_blocks(v.layers),
    )
}

/// The first of `numbers` at or after `from` that stands for no
/// nonlinearity, if there is one.
pub open spec fn first_unknown(numbers: Seq<nat>, from: int) -> Option<int>
    decreases numbers.len() - from,
{
    if from < 0 || from >= numbers.len() {
        None
    } else if activation_of_number(numbers[from]) is None {
        Some(from)
    } else {
        first_unknown(numbers, from + 1)
    }
}

/// The network of `input_size` inputs whose layers have `sizes` neurons,
/// the nonlinearities that `numbers` stand for, the biases `biases` and the
/// weights `cells`.
pub open spec fn assemble(
    input_size: nat,
    sizes: Seq<nat>,
    numbers: Seq<nat>,
    biases: Seq<Seq<u64>>,
    cells: Seq<Seq<u64>>,
) -> NetworkView {
    NetworkView {
        input_size,
        layers: Seq::new(
            sizes.len(),
            |k: int|
                LayerView {
                    weights: MatrixView {
                        rows: sizes[k],
                        cols: inputs_of(input_size, sizes, k),
                        cells: cells[k],
                    },
                    biases: biases[k],
                    activation: activation_of_number(numbers[k])->0,
                },
        ),
    }
}

/// What the numbers after the header of a file hold: the biases, then the
/// weights. The header, which `data` starts with, is `header` bytes long.
pub open spec fn decode_numbers(
    data: Seq<u8>,
    header: nat,
    input_size: nat,
    sizes: Seq<nat>,
    numbers: Seq<nat>,
) -> Result<NetworkView, Fault> {
    match decode_blocks(sizes, data.subrange(header as int, data.len() as int)) {
        Err(f) => Err(f.shifted(header)),
        Ok((biases, n)) => match decode_blocks(
            cell_counts(input_size, sizes),
            data.subrange((header + n) as int, data.len() as int),
        ) {
            Err(f) => Err(f.shifted(header + n)),
            Ok((cells, _)) => Ok(assemble(input_size, sizes, numbers, biases, cells)),
        },
    }
}

/// What a file with the contents `data` holds. Bytes after the last weight
/// are not looked at.
pub open spec fn decode_network(data: Seq<u8>) -> Result<NetworkView, Fault> {
    if data.len() < 4 {
        Err(fault(DecodeErrorKind::Truncated, 0))
    } else if data.subrange(0, 4) != magic() {
        Err(fault(DecodeErrorKind::TagMismatch, 0))
    } else if data.len() < 8 {
        Err(fault(DecodeErrorKind::Truncated, 4))
    } else if data.len() < 12 {
        Err(fault(DecodeErrorKind::Truncated, 8))
    } else {
        let count = word32_at(data, 4);
        let input_size = word32_at(data, 8);
        if data.len() - 12 < 8 * count {
            Err(fault(DecodeErrorKind::Truncated, (12 + 4 * ((data.len() - 12) / 4)) as nat))
        } else {
            let sizes = decode_counts(data.subrange(12, 12 + 4 * count as int), count);
            let numbers = decode_counts(
                data.subrange(12 + 4 * count as int, 12 + 8 * count as int),
                count,
            );
            match first_unknown(numbers, 0) {
                Some(k) => Err(fault(DecodeErrorKind::UnknownTag, (12 + 4 * count + 4 * k) as nat)),
                None => decode_numbers(data, 12 + 8 * count, input_size, sizes, numbers),
            }
        }
    }
}

/// The numbers of `counts`.
pub open spec fn count_views(counts: Seq<u32>) -> Seq<nat> {
    Seq::new(counts.len(), |k: int| counts[k] as nat)
}

/// The views of the vectors `vectors`.
pub open spec fn vector_views(vectors: Seq<Vector>) -> Seq<Seq<u64>> {
    Seq::new(vectors.len(), |k: int| vectors[k]@)
}

/// The cells of the matrices `matrices`.
pub open spec fn cells_of(matrices: Seq<Matrix>) -> Seq<Seq<u64>> {
    Seq::new(matrices.len(), |k: int| matrices[k]@.cells)
}

/// Reads `count` numbers of 4 bytes each from `data`, starting at `at`.
fn read_counts(data: &[u8], at: usize, count: usize) -> (numbers: Vec<u32>)
    requires
        at + 4 * count <= data.len(),
    ensures
        count_views(numbers@) == decode_counts(
            data@.subrange(at as int, at + 4 * count),
            count as nat,
        ),
{
    let ghost body = data@.subrange(at as int, at + 4 * count);
    let mut numbers: Vec<u32> = Vec::new();
    let mut k: usize = 0;
    assert(count_views(numbers@) =~= decode_counts(body, 0));
    while k < count
        invariant
            k <= count,
            at + 4 * count <= data.len(),
            body == data@.subrange(at as int, at + 4 * count),
            numbers@.len() == k,
            count_views(numbers@) == decode_counts(body, k as nat),
        decreases count - k,
    {
        let word: u64 = read_be(data, at + 4 * k, 4);
        proof {
            let chunk = data@.subrange(at + 4 * k, at + 4 * k + 4);
            assert(chunk =~= body.subrange(4 * k, 4 * k + 4));
            lemma_be_value_bound(chunk);
            lemma_pow256_values();
        }
        let number: u32 = word as u32;
        proof {
            let before = count_views(numbers@);
            let after = count_views(numbers@.push(number));
            assert forall|j: int| 0 <= j < k + 1 implies after[j] == decode_counts(
                body,
                (k + 1) as nat,
            )[j] by {
                if j < k {
                    assert(after[j] == before[j]);
                    assert(before[j] == decode_counts(body, k as nat)[j]);
                }
            }
            assert(after =~= decode_counts(body, (k + 1) as nat));
        }
        numbers.push(number);
        k = k + 1;
    }
    numbers
}

/// The bytes of the biases of `network`: the biases of each layer, 8 bytes
/// each, one layer after the other.
pub fn serialize_biases(network: &Network) -> (data: Vec<u8>)
    ensures
        data@ == encode_blocks(bias_blocks(network@.layers)),
{
    let ghost blocks = bias_blocks(network@.layers);
    let mut data: Vec<u8> = Vec::new();
    let mut i: usize = 0;
    assert(data@ =~= encode_blocks(blocks.take(0)));
    while i < network.layers.len()
        invariant
            i <= network.layers.len(),
            blocks == bias_blocks(network@.layers),
            data@ == encode_blocks(blocks.take(i as int)),
        decreases network.layers.len() - i,
    {
        push_words(&mut data, &network.layers[i].biases.0);
        proof {
            lemma_encode_blocks_push(blocks.take(i as int), blocks[i as int]);
            assert(blocks.take(i as int).push(blocks[i as int]) =~= blocks.take(i + 1));
        }
        i = i + 1;
    }
    assert(blocks.take(network.layers.len() as int) =~= blocks);
    data
}

/// The bytes of the weights of `network`: the weights of each layer, 8
/// bytes each and column by column, one layer after the other.
pub fn serialize_weights(network: &Network) -> (data: Vec<u8>)
    ensures
        data@ == encode_blocks(weight_blocks(network@.layers)),
{
    let ghost blocks = weight_blocks(network@.layers);
    let mut data: Vec<u8> = Vec::new();
    let mut i: usize = 0;
    assert(data@ =~= encode_blocks(blocks.take(0)));
    while i < network.layers.len()
        invariant
            i <= network.layers.len(),
            blocks == weight_blocks(network@.layers),
            data@ == encode_blocks(blocks.take(i as int)),
        decreases network.layers.len() - i,
    {
        push_words(&mut data, network.layers[i].weights.data());
        proof {
            lemma_encode_blocks_push(blocks.take(i as int), blocks[i as int]);
            assert(blocks.take(i as int).push(blocks[i as int]) =~= blocks.take(i + 1));
        }
        i = i + 1;
    }
    assert(blocks.take(network.layers.len() as int) =~= blocks);
    data
}

/// Reads the biases of layers of `layers[0]`, `layers[1]`, ... neurons from
/// the front of `data`, and says how many bytes they took up.
pub fn deserialize_biases(data: &[u8], layers: &[u32]) -> (r: Result<
    (Vec<Vector>, usize),
    DecodeError,
>)
    ensures
        match r {
            Ok((biases, n)) => decode_blocks(count_views(layers@), data@) == Ok::<
                (Seq<Seq<u64>>, nat),
                Fault,
            >((vector_views(biases@), n as nat)),
            Err(e) => decode_blocks(count_views(layers@), data@) == Err::<
                (Seq<Seq<u64>>, nat),
                Fault,
            >(e@),
        },
{
    let ghost all = count_views(layers@);
    let mut biases: Vec<Vector> = Vec::new();
    let mut at: usize = 0;
    let mut i: usize = 0;
    proof {
        assert(all.subrange(0, all.len() as int) =~= all);
        assert(data@.subrange(0, data@.len() as int) =~= data@);
        match decode_blocks(all, data@) {
            Ok((found, m)) => {
                assert(vector_views(biases@) + found =~= found);
            },
            Err(f) => {},
        }
    }
    while i < layers.len()
        invariant
            i <= layers.len(),
            at <= data.len(),
            all == count_views(layers@),
            decode_blocks(all, data@) == after_blocks(
                vector_views(biases@),
                at as nat,
                decode_blocks(
                    all.subrange(i as int, all.len() as int),
                    data@.subrange(at as int, data@.len() as int),
                ),
            ),
        decreases layers.len() - i,
    {
        let ghost left = all.subrange(i as int, all.len() as int);
        let ghost after = data@.subrange(at as int, data@.len() as int);
        let length: u32 = layers[i];
        proof {
            assert(left[0] == length as nat);
            assert(left.drop_first() =~= all.subrange(i + 1, all.len() as int));
        }
        let held: usize = (data.len() - at) / 8;
        proof {
            lemma_first_missing_word(0, after.len());
        }
        if (held as u64) < length as u64 {
            return Err(DecodeError::new(DecodeErrorKind::Truncated, at + 8 * held));
        }
        let count: usize = length as usize;
        let block: Vector = Vector(read_words(data, at, count));
        proof {
            assert(after.subrange(0, 8 * count as int) =~= data@.subrange(
                at as int,
                at + 8 * count,
            ));
            assert(after.subrange(8 * count as int, after.len() as int) =~= data@.subrange(
                at + 8 * count,
                data@.len() as int,
            ));
            lemma_after_blocks_step(
                vector_views(biases@),
                at as nat,
                block@,
                (8 * count) as nat,
                decode_blocks(
                    all.subrange(i + 1, all.len() as int),
                    data@.subrange(at + 8 * count, data@.len() as int),
                ),
            );
            assert(vector_views(biases@.push(block)) =~= vector_views(biases@).push(block@));
        }
        biases.push(block);
        at = at + 8 * count;
        i = i + 1;
    }
    proof {
        assert(vector_views(biases@) + Seq::<Seq<u64>>::empty() =~= vector_views(biases@));
    }
    Ok((biases, at))
}

/// The product of two numbers of 32 bits fits 64 bits.
proof fn lemma_count_fits(a: nat, b: nat)
    by (nonlinear_arith)
    requires
        a <= 0xffff_ffff,
        b <= 0xffff_ffff,
    ensures
        a * b <= 0xffff_ffff_ffff_ffff,
{
}

/// Reads the weights of layers of `layers[0]`, `layers[1]`, ... neurons from
/// the front of `data`, and says how many bytes they took up. The first
/// layer has `input_neurons` inputs, each other layer as many as the layer
/// before it has neurons.
pub fn deserialize_weights(data: &[u8], input_neurons: u32, layers: &[u32]) -> (r: Result<
    (Vec<Matrix>, usize),
    DecodeError,
>)
    ensures
        match r {
            Ok((weights, n)) => {
                &&& decode_blocks(
                    cell_counts(input_neurons as nat, count_views(layers@)),
                    data@,
                ) == Ok::<(Seq<Seq<u64>>, nat), Fault>((cells_of(weights@), n as nat))
                &&& weights@.len() == layers@.len()
                &&& forall|k: int|
                    0 <= k < weights@.len() ==> {
                        &&& (#[trigger] weights@[k])@.wf()
                        &&& weights@[k]@.rows == layers@[k]
                        &&& weights@[k]@.cols == inputs_of(
                            input_neurons as nat,
                            count_views(layers@),
                            k,
                        )
                    }
            },
            Err(e) => decode_blocks(cell_counts(input_neurons as nat, count_views(layers@)), data@)
                == Err::<(Seq<Seq<u64>>, nat), Fault>(e@),
        },
{
    let ghost sizes = count_views(layers@);
    let ghost all = cell_counts(input_neurons as nat, sizes);
    let mut weights: Vec<Matrix> = Vec::new();
    let mut last_layer: u32 = input_neurons;
    let mut at: usize = 0;
    let mut i: usize = 0;
    proof {
        assert(all.subrange(0, all.len() as int) =~= all);
        assert(data@.subrange(0, data@.len() as int) =~= data@);
        match decode_blocks(all, data@) {
            Ok((found, m)) => {
                assert(cells_of(weights@) + found =~= found);
            },
            Err(f) => {},
        }
    }
    while i < layers.len()
        invariant
            i <= layers.len(),
            at <= data.len(),
            sizes == count_views(layers@),
            all == cell_counts(input_neurons as nat, sizes),
            last_layer as nat == inputs_of(input_neurons as nat, sizes, i as int),
            weights@.len() == i,
            forall|k: int|
                0 <= k < i ==> {
                    &&& (#[trigger] weights@[k])@.wf()
                    &&& weights@[k]@.rows == layers@[k]
                    &&& weights@[k]@.cols == inputs_of(input_neurons as nat, sizes, k)
                },
            decode_blocks(all, data@) == after_blocks(
                cells_of(weights@),
                at as nat,
                decode_blocks(
                    all.subrange(i as int, all.len() as int),
                    data@.subrange(at as int, data@.len() as int),
                ),
            ),
        decreases layers.len() - i,
    {
        let ghost left = all.subrange(i as int, all.len() as int);
        let ghost after = data@.subrange(at as int, data@.len() as int);
        let layer: u32 = layers[i];
        proof {
            lemma_count_fits(layer as nat, last_layer as nat);
            assert(left[0] == layer as nat * last_layer as nat);
            assert(left.drop_first() =~= all.subrange(i + 1, all.len() as int));
        }
        let length: u64 = layer as u64 * last_layer as u64;
        let held: usize = (data.len() - at) / 8;
        proof {
            lemma_first_missing_word(0, after.len());
        }
        if (held as u64) < length {
            return Err(DecodeError::new(DecodeErrorKind::Truncated, at + 8 * held));
        }
        let count: usize = length as usize;
        let cells: Vec<u64> = read_words(data, at, count);
        let layer_weights: Matrix = Matrix::with_cells(layer as usize, last_layer as usize, cells);
        proof {
            assert(after.subrange(0, 8 * count as int) =~= data@.subrange(
                at as int,
                at + 8 * count,
            ));
            assert(after.subrange(8 * count as int, after.len() as int) =~= data@.subrange(
                at + 8 * count,
                data@.len() as int,
            ));
            lemma_after_blocks_step(
                cells_of(weights@),
                at as nat,
                layer_weights@.cells,
                (8 * count) as nat,
                decode_blocks(
                    all.subrange(i + 1, all.len() as int),
                    data@.subrange(at + 8 * count, data@.len() as int),
                ),
            );
            assert(cells_of(weights@.push(layer_weights)) =~= cells_of(weights@).push(
                layer_weights@.cells,
            ));
        }
        weights.push(layer_weights);
        last_layer = layer;
        at = at + 8 * count;
        i = i + 1;
    }
    proof {
        assert(cells_of(weights@) + Seq::<Seq<u64>>::empty() =~= cells_of(weights@));
    }
    Ok((weights, at))
}

/// Whether the format can hold `network`.
pub fn fits_format(network: &Network) -> (ok: bool)
    ensures
        ok == fits(network@),
{
    if network.input_size > u32::MAX as usize || network.layers.len() > u32::MAX as usize {
        return false;
    }
    let ghost v = network@;
    let mut last_layer: usize = network.input_size;
    let mut i: usize = 0;
    while i < network.layers.len()
        invariant
            i <= network.layers.len(),
            v == network@,
            last_layer as nat == inputs_of(v.input_size, sizes_of(v.layers), i as int),
            forall|k: int| 0 <= k < i ==> #[trigger] layer_fits(v, k),
        decreases network.layers.len() - i,
    {
        let layer: &Layer = &network.layers[i];
        let size: usize = layer.size();
        let cells: &Vec<u64> = layer.weights.data();
        if size > u32::MAX as usize || layer.weights.rows() != size || layer.weights.cols()
            != last_layer {
            assert(!layer_fits(v, i as int));
            return false;
        }
        assert(layer_fits(v, i as int));
        last_layer = size;
        i = i + 1;
    }
    true
}

/// The contents of the file that stores `network`; nothing where the
/// format cannot hold it.
pub fn serialize(network: &Network) -> (r: Option<Vec<u8>>)
    ensures
        r is Some <==> fits(network@),
        r matches Some(data) ==> data@ == encode_network(network@),
{
    if !fits_format(network) {
        return None;
    }
    let ghost v = network@;
    let ghost sizes = sizes_of(v.layers);
    let ghost numbers = numbers_of(v.layers);
    let mut data: Vec<u8> = Vec::new();
    data.push(0x12);
    data.push(0x09);
    data.push(0x20);
    data.push(0x04);
    assert(data@ =~= magic());
    push_be(&mut data, network.layers.len() as u64, 4);
    push_be(&mut data, network.input_size as u64, 4);
    let ghost head = data@;
    let mut i: usize = 0;
    assert(data@ =~= head + encode_counts(sizes.take(0)));
    while i < network.layers.len()
        invariant
            i <= network.layers.len(),
            v == network@,
            sizes == sizes_of(v.layers),
            data@ == head + encode_counts(sizes.take(i as int)),
        decreases network.layers.len() - i,
    {
        push_be(&mut data, network.layers[i].size() as u64, 4);
        proof {
            assert(sizes.take(i + 1).drop_last() =~= sizes.take(i as int));
            assert(data@ =~= head + encode_counts(sizes.take(i + 1)));
        }
        i = i + 1;
    }
    assert(sizes.take(network.layers.len() as int) =~= sizes);
    let ghost with_sizes = data@;
    let mut i: usize = 0;
    assert(data@ =~= with_sizes + encode_counts(numbers.take(0)));
    while i < network.layers.len()
        invariant
            i <= network.layers.len(),
            v == network@,
            numbers == numbers_of(v.layers),
            data@ == with_sizes + encode_counts(numbers.take(i as int)),
        decreases network.layers.len() - i,
    {
        let activation: u32 = serialize_activation(network.layers[i].activation);
        push_be(&mut data, activation as u64, 4);
        proof {
            assert(numbers.take(i + 1).drop_last() =~= numbers.take(i as int));
            assert(data@ =~= with_sizes + encode_counts(numbers.take(i + 1)));
        }
        i = i + 1;
    }
    assert(numbers.take(network.layers.len() as int) =~= numbers);
    let biases: Vec<u8> = serialize_biases(network);
    let weights: Vec<u8> = serialize_weights(network);
    let mut j: usize = 0;
    let ghost with_numbers = data@;
    while j < biases.len()
        invariant
            j <= biases.len(),
            data@ == with_numbers + biases@.subrange(0, j as int),
        decreases biases.len() - j,
    {
        data.push(biases[j]);
        j = j + 1;
        assert(data@ =~= with_numbers + biases@.subrange(0, j as int));
    }
    assert(biases@.subrange(0, biases.len() as int) =~= biases@);
    let ghost with_biases = data@;
    let mut j: usize = 0;
    while j < weights.len()
        invariant
            j <= weights.len(),
            data@ == with_biases + weights@.subrange(0, j as int),
        decreases weights.len() - j,
    {
        data.push(weights[j]);
        j = j + 1;
        assert(data@ =~= with_biases + weights@.subrange(0, j as int));
    }
    assert(weights@.subrange(0, weights.len() as int) =~= weights@);
    Some(data)
}

/// Whether the first 4 bytes of `data` are the four bytes that a file
/// starts with.
fn starts_with_magic(data: &[u8]) -> (found: bool)
    requires
        data.len() >= 4,
    ensures
        found == (data@.subrange(0, 4) == magic()),
{
    let found: bool = data[0] == 0x12 && data[1] == 0x09 && data[2] == 0x20 && data[3] == 0x04;
    proof {
        let head = data@.subrange(0, 4);
        if found {
            assert(head =~= magic());
        } else {
            assert(head[0] != magic()[0] || head[1] != magic()[1] || head[2] != magic()[2]
                || head[3] != magic()[3]);
        }
    }
    found
}

/// The nonlinearities that the numbers `numbers` stand for; where one of
/// them stands for none, the place of the first such.
fn read_activations(numbers: &Vec<u32>) -> (r: Result<Vec<ActivationFunction>, usize>)
    ensures
        match r {
            Ok(activations) => {
                &&& first_unknown(count_views(numbers@), 0) is None
                &&& activations@.len() == numbers@.len()
                &&& forall|k: int|
                    0 <= k < numbers@.len() ==> activation_of_number(numbers@[k] as nat) == Some(
                        #[trigger] activations@[k],
                    )
            },
            Err(k) => k < numbers@.len() && first_unknown(count_views(numbers@), 0) == Some(
                k as int,
            ),
        },
{
    let ghost all = count_views(numbers@);
    let mut activations: Vec<ActivationFunction> = Vec::new();
    let mut k: usize = 0;
    while k < numbers.len()
        invariant
            k <= numbers.len(),
            all == count_views(numbers@),
            activations@.len() == k,
            first_unknown(all, 0) == first_unknown(all, k as int),
            forall|j: int|
                0 <= j < k ==> activation_of_number(numbers@[j] as nat) == Some(
                    #[trigger] activations@[j],
                ),
        decreases numbers.len() - k,
    {
        match deserialize_activation(numbers[k]) {
            None => {
                return Err(k);
            },
            Some(activation) => {
                activations.push(activation);
            },
        }
        k = k + 1;
    }
    Ok(activations)
}

/// The network that a file with the contents `data` stores. Bytes after
/// the last weight are ignored.
pub fn deserialize(data: &[u8]) -> (r: Result<Network, DecodeError>)
    ensures
        match r {
            Ok(network) => decode_network(data@) == Ok::<NetworkView, Fault>(network@),
            Err(e) => decode_network(data@) == Err::<NetworkView, Fault>(e@),
        },
{
    if data.len() < 4 {
        return Err(DecodeError::new(DecodeErrorKind::Truncated, 0));
    }
    if !starts_with_magic(data) {
        return Err(DecodeError::new(DecodeErrorKind::TagMismatch, 0));
    }
    if data.len() < 8 {
        return Err(DecodeError::new(DecodeErrorKind::Truncated, 4));
    }
    if data.len() < 12 {
        return Err(DecodeError::new(DecodeErrorKind::Truncated, 8));
    }
    proof {
        lemma_pow256_values();
        lemma_be_value_bound(data@.subrange(4, 8));
        lemma_be_value_bound(data@.subrange(8, 12));
    }
    let num_layers: usize = read_be(data, 4, 4) as usize;
    let input_neurons: u32 = read_be(data, 8, 4) as u32;
    if (data.len() - 12) / 8 < num_layers {
        return Err(DecodeError::new(DecodeErrorKind::Truncated, 12 + 4 * ((data.len() - 12) / 4)));
    }
    let layer_neurons: Vec<u32> = read_counts(data, 12, num_layers);
    let numbers: Vec<u32> = read_counts(data, 12 + 4 * num_layers, num_layers);
    let activation_functions: Vec<ActivationFunction> = match read_activations(&numbers) {
        Err(k) => {
            return Err(
                DecodeError::new(DecodeErrorKind::UnknownTag, 12 + 4 * num_layers + 4 * k),
            );
        },
        Ok(activations) => activations,
    };
    let header: usize = 12 + 8 * num_layers;
    let ghost sizes = count_views(layer_neurons@);
    let after_header: &[u8] = slice_subrange(data, header, data.len());
    proof {
        lemma_decode_blocks_within(sizes, after_header@);
    }
    let (biases, bias_len) = match deserialize_biases(after_header, layer_neurons.as_slice()) {
        Err(e) => {
            return Err(e.shifted(header));
        },
        Ok(found) => found,
    };
    let after_biases: &[u8] = slice_subrange(data, header + bias_len, data.len());
    proof {
        lemma_decode_blocks_within(cell_counts(input_neurons as nat, sizes), after_biases@);
    }
    let (weights, _) = match deserialize_weights(
        after_biases,
        input_neurons,
        layer_neurons.as_slice(),
    ) {
        Err(e) => {
            return Err(e.shifted(header + bias_len));
        },
        Ok(found) => found,
    };
    let ghost expected = assemble(
        input_neurons as nat,
        sizes,
        count_views(numbers@),
        vector_views(biases@),
        cells_of(weights@),
    );
    proof {
        assert(lengths_of(vector_views(biases@)).len() == sizes.len());
        assert(decode_network(data@) == Ok::<NetworkView, Fault>(expected));
    }
    let mut layers: Vec<Layer> = Vec::new();
    let mut i: usize = 0;
    while i < num_layers
        invariant
            i <= num_layers,
            layers@.len() == i,
            num_layers == weights@.len(),
            num_layers == biases@.len(),
            num_layers == activation_functions@.len(),
            num_layers == expected.layers.len(),
            forall|k: int| 0 <= k < i ==> (#[trigger] layers@[k])@ == expected.layers[k],
            forall|k: int|
                0 <= k < num_layers ==> (#[trigger] expected.layers[k]) == (LayerView {
                    weights: weights@[k]@,
                    biases: biases@[k]@,
                    activation: activation_functions@[k],
                }),
        decreases num_layers - i,
    {
        layers.push(Layer::new(weights[i].clone(), biases[i].clone(), activation_functions[i]));
        i = i + 1;
    }
    let network = Network { layers, input_size: input_neurons as usize };
    assert(network@.layers =~= expected.layers);
    Ok(network)
}

/// None of the numbers that stand for nonlinearities stands for none.
proof fn lemma_numbers_known(layers: Seq<LayerView>, from: int)
    requires
        0 <= from,
    ensures
        first_unknown(numbers_of(layers), from) is None,
    decreases layers.len() - from,
{
    if from < layers.len() {
        lemma_numbers_known(layers, from + 1);
    }
}

/// Round trip: the contents of the file of a network that the format can
/// hold are read back as the network, whatever bytes follow them.
#[verifier::rlimit(40)]
pub proof fn lemma_network_round_trip(v: NetworkView, rest: Seq<u8>)
    requires
        fits(v),
    ensures
        decode_network(encode_network(v) + rest) == Ok::<NetworkView, Fault>(v),
{
    let count = v.layers.len();
    let sizes = sizes_of(v.layers);
    let numbers = numbers_of(v.layers);
    let biases = bias_blocks(v.layers);
    let weights = weight_blocks(v.layers);
    let data = encode_network(v) + rest;
    let nothing = Seq::<u8>::empty();
    lemma_pow256_values();
    lemma_be_bytes_len(count, 4);
    lemma_be_bytes_len(v.input_size, 4);
    lemma_encode_counts_layout(sizes);
    lemma_encode_counts_layout(numbers);
    assert(data.subrange(0, 4) =~= magic());
    assert(data.subrange(4, 8) =~= be_bytes(count, 4));
    assert(data.subrange(8, 12) =~= be_bytes(v.input_size, 4));
    lemma_be_value_of_bytes(count, 4);
    lemma_be_value_of_bytes(v.input_size, 4);
    assert(data.subrange(12, 12 + 4 * count as int) =~= encode_counts(sizes) + nothing);
    assert forall|k: int| 0 <= k < sizes.len() implies #[trigger] sizes[k] <= u32::MAX by {
        assert(layer_fits(v, k));
    }
    lemma_counts_round_trip(sizes, nothing);
    assert(data.subrange(12 + 4 * count as int, 12 + 8 * count as int) =~= encode_counts(numbers)
        + nothing);
    lemma_counts_round_trip(numbers, nothing);
    lemma_numbers_known(v.layers, 0);
    let header = (12 + 8 * count) as nat;
    assert(data.subrange(header as int, data.len() as int) =~= encode_blocks(biases) + (
    encode_blocks(weights) + rest));
    assert(lengths_of(biases) =~= sizes);
    lemma_blocks_round_trip(biases, encode_blocks(weights) + rest);
    let n = encode_blocks(biases).len();
    assert(data.subrange((header + n) as int, data.len() as int) =~= encode_blocks(weights) + rest);
    assert(lengths_of(weights) =~= cell_counts(v.input_size, sizes)) by {
        assert forall|k: int| 0 <= k < count implies lengths_of(weights)[k] == cell_counts(
            v.input_size,
            sizes,
        )[k] by {
            assert(layer_fits(v, k));
        }
    }
    lemma_blocks_round_trip(weights, rest);
    let found = assemble(v.input_size, sizes, numbers, biases, weights);
    assert(found.layers =~= v.layers) by {
        assert forall|k: int| 0 <= k < count implies found.layers[k] == v.layers[k] by {
            assert(layer_fits(v, k));
        }
    }
}

/// What a file holds is a network that the format can hold: its counts fit
/// 4 bytes each, and each layer has the weights that its place in the
/// network asks for.
pub proof fn lemma_decoded_network_fits(data: Seq<u8>)
    ensures
        decode_network(data) matches Ok(v) ==> fits(v),
{
    if let Ok(v) = decode_network(data) {
        let count = word32_at(data, 4);
        let input_size = word32_at(data, 8);
        let sizes = decode_counts(data.subrange(12, 12 + 4 * count as int), count);
        let header = (12 + 8 * count) as nat;
        let after_header = data.subrange(header as int, data.len() as int);
        lemma_pow256_values();
        lemma_be_value_bound(data.subrange(4, 8));
        lemma_be_value_bound(data.subrange(8, 12));
        lemma_decode_blocks_within(sizes, after_header);
        let (biases, n) = decode_blocks(sizes, after_header)->Ok_0;
        let after_biases = data.subrange((header + n) as int, data.len() as int);
        lemma_decode_blocks_within(cell_counts(input_size, sizes), after_biases);
        let (cells, _) = decode_blocks(cell_counts(input_size, sizes), after_biases)->Ok_0;
        assert forall|k: int| 0 <= k < v.layers.len() implies #[trigger] layer_fits(v, k) by {
            lemma_be_value_bound(data.subrange(12, 12 + 4 * count as int).subrange(4 * k, 4 * k + 4));
            assert(lengths_of(biases)[k] == sizes[k]);
            assert(lengths_of(cells)[k] == cell_counts(input_size, sizes)[k]);
            assert(sizes_of(v.layers)[k] == sizes[k]);
            if k > 0 {
                assert(lengths_of(biases)[k - 1] == sizes[k - 1]);
                assert(sizes_of(v.layers)[k - 1] == sizes[k - 1]);
            }
        }
    }
}

/// A cut list of blocks is truncated input.
pub proof fn lemma_cut_blocks(blocks: Seq<Seq<u64>>, cut: int)
    requires
        0 <= cut < encode_blocks(blocks).len(),
    ensures
        decode_blocks(lengths_of(blocks), encode_blocks(blocks).subrange(0, cut)) matches Err(f)
            && f.kind == DecodeErrorKind::Truncated,
    decreases blocks.len(),
{
    let lengths = lengths_of(blocks);
    let first = encode_words(blocks[0]);
    let tail = encode_blocks(blocks.drop_first());
    let data = encode_blocks(blocks).subrange(0, cut);
    lemma_encode_words_layout(blocks[0]);
    if cut >= first.len() {
        let left = cut - first.len();
        assert(data =~= first + tail.subrange(0, left));
        assert(data.subrange(0, 8 * lengths[0] as int) =~= first + Seq::<u8>::empty());
        assert(data.subrange(8 * lengths[0] as int, data.len() as int) =~= tail.subrange(0, left));
        assert(lengths.drop_first() =~= lengths_of(blocks.drop_first()));
        lemma_cut_blocks(blocks.drop_first(), left);
    }
}

/// A cut file is truncated input: a reader that is handed the contents of
/// the file of a network without their last byte, or without more of their
/// end, fails for want of input.
#[verifier::rlimit(40)]
pub proof fn lemma_cut_network(v: NetworkView, cut: int)
    requires
        fits(v),
        0 <= cut < encode_network(v).len(),
    ensures
        decode_network(encode_network(v).subrange(0, cut)) matches Err(f) && f.kind
            == DecodeErrorKind::Truncated,
{
    let count = v.layers.len();
    let sizes = sizes_of(v.layers);
    let numbers = numbers_of(v.layers);
    let biases = bias_blocks(v.layers);
    let weights = weight_blocks(v.layers);
    let whole = encode_network(v);
    let data = whole.subrange(0, cut);
    let nothing = Seq::<u8>::empty();
    lemma_pow256_values();
    lemma_be_bytes_len(count, 4);
    lemma_be_bytes_len(v.input_size, 4);
    lemma_encode_counts_layout(sizes);
    lemma_encode_counts_layout(numbers);
    if cut >= 4 {
        assert(data.subrange(0, 4) =~= magic());
    }
    if cut >= 12 {
        assert(data.subrange(4, 8) =~= be_bytes(count, 4));
        assert(data.subrange(8, 12) =~= be_bytes(v.input_size, 4));
        lemma_be_value_of_bytes(count, 4);
        lemma_be_value_of_bytes(v.input_size, 4);
        let header = (12 + 8 * count) as nat;
        if cut >= header {
            assert(data.subrange(12, 12 + 4 * count as int) =~= encode_counts(sizes) + nothing);
            assert forall|k: int| 0 <= k < sizes.len() implies #[trigger] sizes[k] <= u32::MAX by {
                assert(layer_fits(v, k));
            }
            lemma_counts_round_trip(sizes, nothing);
            assert(data.subrange(12 + 4 * count as int, 12 + 8 * count as int) =~= encode_counts(
                numbers,
            ) + nothing);
            lemma_counts_round_trip(numbers, nothing);
            lemma_numbers_known(v.layers, 0);
            let bias_bytes = encode_blocks(biases);
            let weight_bytes = encode_blocks(weights);
            let after_header = data.subrange(header as int, data.len() as int);
            assert(lengths_of(biases) =~= sizes);
            assert(lengths_of(weights) =~= cell_counts(v.input_size, sizes)) by {
                assert forall|k: int| 0 <= k < count implies lengths_of(weights)[k] == cell_counts(
                    v.input_size,
                    sizes,
                )[k] by {
                    assert(layer_fits(v, k));
                }
            }
            if cut < header + bias_bytes.len() {
                assert(after_header =~= bias_bytes.subrange(0, cut - header));
                lemma_cut_blocks(biases, cut - header);
            } else {
                let left = cut - header - bias_bytes.len();
                assert(after_header =~= bias_bytes + weight_bytes.subrange(0, left));
                lemma_blocks_round_trip(biases, weight_bytes.subrange(0, left));
                assert(data.subrange((header + bias_bytes.len()) as int, data.len() as int)
                    =~= weight_bytes.subrange(0, left));
                lemma_cut_blocks(weights, left);
            }
        }
    }
}

} // verus!
