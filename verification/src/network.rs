//! A network as it is stored: the number of its layers, on 8 bytes, then
//! the stored layers in the order in which the network applies them, the
//! layer nearest the input first.
//!
//! The module holds, in this order: the model of the codec,
//! `encode_network` and `decode_network`; the laws of the model; the
//! executable codec.

use vstd::prelude::*;
use vstd::string::*;
use crate::error::{agrees, is_truncation, DecodeError, Fault};
use crate::layer::{
    activation_name, decode_layer, dense_display, encode_layer, lemma_cut_layer,
    lemma_decode_layer_within, lemma_layer_round_trip, Layer, LayerName, LayerView, Protocol,
};
use crate::codec::Serialized;
use crate::literals::{decode_text, lemma_word_round_trip, lemma_word_within};
use crate::wire::{
    be_bytes, lemma_be_bytes_len, lemma_be_value_of_bytes, lemma_pow256_values, push_be,
};

verus! {

/// A network: its layers, the one nearest the input first.
#[derive(Clone, Debug, PartialEq, Eq)]
pub struct Network {
    pub layers: Vec<Layer>,
}

/// The views of the layers of `layers`, in order.
pub open spec fn layer_views(layers: Seq<Layer>) -> Seq<LayerView> {
    Seq::new(layers.len(), |i: int| layers[i]@)
}

impl View for Network {
    type V = Seq<LayerView>;

    open spec fn view(&self) -> Seq<LayerView> {
        layer_views(self.layers@)
    }
}

/// Whether each of the layers `layers` can be written down.
pub open spec fn valid_layers(layers: Seq<LayerView>) -> bool {
    forall|i: int| 0 <= i < layers.len() ==> (#[trigger] layers[i]).valid()
}

/// The bytes of the stored layers `layers`, one after the other.
pub open spec fn encode_layers(layers: Seq<LayerView>, protocol: Protocol) -> Seq<u8>
    decreases layers.len(),
{
    if layers.len() == 0 {
        Seq::empty()
    } else {
        encode_layer(layers[0], protocol) + encode_layers(layers.drop_first(), protocol)
    }
}

/// The bytes of the stored network `layers`: the number of layers, then the
/// layers.
pub open spec fn encode_network(layers: Seq<LayerView>, protocol: Protocol) -> Seq<u8> {
    be_bytes(layers.len(), 8) + encode_layers(layers, protocol)
}

/// The outcome `r` of decoding the layers that follow the layers `done` of
/// `n` bytes in all, as the outcome of decoding `done` and them.
pub open spec fn after_layers(
    done: Seq<LayerView>,
    n: nat,
    r: Result<(Seq<LayerView>, nat), Fault>,
) -> Result<(Seq<LayerView>, nat), Fault> {
    match r {
        Ok((layers, m)) => Ok((done + layers, n + m)),
        Err(f) => Err(f.shifted(n)),
    }
}

/// What reading `count` stored layers from the front of `data` gives: each
/// layer is read where the one before it ended.
pub open spec fn decode_layers(count: nat, data: Seq<u8>, protocol: Protocol) -> Result<
    (Seq<LayerView>, nat),
    Fault,
>
    decreases count,
{
    if count == 0 {
        Ok((Seq::empty(), 0))
    } else {
        match decode_layer(data, protocol) {
            Err(f) => Err(f),
            Ok((layer, n)) => after_layers(
                seq![layer],
                n,
                decode_layers((count - 1) as nat, data.subrange(n as int, data.len() as int), protocol),
            ),
        }
    }
}

/// What reading a stored network from the front of `data` gives.
pub open spec fn decode_network(data: Seq<u8>, protocol: Protocol) -> Result<
    (Seq<LayerView>, nat),
    Fault,
> {
    match usize::decode_spec(data) {
        Err(f) => Err(f),
        Ok((count, _)) => after_layers(
            Seq::empty(),
            8,
            decode_layers(count as nat, data.subrange(8, data.len() as int), protocol),
        ),
    }
}

/// Appending a layer appends its stored form.
pub proof fn lemma_encode_layers_push(layers: Seq<LayerView>, layer: LayerView, protocol: Protocol)
    ensures
        encode_layers(layers.push(layer), protocol) == encode_layers(layers, protocol)
            + encode_layer(layer, protocol),
    decreases layers.len(),
{
    if layers.len() == 0 {
        assert(layers.push(layer).drop_first() =~= Seq::<LayerView>::empty());
        assert(encode_layers(layers.push(layer), protocol) =~= encode_layer(layer, protocol)
            + encode_layers(Seq::<LayerView>::empty(), protocol));
        assert(encode_layers(layers.push(layer), protocol) =~= encode_layers(layers, protocol)
            + encode_layer(layer, protocol));
    } else {
        lemma_encode_layers_push(layers.drop_first(), layer, protocol);
        assert(layers.push(layer).drop_first() =~= layers.drop_first().push(layer));
        assert(encode_layers(layers.push(layer), protocol) =~= encode_layers(layers, protocol)
            + encode_layer(layer, protocol));
    }
}

/// Reading one more layer after the layers `done`: the layer joins them.
proof fn lemma_after_layers_step(
    done: Seq<LayerView>,
    at: nat,
    layer: LayerView,
    n: nat,
    r: Result<(Seq<LayerView>, nat), Fault>,
)
    ensures
        after_layers(done, at, after_layers(seq![layer], n, r)) == after_layers(
            done.push(layer),
            at + n,
            r,
        ),
{
    match r {
        Ok((layers, m)) => {
            assert(done + (seq![layer] + layers) =~= done.push(layer) + layers);
        },
        Err(f) => {},
    }
}

/// Round trip of a list of stored layers.
pub proof fn lemma_layers_round_trip(layers: Seq<LayerView>, protocol: Protocol, rest: Seq<u8>)
    requires
        valid_layers(layers),
    ensures
        decode_layers(layers.len(), encode_layers(layers, protocol) + rest, protocol) == Ok::<
            (Seq<LayerView>, nat),
            Fault,
        >((layers, encode_layers(layers, protocol).len())),
    decreases layers.len(),
{
    if layers.len() > 0 {
        let first = encode_layer(layers[0], protocol);
        let tail = encode_layers(layers.drop_first(), protocol);
        let data = encode_layers(layers, protocol) + rest;
        assert(data =~= first + (tail + rest));
        lemma_layer_round_trip(layers[0], protocol, tail + rest);
        assert(data.subrange(first.len() as int, data.len() as int) =~= tail + rest);
        lemma_layers_round_trip(layers.drop_first(), protocol, rest);
        assert(seq![layers[0]] + layers.drop_first() =~= layers);
    } else {
        assert(layers =~= Seq::<LayerView>::empty());
    }
}

/// Round trip of a stored network: it decodes to its layers, in order, and
/// to the length of its stored form, whatever bytes follow it.
pub proof fn lemma_network_round_trip(layers: Seq<LayerView>, protocol: Protocol, rest: Seq<u8>)
    requires
        layers.len() <= usize::MAX,
        valid_layers(layers),
    ensures
        decode_network(encode_network(layers, protocol) + rest, protocol) == Ok::<
            (Seq<LayerView>, nat),
            Fault,
        >((layers, encode_network(layers, protocol).len())),
{
    let body = encode_layers(layers, protocol);
    let data = encode_network(layers, protocol) + rest;
    lemma_pow256_values();
    lemma_be_bytes_len(layers.len(), 8);
    assert(data =~= be_bytes(layers.len(), 8) + (body + rest));
    lemma_word_round_trip(layers.len(), 8, body + rest);
    assert(data.subrange(8, data.len() as int) =~= body + rest);
    lemma_layers_round_trip(layers, protocol, rest);
    assert(Seq::<LayerView>::empty() + layers =~= layers);
}

/// A cut list of stored layers is truncated input.
pub proof fn lemma_cut_layers(layers: Seq<LayerView>, protocol: Protocol, cut: int)
    requires
        valid_layers(layers),
        0 <= cut < encode_layers(layers, protocol).len(),
    ensures
        is_truncation(
            decode_layers(layers.len(), encode_layers(layers, protocol).subrange(0, cut), protocol),
        ),
    decreases layers.len(),
{
    let first = encode_layer(layers[0], protocol);
    let tail = encode_layers(layers.drop_first(), protocol);
    let data = encode_layers(layers, protocol).subrange(0, cut);
    if cut < first.len() {
        assert(data =~= first.subrange(0, cut));
        lemma_cut_layer(layers[0], protocol, cut);
    } else {
        let left = cut - first.len();
        assert(data =~= first + tail.subrange(0, left));
        lemma_layer_round_trip(layers[0], protocol, tail.subrange(0, left));
        assert(data.subrange(first.len() as int, data.len() as int) =~= tail.subrange(0, left));
        lemma_cut_layers(layers.drop_first(), protocol, left);
    }
}

/// A cut stored network is truncated input: a decoder that is handed a
/// stored network without its last byte, or without more of its end, fails
/// for want of input; it gives neither fewer layers nor other values.
pub proof fn lemma_cut_network(layers: Seq<LayerView>, protocol: Protocol, cut: int)
    requires
        layers.len() <= usize::MAX,
        valid_layers(layers),
        0 <= cut < encode_network(layers, protocol).len(),
    ensures
        is_truncation(decode_network(encode_network(layers, protocol).subrange(0, cut), protocol)),
{
    let body = encode_layers(layers, protocol);
    let data = encode_network(layers, protocol).subrange(0, cut);
    lemma_pow256_values();
    lemma_be_bytes_len(layers.len(), 8);
    if cut >= 8 {
        assert(data.subrange(0, 8) =~= be_bytes(layers.len(), 8));
        lemma_be_value_of_bytes(layers.len(), 8);
        assert(data.subrange(8, data.len() as int) =~= body.subrange(0, cut - 8));
        lemma_cut_layers(layers, protocol, cut - 8);
    }
}

/// A decoder of stored layers stays inside its input.
pub proof fn lemma_decode_layers_within(count: nat, data: Seq<u8>, protocol: Protocol)
    ensures
        match decode_layers(count, data, protocol) {
            Ok((layers, n)) => {
                &&& n <= data.len()
                &&& layers.len() == count
                &&& valid_layers(layers)
                &&& encode_layers(layers, protocol) == data.subrange(0, n as int)
            },
            Err(f) => f.at <= data.len(),
        },
    decreases count,
{
    if count == 0 {
        assert(encode_layers(Seq::<LayerView>::empty(), protocol) =~= data.subrange(0, 0));
    } else {
        lemma_decode_layer_within(data, protocol);
        if let Ok((layer, n)) = decode_layer(data, protocol) {
            let after = data.subrange(n as int, data.len() as int);
            lemma_decode_layers_within((count - 1) as nat, after, protocol);
            if let Ok((layers, m)) = decode_layers((count - 1) as nat, after, protocol) {
                let all = seq![layer] + layers;
                assert(all.drop_first() =~= layers);
                assert(all[0] == layer);
                assert forall|i: int| 0 <= i < all.len() implies (#[trigger] all[i]).valid() by {
                    if i > 0 {
                        assert(all[i] == layers[i - 1]);
                    }
                }
                assert(after.subrange(0, m as int) =~= data.subrange(n as int, (n + m) as int));
                assert(data.subrange(0, (n + m) as int) =~= data.subrange(0, n as int)
                    + data.subrange(n as int, (n + m) as int));
            }
        }
    }
}

/// A decoder of stored networks stays inside its input: what it takes up
/// is a prefix of the input and is the stored form of the network it gives;
/// a failure lies at an offset of the input.
pub proof fn lemma_decode_network_within(data: Seq<u8>, protocol: Protocol)
    ensures
        match decode_network(data, protocol) {
            Ok((layers, n)) => {
                &&& n <= data.len()
                &&& layers.len() <= usize::MAX
                &&& valid_layers(layers)
                &&& encode_network(layers, protocol) == data.subrange(0, n as int)
            },
            Err(f) => f.at <= data.len(),
        },
{
    lemma_pow256_values();
    lemma_word_within(data, 8);
    if let Ok((count, _)) = usize::decode_spec(data) {
        let after = data.subrange(8, data.len() as int);
        lemma_decode_layers_within(count as nat, after, protocol);
        if let Ok((layers, m)) = decode_layers(count as nat, after, protocol) {
            assert(Seq::<LayerView>::empty() + layers =~= layers);
            assert(after.subrange(0, m as int) =~= data.subrange(8, (8 + m) as int));
            assert(data.subrange(0, (8 + m) as int) =~= data.subrange(0, 8) + data.subrange(8, (8 + m) as int));
        }
    }
}

/// What `display` shows of the layer `layer`.
pub open spec fn layer_display(layer: LayerView) -> Seq<char> {
    match layer {
        LayerView::Activation(a) => activation_name(a),
        LayerView::Dense(d) => dense_display(d.weights.cols, d.weights.rows),
    }
}

/// What `display` shows of the layers `layers`, with an arrow between each
/// layer and the next.
pub open spec fn layout_text(layers: Seq<LayerView>) -> Seq<char>
    decreases layers.len(),
{
    if layers.len() == 0 {
        Seq::empty()
    } else if layers.len() == 1 {
        layer_display(layers[0])
    } else {
        layout_text(layers.drop_last()) + " -> "@ + layer_display(layers.last())
    }
}

/// Reads the text at the front of `data`: the tag of a stored layer.
pub fn deserialize_tag(data: &[u8]) -> (r: Result<String, DecodeError>)
    ensures
        match r {
            Ok(tag) => decode_text(data@) matches Ok((text, _)) && text == tag@,
            Err(e) => decode_text(data@) == Err::<(Seq<char>, nat), Fault>(e@),
        },
{
    match String::deserialize_binary(data) {
        Ok((tag, _)) => Ok(tag),
        Err(e) => Err(e),
    }
}

impl Network {
    /// The network with the layers `layers`.
    pub fn new(layers: Vec<Layer>) -> (network: Network)
        ensures
            network.layers == layers,
    {
        Network { layers }
    }

    /// The layers of the network as a text, from the input on, with an
    /// arrow between each layer and the next.
    pub fn layout(&self) -> (text: String)
        ensures
            text@ == layout_text(self@),
    {
        let ghost views = self@;
        let mut text: String = String::new();
        let mut i: usize = 0;
        assert(views.take(0) =~= Seq::<LayerView>::empty());
        while i < self.layers.len()
            invariant
                i <= self.layers.len(),
                views == self@,
                text@ == layout_text(views.take(i as int)),
            decreases self.layers.len() - i,
        {
            let shown: String = self.layers[i].display();
            proof {
                let done = views.take(i + 1);
                assert(done.drop_last() =~= views.take(i as int));
                assert(done.last() == views[i as int]);
                assert(shown@ == layer_display(views[i as int]));
                if i == 0 {
                    assert(text@ + shown@ =~= shown@);
                }
            }
            if i > 0 {
                text.append(" -> ");
            }
            text.append(shown.as_str());
            i = i + 1;
        }
        assert(views.take(self.layers.len() as int) =~= views);
        text
    }

    /// Encodes `self`, with its nonlinearities written as `protocol` says.
    pub fn serialize_with(&self, protocol: Protocol) -> (data: Vec<u8>)
        ensures
            valid_layers(self@),
            self@.len() <= usize::MAX,
            data@ == encode_network(self@, protocol),
    {
        let ghost views = self@;
        let mut data: Vec<u8> = Vec::new();
        push_be(&mut data, self.layers.len() as u64, 8);
        let ghost head = data@;
        let mut i: usize = 0;
        assert(data@ =~= head + encode_layers(views.take(0), protocol));
        while i < self.layers.len()
            invariant
                i <= self.layers.len(),
                views == self@,
                head == be_bytes(views.len(), 8),
                data@ == head + encode_layers(views.take(i as int), protocol),
                forall|k: int| 0 <= k < i ==> (#[trigger] views[k]).valid(),
            decreases self.layers.len() - i,
        {
            self.layers[i].serialize_into(protocol, &mut data);
            proof {
                lemma_encode_layers_push(views.take(i as int), views[i as int], protocol);
                assert(views.take(i as int).push(views[i as int]) =~= views.take(i + 1));
                assert(data@ =~= head + encode_layers(views.take(i + 1), protocol));
            }
            i = i + 1;
        }
        assert(views.take(self.layers.len() as int) =~= views);
        data
    }

    /// Decodes one network from the front of `data`, with its
    /// nonlinearities read as `protocol` says, and says how many bytes it
    /// took up. Bytes after those are not looked at.
    pub fn deserialize_with(data: &[u8], protocol: Protocol) -> (r: Result<
        (Network, usize),
        DecodeError,
    >)
        ensures
            agrees(r, decode_network(data@, protocol)),
    {
        match usize::deserialize_binary(data) {
            Err(e) => Err(e),
            Ok((count, _)) => {
                let ghost body = data@.subrange(8, data@.len() as int);
                let mut layers: Vec<Layer> = Vec::new();
                let mut at: usize = 8;
                let mut i: usize = 0;
                proof {
                    assert(data@.subrange(at as int, data@.len() as int) =~= body.subrange(
                        0,
                        body.len() as int,
                    ));
                    assert(body.subrange(0, body.len() as int) =~= body);
                    match decode_layers(count as nat, body, protocol) {
                        Ok((found, m)) => {
                            assert(layer_views(layers@) + found =~= found);
                        },
                        Err(f) => {},
                    }
                }
                while i < count
                    invariant
                        i <= count,
                        8 <= at <= data.len(),
                        usize::decode_spec(data@) == Ok::<(usize, nat), Fault>((count, 8)),
                        body == data@.subrange(8, data@.len() as int),
                        decode_layers(count as nat, body, protocol) == after_layers(
                            layer_views(layers@),
                            (at - 8) as nat,
                            decode_layers(
                                (count - i) as nat,
                                data@.subrange(at as int, data@.len() as int),
                                protocol,
                            ),
                        ),
                    decreases count - i,
                {
                    let after: &[u8] = vstd::slice::slice_subrange(data, at, data.len());
                    proof {
                        lemma_decode_layer_within(after@, protocol);
                    }
                    match Layer::deserialize_with(after, protocol) {
                        Err(e) => {
                            return Err(e.shifted(at));
                        },
                        Ok((layer, n)) => {
                            proof {
                                assert(after@.subrange(n as int, after@.len() as int)
                                    =~= data@.subrange(at + n, data@.len() as int));
                                lemma_after_layers_step(
                                    layer_views(layers@),
                                    (at - 8) as nat,
                                    layer@,
                                    n as nat,
                                    decode_layers(
                                        (count - i - 1) as nat,
                                        data@.subrange(at + n, data@.len() as int),
                                        protocol,
                                    ),
                                );
                                assert(layer_views(layers@.push(layer)) =~= layer_views(
                                    layers@,
                                ).push(layer@));
                            }
                            layers.push(layer);
                            at = at + n;
                            i = i + 1;
                        },
                    }
                }
                proof {
                    assert(layer_views(layers@) + Seq::<LayerView>::empty() =~= layer_views(
                        layers@,
                    ));
                    assert(Seq::<LayerView>::empty() + layer_views(layers@) =~= layer_views(
                        layers@,
                    ));
                }
                Ok((Network { layers }, at))
            },
        }
    }
}

/// A network travels with its nonlinearities written as tags.
impl Serialized for Network {
    open spec fn tag_spec() -> Seq<char> {
        "Network"@
    }

    open spec fn valid(v: Seq<LayerView>) -> bool {
        v.len() <= usize::MAX && valid_layers(v)
    }

    open spec fn encode_spec(v: Seq<LayerView>) -> Seq<u8> {
        encode_network(v, Protocol::Tagged)
    }

    open spec fn decode_spec(data: Seq<u8>) -> Result<(Seq<LayerView>, nat), Fault> {
        decode_network(data, Protocol::Tagged)
    }

    proof fn lemma_round_trip(v: Seq<LayerView>, rest: Seq<u8>) {
        lemma_network_round_trip(v, Protocol::Tagged, rest);
    }

    proof fn lemma_decode_within(data: Seq<u8>) {
        lemma_decode_network_within(data, Protocol::Tagged);
    }

    proof fn lemma_cut_is_truncated(v: Seq<LayerView>, cut: int) {
        lemma_cut_network(v, Protocol::Tagged, cut);
    }

    fn serialize_binary(&self) -> (data: Vec<u8>) {
        self.serialize_with(Protocol::Tagged)
    }

    fn deserialize_binary(data: &[u8]) -> (r: Result<(Self, usize), DecodeError>) {
        Network::deserialize_with(data, Protocol::Tagged)
    }

    fn tag() -> (t: &'static str) {
        "Network"
    }
}

/// The bytes to store for `network`, with its nonlinearities written as
/// `protocol` says.
pub fn serialize_network(network: &Network, protocol: Protocol) -> (data: Vec<u8>)
    ensures
        data@ == encode_network(network@, protocol),
{
    network.serialize_with(protocol)
}

/// The network that the stored bytes `data` hold. Bytes after the network
/// are ignored.
pub fn deserialize_network(data: &[u8], protocol: Protocol) -> (r: Result<Network, DecodeError>)
    ensures
        match r {
            Ok(network) => decode_network(data@, protocol) matches Ok((layers, _)) && layers
                == network@,
            Err(e) => decode_network(data@, protocol) == Err::<(Seq<LayerView>, nat), Fault>(e@),
        },
{
    match Network::deserialize_with(data, protocol) {
        Ok((network, _)) => Ok(network),
        Err(e) => Err(e),
    }
}

} // verus!
