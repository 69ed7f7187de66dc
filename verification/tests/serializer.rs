use neural_network::error::{DecodeError, DecodeErrorKind};
use neural_network::math::{Matrix, Vector};
use neural_network::serializer::{
    deserialize, deserialize_activation, deserialize_biases, deserialize_weights, fits_format,
    serialize, serialize_activation, serialize_biases, serialize_weights, ActivationFunction,
    Layer, LayerSpec, Network,
};

fn random_bits() -> u64 {
    (rand::random::<f64>() - 0.5).to_bits()
}

fn layout() -> Vec<LayerSpec> {
    vec![
        LayerSpec { neurons: 3, activation: ActivationFunction::Sigmoid },
        LayerSpec { neurons: 14, activation: ActivationFunction::ReLU },
        LayerSpec { neurons: 8, activation: ActivationFunction::Softmax },
        LayerSpec { neurons: 7, activation: ActivationFunction::ReLU },
    ]
}

/// A layer of `neurons` neurons on `last_layer` inputs with random weights
/// and biases.
fn random_layer(neurons: usize, last_layer: usize, activation: ActivationFunction) -> Layer {
    let mut weights = Matrix::new(neurons, last_layer);
    for col in 0..last_layer {
        for row in 0..neurons {
            weights.set(col, row, random_bits());
        }
    }
    let mut biases = Vector::new(neurons);
    for i in 0..neurons {
        biases.set(i, random_bits());
    }
    Layer::new(weights, biases, activation)
}

/// A network with random weights and biases; the first entry of
/// `layer_spec` stands for the inputs.
fn random_network(layer_spec: Vec<LayerSpec>) -> Network {
    let mut layers = Vec::new();
    for i in 1..layer_spec.len() {
        let layer = layer_spec[i];
        let last_layer = layer_spec[i - 1];
        layers.push(random_layer(layer.neurons, last_layer.neurons, layer.activation));
    }
    Network { layers, input_size: layer_spec.first().unwrap().neurons }
}

fn num_neurons() -> Vec<u32> {
    layout()[1..].iter().map(|layer| layer.neurons as u32).collect::<Vec<_>>()
}

fn input_neurons() -> u32 {
    layout()[0].neurons as u32
}

#[test]
fn test_biases() {
    let network = random_network(layout());
    let data = serialize_biases(&network);
    let (biases, _) = deserialize_biases(&data, &num_neurons()).unwrap();

    let biases_should = network
        .layers
        .iter()
        .map(|layer| layer.biases.clone())
        .collect::<Vec<_>>();
    assert_eq!(biases.len(), biases_should.len());
    assert_eq!(biases, biases_should);
}

#[test]
fn test_weights() {
    let network = random_network(layout());
    let data = serialize_weights(&network);
    let (weights, _) = deserialize_weights(&data, input_neurons(), &num_neurons()).unwrap();

    let weights_should = network
        .layers
        .iter()
        .map(|layer| layer.weights.clone())
        .collect::<Vec<_>>();

    assert_eq!(weights.len(), weights_should.len());
    assert_eq!(weights, weights_should);
}

#[test]
fn test_activation() {
    let network = random_network(layout());
    for layer in &network.layers {
        let activation = serialize_activation(layer.activation);
        let deserialized = deserialize_activation(activation).unwrap();
        assert_eq!(layer.activation, deserialized);
    }
}

#[test]
fn test_serialization() {
    let network = random_network(layout());
    let stored = serialize(&network).expect("Failed to serialize network");
    let deserialized = deserialize(&stored).expect("Failed to deserialize network");
    assert_eq!(network, deserialized);
}

#[test]
fn the_numbers_of_the_nonlinearities() {
    assert_eq!(serialize_activation(ActivationFunction::Sigmoid), 0);
    assert_eq!(serialize_activation(ActivationFunction::ReLU), 1);
    assert_eq!(serialize_activation(ActivationFunction::Softmax), 2);
    assert_eq!(deserialize_activation(0), Some(ActivationFunction::Sigmoid));
    assert_eq!(deserialize_activation(1), Some(ActivationFunction::ReLU));
    assert_eq!(deserialize_activation(2), Some(ActivationFunction::Softmax));
    assert_eq!(deserialize_activation(3), None);
    assert_eq!(deserialize_activation(u32::MAX), None);
}

#[test]
fn a_layer_spec_from_a_pair() {
    let spec = LayerSpec::from((14, ActivationFunction::ReLU));
    assert_eq!(spec, LayerSpec { neurons: 14, activation: ActivationFunction::ReLU });
    assert_eq!(random_layer(5, 2, ActivationFunction::Sigmoid).size(), 5);
}

#[test]
fn the_bytes_of_a_small_network() {
    let mut weights = Matrix::new(1, 2);
    weights.set(0, 0, 0x0101_0101_0101_0101);
    weights.set(1, 0, 0x0202_0202_0202_0202);
    let network = Network {
        layers: vec![Layer::new(
            weights,
            Vector(vec![0x0303_0303_0303_0303]),
            ActivationFunction::Softmax,
        )],
        input_size: 2,
    };
    let mut expected = vec![0x12, 0x09, 0x20, 0x04];
    expected.extend_from_slice(&[0, 0, 0, 1]); // one layer
    expected.extend_from_slice(&[0, 0, 0, 2]); // two inputs
    expected.extend_from_slice(&[0, 0, 0, 1]); // one neuron
    expected.extend_from_slice(&[0, 0, 0, 2]); // the softmax
    expected.extend_from_slice(&[3; 8]); // the bias
    expected.extend_from_slice(&[1; 8]); // the weight of the first input
    expected.extend_from_slice(&[2; 8]); // the weight of the second input
    assert_eq!(serialize(&network), Some(expected.clone()));
    assert_eq!(deserialize(&expected), Ok(network.clone()));
    expected.extend_from_slice(b"more");
    assert_eq!(deserialize(&expected), Ok(network));
}

#[test]
fn a_network_without_layers() {
    let network = Network { layers: vec![], input_size: 784 };
    let stored = serialize(&network).unwrap();
    assert_eq!(stored, vec![0x12, 0x09, 0x20, 0x04, 0, 0, 0, 0, 0, 0, 3, 16]);
    assert_eq!(deserialize(&stored), Ok(network));
}

#[test]
fn weights_travel_column_by_column() {
    let network = random_network(layout());
    let data = serialize_weights(&network);
    let first = &network.layers[0].weights;
    assert_eq!((first.rows(), first.cols()), (14, 3));
    for col in 0..3 {
        for row in 0..14 {
            let at = 8 * (col * 14 + row);
            let mut word = [0u8; 8];
            word.copy_from_slice(&data[at..at + 8]);
            assert_eq!(u64::from_be_bytes(word), first.at(col, row));
        }
    }
    assert_eq!(data.len(), 8 * (14 * 3 + 8 * 14 + 7 * 8));
    assert_eq!(serialize_biases(&network).len(), 8 * (14 + 8 + 7));
}

#[test]
fn a_network_that_does_not_fit_is_not_stored() {
    let mut network = random_network(layout());
    assert!(fits_format(&network));
    // A layer whose weights are not for the neurons of the layer before it.
    network.layers[1] = random_layer(8, 13, ActivationFunction::Softmax);
    assert!(!fits_format(&network));
    assert_eq!(serialize(&network), None);
    let mut network = random_network(layout());
    network.layers[0].biases = Vector::new(13);
    assert!(!fits_format(&network));
    assert_eq!(serialize(&network), None);
    let mut network = random_network(layout());
    network.input_size = 4;
    assert_eq!(serialize(&network), None);
    let network = Network { layers: vec![], input_size: u32::MAX as usize + 1 };
    assert_eq!(serialize(&network), None);
    let network = Network { layers: vec![], input_size: u32::MAX as usize };
    assert!(serialize(&network).is_some());
}

#[test]
fn another_beginning_is_a_mismatch() {
    let network = random_network(layout());
    let mut stored = serialize(&network).unwrap();
    stored[3] = 0x05;
    assert_eq!(
        deserialize(&stored),
        Err(DecodeError { kind: DecodeErrorKind::TagMismatch, offset: 0 })
    );
    assert_eq!(
        deserialize(b"network.ben "),
        Err(DecodeError { kind: DecodeErrorKind::TagMismatch, offset: 0 })
    );
}

#[test]
fn an_unknown_nonlinearity_is_an_unknown_tag() {
    let network = random_network(layout());
    let mut stored = serialize(&network).unwrap();
    // The numbers of the nonlinearities follow the 12 bytes of the header
    // and the 3 numbers of neurons.
    assert_eq!(&stored[24..36], &[0, 0, 0, 1, 0, 0, 0, 2, 0, 0, 0, 1]);
    stored[31] = 3;
    assert_eq!(
        deserialize(&stored),
        Err(DecodeError { kind: DecodeErrorKind::UnknownTag, offset: 28 })
    );
    stored[24] = 1;
    assert_eq!(
        deserialize(&stored),
        Err(DecodeError { kind: DecodeErrorKind::UnknownTag, offset: 24 })
    );
}

#[test]
fn every_cut_of_a_stored_network_is_truncated() {
    let network = random_network(vec![
        LayerSpec { neurons: 2, activation: ActivationFunction::Sigmoid },
        LayerSpec { neurons: 3, activation: ActivationFunction::ReLU },
        LayerSpec { neurons: 1, activation: ActivationFunction::Softmax },
    ]);
    let stored = serialize(&network).unwrap();
    let header = 12 + 8 * 2;
    let biases = 8 * (3 + 1);
    assert_eq!(stored.len(), header + biases + 8 * (3 * 2 + 1 * 3));
    for cut in 0..stored.len() {
        let offset = if cut < 4 {
            0
        } else if cut < 12 {
            4 * (cut / 4)
        } else if cut < header {
            12 + 4 * ((cut - 12) / 4)
        } else {
            // The first bias or weight that is not there in full.
            header + 8 * ((cut - header) / 8)
        };
        assert_eq!(
            deserialize(&stored[..cut]),
            Err(DecodeError { kind: DecodeErrorKind::Truncated, offset })
        );
    }
    assert_eq!(deserialize(&stored), Ok(network));
}

#[test]
fn blocks_that_are_cut_short_are_truncated() {
    assert_eq!(deserialize_biases(&[0; 16], &[2]), Ok((vec![Vector(vec![0, 0])], 16)));
    assert_eq!(
        deserialize_biases(&[0; 15], &[2]),
        Err(DecodeError { kind: DecodeErrorKind::Truncated, offset: 8 })
    );
    assert_eq!(
        deserialize_biases(&[0; 7], &[2]),
        Err(DecodeError { kind: DecodeErrorKind::Truncated, offset: 0 })
    );
    assert_eq!(
        deserialize_biases(&[0; 23], &[2, 1]),
        Err(DecodeError { kind: DecodeErrorKind::Truncated, offset: 16 })
    );
    assert_eq!(deserialize_biases(&[1, 2, 3], &[]), Ok((vec![], 0)));
    assert_eq!(
        deserialize_weights(&[0; 47], 3, &[2]),
        Err(DecodeError { kind: DecodeErrorKind::Truncated, offset: 40 })
    );
    assert_eq!(
        deserialize_weights(&[0; 48 + 31], 3, &[2, 2]),
        Err(DecodeError { kind: DecodeErrorKind::Truncated, offset: 72 })
    );
    assert_eq!(
        deserialize_weights(&[0; 48], 3, &[2, 2]),
        Err(DecodeError { kind: DecodeErrorKind::Truncated, offset: 48 })
    );
    let (weights, used) = deserialize_weights(&[0; 48 + 32], 3, &[2, 2]).unwrap();
    assert_eq!(used, 80);
    assert_eq!(
        weights.iter().map(|m| (m.rows(), m.cols())).collect::<Vec<_>>(),
        vec![(2, 3), (2, 2)]
    );
    assert_eq!(
        deserialize_weights(&[0; 64], u32::MAX, &[u32::MAX]),
        Err(DecodeError { kind: DecodeErrorKind::Truncated, offset: 64 })
    );
}
