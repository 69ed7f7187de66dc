use neural_network::batch::block_range;
use neural_network::layer::{Activation, Dense, Layer};
use neural_network::math::{Matrix, Vector};
use neural_network::mnist::{target_index, Dataset};
use neural_network::network::Network;
use neural_network::prompt::{choice, Choice};

fn dense(input_size: usize, output_size: usize) -> Layer {
    Layer::Dense(Dense {
        weights: Matrix::new(output_size, input_size),
        biases: Vector::new(output_size),
    })
}

#[test]
fn the_layout_of_a_network() {
    let network = Network::new(vec![
        dense(784, 20),
        Layer::Activation(Activation::ReLU),
        dense(20, 10),
        Layer::Activation(Activation::Sigmoid),
    ]);
    assert_eq!(network.layout(), "Dense(784x20) -> ReLU -> Dense(20x10) -> Sigmoid");
    assert_eq!(Network::new(vec![dense(2, 3)]).layout(), "Dense(2x3)");
    assert_eq!(Network::new(vec![]).layout(), "");
}

#[test]
fn the_blocks_of_a_list() {
    assert_eq!(block_range(60000, 60, 0), (0, 1000));
    assert_eq!(block_range(60000, 60, 59), (59000, 60000));
    assert_eq!(block_range(1000, 10, 3), (300, 400));
    // What is left over belongs to no block.
    assert_eq!(block_range(1005, 10, 9), (900, 1000));
    assert_eq!(block_range(5, 10, 9), (0, 0));
    assert_eq!(block_range(usize::MAX, 1, 0), (0, usize::MAX));
}

#[test]
fn the_answers_to_the_question() {
    assert_eq!(choice("y"), Choice::Create);
    assert_eq!(choice("n"), Choice::Load);
    assert_eq!(choice(""), Choice::AskAgain);
    assert_eq!(choice("yes"), Choice::AskAgain);
    assert_eq!(choice("Y"), Choice::AskAgain);
}

#[test]
fn the_images_of_a_set() {
    let set = Dataset { image_size: (2, 3), data: (0..12).collect(), labels: vec![7, 9] };
    assert_eq!(set.image_len(), Some(6));
    assert_eq!(set.image(0), Some(&[0u8, 1, 2, 3, 4, 5][..]));
    assert_eq!(set.image(1), Some(&[6u8, 7, 8, 9, 10, 11][..]));
    assert_eq!(set.image(2), None);
    assert_eq!(set.image(usize::MAX), None);
    let cut = Dataset { image_size: (2, 3), data: (0..11).collect(), labels: vec![] };
    assert_eq!(cut.image(1), None);
    let empty = Dataset { image_size: (0, 3), data: vec![], labels: vec![] };
    assert_eq!(empty.image(5), Some(&[][..]));
    let huge = Dataset { image_size: (usize::MAX, 2), data: vec![1], labels: vec![] };
    assert_eq!(huge.image_len(), None);
    assert_eq!(huge.image(0), None);
}

#[test]
fn the_place_of_a_label() {
    assert_eq!(target_index(0), Some(0));
    assert_eq!(target_index(1), Some(0));
    assert_eq!(target_index(2), Some(1));
    assert_eq!(target_index(9), Some(8));
    assert_eq!(target_index(10), Some(9));
    assert_eq!(target_index(11), None);
    assert_eq!(target_index(255), None);
}
