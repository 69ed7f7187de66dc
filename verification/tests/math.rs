use neural_network::error::{DecodeError, DecodeErrorKind};
use neural_network::codec::Serialized;
use neural_network::math::{Matrix, Vector};

fn random_bits() -> u64 {
    (rand::random::<f64>() - 0.5).to_bits()
}

fn vector_of(values: &[f64]) -> Vector {
    Vector(values.iter().map(|x| x.to_bits()).collect())
}

#[test]
fn test_deserialize_vector() {
    let len = rand::random::<u8>() as usize;
    let v = Vector::new(len);
    let serialized = v.serialize_binary();
    assert_eq!(v, Vector::deserialize_binary(&serialized).unwrap().0);
}

#[test]
fn test_deserialize_matrix() {
    let rows = rand::random::<u8>() as usize;
    let cols = rand::random::<u8>() as usize;
    let v = Matrix::new(rows, cols);
    let serialized = v.serialize_binary();
    assert_eq!(v, Matrix::deserialize_binary(&serialized).unwrap().0);
}

#[test]
fn a_vector_of_three_takes_32_bytes() {
    let v = vector_of(&[1.0, -2.5, 3.25]);
    let serialized = v.serialize_binary();
    assert_eq!(serialized.len(), 32);
    let (back, used) = Vector::deserialize_binary(&serialized).unwrap();
    assert_eq!(used, 32);
    assert_eq!(back.len(), 3);
    assert_eq!(f64::from_bits(back.at(0)), 1.0);
    assert_eq!(f64::from_bits(back.at(1)), -2.5);
    assert_eq!(f64::from_bits(back.at(2)), 3.25);
    assert_eq!(back, v);
}

#[test]
fn a_vector_is_its_length_and_its_elements() {
    let v = vector_of(&[1.0, -2.5]);
    let mut expected = 2u64.to_be_bytes().to_vec();
    expected.extend_from_slice(&1.0f64.to_be_bytes());
    expected.extend_from_slice(&(-2.5f64).to_be_bytes());
    assert_eq!(v.serialize_binary(), expected);
    assert_eq!(Vector::new(0).serialize_binary(), vec![0; 8]);
    assert_eq!(Vector::tag(), "Vector");
}

#[test]
fn a_matrix_of_two_by_three_takes_64_bytes() {
    let mut m = Matrix::new(2, 3);
    for i in 0..2 {
        for j in 0..3 {
            m.set(j, i, ((i + 10 * j) as f64).to_bits());
        }
    }
    let serialized = m.serialize_binary();
    assert_eq!(serialized.len(), 64);
    let (back, used) = Matrix::deserialize_binary(&serialized).unwrap();
    assert_eq!(used, 64);
    assert_eq!(back.rows(), 2);
    assert_eq!(back.cols(), 3);
    for i in 0..2 {
        for j in 0..3 {
            assert_eq!(f64::from_bits(back.at(j, i)), (i + 10 * j) as f64);
        }
    }
    assert_eq!(back, m);
}

#[test]
fn a_matrix_travels_column_by_column() {
    let rows = 3;
    let cols = 4;
    let mut m = Matrix::new(rows, cols);
    for col in 0..cols {
        for row in 0..rows {
            m.set(col, row, ((100 * row + col) as f64).to_bits());
        }
    }
    let serialized = m.serialize_binary();
    assert_eq!(&serialized[0..8], &(rows as u64).to_be_bytes());
    assert_eq!(&serialized[8..16], &(cols as u64).to_be_bytes());
    for col in 0..cols {
        for row in 0..rows {
            let at = 16 + 8 * (col * rows + row);
            let mut word = [0u8; 8];
            word.copy_from_slice(&serialized[at..at + 8]);
            assert_eq!(f64::from_be_bytes(word), (100 * row + col) as f64);
            assert_eq!(u64::from_be_bytes(word), m.at(col, row));
        }
    }
    // Written out for a matrix of two rows and two columns.
    let mut small = Matrix::new(2, 2);
    small.set(0, 0, 1);
    small.set(0, 1, 2);
    small.set(1, 0, 3);
    small.set(1, 1, 4);
    let mut expected = Vec::new();
    for word in [2u64, 2, 1, 2, 3, 4] {
        expected.extend_from_slice(&word.to_be_bytes());
    }
    assert_eq!(small.serialize_binary(), expected);
}

#[test]
fn a_random_matrix_round_trips() {
    let rows = 1 + rand::random::<u8>() as usize % 20;
    let cols = 1 + rand::random::<u8>() as usize % 20;
    let mut m = Matrix::new(rows, cols);
    for col in 0..cols {
        for row in 0..rows {
            m.set(col, row, random_bits());
        }
    }
    let serialized = m.serialize_binary();
    assert_eq!(serialized.len(), 16 + 8 * rows * cols);
    assert_eq!(Matrix::deserialize_binary(&serialized), Ok((m.clone(), serialized.len())));
    assert_eq!(m.serialize_binary(), serialized);
    assert_eq!(Matrix::tag(), "Matrix");
}

#[test]
fn a_matrix_without_cells_keeps_its_shape() {
    let tall = Matrix::new(5, 0);
    let serialized = tall.serialize_binary();
    assert_eq!(serialized.len(), 16);
    let (back, used) = Matrix::deserialize_binary(&serialized).unwrap();
    assert_eq!((back.rows(), back.cols(), used), (5, 0, 16));
    let wide = Matrix::new(0, 7);
    let (back, used) = Matrix::deserialize_binary(&wide.serialize_binary()).unwrap();
    assert_eq!((back.rows(), back.cols(), used), (0, 7, 16));
    // Many columns of no rows take up no cells.
    let mut data = 0u64.to_be_bytes().to_vec();
    data.extend_from_slice(&(1u64 << 40).to_be_bytes());
    let (back, used) = Matrix::deserialize_binary(&data).unwrap();
    assert_eq!((back.rows(), back.cols(), used), (0, 1 << 40, 16));
    assert_eq!(back.data().len(), 0);
}

#[test]
fn a_vector_that_lacks_an_element_fails_where_the_element_would_start() {
    // The header declares 2 elements, and the input holds 1.
    let mut data = 2u64.to_be_bytes().to_vec();
    data.extend_from_slice(&1.0f64.to_be_bytes());
    assert_eq!(data.len(), 16);
    assert_eq!(
        Vector::deserialize_binary(&data),
        Err(DecodeError { kind: DecodeErrorKind::Truncated, offset: 16 })
    );
    // The second element is there in part.
    data.extend_from_slice(&[0x40, 0x04, 0, 0, 0]);
    assert_eq!(
        Vector::deserialize_binary(&data),
        Err(DecodeError { kind: DecodeErrorKind::Truncated, offset: 16 })
    );
    data.extend_from_slice(&[0, 0, 0]);
    assert_eq!(Vector::deserialize_binary(&data), Ok((vector_of(&[1.0, 2.5]), 24)));
}

#[test]
fn a_vector_that_is_cut_short_is_truncated() {
    let serialized = vector_of(&[1.0, 2.0, 3.0]).serialize_binary();
    for cut in 0..8 {
        assert_eq!(
            Vector::deserialize_binary(&serialized[..cut]),
            Err(DecodeError { kind: DecodeErrorKind::Truncated, offset: 0 })
        );
    }
    for cut in 8..serialized.len() {
        // The failure lies where the first element starts that is not there
        // in full.
        let offset = 8 + 8 * ((cut - 8) / 8);
        assert_eq!(
            Vector::deserialize_binary(&serialized[..cut]),
            Err(DecodeError { kind: DecodeErrorKind::Truncated, offset })
        );
    }
    assert_eq!(
        Vector::deserialize_binary(&serialized[..8]).unwrap_err().offset,
        8
    );
    assert_eq!(
        Vector::deserialize_binary(&serialized[..23]).unwrap_err().offset,
        16
    );
    assert_eq!(
        Vector::deserialize_binary(&serialized[..31]).unwrap_err().offset,
        24
    );
    let huge = u64::MAX.to_be_bytes();
    assert_eq!(
        Vector::deserialize_binary(&huge),
        Err(DecodeError { kind: DecodeErrorKind::Truncated, offset: 8 })
    );
}

#[test]
fn a_matrix_that_is_cut_short_is_truncated() {
    let serialized = Matrix::new(2, 2).serialize_binary();
    for cut in 0..serialized.len() {
        let offset = if cut < 8 {
            0
        } else if cut < 16 {
            8
        } else {
            16 + 8 * ((cut - 16) / 8)
        };
        assert_eq!(
            Matrix::deserialize_binary(&serialized[..cut]),
            Err(DecodeError { kind: DecodeErrorKind::Truncated, offset })
        );
    }
    // Two rows and two columns, and three cells: the fourth cell would
    // start at 16 + 3 * 8.
    assert_eq!(
        Matrix::deserialize_binary(&serialized[..16 + 24 + 7]),
        Err(DecodeError { kind: DecodeErrorKind::Truncated, offset: 40 })
    );
    let mut huge = u64::MAX.to_be_bytes().to_vec();
    huge.extend_from_slice(&u64::MAX.to_be_bytes());
    huge.extend_from_slice(&[0; 64]);
    assert_eq!(
        Matrix::deserialize_binary(&huge),
        Err(DecodeError { kind: DecodeErrorKind::Truncated, offset: 80 })
    );
}

#[test]
fn the_cells_of_a_matrix() {
    let cells: Vec<u64> = (0..6).collect();
    let m = Matrix::from_cells(2, 3, cells.clone()).unwrap();
    assert_eq!(m.rows(), 2);
    assert_eq!(m.cols(), 3);
    assert_eq!(m.data(), &cells);
    assert_eq!(m.at(0, 0), 0);
    assert_eq!(m.at(0, 1), 1);
    assert_eq!(m.at(1, 0), 2);
    assert_eq!(m.at(2, 1), 5);
    assert_eq!(m.vector_at(1), Vector(vec![2, 3]));
    assert_eq!(Matrix::from_cells(2, 3, vec![0; 5]), None);
    assert_eq!(Matrix::from_cells(usize::MAX, 2, vec![0; 5]), None);
    assert_eq!(Matrix::from_cells(0, 9, Vec::new()).map(|m| m.cols()), Some(9));
    let zeros = Matrix::new(2, 3);
    assert_eq!(zeros.data(), &vec![0; 6]);
}

#[test]
fn the_elements_of_a_vector() {
    let mut v = Vector::new(3);
    assert_eq!(v, Vector(vec![0, 0, 0]));
    v.set(1, 7);
    assert_eq!(v.at(0), 0);
    assert_eq!(v.at(1), 7);
    assert_eq!(v.len(), 3);
}
