use neural_network::mnist::{
    check_images, load_dataset, load_datasets, pair_datasets, u32_from_bytes, Dataset,
    DatasetError,
};

/// The file of images for `images` images of `rows` by `cols` pixels, with
/// the pixels `pixels`.
fn image_file(images: u32, rows: u32, cols: u32, pixels: &[u8]) -> Vec<u8> {
    let mut file = vec![0, 0, 8, 3];
    file.extend_from_slice(&images.to_be_bytes());
    file.extend_from_slice(&rows.to_be_bytes());
    file.extend_from_slice(&cols.to_be_bytes());
    file.extend_from_slice(pixels);
    file
}

/// The file of labels for `count` labels, with the labels `labels`.
fn label_file(count: u32, labels: &[u8]) -> Vec<u8> {
    let mut file = vec![0, 0, 8, 1];
    file.extend_from_slice(&count.to_be_bytes());
    file.extend_from_slice(labels);
    file
}

#[test]
fn a_set_of_two_images() {
    let pixels: Vec<u8> = (0..12).collect();
    let images = image_file(2, 2, 3, &pixels);
    let labels = label_file(2, &[7, 9]);
    let set = load_dataset(&images, &labels).unwrap();
    assert_eq!(set, Dataset { image_size: (2, 3), data: pixels, labels: vec![7, 9] });
    assert_eq!(set.clone(), set);
}

#[test]
fn a_set_without_images() {
    assert_eq!(
        load_dataset(&image_file(0, 28, 28, &[]), &label_file(0, &[])),
        Ok(Dataset { image_size: (28, 28), data: vec![], labels: vec![] })
    );
}

#[test]
fn the_failures_of_a_set() {
    let pixels = [0u8; 12];
    let images = image_file(2, 2, 3, &pixels);
    let labels = label_file(2, &[7, 9]);
    assert_eq!(load_dataset(&images[..15], &labels), Err(DatasetError::ImageHeaderTruncated));
    assert_eq!(load_dataset(&[], &labels), Err(DatasetError::ImageHeaderTruncated));
    assert_eq!(load_dataset(&labels, &labels), Err(DatasetError::ImageHeaderTruncated));
    let mut wrong = images.clone();
    wrong[3] = 1;
    assert_eq!(load_dataset(&wrong, &labels), Err(DatasetError::ImageMagic));
    assert_eq!(load_dataset(&images[..27], &labels), Err(DatasetError::ImageLength));
    assert_eq!(
        load_dataset(&image_file(2, 2, 3, &[0; 13]), &labels),
        Err(DatasetError::ImageLength)
    );
    assert_eq!(
        load_dataset(&image_file(u32::MAX, u32::MAX, u32::MAX, &pixels), &labels),
        Err(DatasetError::ImageLength)
    );
    assert_eq!(load_dataset(&images, &labels[..7]), Err(DatasetError::LabelHeaderTruncated));
    assert_eq!(load_dataset(&images, &images), Err(DatasetError::LabelMagic));
    assert_eq!(load_dataset(&images, &label_file(3, &[7, 9])), Err(DatasetError::LabelCount));
    // The labels after the header are taken as they are.
    assert_eq!(
        load_dataset(&images, &label_file(2, &[7])).map(|set| set.labels),
        Ok(vec![7])
    );
}

#[test]
fn a_training_set_and_a_test_set() {
    let train_images = image_file(3, 1, 2, &[1, 2, 3, 4, 5, 6]);
    let train_labels = label_file(3, &[0, 1, 2]);
    let test_images = image_file(1, 1, 2, &[9, 8]);
    let test_labels = label_file(1, &[5]);
    let (train, test) =
        load_datasets(&train_images, &train_labels, &test_images, &test_labels).unwrap();
    assert_eq!(train.image_size, (1, 2));
    assert_eq!(train.data, vec![1, 2, 3, 4, 5, 6]);
    assert_eq!(train.labels, vec![0, 1, 2]);
    assert_eq!(test, Dataset { image_size: (1, 2), data: vec![9, 8], labels: vec![5] });
    let other = image_file(1, 2, 1, &[9, 8]);
    assert_eq!(
        load_datasets(&train_images, &train_labels, &other, &test_labels),
        Err(DatasetError::SizeMismatch)
    );
    assert_eq!(
        load_datasets(&train_images, &test_labels, &test_images, &test_labels),
        Err(DatasetError::LabelCount)
    );
    assert_eq!(
        load_datasets(&train_images, &train_labels, &test_images, &train_labels),
        Err(DatasetError::LabelCount)
    );
}

#[test]
fn four_bytes_as_a_number() {
    assert_eq!(u32_from_bytes(&[0, 0, 8, 3]), Some(2051));
    assert_eq!(u32_from_bytes(&[0xff, 0xff, 0xff, 0xff, 0]), Some(u32::MAX));
    assert_eq!(u32_from_bytes(&[0x80, 0, 0, 0]), Some(0x8000_0000));
    assert_eq!(u32_from_bytes(&[0, 0, 8]), None);
}

#[test]
fn the_file_of_images_is_looked_at_first() {
    let images = image_file(2, 2, 3, &[0; 12]);
    assert_eq!(check_images(&images), Ok(()));
    assert_eq!(check_images(&images[..15]), Err(DatasetError::ImageHeaderTruncated));
    assert_eq!(check_images(&label_file(10, &[0; 10])), Err(DatasetError::ImageMagic));
    assert_eq!(check_images(&images[..27]), Err(DatasetError::ImageLength));
    // Where both files are at fault, the failure is that of the images.
    assert_eq!(load_dataset(&images[..27], &[]), Err(DatasetError::ImageLength));
    assert_eq!(load_dataset(&images, &[]), Err(DatasetError::LabelHeaderTruncated));
}

#[test]
fn two_sets_of_one_size_are_a_pair() {
    let train = Dataset { image_size: (2, 3), data: vec![0; 6], labels: vec![1] };
    let test = Dataset { image_size: (2, 3), data: vec![], labels: vec![] };
    let other = Dataset { image_size: (3, 2), data: vec![0; 6], labels: vec![1] };
    assert_eq!(pair_datasets(train.clone(), test.clone()), Ok((train.clone(), test)));
    assert_eq!(pair_datasets(train, other), Err(DatasetError::SizeMismatch));
}
