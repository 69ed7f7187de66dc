//! The two files of a set of labelled images, as bytes.
//!
//! The file of images starts with the bytes 0, 0, 8, 3, followed by the
//! number of images, the number of rows and the number of columns of an
//! image, 4 big-endian bytes each, and then by the pixels, one byte each.
//! The file of labels starts with the bytes 0, 0, 8, 1, followed by the
//! number of labels on 4 big-endian bytes, and then by the labels, one byte
//! each.

use vstd::prelude::*;
use vstd::slice::{slice_subrange, slice_to_vec};
use crate::wire::{lemma_be_value_bound, lemma_pow256_values, read_be, word32_at};

verus! {

/// A set of labelled images: the numbers of rows and of columns of an
/// image, the pixels of all the images, one image after the other, and the
/// labels, one for each image.
#[derive(Debug, PartialEq, Eq)]
pub struct Dataset {
    pub image_size: (usize, usize),
    pub data: Vec<u8>,
    pub labels: Vec<u8>,
}

impl Clone for Dataset {
    fn clone(&self) -> (copy: Dataset)
        ensures
            copy@ == self@,
    {
        Dataset {
            image_size: (self.image_size.0, self.image_size.1),
            data: self.data.clone(),
            labels: self.labels.clone(),
        }
    }
}

/// Why the two files are not a set of labelled images.
#[derive(Clone, Copy, Debug, PartialEq, Eq, Structural)]
pub enum DatasetError {
    /// The file of images is shorter than its 16 bytes of header.
    ImageHeaderTruncated,
    /// The file of images does not start with 0, 0, 8, 3.
    ImageMagic,
    /// The file of images does not hold one byte for each pixel of each
    /// image.
    ImageLength,
    /// The file of labels is shorter than its 8 bytes of header.
    LabelHeaderTruncated,
    /// The file of labels does not start with 0, 0, 8, 1.
    LabelMagic,
    /// There are not as many labels as images.
    LabelCount,
    /// The images of the two sets are not of the same size.
    SizeMismatch,
}

/// A set of labelled images as specifications see it.
pub struct DatasetView {
    pub rows: nat,
    pub cols: nat,
    pub data: Seq<u8>,
    pub labels: Seq<u8>,
}

impl View for Dataset {
    type V = DatasetView;

    open spec fn view(&self) -> DatasetView {
        DatasetView {
            rows: self.image_size.0 as nat,
            cols: self.image_size.1 as nat,
            data: self.data@,
            labels: self.labels@,
        }
    }
}

/// What is wrong with the file of images `images`, if anything is: the
/// first of a header that is cut short, another beginning, and a number of
/// pixels that the header does not announce.
pub open spec fn image_fault(images: Seq<u8>) -> Option<DatasetError> {
    if images.len() < 16 {
        Some(DatasetError::ImageHeaderTruncated)
    } else if images.subrange(0, 4) != seq![0u8, 0u8, 8u8, 3u8] {
        Some(DatasetError::ImageMagic)
    } else if images.len() - 16 != word32_at(images, 4) * word32_at(images, 8) * word32_at(
        images,
        12,
    ) {
        Some(DatasetError::ImageLength)
    } else {
        None
    }
}

/// What the file of images `images` and the file of labels `labels` hold.
/// The file of images is looked at first: where both files are at fault,
/// the failure is that of the file of images.
pub open spec fn parse_dataset(images: Seq<u8>, labels: Seq<u8>) -> Result<
    DatasetView,
    DatasetError,
> {
    match image_fault(images) {
        Some(e) => Err(e),
        None => if labels.len() < 8 {
            Err(DatasetError::LabelHeaderTruncated)
        } else if labels.subrange(0, 4) != seq![0u8, 0u8, 8u8, 1u8] {
            Err(DatasetError::LabelMagic)
        } else if word32_at(labels, 4) != word32_at(images, 4) {
            Err(DatasetError::LabelCount)
        } else {
            Ok(
                DatasetView {
                    rows: word32_at(images, 8),
                    cols: word32_at(images, 12),
                    data: images.subrange(16, images.len() as int),
                    labels: labels.subrange(8, labels.len() as int),
                },
            )
        },
    }
}

/// The two sets as a pair, where their images are of the same size.
pub open spec fn pair_spec(train: DatasetView, test: DatasetView) -> Result<
    (DatasetView, DatasetView),
    DatasetError,
> {
    if train.rows != test.rows || train.cols != test.cols {
        Err(DatasetError::SizeMismatch)
    } else {
        Ok((train, test))
    }
}

/// What the files of a training set and of a test set hold: the two sets,
/// where each is in order and their images are of the same size.
pub open spec fn parse_datasets(
    train_images: Seq<u8>,
    train_labels: Seq<u8>,
    test_images: Seq<u8>,
    test_labels: Seq<u8>,
) -> Result<(DatasetView, DatasetView), DatasetError> {
    match parse_dataset(train_images, train_labels) {
        Err(e) => Err(e),
        Ok(train) => match parse_dataset(test_images, test_labels) {
            Err(e) => Err(e),
            Ok(test) => pair_spec(train, test),
        },
    }
}

/// Reads the first 4 bytes of `bytes` as an unsigned number; nothing where
/// there are fewer bytes.
pub fn u32_from_bytes(bytes: &[u8]) -> (r: Option<u32>)
    ensures
        r is Some <==> bytes@.len() >= 4,
        r matches Some(x) ==> x as nat == word32_at(bytes@, 0),
{
    if bytes.len() < 4 {
        return None;
    }
    proof {
        lemma_pow256_values();
        lemma_be_value_bound(bytes@.subrange(0, 4));
    }
    Some(read_be(bytes, 0, 4) as u32)
}

/// Whether the first 4 bytes of `data` are 0, 0, 8 and `last`.
fn starts_with_magic(data: &[u8], last: u8) -> (found: bool)
    requires
        data.len() >= 4,
    ensures
        found == (data@.subrange(0, 4) == seq![0u8, 0u8, 8u8, last]),
{
    let found: bool = data[0] == 0 && data[1] == 0 && data[2] == 8 && data[3] == last;
    proof {
        let head = data@.subrange(0, 4);
        let magic = seq![0u8, 0u8, 8u8, last];
        if found {
            assert(head =~= magic);
        } else {
            assert(head[0] != magic[0] || head[1] != magic[1] || head[2] != magic[2] || head[3]
                != magic[3]);
        }
    }
    found
}

/// The product of three numbers of 32 bits fits 96 bits.
proof fn lemma_product_fits(a: nat, b: nat, c: nat)
    by (nonlinear_arith)
    requires
        a < 0x1_0000_0000,
        b < 0x1_0000_0000,
        c < 0x1_0000_0000,
    ensures
        a * b < 0x1_0000_0000_0000_0000,
        a * b * c < 0x1_0000_0000_0000_0000_0000_0000,
{
}

/// What is wrong with the contents `image_data` of a file of images, if
/// anything is. A reader of the two files of a set calls this before it
/// opens the file of labels.
pub fn check_images(image_data: &[u8]) -> (r: Result<(), DatasetError>)
    ensures
        match r {
            Ok(_) => image_fault(image_data@) is None,
            Err(e) => image_fault(image_data@) == Some(e),
        },
{
    if image_data.len() < 16 {
        return Err(DatasetError::ImageHeaderTruncated);
    }
    if !starts_with_magic(image_data, 3) {
        return Err(DatasetError::ImageMagic);
    }
    proof {
        lemma_pow256_values();
        lemma_be_value_bound(image_data@.subrange(4, 8));
        lemma_be_value_bound(image_data@.subrange(8, 12));
        lemma_be_value_bound(image_data@.subrange(12, 16));
        lemma_product_fits(
            word32_at(image_data@, 4),
            word32_at(image_data@, 8),
            word32_at(image_data@, 12),
        );
    }
    let num_images: u64 = read_be(image_data, 4, 4);
    let num_rows: u64 = read_be(image_data, 8, 4);
    let num_cols: u64 = read_be(image_data, 12, 4);
    let pixels: u128 = (num_images * num_rows) as u128 * num_cols as u128;
    if (image_data.len() - 16) as u128 != pixels {
        return Err(DatasetError::ImageLength);
    }
    Ok(())
}

/// The set of labelled images that the contents `image_data` of a file of
/// images and the contents `label_data` of a file of labels hold.
pub fn load_dataset(image_data: &[u8], label_data: &[u8]) -> (r: Result<Dataset, DatasetError>)
    ensures
        match r {
            Ok(dataset) => parse_dataset(image_data@, label_data@) == Ok::<
                DatasetView,
                DatasetError,
            >(dataset@),
            Err(e) => parse_dataset(image_data@, label_data@) == Err::<DatasetView, DatasetError>(e),
        },
{
    match check_images(image_data) {
        Err(e) => {
            return Err(e);
        },
        Ok(_) => {},
    }
    proof {
        lemma_pow256_values();
        lemma_be_value_bound(image_data@.subrange(4, 8));
        lemma_be_value_bound(image_data@.subrange(8, 12));
        lemma_be_value_bound(image_data@.subrange(12, 16));
    }
    let num_images: u64 = read_be(image_data, 4, 4);
    let num_rows: u64 = read_be(image_data, 8, 4);
    let num_cols: u64 = read_be(image_data, 12, 4);
    if label_data.len() < 8 {
        return Err(DatasetError::LabelHeaderTruncated);
    }
    if !starts_with_magic(label_data, 1) {
        return Err(DatasetError::LabelMagic);
    }
    let num_labels: u64 = read_be(label_data, 4, 4);
    if num_labels != num_images {
        return Err(DatasetError::LabelCount);
    }
    let data: Vec<u8> = slice_to_vec(slice_subrange(image_data, 16, image_data.len()));
    let labels: Vec<u8> = slice_to_vec(slice_subrange(label_data, 8, label_data.len()));
    Ok(Dataset { image_size: (num_rows as usize, num_cols as usize), data, labels })
}

/// The training set `train` and the test set `test` as a pair; a failure
/// where their images are not of the same size.
pub fn pair_datasets(train: Dataset, test: Dataset) -> (r: Result<(Dataset, Dataset), DatasetError>)
    ensures
        match r {
            Ok((first, second)) => first == train && second == test && pair_spec(train@, test@)
                == Ok::<(DatasetView, DatasetView), DatasetError>((train@, test@)),
            Err(e) => pair_spec(train@, test@) == Err::<(DatasetView, DatasetView), DatasetError>(
                e,
            ),
        },
{
    if train.image_size.0 != test.image_size.0 || train.image_size.1 != test.image_size.1 {
        Err(DatasetError::SizeMismatch)
    } else {
        Ok((train, test))
    }
}

/// The training set and the test set that the contents of their four files
/// hold.
pub fn load_datasets(
    train_images: &[u8],
    train_labels: &[u8],
    test_images: &[u8],
    test_labels: &[u8],
) -> (r: Result<(Dataset, Dataset), DatasetError>)
    ensures
        match r {
            Ok((train, test)) => parse_datasets(
                train_images@,
                train_labels@,
                test_images@,
                test_labels@,
            ) == Ok::<(DatasetView, DatasetView), DatasetError>((train@, test@)),
            Err(e) => parse_datasets(train_images@, train_labels@, test_images@, test_labels@)
                == Err::<(DatasetView, DatasetView), DatasetError>(e),
        },
{
    match load_dataset(train_images, train_labels) {
        Err(e) => Err(e),
        Ok(train) => match load_dataset(test_images, test_labels) {
            Err(e) => Err(e),
            Ok(test) => pair_datasets(train, test),
        },
    }
}

/// The place of the 1 in the vector of 10 elements that stands for the
/// label `label`: one before the label, and the first for the label 0.
pub open spec fn target_index_spec(label: u8) -> nat {
    if label == 0 {
        0
    } else {
        (label - 1) as nat
    }
}

/// The place of the 1 in the vector of 10 elements that stands for the
/// label `label`; nothing for a label above 10, which has no place there.
pub fn target_index(label: u8) -> (index: Option<usize>)
    ensures
        index is Some <==> label <= 10,
        index matches Some(i) ==> i == target_index_spec(label) && i < 10,
{
    if label > 10 {
        None
    } else if label == 0 {
        Some(0)
    } else {
        Some((label - 1) as usize)
    }
}

impl Dataset {
    /// The number of pixels of an image.
    pub fn image_len(&self) -> (len: Option<usize>)
        ensures
            len is Some <==> self@.rows * self@.cols <= usize::MAX,
            len matches Some(n) ==> n == self@.rows * self@.cols,
    {
        self.image_size.0.checked_mul(self.image_size.1)
    }

    /// The pixels of the image `index`, row by row; nothing where the set
    /// does not hold that many images.
    pub fn image(&self, index: usize) -> (pixels: Option<&[u8]>)
        ensures
            pixels is Some <==> (index + 1) * (self@.rows * self@.cols) <= self@.data.len(),
            pixels matches Some(found) ==> found@ == self@.data.subrange(
                index * (self@.rows * self@.cols),
                (index + 1) * (self@.rows * self@.cols),
            ),
    {
        assert(self.data@.len() == self.data.len());
        let size: usize = match self.image_len() {
            None => {
                assert((index + 1) * (self@.rows * self@.cols) > self@.data.len()) by (nonlinear_arith)
                    requires
                        self@.rows * self@.cols > usize::MAX,
                        self@.data.len() <= usize::MAX,
                        index >= 0,
                ;
                return None;
            },
            Some(size) => size,
        };
        if size == 0 {
            assert(index * 0 == 0 && (index + 1) * 0 == 0) by (nonlinear_arith);
            return Some(slice_subrange(self.data.as_slice(), 0, 0));
        }
        let held: usize = self.data.len() / size;
        assert((index < held) == ((index + 1) * size <= self.data@.len())) by (nonlinear_arith)
            requires
                size > 0,
                held == self.data@.len() as int / size as int,
        ;
        if index >= held {
            return None;
        }
        assert(0 <= index * size && index * size + size == (index + 1) * size) by (nonlinear_arith);
        let start: usize = index * size;
        Some(slice_subrange(self.data.as_slice(), start, start + size))
    }
}

} // verus!
