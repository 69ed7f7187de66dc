//! Binary persistence for a small feed-forward network: a tag-prefixed,
//! big-endian encoding of scalars, text, vectors, matrices, records, tagged
//! unions and the ordered list of layers of a network.
//!
//! `codec` says what a codec is and which laws it obeys; `wire` holds the
//! arithmetic of big-endian bytes; `literals` and `math` hold the codecs of
//! scalars, text, vectors and matrices; `schema` holds the codec of records
//! and tagged unions; `layer` and `network` hold the codec of a network and
//! the table of the kinds of its layers; `serializer` holds the first
//! format of a stored network; `mnist` reads the files of the labelled
//! images; `batch` and `prompt` hold two rules of the training program.
//! Every decoder fails with a `DecodeError`, which `error` defines.

pub mod batch;
pub mod codec;
pub mod error;
pub mod layer;
pub mod literals;
pub mod math;
pub mod mnist;
pub mod network;
pub mod prompt;
pub mod schema;
pub mod serializer;
pub mod wire;
