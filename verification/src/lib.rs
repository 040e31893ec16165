//! Field-level codecs for a delimited-text tabular format.
//!
//! Each codec maps one structured value (a numeric list, a list of numeric
//! lists, or an optional numeric pair) to and from a single string suitable
//! for one cell of a row-oriented text record:
//!
//! - [`vec_num`]: `[-1, 1]` <--> `"-1_1"`
//! - [`vec_vec_num`]: `[[-1, 1], [1, -1]]` <--> `"-1_1|1_-1"`
//! - [`maybe_image_size`]: `Some((16, 1024))` <--> `"16x1024"`
//! - [`maybe_lat_lon`]: `Some((1, -2))` <--> `"1;-2"`
//!
//! The empty string is the unique encoding of the empty list, the empty
//! matrix, and `None`. Decoding any other string either recovers a non-empty
//! value or fails with a [`error::DecodeError`] naming the offending token.

pub mod error;
pub mod maybe_image_size;
pub mod maybe_lat_lon;
pub mod num_text;
pub mod scalar;
pub mod text;
pub mod vec_num;
pub mod vec_vec_num;
