//! Plain-text PPM images: a pixel is three channel bytes, an image is a
//! sequence of pixels with its size, format tag and largest channel value.
//!
//! The text layout is line oriented. Three header fields (format tag, size,
//! largest channel value) stand on lines of their own, comments start at `#`,
//! and the body is a stream of decimal numbers, three to a pixel. Every
//! function states its result over sequences of characters, and the encoder
//! and the decoder are proved to be inverse to each other.
//!
//! - [`text`]: positions in a sequence of characters, leading spaces.
//! - [`numbers`]: decimal notation, and the scanner of numbers.
//! - [`lines`]: comments, the lines of a text, and the reader of lines.
//! - [`pixels`]: one pixel, its text, and the scanner of pixels.
//! - [`images`]: an image, its encoder and its decoder.
//! - [`planes`]: pixels as three sequences of numbers, one for each channel.
//! - [`roundtrip`]: which encoded images decode to themselves.

pub mod images;
pub mod lines;
pub mod numbers;
pub mod pixels;
pub mod planes;
pub mod roundtrip;
pub mod text;

pub use images::Image;
pub use pixels::Pixels;
