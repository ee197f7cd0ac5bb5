//! Conversion of fishsense-mobile captures, an RGB image and an ARKit depth map in
//! a row of a SQLite database, into LAZ point clouds.
//!
//! A row is decoded ([`decode`]), its image is loaded ([`photo`], [`jpeg`]), the depth
//! map is upsampled where that is asked for ([`upsample`]) and unprojected through the
//! camera matrix ([`unproject`]), and the points become the records of a LAZ file
//! ([`write`]). [`convert`] holds these steps together, [`db`] the queries and the
//! rows, [`listing`] and [`batch`] the two commands.
//!
//! What holds of the library as a whole is proved beside it. [`operations`] and
//! [`conversions`] tell what each operation gives in terms of what goes into it, and
//! [`steps`] what each step of a conversion does. [`sight`] shows that a point lies on the
//! line of sight of its pixel, [`taps`] and [`mean`] that upsampled depth is a weighted mean
//! which keeps to the edges of the image, and [`blending`] that it stays among the measured
//! depths.
//!
//! Floating-point numbers are bit patterns with verified arithmetic ([`double`],
//! [`rounding`]), so that contracts can speak of their exact values, and [`accuracy`] of how
//! far a result is from them.
pub mod accuracy;
pub mod batch;
pub mod blending;
pub mod calendar;
pub mod conversions;
pub mod convert;
pub mod db;
pub mod decode;
pub mod double;
pub mod jpeg;
pub mod listing;
pub mod mean;
pub mod operations;
pub mod photo;
pub mod rounding;
pub mod sight;
pub mod steps;
pub mod taps;
pub mod text;
pub mod unproject;
pub mod upsample;
pub mod write;

pub use convert::{convert_one, default_output_name, ConvertOptions};
pub use decode::{Confidence, Intrinsics};
