//! Conversion of RGBA images to 8-bit paletted images.
//!
//! A [`Histogram`] counts the colors of one or more [`Image`]s. Where it holds
//! no more colors than [`Options`] allow, [`colormap::quantize_unique`] turns it
//! into a palette of exactly those colors, ordered by alpha; otherwise
//! [`cluster::split_clusters`] divides its entries into clusters by repeated
//! median cuts ([`cluster::split_entries`]).
//! A [`colormap::Colormap`] maps each pixel to the index of its nearest palette
//! color through the vantage-point index of [`vpsearch::SearchTree`], and
//! [`dither::dither_step`] lays out a serpentine error-diffusion pass.
use vstd::prelude::*;

pub mod cluster;
pub mod colormap;
pub mod distance;
pub mod dither;
pub mod error;
pub mod histogram;
pub mod image;
pub mod kmeans;
pub mod options;
pub mod palette;
pub mod vpsearch;

pub use error::{Error, LiqError, QuantizrError};
pub use histogram::{Histogram, HistogramEntry};
pub use image::Image;
pub use options::Options;
pub use palette::{Color, Palette};
