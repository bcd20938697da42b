//! Log-band audio bars, from captured samples to lines of text.
//!
//! Samples are mixed down and buffered ([`audio`]), windowed and padded ([`frame`]),
//! and, once transformed, taken through the stages of [`visualizer`]: [`bands`],
//! [`gate`], [`normalize`], [`smooth`] and [`bars`]. What comes out is written by
//! [`text`]. The stages are generic over the arithmetic of [`scalar`].

pub mod audio;
pub mod band_laws;
pub mod bands;
pub mod bar_laws;
pub mod bars;
pub mod fixed;
pub mod fixed_laws;
pub mod frame;
pub mod gate;
pub mod normalize;
pub mod pause;
pub mod scalar;
pub mod settings;
pub mod smooth;
pub mod spectrum_laws;
pub mod text;
pub mod visualizer;
