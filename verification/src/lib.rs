//! A waterfall display for a software-defined radio, without the radio and
//! without the display: the computing between the bytes that the receiver
//! delivers and the bytes of the picture.
//!
//! - `dsp` prepares a block of samples for the Fourier transform and reads
//!   levels, mean and peak off the power spectrum.
//! - `scroll` and `rotate` move the content of a flat buffer along one axis
//!   of its logical shape, filling with zero or turning in place.
//! - `color` builds the colour table and looks levels up in it.
//! - `ui` composes the picture and follows the operator and the tuning.
//! - `demo` decides what the receiver is told, and when.

pub mod color;
pub mod demo;
pub mod dsp;
pub mod rotate;
pub mod scroll;
pub mod ui;
