//! Image filters behind a fixed call boundary.
//!
//! A host hands a filter an RGBA pixel buffer, its dimensions and a JSON
//! parameter text. Every filter validates the call in the same order before
//! it touches a pixel ([`boundary`]), decodes its own parameters
//! ([`params`]) and then changes the buffer in place: [`blur`] with a
//! distance-weighted neighbourhood average, [`mirror`] with row and column
//! reversal. [`layout`] says where a pixel lies in the buffer,
//! [`weight`] what a neighbour counts for in the blur, and [`big`] holds
//! the numbers that the weighted sums grow to. [`plugin_loader`] and
//! [`error`] hold the host's side: how a filter's name becomes a module
//! file, and how failures are reported.

pub mod big;
pub mod blur;
pub mod boundary;
pub mod error;
pub mod layout;
pub mod mirror;
pub mod params;
pub mod plugin_loader;
pub mod weight;
