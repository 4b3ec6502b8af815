//! Palette extraction: groups the colors of a decoded image into clusters under a perceptual
//! distance, with every algorithm stated and proved over exact fixed-point color math.
//!
//! - `arith`: integer cube and square roots, floor division.
//! - `color`: sRGB levels, linear light, OkLab, XYZ, CIELab and HSL in millionths, and distances.
//! - `cluster`: pixels, samples, clusters and the store that holds a palette.
//! - `online`: the single-pass grow-or-absorb clusterer.
//! - `merge`: the cleanup pass that merges close clusters, and edits of a store.
//! - `distinct`: the distinct colors of an image.
//! - `median`: the per-channel median and the median-cut quantizer.
//! - `meanshift`: the mean-shift clusterer in OkLab.
//! - `stats`: saturation and lightness of a palette.
//! - `saturation`: switching a cluster to its most saturated member.
//! - `creator`: the state of the image-creation window.
use vstd::prelude::*;

pub mod arith;
pub mod color;
pub mod cluster;
pub mod online;
pub mod merge;
pub mod distinct;
pub mod median;
pub mod meanshift;
pub mod stats;
pub mod saturation;
pub mod creator;

verus! {

} // verus!
