use vstd::prelude::*;

pub mod accuracy;
pub mod agreement;
pub mod assembly;
pub mod audio;
pub mod big;
pub mod binary32;
pub mod binary64;
pub mod blending;
pub mod candidates;
pub mod clip;
pub mod colour;
pub mod commands;
pub mod config;
pub mod decimals;
pub mod decisions;
pub mod error;
pub mod exact;
pub mod ffmpeg;
pub mod fixed;
pub mod formats;
pub mod geometry;
pub mod grain;
pub mod grazing;
pub mod interpolation;
pub mod job;
pub mod mapping;
pub mod number;
pub mod orientation;
pub mod pacing;
pub mod path;
pub mod pipeline;
pub mod places;
pub mod pixfmt;
pub mod probe;
pub mod progress;
pub mod readings;
pub mod reals;
pub mod render;
pub mod rotation;
pub mod rounding;
pub mod sampling;
pub mod settings;
pub mod shortest;
pub mod slices;
pub mod stream;
pub mod subsampling;
pub mod sys;
pub mod text;
pub mod tones;
pub mod track;
pub mod turns;
pub mod util;
pub mod volume;
pub mod window;

verus! {

} // verus!
