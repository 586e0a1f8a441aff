//! Integer core of a live audio spectrum analyser: logarithmic frequency
//! bar layout, analysis frame scheduling, and terminal bar geometry.

pub mod bins;
pub mod frames;
pub mod display;
pub mod state;
pub mod devices;
