//! A multiband transient shaper.
pub mod algebra;
pub mod bands;
pub mod biquad;
pub mod colour;
pub mod crossover;
pub mod decibels;
pub mod envelope;
pub mod fixed;
pub mod flat;
pub mod gesture;
pub mod gui;
pub mod hand;
pub mod ideal;
pub mod mix;
pub mod params;
pub mod phase;
pub mod plot;
pub mod plugin;
pub mod power;
pub mod response;
pub mod rounding;
pub mod runs;
pub mod scalar;
pub mod screen;
pub mod shaper;
pub mod spectrum;
pub mod text;
pub mod tuning;
