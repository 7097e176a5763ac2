//! Checks that source files begin with an exact, language-appropriate
//! rendering of a configured license text, and can synthesize a correctly
//! delimited comment header for files that lack one.

pub mod config;
pub mod engine;
pub mod extract;
pub mod laws;
pub mod registry;
pub mod resolve;
pub mod synth;
pub mod text;
