//! Differential-correctness harness for independent FFT implementations:
//! size validation, the fixed-point `re,im` text codec, artifact resolution,
//! the comparison of a candidate's output against a reference spectrum, and
//! the per-size progress of a candidate through a set of reference outputs.
pub mod size;
pub mod text;
pub mod parse;
pub mod check;
pub mod artifact;
pub mod reference;
pub mod runner;
