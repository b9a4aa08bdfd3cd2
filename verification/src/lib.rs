//! A verified core for a Hangul-syllable esoteric stack language:
//! arbitrary-precision integers, total rational arithmetic with
//! non-finite sentinels, branching areas, a multi-stack machine,
//! its execution engine, and an equivalence-preserving optimizer.

pub mod big_number;
pub mod code;
pub mod execute;
pub mod optimize;
pub mod number;
