//! The verified core of a streaming anomaly detector for twenty sensor
//! channels: reading the semicolon-separated input (line breaks, byte order
//! mark, UTF-8 or CP1251 header names, decimal number cells), writing the
//! per-channel result files, the random generators behind the random cuts,
//! the node pool of the random cut trees, and the sliding windows and
//! anomaly histories of the adaptive thresholds.
use vstd::prelude::*;

pub mod cp1251;
pub mod ensemble;
pub mod learning;
pub mod output;
pub mod parse;
pub mod rcf;
pub mod rng;
pub mod window;
