use vstd::prelude::*;

pub mod columns;
pub mod decoding;
pub mod environment;
pub mod execution;
