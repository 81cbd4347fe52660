//! Block-level random access over a byte stream, with a hierarchical
//! exclusive-lease protocol: a numbered stack of generations, of which only
//! the topmost may touch the stream, each generation carrying a reference
//! count and a one-shot release callback.

pub mod lease;
pub mod mode;
pub mod randfile;
