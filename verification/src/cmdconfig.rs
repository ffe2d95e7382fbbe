//! The run configuration handed in from the outside: which source image to
//! interpret, the codel size to sample it with, and whether diagnostics are
//! wanted.

use vstd::prelude::*;

verus! {

/// One run's configuration.
pub struct CmdConfig {
    pub src: String,
    pub size: usize,
    pub verbose: bool,
}

} // verus!
