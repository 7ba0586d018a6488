//! What a compile is asked to do.
use vstd::prelude::*;

verus! {

/// The compiler's command line: verbosity, the input `osm.pbf` file, the
/// output archive directory, and whether to keep the OSM ids.
pub struct Args {
    pub verbose: u8,
    pub input: String,
    pub output: String,
    pub ids: bool,
}

} // verus!
