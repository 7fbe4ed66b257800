use vstd::prelude::*;

verus! {

/// Process-wide configuration handed to the engine at startup.
pub struct Config {
    pub watch_table_file: String,
}

} // verus!
