//! The subcommand that reads data from topics.

use vstd::prelude::*;

verus! {

/// Read data from one or more topics.
#[derive(Debug)]
pub struct Pull {
    pub topic_names: Vec<String>,
}

} // verus!
