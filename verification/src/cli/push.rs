//! The subcommand that writes data to a topic.

use vstd::prelude::*;

verus! {

/// Write data to a topic.
#[derive(Debug)]
pub struct Push {
    pub topic_name: String,
}

} // verus!
