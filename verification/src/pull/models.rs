//! Configuration for consuming from topics.

use vstd::prelude::*;

use crate::models::Broker;

verus! {

/// What a pull run needs: the topics to read and the bootstrap brokers.
#[derive(Debug)]
pub struct PullConfig {
    pub topic_names: Vec<String>,
    pub brokers: Vec<Broker>,
}

impl PullConfig {
    /// Bundles the topics to read with the bootstrap brokers.
    pub fn new(topic_names: Vec<String>, brokers: Vec<Broker>) -> (r: PullConfig)
        ensures
            r.topic_names@ == topic_names@,
            r.brokers@ == brokers@,
    {
        PullConfig { topic_names, brokers }
    }
}

} // verus!
