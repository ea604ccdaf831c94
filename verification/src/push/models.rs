//! Configuration for producing to a topic.

use vstd::prelude::*;

use crate::models::Broker;

verus! {

/// What a push run needs: the target topic and the bootstrap brokers.
#[derive(Debug)]
pub struct PushConfig {
    pub topic_name: String,
    pub brokers: Vec<Broker>,
}

impl PushConfig {
    /// Bundles the target topic with the bootstrap brokers.
    pub fn new(topic_name: String, brokers: Vec<Broker>) -> (r: PushConfig)
        ensures
            r.topic_name@ == topic_name@,
            r.brokers@ == brokers@,
    {
        PushConfig { topic_name, brokers }
    }
}

} // verus!
