//! The topic administration subcommands.

use vstd::prelude::*;

verus! {

/// Manage topics.
#[derive(Debug)]
pub struct Topics {
    pub sub_cmd: TopicsSubCommand,
}

/// Which topic operation to run.
#[derive(Debug)]
pub enum TopicsSubCommand {
    Delete(DeleteTopic),
    List(ListTopics),
    Create(CreateTopic),
}

/// Create a new topic.
#[derive(Debug)]
pub struct CreateTopic {
    pub topic_name: String,
}

/// Delete a topic.
#[derive(Debug)]
pub struct DeleteTopic {
    pub topic_name: String,
}

/// List topics on the cluster.
#[derive(Debug)]
pub struct ListTopics {
    pub verbose: bool,
}

} // verus!
