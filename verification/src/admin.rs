//! Topic administration: create, list and delete against the cluster's
//! metadata service.

use vstd::prelude::*;

use crate::cluster::Cluster;
use crate::errors::ClientError;
use crate::message::TopicDescriptor;
use crate::models::Broker;

verus! {

/// How many partitions a topic gets when the caller names no count.
pub const DEFAULT_PARTITIONS: i32 = 1;

/// A handle for topic administration, bound to the bootstrap endpoints.
///
/// Every operation is a synchronous round trip: a second call observes
/// prior mutations.
#[derive(Debug)]
pub struct TopicAdmin {
    pub brokers: Vec<Broker>,
}

impl TopicAdmin {
    /// An administration handle over one or more bootstrap endpoints; with
    /// none the cluster is unreachable.
    pub fn new(brokers: Vec<Broker>) -> (r: Result<TopicAdmin, ClientError>)
        ensures
            (match r {
                Ok(a) => brokers@.len() > 0 && a.brokers@ == brokers@,
                Err(e) => e == ClientError::ClusterUnavailable && brokers@.len() == 0,
            }),
    {
        if brokers.len() == 0 {
            return Err(ClientError::ClusterUnavailable);
        }
        Ok(TopicAdmin { brokers })
    }

    /// Creates a topic with the given partition count; fails when a topic
    /// of that name already exists.
    pub fn create(&self, c: &mut Cluster, name: &String, partitions: i32) -> (r: Result<
        TopicDescriptor,
        ClientError,
    >)
        requires
            old(c).wf(),
            1 <= partitions,
        ensures
            final(c).wf(),
            (match r {
                Ok(d) => !old(c).has_topic(name@) && final(c).has_topic(name@) && final(c).n_partitions(name@) == partitions && (forall|p: int|
                    0 <= p < partitions ==> final(c).log_len(name@, p) == 0) && final(c).groups@ == old(c).groups@ && final(c).topics@.subrange(
                    0,
                    old(c).topics@.len() as int,
                ) == old(c).topics@ && final(c).topics@.len() == old(c).topics@.len() + 1
                    && d.name@ == name@ && d.partition_count == partitions && d.verbose_metadata
                    is None,
                Err(e) => e == ClientError::TopicExists && old(c).has_topic(name@) && *final(c)
                    == *old(c),
            }),
    {
        c.create_topic(name, partitions)
    }

    /// Creates a topic with the default partition count.
    pub fn create_default(&self, c: &mut Cluster, name: &String) -> (r: Result<
        TopicDescriptor,
        ClientError,
    >)
        requires
            old(c).wf(),
        ensures
            final(c).wf(),
            (match r {
                Ok(d) => !old(c).has_topic(name@) && final(c).has_topic(name@) && final(c).n_partitions(name@) == DEFAULT_PARTITIONS && final(c).groups@ == old(c).groups@
                    && d.name@ == name@ && d.partition_count == DEFAULT_PARTITIONS,
                Err(e) => e == ClientError::TopicExists && old(c).has_topic(name@) && *final(c)
                    == *old(c),
            }),
    {
        c.create_topic(name, DEFAULT_PARTITIONS)
    }

    /// Lists every topic the cluster carries, in cluster-reported order.
    /// Callers must not rely on that order. Without `verbose`, only names
    /// and partition counts are populated.
    pub fn list(&self, c: &Cluster, verbose: bool) -> (r: Vec<TopicDescriptor>)
        requires
            c.wf(),
        ensures
            r@.len() == c.topics@.len(),
            forall|i: int| 0 <= i < r@.len() ==> (#[trigger] r@[i]).name@ == c.topics@[i].name@,
            forall|i: int|
                0 <= i < r@.len() ==> (#[trigger] r@[i]).partition_count
                    == c.topics@[i].partitions@.len(),
            !verbose ==> forall|i: int|
                0 <= i < r@.len() ==> (#[trigger] r@[i]).verbose_metadata is None,
            verbose ==> forall|i: int|
                0 <= i < r@.len() ==> (#[trigger] r@[i]).verbose_metadata is Some,
    {
        c.list_topics(verbose)
    }

    /// Deletes the topic of that name; fails when none exists.
    pub fn delete(&self, c: &mut Cluster, name: &String) -> (r: Result<(), ClientError>)
        requires
            old(c).wf(),
        ensures
            final(c).wf(),
            (match r {
                Ok(()) => old(c).has_topic(name@) && !final(c).has_topic(name@) && final(c).topics@ == old(c).topics@.remove(old(c).topic_i(name@)) && final(c).groups@
                    == old(c).groups@,
                Err(e) => e == ClientError::TopicNotFound && !old(c).has_topic(name@) && *final(c)
                    == *old(c),
            }),
    {
        c.delete_topic(name)
    }
}

} // verus!
