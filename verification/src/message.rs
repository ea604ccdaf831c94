//! Messages, delivery reports and the other values exchanged with the cluster.

use vstd::prelude::*;

use crate::errors::FailureReason;

verus! {

/// A message of a topic.
///
/// `partition`, `offset` and `timestamp` are unset on production and
/// populated by the cluster on delivery or consumption.
#[derive(Debug)]
pub struct Message {
    pub key: Option<Vec<u8>>,
    pub payload: Vec<u8>,
    pub headers: Vec<(Vec<u8>, Vec<u8>)>,
    pub topic: String,
    pub partition: Option<i32>,
    pub offset: Option<i64>,
    pub timestamp: Option<i64>,
}

/// The mathematical content of a [`Message`].
pub struct MessageView {
    pub key: Option<Seq<u8>>,
    pub payload: Seq<u8>,
    pub headers: Seq<(Seq<u8>, Seq<u8>)>,
    pub topic: Seq<char>,
    pub partition: Option<i32>,
    pub offset: Option<i64>,
    pub timestamp: Option<i64>,
}

impl View for Message {
    type V = MessageView;

    open spec fn view(&self) -> MessageView {
        MessageView {
            key: match self.key {
                Some(k) => Some(k@),
                None => None,
            },
            payload: self.payload@,
            headers: self.headers@.map_values(|h: (Vec<u8>, Vec<u8>)| (h.0@, h.1@)),
            topic: self.topic@,
            partition: self.partition,
            offset: self.offset,
            timestamp: self.timestamp,
        }
    }
}

impl Message {
    /// A fresh message for `topic`, not yet assigned to any partition.
    pub fn new(topic: String, key: Option<Vec<u8>>, payload: Vec<u8>) -> (m: Message)
        ensures
            m@.topic == topic@,
            m@.key == (match key {
                Some(k) => Some::<Seq<u8>>(k@),
                None => None::<Seq<u8>>,
            }),
            m@.payload == payload@,
            m@.headers.len() == 0,
            m@.partition is None,
            m@.offset is None,
            m@.timestamp is None,
    {
        let m = Message {
            key,
            payload,
            headers: Vec::new(),
            topic,
            partition: None,
            offset: None,
            timestamp: None,
        };
        proof {
            assert(m@.headers =~= Seq::<(Seq<u8>, Seq<u8>)>::empty());
        }
        m
    }
}

/// How a single produced message ended up.
#[derive(Clone, Copy, Debug, PartialEq, Eq, Structural)]
pub enum DeliveryOutcome {
    /// The cluster acknowledged persistence at this partition and offset.
    Success { partition: i32, offset: i64 },
    /// The message was not delivered.
    Failure { reason: FailureReason },
}

/// One report per accepted send: the message and how it ended up.
#[derive(Debug)]
pub struct DeliveryReport {
    pub message: Message,
    pub outcome: DeliveryOutcome,
}

/// The unit of work assigned to a consumer within a group.
#[derive(Debug)]
pub struct PartitionAssignment {
    pub topic: String,
    pub partition: i32,
}

impl View for PartitionAssignment {
    type V = (Seq<char>, i32);

    open spec fn view(&self) -> (Seq<char>, i32) {
        (self.topic@, self.partition)
    }
}

/// The next offset to resume from, persisted by the cluster.
#[derive(Debug)]
pub struct OffsetCommit {
    pub topic: String,
    pub partition: i32,
    pub offset: i64,
}

impl View for OffsetCommit {
    type V = (Seq<char>, i32, i64);

    open spec fn view(&self) -> (Seq<char>, i32, i64) {
        (self.topic@, self.partition, self.offset)
    }
}

/// Per-partition metadata reported by a verbose topic listing.
#[derive(Debug)]
pub struct PartitionMetadata {
    pub partition: i32,
    pub leader: i32,
    pub replicas: Vec<i32>,
}

/// What topic listing and creation report back.
#[derive(Debug)]
pub struct TopicDescriptor {
    pub name: String,
    pub partition_count: i32,
    pub verbose_metadata: Option<Vec<PartitionMetadata>>,
}

/// Copies a byte vector.
pub fn clone_bytes(v: &Vec<u8>) -> (r: Vec<u8>)
    ensures
        r@ == v@,
{
    let mut r: Vec<u8> = Vec::new();
    let mut i: usize = 0;
    while i < v.len()
        invariant
            0 <= i <= v.len(),
            r@ == v@.subrange(0, i as int),
        decreases v.len() - i,
    {
        r.push(v[i]);
        i += 1;
        proof {
            assert(r@ =~= v@.subrange(0, i as int));
        }
    }
    proof {
        assert(v@.subrange(0, v@.len() as int) =~= v@);
    }
    r
}

/// Copies an optional byte vector.
pub fn clone_opt_bytes(v: &Option<Vec<u8>>) -> (r: Option<Vec<u8>>)
    ensures
        (match v {
            Some(b) => r matches Some(c) && c@ == b@,
            None => r is None,
        }),
{
    match v {
        Some(b) => Some(clone_bytes(b)),
        None => None,
    }
}

/// Copies a header list.
pub fn clone_headers(h: &Vec<(Vec<u8>, Vec<u8>)>) -> (r: Vec<(Vec<u8>, Vec<u8>)>)
    ensures
        r@.map_values(|p: (Vec<u8>, Vec<u8>)| (p.0@, p.1@)) == h@.map_values(
            |p: (Vec<u8>, Vec<u8>)| (p.0@, p.1@),
        ),
{
    let mut r: Vec<(Vec<u8>, Vec<u8>)> = Vec::new();
    let mut i: usize = 0;
    while i < h.len()
        invariant
            0 <= i <= h.len(),
            r@.len() == i,
            forall|j: int|
                0 <= j < i ==> (#[trigger] r@[j]).0@ == h@[j].0@ && r@[j].1@ == h@[j].1@,
        decreases h.len() - i,
    {
        let name = clone_bytes(&h[i].0);
        let value = clone_bytes(&h[i].1);
        r.push((name, value));
        i += 1;
    }
    proof {
        assert(r@.map_values(|p: (Vec<u8>, Vec<u8>)| (p.0@, p.1@)) =~= h@.map_values(
            |p: (Vec<u8>, Vec<u8>)| (p.0@, p.1@),
        ));
    }
    r
}

} // verus!
