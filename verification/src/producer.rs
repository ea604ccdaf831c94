//! The asynchronous message publisher: buffered sends, partition routing and
//! per-message delivery reports.

use vstd::prelude::*;

use crate::cluster::Cluster;
use crate::cluster::StoredRecord;
use crate::cluster::StoredRecordView;
use crate::errors::ClientError;
use crate::errors::FailureReason;
use crate::message::DeliveryOutcome;
use crate::message::DeliveryReport;
use crate::message::Message;
use crate::message::MessageView;
use crate::message::clone_bytes;
use crate::message::clone_headers;
use crate::message::clone_opt_bytes;

verus! {

/// The sum of the bytes of a key.
pub open spec fn byte_sum(k: Seq<u8>) -> int
    decreases k.len(),
{
    if k.len() == 0 {
        0
    } else {
        byte_sum(k.drop_last()) + k.last()
    }
}

/// The partition a key is routed to: its byte sum modulo the partition count.
pub open spec fn key_partition(k: Seq<u8>, count: int) -> int {
    byte_sum(k) % count
}

/// The partition a message is routed to on cluster `c`. Keyed messages hash
/// by key so that one key always feeds one partition; keyless messages go to
/// partition zero.
pub open spec fn route(m: MessageView, c: Cluster) -> int {
    match m.key {
        Some(k) => key_partition(k, c.n_partitions(m.topic)),
        None => 0,
    }
}

/// The record stored for a produced message.
pub open spec fn stored_of(m: MessageView) -> StoredRecordView {
    StoredRecordView { key: m.key, payload: m.payload, headers: m.headers, timestamp: m.timestamp }
}

/// The views of a buffer of messages.
pub open spec fn msg_views(s: Seq<Message>) -> Seq<MessageView> {
    s.map_values(|m: Message| m@)
}

/// The report's message is the sent one, with partition and offset populated
/// by the cluster on success.
pub open spec fn report_matches(m: MessageView, rep: DeliveryReport) -> bool {
    match rep.outcome {
        DeliveryOutcome::Success { partition, offset } => rep.message@ == MessageView {
            partition: Some(partition),
            offset: Some(offset),
            ..m
        },
        DeliveryOutcome::Failure { reason } => rep.message@ == m,
    }
}

/// What one flush promises per report, judged against the cluster as it was
/// when the flush began: exactly one report per accepted send; success
/// exactly on the routed partition; unknown topics fail as such; and success
/// is owed whenever the topic exists and its routed log cannot run out of
/// offsets during the flush.
pub open spec fn outcomes_ok(c: Cluster, msgs: Seq<MessageView>, reports: Seq<DeliveryReport>) -> bool {
    &&& reports.len() == msgs.len()
    &&& forall|i: int|
        0 <= i < reports.len() ==> report_matches(msgs[i], #[trigger] reports[i]) && (
        match reports[i].outcome {
            DeliveryOutcome::Success { partition, offset } => c.has_topic(msgs[i].topic)
                && partition == route(msgs[i], c) && offset >= 0,
            DeliveryOutcome::Failure { reason } => (reason == FailureReason::UnknownTopic
                && !c.has_topic(msgs[i].topic)) || (reason == FailureReason::Rejected
                && c.has_topic(msgs[i].topic)),
        })
    &&& forall|i: int|
        0 <= i < reports.len() && c.has_topic(msgs[i].topic) && c.log_len(
            msgs[i].topic,
            route(msgs[i], c),
        ) + msgs.len() <= i64::MAX as int ==> (#[trigger] reports[i]).outcome matches
            DeliveryOutcome::Success { .. }
}

/// Reports to one partition of one topic carry strictly increasing offsets
/// in submission order.
pub open spec fn ordering_ok(msgs: Seq<MessageView>, reports: Seq<DeliveryReport>) -> bool {
    forall|i: int, j: int|
        0 <= i < j < reports.len() && ((#[trigger] reports[i]).outcome matches
            DeliveryOutcome::Success { .. }) && ((#[trigger] reports[j]).outcome matches
            DeliveryOutcome::Success { .. }) && msgs[i].topic == msgs[j].topic
            && reports[i].outcome->Success_partition == reports[j].outcome->Success_partition
            ==> reports[i].outcome->Success_offset < reports[j].outcome->Success_offset
}

/// Every successful report points at its message in the final cluster state.
pub open spec fn placed_ok(c: Cluster, msgs: Seq<MessageView>, reports: Seq<DeliveryReport>) -> bool {
    forall|i: int|
        0 <= i < reports.len() && ((#[trigger] reports[i]).outcome matches
            DeliveryOutcome::Success { .. }) ==> {
            let p = reports[i].outcome->Success_partition as int;
            let o = reports[i].outcome->Success_offset as int;
            0 <= o < c.log_len(msgs[i].topic, p) && c.log(msgs[i].topic, p)[o]@ == stored_of(
                msgs[i],
            )
        }
}

/// Law: two successfully delivered messages with the same key, sent to the
/// same topic in one flush, carry strictly increasing offsets in submission
/// order.
pub proof fn lemma_same_key_ordering(
    c: Cluster,
    msgs: Seq<MessageView>,
    reports: Seq<DeliveryReport>,
    i: int,
    j: int,
)
    requires
        outcomes_ok(c, msgs, reports),
        ordering_ok(msgs, reports),
        0 <= i < j < reports.len(),
        reports[i].outcome matches DeliveryOutcome::Success { .. },
        reports[j].outcome matches DeliveryOutcome::Success { .. },
        msgs[i].key is Some,
        msgs[i].key == msgs[j].key,
        msgs[i].topic == msgs[j].topic,
    ensures
        reports[i].outcome->Success_partition == reports[j].outcome->Success_partition,
        reports[i].outcome->Success_offset < reports[j].outcome->Success_offset,
{
    assert(route(msgs[i], c) == route(msgs[j], c));
}

/// Picks the partition a key routes to.
fn partition_for(key: &Option<Vec<u8>>, count: usize) -> (p: usize)
    requires
        1 <= count <= i32::MAX as usize,
    ensures
        p < count,
        p as int == (match key {
            Some(k) => key_partition(k@, count as int),
            None => 0,
        }),
{
    match key {
        None => 0,
        Some(k) => {
            let mut acc: usize = 0;
            let mut i: usize = 0;
            while i < k.len()
                invariant
                    1 <= count <= i32::MAX as usize,
                    0 <= i <= k@.len(),
                    acc < count,
                    acc as int == byte_sum(k@.subrange(0, i as int)) % (count as int),
                decreases k@.len() - i,
            {
                proof {
                    assert(k@.subrange(0, i as int + 1) =~= k@.subrange(0, i as int).push(
                        k@[i as int],
                    ));
                    assert(k@.subrange(0, i as int + 1).drop_last() =~= k@.subrange(0, i as int));
                    vstd::arithmetic::div_mod::lemma_add_mod_noop(
                        byte_sum(k@.subrange(0, i as int)),
                        k@[i as int] as int,
                        count as int,
                    );
                    vstd::arithmetic::div_mod::lemma_add_mod_noop(
                        byte_sum(k@.subrange(0, i as int)) % (count as int),
                        k@[i as int] as int,
                        count as int,
                    );
                    vstd::arithmetic::div_mod::lemma_mod_twice(
                        byte_sum(k@.subrange(0, i as int)),
                        count as int,
                    );
                    vstd::arithmetic::div_mod::lemma_mod_twice(
                        k@[i as int] as int,
                        count as int,
                    );
                }
                acc = (acc + k[i] as usize) % count;
                i += 1;
            }
            proof {
                assert(k@.subrange(0, k@.len() as int) =~= k@);
            }
            acc
        },
    }
}

/// A message publisher with a bounded local outbound buffer.
///
/// Accepted sends sit in the buffer in submission order until a flush drains
/// them to the cluster, which yields exactly one delivery report per
/// accepted send.
#[derive(Debug)]
pub struct Producer {
    pub buffer: Vec<Message>,
    pub capacity: usize,
    pub closed: bool,
}

impl Producer {
    /// The buffer respects its capacity and every buffered message names a
    /// topic.
    pub open spec fn wf(self) -> bool {
        &&& self.buffer@.len() <= self.capacity
        &&& forall|i: int|
            0 <= i < self.buffer@.len() ==> (#[trigger] self.buffer@[i])@.topic.len() > 0
    }

    /// A producer with an empty buffer of the given capacity.
    pub fn new(capacity: usize) -> (p: Producer)
        requires
            capacity >= 1,
        ensures
            p.wf(),
            p.buffer@.len() == 0,
            p.capacity == capacity,
            !p.closed,
    {
        Producer { buffer: Vec::new(), capacity, closed: false }
    }

    /// Accepts a message into the outbound buffer without blocking. Rejects
    /// messages without a topic, sends after close, and sends beyond the
    /// buffer capacity. The timeout bounds how long the eventual delivery
    /// may stay pending; it does not delay this call.
    pub fn send(&mut self, msg: Message, timeout_ms: u64) -> (r: Result<(), ClientError>)
        requires
            old(self).wf(),
        ensures
            final(self).wf(),
            final(self).capacity == old(self).capacity,
            final(self).closed == old(self).closed,
            (match r {
                Ok(()) => !old(self).closed && msg@.topic.len() > 0 && old(self).buffer@.len()
                    < old(self).capacity && final(self).buffer@ == old(self).buffer@.push(msg),
                Err(e) => final(self).buffer@ == old(self).buffer@ && ((e == ClientError::Closed
                    && old(self).closed) || (e == ClientError::DeliveryFailure(
                    FailureReason::EmptyTopic,
                ) && !old(self).closed && msg@.topic.len() == 0) || (e == ClientError::QueueFull
                    && !old(self).closed && msg@.topic.len() > 0 && old(self).buffer@.len() == old(
                    self,
                ).capacity)),
            }),
    {
        if self.closed {
            return Err(ClientError::Closed);
        }
        if msg.topic.as_str().is_empty() {
            return Err(ClientError::DeliveryFailure(FailureReason::EmptyTopic));
        }
        if self.buffer.len() >= self.capacity {
            return Err(ClientError::QueueFull);
        }
        self.buffer.push(msg);
        Ok(())
    }

    /// Drains the buffer to the cluster in submission order and returns one
    /// delivery report per buffered message: success with the assigned
    /// partition and offset, or a failure that names its reason.
    pub fn flush(&mut self, c: &mut Cluster) -> (reports: Vec<DeliveryReport>)
        requires
            old(self).wf(),
            old(c).wf(),
        ensures
            final(self).wf(),
            final(self).buffer@.len() == 0,
            final(self).capacity == old(self).capacity,
            final(self).closed == old(self).closed,
            final(c).wf(),
            final(c).groups@ == old(c).groups@,
            final(c).topics@.len() == old(c).topics@.len(),
            forall|i: int|
                0 <= i < final(c).topics@.len() ==> (#[trigger] final(c).topics@[i]).name@ == old(
                    c,
                ).topics@[i].name@ && final(c).topics@[i].partitions@.len() == old(
                    c,
                ).topics@[i].partitions@.len(),
            forall|ti: int, p: int|
                0 <= ti < old(c).topics@.len() && 0 <= p < old(c).topics@[ti].partitions@.len()
                    ==> old(c).topics@[ti].partitions@[p]@.is_prefix_of(
                    (#[trigger] final(c).topics@[ti].partitions@[p])@,
                ),
            forall|ti: int, p: int|
                0 <= ti < old(c).topics@.len() && 0 <= p < old(c).topics@[ti].partitions@.len()
                    ==> (#[trigger] final(c).topics@[ti].partitions@[p])@.len() <= old(
                    c,
                ).topics@[ti].partitions@[p]@.len() + reports@.len(),
            outcomes_ok(*old(c), msg_views(old(self).buffer@), reports@),
            ordering_ok(msg_views(old(self).buffer@), reports@),
            placed_ok(*final(c), msg_views(old(self).buffer@), reports@),
    {
        let mut msgs: Vec<Message> = Vec::new();
        core::mem::swap(&mut msgs, &mut self.buffer);
        let ghost orig = msg_views(msgs@);
        let ghost c0 = *c;
        let mut reports: Vec<DeliveryReport> = Vec::new();
        while msgs.len() > 0
            invariant
                self.wf(),
                self.buffer@.len() == 0,
                self.capacity == old(self).capacity,
                self.closed == old(self).closed,
                c.wf(),
                c0 == *old(c),
                c.groups@ == c0.groups@,
                c.topics@.len() == c0.topics@.len(),
                forall|i: int|
                    0 <= i < c.topics@.len() ==> (#[trigger] c.topics@[i]).name@
                        == c0.topics@[i].name@ && c.topics@[i].partitions@.len()
                        == c0.topics@[i].partitions@.len(),
                forall|t: Seq<char>| #[trigger] c.topic_i(t) == c0.topic_i(t),
                forall|ti: int, p: int|
                    0 <= ti < c0.topics@.len() && 0 <= p < c0.topics@[ti].partitions@.len()
                        ==> c0.topics@[ti].partitions@[p]@.is_prefix_of(
                        (#[trigger] c.topics@[ti].partitions@[p])@,
                    ),
                forall|ti: int, p: int|
                    0 <= ti < c0.topics@.len() && 0 <= p < c0.topics@[ti].partitions@.len() ==> (
                    #[trigger] c.topics@[ti].partitions@[p])@.len()
                        <= c0.topics@[ti].partitions@[p]@.len() + reports@.len(),
                orig == msg_views(old(self).buffer@),
                reports@.len() + msgs@.len() == orig.len(),
                msg_views(msgs@) == orig.subrange(reports@.len() as int, orig.len() as int),
                outcomes_ok(c0, orig.subrange(0, reports@.len() as int), reports@),
                ordering_ok(orig, reports@),
                placed_ok(*c, orig.subrange(0, reports@.len() as int), reports@),
            decreases msgs@.len(),
        {
            let ghost k = reports@.len() as int;
            let ghost pre = *c;
            let ghost premsgs = msgs@;
            let msg = msgs.remove(0);
            proof {
                assert forall|i: int|
                    0 <= i < msgs@.len() implies msg_views(msgs@)[i] == orig.subrange(
                    k + 1,
                    orig.len() as int,
                )[i] by {
                    assert(msgs@[i] == premsgs[i + 1]);
                    assert(msg_views(premsgs)[i + 1] == premsgs[i + 1]@);
                    assert(msg_views(msgs@)[i] == msgs@[i]@);
                    assert(orig.subrange(k, orig.len() as int)[i + 1] == orig[k + 1 + i]);
                }
                assert(msg_views(msgs@) =~= orig.subrange(k + 1, orig.len() as int));
                assert(msg_views(premsgs)[0] == premsgs[0]@);
                assert(orig.subrange(k, orig.len() as int)[0] == orig[k]);
                assert(msg@ == orig[k]);
            }
            let ghost mut app: Option<(int, int)> = None::<(int, int)>;
            let rep: DeliveryReport = match c.find_topic_idx(&msg.topic) {
                None => DeliveryReport {
                    message: msg,
                    outcome: DeliveryOutcome::Failure { reason: FailureReason::UnknownTopic },
                },
                Some(ti) => {
                    let count = c.topics[ti].partitions.len();
                    let p = partition_for(&msg.key, count);
                    let rec = StoredRecord {
                        key: clone_opt_bytes(&msg.key),
                        payload: clone_bytes(&msg.payload),
                        headers: clone_headers(&msg.headers),
                        timestamp: msg.timestamp,
                    };
                    proof {
                        assert(rec@ == stored_of(orig[k]));
                        assert(c.n_partitions(msg.topic@) == c0.n_partitions(msg.topic@));
                        assert(p as int == route(orig[k], c0));
                    }
                    match c.append(&msg.topic, p, rec) {
                        Ok(off) => {
                            proof {
                                app = Some((ti as int, p as int));
                            }
                            let Message {
                                key,
                                payload,
                                headers,
                                topic,
                                partition: _,
                                offset: _,
                                timestamp,
                            } = msg;
                            let m2 = Message {
                                key,
                                payload,
                                headers,
                                topic,
                                partition: Some(p as i32),
                                offset: Some(off),
                                timestamp,
                            };
                            proof {
                                assert(m2@ == MessageView {
                                    partition: Some(p as i32),
                                    offset: Some(off),
                                    ..orig[k]
                                });
                            }
                            DeliveryReport {
                                message: m2,
                                outcome: DeliveryOutcome::Success {
                                    partition: p as i32,
                                    offset: off,
                                },
                            }
                        },
                        Err(_) => DeliveryReport {
                            message: msg,
                            outcome: DeliveryOutcome::Failure {
                                reason: FailureReason::Rejected,
                            },
                        },
                    }
                },
            };
            let ghost oldreports = reports@;
            reports.push(rep);
            proof {
                let tk = orig[k].topic;
                let sub0 = orig.subrange(0, k);
                let sub1 = orig.subrange(0, k + 1);
                assert(sub1 =~= sub0.push(orig[k]));
                assert(sub1[k] == orig[k]);
                // Names and partition counts are untouched.
                assert forall|i: int|
                    0 <= i < c.topics@.len() implies (#[trigger] c.topics@[i]).name@
                    == c0.topics@[i].name@ && c.topics@[i].partitions@.len()
                    == c0.topics@[i].partitions@.len() by {}
                assert forall|t: Seq<char>| #[trigger] c.topic_i(t) == c0.topic_i(t) by {
                    crate::cluster::lemma_find_topic_same(c0.topics@, c.topics@, t);
                }
                let ghost ak = c0.topic_i(tk);
                if app is Some {
                    let (ati, ap) = app->0;
                    assert(ati == ak);
                    assert(c.topic_i(tk) == ati && pre.topic_i(tk) == ati);
                    assert(c.topics@[ati].partitions@[ap]@.len() == pre.topics@[
                        ati].partitions@[ap]@.len() + 1);
                    assert forall|x: int|
                        0 <= x < pre.topics@[ati].partitions@[ap]@.len() implies (
                    #[trigger] c.topics@[ati].partitions@[ap]@[x]) == pre.topics@[
                        ati].partitions@[ap]@[x] by {
                        assert(c.log(tk, ap)[x] == pre.log(tk, ap).push(
                            c.log(tk, ap).last(),
                        )[x]);
                    }
                }
                // Prefix and growth, relative to the previous iteration state
                // and to the initial cluster.
                assert forall|ti: int, p2: int|
                    0 <= ti < c0.topics@.len() && 0 <= p2
                        < c0.topics@[ti].partitions@.len() implies ((
                    #[trigger] c0.topics@[ti].partitions@[p2])@.is_prefix_of(
                        c.topics@[ti].partitions@[p2]@,
                    ) && pre.topics@[ti].partitions@[p2]@.is_prefix_of(
                        c.topics@[ti].partitions@[p2]@,
                    ) && c.topics@[ti].partitions@[p2]@.len()
                        <= c0.topics@[ti].partitions@[p2]@.len() + (k + 1)) by {
                    assert(c0.topics@[ti].partitions@[p2]@.is_prefix_of(
                        pre.topics@[ti].partitions@[p2]@,
                    ));
                    if !(app == Some((ti, p2))) {
                        assert(c.topics@[ti].partitions@[p2] == pre.topics@[ti].partitions@[p2]);
                    }
                    assert(pre.topics@[ti].partitions@[p2]@ =~= c.topics@[
                        ti].partitions@[p2]@.subrange(
                        0,
                        pre.topics@[ti].partitions@[p2]@.len() as int,
                    ));
                    assert(c0.topics@[ti].partitions@[p2]@ =~= c.topics@[
                        ti].partitions@[p2]@.subrange(
                        0,
                        c0.topics@[ti].partitions@[p2]@.len() as int,
                    ));
                }
                // The new report meets the per-report promises.
                assert(report_matches(sub1[k], reports@[k]));
                assert forall|i: int|
                    0 <= i < reports@.len() implies report_matches(sub1[i], #[trigger] reports@[i])
                        && (match reports@[i].outcome {
                        DeliveryOutcome::Success { partition, offset } => c0.has_topic(
                            sub1[i].topic,
                        ) && partition == route(sub1[i], c0) && offset >= 0,
                        DeliveryOutcome::Failure { reason } => (reason
                            == FailureReason::UnknownTopic && !c0.has_topic(sub1[i].topic)) || (
                        reason == FailureReason::Rejected && c0.has_topic(sub1[i].topic)),
                    }) by {
                    if i < k {
                        assert(reports@[i] == oldreports[i]);
                        assert(sub1[i] == sub0[i]);
                    }
                }
                // Success stays owed when the routed log cannot fill up.
                assert forall|i: int|
                    0 <= i < reports@.len() && c0.has_topic(sub1[i].topic) && c0.log_len(
                        sub1[i].topic,
                        route(sub1[i], c0),
                    ) + orig.len() <= i64::MAX as int implies (#[trigger] reports@[i]).outcome
                        matches DeliveryOutcome::Success { .. } by {
                    if i < k {
                        assert(reports@[i] == oldreports[i]);
                        assert(sub1[i] == sub0[i]);
                    } else {
                        if !(reports@[k].outcome matches DeliveryOutcome::Success { .. }) {
                            assert(c0.has_topic(tk) ==> pre.log_len(tk, route(orig[k], c0))
                                == i64::MAX as int);
                            assert(pre.topics@[ak].partitions@[route(orig[k], c0)]@.len()
                                <= c0.topics@[ak].partitions@[route(orig[k], c0)]@.len() + k);
                        }
                    }
                }
                // Strictly increasing offsets per routed partition.
                assert forall|i: int, j: int|
                    0 <= i < j < reports@.len() && ((#[trigger] reports@[i]).outcome matches
                        DeliveryOutcome::Success { .. }) && ((#[trigger] reports@[j]).outcome
                        matches DeliveryOutcome::Success { .. }) && orig[i].topic == orig[j].topic
                        && reports@[i].outcome->Success_partition
                        == reports@[j].outcome->Success_partition implies reports@[
                    i].outcome->Success_offset < reports@[j].outcome->Success_offset by {
                    if j < k {
                        assert(reports@[i] == oldreports[i]);
                        assert(reports@[j] == oldreports[j]);
                    } else {
                        assert(reports@[i] == oldreports[i]);
                        assert(sub0[i] == orig[i]);
                        let pi = reports@[i].outcome->Success_partition as int;
                        let oi = reports@[i].outcome->Success_offset as int;
                        assert(oi < pre.log_len(orig[i].topic, pi));
                        assert(reports@[k].outcome->Success_offset as int == pre.log_len(
                            orig[k].topic,
                            reports@[k].outcome->Success_partition as int,
                        ));
                    }
                }
                // Every success still points at its message.
                assert forall|i: int|
                    0 <= i < reports@.len() && ((#[trigger] reports@[i]).outcome matches
                        DeliveryOutcome::Success { .. }) implies {
                    let p2 = reports@[i].outcome->Success_partition as int;
                    let o = reports@[i].outcome->Success_offset as int;
                    0 <= o < c.log_len(sub1[i].topic, p2) && c.log(sub1[i].topic, p2)[o]@
                        == stored_of(sub1[i])
                } by {
                    let p2 = reports@[i].outcome->Success_partition as int;
                    let o = reports@[i].outcome->Success_offset as int;
                    if i < k {
                        assert(reports@[i] == oldreports[i]);
                        assert(sub1[i] == sub0[i]);
                        assert(o < pre.log_len(sub0[i].topic, p2));
                        assert(pre.log(sub0[i].topic, p2)[o]@ == stored_of(sub0[i]));
                        let ati = c0.topic_i(sub0[i].topic);
                        assert(pre.topic_i(sub0[i].topic) == ati);
                        assert(c.topic_i(sub0[i].topic) == ati);
                        crate::cluster::lemma_find_topic_char(c0.topics@, sub0[i].topic);
                        assert(0 <= ati < c0.topics@.len());
                        assert(0 <= p2 < c0.topics@[ati].partitions@.len());
                        assert(pre.topics@[ati].partitions@[p2]@.is_prefix_of(c.topics@[
                            ati].partitions@[p2]@));
                        assert(c.log(sub0[i].topic, p2)[o] == c.topics@[
                            ati].partitions@[p2]@.subrange(
                            0,
                            pre.topics@[ati].partitions@[p2]@.len() as int,
                        )[o]);
                        assert(c.log(sub0[i].topic, p2)[o] == pre.log(sub0[i].topic, p2)[o]);
                    } else {
                        assert(sub1[k] == orig[k]);
                    }
                }
            }
        }
        proof {
            assert(orig.subrange(0, orig.len() as int) =~= orig);
        }
        reports
    }

    /// Flushes every pending send, reports each, and closes the producer:
    /// later sends fail with the closed error.
    pub fn close(&mut self, c: &mut Cluster) -> (reports: Vec<DeliveryReport>)
        requires
            old(self).wf(),
            old(c).wf(),
        ensures
            final(self).wf(),
            final(self).buffer@.len() == 0,
            final(self).capacity == old(self).capacity,
            final(self).closed,
            final(c).wf(),
            final(c).groups@ == old(c).groups@,
            final(c).topics@.len() == old(c).topics@.len(),
            forall|i: int|
                0 <= i < final(c).topics@.len() ==> (#[trigger] final(c).topics@[i]).name@ == old(
                    c,
                ).topics@[i].name@ && final(c).topics@[i].partitions@.len() == old(
                    c,
                ).topics@[i].partitions@.len(),
            forall|ti: int, p: int|
                0 <= ti < old(c).topics@.len() && 0 <= p < old(c).topics@[ti].partitions@.len()
                    ==> old(c).topics@[ti].partitions@[p]@.is_prefix_of(
                    (#[trigger] final(c).topics@[ti].partitions@[p])@,
                ),
            forall|ti: int, p: int|
                0 <= ti < old(c).topics@.len() && 0 <= p < old(c).topics@[ti].partitions@.len()
                    ==> (#[trigger] final(c).topics@[ti].partitions@[p])@.len() <= old(
                    c,
                ).topics@[ti].partitions@[p]@.len() + reports@.len(),
            outcomes_ok(*old(c), msg_views(old(self).buffer@), reports@),
            ordering_ok(msg_views(old(self).buffer@), reports@),
            placed_ok(*final(c), msg_views(old(self).buffer@), reports@),
    {
        let reports = self.flush(c);
        self.closed = true;
        reports
    }
}

} // verus!
