//! The client facade: composes address handling, topic administration,
//! production and consumption behind the operations the command line
//! dispatches.

use vstd::prelude::*;

use crate::cluster::Cluster;
use crate::consumer::ConsumerEvent;
use crate::consumer::ConsumerGroup;
use crate::consumer::EventView;
use crate::consumer::lemma_member_target_distinct;
use crate::consumer::lemma_member_target_elem;
use crate::consumer::lemma_member_target_same_topics;
use crate::consumer::lemma_polled_same_topics;
use crate::consumer::member_index;
use crate::consumer::member_target;
use crate::consumer::resume_at;
use crate::consumer::pa_views;
use crate::consumer::polled;
use crate::consumer::record_events;
use crate::consumer::note_events;
use crate::consumer::ev_views;
use crate::errors::ClientError;
use crate::message::DeliveryReport;
use crate::message::Message;
use crate::models::Broker;
use crate::producer::Producer;
use crate::producer::msg_views;
use crate::producer::ordering_ok;
use crate::producer::outcomes_ok;
use crate::producer::placed_ok;

verus! {

/// Every message of a steady poll batch is a genuine stored record of the
/// cluster at the coordinates the message itself declares.
pub proof fn lemma_polled_elem(c: Cluster, assign: Seq<(Seq<char>, i32)>, pos: Seq<i64>, x: int)
    requires
        c.wf(),
        assign.len() == pos.len(),
        0 <= x < polled(c, assign, pos).len(),
        forall|k: int|
            0 <= k < assign.len() ==> c.has_topic((#[trigger] assign[k]).0) && 0 <= assign[k].1
                < c.n_partitions(assign[k].0),
        forall|k: int| 0 <= k < pos.len() ==> #[trigger] pos[k] >= 0,
    ensures
        ({
            let m = polled(c, assign, pos)[x];
            &&& m.partition matches Some(p)
            &&& m.offset matches Some(o)
            &&& c.has_topic(m.topic)
            &&& 0 <= m.partition->0 < c.n_partitions(m.topic)
            &&& 0 <= m.offset->0 < c.log_len(m.topic, m.partition->0 as int)
            &&& m == c.stored_msg(m.topic, m.partition->0 as int, m.offset->0 as int)
            &&& assign.contains((m.topic, m.partition->0))
        }),
    decreases assign.len(),
{
    let t = assign[0].0;
    let p = assign[0].1;
    let from = if pos[0] <= c.log_len(t, p as int) {
        pos[0] as int
    } else {
        c.log_len(t, p as int)
    };
    let head = c.records_from(t, p as int, from);
    crate::cluster::lemma_find_topic_char(c.topics@, t);
    assert(c.topics@[c.topic_i(t)].partitions@[p as int]@.len() <= i64::MAX as int);
    if x < head.len() {
        assert(head[x] == c.stored_msg(t, p as int, from + x));
        assert(assign[0] == (t, p));
        assert(assign.contains((t, p)));
    } else {
        assert forall|k: int|
            0 <= k < assign.drop_first().len() implies c.has_topic(
            (#[trigger] assign.drop_first()[k]).0,
        ) && 0 <= assign.drop_first()[k].1 < c.n_partitions(assign.drop_first()[k].0) by {
            assert(assign.drop_first()[k] == assign[k + 1]);
        }
        assert forall|k: int|
            0 <= k < pos.drop_first().len() implies #[trigger] pos.drop_first()[k] >= 0 by {
            assert(pos.drop_first()[k] == pos[k + 1]);
        }
        lemma_polled_elem(c, assign.drop_first(), pos.drop_first(), x - head.len());
        let m = polled(c, assign, pos)[x];
        let w = choose|w: int|
            0 <= w < assign.drop_first().len() && assign.drop_first()[w] == (
                m.topic,
                m.partition->0,
            );
        assert(assign[w + 1] == (m.topic, m.partition->0));
        assert(assign.contains((m.topic, m.partition->0)));
    }
}

/// Law (exactly once, one member): within one steady poll batch over a
/// duplicate-free grant, two distinct batch positions always name distinct
/// coordinates — no stored record is delivered twice.
pub proof fn lemma_polled_exactly_once(
    c: Cluster,
    assign: Seq<(Seq<char>, i32)>,
    pos: Seq<i64>,
    i: int,
    j: int,
)
    requires
        c.wf(),
        assign.len() == pos.len(),
        forall|k: int|
            0 <= k < assign.len() ==> c.has_topic((#[trigger] assign[k]).0) && 0 <= assign[k].1
                < c.n_partitions(assign[k].0),
        forall|k: int| 0 <= k < pos.len() ==> #[trigger] pos[k] >= 0,
        forall|a: int, b: int|
            0 <= a < b < assign.len() ==> #[trigger] assign[a] != #[trigger] assign[b],
        0 <= i < j < polled(c, assign, pos).len(),
    ensures
        ({
            let mi = polled(c, assign, pos)[i];
            let mj = polled(c, assign, pos)[j];
            !(mi.topic == mj.topic && mi.partition == mj.partition && mi.offset == mj.offset)
        }),
    decreases assign.len(),
{
    let t = assign[0].0;
    let p = assign[0].1;
    let from = if pos[0] <= c.log_len(t, p as int) {
        pos[0] as int
    } else {
        c.log_len(t, p as int)
    };
    let head = c.records_from(t, p as int, from);
    let s = polled(c, assign, pos);
    crate::cluster::lemma_find_topic_char(c.topics@, t);
    assert(c.topics@[c.topic_i(t)].partitions@[p as int]@.len() <= i64::MAX as int);
    if j < head.len() {
        assert(s[i] == c.stored_msg(t, p as int, from + i));
        assert(s[j] == c.stored_msg(t, p as int, from + j));
        assert(s[i].offset == Some((from + i) as i64));
        assert(s[j].offset == Some((from + j) as i64));
    } else if i >= head.len() {
        assert forall|k: int|
            0 <= k < assign.drop_first().len() implies c.has_topic(
            (#[trigger] assign.drop_first()[k]).0,
        ) && 0 <= assign.drop_first()[k].1 < c.n_partitions(assign.drop_first()[k].0) by {
            assert(assign.drop_first()[k] == assign[k + 1]);
        }
        assert forall|k: int|
            0 <= k < pos.drop_first().len() implies #[trigger] pos.drop_first()[k] >= 0 by {
            assert(pos.drop_first()[k] == pos[k + 1]);
        }
        assert forall|a: int, b: int|
            0 <= a < b < assign.drop_first().len() implies #[trigger] assign.drop_first()[a]
            != #[trigger] assign.drop_first()[b] by {
            assert(assign.drop_first()[a] == assign[a + 1]);
            assert(assign.drop_first()[b] == assign[b + 1]);
        }
        lemma_polled_exactly_once(
            c,
            assign.drop_first(),
            pos.drop_first(),
            i - head.len(),
            j - head.len(),
        );
    } else {
        assert(s[i] == c.stored_msg(t, p as int, from + i));
        assert((s[i].topic, s[i].partition->0) == (t, p));
        assert forall|k: int|
            0 <= k < assign.drop_first().len() implies c.has_topic(
            (#[trigger] assign.drop_first()[k]).0,
        ) && 0 <= assign.drop_first()[k].1 < c.n_partitions(assign.drop_first()[k].0) by {
            assert(assign.drop_first()[k] == assign[k + 1]);
        }
        assert forall|k: int|
            0 <= k < pos.drop_first().len() implies #[trigger] pos.drop_first()[k] >= 0 by {
            assert(pos.drop_first()[k] == pos[k + 1]);
        }
        lemma_polled_elem(c, assign.drop_first(), pos.drop_first(), j - head.len());
        let mj = s[j];
        assert(assign.drop_first().contains((mj.topic, mj.partition->0)));
        let w = choose|w: int|
            0 <= w < assign.drop_first().len() && assign.drop_first()[w] == (
                mj.topic,
                mj.partition->0,
            );
        assert(assign[w + 1] == (mj.topic, mj.partition->0));
        assert(assign[0] != assign[w + 1]);
    }
}

/// Law (exactly once, across the group): records polled by two distinct
/// live members of one group never coincide, because their grants are
/// disjoint.
pub proof fn lemma_cross_member_no_duplicate(
    c: Cluster,
    sub: Seq<Seq<char>>,
    n: int,
    i: int,
    j: int,
    pos_i: Seq<i64>,
    pos_j: Seq<i64>,
    x: int,
    y: int,
)
    requires
        c.wf(),
        0 <= i < n,
        0 <= j < n,
        i != j,
        pos_i.len() == member_target(c, sub, n, i).len(),
        pos_j.len() == member_target(c, sub, n, j).len(),
        forall|k: int| 0 <= k < pos_i.len() ==> #[trigger] pos_i[k] >= 0,
        forall|k: int| 0 <= k < pos_j.len() ==> #[trigger] pos_j[k] >= 0,
        0 <= x < polled(c, member_target(c, sub, n, i), pos_i).len(),
        0 <= y < polled(c, member_target(c, sub, n, j), pos_j).len(),
    ensures
        ({
            let mx = polled(c, member_target(c, sub, n, i), pos_i)[x];
            let my = polled(c, member_target(c, sub, n, j), pos_j)[y];
            !(mx.topic == my.topic && mx.partition == my.partition)
        }),
{
    let ti = member_target(c, sub, n, i);
    let tj = member_target(c, sub, n, j);
    assert forall|k: int|
        0 <= k < ti.len() implies c.has_topic((#[trigger] ti[k]).0) && 0 <= ti[k].1
            < c.n_partitions(ti[k].0) by {
        assert(ti.contains(ti[k]));
        lemma_member_target_elem(c, sub, n, i, ti[k]);
    }
    assert forall|k: int|
        0 <= k < tj.len() implies c.has_topic((#[trigger] tj[k]).0) && 0 <= tj[k].1
            < c.n_partitions(tj[k].0) by {
        assert(tj.contains(tj[k]));
        lemma_member_target_elem(c, sub, n, j, tj[k]);
    }
    lemma_polled_elem(c, ti, pos_i, x);
    lemma_polled_elem(c, tj, pos_j, y);
    let mx = polled(c, ti, pos_i)[x];
    let my = polled(c, tj, pos_j)[y];
    if mx.topic == my.topic && mx.partition == my.partition {
        crate::consumer::lemma_assignment_disjoint(
            c,
            sub,
            n,
            i,
            j,
            (mx.topic, mx.partition->0),
        );
    }
}

/// The grant a brand-new member receives on joining group `g` with this
/// subscription: it takes the last position among the members.
pub open spec fn fresh_member_target(c: Cluster, g: Seq<char>, topics: Seq<Seq<char>>) -> Seq<
    (Seq<char>, i32),
> {
    let n = (if c.has_group(g) {
        c.members(g).len() as int
    } else {
        0
    }) + 1;
    member_target(c, crate::cluster::spec_dedup(topics), n, n - 1)
}

/// Where consumption starts on each granted partition: the group's
/// committed offset, clamped to the log end.
pub open spec fn resume_positions(c: Cluster, g: Seq<char>, assign: Seq<(Seq<char>, i32)>) -> Seq<
    i64,
> {
    Seq::new(assign.len(), |k: int| resume_at(c, g, assign[k].0, assign[k].1) as i64)
}

/// The client handle the command line dispatches through: a validated set
/// of bootstrap endpoints.
#[derive(Debug)]
pub struct ClientFacade {
    pub brokers: Vec<Broker>,
}

impl ClientFacade {
    /// A facade over one or more bootstrap endpoints; with none the cluster
    /// is unreachable.
    pub fn connect(brokers: Vec<Broker>) -> (r: Result<ClientFacade, ClientError>)
        ensures
            (match r {
                Ok(f) => brokers@.len() > 0 && f.brokers@ == brokers@,
                Err(e) => e == ClientError::ClusterUnavailable && brokers@.len() == 0,
            }),
    {
        if brokers.len() == 0 {
            return Err(ClientError::ClusterUnavailable);
        }
        Ok(ClientFacade { brokers })
    }

    /// Sends a batch of messages to the cluster and waits for every
    /// delivery report, one per message, in submission order. A message
    /// without a topic fails the whole batch before anything is sent.
    pub fn push_messages(&self, c: &mut Cluster, msgs: Vec<Message>) -> (r: Result<
        Vec<DeliveryReport>,
        ClientError,
    >)
        requires
            old(c).wf(),
        ensures
            final(c).wf(),
            final(c).groups@ == old(c).groups@,
            (match r {
                Ok(reports) => outcomes_ok(*old(c), msg_views(msgs@), reports@) && ordering_ok(
                    msg_views(msgs@),
                    reports@,
                ) && placed_ok(*final(c), msg_views(msgs@), reports@),
                Err(e) => e == ClientError::DeliveryFailure(
                    crate::errors::FailureReason::EmptyTopic,
                ) && *final(c) == *old(c) && (exists|i: int|
                    0 <= i < msgs@.len() && (#[trigger] msgs@[i])@.topic.len() == 0),
            }),
    {
        let n = if msgs.len() == 0 {
            1
        } else {
            msgs.len()
        };
        let mut i: usize = 0;
        while i < msgs.len()
            invariant
                *c == *old(c),
                c.wf(),
                0 <= i <= msgs@.len(),
                forall|x: int| 0 <= x < i ==> (#[trigger] msgs@[x])@.topic.len() > 0,
            decreases msgs@.len() - i,
        {
            if msgs[i].topic.as_str().is_empty() {
                return Err(ClientError::DeliveryFailure(crate::errors::FailureReason::EmptyTopic));
            }
            i += 1;
        }
        let mut producer = Producer::new(n);
        let mut msgs = msgs;
        let ghost msgs0 = msgs@;
        let ghost orig = msg_views(msgs@);
        proof {
            assert forall|x: int|
                0 <= x < orig.len() implies (#[trigger] orig[x]).topic.len() > 0 by {
                assert(orig[x] == msgs0[x]@);
            }
        }
        while msgs.len() > 0
            invariant
                *c == *old(c),
                c.wf(),
                forall|x: int| 0 <= x < orig.len() ==> (#[trigger] orig[x]).topic.len() > 0,
                producer.wf(),
                !producer.closed,
                producer.capacity == n,
                n >= 1,
                orig == msg_views(msgs0),
                orig.len() <= n,
                orig.len() == producer.buffer@.len() + msgs@.len(),
                msg_views(msgs@) == orig.subrange(
                    producer.buffer@.len() as int,
                    orig.len() as int,
                ),
                msg_views(producer.buffer@) == orig.subrange(0, producer.buffer@.len() as int),
            decreases msgs@.len(),
        {
            let ghost done = producer.buffer@.len() as int;
            let ghost premsgs = msgs@;
            let ghost prebuf = producer.buffer@;
            let m = msgs.remove(0);
            proof {
                assert(msg_views(premsgs)[0] == premsgs[0]@);
                assert(orig.subrange(done, orig.len() as int)[0] == orig[done]);
                assert(m@ == orig[done]);
                assert forall|x: int|
                    0 <= x < msgs@.len() implies #[trigger] msg_views(msgs@)[x] == orig.subrange(
                    done + 1,
                    orig.len() as int,
                )[x] by {
                    assert(msgs@[x] == premsgs[x + 1]);
                    assert(msg_views(premsgs)[x + 1] == premsgs[x + 1]@);
                    assert(msg_views(msgs@)[x] == msgs@[x]@);
                    assert(orig.subrange(done, orig.len() as int)[x + 1] == orig[done + 1 + x]);
                }
                assert(msg_views(msgs@) =~= orig.subrange(done + 1, orig.len() as int));
            }
            match producer.send(m, 0) {
                Ok(()) => {
                    proof {
                        assert forall|x: int|
                            0 <= x < producer.buffer@.len() implies #[trigger] msg_views(
                            producer.buffer@,
                        )[x] == orig.subrange(0, done + 1)[x] by {
                            if x < done {
                                assert(producer.buffer@[x] == prebuf[x]);
                                assert(msg_views(prebuf)[x] == prebuf[x]@);
                            } else {
                                assert(producer.buffer@[x] == producer.buffer@.last());
                            }
                        }
                        assert(msg_views(producer.buffer@) =~= orig.subrange(0, done + 1));
                    }
                },
                Err(e) => {
                    proof {
                        assert(orig[done].topic.len() > 0);
                        assert(false);
                    }
                    return Err(e);
                },
            }
        }
        proof {
            assert(msg_views(producer.buffer@) =~= orig.subrange(0, orig.len() as int));
            assert(orig.subrange(0, orig.len() as int) =~= orig);
        }
        let reports = producer.flush(c);
        Ok(reports)
    }

    /// One consumption round for a fresh consumer: joins the group,
    /// completes the rebalance, fetches every available record of the owned
    /// partitions once, and leaves the group. Every returned message is a
    /// stored record of the cluster at the topic, partition and offset the
    /// message itself declares.
    pub fn pull_round(&self, c: &mut Cluster, group: &String, topics: &Vec<String>) -> (r: Result<
        Vec<Message>,
        ClientError,
    >)
        requires
            old(c).wf(),
        ensures
            final(c).wf(),
            final(c).topics@ == old(c).topics@,
            (match r {
                Ok(ms) => ({
                    let target = fresh_member_target(
                        *old(c),
                        group@,
                        crate::models::str_views(topics@),
                    );
                    &&& crate::producer::msg_views(ms@) == polled(
                        *old(c),
                        target,
                        resume_positions(*old(c), group@, target),
                    )
                    &&& final(c).has_group(group@)
                    &&& final(c).members(group@) == (if old(c).has_group(group@) {
                        old(c).members(group@)
                    } else {
                        Seq::<u64>::empty()
                    })
                    &&& (forall|t: Seq<char>, pp: i32|
                        final(c).committed(group@, t, pp) == old(c).committed(group@, t, pp))
                    &&& (forall|i: int, j: int|
                        0 <= i < j < ms@.len() ==> !((#[trigger] ms@[i])@.topic == (
                        #[trigger] ms@[j])@.topic && ms@[i]@.partition == ms@[j]@.partition
                            && ms@[i]@.offset == ms@[j]@.offset))
                    &&& forall|i: int|
                        0 <= i < ms@.len() ==> ({
                            let m = (#[trigger] ms@[i])@;
                            &&& m.partition matches Some(p)
                            &&& m.offset matches Some(o)
                            &&& old(c).has_topic(m.topic)
                            &&& 0 <= m.partition->0 < old(c).n_partitions(m.topic)
                            &&& 0 <= m.offset->0 < old(c).log_len(m.topic, m.partition->0 as int)
                            &&& m == old(c).stored_msg(m.topic, m.partition->0 as int, m.offset->0 as int)
                        })
                }),
                Err(e) => e == ClientError::ClusterUnavailable && *final(c) == *old(c),
            }),
    {
        let mut consumer = ConsumerGroup::new(group.clone());
        match consumer.subscribe(c, topics) {
            Ok(()) => (),
            Err(e) => {
                return Err(e);
            },
        }
        let ghost mid = *c;
        let ghost g = consumer.group@;
        let ghost id = consumer.member_id;
        let ghost oldm = if old(c).has_group(g) {
            old(c).members(g)
        } else {
            Seq::<u64>::empty()
        };
        proof {
            assert(mid.members(g) == oldm.push(id));
            assert(mid.members(g).last() == id);
            assert(mid.members(g).contains(id));
            // The fresh member sits at the last position.
            let mi = member_index(mid, g, id);
            assert(mid.members(g)[mi] == id && 0 <= mi < mid.members(g).len());
            if mi < oldm.len() {
                assert(mid.members(g)[mi] == oldm[mi]);
                assert(oldm.contains(id));
                assert(old(c).has_group(g));
                assert(false);
            }
            assert(mi == oldm.len());
        }
        let r1 = consumer.poll(c, 0);
        match r1 {
            Ok(_) => (),
            Err(_) => {
                proof {
                    assert(false);
                }
                return Err(ClientError::ClusterUnavailable);
            },
        }
        let r2 = consumer.poll(c, 0);
        match r2 {
            Ok(_) => (),
            Err(_) => {
                proof {
                    assert(false);
                }
                return Err(ClientError::ClusterUnavailable);
            },
        }
        let ghost av = pa_views(consumer.assignment@);
        let ghost pos0 = consumer.positions@;
        let mut evs = match consumer.poll(c, 0) {
            Ok(evs) => evs,
            Err(_) => {
                proof {
                    assert(false);
                }
                return Err(ClientError::ClusterUnavailable);
            },
        };
        let ghost recs = polled(mid, av, pos0);
        let ghost target = fresh_member_target(*old(c), g, crate::models::str_views(topics@));
        proof {
            assert(note_events(Seq::<(crate::message::OffsetCommit, bool)>::empty()) =~= Seq::<
                EventView,
            >::empty());
            assert(ev_views(evs@) =~= record_events(recs));
            assert(evs@.len() == recs.len());
            // The grant and resume positions, restated over the cluster as
            // the caller handed it in: joining changed no topic.
            assert(av == member_target(
                mid,
                mid.subscription(g),
                mid.members(g).len() as int,
                oldm.len() as int,
            ));
            lemma_member_target_same_topics(
                mid,
                *old(c),
                mid.subscription(g),
                mid.members(g).len() as int,
                oldm.len() as int,
            );
            assert(av == target);
            assert forall|k: int|
                0 <= k < av.len() implies #[trigger] pos0[k] == resume_positions(
                *old(c),
                g,
                av,
            )[k] by {
                assert(pos0[k] as int == resume_at(mid, g, av[k].0, av[k].1));
                assert(mid.committed(g, av[k].0, av[k].1) == old(c).committed(
                    g,
                    av[k].0,
                    av[k].1,
                ));
                assert(mid.topic_i(av[k].0) == old(c).topic_i(av[k].0));
                assert(mid.log_len(av[k].0, av[k].1 as int) == old(c).log_len(
                    av[k].0,
                    av[k].1 as int,
                ));
            }
            assert(pos0 =~= resume_positions(*old(c), g, av));
            lemma_polled_same_topics(mid, *old(c), av, pos0);
            assert(recs == polled(*old(c), target, resume_positions(*old(c), g, target)));
            assert forall|k: int|
                0 <= k < av.len() implies mid.has_topic((#[trigger] av[k]).0) && 0 <= av[k].1
                    < mid.n_partitions(av[k].0) by {
                assert(av.contains(av[k]));
                lemma_member_target_elem(
                    mid,
                    mid.subscription(g),
                    mid.members(g).len() as int,
                    member_index(mid, g, id),
                    av[k],
                );
            }
        }
        let mut out: Vec<Message> = Vec::new();
        while evs.len() > 0
            invariant
                mid.wf(),
                av.len() == pos0.len(),
                forall|k: int| 0 <= k < pos0.len() ==> #[trigger] pos0[k] >= 0,
                forall|k: int|
                    0 <= k < av.len() ==> mid.has_topic((#[trigger] av[k]).0) && 0 <= av[k].1
                        < mid.n_partitions(av[k].0),
                recs == polled(mid, av, pos0),
                out@.len() + evs@.len() == recs.len(),
                ev_views(evs@) == record_events(recs).subrange(
                    out@.len() as int,
                    recs.len() as int,
                ),
                forall|x: int| 0 <= x < out@.len() ==> (#[trigger] out@[x])@ == recs[x],
            decreases evs@.len(),
        {
            let ghost done = out@.len() as int;
            let ghost preevs = evs@;
            let ev = evs.remove(0);
            proof {
                assert(ev_views(preevs)[0] == preevs[0]@);
                assert(record_events(recs).subrange(done, recs.len() as int)[0] == record_events(
                    recs,
                )[done]);
                assert(ev@ == EventView::RecordV(recs[done]));
                assert forall|x: int|
                    0 <= x < evs@.len() implies #[trigger] ev_views(evs@)[x] == record_events(
                    recs,
                ).subrange(done + 1, recs.len() as int)[x] by {
                    assert(evs@[x] == preevs[x + 1]);
                    assert(ev_views(preevs)[x + 1] == preevs[x + 1]@);
                    assert(ev_views(evs@)[x] == evs@[x]@);
                    assert(record_events(recs).subrange(done, recs.len() as int)[x + 1]
                        == record_events(recs)[done + 1 + x]);
                }
                assert(ev_views(evs@) =~= record_events(recs).subrange(
                    done + 1,
                    recs.len() as int,
                ));
            }
            match ev {
                ConsumerEvent::Record(m) => {
                    out.push(m);
                },
                _ => {
                    proof {
                        assert(false);
                    }
                },
            }
        }
        consumer.close(c);
        proof {
            // The temporary member has left: the membership is as it was.
            assert(mid.members(g).contains(id));
            let kk = choose|kk: int|
                0 <= kk < mid.members(g).len() && mid.members(g)[kk] == id && c.members(g)
                    == mid.members(g).remove(kk);
            if kk < oldm.len() {
                assert(mid.members(g)[kk] == oldm[kk]);
                assert(oldm.contains(id));
                assert(false);
            }
            assert(c.members(g) == mid.members(g).remove(oldm.len() as int));
            assert(c.members(g) =~= oldm);
            assert forall|x: int|
                0 <= x < out@.len() implies #[trigger] crate::producer::msg_views(out@)[x]
                == recs[x] by {
                assert(crate::producer::msg_views(out@)[x] == out@[x]@);
            }
            assert(crate::producer::msg_views(out@) =~= recs);
            // No record appears twice in the batch: the grant is
            // duplicate-free, so the chunks never share a partition.
            crate::cluster::lemma_spec_dedup_distinct(crate::models::str_views(topics@));
            lemma_member_target_distinct(
                mid,
                mid.subscription(g),
                mid.members(g).len() as int,
                oldm.len() as int,
            );
            assert forall|i: int, j: int|
                0 <= i < j < out@.len() implies !((#[trigger] out@[i])@.topic == (
            #[trigger] out@[j])@.topic && out@[i]@.partition == out@[j]@.partition
                && out@[i]@.offset == out@[j]@.offset) by {
                lemma_polled_exactly_once(mid, av, pos0, i, j);
                assert(out@[i]@ == recs[i]);
                assert(out@[j]@ == recs[j]);
            }
            assert forall|i: int|
                0 <= i < out@.len() implies ({
                let m = (#[trigger] out@[i])@;
                &&& m.partition matches Some(p)
                &&& m.offset matches Some(o)
                &&& mid.has_topic(m.topic)
                &&& 0 <= m.partition->0 < mid.n_partitions(m.topic)
                &&& 0 <= m.offset->0 < mid.log_len(m.topic, m.partition->0 as int)
                &&& m == mid.stored_msg(m.topic, m.partition->0 as int, m.offset->0 as int)
            }) by {
                lemma_polled_elem(mid, av, pos0, i);
            }
            assert(mid.topics@ == old(c).topics@);
            assert forall|t: Seq<char>| #[trigger] mid.topic_i(t) == old(c).topic_i(t) by {}
        }
        Ok(out)
    }
}

} // verus!
