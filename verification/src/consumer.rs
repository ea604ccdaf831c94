//! The consumer-group engine: subscription, partition rebalancing, polling
//! and offset commits.

use vstd::prelude::*;

use crate::cluster::Cluster;
use crate::errors::ClientError;
use crate::message::Message;
use crate::message::MessageView;
use crate::message::OffsetCommit;
use crate::message::PartitionAssignment;

verus! {

/// The lifecycle of one consumer instance.
#[derive(Clone, Copy, Debug, PartialEq, Eq, Structural)]
pub enum ConsumerState {
    Unsubscribed,
    Subscribing,
    Rebalancing,
    Steady,
    Closed,
}

/// How an offset commit waits for the coordinator.
#[derive(Clone, Copy, Debug, PartialEq, Eq, Structural)]
pub enum CommitMode {
    /// Block until the coordinator acknowledges; failures surface to the
    /// caller.
    Sync,
    /// Return at once; the outcome arrives later as a notification event and
    /// a failure is advisory only.
    Async,
}

/// What one poll call can hand back: rebalance notifications, commit
/// outcomes, and polled records, all as immutable values.
#[derive(Debug)]
pub enum ConsumerEvent {
    /// These partitions were revoked; flush state for them now.
    Revoked(Vec<PartitionAssignment>),
    /// These partitions were granted; polling resumes from the committed
    /// offsets.
    Assigned(Vec<PartitionAssignment>),
    /// A message fetched from an owned partition.
    Record(Message),
    /// The outcome of an earlier asynchronous commit.
    CommitOutcome(OffsetCommit, bool),
}

/// The mathematical content of a [`ConsumerEvent`].
pub enum EventView {
    RevokedV(Seq<(Seq<char>, i32)>),
    AssignedV(Seq<(Seq<char>, i32)>),
    RecordV(MessageView),
    CommitOutcomeV((Seq<char>, i32, i64), bool),
}

impl View for ConsumerEvent {
    type V = EventView;

    open spec fn view(&self) -> EventView {
        match self {
            ConsumerEvent::Revoked(v) => EventView::RevokedV(pa_views(v@)),
            ConsumerEvent::Assigned(v) => EventView::AssignedV(pa_views(v@)),
            ConsumerEvent::Record(m) => EventView::RecordV(m@),
            ConsumerEvent::CommitOutcome(oc, ok) => EventView::CommitOutcomeV(oc@, *ok),
        }
    }
}

/// The views of a list of partition assignments.
pub open spec fn pa_views(s: Seq<PartitionAssignment>) -> Seq<(Seq<char>, i32)> {
    s.map_values(|pa: PartitionAssignment| pa@)
}

/// The views of a list of consumer events.
pub open spec fn ev_views(s: Seq<ConsumerEvent>) -> Seq<EventView> {
    s.map_values(|e: ConsumerEvent| e@)
}

/// The events that deliver pending asynchronous commit outcomes.
pub open spec fn note_events(s: Seq<(OffsetCommit, bool)>) -> Seq<EventView> {
    s.map_values(|n: (OffsetCommit, bool)| EventView::CommitOutcomeV(n.0@, n.1))
}

/// The events that deliver a batch of records.
pub open spec fn record_events(s: Seq<MessageView>) -> Seq<EventView> {
    s.map_values(|m: MessageView| EventView::RecordV(m))
}

pub proof fn lemma_ev_views_push(s: Seq<ConsumerEvent>, e: ConsumerEvent)
    ensures
        ev_views(s.push(e)) == ev_views(s).push(e@),
{
    assert forall|x: int|
        0 <= x < s.len() + 1 implies #[trigger] ev_views(s.push(e))[x] == ev_views(s).push(
        e@,
    )[x] by {
        assert(ev_views(s.push(e))[x] == s.push(e)[x]@);
        if x < s.len() {
            assert(s.push(e)[x] == s[x]);
            assert(ev_views(s)[x] == s[x]@);
        }
    }
    assert(ev_views(s.push(e)) =~= ev_views(s).push(e@));
}

pub proof fn lemma_note_events_push(s: Seq<(OffsetCommit, bool)>, n: (OffsetCommit, bool))
    ensures
        note_events(s.push(n)) == note_events(s).push(EventView::CommitOutcomeV(n.0@, n.1)),
{
    assert forall|x: int|
        0 <= x < s.len() + 1 implies #[trigger] note_events(s.push(n))[x] == note_events(s).push(
        EventView::CommitOutcomeV(n.0@, n.1),
    )[x] by {
        if x < s.len() {
            assert(s.push(n)[x] == s[x]);
        }
    }
    assert(note_events(s.push(n)) =~= note_events(s).push(
        EventView::CommitOutcomeV(n.0@, n.1),
    ));
}

pub proof fn lemma_record_events_push(s: Seq<MessageView>, m: MessageView)
    ensures
        record_events(s.push(m)) == record_events(s).push(EventView::RecordV(m)),
{
    assert forall|x: int|
        0 <= x < s.len() + 1 implies #[trigger] record_events(s.push(m))[x] == record_events(
        s,
    ).push(EventView::RecordV(m))[x] by {
        if x < s.len() {
            assert(s.push(m)[x] == s[x]);
        }
    }
    assert(record_events(s.push(m)) =~= record_events(s).push(EventView::RecordV(m)));
}

/// The partitions of one topic that the member at index `m` of `n` owns:
/// every partition whose number is congruent to `m` modulo `n`, in
/// increasing order. `count` partitions exist in all.
pub open spec fn topic_sel(t: Seq<char>, count: int, n: int, m: int) -> Seq<(Seq<char>, i32)>
    decreases count,
{
    if count <= 0 {
        Seq::empty()
    } else {
        topic_sel(t, count - 1, n, m) + (if (count - 1) % n == m {
            seq![(t, (count - 1) as i32)]
        } else {
            Seq::empty()
        })
    }
}

/// The pairs of one subscribed topic granted to member `m` of `n`; a topic
/// the cluster does not carry contributes nothing.
pub open spec fn topic_pairs(c: Cluster, t: Seq<char>, n: int, m: int) -> Seq<(Seq<char>, i32)> {
    if c.has_topic(t) {
        topic_sel(t, c.n_partitions(t), n, m)
    } else {
        Seq::empty()
    }
}

/// The full grant for member `m` of `n` under a subscription: the congruent
/// partitions of every subscribed topic, in subscription order.
pub open spec fn member_target(c: Cluster, sub: Seq<Seq<char>>, n: int, m: int) -> Seq<
    (Seq<char>, i32),
>
    decreases sub.len(),
{
    if sub.len() == 0 {
        Seq::empty()
    } else {
        topic_pairs(c, sub[0], n, m) + member_target(c, sub.drop_first(), n, m)
    }
}

pub proof fn lemma_topic_sel_elem(t: Seq<char>, count: int, n: int, m: int, a: (Seq<char>, i32))
    requires
        topic_sel(t, count, n, m).contains(a),
        count <= i32::MAX as int,
    ensures
        a.0 == t,
        0 <= a.1 < count,
        a.1 as int % n == m,
    decreases count,
{
    if count > 0 {
        let s = topic_sel(t, count, n, m);
        let prev = topic_sel(t, count - 1, n, m);
        let idx = choose|idx: int| 0 <= idx < s.len() && s[idx] == a;
        if idx < prev.len() {
            assert(prev[idx] == a);
            assert(prev.contains(a));
            lemma_topic_sel_elem(t, count - 1, n, m, a);
        } else {
            assert((count - 1) % n == m);
            assert(a == (t, (count - 1) as i32));
        }
    }
}

pub proof fn lemma_member_target_elem(
    c: Cluster,
    sub: Seq<Seq<char>>,
    n: int,
    m: int,
    a: (Seq<char>, i32),
)
    requires
        c.wf(),
        member_target(c, sub, n, m).contains(a),
    ensures
        c.has_topic(a.0),
        0 <= a.1 < c.n_partitions(a.0),
        a.1 as int % n == m,
        sub.contains(a.0),
    decreases sub.len(),
{
    let s = member_target(c, sub, n, m);
    let head = topic_pairs(c, sub[0], n, m);
    let rest = member_target(c, sub.drop_first(), n, m);
    let idx = choose|idx: int| 0 <= idx < s.len() && s[idx] == a;
    if idx < head.len() {
        assert(head[idx] == a);
        assert(head.contains(a));
        assert(c.has_topic(sub[0]));
        crate::cluster::lemma_find_topic_char(c.topics@, sub[0]);
        lemma_topic_sel_elem(sub[0], c.n_partitions(sub[0]), n, m, a);
        assert(sub[0] == a.0);
        assert(sub.contains(a.0));
    } else {
        assert(rest[idx - head.len()] == a);
        assert(rest.contains(a));
        lemma_member_target_elem(c, sub.drop_first(), n, m, a);
        let t = a.0;
        assert(sub.drop_first().contains(t));
        let j = choose|j: int| 0 <= j < sub.drop_first().len() && sub.drop_first()[j] == t;
        assert(sub[j + 1] == t);
        assert(sub.contains(t));
    }
}

pub proof fn lemma_topic_sel_distinct(t: Seq<char>, count: int, n: int, m: int)
    requires
        count <= i32::MAX as int,
    ensures
        forall|a: int, b: int|
            0 <= a < b < topic_sel(t, count, n, m).len() ==> #[trigger] topic_sel(
                t,
                count,
                n,
                m,
            )[a] != #[trigger] topic_sel(t, count, n, m)[b],
    decreases count,
{
    if count > 0 {
        lemma_topic_sel_distinct(t, count - 1, n, m);
        let s = topic_sel(t, count, n, m);
        let prev = topic_sel(t, count - 1, n, m);
        assert forall|a: int, b: int|
            0 <= a < b < s.len() implies #[trigger] s[a] != #[trigger] s[b] by {
            if b < prev.len() {
                assert(s[a] == prev[a]);
                assert(s[b] == prev[b]);
            } else {
                assert(s[a] == prev[a]);
                assert(prev.contains(prev[a]));
                lemma_topic_sel_elem(t, count - 1, n, m, prev[a]);
                assert(s[b] == (t, (count - 1) as i32));
                assert(prev[a].1 < count - 1);
            }
        }
    }
}

/// A member's grant never names one partition twice when the subscription
/// is duplicate-free.
pub proof fn lemma_member_target_distinct(c: Cluster, sub: Seq<Seq<char>>, n: int, m: int)
    requires
        c.wf(),
        forall|a: int, b: int| 0 <= a < b < sub.len() ==> #[trigger] sub[a] != #[trigger] sub[b],
    ensures
        forall|a: int, b: int|
            0 <= a < b < member_target(c, sub, n, m).len() ==> #[trigger] member_target(
                c,
                sub,
                n,
                m,
            )[a] != #[trigger] member_target(c, sub, n, m)[b],
    decreases sub.len(),
{
    if sub.len() > 0 {
        let s = member_target(c, sub, n, m);
        let head = topic_pairs(c, sub[0], n, m);
        let rest = member_target(c, sub.drop_first(), n, m);
        if c.has_topic(sub[0]) {
            crate::cluster::lemma_find_topic_char(c.topics@, sub[0]);
            lemma_topic_sel_distinct(sub[0], c.n_partitions(sub[0]), n, m);
        }
        assert forall|a: int, b: int|
            0 <= a < b < sub.drop_first().len() implies #[trigger] sub.drop_first()[a]
            != #[trigger] sub.drop_first()[b] by {
            assert(sub.drop_first()[a] == sub[a + 1]);
            assert(sub.drop_first()[b] == sub[b + 1]);
        }
        lemma_member_target_distinct(c, sub.drop_first(), n, m);
        assert forall|a: int, b: int|
            0 <= a < b < s.len() implies #[trigger] s[a] != #[trigger] s[b] by {
            if b < head.len() {
                assert(s[a] == head[a]);
                assert(s[b] == head[b]);
            } else if a >= head.len() {
                assert(s[a] == rest[a - head.len()]);
                assert(s[b] == rest[b - head.len()]);
            } else {
                assert(s[a] == head[a]);
                assert(head.contains(head[a]));
                crate::cluster::lemma_find_topic_char(c.topics@, sub[0]);
                lemma_topic_sel_elem(sub[0], c.n_partitions(sub[0]), n, m, head[a]);
                assert(s[a].0 == sub[0]);
                assert(s[b] == rest[b - head.len()]);
                assert(rest.contains(rest[b - head.len()]));
                lemma_member_target_elem(c, sub.drop_first(), n, m, rest[b - head.len()]);
                assert(sub.drop_first().contains(s[b].0));
                let w = choose|w: int|
                    0 <= w < sub.drop_first().len() && sub.drop_first()[w] == s[b].0;
                assert(sub[w + 1] == s[b].0);
                assert(sub[0] != sub[w + 1]);
            }
        }
    }
}

/// Law (rebalance invariant): the grants of two distinct members of one
/// group never share a partition assignment.
pub proof fn lemma_assignment_disjoint(
    c: Cluster,
    sub: Seq<Seq<char>>,
    n: int,
    i: int,
    j: int,
    a: (Seq<char>, i32),
)
    requires
        c.wf(),
        0 <= i < n,
        0 <= j < n,
        i != j,
        member_target(c, sub, n, i).contains(a),
    ensures
        !member_target(c, sub, n, j).contains(a),
{
    lemma_member_target_elem(c, sub, n, i, a);
    if member_target(c, sub, n, j).contains(a) {
        lemma_member_target_elem(c, sub, n, j, a);
    }
}

pub proof fn lemma_member_target_push(c: Cluster, sub: Seq<Seq<char>>, t: Seq<char>, n: int, m: int)
    ensures
        member_target(c, sub.push(t), n, m) == member_target(c, sub, n, m) + topic_pairs(
            c,
            t,
            n,
            m,
        ),
    decreases sub.len(),
{
    let ext = sub.push(t);
    if sub.len() == 0 {
        assert(ext[0] == t);
        assert(ext.drop_first() =~= Seq::<Seq<char>>::empty());
        assert(member_target(c, Seq::<Seq<char>>::empty(), n, m) == Seq::<
            (Seq<char>, i32),
        >::empty());
        assert(member_target(c, ext, n, m) == topic_pairs(c, t, n, m) + member_target(
            c,
            ext.drop_first(),
            n,
            m,
        ));
        assert(member_target(c, ext, n, m) =~= topic_pairs(c, t, n, m));
        assert(member_target(c, sub, n, m) == Seq::<(Seq<char>, i32)>::empty());
        assert(member_target(c, sub, n, m) + topic_pairs(c, t, n, m) =~= topic_pairs(c, t, n, m));
    } else {
        assert(ext[0] == sub[0]);
        assert(ext.drop_first() =~= sub.drop_first().push(t));
        lemma_member_target_push(c, sub.drop_first(), t, n, m);
        assert(member_target(c, ext, n, m) =~= member_target(c, sub, n, m) + topic_pairs(
            c,
            t,
            n,
            m,
        ));
    }
}

/// Where consumption resumes on a partition: the committed offset, clamped
/// to the end of the log.
pub open spec fn resume_at(c: Cluster, g: Seq<char>, t: Seq<char>, p: i32) -> int {
    if c.committed(g, t, p) <= c.log_len(t, p as int) {
        c.committed(g, t, p)
    } else {
        c.log_len(t, p as int)
    }
}

/// Law (commit semantics): when the committed next offset of a partition is
/// `o + 1`, a consumer resuming from it sees only offsets strictly after
/// `o`.
pub proof fn lemma_commit_resume(c: Cluster, g: Seq<char>, t: Seq<char>, p: i32, o: i64)
    requires
        c.wf(),
        c.has_topic(t),
        0 <= (p as int) && (p as int) < c.n_partitions(t),
        c.committed(g, t, p) == o + 1,
        o + 1 <= c.log_len(t, p as int),
    ensures
        forall|idx: int|
            0 <= idx < c.records_from(t, p as int, resume_at(c, g, t, p)).len() ==> (
            #[trigger] c.records_from(t, p as int, resume_at(c, g, t, p))[idx]).offset == Some(
                (o + 1 + idx) as i64,
            ) && (o + 1 + idx) as i64 > o,
{
    assert(resume_at(c, g, t, p) == o + 1);
    let from = o + 1;
    let recs = c.records_from(t, p as int, from as int);
    assert forall|idx: int|
        0 <= idx < recs.len() implies (#[trigger] recs[idx]).offset == Some((o + 1 + idx) as i64)
            && (o + 1 + idx) as i64 > o by {
        assert(recs[idx] == c.stored_msg(t, p as int, from + idx));
        crate::cluster::lemma_find_topic_char(c.topics@, t);
        assert(c.topics@[c.topic_i(t)].partitions@[p as int]@.len() <= i64::MAX as int);
    }
}

/// Law (at-least-once): a stored message at or beyond the committed offset
/// is delivered again to a consumer that resumes from the committed offset.
pub proof fn lemma_redelivery(c: Cluster, g: Seq<char>, t: Seq<char>, p: i32, o: int)
    requires
        c.wf(),
        c.has_topic(t),
        0 <= (p as int) && (p as int) < c.n_partitions(t),
        0 <= c.committed(g, t, p) <= o < c.log_len(t, p as int),
    ensures
        c.records_from(t, p as int, resume_at(c, g, t, p)).contains(c.stored_msg(t, p as int, o)),
{
    let from = resume_at(c, g, t, p);
    assert(from == c.committed(g, t, p));
    let recs = c.records_from(t, p as int, from);
    assert(recs[o - from] == c.stored_msg(t, p as int, o));
    assert(recs.contains(c.stored_msg(t, p as int, o)));
}

/// The member's position within the group's member list.
pub open spec fn member_index(c: Cluster, g: Seq<char>, id: u64) -> int {
    choose|k: int| 0 <= k < c.members(g).len() && c.members(g)[k] == id
}

/// The grant a consumer is owed on cluster `c`.
pub open spec fn target_of(c: Cluster, g: Seq<char>, id: u64) -> Seq<(Seq<char>, i32)> {
    member_target(
        c,
        c.subscription(g),
        c.members(g).len() as int,
        member_index(c, g, id),
    )
}

/// Computes the grant of `member` within `group`: partition `p` of the
/// `k`-th subscribed topic goes to the member at position `p` modulo the
/// member count.
pub fn compute_assignment(c: &Cluster, group: &String, member: u64) -> (r: Vec<
    PartitionAssignment,
>)
    requires
        c.wf(),
        c.has_group(group@),
        c.members(group@).contains(member),
    ensures
        pa_views(r@) == target_of(*c, group@, member),
{
    let gi = match c.find_group_idx(group) {
        Some(gi) => gi,
        None => {
            proof {
                assert(false);
            }
            return Vec::new();
        },
    };
    let members = &c.groups[gi].members;
    let n = members.len();
    let mut m: usize = 0;
    let mut found = false;
    while m < n && !found
        invariant
            gi == c.group_i(group@),
            gi < c.groups@.len(),
            members@ == c.members(group@),
            n == members@.len(),
            0 <= m <= n,
            !found ==> forall|j: int| 0 <= j < m ==> c.members(group@)[j] != member,
            found ==> m < n && c.members(group@)[m as int] == member,
            c.members(group@).contains(member),
            c.wf(),
        decreases n - m + (if found {
            0int
        } else {
            1int
        }),
    {
        if members[m] == member {
            found = true;
        } else {
            m += 1;
        }
    }
    proof {
        if !found {
            assert(forall|j: int| 0 <= j < n ==> c.members(group@)[j] != member);
            let w = choose|w: int|
                0 <= w < c.members(group@).len() && c.members(group@)[w] == member;
            assert(false);
        }
        assert(c.members(group@)[m as int] == member);
        let mi = member_index(*c, group@, member);
        assert(c.members(group@)[mi] == member);
        if mi != m {
            assert(false);
        }
    }
    let subs = &c.groups[gi].subscription;
    let mut r: Vec<PartitionAssignment> = Vec::new();
    let mut s: usize = 0;
    while s < subs.len()
        invariant
            c.wf(),
            gi == c.group_i(group@),
            gi < c.groups@.len(),
            subs@ == c.groups@[gi as int].subscription@,
            0 <= s <= subs@.len(),
            n == c.members(group@).len(),
            m < n,
            m as int == member_index(*c, group@, member),
            pa_views(r@) == member_target(
                *c,
                c.subscription(group@).subrange(0, s as int),
                n as int,
                m as int,
            ),
        decreases subs@.len() - s,
    {
        let ghost subv = c.subscription(group@);
        let ghost done = subv.subrange(0, s as int);
        let topic = &subs[s];
        proof {
            assert(subv[s as int] == topic@);
            assert(subv.subrange(0, s as int + 1) =~= done.push(topic@));
            lemma_member_target_push(*c, done, topic@, n as int, m as int);
        }
        match c.find_topic_idx(topic) {
            None => {
                proof {
                    assert(topic_pairs(*c, topic@, n as int, m as int) =~= Seq::<
                        (Seq<char>, i32),
                    >::empty());
                    assert(pa_views(r@) =~= member_target(
                        *c,
                        subv.subrange(0, s as int + 1),
                        n as int,
                        m as int,
                    ));
                }
            },
            Some(ti) => {
                let count = c.topics[ti].partitions.len();
                let mut p: usize = 0;
                while p < count
                    invariant
                        c.wf(),
                        ti == c.topic_i(topic@),
                        ti < c.topics@.len(),
                        count == c.n_partitions(topic@),
                        topic@ == subv[s as int],
                        s < subv.len(),
                        done == subv.subrange(0, s as int),
                        0 <= p <= count,
                        n >= 1,
                        m < n,
                        pa_views(r@) == member_target(*c, done, n as int, m as int) + topic_sel(
                            topic@,
                            p as int,
                            n as int,
                            m as int,
                        ),
                    decreases count - p,
                {
                    let ghost before = pa_views(r@);
                    if p % n == m {
                        let pa = PartitionAssignment { topic: topic.clone(), partition: p as i32 };
                        proof {
                            assert(pa@ == (topic@, p as i32));
                        }
                        r.push(pa);
                    }
                    proof {
                        assert(topic_sel(topic@, p as int + 1, n as int, m as int) == topic_sel(
                            topic@,
                            p as int,
                            n as int,
                            m as int,
                        ) + (if (p as int) % (n as int) == m as int {
                            seq![(topic@, p as i32)]
                        } else {
                            Seq::<(Seq<char>, i32)>::empty()
                        }));
                        if p % n == m {
                            assert(pa_views(r@) =~= before + seq![(topic@, p as i32)]);
                        } else {
                            assert(pa_views(r@) =~= before + Seq::<(Seq<char>, i32)>::empty());
                        }
                    }
                    p += 1;
                }
                proof {
                    assert(topic_pairs(*c, topic@, n as int, m as int) == topic_sel(
                        topic@,
                        count as int,
                        n as int,
                        m as int,
                    ));
                    assert(pa_views(r@) =~= member_target(
                        *c,
                        subv.subrange(0, s as int + 1),
                        n as int,
                        m as int,
                    ));
                }
            },
        }
        s += 1;
    }
    proof {
        assert(c.subscription(group@).subrange(0, subs@.len() as int) =~= c.subscription(group@));
    }
    r
}

/// The records one steady poll returns: for each owned partition in grant
/// order, everything from the resume position (clamped to the log end) to
/// the end of the log.
pub open spec fn polled(c: Cluster, assign: Seq<(Seq<char>, i32)>, pos: Seq<i64>) -> Seq<
    MessageView,
>
    decreases assign.len(),
{
    if assign.len() == 0 {
        Seq::empty()
    } else {
        let t = assign[0].0;
        let p = assign[0].1;
        let from = if pos[0] <= c.log_len(t, p as int) {
            pos[0] as int
        } else {
            c.log_len(t, p as int)
        };
        c.records_from(t, p as int, from) + polled(c, assign.drop_first(), pos.drop_first())
    }
}

pub proof fn lemma_polled_push(
    c: Cluster,
    assign: Seq<(Seq<char>, i32)>,
    pos: Seq<i64>,
    a: (Seq<char>, i32),
    q: i64,
)
    requires
        assign.len() == pos.len(),
    ensures
        polled(c, assign.push(a), pos.push(q)) == polled(c, assign, pos) + c.records_from(
            a.0,
            a.1 as int,
            if q <= c.log_len(a.0, a.1 as int) {
                q as int
            } else {
                c.log_len(a.0, a.1 as int)
            },
        ),
    decreases assign.len(),
{
    let ea = assign.push(a);
    let ep = pos.push(q);
    let tailrec = c.records_from(a.0, a.1 as int, if q <= c.log_len(a.0, a.1 as int) {
        q as int
    } else {
        c.log_len(a.0, a.1 as int)
    });
    if assign.len() == 0 {
        assert(ea[0] == a && ep[0] == q);
        assert(ea.drop_first() =~= Seq::<(Seq<char>, i32)>::empty());
        assert(ep.drop_first() =~= Seq::<i64>::empty());
        assert(polled(c, Seq::<(Seq<char>, i32)>::empty(), Seq::<i64>::empty()) == Seq::<
            MessageView,
        >::empty());
        assert(polled(c, ea, ep) =~= tailrec);
        assert(polled(c, assign, pos) == Seq::<MessageView>::empty());
        assert(polled(c, assign, pos) + tailrec =~= tailrec);
    } else {
        assert(ea[0] == assign[0] && ep[0] == pos[0]);
        assert(ea.drop_first() =~= assign.drop_first().push(a));
        assert(ep.drop_first() =~= pos.drop_first().push(q));
        lemma_polled_push(c, assign.drop_first(), pos.drop_first(), a, q);
        assert(polled(c, ea, ep) =~= polled(c, assign, pos) + tailrec);
    }
}

/// The grant depends on the cluster only through its topics.
pub proof fn lemma_member_target_same_topics(
    c1: Cluster,
    c2: Cluster,
    sub: Seq<Seq<char>>,
    n: int,
    m: int,
)
    requires
        c1.topics@ == c2.topics@,
    ensures
        member_target(c1, sub, n, m) == member_target(c2, sub, n, m),
    decreases sub.len(),
{
    if sub.len() > 0 {
        assert(c1.topic_i(sub[0]) == c2.topic_i(sub[0]));
        assert(topic_pairs(c1, sub[0], n, m) == topic_pairs(c2, sub[0], n, m));
        lemma_member_target_same_topics(c1, c2, sub.drop_first(), n, m);
    }
}

/// A poll batch depends on the cluster only through its topics.
pub proof fn lemma_polled_same_topics(
    c1: Cluster,
    c2: Cluster,
    assign: Seq<(Seq<char>, i32)>,
    pos: Seq<i64>,
)
    requires
        c1.topics@ == c2.topics@,
        assign.len() == pos.len(),
    ensures
        polled(c1, assign, pos) == polled(c2, assign, pos),
    decreases assign.len(),
{
    if assign.len() > 0 {
        let t = assign[0].0;
        let p = assign[0].1;
        assert(c1.topic_i(t) == c2.topic_i(t));
        assert(c1.log_len(t, p as int) == c2.log_len(t, p as int));
        let from = if pos[0] <= c1.log_len(t, p as int) {
            pos[0] as int
        } else {
            c1.log_len(t, p as int)
        };
        assert forall|i: int|
            0 <= i < c1.records_from(t, p as int, from).len() implies #[trigger] c1.records_from(
            t,
            p as int,
            from,
        )[i] == c2.records_from(t, p as int, from)[i] by {
            assert(c1.log(t, p as int) == c2.log(t, p as int));
            assert(c1.stored_msg(t, p as int, from + i) == c2.stored_msg(t, p as int, from + i));
        }
        assert(c1.records_from(t, p as int, from) =~= c2.records_from(t, p as int, from));
        lemma_polled_same_topics(c1, c2, assign.drop_first(), pos.drop_first());
        assert(polled(c1, assign, pos) =~= polled(c2, assign, pos));
    }
}

/// Are two assignment lists the same, partition by partition?
pub fn assignments_eq(a: &Vec<PartitionAssignment>, b: &Vec<PartitionAssignment>) -> (r: bool)
    ensures
        r == (pa_views(a@) == pa_views(b@)),
{
    if a.len() != b.len() {
        proof {
            assert(pa_views(a@).len() != pa_views(b@).len());
        }
        return false;
    }
    let mut i: usize = 0;
    while i < a.len()
        invariant
            a@.len() == b@.len(),
            0 <= i <= a@.len(),
            forall|j: int| 0 <= j < i ==> pa_views(a@)[j] == pa_views(b@)[j],
        decreases a@.len() - i,
    {
        if !(a[i].topic == b[i].topic && a[i].partition == b[i].partition) {
            proof {
                assert(pa_views(a@)[i as int] != pa_views(b@)[i as int]);
            }
            return false;
        }
        proof {
            assert(pa_views(a@)[i as int] == pa_views(b@)[i as int]);
        }
        i += 1;
    }
    proof {
        assert(pa_views(a@) =~= pa_views(b@));
    }
    true
}

/// Copies an assignment list.
pub fn clone_assignments(v: &Vec<PartitionAssignment>) -> (r: Vec<PartitionAssignment>)
    ensures
        pa_views(r@) == pa_views(v@),
{
    let mut r: Vec<PartitionAssignment> = Vec::new();
    let mut i: usize = 0;
    while i < v.len()
        invariant
            0 <= i <= v@.len(),
            r@.len() == i,
            forall|j: int| 0 <= j < i ==> pa_views(r@)[j] == pa_views(v@)[j],
        decreases v@.len() - i,
    {
        r.push(PartitionAssignment { topic: v[i].topic.clone(), partition: v[i].partition });
        i += 1;
    }
    proof {
        assert(pa_views(r@) =~= pa_views(v@));
    }
    r
}

/// Is `id` one of the listed member identifiers?
pub fn contains_member(v: &Vec<u64>, id: u64) -> (b: bool)
    ensures
        b == v@.contains(id),
{
    let mut i: usize = 0;
    while i < v.len()
        invariant
            0 <= i <= v@.len(),
            forall|j: int| 0 <= j < i ==> v@[j] != id,
        decreases v@.len() - i,
    {
        if v[i] == id {
            return true;
        }
        i += 1;
    }
    proof {
        if v@.contains(id) {
            let w = choose|w: int| 0 <= w < v@.len() && v@[w] == id;
            assert(false);
        }
    }
    false
}

/// One consumer instance of a group.
///
/// The instance walks `Unsubscribed -> Subscribing -> (Rebalancing <->
/// Steady) -> Closed`. Rebalance notifications, asynchronous commit outcomes
/// and polled records are all delivered as events from `poll`.
#[derive(Debug)]
pub struct ConsumerGroup {
    pub group: String,
    pub member_id: u64,
    pub state: ConsumerState,
    pub assignment: Vec<PartitionAssignment>,
    pub positions: Vec<i64>,
    pub pending_notes: Vec<(OffsetCommit, bool)>,
}

impl ConsumerGroup {
    /// Positions run parallel to the assignment and never go negative.
    pub open spec fn wf(self) -> bool {
        &&& self.positions@.len() == self.assignment@.len()
        &&& forall|k: int| 0 <= k < self.positions@.len() ==> #[trigger] self.positions@[k] >= 0
    }

    /// A fresh, unsubscribed consumer of `group`.
    pub fn new(group: String) -> (r: ConsumerGroup)
        ensures
            r.wf(),
            r.group@ == group@,
            r.state == ConsumerState::Unsubscribed,
            r.assignment@.len() == 0,
            r.positions@.len() == 0,
            r.pending_notes@.len() == 0,
    {
        ConsumerGroup {
            group,
            member_id: 0,
            state: ConsumerState::Unsubscribed,
            assignment: Vec::new(),
            positions: Vec::new(),
            pending_notes: Vec::new(),
        }
    }

    /// Registers interest in a set of topics with the group coordinator.
    /// The first poll after this delivers the rebalance notifications.
    pub fn subscribe(&mut self, c: &mut Cluster, topics: &Vec<String>) -> (r: Result<
        (),
        ClientError,
    >)
        requires
            old(self).wf(),
            old(self).state == ConsumerState::Unsubscribed,
            old(c).wf(),
        ensures
            final(self).wf(),
            final(c).wf(),
            final(c).topics@ == old(c).topics@,
            final(self).group@ == old(self).group@,
            final(self).assignment@ == old(self).assignment@,
            final(self).positions@ == old(self).positions@,
            final(self).pending_notes@ == old(self).pending_notes@,
            (match r {
                Ok(()) => final(self).state == ConsumerState::Subscribing && final(c).has_group(
                    old(self).group@,
                ) && final(c).members(old(self).group@) == (if old(c).has_group(old(self).group@) {
                    old(c).members(old(self).group@)
                } else {
                    Seq::<u64>::empty()
                }).push(final(self).member_id) && (forall|t: Seq<char>, pp: i32|
                    final(c).committed(old(self).group@, t, pp) == old(c).committed(
                        old(self).group@,
                        t,
                        pp,
                    )) && final(c).subscription(old(self).group@)
                    == crate::cluster::spec_dedup(crate::models::str_views(topics@)) && (old(
                    c,
                ).has_group(old(self).group@) ==> !old(c).members(old(self).group@).contains(
                    final(self).member_id,
                )),
                Err(e) => e == ClientError::ClusterUnavailable && *final(c) == *old(c) && final(self).state == ConsumerState::Unsubscribed && old(c).has_group(old(self).group@)
                    && old(c).groups@[old(c).group_i(old(self).group@)].next_member
                    == u64::MAX,
            }),
    {
        match c.join_group(&self.group, topics) {
            Ok(id) => {
                self.member_id = id;
                self.state = ConsumerState::Subscribing;
                Ok(())
            },
            Err(e) => Err(e),
        }
    }

    /// Fetches what the consumer is owed. In `Steady` with a current grant,
    /// this delivers pending commit outcomes and then every available record
    /// of each owned partition, and advances the positions; the timeout only
    /// bounds the wait for new records, and an empty result is not an error.
    /// After a subscription or a membership or topic change, one call
    /// delivers the pre-rebalance revocation and the next the fresh grant,
    /// resuming from the committed offsets.
    pub fn poll(&mut self, c: &Cluster, timeout_ms: u64) -> (r: Result<
        Vec<ConsumerEvent>,
        ClientError,
    >)
        requires
            old(self).wf(),
            c.wf(),
        ensures
            final(self).wf(),
            final(self).group@ == old(self).group@,
            (match r {
                Err(e) => *final(self) == *old(self) && ((e == ClientError::Closed && old(
                    self,
                ).state == ConsumerState::Closed) || (e == ClientError::ClusterUnavailable && old(
                    self,
                ).state != ConsumerState::Closed && old(self).state != ConsumerState::Unsubscribed
                    && !(c.has_group(old(self).group@) && c.members(old(self).group@).contains(
                    old(self).member_id,
                )))),
                Ok(evs) => ({
                    let g = old(self).group@;
                    let id = old(self).member_id;
                    let target = target_of(*c, g, id);
                    let stale = pa_views(old(self).assignment@) != target;
                    &&& final(self).member_id == id
                    &&& c.has_group(g) && c.members(g).contains(id) || old(self).state
                        == ConsumerState::Unsubscribed
                    &&& (old(self).state == ConsumerState::Unsubscribed ==> evs@.len() == 0
                        && *final(self) == *old(self))
                    &&& (old(self).state == ConsumerState::Subscribing || (old(self).state
                        == ConsumerState::Steady && stale) ==> ev_views(evs@) == seq![
                        EventView::RevokedV(pa_views(old(self).assignment@)),
                    ] && final(self).state == ConsumerState::Rebalancing && final(self).assignment@.len() == 0 && final(self).pending_notes@ == old(
                        self,
                    ).pending_notes@)
                    &&& (old(self).state == ConsumerState::Rebalancing ==> ev_views(evs@) == seq![
                        EventView::AssignedV(target),
                    ] && final(self).state == ConsumerState::Steady && pa_views(
                        final(self).assignment@,
                    ) == target && (forall|k: int|
                        0 <= k < target.len() ==> #[trigger] final(self).positions@[k] as int
                            == resume_at(*c, g, target[k].0, target[k].1)) && final(self).pending_notes@ == old(self).pending_notes@)
                    &&& (old(self).state == ConsumerState::Steady && !stale ==> ev_views(evs@)
                        == note_events(old(self).pending_notes@) + record_events(
                        polled(*c, pa_views(old(self).assignment@), old(self).positions@),
                    ) && final(self).state == ConsumerState::Steady && final(self).assignment@
                        == old(self).assignment@ && final(self).pending_notes@.len() == 0 && (
                    forall|k: int|
                        0 <= k < final(self).positions@.len() ==> #[trigger] final(self).positions@[k] as int == c.log_len(
                            pa_views(old(self).assignment@)[k].0,
                            pa_views(old(self).assignment@)[k].1 as int,
                        )))
                }),
            }),
    {
        match self.state {
            ConsumerState::Closed => Err(ClientError::Closed),
            ConsumerState::Unsubscribed => {
                let evs: Vec<ConsumerEvent> = Vec::new();
                proof {
                    assert(ev_views(evs@) =~= Seq::<EventView>::empty());
                }
                Ok(evs)
            },
            _ => {
                let gi = match c.find_group_idx(&self.group) {
                    Some(gi) => gi,
                    None => {
                        return Err(ClientError::ClusterUnavailable);
                    },
                };
                if !contains_member(&c.groups[gi].members, self.member_id) {
                    return Err(ClientError::ClusterUnavailable);
                }
                let ghost g = self.group@;
                let ghost id = self.member_id;
                let is_subscribing = match self.state {
                    ConsumerState::Subscribing => true,
                    _ => false,
                };
                let is_steady = match self.state {
                    ConsumerState::Steady => true,
                    _ => false,
                };
                let target = compute_assignment(c, &self.group, self.member_id);
                let current = is_steady && assignments_eq(&self.assignment, &target);
                if is_subscribing || (is_steady && !current) {
                    let mut olda: Vec<PartitionAssignment> = Vec::new();
                    core::mem::swap(&mut olda, &mut self.assignment);
                    self.positions = Vec::new();
                    self.state = ConsumerState::Rebalancing;
                    let mut evs: Vec<ConsumerEvent> = Vec::new();
                    evs.push(ConsumerEvent::Revoked(olda));
                    proof {
                        assert(ev_views(evs@) =~= seq![
                            EventView::RevokedV(pa_views(old(self).assignment@)),
                        ]);
                    }
                    Ok(evs)
                } else if !is_steady {
                    // rebalancing: grant the fresh assignment
                    let ghost tv = target_of(*c, g, id);
                    let mut pos: Vec<i64> = Vec::new();
                    let mut k: usize = 0;
                    while k < target.len()
                        invariant
                            c.wf(),
                            c.has_group(g),
                            self.group@ == g,
                            tv == target_of(*c, g, id),
                            pa_views(target@) == tv,
                            0 <= k <= target@.len(),
                            pos@.len() == k,
                            forall|j: int|
                                0 <= j < k ==> #[trigger] pos@[j] as int == resume_at(
                                    *c,
                                    g,
                                    tv[j].0,
                                    tv[j].1,
                                ) && pos@[j] >= 0,
                        decreases target@.len() - k,
                    {
                        let t = &target[k].topic;
                        let p = target[k].partition;
                        proof {
                            assert(pa_views(target@)[k as int] == (t@, p));
                            assert(tv.contains((t@, p)));
                            lemma_member_target_elem(
                                *c,
                                c.subscription(g),
                                c.members(g).len() as int,
                                member_index(*c, g, id),
                                (t@, p),
                            );
                        }
                        let cm = c.committed_next(&self.group, t, p);
                        let ti = match c.find_topic_idx(t) {
                            Some(ti) => ti,
                            None => {
                                proof {
                                    assert(false);
                                }
                                return Err(ClientError::ClusterUnavailable);
                            },
                        };
                        let len = c.topics[ti].partitions[p as usize].len();
                        let start: i64 = if cm as u64 > len as u64 {
                            len as i64
                        } else {
                            cm
                        };
                        proof {
                            assert(start as int == resume_at(*c, g, t@, p));
                        }
                        pos.push(start);
                        k += 1;
                    }
                    let target2 = clone_assignments(&target);
                    self.assignment = target;
                    self.positions = pos;
                    self.state = ConsumerState::Steady;
                    let mut evs: Vec<ConsumerEvent> = Vec::new();
                    evs.push(ConsumerEvent::Assigned(target2));
                    proof {
                        assert(ev_views(evs@) =~= seq![EventView::AssignedV(tv)]);
                    }
                    Ok(evs)
                } else {
                    // steady with a current grant: notes, then records
                    let ghost notes0 = self.pending_notes@;
                    let ghost av = pa_views(self.assignment@);
                    let ghost pos0 = self.positions@;
                    let mut evs: Vec<ConsumerEvent> = Vec::new();
                    let mut notes: Vec<(OffsetCommit, bool)> = Vec::new();
                    core::mem::swap(&mut notes, &mut self.pending_notes);
                    while notes.len() > 0
                        invariant
                            notes0.len() == evs@.len() + notes@.len(),
                            notes@ == notes0.subrange(evs@.len() as int, notes0.len() as int),
                            ev_views(evs@) == note_events(
                                notes0.subrange(0, evs@.len() as int),
                            ),
                        decreases notes@.len(),
                    {
                        let ghost done = evs@.len() as int;
                        let ghost prenotes = notes@;
                        let n0 = notes.remove(0);
                        proof {
                            assert(prenotes[0] == notes0.subrange(done, notes0.len() as int)[0]);
                            assert(n0 == notes0[done]);
                            assert forall|x: int|
                                0 <= x < notes@.len() implies #[trigger] notes@[x]
                                == notes0.subrange(done + 1, notes0.len() as int)[x] by {
                                assert(notes@[x] == prenotes[x + 1]);
                                assert(prenotes[x + 1] == notes0.subrange(
                                    done,
                                    notes0.len() as int,
                                )[x + 1]);
                            }
                            assert(notes@ =~= notes0.subrange(done + 1, notes0.len() as int));
                        }
                        let ghost preevs = evs@;
                        let ghost n0g = n0;
                        evs.push(ConsumerEvent::CommitOutcome(n0.0, n0.1));
                        proof {
                            assert(evs@ == preevs.push(ConsumerEvent::CommitOutcome(
                                n0g.0,
                                n0g.1,
                            )));
                            lemma_ev_views_push(preevs, ConsumerEvent::CommitOutcome(
                                n0g.0,
                                n0g.1,
                            ));
                            lemma_note_events_push(notes0.subrange(0, done), n0g);
                            assert(notes0.subrange(0, done + 1) =~= notes0.subrange(
                                0,
                                done,
                            ).push(notes0[done]));
                        }
                    }
                    let ghost nn = notes0.len() as int;
                    let mut newpos: Vec<i64> = Vec::new();
                    let mut k: usize = 0;
                    while k < self.assignment.len()
                        invariant
                            c.wf(),
                            c.has_group(g),
                            self.group@ == g,
                            av == pa_views(self.assignment@),
                            av == target_of(*c, g, id),
                            pos0 == self.positions@,
                            pos0.len() == av.len(),
                            forall|x: int| 0 <= x < pos0.len() ==> #[trigger] pos0[x] >= 0,
                            0 <= k <= av.len(),
                            newpos@.len() == k,
                            forall|j: int|
                                0 <= j < k ==> #[trigger] newpos@[j] as int == c.log_len(
                                    av[j].0,
                                    av[j].1 as int,
                                ) && newpos@[j] >= 0,
                            ev_views(evs@) == note_events(notes0) + record_events(
                                polled(*c, av.subrange(0, k as int), pos0.subrange(0, k as int)),
                            ),
                        decreases av.len() - k,
                    {
                        let t = &self.assignment[k].topic;
                        let p = self.assignment[k].partition;
                        proof {
                            assert(av[k as int] == (t@, p));
                            assert(av.contains((t@, p)));
                            lemma_member_target_elem(
                                *c,
                                c.subscription(g),
                                c.members(g).len() as int,
                                member_index(*c, g, id),
                                (t@, p),
                            );
                        }
                        let ti = match c.find_topic_idx(t) {
                            Some(ti) => ti,
                            None => {
                                proof {
                                    assert(false);
                                }
                                return Err(ClientError::ClusterUnavailable);
                            },
                        };
                        let len = c.topics[ti].partitions[p as usize].len();
                        let pk = self.positions[k];
                        let start: i64 = if pk as u64 > len as u64 {
                            len as i64
                        } else {
                            pk
                        };
                        let msgs = c.fetch_from(t, p as usize, start);
                        let ghost mv = c.records_from(t@, p as int, start as int);
                        let ghost evs_before = ev_views(evs@);
                        let ghost base = evs@.len() as int;
                        let mut msgs = msgs;
                        let ghost total = mv.len() as int;
                        proof {
                            assert(crate::producer::msg_views(msgs@) == mv);
                            assert(msgs@.len() == total);
                            assert(mv.subrange(0, 0) =~= Seq::<MessageView>::empty());
                            assert(record_events(mv.subrange(0, 0)) =~= Seq::<EventView>::empty());
                            assert(ev_views(evs@) =~= evs_before + record_events(
                                mv.subrange(0, 0),
                            ));
                            assert(mv.subrange(0, total) =~= mv);
                        }
                        while msgs.len() > 0
                            invariant
                                base <= evs@.len(),
                                evs@.len() - base + msgs@.len() == total,
                                total == mv.len(),
                                evs_before.len() == base,
                                crate::producer::msg_views(msgs@) == mv.subrange(
                                    evs@.len() - base,
                                    total,
                                ),
                                ev_views(evs@) == evs_before + record_events(
                                    mv.subrange(0, evs@.len() - base),
                                ),
                            decreases msgs@.len(),
                        {
                            let ghost fed = evs@.len() - base;
                            let ghost premsgs = msgs@;
                            let m0 = msgs.remove(0);
                            proof {
                                assert(crate::producer::msg_views(premsgs)[0] == premsgs[0]@);
                                assert(mv.subrange(fed, total)[0] == mv[fed]);
                                assert(m0@ == mv[fed]);
                                assert forall|x: int|
                                    0 <= x < msgs@.len() implies #[trigger] crate::producer::msg_views(
                                    msgs@,
                                )[x] == mv.subrange(fed + 1, total)[x] by {
                                    assert(msgs@[x] == premsgs[x + 1]);
                                    assert(crate::producer::msg_views(premsgs)[x + 1] == premsgs[
                                        x + 1]@);
                                    assert(crate::producer::msg_views(msgs@)[x] == msgs@[x]@);
                                    assert(mv.subrange(fed, total)[x + 1] == mv[fed + 1 + x]);
                                }
                                assert(crate::producer::msg_views(msgs@) =~= mv.subrange(
                                    fed + 1,
                                    total,
                                ));
                            }
                            let ghost preevs = evs@;
                            evs.push(ConsumerEvent::Record(m0));
                            proof {
                                lemma_ev_views_push(preevs, evs@[preevs.len() as int]);
                                lemma_record_events_push(mv.subrange(0, fed), mv[fed]);
                                assert(mv.subrange(0, fed + 1) =~= mv.subrange(0, fed).push(
                                    mv[fed],
                                ));
                                assert(evs@[preevs.len() as int]@ == EventView::RecordV(mv[fed]));
                                assert(ev_views(evs@) =~= evs_before + record_events(
                                    mv.subrange(0, fed + 1),
                                ));
                            }
                        }
                        proof {
                            assert(mv.subrange(0, total) =~= mv);
                        }
                        newpos.push(len as i64);
                        proof {
                            assert(av.subrange(0, k as int + 1) =~= av.subrange(0, k as int).push(
                                av[k as int],
                            ));
                            assert(pos0.subrange(0, k as int + 1) =~= pos0.subrange(
                                0,
                                k as int,
                            ).push(pos0[k as int]));
                            lemma_polled_push(
                                *c,
                                av.subrange(0, k as int),
                                pos0.subrange(0, k as int),
                                av[k as int],
                                pos0[k as int],
                            );
                            assert(start as int == (if pos0[k as int] <= c.log_len(t@, p as int) {
                                pos0[k as int] as int
                            } else {
                                c.log_len(t@, p as int)
                            }));
                            assert(ev_views(evs@) =~= note_events(notes0) + record_events(
                                polled(
                                    *c,
                                    av.subrange(0, k as int + 1),
                                    pos0.subrange(0, k as int + 1),
                                ),
                            ));
                        }
                        k += 1;
                    }
                    self.positions = newpos;
                    proof {
                        assert(av.subrange(0, av.len() as int) =~= av);
                        assert(pos0.subrange(0, pos0.len() as int) =~= pos0);
                    }
                    Ok(evs)
                }
            },
        }
    }

    /// Commits the consumed message's offset: the group resumes after it.
    /// A synchronous commit reports failure to the caller; an asynchronous
    /// one returns at once and delivers its outcome as a later poll event,
    /// where a failure is advisory only. A commit is refused unless the
    /// consumer is steady and owns the message's partition and the offset
    /// lies within the partition's log.
    pub fn commit(&mut self, c: &mut Cluster, msg: &Message, mode: CommitMode) -> (r: Result<
        (),
        ClientError,
    >)
        requires
            old(self).wf(),
            old(c).wf(),
        ensures
            final(self).wf(),
            final(c).wf(),
            final(c).topics@ == old(c).topics@,
            final(self).group@ == old(self).group@,
            final(self).member_id == old(self).member_id,
            final(self).state == old(self).state,
            final(self).assignment@ == old(self).assignment@,
            final(self).positions@ == old(self).positions@,
            ({
                let g = old(self).group@;
                let ok = commit_valid(*old(self), *old(c), msg@);
                &&& (old(self).state == ConsumerState::Closed ==> r == Err::<(), ClientError>(
                    ClientError::Closed,
                ) && *final(c) == *old(c) && final(self).pending_notes@ == old(
                    self,
                ).pending_notes@)
                &&& (old(self).state != ConsumerState::Closed && ok ==> final(c).committed(
                    g,
                    msg@.topic,
                    msg@.partition->0,
                ) == msg@.offset->0 + 1 && (forall|t: Seq<char>, pp: i32|
                    !(t == msg@.topic && pp == msg@.partition->0) ==> final(c).committed(g, t, pp)
                        == old(c).committed(g, t, pp)) && final(c).groups@.len() == old(
                    c,
                ).groups@.len() && final(c).members(g) == old(c).members(g) && r == Ok::<
                    (),
                    ClientError,
                >(()) && (mode == CommitMode::Sync ==> final(self).pending_notes@ == old(
                    self,
                ).pending_notes@) && (mode == CommitMode::Async ==> final(self).pending_notes@.len()
                    == old(self).pending_notes@.len() + 1 && final(self).pending_notes@.last().1
                    && final(self).pending_notes@.last().0@ == (
                    msg@.topic,
                    msg@.partition->0,
                    (msg@.offset->0 + 1) as i64,
                )))
                &&& (old(self).state != ConsumerState::Closed && !ok ==> *final(c) == *old(c) && (
                mode == CommitMode::Sync ==> r == Err::<(), ClientError>(ClientError::CommitFailed)
                    && final(self).pending_notes@ == old(self).pending_notes@) && (mode
                    == CommitMode::Async ==> r == Ok::<(), ClientError>(()) && final(self).pending_notes@.len() == old(self).pending_notes@.len() + 1 && !final(self).pending_notes@.last().1))
            }),
    {
        let is_closed = match self.state {
            ConsumerState::Closed => true,
            _ => false,
        };
        if is_closed {
            return Err(ClientError::Closed);
        }
        let is_steady = match self.state {
            ConsumerState::Steady => true,
            _ => false,
        };
        let mut valid = is_steady;
        let p: i32 = match msg.partition {
            Some(p) => p,
            None => {
                valid = false;
                0
            },
        };
        let o: i64 = match msg.offset {
            Some(o) => o,
            None => {
                valid = false;
                -1
            },
        };
        if valid {
            valid = false;
            let mut k: usize = 0;
            while k < self.assignment.len() && !valid
                invariant
                    !valid ==> forall|j: int|
                        0 <= j < k ==> #[trigger] pa_views(self.assignment@)[j] != (msg@.topic, p),
                    valid ==> pa_views(self.assignment@).contains((msg@.topic, p)),
                    0 <= k <= self.assignment@.len(),
                decreases self.assignment@.len() - k + (if valid {
                    0int
                } else {
                    1int
                }),
            {
                if self.assignment[k].topic == msg.topic && self.assignment[k].partition == p {
                    proof {
                        assert(pa_views(self.assignment@)[k as int] == (msg@.topic, p));
                    }
                    valid = true;
                } else {
                    k += 1;
                }
            }
            proof {
                if !valid && pa_views(self.assignment@).contains((msg@.topic, p)) {
                    let w = choose|w: int|
                        0 <= w < pa_views(self.assignment@).len() && pa_views(self.assignment@)[w]
                            == (msg@.topic, p);
                    assert(false);
                }
            }
        }
        if valid {
            valid = false;
            if c.find_group_idx(&self.group).is_some() {
                match c.find_topic_idx(&msg.topic) {
                    Some(ti) => {
                        let count = c.topics[ti].partitions.len();
                        if 0 <= p && (p as usize) < count {
                            let len = c.topics[ti].partitions[p as usize].len();
                            if 0 <= o && (o as u64) < len as u64 {
                                valid = true;
                            }
                        }
                    },
                    None => {},
                }
            }
        }
        proof {
            assert(valid == commit_valid(*old(self), *old(c), msg@));
        }
        if valid {
            c.set_committed(&self.group, &msg.topic, p, o + 1);
            match mode {
                CommitMode::Sync => Ok(()),
                CommitMode::Async => {
                    let oc = OffsetCommit { topic: msg.topic.clone(), partition: p, offset: o + 1 };
                    self.pending_notes.push((oc, true));
                    Ok(())
                },
            }
        } else {
            match mode {
                CommitMode::Sync => Err(ClientError::CommitFailed),
                CommitMode::Async => {
                    let oc = OffsetCommit { topic: msg.topic.clone(), partition: p, offset: o };
                    self.pending_notes.push((oc, false));
                    Ok(())
                },
            }
        }
    }

    /// Leaves the group so its partitions are reassigned promptly, drops any
    /// pending notifications, and closes the consumer: later operations fail
    /// with the closed error.
    pub fn close(&mut self, c: &mut Cluster)
        requires
            old(self).wf(),
            old(c).wf(),
        ensures
            final(self).wf(),
            final(c).wf(),
            final(c).topics@ == old(c).topics@,
            final(self).state == ConsumerState::Closed,
            final(self).group@ == old(self).group@,
            final(self).assignment@.len() == 0,
            final(self).pending_notes@.len() == 0,
            final(c).groups@.len() == old(c).groups@.len(),
            (old(self).state == ConsumerState::Unsubscribed || old(self).state
                == ConsumerState::Closed) ==> *final(c) == *old(c),
            !(old(self).state == ConsumerState::Unsubscribed || old(self).state
                == ConsumerState::Closed) && old(c).has_group(old(self).group@) ==> !final(c).members(old(self).group@).contains(old(self).member_id) && final(c).has_group(
                old(self).group@,
            ) && final(c).group_i(old(self).group@) == old(c).group_i(old(self).group@) && (old(
                c,
            ).members(old(self).group@).contains(old(self).member_id) ==> exists|k: int|
                0 <= k < old(c).members(old(self).group@).len() && old(c).members(
                    old(self).group@,
                )[k] == old(self).member_id && final(c).members(old(self).group@) == old(
                    c,
                ).members(old(self).group@).remove(k)) && (!old(c).members(
                old(self).group@,
            ).contains(old(self).member_id) ==> final(c).members(old(self).group@) == old(
                c,
            ).members(old(self).group@)) && (forall|
                t: Seq<char>,
                pp: i32,
            |
                final(c).committed(old(self).group@, t, pp) == old(c).committed(
                    old(self).group@,
                    t,
                    pp,
                )),
    {
        let leave = match self.state {
            ConsumerState::Unsubscribed => false,
            ConsumerState::Closed => false,
            _ => true,
        };
        if leave {
            let ghost g = self.group@;
            c.leave_group(&self.group, self.member_id);
            proof {
                if old(c).has_group(g) {
                    let gi = old(c).group_i(g);
                    assert(c.groups@[gi].committed@ == old(c).groups@[gi].committed@);
                    assert(c.group_i(g) == gi);
                    assert forall|t: Seq<char>, pp: i32|
                        c.committed(g, t, pp) == old(c).committed(g, t, pp) by {}
                }
            }
        }
        self.state = ConsumerState::Closed;
        self.assignment = Vec::new();
        self.positions = Vec::new();
        self.pending_notes = Vec::new();
    }
}

/// A commit is accepted exactly when the consumer is steady, the message
/// names an owned partition, and its offset lies within that partition's
/// log.
pub open spec fn commit_valid(s: ConsumerGroup, c: Cluster, m: MessageView) -> bool {
    &&& s.state == ConsumerState::Steady
    &&& m.partition is Some
    &&& m.offset is Some
    &&& pa_views(s.assignment@).contains((m.topic, m.partition->0))
    &&& c.has_group(s.group@)
    &&& c.has_topic(m.topic)
    &&& 0 <= m.partition->0 < c.n_partitions(m.topic)
    &&& 0 <= m.offset->0 < c.log_len(m.topic, m.partition->0 as int)
}

} // verus!
