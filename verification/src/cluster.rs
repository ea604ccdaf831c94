//! An in-memory model of the messaging cluster the client core talks to.
//!
//! The cluster holds named topics, each a list of partition logs, and the
//! consumer-group coordinator state: members, subscriptions and committed
//! offsets per group. Every operation of the client core is verified against
//! this model.

use vstd::prelude::*;

use crate::errors::ClientError;
use crate::errors::FailureReason;
use crate::message::Message;
use crate::message::MessageView;
use crate::message::PartitionMetadata;
use crate::message::TopicDescriptor;
use crate::message::clone_bytes;
use crate::message::clone_headers;
use crate::message::clone_opt_bytes;

verus! {

/// One record as stored in a partition log.
#[derive(Debug)]
pub struct StoredRecord {
    pub key: Option<Vec<u8>>,
    pub payload: Vec<u8>,
    pub headers: Vec<(Vec<u8>, Vec<u8>)>,
    pub timestamp: Option<i64>,
}

/// The mathematical content of a [`StoredRecord`].
pub struct StoredRecordView {
    pub key: Option<Seq<u8>>,
    pub payload: Seq<u8>,
    pub headers: Seq<(Seq<u8>, Seq<u8>)>,
    pub timestamp: Option<i64>,
}

impl View for StoredRecord {
    type V = StoredRecordView;

    open spec fn view(&self) -> StoredRecordView {
        StoredRecordView {
            key: match self.key {
                Some(k) => Some(k@),
                None => None,
            },
            payload: self.payload@,
            headers: self.headers@.map_values(|h: (Vec<u8>, Vec<u8>)| (h.0@, h.1@)),
            timestamp: self.timestamp,
        }
    }
}

/// A named topic: a list of partition logs.
#[derive(Debug)]
pub struct TopicState {
    pub name: String,
    pub partitions: Vec<Vec<StoredRecord>>,
}

/// A committed offset of one group for one partition: the next offset to
/// resume from.
#[derive(Debug)]
pub struct CommitRecord {
    pub topic: String,
    pub partition: i32,
    pub next_offset: i64,
}

/// The coordinator state of one consumer group.
#[derive(Debug)]
pub struct GroupState {
    pub name: String,
    pub members: Vec<u64>,
    pub next_member: u64,
    pub subscription: Vec<String>,
    pub committed: Vec<CommitRecord>,
}

/// The in-memory cluster: topics plus consumer-group coordinator state.
#[derive(Debug)]
pub struct Cluster {
    pub topics: Vec<TopicState>,
    pub groups: Vec<GroupState>,
}

/// The index of the first topic named `name`, or `-1`.
pub open spec fn find_topic(ts: Seq<TopicState>, name: Seq<char>) -> int
    decreases ts.len(),
{
    if ts.len() == 0 {
        -1
    } else if ts[0].name@ == name {
        0
    } else {
        let r = find_topic(ts.drop_first(), name);
        if r == -1 {
            -1
        } else {
            r + 1
        }
    }
}

pub proof fn lemma_find_topic_char(ts: Seq<TopicState>, name: Seq<char>)
    ensures
        find_topic(ts, name) >= -1,
        find_topic(ts, name) == -1 ==> forall|i: int|
            0 <= i < ts.len() ==> (#[trigger] ts[i]).name@ != name,
        find_topic(ts, name) >= 0 ==> find_topic(ts, name) < ts.len() && ts[find_topic(
            ts,
            name,
        )].name@ == name && forall|i: int|
            0 <= i < find_topic(ts, name) ==> (#[trigger] ts[i]).name@ != name,
    decreases ts.len(),
{
    if ts.len() > 0 && ts[0].name@ != name {
        let tl = ts.drop_first();
        lemma_find_topic_char(tl, name);
        assert(tl =~= ts.subrange(1, ts.len() as int));
        let f = find_topic(ts, name);
        assert(f == (if find_topic(tl, name) == -1 {
            -1int
        } else {
            find_topic(tl, name) + 1
        }));
        if f == -1 {
            assert forall|i: int| 0 <= i < ts.len() implies (#[trigger] ts[i]).name@ != name by {
                if i > 0 {
                    assert(tl[i - 1] == ts[i]);
                    assert(tl[i - 1].name@ != name);
                }
            }
        } else {
            assert(tl[f - 1] == ts[f]);
            assert forall|i: int| 0 <= i < f implies (#[trigger] ts[i]).name@ != name by {
                if i > 0 {
                    assert(tl[i - 1] == ts[i]);
                    assert(tl[i - 1].name@ != name);
                }
            }
        }
    }
}

pub proof fn lemma_find_topic_is(ts: Seq<TopicState>, name: Seq<char>, k: int)
    requires
        0 <= k < ts.len(),
        ts[k].name@ == name,
        forall|i: int| 0 <= i < k ==> (#[trigger] ts[i]).name@ != name,
    ensures
        find_topic(ts, name) == k,
    decreases k,
{
    if k > 0 {
        assert(ts[0].name@ != name);
        assert(forall|i: int|
            0 <= i < ts.len() - 1 ==> #[trigger] ts.drop_first()[i] == ts[i + 1]);
        lemma_find_topic_is(ts.drop_first(), name, k - 1);
    }
}

pub proof fn lemma_find_topic_none(ts: Seq<TopicState>, name: Seq<char>)
    requires
        forall|i: int| 0 <= i < ts.len() ==> (#[trigger] ts[i]).name@ != name,
    ensures
        find_topic(ts, name) == -1,
    decreases ts.len(),
{
    if ts.len() > 0 {
        assert(forall|i: int|
            0 <= i < ts.len() - 1 ==> #[trigger] ts.drop_first()[i] == ts[i + 1]);
        lemma_find_topic_none(ts.drop_first(), name);
    }
}

pub proof fn lemma_find_topic_same(a: Seq<TopicState>, b: Seq<TopicState>, name: Seq<char>)
    requires
        a.len() == b.len(),
        forall|i: int| 0 <= i < a.len() ==> (#[trigger] b[i]).name@ == a[i].name@,
    ensures
        find_topic(b, name) == find_topic(a, name),
    decreases a.len(),
{
    if a.len() > 0 {
        assert(b[0].name@ == a[0].name@);
        if a[0].name@ != name {
            let at = a.drop_first();
            let bt = b.drop_first();
            assert forall|i: int|
                0 <= i < at.len() implies (#[trigger] bt[i]).name@ == at[i].name@ by {
                assert(bt[i] == b[i + 1]);
                assert(at[i] == a[i + 1]);
            }
            lemma_find_topic_same(at, bt, name);
        }
    }
}

/// The index of the first group named `name`, or `-1`.
pub open spec fn find_group(gs: Seq<GroupState>, name: Seq<char>) -> int
    decreases gs.len(),
{
    if gs.len() == 0 {
        -1
    } else if gs[0].name@ == name {
        0
    } else {
        let r = find_group(gs.drop_first(), name);
        if r == -1 {
            -1
        } else {
            r + 1
        }
    }
}

pub proof fn lemma_find_group_char(gs: Seq<GroupState>, name: Seq<char>)
    ensures
        find_group(gs, name) >= -1,
        find_group(gs, name) == -1 ==> forall|i: int|
            0 <= i < gs.len() ==> (#[trigger] gs[i]).name@ != name,
        find_group(gs, name) >= 0 ==> find_group(gs, name) < gs.len() && gs[find_group(
            gs,
            name,
        )].name@ == name && forall|i: int|
            0 <= i < find_group(gs, name) ==> (#[trigger] gs[i]).name@ != name,
    decreases gs.len(),
{
    if gs.len() > 0 && gs[0].name@ != name {
        let tl = gs.drop_first();
        lemma_find_group_char(tl, name);
        assert(tl =~= gs.subrange(1, gs.len() as int));
        let f = find_group(gs, name);
        assert(f == (if find_group(tl, name) == -1 {
            -1int
        } else {
            find_group(tl, name) + 1
        }));
        if f == -1 {
            assert forall|i: int| 0 <= i < gs.len() implies (#[trigger] gs[i]).name@ != name by {
                if i > 0 {
                    assert(tl[i - 1] == gs[i]);
                    assert(tl[i - 1].name@ != name);
                }
            }
        } else {
            assert(tl[f - 1] == gs[f]);
            assert forall|i: int| 0 <= i < f implies (#[trigger] gs[i]).name@ != name by {
                if i > 0 {
                    assert(tl[i - 1] == gs[i]);
                    assert(tl[i - 1].name@ != name);
                }
            }
        }
    }
}

pub proof fn lemma_find_group_is(gs: Seq<GroupState>, name: Seq<char>, k: int)
    requires
        0 <= k < gs.len(),
        gs[k].name@ == name,
        forall|i: int| 0 <= i < k ==> (#[trigger] gs[i]).name@ != name,
    ensures
        find_group(gs, name) == k,
    decreases k,
{
    if k > 0 {
        assert(gs[0].name@ != name);
        assert(forall|i: int|
            0 <= i < gs.len() - 1 ==> #[trigger] gs.drop_first()[i] == gs[i + 1]);
        lemma_find_group_is(gs.drop_first(), name, k - 1);
    }
}

pub proof fn lemma_find_group_none(gs: Seq<GroupState>, name: Seq<char>)
    requires
        forall|i: int| 0 <= i < gs.len() ==> (#[trigger] gs[i]).name@ != name,
    ensures
        find_group(gs, name) == -1,
    decreases gs.len(),
{
    if gs.len() > 0 {
        assert(forall|i: int|
            0 <= i < gs.len() - 1 ==> #[trigger] gs.drop_first()[i] == gs[i + 1]);
        lemma_find_group_none(gs.drop_first(), name);
    }
}

/// The index of the commit record for `(topic, partition)`, or `-1`.
pub open spec fn find_commit(cs: Seq<CommitRecord>, topic: Seq<char>, partition: i32) -> int
    decreases cs.len(),
{
    if cs.len() == 0 {
        -1
    } else if cs[0].topic@ == topic && cs[0].partition == partition {
        0
    } else {
        let r = find_commit(cs.drop_first(), topic, partition);
        if r == -1 {
            -1
        } else {
            r + 1
        }
    }
}

pub proof fn lemma_find_commit_char(cs: Seq<CommitRecord>, topic: Seq<char>, partition: i32)
    ensures
        find_commit(cs, topic, partition) >= -1,
        find_commit(cs, topic, partition) == -1 ==> forall|i: int|
            0 <= i < cs.len() ==> !((#[trigger] cs[i]).topic@ == topic && cs[i].partition
                == partition),
        find_commit(cs, topic, partition) >= 0 ==> find_commit(cs, topic, partition) < cs.len()
            && cs[find_commit(cs, topic, partition)].topic@ == topic && cs[find_commit(
            cs,
            topic,
            partition,
        )].partition == partition && forall|i: int|
            0 <= i < find_commit(cs, topic, partition) ==> !((#[trigger] cs[i]).topic@ == topic
                && cs[i].partition == partition),
    decreases cs.len(),
{
    if cs.len() > 0 && !(cs[0].topic@ == topic && cs[0].partition == partition) {
        let tl = cs.drop_first();
        lemma_find_commit_char(tl, topic, partition);
        assert(tl =~= cs.subrange(1, cs.len() as int));
        let f = find_commit(cs, topic, partition);
        assert(f == (if find_commit(tl, topic, partition) == -1 {
            -1int
        } else {
            find_commit(tl, topic, partition) + 1
        }));
        if f == -1 {
            assert forall|i: int| 0 <= i < cs.len() implies !((#[trigger] cs[i]).topic@ == topic
                && cs[i].partition == partition) by {
                if i > 0 {
                    assert(tl[i - 1] == cs[i]);
                    assert(!(tl[i - 1].topic@ == topic && tl[i - 1].partition == partition));
                }
            }
        } else {
            assert(tl[f - 1] == cs[f]);
            assert forall|i: int| 0 <= i < f implies !((#[trigger] cs[i]).topic@ == topic
                && cs[i].partition == partition) by {
                if i > 0 {
                    assert(tl[i - 1] == cs[i]);
                    assert(!(tl[i - 1].topic@ == topic && tl[i - 1].partition == partition));
                }
            }
        }
    }
}

pub proof fn lemma_find_commit_is(cs: Seq<CommitRecord>, topic: Seq<char>, partition: i32, k: int)
    requires
        0 <= k < cs.len(),
        cs[k].topic@ == topic && cs[k].partition == partition,
        forall|i: int|
            0 <= i < k ==> !((#[trigger] cs[i]).topic@ == topic && cs[i].partition == partition),
    ensures
        find_commit(cs, topic, partition) == k,
    decreases k,
{
    if k > 0 {
        assert(!(cs[0].topic@ == topic && cs[0].partition == partition));
        assert(forall|i: int|
            0 <= i < cs.len() - 1 ==> #[trigger] cs.drop_first()[i] == cs[i + 1]);
        lemma_find_commit_is(cs.drop_first(), topic, partition, k - 1);
    }
}

pub proof fn lemma_find_commit_none(cs: Seq<CommitRecord>, topic: Seq<char>, partition: i32)
    requires
        forall|i: int|
            0 <= i < cs.len() ==> !((#[trigger] cs[i]).topic@ == topic && cs[i].partition
                == partition),
    ensures
        find_commit(cs, topic, partition) == -1,
    decreases cs.len(),
{
    if cs.len() > 0 {
        assert(forall|i: int|
            0 <= i < cs.len() - 1 ==> #[trigger] cs.drop_first()[i] == cs[i + 1]);
        lemma_find_commit_none(cs.drop_first(), topic, partition);
    }
}

impl Cluster {
    /// The index of the topic named `t`, or `-1`.
    pub open spec fn topic_i(self, t: Seq<char>) -> int {
        find_topic(self.topics@, t)
    }

    /// Does a topic named `t` exist?
    pub open spec fn has_topic(self, t: Seq<char>) -> bool {
        self.topic_i(t) >= 0
    }

    /// How many partitions topic `t` has.
    pub open spec fn n_partitions(self, t: Seq<char>) -> int {
        self.topics@[self.topic_i(t)].partitions@.len() as int
    }

    /// The log of partition `p` of topic `t`.
    pub open spec fn log(self, t: Seq<char>, p: int) -> Seq<StoredRecord> {
        self.topics@[self.topic_i(t)].partitions@[p]@
    }

    /// The length of the log of partition `p` of topic `t`.
    pub open spec fn log_len(self, t: Seq<char>, p: int) -> int {
        self.log(t, p).len() as int
    }

    /// The index of the group named `g`, or `-1`.
    pub open spec fn group_i(self, g: Seq<char>) -> int {
        find_group(self.groups@, g)
    }

    /// Does a group named `g` exist?
    pub open spec fn has_group(self, g: Seq<char>) -> bool {
        self.group_i(g) >= 0
    }

    /// The member identifiers of group `g`, in join order.
    pub open spec fn members(self, g: Seq<char>) -> Seq<u64> {
        self.groups@[self.group_i(g)].members@
    }

    /// The topic names group `g` is subscribed to.
    pub open spec fn subscription(self, g: Seq<char>) -> Seq<Seq<char>> {
        self.groups@[self.group_i(g)].subscription@.map_values(|s: String| s@)
    }

    /// The committed next offset of group `g` for `(t, p)`; zero when the
    /// group never committed there.
    pub open spec fn committed(self, g: Seq<char>, t: Seq<char>, p: i32) -> int {
        if !self.has_group(g) {
            0
        } else {
            let cs = self.groups@[self.group_i(g)].committed@;
            let ci = find_commit(cs, t, p);
            if ci == -1 {
                0
            } else {
                cs[ci].next_offset as int
            }
        }
    }

    /// Topics are well formed: distinct names, between one and `i32::MAX`
    /// partitions, and logs short enough that offsets fit in an `i64`.
    pub open spec fn topics_wf(self) -> bool {
        &&& forall|i: int, j: int|
            0 <= i < j < self.topics@.len() ==> (#[trigger] self.topics@[i]).name@ != (
            #[trigger] self.topics@[j]).name@
        &&& forall|i: int|
            0 <= i < self.topics@.len() ==> 1 <= (#[trigger] self.topics@[i]).partitions@.len()
                <= i32::MAX as int
        &&& forall|i: int, p: int|
            0 <= i < self.topics@.len() && 0 <= p < self.topics@[i].partitions@.len() ==> (
            #[trigger] self.topics@[i].partitions@[p])@.len() <= i64::MAX as int
    }

    /// Groups are well formed: distinct names, distinct live members all
    /// below the next fresh identifier, a duplicate-free subscription, and
    /// one commit record per partition with a non-negative offset.
    pub open spec fn groups_wf(self) -> bool {
        &&& forall|g: int, h: int|
            0 <= g < h < self.groups@.len() ==> (#[trigger] self.groups@[g]).name@ != (
            #[trigger] self.groups@[h]).name@
        &&& forall|g: int, a: int|
            0 <= g < self.groups@.len() && 0 <= a < self.groups@[g].members@.len() ==> (
            #[trigger] self.groups@[g].members@[a]) < self.groups@[g].next_member
        &&& forall|g: int, a: int, b: int|
            0 <= g < self.groups@.len() && 0 <= a < b < self.groups@[g].members@.len() ==> (
            #[trigger] self.groups@[g].members@[a]) != (#[trigger] self.groups@[g].members@[b])
        &&& forall|g: int, a: int, b: int|
            0 <= g < self.groups@.len() && 0 <= a < b < self.groups@[g].subscription@.len() ==> (
            #[trigger] self.groups@[g].subscription@[a])@ != (
            #[trigger] self.groups@[g].subscription@[b])@
        &&& forall|g: int, a: int, b: int|
            0 <= g < self.groups@.len() && 0 <= a < b < self.groups@[g].committed@.len() ==> !((
            #[trigger] self.groups@[g].committed@[a]).topic@ == (
            #[trigger] self.groups@[g].committed@[b]).topic@
                && self.groups@[g].committed@[a].partition
                == self.groups@[g].committed@[b].partition)
        &&& forall|g: int, a: int|
            0 <= g < self.groups@.len() && 0 <= a < self.groups@[g].committed@.len() ==> (
            #[trigger] self.groups@[g].committed@[a]).next_offset >= 0
    }

    /// The cluster invariant.
    pub open spec fn wf(self) -> bool {
        self.topics_wf() && self.groups_wf()
    }

    /// The message a consumer sees for offset `o` of `(t, p)`.
    pub open spec fn stored_msg(self, t: Seq<char>, p: int, o: int) -> MessageView {
        let rec = self.log(t, p)[o];
        MessageView {
            key: rec@.key,
            payload: rec@.payload,
            headers: rec@.headers,
            topic: t,
            partition: Some(p as i32),
            offset: Some(o as i64),
            timestamp: rec@.timestamp,
        }
    }

    /// The messages of `(t, p)` from offset `from` to the end of the log.
    pub open spec fn records_from(self, t: Seq<char>, p: int, from: int) -> Seq<MessageView> {
        Seq::new((self.log_len(t, p) - from) as nat, |i: int| self.stored_msg(t, p, from + i))
    }

    /// A fresh cluster without topics or groups.
    pub fn new() -> (c: Cluster)
        ensures
            c.topics@.len() == 0,
            c.groups@.len() == 0,
            c.wf(),
    {
        Cluster { topics: Vec::new(), groups: Vec::new() }
    }

    /// Looks a topic up by name.
    pub fn find_topic_idx(&self, name: &String) -> (r: Option<usize>)
        ensures
            (match r {
                Some(i) => self.topic_i(name@) == i && i < self.topics@.len(),
                None => self.topic_i(name@) == -1,
            }),
    {
        let mut i: usize = 0;
        while i < self.topics.len()
            invariant
                0 <= i <= self.topics@.len(),
                forall|j: int| 0 <= j < i ==> (#[trigger] self.topics@[j]).name@ != name@,
            decreases self.topics@.len() - i,
        {
            if self.topics[i].name == *name {
                proof {
                    lemma_find_topic_is(self.topics@, name@, i as int);
                }
                return Some(i);
            }
            i += 1;
        }
        proof {
            lemma_find_topic_none(self.topics@, name@);
        }
        None
    }

    /// Creates a topic with the given number of partitions, all logs empty.
    pub fn create_topic(&mut self, name: &String, partitions: i32) -> (r: Result<
        TopicDescriptor,
        ClientError,
    >)
        requires
            old(self).wf(),
            1 <= partitions,
        ensures
            final(self).wf(),
            (match r {
                Ok(d) => !old(self).has_topic(name@) && final(self).has_topic(name@)
                    && final(self).n_partitions(name@) == partitions && (forall|p: int|
                    0 <= p < partitions ==> final(self).log_len(name@, p) == 0) && final(self).topics@.len() == old(self).topics@.len() + 1 && final(self).topics@.subrange(
                    0,
                    old(self).topics@.len() as int,
                ) == old(self).topics@ && final(self).groups@ == old(self).groups@ && d.name@
                    == name@ && d.partition_count == partitions && d.verbose_metadata is None,
                Err(e) => e == ClientError::TopicExists && old(self).has_topic(name@) && *final(self) == *old(self),
            }),
    {
        match self.find_topic_idx(name) {
            Some(_) => Err(ClientError::TopicExists),
            None => {
                proof {
                    lemma_find_topic_char(self.topics@, name@);
                }
                let mut parts: Vec<Vec<StoredRecord>> = Vec::new();
                let target: usize = partitions as usize;
                let mut p: usize = 0;
                while p < target
                    invariant
                        0 <= p <= target,
                        parts@.len() == p,
                        forall|k: int| 0 <= k < p ==> (#[trigger] parts@[k])@.len() == 0,
                    decreases target - p,
                {
                    parts.push(Vec::new());
                    p += 1;
                }
                let t = TopicState { name: name.clone(), partitions: parts };
                let ghost oldtopics = self.topics@;
                self.topics.push(t);
                proof {
                    lemma_find_topic_is(self.topics@, name@, oldtopics.len() as int);
                    assert(self.topics@.subrange(0, oldtopics.len() as int) =~= oldtopics);
                    assert forall|i: int, j: int|
                        0 <= i < j < self.topics@.len() implies (
                    #[trigger] self.topics@[i]).name@ != (#[trigger] self.topics@[j]).name@ by {
                        if j < oldtopics.len() {
                            assert(self.topics@[i] == oldtopics[i]);
                            assert(self.topics@[j] == oldtopics[j]);
                        } else {
                            assert(self.topics@[i] == oldtopics[i]);
                        }
                    }
                }
                let d = TopicDescriptor {
                    name: name.clone(),
                    partition_count: partitions,
                    verbose_metadata: None,
                };
                Ok(d)
            },
        }
    }

    /// Deletes the topic named `name`.
    pub fn delete_topic(&mut self, name: &String) -> (r: Result<(), ClientError>)
        requires
            old(self).wf(),
        ensures
            final(self).wf(),
            (match r {
                Ok(()) => old(self).has_topic(name@) && !final(self).has_topic(name@) && final(self).topics@ == old(self).topics@.remove(old(self).topic_i(name@)) && final(self).groups@ == old(self).groups@,
                Err(e) => e == ClientError::TopicNotFound && !old(self).has_topic(name@) && *final(self) == *old(self),
            }),
    {
        match self.find_topic_idx(name) {
            None => Err(ClientError::TopicNotFound),
            Some(i) => {
                let ghost oldtopics = self.topics@;
                let ghost ti = i as int;
                self.topics.remove(i);
                proof {
                    lemma_find_topic_char(oldtopics, name@);
                    assert forall|j: int|
                        0 <= j < self.topics@.len() implies (#[trigger] self.topics@[j]).name@
                        != name@ by {
                        if j < ti {
                            assert(self.topics@[j] == oldtopics[j]);
                        } else {
                            assert(self.topics@[j] == oldtopics[j + 1]);
                        }
                    }
                    lemma_find_topic_none(self.topics@, name@);
                    assert forall|i2: int, j2: int|
                        0 <= i2 < j2 < self.topics@.len() implies (
                    #[trigger] self.topics@[i2]).name@ != (#[trigger] self.topics@[j2]).name@ by {
                        let a = if i2 < ti {
                            i2
                        } else {
                            i2 + 1
                        };
                        let b = if j2 < ti {
                            j2
                        } else {
                            j2 + 1
                        };
                        assert(self.topics@[i2] == oldtopics[a]);
                        assert(self.topics@[j2] == oldtopics[b]);
                    }
                }
                Ok(())
            },
        }
    }

    /// Lists all topics. Without `verbose` only names and partition counts
    /// are populated; with it, per-partition replica and leader metadata too.
    pub fn list_topics(&self, verbose: bool) -> (r: Vec<TopicDescriptor>)
        requires
            self.wf(),
        ensures
            r@.len() == self.topics@.len(),
            forall|i: int|
                0 <= i < r@.len() ==> (#[trigger] r@[i]).name@ == self.topics@[i].name@,
            forall|i: int|
                0 <= i < r@.len() ==> (#[trigger] r@[i]).partition_count
                    == self.topics@[i].partitions@.len(),
            !verbose ==> forall|i: int| 0 <= i < r@.len() ==> (#[trigger] r@[i]).verbose_metadata
                is None,
            verbose ==> forall|i: int|
                0 <= i < r@.len() ==> ((#[trigger] r@[i]).verbose_metadata matches Some(md)
                    && md@.len() == self.topics@[i].partitions@.len() && (forall|p: int|
                    0 <= p < md@.len() ==> (#[trigger] md@[p]).partition == p && md@[p].leader == 0
                        && md@[p].replicas@ == seq![0i32])),
    {
        let mut r: Vec<TopicDescriptor> = Vec::new();
        let mut i: usize = 0;
        while i < self.topics.len()
            invariant
                self.wf(),
                0 <= i <= self.topics@.len(),
                r@.len() == i,
                forall|k: int|
                    0 <= k < i ==> (#[trigger] r@[k]).name@ == self.topics@[k].name@,
                forall|k: int|
                    0 <= k < i ==> (#[trigger] r@[k]).partition_count
                        == self.topics@[k].partitions@.len(),
                !verbose ==> forall|k: int|
                    0 <= k < i ==> (#[trigger] r@[k]).verbose_metadata is None,
                verbose ==> forall|k: int|
                    0 <= k < i ==> ((#[trigger] r@[k]).verbose_metadata matches Some(md)
                        && md@.len() == self.topics@[k].partitions@.len() && (forall|p: int|
                        0 <= p < md@.len() ==> (#[trigger] md@[p]).partition == p && md@[p].leader
                            == 0 && md@[p].replicas@ == seq![0i32])),
            decreases self.topics@.len() - i,
        {
            let count = self.topics[i].partitions.len();
            let meta: Option<Vec<PartitionMetadata>> = if verbose {
                let mut md: Vec<PartitionMetadata> = Vec::new();
                let mut p: usize = 0;
                while p < count
                    invariant
                        self.wf(),
                        i < self.topics@.len(),
                        count == self.topics@[i as int].partitions@.len(),
                        0 <= p <= count,
                        md@.len() == p,
                        forall|q: int|
                            0 <= q < p ==> (#[trigger] md@[q]).partition == q && md@[q].leader == 0
                                && md@[q].replicas@ == seq![0i32],
                    decreases count - p,
                {
                    let mut reps: Vec<i32> = Vec::new();
                    reps.push(0);
                    proof {
                        assert(reps@ =~= seq![0i32]);
                    }
                    md.push(PartitionMetadata { partition: p as i32, leader: 0, replicas: reps });
                    p += 1;
                }
                Some(md)
            } else {
                None
            };
            let d = TopicDescriptor {
                name: self.topics[i].name.clone(),
                partition_count: count as i32,
                verbose_metadata: meta,
            };
            r.push(d);
            i += 1;
        }
        r
    }

    /// Appends a record to partition `p` of `topic`; the returned offset is
    /// the prior length of that log. Fails only when the log is at capacity.
    pub fn append(&mut self, topic: &String, p: usize, rec: StoredRecord) -> (r: Result<
        i64,
        ClientError,
    >)
        requires
            old(self).wf(),
            old(self).has_topic(topic@),
            p < old(self).n_partitions(topic@),
        ensures
            final(self).wf(),
            final(self).groups@ == old(self).groups@,
            final(self).topics@.len() == old(self).topics@.len(),
            forall|i: int|
                0 <= i < final(self).topics@.len() ==> (#[trigger] final(self).topics@[i]).name@
                    == old(self).topics@[i].name@ && final(self).topics@[i].partitions@.len()
                    == old(self).topics@[i].partitions@.len(),
            (match r {
                Ok(off) => off == old(self).log_len(topic@, p as int) && final(self).log(
                    topic@,
                    p as int,
                ) == old(self).log(topic@, p as int).push(rec) && (forall|i: int, q: int|
                    0 <= i < final(self).topics@.len() && 0 <= q < final(self).topics@[i].partitions@.len() && !(i == old(self).topic_i(topic@) && q == p)
                        ==> (#[trigger] final(self).topics@[i].partitions@[q]) == old(
                        self,
                    ).topics@[i].partitions@[q]),
                Err(e) => e == ClientError::DeliveryFailure(FailureReason::Rejected) && *final(self)
                    == *old(self) && old(self).log_len(topic@, p as int) == i64::MAX as int,
            }),
    {
        proof {
            lemma_find_topic_char(old(self).topics@, topic@);
        }
        let i = match self.find_topic_idx(topic) {
            Some(i) => i,
            None => {
                proof {
                    assert(false);
                }
                return Err(ClientError::DeliveryFailure(FailureReason::Rejected));
            },
        };
        if self.topics[i].partitions[p].len() as u64 >= i64::MAX as u64 {
            return Err(ClientError::DeliveryFailure(FailureReason::Rejected));
        }
        let ghost olds = *self;
        let ghost ti = i as int;
        let mut t = self.topics.remove(i);
        let mut part = t.partitions.remove(p);
        let off = part.len() as i64;
        part.push(rec);
        t.partitions.insert(p, part);
        self.topics.insert(i, t);
        proof {
            assert forall|j: int|
                0 <= j < self.topics@.len() && j != ti implies #[trigger] self.topics@[j]
                == olds.topics@[j] by {
                if j < ti {
                    assert(self.topics@[j] == olds.topics@.remove(ti)[j]);
                } else {
                    assert(self.topics@[j] == olds.topics@.remove(ti)[j - 1]);
                }
            }
            assert(self.topics@[ti].partitions@[p as int]@ =~= olds.topics@[
                ti].partitions@[p as int]@.push(rec));
            assert forall|q: int|
                0 <= q < self.topics@[ti].partitions@.len() && q != p implies
                #[trigger] self.topics@[ti].partitions@[q] == olds.topics@[ti].partitions@[q] by {
                if q < p {
                    assert(self.topics@[ti].partitions@[q] == olds.topics@[
                        ti].partitions@.remove(p as int)[q]);
                } else {
                    assert(self.topics@[ti].partitions@[q] == olds.topics@[
                        ti].partitions@.remove(p as int)[q - 1]);
                }
            }
            assert(self.topics@[ti].name@ == olds.topics@[ti].name@);
            assert(self.topics@[ti].partitions@.len() == olds.topics@[ti].partitions@.len());
            lemma_find_topic_is(self.topics@, topic@, ti);
            assert(self.log(topic@, p as int) =~= olds.log(topic@, p as int).push(rec));
        }
        Ok(off)
    }

    /// Fetches every record of `(topic, p)` from offset `from` on, in stored
    /// order, materialised as messages with partition and offset populated.
    pub fn fetch_from(&self, topic: &String, p: usize, from: i64) -> (r: Vec<Message>)
        requires
            self.wf(),
            self.has_topic(topic@),
            p < self.n_partitions(topic@),
            0 <= from <= self.log_len(topic@, p as int),
        ensures
            r@.map_values(|m: Message| m@) == self.records_from(topic@, p as int, from as int),
    {
        let i = match self.find_topic_idx(topic) {
            Some(i) => i,
            None => {
                proof {
                    assert(false);
                }
                return Vec::new();
            },
        };
        let log = &self.topics[i].partitions[p];
        let n = log.len();
        proof {
            assert(log@ == self.log(topic@, p as int));
            assert(from <= n as int);
        }
        let mut r: Vec<Message> = Vec::new();
        let mut o: usize = from as usize;
        while o < log.len()
            invariant
                self.wf(),
                self.has_topic(topic@),
                i == self.topic_i(topic@),
                p < self.n_partitions(topic@),
                log@ == self.log(topic@, p as int),
                0 <= from <= o <= log@.len(),
                log@.len() <= i64::MAX as int,
                r@.len() == o - from,
                forall|k: int|
                    0 <= k < r@.len() ==> (#[trigger] r@[k])@ == self.stored_msg(
                        topic@,
                        p as int,
                        from + k,
                    ),
            decreases log@.len() - o,
        {
            let rec = &log[o];
            let m = Message {
                key: clone_opt_bytes(&rec.key),
                payload: clone_bytes(&rec.payload),
                headers: clone_headers(&rec.headers),
                topic: topic.clone(),
                partition: Some(p as i32),
                offset: Some(o as i64),
                timestamp: rec.timestamp,
            };
            proof {
                assert(m@ =~~= self.stored_msg(topic@, p as int, o as int));
            }
            r.push(m);
            o += 1;
        }
        proof {
            assert(r@.map_values(|m: Message| m@) =~~= self.records_from(
                topic@,
                p as int,
                from as int,
            ));
        }
        r
    }

    /// Looks a group up by name.
    pub fn find_group_idx(&self, name: &String) -> (r: Option<usize>)
        ensures
            (match r {
                Some(i) => self.group_i(name@) == i && i < self.groups@.len(),
                None => self.group_i(name@) == -1,
            }),
    {
        let mut i: usize = 0;
        while i < self.groups.len()
            invariant
                0 <= i <= self.groups@.len(),
                forall|j: int| 0 <= j < i ==> (#[trigger] self.groups@[j]).name@ != name@,
            decreases self.groups@.len() - i,
        {
            if self.groups[i].name == *name {
                proof {
                    lemma_find_group_is(self.groups@, name@, i as int);
                }
                return Some(i);
            }
            i += 1;
        }
        proof {
            lemma_find_group_none(self.groups@, name@);
        }
        None
    }

    /// Registers a new member with the group's coordinator, creating the
    /// group on first contact, and records the group subscription. Returns
    /// the fresh member identifier.
    pub fn join_group(&mut self, group: &String, topics: &Vec<String>) -> (r: Result<
        u64,
        ClientError,
    >)
        requires
            old(self).wf(),
        ensures
            final(self).wf(),
            final(self).topics@ == old(self).topics@,
            (match r {
                Ok(id) => final(self).has_group(group@) && final(self).members(group@) == (
                if old(self).has_group(group@) {
                    old(self).members(group@)
                } else {
                    Seq::<u64>::empty()
                }).push(id) && (old(self).has_group(group@) ==> !old(self).members(
                    group@,
                ).contains(id)) && (old(self).has_group(group@) ==> final(self).group_i(group@)
                    == old(self).group_i(group@) && final(self).groups@.len() == old(
                    self,
                ).groups@.len()) && (forall|t: Seq<char>, pp: i32|
                    final(self).committed(group@, t, pp) == old(self).committed(group@, t, pp))
                    && final(self).subscription(group@) == spec_dedup(
                    crate::models::str_views(topics@),
                ) && (forall|j: int|
                    0 <= j < old(self).groups@.len() && j != final(self).group_i(group@)
                        ==> #[trigger] final(self).groups@[j] == old(self).groups@[j]),
                Err(e) => e == ClientError::ClusterUnavailable && *final(self) == *old(self)
                    && old(self).has_group(group@) && old(self).groups@[old(self).group_i(
                    group@,
                )].next_member == u64::MAX,
            }),
    {
        let sub = dedup_names(topics);
        match self.find_group_idx(group) {
            Some(gi) => {
                proof {
                    lemma_find_group_char(self.groups@, group@);
                }
                if self.groups[gi].next_member == u64::MAX {
                    return Err(ClientError::ClusterUnavailable);
                }
                let ghost olds = *self;
                let mut g = self.groups.remove(gi);
                let id = g.next_member;
                g.next_member = id + 1;
                g.members.push(id);
                g.subscription = sub;
                self.groups.insert(gi, g);
                proof {
                    let gip = gi as int;
                    assert forall|j: int|
                        0 <= j < self.groups@.len() && j != gip implies #[trigger] self.groups@[j]
                        == olds.groups@[j] by {
                        if j < gip {
                            assert(self.groups@[j] == olds.groups@.remove(gip)[j]);
                        } else {
                            assert(self.groups@[j] == olds.groups@.remove(gip)[j - 1]);
                        }
                    }
                    lemma_find_group_is(self.groups@, group@, gip);
                    assert(self.members(group@) =~= olds.members(group@).push(id));
                    assert forall|k: int|
                        0 <= k < olds.members(group@).len() implies olds.members(group@)[k]
                        != id by {}
                    assert(!olds.members(group@).contains(id));
                    assert forall|t: Seq<char>, pp: i32|
                        self.committed(group@, t, pp) == olds.committed(group@, t, pp) by {
                        assert(self.groups@[gip].committed@ == olds.groups@[gip].committed@);
                    }
                }
                Ok(id)
            },
            None => {
                proof {
                    lemma_find_group_char(self.groups@, group@);
                }
                let ghost olds = *self;
                let mut members: Vec<u64> = Vec::new();
                members.push(0);
                let g = GroupState {
                    name: group.clone(),
                    members,
                    next_member: 1,
                    subscription: sub,
                    committed: Vec::new(),
                };
                self.groups.push(g);
                proof {
                    let gip = olds.groups@.len() as int;
                    lemma_find_group_is(self.groups@, group@, gip);
                    assert(self.members(group@) =~= Seq::<u64>::empty().push(0u64));
                    assert(self.groups@[gip].committed@ =~= Seq::<CommitRecord>::empty());
                    assert forall|t: Seq<char>, pp: i32|
                        self.committed(group@, t, pp) == olds.committed(group@, t, pp) by {
                        lemma_find_commit_none(self.groups@[gip].committed@, t, pp);
                    }
                    assert forall|g2: int, h2: int|
                        0 <= g2 < h2 < self.groups@.len() implies (
                    #[trigger] self.groups@[g2]).name@ != (#[trigger] self.groups@[h2]).name@ by {
                        if h2 < gip {
                            assert(self.groups@[g2] == olds.groups@[g2]);
                            assert(self.groups@[h2] == olds.groups@[h2]);
                        } else {
                            assert(self.groups@[g2] == olds.groups@[g2]);
                        }
                    }
                }
                Ok(0)
            },
        }
    }

    /// Removes a member from a group, as when it leaves cleanly or the
    /// coordinator expires its session. Unknown groups or members are
    /// ignored.
    pub fn leave_group(&mut self, group: &String, member: u64)
        requires
            old(self).wf(),
        ensures
            final(self).wf(),
            final(self).topics@ == old(self).topics@,
            final(self).groups@.len() == old(self).groups@.len(),
            !old(self).has_group(group@) ==> *final(self) == *old(self),
            old(self).has_group(group@) ==> final(self).group_i(group@) == old(self).group_i(
                group@,
            ) && !final(self).members(group@).contains(member) && (forall|j: int|
                0 <= j < old(self).groups@.len() && j != old(self).group_i(group@)
                    ==> #[trigger] final(self).groups@[j] == old(self).groups@[j]) && final(self).groups@[old(self).group_i(group@)].subscription@ == old(self).groups@[old(
                self,
            ).group_i(group@)].subscription@ && final(self).groups@[old(self).group_i(
                group@,
            )].committed@ == old(self).groups@[old(self).group_i(group@)].committed@ && (!old(
                self,
            ).members(group@).contains(member) ==> final(self).members(group@) == old(
                self,
            ).members(group@)) && (old(self).members(group@).contains(member) ==> exists|k: int|
                0 <= k < old(self).members(group@).len() && old(self).members(group@)[k] == member
                    && final(self).members(group@) == old(self).members(group@).remove(k)),
    {
        let gi = match self.find_group_idx(group) {
            Some(gi) => gi,
            None => {
                return ;
            },
        };
        let n = self.groups[gi].members.len();
        let mut k: usize = 0;
        let mut found = false;
        while k < n && !found
            invariant
                gi < self.groups@.len(),
                n == self.groups@[gi as int].members@.len(),
                0 <= k <= n,
                !found ==> forall|j: int|
                    0 <= j < k ==> (#[trigger] self.groups@[gi as int].members@[j]) != member,
                found ==> k < n && self.groups@[gi as int].members@[k as int] == member
                    && forall|j: int|
                    0 <= j < k ==> (#[trigger] self.groups@[gi as int].members@[j]) != member,
            decreases n - k + (if found {
                0int
            } else {
                1int
            }),
        {
            if self.groups[gi].members[k] == member {
                found = true;
            } else {
                k += 1;
            }
        }
        if !found {
            proof {
                assert(!self.members(group@).contains(member));
            }
            return ;
        }
        let ghost olds = *self;
        let mut g = self.groups.remove(gi);
        g.members.remove(k);
        self.groups.insert(gi, g);
        proof {
            let gip = gi as int;
            let kp = k as int;
            assert forall|j: int|
                0 <= j < self.groups@.len() && j != gip implies #[trigger] self.groups@[j]
                == olds.groups@[j] by {
                if j < gip {
                    assert(self.groups@[j] == olds.groups@.remove(gip)[j]);
                } else {
                    assert(self.groups@[j] == olds.groups@.remove(gip)[j - 1]);
                }
            }
            lemma_find_group_char(olds.groups@, group@);
            assert(self.groups@[gip].name@ == olds.groups@[gip].name@);
            lemma_find_group_is(self.groups@, group@, gip);
            assert(self.members(group@) == olds.members(group@).remove(kp));
            assert forall|j: int|
                0 <= j < self.members(group@).len() implies (#[trigger] self.members(group@)[j])
                != member by {
                if j < kp {
                    assert(self.members(group@)[j] == olds.members(group@)[j]);
                } else {
                    assert(self.members(group@)[j] == olds.members(group@)[j + 1]);
                }
            }
            assert(!self.members(group@).contains(member));
            assert(olds.members(group@)[kp] == member);
        }
    }

    /// The committed next offset of `group` for `(topic, p)`; zero when the
    /// group never committed there.
    pub fn committed_next(&self, group: &String, topic: &String, p: i32) -> (r: i64)
        requires
            self.wf(),
        ensures
            r == self.committed(group@, topic@, p),
            r >= 0,
    {
        let gi = match self.find_group_idx(group) {
            Some(gi) => gi,
            None => {
                return 0;
            },
        };
        let cs = &self.groups[gi].committed;
        let mut i: usize = 0;
        while i < cs.len()
            invariant
                self.wf(),
                gi < self.groups@.len(),
                gi == self.group_i(group@),
                cs@ == self.groups@[gi as int].committed@,
                0 <= i <= cs@.len(),
                forall|j: int|
                    0 <= j < i ==> !((#[trigger] cs@[j]).topic@ == topic@ && cs@[j].partition
                        == p),
            decreases cs@.len() - i,
        {
            if cs[i].topic == *topic && cs[i].partition == p {
                proof {
                    lemma_find_commit_is(cs@, topic@, p, i as int);
                    assert(self.groups@[gi as int].committed@[i as int].next_offset >= 0);
                }
                return cs[i].next_offset;
            }
            i += 1;
        }
        proof {
            lemma_find_commit_none(cs@, topic@, p);
        }
        0
    }

    /// Persists the committed next offset of `group` for `(topic, p)`.
    pub fn set_committed(&mut self, group: &String, topic: &String, p: i32, next: i64)
        requires
            old(self).wf(),
            old(self).has_group(group@),
            next >= 0,
        ensures
            final(self).wf(),
            final(self).topics@ == old(self).topics@,
            final(self).groups@.len() == old(self).groups@.len(),
            final(self).group_i(group@) == old(self).group_i(group@),
            forall|j: int|
                0 <= j < old(self).groups@.len() && j != old(self).group_i(group@)
                    ==> #[trigger] final(self).groups@[j] == old(self).groups@[j],
            final(self).groups@[old(self).group_i(group@)].members@ == old(self).groups@[old(
                self,
            ).group_i(group@)].members@,
            final(self).groups@[old(self).group_i(group@)].subscription@ == old(
                self,
            ).groups@[old(self).group_i(group@)].subscription@,
            final(self).committed(group@, topic@, p) == next,
            forall|t: Seq<char>, pp: i32|
                !(t == topic@ && pp == p) ==> final(self).committed(group@, t, pp) == old(
                    self,
                ).committed(group@, t, pp),
    {
        let gi = match self.find_group_idx(group) {
            Some(gi) => gi,
            None => {
                proof {
                    assert(false);
                }
                return ;
            },
        };
        let ghost olds = *self;
        let ghost gip = gi as int;
        let mut g = self.groups.remove(gi);
        let cs_len = g.committed.len();
        let mut ci: usize = 0;
        let mut found = false;
        while ci < cs_len && !found
            invariant
                cs_len == g.committed@.len(),
                0 <= ci <= cs_len,
                !found ==> forall|j: int|
                    0 <= j < ci ==> !((#[trigger] g.committed@[j]).topic@ == topic@
                        && g.committed@[j].partition == p),
                found ==> ci < cs_len && g.committed@[ci as int].topic@ == topic@
                    && g.committed@[ci as int].partition == p && forall|j: int|
                    0 <= j < ci ==> !((#[trigger] g.committed@[j]).topic@ == topic@
                        && g.committed@[j].partition == p),
            decreases cs_len - ci + (if found {
                0int
            } else {
                1int
            }),
        {
            if g.committed[ci].topic == *topic && g.committed[ci].partition == p {
                found = true;
            } else {
                ci += 1;
            }
        }
        let rec = CommitRecord { topic: topic.clone(), partition: p, next_offset: next };
        let ghost oldcs = g.committed@;
        if found {
            g.committed.remove(ci);
            g.committed.insert(ci, rec);
        } else {
            g.committed.push(rec);
        }
        let ghost newcs = g.committed@;
        self.groups.insert(gi, g);
        proof {
            let cip = ci as int;
            assert forall|j: int|
                0 <= j < newcs.len() && j != cip implies #[trigger] newcs[j] == oldcs[j] by {
                if found {
                    if j < cip {
                        assert(newcs[j] == oldcs.remove(cip)[j]);
                    } else {
                        assert(newcs[j] == oldcs.remove(cip)[j - 1]);
                    }
                }
            }
            assert forall|j: int|
                0 <= j < self.groups@.len() && j != gip implies #[trigger] self.groups@[j]
                == olds.groups@[j] by {
                if j < gip {
                    assert(self.groups@[j] == olds.groups@.remove(gip)[j]);
                } else {
                    assert(self.groups@[j] == olds.groups@.remove(gip)[j - 1]);
                }
            }
            lemma_find_group_char(olds.groups@, group@);
            assert(self.groups@[gip].name@ == olds.groups@[gip].name@);
            lemma_find_group_is(self.groups@, group@, gip);
            lemma_find_commit_is(newcs, topic@, p, cip);
            assert(self.committed(group@, topic@, p) == next);
            assert forall|t: Seq<char>, pp: i32|
                !(t == topic@ && pp == p) implies self.committed(group@, t, pp) == olds.committed(
                group@,
                t,
                pp,
            ) by {
                lemma_find_commit_char(oldcs, t, pp);
                let f = find_commit(oldcs, t, pp);
                if f == -1 {
                    assert forall|j: int|
                        0 <= j < newcs.len() implies !((#[trigger] newcs[j]).topic@ == t
                            && newcs[j].partition == pp) by {
                        if j != cip {
                            assert(newcs[j] == oldcs[j]);
                        }
                    }
                    lemma_find_commit_none(newcs, t, pp);
                } else {
                    assert(f != cip || !found);
                    assert(newcs[f] == oldcs[f]);
                    assert forall|j: int|
                        0 <= j < f implies !((#[trigger] newcs[j]).topic@ == t
                            && newcs[j].partition == pp) by {
                        if j != cip {
                            assert(newcs[j] == oldcs[j]);
                        }
                    }
                    lemma_find_commit_is(newcs, t, pp, f);
                }
            }
            assert forall|g2: int, a: int, b: int|
                0 <= g2 < self.groups@.len() && 0 <= a < b < self.groups@[g2].committed@.len()
                    implies !((#[trigger] self.groups@[g2].committed@[a]).topic@ == (
            #[trigger] self.groups@[g2].committed@[b]).topic@
                && self.groups@[g2].committed@[a].partition
                == self.groups@[g2].committed@[b].partition) by {
                if g2 == gip {
                    if !found {
                        if b == newcs.len() - 1 {
                            assert(newcs[a] == oldcs[a]);
                        } else {
                            assert(newcs[a] == oldcs[a]);
                            assert(newcs[b] == oldcs[b]);
                        }
                    } else {
                        if a != cip && b != cip {
                            assert(newcs[a] == oldcs[a]);
                            assert(newcs[b] == oldcs[b]);
                        } else if a == cip {
                            assert(newcs[b] == oldcs[b]);
                            assert(oldcs[cip].topic@ == topic@ && oldcs[cip].partition == p);
                        } else {
                            assert(newcs[a] == oldcs[a]);
                            assert(oldcs[cip].topic@ == topic@ && oldcs[cip].partition == p);
                        }
                    }
                }
            }
        }
    }
}

/// Duplicate-free projection of a name list: the first occurrence of every
/// name is kept, in order of first appearance.
pub open spec fn spec_dedup(s: Seq<Seq<char>>) -> Seq<Seq<char>>
    decreases s.len(),
{
    if s.len() == 0 {
        Seq::empty()
    } else {
        let d = spec_dedup(s.drop_last());
        if d.contains(s.last()) {
            d
        } else {
            d.push(s.last())
        }
    }
}

pub proof fn lemma_spec_dedup_distinct(s: Seq<Seq<char>>)
    ensures
        forall|a: int, b: int|
            0 <= a < b < spec_dedup(s).len() ==> #[trigger] spec_dedup(s)[a]
                != #[trigger] spec_dedup(s)[b],
    decreases s.len(),
{
    if s.len() > 0 {
        lemma_spec_dedup_distinct(s.drop_last());
        let d = spec_dedup(s.drop_last());
        if !d.contains(s.last()) {
            assert forall|a: int, b: int|
                0 <= a < b < spec_dedup(s).len() implies #[trigger] spec_dedup(s)[a]
                != #[trigger] spec_dedup(s)[b] by {
                if b < d.len() {
                    assert(spec_dedup(s)[a] == d[a]);
                    assert(spec_dedup(s)[b] == d[b]);
                } else {
                    assert(spec_dedup(s)[a] == d[a]);
                    assert(spec_dedup(s)[b] == s.last());
                    if d[a] == s.last() {
                        assert(d.contains(s.last()));
                    }
                }
            }
        }
    }
}

/// Does the list of names contain `s`, compared by characters?
pub fn contains_name(v: &Vec<String>, s: &String) -> (b: bool)
    ensures
        b == v@.map_values(|x: String| x@).contains(s@),
{
    let ghost mv = v@.map_values(|x: String| x@);
    let mut i: usize = 0;
    while i < v.len()
        invariant
            mv == v@.map_values(|x: String| x@),
            0 <= i <= v@.len(),
            forall|j: int| 0 <= j < i ==> (#[trigger] v@[j])@ != s@,
        decreases v@.len() - i,
    {
        if v[i] == *s {
            proof {
                assert(mv[i as int] == s@);
            }
            return true;
        }
        i += 1;
    }
    proof {
        assert forall|k: int| 0 <= k < mv.len() implies mv[k] != s@ by {
            assert(mv[k] == v@[k]@);
        }
        assert(!mv.contains(s@));
    }
    false
}

/// Keeps the first occurrence of every name, dropping later duplicates.
pub fn dedup_names(v: &Vec<String>) -> (r: Vec<String>)
    ensures
        crate::models::str_views(r@) == spec_dedup(crate::models::str_views(v@)),
        forall|a: int, b: int|
            0 <= a < b < r@.len() ==> (#[trigger] r@[a])@ != (#[trigger] r@[b])@,
        forall|j: int|
            0 <= j < v@.len() ==> r@.map_values(|s: String| s@).contains((#[trigger] v@[j])@),
        forall|k: int|
            0 <= k < r@.len() ==> v@.map_values(|s: String| s@).contains((#[trigger] r@[k])@),
    {
    let mut r: Vec<String> = Vec::new();
    let mut i: usize = 0;
    let ghost vv = crate::models::str_views(v@);
    proof {
        assert(vv.subrange(0, 0) =~= Seq::<Seq<char>>::empty());
        assert(crate::models::str_views(r@) =~= Seq::<Seq<char>>::empty());
    }
    while i < v.len()
        invariant
            0 <= i <= v@.len(),
            vv == crate::models::str_views(v@),
            crate::models::str_views(r@) == spec_dedup(vv.subrange(0, i as int)),
            forall|a: int, b: int|
                0 <= a < b < r@.len() ==> (#[trigger] r@[a])@ != (#[trigger] r@[b])@,
            forall|j: int|
                0 <= j < i ==> r@.map_values(|s: String| s@).contains((#[trigger] v@[j])@),
            forall|k: int|
                0 <= k < r@.len() ==> v@.map_values(|s: String| s@).contains((#[trigger] r@[k])@),
        decreases v@.len() - i,
    {
        proof {
            assert(vv.subrange(0, i as int + 1).drop_last() =~= vv.subrange(0, i as int));
            assert(vv.subrange(0, i as int + 1).last() == v@[i as int]@);
        }
        let present = contains_name(&r, &v[i]);
        if !present {
            let ghost oldr = r@;
            r.push(v[i].clone());
            proof {
                assert forall|x: int|
                    0 <= x < r@.len() implies #[trigger] crate::models::str_views(r@)[x]
                    == spec_dedup(vv.subrange(0, i as int + 1))[x] by {
                    if x < oldr.len() {
                        assert(r@[x] == oldr[x]);
                        assert(crate::models::str_views(oldr)[x] == oldr[x]@);
                    }
                }
                assert(crate::models::str_views(r@) =~= spec_dedup(
                    vv.subrange(0, i as int + 1),
                ));
                let rv = r@.map_values(|s: String| s@);
                assert forall|j: int|
                    0 <= j < i + 1 implies rv.contains((#[trigger] v@[j])@) by {
                    if j < i {
                        let ov = oldr.map_values(|s: String| s@);
                        assert(ov.contains(v@[j]@));
                        let w = choose|w: int| 0 <= w < ov.len() && ov[w] == v@[j]@;
                        assert(rv[w] == ov[w]);
                    } else {
                        assert(rv[oldr.len() as int] == v@[j]@);
                    }
                }
                assert forall|k: int|
                    0 <= k < r@.len() implies v@.map_values(|s: String| s@).contains(
                    (#[trigger] r@[k])@,
                ) by {
                    if k < oldr.len() {
                        assert(r@[k] == oldr[k]);
                    } else {
                        assert(v@.map_values(|s: String| s@)[i as int] == v@[i as int]@);
                        assert(r@[k]@ == v@[i as int]@);
                    }
                }
                assert forall|a: int, b: int|
                    0 <= a < b < r@.len() implies (#[trigger] r@[a])@ != (#[trigger] r@[b])@ by {
                    if b == oldr.len() {
                        let ov = oldr.map_values(|s: String| s@);
                        assert(ov[a] == oldr[a]@);
                        assert(!ov.contains(v@[i as int]@));
                    }
                }
            }
        } else {
            proof {
                let rv = r@.map_values(|s: String| s@);
                assert(rv.contains(v@[i as int]@));
                assert(crate::models::str_views(r@) == spec_dedup(
                    vv.subrange(0, i as int + 1),
                ));
            }
        }
        i += 1;
    }
    proof {
        assert(vv.subrange(0, v@.len() as int) =~= vv);
    }
    r
}

} // verus!
