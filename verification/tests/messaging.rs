use junction::admin::TopicAdmin;
use junction::cluster::Cluster;
use junction::consumer::CommitMode;
use junction::consumer::ConsumerEvent;
use junction::consumer::ConsumerGroup;
use junction::errors::ClientError;
use junction::errors::FailureReason;
use junction::facade::ClientFacade;
use junction::message::DeliveryOutcome;
use junction::message::Message;
use junction::models::Broker;
use junction::producer::Producer;

fn msg(topic: &str, key: Option<&str>, payload: &str) -> Message {
    Message::new(
        String::from(topic),
        key.map(|k| k.as_bytes().to_vec()),
        payload.as_bytes().to_vec(),
    )
}

fn records(evs: Vec<ConsumerEvent>) -> Vec<Message> {
    let mut out = Vec::new();
    for ev in evs {
        if let ConsumerEvent::Record(m) = ev {
            out.push(m);
        }
    }
    out
}

fn steady_records(consumer: &mut ConsumerGroup, c: &Cluster) -> Vec<Message> {
    let mut out = Vec::new();
    for _ in 0..3 {
        let evs = consumer.poll(c, 100).expect("poll succeeds");
        out.extend(records(evs));
    }
    out
}

#[test]
fn admin_create_list_delete() {
    let mut c = Cluster::new();
    let brokers = vec![Broker::new(String::from("localhost"), 9092)];
    let admin = TopicAdmin::new(brokers).expect("brokers given");
    let name = String::from("orders");
    let d = admin.create(&mut c, &name, 3).expect("fresh topic");
    assert_eq!(d.name, "orders");
    assert_eq!(d.partition_count, 3);
    assert_eq!(
        admin.create(&mut c, &name, 3).unwrap_err(),
        ClientError::TopicExists
    );
    let listed = admin.list(&c, true);
    assert_eq!(listed.len(), 1);
    assert_eq!(listed[0].name, "orders");
    assert_eq!(listed[0].partition_count, 3);
    let md = listed[0].verbose_metadata.as_ref().expect("verbose metadata");
    assert_eq!(md.len(), 3);
    assert_eq!(md[1].partition, 1);
    admin.delete(&mut c, &name).expect("topic exists");
    assert!(admin.list(&c, false).is_empty());
    assert_eq!(
        admin.delete(&mut c, &name).unwrap_err(),
        ClientError::TopicNotFound
    );
}

#[test]
fn producer_error_paths() {
    let mut c = Cluster::new();
    c.create_topic(&String::from("t"), 1).expect("fresh topic");
    let mut p = Producer::new(1);
    assert_eq!(
        p.send(msg("", None, "x"), 100).unwrap_err(),
        ClientError::DeliveryFailure(FailureReason::EmptyTopic)
    );
    p.send(msg("t", None, "a"), 100).expect("accepted");
    assert_eq!(
        p.send(msg("t", None, "b"), 100).unwrap_err(),
        ClientError::QueueFull
    );
    let reports = p.close(&mut c);
    assert_eq!(reports.len(), 1);
    assert!(matches!(
        reports[0].outcome,
        DeliveryOutcome::Success { .. }
    ));
    assert_eq!(
        p.send(msg("t", None, "c"), 100).unwrap_err(),
        ClientError::Closed
    );
}

#[test]
fn unknown_topic_fails_delivery() {
    let mut c = Cluster::new();
    let mut p = Producer::new(4);
    p.send(msg("nowhere", None, "a"), 100).expect("accepted");
    let reports = p.flush(&mut c);
    assert_eq!(reports.len(), 1);
    assert!(matches!(
        reports[0].outcome,
        DeliveryOutcome::Failure { reason: FailureReason::UnknownTopic }
    ));
}

#[test]
fn same_key_offsets_increase_in_order() {
    let mut c = Cluster::new();
    c.create_topic(&String::from("orders"), 3).expect("fresh topic");
    let mut p = Producer::new(16);
    for i in 0..10 {
        p.send(msg("orders", Some("k"), &format!("m{}", i)), 100)
            .expect("accepted");
    }
    let reports = p.flush(&mut c);
    assert_eq!(reports.len(), 10);
    let mut partitions = Vec::new();
    let mut offsets = Vec::new();
    for r in &reports {
        match r.outcome {
            DeliveryOutcome::Success { partition, offset } => {
                partitions.push(partition);
                offsets.push(offset);
            }
            DeliveryOutcome::Failure { .. } => panic!("delivery failed"),
        }
    }
    for w in partitions.windows(2) {
        assert_eq!(w[0], w[1], "one key feeds one partition");
    }
    for w in offsets.windows(2) {
        assert!(w[0] < w[1], "offsets strictly increase in submission order");
    }
    assert_eq!(offsets, (0..10).collect::<Vec<i64>>());
}

#[test]
fn at_least_once_redelivery_after_crash() {
    let mut c = Cluster::new();
    let topic = String::from("t");
    c.create_topic(&topic, 1).expect("fresh topic");
    let mut p = Producer::new(4);
    p.send(msg("t", Some("k"), "first"), 100).expect("accepted");
    p.send(msg("t", Some("k"), "second"), 100).expect("accepted");
    p.flush(&mut c);

    let group = String::from("g");
    let mut c1 = ConsumerGroup::new(group.clone());
    c1.subscribe(&mut c, &vec![topic.clone()]).expect("joins");
    let got = steady_records(&mut c1, &c);
    assert_eq!(got.len(), 2);
    c1.commit(&mut c, &got[0], CommitMode::Sync).expect("commit holds");
    // The consumer crashes before committing the second record; the
    // coordinator expires its session.
    let dead = c1.member_id;
    c.leave_group(&group, dead);

    let mut c2 = ConsumerGroup::new(group.clone());
    c2.subscribe(&mut c, &vec![topic.clone()]).expect("joins");
    let redelivered = steady_records(&mut c2, &c);
    assert_eq!(redelivered.len(), 1, "the uncommitted record comes again");
    assert_eq!(redelivered[0].offset, Some(1));
    assert_eq!(redelivered[0].payload, b"second".to_vec());
}

#[test]
fn rebalance_grants_are_disjoint() {
    let mut c = Cluster::new();
    let topic = String::from("t");
    c.create_topic(&topic, 4).expect("fresh topic");
    let group = String::from("g");
    let mut c1 = ConsumerGroup::new(group.clone());
    c1.subscribe(&mut c, &vec![topic.clone()]).expect("joins");
    // Alone, the first consumer owns every partition.
    c1.poll(&c, 100).expect("revoke");
    let evs = c1.poll(&c, 100).expect("grant");
    let mut first_grant = Vec::new();
    for ev in evs {
        if let ConsumerEvent::Assigned(pas) = ev {
            for pa in pas {
                first_grant.push(pa.partition);
            }
        }
    }
    assert_eq!(first_grant, vec![0, 1, 2, 3]);

    let mut c2 = ConsumerGroup::new(group.clone());
    c2.subscribe(&mut c, &vec![topic.clone()]).expect("joins");
    // Both members rebalance; the grants share no partition.
    let mut own1 = Vec::new();
    let mut own2 = Vec::new();
    for _ in 0..3 {
        for ev in c1.poll(&c, 100).expect("poll succeeds") {
            if let ConsumerEvent::Assigned(pas) = ev {
                own1 = pas.iter().map(|pa| pa.partition).collect();
            }
        }
        for ev in c2.poll(&c, 100).expect("poll succeeds") {
            if let ConsumerEvent::Assigned(pas) = ev {
                own2 = pas.iter().map(|pa| pa.partition).collect();
            }
        }
    }
    assert_eq!(own1, vec![0, 2]);
    assert_eq!(own2, vec![1, 3]);
    for p in &own1 {
        assert!(!own2.contains(p), "no partition is owned twice");
    }
}

#[test]
fn sync_commit_moves_the_resume_point() {
    let mut c = Cluster::new();
    let topic = String::from("t");
    c.create_topic(&topic, 1).expect("fresh topic");
    let mut p = Producer::new(4);
    for i in 0..3 {
        p.send(msg("t", Some("k"), &format!("m{}", i)), 100)
            .expect("accepted");
    }
    p.flush(&mut c);

    let group = String::from("g");
    let mut c1 = ConsumerGroup::new(group.clone());
    c1.subscribe(&mut c, &vec![topic.clone()]).expect("joins");
    let got = steady_records(&mut c1, &c);
    assert_eq!(got.len(), 3);
    c1.commit(&mut c, &got[1], CommitMode::Sync).expect("commit holds");
    c1.close(&mut c);

    let mut c2 = ConsumerGroup::new(group.clone());
    c2.subscribe(&mut c, &vec![topic.clone()]).expect("joins");
    let resumed = steady_records(&mut c2, &c);
    assert_eq!(resumed.len(), 1);
    assert_eq!(resumed[0].offset, Some(2), "resumes strictly after offset 1");
}

#[test]
fn async_commit_outcome_arrives_as_event() {
    let mut c = Cluster::new();
    let topic = String::from("t");
    c.create_topic(&topic, 1).expect("fresh topic");
    let mut p = Producer::new(4);
    p.send(msg("t", None, "a"), 100).expect("accepted");
    p.flush(&mut c);

    let mut c1 = ConsumerGroup::new(String::from("g"));
    c1.subscribe(&mut c, &vec![topic.clone()]).expect("joins");
    let got = steady_records(&mut c1, &c);
    assert_eq!(got.len(), 1);
    c1.commit(&mut c, &got[0], CommitMode::Async).expect("async returns at once");
    let evs = c1.poll(&c, 100).expect("poll succeeds");
    assert_eq!(evs.len(), 1);
    match &evs[0] {
        ConsumerEvent::CommitOutcome(oc, ok) => {
            assert!(*ok);
            assert_eq!(oc.topic, "t");
            assert_eq!(oc.partition, 0);
            assert_eq!(oc.offset, 1);
        }
        _ => panic!("expected a commit outcome event"),
    }
}

#[test]
fn commit_outside_steady_fails() {
    let mut c = Cluster::new();
    let mut c1 = ConsumerGroup::new(String::from("g"));
    let m = msg("t", None, "a");
    assert_eq!(
        c1.commit(&mut c, &m, CommitMode::Sync).unwrap_err(),
        ClientError::CommitFailed
    );
    c1.close(&mut c);
    assert_eq!(
        c1.commit(&mut c, &m, CommitMode::Sync).unwrap_err(),
        ClientError::Closed
    );
    assert_eq!(c1.poll(&c, 100).unwrap_err(), ClientError::Closed);
}

#[test]
fn end_to_end_orders_scenario() {
    let mut c = Cluster::new();
    let brokers = vec![Broker::new(String::from("localhost"), 9094)];
    let facade = ClientFacade::connect(brokers).expect("brokers given");
    let admin = TopicAdmin::new(facade.brokers.clone()).expect("brokers given");

    let orders = String::from("orders");
    admin.create(&mut c, &orders, 3).expect("fresh topic");

    let mut batch = Vec::new();
    for i in 0..10 {
        batch.push(msg("orders", Some(&format!("k{}", i)), &format!("payload-{}", i)));
    }
    let reports = facade.push_messages(&mut c, batch).expect("topics are named");
    assert_eq!(reports.len(), 10);
    for r in &reports {
        assert!(matches!(r.outcome, DeliveryOutcome::Success { .. }));
    }

    let listed = admin.list(&c, true);
    assert_eq!(listed.len(), 1);
    assert_eq!(listed[0].partition_count, 3);

    let got = facade
        .pull_round(&mut c, &String::from("g"), &vec![orders.clone()])
        .expect("consumes");
    assert_eq!(got.len(), 10, "all ten messages arrive exactly once");
    let mut payloads: Vec<String> = got
        .iter()
        .map(|m| String::from_utf8(m.payload.clone()).unwrap())
        .collect();
    payloads.sort();
    let mut expected: Vec<String> = (0..10).map(|i| format!("payload-{}", i)).collect();
    expected.sort();
    assert_eq!(payloads, expected);
    let mut coords: Vec<(i32, i64)> = got
        .iter()
        .map(|m| (m.partition.unwrap(), m.offset.unwrap()))
        .collect();
    coords.sort();
    coords.dedup();
    assert_eq!(coords.len(), 10, "no duplicate delivery before any failure");

    admin.delete(&mut c, &orders).expect("topic exists");
    let after = admin.list(&c, false);
    assert!(after.iter().all(|d| d.name != "orders"));
}

#[test]
fn facade_rejects_empty_broker_list() {
    assert_eq!(
        ClientFacade::connect(Vec::new()).unwrap_err(),
        ClientError::ClusterUnavailable
    );
    assert_eq!(
        TopicAdmin::new(Vec::new()).unwrap_err(),
        ClientError::ClusterUnavailable
    );
}

#[test]
fn poll_before_subscribe_is_empty() {
    let c = Cluster::new();
    let mut c1 = ConsumerGroup::new(String::from("g"));
    let evs = c1.poll(&c, 100).expect("nothing owed");
    assert!(evs.is_empty());
}
