use bytes::Bytes;
use rumq_broker::codec::{
    Connect, Disconnect, Packet, PubAck, PubComp, PubRec, PubRel, Publish, QoS, SubAck,
    Subscribe, SubscribeReturnCodes, UnsubAck, Unsubscribe,
};
use rumq_broker::router::connection::is_covered;
use rumq_broker::router::{
    takeover_notice, ActiveConnection, CommitLog, Connection, InactiveConnection, MqttState,
    Outgoing, Refusal, Router, RouterMessage, SendOutcome, Subscription,
};
use std::collections::VecDeque;
use tokio::sync::mpsc::{channel, Receiver};

fn connect(id: &str, clean_session: bool) -> Connect {
    let mut connect = Connect::new(id);
    connect.flags.clean_session = clean_session;
    connect
}

fn join(router: &mut Router, id: &str, clean_session: bool) -> Receiver<Outgoing> {
    let (tx, rx) = channel(10);
    router.handle(id, RouterMessage::Connect(Connection::new(connect(id, clean_session), tx)));
    rx
}

fn publish(topic: &str, qos: QoS, pkid: u16, payload: &[u8]) -> Publish {
    let mut publish = Publish::new(topic, qos, payload.to_vec());
    publish.set_pkid(pkid);
    publish
}

fn subscribe(pkid: u16, filter: &str, qos: QoS) -> Packet {
    let mut subscribe = Subscribe::new(filter, qos);
    subscribe.pkid = pkid;
    Packet::Subscribe(subscribe)
}

fn disconnect() -> Packet {
    Packet::Disconnect(Disconnect { reason_code: 0, properties: None })
}

fn drain(rx: &mut Receiver<Outgoing>) -> Vec<Outgoing> {
    let mut all = Vec::new();
    while let Ok(message) = rx.try_recv() {
        all.push(message);
    }
    all
}

fn publishes(messages: &[Outgoing]) -> Vec<Publish> {
    let mut all = Vec::new();
    for message in messages {
        if let Outgoing::Packets(packets) = message {
            for packet in packets {
                if let Packet::Publish(publish) = packet {
                    all.push(publish.clone());
                }
            }
        }
    }
    all
}

fn active_ids(router: &Router) -> Vec<String> {
    router.active_connections.entries.iter().map(|e| e.0.clone()).collect()
}

fn inactive_ids(router: &Router) -> Vec<String> {
    router.inactive_connections.entries.iter().map(|e| e.0.clone()).collect()
}

fn filters(entries: &[(String, Subscription)]) -> Vec<(String, QoS)> {
    entries.iter().map(|e| (e.0.clone(), e.1.qos)).collect()
}

#[test]
fn router_persistent_disconnected_and_dead_connections_are_moved_to_inactive_state() {
    let mut router = Router::new();
    let _a = join(&mut router, "a", false);
    let _b = join(&mut router, "b", false);
    assert_eq!(active_ids(&router), vec!["a".to_owned(), "b".to_owned()]);

    router.handle("a", RouterMessage::Packet(disconnect()));
    router.handle("b", RouterMessage::Death("b".to_owned()));

    assert!(active_ids(&router).is_empty());
    assert_eq!(inactive_ids(&router), vec!["a".to_owned(), "b".to_owned()]);
}

#[test]
fn router_persistend_reconnections_are_move_from_inactive_to_active_state() {
    let mut router = Router::new();
    let _first = join(&mut router, "a", false);
    router.handle("a", RouterMessage::Packet(disconnect()));
    assert_eq!(inactive_ids(&router), vec!["a".to_owned()]);

    let mut second = join(&mut router, "a", false);
    assert_eq!(active_ids(&router), vec!["a".to_owned()]);
    assert!(inactive_ids(&router).is_empty());
    assert_eq!(drain(&mut second), vec![Outgoing::Pending(VecDeque::new())]);
}

#[test]
fn router_offline_messages_are_given_back_to_reconnected_persistent_connection() {
    let mut router = Router::new();
    let _a = join(&mut router, "a", true);
    let mut b = join(&mut router, "b", false);
    router.handle("b", RouterMessage::Packet(subscribe(1, "a/b", QoS::AtLeastOnce)));
    router.handle(
        "a",
        RouterMessage::Packet(Packet::Publish(publish("a/b", QoS::AtLeastOnce, 7, &[1, 2]))),
    );
    router.handle(
        "a",
        RouterMessage::Packet(Packet::Publish(publish("a/b", QoS::AtLeastOnce, 8, &[3]))),
    );
    router.route();
    let sent = publishes(&drain(&mut b));
    assert_eq!(sent.len(), 2);

    // b goes away without acknowledging, and comes back
    router.handle("b", RouterMessage::Packet(disconnect()));
    let mut again = join(&mut router, "b", false);
    let handed = drain(&mut again);
    assert_eq!(handed.len(), 1);
    match &handed[0] {
        Outgoing::Pending(queue) => {
            assert_eq!(queue.len(), 2);
            assert_eq!(queue[0].payload, Bytes::from(vec![1, 2]));
            assert_eq!(queue[0].pkid, 1);
            assert_eq!(queue[1].payload, Bytes::from(vec![3]));
            assert_eq!(queue[1].pkid, 2);
        }
        other => panic!("not the pending publishes: {:?}", other),
    }
}

#[test]
fn router_remove_client_from_concrete_subsctiptions_if_new_wildcard_subscription_matches_existing_concrecte_subscription(
) {
    // client subscibing to a/b/c and a/+/c should receive message only once when
    // a publish happens on a/b/c
    let mut router = Router::new();
    let _a = join(&mut router, "a", true);
    let mut b = join(&mut router, "b", true);
    router.handle("b", RouterMessage::Packet(subscribe(1, "a/b/c", QoS::AtMostOnce)));
    router.handle("b", RouterMessage::Packet(subscribe(2, "a/+/c", QoS::AtLeastOnce)));
    {
        let connection = &router.active_connections.entries[1].1;
        assert!(connection.concrete_subscriptions.entries.is_empty());
        assert_eq!(
            filters(&connection.wild_subscriptions.entries),
            vec![("a/+/c".to_owned(), QoS::AtLeastOnce)]
        );
    }
    drain(&mut b);

    router.handle(
        "a",
        RouterMessage::Packet(Packet::Publish(publish("a/b/c", QoS::AtLeastOnce, 5, &[9]))),
    );
    router.route();
    router.route();
    let got = publishes(&drain(&mut b));
    assert_eq!(got.len(), 1);
    assert_eq!(got[0].topic, "a/b/c");
    assert_eq!(got[0].qos, QoS::AtLeastOnce);
    assert_eq!(got[0].payload, Bytes::from(vec![9]));
}

#[test]
fn router_ingnore_new_concrete_subscription_if_a_matching_wildcard_subscription_exists_for_the_client(
) {
    // only a filter with wildcards takes the place of other subscriptions: one
    // without them is filed under the filters without wildcards, and the one
    // with wildcards stays as it is
    let mut router = Router::new();
    let _b = join(&mut router, "b", true);
    router.handle("b", RouterMessage::Packet(subscribe(1, "a/+/c", QoS::AtLeastOnce)));
    router.handle("b", RouterMessage::Packet(subscribe(2, "a/b/c", QoS::AtMostOnce)));
    let connection = &router.active_connections.entries[0].1;
    assert_eq!(
        filters(&connection.wild_subscriptions.entries),
        vec![("a/+/c".to_owned(), QoS::AtLeastOnce)]
    );
    assert_eq!(
        filters(&connection.concrete_subscriptions.entries),
        vec![("a/b/c".to_owned(), QoS::AtMostOnce)]
    );
}

#[test]
fn router_router_should_remove_the_connection_during_disconnect() {
    let mut router = Router::new();
    let _a = join(&mut router, "a", true);
    assert_eq!(active_ids(&router), vec!["a".to_owned()]);
    router.handle("a", RouterMessage::Packet(disconnect()));
    assert!(active_ids(&router).is_empty());
    assert!(inactive_ids(&router).is_empty());
}

#[test]
fn router_router_should_not_add_same_client_to_subscription_list() {
    let mut router = Router::new();
    let _b = join(&mut router, "b", true);
    router.handle("b", RouterMessage::Packet(subscribe(1, "a/b", QoS::AtMostOnce)));
    router.handle("b", RouterMessage::Packet(subscribe(2, "a/b", QoS::AtLeastOnce)));
    router.handle("b", RouterMessage::Packet(subscribe(3, "a/#", QoS::AtMostOnce)));
    router.handle("b", RouterMessage::Packet(subscribe(4, "a/#", QoS::AtMostOnce)));
    let connection = &router.active_connections.entries[0].1;
    assert!(connection.concrete_subscriptions.entries.is_empty());
    assert_eq!(
        filters(&connection.wild_subscriptions.entries),
        vec![("a/#".to_owned(), QoS::AtLeastOnce)]
    );
}

#[test]
fn router_router_saves_offline_messages_of_a_persistent_dead_connection() {
    let mut router = Router::new();
    let _a = join(&mut router, "a", true);
    let mut b = join(&mut router, "b", false);
    router.handle("b", RouterMessage::Packet(subscribe(1, "a/b", QoS::AtLeastOnce)));
    router.handle(
        "a",
        RouterMessage::Packet(Packet::Publish(publish("a/b", QoS::AtLeastOnce, 7, &[0xAB]))),
    );
    router.route();
    assert_eq!(publishes(&drain(&mut b)).len(), 1);

    router.handle("b", RouterMessage::Death("b".to_owned()));
    assert_eq!(inactive_ids(&router), vec!["b".to_owned()]);
    let state = &router.inactive_connections.entries[0].1.state;
    assert_eq!(state.outgoing_publishes.len(), 1);
    assert_eq!(state.outgoing_publishes[0].payload, Bytes::from(vec![0xAB]));
    assert_eq!(state.outgoing_publishes[0].topic, "a/b");
}

#[test]
fn mod_persistent_disconnected_and_dead_connections_are_moved_to_inactive_state() {
    let mut router = Router::new();
    let (tx, _rx) = channel(1);
    router.handle_connect(&connect("gone", false), tx).unwrap();
    let (tx, _rx2) = channel(1);
    router.handle_connect(&connect("dead", false), tx).unwrap();
    let (tx, _rx3) = channel(1);
    router.handle_connect(&connect("clean", true), tx).unwrap();

    router.deactivate("gone");
    router.deactivate_and_forward_will("dead");
    router.deactivate("clean");

    assert!(active_ids(&router).is_empty());
    assert_eq!(inactive_ids(&router), vec!["gone".to_owned(), "dead".to_owned()]);
}

#[test]
fn mod_persistend_reconnections_are_move_from_inactive_to_active_state() {
    let mut router = Router::new();
    let (tx, _rx) = channel(1);
    router.handle_connect(&connect("a", false), tx).unwrap();
    router.active_connections.entries[0].1.state.last_pkid = 41;
    router.deactivate("a");

    let (tx, _rx) = channel(1);
    let reply = router.handle_connect(&connect("a", false), tx).unwrap();
    assert_eq!(reply, Some(Outgoing::Pending(VecDeque::new())));
    assert!(inactive_ids(&router).is_empty());
    assert_eq!(active_ids(&router), vec!["a".to_owned()]);
    // the session is the one that was kept
    assert_eq!(router.active_connections.entries[0].1.state.last_pkid, 41);
}

#[test]
fn mod_offline_messages_are_given_back_to_reconnected_persistent_connection() {
    let mut router = Router::new();
    let (tx, _rx) = channel(1);
    router.handle_connect(&connect("a", false), tx).unwrap();
    {
        let state = &mut router.active_connections.entries[0].1.state;
        let mut first = publish("x", QoS::AtLeastOnce, 0, &[1]);
        let mut second = publish("y", QoS::ExactlyOnce, 0, &[2]);
        let mut third = publish("z", QoS::AtMostOnce, 0, &[3]);
        state.handle_outgoing_publish(QoS::ExactlyOnce, &mut first);
        state.handle_outgoing_publish(QoS::AtLeastOnce, &mut second);
        state.handle_outgoing_publish(QoS::ExactlyOnce, &mut third);
        assert_eq!((first.qos, first.pkid), (QoS::AtLeastOnce, 1));
        assert_eq!((second.qos, second.pkid), (QoS::AtLeastOnce, 2));
        assert_eq!((third.qos, third.pkid), (QoS::AtMostOnce, 0));
    }
    router.deactivate("a");

    let (tx, _rx) = channel(1);
    match router.handle_connect(&connect("a", false), tx).unwrap() {
        Some(Outgoing::Pending(queue)) => {
            let topics: Vec<String> = queue.iter().map(|p| p.topic.clone()).collect();
            assert_eq!(topics, vec!["x".to_owned(), "y".to_owned()]);
        }
        other => panic!("not the pending publishes: {:?}", other),
    }

    // a clean session gets nothing of it
    router.deactivate("a");
    let (tx, _rx) = channel(1);
    let reply = router.handle_connect(&connect("a", true), tx).unwrap();
    assert_eq!(reply, Some(Outgoing::Pending(VecDeque::new())));
}

#[test]
fn mod_remove_client_from_concrete_subsctiptions_if_new_wildcard_subscription_matches_existing_concrecte_subscription(
) {
    // client subscibing to a/b/c and a/+/c should receive message only once when
    // a publish happens on a/b/c
    let (tx, _rx) = channel(1);
    let mut connection = ActiveConnection::new(tx, MqttState::new(true, None));
    let mut first = Subscribe::new("a/b/c", QoS::ExactlyOnce);
    first.add("x/y".to_owned(), QoS::AtMostOnce);
    connection.add_to_subscriptions(first);
    assert_eq!(
        filters(&connection.concrete_subscriptions.entries),
        vec![("a/b/c".to_owned(), QoS::ExactlyOnce), ("x/y".to_owned(), QoS::AtMostOnce)]
    );

    let overlap = connection.fix_overlapping_subscriptions("a/+/c", QoS::AtMostOnce);
    assert_eq!(
        overlap,
        Some(("a/+/c".to_owned(), Subscription { qos: QoS::ExactlyOnce, offset: (0, 0) }))
    );
    assert_eq!(
        filters(&connection.concrete_subscriptions.entries),
        vec![("x/y".to_owned(), QoS::AtMostOnce)]
    );
    // a filter without wildcards overlaps nothing
    assert_eq!(connection.fix_overlapping_subscriptions("x/y", QoS::AtMostOnce), None);
}

#[test]
fn mod_ingnore_new_concrete_subscription_if_a_matching_wildcard_subscription_exists_for_the_client(
) {
    let (tx, _rx) = channel(1);
    let mut connection = ActiveConnection::new(tx, MqttState::new(true, None));
    connection.add_to_subscriptions(Subscribe::new("a/#", QoS::AtLeastOnce));
    // a narrower filter with wildcards gives way to the wider one that is there
    connection.add_to_subscriptions(Subscribe::new("a/+/c/d", QoS::ExactlyOnce));
    assert_eq!(
        filters(&connection.wild_subscriptions.entries),
        vec![("a/#".to_owned(), QoS::ExactlyOnce)]
    );
    // a wider one takes the place of the narrower ones
    connection.add_to_subscriptions(Subscribe::new("#", QoS::AtMostOnce));
    assert_eq!(
        filters(&connection.wild_subscriptions.entries),
        vec![("#".to_owned(), QoS::ExactlyOnce)]
    );
    assert!(connection.concrete_subscriptions.entries.is_empty());
}

#[test]
fn mod_router_should_remove_the_connection_during_disconnect() {
    let mut router = Router::new();
    let (tx, _rx) = channel(1);
    router.handle_connect(&connect("a", true), tx).unwrap();
    router.fill_and_track("a", disconnect());
    assert!(active_ids(&router).is_empty());
    assert!(inactive_ids(&router).is_empty());
    // letting an unknown client go changes nothing
    router.fill_and_track("nobody", disconnect());
    assert!(active_ids(&router).is_empty());
}

#[test]
fn mod_router_should_not_add_same_client_to_subscription_list() {
    let (tx, _rx) = channel(1);
    let mut connection = ActiveConnection::new(tx, MqttState::new(true, None));
    let mut twice = Subscribe::new("a/b", QoS::AtMostOnce);
    twice.add("a/b".to_owned(), QoS::ExactlyOnce);
    connection.add_to_subscriptions(twice);
    assert_eq!(
        filters(&connection.concrete_subscriptions.entries),
        vec![("a/b".to_owned(), QoS::ExactlyOnce)]
    );

    connection.remove_from_subscriptions(Unsubscribe {
        pkid: 1,
        topics: vec!["a/b".to_owned(), "never/there".to_owned()],
        properties: None,
    });
    assert!(connection.concrete_subscriptions.entries.is_empty());
}

#[test]
fn mod_router_saves_offline_messages_of_a_persistent_dead_connection() {
    let mut router = Router::new();
    let (tx, _rx) = channel(1);
    router.handle_connect(&connect("b", false), tx).unwrap();
    {
        let state = &mut router.active_connections.entries[0].1.state;
        let mut under_way = publish("a/b", QoS::AtLeastOnce, 0, &[7]);
        state.handle_outgoing_publish(QoS::AtLeastOnce, &mut under_way);
    }
    router.deactivate_and_forward_will("b");
    assert_eq!(inactive_ids(&router), vec!["b".to_owned()]);
    let kept: &InactiveConnection = &router.inactive_connections.entries[0].1;
    assert_eq!(kept.state.outgoing_publishes.len(), 1);
    assert_eq!(kept.state.outgoing_publishes[0].pkid, 1);
}

#[test]
fn connect_publish_subscribe_fan_out() {
    let mut router = Router::new();
    let mut a = join(&mut router, "a", true);
    let mut b = join(&mut router, "b", true);
    assert_eq!(drain(&mut a), vec![Outgoing::Pending(VecDeque::new())]);
    assert_eq!(drain(&mut b), vec![Outgoing::Pending(VecDeque::new())]);

    router.handle("b", RouterMessage::Packet(subscribe(3, "a/b", QoS::AtMostOnce)));
    assert_eq!(
        drain(&mut b),
        vec![Outgoing::Packet(Packet::SubAck(SubAck::new(
            3,
            vec![SubscribeReturnCodes::Success(QoS::AtMostOnce)],
            None
        )))]
    );

    router.handle(
        "a",
        RouterMessage::Packet(Packet::Publish(publish("a/b", QoS::AtMostOnce, 0, &[0xF1, 0xF2]))),
    );
    router.route();
    router.route();

    let got = publishes(&drain(&mut b));
    assert_eq!(got.len(), 1);
    assert_eq!(got[0].topic, "a/b");
    assert_eq!(got[0].payload, Bytes::from(vec![0xF1, 0xF2]));
    assert!(drain(&mut a).is_empty());
}

#[test]
fn qos1_publish_is_acknowledged() {
    let mut router = Router::new();
    let mut a = join(&mut router, "a", true);
    drain(&mut a);
    router.handle(
        "a",
        RouterMessage::Packet(Packet::Publish(publish("a/b", QoS::AtLeastOnce, 10, &[1]))),
    );
    assert_eq!(drain(&mut a), vec![Outgoing::Packet(Packet::PubAck(PubAck::new(10, None)))]);
    let state = &router.active_connections.entries[0].1.state;
    assert!(state.incoming_pub.is_empty());
    assert!(state.outgoing_publishes.is_empty());
    assert!(state.outgoing_rel.is_empty());
}

#[test]
fn acknowledgement_ends_the_delivery() {
    let mut router = Router::new();
    let _a = join(&mut router, "a", true);
    let mut b = join(&mut router, "b", true);
    router.handle("b", RouterMessage::Packet(subscribe(1, "t", QoS::AtLeastOnce)));
    router.handle(
        "a",
        RouterMessage::Packet(Packet::Publish(publish("t", QoS::AtLeastOnce, 4, &[1]))),
    );
    router.route();
    let got = publishes(&drain(&mut b));
    assert_eq!((got[0].qos, got[0].pkid), (QoS::AtLeastOnce, 1));
    assert_eq!(router.active_connections.entries[1].1.state.outgoing_publishes.len(), 1);

    // an acknowledgement that nobody waits for is passed over
    router.handle("b", RouterMessage::Packet(Packet::PubAck(PubAck::new(77, None))));
    assert_eq!(router.active_connections.entries[1].1.state.outgoing_publishes.len(), 1);

    router.handle("b", RouterMessage::Packet(Packet::PubAck(PubAck::new(1, None))));
    assert!(router.active_connections.entries[1].1.state.outgoing_publishes.is_empty());
    assert!(drain(&mut b).is_empty());
}

#[test]
fn retained_publish_is_sent_at_subscribe() {
    let mut router = Router::new();
    let _a = join(&mut router, "a", true);
    let mut retained = publish("a/b", QoS::AtMostOnce, 0, &[0x01]);
    retained.retain = true;
    router.handle("a", RouterMessage::Packet(Packet::Publish(retained)));

    let mut b = join(&mut router, "b", true);
    drain(&mut b);
    router.handle("b", RouterMessage::Packet(subscribe(1, "a/b", QoS::AtMostOnce)));
    let got = drain(&mut b);
    assert_eq!(got.len(), 2);
    let sent = publishes(&got);
    assert_eq!(sent.len(), 1);
    assert_eq!(sent[0].payload, Bytes::from(vec![0x01]));

    let mut cleared = publish("a/b", QoS::AtMostOnce, 0, &[]);
    cleared.retain = true;
    router.handle("a", RouterMessage::Packet(Packet::Publish(cleared)));

    let mut c = join(&mut router, "c", true);
    drain(&mut c);
    router.handle("c", RouterMessage::Packet(subscribe(1, "a/b", QoS::AtMostOnce)));
    let got = drain(&mut c);
    assert_eq!(got.len(), 1);
    assert!(publishes(&got).is_empty());
}

#[test]
fn retained_publishes_are_matched_by_wildcards() {
    let mut router = Router::new();
    let _a = join(&mut router, "a", true);
    for (topic, byte) in [("x/1", 1u8), ("y/1", 2), ("x/2", 3)] {
        let mut retained = publish(topic, QoS::AtLeastOnce, 1, &[byte]);
        retained.retain = true;
        router.handle("a", RouterMessage::Packet(Packet::Publish(retained)));
    }
    let mut wanted = Subscribe::new("x/+", QoS::AtMostOnce);
    wanted.add("y/1".to_owned(), QoS::ExactlyOnce);
    let found = router.match_retainted_publishes(&wanted.topics);
    let summary: Vec<(String, QoS)> = found.iter().map(|f| (f.0.topic.clone(), f.1)).collect();
    assert_eq!(
        summary,
        vec![
            ("x/1".to_owned(), QoS::AtMostOnce),
            ("x/2".to_owned(), QoS::AtMostOnce),
            ("y/1".to_owned(), QoS::ExactlyOnce)
        ]
    );
}

#[test]
fn will_is_published_when_the_connection_dies() {
    let mut router = Router::new();
    let mut with_will = connect("a", true);
    with_will.flags.will_flag = true;
    with_will.flags.will_qos = 1;
    with_will.payload.will_topic = Some("dead".to_owned());
    with_will.payload.will_payload = Some("bye".to_owned());
    let (tx, _a) = channel(10);
    router.handle("a", RouterMessage::Connect(Connection::new(with_will, tx)));

    let mut b = join(&mut router, "b", true);
    router.handle("b", RouterMessage::Packet(subscribe(1, "dead", QoS::AtLeastOnce)));
    drain(&mut b);

    router.handle("a", RouterMessage::Death("a".to_owned()));
    router.route();
    let got = publishes(&drain(&mut b));
    assert_eq!(got.len(), 1);
    assert_eq!(got[0].topic, "dead");
    assert_eq!(got[0].payload, Bytes::from("bye"));
    assert_eq!(got[0].qos, QoS::AtLeastOnce);

    // a disconnect in order publishes no will
    let mut with_will = connect("c", true);
    with_will.flags.will_flag = true;
    with_will.payload.will_topic = Some("dead".to_owned());
    with_will.payload.will_payload = Some("again".to_owned());
    let (tx, _c) = channel(10);
    router.handle("c", RouterMessage::Connect(Connection::new(with_will, tx)));
    router.handle("c", RouterMessage::Packet(disconnect()));
    router.route();
    assert!(publishes(&drain(&mut b)).is_empty());
}

#[test]
fn slow_connection_is_let_go() {
    let mut router = Router::new();
    let _a = join(&mut router, "a", true);
    let (tx, mut rx) = channel(1);
    router.handle("slow", RouterMessage::Connect(Connection::new(connect("slow", false), tx)));
    // the answer to the connect fills the channel of one place
    router.handle("slow", RouterMessage::Packet(subscribe(1, "t", QoS::AtMostOnce)));
    assert_eq!(active_ids(&router), vec!["a".to_owned()]);
    assert_eq!(inactive_ids(&router), vec!["slow".to_owned()]);
    assert_eq!(drain(&mut rx), vec![Outgoing::Pending(VecDeque::new())]);

    // a closed channel is treated alike, and a clean session is not kept
    let (tx, rx) = channel(4);
    router.handle("closed", RouterMessage::Connect(Connection::new(connect("closed", true), tx)));
    router.handle("closed", RouterMessage::Packet(subscribe(1, "t", QoS::AtMostOnce)));
    std::mem::drop(rx);
    router.handle(
        "a",
        RouterMessage::Packet(Packet::Publish(publish("t", QoS::AtMostOnce, 0, &[1]))),
    );
    router.route();
    assert_eq!(active_ids(&router), vec!["a".to_owned()]);
    assert_eq!(inactive_ids(&router), vec!["slow".to_owned()]);
}

#[test]
fn unsubscribe_is_answered_and_ends_delivery() {
    let mut router = Router::new();
    let _a = join(&mut router, "a", true);
    let mut b = join(&mut router, "b", true);
    router.handle("b", RouterMessage::Packet(subscribe(1, "t", QoS::AtMostOnce)));
    drain(&mut b);
    router.handle(
        "b",
        RouterMessage::Packet(Packet::Unsubscribe(Unsubscribe {
            pkid: 9,
            topics: vec!["t".to_owned()],
            properties: None,
        })),
    );
    assert_eq!(
        drain(&mut b),
        vec![Outgoing::Packet(Packet::UnsubAck(UnsubAck {
            pkid: 9,
            reason_codes: vec![],
            properties: None
        }))]
    );
    router.handle(
        "a",
        RouterMessage::Packet(Packet::Publish(publish("t", QoS::AtMostOnce, 0, &[1]))),
    );
    router.route();
    assert!(drain(&mut b).is_empty());
}

#[test]
fn publishes_arrive_in_order_over_several_ticks() {
    let mut router = Router::new();
    let _a = join(&mut router, "a", true);
    let (tx, mut b) = channel(1000);
    router.handle("b", RouterMessage::Connect(Connection::new(connect("b", true), tx)));
    router.handle("b", RouterMessage::Packet(subscribe(1, "t", QoS::AtMostOnce)));
    drain(&mut b);
    for i in 0..250u32 {
        let payload = i.to_be_bytes();
        router.handle(
            "a",
            RouterMessage::Packet(Packet::Publish(publish("t", QoS::AtMostOnce, 0, &payload))),
        );
    }
    let mut got = Vec::new();
    for _ in 0..4 {
        router.route();
        got.extend(publishes(&drain(&mut b)));
    }
    assert_eq!(got.len(), 250);
    for (i, publish) in got.iter().enumerate() {
        assert_eq!(publish.payload, Bytes::from((i as u32).to_be_bytes().to_vec()));
    }
}

#[test]
fn second_connection_under_an_id_takes_the_first_one_over() {
    let mut router = Router::new();
    let mut first = join(&mut router, "a", true);
    router.handle("a", RouterMessage::Packet(subscribe(1, "t", QoS::AtMostOnce)));
    drain(&mut first);
    let mut second = join(&mut router, "a", true);
    assert_eq!(active_ids(&router), vec!["a".to_owned()]);
    assert_eq!(
        drain(&mut first),
        vec![Outgoing::Packet(Packet::Disconnect(Disconnect {
            reason_code: 142,
            properties: None
        }))]
    );
    assert_eq!(drain(&mut second), vec![Outgoing::Pending(VecDeque::new())]);
    // the new connection starts without the subscriptions of the old one
    let connection = &router.active_connections.entries[0].1;
    assert!(connection.concrete_subscriptions.entries.is_empty());
}

#[test]
fn connection_without_a_channel_is_refused() {
    let mut router = Router::new();
    let mut message =
        RouterMessage::Connect(Connection { connect: connect("a", true), handle: None });
    assert!(matches!(
        router.reply("a", &mut message),
        Err(rumq_broker::router::Error::AllSendersDown)
    ));
    router.handle("a", message);
    assert!(active_ids(&router).is_empty());
}

#[test]
fn cursor_of_a_subscription_moves_where_it_is_told() {
    let mut subscription = Subscription::new(QoS::AtLeastOnce);
    assert_eq!(subscription.offset(), (0, 0));
    subscription.update_offset(3, 14);
    assert_eq!(subscription.offset(), (3, 14));
    assert_eq!(subscription.qos, QoS::AtLeastOnce);
}

#[test]
fn cursor_moves_only_past_what_the_channel_took() {
    let (tx, _rx) = channel(1);
    let mut connection = ActiveConnection::new(tx, MqttState::new(true, None));
    connection.add_to_subscriptions(Subscribe::new("t", QoS::AtMostOnce));
    connection.advance(0, SendOutcome::Full, 2, 5);
    assert_eq!(connection.concrete_subscriptions.entries[0].1.offset, (0, 0));
    connection.advance(0, SendOutcome::Closed, 2, 5);
    assert_eq!(connection.concrete_subscriptions.entries[0].1.offset, (0, 0));
    connection.advance(0, SendOutcome::Sent, 2, 5);
    assert_eq!(connection.concrete_subscriptions.entries[0].1.offset, (2, 6));

    assert_eq!(connection.wild_cursor("a/b"), (0, 0));
    connection.advance_wild("a/b", SendOutcome::Full, 1, 1);
    assert_eq!(connection.wild_cursor("a/b"), (0, 0));
    connection.advance_wild("a/b", SendOutcome::Sent, 1, 1);
    assert_eq!(connection.wild_cursor("a/b"), (1, 2));
    assert_eq!(connection.wild_cursor("a/c"), (0, 0));
}

#[test]
fn quality_of_service_two_goes_through_its_steps() {
    let mut state = MqttState::new(true, None);
    // from the client
    let publish = Packet::Publish(publish("t", QoS::ExactlyOnce, 12, &[1]));
    assert_eq!(
        state.handle_incoming_mqtt_packet(&publish),
        Ok(Some(Packet::PubRec(PubRec::new(12))))
    );
    assert_eq!(state.incoming_pub, vec![12]);
    let release = Packet::PubRel(PubRel::new(12, None));
    assert_eq!(
        state.handle_incoming_mqtt_packet(&release),
        Ok(Some(Packet::PubComp(PubComp::new(12, None))))
    );
    assert!(state.incoming_pub.is_empty());
    assert_eq!(
        state.handle_incoming_mqtt_packet(&release),
        Err(rumq_broker::router::state::Error::Unsolicited(12))
    );
    // to the client
    let mut out = Publish::new("t", QoS::ExactlyOnce, vec![2]);
    state.last_pkid = u16::MAX;
    state.handle_outgoing_publish(QoS::ExactlyOnce, &mut out);
    assert_eq!(out.pkid, 1);
    assert_eq!(
        state.handle_incoming_mqtt_packet(&Packet::PubRec(PubRec::new(1))),
        Ok(Some(Packet::PubRel(PubRel::new(1, None))))
    );
    assert!(state.outgoing_publishes.is_empty());
    assert_eq!(state.outgoing_rel, vec![1]);
    assert_eq!(
        state.handle_incoming_mqtt_packet(&Packet::PubComp(PubComp::new(1, None))),
        Ok(None)
    );
    assert!(state.outgoing_rel.is_empty());
    assert_eq!(state.handle_incoming_mqtt_packet(&Packet::PingReq), Ok(Some(Packet::PingResp)));
    assert_eq!(state.handle_incoming_mqtt_packet(&Packet::PingResp), Ok(None));
}

#[test]
fn router_in_order_is_told_from_one_that_is_not() {
    let mut router = Router::new();
    assert!(router.is_wf());
    let _a = join(&mut router, "a", false);
    let _b = join(&mut router, "b", true);
    router.handle("a", RouterMessage::Packet(subscribe(1, "x/#", QoS::AtMostOnce)));
    router.handle("a", RouterMessage::Packet(subscribe(2, "y", QoS::AtMostOnce)));
    router.handle(
        "b",
        RouterMessage::Packet(Packet::Publish(publish("y", QoS::AtMostOnce, 0, &[1]))),
    );
    router.route();
    assert!(router.is_wf());

    // a filter with a wildcard among those without
    let mut broken = Router::new();
    let _c = join(&mut broken, "c", true);
    broken.active_connections.entries[0]
        .1
        .concrete_subscriptions
        .entries
        .push(("a/+".to_owned(), Subscription::new(QoS::AtMostOnce)));
    assert!(!broken.is_wf());

    // a client that is both there and gone
    let mut twice = Router::new();
    let _d = join(&mut twice, "d", true);
    twice
        .inactive_connections
        .entries
        .push(("d".to_owned(), InactiveConnection::new(MqttState::new(false, None))));
    assert!(!twice.is_wf());

    // segment ids that do not grow
    let mut log = Router::new();
    log.commitlog.fill_at(Publish::new("t", QoS::AtMostOnce, vec![1]), 0).unwrap();
    assert!(log.is_wf());
    log.commitlog.current_segment_id = 5;
    log.commitlog.partitions.entries[0].1.push(rumq_broker::router::Segment::at(0, 10, 0));
    assert!(!log.is_wf());
}

#[test]
fn new_router_is_empty_with_the_log_of_ten_megabyte_segments() {
    let router = Router::new();
    assert!(router.active_connections.entries.is_empty());
    assert!(router.inactive_connections.entries.is_empty());
    assert!(router.commitlog.partitions.entries.is_empty());
    assert!(router.commitlog.retained.entries.is_empty());
    assert_eq!(router.commitlog.max_segement_size, 10 * 1024 * 1024);
    assert_eq!(router.commitlog.segments_per_partition, 100);
    assert_eq!(router.commitlog.current_segment_id, 0);
    assert_eq!(rumq_broker::router::SEGMENT_SIZE, 10_485_760);
    assert_eq!(rumq_broker::router::SEGMENTS_PER_TOPIC, 100);
}

#[test]
fn overlapping_subscriptions_deliver_one_copy() {
    let mut router = Router::new();
    let mut a = join(&mut router, "a", true);
    let mut b = join(&mut router, "b", true);
    router.handle("b", RouterMessage::Packet(subscribe(1, "a/b/c", QoS::AtMostOnce)));
    router.handle("b", RouterMessage::Packet(subscribe(2, "a/+/c", QoS::AtLeastOnce)));
    drain(&mut a);
    drain(&mut b);

    router.handle(
        "a",
        RouterMessage::Packet(Packet::Publish(publish("a/b/c", QoS::AtLeastOnce, 7, &[9]))),
    );
    drain(&mut a);
    router.route();
    let got = publishes(&drain(&mut b));
    assert_eq!(got.len(), 1);
    assert_eq!(got[0].qos, QoS::AtLeastOnce);
    assert_eq!(got[0].topic, "a/b/c");
    assert_eq!(got[0].payload, Bytes::from(vec![9]));

    router.route();
    assert!(drain(&mut b).is_empty());
    assert!(publishes(&drain(&mut a)).is_empty());
}

#[test]
fn delivery_reads_each_subscription_at_its_cursor() {
    let mut log = CommitLog::new(1024, 4).unwrap();
    for n in 0..3u8 {
        log.fill(publish("a", QoS::AtMostOnce, 0, &[n])).unwrap();
    }
    log.fill(publish("b", QoS::AtMostOnce, 0, &[7])).unwrap();
    let end_a = log.get("a", 0, 0, 100).unwrap();
    let end_b = log.get("b", 0, 0, 100).unwrap();
    assert_eq!(end_a.packets.len(), 3);
    assert_eq!(end_b.packets.len(), 1);

    let (tx, mut rx) = channel(4);
    let mut connection = ActiveConnection::new(tx, MqttState::new(true, None));
    connection.add_to_subscriptions(Subscribe::new("a", QoS::AtMostOnce));
    connection.add_to_subscriptions(Subscribe::new("b", QoS::AtMostOnce));
    connection.add_to_subscriptions(Subscribe::new("none", QoS::AtMostOnce));

    assert_eq!(Router::deliver(&mut connection, &log), None);
    assert_eq!(
        connection.concrete_subscriptions.entries[0].1.offset,
        (end_a.segment_id, end_a.log_offset + 1)
    );
    assert_eq!(
        connection.concrete_subscriptions.entries[1].1.offset,
        (end_b.segment_id, end_b.log_offset + 1)
    );
    assert_eq!(connection.concrete_subscriptions.entries[2].1.offset, (0, 0));
    let batches = drain(&mut rx);
    assert_eq!(batches.len(), 2);
    let got = publishes(&batches);
    assert_eq!(got.len(), 4);
    assert_eq!(got[0].payload, Bytes::from(vec![0]));
    assert_eq!(got[1].payload, Bytes::from(vec![1]));
    assert_eq!(got[2].payload, Bytes::from(vec![2]));
    assert_eq!(got[3].payload, Bytes::from(vec![7]));

    // nothing stands to be read now: the connection stays as it is
    assert_eq!(Router::deliver(&mut connection, &log), None);
    assert_eq!(
        connection.concrete_subscriptions.entries[0].1.offset,
        (end_a.segment_id, end_a.log_offset + 1)
    );
    assert!(drain(&mut rx).is_empty());
}

#[test]
fn delivery_tells_which_batch_was_refused() {
    let mut log = CommitLog::new(1024, 4).unwrap();
    log.fill(publish("a", QoS::AtMostOnce, 0, &[1])).unwrap();
    log.fill(publish("b", QoS::AtMostOnce, 0, &[2])).unwrap();
    log.fill(publish("c", QoS::AtMostOnce, 0, &[3])).unwrap();
    let end_a = log.get("a", 0, 0, 100).unwrap();

    let (tx, mut rx) = channel(1);
    let mut connection = ActiveConnection::new(tx, MqttState::new(true, None));
    connection.add_to_subscriptions(Subscribe::new("a", QoS::AtMostOnce));
    connection.add_to_subscriptions(Subscribe::new("b", QoS::AtMostOnce));
    connection.add_to_subscriptions(Subscribe::new("c", QoS::AtMostOnce));

    assert_eq!(Router::deliver(&mut connection, &log), Some(Refusal::Concrete(1)));
    assert_eq!(
        connection.concrete_subscriptions.entries[0].1.offset,
        (end_a.segment_id, end_a.log_offset + 1)
    );
    assert_eq!(connection.concrete_subscriptions.entries[1].1.offset, (0, 0));
    assert_eq!(connection.concrete_subscriptions.entries[2].1.offset, (0, 0));
    let got = publishes(&drain(&mut rx));
    assert_eq!(got.len(), 1);
    assert_eq!(got[0].topic, "a");

    // with a wildcard subscription the place is that of the filter and of the topic
    let (tx, mut rx) = channel(1);
    let mut connection = ActiveConnection::new(tx, MqttState::new(true, None));
    connection.add_to_subscriptions(Subscribe::new("+", QoS::AtMostOnce));
    assert_eq!(Router::deliver(&mut connection, &log), Some(Refusal::Wild(0, 1)));
    assert_eq!(connection.wild_cursor("a"), (end_a.segment_id, end_a.log_offset + 1));
    assert_eq!(connection.wild_cursor("b"), (0, 0));
    assert_eq!(connection.wild_cursor("c"), (0, 0));
    assert_eq!(publishes(&drain(&mut rx)).len(), 1);
}

#[test]
fn tick_in_two_steps_names_the_connections_that_leave() {
    let mut router = Router::new();
    let mut a = join(&mut router, "a", true);
    let (tx, _rx) = channel(2);
    router.handle("b", RouterMessage::Connect(Connection::new(connect("b", false), tx)));
    router.handle("b", RouterMessage::Packet(subscribe(1, "t", QoS::AtMostOnce)));
    router.handle("a", RouterMessage::Packet(subscribe(1, "t", QoS::AtMostOnce)));
    router.handle(
        "a",
        RouterMessage::Packet(Packet::Publish(publish("t", QoS::AtMostOnce, 0, &[1]))),
    );
    drain(&mut a);

    let graveyard = router.deliver_all();
    assert_eq!(graveyard, vec!["b".to_owned()]);
    assert_eq!(active_ids(&router), vec!["a".to_owned(), "b".to_owned()]);
    router.bury(&graveyard);
    assert_eq!(active_ids(&router), vec!["a".to_owned()]);
    assert_eq!(inactive_ids(&router), vec!["b".to_owned()]);
    assert_eq!(publishes(&drain(&mut a)).len(), 1);
}

#[test]
fn filter_covers_what_it_selects() {
    assert!(is_covered("a/#", "a/b"));
    assert!(is_covered("a/+/c", "a/b/c"));
    assert!(is_covered("#", "a/+/c"));
    assert!(!is_covered("a/b/c", "a/+/c"));
    assert!(!is_covered("a/+", "a/b/c"));
    assert!(!is_covered("#", "$SYS/a"));
    // a filter or topic that begins with a wide character is covered by nothing
    assert!(!is_covered("#", "\u{e9}/a"));
    assert!(!is_covered("\u{e9}/a", "\u{e9}/a"));
    assert!(is_covered("a/+", "a/\u{e9}"));
}

#[test]
fn subscribe_without_retained_publishes_keeps_the_subscriber() {
    let mut router = Router::new();
    let (tx, mut rx) = channel(1);
    router.handle("b", RouterMessage::Connect(Connection::new(connect("b", true), tx)));
    // the answer to the connect has filled the channel: nothing more can be sent
    let wanted = Subscribe::new("a/b", QoS::AtMostOnce);
    assert_eq!(router.track_subscribe("b", wanted), SendOutcome::Sent);
    router.fill_and_track("b", subscribe(2, "a/+", QoS::AtLeastOnce));
    assert_eq!(active_ids(&router), vec!["b".to_owned()]);
    let connection = &router.active_connections.entries[0].1;
    assert_eq!(
        filters(&connection.wild_subscriptions.entries),
        vec![("a/+".to_owned(), QoS::AtLeastOnce)]
    );
    assert_eq!(drain(&mut rx), vec![Outgoing::Pending(VecDeque::new())]);
}

#[test]
fn subscribe_with_retained_publishes_lets_a_full_subscriber_go() {
    let mut router = Router::new();
    let _a = join(&mut router, "a", true);
    let mut retained = publish("a/b", QoS::AtMostOnce, 0, &[1]);
    retained.retain = true;
    router.handle("a", RouterMessage::Packet(Packet::Publish(retained)));

    let (tx, _rx) = channel(1);
    router.handle("b", RouterMessage::Connect(Connection::new(connect("b", false), tx)));
    router.fill_and_track("b", subscribe(2, "a/b", QoS::AtMostOnce));
    assert_eq!(active_ids(&router), vec!["a".to_owned()]);
    assert_eq!(inactive_ids(&router), vec!["b".to_owned()]);
}

#[test]
fn displaced_connection_is_told_that_its_session_was_taken_over() {
    assert_eq!(
        takeover_notice(),
        Outgoing::Packet(Packet::Disconnect(Disconnect { reason_code: 142, properties: None }))
    );
}

#[test]
fn one_level_wildcard_selects_retained_publishes_of_one_level() {
    let mut router = Router::new();
    let _a = join(&mut router, "a", true);
    for topic in ["a/x/c", "a/y/c", "a/x/y/c"] {
        let mut retained = publish(topic, QoS::AtMostOnce, 0, &[1]);
        retained.retain = true;
        router.handle("a", RouterMessage::Packet(Packet::Publish(retained)));
    }
    let wanted = Subscribe::new("a/+/c", QoS::AtMostOnce);
    let found = router.match_retainted_publishes(&wanted.topics);
    let topics: Vec<String> = found.iter().map(|f| f.0.topic.clone()).collect();
    assert_eq!(topics, vec!["a/x/c".to_owned(), "a/y/c".to_owned()]);
}

#[test]
fn many_level_wildcard_selects_retained_publishes_below_its_levels() {
    let mut router = Router::new();
    let _a = join(&mut router, "a", true);
    for topic in ["a/b", "b/a", "a/b/c/d", "ab/c", "a/"] {
        let mut retained = publish(topic, QoS::AtLeastOnce, 1, &[1]);
        retained.retain = true;
        router.handle("a", RouterMessage::Packet(Packet::Publish(retained)));
    }
    let wanted = Subscribe::new("a/#", QoS::AtLeastOnce);
    let found = router.match_retainted_publishes(&wanted.topics);
    let topics: Vec<String> = found.iter().map(|f| f.0.topic.clone()).collect();
    assert_eq!(topics, vec!["a/b".to_owned(), "a/b/c/d".to_owned(), "a/".to_owned()]);
}
