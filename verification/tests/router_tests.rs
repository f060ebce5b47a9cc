use bytes::Bytes;
use mqtt_broker::packet::publish::PublishPacket;
use mqtt_broker::packet::QoS;
use mqtt_broker::router::{acks_from, topic_matches, RoutedMessage, Router};
use tokio::sync::mpsc;

#[test]
fn exact_match() {
    assert!(topic_matches("home/living/temp", "home/living/temp"));
    assert!(!topic_matches("home/living/temp", "home/kitchen/temp"));
}

#[test]
fn single_level_wildcard() {
    assert!(topic_matches("home/+/temp", "home/living/temp"));
    assert!(topic_matches("home/+/temp", "home/kitchen/temp"));
    assert!(!topic_matches("home/+/temp", "home/living/humidity"));
}

#[test]
fn multi_level_wildcard() {
    assert!(topic_matches("home/#", "home/living/temp"));
    assert!(topic_matches("home/#", "home"));
    assert!(!topic_matches("home/#", "office/desk"));
}

#[test]
fn hash_alone_matches_everything() {
    for topic in ["", "a", "a/b", "/", "a//b", "sensor/温度"] {
        assert!(topic_matches("#", topic));
    }
}

#[test]
fn plus_matches_one_level() {
    assert!(topic_matches("+", "a"));
    assert!(topic_matches("+", ""));
    assert!(!topic_matches("+", "a/b"));
    assert!(!topic_matches("+", "/"));
    assert!(topic_matches("+/+", "/"));
    assert!(topic_matches("a/+", "a/"));
}

#[test]
fn topic_edge_cases() {
    assert!(topic_matches("", ""));
    assert!(!topic_matches("", "a"));
    assert!(!topic_matches("a/b", "a"));
    assert!(!topic_matches("a", "a/b"));
    assert!(!topic_matches("a/#/b", "a/x/b"));
    assert!(topic_matches("a//b", "a//b"));
    assert!(!topic_matches("a/b/", "a/b"));
    assert!(!topic_matches("#/", "x"));
    assert!(!topic_matches("+#", "+#x"));
    assert!(topic_matches("sensor/温度", "sensor/温度"));
}

fn publish(topic: &str, payload: &'static [u8], qos: QoS, retain: bool) -> PublishPacket {
    PublishPacket {
        dup: false,
        qos,
        retain,
        topic: topic.into(),
        packet_id: if qos == QoS::AtMostOnce { None } else { Some(1) },
        payload: Bytes::from_static(payload),
    }
}

fn recv_all(rx: &mut mpsc::Receiver<RoutedMessage>) -> Vec<RoutedMessage> {
    let mut out = Vec::new();
    while let Ok(m) = rx.try_recv() {
        out.push(m);
    }
    out
}

#[test]
fn new_router_is_empty() {
    let router = Router::new();
    assert_eq!(router.subscription_count(), 0);
    assert_eq!(router.client_count(), 0);
    let router = Router::default();
    assert_eq!(router.client_count(), 0);
}

#[test]
fn next_packet_id_counts_up() {
    let mut router = Router::new();
    assert_eq!(router.next_packet_id(), 1);
    assert_eq!(router.next_packet_id(), 2);
    assert_eq!(router.next_packet_id(), 3);
}

#[test]
fn next_packet_id_wraps() {
    let mut router = Router::new();
    for _ in 0..65534 {
        router.next_packet_id();
    }
    assert_eq!(router.next_packet_id(), 65535);
    assert_eq!(router.next_packet_id(), 0);
    assert_eq!(router.next_packet_id(), 1);
}

#[test]
fn register_and_remove_clients() {
    let mut router = Router::new();
    let (tx, _rx) = mpsc::channel(8);
    router.register_client("a".into(), tx.clone());
    router.register_client("b".into(), tx.clone());
    router.register_client("a".into(), tx.clone());
    assert_eq!(router.client_count(), 2);
    assert_eq!(router.subscription_count(), 0);
    router.subscribe("a", "x/#".into(), QoS::AtMostOnce, tx.clone());
    assert_eq!(router.subscription_count(), 1);
    router.remove_client("a");
    assert_eq!(router.client_count(), 1);
    assert_eq!(router.subscription_count(), 0);
    router.remove_client("nobody");
    assert_eq!(router.client_count(), 1);
}

#[test]
fn resubscribing_replaces_the_subscription() {
    let mut router = Router::new();
    let (tx, mut rx) = mpsc::channel(8);
    assert_eq!(router.subscribe("c", "t".into(), QoS::AtMostOnce, tx.clone()), QoS::AtMostOnce);
    assert_eq!(router.subscribe("c", "t".into(), QoS::AtLeastOnce, tx.clone()), QoS::AtLeastOnce);
    assert_eq!(router.subscription_count(), 1);
    assert_eq!(router.client_count(), 1);
    let acks = router.publish(publish("t", b"m", QoS::AtLeastOnce, false));
    assert_eq!(acks, vec![("c".to_string(), Some(1))]);
    let got = recv_all(&mut rx);
    assert_eq!(got.len(), 1);
    assert_eq!(got[0].publish.qos, QoS::AtLeastOnce);
}

#[test]
fn publish_reaches_matching_subscribers_only() {
    let mut router = Router::new();
    let (tx_a, mut rx_a) = mpsc::channel(8);
    let (tx_b, mut rx_b) = mpsc::channel(8);
    router.subscribe("a", "sensor/+".into(), QoS::AtMostOnce, tx_a);
    router.subscribe("b", "office/#".into(), QoS::AtMostOnce, tx_b);
    let acks = router.publish(publish("sensor/temp", b"42.5", QoS::AtMostOnce, false));
    assert!(acks.is_empty());
    let got = recv_all(&mut rx_a);
    assert_eq!(got.len(), 1);
    assert_eq!(got[0].publish.topic, "sensor/temp");
    assert_eq!(got[0].publish.payload.as_ref(), b"42.5");
    assert_eq!(got[0].publish.qos, QoS::AtMostOnce);
    assert!(!got[0].publish.dup);
    assert!(!got[0].publish.retain);
    assert_eq!(got[0].packet_id, None);
    assert!(recv_all(&mut rx_b).is_empty());
}

#[test]
fn delivery_qos_is_the_lower_level() {
    let mut router = Router::new();
    let (tx0, mut rx0) = mpsc::channel(8);
    let (tx1, mut rx1) = mpsc::channel(8);
    let (tx2, mut rx2) = mpsc::channel(8);
    router.subscribe("q0", "t".into(), QoS::AtMostOnce, tx0);
    router.subscribe("q1", "t".into(), QoS::AtLeastOnce, tx1);
    router.subscribe("q2", "t".into(), QoS::ExactlyOnce, tx2);
    let mut acks = router.publish(publish("t", b"m", QoS::AtLeastOnce, false));
    acks.sort();
    assert_eq!(acks, vec![("q1".to_string(), Some(1)), ("q2".to_string(), Some(2))]);
    assert_eq!(recv_all(&mut rx0)[0].publish.qos, QoS::AtMostOnce);
    let m1 = recv_all(&mut rx1);
    assert_eq!(m1[0].publish.qos, QoS::AtLeastOnce);
    assert_eq!(m1[0].publish.packet_id, Some(1));
    assert_eq!(m1[0].packet_id, Some(1));
    assert_eq!(recv_all(&mut rx2)[0].publish.qos, QoS::AtLeastOnce);

    let acks = router.publish(publish("t", b"m", QoS::AtMostOnce, false));
    assert!(acks.is_empty());
    assert_eq!(recv_all(&mut rx1)[0].publish.qos, QoS::AtMostOnce);
    let acks = router.publish(publish("t", b"m", QoS::AtLeastOnce, false));
    assert_eq!(acks.len(), 2);
    assert_eq!(router.next_packet_id(), 5);
}

#[test]
fn full_channel_gets_no_ack() {
    let mut router = Router::new();
    let (tx, mut rx) = mpsc::channel(1);
    router.subscribe("c", "t".into(), QoS::AtLeastOnce, tx);
    assert_eq!(router.publish(publish("t", b"1", QoS::AtLeastOnce, false)).len(), 1);
    assert!(router.publish(publish("t", b"2", QoS::AtLeastOnce, false)).is_empty());
    assert_eq!(recv_all(&mut rx).len(), 1);
    assert_eq!(router.next_packet_id(), 3);
}

#[test]
fn removed_client_receives_nothing() {
    let mut router = Router::new();
    let (tx, mut rx) = mpsc::channel(8);
    router.subscribe("c", "#".into(), QoS::AtMostOnce, tx);
    router.remove_client("c");
    router.publish(publish("any/topic", b"m", QoS::AtMostOnce, false));
    assert!(recv_all(&mut rx).is_empty());
}

#[test]
fn retained_messages_are_not_kept() {
    let mut router = Router::new();
    router.publish(publish("a/b", b"x", QoS::AtMostOnce, true));
    router.publish(publish("a/2", b"second", QoS::AtLeastOnce, true));
    assert!(router.retained_messages_matching("a/#").is_empty());
    assert!(router.retained_messages_matching("a/b").is_empty());
    let (tx, mut rx) = mpsc::channel(8);
    router.subscribe("late", "a/#".into(), QoS::AtLeastOnce, tx);
    assert!(recv_all(&mut rx).is_empty());
}

#[test]
fn plan_deliveries_lists_each_matching_subscription() {
    let mut router = Router::new();
    let (tx_a, _rx_a) = mpsc::channel(8);
    let (tx_b, _rx_b) = mpsc::channel(8);
    router.subscribe("a", "t/#".into(), QoS::AtLeastOnce, tx_a.clone());
    router.subscribe("a", "other".into(), QoS::AtLeastOnce, tx_a);
    router.subscribe("b", "t/+".into(), QoS::AtMostOnce, tx_b);
    let p = publish("t/x", b"payload", QoS::AtLeastOnce, true);
    let plan = router.plan_deliveries(&p);
    assert_eq!(plan.len(), 2);
    assert_eq!(plan[0].0, "a");
    assert_eq!(plan[0].2.packet_id, Some(1));
    assert_eq!(plan[0].2.publish.qos, QoS::AtLeastOnce);
    assert_eq!(plan[0].2.publish.packet_id, Some(1));
    assert_eq!(plan[1].0, "b");
    assert_eq!(plan[1].2.packet_id, None);
    assert_eq!(plan[1].2.publish.qos, QoS::AtMostOnce);
    for (_, _, m) in &plan {
        assert_eq!(m.publish.topic, "t/x");
        assert_eq!(m.publish.payload.as_ref(), b"payload");
        assert!(!m.publish.dup);
        assert!(!m.publish.retain);
    }
    // Planning leaves the router as it is: the next plan hands out the same identifiers.
    assert_eq!(router.plan_deliveries(&p)[0].2.packet_id, Some(1));
    assert!(router.plan_deliveries(&publish("u", b"", QoS::AtLeastOnce, false)).is_empty());
}

#[test]
fn acks_from_keeps_queued_qos1_deliveries() {
    let mut router = Router::new();
    let (tx_a, _rx_a) = mpsc::channel(8);
    let (tx_b, _rx_b) = mpsc::channel(8);
    let (tx_c, _rx_c) = mpsc::channel(8);
    router.subscribe("a", "t".into(), QoS::AtLeastOnce, tx_a);
    router.subscribe("b", "t".into(), QoS::AtMostOnce, tx_b);
    router.subscribe("c", "t".into(), QoS::AtLeastOnce, tx_c);
    let plan = router.plan_deliveries(&publish("t", b"m", QoS::AtLeastOnce, false));
    assert_eq!(plan.len(), 3);
    let acks = acks_from(&plan, &vec![true, true, true]);
    assert_eq!(acks, vec![("a".to_string(), Some(1)), ("c".to_string(), Some(2))]);
    let acks = acks_from(&plan, &vec![false, true, true]);
    assert_eq!(acks, vec![("c".to_string(), Some(2))]);
    assert!(acks_from(&plan, &vec![false, true, false]).is_empty());
}

#[test]
fn reconnecting_client_is_reached_on_its_new_channel() {
    let mut router = Router::new();
    let (old_tx, mut old_rx) = mpsc::channel(8);
    router.subscribe("c", "t".into(), QoS::AtMostOnce, old_tx);
    let (new_tx, mut new_rx) = mpsc::channel(8);
    router.register_client("c".into(), new_tx.clone());
    assert_eq!(router.client_count(), 1);
    router.subscribe("c", "t".into(), QoS::AtMostOnce, new_tx);
    assert_eq!(router.subscription_count(), 1);
    router.publish(publish("t", b"hello", QoS::AtMostOnce, false));
    assert!(recv_all(&mut old_rx).is_empty());
    let got = recv_all(&mut new_rx);
    assert_eq!(got.len(), 1);
    assert_eq!(got[0].publish.payload.as_ref(), b"hello");
}

#[test]
fn hash_suffix_after_plus_matches_parent_and_below() {
    assert!(topic_matches("a/+/#", "a/x"));
    assert!(topic_matches("a/+/#", "a/x/y/z"));
    assert!(topic_matches("a/+/#", "a/x/"));
    assert!(!topic_matches("a/+/#", "a"));
    assert!(!topic_matches("a/+/#", "b/x/y"));
    assert!(topic_matches("+/#", "q"));
}

#[test]
fn packet_ids_from_a_new_router_count_up_and_wrap() {
    let mut router = Router::new();
    for k in 1u32..=70000 {
        assert_eq!(router.next_packet_id(), (k % 65536) as u16);
    }
}
