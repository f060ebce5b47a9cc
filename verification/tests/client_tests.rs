use bytes::{BufMut, Bytes, BytesMut};
use mqtt_broker::client::{
    forget_client, handle_connect, handle_subscribe, packet_action, publish_ack, suback_code, uuid_simple, ClientError,
    PacketAction,
};
use mqtt_broker::packet::connect::ConnectPacket;
use mqtt_broker::packet::publish::PublishPacket;
use mqtt_broker::packet::subscribe::{SUBACK_FAILURE, SUBACK_QOS0, SUBACK_QOS1};
use mqtt_broker::packet::{encode_string, MqttPacket, PacketError, PacketType, QoS};
use mqtt_broker::router::Router;
use tokio::sync::mpsc;

fn connect_frame(name: &str, level: u8, client_id: &str) -> MqttPacket {
    let connect = ConnectPacket {
        protocol_name: name.into(),
        protocol_level: level,
        clean_session: true,
        will_flag: false,
        will_qos: 0,
        will_retain: false,
        password_flag: false,
        username_flag: false,
        keep_alive: 60,
        client_id: client_id.into(),
        will_topic: None,
        will_message: None,
        username: None,
        password: None,
    };
    let mut payload = BytesMut::new();
    connect.encode(&mut payload);
    MqttPacket { packet_type: PacketType::Connect, flags: 0, payload: payload.freeze() }
}

fn subscribe_frame(packet_id: u16, filters: &[(&str, u8)]) -> MqttPacket {
    let mut payload = BytesMut::new();
    payload.put_u16(packet_id);
    for (filter, qos) in filters {
        encode_string(&mut payload, filter);
        payload.put_u8(*qos);
    }
    MqttPacket { packet_type: PacketType::Subscribe, flags: 0x02, payload: payload.freeze() }
}

#[test]
fn connect_is_accepted_and_registered() {
    let mut router = Router::new();
    let (tx, _rx) = mpsc::channel(8);
    let (id, connack) = handle_connect(&mut router, &connect_frame("MQTT", 4, "test-client"), &tx, 0).unwrap();
    assert_eq!(id, "test-client");
    assert_eq!(connack.packet_type, PacketType::ConnAck);
    assert_eq!(connack.payload.as_ref(), &[0x00, 0x00]);
    assert_eq!(router.client_count(), 1);
}

#[test]
fn empty_client_id_gets_a_generated_one() {
    let mut router = Router::new();
    let (tx, _rx) = mpsc::channel(8);
    let (id, _) = handle_connect(&mut router, &connect_frame("MQTT", 4, ""), &tx, 0x1a2b).unwrap();
    assert_eq!(id, "anon-1a2b");
}

#[test]
fn wrong_protocol_is_refused() {
    let mut router = Router::new();
    let (tx, _rx) = mpsc::channel(8);
    match handle_connect(&mut router, &connect_frame("MQIsdp", 3, "c"), &tx, 0) {
        Err(ClientError::Protocol(m)) => assert_eq!(m, "unsupported protocol: MQIsdp v3"),
        _ => panic!("expected a protocol error"),
    }
    match handle_connect(&mut router, &connect_frame("MQTT", 5, "c"), &tx, 0) {
        Err(ClientError::Protocol(m)) => assert_eq!(m, "unsupported protocol: MQTT v5"),
        _ => panic!("expected a protocol error"),
    }
    match handle_connect(&mut router, &connect_frame("MQTT", 200, "c"), &tx, 0) {
        Err(ClientError::Protocol(m)) => assert_eq!(m, "unsupported protocol: MQTT v200"),
        _ => panic!("expected a protocol error"),
    }
    assert_eq!(router.client_count(), 0);
}

#[test]
fn malformed_connect_is_a_packet_error() {
    let mut router = Router::new();
    let (tx, _rx) = mpsc::channel(8);
    let frame = MqttPacket { packet_type: PacketType::Connect, flags: 0, payload: Bytes::from_static(&[0x00]) };
    assert!(matches!(
        handle_connect(&mut router, &frame, &tx, 0),
        Err(ClientError::Packet(PacketError::Incomplete { needed: 2, available: 1 }))
    ));
}

#[test]
fn subscribe_before_connect_is_refused() {
    let mut router = Router::new();
    let (tx, _rx) = mpsc::channel(8);
    match handle_subscribe(&mut router, &None, &subscribe_frame(1, &[("a", 0)]), &tx) {
        Err(ClientError::Protocol(m)) => assert_eq!(m, "SUBSCRIBE before CONNECT"),
        _ => panic!("expected a protocol error"),
    }
    assert_eq!(router.subscription_count(), 0);
}

#[test]
fn subscribe_answers_one_code_per_filter() {
    let mut router = Router::new();
    let (tx, _rx) = mpsc::channel(8);
    let suback = handle_subscribe(
        &mut router,
        &Some("sub".to_string()),
        &subscribe_frame(0x0102, &[("sensor/+", 0), ("alarm/#", 1)]),
        &tx,
    )
    .unwrap();
    assert_eq!(suback.packet_type, PacketType::SubAck);
    assert_eq!(suback.payload.as_ref(), &[0x01, 0x02, 0x00, 0x01]);
    assert_eq!(router.subscription_count(), 2);
    assert_eq!(router.client_count(), 1);
}

#[test]
fn subscribe_with_bad_qos_is_a_packet_error() {
    let mut router = Router::new();
    let (tx, _rx) = mpsc::channel(8);
    assert!(matches!(
        handle_subscribe(&mut router, &Some("c".into()), &subscribe_frame(1, &[("a", 2)]), &tx),
        Err(ClientError::Packet(PacketError::UnsupportedQoS))
    ));
    assert_eq!(router.subscription_count(), 0);
}

#[test]
fn subscribe_replays_no_retained_messages() {
    let mut router = Router::new();
    router.publish(PublishPacket {
        dup: false,
        qos: QoS::AtMostOnce,
        retain: true,
        topic: "status/door".into(),
        packet_id: None,
        payload: Bytes::from_static(b"open"),
    });
    let (tx, mut rx) = mpsc::channel(8);
    handle_subscribe(&mut router, &Some("c".into()), &subscribe_frame(3, &[("status/+", 0)]), &tx).unwrap();
    assert!(rx.try_recv().is_err());
}

#[test]
fn connect_subscribe_publish_delivers() {
    let mut router = Router::new();
    let (pub_tx, _pub_rx) = mpsc::channel(8);
    let (sub_tx, mut sub_rx) = mpsc::channel(8);
    handle_connect(&mut router, &connect_frame("MQTT", 4, "publisher"), &pub_tx, 0).unwrap();
    let (sub_id, _) = handle_connect(&mut router, &connect_frame("MQTT", 4, "subscriber"), &sub_tx, 0).unwrap();
    handle_subscribe(&mut router, &Some(sub_id), &subscribe_frame(1, &[("sensors/+/temp", 1)]), &sub_tx).unwrap();
    let acks = router.publish(PublishPacket {
        dup: false,
        qos: QoS::AtLeastOnce,
        retain: false,
        topic: "sensors/living/temp".into(),
        packet_id: Some(42),
        payload: Bytes::from_static(b"21.0"),
    });
    assert_eq!(acks, vec![("subscriber".to_string(), Some(1))]);
    let msg = sub_rx.try_recv().unwrap();
    assert_eq!(msg.publish.topic, "sensors/living/temp");
    assert_eq!(msg.publish.qos, QoS::AtLeastOnce);
    assert!(msg.publish.packet_id.is_some());
}

#[test]
fn publish_acknowledgements() {
    let mut publish = PublishPacket {
        dup: false,
        qos: QoS::AtLeastOnce,
        retain: false,
        topic: "t".into(),
        packet_id: Some(42),
        payload: Bytes::new(),
    };
    assert_eq!(publish_ack(&publish).unwrap().packet_id, 42);
    publish.packet_id = None;
    assert!(publish_ack(&publish).is_none());
    publish.qos = QoS::AtMostOnce;
    publish.packet_id = Some(7);
    assert!(publish_ack(&publish).is_none());
}

#[test]
fn suback_codes() {
    assert_eq!(suback_code(QoS::AtMostOnce), SUBACK_QOS0);
    assert_eq!(suback_code(QoS::AtLeastOnce), SUBACK_QOS1);
    assert_eq!(suback_code(QoS::ExactlyOnce), SUBACK_FAILURE);
}

#[test]
fn uuid_simple_is_lower_hex_of_the_clock_reading() {
    assert_eq!(uuid_simple(0), "0");
    assert_eq!(uuid_simple(255), "ff");
    assert_eq!(uuid_simple(0x1a2b), "1a2b");
    assert_eq!(uuid_simple(1_700_000_000_123_456_789), format!("{:x}", 1_700_000_000_123_456_789u128));
    assert_eq!(uuid_simple(u128::MAX), "f".repeat(32));
}

#[test]
fn each_packet_type_calls_for_its_action() {
    assert_eq!(packet_action(PacketType::Connect), PacketAction::Connect);
    assert_eq!(packet_action(PacketType::Publish), PacketAction::Publish);
    assert_eq!(packet_action(PacketType::PubAck), PacketAction::PubAck);
    assert_eq!(packet_action(PacketType::Subscribe), PacketAction::Subscribe);
    assert_eq!(packet_action(PacketType::PingReq), PacketAction::PingResp);
    assert_eq!(packet_action(PacketType::Disconnect), PacketAction::Disconnect);
    assert_eq!(packet_action(PacketType::ConnAck), PacketAction::Ignore);
    assert_eq!(packet_action(PacketType::SubAck), PacketAction::Ignore);
    assert_eq!(packet_action(PacketType::PingResp), PacketAction::Ignore);
}

#[test]
fn a_closed_connection_forgets_its_client() {
    let mut router = Router::new();
    let (tx, _rx) = mpsc::channel(8);
    let (id, _) = handle_connect(&mut router, &connect_frame("MQTT", 4, "leaver"), &tx, 0).unwrap();
    let (other_tx, _other_rx) = mpsc::channel(8);
    handle_connect(&mut router, &connect_frame("MQTT", 4, "stayer"), &other_tx, 0).unwrap();
    handle_subscribe(&mut router, &Some(id.clone()), &subscribe_frame(1, &[("a/#", 0), ("b", 1)]), &tx).unwrap();
    assert_eq!(router.client_count(), 2);
    assert_eq!(router.subscription_count(), 2);

    forget_client(&mut router, &None);
    assert_eq!(router.client_count(), 2);
    assert_eq!(router.subscription_count(), 2);

    forget_client(&mut router, &Some(id));
    assert_eq!(router.client_count(), 1);
    assert_eq!(router.subscription_count(), 0);
}
