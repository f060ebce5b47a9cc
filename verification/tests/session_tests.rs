use bytes::{BufMut, Bytes, BytesMut};
use mqtt_broker::client::{handle_connect, handle_subscribe, packet_action, publish_ack, PacketAction};
use mqtt_broker::packet::connect::{ConnectPacket, CONNACK_ACCEPTED};
use mqtt_broker::packet::publish::PublishPacket;
use mqtt_broker::packet::subscribe::ping_resp;
use mqtt_broker::packet::{encode_string, MqttPacket, PacketType, QoS};
use mqtt_broker::router::{RoutedMessage, Router};
use tokio::sync::mpsc;

/// One client connection, driven by bytes instead of a socket: what it has
/// read but not yet decoded, who it is, and the channel the router reaches it by.
struct Session {
    inbound: BytesMut,
    client_id: Option<String>,
    tx: mpsc::Sender<RoutedMessage>,
    rx: mpsc::Receiver<RoutedMessage>,
}

impl Session {
    fn new() -> Self {
        let (tx, rx) = mpsc::channel(64);
        Session { inbound: BytesMut::new(), client_id: None, tx, rx }
    }

    /// Takes in bytes from the client and answers each whole packet among them;
    /// returns the bytes written back.
    fn feed(&mut self, router: &mut Router, bytes: &[u8]) -> BytesMut {
        self.inbound.put_slice(bytes);
        let mut out = BytesMut::new();
        while let Some(packet) = MqttPacket::decode(&mut self.inbound).unwrap() {
            match packet_action(packet.packet_type) {
                PacketAction::Connect => {
                    let (id, connack) = handle_connect(router, &packet, &self.tx, 0).unwrap();
                    self.client_id = Some(id);
                    connack.encode(&mut out);
                }
                PacketAction::Publish => {
                    let publish = PublishPacket::decode(packet.flags, &packet.payload).unwrap();
                    if let Some(ack) = publish_ack(&publish) {
                        ack.encode().encode(&mut out);
                    }
                    router.publish(publish);
                }
                PacketAction::PubAck => {}
                PacketAction::Subscribe => {
                    let suback = handle_subscribe(router, &self.client_id, &packet, &self.tx).unwrap();
                    suback.encode(&mut out);
                }
                PacketAction::PingResp => ping_resp().encode(&mut out),
                PacketAction::Disconnect => break,
                PacketAction::Ignore => {}
            }
        }
        out
    }

    /// The bytes of the messages the router has queued for this client.
    fn drain_outbound(&mut self) -> BytesMut {
        let mut out = BytesMut::new();
        while let Ok(routed) = self.rx.try_recv() {
            routed.publish.encode().encode(&mut out);
        }
        out
    }
}

fn read_packets(mut bytes: BytesMut) -> Vec<MqttPacket> {
    let mut packets = Vec::new();
    while let Some(p) = MqttPacket::decode(&mut bytes).unwrap() {
        packets.push(p);
    }
    assert!(bytes.is_empty());
    packets
}

fn encode_connect(client_id: &str) -> BytesMut {
    let mut payload = BytesMut::new();
    let connect = ConnectPacket {
        protocol_name: "MQTT".into(),
        protocol_level: 4,
        clean_session: true,
        will_flag: false,
        will_qos: 0,
        will_retain: false,
        password_flag: false,
        username_flag: false,
        keep_alive: 60,
        client_id: client_id.into(),
        will_topic: None,
        will_message: None,
        username: None,
        password: None,
    };
    connect.encode(&mut payload);
    let mut buf = BytesMut::new();
    MqttPacket { packet_type: PacketType::Connect, flags: 0, payload: payload.freeze() }.encode(&mut buf);
    buf
}

fn encode_subscribe(packet_id: u16, topic: &str, qos: QoS) -> BytesMut {
    let mut payload = BytesMut::new();
    payload.put_u16(packet_id);
    encode_string(&mut payload, topic);
    payload.put_u8(qos.as_u8());
    let mut buf = BytesMut::new();
    MqttPacket { packet_type: PacketType::Subscribe, flags: 0x02, payload: payload.freeze() }.encode(&mut buf);
    buf
}

fn encode_publish(topic: &str, payload_data: &[u8], qos: QoS, packet_id: Option<u16>) -> BytesMut {
    let publish = PublishPacket {
        dup: false,
        qos,
        retain: false,
        topic: topic.into(),
        packet_id,
        payload: Bytes::copy_from_slice(payload_data),
    };
    let mut buf = BytesMut::new();
    publish.encode().encode(&mut buf);
    buf
}

fn connected(router: &mut Router, client_id: &str) -> Session {
    let mut s = Session::new();
    let replies = read_packets(s.feed(router, &encode_connect(client_id)));
    assert_eq!(replies.len(), 1);
    assert_eq!(replies[0].packet_type, PacketType::ConnAck);
    s
}

#[test]
fn connect_and_receive_connack() {
    let mut router = Router::new();
    let mut session = Session::new();
    let replies = read_packets(session.feed(&mut router, &encode_connect("test-client")));
    assert_eq!(replies.len(), 1);
    assert_eq!(replies[0].packet_type, PacketType::ConnAck);
    assert_eq!(replies[0].payload[1], CONNACK_ACCEPTED);
}

#[test]
fn pub_sub_qos0_delivery() {
    let mut router = Router::new();
    let mut publisher = connected(&mut router, "publisher");
    let mut subscriber = connected(&mut router, "subscriber");
    let suback = read_packets(subscriber.feed(&mut router, &encode_subscribe(1, "test/topic", QoS::AtMostOnce)));
    assert_eq!(suback[0].packet_type, PacketType::SubAck);

    let replies = publisher.feed(&mut router, &encode_publish("test/topic", b"hello mqtt", QoS::AtMostOnce, None));
    assert!(replies.is_empty());

    let delivered = read_packets(subscriber.drain_outbound());
    assert_eq!(delivered.len(), 1);
    assert_eq!(delivered[0].packet_type, PacketType::Publish);
    let publish = PublishPacket::decode(delivered[0].flags, &delivered[0].payload).unwrap();
    assert_eq!(publish.topic, "test/topic");
    assert_eq!(publish.payload.as_ref(), b"hello mqtt");
}

#[test]
fn pub_sub_qos1_with_puback() {
    let mut router = Router::new();
    let mut publisher = connected(&mut router, "pub-qos1");
    let mut subscriber = connected(&mut router, "sub-qos1");
    read_packets(subscriber.feed(&mut router, &encode_subscribe(1, "qos1/topic", QoS::AtLeastOnce)));

    let replies =
        read_packets(publisher.feed(&mut router, &encode_publish("qos1/topic", b"qos1 message", QoS::AtLeastOnce, Some(42))));
    assert_eq!(replies.len(), 1);
    assert_eq!(replies[0].packet_type, PacketType::PubAck);
    assert_eq!(replies[0].payload.as_ref(), &[0, 42]);

    let delivered = read_packets(subscriber.drain_outbound());
    assert_eq!(delivered.len(), 1);
    assert_eq!(delivered[0].packet_type, PacketType::Publish);
    let publish = PublishPacket::decode(delivered[0].flags, &delivered[0].payload).unwrap();
    assert_eq!(publish.qos, QoS::AtLeastOnce);
    assert!(publish.packet_id.is_some());
}

#[test]
fn ping_req_receives_ping_resp() {
    let mut router = Router::new();
    let mut session = connected(&mut router, "ping-client");
    let mut ping = BytesMut::new();
    MqttPacket { packet_type: PacketType::PingReq, flags: 0, payload: Bytes::new() }.encode(&mut ping);
    let replies = read_packets(session.feed(&mut router, &ping));
    assert_eq!(replies.len(), 1);
    assert_eq!(replies[0].packet_type, PacketType::PingResp);
}

#[test]
fn wildcard_subscription_matches() {
    let mut router = Router::new();
    let mut publisher = connected(&mut router, "wild-pub");
    let mut subscriber = connected(&mut router, "wild-sub");
    read_packets(subscriber.feed(&mut router, &encode_subscribe(1, "sensors/+/temp", QoS::AtMostOnce)));

    publisher.feed(&mut router, &encode_publish("sensors/living/temp", b"21.0", QoS::AtMostOnce, None));

    let delivered = read_packets(subscriber.drain_outbound());
    assert_eq!(delivered.len(), 1);
    let publish = PublishPacket::decode(delivered[0].flags, &delivered[0].payload).unwrap();
    assert_eq!(publish.topic, "sensors/living/temp");
    assert_eq!(publish.payload.as_ref(), b"21.0");
}

#[test]
fn packets_split_across_reads_are_answered_once_whole() {
    let mut router = Router::new();
    let mut session = Session::new();
    let bytes = encode_connect("split-client");
    let (head, tail) = bytes.split_at(5);
    assert!(session.feed(&mut router, head).is_empty());
    assert_eq!(router.client_count(), 0);
    let replies = read_packets(session.feed(&mut router, tail));
    assert_eq!(replies.len(), 1);
    assert_eq!(replies[0].packet_type, PacketType::ConnAck);
    assert_eq!(router.client_count(), 1);
}
