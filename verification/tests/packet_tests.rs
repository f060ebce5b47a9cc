use bytes::{BufMut, Bytes, BytesMut};
use mqtt_broker::packet::connect::{ConnAckPacket, ConnectPacket, CONNACK_ACCEPTED};
use mqtt_broker::packet::publish::{PubAckPacket, PublishPacket};
use mqtt_broker::packet::subscribe::{ping_resp, SubAckPacket, SubscribePacket};
use mqtt_broker::packet::{
    decode_remaining_length, decode_string, encode_remaining_length, encode_string, MqttPacket,
    PacketError, PacketType, QoS,
};

fn encoded_length(len: usize) -> Vec<u8> {
    let mut buf = BytesMut::new();
    encode_remaining_length(&mut buf, len);
    buf.to_vec()
}

#[test]
fn round_trip_remaining_length() {
    for len in [0, 127, 128, 16383, 2097151] {
        let mut buf = BytesMut::new();
        encode_remaining_length(&mut buf, len);
        let mut slice = buf.as_ref();
        let (decoded, _) = decode_remaining_length(&mut slice).unwrap();
        assert_eq!(decoded, len);
    }
}

#[test]
fn remaining_length_encodings() {
    assert_eq!(encoded_length(0), vec![0x00]);
    assert_eq!(encoded_length(127), vec![0x7f]);
    assert_eq!(encoded_length(128), vec![0x80, 0x01]);
    assert_eq!(encoded_length(16383), vec![0xff, 0x7f]);
    assert_eq!(encoded_length(16384), vec![0x80, 0x80, 0x01]);
    assert_eq!(encoded_length(2097151), vec![0xff, 0xff, 0x7f]);
    assert_eq!(encoded_length(268435455), vec![0xff, 0xff, 0xff, 0x7f]);
}

#[test]
fn remaining_length_largest_round_trip() {
    let bytes = encoded_length(268435455);
    let mut slice: &[u8] = &bytes;
    assert_eq!(decode_remaining_length(&mut slice).unwrap(), (268435455, 4));
    assert!(slice.is_empty());
}

#[test]
fn remaining_length_consumes_only_its_bytes() {
    let data = [0x80u8, 0x01, 0xaa, 0xbb];
    let mut slice: &[u8] = &data;
    assert_eq!(decode_remaining_length(&mut slice).unwrap(), (128, 2));
    assert_eq!(slice, &[0xaa, 0xbb]);
}

#[test]
fn remaining_length_errors() {
    let mut empty: &[u8] = &[];
    assert!(matches!(
        decode_remaining_length(&mut empty),
        Err(PacketError::Incomplete { needed: 1, available: 0 })
    ));
    let data = [0x80u8];
    let mut slice: &[u8] = &data;
    assert!(matches!(
        decode_remaining_length(&mut slice),
        Err(PacketError::Incomplete { needed: 2, available: 1 })
    ));
    let data = [0xffu8, 0xff, 0xff, 0xff];
    let mut slice: &[u8] = &data;
    assert!(matches!(
        decode_remaining_length(&mut slice),
        Err(PacketError::Incomplete { needed: 5, available: 4 })
    ));
    let data = [0xffu8, 0xff, 0xff, 0xff, 0x01, 0x00];
    let mut slice: &[u8] = &data;
    assert!(matches!(
        decode_remaining_length(&mut slice),
        Err(PacketError::InvalidRemainingLength)
    ));
    assert_eq!(slice, &[0x00]);
}

#[test]
fn packet_type_codes() {
    let all = [
        (1, PacketType::Connect),
        (2, PacketType::ConnAck),
        (3, PacketType::Publish),
        (4, PacketType::PubAck),
        (8, PacketType::Subscribe),
        (9, PacketType::SubAck),
        (12, PacketType::PingReq),
        (13, PacketType::PingResp),
        (14, PacketType::Disconnect),
    ];
    for (code, t) in all {
        assert_eq!(PacketType::from_u8(code), Some(t));
        assert_eq!(t.code(), code);
    }
    for code in [0u8, 5, 6, 7, 10, 11, 15, 16, 255] {
        assert_eq!(PacketType::from_u8(code), None);
    }
}

#[test]
fn qos_levels() {
    assert_eq!(QoS::from_u8(0).unwrap(), QoS::AtMostOnce);
    assert_eq!(QoS::from_u8(1).unwrap(), QoS::AtLeastOnce);
    assert!(matches!(QoS::from_u8(2), Err(PacketError::UnsupportedQoS)));
    assert!(matches!(QoS::from_u8(3), Err(PacketError::InvalidQoS(3))));
    assert!(matches!(QoS::from_u8(200), Err(PacketError::InvalidQoS(200))));
    assert_eq!(QoS::AtMostOnce.as_u8(), 0);
    assert_eq!(QoS::AtLeastOnce.as_u8(), 1);
    assert_eq!(QoS::ExactlyOnce.as_u8(), 2);
}

#[test]
fn string_round_trip() {
    for text in ["", "a", "sensor/temp", "größe/温度", "emoji 🚀"] {
        let mut buf = BytesMut::new();
        encode_string(&mut buf, text);
        assert_eq!(buf.len(), 2 + text.len());
        buf.put_u8(0x42);
        let mut slice = buf.as_ref();
        assert_eq!(decode_string(&mut slice).unwrap(), text);
        assert_eq!(slice, &[0x42]);
    }
}

#[test]
fn string_encoding_bytes() {
    let mut buf = BytesMut::new();
    encode_string(&mut buf, "MQTT");
    assert_eq!(buf.as_ref(), &[0x00, 0x04, b'M', b'Q', b'T', b'T']);
}

#[test]
fn string_decode_errors() {
    let data = [0x00u8];
    let mut slice: &[u8] = &data;
    assert!(matches!(
        decode_string(&mut slice),
        Err(PacketError::Incomplete { needed: 2, available: 1 })
    ));
    assert_eq!(slice.len(), 1);

    let data = [0x00u8, 0x05, b'a', b'b'];
    let mut slice: &[u8] = &data;
    assert!(matches!(
        decode_string(&mut slice),
        Err(PacketError::Incomplete { needed: 7, available: 4 })
    ));
    assert_eq!(slice, &[b'a', b'b']);

    let data = [0x00u8, 0x02, 0xff, 0xfe];
    let mut slice: &[u8] = &data;
    assert!(matches!(decode_string(&mut slice), Err(PacketError::InvalidString)));
}

fn frame(packet: &MqttPacket) -> BytesMut {
    let mut buf = BytesMut::new();
    packet.encode(&mut buf);
    buf
}

#[test]
fn frame_encoding_bytes() {
    let packet = MqttPacket {
        packet_type: PacketType::Publish,
        flags: 0x0b,
        payload: Bytes::from_static(b"xyz"),
    };
    assert_eq!(frame(&packet).as_ref(), &[0x3b, 0x03, b'x', b'y', b'z']);
    let packet = MqttPacket {
        packet_type: PacketType::PingReq,
        flags: 0x1f,
        payload: Bytes::new(),
    };
    assert_eq!(frame(&packet).as_ref(), &[0xcf, 0x00]);
}

#[test]
fn frame_round_trip() {
    let body: Vec<u8> = (0..300u32).map(|i| (i % 251) as u8).collect();
    let packet = MqttPacket {
        packet_type: PacketType::Subscribe,
        flags: 0x02,
        payload: Bytes::from(body.clone()),
    };
    let mut buf = frame(&packet);
    buf.put_slice(&[0xc0, 0x00]);
    let decoded = MqttPacket::decode(&mut buf).unwrap().unwrap();
    assert_eq!(decoded.packet_type, PacketType::Subscribe);
    assert_eq!(decoded.flags, 0x02);
    assert_eq!(decoded.payload.as_ref(), body.as_slice());
    assert_eq!(buf.as_ref(), &[0xc0, 0x00]);
    let next = MqttPacket::decode(&mut buf).unwrap().unwrap();
    assert_eq!(next.packet_type, PacketType::PingReq);
    assert!(buf.is_empty());
}

#[test]
fn frame_decode_needs_whole_frame() {
    let mut buf = BytesMut::new();
    assert!(MqttPacket::decode(&mut buf).unwrap().is_none());

    let mut buf = BytesMut::from(&[0x30u8, 0x05, 0x00, 0x01][..]);
    assert!(MqttPacket::decode(&mut buf).unwrap().is_none());
    assert_eq!(buf.len(), 4);
}

#[test]
fn frame_decode_errors() {
    let mut buf = BytesMut::from(&[0x00u8, 0x00][..]);
    assert!(matches!(
        MqttPacket::decode(&mut buf),
        Err(PacketError::UnknownPacketType(0))
    ));
    assert_eq!(buf.len(), 2);

    let mut buf = BytesMut::from(&[0x30u8, 0x80][..]);
    assert!(matches!(
        MqttPacket::decode(&mut buf),
        Err(PacketError::Incomplete { needed: 2, available: 1 })
    ));
    assert_eq!(buf.len(), 2);

    let mut buf = BytesMut::from(&[0x30u8, 0xff, 0xff, 0xff, 0xff, 0x01][..]);
    assert!(matches!(
        MqttPacket::decode(&mut buf),
        Err(PacketError::InvalidRemainingLength)
    ));
}

fn full_connect() -> ConnectPacket {
    ConnectPacket {
        protocol_name: "MQTT".into(),
        protocol_level: 4,
        clean_session: true,
        will_flag: true,
        will_qos: 1,
        will_retain: true,
        password_flag: true,
        username_flag: true,
        keep_alive: 300,
        client_id: "dev-7".into(),
        will_topic: Some("status/dev-7".into()),
        will_message: Some(Bytes::from_static(b"offline")),
        username: Some("user".into()),
        password: Some(Bytes::from_static(b"secret")),
    }
}

#[test]
fn connect_round_trip() {
    let connect = full_connect();
    let mut buf = BytesMut::new();
    connect.encode(&mut buf);
    let decoded = ConnectPacket::decode(&buf).unwrap();
    assert_eq!(decoded.protocol_name, "MQTT");
    assert_eq!(decoded.protocol_level, 4);
    assert!(decoded.clean_session);
    assert!(decoded.will_flag);
    assert_eq!(decoded.will_qos, 1);
    assert!(decoded.will_retain);
    assert!(decoded.password_flag);
    assert!(decoded.username_flag);
    assert_eq!(decoded.keep_alive, 300);
    assert_eq!(decoded.client_id, "dev-7");
    assert_eq!(decoded.will_topic.as_deref(), Some("status/dev-7"));
    assert_eq!(decoded.will_message.as_deref(), Some(&b"offline"[..]));
    assert_eq!(decoded.username.as_deref(), Some("user"));
    assert_eq!(decoded.password.as_deref(), Some(&b"secret"[..]));
}

#[test]
fn connect_encoding_bytes() {
    let connect = ConnectPacket {
        protocol_name: "MQTT".into(),
        protocol_level: 4,
        clean_session: true,
        will_flag: false,
        will_qos: 0,
        will_retain: false,
        password_flag: false,
        username_flag: false,
        keep_alive: 60,
        client_id: "c".into(),
        will_topic: None,
        will_message: None,
        username: None,
        password: None,
    };
    let mut buf = BytesMut::new();
    connect.encode(&mut buf);
    assert_eq!(
        buf.as_ref(),
        &[0x00, 0x04, b'M', b'Q', b'T', b'T', 0x04, 0x02, 0x00, 0x3c, 0x00, 0x01, b'c']
    );
    let mut full = BytesMut::new();
    full_connect().encode(&mut full);
    assert_eq!(full[7], 0xee);
}

#[test]
fn connect_decode_errors() {
    let good = {
        let mut buf = BytesMut::new();
        full_connect().encode(&mut buf);
        buf.to_vec()
    };
    // cut after the protocol name
    assert!(matches!(
        ConnectPacket::decode(&good[..6]),
        Err(PacketError::Incomplete { needed: 7, available: 6 })
    ));
    // cut after the level
    assert!(matches!(
        ConnectPacket::decode(&good[..7]),
        Err(PacketError::Incomplete { needed: 8, available: 7 })
    ));
    // cut in the keep-alive
    assert!(matches!(
        ConnectPacket::decode(&good[..9]),
        Err(PacketError::Incomplete { needed: 10, available: 9 })
    ));
    // cut in the client identifier
    assert!(matches!(
        ConnectPacket::decode(&good[..11]),
        Err(PacketError::Incomplete { needed: 2, available: 1 })
    ));
    // cut in the password
    assert!(matches!(
        ConnectPacket::decode(&good[..good.len() - 1]),
        Err(PacketError::Incomplete { needed: 8, available: 7 })
    ));
}

#[test]
fn connack_encoding() {
    let ack = ConnAckPacket::accepted(false);
    assert_eq!(ack.return_code, CONNACK_ACCEPTED);
    let packet = ack.encode();
    assert_eq!(packet.packet_type, PacketType::ConnAck);
    assert_eq!(packet.flags, 0);
    assert_eq!(packet.payload.as_ref(), &[0x00, 0x00]);
    let packet = ConnAckPacket::accepted(true).encode();
    assert_eq!(packet.payload.as_ref(), &[0x01, 0x00]);
}

#[test]
fn publish_round_trip() {
    for (qos, id) in [(QoS::AtMostOnce, None), (QoS::AtLeastOnce, Some(42u16))] {
        let publish = PublishPacket {
            dup: true,
            qos,
            retain: true,
            topic: "a/b".into(),
            packet_id: id,
            payload: Bytes::from_static(b"payload"),
        };
        let packet = publish.encode();
        assert_eq!(packet.packet_type, PacketType::Publish);
        let decoded = PublishPacket::decode(packet.flags, &packet.payload).unwrap();
        assert!(decoded.dup);
        assert_eq!(decoded.qos, qos);
        assert!(decoded.retain);
        assert_eq!(decoded.topic, "a/b");
        assert_eq!(decoded.packet_id, id);
        assert_eq!(decoded.payload.as_ref(), b"payload");
    }
}

#[test]
fn publish_encoding_bytes() {
    let publish = PublishPacket {
        dup: false,
        qos: QoS::AtLeastOnce,
        retain: false,
        topic: "t".into(),
        packet_id: Some(0x0102),
        payload: Bytes::from_static(b"hi"),
    };
    let packet = publish.encode();
    assert_eq!(packet.flags, 0x02);
    assert_eq!(packet.payload.as_ref(), &[0x00, 0x01, b't', 0x01, 0x02, b'h', b'i']);
}

#[test]
fn publish_decode_errors() {
    assert!(matches!(
        PublishPacket::decode(0x04, &[0x00, 0x01, b't']),
        Err(PacketError::UnsupportedQoS)
    ));
    assert!(matches!(
        PublishPacket::decode(0x06, &[0x00, 0x01, b't']),
        Err(PacketError::InvalidQoS(3))
    ));
    assert!(matches!(
        PublishPacket::decode(0x02, &[0x00, 0x01, b't', 0x07]),
        Err(PacketError::Incomplete { needed: 5, available: 4 })
    ));
    assert!(matches!(
        PublishPacket::decode(0x00, &[0x00, 0x03, b't']),
        Err(PacketError::Incomplete { needed: 5, available: 3 })
    ));
}

#[test]
fn puback_packets() {
    let ack = PubAckPacket::new(0xabcd);
    let packet = ack.encode();
    assert_eq!(packet.packet_type, PacketType::PubAck);
    assert_eq!(packet.payload.as_ref(), &[0xab, 0xcd]);
    assert_eq!(PubAckPacket::decode(&packet.payload).unwrap().packet_id, 0xabcd);
    assert!(matches!(
        PubAckPacket::decode(&[0x01]),
        Err(PacketError::Incomplete { needed: 2, available: 1 })
    ));
}

#[test]
fn subscribe_decoding() {
    let body = [
        0x00u8, 0x07, 0x00, 0x03, b'a', b'/', b'b', 0x01, 0x00, 0x01, b'#', 0xfc,
    ];
    let subscribe = SubscribePacket::decode(0x02, &body).unwrap();
    assert_eq!(subscribe.packet_id, 7);
    assert_eq!(subscribe.subscriptions.len(), 2);
    assert_eq!(subscribe.subscriptions[0].topic_filter, "a/b");
    assert_eq!(subscribe.subscriptions[0].requested_qos, QoS::AtLeastOnce);
    assert_eq!(subscribe.subscriptions[1].topic_filter, "#");
    assert_eq!(subscribe.subscriptions[1].requested_qos, QoS::AtMostOnce);

    let empty = SubscribePacket::decode(0x02, &[0x00, 0x09]).unwrap();
    assert_eq!(empty.packet_id, 9);
    assert!(empty.subscriptions.is_empty());
}

#[test]
fn subscribe_decode_errors() {
    assert!(matches!(
        SubscribePacket::decode(0x02, &[0x00]),
        Err(PacketError::Incomplete { needed: 2, available: 1 })
    ));
    assert!(matches!(
        SubscribePacket::decode(0x02, &[0x00, 0x01, 0x00, 0x01, b'a']),
        Err(PacketError::Incomplete { needed: 6, available: 5 })
    ));
    assert!(matches!(
        SubscribePacket::decode(0x02, &[0x00, 0x01, 0x00, 0x01, b'a', 0x02]),
        Err(PacketError::UnsupportedQoS)
    ));
    assert!(matches!(
        SubscribePacket::decode(0x02, &[0x00, 0x01, 0x00, 0x01, b'a', 0x03]),
        Err(PacketError::InvalidQoS(3))
    ));
}

#[test]
fn suback_and_pingresp() {
    let packet = SubAckPacket::new(0x0203, vec![0x00, 0x01, 0x80]).encode();
    assert_eq!(packet.packet_type, PacketType::SubAck);
    assert_eq!(packet.payload.as_ref(), &[0x02, 0x03, 0x00, 0x01, 0x80]);
    let pong = ping_resp();
    assert_eq!(pong.packet_type, PacketType::PingResp);
    assert_eq!(pong.flags, 0);
    assert!(pong.payload.is_empty());
}

#[test]
fn every_prefix_after_the_header_waits() {
    let body: Vec<u8> = (0..200u32).map(|i| (i % 251) as u8).collect();
    let mut frame = BytesMut::new();
    MqttPacket { packet_type: PacketType::Publish, flags: 0x03, payload: Bytes::from(body.clone()) }.encode(&mut frame);
    assert_eq!(frame.len(), 203);
    for k in 3..frame.len() {
        let mut buf = BytesMut::from(&frame[..k]);
        assert!(MqttPacket::decode(&mut buf).unwrap().is_none());
        assert_eq!(buf.len(), k);
    }
    let mut buf = BytesMut::from(&frame[..2]);
    assert!(matches!(MqttPacket::decode(&mut buf), Err(PacketError::Incomplete { needed: 2, available: 1 })));
    let mut buf = frame.clone();
    let p = MqttPacket::decode(&mut buf).unwrap().unwrap();
    assert_eq!(p.payload.as_ref(), &body[..]);
    assert!(buf.is_empty());
}
