//! PUBLISH and PUBACK packets.
use vstd::prelude::*;
use bytes::Bytes;

use crate::buffer::{
    be16, be16_value, bytes_as_slice, bytes_clone, bytes_copy, bytes_mut_new, bytes_mut_view,
    bytes_mut_with_capacity, bytes_view, freeze, get_u16, put_slice, put_u16,
};
use super::{
    decode_string, encode_string, qos_code, qos_of, string_encoding, string_field, MqttPacket,
    PacketError, PacketType, QoS,
};
use vstd::utf8::encode_utf8;

verus! {

/// An application message on its way from a publisher to subscribers.
#[derive(Debug)]
pub struct PublishPacket {
    pub dup: bool,
    pub qos: QoS,
    pub retain: bool,
    pub topic: String,
    pub packet_id: Option<u16>,
    pub payload: Bytes,
}

/// What a PUBLISH packet carries, as plain values.
pub struct PublishFields {
    pub dup: bool,
    pub qos: QoS,
    pub retain: bool,
    pub topic: Seq<char>,
    pub packet_id: Option<u16>,
    pub payload: Seq<u8>,
}

impl View for PublishPacket {
    type V = PublishFields;

    open spec fn view(&self) -> PublishFields {
        PublishFields {
            dup: self.dup,
            qos: self.qos,
            retain: self.retain,
            topic: self.topic@,
            packet_id: self.packet_id,
            payload: bytes_view(self.payload),
        }
    }
}

impl Clone for PublishPacket {
    fn clone(&self) -> (r: Self)
        ensures
            r@ == self@,
    {
        PublishPacket {
            dup: self.dup,
            qos: self.qos,
            retain: self.retain,
            topic: self.topic.clone(),
            packet_id: self.packet_id,
            payload: bytes_clone(&self.payload),
        }
    }
}

/// The PUBLISH packet that a fixed-header flag nibble and a body denote: the
/// DUP bit (8), the QoS bits (6), the RETAIN bit (1); then the topic, a packet
/// identifier when the QoS is above 0, and the rest of the body as the message.
pub open spec fn publish_decode(flags: u8, s: Seq<u8>) -> Result<PublishFields, PacketError> {
    match qos_of((flags / 2) % 4) {
        Err(e) => Err(e),
        Ok(qos) => match string_field(s) {
            Err(e) => Err(e),
            Ok((topic, n)) => {
                let rest = s.skip(n as int);
                if qos != QoS::AtMostOnce {
                    if rest.len() < 2 {
                        Err(
                            PacketError::Incomplete {
                                needed: (s.len() + (2 - rest.len())) as usize,
                                available: s.len() as usize,
                            },
                        )
                    } else {
                        Ok(
                            PublishFields {
                                dup: (flags / 8) % 2 == 1,
                                qos,
                                retain: flags % 2 == 1,
                                topic,
                                packet_id: Some(be16_value(rest[0], rest[1])),
                                payload: rest.skip(2),
                            },
                        )
                    }
                } else {
                    Ok(
                        PublishFields {
                            dup: (flags / 8) % 2 == 1,
                            qos,
                            retain: flags % 2 == 1,
                            topic,
                            packet_id: None,
                            payload: rest,
                        },
                    )
                }
            },
        },
    }
}

/// The flag nibble of a PUBLISH packet.
pub open spec fn publish_flags(p: PublishFields) -> u8 {
    ((if p.dup { 8int } else { 0 }) + (qos_code(p.qos) % 4) * 2 + (if p.retain { 1int } else { 0 })) as u8
}

/// The body of a PUBLISH packet: the topic, the packet identifier when there
/// is one, then the message.
pub open spec fn publish_body(p: PublishFields) -> Seq<u8> {
    string_encoding(p.topic) + match p.packet_id {
        Some(id) => be16(id),
        None => Seq::<u8>::empty(),
    } + p.payload
}

/// A PUBLISH packet that reads back as itself: QoS 0 or 1, an identifier
/// exactly when the QoS is 1, and a topic of at most 65535 UTF-8 bytes.
pub open spec fn publish_well_formed(p: PublishFields) -> bool {
    &&& p.qos != QoS::ExactlyOnce
    &&& (p.packet_id is Some <==> p.qos == QoS::AtLeastOnce)
    &&& encode_utf8(p.topic).len() <= 65535
}

impl PublishPacket {
    pub fn decode(flags: u8, payload: &[u8]) -> (r: Result<Self, PacketError>)
        ensures
            match publish_decode(flags, payload@) {
                Ok(f) => r matches Ok(p) && p@ == f,
                Err(e) => r == Err::<PublishPacket, PacketError>(e),
            },
    {
        let dup = (flags / 8) % 2 == 1;
        let qos = match QoS::from_u8((flags / 2) % 4) {
            Ok(q) => q,
            Err(e) => return Err(e),
        };
        let retain = flags % 2 == 1;

        let mut buf: &[u8] = payload;
        let topic = match decode_string(&mut buf) {
            Ok(t) => t,
            Err(e) => return Err(e),
        };

        let packet_id = if qos != QoS::AtMostOnce {
            if buf.len() < 2 {
                return Err(
                    PacketError::Incomplete {
                        needed: payload.len() + (2 - buf.len()),
                        available: payload.len(),
                    },
                );
            }
            Some(get_u16(&mut buf))
        } else {
            None
        };

        let message = bytes_copy(buf);
        Ok(Self { dup, qos, retain, topic, packet_id, payload: message })
    }

    /// The PUBLISH frame of this packet.
    pub fn encode(&self) -> (r: MqttPacket)
        requires
            publish_body(self@).len() <= isize::MAX,
        ensures
            r.packet_type == PacketType::Publish,
            r.flags == publish_flags(self@),
            bytes_view(r.payload) == publish_body(self@),
    {
        let mut payload = bytes_mut_new();
        encode_string(&mut payload, self.topic.as_str());
        if let Some(id) = self.packet_id {
            put_u16(&mut payload, id);
        }
        put_slice(&mut payload, bytes_as_slice(&self.payload));

        let mut flags = 0u8;
        if self.dup {
            flags = flags + 8;
        }
        flags = flags + (self.qos.as_u8() % 4) * 2;
        if self.retain {
            flags = flags + 1;
        }
        assert(bytes_mut_view(payload) =~= publish_body(self@));

        MqttPacket { packet_type: PacketType::Publish, flags, payload: freeze(payload) }
    }
}

/// Law: a well-formed PUBLISH packet reads back as itself from its own flags and body.
pub proof fn lemma_publish_roundtrip(p: PublishFields)
    requires
        publish_well_formed(p),
    ensures
        publish_decode(publish_flags(p), publish_body(p)) == Ok::<PublishFields, PacketError>(p),
{
    let flags = publish_flags(p);
    let s = publish_body(p);
    let id_bytes = match p.packet_id {
        Some(id) => be16(id),
        None => Seq::<u8>::empty(),
    };
    super::lemma_string_roundtrip(p.topic, id_bytes + p.payload);
    assert(s =~= string_encoding(p.topic) + (id_bytes + p.payload));
    let n = encode_utf8(p.topic).len() + 2;
    assert(string_encoding(p.topic).len() == n);
    assert(s.skip(n as int) =~= id_bytes + p.payload);
    match p.packet_id {
        Some(id) => {
            super::lemma_be16_roundtrip(id);
            assert((id_bytes + p.payload).skip(2) =~= p.payload);
        },
        None => {},
    }
}

proof fn lemma_flag_nibble_bits(d: u8, q: u8, r: u8)
    by (bit_vector)
    requires
        d <= 1,
        q <= 3,
        r <= 1,
    ensures
        ((d * 8 + q * 2 + r) as u8) & 0x01 == r,
        (((d * 8 + q * 2 + r) as u8) >> 3) & 0x01 == d,
        ((((d * 8 + q * 2 + r) as u8) & 0x08) != 0) == (d == 1),
        (((d * 8 + q * 2 + r) as u8) >> 1) & 0x03 == q,
{
}

proof fn lemma_flag_byte_reads(flags: u8)
    by (bit_vector)
    ensures
        (flags % 2 == 1) == (flags & 0x01 != 0),
        ((flags / 8) % 2 == 1) == (flags & 0x08 != 0),
        (flags / 2) % 4 == (flags >> 1) & 0x03,
{
}

/// Law: the flag bits of a PUBLISH stand where the wire puts them, both when
/// reading and when writing: RETAIN is bit 0 (0x01), the QoS is bits 1-2,
/// DUP is bit 3 (0x08).
pub proof fn lemma_publish_flag_bits(flags: u8, s: Seq<u8>, p: PublishFields)
    ensures
        publish_decode(flags, s) matches Ok(q) ==> {
            &&& q.retain == (flags & 0x01 != 0)
            &&& q.dup == (flags & 0x08 != 0)
            &&& qos_code(q.qos) == (flags >> 1) & 0x03
        },
        (publish_flags(p) & 0x01 != 0) == p.retain,
        ((publish_flags(p) >> 3) & 0x01 != 0) == p.dup,
        (publish_flags(p) & 0x08 != 0) == p.dup,
        (publish_flags(p) >> 1) & 0x03 == qos_code(p.qos),
{
    lemma_flag_byte_reads(flags);
    let d: u8 = if p.dup { 1 } else { 0 };
    let q: u8 = qos_code(p.qos);
    let r: u8 = if p.retain { 1 } else { 0 };
    lemma_flag_nibble_bits(d, q, r);
    assert(publish_flags(p) == (d * 8 + q * 2 + r) as u8);
}

/// An acknowledgement of a QoS 1 PUBLISH.
#[derive(Debug, Clone, Copy)]
pub struct PubAckPacket {
    pub packet_id: u16,
}

impl PubAckPacket {
    pub fn new(packet_id: u16) -> (r: Self)
        ensures
            r.packet_id == packet_id,
    {
        Self { packet_id }
    }

    /// Reads the packet identifier from the first two bytes of the body.
    pub fn decode(payload: &[u8]) -> (r: Result<Self, PacketError>)
        ensures
            payload@.len() < 2 ==> r == Err::<PubAckPacket, PacketError>(
                PacketError::Incomplete { needed: 2, available: payload@.len() as usize },
            ),
            payload@.len() >= 2 ==> (r matches Ok(p) && p.packet_id == be16_value(payload@[0], payload@[1])),
    {
        if payload.len() < 2 {
            return Err(PacketError::Incomplete { needed: 2, available: payload.len() });
        }
        let mut buf: &[u8] = payload;
        Ok(Self { packet_id: get_u16(&mut buf) })
    }

    /// The PUBACK frame of this packet: no flags, the identifier as body.
    pub fn encode(&self) -> (r: MqttPacket)
        ensures
            r.packet_type == PacketType::PubAck,
            r.flags == 0,
            bytes_view(r.payload) == be16(self.packet_id),
    {
        let mut payload = bytes_mut_with_capacity(2);
        put_u16(&mut payload, self.packet_id);
        assert(bytes_mut_view(payload) =~= be16(self.packet_id));
        MqttPacket { packet_type: PacketType::PubAck, flags: 0, payload: freeze(payload) }
    }
}

/// Law: an acknowledgement reads back the identifier it was encoded with.
pub proof fn lemma_puback_roundtrip(packet_id: u16)
    ensures
        be16(packet_id).len() == 2,
        be16_value(be16(packet_id)[0], be16(packet_id)[1]) == packet_id,
{
    super::lemma_be16_roundtrip(packet_id);
}

} // verus!
