//! SUBSCRIBE, SUBACK and PINGRESP packets.
use vstd::prelude::*;

use crate::buffer::{
    be16, be16_value, bytes_empty, bytes_mut_view, bytes_mut_with_capacity, bytes_view, freeze,
    get_u16, get_u8, put_u16, put_u8,
};
use super::{decode_string, qos_of, string_field, MqttPacket, PacketError, PacketType, QoS};

verus! {

pub const SUBACK_QOS0: u8 = 0x00;

pub const SUBACK_QOS1: u8 = 0x01;

pub const SUBACK_FAILURE: u8 = 0x80;

/// One topic filter of a SUBSCRIBE packet with the QoS asked for it.
#[derive(Debug, Clone)]
pub struct Subscription {
    pub topic_filter: String,
    pub requested_qos: QoS,
}

impl View for Subscription {
    type V = (Seq<char>, QoS);

    open spec fn view(&self) -> (Seq<char>, QoS) {
        (self.topic_filter@, self.requested_qos)
    }
}

#[derive(Debug, Clone)]
pub struct SubscribePacket {
    pub packet_id: u16,
    pub subscriptions: Vec<Subscription>,
}

/// The subscriptions as plain values, in order.
pub open spec fn subscriptions_view(v: Seq<Subscription>) -> Seq<(Seq<char>, QoS)> {
    v.map_values(|x: Subscription| x@)
}

/// The list of subscriptions in `s`: each a topic filter, then a byte whose
/// low two bits are the requested QoS. `total` is the size of the whole body,
/// which a missing QoS byte reports.
pub open spec fn subscriptions_decode(s: Seq<u8>, total: nat) -> Result<Seq<(Seq<char>, QoS)>, PacketError>
    decreases s.len(),
{
    if s.len() == 0 {
        Ok(Seq::empty())
    } else {
        match string_field(s) {
            Err(e) => Err(e),
            Ok((filter, n)) => {
                let rest = s.skip(n as int);
                if rest.len() == 0 {
                    Err(PacketError::Incomplete { needed: (total + 1) as usize, available: total as usize })
                } else {
                    match qos_of(rest[0] % 4) {
                        Err(e) => Err(e),
                        Ok(q) => match subscriptions_decode(rest.skip(1), total) {
                            Err(e) => Err(e),
                            Ok(tail) => Ok(seq![(filter, q)] + tail),
                        },
                    }
                }
            },
        }
    }
}

/// The SUBSCRIBE packet that a body denotes: a packet identifier, then the subscriptions.
pub open spec fn subscribe_decode(s: Seq<u8>) -> Result<(u16, Seq<(Seq<char>, QoS)>), PacketError> {
    if s.len() < 2 {
        Err(PacketError::Incomplete { needed: 2, available: s.len() as usize })
    } else {
        match subscriptions_decode(s.skip(2), s.len()) {
            Err(e) => Err(e),
            Ok(list) => Ok((be16_value(s[0], s[1]), list)),
        }
    }
}

/// The result of decoding the whole list, given the subscriptions already
/// read and the result of decoding what is left.
pub open spec fn after_prefix(
    prefix: Seq<(Seq<char>, QoS)>,
    r: Result<Seq<(Seq<char>, QoS)>, PacketError>,
) -> Result<Seq<(Seq<char>, QoS)>, PacketError> {
    match r {
        Ok(tail) => Ok(prefix + tail),
        Err(e) => Err(e),
    }
}

/// `<[u8]>::len`, with the bound that std documents for every slice: it never
/// holds more than `isize::MAX` bytes (vstd states the length but not the bound).
#[verifier::external_body]
fn slice_len(s: &[u8]) -> (r: usize)
    ensures
        r == s@.len(),
        r <= isize::MAX,
{
    s.len()
}

impl SubscribePacket {
    pub fn decode(_flags: u8, payload: &[u8]) -> (r: Result<Self, PacketError>)
        ensures
            match subscribe_decode(payload@) {
                Ok((id, list)) => r matches Ok(p) && p.packet_id == id && subscriptions_view(
                    p.subscriptions@,
                ) == list,
                Err(e) => r == Err::<SubscribePacket, PacketError>(e),
            },
            r matches Ok(p) ==> 3 * p.subscriptions@.len() + 2 <= payload@.len() <= isize::MAX,
    {
        let total = slice_len(payload);
        if total < 2 {
            return Err(PacketError::Incomplete { needed: 2, available: total });
        }

        let mut buf: &[u8] = payload;
        let packet_id = get_u16(&mut buf);
        let mut subscriptions: Vec<Subscription> = Vec::new();
        assert(subscriptions_view(subscriptions@) =~= Seq::<(Seq<char>, QoS)>::empty());
        assert(after_prefix(Seq::empty(), subscriptions_decode(buf@, total as nat)) =~= subscriptions_decode(
            buf@,
            total as nat,
        )) by {
            match subscriptions_decode(buf@, total as nat) {
                Ok(t) => assert(Seq::<(Seq<char>, QoS)>::empty() + t =~= t),
                Err(_) => {},
            }
        }

        while buf.len() != 0
            invariant
                total == payload@.len(),
                2 <= total <= isize::MAX,
                3 * subscriptions@.len() + buf@.len() + 2 <= total,
                packet_id == be16_value(payload@[0], payload@[1]),
                subscriptions_decode(payload@.skip(2), total as nat) == after_prefix(
                    subscriptions_view(subscriptions@),
                    subscriptions_decode(buf@, total as nat),
                ),
            decreases buf@.len(),
        {
            let ghost s = buf@;
            let ghost pre = subscriptions_view(subscriptions@);
            let topic_filter = match decode_string(&mut buf) {
                Ok(t) => t,
                Err(e) => {
                    assert(subscriptions_decode(s, total as nat) == Err::<Seq<(Seq<char>, QoS)>, PacketError>(e));
                    return Err(e);
                },
            };
            if buf.len() == 0 {
                let ghost err = PacketError::Incomplete { needed: (total + 1) as usize, available: total };
                assert(subscriptions_decode(s, total as nat) == Err::<Seq<(Seq<char>, QoS)>, PacketError>(err));
                return Err(PacketError::Incomplete { needed: total + 1, available: total });
            }
            let qos = match QoS::from_u8(get_u8(&mut buf) % 4) {
                Ok(q) => q,
                Err(e) => return Err(e),
            };
            let ghost item = (topic_filter@, qos);
            subscriptions.push(Subscription { topic_filter, requested_qos: qos });
            proof {
                assert(subscriptions_view(subscriptions@) =~= pre.push(item));
                match subscriptions_decode(buf@, total as nat) {
                    Ok(t) => {
                        assert(pre + (seq![item] + t) =~= pre.push(item) + t);
                    },
                    Err(_) => {},
                }
            }
        }
        proof {
            assert(subscriptions_view(subscriptions@) + Seq::<(Seq<char>, QoS)>::empty() =~= subscriptions_view(
                subscriptions@,
            ));
        }
        Ok(Self { packet_id, subscriptions })
    }
}

/// The reply to a SUBSCRIBE: one return code per subscription, in order.
#[derive(Debug, Clone)]
pub struct SubAckPacket {
    pub packet_id: u16,
    pub return_codes: Vec<u8>,
}

impl SubAckPacket {
    pub fn new(packet_id: u16, return_codes: Vec<u8>) -> (r: Self)
        ensures
            r.packet_id == packet_id,
            r.return_codes@ == return_codes@,
    {
        Self { packet_id, return_codes }
    }

    /// The SUBACK frame: no flags; the identifier, then the return codes.
    pub fn encode(&self) -> (r: MqttPacket)
        requires
            2 + self.return_codes@.len() <= isize::MAX,
        ensures
            r.packet_type == PacketType::SubAck,
            r.flags == 0,
            bytes_view(r.payload) == be16(self.packet_id) + self.return_codes@,
    {
        let mut payload = bytes_mut_with_capacity(2 + self.return_codes.len());
        put_u16(&mut payload, self.packet_id);
        let n = self.return_codes.len();
        let mut i: usize = 0;
        while i < n
            invariant
                n == self.return_codes@.len(),
                2 + n <= isize::MAX,
                i <= n,
                bytes_mut_view(payload) == be16(self.packet_id) + self.return_codes@.take(i as int),
            decreases n - i,
        {
            put_u8(&mut payload, self.return_codes[i]);
            i = i + 1;
            assert(bytes_mut_view(payload) =~= be16(self.packet_id) + self.return_codes@.take(i as int));
        }
        assert(self.return_codes@.take(n as int) =~= self.return_codes@);
        MqttPacket { packet_type: PacketType::SubAck, flags: 0, payload: freeze(payload) }
    }
}

/// The PINGRESP frame: no flags, an empty body.
pub fn ping_resp() -> (r: MqttPacket)
    ensures
        r.packet_type == PacketType::PingResp,
        r.flags == 0,
        bytes_view(r.payload) == Seq::<u8>::empty(),
{
    MqttPacket { packet_type: PacketType::PingResp, flags: 0, payload: bytes_empty() }
}

} // verus!
