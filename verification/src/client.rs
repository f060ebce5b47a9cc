//! What a client connection decides on each packet: which client it is,
//! what the router learns, and which frames go back. The connection task
//! itself (socket reads and writes, the router lock) drives these steps.
use vstd::prelude::*;
use vstd::string::StringExecFns;
use tokio::sync::mpsc::Sender;

use crate::buffer::{be16, bytes_as_slice, bytes_view};
use crate::packet::connect::{connect_decode, ConnAckPacket, ConnectPacket, CONNACK_ACCEPTED};
use crate::packet::publish::{PubAckPacket, PublishPacket};
use crate::packet::subscribe::{
    subscribe_decode, subscriptions_view, SubAckPacket, SubscribePacket, SUBACK_FAILURE, SUBACK_QOS0,
    SUBACK_QOS1,
};
use crate::packet::{MqttPacket, PacketError, PacketType, QoS};
use crate::router::laws::{lemma_table_subscribe_row_effect, row_of};
use crate::router::{
    channels_put, channels_remove, clone_sender, keys_insert, keys_remove, table_ensure_row, table_remove_row,
    table_subscribe, RoutedMessage, Router, RouterView,
};

verus! {

#[verifier::external_type_specification]
#[verifier::external_body]
pub struct ExIoError(std::io::Error);

/// Why a client connection ends.
#[derive(Debug)]
pub enum ClientError {
    Io(std::io::Error),
    Packet(PacketError),
    Disconnected,
    Protocol(String),
}

/// The digit of value `d` (below 16): `0`-`9`, then `a`-`f`.
pub open spec fn hex_digit(d: nat) -> char {
    if d < 10 {
        (48 + d) as char
    } else {
        (87 + d) as char
    }
}

/// The digits of `n` in base `base` (2 to 16), most significant first,
/// without leading zeros.
pub open spec fn digits(n: nat, base: nat) -> Seq<char>
    decreases n,
{
    if base < 2 || n < base {
        seq![hex_digit(n)]
    } else {
        proof {
            vstd::arithmetic::div_mod::lemma_div_decreases(n as int, base as int);
        }
        digits(n / base, base).push(hex_digit(n % base))
    }
}

/// The decimal digits of `n`.
pub open spec fn decimal(n: nat) -> Seq<char> {
    digits(n, 10)
}

/// The lower-case hexadecimal digits of `n`, without leading zeros.
pub open spec fn lower_hex(n: nat) -> Seq<char> {
    digits(n, 16)
}

/// The one-character string of digit `d`.
fn digit_str(d: u128) -> (r: &'static str)
    requires
        d < 16,
    ensures
        r@ == seq![hex_digit(d as nat)],
{
    match d {
        0 => {
            proof {
                reveal_strlit("0");
            }
            "0"
        },
        1 => {
            proof {
                reveal_strlit("1");
            }
            "1"
        },
        2 => {
            proof {
                reveal_strlit("2");
            }
            "2"
        },
        3 => {
            proof {
                reveal_strlit("3");
            }
            "3"
        },
        4 => {
            proof {
                reveal_strlit("4");
            }
            "4"
        },
        5 => {
            proof {
                reveal_strlit("5");
            }
            "5"
        },
        6 => {
            proof {
                reveal_strlit("6");
            }
            "6"
        },
        7 => {
            proof {
                reveal_strlit("7");
            }
            "7"
        },
        8 => {
            proof {
                reveal_strlit("8");
            }
            "8"
        },
        9 => {
            proof {
                reveal_strlit("9");
            }
            "9"
        },
        10 => {
            proof {
                reveal_strlit("a");
            }
            "a"
        },
        11 => {
            proof {
                reveal_strlit("b");
            }
            "b"
        },
        12 => {
            proof {
                reveal_strlit("c");
            }
            "c"
        },
        13 => {
            proof {
                reveal_strlit("d");
            }
            "d"
        },
        14 => {
            proof {
                reveal_strlit("e");
            }
            "e"
        },
        _ => {
            proof {
                reveal_strlit("f");
            }
            "f"
        },
    }
}

/// Appends the digits of `n` in base `base` to `out`.
fn push_digits(out: &mut String, n: u128, base: u128)
    requires
        2 <= base <= 16,
    ensures
        final(out)@ == old(out)@ + digits(n as nat, base as nat),
    decreases n,
{
    if n >= base {
        proof {
            vstd::arithmetic::div_mod::lemma_div_decreases(n as int, base as int);
        }
        push_digits(out, n / base, base);
    } else {
        proof {
            vstd::arithmetic::div_mod::lemma_small_mod(n as nat, base as nat);
        }
    }
    let d = digit_str(n % base);
    out.append(d);
    assert(out@ =~= old(out)@ + digits(n as nat, base as nat));
}

/// The number `v` in decimal.
fn u8_decimal(v: u8) -> (r: String)
    ensures
        r@ == decimal(v as nat),
{
    let mut s = String::new();
    push_digits(&mut s, v as u128, 10);
    assert(s@ =~= decimal(v as nat));
    s
}

/// The suffix of a generated client identifier: a clock reading, in
/// nanoseconds since the Unix epoch, written in hexadecimal.
pub fn uuid_simple(nanos: u128) -> (r: String)
    ensures
        r@ == lower_hex(nanos as nat),
{
    let mut s = String::new();
    push_digits(&mut s, nanos, 16);
    assert(s@ =~= lower_hex(nanos as nat));
    s
}

/// The identifier a client gets: the one it asked for, or `anon-` and a
/// generated suffix when it asked for none.
pub open spec fn chosen_client_id(requested: Seq<char>, suffix: Seq<char>) -> Seq<char> {
    if requested.len() == 0 {
        "anon-"@ + suffix
    } else {
        requested
    }
}

/// The message that refuses a protocol name and level.
pub open spec fn unsupported_protocol_message(name: Seq<char>, level: u8) -> Seq<char> {
    "unsupported protocol: "@ + name + " v"@ + decimal(level as nat)
}

/// The SUBACK return code of a granted QoS.
pub open spec fn suback_code_of(q: QoS) -> u8 {
    match q {
        QoS::AtMostOnce => SUBACK_QOS0,
        QoS::AtLeastOnce => SUBACK_QOS1,
        QoS::ExactlyOnce => SUBACK_FAILURE,
    }
}

/// The return codes of a list of subscriptions.
pub open spec fn suback_codes(list: Seq<(Seq<char>, QoS)>) -> Seq<u8> {
    list.map_values(|s: (Seq<char>, QoS)| suback_code_of(s.1))
}

/// The router after `client` subscribes to each filter of `list` in turn,
/// through the channel `s`.
pub open spec fn subscribe_all(
    v: RouterView,
    client: Seq<char>,
    list: Seq<(Seq<char>, QoS)>,
    s: Sender<RoutedMessage>,
) -> RouterView
    decreases list.len(),
{
    if list.len() == 0 {
        v
    } else {
        let prev = subscribe_all(v, client, list.drop_last(), s);
        RouterView {
            subscriptions: table_subscribe(prev.subscriptions, client, list.last().0, list.last().1, s),
            clients: keys_insert(prev.clients, client),
            channels: channels_put(prev.clients, prev.channels, client, s),
            ..prev
        }
    }
}

/// Law: after a SUBSCRIBE of `list` by client `c` through channel `s`, each
/// listed filter that is not listed again later is held in `c`'s row at the
/// QoS asked for it there, with the channel `s`; the SUBACK reports
/// `suback_code_of` of that same QoS at that place.
pub proof fn lemma_subscribe_all_grants(
    v: RouterView,
    c: Seq<char>,
    list: Seq<(Seq<char>, QoS)>,
    s: Sender<RoutedMessage>,
    k: int,
)
    requires
        0 <= k < list.len(),
        forall|j: int| k < j < list.len() ==> list[j].0 != list[k].0,
    ensures
        row_of(subscribe_all(v, c, list, s).subscriptions, c).contains((c, list[k].0, list[k].1, s)),
        suback_codes(list)[k] == suback_code_of(list[k].1),
    decreases list.len(),
{
    let n = list.len();
    let l1 = list.drop_last();
    let prev = subscribe_all(v, c, l1, s);
    if k == n - 1 {
        lemma_table_subscribe_row_effect(prev.subscriptions, c, list[k].0, list[k].1, s, (c, list[k].0, list[k].1, s));
    } else {
        assert forall|j: int| k < j < l1.len() implies l1[j].0 != l1[k].0 by {
            assert(l1[j] == list[j]);
        }
        lemma_subscribe_all_grants(v, c, l1, s, k);
        assert(l1[k] == list[k]);
        assert(list.last() == list[n - 1]);
        lemma_table_subscribe_row_effect(
            prev.subscriptions,
            c,
            list.last().0,
            list.last().1,
            s,
            (c, list[k].0, list[k].1, s),
        );
    }
}

/// Whether two strings hold the same characters.
fn same_text(a: &String, b: &str) -> (r: bool)
    ensures
        r == (a@ == b@),
{
    let other = b.to_owned();
    *a == other
}

/// Accepts or refuses a CONNECT: the packet must decode, and name protocol
/// "MQTT" at level 4. An accepted client is registered with the router, with
/// `outbound_tx` as its channel, under
/// the identifier it asked for, or, when it asked for none, `anon-` and the
/// clock reading `now_nanos` in hexadecimal; the answer is that identifier and
/// an accepting CONNACK frame.
pub fn handle_connect(
    router: &mut Router,
    packet: &MqttPacket,
    outbound_tx: &Sender<RoutedMessage>,
    now_nanos: u128,
) -> (r: Result<(String, MqttPacket), ClientError>)
    ensures
        match connect_decode(bytes_view(packet.payload)) {
            Err(e) => r == Err::<(String, MqttPacket), ClientError>(ClientError::Packet(e)) && final(router)@ == old(
                router,
            )@,
            Ok(c) => if c.protocol_name != "MQTT"@ || c.protocol_level != 4 {
                &&& r matches Err(ClientError::Protocol(m)) && m@ == unsupported_protocol_message(
                    c.protocol_name,
                    c.protocol_level,
                )
                &&& final(router)@ == old(router)@
            } else {
                let id = chosen_client_id(c.client_id, lower_hex(now_nanos as nat));
                &&& r matches Ok((cid, ack)) && cid@ == id && ack.packet_type == PacketType::ConnAck
                    && ack.flags == 0 && bytes_view(ack.payload) == seq![0u8, CONNACK_ACCEPTED]
                &&& final(router)@ == (RouterView {
                    subscriptions: table_ensure_row(old(router)@.subscriptions, id),
                    clients: keys_insert(old(router)@.clients, id),
                    channels: channels_put(old(router)@.clients, old(router)@.channels, id, *outbound_tx),
                    ..old(router)@
                })
            },
        },
{
    let connect = match ConnectPacket::decode(bytes_as_slice(&packet.payload)) {
        Ok(c) => c,
        Err(e) => return Err(ClientError::Packet(e)),
    };

    if !same_text(&connect.protocol_name, "MQTT") || connect.protocol_level != 4 {
        let mut message = "unsupported protocol: ".to_owned();
        message.append(connect.protocol_name.as_str());
        message.append(" v");
        let level = u8_decimal(connect.protocol_level);
        message.append(level.as_str());
        return Err(ClientError::Protocol(message));
    }

    let client_id = if connect.client_id.as_str().is_empty() {
        let mut id = "anon-".to_owned();
        let suffix = uuid_simple(now_nanos);
        id.append(suffix.as_str());
        id
    } else {
        connect.client_id.clone()
    };

    router.register_client(client_id.clone(), clone_sender(outbound_tx));

    let connack = ConnAckPacket::accepted(false);
    Ok((client_id, connack.encode()))
}

/// The acknowledgement a PUBLISH asks for: one for a QoS 1 message that
/// carries a packet identifier, none otherwise.
pub fn publish_ack(publish: &PublishPacket) -> (r: Option<PubAckPacket>)
    ensures
        publish.qos == QoS::AtLeastOnce && publish.packet_id is Some ==> (r matches Some(a) && a.packet_id
            == publish.packet_id->0),
        !(publish.qos == QoS::AtLeastOnce && publish.packet_id is Some) ==> r is None,
{
    if publish.qos == QoS::AtLeastOnce {
        if let Some(id) = publish.packet_id {
            return Some(PubAckPacket::new(id));
        }
    }
    None
}

/// The SUBACK return code of a granted QoS.
pub fn suback_code(granted: QoS) -> (r: u8)
    ensures
        r == suback_code_of(granted),
{
    match granted {
        QoS::AtMostOnce => SUBACK_QOS0,
        QoS::AtLeastOnce => SUBACK_QOS1,
        QoS::ExactlyOnce => SUBACK_FAILURE,
    }
}

/// Handles a SUBSCRIBE of a connected client: each listed filter is
/// subscribed in turn, through the channel `outbound_tx`, and the answer is
/// the SUBACK frame with one return code per filter. The packet must decode,
/// and the client must have connected. No retained messages are replayed, as
/// none are kept.
pub fn handle_subscribe(
    router: &mut Router,
    client_id: &Option<String>,
    packet: &MqttPacket,
    outbound_tx: &Sender<RoutedMessage>,
) -> (r: Result<MqttPacket, ClientError>)
    ensures
        match subscribe_decode(bytes_view(packet.payload)) {
            Err(e) => r == Err::<MqttPacket, ClientError>(ClientError::Packet(e)) && final(router)@ == old(router)@,
            Ok((id, list)) => match client_id {
                None => {
                    &&& r matches Err(ClientError::Protocol(m)) && m@ == "SUBSCRIBE before CONNECT"@
                    &&& final(router)@ == old(router)@
                },
                Some(c) => {
                    &&& r matches Ok(f) && f.packet_type == PacketType::SubAck && f.flags == 0 && bytes_view(
                        f.payload,
                    ) == be16(id) + suback_codes(list)
                    &&& final(router)@ == subscribe_all(old(router)@, c@, list, *outbound_tx)
                },
            },
        },
{
    let payload = bytes_as_slice(&packet.payload);
    let subscribe = match SubscribePacket::decode(packet.flags, payload) {
        Ok(s) => s,
        Err(e) => return Err(ClientError::Packet(e)),
    };
    let client_id = match client_id {
        Some(c) => c.clone(),
        None => return Err(ClientError::Protocol("SUBSCRIBE before CONNECT".to_owned())),
    };

    let ghost list = subscriptions_view(subscribe.subscriptions@);
    let ghost start = router@;
    let n = subscribe.subscriptions.len();
    let mut return_codes: Vec<u8> = Vec::with_capacity(n);
    let mut i: usize = 0;
    assert(list.take(0) =~= Seq::<(Seq<char>, QoS)>::empty());
    assert(return_codes@ =~= suback_codes(list.take(0)));
    while i < n
        invariant
            n == subscribe.subscriptions@.len(),
            list == subscriptions_view(subscribe.subscriptions@),
            i <= n,
            router@ == subscribe_all(start, client_id@, list.take(i as int), *outbound_tx),
            return_codes@ == suback_codes(list.take(i as int)),
        decreases n - i,
    {
        let sub = &subscribe.subscriptions[i];
        assert(list.take(i + 1).drop_last() =~= list.take(i as int));
        assert(list.take(i + 1).last() == sub@);
        let granted = router.subscribe(
            client_id.as_str(),
            sub.topic_filter.clone(),
            sub.requested_qos,
            clone_sender(outbound_tx),
        );
        let code = suback_code(granted);
        return_codes.push(code);
        assert(return_codes@ =~= suback_codes(list.take(i + 1)));

        i = i + 1;
    }
    assert(list.take(n as int) =~= list);

    let suback = SubAckPacket::new(subscribe.packet_id, return_codes);
    Ok(suback.encode())
}

/// What a connection does with a packet of each type.
#[derive(Debug, Clone, Copy, PartialEq, Eq, Structural)]
pub enum PacketAction {
    /// Accept or refuse the client (`handle_connect`).
    Connect,
    /// Acknowledge and route the message (`publish_ack`, `Router::publish`).
    Publish,
    /// Nothing: acknowledgements of delivered messages are not tracked.
    PubAck,
    /// Subscribe the client (`handle_subscribe`).
    Subscribe,
    /// Answer with a PINGRESP frame.
    PingResp,
    /// End the connection.
    Disconnect,
    /// Leave the packet unanswered: only the broker sends packets of this type.
    Ignore,
}

/// The action a packet of type `t` calls for.
pub open spec fn packet_action_of(t: PacketType) -> PacketAction {
    match t {
        PacketType::Connect => PacketAction::Connect,
        PacketType::Publish => PacketAction::Publish,
        PacketType::PubAck => PacketAction::PubAck,
        PacketType::Subscribe => PacketAction::Subscribe,
        PacketType::PingReq => PacketAction::PingResp,
        PacketType::Disconnect => PacketAction::Disconnect,
        PacketType::ConnAck | PacketType::SubAck | PacketType::PingResp => PacketAction::Ignore,
    }
}

/// Which action a received packet calls for.
pub fn packet_action(t: PacketType) -> (r: PacketAction)
    ensures
        r == packet_action_of(t),
{
    match t {
        PacketType::Connect => PacketAction::Connect,
        PacketType::Publish => PacketAction::Publish,
        PacketType::PubAck => PacketAction::PubAck,
        PacketType::Subscribe => PacketAction::Subscribe,
        PacketType::PingReq => PacketAction::PingResp,
        PacketType::Disconnect => PacketAction::Disconnect,
        PacketType::ConnAck | PacketType::SubAck | PacketType::PingResp => PacketAction::Ignore,
    }
}

/// What the router forgets when a connection ends: the subscriptions and
/// the channel of its client, when the client had connected.
pub fn forget_client(router: &mut Router, client_id: &Option<String>)
    ensures
        match client_id {
            Some(c) => final(router)@ == (RouterView {
                subscriptions: table_remove_row(old(router)@.subscriptions, c@),
                clients: keys_remove(old(router)@.clients, c@),
                channels: channels_remove(old(router)@.clients, old(router)@.channels, c@),
                ..old(router)@
            }),
            None => final(router)@ == old(router)@,
        },
{
    if let Some(id) = client_id {
        router.remove_client(id.as_str());
    }
}

} // verus!
