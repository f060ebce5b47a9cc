//! MQTT 3.1.1 fixed header: packet types, QoS levels, the variable-length
//! "remaining length" field, length-prefixed strings, and packet framing.
use vstd::prelude::*;
use bytes::{Bytes, BytesMut};

use vstd::utf8::{decode_utf8, encode_utf8, valid_utf8, encode_utf8_decode_utf8, encode_utf8_valid_utf8};

use crate::buffer::{
    advance, be16, be16_value, bytes_as_slice, bytes_mut_as_slice, bytes_mut_view, bytes_slice,
    bytes_view, freeze, get_u16, put_slice, put_u16, put_u8, split_to,
};

pub mod connect;
pub mod publish;
pub mod subscribe;

verus! {

/// The control packet types this broker understands.
#[derive(Debug, Clone, Copy, PartialEq, Eq, Structural)]
pub enum PacketType {
    Connect,
    ConnAck,
    Publish,
    PubAck,
    Subscribe,
    SubAck,
    PingReq,
    PingResp,
    Disconnect,
}

/// The number that identifies a packet type in the high nibble of the first byte.
pub open spec fn packet_type_code(t: PacketType) -> u8 {
    match t {
        PacketType::Connect => 1,
        PacketType::ConnAck => 2,
        PacketType::Publish => 3,
        PacketType::PubAck => 4,
        PacketType::Subscribe => 8,
        PacketType::SubAck => 9,
        PacketType::PingReq => 12,
        PacketType::PingResp => 13,
        PacketType::Disconnect => 14,
    }
}

/// The packet type that a number identifies, if any.
pub open spec fn packet_type_of(v: u8) -> Option<PacketType> {
    if v == 1 {
        Some(PacketType::Connect)
    } else if v == 2 {
        Some(PacketType::ConnAck)
    } else if v == 3 {
        Some(PacketType::Publish)
    } else if v == 4 {
        Some(PacketType::PubAck)
    } else if v == 8 {
        Some(PacketType::Subscribe)
    } else if v == 9 {
        Some(PacketType::SubAck)
    } else if v == 12 {
        Some(PacketType::PingReq)
    } else if v == 13 {
        Some(PacketType::PingResp)
    } else if v == 14 {
        Some(PacketType::Disconnect)
    } else {
        None
    }
}

impl PacketType {
    pub fn from_u8(value: u8) -> (r: Option<Self>)
        ensures
            r == packet_type_of(value),
    {
        match value {
            1 => Some(Self::Connect),
            2 => Some(Self::ConnAck),
            3 => Some(Self::Publish),
            4 => Some(Self::PubAck),
            8 => Some(Self::Subscribe),
            9 => Some(Self::SubAck),
            12 => Some(Self::PingReq),
            13 => Some(Self::PingResp),
            14 => Some(Self::Disconnect),
            _ => None,
        }
    }

    /// The number that identifies this packet type on the wire.
    pub fn code(self) -> (r: u8)
        ensures
            r == packet_type_code(self),
    {
        match self {
            Self::Connect => 1,
            Self::ConnAck => 2,
            Self::Publish => 3,
            Self::PubAck => 4,
            Self::Subscribe => 8,
            Self::SubAck => 9,
            Self::PingReq => 12,
            Self::PingResp => 13,
            Self::Disconnect => 14,
        }
    }
}

/// Every packet type is read back from its own code.
pub proof fn lemma_packet_type_code_roundtrip(t: PacketType)
    ensures
        packet_type_of(packet_type_code(t)) == Some(t),
        1 <= packet_type_code(t) <= 15,
{
}

/// Quality-of-service levels.
#[derive(Debug, Clone, Copy, PartialEq, Eq, Structural)]
pub enum QoS {
    AtMostOnce,
    AtLeastOnce,
    ExactlyOnce,
}

/// The number of a QoS level.
pub open spec fn qos_code(q: QoS) -> u8 {
    match q {
        QoS::AtMostOnce => 0,
        QoS::AtLeastOnce => 1,
        QoS::ExactlyOnce => 2,
    }
}

/// How `QoS::from_u8` reads a number: levels 0 and 1 are accepted, level 2 is
/// refused as unsupported, anything else is invalid.
pub open spec fn qos_of(v: u8) -> Result<QoS, PacketError> {
    if v == 0 {
        Ok(QoS::AtMostOnce)
    } else if v == 1 {
        Ok(QoS::AtLeastOnce)
    } else if v == 2 {
        Err(PacketError::UnsupportedQoS)
    } else {
        Err(PacketError::InvalidQoS(v))
    }
}

impl QoS {
    pub fn from_u8(value: u8) -> (r: Result<Self, PacketError>)
        ensures
            r == qos_of(value),
    {
        match value {
            0 => Ok(Self::AtMostOnce),
            1 => Ok(Self::AtLeastOnce),
            2 => Err(PacketError::UnsupportedQoS),
            v => Err(PacketError::InvalidQoS(v)),
        }
    }

    pub fn as_u8(self) -> (r: u8)
        ensures
            r == qos_code(self),
    {
        match self {
            Self::AtMostOnce => 0,
            Self::AtLeastOnce => 1,
            Self::ExactlyOnce => 2,
        }
    }
}

/// Errors of packet decoding.
#[derive(Debug)]
pub enum PacketError {
    Incomplete { needed: usize, available: usize },
    InvalidRemainingLength,
    UnknownPacketType(u8),
    InvalidQoS(u8),
    UnsupportedQoS,
    InvalidString,
    Protocol(String),
}

// ---------------------------------------------------------------------------
// Remaining length
// ---------------------------------------------------------------------------

/// 128 to the power `n`.
pub open spec fn pow128(n: nat) -> nat
    decreases n,
{
    if n == 0 {
        1
    } else {
        128 * pow128((n - 1) as nat)
    }
}

/// The number that a run of remaining-length bytes denotes: seven bits per
/// byte, least significant group first.
pub open spec fn rl_value(s: Seq<u8>) -> nat
    decreases s.len(),
{
    if s.len() == 0 {
        0
    } else {
        rl_value(s.drop_last()) + (s.last() % 128) as nat * pow128((s.len() - 1) as nat)
    }
}

/// Reading a remaining-length field from byte `i` on: a byte below 128 ends
/// the field; a fifth byte is refused; running out of bytes is incomplete.
pub open spec fn rl_decode_from(s: Seq<u8>, i: nat) -> Result<(usize, usize), PacketError>
    decreases 4 - i,
{
    if i >= s.len() {
        Err(PacketError::Incomplete { needed: (i + 1) as usize, available: i as usize })
    } else if i >= 4 {
        Err(PacketError::InvalidRemainingLength)
    } else if s[i as int] < 128 {
        Ok((rl_value(s.take(i + 1 as int)) as usize, (i + 1) as usize))
    } else {
        rl_decode_from(s, i + 1)
    }
}

/// How many bytes reading a remaining-length field from byte `i` on consumes.
pub open spec fn rl_consumed_from(s: Seq<u8>, i: nat) -> nat
    decreases 4 - i,
{
    if i >= s.len() {
        s.len()
    } else if i >= 4 {
        5
    } else if s[i as int] < 128 {
        i + 1
    } else {
        rl_consumed_from(s, i + 1)
    }
}

/// The value and length of the remaining-length field at the start of `s`, or the error.
pub open spec fn rl_decode(s: Seq<u8>) -> Result<(usize, usize), PacketError> {
    rl_decode_from(s, 0)
}

/// The bytes that reading the remaining-length field at the start of `s` consumes.
pub open spec fn rl_consumed(s: Seq<u8>) -> nat {
    rl_consumed_from(s, 0)
}

/// The remaining-length encoding of `v`: seven bits per byte, least
/// significant group first, the high bit set on every byte but the last.
pub open spec fn rl_encode(v: nat) -> Seq<u8>
    decreases v,
{
    if v < 128 {
        seq![v as u8]
    } else {
        seq![(v % 128 + 128) as u8] + rl_encode(v / 128)
    }
}

proof fn lemma_pow128_values()
    ensures
        pow128(0) == 1,
        pow128(1) == 128,
        pow128(2) == 16384,
        pow128(3) == 2097152,
        pow128(4) == 268435456,
{
    reveal_with_fuel(pow128, 5);
}

/// Extending a run by one byte adds that byte's seven bits at its place.
proof fn lemma_rl_value_step(s: Seq<u8>, k: int)
    requires
        0 <= k < s.len(),
    ensures
        rl_value(s.take(k + 1)) == rl_value(s.take(k)) + (s[k] % 128) as nat * pow128(k as nat),
{
    assert(s.take(k + 1).drop_last() =~= s.take(k));
}

/// A run of `k` bytes denotes less than `128^k`.
proof fn lemma_rl_value_bound(s: Seq<u8>)
    ensures
        rl_value(s) < pow128(s.len()),
    decreases s.len(),
{
    if s.len() > 0 {
        lemma_rl_value_bound(s.drop_last());
        let p = pow128((s.len() - 1) as nat);
        let d = (s.last() % 128) as nat;
        assert(d * p <= 127 * p) by (nonlinear_arith)
            requires
                d <= 127,
        ;
    }
}

/// Prepending a byte shifts the rest of the run up by seven bits.
proof fn lemma_rl_value_prepend(b: u8, t: Seq<u8>)
    ensures
        rl_value(seq![b] + t) == (b % 128) as nat + 128 * rl_value(t),
    decreases t.len(),
{
    let u = seq![b] + t;
    if t.len() == 0 {
        assert(u.drop_last() =~= Seq::<u8>::empty());
        assert(rl_value(u) == rl_value(u.drop_last()) + (u.last() % 128) as nat * pow128(0));
        assert(pow128(0) == 1);
        assert(u.last() == b);
        assert(rl_value(t) == 0);
        assert(rl_value(u.drop_last()) == 0);
        assert(rl_value(u) == (b % 128) as nat + 128 * rl_value(t));
    } else {
        let t1 = t.drop_last();
        assert(u.drop_last() =~= seq![b] + t1);
        lemma_rl_value_prepend(b, t1);
        let d = (t.last() % 128) as nat;
        let p = pow128((t.len() - 1) as nat);
        assert(pow128(t.len()) == 128 * p);
        let x = rl_value(t1);
        assert(u.last() == t.last());
        assert(rl_value(u) == rl_value(u.drop_last()) + d * pow128(t.len()));
        assert(rl_value(t) == x + d * p);
        assert(128 * (x + d * p) == 128 * x + d * (128 * p)) by (nonlinear_arith);
        assert(rl_value(seq![b] + t1) == (b % 128) as nat + 128 * x);
        assert(rl_value(u) == (b % 128) as nat + 128 * rl_value(t));
    }
}

/// The shape of an encoded length: continuation bytes, then one final byte
/// below 128, denoting the length itself.
proof fn lemma_rl_encode_shape(v: nat)
    ensures
        rl_encode(v).len() >= 1,
        rl_encode(v).last() < 128,
        forall|i: int| 0 <= i < rl_encode(v).len() - 1 ==> rl_encode(v)[i] >= 128,
        rl_value(rl_encode(v)) == v,
    decreases v,
{
    if v < 128 {
        assert(seq![v as u8].drop_last() =~= Seq::<u8>::empty());
        lemma_rl_value_prepend(v as u8, Seq::<u8>::empty());
        assert(seq![v as u8] + Seq::<u8>::empty() =~= seq![v as u8]);
    } else {
        lemma_rl_encode_shape(v / 128);
        let b = (v % 128 + 128) as u8;
        lemma_rl_value_prepend(b, rl_encode(v / 128));
        assert(b % 128 == v % 128);
        assert(rl_encode(v) == seq![b] + rl_encode(v / 128));
        assert forall|i: int| 0 <= i < rl_encode(v).len() - 1 implies rl_encode(v)[i] >= 128 by {
            if i > 0 {
                assert(rl_encode(v)[i] == rl_encode(v / 128)[i - 1]);
            }
        }
    }
}

/// A length below `128^n` takes at most `n` bytes.
proof fn lemma_rl_encode_len(v: nat, n: nat)
    requires
        n >= 1,
        v < pow128(n),
    ensures
        rl_encode(v).len() <= n,
    decreases v,
{
    if v >= 128 {
        assert(n >= 2) by {
            if n == 1 {
                reveal_with_fuel(pow128, 2);
            }
        }
        assert(v / 128 < pow128((n - 1) as nat));
        lemma_rl_encode_len(v / 128, (n - 1) as nat);
    }
}

/// Reading stops at the first byte below 128 when it comes within four bytes.
proof fn lemma_rl_decode_prefix(s: Seq<u8>, k: nat, j: nat)
    requires
        1 <= k <= 4,
        k <= s.len(),
        j < k,
        forall|i: int| 0 <= i < k - 1 ==> s[i] >= 128,
        s[k - 1] < 128,
    ensures
        rl_decode_from(s, j) == Ok::<(usize, usize), PacketError>((rl_value(s.take(k as int)) as usize, k as usize)),
        rl_consumed_from(s, j) == k,
    decreases k - j,
{
    if j < k - 1 {
        lemma_rl_decode_prefix(s, k, j + 1);
    }
}

/// Law: reading a remaining-length field gives back the length that was
/// written, and consumes exactly its encoding, whatever bytes follow, for
/// every length below 2^28 (the most that four bytes can hold).
pub proof fn lemma_remaining_length_roundtrip(length: nat, rest: Seq<u8>)
    requires
        length < 268435456,
    ensures
        rl_encode(length).len() <= 4,
        rl_decode(rl_encode(length) + rest) == Ok::<(usize, usize), PacketError>((length as usize, rl_encode(length).len() as usize)),
        rl_consumed(rl_encode(length) + rest) == rl_encode(length).len(),
{
    let e = rl_encode(length);
    lemma_pow128_values();
    lemma_rl_encode_len(length, 4);
    lemma_rl_encode_shape(length);
    let s = e + rest;
    assert(s.take(e.len() as int) =~= e);
    lemma_rl_decode_prefix(s, e.len(), 0);
}

pub fn decode_remaining_length(buf: &mut &[u8]) -> (r: Result<(usize, usize), PacketError>)
    ensures
        r == rl_decode(old(buf)@),
        final(buf)@ == old(buf)@.skip(rl_consumed(old(buf)@) as int),
        r matches Ok((v, n)) ==> v < 268435456 && 1 <= n <= 4,
{
    let ghost s = buf@;
    let mut multiplier: usize = 1;
    let mut value: usize = 0;
    let mut consumed: usize = 0;
    proof {
        lemma_pow128_values();
        assert(s.take(0) =~= Seq::<u8>::empty());
        assert(s.skip(0) =~= s);
    }
    loop
        invariant
            s == old(buf)@,
            consumed <= 4,
            consumed <= s.len(),
            buf@ == s.skip(consumed as int),
            value == rl_value(s.take(consumed as int)),
            multiplier == pow128(consumed as nat),
            value < multiplier,
            rl_decode_from(s, 0) == rl_decode_from(s, consumed as nat),
            rl_consumed_from(s, 0) == rl_consumed_from(s, consumed as nat),
        decreases 5 - consumed,
    {
        proof {
            lemma_pow128_values();
        }
        let cur: &[u8] = *buf;
        if cur.len() == 0 {
            return Err(PacketError::Incomplete { needed: consumed + 1, available: consumed });
        }
        let byte = cur[0];
        advance(buf, 1);
        proof {
            assert(s.skip(consumed as int).skip(1) =~= s.skip(consumed + 1));
            lemma_rl_value_step(s, consumed as int);
            assert(s[consumed as int] == byte);
        }
        let ghost old_consumed = consumed;
        consumed += 1;
        if multiplier > 128 * 128 * 128 {
            return Err(PacketError::InvalidRemainingLength);
        }
        proof {
            let d = (byte % 128) as nat;
            assert(d * multiplier <= 127 * multiplier) by (nonlinear_arith)
                requires
                    d <= 127,
            ;
        }
        value = value + (byte % 128) as usize * multiplier;
        multiplier = multiplier * 128;
        if byte < 128 {
            return Ok((value, consumed));
        }
    }
}

pub fn encode_remaining_length(buf: &mut BytesMut, length: usize)
    requires
        bytes_mut_view(*old(buf)).len() + rl_encode(length as nat).len() <= isize::MAX,
    ensures
        bytes_mut_view(*final(buf)) == bytes_mut_view(*old(buf)) + rl_encode(length as nat),
{
    let ghost start = bytes_mut_view(*buf);
    let mut value = length;
    loop
        invariant_except_break
            bytes_mut_view(*buf) + rl_encode(value as nat) == start + rl_encode(length as nat),
            bytes_mut_view(*buf).len() + rl_encode(value as nat).len() <= isize::MAX,
        ensures
            bytes_mut_view(*buf) == start + rl_encode(length as nat),
        decreases value,
    {
        let ghost before = bytes_mut_view(*buf);
        let ghost v = value;
        let mut byte = (value % 128) as u8;
        value /= 128;
        if value > 0 {
            byte = byte + 128;
        }
        put_u8(buf, byte);
        if value == 0 {
            assert(bytes_mut_view(*buf) =~= before + rl_encode(v as nat));
            break;
        }
        assert(rl_encode(v as nat) =~= seq![byte] + rl_encode(value as nat));
        assert(bytes_mut_view(*buf) + rl_encode(value as nat) =~= before + rl_encode(v as nat));
    }
}

// ---------------------------------------------------------------------------
// Length-prefixed fields
// ---------------------------------------------------------------------------

/// The length-prefixed field at the start of `s` (a big-endian `u16` length,
/// then that many bytes): its bytes and how many bytes it takes, or the error.
pub open spec fn prefixed_field(s: Seq<u8>) -> Result<(Seq<u8>, nat), PacketError> {
    if s.len() < 2 {
        Err(PacketError::Incomplete { needed: 2, available: s.len() as usize })
    } else {
        let len = be16_value(s[0], s[1]) as nat;
        if s.len() - 2 < len {
            Err(PacketError::Incomplete { needed: (2 + len) as usize, available: s.len() as usize })
        } else {
            Ok((s.subrange(2, 2 + len as int), 2 + len))
        }
    }
}

/// The string field at the start of `s`: a length-prefixed field whose bytes
/// must be valid UTF-8.
pub open spec fn string_field(s: Seq<u8>) -> Result<(Seq<char>, nat), PacketError> {
    match prefixed_field(s) {
        Err(e) => Err(e),
        Ok((b, n)) => if valid_utf8(b) {
            Ok((decode_utf8(b), n))
        } else {
            Err(PacketError::InvalidString)
        },
    }
}

/// The bytes that a failed read of a length-prefixed field has consumed:
/// the length, once it could be read.
pub open spec fn prefixed_field_error_consumed(s: Seq<u8>) -> nat {
    if s.len() < 2 {
        0
    } else {
        2
    }
}

/// The encoding of a length-prefixed field: the length, cut to 16 bits, then the bytes.
pub open spec fn prefixed_encoding(b: Seq<u8>) -> Seq<u8> {
    be16(b.len() as u16) + b
}

/// The encoding of a string field: its UTF-8 bytes, length-prefixed.
pub open spec fn string_encoding(s: Seq<char>) -> Seq<u8> {
    prefixed_encoding(encode_utf8(s))
}

/// `std::str::from_utf8`: the bytes as a string slice exactly when they are valid UTF-8.
#[verifier::external_body]
fn str_from_utf8(b: &[u8]) -> (r: Option<&str>)
    ensures
        r is Some <==> valid_utf8(b@),
        r matches Some(s) ==> s@ == decode_utf8(b@),
{
    std::str::from_utf8(b).ok()
}

pub fn decode_string(buf: &mut &[u8]) -> (r: Result<String, PacketError>)
    ensures
        match string_field(old(buf)@) {
            Ok((chars, n)) => r matches Ok(v) && v@ == chars && final(buf)@ == old(buf)@.skip(n as int),
            Err(e) => r == Err::<String, PacketError>(e) && final(buf)@ == old(buf)@.skip(
                prefixed_field_error_consumed(old(buf)@) as int,
            ),
        },
{
    let ghost s = buf@;
    let cur: &[u8] = *buf;
    if cur.len() < 2 {
        assert(s.skip(0) =~= s);
        return Err(PacketError::Incomplete { needed: 2, available: cur.len() });
    }
    let len = get_u16(buf) as usize;
    let cur: &[u8] = *buf;
    if cur.len() < len {
        return Err(PacketError::Incomplete { needed: 2 + len, available: cur.len() + 2 });
    }
    let field = &cur[0..len];
    assert(field@ =~= s.subrange(2, 2 + len));
    let text = match str_from_utf8(field) {
        Some(t) => t,
        None => return Err(PacketError::InvalidString),
    };
    let result = text.to_owned();
    advance(buf, len);
    assert(buf@ =~= s.skip(2 + len));
    Ok(result)
}

pub fn encode_string(buf: &mut BytesMut, s: &str)
    requires
        bytes_mut_view(*old(buf)).len() + string_encoding(s@).len() <= isize::MAX,
    ensures
        bytes_mut_view(*final(buf)) == bytes_mut_view(*old(buf)) + string_encoding(s@),
{
    put_u16(buf, s.len() as u16);
    put_slice(buf, s.as_bytes());
    assert(bytes_mut_view(*buf) =~= bytes_mut_view(*old(buf)) + string_encoding(s@));
}

/// Two bytes in network order give back the number they encode.
pub proof fn lemma_be16_roundtrip(v: u16)
    ensures
        be16(v).len() == 2,
        be16_value(be16(v)[0], be16(v)[1]) == v,
{
}

/// Law: a length-prefixed field reads back the bytes that were written, and
/// consumes exactly their encoding, whatever follows, for up to 65535 bytes.
pub proof fn lemma_prefixed_roundtrip(b: Seq<u8>, rest: Seq<u8>)
    requires
        b.len() <= 65535,
    ensures
        prefixed_encoding(b).len() == b.len() + 2,
        prefixed_field(prefixed_encoding(b) + rest) == Ok::<(Seq<u8>, nat), PacketError>((b, prefixed_encoding(b).len())),
{
    let s = prefixed_encoding(b) + rest;
    lemma_be16_roundtrip(b.len() as u16);
    assert(s[0] == be16(b.len() as u16)[0]);
    assert(s[1] == be16(b.len() as u16)[1]);
    assert(s.subrange(2, 2 + b.len() as int) =~= b);
}

/// Law: a string field reads back the string that was written, and consumes
/// exactly its encoding, whatever follows, for strings of up to 65535 UTF-8 bytes.
pub proof fn lemma_string_roundtrip(text: Seq<char>, rest: Seq<u8>)
    requires
        encode_utf8(text).len() <= 65535,
    ensures
        string_encoding(text).len() == encode_utf8(text).len() + 2,
        string_field(string_encoding(text) + rest) == Ok::<(Seq<char>, nat), PacketError>((text, string_encoding(text).len())),
{
    lemma_prefixed_roundtrip(encode_utf8(text), rest);
    encode_utf8_valid_utf8(text);
    encode_utf8_decode_utf8(text);
}

// ---------------------------------------------------------------------------
// Framing
// ---------------------------------------------------------------------------

/// A control packet as framed on the wire: the fixed header's type and flag
/// nibbles, and the bytes that follow the remaining-length field.
pub struct MqttPacket {
    pub packet_type: PacketType,
    pub flags: u8,
    pub payload: Bytes,
}

/// The frame at the start of `s`: its type, flags, body and total size, or
/// `None` when the buffer does not hold the whole frame yet.
pub open spec fn frame_decode(s: Seq<u8>) -> Result<Option<(PacketType, u8, Seq<u8>, nat)>, PacketError> {
    if s.len() == 0 {
        Ok(None)
    } else {
        match packet_type_of(s[0] / 16) {
            None => Err(PacketError::UnknownPacketType(s[0] / 16)),
            Some(t) => match rl_decode(s.skip(1)) {
                Err(e) => Err(e),
                Ok((len, consumed)) => {
                    let header = 1 + consumed;
                    let total = header + len;
                    if s.len() < total {
                        Ok(None)
                    } else {
                        Ok(Some((t, s[0] % 16, s.subrange(header as int, total as int), total as nat)))
                    }
                },
            },
        }
    }
}

/// The wire form of a frame: the type in the high nibble and the flags
/// (cut to four bits) in the low nibble, the body length, then the body.
pub open spec fn frame_encode(t: PacketType, flags: u8, body: Seq<u8>) -> Seq<u8> {
    seq![(packet_type_code(t) * 16 + flags % 16) as u8] + rl_encode(body.len()) + body
}

impl MqttPacket {
    /// Takes one whole frame off the front of `buf`. Leaves `buf` as it is
    /// when it is empty or holds only part of a frame (`Ok(None)`), and on an error.
    pub fn decode(buf: &mut BytesMut) -> (r: Result<Option<Self>, PacketError>)
        ensures
            match frame_decode(bytes_mut_view(*old(buf))) {
                Ok(None) => r matches Ok(None) && bytes_mut_view(*final(buf)) == bytes_mut_view(*old(buf)),
                Ok(Some((t, f, body, total))) => r matches Ok(Some(p)) && p.packet_type == t && p.flags == f
                    && bytes_view(p.payload) == body
                    && bytes_mut_view(*final(buf)) == bytes_mut_view(*old(buf)).skip(total as int),
                Err(e) => r == Err::<Option<MqttPacket>, PacketError>(e)
                    && bytes_mut_view(*final(buf)) == bytes_mut_view(*old(buf)),
            },
    {
        let ghost s = bytes_mut_view(*buf);
        let whole: &[u8] = bytes_mut_as_slice(buf);
        if whole.len() == 0 {
            return Ok(None);
        }
        let header_byte = whole[0];
        let packet_type = match PacketType::from_u8(header_byte / 16) {
            Some(t) => t,
            None => return Err(PacketError::UnknownPacketType(header_byte / 16)),
        };
        let flags = header_byte % 16;
        let mut reader: &[u8] = &whole[1..whole.len()];
        assert(reader@ =~= s.skip(1));
        let (remaining_length, consumed) = match decode_remaining_length(&mut reader) {
            Ok(v) => v,
            Err(e) => return Err(e),
        };
        let header_size = 1 + consumed;
        let total_size = header_size + remaining_length;
        if whole.len() < total_size {
            return Ok(None);
        }
        let frame = freeze(split_to(buf, total_size));
        let payload = bytes_slice(&frame, header_size, total_size);
        assert(bytes_view(payload) =~= s.subrange(header_size as int, total_size as int));
        Ok(Some(Self { packet_type, flags, payload }))
    }

    /// Appends this packet's frame to `buf`.
    pub fn encode(&self, buf: &mut BytesMut)
        requires
            bytes_mut_view(*old(buf)).len() + frame_encode(self.packet_type, self.flags, bytes_view(self.payload)).len()
                <= isize::MAX,
        ensures
            bytes_mut_view(*final(buf)) == bytes_mut_view(*old(buf)) + frame_encode(
                self.packet_type,
                self.flags,
                bytes_view(self.payload),
            ),
    {
        let header_byte = self.packet_type.code() * 16 + self.flags % 16;
        put_u8(buf, header_byte);
        let payload = bytes_as_slice(&self.payload);
        encode_remaining_length(buf, payload.len());
        put_slice(buf, payload);
        assert(bytes_mut_view(*buf) =~= bytes_mut_view(*old(buf)) + frame_encode(
            self.packet_type,
            self.flags,
            bytes_view(self.payload),
        ));
    }
}

/// Law: decoding a buffer that starts with an encoded frame gives back that
/// frame's type, flags and body, and takes exactly the frame, whatever follows;
/// for flags below 16 and bodies below 2^28 bytes.
pub proof fn lemma_frame_roundtrip(t: PacketType, flags: u8, body: Seq<u8>, rest: Seq<u8>)
    requires
        flags < 16,
        body.len() < 268435456,
    ensures
        frame_decode(frame_encode(t, flags, body) + rest) == Ok::<Option<(PacketType, u8, Seq<u8>, nat)>, PacketError>(
            Some((t, flags, body, frame_encode(t, flags, body).len())),
        ),
{
    let e = rl_encode(body.len());
    let s = frame_encode(t, flags, body) + rest;
    lemma_remaining_length_roundtrip(body.len(), body + rest);
    lemma_packet_type_code_roundtrip(t);
    assert(s[0] == (packet_type_code(t) * 16 + flags % 16) as u8);
    assert(s[0] / 16 == packet_type_code(t));
    assert(s[0] % 16 == flags);
    assert(s.skip(1) =~= e + (body + rest));
    assert(s.subrange(1 + e.len() as int, 1 + e.len() + body.len() as int) =~= body);
}

/// Law: a buffer that holds a frame's whole fixed header but only part of
/// its body decodes as "not yet" (`Ok(None)`), and decoding leaves the buffer
/// as it is; a frame that arrives in pieces is taken only once it is whole.
/// For flags below 16 and bodies below 2^28 bytes.
pub proof fn lemma_frame_prefix_waits(t: PacketType, flags: u8, body: Seq<u8>, k: nat)
    requires
        flags < 16,
        body.len() < 268435456,
        1 + rl_encode(body.len()).len() <= k < frame_encode(t, flags, body).len(),
    ensures
        frame_decode(frame_encode(t, flags, body).take(k as int)) == Ok::<
            Option<(PacketType, u8, Seq<u8>, nat)>,
            PacketError,
        >(None),
{
    let e = rl_encode(body.len());
    let f = frame_encode(t, flags, body);
    let p = f.take(k as int);
    let rest = body.take(k - 1 - e.len());
    lemma_remaining_length_roundtrip(body.len(), rest);
    lemma_packet_type_code_roundtrip(t);
    assert(p[0] == (packet_type_code(t) * 16 + flags % 16) as u8);
    assert(p[0] / 16 == packet_type_code(t));
    assert(p.skip(1) =~= e + rest);
}

} // verus!
