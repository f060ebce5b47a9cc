//! CONNECT and CONNACK packets.
use vstd::prelude::*;
use vstd::seq_lib::lemma_concat_associative;
use bytes::{Bytes, BytesMut};

use crate::buffer::{
    advance, be16, be16_value, bytes_as_slice, bytes_copy, bytes_mut_view, bytes_mut_with_capacity,
    bytes_view, freeze, get_u16, get_u8, put_slice, put_u16, put_u8,
};
use super::{
    decode_string, encode_string, prefixed_encoding, prefixed_field, prefixed_field_error_consumed,
    string_encoding, string_field, lemma_be16_roundtrip, lemma_prefixed_roundtrip, lemma_string_roundtrip,
    MqttPacket, PacketError, PacketType,
};
use vstd::utf8::encode_utf8;

verus! {

pub const CONNACK_ACCEPTED: u8 = 0x00;

/// The first packet a client sends: who it is and how its session behaves.
#[derive(Debug, Clone)]
pub struct ConnectPacket {
    pub protocol_name: String,
    pub protocol_level: u8,
    pub clean_session: bool,
    pub will_flag: bool,
    pub will_qos: u8,
    pub will_retain: bool,
    pub password_flag: bool,
    pub username_flag: bool,
    pub keep_alive: u16,
    pub client_id: String,
    pub will_topic: Option<String>,
    pub will_message: Option<Bytes>,
    pub username: Option<String>,
    pub password: Option<Bytes>,
}

/// What a CONNECT packet carries, as plain values.
pub struct ConnectFields {
    pub protocol_name: Seq<char>,
    pub protocol_level: u8,
    pub clean_session: bool,
    pub will_flag: bool,
    pub will_qos: u8,
    pub will_retain: bool,
    pub password_flag: bool,
    pub username_flag: bool,
    pub keep_alive: u16,
    pub client_id: Seq<char>,
    pub will_topic: Option<Seq<char>>,
    pub will_message: Option<Seq<u8>>,
    pub username: Option<Seq<char>>,
    pub password: Option<Seq<u8>>,
}

pub open spec fn opt_string_view(o: Option<String>) -> Option<Seq<char>> {
    match o {
        Some(s) => Some(s@),
        None => None,
    }
}

pub open spec fn opt_bytes_view(o: Option<Bytes>) -> Option<Seq<u8>> {
    match o {
        Some(b) => Some(bytes_view(b)),
        None => None,
    }
}

impl View for ConnectPacket {
    type V = ConnectFields;

    open spec fn view(&self) -> ConnectFields {
        ConnectFields {
            protocol_name: self.protocol_name@,
            protocol_level: self.protocol_level,
            clean_session: self.clean_session,
            will_flag: self.will_flag,
            will_qos: self.will_qos,
            will_retain: self.will_retain,
            password_flag: self.password_flag,
            username_flag: self.username_flag,
            keep_alive: self.keep_alive,
            client_id: self.client_id@,
            will_topic: opt_string_view(self.will_topic),
            will_message: opt_bytes_view(self.will_message),
            username: opt_string_view(self.username),
            password: opt_bytes_view(self.password),
        }
    }
}

/// A string field that is there only when `present`.
pub open spec fn optional_string_field(present: bool, s: Seq<u8>) -> Result<(Option<Seq<char>>, nat), PacketError> {
    if !present {
        Ok((None, 0))
    } else {
        match string_field(s) {
            Err(e) => Err(e),
            Ok((v, n)) => Ok((Some(v), n)),
        }
    }
}

/// A binary field that is there only when `present`.
pub open spec fn optional_binary_field(present: bool, s: Seq<u8>) -> Result<(Option<Seq<u8>>, nat), PacketError> {
    if !present {
        Ok((None, 0))
    } else {
        match prefixed_field(s) {
            Err(e) => Err(e),
            Ok((v, n)) => Ok((Some(v), n)),
        }
    }
}

/// The CONNECT packet that a body denotes: the protocol name, the level
/// byte, the flags byte, the keep-alive, the client identifier, then the will
/// topic and will message (when the will flag, 0x04, is set), the user name
/// (flag 0x80) and the password (flag 0x40). A body cut short before the
/// client identifier reports the body's size.
pub open spec fn connect_decode(s: Seq<u8>) -> Result<ConnectFields, PacketError> {
    match string_field(s) {
        Err(e) => Err(e),
        Ok((protocol_name, n)) => connect_after_protocol_name(s.len(), protocol_name, s.skip(n as int)),
    }
}

/// The rest of a CONNECT body after the protocol name; `total` is the size of the whole body.
pub open spec fn connect_after_protocol_name(total: nat, protocol_name: Seq<char>, s1: Seq<u8>) -> Result<
    ConnectFields,
    PacketError,
> {
    if s1.len() == 0 {
        Err(PacketError::Incomplete { needed: (total + 1) as usize, available: total as usize })
    } else {
        let level = s1[0];
        let s2 = s1.skip(1);
        if s2.len() == 0 {
            Err(PacketError::Incomplete { needed: (total + 1) as usize, available: total as usize })
        } else {
            let flags = s2[0];
            let s3 = s2.skip(1);
            if s3.len() < 2 {
                Err(
                    PacketError::Incomplete {
                        needed: (total + (2 - s3.len())) as usize,
                        available: total as usize,
                    },
                )
            } else {
                match connect_payload(flags, s3.skip(2)) {
                    Err(e) => Err(e),
                    Ok((client_id, will_topic, will_message, username, password)) => Ok(
                        ConnectFields {
                            protocol_name,
                            protocol_level: level,
                            clean_session: flags & 0x02 != 0,
                            will_flag: flags & 0x04 != 0,
                            will_qos: (flags >> 3) & 0x03,
                            will_retain: flags & 0x20 != 0,
                            password_flag: flags & 0x40 != 0,
                            username_flag: flags & 0x80 != 0,
                            keep_alive: be16_value(s3[0], s3[1]),
                            client_id,
                            will_topic,
                            will_message,
                            username,
                            password,
                        },
                    ),
                }
            }
        }
    }
}

/// The fields of a CONNECT payload, as plain values.
pub type ConnectPayload = (Seq<char>, Option<Seq<char>>, Option<Seq<u8>>, Option<Seq<char>>, Option<Seq<u8>>);

/// The payload of a CONNECT packet: the client identifier, then the will
/// topic and will message (when the will flag, 0x04, is set), the user name
/// (flag 0x80) and the password (flag 0x40).
pub open spec fn connect_payload(flags: u8, s: Seq<u8>) -> Result<ConnectPayload, PacketError> {
    match string_field(s) {
        Err(e) => Err(e),
        Ok((client_id, n)) => payload_after_client_id(flags, client_id, s.skip(n as int)),
    }
}

pub open spec fn payload_after_client_id(flags: u8, client_id: Seq<char>, s: Seq<u8>) -> Result<
    ConnectPayload,
    PacketError,
> {
    match optional_string_field(flags & 0x04 != 0, s) {
        Err(e) => Err(e),
        Ok((will_topic, n)) => payload_after_will_topic(flags, client_id, will_topic, s.skip(n as int)),
    }
}

pub open spec fn payload_after_will_topic(
    flags: u8,
    client_id: Seq<char>,
    will_topic: Option<Seq<char>>,
    s: Seq<u8>,
) -> Result<ConnectPayload, PacketError> {
    match optional_binary_field(flags & 0x04 != 0, s) {
        Err(e) => Err(e),
        Ok((will_message, n)) => payload_after_will_message(
            flags,
            client_id,
            will_topic,
            will_message,
            s.skip(n as int),
        ),
    }
}

pub open spec fn payload_after_will_message(
    flags: u8,
    client_id: Seq<char>,
    will_topic: Option<Seq<char>>,
    will_message: Option<Seq<u8>>,
    s: Seq<u8>,
) -> Result<ConnectPayload, PacketError> {
    match optional_string_field(flags & 0x80 != 0, s) {
        Err(e) => Err(e),
        Ok((username, n)) => match optional_binary_field(flags & 0x40 != 0, s.skip(n as int)) {
            Err(e) => Err(e),
            Ok((password, _m)) => Ok((client_id, will_topic, will_message, username, password)),
        },
    }
}

/// The flags byte of a CONNECT packet; the will QoS and will retain bits are
/// written only with the will flag.
pub open spec fn connect_flags_byte(
    clean_session: bool,
    will_flag: bool,
    will_qos: u8,
    will_retain: bool,
    password_flag: bool,
    username_flag: bool,
) -> u8 {
    let f: u8 = 0;
    let f: u8 = if clean_session { f | 0x02 } else { f };
    let f: u8 = if will_flag {
        let g: u8 = f | 0x04;
        let g: u8 = g | ((will_qos & 0x03) << 3u8);
        if will_retain { g | 0x20 } else { g }
    } else {
        f
    };
    let f: u8 = if password_flag { f | 0x40 } else { f };
    if username_flag { f | 0x80 } else { f }
}

pub open spec fn optional_string_encoding(o: Option<Seq<char>>) -> Seq<u8> {
    match o {
        Some(s) => string_encoding(s),
        None => Seq::empty(),
    }
}

pub open spec fn optional_binary_encoding(o: Option<Seq<u8>>) -> Seq<u8> {
    match o {
        Some(b) => prefixed_encoding(b),
        None => Seq::empty(),
    }
}

/// The body of a CONNECT packet; each optional field is written when it is
/// there, whatever the flags say.
pub open spec fn connect_body(p: ConnectFields) -> Seq<u8> {
    string_encoding(p.protocol_name) + seq![p.protocol_level] + seq![
        connect_flags_byte(
            p.clean_session,
            p.will_flag,
            p.will_qos,
            p.will_retain,
            p.password_flag,
            p.username_flag,
        ),
    ] + be16(p.keep_alive) + string_encoding(p.client_id) + optional_string_encoding(p.will_topic)
        + optional_binary_encoding(p.will_message) + optional_string_encoding(p.username)
        + optional_binary_encoding(p.password)
}

fn decode_binary(buf: &mut &[u8]) -> (r: Result<Bytes, PacketError>)
    ensures
        match prefixed_field(old(buf)@) {
            Ok((b, n)) => r matches Ok(v) && bytes_view(v) == b && final(buf)@ == old(buf)@.skip(n as int),
            Err(e) => r == Err::<Bytes, PacketError>(e) && final(buf)@ == old(buf)@.skip(
                prefixed_field_error_consumed(old(buf)@) as int,
            ),
        },
{
    let ghost s = buf@;
    let cur: &[u8] = *buf;
    if cur.len() < 2 {
        assert(s.skip(0) =~= s);
        return Err(PacketError::Incomplete { needed: 2, available: cur.len() });
    }
    let len = get_u16(buf) as usize;
    let cur: &[u8] = *buf;
    if cur.len() < len {
        return Err(PacketError::Incomplete { needed: 2 + len, available: cur.len() + 2 });
    }
    let data = bytes_copy(&cur[0..len]);
    assert(bytes_view(data) =~= s.subrange(2, 2 + len));
    advance(buf, len);
    assert(buf@ =~= s.skip(2 + len));
    Ok(data)
}

fn encode_binary(buf: &mut BytesMut, data: &[u8])
    requires
        bytes_mut_view(*old(buf)).len() + prefixed_encoding(data@).len() <= isize::MAX,
    ensures
        bytes_mut_view(*final(buf)) == bytes_mut_view(*old(buf)) + prefixed_encoding(data@),
{
    put_u16(buf, data.len() as u16);
    put_slice(buf, data);
    assert(bytes_mut_view(*buf) =~= bytes_mut_view(*old(buf)) + prefixed_encoding(data@));
}

/// Reads a string field when `present`; reads nothing otherwise.
fn decode_optional_string(buf: &mut &[u8], present: bool) -> (r: Result<Option<String>, PacketError>)
    ensures
        match optional_string_field(present, old(buf)@) {
            Ok((v, n)) => r matches Ok(o) && opt_string_view(o) == v && final(buf)@ == old(buf)@.skip(n as int),
            Err(e) => r == Err::<Option<String>, PacketError>(e),
        },
{
    if present {
        match decode_string(buf) {
            Ok(v) => Ok(Some(v)),
            Err(e) => Err(e),
        }
    } else {
        assert(buf@.skip(0) =~= buf@);
        Ok(None)
    }
}

/// Reads a binary field when `present`; reads nothing otherwise.
fn decode_optional_binary(buf: &mut &[u8], present: bool) -> (r: Result<Option<Bytes>, PacketError>)
    ensures
        match optional_binary_field(present, old(buf)@) {
            Ok((v, n)) => r matches Ok(o) && opt_bytes_view(o) == v && final(buf)@ == old(buf)@.skip(n as int),
            Err(e) => r == Err::<Option<Bytes>, PacketError>(e),
        },
{
    if present {
        match decode_binary(buf) {
            Ok(v) => Ok(Some(v)),
            Err(e) => Err(e),
        }
    } else {
        assert(buf@.skip(0) =~= buf@);
        Ok(None)
    }
}

/// Writes a string field when there is one.
fn encode_optional_string(buf: &mut BytesMut, o: &Option<String>)
    requires
        bytes_mut_view(*old(buf)).len() + optional_string_encoding(opt_string_view(*o)).len() <= isize::MAX,
    ensures
        bytes_mut_view(*final(buf)) == bytes_mut_view(*old(buf)) + optional_string_encoding(opt_string_view(*o)),
{
    if let Some(text) = o {
        encode_string(buf, text.as_str());
    } else {
        assert(bytes_mut_view(*buf) =~= bytes_mut_view(*buf) + Seq::<u8>::empty());
    }
}

/// Writes a binary field when there is one.
fn encode_optional_binary(buf: &mut BytesMut, o: &Option<Bytes>)
    requires
        bytes_mut_view(*old(buf)).len() + optional_binary_encoding(opt_bytes_view(*o)).len() <= isize::MAX,
    ensures
        bytes_mut_view(*final(buf)) == bytes_mut_view(*old(buf)) + optional_binary_encoding(opt_bytes_view(*o)),
{
    if let Some(data) = o {
        encode_binary(buf, bytes_as_slice(data));
    } else {
        assert(bytes_mut_view(*buf) =~= bytes_mut_view(*buf) + Seq::<u8>::empty());
    }
}

impl ConnectPacket {
    /// The flags byte of this packet.
    fn flags_byte(&self) -> (r: u8)
        ensures
            r == connect_flags_byte(
                self.clean_session,
                self.will_flag,
                self.will_qos,
                self.will_retain,
                self.password_flag,
                self.username_flag,
            ),
    {
        let mut flags = 0u8;
        if self.clean_session {
            flags |= 0x02;
        }
        if self.will_flag {
            flags |= 0x04;
            flags |= (self.will_qos & 0x03) << 3u8;
            if self.will_retain {
                flags |= 0x20;
            }
        }
        if self.password_flag {
            flags |= 0x40;
        }
        if self.username_flag {
            flags |= 0x80;
        }
        flags
    }

    pub fn decode(payload: &[u8]) -> (r: Result<Self, PacketError>)
        ensures
            match connect_decode(payload@) {
                Ok(f) => r matches Ok(p) && p@ == f,
                Err(e) => r == Err::<ConnectPacket, PacketError>(e),
            },
    {
        let mut buf: &[u8] = payload;

        let protocol_name = match decode_string(&mut buf) {
            Ok(v) => v,
            Err(e) => return Err(e),
        };
        if buf.len() == 0 {
            return Err(PacketError::Incomplete { needed: payload.len() + 1, available: payload.len() });
        }
        let protocol_level = get_u8(&mut buf);
        if buf.len() == 0 {
            return Err(PacketError::Incomplete { needed: payload.len() + 1, available: payload.len() });
        }
        let connect_flags = get_u8(&mut buf);
        if buf.len() < 2 {
            return Err(
                PacketError::Incomplete {
                    needed: payload.len() + (2 - buf.len()),
                    available: payload.len(),
                },
            );
        }
        let keep_alive = get_u16(&mut buf);

        let clean_session = connect_flags & 0x02 != 0;
        let will_flag = connect_flags & 0x04 != 0;
        let will_qos = (connect_flags >> 3) & 0x03;
        let will_retain = connect_flags & 0x20 != 0;
        let password_flag = connect_flags & 0x40 != 0;
        let username_flag = connect_flags & 0x80 != 0;

        let client_id = match decode_string(&mut buf) {
            Ok(v) => v,
            Err(e) => return Err(e),
        };

        let will_topic = match decode_optional_string(&mut buf, will_flag) {
            Ok(v) => v,
            Err(e) => return Err(e),
        };

        let will_message = match decode_optional_binary(&mut buf, will_flag) {
            Ok(v) => v,
            Err(e) => return Err(e),
        };

        let username = match decode_optional_string(&mut buf, username_flag) {
            Ok(v) => v,
            Err(e) => return Err(e),
        };

        let password = match decode_optional_binary(&mut buf, password_flag) {
            Ok(v) => v,
            Err(e) => return Err(e),
        };

        Ok(
            Self {
                protocol_name,
                protocol_level,
                clean_session,
                will_flag,
                will_qos,
                will_retain,
                password_flag,
                username_flag,
                keep_alive,
                client_id,
                will_topic,
                will_message,
                username,
                password,
            },
        )
    }

    /// Appends this packet's body to `buf`.
    pub fn encode(&self, buf: &mut BytesMut)
        requires
            bytes_mut_view(*old(buf)).len() + connect_body(self@).len() <= isize::MAX,
        ensures
            bytes_mut_view(*final(buf)) == bytes_mut_view(*old(buf)) + connect_body(self@),
    {
        let ghost start = bytes_mut_view(*buf);
        let ghost p = self@;
        encode_string(buf, self.protocol_name.as_str());
        put_u8(buf, self.protocol_level);
        let flags = self.flags_byte();
        put_u8(buf, flags);
        put_u16(buf, self.keep_alive);
        let ghost head = string_encoding(p.protocol_name) + seq![p.protocol_level] + seq![flags] + be16(
            p.keep_alive,
        );
        assert(bytes_mut_view(*buf) =~= start + head);

        encode_string(buf, self.client_id.as_str());
        proof { lemma_concat_associative(start, head, string_encoding(p.client_id)); }
        let ghost part = head + string_encoding(p.client_id);
        encode_optional_string(buf, &self.will_topic);
        proof { lemma_concat_associative(start, part, optional_string_encoding(p.will_topic)); }
        let ghost part = part + optional_string_encoding(p.will_topic);
        encode_optional_binary(buf, &self.will_message);
        proof { lemma_concat_associative(start, part, optional_binary_encoding(p.will_message)); }
        let ghost part = part + optional_binary_encoding(p.will_message);
        encode_optional_string(buf, &self.username);
        proof { lemma_concat_associative(start, part, optional_string_encoding(p.username)); }
        let ghost part = part + optional_string_encoding(p.username);
        encode_optional_binary(buf, &self.password);
        proof { lemma_concat_associative(start, part, optional_binary_encoding(p.password)); }
    }
}

/// The reply to CONNECT.
#[derive(Debug, Clone, Copy)]
pub struct ConnAckPacket {
    pub session_present: bool,
    pub return_code: u8,
}

impl ConnAckPacket {
    pub fn accepted(session_present: bool) -> (r: Self)
        ensures
            r.session_present == session_present,
            r.return_code == CONNACK_ACCEPTED,
    {
        Self { session_present, return_code: CONNACK_ACCEPTED }
    }

    /// The CONNACK frame: no flags; the session-present byte, then the return code.
    pub fn encode(&self) -> (r: MqttPacket)
        ensures
            r.packet_type == PacketType::ConnAck,
            r.flags == 0,
            bytes_view(r.payload) == seq![if self.session_present { 1u8 } else { 0u8 }, self.return_code],
    {
        let mut payload = bytes_mut_with_capacity(2);
        put_u8(&mut payload, if self.session_present { 1u8 } else { 0u8 });
        put_u8(&mut payload, self.return_code);
        assert(bytes_mut_view(payload) =~= seq![if self.session_present { 1u8 } else { 0u8 }, self.return_code]);
        MqttPacket { packet_type: PacketType::ConnAck, flags: 0, payload: freeze(payload) }
    }
}

/// A CONNECT packet that reads back as itself: each flag agrees with the
/// field it announces, the will QoS fits in two bits and is zero (with no
/// will retain) without a will, and every field fits a 16-bit length.
pub open spec fn connect_well_formed(p: ConnectFields) -> bool {
    &&& encode_utf8(p.protocol_name).len() <= 65535
    &&& encode_utf8(p.client_id).len() <= 65535
    &&& p.will_qos <= 3
    &&& (p.will_flag <==> p.will_topic is Some)
    &&& (p.will_flag <==> p.will_message is Some)
    &&& (!p.will_flag ==> p.will_qos == 0 && !p.will_retain)
    &&& (p.username_flag <==> p.username is Some)
    &&& (p.password_flag <==> p.password is Some)
    &&& (p.will_topic matches Some(t) ==> encode_utf8(t).len() <= 65535)
    &&& (p.will_message matches Some(m) ==> m.len() <= 65535)
    &&& (p.username matches Some(u) ==> encode_utf8(u).len() <= 65535)
    &&& (p.password matches Some(w) ==> w.len() <= 65535)
}

proof fn lemma_connect_flags_bits(
    clean_session: bool,
    will_flag: bool,
    will_qos: u8,
    will_retain: bool,
    password_flag: bool,
    username_flag: bool,
)
    by (bit_vector)
    requires
        will_qos <= 3,
        !will_flag ==> will_qos == 0 && !will_retain,
    ensures
        (connect_flags_byte(clean_session, will_flag, will_qos, will_retain, password_flag, username_flag)
            & 0x02 != 0) == clean_session,
        (connect_flags_byte(clean_session, will_flag, will_qos, will_retain, password_flag, username_flag)
            & 0x04 != 0) == will_flag,
        (connect_flags_byte(clean_session, will_flag, will_qos, will_retain, password_flag, username_flag)
            >> 3) & 0x03 == will_qos,
        (connect_flags_byte(clean_session, will_flag, will_qos, will_retain, password_flag, username_flag)
            & 0x20 != 0) == will_retain,
        (connect_flags_byte(clean_session, will_flag, will_qos, will_retain, password_flag, username_flag)
            & 0x40 != 0) == password_flag,
        (connect_flags_byte(clean_session, will_flag, will_qos, will_retain, password_flag, username_flag)
            & 0x80 != 0) == username_flag,
{
}

proof fn lemma_optional_string_roundtrip(o: Option<Seq<char>>, rest: Seq<u8>)
    requires
        o matches Some(t) ==> encode_utf8(t).len() <= 65535,
    ensures
        optional_string_field(o is Some, optional_string_encoding(o) + rest) == Ok::<(Option<Seq<char>>, nat), PacketError>(
            (o, optional_string_encoding(o).len()),
        ),
        (optional_string_encoding(o) + rest).skip(optional_string_encoding(o).len() as int) == rest,
{
    match o {
        Some(t) => {
            lemma_string_roundtrip(t, rest);
        },
        None => {},
    }
    assert((optional_string_encoding(o) + rest).skip(optional_string_encoding(o).len() as int) =~= rest);
}

proof fn lemma_optional_binary_roundtrip(o: Option<Seq<u8>>, rest: Seq<u8>)
    requires
        o matches Some(b) ==> b.len() <= 65535,
    ensures
        optional_binary_field(o is Some, optional_binary_encoding(o) + rest) == Ok::<(Option<Seq<u8>>, nat), PacketError>(
            (o, optional_binary_encoding(o).len()),
        ),
        (optional_binary_encoding(o) + rest).skip(optional_binary_encoding(o).len() as int) == rest,
{
    match o {
        Some(b) => {
            lemma_prefixed_roundtrip(b, rest);
        },
        None => {},
    }
    assert((optional_binary_encoding(o) + rest).skip(optional_binary_encoding(o).len() as int) =~= rest);
}

proof fn lemma_skip_concat(a: Seq<u8>, b: Seq<u8>)
    ensures
        (a + b).skip(a.len() as int) == b,
{
    assert((a + b).skip(a.len() as int) =~= b);
}

proof fn lemma_payload_after_will_message(p: ConnectFields, flags: u8)
    requires
        p.username matches Some(u) ==> encode_utf8(u).len() <= 65535,
        p.password matches Some(w) ==> w.len() <= 65535,
        (flags & 0x40 != 0) == p.password is Some,
        (flags & 0x80 != 0) == p.username is Some,
    ensures
        payload_after_will_message(
            flags,
            p.client_id,
            p.will_topic,
            p.will_message,
            optional_string_encoding(p.username) + optional_binary_encoding(p.password),
        ) == Ok::<ConnectPayload, PacketError>((p.client_id, p.will_topic, p.will_message, p.username, p.password)),
{
    let e_pass = optional_binary_encoding(p.password);
    lemma_optional_string_roundtrip(p.username, e_pass);
    lemma_optional_binary_roundtrip(p.password, Seq::empty());
    assert(e_pass + Seq::<u8>::empty() =~= e_pass);
}

proof fn lemma_payload_after_will_topic(p: ConnectFields, flags: u8)
    requires
        p.will_message matches Some(m) ==> m.len() <= 65535,
        p.username matches Some(u) ==> encode_utf8(u).len() <= 65535,
        p.password matches Some(w) ==> w.len() <= 65535,
        (flags & 0x04 != 0) == p.will_message is Some,
        (flags & 0x40 != 0) == p.password is Some,
        (flags & 0x80 != 0) == p.username is Some,
    ensures
        payload_after_will_topic(
            flags,
            p.client_id,
            p.will_topic,
            optional_binary_encoding(p.will_message) + (optional_string_encoding(p.username)
                + optional_binary_encoding(p.password)),
        ) == Ok::<ConnectPayload, PacketError>((p.client_id, p.will_topic, p.will_message, p.username, p.password)),
{
    lemma_optional_binary_roundtrip(
        p.will_message,
        optional_string_encoding(p.username) + optional_binary_encoding(p.password),
    );
    lemma_payload_after_will_message(p, flags);
}

proof fn lemma_payload_after_client_id(p: ConnectFields, flags: u8)
    requires
        p.will_topic matches Some(t) ==> encode_utf8(t).len() <= 65535,
        p.will_message matches Some(m) ==> m.len() <= 65535,
        p.username matches Some(u) ==> encode_utf8(u).len() <= 65535,
        p.password matches Some(w) ==> w.len() <= 65535,
        (flags & 0x04 != 0) == p.will_topic is Some,
        (flags & 0x04 != 0) == p.will_message is Some,
        (flags & 0x40 != 0) == p.password is Some,
        (flags & 0x80 != 0) == p.username is Some,
    ensures
        payload_after_client_id(
            flags,
            p.client_id,
            optional_string_encoding(p.will_topic) + (optional_binary_encoding(p.will_message) + (
            optional_string_encoding(p.username) + optional_binary_encoding(p.password))),
        ) == Ok::<ConnectPayload, PacketError>((p.client_id, p.will_topic, p.will_message, p.username, p.password)),
{
    lemma_optional_string_roundtrip(
        p.will_topic,
        optional_binary_encoding(p.will_message) + (optional_string_encoding(p.username)
            + optional_binary_encoding(p.password)),
    );
    lemma_payload_after_will_topic(p, flags);
}

#[verifier::spinoff_prover]
proof fn lemma_connect_payload_roundtrip(p: ConnectFields, flags: u8)
    requires
        connect_well_formed(p),
        (flags & 0x04 != 0) == p.will_flag,
        (flags & 0x40 != 0) == p.password_flag,
        (flags & 0x80 != 0) == p.username_flag,
    ensures
        connect_payload(
            flags,
            string_encoding(p.client_id) + (optional_string_encoding(p.will_topic) + (
            optional_binary_encoding(p.will_message) + (optional_string_encoding(p.username)
                + optional_binary_encoding(p.password)))),
        ) == Ok::<ConnectPayload, PacketError>((p.client_id, p.will_topic, p.will_message, p.username, p.password)),
{
    let t5 = optional_string_encoding(p.will_topic) + (optional_binary_encoding(p.will_message) + (
    optional_string_encoding(p.username) + optional_binary_encoding(p.password)));
    lemma_string_roundtrip(p.client_id, t5);
    lemma_skip_concat(string_encoding(p.client_id), t5);
    let t4 = string_encoding(p.client_id) + t5;
    assert(string_field(t4) == Ok::<(Seq<char>, nat), PacketError>((p.client_id, string_encoding(p.client_id).len())));
    assert(t4.skip(string_encoding(p.client_id).len() as int) == t5);
    lemma_payload_after_client_id(p, flags);
}

/// Law: a well-formed CONNECT packet reads back as itself from its encoding.
#[verifier::spinoff_prover]
pub proof fn lemma_connect_roundtrip(p: ConnectFields)
    requires
        connect_well_formed(p),
    ensures
        connect_decode(connect_body(p)) == Ok::<ConnectFields, PacketError>(p),
{
    let a0 = string_encoding(p.protocol_name);
    let r1 = connect_body_after_protocol_name(p);
    lemma_connect_body_split(p);
    lemma_string_roundtrip(p.protocol_name, r1);
    lemma_skip_concat(a0, r1);
    lemma_connect_after_protocol_name(p, connect_body(p).len());
}

/// The body after the protocol name, grouped from the right.
spec fn connect_body_after_protocol_name(p: ConnectFields) -> Seq<u8> {
    seq![p.protocol_level] + (seq![
        connect_flags_byte(
            p.clean_session,
            p.will_flag,
            p.will_qos,
            p.will_retain,
            p.password_flag,
            p.username_flag,
        ),
    ] + (be16(p.keep_alive) + connect_payload_encoding(p)))
}

/// The payload fields' encoding, grouped from the right.
spec fn connect_payload_encoding(p: ConnectFields) -> Seq<u8> {
    string_encoding(p.client_id) + (optional_string_encoding(p.will_topic) + (optional_binary_encoding(
        p.will_message,
    ) + (optional_string_encoding(p.username) + optional_binary_encoding(p.password))))
}

#[verifier::spinoff_prover]
proof fn lemma_connect_body_split(p: ConnectFields)
    ensures
        connect_body(p) == string_encoding(p.protocol_name) + connect_body_after_protocol_name(p),
{
    let flags = connect_flags_byte(
        p.clean_session,
        p.will_flag,
        p.will_qos,
        p.will_retain,
        p.password_flag,
        p.username_flag,
    );
    let a0 = string_encoding(p.protocol_name);
    let a1 = seq![p.protocol_level];
    let a2 = seq![flags];
    let a3 = be16(p.keep_alive);
    let a4 = string_encoding(p.client_id);
    let a5 = optional_string_encoding(p.will_topic);
    let a6 = optional_binary_encoding(p.will_message);
    let a7 = optional_string_encoding(p.username);
    let a8 = optional_binary_encoding(p.password);
    let r7 = a7 + a8;
    let r6 = a6 + r7;
    let r5 = a5 + r6;
    let r4 = a4 + r5;
    let r3 = a3 + r4;
    let r2 = a2 + r3;
    let r1 = a1 + r2;
    let l1 = a0 + a1;
    let l2 = l1 + a2;
    let l3 = l2 + a3;
    let l4 = l3 + a4;
    let l5 = l4 + a5;
    let l6 = l5 + a6;
    let l7 = l6 + a7;
    assert(connect_body(p) == l7 + a8);
    lemma_concat_associative(l6, a7, a8);
    lemma_concat_associative(l5, a6, r7);
    lemma_concat_associative(l4, a5, r6);
    lemma_concat_associative(l3, a4, r5);
    lemma_concat_associative(l2, a3, r4);
    lemma_concat_associative(l1, a2, r3);
    lemma_concat_associative(a0, a1, r2);
    assert(r4 == connect_payload_encoding(p));
    assert(r1 == connect_body_after_protocol_name(p));
}

#[verifier::spinoff_prover]
proof fn lemma_connect_after_protocol_name(p: ConnectFields, total: nat)
    requires
        connect_well_formed(p),
    ensures
        connect_after_protocol_name(total, p.protocol_name, connect_body_after_protocol_name(p))
            == Ok::<ConnectFields, PacketError>(p),
{
    let flags = connect_flags_byte(
        p.clean_session,
        p.will_flag,
        p.will_qos,
        p.will_retain,
        p.password_flag,
        p.username_flag,
    );
    lemma_connect_flags_bits(
        p.clean_session,
        p.will_flag,
        p.will_qos,
        p.will_retain,
        p.password_flag,
        p.username_flag,
    );
    let r3 = be16(p.keep_alive) + connect_payload_encoding(p);
    let r2 = seq![flags] + r3;
    let r1 = seq![p.protocol_level] + r2;
    lemma_skip_concat(seq![p.protocol_level], r2);
    lemma_skip_concat(seq![flags], r3);
    lemma_be16_roundtrip(p.keep_alive);
    lemma_skip_concat(be16(p.keep_alive), connect_payload_encoding(p));
    lemma_connect_payload_roundtrip(p, flags);
}

} // verus!
