use vstd::prelude::*;
use vstd::utf8::encode_utf8;
use crate::decoder::{read_bytes, read_str};
use crate::errors::{res_dview, res_view, Error, ErrorView};
use crate::qos::{spec_qos_from_bits, QoS};
use crate::packet::{encode_result, packet_bytes, packet_valid, PacketView};
use crate::wire::{
    lemma_wrote_wrote, len_field_bytes, parse_bytes_field, parse_str_field, parse_u16,
    str_field_bytes, u16_be, varint_bytes, varint_len, wrote,
};

verus! {

// ---------------------------------------------------------------------------
// Protocol
// ---------------------------------------------------------------------------

/// Protocol version, sent in a [`Connect`] packet. Exactly two name/level
/// pairs are recognized on the wire.
#[derive(Debug, Clone, Copy, PartialEq, Eq, Structural)]
pub enum Protocol {
    /// MQTT 3.1.1, the name `"MQTT"` at level 4.
    MQTT311,
    /// MQIsdp, a pre-standardisation name of MQTT, at level 3. It is
    /// handled like MQTT 3.1.1.
    MQIsdp,
}

/// The characters of the protocol's wire name.
pub open spec fn protocol_name_chars(p: Protocol) -> Seq<char> {
    match p {
        Protocol::MQTT311 => seq!['M', 'Q', 'T', 'T'],
        Protocol::MQIsdp => seq!['M', 'Q', 'I', 's', 'd', 'p'],
    }
}

/// The protocol's wire level byte.
pub open spec fn protocol_level(p: Protocol) -> u8 {
    match p {
        Protocol::MQTT311 => 4,
        Protocol::MQIsdp => 3,
    }
}

/// The wire image of the protocol field: the length-prefixed name, then
/// the level byte.
pub open spec fn protocol_field_bytes(p: Protocol) -> Seq<u8> {
    str_field_bytes(protocol_name_chars(p)) + seq![protocol_level(p)]
}

/// Which protocol a name/level pair denotes; every other pair is rejected
/// with `InvalidProtocol`, carrying the pair.
pub open spec fn spec_protocol_new(name: Seq<char>, level: u8) -> Result<Protocol, ErrorView> {
    if name == protocol_name_chars(Protocol::MQIsdp) && level == 3 {
        Ok(Protocol::MQIsdp)
    } else if name == protocol_name_chars(Protocol::MQTT311) && level == 4 {
        Ok(Protocol::MQTT311)
    } else {
        Err(ErrorView::InvalidProtocol(name, level))
    }
}

impl Protocol {
    /// Recognizes a protocol name/level pair.
    pub fn new(name: &str, level: u8) -> (r: Result<Protocol, Error>)
        ensures
            res_view(r) == spec_protocol_new(name@, level),
    {
        proof {
            reveal_strlit("MQIsdp");
            reveal_strlit("MQTT");
            assert("MQIsdp"@ =~= protocol_name_chars(Protocol::MQIsdp));
            assert("MQTT"@ =~= protocol_name_chars(Protocol::MQTT311));
        }
        let owned: String = name.to_owned();
        if owned == "MQIsdp".to_owned() && level == 3 {
            Ok(Protocol::MQIsdp)
        } else if owned == "MQTT".to_owned() && level == 4 {
            Ok(Protocol::MQTT311)
        } else {
            Err(Error::InvalidProtocol(owned, level))
        }
    }

    /// Reads the protocol field at `*offset`, bounded by `payload_end`:
    /// the length-prefixed name, then the level byte.
    pub(crate) fn from_buffer(buf: &[u8], offset: &mut usize, payload_end: usize) -> (r: Result<
        Protocol,
        Error,
    >)
        requires
            *old(offset) <= payload_end <= buf@.len(),
        ensures
            ({
                let b = buf@.subrange(*old(offset) as int, payload_end as int);
                match r {
                    Ok(p) => parse_protocol(b) == Ok::<_, ErrorView>(
                        (p, (*final(offset) - *old(offset)) as int),
                    ) && *old(offset) <= *final(offset) <= payload_end,
                    Err(e) => parse_protocol(b) == Err::<(Protocol, int), _>(e@),
                }
            }),
    {
        let start = *offset;
        let ghost b = buf@.subrange(start as int, payload_end as int);
        let name = match read_str(buf, offset, payload_end) {
            Ok(s) => s,
            Err(e) => {
                return Err(e);
            },
        };
        let ghost n1 = *offset - start;
        if payload_end - *offset < 1 {
            return Err(Error::InvalidLength);
        }
        proof {
            assert(b[n1 as int] == buf@[start + n1]);
        }
        let level = buf[*offset];
        *offset = *offset + 1;
        match Protocol::new(name.as_str(), level) {
            Ok(p) => Ok(p),
            Err(e) => Err(e),
        }
    }

    /// The protocol's wire name.
    pub(crate) fn name(self) -> (r: &'static str)
        ensures
            r@ == protocol_name_chars(self),
            encode_utf8(r@).len() <= 0xFFFF,
    {
        proof {
            crate::wire::lemma_encode_utf8_len(protocol_name_chars(self));
        }
        match self {
            Protocol::MQTT311 => {
                proof {
                    reveal_strlit("MQTT");
                    assert("MQTT"@ =~= protocol_name_chars(Protocol::MQTT311));
                }
                "MQTT"
            },
            Protocol::MQIsdp => {
                proof {
                    reveal_strlit("MQIsdp");
                    assert("MQIsdp"@ =~= protocol_name_chars(Protocol::MQIsdp));
                }
                "MQIsdp"
            },
        }
    }

    /// The protocol's wire level byte.
    pub(crate) fn level(self) -> (r: u8)
        ensures
            r == protocol_level(self),
    {
        match self {
            Protocol::MQTT311 => 4,
            Protocol::MQIsdp => 3,
        }
    }
}

// ---------------------------------------------------------------------------
// Last will
// ---------------------------------------------------------------------------

/// Message that the server publishes on the client's behalf when the
/// client disconnects ungracefully. Sent inside a [`Connect`] packet.
#[derive(Debug, Clone, PartialEq)]
pub struct LastWill {
    pub topic: String,
    pub message: Vec<u8>,
    pub qos: QoS,
    pub retain: bool,
}

/// The mathematical value of a [`LastWill`].
pub struct LastWillView {
    pub topic: Seq<char>,
    pub message: Seq<u8>,
    pub qos: QoS,
    pub retain: bool,
}

impl View for LastWill {
    type V = LastWillView;

    open spec fn view(&self) -> LastWillView {
        LastWillView {
            topic: self.topic@,
            message: self.message@,
            qos: self.qos,
            retain: self.retain,
        }
    }
}

// ---------------------------------------------------------------------------
// Connect return code
// ---------------------------------------------------------------------------

/// Success value of a [`Connack`] packet, one byte of 0 to 5 on the wire.
#[derive(Debug, Clone, Copy, PartialEq, Eq, Structural)]
pub enum ConnectReturnCode {
    Accepted,
    RefusedProtocolVersion,
    RefusedIdentifierRejected,
    ServerUnavailable,
    BadUsernamePassword,
    NotAuthorized,
}

/// The return code's wire byte.
pub open spec fn return_code_byte(c: ConnectReturnCode) -> u8 {
    match c {
        ConnectReturnCode::Accepted => 0,
        ConnectReturnCode::RefusedProtocolVersion => 1,
        ConnectReturnCode::RefusedIdentifierRejected => 2,
        ConnectReturnCode::ServerUnavailable => 3,
        ConnectReturnCode::BadUsernamePassword => 4,
        ConnectReturnCode::NotAuthorized => 5,
    }
}

/// Which return code a byte denotes; bytes above 5 are rejected.
pub open spec fn spec_return_code_from(byte: u8) -> Result<ConnectReturnCode, ErrorView> {
    if byte == 0 {
        Ok(ConnectReturnCode::Accepted)
    } else if byte == 1 {
        Ok(ConnectReturnCode::RefusedProtocolVersion)
    } else if byte == 2 {
        Ok(ConnectReturnCode::RefusedIdentifierRejected)
    } else if byte == 3 {
        Ok(ConnectReturnCode::ServerUnavailable)
    } else if byte == 4 {
        Ok(ConnectReturnCode::BadUsernamePassword)
    } else if byte == 5 {
        Ok(ConnectReturnCode::NotAuthorized)
    } else {
        Err(ErrorView::InvalidConnectReturnCode(byte))
    }
}

impl ConnectReturnCode {
    pub(crate) fn to_u8(&self) -> (r: u8)
        ensures
            r == return_code_byte(*self),
    {
        match *self {
            ConnectReturnCode::Accepted => 0,
            ConnectReturnCode::RefusedProtocolVersion => 1,
            ConnectReturnCode::RefusedIdentifierRejected => 2,
            ConnectReturnCode::ServerUnavailable => 3,
            ConnectReturnCode::BadUsernamePassword => 4,
            ConnectReturnCode::NotAuthorized => 5,
        }
    }

    pub(crate) fn from_u8(byte: u8) -> (r: Result<ConnectReturnCode, Error>)
        ensures
            res_view(r) == spec_return_code_from(byte),
    {
        match byte {
            0 => Ok(ConnectReturnCode::Accepted),
            1 => Ok(ConnectReturnCode::RefusedProtocolVersion),
            2 => Ok(ConnectReturnCode::RefusedIdentifierRejected),
            3 => Ok(ConnectReturnCode::ServerUnavailable),
            4 => Ok(ConnectReturnCode::BadUsernamePassword),
            5 => Ok(ConnectReturnCode::NotAuthorized),
            n => Err(Error::InvalidConnectReturnCode(n)),
        }
    }
}

// ---------------------------------------------------------------------------
// Connect
// ---------------------------------------------------------------------------

/// Connect packet. The connect-flags byte never appears in the struct: it
/// is derived from the presence of the optional fields when encoding, and
/// the optional fields are read according to it when decoding, so the two
/// can never disagree.
#[derive(Debug, Clone, PartialEq)]
pub struct Connect {
    pub protocol: Protocol,
    pub keep_alive: u16,
    pub client_id: String,
    pub clean_session: bool,
    pub last_will: Option<LastWill>,
    pub username: Option<String>,
    pub password: Option<Vec<u8>>,
}

/// The mathematical value of a [`Connect`].
pub struct ConnectView {
    pub protocol: Protocol,
    pub keep_alive: u16,
    pub client_id: Seq<char>,
    pub clean_session: bool,
    pub last_will: Option<LastWillView>,
    pub username: Option<Seq<char>>,
    pub password: Option<Seq<u8>>,
}

impl View for Connect {
    type V = ConnectView;

    open spec fn view(&self) -> ConnectView {
        ConnectView {
            protocol: self.protocol,
            keep_alive: self.keep_alive,
            client_id: self.client_id@,
            clean_session: self.clean_session,
            last_will: match self.last_will {
                Option::Some(w) => Some(w@),
                Option::None => None,
            },
            username: match self.username {
                Option::Some(u) => Some(u@),
                Option::None => None,
            },
            password: match self.password {
                Option::Some(p) => Some(p@),
                Option::None => None,
            },
        }
    }
}

/// The connect-flags byte that a connect packet's optional fields imply.
pub open spec fn connect_flags(c: ConnectView) -> u8 {
    ((if c.clean_session {
        2int
    } else {
        0int
    }) + (match c.last_will {
        Option::Some(w) => 4 + 8 * (w.qos.spec_bits() as int) + (if w.retain {
            32int
        } else {
            0int
        }),
        Option::None => 0,
    }) + (if c.username is Some {
        128int
    } else {
        0int
    }) + (if c.password is Some {
        64int
    } else {
        0int
    })) as u8
}

/// The wire image of the will fields, if any: the topic then the message.
pub open spec fn will_bytes(w: Option<LastWillView>) -> Seq<u8> {
    match w {
        Option::Some(w) => str_field_bytes(w.topic) + len_field_bytes(w.message),
        Option::None => Seq::<u8>::empty(),
    }
}

/// The wire image of an optional string field.
pub open spec fn opt_str_bytes(s: Option<Seq<char>>) -> Seq<u8> {
    match s {
        Option::Some(s) => str_field_bytes(s),
        Option::None => Seq::<u8>::empty(),
    }
}

/// The wire image of an optional byte field.
pub open spec fn opt_bytes_bytes(b: Option<Seq<u8>>) -> Seq<u8> {
    match b {
        Option::Some(b) => len_field_bytes(b),
        Option::None => Seq::<u8>::empty(),
    }
}

/// The wire image of a connect packet's body: protocol field, flags,
/// keep-alive, client id, then the flag-governed optional fields in order.
pub open spec fn connect_body_bytes(c: ConnectView) -> Seq<u8> {
    protocol_field_bytes(c.protocol) + seq![connect_flags(c)] + u16_be(c.keep_alive)
        + str_field_bytes(c.client_id) + will_bytes(c.last_will) + opt_str_bytes(c.username)
        + opt_bytes_bytes(c.password)
}

/// Whether every variable-length field of the packet fits its two-byte
/// length prefix.
pub open spec fn connect_valid(c: ConnectView) -> bool {
    &&& encode_utf8(c.client_id).len() <= 0xFFFF
    &&& match c.last_will {
        Option::Some(w) => encode_utf8(w.topic).len() <= 0xFFFF && w.message.len() <= 0xFFFF,
        Option::None => true,
    }
    &&& match c.username {
        Option::Some(u) => encode_utf8(u).len() <= 0xFFFF,
        Option::None => true,
    }
    &&& match c.password {
        Option::Some(p) => p.len() <= 0xFFFF,
        Option::None => true,
    }
}

/// Reads the will fields from the front of `b` when the will flag is set:
/// the will (or nothing) and the bytes consumed.
pub open spec fn parse_will(flags: u8, b: Seq<u8>) -> Result<
    (Option<LastWillView>, int),
    ErrorView,
> {
    if (flags / 4) % 2 == 1 {
        match parse_str_field(b) {
            Err(e) => Err(e),
            Ok((topic, n1)) => match parse_bytes_field(b.skip(n1)) {
                Option::None => Err(ErrorView::InvalidLength),
                Option::Some((message, n2)) => match spec_qos_from_bits((flags / 8) % 4) {
                    Err(e) => Err(e),
                    Ok(qos) => Ok(
                        (
                            Some(
                                LastWillView {
                                    topic,
                                    message,
                                    qos,
                                    retain: (flags / 32) % 2 == 1,
                                },
                            ),
                            n1 + n2,
                        ),
                    ),
                },
            },
        }
    } else {
        Ok((None, 0))
    }
}

/// Reads an optional string field from the front of `b` when its flag is
/// set.
pub open spec fn parse_opt_str(present: bool, b: Seq<u8>) -> Result<
    (Option<Seq<char>>, int),
    ErrorView,
> {
    if present {
        match parse_str_field(b) {
            Err(e) => Err(e),
            Ok((s, n)) => Ok((Some(s), n)),
        }
    } else {
        Ok((None, 0))
    }
}

/// Reads an optional byte field from the front of `b` when its flag is
/// set.
pub open spec fn parse_opt_bytes(present: bool, b: Seq<u8>) -> Result<
    (Option<Seq<u8>>, int),
    ErrorView,
> {
    if present {
        match parse_bytes_field(b) {
            Option::None => Err(ErrorView::InvalidLength),
            Option::Some((f, n)) => Ok((Some(f), n)),
        }
    } else {
        Ok((None, 0))
    }
}

/// Reads the protocol field from the front of `b`: the length-prefixed
/// name, then the level byte; the protocol and the bytes consumed.
pub open spec fn parse_protocol(b: Seq<u8>) -> Result<(Protocol, int), ErrorView> {
    match parse_str_field(b) {
        Err(e) => Err(e),
        Ok((name, n1)) => {
            if b.len() < n1 + 1 {
                Err(ErrorView::InvalidLength)
            } else {
                match spec_protocol_new(name, b[n1]) {
                    Err(e) => Err(e),
                    Ok(p) => Ok((p, n1 + 1)),
                }
            }
        },
    }
}

/// Reads the fields after the keep-alive: the client id, then the three
/// flag-governed optional fields, which together must consume `b`
/// exactly.
pub open spec fn parse_connect_fields(flags: u8, b: Seq<u8>) -> Result<
    (Seq<char>, Option<LastWillView>, Option<Seq<char>>, Option<Seq<u8>>),
    ErrorView,
> {
    match parse_str_field(b) {
        Err(e) => Err(e),
        Ok((client_id, n2)) => match parse_will(flags, b.skip(n2)) {
            Err(e) => Err(e),
            Ok((last_will, n3)) => match parse_opt_str((flags / 128) % 2 == 1, b.skip(n2 + n3)) {
                Err(e) => Err(e),
                Ok((username, n4)) => match parse_opt_bytes(
                    (flags / 64) % 2 == 1,
                    b.skip(n2 + n3 + n4),
                ) {
                    Err(e) => Err(e),
                    Ok((password, n5)) => {
                        if n2 + n3 + n4 + n5 != b.len() {
                            Err(ErrorView::InvalidLength)
                        } else {
                            Ok((client_id, last_will, username, password))
                        }
                    },
                },
            },
        },
    }
}

/// What decoding a connect body yields. The body must be consumed
/// exactly; leftover bytes are an `InvalidLength` error.
pub open spec fn parse_connect(b: Seq<u8>) -> Result<ConnectView, ErrorView> {
    match parse_protocol(b) {
        Err(e) => Err(e),
        Ok((protocol, np)) => {
            let r1 = b.skip(np);
            if r1.len() < 3 {
                Err(ErrorView::InvalidLength)
            } else {
                let flags = r1[0];
                let keep_alive = parse_u16(r1.skip(1));
                match parse_connect_fields(flags, r1.skip(3)) {
                    Err(e) => Err(e),
                    Ok((client_id, last_will, username, password)) => Ok(
                        ConnectView {
                            protocol,
                            keep_alive: keep_alive as u16,
                            client_id,
                            clean_session: (flags / 2) % 2 == 1,
                            last_will,
                            username,
                            password,
                        },
                    ),
                }
            }
        },
    }
}

// ---------------------------------------------------------------------------
// Connack
// ---------------------------------------------------------------------------

/// Connack packet: a session-present flag and a return code, two body
/// bytes on the wire.
#[derive(Debug, Clone, Copy, PartialEq, Eq, Structural)]
pub struct Connack {
    pub session_present: bool,
    pub code: ConnectReturnCode,
}

/// The wire image of a connack packet's body.
pub open spec fn connack_body_bytes(c: Connack) -> Seq<u8> {
    seq![
        if c.session_present {
            1u8
        } else {
            0u8
        },
        return_code_byte(c.code),
    ]
}

/// What decoding a connack body yields: bit 0 of the first byte is the
/// session-present flag, the second byte must be a return code of 0 to 5,
/// and the body must be exactly two bytes.
pub open spec fn parse_connack(b: Seq<u8>) -> Result<Connack, ErrorView> {
    if b.len() < 2 {
        Err(ErrorView::InvalidLength)
    } else {
        match spec_return_code_from(b[1]) {
            Err(e) => Err(e),
            Ok(code) => {
                if b.len() != 2 {
                    Err(ErrorView::InvalidLength)
                } else {
                    Ok(Connack { session_present: b[0] % 2 == 1, code })
                }
            },
        }
    }
}

impl Connack {
    /// Decodes a connack body lying between `*offset` and `payload_end`.
    pub(crate) fn from_buffer(buf: &[u8], offset: &mut usize, payload_end: usize) -> (r: Result<
        Connack,
        Error,
    >)
        requires
            *old(offset) <= payload_end <= buf@.len(),
        ensures
            res_view(r) == parse_connack(
                buf@.subrange(*old(offset) as int, payload_end as int),
            ),
            r is Ok ==> *final(offset) == payload_end,
    {
        let start = *offset;
        proof {
            let b = buf@.subrange(start as int, payload_end as int);
            if b.len() >= 2 {
                assert(b[0] == buf@[start as int] && b[1] == buf@[start as int + 1]);
            }
        }
        if payload_end - start < 2 {
            return Err(Error::InvalidLength);
        }
        let flags = buf[start];
        let return_code = buf[start + 1];
        let code = match ConnectReturnCode::from_u8(return_code) {
            Ok(c) => c,
            Err(e) => {
                return Err(e);
            },
        };
        if payload_end - start != 2 {
            return Err(Error::InvalidLength);
        }
        *offset = start + 2;
        Ok(Connack { session_present: flags % 2 == 1, code })
    }
}

impl Connect {
    /// Decodes a connect body lying between `*offset` and `payload_end`.
    #[verifier::spinoff_prover]
    #[verifier::rlimit(100)]
    pub(crate) fn from_buffer(buf: &[u8], offset: &mut usize, payload_end: usize) -> (r: Result<
        Connect,
        Error,
    >)
        requires
            *old(offset) <= payload_end <= buf@.len(),
        ensures
            res_dview(r) == parse_connect(
                buf@.subrange(*old(offset) as int, payload_end as int),
            ),
            r is Ok ==> *final(offset) == payload_end,
    {
        let start = *offset;
        let ghost b = buf@.subrange(start as int, payload_end as int);

        // Protocol name and level.
        let protocol = match Protocol::from_buffer(buf, offset, payload_end) {
            Ok(p) => p,
            Err(e) => {
                return Err(e);
            },
        };
        let ghost np = *offset - start;

        // Connect flags and keep-alive.
        let ghost r1 = b.skip(np as int);
        proof {
            assert(r1 =~= buf@.subrange(*offset as int, payload_end as int));
        }
        if payload_end - *offset < 3 {
            return Err(Error::InvalidLength);
        }
        let connect_flags = buf[*offset];
        let keep_alive = (buf[*offset + 1] as u16) * 256 + (buf[*offset + 2] as u16);
        proof {
            assert(r1[0] == buf@[*offset as int]);
            assert(r1.skip(1)[0] == buf@[*offset as int + 1]);
            assert(r1.skip(1)[1] == buf@[*offset as int + 2]);
        }
        *offset = *offset + 3;

        // Client id.
        let ghost r2 = r1.skip(3);
        proof {
            assert(r2 =~= buf@.subrange(*offset as int, payload_end as int));
        }
        let ghost cid_start = *offset;
        let client_id = match read_str(buf, offset, payload_end) {
            Ok(s) => s,
            Err(e) => {
                return Err(e);
            },
        };
        let ghost n2 = *offset - cid_start;

        // Last will, governed by the will flag.
        proof {
            assert(r2.skip(n2 as int) =~= buf@.subrange(*offset as int, payload_end as int));
        }
        let ghost will_start = *offset;
        let last_will = if (connect_flags / 4) % 2 == 1 {
            let will_topic = match read_str(buf, offset, payload_end) {
                Ok(s) => s,
                Err(e) => {
                    return Err(e);
                },
            };
            proof {
                assert(r2.skip(n2 as int).skip(*offset - will_start) =~= buf@.subrange(
                    *offset as int,
                    payload_end as int,
                ));
            }
            let will_message = match read_bytes(buf, offset, payload_end) {
                Ok(v) => v,
                Err(e) => {
                    return Err(e);
                },
            };
            let will_qos = match QoS::from_u8((connect_flags / 8) % 4) {
                Ok(q) => q,
                Err(e) => {
                    return Err(e);
                },
            };
            Some(
                LastWill {
                    topic: will_topic,
                    message: will_message,
                    qos: will_qos,
                    retain: (connect_flags / 32) % 2 == 1,
                },
            )
        } else {
            None
        };
        let ghost n3 = *offset - will_start;

        // Username, governed by its flag.
        proof {
            assert(r2.skip(n2 + n3) =~= buf@.subrange(*offset as int, payload_end as int));
        }
        let ghost user_start = *offset;
        let username = if (connect_flags / 128) % 2 == 1 {
            match read_str(buf, offset, payload_end) {
                Ok(s) => Some(s),
                Err(e) => {
                    return Err(e);
                },
            }
        } else {
            None
        };
        let ghost n4 = *offset - user_start;

        // Password, governed by its flag.
        proof {
            assert(r2.skip(n2 + n3 + n4) =~= buf@.subrange(*offset as int, payload_end as int));
        }
        let password = if (connect_flags / 64) % 2 == 1 {
            match read_bytes(buf, offset, payload_end) {
                Ok(v) => Some(v),
                Err(e) => {
                    return Err(e);
                },
            }
        } else {
            None
        };

        // The body must be consumed exactly.
        if *offset != payload_end {
            return Err(Error::InvalidLength);
        }
        Ok(
            Connect {
                protocol,
                keep_alive,
                client_id,
                clean_session: (connect_flags / 2) % 2 == 1,
                last_will,
                username,
                password,
            },
        )
    }
}

// ---------------------------------------------------------------------------
// Encoding
// ---------------------------------------------------------------------------

impl Protocol {
    /// Writes the protocol field at `*offset` and advances.
    pub(crate) fn to_buffer(&self, buf: &mut Vec<u8>, offset: &mut usize)
        requires
            *old(offset) + protocol_field_bytes(*self).len() <= old(buf)@.len(),
        ensures
            wrote(old(buf)@, final(buf)@, *old(offset) as int, protocol_field_bytes(*self)),
            *final(offset) == *old(offset) + protocol_field_bytes(*self).len(),
    {
        let ghost buf0 = buf@;
        let ghost at = *old(offset) as int;
        let name = (*self).name();
        crate::encoder::write_string(buf, offset, name);
        let ghost buf1 = buf@;
        crate::encoder::write_u8(buf, offset, (*self).level());
        proof {
            lemma_wrote_wrote(
                buf0,
                buf1,
                buf@,
                at,
                str_field_bytes(protocol_name_chars(*self)),
                seq![protocol_level(*self)],
            );
        }
    }
}

impl Connack {
    /// Encodes the whole connack packet at `*offset`.
    pub(crate) fn to_buffer(&self, buf: &mut Vec<u8>, offset: &mut usize) -> (r: Result<
        usize,
        Error,
    >)
        ensures
            encode_result(
                PacketView::Connack(*self),
                old(buf)@,
                final(buf)@,
                *old(offset) as int,
                *final(offset) as int,
                r,
            ),
    {
        let ghost pv = PacketView::Connack(*self);
        proof {
            assert(packet_bytes(pv).len() == 4);
        }
        match crate::encoder::check_remaining(buf, *offset, 4) {
            Ok(u) => u,
            Err(e) => {
                return Err(e);
            },
        };
        let ghost buf0 = buf@;
        let ghost at = *old(offset) as int;
        let flags: u8 = if self.session_present {
            1
        } else {
            0
        };
        let rc = self.code.to_u8();
        crate::encoder::write_u8(buf, offset, 0x20);
        let ghost buf1 = buf@;
        crate::encoder::write_u8(buf, offset, 2);
        proof {
            lemma_wrote_wrote(buf0, buf1, buf@, at, seq![0x20u8], seq![2u8]);
        }
        let ghost buf2 = buf@;
        crate::encoder::write_u8(buf, offset, flags);
        proof {
            lemma_wrote_wrote(buf0, buf2, buf@, at, seq![0x20u8] + seq![2u8], seq![flags]);
        }
        let ghost buf3 = buf@;
        crate::encoder::write_u8(buf, offset, rc);
        proof {
            lemma_wrote_wrote(
                buf0,
                buf3,
                buf@,
                at,
                (seq![0x20u8] + seq![2u8]) + seq![flags],
                seq![rc],
            );
            assert(((seq![0x20u8] + seq![2u8]) + seq![flags]) + seq![rc] =~= packet_bytes(pv));
        }
        Ok(4)
    }
}

/// Writes a connect packet's body at `*offset` and advances: the
/// protocol field, the derived connect-flags byte, the keep-alive, the
/// client id, then the flag-governed optional fields.
#[verifier::spinoff_prover]
#[verifier::rlimit(100)]
fn write_connect_body(c: &Connect, buf: &mut Vec<u8>, offset: &mut usize)
    requires
        connect_valid(c@),
        *old(offset) + connect_body_bytes(c@).len() <= old(buf)@.len(),
    ensures
        wrote(old(buf)@, final(buf)@, *old(offset) as int, connect_body_bytes(c@)),
        *final(offset) == *old(offset) + connect_body_bytes(c@).len(),
{
    let ghost body = connect_body_bytes(c@);

    // The connect-flags byte, derived from the optional fields.
    let mut flags_val: u8 = 0;
    if c.clean_session {
        flags_val = flags_val + 2;
    }
    match &c.last_will {
        Option::Some(w) => {
            flags_val = flags_val + 4 + 8 * w.qos.to_u8() + (if w.retain {
                32
            } else {
                0
            });
        },
        Option::None => {},
    }
    if c.username.is_some() {
        flags_val = flags_val + 128;
    }
    if c.password.is_some() {
        flags_val = flags_val + 64;
    }
    proof {
        assert(flags_val == connect_flags(c@));
    }

    let ghost buf0 = buf@;
    let ghost at = *old(offset) as int;
    c.protocol.to_buffer(buf, offset);
    let ghost acc1 = protocol_field_bytes(c.protocol);
    let ghost b1 = buf@;
    crate::encoder::write_u8(buf, offset, flags_val);
    proof {
        lemma_wrote_wrote(buf0, b1, buf@, at, acc1, seq![flags_val]);
    }
    let ghost acc2 = acc1 + seq![flags_val];
    let ghost b2 = buf@;
    crate::encoder::write_u16(buf, offset, c.keep_alive);
    proof {
        lemma_wrote_wrote(buf0, b2, buf@, at, acc2, u16_be(c.keep_alive));
    }
    let ghost acc3 = acc2 + u16_be(c.keep_alive);
    let ghost b3 = buf@;
    crate::encoder::write_string(buf, offset, c.client_id.as_str());
    proof {
        lemma_wrote_wrote(buf0, b3, buf@, at, acc3, str_field_bytes(c.client_id@));
    }
    let ghost acc4 = acc3 + str_field_bytes(c.client_id@);
    match &c.last_will {
        Option::Some(w) => {
            let ghost b4 = buf@;
            crate::encoder::write_string(buf, offset, w.topic.as_str());
            proof {
                lemma_wrote_wrote(buf0, b4, buf@, at, acc4, str_field_bytes(w.topic@));
            }
            let ghost b5 = buf@;
            crate::encoder::write_bytes(buf, offset, w.message.as_slice());
            proof {
                lemma_wrote_wrote(
                    buf0,
                    b5,
                    buf@,
                    at,
                    acc4 + str_field_bytes(w.topic@),
                    len_field_bytes(w.message@),
                );
                assert((acc4 + str_field_bytes(w.topic@)) + len_field_bytes(w.message@) =~= acc4
                    + will_bytes(c@.last_will));
            }
        },
        Option::None => {
            proof {
                assert(acc4 + will_bytes(c@.last_will) =~= acc4);
            }
        },
    }
    let ghost acc5 = acc4 + will_bytes(c@.last_will);
    match &c.username {
        Option::Some(u) => {
            let ghost b6 = buf@;
            crate::encoder::write_string(buf, offset, u.as_str());
            proof {
                lemma_wrote_wrote(buf0, b6, buf@, at, acc5, str_field_bytes(u@));
                assert(acc5 + str_field_bytes(u@) =~= acc5 + opt_str_bytes(c@.username));
            }
        },
        Option::None => {
            proof {
                assert(acc5 + opt_str_bytes(c@.username) =~= acc5);
            }
        },
    }
    let ghost acc6 = acc5 + opt_str_bytes(c@.username);
    match &c.password {
        Option::Some(p) => {
            let ghost b7 = buf@;
            crate::encoder::write_bytes(buf, offset, p.as_slice());
            proof {
                lemma_wrote_wrote(buf0, b7, buf@, at, acc6, len_field_bytes(p@));
                assert(acc6 + len_field_bytes(p@) =~= acc6 + opt_bytes_bytes(c@.password));
            }
        },
        Option::None => {
            proof {
                assert(acc6 + opt_bytes_bytes(c@.password) =~= acc6);
            }
        },
    }
    proof {
        assert(acc6 + opt_bytes_bytes(c@.password) =~= body);
    }
}

impl Connect {
    /// Encodes the whole connect packet at `*offset`.
    #[verifier::spinoff_prover]
    #[verifier::rlimit(100)]
    pub(crate) fn to_buffer(&self, buf: &mut Vec<u8>, offset: &mut usize) -> (r: Result<
        usize,
        Error,
    >)
        ensures
            encode_result(
                PacketView::Connect(self@),
                old(buf)@,
                final(buf)@,
                *old(offset) as int,
                *final(offset) as int,
                r,
            ),
    {
        let ghost pv = PacketView::Connect(self@);
        let ghost body = connect_body_bytes(self@);

        // Validity of every length-prefixed field, and the body length.
        let pname = self.protocol.name();
        let pn_len = pname.as_bytes().len();
        let cid_len = self.client_id.as_str().as_bytes().len();
        if cid_len > 0xFFFF {
            return Err(Error::InvalidLength);
        }
        let mut length: usize = 2 + pn_len + 1 + 1 + 2 + 2 + cid_len;
        match &self.last_will {
            Option::Some(w) => {
                let t_len = w.topic.as_str().as_bytes().len();
                if t_len > 0xFFFF {
                    return Err(Error::InvalidLength);
                }
                let m_len = w.message.len();
                if m_len > 0xFFFF {
                    return Err(Error::InvalidLength);
                }
                length = length + 2 + t_len + 2 + m_len;
            },
            Option::None => {},
        }
        match &self.username {
            Option::Some(u) => {
                let u_len = u.as_str().as_bytes().len();
                if u_len > 0xFFFF {
                    return Err(Error::InvalidLength);
                }
                length = length + 2 + u_len;
            },
            Option::None => {},
        }
        match &self.password {
            Option::Some(p) => {
                let p_len = p.len();
                if p_len > 0xFFFF {
                    return Err(Error::InvalidLength);
                }
                length = length + 2 + p_len;
            },
            Option::None => {},
        }
        proof {
            assert(length == body.len());
            assert(connect_valid(self@));
            assert(packet_valid(pv));
        }

        // Capacity for the whole packet.
        let width: usize = if length < 128 {
            1
        } else if length < 16384 {
            2
        } else {
            3
        };
        proof {
            assert(width == varint_len(length as int));
            assert(packet_bytes(pv).len() == 1 + width + length);
        }
        match crate::encoder::check_remaining(buf, *offset, 1 + width + length) {
            Ok(u) => u,
            Err(e) => {
                return Err(e);
            },
        };

        // Write the packet: header byte, remaining length, body.
        let ghost buf0 = buf@;
        let ghost at = *old(offset) as int;
        crate::encoder::write_u8(buf, offset, 0x10);
        let ghost b1 = buf@;
        let vr = crate::encoder::write_varint(buf, offset, length);
        match vr {
            Ok(_) => (),
            Err(_) => {
                proof {
                    assert(false);
                }
            },
        }
        proof {
            lemma_wrote_wrote(buf0, b1, buf@, at, seq![0x10u8], varint_bytes(length as int));
        }
        let ghost acc1 = seq![0x10u8] + varint_bytes(length as int);
        let ghost b2 = buf@;
        write_connect_body(self, buf, offset);
        proof {
            lemma_wrote_wrote(buf0, b2, buf@, at, acc1, body);
            assert(acc1 + body =~= packet_bytes(pv));
        }
        Ok(1 + width + length)
    }
}

// ---------------------------------------------------------------------------
// Round trips
// ---------------------------------------------------------------------------

/// Each optional field's presence can be read back out of the derived
/// connect-flags byte, the will's delivery level and retain flag too.
pub proof fn lemma_connect_flags(c: ConnectView)
    ensures
        ((connect_flags(c) / 4) % 2 == 1) == (c.last_will is Some),
        ((connect_flags(c) / 128) % 2 == 1) == (c.username is Some),
        ((connect_flags(c) / 64) % 2 == 1) == (c.password is Some),
        ((connect_flags(c) / 2) % 2 == 1) == c.clean_session,
        c.last_will matches Some(w) ==> ((connect_flags(c) / 8) % 4 == w.qos.spec_bits() && (((
        connect_flags(c) / 32) % 2 == 1) == w.retain)),
{
    let cs: int = if c.clean_session {
        2
    } else {
        0
    };
    let wl: int = match c.last_will {
        Option::Some(w) => 4 + 8 * (w.qos.spec_bits() as int) + (if w.retain {
            32int
        } else {
            0int
        }),
        Option::None => 0,
    };
    let un: int = if c.username is Some {
        128
    } else {
        0
    };
    let pw: int = if c.password is Some {
        64
    } else {
        0
    };
    assert(connect_flags(c) == cs + wl + un + pw);
    match c.last_will {
        Option::Some(w) => {
            assert(w.qos.spec_bits() == 0 || w.qos.spec_bits() == 1 || w.qos.spec_bits() == 2);
        },
        Option::None => {},
    }
}

/// Decoding a connack body that was just encoded recovers the packet.
pub proof fn lemma_parse_connack_rt(c: Connack)
    ensures
        parse_connack(connack_body_bytes(c)) == Ok::<Connack, ErrorView>(c),
{
    let b = connack_body_bytes(c);
    assert(b.len() == 2);
}

/// Reading the will fields back under the derived flags recovers them,
/// whatever follows.
pub proof fn lemma_parse_will_rt(c: ConnectView, rest: Seq<u8>)
    requires
        connect_valid(c),
    ensures
        parse_will(connect_flags(c), will_bytes(c.last_will) + rest) == Ok::<_, ErrorView>(
            (c.last_will, will_bytes(c.last_will).len() as int),
        ),
{
    lemma_connect_flags(c);
    let flags = connect_flags(c);
    let wb = will_bytes(c.last_will);
    match c.last_will {
        Option::Some(w) => {
            let wt = str_field_bytes(w.topic);
            let wm = len_field_bytes(w.message);
            assert(wb + rest =~= wt + (wm + rest));
            crate::wire::lemma_parse_str_field(w.topic, wm + rest);
            let m1 = 2 + encode_utf8(w.topic).len() as int;
            assert((wb + rest).skip(m1) =~= wm + rest);
            crate::wire::lemma_parse_bytes_field(w.message, rest);
            assert(spec_qos_from_bits((flags / 8) % 4) == Ok::<QoS, ErrorView>(w.qos));
        },
        Option::None => {
            assert(wb + rest =~= rest);
        },
    }
}

/// Reading an optional string field back under its flag recovers it,
/// whatever follows.
pub proof fn lemma_parse_opt_str_rt(s: Option<Seq<char>>, rest: Seq<u8>)
    requires
        s matches Some(u) ==> encode_utf8(u).len() <= 0xFFFF,
    ensures
        parse_opt_str(s is Some, opt_str_bytes(s) + rest) == Ok::<_, ErrorView>(
            (s, opt_str_bytes(s).len() as int),
        ),
{
    match s {
        Option::Some(u) => {
            crate::wire::lemma_parse_str_field(u, rest);
        },
        Option::None => {},
    }
}

/// Reading an optional byte field back under its flag recovers it,
/// whatever follows.
pub proof fn lemma_parse_opt_bytes_rt(p: Option<Seq<u8>>, rest: Seq<u8>)
    requires
        p matches Some(f) ==> f.len() <= 0xFFFF,
    ensures
        parse_opt_bytes(p is Some, opt_bytes_bytes(p) + rest) == Ok::<_, ErrorView>(
            (p, opt_bytes_bytes(p).len() as int),
        ),
{
    match p {
        Option::Some(f) => {
            crate::wire::lemma_parse_bytes_field(f, rest);
        },
        Option::None => {},
    }
}

/// Reading the protocol field back from its own wire image recovers the
/// protocol, whatever follows.
pub proof fn lemma_parse_protocol_rt(p: Protocol, rest: Seq<u8>)
    ensures
        parse_protocol(protocol_field_bytes(p) + rest) == Ok::<_, ErrorView>(
            (p, protocol_field_bytes(p).len() as int),
        ),
{
    let name = protocol_name_chars(p);
    let level = protocol_level(p);
    crate::wire::lemma_encode_utf8_len(name);
    let b = protocol_field_bytes(p) + rest;
    assert(b =~= str_field_bytes(name) + (seq![level] + rest));
    crate::wire::lemma_parse_str_field(name, seq![level] + rest);
    let n1 = 2 + encode_utf8(name).len() as int;
    assert(b[n1] == level);
    assert(spec_protocol_new(name, level) == Ok::<Protocol, ErrorView>(p)) by {
        assert(protocol_name_chars(Protocol::MQTT311).len() == 4);
        assert(protocol_name_chars(Protocol::MQIsdp).len() == 6);
    }
}

/// Reading the client id and the optional fields back under the derived
/// flags recovers them, consuming their bytes exactly.
#[verifier::spinoff_prover]
#[verifier::rlimit(100)]
pub proof fn lemma_parse_connect_fields_rt(c: ConnectView)
    requires
        connect_valid(c),
    ensures
        parse_connect_fields(
            connect_flags(c),
            str_field_bytes(c.client_id) + will_bytes(c.last_will) + opt_str_bytes(c.username)
                + opt_bytes_bytes(c.password),
        ) == Ok::<_, ErrorView>((c.client_id, c.last_will, c.username, c.password)),
{
    let flags = connect_flags(c);
    let cid = str_field_bytes(c.client_id);
    let wb = will_bytes(c.last_will);
    let ub = opt_str_bytes(c.username);
    let pb = opt_bytes_bytes(c.password);
    let r2 = cid + wb + ub + pb;
    lemma_connect_flags(c);

    assert(r2 =~= cid + (wb + ub + pb));
    crate::wire::lemma_parse_str_field(c.client_id, wb + ub + pb);
    let n2 = 2 + encode_utf8(c.client_id).len() as int;
    assert(parse_str_field(r2) == Ok::<_, ErrorView>((c.client_id, n2)));

    assert(r2.skip(n2) =~= wb + (ub + pb));
    lemma_parse_will_rt(c, ub + pb);
    let n3 = wb.len() as int;
    assert(r2.skip(n2 + n3) =~= ub + pb);
    lemma_parse_opt_str_rt(c.username, pb);
    let n4 = ub.len() as int;
    assert(r2.skip(n2 + n3 + n4) =~= pb + Seq::<u8>::empty());
    lemma_parse_opt_bytes_rt(c.password, Seq::<u8>::empty());
    let n5 = pb.len() as int;
    assert(pb + Seq::<u8>::empty() =~= pb);
    assert(n2 + n3 + n4 + n5 == r2.len());
}

/// Decoding a connect body that was just encoded recovers the packet.
#[verifier::spinoff_prover]
#[verifier::rlimit(100)]
pub proof fn lemma_parse_connect_rt(c: ConnectView)
    requires
        connect_valid(c),
    ensures
        parse_connect(connect_body_bytes(c)) == Ok::<ConnectView, ErrorView>(c),
{
    let b = connect_body_bytes(c);
    let flags = connect_flags(c);
    let ka = u16_be(c.keep_alive);
    let cid = str_field_bytes(c.client_id);
    let wb = will_bytes(c.last_will);
    let ub = opt_str_bytes(c.username);
    let pb = opt_bytes_bytes(c.password);
    lemma_connect_flags(c);

    // The protocol field.
    let tail1 = seq![flags] + ka + cid + wb + ub + pb;
    assert(b =~= protocol_field_bytes(c.protocol) + tail1);
    lemma_parse_protocol_rt(c.protocol, tail1);
    let np = protocol_field_bytes(c.protocol).len() as int;

    // Flags and keep-alive.
    let r1 = b.skip(np);
    assert(r1 =~= tail1);
    assert(r1.len() >= 3);
    assert(r1[0] == flags);
    assert(r1.skip(1)[0] == (c.keep_alive / 256) as u8);
    assert(r1.skip(1)[1] == (c.keep_alive % 256) as u8);
    assert(parse_u16(r1.skip(1)) == c.keep_alive);

    // The remaining fields.
    assert(r1.skip(3) =~= cid + wb + ub + pb);
    lemma_parse_connect_fields_rt(c);
    assert(((flags / 2) % 2 == 1) == c.clean_session);
}

/// A decoded connect packet can always be re-encoded: every parsed field
/// fits its length prefix.
#[verifier::spinoff_prover]
#[verifier::rlimit(100)]
pub proof fn lemma_parse_connect_valid(b: Seq<u8>)
    requires
        parse_connect(b) is Ok,
    ensures
        connect_valid(parse_connect(b)->Ok_0),
        connect_body_bytes(parse_connect(b)->Ok_0).len() <= 400000,
{
    let c = parse_connect(b)->Ok_0;
    let (protocol, np) = parse_protocol(b)->Ok_0;
    let r1 = b.skip(np);
    let flags = r1[0];
    let r2 = r1.skip(3);
    crate::wire::lemma_parse_str_field_sound(r2);
    let n2 = parse_str_field(r2)->Ok_0.1;
    let (last_will, n3) = parse_will(flags, r2.skip(n2))->Ok_0;
    match last_will {
        Option::Some(w) => {
            crate::wire::lemma_parse_str_field_sound(r2.skip(n2));
            let m1 = parse_str_field(r2.skip(n2))->Ok_0.1;
            crate::wire::lemma_parse_bytes_field_sound(r2.skip(n2).skip(m1));
        },
        Option::None => {},
    }
    let (username, n4) = parse_opt_str((flags / 128) % 2 == 1, r2.skip(n2 + n3))->Ok_0;
    match username {
        Option::Some(u) => {
            crate::wire::lemma_parse_str_field_sound(r2.skip(n2 + n3));
        },
        Option::None => {},
    }
    let (password, n5) = parse_opt_bytes((flags / 64) % 2 == 1, r2.skip(n2 + n3 + n4))->Ok_0;
    match password {
        Option::Some(p) => {
            crate::wire::lemma_parse_bytes_field_sound(r2.skip(n2 + n3 + n4));
        },
        Option::None => {},
    }
    assert(connect_valid(c));
    crate::wire::lemma_encode_utf8_len(protocol_name_chars(c.protocol));
}

} // verus!
