use vstd::prelude::*;
use vstd::slice::{slice_subrange, slice_to_vec};
use vstd::utf8::{decode_utf8_encode_utf8, encode_utf8};
use crate::connect::{parse_connack, parse_connect, Connack, Connect};
use crate::errors::{res_dview, Error, ErrorView};
use crate::header::{spec_header, Header};
use crate::packet::{
    packet_body_bytes, packet_bytes, packet_header_byte, packet_valid, Packet, PacketType,
    PacketView,
};
use crate::publish::{parse_publish, Publish};
use crate::subscribe::{parse_suback, parse_subscribe, parse_unsubscribe, Suback, Subscribe,
    Unsubscribe};
use crate::utils::Pid;
use crate::wire::{
    parse_bytes_field, parse_str_field, parse_u16, spec_parse_varint, string_from_utf8, u16_be,
    varint_bytes, varint_len, wrote, VarIntParse, VARINT_MAX,
};

verus! {

// ---------------------------------------------------------------------------
// What decoding means
// ---------------------------------------------------------------------------

/// What reading a fixed header from the front of `s` yields: `Ok(None)`
/// while `s` cannot yet hold a whole packet, otherwise the header, the
/// remaining length, and the fixed header's own length. The first byte is
/// only validated once the whole packet is present.
pub open spec fn spec_read_header(s: Seq<u8>) -> Result<Option<(Header, int, int)>, ErrorView> {
    if s.len() == 0 {
        Ok(None)
    } else {
        match spec_parse_varint(s.skip(1)) {
            VarIntParse::NotEnough => Ok(None),
            VarIntParse::TooLong => Err(ErrorView::InvalidHeader),
            VarIntParse::Done { value, width } => {
                if s.len() < 1 + width + value {
                    Ok(None)
                } else {
                    match spec_header(s[0]) {
                        Err(e) => Err(e),
                        Ok(h) => Ok(Some((h, value, 1 + width))),
                    }
                }
            },
        }
    }
}

/// What decoding a bare-identifier body (the four acknowledgements and
/// unsuback) yields: exactly two bytes holding a non-zero identifier.
pub open spec fn parse_pid_body(b: Seq<u8>) -> Result<u16, ErrorView> {
    if b.len() < 2 {
        Err(ErrorView::InvalidLength)
    } else {
        let v = parse_u16(b);
        if v == 0 {
            Err(ErrorView::InvalidPid)
        } else if b.len() != 2 {
            Err(ErrorView::InvalidLength)
        } else {
            Ok(v as u16)
        }
    }
}

/// What decoding a body of exactly the declared remaining length yields,
/// steered by the header. Every body must consume the slice exactly; the
/// three empty-bodied types demand length zero.
pub open spec fn spec_parse_body(h: Header, b: Seq<u8>) -> Result<PacketView, ErrorView> {
    match h.typ {
        PacketType::Connect => match parse_connect(b) {
            Ok(c) => Ok(PacketView::Connect(c)),
            Err(e) => Err(e),
        },
        PacketType::Connack => match parse_connack(b) {
            Ok(c) => Ok(PacketView::Connack(c)),
            Err(e) => Err(e),
        },
        PacketType::Publish => match parse_publish(h, b) {
            Ok(p) => Ok(PacketView::Publish(p)),
            Err(e) => Err(e),
        },
        PacketType::Puback => match parse_pid_body(b) {
            Ok(p) => Ok(PacketView::Puback(p)),
            Err(e) => Err(e),
        },
        PacketType::Pubrec => match parse_pid_body(b) {
            Ok(p) => Ok(PacketView::Pubrec(p)),
            Err(e) => Err(e),
        },
        PacketType::Pubrel => match parse_pid_body(b) {
            Ok(p) => Ok(PacketView::Pubrel(p)),
            Err(e) => Err(e),
        },
        PacketType::Pubcomp => match parse_pid_body(b) {
            Ok(p) => Ok(PacketView::Pubcomp(p)),
            Err(e) => Err(e),
        },
        PacketType::Subscribe => match parse_subscribe(b) {
            Ok(s) => Ok(PacketView::Subscribe(s)),
            Err(e) => Err(e),
        },
        PacketType::Suback => match parse_suback(b) {
            Ok(s) => Ok(PacketView::Suback(s)),
            Err(e) => Err(e),
        },
        PacketType::Unsubscribe => match parse_unsubscribe(b) {
            Ok(s) => Ok(PacketView::Unsubscribe(s)),
            Err(e) => Err(e),
        },
        PacketType::Unsuback => match parse_pid_body(b) {
            Ok(p) => Ok(PacketView::Unsuback(p)),
            Err(e) => Err(e),
        },
        PacketType::Pingreq => {
            if b.len() == 0 {
                Ok(PacketView::Pingreq)
            } else {
                Err(ErrorView::InvalidLength)
            }
        },
        PacketType::Pingresp => {
            if b.len() == 0 {
                Ok(PacketView::Pingresp)
            } else {
                Err(ErrorView::InvalidLength)
            }
        },
        PacketType::Disconnect => {
            if b.len() == 0 {
                Ok(PacketView::Disconnect)
            } else {
                Err(ErrorView::InvalidLength)
            }
        },
    }
}

/// What decoding the front of `b` yields: `Ok(None)` while `b` cannot yet
/// hold a whole packet, otherwise the bytes consumed and the packet, or
/// the error that the malformed input deserves.
pub open spec fn spec_decode(b: Seq<u8>) -> Result<Option<(int, PacketView)>, ErrorView> {
    match spec_read_header(b) {
        Err(e) => Err(e),
        Ok(Option::None) => Ok(None),
        Ok(Option::Some((h, len, hl))) => match spec_parse_body(h, b.subrange(hl, hl + len)) {
            Err(e) => Err(e),
            Ok(pv) => Ok(Some((hl + len, pv))),
        },
    }
}

// ---------------------------------------------------------------------------
// Reading primitives
// ---------------------------------------------------------------------------

/// Reads a remaining-length encoding from `buf` at `start`: the value
/// and the number of bytes it occupied, `Ok(None)` while the encoding is
/// not yet complete, `InvalidHeader` when a fifth byte would be needed.
pub fn read_varint(buf: &[u8], start: usize) -> (r: Result<Option<(usize, usize)>, Error>)
    requires
        start <= buf@.len(),
    ensures
        ({
            let s = buf@.skip(start as int);
            match r {
                Ok(Option::None) => spec_parse_varint(s) is NotEnough,
                Ok(Option::Some((value, width))) => {
                    &&& spec_parse_varint(s) == (VarIntParse::Done {
                        value: value as int,
                        width: width as int,
                    })
                    &&& value <= VARINT_MAX
                    &&& 1 <= width <= 4
                    &&& start + width <= buf@.len()
                },
                Err(e) => e == Error::InvalidHeader && spec_parse_varint(s) is TooLong,
            }
        }),
{
    let n = buf.len();
    if start >= n {
        return Ok(None);
    }
    let b0 = buf[start];
    if b0 < 128 {
        return Ok(Some((b0 as usize, 1)));
    }
    if start + 1 >= n {
        return Ok(None);
    }
    let b1 = buf[start + 1];
    if b1 < 128 {
        return Ok(Some(((b0 - 128) as usize + 128 * (b1 as usize), 2)));
    }
    if start + 2 >= n {
        return Ok(None);
    }
    let b2 = buf[start + 2];
    if b2 < 128 {
        return Ok(
            Some(
                (
                    (b0 - 128) as usize + 128 * ((b1 - 128) as usize) + 16384 * (b2 as usize),
                    3,
                ),
            ),
        );
    }
    if start + 3 >= n {
        return Ok(None);
    }
    let b3 = buf[start + 3];
    if b3 < 128 {
        return Ok(
            Some(
                (
                    (b0 - 128) as usize + 128 * ((b1 - 128) as usize) + 16384 * ((b2
                        - 128) as usize) + 2097152 * (b3 as usize),
                    4,
                ),
            ),
        );
    }
    Err(Error::InvalidHeader)
}

/// Reads the fixed header at `*offset`: the first byte and the remaining
/// length. Advances `*offset` past the fixed header, and only when the
/// buffer already holds the whole packet.
pub fn read_header(buf: &[u8], offset: &mut usize) -> (r: Result<
    Option<(Header, usize)>,
    Error,
>)
    requires
        *old(offset) <= buf@.len(),
    ensures
        ({
            let s = buf@.skip(*old(offset) as int);
            match r {
                Ok(Option::Some((h, len))) => {
                    &&& spec_read_header(s) == Ok::<_, ErrorView>(
                        Some((h, len as int, (*final(offset) - *old(offset)) as int)),
                    )
                    &&& *old(offset) < *final(offset) <= buf@.len()
                    &&& *final(offset) + len <= buf@.len()
                    &&& len <= VARINT_MAX
                },
                Ok(Option::None) => {
                    &&& spec_read_header(s) == Ok::<_, ErrorView>(None::<(Header, int, int)>)
                    &&& *final(offset) == *old(offset)
                },
                Err(e) => spec_read_header(s) == Err::<Option<(Header, int, int)>, _>(e@)
                    && *final(offset) == *old(offset),
            }
        }),
{
    let start = *offset;
    if buf.len() == start {
        return Ok(None);
    }
    proof {
        assert(buf@.skip(start as int).skip(1) =~= buf@.skip(start as int + 1));
    }
    let parsed = match read_varint(buf, start + 1) {
        Ok(p) => p,
        Err(e) => {
            return Err(e);
        },
    };
    match parsed {
        Option::None => Ok(None),
        Option::Some((len, width)) => {
            if buf.len() - start - 1 - width < len {
                return Ok(None);
            }
            let h = match Header::new(buf[start]) {
                Ok(h) => h,
                Err(e) => {
                    return Err(e);
                },
            };
            *offset = start + 1 + width;
            Ok(Some((h, len)))
        },
    }
}

/// Reads a length-prefixed byte field at `*offset`, bounded by `end`, into
/// an owned vector, and advances past it.
pub(crate) fn read_bytes(buf: &[u8], offset: &mut usize, end: usize) -> (r: Result<Vec<u8>, Error>)
    requires
        *old(offset) <= end <= buf@.len(),
    ensures
        ({
            let b = buf@.subrange(*old(offset) as int, end as int);
            match r {
                Ok(v) => {
                    &&& parse_bytes_field(b) == Some(
                        (v@, (*final(offset) - *old(offset)) as int),
                    )
                    &&& *old(offset) + 2 <= *final(offset) <= end
                    &&& v@.len() <= 0xFFFF
                },
                Err(e) => {
                    &&& e == Error::InvalidLength
                    &&& parse_bytes_field(b) is None
                    &&& *final(offset) == *old(offset)
                },
            }
        }),
{
    let start = *offset;
    if end - start < 2 {
        return Err(Error::InvalidLength);
    }
    let len = (buf[start] as usize) * 256 + (buf[start + 1] as usize);
    proof {
        let b = buf@.subrange(start as int, end as int);
        assert(b[0] == buf@[start as int] && b[1] == buf@[start as int + 1]);
    }
    if end - start - 2 < len {
        return Err(Error::InvalidLength);
    }
    let s = slice_subrange(buf, start + 2, start + 2 + len);
    let v = slice_to_vec(s);
    *offset = start + 2 + len;
    proof {
        let b = buf@.subrange(start as int, end as int);
        assert(v@ =~= b.subrange(2, 2 + len as int));
    }
    Ok(v)
}

/// Reads a length-prefixed UTF-8 string field at `*offset`, bounded by
/// `end`, into an owned string, and advances past it.
pub(crate) fn read_str(buf: &[u8], offset: &mut usize, end: usize) -> (r: Result<String, Error>)
    requires
        *old(offset) <= end <= buf@.len(),
    ensures
        ({
            let b = buf@.subrange(*old(offset) as int, end as int);
            match r {
                Ok(s) => {
                    &&& parse_str_field(b) == Ok::<_, ErrorView>(
                        (s@, (*final(offset) - *old(offset)) as int),
                    )
                    &&& *old(offset) + 2 <= *final(offset) <= end
                    &&& encode_utf8(s@).len() <= 0xFFFF
                },
                Err(e) => {
                    &&& parse_str_field(b) == Err::<(Seq<char>, int), _>(e@)
                    &&& *final(offset) == *old(offset)
                },
            }
        }),
{
    let start = *offset;
    let v = match read_bytes(buf, offset, end) {
        Ok(v) => v,
        Err(e) => {
            return Err(e);
        },
    };
    let ghost f = v@;
    match string_from_utf8(v) {
        Option::Some(s) => {
            proof {
                decode_utf8_encode_utf8(f);
            }
            Ok(s)
        },
        Option::None => {
            *offset = start;
            Err(Error::InvalidString)
        },
    }
}

// ---------------------------------------------------------------------------
// Dispatch
// ---------------------------------------------------------------------------

/// Decodes a body of exactly `remaining_len` bytes at `*offset`, steered
/// by the header.
fn read_packet(header: Header, remaining_len: usize, buf: &[u8], offset: &mut usize) -> (r: Result<
    Packet,
    Error,
>)
    requires
        *old(offset) + remaining_len <= buf@.len(),
    ensures
        res_dview(r) == spec_parse_body(
            header,
            buf@.subrange(*old(offset) as int, *old(offset) + remaining_len),
        ),
        r is Ok ==> *final(offset) == *old(offset) + remaining_len,
{
    let total = buf.len();
    proof {
        assert(*offset + remaining_len <= total);
    }
    let payload_end = *offset + remaining_len;
    let ghost b = buf@.subrange(*old(offset) as int, payload_end as int);
    match header.typ {
        PacketType::Pingreq => {
            if remaining_len != 0 {
                Err(Error::InvalidLength)
            } else {
                Ok(Packet::Pingreq)
            }
        },
        PacketType::Pingresp => {
            if remaining_len != 0 {
                Err(Error::InvalidLength)
            } else {
                Ok(Packet::Pingresp)
            }
        },
        PacketType::Disconnect => {
            if remaining_len != 0 {
                Err(Error::InvalidLength)
            } else {
                Ok(Packet::Disconnect)
            }
        },
        PacketType::Connect => match Connect::from_buffer(buf, offset, payload_end) {
            Ok(c) => Ok(Packet::Connect(c)),
            Err(e) => Err(e),
        },
        PacketType::Connack => match Connack::from_buffer(buf, offset, payload_end) {
            Ok(c) => Ok(Packet::Connack(c)),
            Err(e) => Err(e),
        },
        PacketType::Publish => match Publish::from_buffer(&header, buf, offset, payload_end) {
            Ok(p) => Ok(Packet::Publish(p)),
            Err(e) => Err(e),
        },
        PacketType::Subscribe => match Subscribe::from_buffer(buf, offset, payload_end) {
            Ok(s) => Ok(Packet::Subscribe(s)),
            Err(e) => Err(e),
        },
        PacketType::Suback => match Suback::from_buffer(buf, offset, payload_end) {
            Ok(s) => Ok(Packet::Suback(s)),
            Err(e) => Err(e),
        },
        PacketType::Unsubscribe => match Unsubscribe::from_buffer(buf, offset, payload_end) {
            Ok(s) => Ok(Packet::Unsubscribe(s)),
            Err(e) => Err(e),
        },
        PacketType::Puback => match read_packet_pid(buf, offset, remaining_len) {
            Ok(p) => Ok(Packet::Puback(p)),
            Err(e) => Err(e),
        },
        PacketType::Pubrec => match read_packet_pid(buf, offset, remaining_len) {
            Ok(p) => Ok(Packet::Pubrec(p)),
            Err(e) => Err(e),
        },
        PacketType::Pubrel => match read_packet_pid(buf, offset, remaining_len) {
            Ok(p) => Ok(Packet::Pubrel(p)),
            Err(e) => Err(e),
        },
        PacketType::Pubcomp => match read_packet_pid(buf, offset, remaining_len) {
            Ok(p) => Ok(Packet::Pubcomp(p)),
            Err(e) => Err(e),
        },
        PacketType::Unsuback => match read_packet_pid(buf, offset, remaining_len) {
            Ok(p) => Ok(Packet::Unsuback(p)),
            Err(e) => Err(e),
        },
    }
}

/// Decodes a bare-identifier body of exactly two bytes at `*offset`.
fn read_packet_pid(buf: &[u8], offset: &mut usize, remaining_len: usize) -> (r: Result<Pid, Error>)
    requires
        *old(offset) + remaining_len <= buf@.len(),
    ensures
        ({
            let b = buf@.subrange(*old(offset) as int, *old(offset) + remaining_len);
            match r {
                Ok(p) => parse_pid_body(b) == Ok::<u16, ErrorView>(p@) && *final(offset) == *old(
                    offset,
                ) + remaining_len,
                Err(e) => parse_pid_body(b) == Err::<u16, ErrorView>(e@),
            }
        }),
{
    let ghost b = buf@.subrange(*old(offset) as int, *old(offset) + remaining_len);
    if remaining_len < 2 {
        return Err(Error::InvalidLength);
    }
    proof {
        assert(b[0] == buf@[*old(offset) as int] && b[1] == buf@[*old(offset) as int + 1]);
    }
    let pid = match Pid::from_buffer(buf, offset) {
        Ok(p) => p,
        Err(e) => {
            return Err(e);
        },
    };
    if remaining_len != 2 {
        return Err(Error::InvalidLength);
    }
    Ok(pid)
}

// ---------------------------------------------------------------------------
// The public decoders
// ---------------------------------------------------------------------------

/// Decodes one packet from the front of `buf`, also reporting how many
/// bytes it occupied.
///
/// Returns `Ok(None)` while `buf` cannot yet hold a whole packet: append
/// more bytes and retry from the same starting point. Returns an error
/// only for input that is structurally invalid however many bytes arrive.
/// The buffer itself is never touched.
pub fn decode_slice_with_len(buf: &[u8]) -> (r: Result<Option<(usize, Packet)>, Error>)
    ensures
        match r {
            Ok(Some((n, p))) => spec_decode(buf@) == Ok::<_, ErrorView>(Some((n as int, p@)))
                && n <= buf@.len() && packet_valid(p@),
            Ok(None) => spec_decode(buf@) == Ok::<_, ErrorView>(None::<(int, PacketView)>),
            Err(e) => spec_decode(buf@) == Err::<Option<(int, PacketView)>, _>(e@),
        },
{
    proof {
        assert(buf@.skip(0) =~= buf@);
    }
    let mut offset: usize = 0;
    match read_header(buf, &mut offset) {
        Err(e) => Err(e),
        Ok(Option::None) => Ok(None),
        Ok(Option::Some((header, remaining_len))) => {
            match read_packet(header, remaining_len, buf, &mut offset) {
                Err(e) => Err(e),
                Ok(p) => {
                    proof {
                        lemma_decode_valid(buf@);
                    }
                    Ok(Some((offset, p)))
                },
            }
        },
    }
}

/// Decodes one packet from the front of `buf`.
///
/// Returns `Ok(None)` while `buf` cannot yet hold a whole packet: append
/// more bytes and retry from the same starting point. Returns an error
/// only for input that is structurally invalid however many bytes arrive.
/// The buffer itself is never touched.
pub fn decode_slice(buf: &[u8]) -> (r: Result<Option<Packet>, Error>)
    ensures
        match r {
            Ok(Some(p)) => (spec_decode(buf@) matches Ok(Some((n, pv))) && pv == p@
                && packet_valid(p@)),
            Ok(None) => spec_decode(buf@) == Ok::<_, ErrorView>(None::<(int, PacketView)>),
            Err(e) => spec_decode(buf@) == Err::<Option<(int, PacketView)>, _>(e@),
        },
{
    match decode_slice_with_len(buf) {
        Ok(Option::Some((_, p))) => Ok(Some(p)),
        Ok(Option::None) => Ok(None),
        Err(e) => Err(e),
    }
}

/// Copies one whole packet's framed bytes from the front of `input` into
/// the front of `output`, without a full structural decode, returning how
/// many bytes were copied. Returns `Ok(0)` while `input` cannot yet hold
/// a whole packet, and `WriteZero` when `output` is too small for it.
pub fn clone_packet(input: &[u8], output: &mut Vec<u8>) -> (r: Result<usize, Error>)
    ensures
        match r {
            Ok(n) => {
                match spec_read_header(input@) {
                    Ok(Some((h, len, hl))) => n == hl + len && wrote(
                        old(output)@,
                        final(output)@,
                        0,
                        input@.subrange(0, n as int),
                    ),
                    Ok(None) => n == 0 && final(output)@ == old(output)@,
                    Err(_) => false,
                }
            },
            Err(e) => {
                &&& final(output)@ == old(output)@
                &&& match spec_read_header(input@) {
                    Ok(Some((h, len, hl))) => e == Error::WriteZero && old(output)@.len() < hl
                        + len,
                    Ok(None) => false,
                    Err(ev) => e@ == ev,
                }
            },
        },
{
    proof {
        assert(input@.skip(0) =~= input@);
    }
    if input.is_empty() {
        return Ok(0);
    }
    let mut offset: usize = 0;
    let parsed = match read_header(input, &mut offset) {
        Ok(p) => p,
        Err(e) => {
            return Err(e);
        },
    };
    match parsed {
        Option::None => Ok(0),
        Option::Some((_, remaining_len)) => {
            let total = offset + remaining_len;
            if output.len() < total {
                return Err(Error::WriteZero);
            }
            let ghost out0 = output@;
            let mut pos: usize = 0;
            proof {
                assert(input@.subrange(0, 0) =~= Seq::<u8>::empty());
                crate::wire::lemma_wrote_empty(out0, 0);
            }
            while pos < total
                invariant
                    pos <= total <= input@.len(),
                    total <= output@.len(),
                    output@.len() == out0.len(),
                    wrote(out0, output@, 0, input@.subrange(0, pos as int)),
                decreases total - pos,
            {
                let ghost prev = output@;
                let byte = input[pos];
                crate::encoder::write_u8(output, &mut pos, byte);
                proof {
                    crate::wire::lemma_wrote_wrote(
                        out0,
                        prev,
                        output@,
                        0,
                        input@.subrange(0, pos - 1),
                        seq![byte],
                    );
                    assert(input@.subrange(0, pos - 1) + seq![byte] =~= input@.subrange(
                        0,
                        pos as int,
                    ));
                }
            }
            Ok(total)
        },
    }
}

// ---------------------------------------------------------------------------
// Laws
// ---------------------------------------------------------------------------

/// Decoding a bare-identifier body that was just encoded recovers the
/// identifier.
proof fn lemma_parse_pid_body_rt(p: u16)
    requires
        p != 0,
    ensures
        parse_pid_body(u16_be(p)) == Ok::<u16, ErrorView>(p),
{
    assert(u16_be(p).len() == 2);
    assert(u16_be(p)[0] == (p / 256) as u8);
    assert(u16_be(p)[1] == (p % 256) as u8);
}

/// The first header byte a packet is encoded with decodes back to a legal
/// header of the packet's own type, and for a publish packet to its own
/// flags.
proof fn lemma_header_byte_rt(pv: PacketView)
    requires
        packet_valid(pv),
    ensures
        spec_header(packet_header_byte(pv)) matches Ok(h) && h.typ == pv.spec_type() && (
        pv matches PacketView::Publish(p) ==> h.dup == p.dup && h.qos == p.qospid.qos()
            && h.retain == p.retain),
{
    match pv {
        PacketView::Publish(p) => {
            crate::header::lemma_publish_header_byte(p.dup, p.qospid.qos(), p.retain);
        },
        _ => {},
    }
}

/// Round trip: decoding a buffer that holds exactly one encoded packet
/// yields that packet back, having consumed exactly its encoded length.
///
/// Together with the contracts of [`crate::encode_slice`] (which writes
/// `packet_bytes`) and [`crate::decode_slice_with_len`] (which returns
/// `spec_decode`), this says `decode(encode(p)) == (p, encoded length)`
/// for every encodable packet value.
#[verifier::spinoff_prover]
#[verifier::rlimit(100)]
pub proof fn lemma_round_trip(pv: PacketView)
    requires
        packet_valid(pv),
    ensures
        spec_decode(packet_bytes(pv)) == Ok::<_, ErrorView>(
            Some((packet_bytes(pv).len() as int, pv)),
        ),
{
    let b = packet_bytes(pv);
    let body = packet_body_bytes(pv);
    let len = body.len() as int;
    let hdr = packet_header_byte(pv);
    let w = varint_len(len);

    // The framing comes back: header byte, remaining length, body span.
    assert(b.skip(1) =~= varint_bytes(len) + body);
    crate::wire::lemma_parse_varint(len, body);
    assert(b[0] == hdr);
    assert(b.len() == 1 + w + len);
    lemma_header_byte_rt(pv);
    let h = spec_header(hdr)->Ok_0;
    assert(spec_read_header(b) == Ok::<_, ErrorView>(Some((h, len, 1 + w))));
    assert(b.subrange(1 + w, 1 + w + len) =~= body);

    // The body comes back, packet type by packet type.
    match pv {
        PacketView::Connect(c) => {
            crate::connect::lemma_parse_connect_rt(c);
        },
        PacketView::Connack(c) => {
            crate::connect::lemma_parse_connack_rt(c);
        },
        PacketView::Publish(p) => {
            crate::publish::lemma_parse_publish_rt(p, h);
        },
        PacketView::Puback(p) => {
            lemma_parse_pid_body_rt(p);
        },
        PacketView::Pubrec(p) => {
            lemma_parse_pid_body_rt(p);
        },
        PacketView::Pubrel(p) => {
            lemma_parse_pid_body_rt(p);
        },
        PacketView::Pubcomp(p) => {
            lemma_parse_pid_body_rt(p);
        },
        PacketView::Subscribe(s) => {
            crate::subscribe::lemma_parse_subscribe_rt(s);
        },
        PacketView::Suback(s) => {
            crate::subscribe::lemma_parse_suback_rt(s);
        },
        PacketView::Unsubscribe(s) => {
            crate::subscribe::lemma_parse_unsubscribe_rt(s);
        },
        PacketView::Unsuback(p) => {
            lemma_parse_pid_body_rt(p);
        },
        PacketView::Pingreq => {},
        PacketView::Pingresp => {},
        PacketView::Disconnect => {},
    }
}

/// Whatever a decoded body holds can be re-encoded: every packet that a
/// body parse yields is valid, provided the body lay within the
/// remaining-length range.
#[verifier::spinoff_prover]
#[verifier::rlimit(100)]
proof fn lemma_parse_body_valid(h: Header, b: Seq<u8>)
    requires
        b.len() <= VARINT_MAX,
        spec_parse_body(h, b) is Ok,
    ensures
        packet_valid(spec_parse_body(h, b)->Ok_0),
{
    let pv = spec_parse_body(h, b)->Ok_0;
    match h.typ {
        PacketType::Connect => {
            crate::connect::lemma_parse_connect_valid(b);
        },
        PacketType::Connack => {},
        PacketType::Publish => {
            crate::publish::lemma_parse_publish_sound(h, b);
        },
        PacketType::Subscribe => {
            crate::subscribe::lemma_parse_subscribe_sound(b);
        },
        PacketType::Suback => {
            crate::subscribe::lemma_parse_suback_sound(b);
        },
        PacketType::Unsubscribe => {
            crate::subscribe::lemma_parse_unsubscribe_sound(b);
        },
        _ => {},
    }
}

/// Everything the decoder hands out can be handed back to the encoder:
/// a successfully decoded packet is always valid.
pub proof fn lemma_decode_valid(b: Seq<u8>)
    requires
        spec_decode(b) matches Ok(Some(r)),
    ensures
        (spec_decode(b) matches Ok(Some(r)) && packet_valid(r.1)),
{
    let (h, len, hl) = spec_read_header(b)->Ok_0->Some_0;
    crate::wire::lemma_parse_varint_bound(b.skip(1));
    lemma_parse_body_valid(h, b.subrange(hl, hl + len));
}

/// Partial-read safety: any strict prefix of an encoded packet decodes to
/// "not yet complete" — never to a packet and never to an error — so a
/// caller reading from a stream can always wait for more bytes.
#[verifier::spinoff_prover]
#[verifier::rlimit(100)]
pub proof fn lemma_partial_read(pv: PacketView, n: int)
    requires
        packet_valid(pv),
        0 <= n < packet_bytes(pv).len(),
    ensures
        spec_decode(packet_bytes(pv).take(n)) == Ok::<Option<(int, PacketView)>, ErrorView>(None),
{
    let b = packet_bytes(pv);
    let body = packet_body_bytes(pv);
    let len = body.len() as int;
    let w = varint_len(len);
    let p = b.take(n);
    if n == 0 {
        assert(p.len() == 0);
    } else {
        assert(p.skip(1) =~= (varint_bytes(len) + body).take(n - 1));
        if n - 1 < w {
            assert((varint_bytes(len) + body).take(n - 1) =~= varint_bytes(len).take(n - 1));
            crate::wire::lemma_parse_varint_prefix(len, n - 1);
        } else {
            assert((varint_bytes(len) + body).take(n - 1) =~= varint_bytes(len) + body.take(
                n - 1 - w,
            ));
            crate::wire::lemma_parse_varint(len, body.take(n - 1 - w));
            assert(p.len() < 1 + w + len);
        }
    }
}

} // verus!
