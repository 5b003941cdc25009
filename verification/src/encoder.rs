use vstd::prelude::*;
use vstd::utf8::encode_utf8;
use crate::errors::Error;
use crate::packet::{encode_result, packet_bytes, packet_valid, Packet};
use crate::utils::Pid;
use crate::wire::{
    len_field_bytes, lemma_wrote_wrote, str_field_bytes, u16_be, varint_bytes, varint_len, wrote,
    VARINT_MAX,
};

verus! {

/// Checks whether `buf` has `len` bytes of capacity left at `offset`,
/// returning a clean error instead of overrunning.
pub(crate) fn check_remaining(buf: &Vec<u8>, offset: usize, len: usize) -> (r: Result<(), Error>)
    ensures
        r is Ok <==> offset + len <= buf@.len(),
        r matches Err(e) ==> e == Error::WriteZero,
{
    if buf.len() < offset || buf.len() - offset < len {
        Err(Error::WriteZero)
    } else {
        Ok(())
    }
}

/// Writes one byte at `*offset` and advances.
pub(crate) fn write_u8(buf: &mut Vec<u8>, offset: &mut usize, val: u8)
    requires
        *old(offset) < old(buf)@.len(),
    ensures
        wrote(old(buf)@, final(buf)@, *old(offset) as int, seq![val]),
        *final(offset) == *old(offset) + 1,
{
    let n = buf.len();
    proof {
        assert(*offset < n);
    }
    buf[*offset] = val;
    *offset = *offset + 1;
    proof {
        assert(buf@.subrange(*old(offset) as int, *old(offset) + 1) =~= seq![val]);
    }
}

/// Writes a 16-bit value big-endian at `*offset` and advances.
pub(crate) fn write_u16(buf: &mut Vec<u8>, offset: &mut usize, val: u16)
    requires
        *old(offset) + 2 <= old(buf)@.len(),
    ensures
        wrote(old(buf)@, final(buf)@, *old(offset) as int, u16_be(val)),
        *final(offset) == *old(offset) + 2,
{
    let ghost buf0 = buf@;
    let ghost at = *old(offset) as int;
    let hi: u8 = (val / 256) as u8;
    let lo: u8 = (val % 256) as u8;
    write_u8(buf, offset, hi);
    let ghost buf1 = buf@;
    write_u8(buf, offset, lo);
    proof {
        lemma_wrote_wrote(buf0, buf1, buf@, at, seq![hi], seq![lo]);
        assert(seq![hi] + seq![lo] =~= u16_be(val));
    }
}

/// Writes a length-prefixed byte field at `*offset` and advances.
pub(crate) fn write_bytes(buf: &mut Vec<u8>, offset: &mut usize, bytes: &[u8])
    requires
        bytes@.len() <= 0xFFFF,
        *old(offset) + 2 + bytes@.len() <= old(buf)@.len(),
    ensures
        wrote(old(buf)@, final(buf)@, *old(offset) as int, len_field_bytes(bytes@)),
        *final(offset) == *old(offset) + 2 + bytes@.len(),
{
    let ghost buf0 = buf@;
    let ghost at = *old(offset) as int;
    write_u16(buf, offset, bytes.len() as u16);
    let ghost buf1 = buf@;
    let ghost mid = *offset as int;
    let n = bytes.len();
    proof {
        assert(bytes@.take(0) =~= Seq::<u8>::empty());
        crate::wire::lemma_wrote_empty(buf1, mid);
    }
    let mut i: usize = 0;
    while i < n
        invariant
            n == bytes@.len(),
            0 <= i <= n,
            *offset == mid + i,
            mid + n <= buf@.len(),
            wrote(buf1, buf@, mid, bytes@.take(i as int)),
        decreases n - i,
    {
        let ghost prev = buf@;
        write_u8(buf, offset, bytes[i]);
        proof {
            lemma_wrote_wrote(buf1, prev, buf@, mid, bytes@.take(i as int), seq![bytes@[i as int]]);
            assert(bytes@.take(i as int) + seq![bytes@[i as int]] =~= bytes@.take(i + 1));
        }
        i = i + 1;
    }
    proof {
        assert(bytes@.take(n as int) =~= bytes@);
        lemma_wrote_wrote(buf0, buf1, buf@, at, u16_be(bytes@.len() as u16), bytes@);
    }
}

/// Writes a length-prefixed UTF-8 string field at `*offset` and advances.
pub(crate) fn write_string(buf: &mut Vec<u8>, offset: &mut usize, string: &str)
    requires
        encode_utf8(string@).len() <= 0xFFFF,
        *old(offset) + 2 + encode_utf8(string@).len() <= old(buf)@.len(),
    ensures
        wrote(old(buf)@, final(buf)@, *old(offset) as int, str_field_bytes(string@)),
        *final(offset) == *old(offset) + 2 + encode_utf8(string@).len(),
{
    write_bytes(buf, offset, string.as_bytes());
}

/// Writes bytes as they are, with no length prefix, at `*offset` and
/// advances.
pub(crate) fn write_raw(buf: &mut Vec<u8>, offset: &mut usize, bytes: &[u8])
    requires
        *old(offset) + bytes@.len() <= old(buf)@.len(),
    ensures
        wrote(old(buf)@, final(buf)@, *old(offset) as int, bytes@),
        *final(offset) == *old(offset) + bytes@.len(),
{
    let ghost buf0 = buf@;
    let ghost at = *old(offset) as int;
    let n = bytes.len();
    proof {
        assert(bytes@.take(0) =~= Seq::<u8>::empty());
        crate::wire::lemma_wrote_empty(buf0, at);
    }
    let mut i: usize = 0;
    while i < n
        invariant
            n == bytes@.len(),
            0 <= i <= n,
            *offset == at + i,
            at + n <= buf@.len(),
            wrote(buf0, buf@, at, bytes@.take(i as int)),
        decreases n - i,
    {
        let ghost prev = buf@;
        write_u8(buf, offset, bytes[i]);
        proof {
            lemma_wrote_wrote(buf0, prev, buf@, at, bytes@.take(i as int), seq![bytes@[i as int]]);
            assert(bytes@.take(i as int) + seq![bytes@[i as int]] =~= bytes@.take(i + 1));
        }
        i = i + 1;
    }
    proof {
        assert(bytes@.take(n as int) =~= bytes@);
    }
}

/// Writes the remaining-length encoding of `len` at `*offset` and advances,
/// returning the number of bytes it occupied. Fails with `InvalidLength`
/// above the encodable range and with `WriteZero` when the encoding itself
/// does not fit; on failure nothing is written.
pub fn write_varint(buf: &mut Vec<u8>, offset: &mut usize, len: usize) -> (r: Result<usize, Error>)
    ensures
        len > VARINT_MAX ==> (r matches Err(e) && e == Error::InvalidLength),
        len <= VARINT_MAX && *old(offset) + varint_len(len as int) > old(buf)@.len() ==> (r
            matches Err(e) && e == Error::WriteZero),
        len <= VARINT_MAX && *old(offset) + varint_len(len as int) <= old(buf)@.len() ==> r
            is Ok,
        r matches Ok(w) ==> {
            &&& len <= VARINT_MAX
            &&& w == varint_len(len as int)
            &&& wrote(old(buf)@, final(buf)@, *old(offset) as int, varint_bytes(len as int))
            &&& *final(offset) == *old(offset) + w
        },
        r is Err ==> (final(buf)@ == old(buf)@ && *final(offset) == *old(offset)),
{
    let ghost buf0 = buf@;
    let ghost at = *old(offset) as int;
    if len > VARINT_MAX {
        return Err(Error::InvalidLength);
    }
    let width: usize = if len < 128 {
        1
    } else if len < 16384 {
        2
    } else if len < 2097152 {
        3
    } else {
        4
    };
    if buf.len() < *offset || buf.len() - *offset < width {
        return Err(Error::WriteZero);
    }
    if len < 128 {
        write_u8(buf, offset, len as u8);
        proof {
            assert(seq![len as u8] =~= varint_bytes(len as int));
        }
    } else if len < 16384 {
        let b0: u8 = (len % 128 + 128) as u8;
        let b1: u8 = (len / 128) as u8;
        write_u8(buf, offset, b0);
        let ghost buf1 = buf@;
        write_u8(buf, offset, b1);
        proof {
            lemma_wrote_wrote(buf0, buf1, buf@, at, seq![b0], seq![b1]);
            assert(seq![b0] + seq![b1] =~= varint_bytes(len as int));
        }
    } else if len < 2097152 {
        let b0: u8 = (len % 128 + 128) as u8;
        let b1: u8 = ((len / 128) % 128 + 128) as u8;
        let b2: u8 = (len / 16384) as u8;
        write_u8(buf, offset, b0);
        let ghost buf1 = buf@;
        write_u8(buf, offset, b1);
        proof {
            lemma_wrote_wrote(buf0, buf1, buf@, at, seq![b0], seq![b1]);
        }
        let ghost buf2 = buf@;
        write_u8(buf, offset, b2);
        proof {
            lemma_wrote_wrote(buf0, buf2, buf@, at, seq![b0] + seq![b1], seq![b2]);
            assert((seq![b0] + seq![b1]) + seq![b2] =~= varint_bytes(len as int));
        }
    } else {
        let b0: u8 = (len % 128 + 128) as u8;
        let b1: u8 = ((len / 128) % 128 + 128) as u8;
        let b2: u8 = ((len / 16384) % 128 + 128) as u8;
        let b3: u8 = (len / 2097152) as u8;
        write_u8(buf, offset, b0);
        let ghost buf1 = buf@;
        write_u8(buf, offset, b1);
        proof {
            lemma_wrote_wrote(buf0, buf1, buf@, at, seq![b0], seq![b1]);
        }
        let ghost buf2 = buf@;
        write_u8(buf, offset, b2);
        proof {
            lemma_wrote_wrote(buf0, buf2, buf@, at, seq![b0] + seq![b1], seq![b2]);
        }
        let ghost buf3 = buf@;
        write_u8(buf, offset, b3);
        proof {
            lemma_wrote_wrote(buf0, buf3, buf@, at, (seq![b0] + seq![b1]) + seq![b2], seq![b3]);
            assert(((seq![b0] + seq![b1]) + seq![b2]) + seq![b3] =~= varint_bytes(len as int));
        }
    }
    Ok(width)
}

/// Writes the remaining-length encoding of `len` at `*offset`, first
/// checking that the buffer can hold the encoding *and* the `len` body
/// bytes that the caller will write after it. Returns the total of the
/// two, the number of bytes the packet still needs from `*offset` on.
pub(crate) fn write_length(buf: &mut Vec<u8>, offset: &mut usize, len: usize) -> (r: Result<
    usize,
    Error,
>)
    ensures
        len > VARINT_MAX ==> (r matches Err(e) && e == Error::InvalidLength),
        len <= VARINT_MAX && *old(offset) + varint_len(len as int) + len > old(buf)@.len() ==> (r
            matches Err(e) && e == Error::WriteZero),
        len <= VARINT_MAX && *old(offset) + varint_len(len as int) + len <= old(buf)@.len()
            ==> r is Ok,
        r matches Ok(w) ==> {
            &&& len <= VARINT_MAX
            &&& w == varint_len(len as int) + len
            &&& *old(offset) + varint_len(len as int) + len <= old(buf)@.len()
            &&& wrote(old(buf)@, final(buf)@, *old(offset) as int, varint_bytes(len as int))
            &&& *final(offset) == *old(offset) + varint_len(len as int)
        },
        r is Err ==> (final(buf)@ == old(buf)@ && *final(offset) == *old(offset)),
{
    if len > VARINT_MAX {
        return Err(Error::InvalidLength);
    }
    let width: usize = if len < 128 {
        1
    } else if len < 16384 {
        2
    } else if len < 2097152 {
        3
    } else {
        4
    };
    check_remaining(buf, *offset, len + width)?;
    let w = write_varint(buf, offset, len)?;
    Ok(len + w)
}

// ---------------------------------------------------------------------------
// Whole packets
// ---------------------------------------------------------------------------

/// Encodes a packet that carries a bare identifier: the header byte, a
/// remaining length of 2, then the identifier.
fn pid_packet_to_buffer(header: u8, pid: Pid, buf: &mut Vec<u8>, offset: &mut usize) -> (r: Result<
    usize,
    Error,
>)
    ensures
        r matches Ok(n) ==> {
            &&& n == 4
            &&& *old(offset) + 4 <= old(buf)@.len()
            &&& wrote(
                old(buf)@,
                final(buf)@,
                *old(offset) as int,
                seq![header, 2u8] + u16_be(pid@),
            )
            &&& *final(offset) == *old(offset) + 4
        },
        r matches Err(e) ==> {
            &&& e == Error::WriteZero
            &&& *old(offset) + 4 > old(buf)@.len()
            &&& final(buf)@ == old(buf)@
            &&& *final(offset) == *old(offset)
        },
{
    match check_remaining(buf, *offset, 4) {
        Ok(u) => u,
        Err(e) => {
            return Err(e);
        },
    };
    let ghost buf0 = buf@;
    let ghost at = *old(offset) as int;
    write_u8(buf, offset, header);
    let ghost b1 = buf@;
    write_u8(buf, offset, 2);
    proof {
        lemma_wrote_wrote(buf0, b1, buf@, at, seq![header], seq![2u8]);
    }
    let ghost b2 = buf@;
    pid.to_buffer(buf, offset);
    proof {
        lemma_wrote_wrote(buf0, b2, buf@, at, seq![header] + seq![2u8], u16_be(pid@));
        assert((seq![header] + seq![2u8]) + u16_be(pid@) =~= seq![header, 2u8] + u16_be(pid@));
    }
    Ok(4)
}

/// Encodes a packet with no body: the header byte, then a remaining
/// length of 0.
fn empty_packet_to_buffer(header: u8, buf: &mut Vec<u8>, offset: &mut usize) -> (r: Result<
    usize,
    Error,
>)
    ensures
        r matches Ok(n) ==> {
            &&& n == 2
            &&& *old(offset) + 2 <= old(buf)@.len()
            &&& wrote(old(buf)@, final(buf)@, *old(offset) as int, seq![header, 0u8])
            &&& *final(offset) == *old(offset) + 2
        },
        r matches Err(e) ==> {
            &&& e == Error::WriteZero
            &&& *old(offset) + 2 > old(buf)@.len()
            &&& final(buf)@ == old(buf)@
            &&& *final(offset) == *old(offset)
        },
{
    match check_remaining(buf, *offset, 2) {
        Ok(u) => u,
        Err(e) => {
            return Err(e);
        },
    };
    let ghost buf0 = buf@;
    let ghost at = *old(offset) as int;
    write_u8(buf, offset, header);
    let ghost b1 = buf@;
    write_u8(buf, offset, 0);
    proof {
        lemma_wrote_wrote(buf0, b1, buf@, at, seq![header], seq![0u8]);
        assert(seq![header] + seq![0u8] =~= seq![header, 0u8]);
    }
    Ok(2)
}

/// Encodes one packet into the front of `buf`, returning how many bytes
/// were written: the packet's exact wire image.
///
/// Fails with `WriteZero` when `buf` is too small for the whole packet,
/// and with `InvalidLength` when the packet cannot be put on the wire at
/// all (a field longer than its two-byte length prefix allows, or a body
/// beyond the remaining-length range). On failure `buf` is untouched.
pub fn encode_slice(packet: &Packet, buf: &mut Vec<u8>) -> (r: Result<usize, Error>)
    ensures
        match r {
            Ok(n) => {
                &&& packet_valid(packet@)
                &&& n == packet_bytes(packet@).len()
                &&& n <= old(buf)@.len()
                &&& wrote(old(buf)@, final(buf)@, 0, packet_bytes(packet@))
            },
            Err(e) => {
                &&& final(buf)@ == old(buf)@
                &&& (e == Error::WriteZero || e == Error::InvalidLength)
                &&& (e == Error::WriteZero ==> packet_valid(packet@) && packet_bytes(
                    packet@,
                ).len() > old(buf)@.len())
                &&& (e == Error::InvalidLength ==> !packet_valid(packet@))
            },
        },
{
    let mut offset: usize = 0;
    match packet {
        Packet::Connect(connect) => connect.to_buffer(buf, &mut offset),
        Packet::Connack(connack) => connack.to_buffer(buf, &mut offset),
        Packet::Publish(publish) => publish.to_buffer(buf, &mut offset),
        Packet::Subscribe(subscribe) => subscribe.to_buffer(buf, &mut offset),
        Packet::Suback(suback) => suback.to_buffer(buf, &mut offset),
        Packet::Unsubscribe(unsub) => unsub.to_buffer(buf, &mut offset),
        Packet::Puback(pid) => {
            proof {
                use_type_invariant(*pid);
                assert(seq![0x40u8] + varint_bytes(2) + u16_be(pid@) =~= seq![0x40u8, 2u8]
                    + u16_be(pid@));
            }
            pid_packet_to_buffer(0x40, *pid, buf, &mut offset)
        },
        Packet::Pubrec(pid) => {
            proof {
                use_type_invariant(*pid);
                assert(seq![0x50u8] + varint_bytes(2) + u16_be(pid@) =~= seq![0x50u8, 2u8]
                    + u16_be(pid@));
            }
            pid_packet_to_buffer(0x50, *pid, buf, &mut offset)
        },
        Packet::Pubrel(pid) => {
            proof {
                use_type_invariant(*pid);
                assert(seq![0x62u8] + varint_bytes(2) + u16_be(pid@) =~= seq![0x62u8, 2u8]
                    + u16_be(pid@));
            }
            pid_packet_to_buffer(0x62, *pid, buf, &mut offset)
        },
        Packet::Pubcomp(pid) => {
            proof {
                use_type_invariant(*pid);
                assert(seq![0x70u8] + varint_bytes(2) + u16_be(pid@) =~= seq![0x70u8, 2u8]
                    + u16_be(pid@));
            }
            pid_packet_to_buffer(0x70, *pid, buf, &mut offset)
        },
        Packet::Unsuback(pid) => {
            proof {
                use_type_invariant(*pid);
                assert(seq![0xB0u8] + varint_bytes(2) + u16_be(pid@) =~= seq![0xB0u8, 2u8]
                    + u16_be(pid@));
            }
            pid_packet_to_buffer(0xB0, *pid, buf, &mut offset)
        },
        Packet::Pingreq => {
            proof {
                assert(seq![0xC0u8] + varint_bytes(0) + Seq::<u8>::empty() =~= seq![
                    0xC0u8,
                    0u8,
                ]);
            }
            empty_packet_to_buffer(0xC0, buf, &mut offset)
        },
        Packet::Pingresp => {
            proof {
                assert(seq![0xD0u8] + varint_bytes(0) + Seq::<u8>::empty() =~= seq![
                    0xD0u8,
                    0u8,
                ]);
            }
            empty_packet_to_buffer(0xD0, buf, &mut offset)
        },
        Packet::Disconnect => {
            proof {
                assert(seq![0xE0u8] + varint_bytes(0) + Seq::<u8>::empty() =~= seq![
                    0xE0u8,
                    0u8,
                ]);
            }
            empty_packet_to_buffer(0xE0, buf, &mut offset)
        },
    }
}

} // verus!
