use vstd::prelude::*;
use crate::errors::{res_view, Error, ErrorView};
use crate::packet::PacketType;
use crate::qos::{spec_qos_from_bits, QoS};

verus! {

/// The decoded first byte of a packet: the packet type nibble and the
/// dup / QoS / retain flag nibble. Only publish packets give the flag
/// nibble meaning; every other type demands one fixed pattern.
///
/// A header only steers body parsing and encoding; it is never stored in a
/// packet.
#[derive(Debug, Clone, Copy, PartialEq, Eq, Structural)]
pub struct Header {
    pub typ: PacketType,
    pub dup: bool,
    pub qos: QoS,
    pub retain: bool,
}

/// The packet type a first-byte high nibble denotes; 0 and 15 are illegal.
pub open spec fn spec_packet_type(t: u8) -> Option<PacketType> {
    if t == 1 {
        Some(PacketType::Connect)
    } else if t == 2 {
        Some(PacketType::Connack)
    } else if t == 3 {
        Some(PacketType::Publish)
    } else if t == 4 {
        Some(PacketType::Puback)
    } else if t == 5 {
        Some(PacketType::Pubrec)
    } else if t == 6 {
        Some(PacketType::Pubrel)
    } else if t == 7 {
        Some(PacketType::Pubcomp)
    } else if t == 8 {
        Some(PacketType::Subscribe)
    } else if t == 9 {
        Some(PacketType::Suback)
    } else if t == 10 {
        Some(PacketType::Unsubscribe)
    } else if t == 11 {
        Some(PacketType::Unsuback)
    } else if t == 12 {
        Some(PacketType::Pingreq)
    } else if t == 13 {
        Some(PacketType::Pingresp)
    } else if t == 14 {
        Some(PacketType::Disconnect)
    } else {
        None
    }
}

/// Whether a flag nibble is legal for the packet type of high nibble `t`:
/// publish accepts anything, release and the two subscription requests
/// demand the fixed pattern 2, everything else demands 0.
pub open spec fn spec_flags_ok(t: u8, flags: u8) -> bool {
    if t == 3 {
        true
    } else if t == 6 || t == 8 || t == 10 {
        flags == 2
    } else {
        flags == 0
    }
}

/// What decoding a first header byte yields: the header, or
/// `InvalidHeader` for an illegal type or flag nibble, or `InvalidQos(3)`
/// for the reserved publish QoS bit pattern.
pub open spec fn spec_header(hd: u8) -> Result<Header, ErrorView> {
    let t = hd / 16;
    let flags = hd % 16;
    match spec_packet_type(t) {
        Option::None => Err(ErrorView::InvalidHeader),
        Option::Some(typ) => {
            if !spec_flags_ok(t, flags) {
                Err(ErrorView::InvalidHeader)
            } else {
                match spec_qos_from_bits((hd / 2) % 4) {
                    Err(e) => Err(e),
                    Ok(qos) => Ok(
                        Header { typ, dup: (hd / 8) % 2 == 1, qos, retain: hd % 2 == 1 },
                    ),
                }
            }
        },
    }
}

/// The first header byte that a publish packet with the given flags
/// carries.
pub open spec fn publish_header_byte(dup: bool, qos: QoS, retain: bool) -> u8 {
    (48 + (if dup {
        8int
    } else {
        0int
    }) + 2 * (qos.spec_bits() as int) + (if retain {
        1int
    } else {
        0int
    })) as u8
}

/// A publish header byte decodes back to exactly its flags.
pub proof fn lemma_publish_header_byte(dup: bool, qos: QoS, retain: bool)
    ensures
        spec_header(publish_header_byte(dup, qos, retain)) == Ok::<Header, ErrorView>(
            Header { typ: PacketType::Publish, dup, qos, retain },
        ),
{
}

impl Header {
    /// Decodes and validates a first header byte.
    pub fn new(hd: u8) -> (r: Result<Header, Error>)
        ensures
            res_view(r) == spec_header(hd),
    {
        let t = hd / 16;
        let flags = hd % 16;
        let (typ, flags_ok) = match t {
            1 => (PacketType::Connect, flags == 0),
            2 => (PacketType::Connack, flags == 0),
            3 => (PacketType::Publish, true),
            4 => (PacketType::Puback, flags == 0),
            5 => (PacketType::Pubrec, flags == 0),
            6 => (PacketType::Pubrel, flags == 2),
            7 => (PacketType::Pubcomp, flags == 0),
            8 => (PacketType::Subscribe, flags == 2),
            9 => (PacketType::Suback, flags == 0),
            10 => (PacketType::Unsubscribe, flags == 2),
            11 => (PacketType::Unsuback, flags == 0),
            12 => (PacketType::Pingreq, flags == 0),
            13 => (PacketType::Pingresp, flags == 0),
            14 => (PacketType::Disconnect, flags == 0),
            _ => (PacketType::Connect, false),
        };
        if !flags_ok {
            return Err(Error::InvalidHeader);
        }
        let qos = QoS::from_u8((hd / 2) % 4)?;
        Ok(Header { typ, dup: (hd / 8) % 2 == 1, qos, retain: hd % 2 == 1 })
    }
}

} // verus!
