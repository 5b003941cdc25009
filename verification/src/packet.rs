use vstd::prelude::*;
use crate::connect::{
    connack_body_bytes, connect_body_bytes, connect_valid, Connack, Connect, ConnectView,
};
use crate::header::publish_header_byte;
use crate::publish::{publish_body_bytes, publish_valid, Publish, PublishView};
use crate::subscribe::{
    suback_body_bytes, suback_valid, subscribe_body_bytes, subscribe_valid, unsubscribe_body_bytes,
    unsubscribe_valid, Suback, SubackView, Subscribe, SubscribeView, Unsubscribe, UnsubscribeView,
};
use crate::errors::Error;
use crate::utils::Pid;
use crate::wire::{u16_be, varint_bytes, wrote, VARINT_MAX};

verus! {

/// One MQTT 3.1.1 control packet, of any of the fourteen types. A packet
/// is built fresh by the decoder, or by the caller for encoding; the codec
/// itself keeps no state between calls.
#[derive(Debug, Clone, PartialEq)]
pub enum Packet {
    Connect(Connect),
    Connack(Connack),
    Publish(Publish),
    Puback(Pid),
    Pubrec(Pid),
    Pubrel(Pid),
    Pubcomp(Pid),
    Subscribe(Subscribe),
    Suback(Suback),
    Unsubscribe(Unsubscribe),
    Unsuback(Pid),
    Pingreq,
    Pingresp,
    Disconnect,
}

/// The mathematical value of a [`Packet`]: strings become character
/// sequences, byte vectors become byte sequences, identifiers their
/// non-zero 16-bit values.
pub enum PacketView {
    Connect(ConnectView),
    Connack(Connack),
    Publish(PublishView),
    Puback(u16),
    Pubrec(u16),
    Pubrel(u16),
    Pubcomp(u16),
    Subscribe(SubscribeView),
    Suback(SubackView),
    Unsubscribe(UnsubscribeView),
    Unsuback(u16),
    Pingreq,
    Pingresp,
    Disconnect,
}

impl View for Packet {
    type V = PacketView;

    open spec fn view(&self) -> PacketView {
        match self {
            Packet::Connect(c) => PacketView::Connect(c@),
            Packet::Connack(c) => PacketView::Connack(*c),
            Packet::Publish(p) => PacketView::Publish(p@),
            Packet::Puback(p) => PacketView::Puback(p@),
            Packet::Pubrec(p) => PacketView::Pubrec(p@),
            Packet::Pubrel(p) => PacketView::Pubrel(p@),
            Packet::Pubcomp(p) => PacketView::Pubcomp(p@),
            Packet::Subscribe(s) => PacketView::Subscribe(s@),
            Packet::Suback(s) => PacketView::Suback(s@),
            Packet::Unsubscribe(s) => PacketView::Unsubscribe(s@),
            Packet::Unsuback(p) => PacketView::Unsuback(p@),
            Packet::Pingreq => PacketView::Pingreq,
            Packet::Pingresp => PacketView::Pingresp,
            Packet::Disconnect => PacketView::Disconnect,
        }
    }
}

/// Packet type, the high nibble of the first header byte.
#[derive(Debug, Copy, Clone, PartialEq, Eq, Hash, PartialOrd, Ord, Structural)]
pub enum PacketType {
    Connect,
    Connack,
    Publish,
    Puback,
    Pubrec,
    Pubrel,
    Pubcomp,
    Subscribe,
    Suback,
    Unsubscribe,
    Unsuback,
    Pingreq,
    Pingresp,
    Disconnect,
}

impl PacketView {
    /// The type of the packet.
    pub open spec fn spec_type(self) -> PacketType {
        match self {
            PacketView::Connect(_) => PacketType::Connect,
            PacketView::Connack(_) => PacketType::Connack,
            PacketView::Publish(_) => PacketType::Publish,
            PacketView::Puback(_) => PacketType::Puback,
            PacketView::Pubrec(_) => PacketType::Pubrec,
            PacketView::Pubrel(_) => PacketType::Pubrel,
            PacketView::Pubcomp(_) => PacketType::Pubcomp,
            PacketView::Subscribe(_) => PacketType::Subscribe,
            PacketView::Suback(_) => PacketType::Suback,
            PacketView::Unsubscribe(_) => PacketType::Unsubscribe,
            PacketView::Unsuback(_) => PacketType::Unsuback,
            PacketView::Pingreq => PacketType::Pingreq,
            PacketView::Pingresp => PacketType::Pingresp,
            PacketView::Disconnect => PacketType::Disconnect,
        }
    }
}

impl Packet {
    /// The type of the packet.
    pub fn get_type(&self) -> (r: PacketType)
        ensures
            r == self@.spec_type(),
    {
        match self {
            Packet::Connect(_) => PacketType::Connect,
            Packet::Connack(_) => PacketType::Connack,
            Packet::Publish(_) => PacketType::Publish,
            Packet::Puback(_) => PacketType::Puback,
            Packet::Pubrec(_) => PacketType::Pubrec,
            Packet::Pubrel(_) => PacketType::Pubrel,
            Packet::Pubcomp(_) => PacketType::Pubcomp,
            Packet::Subscribe(_) => PacketType::Subscribe,
            Packet::Suback(_) => PacketType::Suback,
            Packet::Unsubscribe(_) => PacketType::Unsubscribe,
            Packet::Unsuback(_) => PacketType::Unsuback,
            Packet::Pingreq => PacketType::Pingreq,
            Packet::Pingresp => PacketType::Pingresp,
            Packet::Disconnect => PacketType::Disconnect,
        }
    }
}

/// The first header byte of the packet: the type in the high nibble, and
/// for publish packets the dup / QoS / retain flags in the low one.
pub open spec fn packet_header_byte(pv: PacketView) -> u8 {
    match pv {
        PacketView::Connect(_) => 0x10,
        PacketView::Connack(_) => 0x20,
        PacketView::Publish(p) => publish_header_byte(p.dup, p.qospid.qos(), p.retain),
        PacketView::Puback(_) => 0x40,
        PacketView::Pubrec(_) => 0x50,
        PacketView::Pubrel(_) => 0x62,
        PacketView::Pubcomp(_) => 0x70,
        PacketView::Subscribe(_) => 0x82,
        PacketView::Suback(_) => 0x90,
        PacketView::Unsubscribe(_) => 0xA2,
        PacketView::Unsuback(_) => 0xB0,
        PacketView::Pingreq => 0xC0,
        PacketView::Pingresp => 0xD0,
        PacketView::Disconnect => 0xE0,
    }
}

/// The packet's body: everything after the fixed header.
pub open spec fn packet_body_bytes(pv: PacketView) -> Seq<u8> {
    match pv {
        PacketView::Connect(c) => connect_body_bytes(c),
        PacketView::Connack(c) => connack_body_bytes(c),
        PacketView::Publish(p) => publish_body_bytes(p),
        PacketView::Puback(p) => u16_be(p),
        PacketView::Pubrec(p) => u16_be(p),
        PacketView::Pubrel(p) => u16_be(p),
        PacketView::Pubcomp(p) => u16_be(p),
        PacketView::Subscribe(s) => subscribe_body_bytes(s),
        PacketView::Suback(s) => suback_body_bytes(s),
        PacketView::Unsubscribe(s) => unsubscribe_body_bytes(s),
        PacketView::Unsuback(p) => u16_be(p),
        PacketView::Pingreq => Seq::<u8>::empty(),
        PacketView::Pingresp => Seq::<u8>::empty(),
        PacketView::Disconnect => Seq::<u8>::empty(),
    }
}

/// Whether the packet can be put on the wire at all: every length-prefixed
/// field fits two bytes, every identifier is non-zero, and the body fits
/// the remaining-length encoding.
pub open spec fn packet_valid(pv: PacketView) -> bool {
    &&& match pv {
        PacketView::Connect(c) => connect_valid(c),
        PacketView::Connack(_) => true,
        PacketView::Publish(p) => publish_valid(p),
        PacketView::Puback(p) => p != 0,
        PacketView::Pubrec(p) => p != 0,
        PacketView::Pubrel(p) => p != 0,
        PacketView::Pubcomp(p) => p != 0,
        PacketView::Subscribe(s) => subscribe_valid(s),
        PacketView::Suback(s) => suback_valid(s),
        PacketView::Unsubscribe(s) => unsubscribe_valid(s),
        PacketView::Unsuback(p) => p != 0,
        PacketView::Pingreq => true,
        PacketView::Pingresp => true,
        PacketView::Disconnect => true,
    }
    &&& packet_body_bytes(pv).len() <= VARINT_MAX
}

/// The packet's whole wire image: the first header byte, the
/// remaining-length encoding of the body's length, then the body.
pub open spec fn packet_bytes(pv: PacketView) -> Seq<u8>
    recommends
        packet_valid(pv),
{
    seq![packet_header_byte(pv)] + varint_bytes(packet_body_bytes(pv).len() as int)
        + packet_body_bytes(pv)
}

/// What encoding the packet `pv` into a buffer means. On success exactly
/// the packet's wire image was written at the old offset and the offset
/// advanced past it; on failure the buffer is untouched, `InvalidLength`
/// says the packet cannot be put on the wire at all, and `WriteZero` says
/// the buffer is too small for it.
pub open spec fn encode_result(
    pv: PacketView,
    old_buf: Seq<u8>,
    new_buf: Seq<u8>,
    old_off: int,
    new_off: int,
    r: Result<usize, Error>,
) -> bool {
    match r {
        Ok(n) => {
            &&& packet_valid(pv)
            &&& n == packet_bytes(pv).len()
            &&& old_off + n <= old_buf.len()
            &&& wrote(old_buf, new_buf, old_off, packet_bytes(pv))
            &&& new_off == old_off + n
        },
        Err(e) => {
            &&& new_buf == old_buf
            &&& new_off == old_off
            &&& (e == Error::WriteZero || e == Error::InvalidLength)
            &&& (e == Error::WriteZero ==> packet_valid(pv) && old_off + packet_bytes(
                pv,
            ).len() > old_buf.len())
            &&& (e == Error::InvalidLength ==> !packet_valid(pv))
        },
    }
}

} // verus!
