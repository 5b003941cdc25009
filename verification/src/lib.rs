//! A codec for MQTT 3.1.1 control packets.
//!
//! The library translates between raw bytes and structured packet values.
//! Decoding attempts to parse exactly one packet from the front of a byte
//! region, distinguishing "not enough bytes yet" (`Ok(None)`) from a
//! structurally invalid packet (`Err`). Encoding writes a packet's exact
//! wire image into a caller-supplied buffer.

mod check;
mod connect;
mod decoder;
mod encoder;
mod errors;
mod header;
mod packet;
mod publish;
mod qos;
mod subscribe;
mod utils;
mod wire;

pub use crate::connect::{Connack, Connect, ConnectReturnCode, LastWill, Protocol};
pub use crate::check::check;
pub use crate::decoder::{clone_packet, decode_slice, decode_slice_with_len, read_header, read_varint};
pub use crate::encoder::{encode_slice, write_varint};
pub use crate::errors::Error;
pub use crate::header::Header;
pub use crate::packet::{Packet, PacketType};
pub use crate::publish::Publish;
pub use crate::qos::{QoS, QosPid};
pub use crate::subscribe::{Suback, Subscribe, SubscribeReturnCodes, SubscribeTopic, Unsubscribe};
pub use crate::utils::Pid;
