use vstd::prelude::*;
use vstd::slice::{slice_subrange, slice_to_vec};
use vstd::utf8::encode_utf8;
use crate::decoder::read_str;
use crate::errors::{res_dview, Error, ErrorView};
use crate::header::Header;
use crate::qos::{QoS, QosPid, QosPidView};
use crate::packet::{encode_result, packet_bytes, packet_header_byte, PacketView};
use crate::utils::Pid;
use crate::wire::{
    lemma_wrote_wrote, parse_str_field, parse_u16, str_field_bytes, u16_be, varint_bytes,
    varint_len, VARINT_MAX,
};

verus! {

/// Publish packet: a topic, an identifier when the delivery level demands
/// one, and an opaque payload. The payload is the only field of the
/// protocol without a length prefix: it runs to the end of the declared
/// remaining length.
#[derive(Debug, Clone, PartialEq)]
pub struct Publish {
    pub dup: bool,
    pub qospid: QosPid,
    pub retain: bool,
    pub topic_name: String,
    pub payload: Vec<u8>,
}

/// The mathematical value of a [`Publish`].
pub struct PublishView {
    pub dup: bool,
    pub qospid: QosPidView,
    pub retain: bool,
    pub topic_name: Seq<char>,
    pub payload: Seq<u8>,
}

impl View for Publish {
    type V = PublishView;

    open spec fn view(&self) -> PublishView {
        PublishView {
            dup: self.dup,
            qospid: self.qospid@,
            retain: self.retain,
            topic_name: self.topic_name@,
            payload: self.payload@,
        }
    }
}

/// The wire image of the identifier a [`QosPid`] carries: nothing for
/// at-most-once delivery, the big-endian identifier otherwise.
pub open spec fn qospid_bytes(q: QosPidView) -> Seq<u8> {
    match q {
        QosPidView::AtMostOnce => Seq::<u8>::empty(),
        QosPidView::AtLeastOnce(p) => u16_be(p),
        QosPidView::ExactlyOnce(p) => u16_be(p),
    }
}

/// The wire image of a publish packet's body: the topic, the identifier if
/// any, then the bare payload.
pub open spec fn publish_body_bytes(p: PublishView) -> Seq<u8> {
    str_field_bytes(p.topic_name) + qospid_bytes(p.qospid) + p.payload
}

/// Whether the topic fits its length prefix and a carried identifier is
/// non-zero.
pub open spec fn publish_valid(p: PublishView) -> bool {
    &&& encode_utf8(p.topic_name).len() <= 0xFFFF
    &&& p.qospid.wf()
}

/// What decoding a publish body yields, under the dup / QoS / retain flags
/// of the header: the topic, then an identifier exactly when the header's
/// QoS demands one, then the rest of the body as the payload.
pub open spec fn parse_publish(h: Header, b: Seq<u8>) -> Result<PublishView, ErrorView> {
    match parse_str_field(b) {
        Err(e) => Err(e),
        Ok((topic_name, n1)) => {
            let rest = b.skip(n1);
            if h.qos == QoS::AtMostOnce {
                Ok(
                    PublishView {
                        dup: h.dup,
                        qospid: QosPidView::AtMostOnce,
                        retain: h.retain,
                        topic_name,
                        payload: rest,
                    },
                )
            } else {
                if rest.len() < 2 {
                    Err(ErrorView::InvalidLength)
                } else {
                    let pid = parse_u16(rest);
                    if pid == 0 {
                        Err(ErrorView::InvalidPid)
                    } else {
                        Ok(
                            PublishView {
                                dup: h.dup,
                                qospid: if h.qos == QoS::AtLeastOnce {
                                    QosPidView::AtLeastOnce(pid as u16)
                                } else {
                                    QosPidView::ExactlyOnce(pid as u16)
                                },
                                retain: h.retain,
                                topic_name,
                                payload: rest.skip(2),
                            },
                        )
                    }
                }
            }
        },
    }
}

impl Publish {
    /// Decodes a publish body lying between `*offset` and `payload_end`,
    /// under the header's dup / QoS / retain flags.
    pub(crate) fn from_buffer(
        header: &Header,
        buf: &[u8],
        offset: &mut usize,
        payload_end: usize,
    ) -> (r: Result<Publish, Error>)
        requires
            *old(offset) <= payload_end <= buf@.len(),
        ensures
            res_dview(r) == parse_publish(
                *header,
                buf@.subrange(*old(offset) as int, payload_end as int),
            ),
            r is Ok ==> *final(offset) == payload_end,
    {
        let start = *offset;
        let ghost b = buf@.subrange(start as int, payload_end as int);
        let topic_name = match read_str(buf, offset, payload_end) {
            Ok(s) => s,
            Err(e) => {
                return Err(e);
            },
        };
        let ghost n1 = *offset - start;
        let ghost rest = b.skip(n1 as int);
        proof {
            assert(rest =~= buf@.subrange(*offset as int, payload_end as int));
        }
        let qospid = match header.qos {
            QoS::AtMostOnce => QosPid::AtMostOnce,
            QoS::AtLeastOnce => {
                if payload_end - *offset < 2 {
                    return Err(Error::InvalidLength);
                }
                proof {
                    assert(rest[0] == buf@[*offset as int] && rest[1] == buf@[*offset as int + 1]);
                }
                match Pid::from_buffer(buf, offset) {
                    Ok(p) => QosPid::AtLeastOnce(p),
                    Err(e) => {
                        return Err(e);
                    },
                }
            },
            QoS::ExactlyOnce => {
                if payload_end - *offset < 2 {
                    return Err(Error::InvalidLength);
                }
                proof {
                    assert(rest[0] == buf@[*offset as int] && rest[1] == buf@[*offset as int + 1]);
                }
                match Pid::from_buffer(buf, offset) {
                    Ok(p) => QosPid::ExactlyOnce(p),
                    Err(e) => {
                        return Err(e);
                    },
                }
            },
        };
        let payload = slice_to_vec(slice_subrange(buf, *offset, payload_end));
        proof {
            if header.qos == QoS::AtMostOnce {
                assert(payload@ =~= rest);
            } else {
                assert(payload@ =~= rest.skip(2));
            }
        }
        *offset = payload_end;
        Ok(Publish { dup: header.dup, qospid, retain: header.retain, topic_name, payload })
    }
}

impl Publish {
    /// Encodes the whole publish packet at `*offset`.
    #[verifier::spinoff_prover]
    #[verifier::rlimit(100)]
    pub(crate) fn to_buffer(&self, buf: &mut Vec<u8>, offset: &mut usize) -> (r: Result<
        usize,
        Error,
    >)
        ensures
            encode_result(
                PacketView::Publish(self@),
                old(buf)@,
                final(buf)@,
                *old(offset) as int,
                *final(offset) as int,
                r,
            ),
    {
        let ghost pv = PacketView::Publish(self@);
        let ghost body = publish_body_bytes(self@);
        match &self.qospid {
            QosPid::AtMostOnce => {},
            QosPid::AtLeastOnce(p) => {
                proof {
                    use_type_invariant(*p);
                }
            },
            QosPid::ExactlyOnce(p) => {
                proof {
                    use_type_invariant(*p);
                }
            },
        }

        // Validity and the body length.
        let topic_len = self.topic_name.as_str().as_bytes().len();
        if topic_len > 0xFFFF {
            return Err(Error::InvalidLength);
        }
        let pid_len: usize = match self.qospid {
            QosPid::AtMostOnce => 0,
            QosPid::AtLeastOnce(_) => 2,
            QosPid::ExactlyOnce(_) => 2,
        };
        if self.payload.len() > VARINT_MAX {
            return Err(Error::InvalidLength);
        }
        let length = 2 + topic_len + pid_len + self.payload.len();
        proof {
            assert(length == body.len());
        }
        if length > VARINT_MAX {
            return Err(Error::InvalidLength);
        }

        // Capacity for the whole packet.
        let width: usize = if length < 128 {
            1
        } else if length < 16384 {
            2
        } else if length < 2097152 {
            3
        } else {
            4
        };
        proof {
            assert(width == varint_len(length as int));
            assert(packet_bytes(pv).len() == 1 + width + length);
        }
        match crate::encoder::check_remaining(buf, *offset, 1 + width + length) {
            Ok(u) => u,
            Err(e) => {
                return Err(e);
            },
        };

        // The first header byte carries the dup / QoS / retain flags.
        let base: u8 = match self.qospid {
            QosPid::AtMostOnce => 0x30,
            QosPid::AtLeastOnce(_) => 0x32,
            QosPid::ExactlyOnce(_) => 0x34,
        };
        let hdr: u8 = base + (if self.dup {
            8
        } else {
            0
        }) + (if self.retain {
            1
        } else {
            0
        });
        proof {
            assert(hdr == packet_header_byte(pv));
        }

        // Write the packet.
        let ghost buf0 = buf@;
        let ghost at = *old(offset) as int;
        crate::encoder::write_u8(buf, offset, hdr);
        let ghost b1 = buf@;
        let vr = crate::encoder::write_varint(buf, offset, length);
        match vr {
            Ok(_) => (),
            Err(_) => {
                proof {
                    assert(false);
                }
            },
        }
        proof {
            lemma_wrote_wrote(buf0, b1, buf@, at, seq![hdr], varint_bytes(length as int));
        }
        let ghost acc1 = seq![hdr] + varint_bytes(length as int);
        let ghost b2 = buf@;
        crate::encoder::write_string(buf, offset, self.topic_name.as_str());
        proof {
            lemma_wrote_wrote(buf0, b2, buf@, at, acc1, str_field_bytes(self.topic_name@));
        }
        let ghost acc2 = acc1 + str_field_bytes(self.topic_name@);
        match self.qospid {
            QosPid::AtMostOnce => {
                proof {
                    assert(acc2 + qospid_bytes(self@.qospid) =~= acc2);
                }
            },
            QosPid::AtLeastOnce(pid) => {
                let ghost b3 = buf@;
                pid.to_buffer(buf, offset);
                proof {
                    lemma_wrote_wrote(buf0, b3, buf@, at, acc2, u16_be(pid@));
                }
            },
            QosPid::ExactlyOnce(pid) => {
                let ghost b3 = buf@;
                pid.to_buffer(buf, offset);
                proof {
                    lemma_wrote_wrote(buf0, b3, buf@, at, acc2, u16_be(pid@));
                }
            },
        }
        let ghost acc3 = acc2 + qospid_bytes(self@.qospid);
        let ghost b4 = buf@;
        crate::encoder::write_raw(buf, offset, self.payload.as_slice());
        proof {
            lemma_wrote_wrote(buf0, b4, buf@, at, acc3, self.payload@);
            assert(acc3 + self.payload@ =~= packet_bytes(pv));
        }
        Ok(1 + width + length)
    }
}

/// Decoding a publish body that was just encoded, under the header its
/// flags produce, recovers the packet.
pub proof fn lemma_parse_publish_rt(p: PublishView, h: Header)
    requires
        publish_valid(p),
        h.dup == p.dup,
        h.retain == p.retain,
        h.qos == p.qospid.qos(),
    ensures
        parse_publish(h, publish_body_bytes(p)) == Ok::<PublishView, ErrorView>(p),
{
    let b = publish_body_bytes(p);
    let tail = qospid_bytes(p.qospid) + p.payload;
    assert(b =~= str_field_bytes(p.topic_name) + tail);
    crate::wire::lemma_parse_str_field(p.topic_name, tail);
    let n1 = 2 + encode_utf8(p.topic_name).len() as int;
    let rest = b.skip(n1);
    assert(rest =~= tail);
    match p.qospid {
        QosPidView::AtMostOnce => {
            assert(rest =~= p.payload);
        },
        QosPidView::AtLeastOnce(pid) => {
            assert(rest.len() >= 2);
            assert(rest[0] == (pid / 256) as u8);
            assert(rest[1] == (pid % 256) as u8);
            assert(parse_u16(rest) == pid);
            assert(rest.skip(2) =~= p.payload);
        },
        QosPidView::ExactlyOnce(pid) => {
            assert(rest.len() >= 2);
            assert(rest[0] == (pid / 256) as u8);
            assert(rest[1] == (pid % 256) as u8);
            assert(parse_u16(rest) == pid);
            assert(rest.skip(2) =~= p.payload);
        },
    }
}

/// A decoded publish body re-encodes to exactly the bytes it was decoded
/// from, and its fields fit their prefixes.
pub proof fn lemma_parse_publish_sound(h: Header, b: Seq<u8>)
    requires
        parse_publish(h, b) is Ok,
    ensures
        publish_valid(parse_publish(h, b)->Ok_0),
        publish_body_bytes(parse_publish(h, b)->Ok_0) == b,
{
    let p = parse_publish(h, b)->Ok_0;
    crate::wire::lemma_parse_str_field_sound(b);
    let n1 = parse_str_field(b)->Ok_0.1;
    let rest = b.skip(n1);
    if h.qos == QoS::AtMostOnce {
        assert(publish_body_bytes(p) =~= b.take(n1) + rest);
        assert(b.take(n1) + rest =~= b);
    } else {
        let pid = parse_u16(rest);
        assert(rest[0] * 256 + rest[1] == pid);
        assert(pid / 256 == rest[0] && pid % 256 == rest[1]) by (nonlinear_arith)
            requires
                pid == rest[0] * 256 + rest[1],
                0 <= rest[0] < 256,
                0 <= rest[1] < 256,
        ;
        assert(qospid_bytes(p.qospid) =~= seq![rest[0], rest[1]]);
        assert(publish_body_bytes(p) =~= b.take(n1) + (seq![rest[0], rest[1]] + rest.skip(2)));
        assert(b.take(n1) + (seq![rest[0], rest[1]] + rest.skip(2)) =~= b);
    }
}

} // verus!
