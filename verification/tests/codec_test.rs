use mqttrs::{
    check, clone_packet, decode_slice, decode_slice_with_len, encode_slice, read_varint,
    write_varint, Connect, Error, Header, Packet, Protocol, Publish, QoS, QosPid,
};

/// The remaining-length boundaries: each value encodes to the expected
/// byte count and reads back exactly; the first value past the range is
/// rejected.
#[test]
fn varint_boundaries() {
    let cases: Vec<(usize, usize)> = vec![
        (0, 1),
        (127, 1),
        (128, 2),
        (16383, 2),
        (16384, 3),
        (2097151, 3),
        (2097152, 4),
        (268435455, 4),
    ];
    for (value, width_exp) in cases {
        let mut buf = vec![0u8; 4];
        let mut offset: usize = 0;
        let width = write_varint(&mut buf, &mut offset, value).unwrap();
        assert_eq!(width, width_exp, "width of {}", value);
        assert_eq!(offset, width);
        assert_eq!(read_varint(&buf[..width], 0), Ok(Some((value, width))), "{}", value);
    }
    let mut buf = vec![0u8; 4];
    let mut offset: usize = 0;
    assert_eq!(write_varint(&mut buf, &mut offset, 268435456), Err(Error::InvalidLength));
}

/// An unterminated remaining-length encoding is rejected, an incomplete
/// one asks for more bytes.
#[test]
fn varint_incomplete_and_too_long() {
    assert_eq!(read_varint(&[], 0), Ok(None));
    assert_eq!(read_varint(&[0x80], 0), Ok(None));
    assert_eq!(read_varint(&[0x80, 0x80, 0x80], 0), Ok(None));
    assert_eq!(read_varint(&[0x80, 0x80, 0x80, 0x80], 0), Err(Error::InvalidHeader));
}

/// Every one of the 256 possible first header bytes is classified: the
/// legal (type, flags) pairs decode, the reserved publish QoS pattern
/// gives `InvalidQos(3)`, everything else `InvalidHeader`.
#[test]
fn header_byte_exhaustive() {
    for n in 0..=255u8 {
        let t = n >> 4;
        let flags = n & 0x0F;
        let r = Header::new(n);
        if t == 3 {
            if flags & 0b110 == 0b110 {
                assert_eq!(r, Err(Error::InvalidQos(3)), "{:08b}", n);
            } else {
                let h = r.unwrap();
                assert_eq!(h.dup, flags & 8 != 0);
                assert_eq!(h.retain, flags & 1 != 0);
            }
        } else if t == 0 || t == 15 {
            assert_eq!(r, Err(Error::InvalidHeader), "{:08b}", n);
        } else if t == 6 || t == 8 || t == 10 {
            assert_eq!(r.is_ok(), flags == 2, "{:08b}", n);
        } else {
            assert_eq!(r.is_ok(), flags == 0, "{:08b}", n);
        }
    }
}

/// Encoding the documentation's connect packet gives its exact wire
/// image, byte for byte.
#[test]
fn connect_wire_image() {
    let pkt = Packet::Connect(Connect {
        protocol: Protocol::MQTT311,
        keep_alive: 30,
        client_id: "doc_client".to_string(),
        clean_session: true,
        last_will: None,
        username: None,
        password: None,
    });
    let mut buf = vec![0u8; 64];
    let len = encode_slice(&pkt, &mut buf).unwrap();
    let exp: Vec<u8> = vec![
        0x10, 22, // header byte, remaining length
        0x00, 0x04, 'M' as u8, 'Q' as u8, 'T' as u8, 'T' as u8, 0x04, // protocol
        0x02, // connect flags: clean session
        0x00, 0x1E, // keep alive = 30
        0x00, 0x0A, // client id length = 10
        'd' as u8, 'o' as u8, 'c' as u8, '_' as u8, 'c' as u8, 'l' as u8, 'i' as u8, 'e' as u8,
        'n' as u8, 't' as u8,
    ];
    assert_eq!(len, exp.len());
    assert_eq!(&buf[..len], exp.as_slice());
    assert_eq!(Ok(Some(pkt)), decode_slice(&buf[..len]));
}

/// Decoding the documentation's publish bytes gives the expected fields
/// and consumed length.
#[test]
fn publish_wire_image() {
    let data: &[u8] = &[
        0x30, 10, 0, 3, 'a' as u8, '/' as u8, 'b' as u8, 'h' as u8, 'e' as u8, 'l' as u8,
        'l' as u8, 'o' as u8,
    ];
    match decode_slice_with_len(data) {
        Ok(Some((consumed, Packet::Publish(p)))) => {
            assert_eq!(consumed, 12);
            assert_eq!(p.dup, false);
            assert_eq!(p.retain, false);
            assert_eq!(p.qospid, QosPid::AtMostOnce);
            assert_eq!(p.topic_name, "a/b");
            assert_eq!(p.payload, b"hello".to_vec());
        }
        other => panic!("Failed decode: {:?}", other),
    }
}

/// Feeding any strict prefix of an encoded packet reports "not yet
/// complete"; the full buffer decodes with every byte consumed.
#[test]
fn partial_reads_are_not_errors() {
    let pkt = Packet::Publish(Publish {
        dup: false,
        qospid: QosPid::AtLeastOnce(mqttrs::Pid::try_from(99).unwrap()),
        retain: false,
        topic_name: "a/b".to_string(),
        payload: b"hello".to_vec(),
    });
    let mut buf = vec![0u8; 64];
    let len = encode_slice(&pkt, &mut buf).unwrap();
    for n in 0..len {
        assert_eq!(Ok(None), decode_slice(&buf[..n]), "prefix of {} bytes", n);
        assert!(!check(&buf[..n]));
    }
    assert!(check(&buf[..len]));
    assert_eq!(Ok(Some((len, pkt))), decode_slice_with_len(&buf[..len]));
}

/// Each error kind comes from the input that deserves it.
#[test]
fn error_variants() {
    // Type nibble 0 is illegal.
    assert_eq!(Err(Error::InvalidHeader), decode_slice(&[0u8, 0]));
    // The reserved publish QoS bit pattern.
    assert_eq!(Err(Error::InvalidQos(3)), decode_slice(&[0x36u8, 0]));
    // A connack return code above 5.
    assert_eq!(Err(Error::InvalidConnectReturnCode(6)), decode_slice(&[0x20u8, 2, 0, 6]));
    // A zero packet identifier.
    assert_eq!(Err(Error::InvalidPid), decode_slice(&[0x40u8, 2, 0, 0]));
    // An unknown protocol name/level pair.
    let bad_protocol: &[u8] = &[
        0x10, 10, 0x00, 0x04, 'M' as u8, 'Q' as u8, 'T' as u8, 'T' as u8, 0x05, 0x02, 0x00,
        0x1E,
    ];
    assert_eq!(
        Err(Error::InvalidProtocol("MQTT".to_string(), 5)),
        decode_slice(bad_protocol)
    );
    // A ping packet must have an empty body.
    assert_eq!(Err(Error::InvalidLength), decode_slice(&[0xC0u8, 1, 0]));
    // A bare-identifier body longer than two bytes.
    assert_eq!(Err(Error::InvalidLength), decode_slice(&[0x40u8, 3, 0, 10, 0]));
}

/// Framing without decoding: a whole packet is copied byte for byte, an
/// incomplete one is not touched, a too-small destination is refused.
#[test]
fn clone_packet_framing() {
    let data: &[u8] = &[0x30, 4, 0, 2, 'a' as u8, 'b' as u8, 0xD0, 0];
    let mut out = vec![0u8; 8];
    assert_eq!(clone_packet(data, &mut out).unwrap(), 6);
    assert_eq!(&out[..6], &data[..6]);

    let mut out_small = vec![0u8; 3];
    assert_eq!(clone_packet(data, &mut out_small), Err(Error::WriteZero));

    let mut out2 = vec![0u8; 8];
    assert_eq!(clone_packet(&data[..3], &mut out2).unwrap(), 0);
    assert_eq!(clone_packet(&[], &mut out2).unwrap(), 0);

    assert!(check(data));
    assert!(!check(&data[..3]));
}

/// The MQIsdp name/level pair is recognized and round-trips.
#[test]
fn mqisdp_round_trip() {
    let pkt = Packet::Connect(Connect {
        protocol: Protocol::new("MQIsdp", 3).unwrap(),
        keep_alive: 60,
        client_id: "c".to_string(),
        clean_session: false,
        last_will: None,
        username: None,
        password: None,
    });
    let mut buf = vec![0u8; 64];
    let len = encode_slice(&pkt, &mut buf).unwrap();
    assert_eq!(Ok(Some(pkt)), decode_slice(&buf[..len]));
}

/// A field longer than its two-byte length prefix cannot be encoded.
#[test]
fn oversized_field_is_rejected() {
    let pkt = Packet::Publish(Publish {
        dup: false,
        qospid: QosPid::AtMostOnce,
        retain: false,
        topic_name: "t".repeat(65536),
        payload: vec![],
    });
    let mut buf = vec![0u8; 70000];
    assert_eq!(encode_slice(&pkt, &mut buf), Err(Error::InvalidLength));
}
