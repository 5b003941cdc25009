use mqttrs::{
    decode_slice, encode_slice, Connack, Connect, ConnectReturnCode, Error, Packet, Pid, Protocol,
    Publish, QoS, QosPid, Suback, Subscribe, SubscribeReturnCodes, SubscribeTopic, Unsubscribe,
};

fn assert_encode_decode(packet: &Packet, written_exp: usize) {
    let mut slice = vec![0u8; 512];
    let written = encode_slice(packet, &mut slice).unwrap();
    assert_eq!(written, written_exp);
    match decode_slice(&slice[..written]) {
        Ok(Some(decoded)) => assert_eq!(&decoded, packet),
        err => panic!("Expected: Ok(Some({:?}))  got: {:?}", packet, err),
    }
}

#[test]
fn encoder_test_test_connect() {
    let packet = Packet::Connect(Connect {
        protocol: Protocol::new("MQTT", 4).unwrap(),
        keep_alive: 120,
        client_id: "imvj".to_string(),
        clean_session: true,
        last_will: None,
        username: None,
        password: None,
    });
    assert_encode_decode(&packet, 18);
}

#[test]
fn test_write_zero() {
    let packet = Packet::Connect(Connect {
        protocol: Protocol::new("MQTT", 4).unwrap(),
        keep_alive: 120,
        client_id: "imvj".to_string(),
        clean_session: true,
        last_will: None,
        username: None,
        password: None,
    });

    let mut slice = vec![0u8; 8];
    match encode_slice(&packet, &mut slice) {
        Ok(_) => panic!("Expected Error::WriteZero, as input slice is too small"),
        Err(e) => assert_eq!(e, Error::WriteZero),
    }

    let mut buf = vec![0u8; 80];
    let written = encode_slice(&packet, &mut buf).unwrap();
    assert_eq!(written, 18);
}

#[test]
fn encoder_test_test_connack() {
    let packet = Packet::Connack(Connack {
        session_present: true,
        code: ConnectReturnCode::Accepted,
    });
    assert_encode_decode(&packet, 4);
}

#[test]
fn encoder_test_test_publish() {
    let packet = Packet::Publish(Publish {
        dup: false,
        qospid: QosPid::from_u8u16(2, 10),
        retain: true,
        topic_name: "asdf".to_string(),
        payload: vec!['h' as u8, 'e' as u8, 'l' as u8, 'l' as u8, 'o' as u8],
    });
    assert_encode_decode(&packet, 15);
}

#[test]
fn test_puback() {
    let packet = Packet::Puback(Pid::try_from(19).unwrap());
    assert_encode_decode(&packet, 4);
}

#[test]
fn test_pubrec() {
    let packet = Packet::Pubrec(Pid::try_from(19).unwrap());
    assert_encode_decode(&packet, 4);
}

#[test]
fn test_pubrel() {
    let packet = Packet::Pubrel(Pid::try_from(19).unwrap());
    assert_encode_decode(&packet, 4);
}

#[test]
fn test_pubcomp() {
    let packet = Packet::Pubcomp(Pid::try_from(19).unwrap());
    assert_encode_decode(&packet, 4);
}

#[test]
fn encoder_test_test_subscribe() {
    let stopic = SubscribeTopic {
        topic_path: "a/b".to_string(),
        qos: QoS::ExactlyOnce,
    };
    let topics: Vec<SubscribeTopic> = vec![stopic];
    let packet = Packet::Subscribe(Subscribe::new(Pid::try_from(345).unwrap(), topics));
    assert_encode_decode(&packet, 10);
}

#[test]
fn encoder_test_test_suback() {
    let return_codes = vec![SubscribeReturnCodes::Success(QoS::ExactlyOnce)];
    let packet = Packet::Suback(Suback::new(Pid::try_from(12321).unwrap(), return_codes));
    assert_encode_decode(&packet, 5);
}

#[test]
fn encoder_test_test_unsubscribe() {
    let topics: Vec<String> = vec!["a/b".to_string()];
    let packet = Packet::Unsubscribe(Unsubscribe::new(Pid::try_from(12321).unwrap(), topics));
    assert_encode_decode(&packet, 9);
}

#[test]
fn test_unsuback() {
    let packet = Packet::Unsuback(Pid::try_from(19).unwrap());
    assert_encode_decode(&packet, 4);
}

#[test]
fn encoder_test_test_ping_req() {
    assert_encode_decode(&Packet::Pingreq, 2);
}

#[test]
fn encoder_test_test_ping_resp() {
    assert_encode_decode(&Packet::Pingresp, 2);
}

#[test]
fn encoder_test_test_disconnect() {
    assert_encode_decode(&Packet::Disconnect, 2);
}
