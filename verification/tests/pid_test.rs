use mqttrs::{Error, Pid, QoS, QosPid};

#[test]
fn pid_add_sub() {
    let t: Vec<(u16, u16, u16, u16)> = vec![
        (2, 1, 1, 3),
        (100, 1, 99, 101),
        (1, 1, core::u16::MAX, 2),
        (1, 2, core::u16::MAX - 1, 3),
        (1, 3, core::u16::MAX - 2, 4),
        (core::u16::MAX, 1, core::u16::MAX - 1, 1),
        (core::u16::MAX, 2, core::u16::MAX - 2, 2),
        (10, core::u16::MAX, 10, 10),
        (10, 0, 10, 10),
        (1, 0, 1, 1),
        (core::u16::MAX, 0, core::u16::MAX, core::u16::MAX),
    ];
    for (cur, d, prev, next) in t {
        let sub = Pid::try_from(cur).unwrap().sub(d);
        let add = Pid::try_from(cur).unwrap().add(d);
        assert_eq!(prev, sub.get(), "{} - {} should be {}", cur, d, prev);
        assert_eq!(next, add.get(), "{} + {} should be {}", cur, d, next);
    }
}

#[test]
fn pid_zero_is_rejected() {
    assert_eq!(Pid::try_from(0), Err(Error::InvalidPid));
    assert!(Pid::try_from(1).is_ok());
    assert!(Pid::try_from(65535).is_ok());
}

#[test]
fn pid_wrapping_skips_zero() {
    // Walk across both wrap points in single steps: the identifier value
    // is never zero.
    let mut p = Pid::try_from(65530).unwrap();
    for _ in 0..12 {
        p = p.add(1);
        assert_ne!(p.get(), 0);
    }
    assert_eq!(p.get(), 7);
    for _ in 0..12 {
        p = p.sub(1);
        assert_ne!(p.get(), 0);
    }
    assert_eq!(p.get(), 65530);
}

#[test]
fn pid_new_and_default() {
    assert_eq!(Pid::new().get(), 1);
    assert_eq!(Pid::default().get(), 1);
}

#[test]
fn qospid_accessors() {
    assert_eq!(QosPid::AtMostOnce.qos(), QoS::AtMostOnce);
    assert_eq!(QosPid::AtMostOnce.pid(), None);
    let p = Pid::try_from(7).unwrap();
    assert_eq!(QosPid::AtLeastOnce(p).qos(), QoS::AtLeastOnce);
    assert_eq!(QosPid::AtLeastOnce(p).pid(), Some(p));
    assert_eq!(QosPid::ExactlyOnce(p).qos(), QoS::ExactlyOnce);
    assert_eq!(QosPid::ExactlyOnce(p).pid(), Some(p));
    assert_eq!(QosPid::from_u8u16(1, 7), QosPid::AtLeastOnce(p));
}
