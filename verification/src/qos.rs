use vstd::prelude::*;
use crate::errors::{res_view, Error, ErrorView};
use crate::utils::Pid;

verus! {

/// Packet delivery quality-of-service level, encoded in two bits on the
/// wire. The bit pattern 3 is always illegal.
#[derive(Debug, Clone, Copy, PartialEq, Eq, Structural)]
pub enum QoS {
    /// QoS 0: no acknowledgement needed.
    AtMostOnce,
    /// QoS 1: one acknowledgement needed.
    AtLeastOnce,
    /// QoS 2: two acknowledgements needed.
    ExactlyOnce,
}

/// Which level a two-bit wire value denotes; values above 2 are illegal.
pub open spec fn spec_qos_from_bits(byte: u8) -> Result<QoS, ErrorView> {
    if byte == 0 {
        Ok(QoS::AtMostOnce)
    } else if byte == 1 {
        Ok(QoS::AtLeastOnce)
    } else if byte == 2 {
        Ok(QoS::ExactlyOnce)
    } else {
        Err(ErrorView::InvalidQos(byte))
    }
}

impl QoS {
    /// The two-bit wire value of this level.
    pub open spec fn spec_bits(self) -> u8 {
        match self {
            QoS::AtMostOnce => 0,
            QoS::AtLeastOnce => 1,
            QoS::ExactlyOnce => 2,
        }
    }

    pub(crate) fn to_u8(&self) -> (r: u8)
        ensures
            r == self.spec_bits(),
    {
        match *self {
            QoS::AtMostOnce => 0,
            QoS::AtLeastOnce => 1,
            QoS::ExactlyOnce => 2,
        }
    }

    pub(crate) fn from_u8(byte: u8) -> (r: Result<QoS, Error>)
        ensures
            res_view(r) == spec_qos_from_bits(byte),
    {
        match byte {
            0 => Ok(QoS::AtMostOnce),
            1 => Ok(QoS::AtLeastOnce),
            2 => Ok(QoS::ExactlyOnce),
            n => Err(Error::InvalidQos(n)),
        }
    }
}

/// A [`QoS`] together with the packet identifier it requires, as carried by
/// a publish packet: at-most-once delivery structurally carries no
/// identifier, the two acknowledged levels structurally carry one.
#[derive(Debug, Clone, Copy, PartialEq, Eq, Structural)]
pub enum QosPid {
    AtMostOnce,
    AtLeastOnce(Pid),
    ExactlyOnce(Pid),
}

/// The mathematical value of a [`QosPid`]: the identifier is abstracted to
/// its non-zero 16-bit value.
pub enum QosPidView {
    AtMostOnce,
    AtLeastOnce(u16),
    ExactlyOnce(u16),
}

impl View for QosPid {
    type V = QosPidView;

    open spec fn view(&self) -> QosPidView {
        match self {
            QosPid::AtMostOnce => QosPidView::AtMostOnce,
            QosPid::AtLeastOnce(p) => QosPidView::AtLeastOnce(p@),
            QosPid::ExactlyOnce(p) => QosPidView::ExactlyOnce(p@),
        }
    }
}

impl QosPidView {
    /// The delivery level, without the identifier.
    pub open spec fn qos(self) -> QoS {
        match self {
            QosPidView::AtMostOnce => QoS::AtMostOnce,
            QosPidView::AtLeastOnce(_) => QoS::AtLeastOnce,
            QosPidView::ExactlyOnce(_) => QoS::ExactlyOnce,
        }
    }

    /// Whether the identifier, if one is carried, is non-zero.
    pub open spec fn wf(self) -> bool {
        match self {
            QosPidView::AtMostOnce => true,
            QosPidView::AtLeastOnce(p) => p != 0,
            QosPidView::ExactlyOnce(p) => p != 0,
        }
    }
}

impl QosPid {
    /// Pairs a level given as its wire bits with an identifier, enforcing
    /// the structural coupling: level 0 discards the identifier, levels 1
    /// and 2 require it to be non-zero.
    pub fn from_u8u16(qos: u8, pid: u16) -> (r: QosPid)
        requires
            qos <= 2,
            qos != 0 ==> pid != 0,
        ensures
            r@.qos().spec_bits() == qos,
            qos != 0 ==> (match r@ {
                QosPidView::AtMostOnce => false,
                QosPidView::AtLeastOnce(p) => p == pid,
                QosPidView::ExactlyOnce(p) => p == pid,
            }),
    {
        match qos {
            0 => QosPid::AtMostOnce,
            1 => QosPid::AtLeastOnce(Pid::try_from(pid).unwrap()),
            _ => QosPid::ExactlyOnce(Pid::try_from(pid).unwrap()),
        }
    }

    /// Extract the [`Pid`], if any.
    pub fn pid(self) -> (r: Option<Pid>)
        ensures
            match self@ {
                QosPidView::AtMostOnce => r is None,
                QosPidView::AtLeastOnce(p) => r matches Some(q) && q@ == p,
                QosPidView::ExactlyOnce(p) => r matches Some(q) && q@ == p,
            },
    {
        match self {
            QosPid::AtMostOnce => None,
            QosPid::AtLeastOnce(p) => Some(p),
            QosPid::ExactlyOnce(p) => Some(p),
        }
    }

    /// Extract the [`QoS`].
    pub fn qos(self) -> (r: QoS)
        ensures
            r == self@.qos(),
    {
        match self {
            QosPid::AtMostOnce => QoS::AtMostOnce,
            QosPid::AtLeastOnce(_) => QoS::AtLeastOnce,
            QosPid::ExactlyOnce(_) => QoS::ExactlyOnce,
        }
    }
}

} // verus!
