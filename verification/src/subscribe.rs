use vstd::prelude::*;
use vstd::utf8::encode_utf8;
use crate::decoder::read_str;
use crate::errors::{res_dview, res_view, Error, ErrorView};
use crate::qos::{spec_qos_from_bits, QoS};
use crate::encoder::{write_string, write_u8};
use crate::packet::{encode_result, packet_bytes, packet_valid, PacketView};
use crate::utils::Pid;
use crate::wire::{
    lemma_wrote_wrote, parse_str_field, parse_u16, str_field_bytes, u16_be, varint_bytes,
    varint_len, wrote, VARINT_MAX,
};

verus! {

// ---------------------------------------------------------------------------
// Subscribe topics and return codes
// ---------------------------------------------------------------------------

/// One topic filter of a [`Subscribe`] packet, with the requested level.
#[derive(Debug, Clone, PartialEq)]
pub struct SubscribeTopic {
    pub topic_path: String,
    pub qos: QoS,
}

/// The mathematical value of a [`SubscribeTopic`].
pub struct SubscribeTopicView {
    pub topic_path: Seq<char>,
    pub qos: QoS,
}

impl View for SubscribeTopic {
    type V = SubscribeTopicView;

    open spec fn view(&self) -> SubscribeTopicView {
        SubscribeTopicView { topic_path: self.topic_path@, qos: self.qos }
    }
}

impl SubscribeTopic {
    /// Reads one subscribe entry at `*offset`, bounded by `payload_end`:
    /// the topic filter, then the requested level's byte.
    pub(crate) fn from_buffer(buf: &[u8], offset: &mut usize, payload_end: usize) -> (r: Result<
        SubscribeTopic,
        Error,
    >)
        requires
            *old(offset) <= payload_end <= buf@.len(),
        ensures
            ({
                let b = buf@.subrange(*old(offset) as int, payload_end as int);
                match r {
                    Ok(t) => parse_sub_topic(b) == Ok::<_, ErrorView>(
                        (t@, (*final(offset) - *old(offset)) as int),
                    ) && *old(offset) < *final(offset) <= payload_end,
                    Err(e) => parse_sub_topic(b) == Err::<(SubscribeTopicView, int), _>(e@),
                }
            }),
    {
        let start = *offset;
        let ghost b = buf@.subrange(start as int, payload_end as int);
        let topic_path = match read_str(buf, offset, payload_end) {
            Ok(s) => s,
            Err(e) => {
                return Err(e);
            },
        };
        let ghost n = *offset - start;
        if payload_end - *offset < 1 {
            return Err(Error::InvalidLength);
        }
        proof {
            assert(b[n as int] == buf@[*offset as int]);
        }
        let qos = match QoS::from_u8(buf[*offset]) {
            Ok(q) => q,
            Err(e) => {
                return Err(e);
            },
        };
        *offset = *offset + 1;
        Ok(SubscribeTopic { topic_path, qos })
    }
}

/// One return code of a [`Suback`] packet: a granted level, or the
/// failure byte 0x80.
#[derive(Debug, Clone, Copy, PartialEq, Eq, Structural)]
pub enum SubscribeReturnCodes {
    Success(QoS),
    Failure,
}

/// The return code's wire byte.
pub open spec fn sub_return_code_byte(c: SubscribeReturnCodes) -> u8 {
    match c {
        SubscribeReturnCodes::Success(q) => q.spec_bits(),
        SubscribeReturnCodes::Failure => 0x80,
    }
}

/// Which return code a byte denotes: 0x80 is failure, 0 to 2 a granted
/// level, anything else illegal.
pub open spec fn spec_sub_return_code_from(byte: u8) -> Result<SubscribeReturnCodes, ErrorView> {
    if byte == 0x80 {
        Ok(SubscribeReturnCodes::Failure)
    } else {
        match spec_qos_from_bits(byte) {
            Err(e) => Err(e),
            Ok(q) => Ok(SubscribeReturnCodes::Success(q)),
        }
    }
}

impl SubscribeReturnCodes {
    pub(crate) fn to_u8(&self) -> (r: u8)
        ensures
            r == sub_return_code_byte(*self),
    {
        match *self {
            SubscribeReturnCodes::Failure => 0x80,
            SubscribeReturnCodes::Success(qos) => qos.to_u8(),
        }
    }

    /// Reads one return-code byte at `*offset` and advances past it.
    pub(crate) fn from_buffer(buf: &[u8], offset: &mut usize) -> (r: Result<
        SubscribeReturnCodes,
        Error,
    >)
        requires
            *old(offset) < buf@.len(),
        ensures
            res_view(r) == spec_sub_return_code_from(buf@[*old(offset) as int]),
            *final(offset) == *old(offset) + 1,
    {
        let code = buf[*offset];
        *offset = *offset + 1;
        if code == 0x80 {
            Ok(SubscribeReturnCodes::Failure)
        } else {
            match QoS::from_u8(code) {
                Ok(q) => Ok(SubscribeReturnCodes::Success(q)),
                Err(e) => Err(e),
            }
        }
    }
}

// ---------------------------------------------------------------------------
// The three packets
// ---------------------------------------------------------------------------

/// Subscribe packet: an identifier, then topic filters with requested
/// levels until the remaining length is exhausted.
#[derive(Debug, Clone, PartialEq)]
pub struct Subscribe {
    pub pid: Pid,
    pub topics: Vec<SubscribeTopic>,
}

/// Suback packet: an identifier, then return codes until the remaining
/// length is exhausted.
#[derive(Debug, Clone, PartialEq)]
pub struct Suback {
    pub pid: Pid,
    pub return_codes: Vec<SubscribeReturnCodes>,
}

/// Unsubscribe packet: an identifier, then topic filters until the
/// remaining length is exhausted.
#[derive(Debug, Clone, PartialEq)]
pub struct Unsubscribe {
    pub pid: Pid,
    pub topics: Vec<String>,
}

/// The mathematical value of a [`Subscribe`].
pub struct SubscribeView {
    pub pid: u16,
    pub topics: Seq<SubscribeTopicView>,
}

/// The mathematical value of a [`Suback`].
pub struct SubackView {
    pub pid: u16,
    pub return_codes: Seq<SubscribeReturnCodes>,
}

/// The mathematical value of an [`Unsubscribe`].
pub struct UnsubscribeView {
    pub pid: u16,
    pub topics: Seq<Seq<char>>,
}

/// The views of a sequence of subscribe entries, element by element.
pub open spec fn topics_view(ts: Seq<SubscribeTopic>) -> Seq<SubscribeTopicView> {
    Seq::new(ts.len(), |i: int| ts[i]@)
}

/// The character sequences of a sequence of strings, element by element.
pub open spec fn strings_view(ts: Seq<String>) -> Seq<Seq<char>> {
    Seq::new(ts.len(), |i: int| ts[i]@)
}

impl View for Subscribe {
    type V = SubscribeView;

    open spec fn view(&self) -> SubscribeView {
        SubscribeView { pid: self.pid@, topics: topics_view(self.topics@) }
    }
}

impl View for Suback {
    type V = SubackView;

    open spec fn view(&self) -> SubackView {
        SubackView { pid: self.pid@, return_codes: self.return_codes@ }
    }
}

impl View for Unsubscribe {
    type V = UnsubscribeView;

    open spec fn view(&self) -> UnsubscribeView {
        UnsubscribeView { pid: self.pid@, topics: strings_view(self.topics@) }
    }
}

impl Subscribe {
    pub fn new(pid: Pid, topics: Vec<SubscribeTopic>) -> (r: Self)
        ensures
            r@.pid == pid@,
            r@.topics == topics_view(topics@),
    {
        Subscribe { pid, topics }
    }
}

impl Suback {
    pub fn new(pid: Pid, return_codes: Vec<SubscribeReturnCodes>) -> (r: Self)
        ensures
            r@.pid == pid@,
            r@.return_codes == return_codes@,
    {
        Suback { pid, return_codes }
    }
}

impl Unsubscribe {
    pub fn new(pid: Pid, topics: Vec<String>) -> (r: Self)
        ensures
            r@.pid == pid@,
            r@.topics == strings_view(topics@),
    {
        Unsubscribe { pid, topics }
    }
}

// ---------------------------------------------------------------------------
// Wire images
// ---------------------------------------------------------------------------

/// The wire image of one subscribe entry: the topic filter, then the
/// requested level's byte.
pub open spec fn sub_topic_bytes(t: SubscribeTopicView) -> Seq<u8> {
    str_field_bytes(t.topic_path) + seq![t.qos.spec_bits()]
}

/// The wire image of a subscribe packet's entries, in order.
pub open spec fn sub_topics_bytes(ts: Seq<SubscribeTopicView>) -> Seq<u8>
    decreases ts.len(),
{
    if ts.len() == 0 {
        Seq::<u8>::empty()
    } else {
        sub_topic_bytes(ts[0]) + sub_topics_bytes(ts.drop_first())
    }
}

/// The wire image of a suback packet's return codes, one byte each.
pub open spec fn suback_codes_bytes(cs: Seq<SubscribeReturnCodes>) -> Seq<u8> {
    Seq::new(cs.len(), |i: int| sub_return_code_byte(cs[i]))
}

/// The wire image of an unsubscribe packet's topic filters, in order.
pub open spec fn unsub_topics_bytes(ts: Seq<Seq<char>>) -> Seq<u8>
    decreases ts.len(),
{
    if ts.len() == 0 {
        Seq::<u8>::empty()
    } else {
        str_field_bytes(ts[0]) + unsub_topics_bytes(ts.drop_first())
    }
}

/// The wire image of a subscribe packet's body.
pub open spec fn subscribe_body_bytes(s: SubscribeView) -> Seq<u8> {
    u16_be(s.pid) + sub_topics_bytes(s.topics)
}

/// The wire image of a suback packet's body.
pub open spec fn suback_body_bytes(s: SubackView) -> Seq<u8> {
    u16_be(s.pid) + suback_codes_bytes(s.return_codes)
}

/// The wire image of an unsubscribe packet's body.
pub open spec fn unsubscribe_body_bytes(s: UnsubscribeView) -> Seq<u8> {
    u16_be(s.pid) + unsub_topics_bytes(s.topics)
}

/// A non-zero identifier and topic filters that fit their length
/// prefixes.
pub open spec fn subscribe_valid(s: SubscribeView) -> bool {
    &&& s.pid != 0
    &&& forall|i: int|
        0 <= i < s.topics.len() ==> encode_utf8(#[trigger] s.topics[i].topic_path).len() <= 0xFFFF
}

/// A non-zero identifier.
pub open spec fn suback_valid(s: SubackView) -> bool {
    s.pid != 0
}

/// A non-zero identifier and topic filters that fit their length
/// prefixes.
pub open spec fn unsubscribe_valid(s: UnsubscribeView) -> bool {
    &&& s.pid != 0
    &&& forall|i: int|
        0 <= i < s.topics.len() ==> encode_utf8(#[trigger] s.topics[i]).len() <= 0xFFFF
}

// ---------------------------------------------------------------------------
// Parsing
// ---------------------------------------------------------------------------

/// Reads one subscribe entry from the front of `b`: the topic filter,
/// then the requested level's byte; the entry and the bytes consumed.
pub open spec fn parse_sub_topic(b: Seq<u8>) -> Result<(SubscribeTopicView, int), ErrorView> {
    match parse_str_field(b) {
        Err(e) => Err(e),
        Ok((topic_path, n)) => {
            if b.len() < n + 1 {
                Err(ErrorView::InvalidLength)
            } else {
                match spec_qos_from_bits(b[n]) {
                    Err(e) => Err(e),
                    Ok(qos) => Ok((SubscribeTopicView { topic_path, qos }, n + 1)),
                }
            }
        },
    }
}

/// Reads subscribe entries until `b` is exhausted. Every entry must lie
/// entirely inside `b`; an entry that overruns it is an `InvalidLength`
/// error.
pub open spec fn parse_sub_topics(b: Seq<u8>) -> Result<Seq<SubscribeTopicView>, ErrorView>
    decreases b.len(),
{
    if b.len() == 0 {
        Ok(Seq::<SubscribeTopicView>::empty())
    } else {
        match parse_sub_topic(b) {
            Err(e) => Err(e),
            Ok((t, n)) => match parse_sub_topics(b.skip(n)) {
                Err(e) => Err(e),
                Ok(ts) => Ok(seq![t] + ts),
            },
        }
    }
}

/// Reads suback return codes until `b` is exhausted.
pub open spec fn parse_suback_codes(b: Seq<u8>) -> Result<Seq<SubscribeReturnCodes>, ErrorView>
    decreases b.len(),
{
    if b.len() == 0 {
        Ok(Seq::<SubscribeReturnCodes>::empty())
    } else {
        match spec_sub_return_code_from(b[0]) {
            Err(e) => Err(e),
            Ok(c) => match parse_suback_codes(b.drop_first()) {
                Err(e) => Err(e),
                Ok(cs) => Ok(seq![c] + cs),
            },
        }
    }
}

/// Reads unsubscribe topic filters until `b` is exhausted.
pub open spec fn parse_unsub_topics(b: Seq<u8>) -> Result<Seq<Seq<char>>, ErrorView>
    decreases b.len(),
{
    if b.len() == 0 {
        Ok(Seq::<Seq<char>>::empty())
    } else {
        match parse_str_field(b) {
            Err(e) => Err(e),
            Ok((topic, n)) => match parse_unsub_topics(b.skip(n)) {
                Err(e) => Err(e),
                Ok(ts) => Ok(seq![topic] + ts),
            },
        }
    }
}

/// What decoding a subscribe body yields: the identifier, then the
/// entries.
pub open spec fn parse_subscribe(b: Seq<u8>) -> Result<SubscribeView, ErrorView> {
    if b.len() < 2 {
        Err(ErrorView::InvalidLength)
    } else {
        let pid = parse_u16(b);
        if pid == 0 {
            Err(ErrorView::InvalidPid)
        } else {
            match parse_sub_topics(b.skip(2)) {
                Err(e) => Err(e),
                Ok(topics) => Ok(SubscribeView { pid: pid as u16, topics }),
            }
        }
    }
}

/// What decoding a suback body yields: the identifier, then the return
/// codes.
pub open spec fn parse_suback(b: Seq<u8>) -> Result<SubackView, ErrorView> {
    if b.len() < 2 {
        Err(ErrorView::InvalidLength)
    } else {
        let pid = parse_u16(b);
        if pid == 0 {
            Err(ErrorView::InvalidPid)
        } else {
            match parse_suback_codes(b.skip(2)) {
                Err(e) => Err(e),
                Ok(return_codes) => Ok(SubackView { pid: pid as u16, return_codes }),
            }
        }
    }
}

/// What decoding an unsubscribe body yields: the identifier, then the
/// topic filters.
pub open spec fn parse_unsubscribe(b: Seq<u8>) -> Result<UnsubscribeView, ErrorView> {
    if b.len() < 2 {
        Err(ErrorView::InvalidLength)
    } else {
        let pid = parse_u16(b);
        if pid == 0 {
            Err(ErrorView::InvalidPid)
        } else {
            match parse_unsub_topics(b.skip(2)) {
                Err(e) => Err(e),
                Ok(topics) => Ok(UnsubscribeView { pid: pid as u16, topics }),
            }
        }
    }
}

// ---------------------------------------------------------------------------
// Decoding
// ---------------------------------------------------------------------------

impl Subscribe {
    /// Decodes a subscribe body lying between `*offset` and `payload_end`.
    #[verifier::spinoff_prover]
    #[verifier::rlimit(100)]
    pub(crate) fn from_buffer(buf: &[u8], offset: &mut usize, payload_end: usize) -> (r: Result<
        Subscribe,
        Error,
    >)
        requires
            *old(offset) <= payload_end <= buf@.len(),
        ensures
            res_dview(r) == parse_subscribe(
                buf@.subrange(*old(offset) as int, payload_end as int),
            ),
            r is Ok ==> *final(offset) == payload_end,
    {
        let start = *offset;
        let ghost b = buf@.subrange(start as int, payload_end as int);
        if payload_end - start < 2 {
            return Err(Error::InvalidLength);
        }
        proof {
            assert(b[0] == buf@[start as int] && b[1] == buf@[start as int + 1]);
        }
        let pid = match Pid::from_buffer(buf, offset) {
            Ok(p) => p,
            Err(e) => {
                return Err(e);
            },
        };
        let mut topics: Vec<SubscribeTopic> = Vec::new();
        proof {
            assert(b.skip(2) =~= buf@.subrange(*offset as int, payload_end as int));
            assert(topics_view(topics@) =~= Seq::<SubscribeTopicView>::empty());
        }
        while *offset < payload_end
            invariant
                start == *old(offset),
                start + 2 <= *offset <= payload_end <= buf@.len(),
                b == buf@.subrange(start as int, payload_end as int),
                b.len() >= 2,
                parse_u16(b) == pid@,
                pid@ != 0,
                match parse_sub_topics(buf@.subrange(*offset as int, payload_end as int)) {
                    Ok(ts) => parse_sub_topics(b.skip(2)) == Ok::<_, ErrorView>(
                        topics_view(topics@) + ts,
                    ),
                    Err(e) => parse_sub_topics(b.skip(2)) == Err::<Seq<SubscribeTopicView>, _>(e),
                },
            decreases payload_end - *offset,
        {
            let ghost cur = buf@.subrange(*offset as int, payload_end as int);
            let ghost o0 = *offset;
            let topic = match SubscribeTopic::from_buffer(buf, offset, payload_end) {
                Ok(t) => t,
                Err(e) => {
                    return Err(e);
                },
            };
            let ghost n = *offset - o0;
            proof {
                assert(cur.skip(n as int) =~= buf@.subrange(*offset as int, payload_end as int));
            }
            let ghost tv = topic@;
            let ghost topics0 = topics@;
            topics.push(topic);
            proof {
                assert(topics_view(topics@) =~= topics_view(topics0) + seq![tv]);
                if let Ok(ts) = parse_sub_topics(buf@.subrange(*offset as int, payload_end as int)) {
                    assert((topics_view(topics0) + seq![tv]) + ts =~= topics_view(topics0) + (
                    seq![tv] + ts));
                }
            }
        }
        proof {
            assert(buf@.subrange(*offset as int, payload_end as int) =~= Seq::<u8>::empty());
            assert(topics_view(topics@) + Seq::<SubscribeTopicView>::empty() =~= topics_view(
                topics@,
            ));
        }
        Ok(Subscribe { pid, topics })
    }
}

impl Suback {
    /// Decodes a suback body lying between `*offset` and `payload_end`.
    #[verifier::spinoff_prover]
    #[verifier::rlimit(100)]
    pub(crate) fn from_buffer(buf: &[u8], offset: &mut usize, payload_end: usize) -> (r: Result<
        Suback,
        Error,
    >)
        requires
            *old(offset) <= payload_end <= buf@.len(),
        ensures
            res_dview(r) == parse_suback(buf@.subrange(*old(offset) as int, payload_end as int)),
            r is Ok ==> *final(offset) == payload_end,
    {
        let start = *offset;
        let ghost b = buf@.subrange(start as int, payload_end as int);
        if payload_end - start < 2 {
            return Err(Error::InvalidLength);
        }
        proof {
            assert(b[0] == buf@[start as int] && b[1] == buf@[start as int + 1]);
        }
        let pid = match Pid::from_buffer(buf, offset) {
            Ok(p) => p,
            Err(e) => {
                return Err(e);
            },
        };
        let mut return_codes: Vec<SubscribeReturnCodes> = Vec::new();
        proof {
            assert(b.skip(2) =~= buf@.subrange(*offset as int, payload_end as int));
        }
        while *offset < payload_end
            invariant
                start == *old(offset),
                start + 2 <= *offset <= payload_end <= buf@.len(),
                b == buf@.subrange(start as int, payload_end as int),
                b.len() >= 2,
                parse_u16(b) == pid@,
                pid@ != 0,
                match parse_suback_codes(buf@.subrange(*offset as int, payload_end as int)) {
                    Ok(cs) => parse_suback_codes(b.skip(2)) == Ok::<_, ErrorView>(
                        return_codes@ + cs,
                    ),
                    Err(e) => parse_suback_codes(b.skip(2)) == Err::<
                        Seq<SubscribeReturnCodes>,
                        _,
                    >(e),
                },
            decreases payload_end - *offset,
        {
            let ghost cur = buf@.subrange(*offset as int, payload_end as int);
            proof {
                assert(cur[0] == buf@[*offset as int]);
            }
            let code = match SubscribeReturnCodes::from_buffer(buf, offset) {
                Ok(c) => c,
                Err(e) => {
                    return Err(e);
                },
            };
            proof {
                assert(cur.drop_first() =~= buf@.subrange(*offset as int, payload_end as int));
            }
            let ghost codes0 = return_codes@;
            return_codes.push(code);
            proof {
                assert(return_codes@ =~= codes0 + seq![code]);
                if let Ok(cs) = parse_suback_codes(
                    buf@.subrange(*offset as int, payload_end as int),
                ) {
                    assert((codes0 + seq![code]) + cs =~= codes0 + (seq![code] + cs));
                }
            }
        }
        proof {
            assert(buf@.subrange(*offset as int, payload_end as int) =~= Seq::<u8>::empty());
            assert(return_codes@ + Seq::<SubscribeReturnCodes>::empty() =~= return_codes@);
        }
        Ok(Suback { pid, return_codes })
    }
}

impl Unsubscribe {
    /// Decodes an unsubscribe body lying between `*offset` and
    /// `payload_end`.
    #[verifier::spinoff_prover]
    #[verifier::rlimit(100)]
    pub(crate) fn from_buffer(buf: &[u8], offset: &mut usize, payload_end: usize) -> (r: Result<
        Unsubscribe,
        Error,
    >)
        requires
            *old(offset) <= payload_end <= buf@.len(),
        ensures
            res_dview(r) == parse_unsubscribe(
                buf@.subrange(*old(offset) as int, payload_end as int),
            ),
            r is Ok ==> *final(offset) == payload_end,
    {
        let start = *offset;
        let ghost b = buf@.subrange(start as int, payload_end as int);
        if payload_end - start < 2 {
            return Err(Error::InvalidLength);
        }
        proof {
            assert(b[0] == buf@[start as int] && b[1] == buf@[start as int + 1]);
        }
        let pid = match Pid::from_buffer(buf, offset) {
            Ok(p) => p,
            Err(e) => {
                return Err(e);
            },
        };
        let mut topics: Vec<String> = Vec::new();
        proof {
            assert(b.skip(2) =~= buf@.subrange(*offset as int, payload_end as int));
            assert(strings_view(topics@) =~= Seq::<Seq<char>>::empty());
        }
        while *offset < payload_end
            invariant
                start == *old(offset),
                start + 2 <= *offset <= payload_end <= buf@.len(),
                b == buf@.subrange(start as int, payload_end as int),
                b.len() >= 2,
                parse_u16(b) == pid@,
                pid@ != 0,
                match parse_unsub_topics(buf@.subrange(*offset as int, payload_end as int)) {
                    Ok(ts) => parse_unsub_topics(b.skip(2)) == Ok::<_, ErrorView>(
                        strings_view(topics@) + ts,
                    ),
                    Err(e) => parse_unsub_topics(b.skip(2)) == Err::<Seq<Seq<char>>, _>(e),
                },
            decreases payload_end - *offset,
        {
            let ghost cur = buf@.subrange(*offset as int, payload_end as int);
            let ghost o0 = *offset;
            let topic = match read_str(buf, offset, payload_end) {
                Ok(s) => s,
                Err(e) => {
                    return Err(e);
                },
            };
            let ghost n = *offset - o0;
            proof {
                assert(cur.skip(n as int) =~= buf@.subrange(*offset as int, payload_end as int));
            }
            let ghost topics0 = topics@;
            let ghost tv = topic@;
            topics.push(topic);
            proof {
                assert(strings_view(topics@) =~= strings_view(topics0) + seq![tv]);
                if let Ok(ts) = parse_unsub_topics(
                    buf@.subrange(*offset as int, payload_end as int),
                ) {
                    assert((strings_view(topics0) + seq![tv]) + ts =~= strings_view(topics0) + (
                    seq![tv] + ts));
                }
            }
        }
        proof {
            assert(buf@.subrange(*offset as int, payload_end as int) =~= Seq::<u8>::empty());
            assert(strings_view(topics@) + Seq::<Seq<char>>::empty() =~= strings_view(topics@));
        }
        Ok(Unsubscribe { pid, topics })
    }
}

// ---------------------------------------------------------------------------
// Encoding
// ---------------------------------------------------------------------------

/// Concatenating entry sequences concatenates their wire images.
pub proof fn lemma_sub_topics_bytes_concat(
    ts1: Seq<SubscribeTopicView>,
    ts2: Seq<SubscribeTopicView>,
)
    ensures
        sub_topics_bytes(ts1 + ts2) == sub_topics_bytes(ts1) + sub_topics_bytes(ts2),
    decreases ts1.len(),
{
    if ts1.len() == 0 {
        assert(ts1 + ts2 =~= ts2);
        assert(Seq::<u8>::empty() + sub_topics_bytes(ts2) =~= sub_topics_bytes(ts2));
    } else {
        assert((ts1 + ts2).len() != 0);
        assert((ts1 + ts2)[0] == ts1[0]);
        assert((ts1 + ts2).drop_first() =~= ts1.drop_first() + ts2);
        lemma_sub_topics_bytes_concat(ts1.drop_first(), ts2);
        assert(sub_topic_bytes(ts1[0]) + (sub_topics_bytes(ts1.drop_first()) + sub_topics_bytes(
            ts2,
        )) =~= (sub_topic_bytes(ts1[0]) + sub_topics_bytes(ts1.drop_first()))
            + sub_topics_bytes(ts2));
    }
}

/// Concatenating topic sequences concatenates their wire images.
pub proof fn lemma_unsub_topics_bytes_concat(ts1: Seq<Seq<char>>, ts2: Seq<Seq<char>>)
    ensures
        unsub_topics_bytes(ts1 + ts2) == unsub_topics_bytes(ts1) + unsub_topics_bytes(ts2),
    decreases ts1.len(),
{
    if ts1.len() == 0 {
        assert(ts1 + ts2 =~= ts2);
        assert(Seq::<u8>::empty() + unsub_topics_bytes(ts2) =~= unsub_topics_bytes(ts2));
    } else {
        assert((ts1 + ts2).len() != 0);
        assert((ts1 + ts2)[0] == ts1[0]);
        assert((ts1 + ts2).drop_first() =~= ts1.drop_first() + ts2);
        lemma_unsub_topics_bytes_concat(ts1.drop_first(), ts2);
        assert(str_field_bytes(ts1[0]) + (unsub_topics_bytes(ts1.drop_first())
            + unsub_topics_bytes(ts2)) =~= (str_field_bytes(ts1[0]) + unsub_topics_bytes(
            ts1.drop_first(),
        )) + unsub_topics_bytes(ts2));
    }
}


/// The wire image of a single entry.
pub proof fn lemma_sub_topics_bytes_one(t: SubscribeTopicView)
    ensures
        sub_topics_bytes(seq![t]) == sub_topic_bytes(t),
{
    assert(seq![t].drop_first() =~= Seq::<SubscribeTopicView>::empty());
    assert(sub_topics_bytes(Seq::<SubscribeTopicView>::empty()) == Seq::<u8>::empty());
    assert(sub_topic_bytes(t) + Seq::<u8>::empty() =~= sub_topic_bytes(t));
}

/// The wire image of a single topic filter.
pub proof fn lemma_unsub_topics_bytes_one(t: Seq<char>)
    ensures
        unsub_topics_bytes(seq![t]) == str_field_bytes(t),
{
    assert(seq![t].drop_first() =~= Seq::<Seq<char>>::empty());
    assert(unsub_topics_bytes(Seq::<Seq<char>>::empty()) == Seq::<u8>::empty());
    assert(str_field_bytes(t) + Seq::<u8>::empty() =~= str_field_bytes(t));
}

impl Subscribe {
    /// Encodes the whole subscribe packet at `*offset`.
    #[verifier::spinoff_prover]
    #[verifier::rlimit(100)]
    pub(crate) fn to_buffer(&self, buf: &mut Vec<u8>, offset: &mut usize) -> (r: Result<
        usize,
        Error,
    >)
        ensures
            encode_result(
                PacketView::Subscribe(self@),
                old(buf)@,
                final(buf)@,
                *old(offset) as int,
                *final(offset) as int,
                r,
            ),
    {
        let ghost pv = PacketView::Subscribe(self@);
        let ghost tv = self@.topics;
        let ghost body = subscribe_body_bytes(self@);
        proof {
            use_type_invariant(self.pid);
        }
        let n = self.topics.len();

        // Length and validity of every topic filter.
        let mut length: usize = 2;
        let mut i: usize = 0;
        while i < n
            invariant
                pv == PacketView::Subscribe(self@),
                n == self.topics@.len(),
                tv == topics_view(self.topics@),
                body == subscribe_body_bytes(self@),
                0 <= i <= n,
                length == 2 + sub_topics_bytes(tv.take(i as int)).len(),
                length <= VARINT_MAX,
                forall|j: int|
                    0 <= j < i ==> encode_utf8(#[trigger] tv[j].topic_path).len() <= 0xFFFF,
            decreases n - i,
        {
            proof {
                assert(tv[i as int] == self.topics@[i as int]@);
            }
            let t_len = self.topics[i].topic_path.as_str().as_bytes().len();
            if t_len > 0xFFFF {
                proof {
                    assert(encode_utf8(self@.topics[i as int].topic_path).len() > 0xFFFF);
                    assert(!subscribe_valid(self@));
                }
                return Err(Error::InvalidLength);
            }
            proof {
                assert(tv.take(i + 1) =~= tv.take(i as int) + seq![tv[i as int]]);
                lemma_sub_topics_bytes_concat(tv.take(i as int), seq![tv[i as int]]);
                lemma_sub_topics_bytes_one(tv[i as int]);
            }
            if length + (t_len + 3) > VARINT_MAX {
                proof {
                    assert(tv =~= tv.take(i + 1) + tv.skip(i + 1));
                    lemma_sub_topics_bytes_concat(tv.take(i + 1), tv.skip(i + 1));
                    assert(sub_topics_bytes(tv).len() >= sub_topics_bytes(tv.take(i + 1)).len());
                    assert(sub_topics_bytes(tv.take(i + 1)).len() == sub_topics_bytes(
                        tv.take(i as int),
                    ).len() + sub_topic_bytes(tv[i as int]).len());
                    assert(sub_topic_bytes(tv[i as int]).len() == t_len + 3);
                    assert(body.len() == 2 + sub_topics_bytes(tv).len());
                    assert(body.len() > VARINT_MAX);
                    assert(!packet_valid(pv));
                }
                return Err(Error::InvalidLength);
            }
            length = length + (t_len + 3);
            i = i + 1;
        }
        proof {
            assert(tv.take(n as int) =~= tv);
            assert(length == body.len());
            assert(subscribe_valid(self@));
            assert(packet_valid(pv));
        }

        // Capacity for the whole packet.
        let width: usize = if length < 128 {
            1
        } else if length < 16384 {
            2
        } else if length < 2097152 {
            3
        } else {
            4
        };
        proof {
            assert(width == varint_len(length as int));
            assert(packet_bytes(pv).len() == 1 + width + length);
        }
        match crate::encoder::check_remaining(buf, *offset, 1 + width + length) {
            Ok(u) => u,
            Err(e) => {
                return Err(e);
            },
        };

        // Write: header byte, remaining length, identifier, entries.
        let ghost buf0 = buf@;
        let ghost at = *old(offset) as int;
        crate::encoder::write_u8(buf, offset, 0x82);
        let ghost b1 = buf@;
        let vr = crate::encoder::write_varint(buf, offset, length);
        match vr {
            Ok(_) => (),
            Err(_) => {
                proof {
                    assert(false);
                }
            },
        }
        proof {
            lemma_wrote_wrote(buf0, b1, buf@, at, seq![0x82u8], varint_bytes(length as int));
        }
        let ghost acc1 = seq![0x82u8] + varint_bytes(length as int);
        let ghost b2 = buf@;
        self.pid.to_buffer(buf, offset);
        proof {
            lemma_wrote_wrote(buf0, b2, buf@, at, acc1, u16_be(self.pid@));
        }
        let ghost acc2 = acc1 + u16_be(self.pid@);
        let mut i: usize = 0;
        proof {
            assert(tv.take(0) =~= Seq::<SubscribeTopicView>::empty());
            assert(acc2 + sub_topics_bytes(tv.take(0)) =~= acc2);
        }
        while i < n
            invariant
                pv == PacketView::Subscribe(self@),
                n == self.topics@.len(),
                tv == topics_view(self.topics@),
                0 <= i <= n,
                at + 1 + width + length <= buf@.len(),
                buf@.len() == old(buf)@.len(),
                length == 2 + sub_topics_bytes(tv).len(),
                *offset == at + 1 + width + 2 + sub_topics_bytes(tv.take(i as int)).len(),
                wrote(old(buf)@, buf@, at, acc2 + sub_topics_bytes(tv.take(i as int))),
                acc2.len() == 1 + width + 2,
                forall|j: int|
                    0 <= j < n ==> encode_utf8(#[trigger] tv[j].topic_path).len() <= 0xFFFF,
            decreases n - i,
        {
            proof {
                assert(tv[i as int] == self.topics@[i as int]@);
                // Capacity: what remains of the entries still fits.
                assert(tv =~= tv.take(i as int) + tv.skip(i as int));
                lemma_sub_topics_bytes_concat(tv.take(i as int), tv.skip(i as int));
                assert(tv.skip(i as int).len() != 0);
                assert(tv.skip(i as int)[0] == tv[i as int]);
                assert(tv.skip(i as int).drop_first() =~= tv.skip(i + 1));
                assert(sub_topics_bytes(tv.skip(i as int)) == sub_topic_bytes(tv[i as int])
                    + sub_topics_bytes(tv.skip(i + 1)));
            }
            let ghost bprev = buf@;
            write_string(buf, offset, self.topics[i].topic_path.as_str());
            proof {
                lemma_wrote_wrote(
                    old(buf)@,
                    bprev,
                    buf@,
                    at,
                    acc2 + sub_topics_bytes(tv.take(i as int)),
                    str_field_bytes(tv[i as int].topic_path),
                );
            }
            let ghost bprev2 = buf@;
            write_u8(buf, offset, self.topics[i].qos.to_u8());
            proof {
                lemma_wrote_wrote(
                    old(buf)@,
                    bprev2,
                    buf@,
                    at,
                    (acc2 + sub_topics_bytes(tv.take(i as int))) + str_field_bytes(
                        tv[i as int].topic_path,
                    ),
                    seq![tv[i as int].qos.spec_bits()],
                );
                assert(tv.take(i + 1) =~= tv.take(i as int) + seq![tv[i as int]]);
                lemma_sub_topics_bytes_concat(tv.take(i as int), seq![tv[i as int]]);
                lemma_sub_topics_bytes_one(tv[i as int]);
                assert(((acc2 + sub_topics_bytes(tv.take(i as int))) + str_field_bytes(
                    tv[i as int].topic_path,
                )) + seq![tv[i as int].qos.spec_bits()] =~= acc2 + sub_topics_bytes(
                    tv.take(i + 1),
                ));
            }
            i = i + 1;
        }
        proof {
            assert(tv.take(n as int) =~= tv);
            assert(acc2 + sub_topics_bytes(tv) =~= packet_bytes(pv));
        }
        Ok(1 + width + length)
    }
}

impl Suback {
    /// Encodes the whole suback packet at `*offset`.
    #[verifier::spinoff_prover]
    #[verifier::rlimit(100)]
    pub(crate) fn to_buffer(&self, buf: &mut Vec<u8>, offset: &mut usize) -> (r: Result<
        usize,
        Error,
    >)
        ensures
            encode_result(
                PacketView::Suback(self@),
                old(buf)@,
                final(buf)@,
                *old(offset) as int,
                *final(offset) as int,
                r,
            ),
    {
        let ghost pv = PacketView::Suback(self@);
        let ghost cs = self@.return_codes;
        let ghost body = suback_body_bytes(self@);
        proof {
            use_type_invariant(self.pid);
        }
        let n = self.return_codes.len();
        if n > VARINT_MAX - 2 {
            return Err(Error::InvalidLength);
        }
        let length: usize = 2 + n;
        proof {
            assert(length == body.len());
            assert(packet_valid(pv));
        }

        // Capacity for the whole packet.
        let width: usize = if length < 128 {
            1
        } else if length < 16384 {
            2
        } else if length < 2097152 {
            3
        } else {
            4
        };
        proof {
            assert(width == varint_len(length as int));
            assert(packet_bytes(pv).len() == 1 + width + length);
        }
        match crate::encoder::check_remaining(buf, *offset, 1 + width + length) {
            Ok(u) => u,
            Err(e) => {
                return Err(e);
            },
        };

        // Write: header byte, remaining length, identifier, return codes.
        let ghost buf0 = buf@;
        let ghost at = *old(offset) as int;
        crate::encoder::write_u8(buf, offset, 0x90);
        let ghost b1 = buf@;
        let vr = crate::encoder::write_varint(buf, offset, length);
        match vr {
            Ok(_) => (),
            Err(_) => {
                proof {
                    assert(false);
                }
            },
        }
        proof {
            lemma_wrote_wrote(buf0, b1, buf@, at, seq![0x90u8], varint_bytes(length as int));
        }
        let ghost acc1 = seq![0x90u8] + varint_bytes(length as int);
        let ghost b2 = buf@;
        self.pid.to_buffer(buf, offset);
        proof {
            lemma_wrote_wrote(buf0, b2, buf@, at, acc1, u16_be(self.pid@));
        }
        let ghost acc2 = acc1 + u16_be(self.pid@);
        let mut i: usize = 0;
        proof {
            assert(suback_codes_bytes(cs.take(0)) =~= Seq::<u8>::empty());
            assert(acc2 + suback_codes_bytes(cs.take(0)) =~= acc2);
        }
        while i < n
            invariant
                pv == PacketView::Suback(self@),
                n == self.return_codes@.len(),
                cs == self.return_codes@,
                0 <= i <= n,
                at + 1 + width + length <= buf@.len(),
                buf@.len() == old(buf)@.len(),
                length == 2 + n,
                *offset == at + 1 + width + 2 + i,
                wrote(old(buf)@, buf@, at, acc2 + suback_codes_bytes(cs.take(i as int))),
                acc2.len() == 1 + width + 2,
            decreases n - i,
        {
            let ghost bprev = buf@;
            write_u8(buf, offset, self.return_codes[i].to_u8());
            proof {
                assert(suback_codes_bytes(cs.take(i as int)).len() == i);
                lemma_wrote_wrote(
                    old(buf)@,
                    bprev,
                    buf@,
                    at,
                    acc2 + suback_codes_bytes(cs.take(i as int)),
                    seq![sub_return_code_byte(cs[i as int])],
                );
                assert((acc2 + suback_codes_bytes(cs.take(i as int))) + seq![
                    sub_return_code_byte(cs[i as int]),
                ] =~= acc2 + suback_codes_bytes(cs.take(i + 1)));
            }
            i = i + 1;
        }
        proof {
            assert(cs.take(n as int) =~= cs);
            assert(acc2 + suback_codes_bytes(cs) =~= packet_bytes(pv));
        }
        Ok(1 + width + length)
    }
}

impl Unsubscribe {
    /// Encodes the whole unsubscribe packet at `*offset`.
    #[verifier::spinoff_prover]
    #[verifier::rlimit(100)]
    pub(crate) fn to_buffer(&self, buf: &mut Vec<u8>, offset: &mut usize) -> (r: Result<
        usize,
        Error,
    >)
        ensures
            encode_result(
                PacketView::Unsubscribe(self@),
                old(buf)@,
                final(buf)@,
                *old(offset) as int,
                *final(offset) as int,
                r,
            ),
    {
        let ghost pv = PacketView::Unsubscribe(self@);
        let ghost tv = self@.topics;
        let ghost body = unsubscribe_body_bytes(self@);
        proof {
            use_type_invariant(self.pid);
        }
        let n = self.topics.len();

        // Length and validity of every topic filter.
        let mut length: usize = 2;
        let mut i: usize = 0;
        while i < n
            invariant
                pv == PacketView::Unsubscribe(self@),
                n == self.topics@.len(),
                tv == strings_view(self.topics@),
                body == unsubscribe_body_bytes(self@),
                0 <= i <= n,
                length == 2 + unsub_topics_bytes(tv.take(i as int)).len(),
                length <= VARINT_MAX,
                forall|j: int| 0 <= j < i ==> encode_utf8(#[trigger] tv[j]).len() <= 0xFFFF,
            decreases n - i,
        {
            proof {
                assert(tv[i as int] == self.topics@[i as int]@);
            }
            let t_len = self.topics[i].as_str().as_bytes().len();
            if t_len > 0xFFFF {
                proof {
                    assert(encode_utf8(self@.topics[i as int]).len() > 0xFFFF);
                    assert(!unsubscribe_valid(self@));
                }
                return Err(Error::InvalidLength);
            }
            proof {
                assert(tv.take(i + 1) =~= tv.take(i as int) + seq![tv[i as int]]);
                lemma_unsub_topics_bytes_concat(tv.take(i as int), seq![tv[i as int]]);
                lemma_unsub_topics_bytes_one(tv[i as int]);
            }
            if length + (t_len + 2) > VARINT_MAX {
                proof {
                    assert(tv =~= tv.take(i + 1) + tv.skip(i + 1));
                    lemma_unsub_topics_bytes_concat(tv.take(i + 1), tv.skip(i + 1));
                }
                return Err(Error::InvalidLength);
            }
            length = length + (t_len + 2);
            i = i + 1;
        }
        proof {
            assert(tv.take(n as int) =~= tv);
            assert(length == body.len());
            assert(unsubscribe_valid(self@));
            assert(packet_valid(pv));
        }

        // Capacity for the whole packet.
        let width: usize = if length < 128 {
            1
        } else if length < 16384 {
            2
        } else if length < 2097152 {
            3
        } else {
            4
        };
        proof {
            assert(width == varint_len(length as int));
            assert(packet_bytes(pv).len() == 1 + width + length);
        }
        match crate::encoder::check_remaining(buf, *offset, 1 + width + length) {
            Ok(u) => u,
            Err(e) => {
                return Err(e);
            },
        };

        // Write: header byte, remaining length, identifier, topic filters.
        let ghost buf0 = buf@;
        let ghost at = *old(offset) as int;
        crate::encoder::write_u8(buf, offset, 0xA2);
        let ghost b1 = buf@;
        let vr = crate::encoder::write_varint(buf, offset, length);
        match vr {
            Ok(_) => (),
            Err(_) => {
                proof {
                    assert(false);
                }
            },
        }
        proof {
            lemma_wrote_wrote(buf0, b1, buf@, at, seq![0xA2u8], varint_bytes(length as int));
        }
        let ghost acc1 = seq![0xA2u8] + varint_bytes(length as int);
        let ghost b2 = buf@;
        self.pid.to_buffer(buf, offset);
        proof {
            lemma_wrote_wrote(buf0, b2, buf@, at, acc1, u16_be(self.pid@));
        }
        let ghost acc2 = acc1 + u16_be(self.pid@);
        let mut i: usize = 0;
        proof {
            assert(tv.take(0) =~= Seq::<Seq<char>>::empty());
            assert(acc2 + unsub_topics_bytes(tv.take(0)) =~= acc2);
        }
        while i < n
            invariant
                pv == PacketView::Unsubscribe(self@),
                n == self.topics@.len(),
                tv == strings_view(self.topics@),
                0 <= i <= n,
                at + 1 + width + length <= buf@.len(),
                buf@.len() == old(buf)@.len(),
                length == 2 + unsub_topics_bytes(tv).len(),
                *offset == at + 1 + width + 2 + unsub_topics_bytes(tv.take(i as int)).len(),
                wrote(old(buf)@, buf@, at, acc2 + unsub_topics_bytes(tv.take(i as int))),
                acc2.len() == 1 + width + 2,
                forall|j: int| 0 <= j < n ==> encode_utf8(#[trigger] tv[j]).len() <= 0xFFFF,
            decreases n - i,
        {
            proof {
                assert(tv[i as int] == self.topics@[i as int]@);
                assert(tv =~= tv.take(i as int) + tv.skip(i as int));
                lemma_unsub_topics_bytes_concat(tv.take(i as int), tv.skip(i as int));
                assert(tv.skip(i as int).len() != 0);
                assert(tv.skip(i as int)[0] == tv[i as int]);
                assert(tv.skip(i as int).drop_first() =~= tv.skip(i + 1));
                assert(unsub_topics_bytes(tv.skip(i as int)) == str_field_bytes(tv[i as int])
                    + unsub_topics_bytes(tv.skip(i + 1)));
            }
            let ghost bprev = buf@;
            write_string(buf, offset, self.topics[i].as_str());
            proof {
                lemma_wrote_wrote(
                    old(buf)@,
                    bprev,
                    buf@,
                    at,
                    acc2 + unsub_topics_bytes(tv.take(i as int)),
                    str_field_bytes(tv[i as int]),
                );
                assert(tv.take(i + 1) =~= tv.take(i as int) + seq![tv[i as int]]);
                lemma_unsub_topics_bytes_concat(tv.take(i as int), seq![tv[i as int]]);
                lemma_unsub_topics_bytes_one(tv[i as int]);
                assert((acc2 + unsub_topics_bytes(tv.take(i as int))) + str_field_bytes(
                    tv[i as int],
                ) =~= acc2 + unsub_topics_bytes(tv.take(i + 1)));
            }
            i = i + 1;
        }
        proof {
            assert(tv.take(n as int) =~= tv);
            assert(acc2 + unsub_topics_bytes(tv) =~= packet_bytes(pv));
        }
        Ok(1 + width + length)
    }
}

// ---------------------------------------------------------------------------
// Round trips
// ---------------------------------------------------------------------------

/// Decoding subscribe entries that were just encoded recovers them.
pub proof fn lemma_parse_sub_topics_rt(ts: Seq<SubscribeTopicView>)
    requires
        forall|i: int| 0 <= i < ts.len() ==> encode_utf8(#[trigger] ts[i].topic_path).len()
            <= 0xFFFF,
    ensures
        parse_sub_topics(sub_topics_bytes(ts)) == Ok::<Seq<SubscribeTopicView>, ErrorView>(ts),
    decreases ts.len(),
{
    if ts.len() == 0 {
        assert(ts =~= Seq::<SubscribeTopicView>::empty());
    } else {
        let b = sub_topics_bytes(ts);
        let t = ts[0];
        let tail = seq![t.qos.spec_bits()] + sub_topics_bytes(ts.drop_first());
        assert(b =~= str_field_bytes(t.topic_path) + tail);
        crate::wire::lemma_parse_str_field(t.topic_path, tail);
        let n = 2 + encode_utf8(t.topic_path).len() as int;
        assert(b.len() >= n + 1);
        assert(b[n] == t.qos.spec_bits());
        assert(spec_qos_from_bits(t.qos.spec_bits()) == Ok::<QoS, ErrorView>(t.qos));
        assert(b.skip(n + 1) =~= sub_topics_bytes(ts.drop_first()));
        assert(forall|i: int|
            0 <= i < ts.drop_first().len() ==> encode_utf8(
                #[trigger] ts.drop_first()[i].topic_path,
            ).len() <= 0xFFFF);
        lemma_parse_sub_topics_rt(ts.drop_first());
        assert(seq![SubscribeTopicView { topic_path: t.topic_path, qos: t.qos }]
            + ts.drop_first() =~= ts);
    }
}

/// Decoding suback return codes that were just encoded recovers them.
pub proof fn lemma_parse_suback_codes_rt(cs: Seq<SubscribeReturnCodes>)
    ensures
        parse_suback_codes(suback_codes_bytes(cs)) == Ok::<Seq<SubscribeReturnCodes>, ErrorView>(
            cs,
        ),
    decreases cs.len(),
{
    if cs.len() == 0 {
        assert(cs =~= Seq::<SubscribeReturnCodes>::empty());
        assert(suback_codes_bytes(cs) =~= Seq::<u8>::empty());
    } else {
        let b = suback_codes_bytes(cs);
        assert(b[0] == sub_return_code_byte(cs[0]));
        assert(spec_sub_return_code_from(sub_return_code_byte(cs[0]))
            == Ok::<SubscribeReturnCodes, ErrorView>(cs[0]));
        assert(b.drop_first() =~= suback_codes_bytes(cs.drop_first()));
        lemma_parse_suback_codes_rt(cs.drop_first());
        assert(seq![cs[0]] + cs.drop_first() =~= cs);
    }
}

/// Decoding unsubscribe topic filters that were just encoded recovers
/// them.
pub proof fn lemma_parse_unsub_topics_rt(ts: Seq<Seq<char>>)
    requires
        forall|i: int| 0 <= i < ts.len() ==> encode_utf8(#[trigger] ts[i]).len() <= 0xFFFF,
    ensures
        parse_unsub_topics(unsub_topics_bytes(ts)) == Ok::<Seq<Seq<char>>, ErrorView>(ts),
    decreases ts.len(),
{
    if ts.len() == 0 {
        assert(ts =~= Seq::<Seq<char>>::empty());
    } else {
        let b = unsub_topics_bytes(ts);
        let tail = unsub_topics_bytes(ts.drop_first());
        assert(b =~= str_field_bytes(ts[0]) + tail);
        crate::wire::lemma_parse_str_field(ts[0], tail);
        let n = 2 + encode_utf8(ts[0]).len() as int;
        assert(b.skip(n) =~= tail);
        assert(forall|i: int|
            0 <= i < ts.drop_first().len() ==> encode_utf8(#[trigger] ts.drop_first()[i]).len()
                <= 0xFFFF);
        lemma_parse_unsub_topics_rt(ts.drop_first());
        assert(seq![ts[0]] + ts.drop_first() =~= ts);
    }
}

/// Decoding a subscribe body that was just encoded recovers the packet.
pub proof fn lemma_parse_subscribe_rt(s: SubscribeView)
    requires
        subscribe_valid(s),
    ensures
        parse_subscribe(subscribe_body_bytes(s)) == Ok::<SubscribeView, ErrorView>(s),
{
    let b = subscribe_body_bytes(s);
    assert(b.len() >= 2);
    assert(b[0] == (s.pid / 256) as u8);
    assert(b[1] == (s.pid % 256) as u8);
    assert(parse_u16(b) == s.pid);
    assert(b.skip(2) =~= sub_topics_bytes(s.topics));
    lemma_parse_sub_topics_rt(s.topics);
}

/// Decoding a suback body that was just encoded recovers the packet.
pub proof fn lemma_parse_suback_rt(s: SubackView)
    requires
        suback_valid(s),
    ensures
        parse_suback(suback_body_bytes(s)) == Ok::<SubackView, ErrorView>(s),
{
    let b = suback_body_bytes(s);
    assert(b.len() >= 2);
    assert(b[0] == (s.pid / 256) as u8);
    assert(b[1] == (s.pid % 256) as u8);
    assert(parse_u16(b) == s.pid);
    assert(b.skip(2) =~= suback_codes_bytes(s.return_codes));
    lemma_parse_suback_codes_rt(s.return_codes);
}

/// Decoding an unsubscribe body that was just encoded recovers the
/// packet.
pub proof fn lemma_parse_unsubscribe_rt(s: UnsubscribeView)
    requires
        unsubscribe_valid(s),
    ensures
        parse_unsubscribe(unsubscribe_body_bytes(s)) == Ok::<UnsubscribeView, ErrorView>(s),
{
    let b = unsubscribe_body_bytes(s);
    assert(b.len() >= 2);
    assert(b[0] == (s.pid / 256) as u8);
    assert(b[1] == (s.pid % 256) as u8);
    assert(parse_u16(b) == s.pid);
    assert(b.skip(2) =~= unsub_topics_bytes(s.topics));
    lemma_parse_unsub_topics_rt(s.topics);
}

/// Decoded subscribe entries re-encode to exactly the bytes they were
/// decoded from, and every topic filter fits its prefix.
pub proof fn lemma_parse_sub_topics_sound(b: Seq<u8>)
    requires
        parse_sub_topics(b) is Ok,
    ensures
        ({
            let ts = parse_sub_topics(b)->Ok_0;
            &&& sub_topics_bytes(ts) == b
            &&& forall|i: int|
                0 <= i < ts.len() ==> encode_utf8(#[trigger] ts[i].topic_path).len() <= 0xFFFF
        }),
    decreases b.len(),
{
    let ts = parse_sub_topics(b)->Ok_0;
    if b.len() == 0 {
        assert(sub_topics_bytes(ts) =~= b);
    } else {
        let (t, n) = parse_sub_topic(b)->Ok_0;
        crate::wire::lemma_parse_str_field_sound(b);
        let n1 = parse_str_field(b)->Ok_0.1;
        assert(sub_topic_bytes(t) =~= b.take(n1) + seq![b[n1]]);
        assert(sub_topic_bytes(t) =~= b.take(n));
        lemma_parse_sub_topics_sound(b.skip(n));
        let rest_ts = parse_sub_topics(b.skip(n))->Ok_0;
        assert(ts == seq![t] + rest_ts);
        lemma_sub_topics_bytes_concat(seq![t], rest_ts);
        lemma_sub_topics_bytes_one(t);
        assert(sub_topics_bytes(ts) =~= b.take(n) + b.skip(n));
        assert(b.take(n) + b.skip(n) =~= b);
        assert(forall|i: int|
            0 <= i < ts.len() ==> encode_utf8(#[trigger] ts[i].topic_path).len() <= 0xFFFF) by {
            assert(forall|i: int| 1 <= i < ts.len() ==> ts[i] == rest_ts[i - 1]);
        }
    }
}

/// Decoded suback return codes re-encode to exactly the bytes they were
/// decoded from.
pub proof fn lemma_parse_suback_codes_sound(b: Seq<u8>)
    requires
        parse_suback_codes(b) is Ok,
    ensures
        suback_codes_bytes(parse_suback_codes(b)->Ok_0) == b,
    decreases b.len(),
{
    let cs = parse_suback_codes(b)->Ok_0;
    if b.len() == 0 {
        assert(suback_codes_bytes(cs) =~= b);
    } else {
        let c = spec_sub_return_code_from(b[0])->Ok_0;
        assert(sub_return_code_byte(c) == b[0]);
        lemma_parse_suback_codes_sound(b.drop_first());
        let rest_cs = parse_suback_codes(b.drop_first())->Ok_0;
        assert(cs == seq![c] + rest_cs);
        assert(cs.len() == b.len());
        assert forall|i: int| 0 <= i < b.len() implies suback_codes_bytes(cs)[i] == b[i] by {
            if i > 0 {
                assert(cs[i] == rest_cs[i - 1]);
                assert(suback_codes_bytes(rest_cs)[i - 1] == b.drop_first()[i - 1]);
            }
        }
        assert(suback_codes_bytes(cs) =~= b);
    }
}

/// Decoded unsubscribe topic filters re-encode to exactly the bytes they
/// were decoded from, and each fits its prefix.
pub proof fn lemma_parse_unsub_topics_sound(b: Seq<u8>)
    requires
        parse_unsub_topics(b) is Ok,
    ensures
        ({
            let ts = parse_unsub_topics(b)->Ok_0;
            &&& unsub_topics_bytes(ts) == b
            &&& forall|i: int| 0 <= i < ts.len() ==> encode_utf8(#[trigger] ts[i]).len() <= 0xFFFF
        }),
    decreases b.len(),
{
    let ts = parse_unsub_topics(b)->Ok_0;
    if b.len() == 0 {
        assert(unsub_topics_bytes(ts) =~= b);
    } else {
        let (topic, n) = parse_str_field(b)->Ok_0;
        crate::wire::lemma_parse_str_field_sound(b);
        lemma_parse_unsub_topics_sound(b.skip(n));
        let rest_ts = parse_unsub_topics(b.skip(n))->Ok_0;
        assert(ts == seq![topic] + rest_ts);
        lemma_unsub_topics_bytes_concat(seq![topic], rest_ts);
        lemma_unsub_topics_bytes_one(topic);
        assert(unsub_topics_bytes(ts) =~= b.take(n) + b.skip(n));
        assert(b.take(n) + b.skip(n) =~= b);
        assert(forall|i: int|
            0 <= i < ts.len() ==> encode_utf8(#[trigger] ts[i]).len() <= 0xFFFF) by {
            assert(forall|i: int| 1 <= i < ts.len() ==> ts[i] == rest_ts[i - 1]);
        }
    }
}

/// A decoded subscribe body re-encodes to exactly the bytes it was
/// decoded from, and is valid.
pub proof fn lemma_parse_subscribe_sound(b: Seq<u8>)
    requires
        parse_subscribe(b) is Ok,
    ensures
        subscribe_valid(parse_subscribe(b)->Ok_0),
        subscribe_body_bytes(parse_subscribe(b)->Ok_0) == b,
{
    let s = parse_subscribe(b)->Ok_0;
    let pid = parse_u16(b);
    assert(b[0] * 256 + b[1] == pid);
    assert(pid / 256 == b[0] && pid % 256 == b[1]) by (nonlinear_arith)
        requires
            pid == b[0] * 256 + b[1],
            0 <= b[0] < 256,
            0 <= b[1] < 256,
    ;
    lemma_parse_sub_topics_sound(b.skip(2));
    assert(subscribe_body_bytes(s) =~= seq![b[0], b[1]] + b.skip(2));
    assert(seq![b[0], b[1]] + b.skip(2) =~= b);
}

/// A decoded suback body re-encodes to exactly the bytes it was decoded
/// from, and is valid.
pub proof fn lemma_parse_suback_sound(b: Seq<u8>)
    requires
        parse_suback(b) is Ok,
    ensures
        suback_valid(parse_suback(b)->Ok_0),
        suback_body_bytes(parse_suback(b)->Ok_0) == b,
{
    let s = parse_suback(b)->Ok_0;
    let pid = parse_u16(b);
    assert(b[0] * 256 + b[1] == pid);
    assert(pid / 256 == b[0] && pid % 256 == b[1]) by (nonlinear_arith)
        requires
            pid == b[0] * 256 + b[1],
            0 <= b[0] < 256,
            0 <= b[1] < 256,
    ;
    lemma_parse_suback_codes_sound(b.skip(2));
    assert(suback_body_bytes(s) =~= seq![b[0], b[1]] + b.skip(2));
    assert(seq![b[0], b[1]] + b.skip(2) =~= b);
}

/// A decoded unsubscribe body re-encodes to exactly the bytes it was
/// decoded from, and is valid.
pub proof fn lemma_parse_unsubscribe_sound(b: Seq<u8>)
    requires
        parse_unsubscribe(b) is Ok,
    ensures
        unsubscribe_valid(parse_unsubscribe(b)->Ok_0),
        unsubscribe_body_bytes(parse_unsubscribe(b)->Ok_0) == b,
{
    let s = parse_unsubscribe(b)->Ok_0;
    let pid = parse_u16(b);
    assert(b[0] * 256 + b[1] == pid);
    assert(pid / 256 == b[0] && pid % 256 == b[1]) by (nonlinear_arith)
        requires
            pid == b[0] * 256 + b[1],
            0 <= b[0] < 256,
            0 <= b[1] < 256,
    ;
    lemma_parse_unsub_topics_sound(b.skip(2));
    assert(unsubscribe_body_bytes(s) =~= seq![b[0], b[1]] + b.skip(2));
    assert(seq![b[0], b[1]] + b.skip(2) =~= b);
}

} // verus!
