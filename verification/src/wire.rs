use vstd::prelude::*;
use vstd::utf8::{decode_utf8, encode_utf8, valid_utf8};
use crate::errors::ErrorView;

verus! {

/// The largest value the variable-length remaining-length encoding can carry.
pub const VARINT_MAX: usize = 268435455;

// ---------------------------------------------------------------------------
// Big-endian 16-bit integers
// ---------------------------------------------------------------------------

/// The two-byte big-endian image of `n`.
pub open spec fn u16_be(n: u16) -> Seq<u8> {
    seq![(n / 256) as u8, (n % 256) as u8]
}

/// The value of the first two bytes of `b`, read big-endian.
pub open spec fn parse_u16(b: Seq<u8>) -> int
    recommends
        b.len() >= 2,
{
    b[0] * 256 + b[1]
}

pub proof fn lemma_parse_u16_be(n: u16, b: Seq<u8>)
    requires
        b.len() >= 2,
        b[0] == u16_be(n)[0],
        b[1] == u16_be(n)[1],
    ensures
        parse_u16(b) == n,
{
}

// ---------------------------------------------------------------------------
// Length-prefixed fields
// ---------------------------------------------------------------------------

/// The wire image of a length-prefixed byte field: a two-byte big-endian
/// length, then the bytes themselves.
pub open spec fn len_field_bytes(f: Seq<u8>) -> Seq<u8>
    recommends
        f.len() <= 0xFFFF,
{
    u16_be(f.len() as u16) + f
}

/// The wire image of a length-prefixed UTF-8 string field.
pub open spec fn str_field_bytes(s: Seq<char>) -> Seq<u8>
    recommends
        encode_utf8(s).len() <= 0xFFFF,
{
    len_field_bytes(encode_utf8(s))
}

/// Reads a length-prefixed byte field from the front of `b`: the field's
/// bytes and the total number of bytes consumed. `None` when the declared
/// length overruns `b`.
pub open spec fn parse_bytes_field(b: Seq<u8>) -> Option<(Seq<u8>, int)> {
    if b.len() < 2 {
        None
    } else {
        let len = parse_u16(b);
        if b.len() < 2 + len {
            None
        } else {
            Some((b.subrange(2, 2 + len), 2 + len))
        }
    }
}

/// Reads a length-prefixed UTF-8 string field from the front of `b`.
pub open spec fn parse_str_field(b: Seq<u8>) -> Result<(Seq<char>, int), ErrorView> {
    match parse_bytes_field(b) {
        Option::None => Err(ErrorView::InvalidLength),
        Option::Some((f, n)) => {
            if valid_utf8(f) {
                Ok((decode_utf8(f), n))
            } else {
                Err(ErrorView::InvalidString)
            }
        },
    }
}

/// Reading a length-prefixed byte field back from its own wire image
/// recovers the field, whatever follows it.
pub proof fn lemma_parse_bytes_field(f: Seq<u8>, rest: Seq<u8>)
    requires
        f.len() <= 0xFFFF,
    ensures
        parse_bytes_field(len_field_bytes(f) + rest) == Some((f, 2 + f.len() as int)),
{
    let b = len_field_bytes(f) + rest;
    let n = f.len() as u16;
    assert(b[0] == u16_be(n)[0] && b[1] == u16_be(n)[1]);
    lemma_parse_u16_be(n, b);
    assert(b.subrange(2, 2 + n as int) =~= f);
}

/// Reading a length-prefixed string field back from its own wire image
/// recovers the characters, whatever follows it.
pub proof fn lemma_parse_str_field(s: Seq<char>, rest: Seq<u8>)
    requires
        encode_utf8(s).len() <= 0xFFFF,
    ensures
        parse_str_field(str_field_bytes(s) + rest) == Ok::<_, ErrorView>((
            s,
            2 + encode_utf8(s).len() as int,
        )),
{
    lemma_parse_bytes_field(encode_utf8(s), rest);
    broadcast use vstd::utf8::encode_utf8_valid_utf8, vstd::utf8::encode_utf8_decode_utf8;

}

// ---------------------------------------------------------------------------
// The remaining-length variable-length integer
// ---------------------------------------------------------------------------

/// How a remaining-length encoding read from the front of a buffer ends:
/// the buffer ran out before a terminating byte, a fifth byte would be
/// needed, or a value together with the number of bytes it occupied.
pub enum VarIntParse {
    NotEnough,
    TooLong,
    Done { value: int, width: int },
}

/// The number of bytes the remaining-length encoding of `n` occupies.
pub open spec fn varint_len(n: int) -> int
    recommends
        0 <= n <= VARINT_MAX,
{
    if n < 128 {
        1
    } else if n < 16384 {
        2
    } else if n < 2097152 {
        3
    } else {
        4
    }
}

/// The wire image of `n` in the remaining-length encoding: each byte
/// carries seven low bits, and a high bit that says more bytes follow.
pub open spec fn varint_bytes(n: int) -> Seq<u8>
    recommends
        0 <= n <= VARINT_MAX,
{
    if n < 128 {
        seq![n as u8]
    } else if n < 16384 {
        seq![(n % 128 + 128) as u8, (n / 128) as u8]
    } else if n < 2097152 {
        seq![(n % 128 + 128) as u8, ((n / 128) % 128 + 128) as u8, (n / 16384) as u8]
    } else {
        seq![
            (n % 128 + 128) as u8,
            ((n / 128) % 128 + 128) as u8,
            ((n / 16384) % 128 + 128) as u8,
            (n / 2097152) as u8,
        ]
    }
}

/// Reads a remaining-length encoding from the front of `b`: bytes below 128
/// terminate, bytes of 128 and above continue, and a fifth byte is illegal.
pub open spec fn spec_parse_varint(b: Seq<u8>) -> VarIntParse {
    if b.len() < 1 {
        VarIntParse::NotEnough
    } else if b[0] < 128 {
        VarIntParse::Done { value: b[0] as int, width: 1 }
    } else if b.len() < 2 {
        VarIntParse::NotEnough
    } else if b[1] < 128 {
        VarIntParse::Done { value: (b[0] - 128) + 128 * b[1], width: 2 }
    } else if b.len() < 3 {
        VarIntParse::NotEnough
    } else if b[2] < 128 {
        VarIntParse::Done {
            value: (b[0] - 128) + 128 * (b[1] - 128) + 16384 * b[2],
            width: 3,
        }
    } else if b.len() < 4 {
        VarIntParse::NotEnough
    } else if b[3] < 128 {
        VarIntParse::Done {
            value: (b[0] - 128) + 128 * (b[1] - 128) + 16384 * (b[2] - 128) + 2097152 * b[3],
            width: 4,
        }
    } else {
        VarIntParse::TooLong
    }
}

/// Reading a remaining-length encoding back from its own wire image
/// recovers the value and the width, whatever follows it.
pub proof fn lemma_parse_varint(n: int, rest: Seq<u8>)
    requires
        0 <= n <= VARINT_MAX,
    ensures
        spec_parse_varint(varint_bytes(n) + rest) == (VarIntParse::Done {
            value: n,
            width: varint_len(n),
        }),
{
    let b = varint_bytes(n) + rest;
    if n < 128 {
    } else if n < 16384 {
        assert(n == 128 * (n / 128) + n % 128) by (nonlinear_arith)
            requires n >= 0;
    } else if n < 2097152 {
        assert(n == 128 * (n / 128) + n % 128) by (nonlinear_arith)
            requires n >= 0;
        assert(n / 128 == 128 * (n / 128 / 128) + (n / 128) % 128) by (nonlinear_arith)
            requires n >= 0;
        assert(n / 128 / 128 == n / 16384) by (nonlinear_arith)
            requires n >= 0;
        assert(b[2] == (n / 16384) as u8);
        assert(n / 16384 < 128);
    } else {
        assert(n == 128 * (n / 128) + n % 128) by (nonlinear_arith)
            requires n >= 0;
        assert(n / 128 == 128 * (n / 128 / 128) + (n / 128) % 128) by (nonlinear_arith)
            requires n >= 0;
        assert(n / 128 / 128 == n / 16384) by (nonlinear_arith)
            requires n >= 0;
        assert(n / 16384 == 128 * (n / 16384 / 128) + (n / 16384) % 128) by (nonlinear_arith)
            requires n >= 0;
        assert(n / 16384 / 128 == n / 2097152) by (nonlinear_arith)
            requires n >= 0;
        assert(n / 2097152 < 128);
    }
}

/// A character sequence's UTF-8 encoding takes at most four bytes per
/// character.
pub proof fn lemma_encode_utf8_len(s: Seq<char>)
    ensures
        encode_utf8(s).len() <= 4 * s.len(),
    decreases s.len(),
{
    if s.len() > 0 {
        lemma_encode_utf8_len(s.drop_first());
    }
}

/// A parsed length-prefixed byte field fits its prefix and re-encodes to
/// exactly the bytes consumed.
pub proof fn lemma_parse_bytes_field_sound(b: Seq<u8>)
    requires
        parse_bytes_field(b) is Some,
    ensures
        ({
            let (f, n) = parse_bytes_field(b)->Some_0;
            &&& f.len() <= 0xFFFF
            &&& n == 2 + f.len()
            &&& len_field_bytes(f) == b.take(n)
        }),
{
    let (f, n) = parse_bytes_field(b)->Some_0;
    let len = parse_u16(b);
    assert(b[0] * 256 + b[1] == len);
    assert(len / 256 == b[0] && len % 256 == b[1]) by (nonlinear_arith)
        requires
            len == b[0] * 256 + b[1],
            0 <= b[0] < 256,
            0 <= b[1] < 256,
    ;
    assert(len_field_bytes(f) =~= b.take(n));
}

/// A parsed length-prefixed string field fits its prefix and re-encodes
/// to exactly the bytes consumed.
pub proof fn lemma_parse_str_field_sound(b: Seq<u8>)
    requires
        parse_str_field(b) is Ok,
    ensures
        ({
            let (s, n) = parse_str_field(b)->Ok_0;
            &&& encode_utf8(s).len() <= 0xFFFF
            &&& n == 2 + encode_utf8(s).len()
            &&& str_field_bytes(s) == b.take(n)
        }),
{
    lemma_parse_bytes_field_sound(b);
    let (f, n) = parse_bytes_field(b)->Some_0;
    vstd::utf8::decode_utf8_encode_utf8(f);
}

// ---------------------------------------------------------------------------
// In-place writes
// ---------------------------------------------------------------------------

/// The buffer `new_b` is `old_b` with exactly the segment `seg` written at
/// index `at`: same length, `seg` in place, everything else untouched.
pub open spec fn wrote(old_b: Seq<u8>, new_b: Seq<u8>, at: int, seg: Seq<u8>) -> bool {
    &&& new_b.len() == old_b.len()
    &&& 0 <= at
    &&& at + seg.len() <= old_b.len()
    &&& new_b.subrange(at, at + seg.len()) == seg
    &&& forall|i: int|
        0 <= i < old_b.len() && !(at <= i < at + seg.len()) ==> new_b[i] == old_b[i]
}

/// Writing one segment and then the next right after it writes their
/// concatenation.
pub proof fn lemma_wrote_wrote(
    a: Seq<u8>,
    b: Seq<u8>,
    c: Seq<u8>,
    at: int,
    s1: Seq<u8>,
    s2: Seq<u8>,
)
    requires
        wrote(a, b, at, s1),
        wrote(b, c, at + s1.len(), s2),
    ensures
        wrote(a, c, at, s1 + s2),
{
    assert(c.subrange(at, at + s1.len() + s2.len()) =~= s1 + s2) by {
        assert forall|i: int| 0 <= i < s1.len() implies c[at + i] == s1[i] by {
            assert(b[at + i] == b.subrange(at, at + s1.len())[i]);
        }
        assert forall|i: int| 0 <= i < s2.len() implies c[at + s1.len() + i] == s2[i] by {
            assert(c[at + s1.len() + i] == c.subrange(
                at + s1.len(),
                at + s1.len() + s2.len(),
            )[i]);
        }
    }
}

/// A write of nothing leaves the buffer as it is.
pub proof fn lemma_wrote_empty(a: Seq<u8>, at: int)
    requires
        0 <= at <= a.len(),
    ensures
        wrote(a, a, at, Seq::<u8>::empty()),
{
    assert(a.subrange(at, at) =~= Seq::<u8>::empty());
}

/// A parsed remaining length always lies within the encodable range, and
/// its width within the bytes present.
pub proof fn lemma_parse_varint_bound(b: Seq<u8>)
    requires
        spec_parse_varint(b) is Done,
    ensures
        0 <= spec_parse_varint(b)->value <= VARINT_MAX,
        1 <= spec_parse_varint(b)->width <= b.len(),
{
}

/// A strict prefix of a remaining-length encoding never parses: every byte
/// before the last carries the continuation bit, so the parse always asks
/// for more.
pub proof fn lemma_parse_varint_prefix(n: int, k: int)
    requires
        0 <= n <= VARINT_MAX,
        0 <= k < varint_len(n),
    ensures
        spec_parse_varint(varint_bytes(n).take(k)) is NotEnough,
{
    let b = varint_bytes(n).take(k);
    assert(b.len() == k);
    if k >= 1 {
        assert(b[0] == varint_bytes(n)[0]);
    }
    if k >= 2 {
        assert(b[1] == varint_bytes(n)[1]);
    }
    if k >= 3 {
        assert(b[2] == varint_bytes(n)[2]);
    }
}

// ---------------------------------------------------------------------------
// UTF-8 validation
// ---------------------------------------------------------------------------

/// Relies on `String::from_utf8`: it succeeds exactly on valid UTF-8 input
/// and returns the string whose characters the bytes encode.
#[verifier::external_body]
pub(crate) fn string_from_utf8(v: Vec<u8>) -> (r: Option<String>)
    ensures
        r is Some <==> valid_utf8(v@),
        r matches Some(s) ==> s@ == decode_utf8(v@),
{
    match String::from_utf8(v) {
        Ok(s) => Some(s),
        Err(_) => None,
    }
}

} // verus!
