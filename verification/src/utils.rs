use vstd::prelude::*;
use crate::errors::Error;
use crate::wire::{parse_u16, u16_be, wrote};

verus! {

/// Packet identifier, used by the acknowledged delivery levels.
///
/// The protocol disallows an identifier of zero; the type enforces it:
/// every reachable `Pid` value is non-zero, and the wrapping arithmetic
/// skips zero.
#[derive(Debug, Clone, Copy, PartialEq, Eq, PartialOrd, Ord, Hash, Structural)]
pub struct Pid(u16);

/// What adding `u` to identifier value `v` yields: ordinary addition that
/// wraps from 65535 straight to 1, skipping zero.
pub open spec fn spec_pid_add(v: u16, u: u16) -> u16
    recommends
        v != 0,
{
    if v + u < 65536 {
        (v + u) as u16
    } else {
        (v + u - 65535) as u16
    }
}

/// What subtracting `u` from identifier value `v` yields: ordinary
/// subtraction that wraps from 1 straight to 65535, skipping zero.
pub open spec fn spec_pid_sub(v: u16, u: u16) -> u16
    recommends
        v != 0,
{
    if v == u {
        65535
    } else if v > u {
        (v - u) as u16
    } else {
        (v - u + 65535) as u16
    }
}

impl Pid {
    /// Every reachable identifier is non-zero.
    #[verifier::type_invariant]
    pub open spec fn inv(self) -> bool {
        self@ != 0
    }

    /// Returns a new `Pid` with value 1.
    pub fn new() -> (r: Self)
        ensures
            r@ == 1u16,
    {
        Pid(1)
    }

    /// Get the `Pid` as a raw `u16`.
    pub fn get(self) -> (r: u16)
        ensures
            r == self@,
    {
        self.0
    }

    /// Convert `u16` to `Pid`. Fails exactly for the value 0.
    pub fn try_from(u: u16) -> (r: Result<Self, Error>)
        ensures
            u != 0 ==> (r matches Ok(p) && p@ == u),
            u == 0 ==> (r matches Err(e) && e == Error::InvalidPid),
    {
        if u == 0 {
            Err(Error::InvalidPid)
        } else {
            Ok(Pid(u))
        }
    }

    /// Adding a `u16` to a `Pid` wraps around and avoids 0.
    pub fn add(self, u: u16) -> (r: Pid)
        ensures
            r@ == spec_pid_add(self@, u),
    {
        proof {
            use_type_invariant(self);
        }
        let s: u32 = self.0 as u32 + u as u32;
        if s < 65536 {
            Pid(s as u16)
        } else {
            Pid((s - 65535) as u16)
        }
    }

    /// Subtracting a `u16` from a `Pid` wraps around and avoids 0.
    pub fn sub(self, u: u16) -> (r: Pid)
        ensures
            r@ == spec_pid_sub(self@, u),
    {
        proof {
            use_type_invariant(self);
        }
        if self.0 > u {
            Pid(self.0 - u)
        } else if self.0 == u {
            Pid(65535)
        } else {
            Pid(65535 - (u - self.0))
        }
    }

    /// Reads a big-endian identifier from `buf` at `*offset`, rejecting
    /// zero, and advances past the two bytes.
    pub(crate) fn from_buffer(buf: &[u8], offset: &mut usize) -> (r: Result<Self, Error>)
        requires
            *old(offset) + 2 <= buf@.len(),
        ensures
            *final(offset) == *old(offset) + 2,
            ({
                let v = parse_u16(buf@.skip(*old(offset) as int));
                &&& v != 0 ==> (r matches Ok(p) && p@ == v)
                &&& v == 0 ==> (r matches Err(e) && e == Error::InvalidPid)
            }),
    {
        let hi = buf[*offset];
        let lo = buf[*offset + 1];
        let pid: u16 = (hi as u16) * 256 + (lo as u16);
        *offset = *offset + 2;
        proof {
            let s = buf@.skip(*old(offset) as int);
            assert(s[0] == hi && s[1] == lo);
        }
        Self::try_from(pid)
    }

    /// Writes the identifier big-endian into `buf` at `*offset`.
    pub(crate) fn to_buffer(self, buf: &mut Vec<u8>, offset: &mut usize)
        requires
            *old(offset) + 2 <= old(buf)@.len(),
        ensures
            wrote(old(buf)@, final(buf)@, *old(offset) as int, u16_be(self@)),
            *final(offset) == *old(offset) + 2,
    {
        crate::encoder::write_u16(buf, offset, self.get());
    }
}

impl Default for Pid {
    /// The default identifier has value 1.
    fn default() -> (r: Pid)
        ensures
            r@ == 1u16,
    {
        Pid::new()
    }
}

impl View for Pid {
    type V = u16;

    closed spec fn view(&self) -> u16 {
        self.0
    }
}

} // verus!
