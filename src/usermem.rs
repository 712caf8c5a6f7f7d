//! Memory mapping requests from user mode.
use vstd::prelude::*;
use crate::memory_set::{MAP_R, MAP_U, MAP_W, MAP_X};

verus! {

/// Permissions a user asks for in a mapping request: read (bit 0), write
/// (bit 1), execute (bit 2).
#[derive(Debug, Clone, Copy, PartialEq, Eq, Structural)]
pub struct UserMapPermission {
    bits: usize,
}

/// The area permissions a request for `bits` maps to: each requested
/// permission, and user access.
pub open spec fn map_perm_of(bits: usize) -> u8 {
    let base = MAP_U;
    let with_r = if bits & 1 != 0 { base | MAP_R } else { base };
    let with_w = if bits & 2 != 0 { with_r | MAP_W } else { with_r };
    if bits & 4 != 0 { with_w | MAP_X } else { with_w }
}

impl UserMapPermission {
    pub closed spec fn view_bits(&self) -> usize {
        self.bits
    }

    /// The permission with exactly `bits`; `None` when a bit other than
    /// read, write and execute is set.
    pub fn from_bits(bits: usize) -> (r: Option<Self>)
        ensures
            r is Some <==> bits & !7usize == 0,
            r matches Some(p) ==> p.view_bits() == bits,
    {
        if bits & !7usize == 0 {
            Some(Self { bits })
        } else {
            None
        }
    }

    pub fn bits(&self) -> (r: usize)
        ensures
            r == self.view_bits(),
    {
        self.bits
    }

    /// Only read, write and execute are asked for, and at least one.
    pub fn is_valid(&self) -> (r: bool)
        ensures
            r == (self.view_bits() & !7usize == 0 && self.view_bits() != 0),
    {
        (self.bits & !7usize == 0) && self.bits != 0
    }

    /// The area permissions this request maps to.
    pub fn to_map_permission(&self) -> (r: u8)
        ensures
            r == map_perm_of(self.view_bits()),
    {
        let mut res = MAP_U;
        if self.bits & 1 != 0 {
            res = res | MAP_R;
        }
        if self.bits & 2 != 0 {
            res = res | MAP_W;
        }
        if self.bits & 4 != 0 {
            res = res | MAP_X;
        }
        res
    }
}

} // verus!
