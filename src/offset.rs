//! Byte offsets and sizes, written with an optional unit.

use vstd::prelude::*;

verus! {

/// A unit that multiplies a written number: decimal (`K`, `M`, `G`) or binary
/// (`Ki`, `Mi`, `Gi`).
#[derive(Debug, Clone, Copy, PartialEq, Eq)]
pub enum Magnitude {
    Unit,
    K,
    Ki,
    M,
    Mi,
    G,
    Gi,
}

/// The factor a unit stands for.
pub open spec fn factor(m: Magnitude) -> nat {
    match m {
        Magnitude::Unit => 1,
        Magnitude::K => 1000,
        Magnitude::Ki => 1024,
        Magnitude::M => 1000 * 1000,
        Magnitude::Mi => 1024 * 1024,
        Magnitude::G => 1000 * 1000 * 1000,
        Magnitude::Gi => 1024 * 1024 * 1024,
    }
}

impl Magnitude {
    /// The factor this unit stands for.
    pub fn factor(&self) -> (r: u64)
        ensures
            r as nat == factor(*self),
    {
        match self {
            Magnitude::Unit => 1,
            Magnitude::K => 1000,
            Magnitude::Ki => 1024,
            Magnitude::M => 1000 * 1000,
            Magnitude::Mi => 1024 * 1024,
            Magnitude::G => 1000 * 1000 * 1000,
            Magnitude::Gi => 1024 * 1024 * 1024,
        }
    }
}

/// A number of bytes, resolved from a number and a unit.
#[derive(Debug, Clone, Copy, PartialEq, Eq, PartialOrd, Ord)]
pub struct ByteOffset {
    count: u64,
}

impl View for ByteOffset {
    type V = nat;

    closed spec fn view(&self) -> nat {
        self.count as nat
    }
}

impl ByteOffset {
    /// `value` units of `magnitude` bytes.
    pub fn new(value: u64, magnitude: Magnitude) -> (r: ByteOffset)
        requires
            value * factor(magnitude) <= u64::MAX,
        ensures
            r@ == value * factor(magnitude),
    {
        let f = magnitude.factor();
        ByteOffset { count: value * f }
    }

    /// The number of bytes.
    pub fn as_u64(&self) -> (r: u64)
        ensures
            r as nat == self@,
    {
        self.count
    }

    /// The number of bytes, where it fits in a `usize`.
    pub fn as_usize(&self) -> (r: usize)
        requires
            self@ <= usize::MAX,
        ensures
            r as nat == self@,
    {
        self.count as usize
    }
}

} // verus!
