//! The IPv4 address model: dotted-quad addresses and /24 block bases.

use vstd::prelude::*;

verus! {

/// One IPv4 address, stored as its four dotted-quad octets.
#[derive(Clone, Copy, Debug, PartialEq, Eq, Structural)]
pub struct Addr {
    pub o1: u8,
    pub o2: u8,
    pub o3: u8,
    pub o4: u8,
}

impl Addr {
    /// The numeric 32-bit value of the address.
    pub open spec fn value(self) -> int {
        self.o1 as int * 0x100_0000 + self.o2 as int * 0x1_0000 + self.o3 as int * 0x100
            + self.o4 as int
    }

    /// The base address (`a.b.c.0`) of the /24 block that contains `self`.
    pub open spec fn spec_base(self) -> Addr {
        Addr { o1: self.o1, o2: self.o2, o3: self.o3, o4: 0 }
    }

    /// Whether `self` names a /24 block (its last octet is zero).
    pub open spec fn is_base(self) -> bool {
        self.o4 == 0
    }

    /// Whether the last octet is in the usable host range of a /24 block:
    /// `.0` (the base) and `.255` (broadcast) are reserved.
    pub open spec fn is_host_octet(self) -> bool {
        1 <= self.o4 <= 254
    }

    /// Whether `self` is inside the /24 block with base `base`.
    pub open spec fn in_block(self, base: Addr) -> bool {
        self.o1 == base.o1 && self.o2 == base.o2 && self.o3 == base.o3
    }

    pub fn new(o1: u8, o2: u8, o3: u8, o4: u8) -> (r: Addr)
        ensures
            r == (Addr { o1, o2, o3, o4 }),
    {
        Addr { o1, o2, o3, o4 }
    }

    /// The base address of the /24 block that contains `self`.
    pub fn base(self) -> (r: Addr)
        ensures
            r == self.spec_base(),
    {
        Addr { o1: self.o1, o2: self.o2, o3: self.o3, o4: 0 }
    }

    /// The numeric value of the address, for ordering.
    pub fn value_u32(self) -> (r: u32)
        ensures
            r == self.value(),
    {
        self.o1 as u32 * 0x100_0000 + self.o2 as u32 * 0x1_0000 + self.o3 as u32 * 0x100
            + self.o4 as u32
    }
}

/// Two addresses with the same numeric value have the same octets.
pub proof fn lemma_value_injective(a: Addr, b: Addr)
    requires
        a.value() == b.value(),
    ensures
        a == b,
{
    let la = a.o2 as int * 0x1_0000 + a.o3 as int * 0x100 + a.o4 as int;
    let lb = b.o2 as int * 0x1_0000 + b.o3 as int * 0x100 + b.o4 as int;
    assert(0 <= la < 0x100_0000 && 0 <= lb < 0x100_0000);
    assert(a.o1 as int * 0x100_0000 + la == b.o1 as int * 0x100_0000 + lb);
    assert(a.o1 == b.o1) by (nonlinear_arith)
        requires
            a.o1 as int * 0x100_0000 + la == b.o1 as int * 0x100_0000 + lb,
            0 <= la < 0x100_0000,
            0 <= lb < 0x100_0000,
    ;
    let ma = a.o3 as int * 0x100 + a.o4 as int;
    let mb = b.o3 as int * 0x100 + b.o4 as int;
    assert(a.o2 as int * 0x1_0000 + ma == b.o2 as int * 0x1_0000 + mb);
    assert(a.o2 == b.o2) by (nonlinear_arith)
        requires
            a.o2 as int * 0x1_0000 + ma == b.o2 as int * 0x1_0000 + mb,
            0 <= ma < 0x1_0000,
            0 <= mb < 0x1_0000,
    ;
    assert(a.o3 == b.o3) by (nonlinear_arith)
        requires
            a.o3 as int * 0x100 + a.o4 as int == b.o3 as int * 0x100 + b.o4 as int,
            0 <= a.o4 < 0x100,
            0 <= b.o4 < 0x100,
    ;
}

} // verus!
