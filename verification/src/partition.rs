//! Partitioning the scan target into an ordered sequence of /24 blocks.
//!
//! The target is either the whole RFC1918 private address space or a single
//! CIDR block; either way the partition is the ascending sequence of the /24
//! block bases that cover it.

use vstd::prelude::*;

use crate::addr::Addr;
use crate::parse::CidrPrefix;

verus! {

/// Whether `b` is the base of a /24 block inside the private ranges
/// `10.0.0.0/8`, `172.16.0.0/12`, `192.168.0.0/16`.
pub open spec fn is_private_base(b: Addr) -> bool {
    b.o4 == 0 && (b.o1 == 10 || (b.o1 == 172 && 16 <= b.o2 <= 31) || (b.o1 == 192 && b.o2
        == 168))
}

/// What is to be scanned: everything private, or one CIDR block.
#[derive(Clone, Copy, Debug, PartialEq, Eq, Structural)]
pub enum ScanTarget {
    AllPrivate,
    Cidr(Addr, CidrPrefix),
}

/// Whether `b` is the base of a /24 block inside the CIDR block of prefix
/// length `p` that contains `a`.
pub open spec fn in_cidr_base(a: Addr, p: CidrPrefix, b: Addr) -> bool {
    match p {
        CidrPrefix::Len8 => b.o4 == 0 && b.o1 == a.o1,
        CidrPrefix::Len16 => b.o4 == 0 && b.o1 == a.o1 && b.o2 == a.o2,
        CidrPrefix::Len24 => b == a.spec_base(),
    }
}

/// Whether `b` is the base of a /24 block that the target covers.
pub open spec fn target_covers(t: ScanTarget, b: Addr) -> bool {
    match t {
        ScanTarget::AllPrivate => is_private_base(b),
        ScanTarget::Cidr(a, p) => in_cidr_base(a, p, b),
    }
}

/// `b` occurs in `s` at or after position `n0`.
pub open spec fn occurs_from(s: Seq<Addr>, n0: int, b: Addr) -> bool {
    exists|t: int| n0 <= t < s.len() && s[t] == b
}

/// Appends, in ascending order, the bases `o1.x.y.0` for every `x` in
/// `[lo, hi]` and every `y`.
fn push_block_range(out: &mut Vec<Addr>, o1: u8, lo: u8, hi: u8)
    requires
        lo <= hi,
    ensures
        final(out)@.len() == old(out)@.len() + 256 * (hi - lo + 1),
        forall|t: int| 0 <= t < old(out)@.len() ==> final(out)@[t] == old(out)@[t],
        forall|t: int|
            old(out)@.len() <= t < final(out)@.len() ==> {
                let b = #[trigger] final(out)@[t];
                b.o1 == o1 && lo <= b.o2 <= hi && b.o4 == 0
            },
        forall|t1: int, t2: int|
            old(out)@.len() <= t1 < t2 < final(out)@.len() ==> final(out)@[t1].value()
                < final(out)@[t2].value(),
        forall|b: Addr|
            b.o1 == o1 && lo <= b.o2 <= hi && b.o4 == 0 ==> #[trigger] occurs_from(
                final(out)@,
                old(out)@.len() as int,
                b,
            ),
{
    let ghost n0 = out@.len() as int;
    let mut x: usize = lo as usize;
    while x <= hi as usize
        invariant
            0 <= n0,
            lo <= x,
            x <= hi as usize + 1,
            out@.len() == n0 + 256 * (x - lo),
            forall|t: int| 0 <= t < n0 ==> out@[t] == old(out)@[t],
            forall|t: int|
                n0 <= t < out@.len() ==> {
                    let b = #[trigger] out@[t];
                    b.o1 == o1 && lo <= b.o2 <= hi && b.o2 < x && b.o4 == 0
                },
            forall|t: int|
                n0 <= t < out@.len() ==> (#[trigger] out@[t]).value() < o1 * 0x100_0000 + x
                    * 0x1_0000,
            forall|t1: int, t2: int|
                n0 <= t1 < t2 < out@.len() ==> out@[t1].value() < out@[t2].value(),
            forall|b: Addr|
                b.o1 == o1 && lo <= b.o2 && b.o2 < x && b.o4 == 0 ==> #[trigger] occurs_from(
                    out@,
                    n0,
                    b,
                ),
        decreases hi as int + 1 - x,
    {
        let mut y: usize = 0;
        while y < 256
            invariant
                0 <= n0,
                lo <= x <= hi as int,
                y <= 256,
                out@.len() == n0 + 256 * (x - lo) + y,
                forall|t: int| 0 <= t < n0 ==> out@[t] == old(out)@[t],
                forall|t: int|
                    n0 <= t < out@.len() ==> {
                        let b = #[trigger] out@[t];
                        b.o1 == o1 && lo <= b.o2 <= hi && b.o2 <= x && b.o4 == 0
                    },
                forall|t: int|
                    n0 <= t < out@.len() ==> (#[trigger] out@[t]).value() < o1 * 0x100_0000 + x
                        * 0x1_0000 + y * 0x100,
                forall|t1: int, t2: int|
                    n0 <= t1 < t2 < out@.len() ==> out@[t1].value() < out@[t2].value(),
                forall|b: Addr|
                    b.o1 == o1 && lo <= b.o2 && (b.o2 < x || (b.o2 == x && b.o3 < y)) && b.o4 == 0
                        ==> #[trigger] occurs_from(out@, n0, b),
            decreases 256 - y,
        {
            let ghost before = out@;
            let b = Addr { o1, o2: x as u8, o3: y as u8, o4: 0 };
            out.push(b);
            proof {
                assert(out@[out@.len() - 1] == b);
                assert(b.value() == o1 * 0x100_0000 + x * 0x1_0000 + y * 0x100);
                assert forall|c: Addr|
                    c.o1 == o1 && lo <= c.o2 && (c.o2 < x || (c.o2 == x && c.o3 < y + 1)) && c.o4
                        == 0 implies #[trigger] occurs_from(out@, n0, c) by {
                    if c.o2 < x || (c.o2 == x && c.o3 < y) {
                        assert(occurs_from(before, n0, c));
                        let t = choose|t: int| n0 <= t < before.len() && before[t] == c;
                        assert(out@[t] == c);
                    } else {
                        assert(c == b);
                        assert(out@[out@.len() - 1] == c);
                    }
                }
            }
            y = y + 1;
        }
        x = x + 1;
    }
    proof {
        assert forall|b: Addr|
            b.o1 == o1 && lo <= b.o2 <= hi && b.o4 == 0 implies #[trigger] occurs_from(
            out@,
            n0,
            b,
        ) by {
            assert(b.o2 < x);
        }
    }
}

/// The ordered /24 partition of the target: every covered block base, in
/// ascending numeric order, each exactly once.
pub fn target_blocks(target: &ScanTarget) -> (r: Vec<Addr>)
    ensures
        forall|t: int| 0 <= t < r@.len() ==> target_covers(*target, #[trigger] r@[t]),
        forall|t1: int, t2: int| 0 <= t1 < t2 < r@.len() ==> r@[t1].value() < r@[t2].value(),
        forall|b: Addr| target_covers(*target, b) ==> r@.contains(b),
{
    match target {
        ScanTarget::AllPrivate => private_blocks(),
        ScanTarget::Cidr(a, p) => cidr_blocks(*a, *p),
    }
}

/// The ordered /24 partition of the whole private address space:
/// `10.0.0.0/8`, then `172.16.0.0/12`, then `192.168.0.0/16`.
pub fn private_blocks() -> (r: Vec<Addr>)
    ensures
        r@.len() == 69888,
        forall|t: int| 0 <= t < r@.len() ==> is_private_base(#[trigger] r@[t]),
        forall|t1: int, t2: int| 0 <= t1 < t2 < r@.len() ==> r@[t1].value() < r@[t2].value(),
        forall|b: Addr| is_private_base(b) ==> r@.contains(b),
{
    let mut r: Vec<Addr> = Vec::new();
    push_block_range(&mut r, 10, 0, 255);
    let ghost r1 = r@;
    push_block_range(&mut r, 172, 16, 31);
    let ghost r2 = r@;
    push_block_range(&mut r, 192, 168, 168);
    proof {
        assert forall|t1: int, t2: int| 0 <= t1 < t2 < r@.len() implies r@[t1].value()
            < r@[t2].value() by {
            assert(r@[t1].o1 == 10 || r@[t1].o1 == 172 || r@[t1].o1 == 192);
            assert(r@[t2].o1 == 10 || r@[t2].o1 == 172 || r@[t2].o1 == 192);
        }
        assert forall|b: Addr| is_private_base(b) implies r@.contains(b) by {
            if b.o1 == 10 {
                assert(occurs_from(r1, 0, b));
                let t = choose|t: int| 0 <= t < r1.len() && r1[t] == b;
                assert(r2[t] == b);
                assert(r@[t] == b);
            } else if b.o1 == 172 {
                assert(occurs_from(r2, r1.len() as int, b));
                let t = choose|t: int| r1.len() <= t < r2.len() && r2[t] == b;
                assert(r@[t] == b);
            } else {
                assert(occurs_from(r@, r2.len() as int, b));
                let t = choose|t: int| r2.len() <= t < r@.len() && r@[t] == b;
                assert(r@[t] == b);
            }
        }
    }
    r
}

/// The ordered /24 partition of the CIDR block of prefix length `p` that
/// contains `a`.
pub fn cidr_blocks(a: Addr, p: CidrPrefix) -> (r: Vec<Addr>)
    ensures
        forall|t: int| 0 <= t < r@.len() ==> in_cidr_base(a, p, #[trigger] r@[t]),
        forall|t1: int, t2: int| 0 <= t1 < t2 < r@.len() ==> r@[t1].value() < r@[t2].value(),
        forall|b: Addr| in_cidr_base(a, p, b) ==> r@.contains(b),
{
    let mut r: Vec<Addr> = Vec::new();
    match p {
        CidrPrefix::Len8 => {
            push_block_range(&mut r, a.o1, 0, 255);
        },
        CidrPrefix::Len16 => {
            push_block_range(&mut r, a.o1, a.o2, a.o2);
        },
        CidrPrefix::Len24 => {
            r.push(a.base());
            assert(r@[0] == a.spec_base());
        },
    }
    proof {
        assert forall|b: Addr| in_cidr_base(a, p, b) implies r@.contains(b) by {
            match p {
                CidrPrefix::Len24 => {
                    assert(r@[0] == b);
                },
                _ => {
                    assert(occurs_from(r@, 0, b));
                    let t = choose|t: int| 0 <= t < r@.len() && r@[t] == b;
                    assert(r@[t] == b);
                },
            }
        }
    }
    r
}

} // verus!
