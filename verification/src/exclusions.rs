//! The exclusion set: individually excluded addresses, plus excluded /24
//! blocks.  It is filled once, from the exclusion file and from the scanning
//! host's own interface addresses, and is then only read.

use vstd::prelude::*;

use crate::addr::Addr;
use crate::parse::{spec_parse_line, parse_line, CidrPrefix, LineForm};

verus! {

/// Whether one of the first `n` lines is a bare address line for `a`.
pub open spec fn host_listed(lines: Seq<Vec<u8>>, n: int, a: Addr) -> bool {
    exists|i: int| 0 <= i < n && spec_parse_line(lines[i]@) == LineForm::Host(a)
}

/// Whether one of the first `n` lines is a `/24` line whose block base is `b`.
pub open spec fn block_listed(lines: Seq<Vec<u8>>, n: int, b: Addr) -> bool {
    exists|i: int|
        0 <= i < n && (#[trigger] spec_parse_line(lines[i]@) matches LineForm::Cidr(
            x,
            CidrPrefix::Len24,
        ) && x.spec_base() == b)
}

/// Whether one of the first `n` lines is malformed.
pub open spec fn any_malformed(lines: Seq<Vec<u8>>, n: int) -> bool {
    exists|i: int| 0 <= i < n && spec_parse_line(lines[i]@) == LineForm::Malformed
}

/// The set of excluded addresses and excluded /24 block bases.
pub struct ExclusionSet {
    addrs: Vec<Addr>,
    blocks: Vec<Addr>,
}

impl ExclusionSet {
    /// Whether the single address `a` is excluded.
    pub closed spec fn addr_excluded(self, a: Addr) -> bool {
        self.addrs@.contains(a)
    }

    /// Whether the /24 block with base `b` is excluded.
    pub closed spec fn block_excluded(self, b: Addr) -> bool {
        self.blocks@.contains(b)
    }

    /// An empty exclusion set.
    pub fn new() -> (r: Self)
        ensures
            forall|a: Addr| !r.addr_excluded(a),
            forall|b: Addr| !r.block_excluded(b),
    {
        ExclusionSet { addrs: Vec::new(), blocks: Vec::new() }
    }

    /// Excludes the single address `a` (used for the scanning host's own
    /// interface addresses, and for bare address lines).
    pub fn add_addr(&mut self, a: Addr)
        ensures
            forall|x: Addr|
                final(self).addr_excluded(x) <==> old(self).addr_excluded(x) || x == a,
            forall|b: Addr| final(self).block_excluded(b) == old(self).block_excluded(b),
    {
        let ghost before = self.addrs@;
        self.addrs.push(a);
        proof {
            assert forall|x: Addr| #[trigger]
                self.addrs@.contains(x) <==> before.contains(x) || x == a by {
                if before.contains(x) {
                    let t = choose|t: int| 0 <= t < before.len() && before[t] == x;
                    assert(self.addrs@[t] == x);
                }
                if x == a {
                    assert(self.addrs@[self.addrs@.len() - 1] == x);
                }
                if self.addrs@.contains(x) {
                    let t = choose|t: int| 0 <= t < self.addrs@.len() && self.addrs@[t] == x;
                    if t < before.len() {
                        assert(before[t] == x);
                    }
                }
            }
        }
    }

    /// Excludes the whole /24 block that contains `b`.
    pub fn add_block(&mut self, b: Addr)
        ensures
            forall|a: Addr| final(self).addr_excluded(a) == old(self).addr_excluded(a),
            forall|x: Addr|
                final(self).block_excluded(x) <==> old(self).block_excluded(x) || x
                    == b.spec_base(),
    {
        let ghost before = self.blocks@;
        let base = b.base();
        self.blocks.push(base);
        proof {
            assert forall|x: Addr| #[trigger]
                self.blocks@.contains(x) <==> before.contains(x) || x == b.spec_base() by {
                if before.contains(x) {
                    let t = choose|t: int| 0 <= t < before.len() && before[t] == x;
                    assert(self.blocks@[t] == x);
                }
                if x == b.spec_base() {
                    assert(self.blocks@[self.blocks@.len() - 1] == x);
                }
                if self.blocks@.contains(x) {
                    let t = choose|t: int| 0 <= t < self.blocks@.len() && self.blocks@[t] == x;
                    if t < before.len() {
                        assert(before[t] == x);
                    }
                }
            }
        }
    }

    /// Whether the single address `a` is excluded.
    pub fn is_addr_excluded(&self, a: Addr) -> (r: bool)
        ensures
            r == self.addr_excluded(a),
    {
        let mut i: usize = 0;
        while i < self.addrs.len()
            invariant
                i <= self.addrs@.len(),
                forall|t: int| 0 <= t < i ==> self.addrs@[t] != a,
            decreases self.addrs@.len() - i,
        {
            if self.addrs[i] == a {
                return true;
            }
            i = i + 1;
        }
        false
    }

    /// Whether the /24 block with base `b` is excluded.
    pub fn is_block_excluded(&self, b: Addr) -> (r: bool)
        ensures
            r == self.block_excluded(b),
    {
        let mut i: usize = 0;
        while i < self.blocks.len()
            invariant
                i <= self.blocks@.len(),
                forall|t: int| 0 <= t < i ==> self.blocks@[t] != b,
            decreases self.blocks@.len() - i,
        {
            if self.blocks[i] == b {
                return true;
            }
            i = i + 1;
        }
        false
    }

    /// Builds an exclusion set from the lines of the exclusion file.
    ///
    /// Bare address lines exclude that address; `/24` lines exclude the whole
    /// block containing the written address; `/8` and `/16` lines are
    /// recognized but not honored (the caller may report them).  The first
    /// malformed line is a fatal configuration error, returned as its index.
    pub fn from_lines(lines: &Vec<Vec<u8>>) -> (r: Result<Self, usize>)
        ensures
            r matches Ok(e) ==> {
                &&& !any_malformed(lines@, lines@.len() as int)
                &&& forall|a: Addr|
                    e.addr_excluded(a) <==> host_listed(lines@, lines@.len() as int, a)
                &&& forall|b: Addr|
                    e.block_excluded(b) <==> block_listed(lines@, lines@.len() as int, b)
            },
            r matches Err(i) ==> {
                &&& 0 <= i < lines@.len()
                &&& spec_parse_line(lines@[i as int]@) == LineForm::Malformed
                &&& !any_malformed(lines@, i as int)
            },
    {
        let mut e = ExclusionSet::new();
        let mut i: usize = 0;
        while i < lines.len()
            invariant
                i <= lines@.len(),
                !any_malformed(lines@, i as int),
                forall|a: Addr| e.addr_excluded(a) <==> host_listed(lines@, i as int, a),
                forall|b: Addr| e.block_excluded(b) <==> block_listed(lines@, i as int, b),
            decreases lines@.len() - i,
        {
            let ghost prev = e;
            match parse_line(&lines[i]) {
                LineForm::Host(a) => {
                    e.add_addr(a);
                    proof {
                        assert forall|x: Addr|
                            e.addr_excluded(x) <==> host_listed(lines@, i + 1, x) by {
                            if host_listed(lines@, i + 1, x) && !host_listed(lines@, i as int, x) {
                                let j = choose|j: int|
                                    0 <= j < i + 1 && spec_parse_line(lines@[j]@)
                                        == LineForm::Host(x);
                                assert(j == i);
                            }
                        }
                        assert forall|x: Addr|
                            e.block_excluded(x) <==> block_listed(lines@, i + 1, x) by {
                            if block_listed(lines@, i + 1, x) && !block_listed(
                                lines@,
                                i as int,
                                x,
                            ) {
                                let j = choose|j: int|
                                    0 <= j < i + 1 && (#[trigger] spec_parse_line(lines@[j]@)
                                        matches LineForm::Cidr(y, CidrPrefix::Len24)
                                        && y.spec_base() == x);
                                assert(j == i);
                            }
                        }
                    }
                },
                LineForm::Cidr(a, p) => {
                    if matches!(p, CidrPrefix::Len24) {
                        e.add_block(a);
                    }
                    proof {
                        assert forall|x: Addr|
                            e.addr_excluded(x) <==> host_listed(lines@, i + 1, x) by {
                            if host_listed(lines@, i + 1, x) && !host_listed(lines@, i as int, x) {
                                let j = choose|j: int|
                                    0 <= j < i + 1 && spec_parse_line(lines@[j]@)
                                        == LineForm::Host(x);
                                assert(j == i);
                            }
                        }
                        assert forall|x: Addr|
                            e.block_excluded(x) <==> block_listed(lines@, i + 1, x) by {
                            if block_listed(lines@, i + 1, x) && !block_listed(
                                lines@,
                                i as int,
                                x,
                            ) {
                                let j = choose|j: int|
                                    0 <= j < i + 1 && (#[trigger] spec_parse_line(lines@[j]@)
                                        matches LineForm::Cidr(y, CidrPrefix::Len24)
                                        && y.spec_base() == x);
                                assert(j == i);
                            }
                            if e.block_excluded(x) && !prev.block_excluded(x) {
                                assert(spec_parse_line(lines@[i as int]@) matches LineForm::Cidr(
                                    y,
                                    CidrPrefix::Len24,
                                ) && y.spec_base() == x);
                            }
                        }
                    }
                },
                LineForm::Malformed => {
                    return Err(i);
                },
            }
            i = i + 1;
        }
        Ok(e)
    }
}

} // verus!
