//! Rendering addresses, blocks and host records as output-file bytes.
//!
//! Every line of the result files is built here: `a.b.c.0/24` lines for the
//! subnet list, bare address lines, and `address,hostname` lines.

use vstd::prelude::*;

use crate::addr::Addr;

verus! {

/// The decimal text of `n`, most significant digit first.
pub open spec fn dec_of(n: nat) -> Seq<u8>
    decreases n,
{
    if n < 10 {
        seq![(48 + n) as u8]
    } else {
        dec_of(n / 10).push((48 + n % 10) as u8)
    }
}

/// The dotted-quad text of `a`.
pub open spec fn dotted_text(a: Addr) -> Seq<u8> {
    dec_of(a.o1 as nat) + seq![46u8] + dec_of(a.o2 as nat) + seq![46u8] + dec_of(a.o3 as nat)
        + seq![46u8] + dec_of(a.o4 as nat)
}

/// One `subnets.txt` line: the block base in CIDR form, newline-terminated.
pub open spec fn subnet_line(b: Addr) -> Seq<u8> {
    dotted_text(b) + seq![47u8, 50u8, 52u8, 10u8]
}

/// One bare address line, newline-terminated.
pub open spec fn addr_line(a: Addr) -> Seq<u8> {
    dotted_text(a) + seq![10u8]
}

/// One `ip_hostname.txt` line: address, comma, hostname, newline.
pub open spec fn host_line(a: Addr, name: Seq<u8>) -> Seq<u8> {
    dotted_text(a) + seq![44u8] + name + seq![10u8]
}

/// The whole `subnets.txt` body: one subnet line per listed block.
pub open spec fn subnets_text(s: Seq<Addr>) -> Seq<u8>
    decreases s.len(),
{
    if s.len() == 0 {
        Seq::empty()
    } else {
        subnets_text(s.drop_last()) + subnet_line(s.last())
    }
}

/// A body of bare address lines, one per address.
pub open spec fn addrs_text(s: Seq<Addr>) -> Seq<u8>
    decreases s.len(),
{
    if s.len() == 0 {
        Seq::empty()
    } else {
        addrs_text(s.drop_last()) + addr_line(s.last())
    }
}

/// The whole `ip_hostname.txt` body: one `address,hostname` line per record.
pub open spec fn hosts_text(rs: Seq<(Addr, Seq<u8>, bool)>) -> Seq<u8>
    decreases rs.len(),
{
    if rs.len() == 0 {
        Seq::empty()
    } else {
        hosts_text(rs.drop_last()) + host_line(rs.last().0, rs.last().1)
    }
}

/// The whole `up_ips.txt` body: one address line per record that stage one
/// discovered.
pub open spec fn up_text(rs: Seq<(Addr, Seq<u8>, bool)>) -> Seq<u8>
    decreases rs.len(),
{
    if rs.len() == 0 {
        Seq::empty()
    } else {
        up_text(rs.drop_last()) + (if rs.last().2 {
            addr_line(rs.last().0)
        } else {
            Seq::<u8>::empty()
        })
    }
}

/// The name of a per-port result file: the decimal port, then `.txt`.
pub open spec fn port_file_name_text(p: u16) -> Seq<u8> {
    dec_of(p as nat) + seq![46u8, 116u8, 120u8, 116u8]
}

/// The name of the result file for port `p`.
pub fn port_file_name(p: u16) -> (r: Vec<u8>)
    ensures
        r@ == port_file_name_text(p),
{
    let mut r: Vec<u8> = Vec::new();
    push_dec(&mut r, p);
    r.push(46);
    r.push(116);
    r.push(120);
    r.push(116);
    proof {
        assert(r@ =~= port_file_name_text(p));
    }
    r
}

/// Appends the decimal text of `n`.
pub fn push_dec(out: &mut Vec<u8>, n: u16)
    ensures
        final(out)@ == old(out)@ + dec_of(n as nat),
    decreases n,
{
    if n < 10 {
        out.push(48 + n as u8);
        proof {
            assert(final(out)@ =~= old(out)@ + dec_of(n as nat));
        }
    } else {
        push_dec(out, n / 10);
        out.push(48 + (n % 10) as u8);
        proof {
            assert(dec_of(n as nat) == dec_of(n as nat / 10).push((48 + n as nat % 10) as u8));
            assert(out@ =~= old(out)@ + dec_of(n as nat));
        }
    }
}

/// Appends a copy of `s`.
pub fn push_bytes(out: &mut Vec<u8>, s: &Vec<u8>)
    ensures
        final(out)@ == old(out)@ + s@,
{
    let mut i: usize = 0;
    while i < s.len()
        invariant
            i <= s@.len(),
            out@ == old(out)@ + s@.subrange(0, i as int),
        decreases s@.len() - i,
    {
        out.push(s[i]);
        proof {
            assert(out@ =~= old(out)@ + s@.subrange(0, i + 1));
        }
        i = i + 1;
    }
    proof {
        assert(s@.subrange(0, s@.len() as int) =~= s@);
    }
}

/// Appends the dotted-quad text of `a`.
pub fn push_addr_text(out: &mut Vec<u8>, a: Addr)
    ensures
        final(out)@ == old(out)@ + dotted_text(a),
{
    push_dec(out, a.o1 as u16);
    out.push(46);
    push_dec(out, a.o2 as u16);
    out.push(46);
    push_dec(out, a.o3 as u16);
    out.push(46);
    push_dec(out, a.o4 as u16);
    proof {
        assert(out@ =~= old(out)@ + dotted_text(a));
    }
}

/// Appends one subnet line for the block base `b`.
pub fn push_subnet_line(out: &mut Vec<u8>, b: Addr)
    ensures
        final(out)@ == old(out)@ + subnet_line(b),
{
    push_addr_text(out, b);
    out.push(47);
    out.push(50);
    out.push(52);
    out.push(10);
    proof {
        assert(out@ =~= old(out)@ + subnet_line(b));
    }
}

/// Appends one bare address line for `a`.
pub fn push_addr_line(out: &mut Vec<u8>, a: Addr)
    ensures
        final(out)@ == old(out)@ + addr_line(a),
{
    push_addr_text(out, a);
    out.push(10);
    proof {
        assert(out@ =~= old(out)@ + addr_line(a));
    }
}

/// Appends one `address,hostname` line.
pub fn push_host_line(out: &mut Vec<u8>, a: Addr, name: &Vec<u8>)
    ensures
        final(out)@ == old(out)@ + host_line(a, name@),
{
    push_addr_text(out, a);
    out.push(44);
    push_bytes(out, name);
    out.push(10);
    proof {
        assert(out@ =~= old(out)@ + host_line(a, name@));
    }
}

} // verus!
