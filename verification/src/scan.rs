//! The scan engine.
//!
//! The engine owns the exclusion set and the accumulated results.  The caller
//! drives it: it asks for the addresses that may be probed (`block_plan`,
//! `port_plan`), performs the network probes itself, and hands the outcomes
//! back (`ingest_block`, `ingest_port_results`).  Exclusion filtering is
//! applied both when planning — so that no probe is ever issued for an
//! excluded address — and again when ingesting, so that an excluded address
//! can never enter the results, whatever the caller does.

use vstd::prelude::*;
use vstd::pervasive::VecAdditionalExecFns;

use crate::addr::Addr;
use crate::addr::lemma_value_injective;
use crate::exclusions::ExclusionSet;
use crate::output::{
    addrs_text, hosts_text, push_addr_line, push_host_line, push_subnet_line, subnets_text,
    up_text,
};

verus! {

/// One discovered host: its address, its hostname (or the unknown-hostname
/// sentinel), and whether stage one discovered it.
struct HostRecord {
    addr: Addr,
    name: Vec<u8>,
    stage_one: bool,
}

/// What one stage-one probe of a single address observed.
#[derive(Clone, Debug)]
pub struct ProbeReport {
    /// The hostname that reverse DNS returned, if any.
    pub resolved: Option<Vec<u8>>,
    /// Whether an ICMP echo reply was received.
    pub ping_reply: bool,
}

/// One stage-two TCP connect outcome.
#[derive(Clone, Copy, Debug)]
pub struct PortProbe {
    pub addr: Addr,
    pub port: u16,
    pub is_open: bool,
}

/// The unknown-hostname sentinel, `no_hostname`.
pub open spec fn unknown_name() -> Seq<u8> {
    seq![110u8, 111, 95, 104, 111, 115, 116, 110, 97, 109, 101]
}

/// The unknown-hostname sentinel as bytes.
pub fn unknown_name_bytes() -> (r: Vec<u8>)
    ensures
        r@ == unknown_name(),
{
    let mut r: Vec<u8> = Vec::new();
    r.push(110);
    r.push(111);
    r.push(95);
    r.push(104);
    r.push(111);
    r.push(115);
    r.push(116);
    r.push(110);
    r.push(97);
    r.push(109);
    r.push(101);
    proof {
        assert(r@ =~= unknown_name());
    }
    r
}

/// The hostname a probe really resolved: a reverse-DNS answer equal to the
/// sentinel counts as no answer.
pub open spec fn resolved_name(rep: ProbeReport) -> Option<Seq<u8>> {
    match rep.resolved {
        Option::Some(n) => if n@ == unknown_name() {
            Option::None
        } else {
            Option::Some(n@)
        },
        Option::None => Option::None,
    }
}

/// The record one stage-one outcome yields: the resolved hostname; else, when
/// ping is enabled and an echo reply arrived, the sentinel; else nothing.
pub open spec fn record_of(ping_enabled: bool, rep: ProbeReport) -> Option<Seq<u8>> {
    match resolved_name(rep) {
        Option::Some(n) => Option::Some(n),
        Option::None => if ping_enabled && rep.ping_reply {
            Option::Some(unknown_name())
        } else {
            Option::None
        },
    }
}

/// `b` occurs among the first `n` elements of `s`.
pub open spec fn base_before(s: Seq<Addr>, n: int, b: Addr) -> bool {
    exists|j: int| 0 <= j < n && s[j] == b
}

/// In a sequence of records strictly ascending by address value, each
/// address occurs at most once.
proof fn lemma_sorted_unique(r: Seq<(Addr, Seq<u8>, bool)>, i: int, j: int)
    requires
        forall|p: int, q: int| 0 <= p < q < r.len() ==> r[p].0.value() < r[q].0.value(),
        0 <= i < r.len(),
        0 <= j < r.len(),
        r[i].0 == r[j].0,
    ensures
        i == j,
{
    if i < j {
        assert(r[i].0.value() < r[j].0.value());
    }
    if j < i {
        assert(r[j].0.value() < r[i].0.value());
    }
}

/// The scan engine's state.
pub struct Scan {
    excl: ExclusionSet,
    ping_enabled: bool,
    ports: Vec<u16>,
    hosts: Vec<HostRecord>,
    subnets: Vec<Addr>,
    open_addrs: Vec<Vec<Addr>>,
}

impl Scan {
    /// The discovered hosts, ascending by address: address, hostname bytes,
    /// and whether stage one discovered the host.
    pub closed spec fn records(self) -> Seq<(Addr, Seq<u8>, bool)> {
        self.hosts@.map_values(|r: HostRecord| (r.addr, r.name@, r.stage_one))
    }

    /// The blocks found to have hosts, in discovery order.
    pub closed spec fn subnets_seq(self) -> Seq<Addr> {
        self.subnets@
    }

    /// The ports that stage two probes.
    pub closed spec fn ports_seq(self) -> Seq<u16> {
        self.ports@
    }

    /// How many per-port open-address collections there are.
    pub closed spec fn opens_count(self) -> int {
        self.open_addrs@.len() as int
    }

    /// The addresses with the `k`-th port open, ascending.
    pub closed spec fn opens_seq(self, k: int) -> Seq<Addr> {
        self.open_addrs@[k]@
    }

    /// Whether the single address `a` is excluded.
    pub closed spec fn addr_excluded(self, a: Addr) -> bool {
        self.excl.addr_excluded(a)
    }

    /// Whether the /24 block with base `b` is excluded.
    pub closed spec fn block_excluded(self, b: Addr) -> bool {
        self.excl.block_excluded(b)
    }

    /// Whether ping sweeps are enabled.
    pub closed spec fn ping_on(self) -> bool {
        self.ping_enabled
    }

    /// Whether some host record exists for `a`.
    pub open spec fn has_host(self, a: Addr) -> bool {
        exists|i: int| 0 <= i < self.records().len() && (#[trigger] self.records()[i]).0 == a
    }

    /// The index of the host record for `a`.
    pub open spec fn host_idx(self, a: Addr) -> int {
        choose|i: int| 0 <= i < self.records().len() && (#[trigger] self.records()[i]).0 == a
    }

    /// The recorded hostname of `a`.
    pub open spec fn host_name(self, a: Addr) -> Seq<u8> {
        self.records()[self.host_idx(a)].1
    }

    /// Whether stage one discovered `a`.
    pub open spec fn host_stage_one(self, a: Addr) -> bool {
        self.records()[self.host_idx(a)].2
    }

    /// Whether the `k`-th port is recorded open on `a`.
    pub open spec fn port_open(self, k: int, a: Addr) -> bool {
        exists|i: int| 0 <= i < self.opens_seq(k).len() && (#[trigger] self.opens_seq(k)[i]) == a
    }

    /// An address that may be probed and recorded at all: a usable host
    /// address, not excluded itself, not inside an excluded block.
    pub open spec fn admissible_addr(self, a: Addr) -> bool {
        a.is_host_octet() && !self.addr_excluded(a) && !self.block_excluded(a.spec_base())
    }

    /// A stage-one probe of `a` within the block `base` is admissible.
    pub open spec fn probe_admissible(self, base: Addr, a: Addr) -> bool {
        base.is_base() && !self.block_excluded(base) && a.in_block(base) && a.is_host_octet()
            && !self.addr_excluded(a)
    }

    /// The record that a batch of stage-one reports for the block `base`
    /// leaves for the address `x`: the outcome of the last admissible report
    /// for `x` that yields a record, if any.
    pub open spec fn batch_record(
        self,
        base: Addr,
        reports: Seq<(Addr, ProbeReport)>,
        x: Addr,
    ) -> Option<Seq<u8>>
        decreases reports.len(),
    {
        if reports.len() == 0 {
            Option::None
        } else {
            let last = reports.last();
            if last.0 == x && self.probe_admissible(base, x) && record_of(self.ping_on(), last.1)
                is Some {
                record_of(self.ping_on(), last.1)
            } else {
                self.batch_record(base, reports.drop_last(), x)
            }
        }
    }

    /// Whether some admissible report of the batch yields a record, i.e.
    /// whether the block turns out to have hosts.
    pub open spec fn batch_any(self, base: Addr, reports: Seq<(Addr, ProbeReport)>) -> bool {
        exists|i: int|
            0 <= i < reports.len() && self.probe_admissible(base, (#[trigger] reports[i]).0)
                && record_of(self.ping_on(), reports[i].1) is Some
    }

    /// A batch leaves no record for an inadmissible address.
    pub proof fn lemma_batch_record_none(
        self,
        base: Addr,
        reports: Seq<(Addr, ProbeReport)>,
        x: Addr,
    )
        requires
            !self.probe_admissible(base, x),
        ensures
            self.batch_record(base, reports, x) is None,
        decreases reports.len(),
    {
        if reports.len() > 0 {
            self.lemma_batch_record_none(base, reports.drop_last(), x);
        }
    }

    /// An address that stage two may probe: a usable host address of a
    /// listed subnet, not individually excluded.
    pub open spec fn port_target(self, a: Addr) -> bool {
        self.subnets_seq().contains(a.spec_base()) && a.is_host_octet() && !self.addr_excluded(a)
    }

    /// Whether a batch of stage-two outcomes reports the `k`-th port open on
    /// the admissible address `x`.
    pub open spec fn batch_open(self, results: Seq<PortProbe>, k: int, x: Addr) -> bool {
        exists|i: int|
            0 <= i < results.len() && (#[trigger] results[i]).addr == x && results[i].port
                == self.ports_seq()[k] && results[i].is_open && self.admissible_addr(x)
    }

    /// Whether a batch of stage-two outcomes reports any probed port open on
    /// the admissible address `x`, so that `x` becomes a discovered host.
    pub open spec fn batch_host(self, results: Seq<PortProbe>, x: Addr) -> bool {
        exists|i: int|
            0 <= i < results.len() && (#[trigger] results[i]).addr == x
                && self.ports_seq().contains(results[i].port) && results[i].is_open
                && self.admissible_addr(x)
    }

    /// Some stage-one host record lies in the block with base `b`.
    pub open spec fn subnet_justified(self, b: Addr) -> bool {
        exists|t: int|
            0 <= t < self.records().len() && (#[trigger] self.records()[t]).0.spec_base() == b
                && self.records()[t].2
    }

    /// The engine's invariant.  Host records are strictly ascending by
    /// address (so each address occurs once) and never excluded; listed
    /// subnets are distinct non-excluded block bases, each justified by a
    /// stage-one host inside it; ports are distinct, with one open-address
    /// collection per port, each strictly ascending and never excluded.
    pub open spec fn wf(self) -> bool {
        &&& forall|i: int, j: int|
            0 <= i < j < self.records().len() ==> self.records()[i].0.value()
                < self.records()[j].0.value()
        &&& forall|i: int|
            0 <= i < self.records().len() ==> self.admissible_addr(
                (#[trigger] self.records()[i]).0,
            )
        &&& forall|i: int, j: int|
            0 <= i < j < self.subnets_seq().len() ==> self.subnets_seq()[i]
                != self.subnets_seq()[j]
        &&& forall|i: int|
            0 <= i < self.subnets_seq().len() ==> (#[trigger] self.subnets_seq()[i]).is_base()
                && !self.block_excluded(self.subnets_seq()[i])
        &&& forall|i: int|
            0 <= i < self.subnets_seq().len() ==> self.subnet_justified(
                #[trigger] self.subnets_seq()[i],
            )
        &&& forall|i: int, j: int|
            0 <= i < j < self.ports_seq().len() ==> self.ports_seq()[i] != self.ports_seq()[j]
        &&& self.opens_count() == self.ports_seq().len()
        &&& forall|k: int, i: int, j: int|
            0 <= k < self.opens_count() && 0 <= i < j < self.opens_seq(k).len() ==> self.opens_seq(
                k,
            )[i].value() < self.opens_seq(k)[j].value()
        &&& forall|k: int, i: int|
            0 <= k < self.opens_count() && 0 <= i < self.opens_seq(k).len()
                ==> self.admissible_addr(#[trigger] self.opens_seq(k)[i])
    }

    /// A fresh engine over the given exclusions, probing ports 80, 443, 445.
    pub fn new(excl: ExclusionSet, ping_enabled: bool) -> (r: Scan)
        ensures
            r.wf(),
            forall|a: Addr| !r.has_host(a),
            r.subnets_seq().len() == 0,
            r.ports_seq() =~= seq![80u16, 443u16, 445u16],
            r.opens_count() == 3,
            forall|k: int| 0 <= k < 3 ==> r.opens_seq(k).len() == 0,
            forall|a: Addr| r.addr_excluded(a) == excl.addr_excluded(a),
            forall|b: Addr| r.block_excluded(b) == excl.block_excluded(b),
            r.ping_on() == ping_enabled,
    {
        let mut ports: Vec<u16> = Vec::new();
        ports.push(80);
        ports.push(443);
        ports.push(445);
        let mut open_addrs: Vec<Vec<Addr>> = Vec::new();
        open_addrs.push(Vec::new());
        open_addrs.push(Vec::new());
        open_addrs.push(Vec::new());
        let r = Scan {
            excl,
            ping_enabled,
            ports,
            hosts: Vec::new(),
            subnets: Vec::new(),
            open_addrs,
        };
        proof {
            assert(r.ports_seq() =~= seq![80u16, 443u16, 445u16]);
            assert(r.records().len() == 0);
        }
        r
    }

    /// A fresh engine over the given exclusions, probing the given port set
    /// in stage two.  Repeated ports are taken once.
    pub fn new_with_ports(excl: ExclusionSet, ping_enabled: bool, wanted: &Vec<u16>) -> (r: Scan)
        ensures
            r.wf(),
            forall|a: Addr| !r.has_host(a),
            r.subnets_seq().len() == 0,
            forall|p: u16| #[trigger] r.ports_seq().contains(p) <==> wanted@.contains(p),
            forall|k: int| 0 <= k < r.opens_count() ==> r.opens_seq(k).len() == 0,
            forall|a: Addr| r.addr_excluded(a) == excl.addr_excluded(a),
            forall|b: Addr| r.block_excluded(b) == excl.block_excluded(b),
            r.ping_on() == ping_enabled,
    {
        let mut ports: Vec<u16> = Vec::new();
        let mut open_addrs: Vec<Vec<Addr>> = Vec::new();
        let mut i: usize = 0;
        while i < wanted.len()
            invariant
                i <= wanted@.len(),
                ports@.len() == open_addrs@.len(),
                forall|t: int|
                    0 <= t < open_addrs@.len() ==> (#[trigger] open_addrs@[t])@.len() == 0,
                forall|t1: int, t2: int|
                    0 <= t1 < t2 < ports@.len() ==> ports@[t1] != ports@[t2],
                forall|p: u16| #[trigger]
                    ports@.contains(p) <==> exists|j: int| 0 <= j < i && wanted@[j] == p,
            decreases wanted@.len() - i,
        {
            let p = wanted[i];
            let mut seen = false;
            let mut t: usize = 0;
            while t < ports.len()
                invariant
                    t <= ports@.len(),
                    seen <==> exists|u: int| 0 <= u < t && ports@[u] == p,
                decreases ports@.len() - t,
            {
                if ports[t] == p {
                    seen = true;
                    proof {
                        assert(ports@[t as int] == p);
                    }
                }
                t = t + 1;
            }
            let ghost before = ports@;
            if !seen {
                proof {
                    if before.contains(p) {
                        let u = choose|u: int| 0 <= u < before.len() && before[u] == p;
                        assert(false);
                    }
                }
                ports.push(p);
                open_addrs.push(Vec::new());
                proof {
                    assert(ports@[ports@.len() - 1] == p);
                    assert forall|t1: int, t2: int|
                        0 <= t1 < t2 < ports@.len() implies ports@[t1] != ports@[t2] by {
                        if t2 == ports@.len() - 1 {
                            assert(ports@[t1] == before[t1]);
                            if before[t1] == p {
                                assert(before.contains(p));
                            }
                        }
                    }
                }
            }
            proof {
                assert forall|q: u16| #[trigger]
                    ports@.contains(q) <==> exists|j: int| 0 <= j < i + 1 && wanted@[j] == q by {
                    if ports@.contains(q) {
                        let u = choose|u: int| 0 <= u < ports@.len() && ports@[u] == q;
                        if u < before.len() {
                            assert(before[u] == q);
                            assert(before.contains(q));
                            let j = choose|j: int| 0 <= j < i && wanted@[j] == q;
                            assert(0 <= j < i + 1 && wanted@[j] == q);
                        } else {
                            assert(q == p);
                            assert(wanted@[i as int] == q);
                        }
                    }
                    if exists|j: int| 0 <= j < i + 1 && wanted@[j] == q {
                        let j = choose|j: int| 0 <= j < i + 1 && wanted@[j] == q;
                        if j < i {
                            assert(before.contains(q));
                            let u = choose|u: int| 0 <= u < before.len() && before[u] == q;
                            assert(ports@[u] == q);
                        } else {
                            assert(q == p);
                            if seen {
                                let u = choose|u: int| 0 <= u < before.len() && before[u] == p;
                                assert(ports@[u] == q);
                            } else {
                                assert(ports@[ports@.len() - 1] == q);
                            }
                        }
                    }
                }
            }
            i = i + 1;
        }
        let r = Scan {
            excl,
            ping_enabled,
            ports,
            hosts: Vec::new(),
            subnets: Vec::new(),
            open_addrs,
        };
        proof {
            assert(r.records().len() == 0);
            assert forall|p: u16| #[trigger]
                r.ports_seq().contains(p) <==> wanted@.contains(p) by {
                if wanted@.contains(p) {
                    let j = choose|j: int| 0 <= j < wanted@.len() && wanted@[j] == p;
                    assert(exists|j2: int| 0 <= j2 < i && wanted@[j2] == p);
                }
            }
        }
        r
    }

    /// Whether the caller should follow a failed reverse-DNS lookup with an
    /// ICMP echo probe: only when ping sweeps are enabled and no real
    /// hostname was resolved.
    pub fn should_ping(&self, resolved: &Option<Vec<u8>>) -> (r: bool)
        ensures
            r == (self.ping_on() && resolved_name(
                ProbeReport { resolved: *resolved, ping_reply: false },
            ) is None),
    {
        if !self.ping_enabled {
            return false;
        }
        match resolved {
            Option::None => true,
            Option::Some(n) => {
                let sentinel = unknown_name_bytes();
                bytes_eq(n, &sentinel)
            },
        }
    }

    /// The stage-one plan for the block with base `base`: every address that
    /// may be probed in it, ascending.  An excluded or malformed base yields
    /// an empty plan, and `.0`/`.255` are never planned.
    pub fn block_plan(&self, base: Addr) -> (r: Vec<Addr>)
        ensures
            forall|t: int| 0 <= t < r@.len() ==> self.probe_admissible(base, #[trigger] r@[t]),
            forall|t1: int, t2: int| 0 <= t1 < t2 < r@.len() ==> r@[t1].o4 < r@[t2].o4,
            forall|a: Addr| self.probe_admissible(base, a) ==> r@.contains(a),
            !base.is_base() || self.block_excluded(base) ==> r@.len() == 0,
    {
        let mut r: Vec<Addr> = Vec::new();
        if base.o4 != 0 {
            return r;
        }
        if self.excl.is_block_excluded(base) {
            return r;
        }
        let mut o: usize = 1;
        while o <= 254
            invariant
                1 <= o <= 255,
                base.is_base(),
                !self.block_excluded(base),
                forall|t: int|
                    0 <= t < r@.len() ==> self.probe_admissible(base, #[trigger] r@[t]),
                forall|t: int| 0 <= t < r@.len() ==> (#[trigger] r@[t]).o4 < o,
                forall|t1: int, t2: int| 0 <= t1 < t2 < r@.len() ==> r@[t1].o4 < r@[t2].o4,
                forall|a: Addr|
                    self.probe_admissible(base, a) && a.o4 < o ==> r@.contains(a),
            decreases 255 - o,
        {
            let a = Addr { o1: base.o1, o2: base.o2, o3: base.o3, o4: o as u8 };
            if !self.excl.is_addr_excluded(a) {
                let ghost before = r@;
                r.push(a);
                proof {
                    assert(r@[r@.len() - 1] == a);
                    assert forall|x: Addr|
                        self.probe_admissible(base, x) && x.o4 < o + 1 implies r@.contains(x) by {
                        if x.o4 < o {
                            let t = choose|t: int| 0 <= t < before.len() && before[t] == x;
                            assert(r@[t] == x);
                        } else {
                            assert(x == a);
                            assert(r@[r@.len() - 1] == x);
                        }
                    }
                }
            } else {
                proof {
                    assert forall|x: Addr|
                        self.probe_admissible(base, x) && x.o4 < o + 1 implies r@.contains(x) by {
                        if x.o4 < o {
                        } else {
                            assert(x == a);
                            assert(false);
                        }
                    }
                }
            }
            o = o + 1;
        }
        r
    }

    /// Whether some subnet with base `b` is already listed.
    fn subnets_contains(&self, b: Addr) -> (r: bool)
        ensures
            r == self.subnets_seq().contains(b),
    {
        let mut i: usize = 0;
        while i < self.subnets.len()
            invariant
                i <= self.subnets_seq().len(),
                forall|t: int| 0 <= t < i ==> self.subnets_seq()[t] != b,
            decreases self.subnets_seq().len() - i,
        {
            if self.subnets[i] == b {
                return true;
            }
            i = i + 1;
        }
        false
    }

    /// Finds the host record for `a`, or where it would be inserted.
    fn find_host(&self, a: Addr) -> (r: (usize, bool))
        requires
            self.wf(),
        ensures
            r.0 <= self.records().len(),
            forall|i: int| 0 <= i < r.0 ==> self.records()[i].0.value() < a.value(),
            r.1 ==> r.0 < self.records().len() && self.records()[r.0 as int].0 == a,
            !r.1 ==> forall|i: int|
                r.0 <= i < self.records().len() ==> self.records()[i].0.value() > a.value(),
            !r.1 ==> !self.has_host(a),
    {
        let av = a.value_u32();
        let mut i: usize = 0;
        while i < self.hosts.len()
            invariant
                self.wf(),
                av == a.value(),
                i <= self.records().len(),
                self.records().len() == self.hosts@.len(),
                forall|t: int| 0 <= t < i ==> self.records()[t].0.value() < a.value(),
            decreases self.hosts@.len() - i,
        {
            proof {
                assert(self.records()[i as int].0 == self.hosts@[i as int].addr);
            }
            let hv = self.hosts[i].addr.value_u32();
            if hv >= av {
                if self.hosts[i].addr == a {
                    return (i, true);
                }
                proof {
                    if self.records()[i as int].0.value() == a.value() {
                        lemma_value_injective(self.records()[i as int].0, a);
                    }
                    assert forall|t: int|
                        i <= t < self.records().len() implies self.records()[t].0.value()
                        > a.value() by {
                        if t > i {
                            assert(self.records()[i as int].0.value()
                                < self.records()[t].0.value());
                        }
                    }
                    if self.has_host(a) {
                        let t = choose|t: int|
                            0 <= t < self.records().len() && (#[trigger] self.records()[t]).0
                                == a;
                        assert(false);
                    }
                }
                return (i, false);
            }
            i = i + 1;
        }
        proof {
            if self.has_host(a) {
                let t = choose|t: int|
                    0 <= t < self.records().len() && (#[trigger] self.records()[t]).0 == a;
                assert(false);
            }
        }
        (self.hosts.len(), false)
    }

    /// Inserts or overwrites the record for `a` with the given hostname,
    /// marking it discovered by stage one.
    fn record_host(&mut self, a: Addr, name: Vec<u8>)
        requires
            old(self).wf(),
            old(self).admissible_addr(a),
        ensures
            final(self).wf(),
            forall|x: Addr| final(self).has_host(x) <==> old(self).has_host(x) || x == a,
            final(self).has_host(a),
            final(self).host_name(a) == name@,
            final(self).host_stage_one(a),
            forall|x: Addr|
                x != a && old(self).has_host(x) ==> final(self).host_name(x) == old(
                    self,
                ).host_name(x) && final(self).host_stage_one(x) == old(self).host_stage_one(x),
            forall|t: int|
                0 <= t < old(self).records().len() && old(self).records()[t].2 ==> exists|u: int|
                    0 <= u < final(self).records().len() && (#[trigger] final(self).records()[u]).0
                        == old(self).records()[t].0 && final(self).records()[u].2,
            final(self).subnets_seq() == old(self).subnets_seq(),
            final(self).ports_seq() == old(self).ports_seq(),
            final(self).opens_count() == old(self).opens_count(),
            forall|k: int|
                0 <= k < old(self).opens_count() ==> final(self).opens_seq(k) == old(
                    self,
                ).opens_seq(k),
            forall|k: int, x: Addr|
                0 <= k < old(self).opens_count() ==> final(self).port_open(k, x) == old(
                    self,
                ).port_open(k, x),
            forall|x: Addr| final(self).addr_excluded(x) == old(self).addr_excluded(x),
            forall|x: Addr| final(self).block_excluded(x) == old(self).block_excluded(x),
            final(self).ping_on() == old(self).ping_on(),
    {
        let (pos, found) = self.find_host(a);
        let ghost nm = name@;
        let rec = HostRecord { addr: a, name, stage_one: true };
        let ghost oldr = self.records();
        if found {
            self.hosts.set(pos, rec);
        } else {
            self.hosts.insert(pos, rec);
            proof {
                old(self).hosts@.insert_ensures(pos as int, rec);
            }
        }
        proof {
            let newr = self.records();
            let p = pos as int;
            assert(self.excl == old(self).excl);
            if found {
                assert(newr.len() == oldr.len());
                assert forall|i: int| 0 <= i < newr.len() && i != p implies newr[i] == oldr[i] by {
                    assert(self.hosts@[i] == old(self).hosts@[i]);
                }
                assert(newr[p] == (a, nm, true));
                assert(oldr[p].0 == a);
                assert forall|i: int, j: int|
                    0 <= i < j < newr.len() implies newr[i].0.value() < newr[j].0.value() by {
                    assert(newr[i].0 == oldr[i].0);
                    assert(newr[j].0 == oldr[j].0);
                    assert(oldr[i].0.value() < oldr[j].0.value());
                }
            } else {
                assert(newr.len() == oldr.len() + 1);
                assert forall|i: int| 0 <= i < p implies newr[i] == oldr[i] by {
                    assert(self.hosts@[i] == old(self).hosts@[i]);
                }
                assert forall|i: int| p <= i < oldr.len() implies newr[i + 1] == oldr[i] by {
                    assert(self.hosts@[i + 1] == old(self).hosts@[i]);
                }
                assert(newr[p] == (a, nm, true));
                assert forall|i: int, j: int|
                    0 <= i < j < newr.len() implies newr[i].0.value() < newr[j].0.value() by {
                    if i < p && j < p {
                        assert(oldr[i].0.value() < oldr[j].0.value());
                    } else if i < p && j == p {
                        assert(newr[i].0.value() < a.value());
                    } else if i < p && j > p {
                        assert(oldr[i].0.value() < oldr[j - 1].0.value()
                            || oldr[i].0.value() == oldr[j - 1].0.value() || i == j - 1);
                        assert(newr[j] == oldr[j - 1]);
                        if i == j - 1 {
                            assert(oldr[i].0.value() < a.value() && a.value()
                                < oldr[i].0.value()) by {
                                assert(oldr[j - 1].0.value() > a.value());
                            }
                        }
                        assert(oldr[i].0.value() < oldr[j - 1].0.value());
                    } else if i == p {
                        assert(newr[j] == oldr[j - 1]);
                        assert(oldr[j - 1].0.value() > a.value());
                    } else {
                        assert(newr[i] == oldr[i - 1]);
                        assert(newr[j] == oldr[j - 1]);
                        assert(oldr[i - 1].0.value() < oldr[j - 1].0.value());
                    }
                }
            }
            // every record address, old or new, still has a record with the
            // same address; the new address has the new entry
            assert forall|x: Addr| self.has_host(x) <==> old(self).has_host(x) || x == a by {
                if old(self).has_host(x) {
                    let t = choose|t: int|
                        0 <= t < oldr.len() && (#[trigger] oldr[t]).0 == x;
                    if found || t < p {
                        assert(newr[t].0 == x);
                    } else {
                        assert(newr[t + 1].0 == x);
                    }
                }
                if x == a {
                    assert(newr[p].0 == x);
                }
                if self.has_host(x) && x != a {
                    let t = choose|t: int|
                        0 <= t < newr.len() && (#[trigger] newr[t]).0 == x;
                    if found {
                        assert(t != p);
                        assert(oldr[t].0 == x);
                    } else {
                        assert(t != p);
                        if t < p {
                            assert(oldr[t].0 == x);
                        } else {
                            assert(oldr[t - 1].0 == x);
                        }
                    }
                }
            }
            // the entry now recorded for `a` is the new one
            assert(newr[p].0 == a);
            let ia = self.host_idx(a);
            assert(newr[ia].0 == a);
            lemma_sorted_unique(newr, ia, p);
            // entries of other addresses are untouched
            assert forall|x: Addr|
                x != a && old(self).has_host(x) implies self.host_name(x) == old(self).host_name(
                x,
            ) && self.host_stage_one(x) == old(self).host_stage_one(x) by {
                let t1 = old(self).host_idx(x);
                assert(oldr[t1].0 == x);
                let t2 = self.host_idx(x);
                assert(newr[t2].0 == x);
                let t2o = if found || t2 < p { t2 } else { t2 - 1 };
                assert(t2 != p);
                assert(oldr[t2o].0 == x && newr[t2] == oldr[t2o]);
                lemma_sorted_unique(oldr, t1, t2o);
            }
            // stage-one witnesses survive
            assert forall|t: int|
                0 <= t < oldr.len() && oldr[t].2 implies exists|u: int|
                    0 <= u < newr.len() && (#[trigger] newr[u]).0 == oldr[t].0 && newr[u].2 by {
                if found {
                    if t == p {
                        assert(newr[p].0 == oldr[t].0 && newr[p].2);
                    } else {
                        assert(newr[t].0 == oldr[t].0 && newr[t].2);
                    }
                } else {
                    if t < p {
                        assert(newr[t].0 == oldr[t].0 && newr[t].2);
                    } else {
                        assert(newr[t + 1].0 == oldr[t].0 && newr[t + 1].2);
                    }
                }
            }
            // remaining well-formedness: record addresses admissible, and
            // the subnet, port and open-address parts are untouched
            assert forall|i: int|
                0 <= i < newr.len() implies self.admissible_addr((#[trigger] newr[i]).0) by {
                if found {
                    if i != p {
                        assert(newr[i].0 == oldr[i].0);
                        assert(old(self).admissible_addr(oldr[i].0));
                    }
                } else {
                    if i < p {
                        assert(newr[i].0 == oldr[i].0);
                        assert(old(self).admissible_addr(oldr[i].0));
                    } else if i > p {
                        assert(newr[i].0 == oldr[i - 1].0);
                        assert(old(self).admissible_addr(oldr[i - 1].0));
                    }
                }
            }
            assert forall|i: int|
                0 <= i < self.subnets_seq().len() implies self.subnet_justified(
                #[trigger] self.subnets_seq()[i]) by {
                assert(old(self).subnet_justified(old(self).subnets_seq()[i]));
                let t = choose|t: int|
                    0 <= t < oldr.len() && (#[trigger] oldr[t]).0.spec_base() == old(
                        self,
                    ).subnets_seq()[i] && oldr[t].2;
                if found {
                    if t == p {
                        assert(newr[p].0.spec_base() == self.subnets_seq()[i] && newr[p].2);
                    } else {
                        assert(newr[t].0.spec_base() == self.subnets_seq()[i] && newr[t].2);
                    }
                } else {
                    if t < p {
                        assert(newr[t].0.spec_base() == self.subnets_seq()[i] && newr[t].2);
                    } else {
                        assert(newr[t + 1].0.spec_base() == self.subnets_seq()[i] && newr[
                            t + 1].2);
                    }
                }
            }
            assert(self.subnets_seq() == old(self).subnets_seq());
            assert(self.ports_seq() == old(self).ports_seq());
            assert(self.opens_count() == old(self).opens_count());
            assert(forall|k: int|
                0 <= k < self.opens_count() ==> self.opens_seq(k) == old(self).opens_seq(k));
            assert(forall|i: int, j: int|
                0 <= i < j < self.subnets_seq().len() ==> self.subnets_seq()[i]
                    != self.subnets_seq()[j]);
            assert(forall|i: int|
                0 <= i < self.subnets_seq().len() ==> (#[trigger] self.subnets_seq()[i]).is_base()
                    && !self.block_excluded(self.subnets_seq()[i]));
            assert(forall|i: int, j: int|
                0 <= i < j < self.ports_seq().len() ==> self.ports_seq()[i]
                    != self.ports_seq()[j]);
            assert(forall|k: int, i: int, j: int|
                0 <= k < self.opens_count() && 0 <= i < j < self.opens_seq(k).len()
                    ==> self.opens_seq(k)[i].value() < self.opens_seq(k)[j].value());
            assert(forall|k: int, i: int|
                0 <= k < self.opens_count() && 0 <= i < self.opens_seq(k).len()
                    ==> self.admissible_addr(#[trigger] self.opens_seq(k)[i]));
            assert forall|k: int, x: Addr|
                0 <= k < old(self).opens_count() implies self.port_open(k, x) == old(
                self,
            ).port_open(k, x) by {
                assert(self.opens_seq(k) == old(self).opens_seq(k));
                if old(self).port_open(k, x) {
                    let t = choose|t: int|
                        0 <= t < old(self).opens_seq(k).len() && (#[trigger] old(self).opens_seq(
                            k,
                        )[t]) == x;
                    assert(self.opens_seq(k)[t] == x);
                }
                if self.port_open(k, x) {
                    let t = choose|t: int|
                        0 <= t < self.opens_seq(k).len() && (#[trigger] self.opens_seq(k)[t])
                            == x;
                    assert(old(self).opens_seq(k)[t] == x);
                }
            }
            assert(self.wf());
        }
    }

    /// Records `a` with the unknown-hostname sentinel, not marked stage one,
    /// unless a record for `a` already exists.
    fn record_host_if_absent(&mut self, a: Addr)
        requires
            old(self).wf(),
            old(self).admissible_addr(a),
        ensures
            final(self).wf(),
            forall|x: Addr| final(self).has_host(x) <==> old(self).has_host(x) || x == a,
            final(self).has_host(a),
            !old(self).has_host(a) ==> final(self).host_name(a) == unknown_name()
                && !final(self).host_stage_one(a),
            forall|x: Addr|
                old(self).has_host(x) ==> final(self).host_name(x) == old(self).host_name(x)
                    && final(self).host_stage_one(x) == old(self).host_stage_one(x),
            final(self).subnets_seq() == old(self).subnets_seq(),
            final(self).ports_seq() == old(self).ports_seq(),
            final(self).opens_count() == old(self).opens_count(),
            forall|k: int|
                0 <= k < old(self).opens_count() ==> final(self).opens_seq(k) == old(
                    self,
                ).opens_seq(k),
            forall|k: int, x: Addr|
                0 <= k < old(self).opens_count() ==> final(self).port_open(k, x) == old(
                    self,
                ).port_open(k, x),
            forall|x: Addr| final(self).addr_excluded(x) == old(self).addr_excluded(x),
            forall|x: Addr| final(self).block_excluded(x) == old(self).block_excluded(x),
            final(self).ping_on() == old(self).ping_on(),
    {
        let (pos, found) = self.find_host(a);
        if found {
            proof {
                assert(self.records()[pos as int].0 == a);
            }
            return;
        }
        let rec = HostRecord { addr: a, name: unknown_name_bytes(), stage_one: false };
        let ghost oldr = self.records();
        self.hosts.insert(pos, rec);
        proof {
            old(self).hosts@.insert_ensures(pos as int, rec);
            let newr = self.records();
            let p = pos as int;
            assert(self.excl == old(self).excl);
            assert(newr.len() == oldr.len() + 1);
            assert forall|i: int| 0 <= i < p implies newr[i] == oldr[i] by {
                assert(self.hosts@[i] == old(self).hosts@[i]);
            }
            assert forall|i: int| p <= i < oldr.len() implies newr[i + 1] == oldr[i] by {
                assert(self.hosts@[i + 1] == old(self).hosts@[i]);
            }
            assert(newr[p] == (a, unknown_name(), false));
            assert forall|i: int, j: int|
                0 <= i < j < newr.len() implies newr[i].0.value() < newr[j].0.value() by {
                if i < p && j < p {
                    assert(oldr[i].0.value() < oldr[j].0.value());
                } else if i < p && j == p {
                    assert(newr[i].0.value() < a.value());
                } else if i < p && j > p {
                    assert(newr[j] == oldr[j - 1]);
                    assert(oldr[j - 1].0.value() > a.value());
                    assert(newr[i].0.value() < a.value());
                } else if i == p {
                    assert(newr[j] == oldr[j - 1]);
                    assert(oldr[j - 1].0.value() > a.value());
                } else {
                    assert(newr[i] == oldr[i - 1]);
                    assert(newr[j] == oldr[j - 1]);
                    assert(oldr[i - 1].0.value() < oldr[j - 1].0.value());
                }
            }
            assert forall|x: Addr| self.has_host(x) <==> old(self).has_host(x) || x == a by {
                if old(self).has_host(x) {
                    let t = choose|t: int| 0 <= t < oldr.len() && (#[trigger] oldr[t]).0 == x;
                    if t < p {
                        assert(newr[t].0 == x);
                    } else {
                        assert(newr[t + 1].0 == x);
                    }
                }
                if x == a {
                    assert(newr[p].0 == x);
                }
                if self.has_host(x) && x != a {
                    let t = choose|t: int| 0 <= t < newr.len() && (#[trigger] newr[t]).0 == x;
                    assert(t != p);
                    if t < p {
                        assert(oldr[t].0 == x);
                    } else {
                        assert(oldr[t - 1].0 == x);
                    }
                }
            }
            assert(newr[p].0 == a);
            let ia = self.host_idx(a);
            assert(newr[ia].0 == a);
            lemma_sorted_unique(newr, ia, p);
            assert forall|x: Addr|
                old(self).has_host(x) implies self.host_name(x) == old(self).host_name(x)
                    && self.host_stage_one(x) == old(self).host_stage_one(x) by {
                let t1 = old(self).host_idx(x);
                assert(oldr[t1].0 == x);
                assert(x != a);
                let t2 = self.host_idx(x);
                assert(newr[t2].0 == x);
                let t2o = if t2 < p { t2 } else { t2 - 1 };
                assert(t2 != p);
                assert(oldr[t2o].0 == x && newr[t2] == oldr[t2o]);
                lemma_sorted_unique(oldr, t1, t2o);
            }
            assert forall|i: int|
                0 <= i < newr.len() implies self.admissible_addr((#[trigger] newr[i]).0) by {
                if i < p {
                    assert(newr[i].0 == oldr[i].0);
                    assert(old(self).admissible_addr(oldr[i].0));
                } else if i > p {
                    assert(newr[i].0 == oldr[i - 1].0);
                    assert(old(self).admissible_addr(oldr[i - 1].0));
                }
            }
            assert forall|i: int|
                0 <= i < self.subnets_seq().len() implies self.subnet_justified(
                #[trigger] self.subnets_seq()[i]) by {
                assert(old(self).subnet_justified(old(self).subnets_seq()[i]));
                let t = choose|t: int|
                    0 <= t < oldr.len() && (#[trigger] oldr[t]).0.spec_base() == old(
                        self,
                    ).subnets_seq()[i] && oldr[t].2;
                if t < p {
                    assert(newr[t].0.spec_base() == self.subnets_seq()[i] && newr[t].2);
                } else {
                    assert(newr[t + 1].0.spec_base() == self.subnets_seq()[i] && newr[t + 1].2);
                }
            }
            assert(self.subnets_seq() == old(self).subnets_seq());
            assert(self.ports_seq() == old(self).ports_seq());
            assert(self.opens_count() == old(self).opens_count());
            assert(forall|k: int|
                0 <= k < self.opens_count() ==> self.opens_seq(k) == old(self).opens_seq(k));
            assert(forall|i: int, j: int|
                0 <= i < j < self.subnets_seq().len() ==> self.subnets_seq()[i]
                    != self.subnets_seq()[j]);
            assert(forall|i: int|
                0 <= i < self.subnets_seq().len() ==> (#[trigger] self.subnets_seq()[i]).is_base()
                    && !self.block_excluded(self.subnets_seq()[i]));
            assert(forall|i: int, j: int|
                0 <= i < j < self.ports_seq().len() ==> self.ports_seq()[i]
                    != self.ports_seq()[j]);
            assert(forall|k: int, i: int, j: int|
                0 <= k < self.opens_count() && 0 <= i < j < self.opens_seq(k).len()
                    ==> self.opens_seq(k)[i].value() < self.opens_seq(k)[j].value());
            assert(forall|k: int, i: int|
                0 <= k < self.opens_count() && 0 <= i < self.opens_seq(k).len()
                    ==> self.admissible_addr(#[trigger] self.opens_seq(k)[i]));
            assert forall|k: int, x: Addr|
                0 <= k < old(self).opens_count() implies self.port_open(k, x) == old(
                self,
            ).port_open(k, x) by {
                assert(self.opens_seq(k) == old(self).opens_seq(k));
                if old(self).port_open(k, x) {
                    let t = choose|t: int|
                        0 <= t < old(self).opens_seq(k).len() && (#[trigger] old(self).opens_seq(
                            k,
                        )[t]) == x;
                    assert(self.opens_seq(k)[t] == x);
                }
                if self.port_open(k, x) {
                    let t = choose|t: int|
                        0 <= t < self.opens_seq(k).len() && (#[trigger] self.opens_seq(k)[t])
                            == x;
                    assert(old(self).opens_seq(k)[t] == x);
                }
            }
            assert(self.wf());
        }
    }

    /// The record one stage-one report yields, as bytes.
    fn compute_record(&self, rep: &ProbeReport) -> (r: Option<Vec<u8>>)
        ensures
            r is Some <==> record_of(self.ping_on(), *rep) is Some,
            r matches Some(v) ==> (record_of(self.ping_on(), *rep) matches Some(s) && v@ == s),
    {
        match &rep.resolved {
            Option::Some(n) => {
                let sentinel = unknown_name_bytes();
                if !bytes_eq(n, &sentinel) {
                    Some(copy_bytes(n))
                } else if self.ping_enabled && rep.ping_reply {
                    Some(sentinel)
                } else {
                    None
                }
            },
            Option::None => {
                if self.ping_enabled && rep.ping_reply {
                    Some(unknown_name_bytes())
                } else {
                    None
                }
            },
        }
    }

    /// Ingests the outcomes of one block's stage-one probes: records every
    /// admissible discovered host, and appends the block to the subnet list
    /// exactly when some admissible probe discovered a host there.
    ///
    /// Reports for excluded or out-of-range addresses, or for an excluded or
    /// malformed base, are ignored, so the results can never hold an
    /// excluded address, whatever is handed in.
    pub fn ingest_block(&mut self, base: Addr, reports: &Vec<(Addr, ProbeReport)>)
        requires
            old(self).wf(),
        ensures
            final(self).wf(),
            forall|x: Addr|
                (#[trigger] old(self).batch_record(base, reports@, x)) matches Some(n)
                    ==> final(self).has_host(x) && final(self).host_name(x) == n
                    && final(self).host_stage_one(x),
            forall|x: Addr|
                (#[trigger] old(self).batch_record(base, reports@, x)) is None
                    ==> final(self).has_host(x) == old(self).has_host(x) && (old(self).has_host(x)
                    ==> final(self).host_name(x) == old(self).host_name(x)
                        && final(self).host_stage_one(x) == old(self).host_stage_one(x)),
            final(self).subnets_seq() == (if old(self).batch_any(base, reports@) && !old(
                self,
            ).subnets_seq().contains(base) {
                old(self).subnets_seq().push(base)
            } else {
                old(self).subnets_seq()
            }),
            final(self).ports_seq() == old(self).ports_seq(),
            final(self).opens_count() == old(self).opens_count(),
            forall|k: int|
                0 <= k < old(self).opens_count() ==> final(self).opens_seq(k) == old(
                    self,
                ).opens_seq(k),
            forall|x: Addr| final(self).addr_excluded(x) == old(self).addr_excluded(x),
            forall|x: Addr| final(self).block_excluded(x) == old(self).block_excluded(x),
            final(self).ping_on() == old(self).ping_on(),
    {
        if base.o4 != 0 {
            proof {
                assert forall|x: Addr|
                    (#[trigger] old(self).batch_record(base, reports@, x)) is None by {
                    old(self).lemma_batch_record_none(base, reports@, x);
                }
                if old(self).batch_any(base, reports@) {
                    let i = choose|i: int|
                        0 <= i < reports@.len() && old(self).probe_admissible(
                            base,
                            (#[trigger] reports@[i]).0,
                        ) && record_of(old(self).ping_on(), reports@[i].1) is Some;
                    assert(false);
                }
            }
            return;
        }
        if self.excl.is_block_excluded(base) {
            proof {
                assert forall|x: Addr|
                    (#[trigger] old(self).batch_record(base, reports@, x)) is None by {
                    old(self).lemma_batch_record_none(base, reports@, x);
                }
                if old(self).batch_any(base, reports@) {
                    let i = choose|i: int|
                        0 <= i < reports@.len() && old(self).probe_admissible(
                            base,
                            (#[trigger] reports@[i]).0,
                        ) && record_of(old(self).ping_on(), reports@[i].1) is Some;
                    assert(false);
                }
            }
            return;
        }
        let mut found = false;
        let mut i: usize = 0;
        while i < reports.len()
            invariant
                self.wf(),
                i <= reports@.len(),
                base.is_base(),
                !old(self).block_excluded(base),
                forall|x: Addr| self.addr_excluded(x) == old(self).addr_excluded(x),
                forall|x: Addr| self.block_excluded(x) == old(self).block_excluded(x),
                self.ping_on() == old(self).ping_on(),
                self.ports_seq() == old(self).ports_seq(),
                self.opens_count() == old(self).opens_count(),
                forall|k: int|
                    0 <= k < old(self).opens_count() ==> self.opens_seq(k) == old(
                        self,
                    ).opens_seq(k),
                self.subnets_seq() == old(self).subnets_seq(),
                found == old(self).batch_any(base, reports@.take(i as int)),
                found ==> exists|t: int|
                    0 <= t < self.records().len() && (#[trigger] self.records()[t]).0.spec_base()
                        == base && self.records()[t].2,
                forall|x: Addr|
                    (#[trigger] old(self).batch_record(base, reports@.take(i as int), x))
                        matches Some(n) ==> self.has_host(x) && self.host_name(x) == n
                        && self.host_stage_one(x),
                forall|x: Addr|
                    (#[trigger] old(self).batch_record(base, reports@.take(i as int), x)) is None
                        ==> self.has_host(x) == old(self).has_host(x) && (old(self).has_host(x)
                        ==> self.host_name(x) == old(self).host_name(x) && self.host_stage_one(x)
                        == old(self).host_stage_one(x)),
            decreases reports@.len() - i,
        {
            let a = reports[i].0;
            let ghost rep = reports@[i as int].1;
            let ghost pre = *self;
            let in_range = a.o1 == base.o1 && a.o2 == base.o2 && a.o3 == base.o3 && 1 <= a.o4
                && a.o4 <= 254;
            let valid = in_range && !self.excl.is_addr_excluded(a);
            proof {
                assert(valid == old(self).probe_admissible(base, a));
            }
            let mut recorded = false;
            if valid {
                match self.compute_record(&reports[i].1) {
                    Option::Some(name) => {
                        proof {
                            assert(a.spec_base() == base);
                            assert(old(self).admissible_addr(a));
                        }
                        self.record_host(a, name);
                        recorded = true;
                        found = true;
                    },
                    Option::None => {},
                }
            }
            proof {
                let tk0 = reports@.take(i as int);
                let tk1 = reports@.take(i + 1);
                assert(tk1.drop_last() =~= tk0);
                assert(tk1.last() == reports@[i as int]);
                let hit = old(self).probe_admissible(base, a) && record_of(
                    old(self).ping_on(),
                    rep,
                ) is Some;
                assert(recorded == hit);
                if recorded {
                    assert(self.records()[self.host_idx(a)].0 == a);
                    assert(self.records()[self.host_idx(a)].2);
                }
                assert forall|x: Addr|
                    (#[trigger] old(self).batch_record(base, tk1, x)) is Some implies
                    self.has_host(x) && Option::Some(self.host_name(x)) == old(self).batch_record(
                    base, tk1, x) && self.host_stage_one(x) by {
                    if x == a && hit {
                        assert(old(self).batch_record(base, tk1, x) == record_of(
                            old(self).ping_on(),
                            rep,
                        ));
                    } else {
                        assert(old(self).batch_record(base, tk1, x) == old(self).batch_record(
                            base,
                            tk0,
                            x,
                        ));
                        if recorded {
                            assert(x != a);
                            assert(pre.has_host(x) ==> self.host_name(x) == pre.host_name(x));
                        }
                    }
                }
                assert forall|x: Addr|
                    (#[trigger] old(self).batch_record(base, tk1, x)) is None implies
                    self.has_host(x) == old(self).has_host(x) && (old(self).has_host(x)
                        ==> self.host_name(x) == old(self).host_name(x) && self.host_stage_one(x)
                        == old(self).host_stage_one(x)) by {
                    assert(!(x == a && hit));
                    assert(old(self).batch_record(base, tk1, x) == old(self).batch_record(
                        base,
                        tk0,
                        x,
                    ));
                    if recorded {
                        assert(x != a);
                    }
                }
                assert(old(self).batch_any(base, tk1) == (old(self).batch_any(base, tk0)
                    || hit)) by {
                    if old(self).batch_any(base, tk1) {
                        let j = choose|j: int|
                            0 <= j < tk1.len() && old(self).probe_admissible(
                                base,
                                (#[trigger] tk1[j]).0,
                            ) && record_of(old(self).ping_on(), tk1[j].1) is Some;
                        if j < i {
                            assert(tk0[j] == tk1[j]);
                        }
                    }
                    if old(self).batch_any(base, tk0) {
                        let j = choose|j: int|
                            0 <= j < tk0.len() && old(self).probe_admissible(
                                base,
                                (#[trigger] tk0[j]).0,
                            ) && record_of(old(self).ping_on(), tk0[j].1) is Some;
                        assert(tk1[j] == tk0[j]);
                    }
                    if hit {
                        assert(tk1[i as int].0 == a && tk1[i as int].1 == rep);
                    }
                }
                if found && !recorded {
                    let t = choose|t: int|
                        0 <= t < pre.records().len() && (#[trigger] pre.records()[t]).0.spec_base()
                            == base && pre.records()[t].2;
                    assert(self.records()[t].0.spec_base() == base && self.records()[t].2);
                }
            }
            i = i + 1;
        }
        proof {
            assert(reports@.take(reports@.len() as int) =~= reports@);
        }
        if found {
            if !self.subnets_contains(base) {
                let ghost pre = *self;
                self.subnets.push(base);
                proof {
                    let news = self.subnets_seq();
                    let olds = pre.subnets_seq();
                    assert(news == olds.push(base));
                    assert(news[news.len() - 1] == base);
                    assert(self.records() == pre.records());
                    assert forall|p: int, q: int|
                        0 <= p < q < news.len() implies news[p] != news[q] by {
                        if q < news.len() - 1 {
                            assert(news[p] == olds[p] && news[q] == olds[q]);
                        } else {
                            assert(news[p] == olds[p]);
                            if olds[p] == base {
                                assert(olds.contains(base));
                            }
                        }
                    }
                    assert forall|p: int|
                        0 <= p < news.len() implies (#[trigger] news[p]).is_base()
                            && !self.block_excluded(news[p]) by {
                        if p < news.len() - 1 {
                            assert(news[p] == olds[p]);
                        }
                    }
                    assert forall|p: int|
                        0 <= p < news.len() implies self.subnet_justified(
                        #[trigger] news[p]) by {
                        if p < news.len() - 1 {
                            assert(news[p] == olds[p]);
                            assert(pre.subnet_justified(olds[p]));
                            let t = choose|t: int|
                                0 <= t < pre.records().len() && (#[trigger] pre.records()[
                                t]).0.spec_base() == olds[p] && pre.records()[t].2;
                            assert(self.records()[t].0.spec_base() == news[p]
                                && self.records()[t].2);
                        } else {
                            assert(pre.subnet_justified(base));
                            let t = choose|t: int|
                                0 <= t < pre.records().len() && (#[trigger] pre.records()[
                                t]).0.spec_base() == base && pre.records()[t].2;
                            assert(self.records()[t].0.spec_base() == news[p]
                                && self.records()[t].2);
                        }
                    }
                    assert(forall|p: int, q: int|
                        0 <= p < q < self.records().len() ==> self.records()[p].0.value()
                            < self.records()[q].0.value());
                    assert(forall|p: int|
                        0 <= p < self.records().len() ==> self.admissible_addr(
                            (#[trigger] self.records()[p]).0,
                        ));
                    assert(forall|p: int, q: int|
                        0 <= p < q < self.ports_seq().len() ==> self.ports_seq()[p]
                            != self.ports_seq()[q]);
                    assert(self.opens_count() == self.ports_seq().len());
                    assert forall|k: int, p: int, q: int|
                        0 <= k < self.opens_count() && 0 <= p < q < self.opens_seq(k).len()
                            implies self.opens_seq(k)[p].value() < self.opens_seq(k)[q].value() by {
                        assert(self.opens_seq(k) == old(self).opens_seq(k));
                        assert(old(self).opens_seq(k)[p].value() < old(self).opens_seq(
                            k,
                        )[q].value());
                    }
                    assert forall|k: int, p: int|
                        0 <= k < self.opens_count() && 0 <= p < self.opens_seq(k).len()
                            implies self.admissible_addr(#[trigger] self.opens_seq(k)[p]) by {
                        assert(self.opens_seq(k) == old(self).opens_seq(k));
                        assert(old(self).admissible_addr(old(self).opens_seq(k)[p]));
                    }
                    assert(self.wf());
                }
            }
        }
    }

    /// The stage-two plan: every address of every listed subnet that may be
    /// probed, each exactly once.  The exclusion set is consulted once per
    /// address, before any of its ports; the caller crosses the returned
    /// addresses with the probed port set.
    pub fn port_plan(&self) -> (r: Vec<Addr>)
        requires
            self.wf(),
        ensures
            forall|t: int| 0 <= t < r@.len() ==> self.port_target(#[trigger] r@[t]),
            forall|t1: int, t2: int| 0 <= t1 < t2 < r@.len() ==> r@[t1] != r@[t2],
            forall|a: Addr| self.port_target(a) ==> r@.contains(a),
    {
        let ghost subs = self.subnets_seq();
        let mut r: Vec<Addr> = Vec::new();
        let mut si: usize = 0;
        while si < self.subnets.len()
            invariant
                self.wf(),
                si <= subs.len(),
                subs == self.subnets_seq(),
                forall|t: int| 0 <= t < r@.len() ==> self.port_target(#[trigger] r@[t]),
                forall|t: int|
                    0 <= t < r@.len() ==> base_before(subs, si as int, (#[trigger] r@[t]).spec_base()),
                forall|t1: int, t2: int| 0 <= t1 < t2 < r@.len() ==> r@[t1] != r@[t2],
                forall|a: Addr|
                    base_before(subs, si as int, a.spec_base()) && a.is_host_octet()
                        && !self.addr_excluded(a) ==> r@.contains(a),
            decreases subs.len() - si,
        {
            let base = self.subnets[si];
            let mut o: usize = 1;
            while o <= 254
                invariant
                    self.wf(),
                    si < subs.len(),
                    subs == self.subnets_seq(),
                    base == subs[si as int],
                    1 <= o <= 255,
                    forall|t: int| 0 <= t < r@.len() ==> self.port_target(#[trigger] r@[t]),
                    forall|t: int|
                        0 <= t < r@.len() ==> base_before(subs, si as int, (#[trigger] r@[
                        t]).spec_base()) || ((#[trigger] r@[t]).spec_base() == base && r@[t].o4
                            < o),
                    forall|t1: int, t2: int| 0 <= t1 < t2 < r@.len() ==> r@[t1] != r@[t2],
                    forall|a: Addr|
                        base_before(subs, si as int, a.spec_base()) && a.is_host_octet()
                            && !self.addr_excluded(a) ==> r@.contains(a),
                    forall|a: Addr|
                        a.spec_base() == base && 1 <= a.o4 < o && !self.addr_excluded(a)
                            ==> r@.contains(a),
                decreases 255 - o,
            {
                let a = Addr { o1: base.o1, o2: base.o2, o3: base.o3, o4: o as u8 };
                proof {
                    assert(base.is_base());
                    assert(a.spec_base() == base);
                }
                if !self.excl.is_addr_excluded(a) {
                    let ghost before = r@;
                    r.push(a);
                    proof {
                        assert(r@[r@.len() - 1] == a);
                        assert(subs.contains(a.spec_base())) by {
                            assert(subs[si as int] == a.spec_base());
                        }
                        assert forall|t1: int, t2: int|
                            0 <= t1 < t2 < r@.len() implies r@[t1] != r@[t2] by {
                            if t2 == r@.len() - 1 {
                                assert(r@[t1] == before[t1]);
                                if base_before(subs, si as int, before[t1].spec_base()) {
                                    let j = choose|j: int|
                                        0 <= j < si && subs[j] == before[t1].spec_base();
                                    assert(subs[j] != subs[si as int]);
                                    assert(before[t1].spec_base() != a.spec_base());
                                } else {
                                    assert(before[t1].o4 < o);
                                }
                            }
                        }
                        assert forall|x: Addr|
                            base_before(subs, si as int, x.spec_base()) && x.is_host_octet()
                                && !self.addr_excluded(x) implies r@.contains(x) by {
                            let t = choose|t: int| 0 <= t < before.len() && before[t] == x;
                            assert(r@[t] == x);
                        }
                        assert forall|x: Addr|
                            x.spec_base() == base && 1 <= x.o4 < o + 1 && !self.addr_excluded(x)
                                implies r@.contains(x) by {
                            if x.o4 < o {
                                let t = choose|t: int| 0 <= t < before.len() && before[t] == x;
                                assert(r@[t] == x);
                            } else {
                                assert(x == a);
                                assert(r@[r@.len() - 1] == x);
                            }
                        }
                    }
                } else {
                    proof {
                        assert forall|x: Addr|
                            x.spec_base() == base && 1 <= x.o4 < o + 1 && !self.addr_excluded(x)
                                implies r@.contains(x) by {
                            if x.o4 >= o {
                                assert(x == a);
                                assert(false);
                            }
                        }
                    }
                }
                o = o + 1;
            }
            proof {
                assert forall|t: int|
                    0 <= t < r@.len() implies base_before(subs, si + 1, (#[trigger] r@[
                t]).spec_base()) by {
                    if base_before(subs, si as int, r@[t].spec_base()) {
                        let j = choose|j: int| 0 <= j < si && subs[j] == r@[t].spec_base();
                        assert(0 <= j < si + 1 && subs[j] == r@[t].spec_base());
                    } else {
                        assert(subs[si as int] == r@[t].spec_base());
                    }
                }
                assert forall|a: Addr|
                    base_before(subs, si + 1, a.spec_base()) && a.is_host_octet()
                        && !self.addr_excluded(a) implies r@.contains(a) by {
                    let j = choose|j: int| 0 <= j < si + 1 && subs[j] == a.spec_base();
                    if j < si {
                        assert(base_before(subs, si as int, a.spec_base()));
                    } else {
                        assert(a.spec_base() == base && 1 <= a.o4 < 255);
                    }
                }
            }
            si = si + 1;
        }
        proof {
            assert forall|a: Addr| self.port_target(a) implies r@.contains(a) by {
                let j = choose|j: int| 0 <= j < subs.len() && subs[j] == a.spec_base();
                assert(base_before(subs, subs.len() as int, a.spec_base()));
            }
        }
        r
    }

    /// How many per-port open-address collections there are.
    pub fn port_count(&self) -> (r: usize)
        ensures
            r == self.opens_count(),
    {
        self.open_addrs.len()
    }

    /// The probed ports, in order.
    pub fn ports(&self) -> (r: Vec<u16>)
        ensures
            r@ == self.ports_seq(),
    {
        let mut r: Vec<u16> = Vec::new();
        let mut i: usize = 0;
        while i < self.ports.len()
            invariant
                i <= self.ports_seq().len(),
                r@ == self.ports_seq().subrange(0, i as int),
            decreases self.ports_seq().len() - i,
        {
            r.push(self.ports[i]);
            proof {
                assert(r@ =~= self.ports_seq().subrange(0, i + 1));
            }
            i = i + 1;
        }
        proof {
            assert(self.ports_seq().subrange(0, self.ports_seq().len() as int)
                =~= self.ports_seq());
        }
        r
    }

    /// Records the `k`-th port open on `a`.
    fn insert_open(&mut self, k: usize, a: Addr)
        requires
            old(self).wf(),
            k < old(self).opens_count(),
            old(self).admissible_addr(a),
        ensures
            final(self).wf(),
            forall|x: Addr|
                final(self).port_open(k as int, x) <==> old(self).port_open(k as int, x) || x
                    == a,
            forall|k2: int|
                0 <= k2 < old(self).opens_count() && k2 != k ==> final(self).opens_seq(k2) == old(
                    self,
                ).opens_seq(k2),
            final(self).opens_count() == old(self).opens_count(),
            final(self).records() == old(self).records(),
            final(self).subnets_seq() == old(self).subnets_seq(),
            final(self).ports_seq() == old(self).ports_seq(),
            forall|x: Addr| final(self).addr_excluded(x) == old(self).addr_excluded(x),
            forall|x: Addr| final(self).block_excluded(x) == old(self).block_excluded(x),
            final(self).ping_on() == old(self).ping_on(),
    {
        let ghost ov = self.open_addrs@;
        let ghost oldinner = self.open_addrs@[k as int]@;
        let inner = self.open_addrs.remove(k);
        proof {
            assert(inner@ == oldinner);
            assert forall|p: int, q: int|
                0 <= p < q < inner@.len() implies inner@[p].value() < inner@[q].value() by {
                assert(old(self).opens_seq(k as int)[p].value() < old(self).opens_seq(
                    k as int,
                )[q].value());
            }
        }
        let inner = insert_addr_sorted(inner, a);
        let ghost newinner = inner@;
        self.open_addrs.insert(k, inner);
        proof {
            let ki = k as int;
            ov.remove(ki).insert_ensures(ki, inner);
            assert(self.open_addrs@ == ov.remove(ki).insert(ki, inner));
            assert forall|j: int|
                0 <= j < ov.len() && j != ki implies self.open_addrs@[j] == ov[j] by {
                if j < ki {
                    assert(self.open_addrs@[j] == ov.remove(ki)[j]);
                } else {
                    assert(self.open_addrs@[j] == ov.remove(ki)[j - 1]);
                }
            }
            assert(self.open_addrs@[ki] == inner);
            assert(self.opens_seq(ki) == newinner);
            assert forall|x: Addr|
                self.port_open(ki, x) <==> old(self).port_open(ki, x) || x == a by {
                if old(self).port_open(ki, x) {
                    let t = choose|t: int|
                        0 <= t < oldinner.len() && (#[trigger] oldinner[t]) == x;
                    assert(oldinner.contains(x));
                    assert(newinner.contains(x));
                    let u = choose|u: int| 0 <= u < newinner.len() && newinner[u] == x;
                    assert(self.opens_seq(ki)[u] == x);
                }
                if x == a {
                    assert(newinner.contains(x));
                    let u = choose|u: int| 0 <= u < newinner.len() && newinner[u] == x;
                    assert(self.opens_seq(ki)[u] == x);
                }
                if self.port_open(ki, x) {
                    let u = choose|u: int|
                        0 <= u < self.opens_seq(ki).len() && (#[trigger] self.opens_seq(ki)[u])
                            == x;
                    assert(newinner[u] == x);
                    assert(newinner.contains(x));
                    if x != a {
                        assert(oldinner.contains(x));
                        let t = choose|t: int| 0 <= t < oldinner.len() && oldinner[t] == x;
                        assert(old(self).opens_seq(ki)[t] == x);
                    }
                }
            }
            assert forall|p: int|
                0 <= p < newinner.len() implies self.admissible_addr(
                (#[trigger] newinner[p])) by {
                assert(newinner.contains(newinner[p]));
                if newinner[p] != a {
                    assert(oldinner.contains(newinner[p]));
                    let t = choose|t: int|
                        0 <= t < oldinner.len() && oldinner[t] == newinner[p];
                    assert(old(self).opens_seq(ki)[t] == newinner[p]);
                    assert(old(self).admissible_addr(old(self).opens_seq(ki)[t]));
                }
            }
            assert forall|k2: int, p: int, q: int|
                0 <= k2 < self.opens_count() && 0 <= p < q < self.opens_seq(k2).len()
                    implies self.opens_seq(k2)[p].value() < self.opens_seq(k2)[q].value() by {
                if k2 != ki {
                    assert(self.opens_seq(k2) == old(self).opens_seq(k2));
                    assert(old(self).opens_seq(k2)[p].value() < old(self).opens_seq(
                        k2,
                    )[q].value());
                }
            }
            assert forall|k2: int, p: int|
                0 <= k2 < self.opens_count() && 0 <= p < self.opens_seq(k2).len()
                    implies self.admissible_addr(#[trigger] self.opens_seq(k2)[p]) by {
                if k2 != ki {
                    assert(self.opens_seq(k2) == old(self).opens_seq(k2));
                    assert(old(self).admissible_addr(old(self).opens_seq(k2)[p]));
                }
            }
            assert(self.records() == old(self).records());
            assert(forall|p: int, q: int|
                0 <= p < q < self.records().len() ==> self.records()[p].0.value()
                    < self.records()[q].0.value());
            assert(forall|p: int|
                0 <= p < self.records().len() ==> self.admissible_addr(
                    (#[trigger] self.records()[p]).0,
                ));
            assert(self.subnets_seq() == old(self).subnets_seq());
            assert(forall|p: int, q: int|
                0 <= p < q < self.subnets_seq().len() ==> self.subnets_seq()[p]
                    != self.subnets_seq()[q]);
            assert(forall|p: int|
                0 <= p < self.subnets_seq().len() ==> (#[trigger] self.subnets_seq()[p]).is_base()
                    && !self.block_excluded(self.subnets_seq()[p]));
            assert forall|p: int|
                0 <= p < self.subnets_seq().len() implies self.subnet_justified(
                #[trigger] self.subnets_seq()[p]) by {
                assert(old(self).subnet_justified(old(self).subnets_seq()[p]));
                let t = choose|t: int|
                    0 <= t < old(self).records().len() && (#[trigger] old(self).records()[
                    t]).0.spec_base() == old(self).subnets_seq()[p] && old(self).records()[t].2;
                assert(self.records()[t].0.spec_base() == self.subnets_seq()[p]
                    && self.records()[t].2);
            }
            assert(forall|p: int, q: int|
                0 <= p < q < self.ports_seq().len() ==> self.ports_seq()[p]
                    != self.ports_seq()[q]);
            assert(self.opens_count() == self.ports_seq().len());
            assert(self.wf());
        }
    }

    /// Ingests the outcomes of the stage-two port probes: every open port of
    /// an admissible address is recorded in that port's open-address
    /// collection, and the address becomes a discovered host (with the
    /// unknown-hostname sentinel) if stage one did not already record it.
    ///
    /// Outcomes for excluded or out-of-range addresses, or for ports outside
    /// the probed set, are ignored.
    pub fn ingest_port_results(&mut self, results: &Vec<PortProbe>)
        requires
            old(self).wf(),
        ensures
            final(self).wf(),
            final(self).opens_count() == old(self).opens_count(),
            forall|k: int, x: Addr|
                0 <= k < old(self).opens_count() ==> (final(self).port_open(k, x) <==> old(
                    self,
                ).port_open(k, x) || old(self).batch_open(results@, k, x)),
            forall|x: Addr|
                final(self).has_host(x) <==> old(self).has_host(x) || old(self).batch_host(
                    results@,
                    x,
                ),
            forall|x: Addr|
                old(self).has_host(x) ==> final(self).host_name(x) == old(self).host_name(x)
                    && final(self).host_stage_one(x) == old(self).host_stage_one(x),
            forall|x: Addr|
                !old(self).has_host(x) && final(self).has_host(x) ==> final(self).host_name(x)
                    == unknown_name() && !final(self).host_stage_one(x),
            final(self).subnets_seq() == old(self).subnets_seq(),
            final(self).ports_seq() == old(self).ports_seq(),
            forall|x: Addr| final(self).addr_excluded(x) == old(self).addr_excluded(x),
            forall|x: Addr| final(self).block_excluded(x) == old(self).block_excluded(x),
            final(self).ping_on() == old(self).ping_on(),
    {
        let mut i: usize = 0;
        while i < results.len()
            invariant
                self.wf(),
                i <= results@.len(),
                self.opens_count() == old(self).opens_count(),
                self.subnets_seq() == old(self).subnets_seq(),
                self.ports_seq() == old(self).ports_seq(),
                self.ping_on() == old(self).ping_on(),
                forall|x: Addr| self.addr_excluded(x) == old(self).addr_excluded(x),
                forall|x: Addr| self.block_excluded(x) == old(self).block_excluded(x),
                forall|k: int, x: Addr|
                    0 <= k < old(self).opens_count() ==> (self.port_open(k, x) <==> old(
                        self,
                    ).port_open(k, x) || old(self).batch_open(results@.take(i as int), k, x)),
                forall|x: Addr|
                    self.has_host(x) <==> old(self).has_host(x) || old(self).batch_host(
                        results@.take(i as int),
                        x,
                    ),
                forall|x: Addr|
                    old(self).has_host(x) ==> self.host_name(x) == old(self).host_name(x)
                        && self.host_stage_one(x) == old(self).host_stage_one(x),
                forall|x: Addr|
                    !old(self).has_host(x) && self.has_host(x) ==> self.host_name(x)
                        == unknown_name() && !self.host_stage_one(x),
            decreases results@.len() - i,
        {
            let a = results[i].addr;
            let p = results[i].port;
            let is_open = results[i].is_open;
            let ghost pre = *self;
            let admissible = 1 <= a.o4 && a.o4 <= 254 && !self.excl.is_addr_excluded(a)
                && !self.excl.is_block_excluded(a.base());
            proof {
                assert(admissible == old(self).admissible_addr(a));
            }
            let mut k0: usize = 0;
            let mut kfound = false;
            if is_open && admissible {
                let (k, found) = self.port_index(p);
                k0 = k;
                kfound = found;
                if found {
                    self.insert_open(k, a);
                    self.record_host_if_absent(a);
                }
            }
            proof {
                let tk0 = results@.take(i as int);
                let tk1 = results@.take(i + 1);
                assert(tk1.drop_last() =~= tk0);
                assert(tk1[i as int] == results@[i as int]);
                assert forall|j: int| 0 <= j < i implies tk1[j] == tk0[j] by {}
                let hit = is_open && old(self).admissible_addr(a);
                let kin = kfound && hit;
                if kin {
                    assert(old(self).ports_seq().contains(p)) by {
                        assert(old(self).ports_seq()[k0 as int] == p);
                    }
                }
                assert forall|k: int, x: Addr|
                    0 <= k < old(self).opens_count() implies (self.port_open(k, x) <==> old(
                    self,
                ).port_open(k, x) || old(self).batch_open(tk1, k, x)) by {
                    if old(self).batch_open(tk1, k, x) {
                        let j = choose|j: int|
                            0 <= j < tk1.len() && (#[trigger] tk1[j]).addr == x && tk1[j].port
                                == old(self).ports_seq()[k] && tk1[j].is_open && old(
                                self,
                            ).admissible_addr(x);
                        if j < i {
                            assert(old(self).batch_open(tk0, k, x));
                        } else {
                            assert(x == a && old(self).ports_seq()[k] == p && hit);
                            if kfound {
                                if k != k0 as int {
                                    assert(old(self).ports_seq()[k0 as int] == p);
                                    assert(false);
                                }
                                assert(self.port_open(k, x));
                            } else {
                                assert(old(self).ports_seq()[k] != p);
                                assert(false);
                            }
                        }
                    }
                    if old(self).batch_open(tk0, k, x) {
                        let j = choose|j: int|
                            0 <= j < tk0.len() && (#[trigger] tk0[j]).addr == x && tk0[j].port
                                == old(self).ports_seq()[k] && tk0[j].is_open && old(
                                self,
                            ).admissible_addr(x);
                        assert(tk1[j] == tk0[j]);
                        assert(old(self).batch_open(tk1, k, x));
                    }
                    if self.port_open(k, x) && !pre.port_open(k, x) {
                        assert(kin && k == k0 as int && x == a);
                        assert(tk1[i as int].addr == x && tk1[i as int].port == old(
                            self,
                        ).ports_seq()[k] && tk1[i as int].is_open);
                        assert(old(self).batch_open(tk1, k, x));
                    }
                    if pre.port_open(k, x) {
                        assert(self.port_open(k, x));
                    }
                }
                assert forall|x: Addr|
                    self.has_host(x) <==> old(self).has_host(x) || old(self).batch_host(
                        tk1,
                        x,
                    ) by {
                    if old(self).batch_host(tk1, x) {
                        let j = choose|j: int|
                            0 <= j < tk1.len() && (#[trigger] tk1[j]).addr == x && old(
                                self,
                            ).ports_seq().contains(tk1[j].port) && tk1[j].is_open && old(
                                self,
                            ).admissible_addr(x);
                        if j < i {
                            assert(old(self).batch_host(tk0, x));
                        } else {
                            assert(x == a && old(self).ports_seq().contains(p) && hit);
                            let t = choose|t: int|
                                0 <= t < old(self).ports_seq().len() && old(self).ports_seq()[t]
                                    == p;
                            assert(kfound) by {
                                if !kfound {
                                    assert(old(self).ports_seq()[t] != p);
                                }
                            }
                            assert(self.has_host(x));
                        }
                    }
                    if old(self).batch_host(tk0, x) {
                        let j = choose|j: int|
                            0 <= j < tk0.len() && (#[trigger] tk0[j]).addr == x && old(
                                self,
                            ).ports_seq().contains(tk0[j].port) && tk0[j].is_open && old(
                                self,
                            ).admissible_addr(x);
                        assert(tk1[j] == tk0[j]);
                        assert(old(self).batch_host(tk1, x));
                    }
                    if self.has_host(x) && !pre.has_host(x) {
                        assert(kin && x == a);
                        assert(old(self).ports_seq().contains(p)) by {
                            assert(old(self).ports_seq()[k0 as int] == p);
                        }
                        assert(tk1[i as int].addr == x && tk1[i as int].is_open);
                        assert(old(self).batch_host(tk1, x));
                    }
                    if pre.has_host(x) {
                        assert(self.has_host(x));
                    }
                }
            }
            i = i + 1;
        }
        proof {
            assert(results@.take(results@.len() as int) =~= results@);
        }
    }

    /// The `subnets.txt` body: the listed blocks, in discovery order.
    pub fn subnets_file(&self) -> (r: Vec<u8>)
        ensures
            r@ == subnets_text(self.subnets_seq()),
    {
        let ghost subs = self.subnets_seq();
        let mut out: Vec<u8> = Vec::new();
        let mut i: usize = 0;
        while i < self.subnets.len()
            invariant
                subs == self.subnets_seq(),
                i <= subs.len(),
                out@ == subnets_text(subs.take(i as int)),
            decreases subs.len() - i,
        {
            push_subnet_line(&mut out, self.subnets[i]);
            proof {
                assert(subs.take(i + 1).drop_last() =~= subs.take(i as int));
                assert(subs.take(i + 1).last() == subs[i as int]);
            }
            i = i + 1;
        }
        proof {
            assert(subs.take(subs.len() as int) =~= subs);
        }
        out
    }

    /// The `ip_hostname.txt` body: every discovered host with its hostname
    /// (or the unknown-hostname sentinel), ascending by address.
    pub fn ip_hostname_file(&self) -> (r: Vec<u8>)
        ensures
            r@ == hosts_text(self.records()),
    {
        let ghost rs = self.records();
        let mut out: Vec<u8> = Vec::new();
        let mut i: usize = 0;
        while i < self.hosts.len()
            invariant
                rs == self.records(),
                i <= rs.len(),
                rs.len() == self.hosts@.len(),
                out@ == hosts_text(rs.take(i as int)),
            decreases rs.len() - i,
        {
            proof {
                assert(rs[i as int] == (self.hosts@[i as int].addr, self.hosts@[i as int].name@,
                self.hosts@[i as int].stage_one));
            }
            push_host_line(&mut out, self.hosts[i].addr, &self.hosts[i].name);
            proof {
                assert(rs.take(i + 1).drop_last() =~= rs.take(i as int));
                assert(rs.take(i + 1).last() == rs[i as int]);
            }
            i = i + 1;
        }
        proof {
            assert(rs.take(rs.len() as int) =~= rs);
        }
        out
    }

    /// The `up_ips.txt` body: the hosts that stage one discovered, ascending
    /// by address.
    pub fn up_ips_file(&self) -> (r: Vec<u8>)
        ensures
            r@ == up_text(self.records()),
    {
        let ghost rs = self.records();
        let mut out: Vec<u8> = Vec::new();
        let mut i: usize = 0;
        while i < self.hosts.len()
            invariant
                rs == self.records(),
                i <= rs.len(),
                rs.len() == self.hosts@.len(),
                out@ == up_text(rs.take(i as int)),
            decreases rs.len() - i,
        {
            proof {
                assert(rs[i as int] == (self.hosts@[i as int].addr, self.hosts@[i as int].name@,
                self.hosts@[i as int].stage_one));
            }
            if self.hosts[i].stage_one {
                push_addr_line(&mut out, self.hosts[i].addr);
            }
            proof {
                assert(rs.take(i + 1).drop_last() =~= rs.take(i as int));
                assert(rs.take(i + 1).last() == rs[i as int]);
            }
            i = i + 1;
        }
        proof {
            assert(rs.take(rs.len() as int) =~= rs);
        }
        out
    }

    /// The body of the `k`-th port's result file: the addresses with that
    /// port open, ascending.
    pub fn port_file(&self, k: usize) -> (r: Vec<u8>)
        requires
            k < self.opens_count(),
        ensures
            r@ == addrs_text(self.opens_seq(k as int)),
    {
        let ghost addrs = self.opens_seq(k as int);
        let mut out: Vec<u8> = Vec::new();
        let mut i: usize = 0;
        while i < self.open_addrs[k].len()
            invariant
                k < self.opens_count(),
                addrs == self.opens_seq(k as int),
                i <= addrs.len(),
                addrs.len() == self.open_addrs@[k as int]@.len(),
                out@ == addrs_text(addrs.take(i as int)),
            decreases addrs.len() - i,
        {
            push_addr_line(&mut out, self.open_addrs[k][i]);
            proof {
                assert(addrs.take(i + 1).drop_last() =~= addrs.take(i as int));
                assert(addrs.take(i + 1).last() == addrs[i as int]);
            }
            i = i + 1;
        }
        proof {
            assert(addrs.take(addrs.len() as int) =~= addrs);
        }
        out
    }

    /// Finds the index of `p` in the probed port set.
    fn port_index(&self, p: u16) -> (r: (usize, bool))
        ensures
            r.1 ==> r.0 < self.ports_seq().len() && self.ports_seq()[r.0 as int] == p,
            !r.1 ==> forall|i: int| 0 <= i < self.ports_seq().len() ==> self.ports_seq()[i] != p,
    {
        let mut i: usize = 0;
        while i < self.ports.len()
            invariant
                i <= self.ports_seq().len(),
                forall|t: int| 0 <= t < i ==> self.ports_seq()[t] != p,
            decreases self.ports_seq().len() - i,
        {
            if self.ports[i] == p {
                return (i, true);
            }
            i = i + 1;
        }
        (0, false)
    }
}

/// An excluded address is never reported: whatever probes ran and whatever
/// outcomes were ingested, an address that is excluded — individually or via
/// its /24 block — has no host record and appears in no open-port
/// collection.  Since every output file is rendered from those collections
/// alone, it appears in no output file.
pub proof fn lemma_excluded_never_reported(s: Scan, a: Addr)
    requires
        s.wf(),
        s.addr_excluded(a) || s.block_excluded(a.spec_base()),
    ensures
        !s.has_host(a),
        forall|k: int| 0 <= k < s.opens_count() ==> !s.port_open(k, a),
{
    if s.has_host(a) {
        let t = choose|t: int| 0 <= t < s.records().len() && (#[trigger] s.records()[t]).0 == a;
        assert(s.admissible_addr(s.records()[t].0));
        assert(false);
    }
    assert forall|k: int| 0 <= k < s.opens_count() implies !s.port_open(k, a) by {
        if s.port_open(k, a) {
            let t = choose|t: int|
                0 <= t < s.opens_seq(k).len() && (#[trigger] s.opens_seq(k)[t]) == a;
            assert(s.admissible_addr(s.opens_seq(k)[t]));
            assert(false);
        }
    }
}

/// An excluded block is never listed as a subnet with hosts.
pub proof fn lemma_excluded_block_not_listed(s: Scan, b: Addr)
    requires
        s.wf(),
        s.block_excluded(b),
    ensures
        !s.subnets_seq().contains(b),
{
    if s.subnets_seq().contains(b) {
        let i = choose|i: int| 0 <= i < s.subnets_seq().len() && s.subnets_seq()[i] == b;
        assert(!s.block_excluded(s.subnets_seq()[i]));
        assert(false);
    }
}

/// A block is listed as a subnet only if at least one address inside it was
/// discovered by stage one — by a resolved hostname or an echo reply.  (The
/// converse direction, that a block with such a discovery is listed, is the
/// subnet clause of `ingest_block`'s contract.)
pub proof fn lemma_subnet_listed_has_host(s: Scan, i: int)
    requires
        s.wf(),
        0 <= i < s.subnets_seq().len(),
    ensures
        exists|a: Addr|
            #[trigger] s.has_host(a) && s.host_stage_one(a) && a.spec_base()
                == s.subnets_seq()[i],
{
    assert(s.subnet_justified(s.subnets_seq()[i]));
    let t = choose|t: int|
        0 <= t < s.records().len() && (#[trigger] s.records()[t]).0.spec_base()
            == s.subnets_seq()[i] && s.records()[t].2;
    let a = s.records()[t].0;
    assert(s.has_host(a));
    let u = s.host_idx(a);
    assert(s.records()[u].0 == a);
    lemma_sorted_unique(s.records(), u, t);
    assert(s.has_host(a) && s.host_stage_one(a) && a.spec_base() == s.subnets_seq()[i]);
}

/// `x` is the address of some record of `r`.
pub open spec fn rec_has(r: Seq<(Addr, Seq<u8>, bool)>, x: Addr) -> bool {
    exists|i: int| 0 <= i < r.len() && (#[trigger] r[i]).0 == x
}

/// A sequence of records strictly ascending by address value is determined
/// by which addresses it holds and what entry each address has.
proof fn lemma_sorted_records_determined(r1: Seq<(Addr, Seq<u8>, bool)>, r2: Seq<(Addr, Seq<u8>, bool)>)
    requires
        forall|p: int, q: int| 0 <= p < q < r1.len() ==> r1[p].0.value() < r1[q].0.value(),
        forall|p: int, q: int| 0 <= p < q < r2.len() ==> r2[p].0.value() < r2[q].0.value(),
        forall|x: Addr| rec_has(r1, x) == rec_has(r2, x),
        forall|i: int, j: int|
            0 <= i < r1.len() && 0 <= j < r2.len() && r1[i].0 == r2[j].0 ==> r1[i] == r2[j],
    ensures
        r1 =~= r2,
    decreases r1.len(),
{
    if r1.len() == 0 {
        if r2.len() > 0 {
            assert(rec_has(r2, r2[0].0));
            let i = choose|i: int| 0 <= i < r1.len() && (#[trigger] r1[i]).0 == r2[0].0;
            assert(false);
        }
    } else {
        assert(rec_has(r1, r1[0].0));
        let j0 = choose|j: int| 0 <= j < r2.len() && (#[trigger] r2[j]).0 == r1[0].0;
        assert(rec_has(r2, r2[0].0));
        let i0 = choose|i: int| 0 <= i < r1.len() && (#[trigger] r1[i]).0 == r2[0].0;
        assert(r1[0].0.value() <= r1[i0].0.value());
        assert(r2[0].0.value() <= r2[j0].0.value());
        assert(r1[0].0.value() == r2[0].0.value());
        lemma_value_injective(r1[0].0, r2[0].0);
        assert(r1[0] == r2[0]);
        let t1 = r1.drop_first();
        let t2 = r2.drop_first();
        assert forall|p: int, q: int|
            0 <= p < q < t1.len() implies t1[p].0.value() < t1[q].0.value() by {
            assert(t1[p] == r1[p + 1] && t1[q] == r1[q + 1]);
        }
        assert forall|p: int, q: int|
            0 <= p < q < t2.len() implies t2[p].0.value() < t2[q].0.value() by {
            assert(t2[p] == r2[p + 1] && t2[q] == r2[q + 1]);
        }
        assert forall|x: Addr| rec_has(t1, x) == rec_has(t2, x) by {
            if rec_has(t1, x) {
                let i = choose|i: int| 0 <= i < t1.len() && (#[trigger] t1[i]).0 == x;
                assert(r1[i + 1].0 == x);
                assert(rec_has(r1, x));
                let j = choose|j: int| 0 <= j < r2.len() && (#[trigger] r2[j]).0 == x;
                if j == 0 {
                    assert(r1[0].0 == x);
                    assert(r1[0].0.value() < r1[i + 1].0.value());
                    assert(false);
                }
                assert(t2[j - 1].0 == x);
                assert(rec_has(t2, x));
            }
            if rec_has(t2, x) {
                let j = choose|j: int| 0 <= j < t2.len() && (#[trigger] t2[j]).0 == x;
                assert(r2[j + 1].0 == x);
                assert(rec_has(r2, x));
                let i = choose|i: int| 0 <= i < r1.len() && (#[trigger] r1[i]).0 == x;
                if i == 0 {
                    assert(r2[0].0 == x);
                    assert(r2[0].0.value() < r2[j + 1].0.value());
                    assert(false);
                }
                assert(t1[i - 1].0 == x);
                assert(rec_has(t1, x));
            }
        }
        assert forall|i: int, j: int|
            0 <= i < t1.len() && 0 <= j < t2.len() && t1[i].0 == t2[j].0 implies t1[i]
                == t2[j] by {
            assert(t1[i] == r1[i + 1] && t2[j] == r2[j + 1]);
        }
        lemma_sorted_records_determined(t1, t2);
        assert forall|i: int| 0 <= i < r1.len() implies r1[i] == r2[i] by {
            if i > 0 {
                assert(t1[i - 1] == t2[i - 1]);
            }
        }
    }
}

/// A strictly ascending address list is determined by which addresses it
/// holds.
proof fn lemma_sorted_addrs_determined(v1: Seq<Addr>, v2: Seq<Addr>)
    requires
        forall|p: int, q: int| 0 <= p < q < v1.len() ==> v1[p].value() < v1[q].value(),
        forall|p: int, q: int| 0 <= p < q < v2.len() ==> v2[p].value() < v2[q].value(),
        forall|x: Addr| v1.contains(x) == v2.contains(x),
    ensures
        v1 =~= v2,
    decreases v1.len(),
{
    if v1.len() == 0 {
        if v2.len() > 0 {
            assert(v2.contains(v2[0]));
            let i = choose|i: int| 0 <= i < v1.len() && v1[i] == v2[0];
            assert(false);
        }
    } else {
        assert(v1.contains(v1[0]));
        let j0 = choose|j: int| 0 <= j < v2.len() && v2[j] == v1[0];
        assert(v2.contains(v2[0]));
        let i0 = choose|i: int| 0 <= i < v1.len() && v1[i] == v2[0];
        assert(v1[0].value() <= v1[i0].value());
        assert(v2[0].value() <= v2[j0].value());
        assert(v1[0].value() == v2[0].value());
        lemma_value_injective(v1[0], v2[0]);
        let t1 = v1.drop_first();
        let t2 = v2.drop_first();
        assert forall|p: int, q: int|
            0 <= p < q < t1.len() implies t1[p].value() < t1[q].value() by {
            assert(t1[p] == v1[p + 1] && t1[q] == v1[q + 1]);
        }
        assert forall|p: int, q: int|
            0 <= p < q < t2.len() implies t2[p].value() < t2[q].value() by {
            assert(t2[p] == v2[p + 1] && t2[q] == v2[q + 1]);
        }
        assert forall|x: Addr| t1.contains(x) == t2.contains(x) by {
            if t1.contains(x) {
                let i = choose|i: int| 0 <= i < t1.len() && t1[i] == x;
                assert(v1[i + 1] == x);
                assert(v1.contains(x));
                let j = choose|j: int| 0 <= j < v2.len() && v2[j] == x;
                if j == 0 {
                    assert(v1[0] == x);
                    assert(v1[0].value() < v1[i + 1].value());
                    assert(false);
                }
                assert(t2[j - 1] == x);
            }
            if t2.contains(x) {
                let j = choose|j: int| 0 <= j < t2.len() && t2[j] == x;
                assert(v2[j + 1] == x);
                assert(v2.contains(x));
                let i = choose|i: int| 0 <= i < v1.len() && v1[i] == x;
                if i == 0 {
                    assert(v2[0] == x);
                    assert(v2[0].value() < v2[j + 1].value());
                    assert(false);
                }
                assert(t1[i - 1] == x);
            }
        }
        lemma_sorted_addrs_determined(t1, t2);
        assert forall|i: int| 0 <= i < v1.len() implies v1[i] == v2[i] by {
            if i > 0 {
                assert(t1[i - 1] == t2[i - 1]);
            }
        }
    }
}

/// Determinism of the reported results: two well-formed engines that agree
/// on every observation — which hosts were discovered, with what hostname
/// and stage flag, which subnets were listed, which ports were probed and
/// which addresses have each port open — hold literally identical result
/// sequences.  Every output file is rendered, by the contracts of
/// `subnets_file`, `ip_hostname_file`, `up_ips_file` and `port_file`, from
/// those sequences alone, so the two engines' output files are
/// byte-identical, however the probe outcomes were ordered or interleaved.
pub proof fn lemma_scan_deterministic(s1: Scan, s2: Scan)
    requires
        s1.wf(),
        s2.wf(),
        forall|a: Addr| s1.has_host(a) == s2.has_host(a),
        forall|a: Addr|
            s1.has_host(a) ==> s1.host_name(a) == s2.host_name(a) && s1.host_stage_one(a)
                == s2.host_stage_one(a),
        s1.subnets_seq() == s2.subnets_seq(),
        s1.ports_seq() == s2.ports_seq(),
        s1.opens_count() == s2.opens_count(),
        forall|k: int, a: Addr|
            0 <= k < s1.opens_count() ==> s1.port_open(k, a) == s2.port_open(k, a),
    ensures
        s1.records() == s2.records(),
        forall|k: int| 0 <= k < s1.opens_count() ==> s1.opens_seq(k) == s2.opens_seq(k),
{
    let r1 = s1.records();
    let r2 = s2.records();
    assert forall|x: Addr| rec_has(r1, x) == rec_has(r2, x) by {
        assert(rec_has(r1, x) == s1.has_host(x));
        assert(rec_has(r2, x) == s2.has_host(x));
    }
    assert forall|i: int, j: int|
        0 <= i < r1.len() && 0 <= j < r2.len() && r1[i].0 == r2[j].0 implies r1[i] == r2[j] by {
        let x = r1[i].0;
        assert(s1.has_host(x));
        let u1 = s1.host_idx(x);
        assert(r1[u1].0 == x);
        lemma_sorted_unique(r1, u1, i);
        assert(s2.has_host(x));
        let u2 = s2.host_idx(x);
        assert(r2[u2].0 == x);
        lemma_sorted_unique(r2, u2, j);
        assert(r1[i].1 == s1.host_name(x) && r1[i].2 == s1.host_stage_one(x));
        assert(r2[j].1 == s2.host_name(x) && r2[j].2 == s2.host_stage_one(x));
    }
    lemma_sorted_records_determined(r1, r2);
    assert forall|k: int| 0 <= k < s1.opens_count() implies s1.opens_seq(k) == s2.opens_seq(
        k,
    ) by {
        assert forall|x: Addr| s1.opens_seq(k).contains(x) == s2.opens_seq(k).contains(x) by {
            assert(s1.opens_seq(k).contains(x) == s1.port_open(k, x)) by {
                if s1.opens_seq(k).contains(x) {
                    let t = choose|t: int|
                        0 <= t < s1.opens_seq(k).len() && s1.opens_seq(k)[t] == x;
                    assert(s1.port_open(k, x));
                }
                if s1.port_open(k, x) {
                    let t = choose|t: int|
                        0 <= t < s1.opens_seq(k).len() && (#[trigger] s1.opens_seq(k)[t]) == x;
                    assert(s1.opens_seq(k).contains(x));
                }
            }
            assert(s2.opens_seq(k).contains(x) == s2.port_open(k, x)) by {
                if s2.opens_seq(k).contains(x) {
                    let t = choose|t: int|
                        0 <= t < s2.opens_seq(k).len() && s2.opens_seq(k)[t] == x;
                    assert(s2.port_open(k, x));
                }
                if s2.port_open(k, x) {
                    let t = choose|t: int|
                        0 <= t < s2.opens_seq(k).len() && (#[trigger] s2.opens_seq(k)[t]) == x;
                    assert(s2.opens_seq(k).contains(x));
                }
            }
        }
        lemma_sorted_addrs_determined(s1.opens_seq(k), s2.opens_seq(k));
    }
}

/// Inserts `a` into a strictly ascending address list, keeping it strictly
/// ascending; a duplicate leaves the list unchanged.
fn insert_addr_sorted(v: Vec<Addr>, a: Addr) -> (r: Vec<Addr>)
    requires
        forall|i: int, j: int| 0 <= i < j < v@.len() ==> v@[i].value() < v@[j].value(),
    ensures
        forall|i: int, j: int| 0 <= i < j < r@.len() ==> r@[i].value() < r@[j].value(),
        forall|x: Addr| r@.contains(x) <==> v@.contains(x) || x == a,
    {
    let av = a.value_u32();
    let mut pos: usize = 0;
    while pos < v.len() && v[pos].value_u32() < av
        invariant
            av == a.value(),
            pos <= v@.len(),
            forall|i: int, j: int| 0 <= i < j < v@.len() ==> v@[i].value() < v@[j].value(),
            forall|t: int| 0 <= t < pos ==> v@[t].value() < a.value(),
        decreases v@.len() - pos,
    {
        pos = pos + 1;
    }
    if pos < v.len() && v[pos] == a {
        return v;
    }
    proof {
        assert forall|t: int| pos <= t < v@.len() implies v@[t].value() > a.value() by {
            if t == pos {
                if v@[t].value() == a.value() {
                    lemma_value_injective(v@[t], a);
                }
            } else {
                assert(v@[pos as int].value() < v@[t].value());
                if v@[pos as int].value() == a.value() {
                    lemma_value_injective(v@[pos as int], a);
                }
            }
        }
    }
    let ghost oldv = v@;
    let mut v2 = v;
    v2.insert(pos, a);
    proof {
        oldv.insert_ensures(pos as int, a);
        let p = pos as int;
        assert(v2@ == oldv.insert(p, a));
        assert forall|i: int, j: int|
            0 <= i < j < v2@.len() implies v2@[i].value() < v2@[j].value() by {
            if i < p && j < p {
            } else if i < p && j == p {
                assert(v2@[i] == oldv[i]);
            } else if i < p && j > p {
                assert(v2@[i] == oldv[i] && v2@[j] == oldv[j - 1]);
            } else if i == p {
                assert(v2@[j] == oldv[j - 1]);
            } else {
                assert(v2@[i] == oldv[i - 1] && v2@[j] == oldv[j - 1]);
            }
        }
        assert forall|x: Addr| v2@.contains(x) <==> oldv.contains(x) || x == a by {
            if oldv.contains(x) {
                let t = choose|t: int| 0 <= t < oldv.len() && oldv[t] == x;
                if t < p {
                    assert(v2@[t] == x);
                } else {
                    assert(v2@[t + 1] == x);
                }
            }
            if x == a {
                assert(v2@[p] == x);
            }
            if v2@.contains(x) && x != a {
                let t = choose|t: int| 0 <= t < v2@.len() && v2@[t] == x;
                assert(t != p);
                if t < p {
                    assert(oldv[t] == x);
                } else {
                    assert(oldv[t - 1] == x);
                }
            }
        }
    }
    v2
}

/// A copy of a byte string.
pub fn copy_bytes(s: &Vec<u8>) -> (r: Vec<u8>)
    ensures
        r@ == s@,
{
    let mut r: Vec<u8> = Vec::new();
    let mut i: usize = 0;
    while i < s.len()
        invariant
            i <= s@.len(),
            r@ == s@.subrange(0, i as int),
        decreases s@.len() - i,
    {
        r.push(s[i]);
        proof {
            assert(r@ =~= s@.subrange(0, i + 1));
        }
        i = i + 1;
    }
    proof {
        assert(s@.subrange(0, s@.len() as int) =~= s@);
    }
    r
}

/// Whether two byte strings hold the same bytes.
pub fn bytes_eq(a: &Vec<u8>, b: &Vec<u8>) -> (r: bool)
    ensures
        r == (a@ == b@),
{
    if a.len() != b.len() {
        return false;
    }
    let mut i: usize = 0;
    while i < a.len()
        invariant
            a@.len() == b@.len(),
            i <= a@.len(),
            forall|t: int| 0 <= t < i ==> a@[t] == b@[t],
        decreases a@.len() - i,
    {
        if a[i] != b[i] {
            return false;
        }
        i = i + 1;
    }
    proof {
        assert(a@ =~= b@);
    }
    true
}

} // verus!
