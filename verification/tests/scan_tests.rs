use feather_redeemed::addr::Addr;
use feather_redeemed::exclusions::ExclusionSet;
use feather_redeemed::output::port_file_name;
use feather_redeemed::scan::{unknown_name_bytes, PortProbe, ProbeReport, Scan};

fn a(o1: u8, o2: u8, o3: u8, o4: u8) -> Addr {
    Addr { o1, o2, o3, o4 }
}

fn resolved(name: &str) -> ProbeReport {
    ProbeReport { resolved: Some(name.as_bytes().to_vec()), ping_reply: false }
}

fn no_answer() -> ProbeReport {
    ProbeReport { resolved: None, ping_reply: false }
}

fn ping_reply() -> ProbeReport {
    ProbeReport { resolved: None, ping_reply: true }
}

fn has_line(file: &[u8], wanted: &str) -> bool {
    file.split(|b| *b == b'\n').any(|l| l == wanted.as_bytes())
}

fn contains_text(file: &[u8], needle: &str) -> bool {
    let n = needle.as_bytes();
    if n.is_empty() || file.len() < n.len() {
        return false;
    }
    (0..=file.len() - n.len()).any(|i| &file[i..i + n.len()] == n)
}

#[test]
fn block_plan_covers_host_range_only() {
    let scan = Scan::new(ExclusionSet::new(), false);
    let plan = scan.block_plan(a(10, 4, 7, 0));
    // the usable host range is .1 through .254: .0 and .255 are never probed
    assert_eq!(plan.len(), 254);
    assert_eq!(plan[0], a(10, 4, 7, 1));
    assert_eq!(plan[253], a(10, 4, 7, 254));
    assert!(!plan.contains(&a(10, 4, 7, 0)));
    assert!(!plan.contains(&a(10, 4, 7, 255)));
}

#[test]
fn block_plan_of_excluded_block_is_empty() {
    let mut excl = ExclusionSet::new();
    excl.add_block(a(10, 5, 0, 0));
    let scan = Scan::new(excl, false);
    assert_eq!(scan.block_plan(a(10, 5, 0, 0)).len(), 0);
}

#[test]
fn block_plan_skips_excluded_addresses() {
    let mut excl = ExclusionSet::new();
    excl.add_addr(a(10, 4, 7, 9));
    let scan = Scan::new(excl, false);
    let plan = scan.block_plan(a(10, 4, 7, 0));
    assert_eq!(plan.len(), 253);
    assert!(!plan.contains(&a(10, 4, 7, 9)));
    assert!(plan.contains(&a(10, 4, 7, 8)));
}

#[test]
fn should_ping_only_when_enabled_and_unresolved() {
    let on = Scan::new(ExclusionSet::new(), true);
    let off = Scan::new(ExclusionSet::new(), false);
    assert!(on.should_ping(&None));
    assert!(!on.should_ping(&Some(b"router.lan".to_vec())));
    // a reverse-DNS answer equal to the sentinel counts as no answer
    assert!(on.should_ping(&Some(unknown_name_bytes())));
    assert!(!off.should_ping(&None));
    assert!(!off.should_ping(&Some(b"router.lan".to_vec())));
}

#[test]
fn resolved_host_is_recorded_and_block_listed() {
    let mut scan = Scan::new(ExclusionSet::new(), false);
    let base = a(10, 4, 7, 0);
    let reports = vec![
        (a(10, 4, 7, 1), no_answer()),
        (a(10, 4, 7, 20), resolved("printer.lan")),
    ];
    scan.ingest_block(base, &reports);
    assert_eq!(scan.subnets_file(), b"10.4.7.0/24\n".to_vec());
    assert_eq!(scan.ip_hostname_file(), b"10.4.7.20,printer.lan\n".to_vec());
    assert_eq!(scan.up_ips_file(), b"10.4.7.20\n".to_vec());
}

#[test]
fn dns_failure_without_ping_leaves_no_record() {
    let mut scan = Scan::new(ExclusionSet::new(), false);
    let base = a(10, 4, 7, 0);
    let reports = vec![(a(10, 4, 7, 1), no_answer()), (a(10, 4, 7, 2), no_answer())];
    scan.ingest_block(base, &reports);
    assert_eq!(scan.subnets_file(), b"".to_vec());
    assert_eq!(scan.ip_hostname_file(), b"".to_vec());
    assert_eq!(scan.up_ips_file(), b"".to_vec());
}

#[test]
fn ping_reply_records_unknown_hostname() {
    let mut scan = Scan::new(ExclusionSet::new(), true);
    let base = a(192, 168, 3, 0);
    let reports = vec![(a(192, 168, 3, 77), ping_reply())];
    scan.ingest_block(base, &reports);
    assert_eq!(scan.subnets_file(), b"192.168.3.0/24\n".to_vec());
    assert_eq!(scan.ip_hostname_file(), b"192.168.3.77,no_hostname\n".to_vec());
    assert_eq!(scan.up_ips_file(), b"192.168.3.77\n".to_vec());
}

#[test]
fn ping_reply_ignored_when_ping_disabled() {
    let mut scan = Scan::new(ExclusionSet::new(), false);
    let reports = vec![(a(192, 168, 3, 77), ping_reply())];
    scan.ingest_block(a(192, 168, 3, 0), &reports);
    assert_eq!(scan.ip_hostname_file(), b"".to_vec());
}

#[test]
fn repeated_report_overwrites_with_equivalent_data() {
    let mut scan = Scan::new(ExclusionSet::new(), false);
    let base = a(10, 4, 7, 0);
    scan.ingest_block(base, &vec![(a(10, 4, 7, 20), resolved("printer.lan"))]);
    scan.ingest_block(base, &vec![(a(10, 4, 7, 20), resolved("printer.lan"))]);
    assert_eq!(scan.ip_hostname_file(), b"10.4.7.20,printer.lan\n".to_vec());
    assert_eq!(scan.subnets_file(), b"10.4.7.0/24\n".to_vec());
}

#[test]
fn records_are_rendered_ascending_by_address() {
    let mut scan = Scan::new(ExclusionSet::new(), false);
    let base = a(10, 4, 7, 0);
    let reports = vec![
        (a(10, 4, 7, 200), resolved("late.lan")),
        (a(10, 4, 7, 3), resolved("early.lan")),
    ];
    scan.ingest_block(base, &reports);
    assert_eq!(
        scan.ip_hostname_file(),
        b"10.4.7.3,early.lan\n10.4.7.200,late.lan\n".to_vec()
    );
}

#[test]
fn excluded_address_never_reported() {
    let mut excl = ExclusionSet::new();
    excl.add_addr(a(10, 4, 7, 9));
    let mut scan = Scan::new(excl, true);
    let base = a(10, 4, 7, 0);
    // even if a probe outcome is handed in for the excluded address, it is
    // ignored
    let reports = vec![(a(10, 4, 7, 9), resolved("secret.lan"))];
    scan.ingest_block(base, &reports);
    scan.ingest_port_results(&vec![PortProbe { addr: a(10, 4, 7, 9), port: 445, is_open: true }]);
    assert_eq!(scan.subnets_file(), b"".to_vec());
    assert_eq!(scan.ip_hostname_file(), b"".to_vec());
    assert_eq!(scan.port_file(2), b"".to_vec());
}

#[test]
fn scenario_excluded_block_absent_from_all_output() {
    // exclusion file holds 10.5.0.0/24; the stub resolver would resolve
    // every address, but no probe may be issued inside the block
    let lines = vec![b"10.5.0.0/24".to_vec()];
    let excl = ExclusionSet::from_lines(&lines).unwrap();
    let mut scan = Scan::new(excl, false);
    let excluded_base = a(10, 5, 0, 0);
    let other_base = a(10, 6, 0, 0);
    assert_eq!(scan.block_plan(excluded_base).len(), 0);
    // every planned address of the other block resolves
    let plan = scan.block_plan(other_base);
    let reports: Vec<(Addr, ProbeReport)> =
        plan.iter().map(|ip| (*ip, resolved("host.lan"))).collect();
    scan.ingest_block(other_base, &reports);
    // the excluded block resolves too, were it probed; hand its reports in
    // anyway and observe that they are dropped
    let stray: Vec<(Addr, ProbeReport)> =
        (1..=254).map(|o| (a(10, 5, 0, o), resolved("host.lan"))).collect();
    scan.ingest_block(excluded_base, &stray);
    let subnets = scan.subnets_file();
    let hostnames = scan.ip_hostname_file();
    assert!(has_line(&subnets, "10.6.0.0/24"));
    assert!(!contains_text(&subnets, "10.5.0.0/24"));
    assert!(!contains_text(&hostnames, "10.5.0."));
    assert!(contains_text(&hostnames, "10.6.0.1,host.lan"));
}

#[test]
fn scenario_port_discovered_host() {
    // ping disabled, port scan enabled; 192.168.5.10 has no hostname but
    // answers on port 445; 192.168.5.20 resolves, putting the block on the
    // subnet list
    let mut scan = Scan::new(ExclusionSet::new(), false);
    let base = a(192, 168, 5, 0);
    let reports = vec![
        (a(192, 168, 5, 10), no_answer()),
        (a(192, 168, 5, 20), resolved("router.lan")),
    ];
    scan.ingest_block(base, &reports);
    let plan = scan.port_plan();
    assert!(plan.contains(&a(192, 168, 5, 10)));
    let ports = scan.ports();
    assert_eq!(ports, vec![80, 443, 445]);
    let results = vec![
        PortProbe { addr: a(192, 168, 5, 10), port: 445, is_open: true },
        PortProbe { addr: a(192, 168, 5, 10), port: 80, is_open: false },
    ];
    scan.ingest_port_results(&results);
    assert_eq!(port_file_name(445), b"445.txt".to_vec());
    assert_eq!(scan.port_file(2), b"192.168.5.10\n".to_vec());
    assert_eq!(scan.port_file(0), b"".to_vec());
    let hostnames = scan.ip_hostname_file();
    assert!(has_line(&hostnames, "192.168.5.10,no_hostname"));
    let up = scan.up_ips_file();
    assert!(!contains_text(&up, "192.168.5.10"));
    assert!(has_line(&up, "192.168.5.20"));
}

#[test]
fn ingest_ignores_malformed_base() {
    let mut scan = Scan::new(ExclusionSet::new(), false);
    // a base whose last octet is not zero names no /24 block; its batch is
    // dropped whole
    let reports = vec![(a(10, 4, 7, 20), resolved("printer.lan"))];
    scan.ingest_block(a(10, 4, 7, 1), &reports);
    assert_eq!(scan.subnets_file(), b"".to_vec());
    assert_eq!(scan.ip_hostname_file(), b"".to_vec());
}

#[test]
fn ingest_ignores_out_of_block_and_reserved_addresses() {
    let mut scan = Scan::new(ExclusionSet::new(), false);
    let base = a(10, 4, 7, 0);
    let reports = vec![
        (a(10, 4, 8, 20), resolved("elsewhere.lan")),
        (a(10, 4, 7, 0), resolved("zero.lan")),
        (a(10, 4, 7, 255), resolved("broadcast.lan")),
    ];
    scan.ingest_block(base, &reports);
    assert_eq!(scan.subnets_file(), b"".to_vec());
    assert_eq!(scan.ip_hostname_file(), b"".to_vec());
}

#[test]
fn port_results_outside_port_set_are_ignored() {
    let mut scan = Scan::new(ExclusionSet::new(), false);
    scan.ingest_block(a(10, 4, 7, 0), &vec![(a(10, 4, 7, 20), resolved("printer.lan"))]);
    scan.ingest_port_results(&vec![PortProbe { addr: a(10, 4, 7, 21), port: 8080, is_open: true }]);
    assert_eq!(scan.port_file(0), b"".to_vec());
    assert_eq!(scan.port_file(1), b"".to_vec());
    assert_eq!(scan.port_file(2), b"".to_vec());
    assert!(!contains_text(&scan.ip_hostname_file(), "10.4.7.21"));
}

#[test]
fn octet_boundaries_render_exactly() {
    let mut scan = Scan::new(ExclusionSet::new(), false);
    let base = a(255, 255, 255, 0);
    scan.ingest_block(base, &vec![(a(255, 255, 255, 254), resolved("edge.lan"))]);
    assert_eq!(scan.ip_hostname_file(), b"255.255.255.254,edge.lan\n".to_vec());
    assert_eq!(port_file_name(80), b"80.txt".to_vec());
}

#[test]
fn custom_port_set_dedupes() {
    let scan = Scan::new_with_ports(ExclusionSet::new(), false, &vec![22, 80, 22, 8443]);
    assert_eq!(scan.ports(), vec![22, 80, 8443]);
    assert_eq!(scan.port_count(), 3);
}

#[test]
fn custom_port_set_collects_open_addresses() {
    let mut scan = Scan::new_with_ports(ExclusionSet::new(), false, &vec![22]);
    scan.ingest_block(a(10, 4, 7, 0), &vec![(a(10, 4, 7, 20), resolved("printer.lan"))]);
    scan.ingest_port_results(&vec![
        PortProbe { addr: a(10, 4, 7, 20), port: 22, is_open: true },
        PortProbe { addr: a(10, 4, 7, 21), port: 22, is_open: true },
    ]);
    assert_eq!(scan.port_file(0), b"10.4.7.20\n10.4.7.21\n".to_vec());
}

#[test]
fn deterministic_output_under_reordered_outcomes() {
    let run = |stage1: Vec<(Addr, ProbeReport)>, stage2: Vec<PortProbe>| {
        let mut excl = ExclusionSet::new();
        excl.add_addr(a(10, 4, 7, 100));
        let mut scan = Scan::new(excl, true);
        scan.ingest_block(a(10, 4, 7, 0), &stage1);
        scan.ingest_port_results(&stage2);
        (
            scan.subnets_file(),
            scan.ip_hostname_file(),
            scan.up_ips_file(),
            scan.port_file(0),
            scan.port_file(1),
            scan.port_file(2),
        )
    };
    let s1 = vec![
        (a(10, 4, 7, 5), resolved("a.lan")),
        (a(10, 4, 7, 9), ping_reply()),
        (a(10, 4, 7, 30), resolved("b.lan")),
    ];
    let p1 = vec![
        PortProbe { addr: a(10, 4, 7, 5), port: 80, is_open: true },
        PortProbe { addr: a(10, 4, 7, 9), port: 445, is_open: true },
        PortProbe { addr: a(10, 4, 7, 30), port: 80, is_open: true },
    ];
    // the same outcomes, handed in in a different order
    let s2 = vec![s1[2].clone(), s1[0].clone(), s1[1].clone()];
    let p2 = vec![p1[2], p1[1], p1[0]];
    assert_eq!(run(s1, p1), run(s2, p2));
}
