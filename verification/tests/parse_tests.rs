use feather_redeemed::addr::Addr;
use feather_redeemed::exclusions::ExclusionSet;
use feather_redeemed::parse::{parse_line, CidrPrefix, LineForm};

fn line(s: &str) -> Vec<u8> {
    s.as_bytes().to_vec()
}

fn a(o1: u8, o2: u8, o3: u8, o4: u8) -> Addr {
    Addr { o1, o2, o3, o4 }
}

#[test]
fn parses_bare_address() {
    assert_eq!(parse_line(&line("10.0.0.1")), LineForm::Host(a(10, 0, 0, 1)));
    assert_eq!(parse_line(&line("0.0.0.0")), LineForm::Host(a(0, 0, 0, 0)));
    assert_eq!(
        parse_line(&line("255.255.255.255")),
        LineForm::Host(a(255, 255, 255, 255))
    );
    assert_eq!(parse_line(&line("192.168.5.10")), LineForm::Host(a(192, 168, 5, 10)));
}

#[test]
fn parses_cidr_lines() {
    assert_eq!(
        parse_line(&line("10.1.1.0/24")),
        LineForm::Cidr(a(10, 1, 1, 0), CidrPrefix::Len24)
    );
    assert_eq!(
        parse_line(&line("10.1.1.7/24")),
        LineForm::Cidr(a(10, 1, 1, 7), CidrPrefix::Len24)
    );
    assert_eq!(
        parse_line(&line("172.16.0.0/16")),
        LineForm::Cidr(a(172, 16, 0, 0), CidrPrefix::Len16)
    );
    assert_eq!(
        parse_line(&line("10.0.0.0/8")),
        LineForm::Cidr(a(10, 0, 0, 0), CidrPrefix::Len8)
    );
}

#[test]
fn rejects_malformed_lines() {
    for bad in [
        "",
        "1",
        "1.2.3",
        "1.2.3.4.5",
        "256.1.1.1",
        "1.256.1.1",
        "01.2.3.4",
        "1.2.3.04",
        "a.b.c.d",
        "1.2.3.4/",
        "1.2.3.4/12",
        "1.2.3.4/24x",
        "1.2.3.4/248",
        "1.2.3.4//24",
        "10.0.0.1 ",
        " 10.0.0.1",
        "10..0.1",
        "1.2.3.4/2",
    ] {
        assert_eq!(parse_line(&line(bad)), LineForm::Malformed, "line {:?}", bad);
    }
}

#[test]
fn exclusion_set_from_lines() {
    let lines = vec![
        line("10.0.0.5"),
        line("10.1.1.7/24"),
        line("172.16.0.0/16"),
        line("192.168.9.1"),
    ];
    let e = ExclusionSet::from_lines(&lines).unwrap();
    assert!(e.is_addr_excluded(a(10, 0, 0, 5)));
    assert!(e.is_addr_excluded(a(192, 168, 9, 1)));
    assert!(!e.is_addr_excluded(a(10, 0, 0, 6)));
    // the /24 line excludes the whole block, reduced to its base
    assert!(e.is_block_excluded(a(10, 1, 1, 0)));
    assert!(!e.is_block_excluded(a(10, 1, 2, 0)));
    // the /16 line is recognized but not honored
    assert!(!e.is_block_excluded(a(172, 16, 0, 0)));
    assert!(!e.is_block_excluded(a(172, 16, 5, 0)));
}

#[test]
fn exclusion_set_reports_first_malformed_line() {
    let lines = vec![line("10.0.0.5"), line("not an address"), line("1.2.3.4/99")];
    assert_eq!(ExclusionSet::from_lines(&lines).err(), Some(1));
}

#[test]
fn exclusion_set_add_addr_and_block() {
    let mut e = ExclusionSet::new();
    assert!(!e.is_addr_excluded(a(10, 2, 3, 4)));
    e.add_addr(a(10, 2, 3, 4));
    assert!(e.is_addr_excluded(a(10, 2, 3, 4)));
    e.add_block(a(192, 168, 7, 33));
    assert!(e.is_block_excluded(a(192, 168, 7, 0)));
    assert!(!e.is_block_excluded(a(192, 168, 8, 0)));
}
