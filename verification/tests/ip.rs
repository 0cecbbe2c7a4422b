use tlslb::ip::{IpDatabase, LoadIpDatabaseError};
use tlslb::pool::IpAddress;

const TABLE: &[u8] = b"# sample routing table\n1.1.1.0/24 13335\n8.8.8.0/24 15169\n9.9.9.0/24 19281\n2a0e:46c6::/40 207968\n\n";

fn loaded() -> IpDatabase {
    let mut db = IpDatabase::new();
    db.load_routing_table_txt(TABLE).unwrap();
    db
}

#[test]
fn lookup_finds_route() {
    let db = loaded();
    let r = db.lookup_ip(IpAddress::V4(0x0101_0117)).unwrap();
    assert_eq!(r.asn(), 13335);
    assert_eq!(db.lookup_ip(IpAddress::V4(0x0808_0808)).unwrap().asn(), 15169);
    assert!(db.lookup_ip(IpAddress::V4(0x0a00_0001)).is_none());
}

#[test]
fn lookup_prefers_longest_prefix() {
    let mut db = loaded();
    db.load_routing_table_txt(b"1.1.0.0/16 64500\n1.1.1.128/25 64501\n")
        .unwrap();
    assert_eq!(db.lookup_ip(IpAddress::V4(0x0101_0202)).unwrap().asn(), 64500);
    assert_eq!(db.lookup_ip(IpAddress::V4(0x0101_0105)).unwrap().asn(), 13335);
    assert_eq!(db.lookup_ip(IpAddress::V4(0x0101_01f0)).unwrap().asn(), 64501);
}

#[test]
fn lookup_ipv6_route() {
    let db = loaded();
    let in_range: u128 = 0x2a0e_46c6_0001_0000_0000_0000_0000_0001;
    assert_eq!(db.lookup_ip(IpAddress::V6(in_range)).unwrap().asn(), 207968);
    let outside: u128 = 0x2a0e_46c7_0000_0000_0000_0000_0000_0001;
    assert!(db.lookup_ip(IpAddress::V6(outside)).is_none());
}

#[test]
fn mapped_ipv6_is_treated_as_ipv4() {
    let db = loaded();
    let mapped: u128 = 0x0000_0000_0000_0000_0000_ffff_0101_0101;
    assert_eq!(db.lookup_ip(IpAddress::V6(mapped)).unwrap().asn(), 13335);
    let compatible: u128 = 0x0000_0000_0000_0000_0000_0000_0808_0808;
    assert_eq!(db.lookup_ip(IpAddress::V6(compatible)).unwrap().asn(), 15169);
}

#[test]
fn replaces_route_for_same_prefix() {
    let mut db = loaded();
    db.load_routing_table_txt(b"1.1.1.0/24 64999\n").unwrap();
    assert_eq!(db.lookup_ip(IpAddress::V4(0x0101_0101)).unwrap().asn(), 64999);
}

#[test]
fn malformed_lines_name_their_index() {
    let mut db = IpDatabase::new();
    assert_eq!(
        db.load_routing_table_txt(b"bogus"),
        Err(LoadIpDatabaseError::MalformedInputFile(0))
    );
    let mut db = IpDatabase::new();
    assert_eq!(
        db.load_routing_table_txt(b"# fine\n1.1.1.0/24 13335\n1.2.3.4/40 1\n"),
        Err(LoadIpDatabaseError::MalformedInputFile(2))
    );
    let mut db = IpDatabase::new();
    assert_eq!(
        db.load_routing_table_txt(b"1.1.1.0/24 notanumber\n"),
        Err(LoadIpDatabaseError::MalformedInputFile(0))
    );
    let mut db = IpDatabase::new();
    assert_eq!(
        db.load_routing_table_txt(b"1.1.1.0 13335\n"),
        Err(LoadIpDatabaseError::MalformedInputFile(0))
    );
}

#[test]
fn crlf_and_comments_are_accepted() {
    let mut db = IpDatabase::new();
    db.load_routing_table_txt(b"1.1.1.0/24 13335\r\n  # indented comment\r\n")
        .unwrap();
    assert_eq!(db.lookup_ip(IpAddress::V4(0x0101_0101)).unwrap().asn(), 13335);
}

#[test]
fn embedded_ipv4_tail_and_plus_sign() {
    let mut db = IpDatabase::new();
    db.load_routing_table_txt(b"64:ff9b::1.2.3.4/96 +64496\n").unwrap();
    let inside: u128 = 0x0064_ff9b_0000_0000_0000_0000_dead_beef;
    assert_eq!(db.lookup_ip(IpAddress::V6(inside)).unwrap().asn(), 64496);
    let outside: u128 = 0x0064_ff9c_0000_0000_0000_0000_0000_0001;
    assert!(db.lookup_ip(IpAddress::V6(outside)).is_none());
}

#[test]
fn embedded_ipv4_tail_without_compression() {
    let mut db = IpDatabase::new();
    db.load_routing_table_txt(b"0:0:0:0:0:ffff:203.0.113.0/120 64497\n")
        .unwrap();
    assert_eq!(db.ipv6_to_asn.len(), 1);
    assert_eq!(db.ipv6_to_asn[0].asn, 64497);
    assert_eq!(db.ipv6_to_asn[0].len, 120);
    assert_eq!(db.ipv6_to_asn[0].net, 0x0000_0000_0000_0000_0000_ffff_cb00_7100);
}
