use tlslb::ja4::{format_alpn, format_version, hash12, sort_u16, u16_slice_to_hex, Ja4Fingerprint};
use tlslb::hello::ClientHello;

#[test]
fn test_hash12() {
    assert_eq!(
        hash12(b"002f,0033,0035,0039,003c,003d,0067,006b,009c,009d,009e,009f,1301,1302,1303,c009,c00a,c013,c014,c023,c024,c027,c028,c02b,c02c,c02f,c030,cca8,cca9,ccaa").as_slice(),
        b"1d37bd780c83"
    );
}

#[test]
fn test_format_alpn() {
    assert_eq!(format_alpn(b"h2").as_slice(), b"h2");
    assert_eq!(format_alpn(b"http/1.1").as_slice(), b"h1");
    assert_eq!(format_alpn(b"b").as_slice(), b"b");
    assert_eq!(format_alpn(b"tls-alpn-01").as_slice(), b"t1");
}

#[test]
fn test_u16_slice_to_hex() {
    assert_eq!(u16_slice_to_hex(&[]).as_slice(), b"");
    assert_eq!(u16_slice_to_hex(&[0x1234]).as_slice(), b"1234");
    assert_eq!(u16_slice_to_hex(&[0x1, 0x2]).as_slice(), b"0001,0002");
    assert_eq!(u16_slice_to_hex(&[0x1234, 0x5678]).as_slice(), b"1234,5678");
}

#[test]
fn hash12_is_twelve_lower_hex() {
    for input in [&b""[..], b"a", b"abc", b"\x00\xff\x10"] {
        let h = hash12(input);
        assert_eq!(h.len(), 12);
        assert!(h
            .iter()
            .all(|b| (b'0'..=b'9').contains(b) || (b'a'..=b'f').contains(b)));
        assert_eq!(h, hash12(input));
    }
}

#[test]
fn format_version_codes() {
    assert_eq!(format_version(0x0304).as_slice(), b"13");
    assert_eq!(format_version(0x0303).as_slice(), b"12");
    assert_eq!(format_version(0x0302).as_slice(), b"11");
    assert_eq!(format_version(0x0301).as_slice(), b"10");
    assert_eq!(format_version(0x0300).as_slice(), b"s3");
    assert_eq!(format_version(0x0002).as_slice(), b"s2");
    assert_eq!(format_version(0xfeff).as_slice(), b"d1");
    assert_eq!(format_version(0xfefd).as_slice(), b"d2");
    assert_eq!(format_version(0xfefc).as_slice(), b"d3");
    assert_eq!(format_version(0x1234).as_slice(), b"00");
}

#[test]
fn format_alpn_non_printable_is_99() {
    assert_eq!(format_alpn(&[0x01, 0x41, 0x42, 0x02]).as_slice(), b"99");
    assert_eq!(format_alpn(&[0x01, 0x02]).as_slice(), b"99");
    assert_eq!(format_alpn(b"").as_slice(), b"");
}

#[test]
fn sort_u16_sorts_ascending_keeping_duplicates() {
    let sorted = sort_u16(&[5, 1, 3, 1, 2]);
    assert_eq!(sorted, vec![1, 1, 2, 3, 5]);
}

fn sample_hello() -> ClientHello {
    ClientHello {
        tls_version: 0x0304,
        sni: Some(b"example.com".to_vec()),
        cipher_suites: vec![0x1303, 0x1301, 0x1302],
        extensions: vec![0x002b, 0x0000, 0x0010, 0x000d, 0x0033],
        signature_algorithms: vec![0x0403, 0x0804],
        alpn: vec![b"h2".to_vec(), b"http/1.1".to_vec()],
    }
}

#[test]
fn fingerprint_layout() {
    let ja4 = Ja4Fingerprint::calculate(&sample_hello());
    let bytes = ja4.as_bytes();
    assert_eq!(bytes.len(), 36);
    // "t" + version + SNI flag + counts + ALPN tag
    assert_eq!(&bytes[0..10], b"t13d0305h2");
    assert_eq!(bytes[10], b'_');
    assert_eq!(bytes[23], b'_');
    // first hash: sorted cipher suites rendered as hex
    let ciphers_hex = u16_slice_to_hex(&[0x1301, 0x1302, 0x1303]);
    assert_eq!(&bytes[11..23], hash12(&ciphers_hex).as_slice());
    // second hash: sorted extensions without SNI/ALPN, "_", signatures
    let mut second = u16_slice_to_hex(&[0x000d, 0x002b, 0x0033]);
    second.push(b'_');
    second.extend_from_slice(&u16_slice_to_hex(&[0x0403, 0x0804]));
    assert_eq!(&bytes[24..36], hash12(&second).as_slice());
}

#[test]
fn fingerprint_order_independent() {
    let a = sample_hello();
    let mut b = sample_hello();
    b.cipher_suites = vec![0x1301, 0x1303, 0x1302];
    b.extensions = vec![0x0033, 0x0010, 0x000d, 0x0000, 0x002b];
    assert_eq!(
        Ja4Fingerprint::calculate(&a).as_bytes(),
        Ja4Fingerprint::calculate(&b).as_bytes()
    );
}

#[test]
fn fingerprint_no_sni_no_alpn() {
    let mut h = sample_hello();
    h.sni = None;
    h.alpn = Vec::new();
    h.tls_version = 0x0303;
    let ja4 = Ja4Fingerprint::calculate(&h);
    assert_eq!(&ja4.as_bytes()[0..10], b"t12i030500");
}

#[test]
fn fingerprint_counts_capped_at_99() {
    let mut h = sample_hello();
    h.cipher_suites = (0..120u16).collect();
    let ja4 = Ja4Fingerprint::calculate(&h);
    assert_eq!(&ja4.as_bytes()[4..6], b"99");
}
