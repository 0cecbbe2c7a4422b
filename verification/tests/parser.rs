use tlslb::ja4::Ja4Fingerprint;
use tlslb::parser::{extract_sni_from_header, parse_tls_client_hello, ParseError};

fn ext(t: u16, payload: &[u8]) -> (u16, Vec<u8>) {
    (t, payload.to_vec())
}

fn sni_ext(host: &[u8]) -> (u16, Vec<u8>) {
    let mut p = Vec::new();
    p.extend_from_slice(&((host.len() + 3) as u16).to_be_bytes());
    p.push(0x00);
    p.extend_from_slice(&(host.len() as u16).to_be_bytes());
    p.extend_from_slice(host);
    (0x0000, p)
}

fn alpn_ext(protos: &[&[u8]]) -> (u16, Vec<u8>) {
    let mut list = Vec::new();
    for proto in protos {
        list.push(proto.len() as u8);
        list.extend_from_slice(proto);
    }
    let mut p = Vec::new();
    p.extend_from_slice(&(list.len() as u16).to_be_bytes());
    p.extend_from_slice(&list);
    (0x0010, p)
}

fn sigalgs_ext(schemes: &[u16]) -> (u16, Vec<u8>) {
    let mut p = Vec::new();
    p.extend_from_slice(&((schemes.len() * 2) as u16).to_be_bytes());
    for s in schemes {
        p.extend_from_slice(&s.to_be_bytes());
    }
    (0x000d, p)
}

fn supported_versions_ext(versions: &[u16]) -> (u16, Vec<u8>) {
    let mut p = vec![(versions.len() * 2) as u8];
    for v in versions {
        p.extend_from_slice(&v.to_be_bytes());
    }
    (0x002b, p)
}

fn build_client_hello(ciphers: &[u16], exts: &[(u16, Vec<u8>)]) -> Vec<u8> {
    let mut body = vec![0x03, 0x03];
    body.extend_from_slice(&[0u8; 32]);
    body.push(0);
    body.extend_from_slice(&((ciphers.len() * 2) as u16).to_be_bytes());
    for c in ciphers {
        body.extend_from_slice(&c.to_be_bytes());
    }
    body.push(1);
    body.push(0);
    let mut extb = Vec::new();
    for (t, p) in exts {
        extb.extend_from_slice(&t.to_be_bytes());
        extb.extend_from_slice(&(p.len() as u16).to_be_bytes());
        extb.extend_from_slice(p);
    }
    body.extend_from_slice(&(extb.len() as u16).to_be_bytes());
    body.extend_from_slice(&extb);
    let mut hs = vec![0x01];
    hs.extend_from_slice(&(body.len() as u32).to_be_bytes()[1..]);
    hs.extend_from_slice(&body);
    let mut rec = vec![0x16, 0x03, 0x01];
    rec.extend_from_slice(&(hs.len() as u16).to_be_bytes());
    rec.extend_from_slice(&hs);
    rec
}

fn full_hello() -> Vec<u8> {
    build_client_hello(
        &[0x1301, 0x1303, 0x1302],
        &[
            sni_ext(b"example.com"),
            alpn_ext(&[b"h2", b"http/1.1"]),
            sigalgs_ext(&[0x0403, 0x0804]),
            supported_versions_ext(&[0x0303, 0x0304]),
            ext(0x0033, &[0, 0]),
        ],
    )
}

#[test]
fn parses_full_hello() {
    let hello = parse_tls_client_hello(&full_hello()).unwrap();
    assert_eq!(hello.tls_version, 0x0304);
    assert_eq!(hello.sni.as_deref(), Some(&b"example.com"[..]));
    assert_eq!(hello.cipher_suites, vec![0x1301, 0x1303, 0x1302]);
    assert_eq!(
        hello.extensions,
        vec![0x0000, 0x0010, 0x000d, 0x002b, 0x0033]
    );
    assert_eq!(hello.signature_algorithms, vec![0x0403, 0x0804]);
    assert_eq!(hello.alpn, vec![b"h2".to_vec(), b"http/1.1".to_vec()]);
}

#[test]
fn parse_round_trip_is_deterministic() {
    let bytes = full_hello();
    let first = parse_tls_client_hello(&bytes).unwrap();
    let second = parse_tls_client_hello(&bytes).unwrap();
    assert_eq!(first, second);
    assert_eq!(
        Ja4Fingerprint::calculate(&first).as_bytes(),
        Ja4Fingerprint::calculate(&second).as_bytes()
    );
}

#[test]
fn hello_without_extensions() {
    let mut body = vec![0x03, 0x03];
    body.extend_from_slice(&[0u8; 32]);
    body.push(0);
    body.extend_from_slice(&4u16.to_be_bytes());
    body.extend_from_slice(&0x1301u16.to_be_bytes());
    body.extend_from_slice(&0x1302u16.to_be_bytes());
    body.push(1);
    body.push(0);
    let mut hs = vec![0x01];
    hs.extend_from_slice(&(body.len() as u32).to_be_bytes()[1..]);
    hs.extend_from_slice(&body);
    let mut rec = vec![0x16, 0x03, 0x01];
    rec.extend_from_slice(&(hs.len() as u16).to_be_bytes());
    rec.extend_from_slice(&hs);
    let hello = parse_tls_client_hello(&rec).unwrap();
    assert_eq!(hello.sni, None);
    assert_eq!(hello.cipher_suites, vec![0x1301, 0x1302]);
    assert_eq!(hello.tls_version, 0x0303);
    assert!(hello.extensions.is_empty());
}

#[test]
fn rejects_non_handshake_record() {
    assert_eq!(
        parse_tls_client_hello(&[0x17, 0x03, 0x03, 0x00, 0x01, 0x00]),
        Err(ParseError::NotHandshake)
    );
}

#[test]
fn rejects_non_client_hello() {
    assert_eq!(
        parse_tls_client_hello(&[0x16, 0x03, 0x01, 0x00, 0x04, 0x02, 0x00, 0x00, 0x00]),
        Err(ParseError::NotClientHello)
    );
}

#[test]
fn rejects_truncated_record_as_incomplete() {
    let mut bytes = full_hello();
    bytes.truncate(bytes.len() - 5);
    assert_eq!(parse_tls_client_hello(&bytes), Err(ParseError::Incomplete));
    assert_eq!(parse_tls_client_hello(&[]), Err(ParseError::Incomplete));
    assert_eq!(parse_tls_client_hello(&[0x16, 0x03]), Err(ParseError::Incomplete));
}

#[test]
fn rejects_bad_inner_length_as_malformed() {
    // cipher suite list length runs past the body end
    let mut body = vec![0x03, 0x03];
    body.extend_from_slice(&[0u8; 32]);
    body.push(0);
    body.extend_from_slice(&200u16.to_be_bytes());
    let mut hs = vec![0x01];
    hs.extend_from_slice(&(body.len() as u32).to_be_bytes()[1..]);
    hs.extend_from_slice(&body);
    let mut rec = vec![0x16, 0x03, 0x01];
    rec.extend_from_slice(&(hs.len() as u16).to_be_bytes());
    rec.extend_from_slice(&hs);
    assert_eq!(parse_tls_client_hello(&rec), Err(ParseError::Malformed));
}

#[test]
fn rejects_oversized_cipher_list() {
    let ciphers: Vec<u16> = (0..200u16).collect();
    let bytes = build_client_hello(&ciphers, &[]);
    assert_eq!(parse_tls_client_hello(&bytes), Err(ParseError::Oversized));
}

#[test]
fn rejects_oversized_alpn_list() {
    let bytes = build_client_hello(
        &[0x1301],
        &[alpn_ext(&[b"a", b"b", b"c", b"d", b"e"])],
    );
    assert_eq!(parse_tls_client_hello(&bytes), Err(ParseError::Oversized));
}

#[test]
fn malformed_sni_is_absent_not_an_error() {
    let bytes = build_client_hello(&[0x1301], &[ext(0x0000, &[0xff])]);
    let hello = parse_tls_client_hello(&bytes).unwrap();
    assert_eq!(hello.sni, None);
    assert_eq!(hello.extensions, vec![0x0000]);
}

#[test]
fn arbitrary_bytes_never_panic() {
    // a crude deterministic byte-string generator
    let mut seed: u64 = 0x1234_5678_9abc_def0;
    for len in 0..200usize {
        let mut bytes = Vec::with_capacity(len);
        for _ in 0..len {
            seed = seed.wrapping_mul(6364136223846793005).wrapping_add(1442695040888963407);
            bytes.push((seed >> 56) as u8);
        }
        let _ = parse_tls_client_hello(&bytes);
    }
}

#[test]
fn extract_sni_returns_host() {
    assert_eq!(
        extract_sni_from_header(&full_hello()).unwrap().as_deref(),
        Some(&b"example.com"[..])
    );
    assert_eq!(
        extract_sni_from_header(&[0x17, 0, 0, 0, 0]),
        Err(ParseError::NotHandshake)
    );
}
