use tlslb::ip::IpDatabase;
use tlslb::parser::ParseError;
use tlslb::pool::{IpAddress, Pool, SockAddr};
use tlslb::state::{copy_outcome, HandlerError, State};

fn hello_for(host: &[u8]) -> Vec<u8> {
    let mut sni = Vec::new();
    sni.extend_from_slice(&((host.len() + 3) as u16).to_be_bytes());
    sni.push(0x00);
    sni.extend_from_slice(&(host.len() as u16).to_be_bytes());
    sni.extend_from_slice(host);

    let mut body = vec![0x03, 0x03];
    body.extend_from_slice(&[0u8; 32]);
    body.push(0);
    body.extend_from_slice(&2u16.to_be_bytes());
    body.extend_from_slice(&0x1301u16.to_be_bytes());
    body.push(1);
    body.push(0);
    let mut extb = Vec::new();
    extb.extend_from_slice(&0x0000u16.to_be_bytes());
    extb.extend_from_slice(&(sni.len() as u16).to_be_bytes());
    extb.extend_from_slice(&sni);
    body.extend_from_slice(&(extb.len() as u16).to_be_bytes());
    body.extend_from_slice(&extb);
    let mut hs = vec![0x01];
    hs.extend_from_slice(&(body.len() as u32).to_be_bytes()[1..]);
    hs.extend_from_slice(&body);
    let mut rec = vec![0x16, 0x03, 0x01];
    rec.extend_from_slice(&(hs.len() as u16).to_be_bytes());
    rec.extend_from_slice(&hs);
    rec
}

fn configured_state() -> State {
    let mut state = State::new(IpDatabase::new());
    let addrs = vec![SockAddr { ip: IpAddress::V4(0xc000_0201), port: 8443 }];
    assert!(state.add_pool(b"example.com".to_vec(), Pool::new(&addrs, 0)));
    state
}

#[test]
fn routes_configured_domain() {
    let state = configured_state();
    let decision = state.route_client_hello(&hello_for(b"example.com")).unwrap();
    assert_eq!(decision.pool_index, 0);
    assert_eq!(decision.sni, b"example.com".to_vec());
    assert_eq!(&decision.ja4.as_bytes()[0..4], b"t12d");
}

#[test]
fn unknown_domain_is_dropped() {
    let state = configured_state();
    assert!(matches!(
        state.route_client_hello(&hello_for(b"other.test")),
        Err(HandlerError::UnknownDomain)
    ));
}

#[test]
fn missing_sni_is_dropped() {
    let state = configured_state();
    let mut body = vec![0x03, 0x03];
    body.extend_from_slice(&[0u8; 32]);
    body.push(0);
    body.extend_from_slice(&2u16.to_be_bytes());
    body.extend_from_slice(&0x1301u16.to_be_bytes());
    body.push(1);
    body.push(0);
    let mut hs = vec![0x01];
    hs.extend_from_slice(&(body.len() as u32).to_be_bytes()[1..]);
    hs.extend_from_slice(&body);
    let mut rec = vec![0x16, 0x03, 0x01];
    rec.extend_from_slice(&(hs.len() as u16).to_be_bytes());
    rec.extend_from_slice(&hs);
    assert!(matches!(
        state.route_client_hello(&rec),
        Err(HandlerError::MissingSni)
    ));
}

#[test]
fn garbage_header_is_a_parse_failure() {
    let state = configured_state();
    assert!(matches!(
        state.route_client_hello(b"GET / HTTP/1.1\r\n"),
        Err(HandlerError::ParseFailed(ParseError::NotHandshake))
    ));
}

#[test]
fn duplicate_domain_is_refused() {
    let mut state = configured_state();
    let addrs = vec![SockAddr { ip: IpAddress::V4(0xc000_0202), port: 8443 }];
    assert!(!state.add_pool(b"example.com".to_vec(), Pool::new(&addrs, 0)));
    assert_eq!(state.pools.len(), 1);
}

#[test]
fn copy_outcome_names_the_closing_side() {
    assert_eq!(copy_outcome(true, 0), Err(HandlerError::ClientClosedEarly));
    assert_eq!(copy_outcome(false, 0), Err(HandlerError::ServerClosedEarly));
    assert_eq!(copy_outcome(true, 17), Ok(17));
    assert_eq!(copy_outcome(false, 1), Ok(1));
}

#[test]
fn backend_preconnect_defaults_to_three() {
    let backend = tlslb::config::Backend {
        addresses: vec!["backend.test:8443".to_string()],
        terminate_tls_on_error: None,
        preconnect_count: None,
    };
    assert_eq!(backend.effective_preconnect(), 3);
    let backend = tlslb::config::Backend { preconnect_count: Some(7), ..backend };
    assert_eq!(backend.effective_preconnect(), 7);
}
