use tlslb::pool::{IpAddress, Pool, SockAddr};

fn addr(last: u32, port: u16) -> SockAddr {
    SockAddr { ip: IpAddress::V4(0xc000_0200 | last), port }
}

#[test]
fn new_pool_coalesces_duplicates() {
    let addrs = vec![addr(1, 443), addr(2, 443), addr(1, 443), addr(1, 8443)];
    let pool = Pool::new(&addrs, 3);
    assert_eq!(pool.backends.len(), 3);
    assert_eq!(pool.preconnect_count, 3);
    assert!(pool.backends.iter().all(|b| b.open_connections == 0));
    assert!(pool.idle.is_empty());
}

#[test]
fn request_connection_picks_least_loaded_and_counts() {
    let addrs = vec![addr(1, 443), addr(2, 443)];
    let mut pool = Pool::new(&addrs, 0);
    let g1 = pool.request_connection().unwrap();
    assert_eq!(g1.backend_index, 0);
    assert_eq!(pool.backends[0].open_connections, 1);
    let g2 = pool.request_connection().unwrap();
    assert_eq!(g2.backend_index, 1);
    let g3 = pool.request_connection().unwrap();
    assert_eq!(g3.backend_index, 0);
    assert_eq!(pool.backends[0].open_connections, 2);
    assert_eq!(pool.backends[1].open_connections, 1);
    pool.release_connection(g3);
    pool.release_connection(g2);
    pool.release_connection(g1);
    assert_eq!(pool.backends[0].open_connections, 0);
    assert_eq!(pool.backends[1].open_connections, 0);
}

#[test]
fn counters_reflect_unreleased_guards() {
    // Fill the idle queue with three connections, acquire two, and check
    // that every counter equals the number of guards not yet released.
    let addrs = vec![addr(1, 443), addr(2, 443)];
    let mut pool = Pool::new(&addrs, 0);
    for _ in 0..3 {
        let g = pool.request_connection().unwrap();
        pool.enqueue_idle(g);
    }
    assert_eq!(
        pool.backends[0].open_connections + pool.backends[1].open_connections,
        3
    );
    let alive = vec![true, true, true];
    let (first, popped1) = pool.get_connection(&alive);
    let first = first.unwrap();
    assert_eq!(popped1, 1);
    let alive = vec![true, true];
    let (second, popped2) = pool.get_connection(&alive);
    let second = second.unwrap();
    assert_eq!(popped2, 1);
    // distinct connections
    assert_ne!(first.conn_id, second.conn_id);
    // nothing was discarded: counters still cover the two handed-out
    // guards plus the one still queued
    assert_eq!(
        pool.backends[0].open_connections + pool.backends[1].open_connections,
        3
    );
    pool.release_connection(first.guard);
    pool.release_connection(second.guard);
    assert_eq!(
        pool.backends[0].open_connections + pool.backends[1].open_connections,
        1
    );
}

#[test]
fn dead_connection_is_never_returned() {
    let addrs = vec![addr(1, 443)];
    let mut pool = Pool::new(&addrs, 0);
    let mut ids = Vec::new();
    for _ in 0..3 {
        let g = pool.request_connection().unwrap();
        ids.push(pool.enqueue_idle(g));
    }
    // the first two queued connections were closed by the remote peer
    let alive = vec![false, false, true];
    let (got, popped) = pool.get_connection(&alive);
    let got = got.unwrap();
    assert_eq!(got.conn_id, ids[2]);
    // one pop per inspected entry: the caller queues that many replacements
    assert_eq!(popped, 3);
    // the two dead connections' guards were released on the spot
    assert_eq!(pool.backends[0].open_connections, 1);
    assert!(pool.idle.is_empty());
}

#[test]
fn exhausted_queue_reports_every_pop() {
    let addrs = vec![addr(1, 443)];
    let mut pool = Pool::new(&addrs, 0);
    let g = pool.request_connection().unwrap();
    pool.enqueue_idle(g);
    let alive = vec![false];
    let (got, popped) = pool.get_connection(&alive);
    assert!(got.is_none());
    assert_eq!(popped, 1);
    assert_eq!(pool.backends[0].open_connections, 0);
}
