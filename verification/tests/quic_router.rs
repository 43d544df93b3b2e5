use ring::aead;
use sni_router::acl::{Acl, AclAction, AclRule};
use sni_router::addr::{
    backend_bind_addr, normalize_socket_addr, peer_ip_v6, send_addr_for_socket,
    socket_addrs_equal, udp_mode, AddrError, SocketAddr, UdpMode,
};
use sni_router::pattern::Pattern;
use sni_router::quic::config::{Backend, Config, Rule};
use sni_router::quic::error::QuicError;
use sni_router::quic::initial::packet_nonce;
use sni_router::quic::keys::initial_key_bytes;
use sni_router::quic::model::{DropReason, HandleError};
use sni_router::quic::packet::QUIC_VERSION_1;
use sni_router::quic::pending::{
    PendingConnection, PendingError, MAX_PENDING_BYTES, MAX_PENDING_DATAGRAMS,
};
use sni_router::quic::route::{min_timeout, route_for_sni, RouteError};
use sni_router::quic::router::{BackendAction, ClientAction, NewConnection, Router};

const SECOND: u64 = 1_000_000_000;

fn v4(ip: u32, port: u16) -> SocketAddr {
    SocketAddr::V4 { ip, port }
}

fn v6(ip: u128, port: u16) -> SocketAddr {
    SocketAddr::V6 {
        ip,
        port,
        flowinfo: 0,
        scope_id: 0,
    }
}

fn accept_all() -> Acl {
    Acl {
        rules: Vec::new(),
        default_action: AclAction::Accept,
    }
}

fn rule(re: &str, backend: Backend, acl: Acl, timeout: Option<u64>) -> Rule {
    Rule {
        re: Pattern::new(re.to_string()).unwrap(),
        backend,
        acl,
        timeout,
    }
}

const BACKEND: SocketAddr = SocketAddr::V4 {
    ip: 0x7f00_0001,
    port: 443,
};

fn null_config() -> Config {
    Config {
        max_lifetime: None,
        handshake_timeout: None,
        rules: Vec::new(),
        default: rule("", Backend::Null, accept_all(), None),
    }
}

fn foo_config(timeout: Option<u64>) -> Config {
    Config {
        max_lifetime: Some(60_000),
        handshake_timeout: Some(5_000),
        rules: vec![rule(
            "foo",
            Backend::Udp { addr: BACKEND },
            accept_all(),
            timeout,
        )],
        default: rule("", Backend::Null, accept_all(), None),
    }
}

fn push_u16_len_prefixed(out: &mut Vec<u8>, value: &[u8]) {
    out.extend_from_slice(&u16::try_from(value.len()).unwrap().to_be_bytes());
    out.extend_from_slice(value);
}

fn minimal_clienthello_sni(host: &str) -> Vec<u8> {
    let mut server_name_list = vec![0];
    push_u16_len_prefixed(&mut server_name_list, host.as_bytes());
    let mut server_name_ext = Vec::new();
    push_u16_len_prefixed(&mut server_name_ext, &server_name_list);
    let mut extensions = 0u16.to_be_bytes().to_vec();
    push_u16_len_prefixed(&mut extensions, &server_name_ext);
    let mut body = vec![0x03, 0x03];
    body.extend_from_slice(&[0u8; 32]);
    body.push(0);
    body.extend_from_slice(&2u16.to_be_bytes());
    body.extend_from_slice(&[0x13, 0x01]);
    body.push(1);
    body.push(0);
    push_u16_len_prefixed(&mut body, &extensions);
    let mut hello = vec![1];
    hello.extend_from_slice(&u32::try_from(body.len()).unwrap().to_be_bytes()[1..]);
    hello.extend_from_slice(&body);
    hello
}

fn crypto_frame(offset: u8, data: &[u8]) -> Vec<u8> {
    assert!(offset < 64);
    let mut frame = vec![0x06, offset];
    frame.extend_from_slice(&(u16::try_from(data.len()).unwrap() | 0x4000).to_be_bytes());
    frame.extend_from_slice(data);
    frame
}

fn long_packet(first: u8, dcid: &[u8], scid: &[u8]) -> Vec<u8> {
    let mut packet = vec![first];
    packet.extend_from_slice(&QUIC_VERSION_1.to_be_bytes());
    packet.push(u8::try_from(dcid.len()).unwrap());
    packet.extend_from_slice(dcid);
    packet.push(u8::try_from(scid.len()).unwrap());
    packet.extend_from_slice(scid);
    packet
}

fn long_packet_with_cids(dcid: &[u8], scid: &[u8]) -> Vec<u8> {
    long_packet(0xc0, dcid, scid)
}

fn protected_initial_packet(dcid: &[u8], scid: &[u8], payload: &[u8]) -> Vec<u8> {
    let key_bytes = initial_key_bytes(dcid).unwrap();
    let open = aead::LessSafeKey::new(
        aead::UnboundKey::new(&aead::AES_128_GCM, &key_bytes.key).unwrap(),
    );
    let hp = aead::quic::HeaderProtectionKey::new(&aead::quic::AES_128, &key_bytes.hp).unwrap();
    let mut ciphertext = payload.to_vec();
    let mut header = long_packet(0xc3, dcid, scid);
    header.push(0);
    let packet_len = u16::try_from(4 + ciphertext.len() + 16).unwrap() | 0x4000;
    header.extend_from_slice(&packet_len.to_be_bytes());
    let offset = header.len();
    header.extend_from_slice(&[0; 4]);
    open.seal_in_place_append_tag(
        aead::Nonce::try_assume_unique_for_key(&packet_nonce(&key_bytes.iv, 0)).unwrap(),
        aead::Aad::from(&header),
        &mut ciphertext,
    )
    .unwrap();
    let mut packet = header;
    packet.extend_from_slice(&ciphertext);
    let mask = hp.new_mask(&packet[offset + 4..offset + 20]).unwrap();
    packet[0] ^= mask[0] & 0x0f;
    for i in 0..4 {
        packet[offset + i] ^= mask[i + 1];
    }
    packet
}

fn initial_for(host: &str, dcid: &[u8], scid: &[u8]) -> Vec<u8> {
    let hello = minimal_clienthello_sni(host);
    protected_initial_packet(dcid, scid, &crypto_frame(0, &hello))
}

fn connect(action: ClientAction) -> NewConnection {
    match action {
        ClientAction::Connect(new) => new,
        other => panic!("unexpected action {other:?}"),
    }
}

/// Routes a client for `foo` and takes its connection up.
fn establish(router: &mut Router, peer: SocketAddr, dcid: &[u8], scid: &[u8], now: u64) -> usize {
    let packet = initial_for("foo", dcid, scid);
    let new = connect(router.handle_datagram(peer, packet.clone(), now).unwrap());
    let conn_id = new.conn_id;
    assert_eq!(new.backend, BACKEND);
    assert_eq!(router.establish_and_flush(new), vec![packet]);
    conn_id
}

fn is_forward(action: ClientAction, id: usize, expected: &[u8]) -> bool {
    matches!(action, ClientAction::Forward { conn_id, packet } if conn_id == id && packet == expected)
}

fn drop_reason(action: ClientAction) -> DropReason {
    match action {
        ClientAction::Drop(reason) => reason,
        other => panic!("unexpected action {other:?}"),
    }
}

#[test]
fn backend_reply_from_ipv4_on_dual_stack_socket_routes_to_client() {
    let mut router = Router::new(foo_config(None), 60_000);
    let client_addr = v6(1, 49_152);
    let client_cid = b"client01";
    let conn_id = establish(&mut router, client_addr, b"initial1", client_cid, 0);

    let packet = long_packet_with_cids(client_cid, b"server01");
    match router.handle_backend_datagram(conn_id, packet.clone(), SECOND) {
        BackendAction::Send {
            client_addr: to,
            packet: sent,
        } => {
            assert_eq!(to, client_addr);
            assert_eq!(sent, packet);
        }
        other => panic!("unexpected action {other:?}"),
    }
    assert_eq!(router.connection(conn_id).unwrap().last_seen, SECOND);
}

#[test]
fn backend_reply_with_unknown_dcid_routes_by_unique_backend() {
    let mut router = Router::new(foo_config(None), 60_000);
    let client_addr = v4(0x7f00_0001, 49_152);
    let conn_id = establish(&mut router, client_addr, b"", b"", 0);

    let server_cid = b"server01".to_vec();
    let packet = long_packet_with_cids(&[], &server_cid);
    assert_eq!(router.cid_route(&server_cid), None);
    match router.handle_backend_datagram(conn_id, packet.clone(), 1) {
        BackendAction::Send {
            client_addr: to,
            packet: sent,
        } => {
            assert_eq!(to, client_addr);
            assert_eq!(sent, packet);
        }
        other => panic!("unexpected action {other:?}"),
    }
    assert_eq!(router.cid_route(&server_cid), Some(conn_id));
}

#[test]
fn short_header_client_packet_with_no_cid_routes_by_client_addr() {
    let mut router = Router::new(foo_config(None), 60_000);
    let client_addr = v4(0x7f00_0001, 49_152);
    let conn_id = establish(&mut router, client_addr, b"", b"", 0);

    let packet = vec![0x40, 0xde, 0xad, 0xbe, 0xef];
    let action = router
        .handle_datagram(client_addr, packet.clone(), 1)
        .unwrap();
    assert!(is_forward(action, conn_id, &packet));
}

#[test]
fn long_header_client_packet_with_no_cid_routes_by_client_addr() {
    let mut router = Router::new(foo_config(None), 60_000);
    let client_addr = v4(0x7f00_0001, 49_152);
    let conn_id = establish(&mut router, client_addr, b"", b"", 0);
    let packet = long_packet(0xe0, b"", b"");
    let action = router
        .handle_datagram(client_addr, packet.clone(), 1)
        .unwrap();
    assert!(is_forward(action, conn_id, &packet));
}

#[test]
fn client_is_found_by_mapped_address() {
    let mut router = Router::new(foo_config(None), 60_000);
    let conn_id = establish(&mut router, v6(0xffff_7f00_0001, 5), b"12345678", b"c", 0);
    let packet = vec![0x40, 1, 2, 3];
    let action = router
        .handle_datagram(v4(0x7f00_0001, 5), packet.clone(), 7)
        .unwrap();
    assert!(is_forward(action, conn_id, &packet));
    assert_eq!(
        router.connection(conn_id).unwrap().client_addr,
        v4(0x7f00_0001, 5)
    );
    assert_eq!(router.client_route(v6(0xffff_7f00_0001, 5)), Some(conn_id));
}

#[test]
fn datagrams_follow_connection_ids() {
    let mut router = Router::new(foo_config(None), 60_000);
    let alice = v4(1, 1);
    let bob = v4(2, 2);
    let a = establish(&mut router, alice, b"alice-dcid", b"alice-scid", 0);
    let b = establish(&mut router, bob, b"bob-dcid", b"bob-scid", 0);
    assert_ne!(a, b);

    // The backend picks a connection ID, and the client uses it.
    let reply = long_packet_with_cids(b"bob-scid", b"bob-server");
    assert!(matches!(
        router.handle_backend_datagram(b, reply, 1),
        BackendAction::Send { client_addr, .. } if client_addr == bob
    ));
    let long = long_packet(0xe0, b"bob-server", b"bob-scid");
    let action = router.handle_datagram(bob, long.clone(), 2).unwrap();
    assert!(is_forward(action, b, &long));
    let mut short = vec![0x41];
    short.extend_from_slice(b"bob-serverpayload");
    let action = router.handle_datagram(bob, short.clone(), 3).unwrap();
    assert!(is_forward(action, b, &short));

    // Nobody else may use it.
    assert_eq!(
        drop_reason(router.handle_datagram(alice, short, 4).unwrap()),
        DropReason::UnexpectedPeer { conn_id: b }
    );
    assert_eq!(router.connection(a).unwrap().last_seen, 0);
    assert_eq!(router.connection(b).unwrap().last_seen, 3);
}

#[test]
fn longest_known_connection_id_wins() {
    let mut router = Router::new(foo_config(None), 60_000);
    let peer = v4(1, 1);
    let short = establish(&mut router, peer, b"abcd", b"", 0);
    let long = establish(&mut router, peer, b"abcdef", b"", 0);
    assert_eq!(router.match_short_header_route(b"\x40abcdefgh"), Some(long));
    assert_eq!(router.match_short_header_route(b"\x40abcdeXgh"), Some(short));
    assert_eq!(router.match_short_header_route(b"\x40abc"), None);
    assert_eq!(router.match_short_header_route(b"\xc0abcdefgh"), None);
    assert_eq!(router.match_short_header_route(b""), None);
    let (header, found) = router.packet_connection_id(b"\x40abcdef").unwrap();
    assert!(header.is_none());
    assert_eq!(found, Some(long));
    assert_eq!(
        router.packet_connection_id(&[0xc0]).err(),
        Some(QuicError::TruncatedLongHeader)
    );
}

#[test]
fn hello_in_two_datagrams() {
    let mut router = Router::new(foo_config(Some(3)), 60_000);
    let peer = v6(9, 9);
    let hello = minimal_clienthello_sni("foo");
    let second = protected_initial_packet(b"12345678", b"cc", &crypto_frame(20, &hello[20..]));
    let first = protected_initial_packet(b"12345678", b"cc", &crypto_frame(0, &hello[..20]));
    assert!(matches!(
        router.handle_datagram(peer, second.clone(), 10),
        Ok(ClientAction::Wait)
    ));
    let new = connect(router.handle_datagram(peer, first.clone(), 20).unwrap());
    assert_eq!(new.conn_id, 0);
    assert_eq!(new.datagrams, vec![second.clone(), first.clone()]);
    assert_eq!(new.connection.client_addr, peer);
    assert_eq!(new.connection.sni, Some("foo".to_string()));
    assert_eq!(new.connection.created, 20);
    assert_eq!(new.connection.deadline, Some(20 + 3_000_000));
    assert_eq!(router.next_id(), 1);
    assert_eq!(router.cid_route(&b"cc".to_vec()), None);
    assert_eq!(router.establish_and_flush(new), vec![second, first]);
    assert_eq!(router.cid_route(&b"cc".to_vec()), Some(0));
    assert_eq!(router.cid_route(&b"12345678".to_vec()), Some(0));
    assert_eq!(router.client_route(peer), Some(0));
}

#[test]
fn unrouted_datagrams_are_dropped() {
    let mut router = Router::new(null_config(), 60_000);
    let peer = v4(1, 1);
    assert_eq!(
        drop_reason(router.handle_datagram(peer, vec![0x40, 1], 0).unwrap()),
        DropReason::UnknownShortHeader
    );
    assert_eq!(
        drop_reason(router.handle_datagram(peer, vec![0xc0], 0).unwrap()),
        DropReason::BadHeader(QuicError::TruncatedLongHeader)
    );
    assert_eq!(
        drop_reason(
            router
                .handle_datagram(peer, long_packet(0xe0, b"x", b""), 0)
                .unwrap()
        ),
        DropReason::NotInitial {
            version: 1,
            packet_type: 2,
        }
    );
    let mut bad = initial_for("foo", b"12345678", b"");
    let last = bad.len() - 1;
    bad[last] ^= 1;
    assert_eq!(
        drop_reason(router.handle_datagram(peer, bad, 0).unwrap()),
        DropReason::Undecryptable(QuicError::DecryptFailed)
    );
    let odd = protected_initial_packet(b"12345678", b"", &[0x08, 0, 0, 0]);
    assert_eq!(
        drop_reason(router.handle_datagram(peer, odd, 0).unwrap()),
        DropReason::BadFrames(QuicError::UnexpectedFrame(8))
    );
    let fine = initial_for("foo", b"12345678", b"");
    assert_eq!(
        drop_reason(router.handle_datagram(peer, fine, 0).unwrap()),
        DropReason::NullBackend
    );
    assert!(matches!(
        router.handle_backend_datagram(3, vec![0x40], 0),
        BackendAction::Drop(DropReason::NoConnection { conn_id: 3 })
    ));
    assert!(matches!(
        router.handle_backend_datagram(3, vec![0x80], 0),
        BackendAction::Drop(DropReason::BadHeader(QuicError::TruncatedLongHeader))
    ));
    assert_eq!(router.next_id(), 0);
}

#[test]
fn handling_errors() {
    let mut router = Router::new(foo_config(None), 60_000);
    let peer = v4(1, 1);
    let odd = protected_initial_packet(b"12345678", b"", &crypto_frame(0, &[2, 0, 0, 0]));
    assert_eq!(
        router.handle_datagram(peer, odd, 0).err(),
        Some(HandleError::Hello(QuicError::NotClientHello(2)))
    );
    let mut unsure = foo_config(None);
    unsure.rules[0].acl.default_action = AclAction::Unspecified;
    router.set_config(unsure);
    assert_eq!(
        router
            .handle_datagram(peer, initial_for("foo", b"87654321", b""), 0)
            .err(),
        Some(HandleError::Route(RouteError::UnspecifiedAction))
    );
    let ping = protected_initial_packet(b"pingping", b"", &[0x01, 0, 0, 0]);
    for _ in 0..MAX_PENDING_DATAGRAMS {
        assert!(matches!(
            router.handle_datagram(peer, ping.clone(), 0),
            Ok(ClientAction::Wait)
        ));
    }
    assert_eq!(
        router.handle_datagram(peer, ping, 0).err(),
        Some(HandleError::Pending(PendingError::TooManyDatagrams))
    );
}

#[test]
fn datagrams_of_unknown_connections_are_dropped() {
    let mut router = Router::new(foo_config(None), 60_000);
    let peer = v4(1, 1);
    let known = establish(&mut router, peer, b"12345678", b"c", 0);
    let unknown = known + 1;
    let other = v4(2, 2);
    let packet = vec![0x40, 1, 2, 3];
    let action =
        router.forward_established_client_datagram(unknown, other, packet.clone(), None, 1);
    assert_eq!(
        drop_reason(action),
        DropReason::NoConnection { conn_id: unknown }
    );
    assert_eq!(router.client_route(other), None);
    let action = router.forward_established_client_datagram(known, other, packet.clone(), None, 1);
    assert!(is_forward(action, known, &packet));
    assert_eq!(router.client_route(other), Some(known));
    assert_eq!(router.client_route(peer), None);
    assert!(matches!(
        router.forward_established_backend_datagram(unknown, packet, None, 1),
        BackendAction::Drop(DropReason::NoConnection { conn_id }) if conn_id == unknown
    ));
}

#[test]
fn cleanup_forgets_all_that_is_over() {
    let mut router = Router::new(foo_config(None), 1_000);
    let mut over = Vec::new();
    for i in 0..20u8 {
        let start = u64::from(i % 3) * SECOND;
        let dcid = [b"dcid-for-", [i].as_slice()].concat();
        let id = establish(&mut router, v4(u32::from(i), 1), &dcid, &[i], start);
        if i % 3 < 2 {
            over.push(id);
        }
    }
    let mut gone = router.cleanup(2 * SECOND);
    gone.sort_unstable();
    assert_eq!(gone, over);
    for i in 0..20u8 {
        let route = router.cid_route(&vec![i]);
        assert_eq!(route.is_some(), i % 3 == 2);
        assert_eq!(
            route.is_some_and(|id| router.connection(id).is_some()),
            i % 3 == 2
        );
    }
}

#[test]
fn cleanup_forgets_idle_connections() {
    let mut router = Router::new(foo_config(None), 10_000);
    let alice = v4(1, 1);
    let bob = v4(2, 2);
    let a = establish(&mut router, alice, b"alice-dcid", b"a", 0);
    let b = establish(&mut router, bob, b"bob-dcid", b"b", 5 * SECOND);
    assert_eq!(router.cleanup(10 * SECOND - 1), Vec::<usize>::new());
    assert_eq!(router.cleanup(10 * SECOND), vec![a]);
    assert!(router.connection(a).is_none());
    assert_eq!(router.cid_route(&b"a".to_vec()), None);
    assert_eq!(router.cid_route(&b"alice-dcid".to_vec()), None);
    assert_eq!(router.client_route(alice), None);
    assert_eq!(router.cid_route(&b"b".to_vec()), Some(b));
    assert_eq!(router.client_route(bob), Some(b));
    assert_eq!(router.cleanup(10 * SECOND), Vec::<usize>::new());
    assert_eq!(
        drop_reason(
            router
                .handle_datagram(alice, b"\x40alice-dcid".to_vec(), 10 * SECOND)
                .unwrap()
        ),
        DropReason::UnknownShortHeader
    );
}

#[test]
fn cleanup_ends_connections_at_their_deadline() {
    let mut router = Router::new(foo_config(Some(2_000)), 1_000_000);
    let id = establish(&mut router, v4(1, 1), b"12345678", b"", SECOND);
    assert_eq!(router.cleanup(3 * SECOND - 1), Vec::<usize>::new());
    assert_eq!(router.cleanup(3 * SECOND), vec![id]);
}

#[test]
fn cleanup_drops_stale_pending_connections() {
    let mut router = Router::new(foo_config(None), 60_000);
    let peer = v4(1, 1);
    let hello = minimal_clienthello_sni("foo");
    let first = protected_initial_packet(b"12345678", b"", &crypto_frame(0, &hello[..20]));
    let second = protected_initial_packet(b"12345678", b"", &crypto_frame(20, &hello[20..]));
    assert!(matches!(
        router.handle_datagram(peer, first.clone(), 0),
        Ok(ClientAction::Wait)
    ));
    // The handshake timeout is shorter than the idle timeout.
    assert!(router.cleanup(5 * SECOND - 1).is_empty());
    let new = connect(router.handle_datagram(peer, second.clone(), 5 * SECOND - 1).unwrap());
    assert_eq!(new.datagrams.len(), 2);

    let mut router = Router::new(foo_config(None), 60_000);
    assert!(matches!(
        router.handle_datagram(peer, first, 0),
        Ok(ClientAction::Wait)
    ));
    assert!(router.cleanup(5 * SECOND).is_empty());
    assert!(matches!(
        router.handle_datagram(peer, second, 5 * SECOND),
        Ok(ClientAction::Wait)
    ));
}

#[test]
fn pending_datagrams_are_limited() {
    let mut pending = PendingConnection::new(v4(1, 1), b"dcid".to_vec(), 0);
    assert_eq!(
        pending.push_datagram(vec![0; MAX_PENDING_BYTES + 1]),
        Err(PendingError::TooManyBytes)
    );
    assert_eq!(pending.push_datagram(vec![0; MAX_PENDING_BYTES]), Ok(()));
    assert_eq!(
        pending.push_datagram(vec![0]),
        Err(PendingError::TooManyBytes)
    );
    assert_eq!(pending.push_datagram(Vec::new()), Ok(()));
    assert_eq!(pending.datagrams.len(), 2);
    assert_eq!(pending.buffered_bytes, MAX_PENDING_BYTES);
}

#[test]
fn shorter_timeout_wins() {
    assert_eq!(min_timeout(None, None), None);
    assert_eq!(min_timeout(Some(3), None), Some(3));
    assert_eq!(min_timeout(None, Some(4)), Some(4));
    assert_eq!(min_timeout(Some(3), Some(4)), Some(3));
    assert_eq!(min_timeout(Some(5), Some(4)), Some(4));
}

#[test]
fn names_are_routed_by_rule() {
    let lan = Acl {
        rules: vec![AclRule {
            addr: 0xffff_c0a8_0000,
            prefix_len: 112,
            action: AclAction::Accept,
        }],
        default_action: AclAction::Drop,
    };
    let pass_on = Acl {
        rules: Vec::new(),
        default_action: AclAction::Continue,
    };
    let config = Config {
        max_lifetime: Some(50),
        handshake_timeout: None,
        rules: vec![
            rule("a.*", Backend::Udp { addr: v4(9, 9) }, pass_on, None),
            rule("admin", Backend::Udp { addr: v4(1, 1) }, lan, Some(70)),
            rule("alt", Backend::Udp { addr: v4(2, 2) }, accept_all(), Some(10)),
        ],
        default: rule("", Backend::Udp { addr: v4(3, 3) }, accept_all(), None),
    };
    let inside = v4(0xc0a8_0101, 5);
    let outside = v6(7, 5);
    let route = route_for_sni(&config, inside, Some("admin".to_string())).unwrap();
    assert_eq!(route.backend, Backend::Udp { addr: v4(1, 1) });
    assert_eq!(route.timeout, Some(50));
    let route = route_for_sni(&config, outside, Some("admin".to_string())).unwrap();
    assert_eq!(route.backend, Backend::Null);
    assert_eq!(route.sni, Some("admin".to_string()));
    let route = route_for_sni(&config, outside, Some("alt".to_string())).unwrap();
    assert_eq!(route.backend, Backend::Udp { addr: v4(2, 2) });
    assert_eq!(route.timeout, Some(10));
    for name in [None, Some("abc".to_string()), Some("admin2".to_string())] {
        let route = route_for_sni(&config, outside, name.clone()).unwrap();
        assert_eq!(route.backend, Backend::Udp { addr: v4(3, 3) });
        assert_eq!(route.sni, name);
    }
}

#[test]
fn addresses_are_normalized() {
    let plain = v4(0x0102_0304, 80);
    let mapped = v6(0xffff_0102_0304, 80);
    assert_eq!(normalize_socket_addr(mapped), plain);
    assert_eq!(normalize_socket_addr(plain), plain);
    assert_eq!(normalize_socket_addr(v6(1, 80)), v6(1, 80));
    assert_eq!(
        normalize_socket_addr(v6(0x1_0000_ffff_0102_0304, 80)),
        v6(0x1_0000_ffff_0102_0304, 80)
    );
    assert!(socket_addrs_equal(plain, mapped));
    assert!(!socket_addrs_equal(plain, v4(0x0102_0304, 81)));
    assert_eq!(peer_ip_v6(plain), 0xffff_0102_0304);
    assert_eq!(peer_ip_v6(v6(5, 1)), 5);
}

#[test]
fn addresses_to_send_to() {
    let plain = v4(0x0102_0304, 80);
    let mapped = v6(0xffff_0102_0304, 80);
    assert_eq!(send_addr_for_socket(v6(0, 1), plain), Ok(mapped));
    assert_eq!(send_addr_for_socket(v6(0, 1), v6(3, 3)), Ok(v6(3, 3)));
    assert_eq!(send_addr_for_socket(v4(0, 1), plain), Ok(plain));
    assert_eq!(send_addr_for_socket(v4(0, 1), mapped), Ok(mapped));
    assert_eq!(
        send_addr_for_socket(v4(0, 1), v6(3, 3)),
        Err(AddrError::NotReachableFromV4)
    );
    assert_eq!(backend_bind_addr(plain), v4(0, 0));
    assert_eq!(backend_bind_addr(mapped), v6(0, 0));
    assert_eq!(udp_mode(plain, true), UdpMode::V4);
    assert_eq!(udp_mode(mapped, true), UdpMode::V6 { only_v6: false });
    assert_eq!(udp_mode(mapped, false), UdpMode::V6 { only_v6: true });
}
