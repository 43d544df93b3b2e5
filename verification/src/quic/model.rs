//! What the QUIC router knows, and how each datagram changes it.

use vstd::prelude::*;

use crate::addr;
use crate::addr::SocketAddr;
use crate::client_hello;
use crate::quic::config::{Backend, ConfigView};
use crate::quic::error::QuicError;
use crate::quic::frames;
use crate::quic::frames::CryptoPiece;
use crate::quic::initial;
use crate::quic::initial::OpenedInitial;
use crate::quic::packet;
use crate::quic::packet::{LongHeader, QUIC_PACKET_TYPE_INITIAL, QUIC_VERSION_1};
use crate::quic::pending;
use crate::quic::pending::{PendingError, PendingView};
use crate::quic::reassembly;
use crate::quic::route;
use crate::quic::route::RouteError;

verus! {

/// A connection that has a backend. Times are in nanoseconds.
#[verifier::ext_equal]
pub struct ConnectionView {
    pub client_addr: SocketAddr,
    /// The connection IDs that were seen to belong to it.
    pub cids: Set<Seq<u8>>,
    pub created: u64,
    pub last_seen: u64,
    /// When it ends at the latest.
    pub deadline: Option<u128>,
    pub sni: Option<Seq<char>>,
}

/// What the router knows.
#[verifier::ext_equal]
pub struct RouterView {
    pub config: ConfigView,
    /// In milliseconds.
    pub idle_timeout: u64,
    pub next_connection_id: usize,
    pub connections: Map<usize, ConnectionView>,
    /// Which connection a connection ID belongs to.
    pub cid_routes: Map<Seq<u8>, usize>,
    /// Which connection a client's address belongs to.
    pub client_routes: Map<SocketAddr, usize>,
    /// Connections that have no backend yet, by the client's address and the
    /// connection ID that it first picked.
    pub pending: Map<(SocketAddr, Seq<u8>), PendingView>,
}

/// Why a datagram is dropped.
#[derive(Clone, Copy, Debug, PartialEq, Eq, Structural)]
pub enum DropReason {
    /// Its header cannot be read.
    BadHeader(QuicError),
    /// It has a short header with no known connection ID.
    UnknownShortHeader,
    /// It starts no connection that can be routed.
    NotInitial { version: u32, packet_type: u8 },
    /// It cannot be decrypted.
    Undecryptable(QuicError),
    /// Its frames cannot be read.
    BadFrames(QuicError),
    /// It is for a connection of another client.
    UnexpectedPeer { conn_id: usize },
    /// It is for a connection that is gone.
    NoConnection { conn_id: usize },
    /// Its connection has no backend.
    NullBackend,
}

/// Why a datagram could not be handled.
#[derive(Clone, Copy, Debug, PartialEq, Eq, Structural)]
pub enum HandleError {
    /// No more can be kept of its connection.
    Pending(PendingError),
    /// Its connection does not start with a ClientHello.
    Hello(QuicError),
    /// No rule says where its connection goes.
    Route(RouteError),
}

/// A connection that is to get a backend.
#[verifier::ext_equal]
pub struct NewView {
    pub conn_id: usize,
    pub backend: SocketAddr,
    pub connection: ConnectionView,
    /// What the backend is to be sent.
    pub datagrams: Seq<Seq<u8>>,
}

/// What to do with a client's datagram.
pub enum ActionView {
    Drop(DropReason),
    /// Keep it until more has come.
    Wait,
    /// Send it to the backend of a connection.
    Forward { conn_id: usize, packet: Seq<u8> },
    /// Connect to a backend, and send it what was kept.
    Connect(NewView),
}

/// What to do with a backend's datagram.
pub enum ReplyView {
    Drop(DropReason),
    /// Send it to a client.
    Send { client_addr: SocketAddr, packet: Seq<u8> },
}

impl RouterView {
    /// Whether every route leads to a connection that it belongs to.
    pub open spec fn wf(self) -> bool {
        &&& forall|cid: Seq<u8>| #[trigger]
            self.cid_routes.contains_key(cid) ==> self.cid_route_wf(cid)
        &&& forall|a: SocketAddr| #[trigger]
            self.client_routes.contains_key(a) ==> self.client_route_wf(a)
        &&& forall|id: usize| #[trigger]
            self.connections.contains_key(id) ==> self.connection_wf(id)
        &&& forall|k: (SocketAddr, Seq<u8>)| #[trigger]
            self.pending.contains_key(k) ==> self.pending_wf(k)
    }

    /// Whether a connection ID leads to a connection that it was seen to belong
    /// to.
    pub open spec fn cid_route_wf(self, cid: Seq<u8>) -> bool {
        let id = self.cid_routes[cid];
        self.connections.contains_key(id) && self.connections[id].cids.contains(cid)
    }

    /// Whether a client's address leads to a connection of that client.
    pub open spec fn client_route_wf(self, a: SocketAddr) -> bool {
        let id = self.client_routes[a];
        self.connections.contains_key(id) && addr::normal(self.connections[id].client_addr) == a
    }

    /// Whether a connection's number was given out and its connection IDs are
    /// not empty.
    pub open spec fn connection_wf(self, id: usize) -> bool {
        &&& id < self.next_connection_id
        &&& !self.connections[id].cids.contains(Seq::<u8>::empty())
    }

    /// Whether a pending connection stands where it belongs and keeps no more
    /// than it may.
    pub open spec fn pending_wf(self, k: (SocketAddr, Seq<u8>)) -> bool {
        let p = self.pending[k];
        &&& p.wf()
        &&& p.client_addr == k.0
        &&& p.initial_dcid == k.1
        &&& !p.client_cids.contains(Seq::<u8>::empty())
    }
}

/// The value for a key, if there is one.
pub open spec fn lookup<K, T>(m: Map<K, T>, k: K) -> Option<T> {
    if m.contains_key(k) {
        Some(m[k])
    } else {
        None
    }
}

/// The connection that the longest known connection ID of up to `n` bytes at
/// the start of `text` belongs to.
pub open spec fn longest_route(routes: Map<Seq<u8>, usize>, text: Seq<u8>, n: nat) -> Option<usize>
    decreases n,
{
    if n == 0 {
        None
    } else if routes.contains_key(text.take(n as int)) {
        Some(routes[text.take(n as int)])
    } else {
        longest_route(routes, text, (n - 1) as nat)
    }
}

/// The connection that a packet with a short header belongs to. Such a packet
/// does not say how long its connection ID is.
pub open spec fn short_header_route(routes: Map<Seq<u8>, usize>, packet: Seq<u8>) -> Option<usize> {
    if packet.len() == 0 || packet[0] >= 0x80 {
        None
    } else {
        longest_route(routes, packet.skip(1), (packet.len() - 1) as nat)
    }
}

/// The connection that a packet belongs to by its connection ID.
pub open spec fn route_by_cid(
    routes: Map<Seq<u8>, usize>,
    packet: Seq<u8>,
    long: Option<LongHeader>,
) -> Option<usize> {
    match long {
        Some(header) => lookup(routes, header.dcid),
        None => short_header_route(routes, packet),
    }
}

/// Whether a packet has no connection ID that could be known: it has a short
/// header, or a long one with an empty connection ID.
pub open spec fn may_lack_cid(long: Option<LongHeader>) -> bool {
    match long {
        Some(header) => header.dcid.len() == 0,
        None => true,
    }
}

/// The connection that a client's packet belongs to: by its connection ID, or
/// else, where it may have none, by the client's address.
pub open spec fn connection_of(
    v: RouterView,
    peer: SocketAddr,
    packet: Seq<u8>,
    long: Option<LongHeader>,
) -> Option<usize> {
    match route_by_cid(v.cid_routes, packet, long) {
        Some(id) => Some(id),
        None => if may_lack_cid(long) {
            lookup(v.client_routes, addr::normal(peer))
        } else {
            None
        },
    }
}

/// The connection ID that the sender of a packet picked for itself; empty where
/// the packet does not say.
pub open spec fn sender_cid(long: Option<LongHeader>) -> Seq<u8> {
    match long {
        Some(header) => header.scid,
        None => Seq::empty(),
    }
}

/// The router having learned a connection ID of a connection. An empty one, or
/// one that the connection is known to have, changes nothing.
pub open spec fn with_cid(v: RouterView, id: usize, cid: Seq<u8>) -> RouterView {
    if cid.len() == 0 || !v.connections.contains_key(id) || v.connections[id].cids.contains(cid) {
        v
    } else {
        let c = v.connections[id];
        RouterView {
            connections: v.connections.insert(
                id,
                ConnectionView { cids: c.cids.insert(cid), ..c },
            ),
            cid_routes: v.cid_routes.insert(cid, id),
            ..v
        }
    }
}

/// The router having seen a datagram of the connection `id` from its client at
/// `peer`, and learned the client's connection ID.
pub open spec fn client_seen(
    v: RouterView,
    id: usize,
    peer: SocketAddr,
    now: u64,
    cid: Seq<u8>,
) -> RouterView {
    let c = v.connections[id];
    let before = addr::normal(c.client_addr);
    let after = addr::normal(peer);
    let routes = if before != after {
        v.client_routes.remove(before)
    } else {
        v.client_routes
    };
    with_cid(
        RouterView {
            connections: v.connections.insert(
                id,
                ConnectionView { client_addr: peer, last_seen: now, ..c },
            ),
            client_routes: routes.insert(after, id),
            ..v
        },
        id,
        cid,
    )
}

/// The router having seen a datagram of the connection `id` from its backend,
/// and learned the backend's connection ID.
pub open spec fn backend_seen(v: RouterView, id: usize, now: u64, cid: Seq<u8>) -> RouterView {
    let c = v.connections[id];
    with_cid(
        RouterView {
            connections: v.connections.insert(id, ConnectionView { last_seen: now, ..c }),
            ..v
        },
        id,
        cid,
    )
}

/// The pieces of a handshake stream with more of them, in order.
pub open spec fn with_pieces(crypto: Map<u64, Seq<u8>>, pieces: Seq<CryptoPiece>) -> Map<
    u64,
    Seq<u8>,
>
    decreases pieces.len(),
{
    if pieces.len() == 0 {
        crypto
    } else {
        reassembly::with_piece(
            with_pieces(crypto, pieces.drop_last()),
            pieces.last().offset as u64,
            pieces.last().data,
        )
    }
}

/// What is known of a connection once an Initial packet with the client's
/// connection ID `scid` was seen.
pub open spec fn pending_seen(
    v: RouterView,
    peer: SocketAddr,
    dcid: Seq<u8>,
    scid: Seq<u8>,
    now: u64,
) -> PendingView {
    let p = match lookup(v.pending, (peer, dcid)) {
        Some(p) => p,
        None => pending::fresh(peer, dcid, now),
    };
    PendingView {
        client_cids: if scid.len() > 0 {
            p.client_cids.insert(scid)
        } else {
            p.client_cids
        },
        last_seen: now,
        ..p
    }
}

/// The router with a pending connection as `p`.
pub open spec fn with_pending(
    v: RouterView,
    peer: SocketAddr,
    dcid: Seq<u8>,
    p: PendingView,
) -> RouterView {
    RouterView { pending: v.pending.insert((peer, dcid), p), ..v }
}

/// When a connection that starts at `now` ends at the latest, with a limit in
/// milliseconds.
pub open spec fn deadline_of(now: u64, timeout: Option<u64>) -> Option<u128> {
    match timeout {
        None => None,
        Some(ms) => Some((now + ms * 1_000_000) as u128),
    }
}

/// The connection IDs of a connection that gets a backend.
pub open spec fn first_cids(p: PendingView) -> Set<Seq<u8>> {
    if p.initial_dcid.len() > 0 {
        p.client_cids.insert(p.initial_dcid)
    } else {
        p.client_cids
    }
}

/// A pending connection that gets the backend at `backend`.
pub open spec fn new_connection(
    conn_id: usize,
    p: PendingView,
    backend: SocketAddr,
    timeout: Option<u64>,
    sni: Option<Seq<char>>,
    now: u64,
) -> NewView {
    NewView {
        conn_id,
        backend,
        connection: ConnectionView {
            client_addr: p.client_addr,
            cids: first_cids(p),
            created: now,
            last_seen: now,
            deadline: deadline_of(now, timeout),
            sni,
        },
        datagrams: p.datagrams,
    }
}

/// The server name in a ClientHello; none where it cannot be read.
pub open spec fn name_or_none(hello: Seq<u8>) -> Option<Seq<char>> {
    match client_hello::server_name(hello) {
        Ok(name) => name,
        Err(_) => None,
    }
}

/// What happens to a pending connection whose ClientHello is complete.
pub open spec fn on_hello(
    v: RouterView,
    peer: SocketAddr,
    dcid: Seq<u8>,
    p: PendingView,
    hello: Seq<u8>,
    now: u64,
) -> (RouterView, Result<ActionView, HandleError>) {
    let sni = name_or_none(hello);
    match route::route_of(v.config, peer, sni) {
        Err(e) => (with_pending(v, peer, dcid, p), Err(HandleError::Route(e))),
        Ok(r) => {
            let routed = RouterView { pending: v.pending.remove((peer, dcid)), ..v };
            match r.backend {
                Backend::Null => (routed, Ok(ActionView::Drop(DropReason::NullBackend))),
                Backend::Udp { addr } => (
                    RouterView {
                        next_connection_id: (v.next_connection_id + 1) as usize,
                        ..routed
                    },
                    Ok(
                        ActionView::Connect(
                            new_connection(v.next_connection_id, p, addr, r.timeout, r.sni, now),
                        ),
                    ),
                ),
            }
        },
    }
}

/// What happens to an opened Initial packet that belongs to no connection yet:
/// it is kept until the ClientHello is complete.
pub open spec fn on_initial(
    v: RouterView,
    peer: SocketAddr,
    packet: Seq<u8>,
    opened: OpenedInitial,
    pieces: Seq<CryptoPiece>,
    now: u64,
) -> (RouterView, Result<ActionView, HandleError>) {
    let dcid = opened.dcid;
    let seen = pending_seen(v, peer, dcid, opened.scid, now);
    match pending::pushed(seen, packet) {
        Err(e) => (with_pending(v, peer, dcid, seen), Err(HandleError::Pending(e))),
        Ok(kept) => {
            let p = PendingView { crypto: with_pieces(kept.crypto, pieces), ..kept };
            match reassembly::leading_hello(reassembly::contiguous_bytes(p.crypto)) {
                Err(e) => (with_pending(v, peer, dcid, p), Err(HandleError::Hello(e))),
                Ok(None) => (with_pending(v, peer, dcid, p), Ok(ActionView::Wait)),
                Ok(Some(hello)) => on_hello(v, peer, dcid, p, hello, now),
            }
        },
    }
}

/// What happens to a client's packet that belongs to no connection.
pub open spec fn on_unrouted(
    v: RouterView,
    peer: SocketAddr,
    packet: Seq<u8>,
    long: Option<LongHeader>,
    now: u64,
) -> (RouterView, Result<ActionView, HandleError>) {
    match long {
        None => (v, Ok(ActionView::Drop(DropReason::UnknownShortHeader))),
        Some(header) => if header.version != QUIC_VERSION_1 || header.packet_type
            != QUIC_PACKET_TYPE_INITIAL {
            (
                v,
                Ok(
                    ActionView::Drop(
                        DropReason::NotInitial {
                            version: header.version,
                            packet_type: header.packet_type,
                        },
                    ),
                ),
            )
        } else {
            match initial::decrypted(packet) {
                Err(e) => (v, Ok(ActionView::Drop(DropReason::Undecryptable(e)))),
                Ok(opened) => match frames::crypto_frames(opened.payload, 0) {
                    Err(e) => (v, Ok(ActionView::Drop(DropReason::BadFrames(e)))),
                    Ok(pieces) => on_initial(v, peer, packet, opened, pieces, now),
                },
            }
        },
    }
}

/// What happens to a client's packet.
pub open spec fn on_client(v: RouterView, peer: SocketAddr, packet: Seq<u8>, now: u64) -> (
    RouterView,
    Result<ActionView, HandleError>,
) {
    match packet::long_header(packet) {
        Err(e) => (v, Ok(ActionView::Drop(DropReason::BadHeader(e)))),
        Ok(long) => match connection_of(v, peer, packet, long) {
            None => on_unrouted(v, peer, packet, long, now),
            Some(conn_id) => if !v.connections.contains_key(conn_id) {
                (v, Ok(ActionView::Drop(DropReason::NoConnection { conn_id })))
            } else if addr::normal(peer) != addr::normal(v.connections[conn_id].client_addr) {
                (v, Ok(ActionView::Drop(DropReason::UnexpectedPeer { conn_id })))
            } else {
                (
                    client_seen(v, conn_id, peer, now, sender_cid(long)),
                    Ok(ActionView::Forward { conn_id, packet }),
                )
            },
        },
    }
}

/// What happens to a packet from the backend of the connection `conn_id`.
pub open spec fn on_backend(v: RouterView, conn_id: usize, packet: Seq<u8>, now: u64) -> (
    RouterView,
    ReplyView,
) {
    match packet::long_header(packet) {
        Err(e) => (v, ReplyView::Drop(DropReason::BadHeader(e))),
        Ok(long) => if !v.connections.contains_key(conn_id) {
            (v, ReplyView::Drop(DropReason::NoConnection { conn_id }))
        } else {
            (
                backend_seen(v, conn_id, now, sender_cid(long)),
                ReplyView::Send { client_addr: v.connections[conn_id].client_addr, packet },
            )
        },
    }
}

/// Routes that all lead from `cids` to `id`.
pub open spec fn routes_to(cids: Set<Seq<u8>>, id: usize) -> Map<Seq<u8>, usize> {
    Map::new(|cid: Seq<u8>| cids.contains(cid), |cid: Seq<u8>| id)
}

/// The router once a new connection has its backend.
pub open spec fn established(v: RouterView, new: NewView) -> RouterView {
    RouterView {
        connections: v.connections.insert(new.conn_id, new.connection),
        cid_routes: v.cid_routes.union_prefer_right(
            routes_to(new.connection.cids, new.conn_id),
        ),
        client_routes: v.client_routes.insert(
            addr::normal(new.connection.client_addr),
            new.conn_id,
        ),
        ..v
    }
}

/// The time from `then` to `now`; none where `then` is later.
pub open spec fn elapsed(now: u64, then: u64) -> int {
    if now >= then {
        now - then
    } else {
        0
    }
}

/// Whether a connection has been idle for too long or has reached its end.
pub open spec fn is_expired(c: ConnectionView, idle_timeout: u64, now: u64) -> bool {
    elapsed(now, c.last_seen) >= idle_timeout * 1_000_000 || (c.deadline matches Some(deadline)
        && now >= deadline)
}

/// The connections that have been idle for too long or have reached their end.
pub open spec fn expired_ids(v: RouterView, now: u64) -> Set<usize> {
    Set::new(
        |id: usize|
            v.connections.contains_key(id) && is_expired(v.connections[id], v.idle_timeout, now),
    )
}

/// Whether a connection ID belongs to one of the connections `ids`.
pub open spec fn cid_of_any(v: RouterView, ids: Set<usize>, cid: Seq<u8>) -> bool {
    exists|id: usize| #[trigger]
        ids.contains(id) && v.connections.contains_key(id) && v.connections[id].cids.contains(cid)
}

/// Whether an address is that of the client of one of the connections `ids`.
pub open spec fn client_of_any(v: RouterView, ids: Set<usize>, a: SocketAddr) -> bool {
    exists|id: usize| #[trigger]
        ids.contains(id) && v.connections.contains_key(id) && addr::normal(
            v.connections[id].client_addr,
        ) == a
}

/// The router without the connections `ids` and without the routes by their
/// connection IDs and their clients' addresses.
pub open spec fn forgotten(v: RouterView, ids: Set<usize>) -> RouterView {
    RouterView {
        connections: v.connections.remove_keys(ids),
        cid_routes: v.cid_routes.remove_keys(
            Set::new(|cid: Seq<u8>| cid_of_any(v, ids, cid)),
        ),
        client_routes: v.client_routes.remove_keys(
            Set::new(|a: SocketAddr| client_of_any(v, ids, a)),
        ),
        ..v
    }
}

/// How long, in milliseconds, a connection may be pending.
pub open spec fn pending_limit(v: RouterView) -> u64 {
    match v.config.handshake_timeout {
        Some(ms) => if ms <= v.idle_timeout {
            ms
        } else {
            v.idle_timeout
        },
        None => v.idle_timeout,
    }
}

/// Whether a pending connection is still waited for.
pub open spec fn is_waited_for(p: PendingView, limit: u64, now: u64) -> bool {
    elapsed(now, p.last_seen) < limit * 1_000_000 && elapsed(now, p.created) < limit * 1_000_000
}

/// The pending connections that are still waited for.
pub open spec fn waited_for(
    pending: Map<(SocketAddr, Seq<u8>), PendingView>,
    limit: u64,
    now: u64,
) -> Map<(SocketAddr, Seq<u8>), PendingView> {
    Map::new(
        |k: (SocketAddr, Seq<u8>)| pending.contains_key(k) && is_waited_for(pending[k], limit, now),
        |k: (SocketAddr, Seq<u8>)| pending[k],
    )
}

/// The router without what is over.
pub open spec fn cleaned(v: RouterView, now: u64) -> RouterView {
    RouterView {
        pending: waited_for(v.pending, pending_limit(v), now),
        ..forgotten(v, expired_ids(v, now))
    }
}

/// Learning a connection ID keeps every route right.
pub proof fn lemma_with_cid_wf(v: RouterView, id: usize, cid: Seq<u8>)
    requires
        v.wf(),
    ensures
        with_cid(v, id, cid).wf(),
{
    let w = with_cid(v, id, cid);
    if w != v {
        assert forall|c: Seq<u8>| #[trigger] w.cid_routes.contains_key(c) implies w.cid_route_wf(
            c,
        ) by {
            if c != cid {
                assert(v.cid_routes.contains_key(c));
                assert(v.cid_route_wf(c));
            }
        }
        assert forall|a: SocketAddr| #[trigger]
            w.client_routes.contains_key(a) implies w.client_route_wf(a) by {
            assert(v.client_routes.contains_key(a));
            assert(v.client_route_wf(a));
        }
        assert forall|i: usize| #[trigger] w.connections.contains_key(i) implies w.connection_wf(
            i,
        ) by {
            assert(v.connections.contains_key(i));
            assert(v.connection_wf(i));
        }
        assert forall|k: (SocketAddr, Seq<u8>)| #[trigger]
            w.pending.contains_key(k) implies w.pending_wf(k) by {
            assert(v.pending_wf(k));
        }
    }
}

/// A datagram from a connection's client keeps every route right.
pub proof fn lemma_client_seen_wf(
    v: RouterView,
    id: usize,
    peer: SocketAddr,
    now: u64,
    cid: Seq<u8>,
)
    requires
        v.wf(),
        v.connections.contains_key(id),
    ensures
        client_seen(v, id, peer, now, cid).wf(),
{
    let c = v.connections[id];
    let before = addr::normal(c.client_addr);
    let after = addr::normal(peer);
    let routes = if before != after {
        v.client_routes.remove(before)
    } else {
        v.client_routes
    };
    let w = RouterView {
        connections: v.connections.insert(
            id,
            ConnectionView { client_addr: peer, last_seen: now, ..c },
        ),
        client_routes: routes.insert(after, id),
        ..v
    };
    assert(v.connection_wf(id));
    assert forall|k: Seq<u8>| #[trigger] w.cid_routes.contains_key(k) implies w.cid_route_wf(k) by {
        assert(v.cid_routes.contains_key(k));
        assert(v.cid_route_wf(k));
    }
    assert forall|a: SocketAddr| #[trigger]
        w.client_routes.contains_key(a) implies w.client_route_wf(a) by {
        if a != after {
            assert(v.client_routes.contains_key(a));
            assert(v.client_route_wf(a));
        }
    }
    assert forall|i: usize| #[trigger] w.connections.contains_key(i) implies w.connection_wf(i) by {
        assert(v.connections.contains_key(i));
        assert(v.connection_wf(i));
    }
    assert forall|k: (SocketAddr, Seq<u8>)| #[trigger]
        w.pending.contains_key(k) implies w.pending_wf(k) by {
        assert(v.pending_wf(k));
    }
    lemma_with_cid_wf(w, id, cid);
}

/// A datagram from a connection's backend keeps every route right.
pub proof fn lemma_backend_seen_wf(v: RouterView, id: usize, now: u64, cid: Seq<u8>)
    requires
        v.wf(),
        v.connections.contains_key(id),
    ensures
        backend_seen(v, id, now, cid).wf(),
{
    let c = v.connections[id];
    let w = RouterView {
        connections: v.connections.insert(id, ConnectionView { last_seen: now, ..c }),
        ..v
    };
    assert(v.connection_wf(id));
    assert forall|k: Seq<u8>| #[trigger] w.cid_routes.contains_key(k) implies w.cid_route_wf(k) by {
        assert(v.cid_route_wf(k));
    }
    assert forall|a: SocketAddr| #[trigger]
        w.client_routes.contains_key(a) implies w.client_route_wf(a) by {
        assert(v.client_route_wf(a));
    }
    assert forall|i: usize| #[trigger] w.connections.contains_key(i) implies w.connection_wf(i) by {
        assert(v.connection_wf(i));
    }
    assert forall|k: (SocketAddr, Seq<u8>)| #[trigger]
        w.pending.contains_key(k) implies w.pending_wf(k) by {
        assert(v.pending_wf(k));
    }
    lemma_with_cid_wf(w, id, cid);
}

/// Whether a new connection can be taken up.
pub open spec fn new_wf(v: RouterView, new: NewView) -> bool {
    &&& new.conn_id < v.next_connection_id
    &&& !v.connections.contains_key(new.conn_id)
    &&& !new.connection.cids.contains(Seq::<u8>::empty())
}

/// A router that differs in its pending connections and in numbers not yet
/// given out has its routes right.
proof fn lemma_pending_wf(v: RouterView, w: RouterView)
    requires
        v.wf(),
        w == (RouterView { pending: w.pending, next_connection_id: w.next_connection_id, ..v }),
        w.next_connection_id >= v.next_connection_id,
        forall|k: (SocketAddr, Seq<u8>)| #[trigger] w.pending.contains_key(k) ==> w.pending_wf(k),
    ensures
        w.wf(),
{
    assert forall|k: Seq<u8>| #[trigger] w.cid_routes.contains_key(k) implies w.cid_route_wf(k) by {
        assert(v.cid_route_wf(k));
    }
    assert forall|a: SocketAddr| #[trigger]
        w.client_routes.contains_key(a) implies w.client_route_wf(a) by {
        assert(v.client_route_wf(a));
    }
    assert forall|i: usize| #[trigger] w.connections.contains_key(i) implies w.connection_wf(i) by {
        assert(v.connection_wf(i));
    }
}

proof fn lemma_with_pending_wf(v: RouterView, peer: SocketAddr, dcid: Seq<u8>, p: PendingView)
    requires
        v.wf(),
        p.wf(),
        p.client_addr == peer,
        p.initial_dcid == dcid,
        !p.client_cids.contains(Seq::<u8>::empty()),
    ensures
        with_pending(v, peer, dcid, p).wf(),
{
    let w = with_pending(v, peer, dcid, p);
    assert forall|k: (SocketAddr, Seq<u8>)| #[trigger]
        w.pending.contains_key(k) implies w.pending_wf(k) by {
        if k != (peer, dcid) {
            assert(v.pending.contains_key(k));
            assert(v.pending_wf(k));
        }
    }
    lemma_pending_wf(v, w);
}

/// What is known of a pending connection stays right when it is seen.
pub proof fn lemma_pending_seen_wf(
    v: RouterView,
    peer: SocketAddr,
    dcid: Seq<u8>,
    scid: Seq<u8>,
    now: u64,
)
    requires
        v.wf(),
    ensures
        ({
            let p = pending_seen(v, peer, dcid, scid, now);
            &&& p.wf()
            &&& p.client_addr == peer
            &&& p.initial_dcid == dcid
            &&& !p.client_cids.contains(Seq::<u8>::empty())
        }),
{
    if v.pending.contains_key((peer, dcid)) {
        assert(v.pending_wf((peer, dcid)));
    }
}

/// An Initial packet keeps every route right, and a connection that is to get a
/// backend can be taken up.
pub proof fn lemma_initial_wf(
    v: RouterView,
    peer: SocketAddr,
    packet: Seq<u8>,
    opened: OpenedInitial,
    pieces: Seq<CryptoPiece>,
    now: u64,
)
    requires
        v.wf(),
        v.next_connection_id < usize::MAX,
    ensures
        ({
            let (w, r) = on_initial(v, peer, packet, opened, pieces, now);
            w.wf() && (r matches Ok(ActionView::Connect(new)) ==> new_wf(w, new))
        }),
{
    let dcid = opened.dcid;
    let seen = pending_seen(v, peer, dcid, opened.scid, now);
    lemma_pending_seen_wf(v, peer, dcid, opened.scid, now);
    match pending::pushed(seen, packet) {
        Err(e) => lemma_with_pending_wf(v, peer, dcid, seen),
        Ok(kept) => {
            pending::lemma_kept_in_order(seen, packet);
            let p = PendingView { crypto: with_pieces(kept.crypto, pieces), ..kept };
            lemma_with_pending_wf(v, peer, dcid, p);
            if let Ok(Some(hello)) = reassembly::leading_hello(
                reassembly::contiguous_bytes(p.crypto),
            ) {
                let (w, r) = on_hello(v, peer, dcid, p, hello, now);
                if let Ok(_) = route::route_of(v.config, peer, name_or_none(hello)) {
                    assert forall|k: (SocketAddr, Seq<u8>)| #[trigger]
                        w.pending.contains_key(k) implies w.pending_wf(k) by {
                        assert(v.pending.contains_key(k));
                        assert(v.pending_wf(k));
                    }
                    lemma_pending_wf(v, w);
                    if v.connections.contains_key(v.next_connection_id) {
                        assert(v.connection_wf(v.next_connection_id));
                    }
                }
            }
        },
    }
}

/// Taking up a new connection keeps every route right.
pub proof fn lemma_established_wf(v: RouterView, new: NewView)
    requires
        v.wf(),
        new_wf(v, new),
    ensures
        established(v, new).wf(),
{
    let w = established(v, new);
    let cids = new.connection.cids;
    assert forall|k: Seq<u8>| #[trigger] w.cid_routes.contains_key(k) implies w.cid_route_wf(k) by {
        if !cids.contains(k) {
            assert(v.cid_routes.contains_key(k));
            assert(v.cid_route_wf(k));
        }
    }
    assert forall|a: SocketAddr| #[trigger]
        w.client_routes.contains_key(a) implies w.client_route_wf(a) by {
        if a != addr::normal(new.connection.client_addr) {
            assert(v.client_routes.contains_key(a));
            assert(v.client_route_wf(a));
        }
    }
    assert forall|i: usize| #[trigger] w.connections.contains_key(i) implies w.connection_wf(i) by {
        if i != new.conn_id {
            assert(v.connections.contains_key(i));
            assert(v.connection_wf(i));
        }
    }
    assert forall|k: (SocketAddr, Seq<u8>)| #[trigger]
        w.pending.contains_key(k) implies w.pending_wf(k) by {
        assert(v.pending_wf(k));
    }
}

/// Forgetting connections keeps every route right.
pub proof fn lemma_forgotten_wf(v: RouterView, ids: Set<usize>)
    requires
        v.wf(),
    ensures
        forgotten(v, ids).wf(),
{
    let w = forgotten(v, ids);
    assert forall|k: Seq<u8>| #[trigger] w.cid_routes.contains_key(k) implies w.cid_route_wf(k) by {
        assert(v.cid_routes.contains_key(k));
        assert(v.cid_route_wf(k));
        assert(!cid_of_any(v, ids, k));
        assert(!ids.contains(v.cid_routes[k]));
    }
    assert forall|a: SocketAddr| #[trigger]
        w.client_routes.contains_key(a) implies w.client_route_wf(a) by {
        assert(v.client_routes.contains_key(a));
        assert(v.client_route_wf(a));
        assert(!client_of_any(v, ids, a));
        assert(!ids.contains(v.client_routes[a]));
    }
    assert forall|i: usize| #[trigger] w.connections.contains_key(i) implies w.connection_wf(i) by {
        assert(v.connections.contains_key(i));
        assert(v.connection_wf(i));
    }
    assert forall|k: (SocketAddr, Seq<u8>)| #[trigger]
        w.pending.contains_key(k) implies w.pending_wf(k) by {
        assert(v.pending_wf(k));
    }
}

/// Forgetting no connection changes nothing.
pub proof fn lemma_forget_none(v: RouterView)
    ensures
        forgotten(v, Set::<usize>::empty()) == v,
{
    assert(forgotten(v, Set::<usize>::empty()) =~= v);
}

/// Forgetting connections one by one is forgetting them together.
pub proof fn lemma_forget_one_more(v: RouterView, ids: Set<usize>, id: usize)
    requires
        v.connections.contains_key(id),
        !ids.contains(id),
    ensures
        forgotten(v, ids).connections.contains_key(id),
        forgotten(forgotten(v, ids), set![id]) == forgotten(v, ids.insert(id)),
{
    let f = forgotten(v, ids);
    let one = set![id];
    let all = ids.insert(id);
    assert(one.contains(id));
    assert(all.contains(id));
    assert forall|cid: Seq<u8>| cid_of_any(v, all, cid) == (cid_of_any(v, ids, cid) || cid_of_any(
        f,
        one,
        cid,
    )) by {
        if cid_of_any(v, all, cid) {
            let i = choose|i: usize| #[trigger]
                all.contains(i) && v.connections.contains_key(i) && v.connections[i].cids.contains(
                    cid,
                );
            if i != id {
                assert(ids.contains(i));
            }
        }
        if cid_of_any(v, ids, cid) {
            let i = choose|i: usize| #[trigger]
                ids.contains(i) && v.connections.contains_key(i) && v.connections[i].cids.contains(
                    cid,
                );
            assert(all.contains(i));
        }
    }
    assert forall|a: SocketAddr| client_of_any(v, all, a) == (client_of_any(v, ids, a)
        || client_of_any(f, one, a)) by {
        if client_of_any(v, all, a) {
            let i = choose|i: usize| #[trigger]
                all.contains(i) && v.connections.contains_key(i) && addr::normal(
                    v.connections[i].client_addr,
                ) == a;
            if i != id {
                assert(ids.contains(i));
            }
        }
        if client_of_any(v, ids, a) {
            let i = choose|i: usize| #[trigger]
                ids.contains(i) && v.connections.contains_key(i) && addr::normal(
                    v.connections[i].client_addr,
                ) == a;
            assert(all.contains(i));
        }
    }
    assert(forgotten(f, one) =~= forgotten(v, all));
}

/// Cleaning up keeps every route right.
pub proof fn lemma_cleaned_wf(v: RouterView, now: u64)
    requires
        v.wf(),
    ensures
        cleaned(v, now).wf(),
{
    let f = forgotten(v, expired_ids(v, now));
    let w = cleaned(v, now);
    lemma_forgotten_wf(v, expired_ids(v, now));
    assert forall|k: (SocketAddr, Seq<u8>)| #[trigger]
        w.pending.contains_key(k) implies w.pending_wf(k) by {
        assert(f.pending.contains_key(k));
        assert(f.pending_wf(k));
    }
    lemma_pending_wf(f, w);
}

/// Any client datagram keeps every route right, and a connection that is to get
/// a backend can be taken up.
pub proof fn lemma_client_wf(v: RouterView, peer: SocketAddr, packet: Seq<u8>, now: u64)
    requires
        v.wf(),
        v.next_connection_id < usize::MAX,
    ensures
        ({
            let (w, r) = on_client(v, peer, packet, now);
            w.wf() && (r matches Ok(ActionView::Connect(new)) ==> new_wf(w, new))
        }),
{
    if let Ok(long) = packet::long_header(packet) {
        match connection_of(v, peer, packet, long) {
            None => {
                if let Ok(opened) = initial::decrypted(packet) {
                    if let Ok(pieces) = frames::crypto_frames(opened.payload, 0) {
                        lemma_initial_wf(v, peer, packet, opened, pieces, now);
                    }
                }
            },
            Some(id) => {
                if v.connections.contains_key(id) {
                    lemma_client_seen_wf(v, id, peer, now, sender_cid(long));
                }
            },
        }
    }
}

/// Any backend datagram keeps every route right.
pub proof fn lemma_backend_wf(v: RouterView, conn_id: usize, packet: Seq<u8>, now: u64)
    requires
        v.wf(),
    ensures
        on_backend(v, conn_id, packet, now).0.wf(),
{
    if let Ok(long) = packet::long_header(packet) {
        if v.connections.contains_key(conn_id) {
            lemma_backend_seen_wf(v, conn_id, now, sender_cid(long));
        }
    }
}

/// Every piece that comes is kept: at its offset stands the last piece with that
/// offset that is not empty.
pub proof fn lemma_every_piece_is_kept(
    crypto: Map<u64, Seq<u8>>,
    pieces: Seq<CryptoPiece>,
    i: int,
)
    requires
        0 <= i < pieces.len(),
        pieces[i].data.len() > 0,
        forall|j: int|
            i < j < pieces.len() ==> (#[trigger] pieces[j]).data.len() == 0
                || pieces[j].offset as u64 != pieces[i].offset as u64,
    ensures
        with_pieces(crypto, pieces).contains_key(pieces[i].offset as u64),
        with_pieces(crypto, pieces)[pieces[i].offset as u64] == pieces[i].data,
    decreases pieces.len(),
{
    if i < pieces.len() - 1 {
        let before = pieces.drop_last();
        assert forall|j: int| i < j < before.len() implies (#[trigger] before[j]).data.len() == 0
            || before[j].offset as u64 != before[i].offset as u64 by {
            assert(before[j] == pieces[j]);
        }
        lemma_every_piece_is_kept(crypto, before, i);
        assert(pieces[pieces.len() - 1] == pieces.last());
    }
}

/// What was known of the handshake stays known, and nothing else becomes so, at
/// every offset at which nothing comes.
pub proof fn lemma_nothing_else_is_kept(
    crypto: Map<u64, Seq<u8>>,
    pieces: Seq<CryptoPiece>,
    offset: u64,
)
    requires
        forall|j: int|
            0 <= j < pieces.len() ==> (#[trigger] pieces[j]).data.len() == 0
                || pieces[j].offset as u64 != offset,
    ensures
        with_pieces(crypto, pieces).contains_key(offset) == crypto.contains_key(offset),
        crypto.contains_key(offset) ==> with_pieces(crypto, pieces)[offset] == crypto[offset],
    decreases pieces.len(),
{
    if pieces.len() > 0 {
        let before = pieces.drop_last();
        assert forall|j: int| 0 <= j < before.len() implies (#[trigger] before[j]).data.len() == 0
            || before[j].offset as u64 != offset by {
            assert(before[j] == pieces[j]);
        }
        lemma_nothing_else_is_kept(crypto, before, offset);
        assert(pieces[pieces.len() - 1] == pieces.last());
    }
}

} // verus!
