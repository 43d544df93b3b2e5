//! The QUIC router.

use vstd::prelude::*;
use vstd::slice::{slice_subrange, slice_to_vec};

use crate::addr;
use crate::addr::{normalize_socket_addr, socket_addrs_equal, SocketAddr};
use crate::client_hello;
use crate::client_hello::{extract_sni, SniError};
use crate::quic::config::{Backend, Config};
use crate::quic::connection::{Connection, Connections};
use crate::quic::error::QuicError;
use crate::quic::frames;
use crate::quic::frames::read_crypto_frames;
use crate::quic::initial::{decrypt_initial_packet, DecryptedInitial};
use crate::quic::model;
use crate::quic::model::{
    ActionView, ConnectionView, DropReason, HandleError, NewView, ReplyView, RouterView,
};
use crate::quic::packet;
use crate::quic::packet::{
    parse_long_packet_cids, LongHeader, LongPacketCids, QUIC_PACKET_TYPE_INITIAL, QUIC_VERSION_1,
};
use crate::quic::pending;
use crate::quic::pending::PendingConnection;
use crate::quic::route;
use crate::quic::route::{Route, RouteError, RouteView};
use crate::table::{starts_with, ClientKey, Table};

verus! {

/// A connection that is to get a backend.
#[derive(Debug)]
pub struct NewConnection {
    pub conn_id: usize,
    pub backend: SocketAddr,
    pub connection: Connection,
    /// What the backend is to be sent.
    pub datagrams: Vec<Vec<u8>>,
}

impl View for NewConnection {
    type V = NewView;

    open spec fn view(&self) -> NewView {
        NewView {
            conn_id: self.conn_id,
            backend: self.backend,
            connection: self.connection@,
            datagrams: pending::datagrams_view(self.datagrams@),
        }
    }
}

/// What to do with a client's datagram.
#[derive(Debug)]
pub enum ClientAction {
    Drop(DropReason),
    /// Keep it until more has come.
    Wait,
    /// Send it to the backend of a connection.
    Forward { conn_id: usize, packet: Vec<u8> },
    /// Connect to a backend, and send it what was kept.
    Connect(NewConnection),
}

impl View for ClientAction {
    type V = ActionView;

    open spec fn view(&self) -> ActionView {
        match *self {
            ClientAction::Drop(reason) => ActionView::Drop(reason),
            ClientAction::Wait => ActionView::Wait,
            ClientAction::Forward { conn_id, packet } => ActionView::Forward {
                conn_id,
                packet: packet@,
            },
            ClientAction::Connect(new) => ActionView::Connect(new@),
        }
    }
}

/// An outcome, by its contents.
pub open spec fn outcome(r: Result<ClientAction, HandleError>) -> Result<ActionView, HandleError> {
    match r {
        Ok(action) => Ok(action@),
        Err(e) => Err(e),
    }
}

/// What to do with a backend's datagram.
#[derive(Debug)]
pub enum BackendAction {
    Drop(DropReason),
    /// Send it to a client.
    Send { client_addr: SocketAddr, packet: Vec<u8> },
}

impl View for BackendAction {
    type V = ReplyView;

    open spec fn view(&self) -> ReplyView {
        match *self {
            BackendAction::Drop(reason) => ReplyView::Drop(reason),
            BackendAction::Send { client_addr, packet } => ReplyView::Send {
                client_addr,
                packet: packet@,
            },
        }
    }
}

/// Extracts the server name from a ClientHello. `Ok(None)` where it holds no
/// host name.
pub fn extract_tls_sni(clienthello: &[u8]) -> (r: Result<Option<String>, SniError>)
    ensures
        client_hello::named(r) == client_hello::server_name(clienthello@),
        r matches Ok(Some(name)) ==> (client_hello::host_bytes(clienthello@) matches Ok(Some(host))
            && (vstd::utf8::valid_utf8(host) ==> name@ == vstd::utf8::decode_utf8(host))),
{
    extract_sni(clienthello)
}

/// What is known of all QUIC connections.
#[derive(Debug)]
pub struct Router {
    config: Config,
    idle_timeout: u64,
    next_connection_id: usize,
    connections: Connections,
    cid_routes: Table<Vec<u8>, usize>,
    client_routes: Table<SocketAddr, usize>,
    pending: Table<ClientKey, PendingConnection>,
}

impl View for Router {
    type V = RouterView;

    closed spec fn view(&self) -> RouterView {
        RouterView {
            config: self.config@,
            idle_timeout: self.idle_timeout,
            next_connection_id: self.next_connection_id,
            connections: self.connections@,
            cid_routes: self.cid_routes@,
            client_routes: self.client_routes@,
            pending: self.pending@,
        }
    }
}

proof fn lemma_longest_route(routes: Map<Seq<u8>, usize>, text: Seq<u8>, best: nat, n: nat)
    requires
        best <= n,
        best > 0 ==> routes.contains_key(text.take(best as int)),
        forall|m: nat| best < m <= n ==> !routes.contains_key(#[trigger] text.take(m as int)),
    ensures
        model::longest_route(routes, text, n) == (if best > 0 {
            Some(routes[text.take(best as int)])
        } else {
            None
        }),
    decreases n,
{
    if n > best {
        assert(!routes.contains_key(text.take(n as int)));
        lemma_longest_route(routes, text, best, (n - 1) as nat);
    }
}

proof fn lemma_contains_pushed(ids: Seq<usize>, id: usize)
    ensures
        forall|x: usize| #[trigger] ids.push(id).contains(x) <==> ids.contains(x) || x == id,
{
    assert forall|x: usize| #[trigger] ids.push(id).contains(x) <==> ids.contains(x) || x
        == id by {
        if ids.contains(x) {
            let k = choose|k: int| 0 <= k < ids.len() && ids[k] == x;
            assert(ids.push(id)[k] == x);
        }
        assert(ids.push(id)[ids.len() as int] == id);
    }
}

proof fn lemma_take_one_more(ids: Seq<usize>, i: int)
    requires
        ids.no_duplicates(),
        0 <= i < ids.len(),
    ensures
        !ids.take(i).to_set().contains(ids[i]),
        ids.take(i + 1).to_set() == ids.take(i).to_set().insert(ids[i]),
{
    let a = ids.take(i);
    let b = ids.take(i + 1);
    if a.contains(ids[i]) {
        let j = choose|j: int| 0 <= j < a.len() && a[j] == ids[i];
        assert(ids[j] == ids[i]);
    }
    assert forall|x: usize| b.to_set().contains(x) == a.to_set().insert(ids[i]).contains(x) by {
        if b.contains(x) {
            let j = choose|j: int| 0 <= j < b.len() && b[j] == x;
            if j < i {
                assert(a[j] == x);
            }
        }
        if a.contains(x) {
            let j = choose|j: int| 0 <= j < a.len() && a[j] == x;
            assert(b[j] == x);
        }
        assert(b[i] == ids[i]);
    }
    assert(b.to_set() =~= a.to_set().insert(ids[i]));
}

impl Router {
    /// Whether every table has at most one value for each key.
    spec fn tables_wf(self) -> bool {
        &&& self.cid_routes.wf()
        &&& self.client_routes.wf()
        &&& self.pending.wf()
    }

    /// Whether every route leads to a connection that it belongs to.
    pub closed spec fn wf(self) -> bool {
        self.tables_wf() && self@.wf()
    }

    /// A well-formed router knows a well-formed whole.
    pub proof fn lemma_wf(self)
        requires
            self.wf(),
        ensures
            self@.wf(),
    {
    }

    /// A router without connections. The idle timeout is in milliseconds.
    pub fn new(config: Config, idle_timeout: u64) -> (r: Router)
        ensures
            r.wf(),
            r@ == (RouterView {
                config: config@,
                idle_timeout,
                next_connection_id: 0,
                connections: Map::empty(),
                cid_routes: Map::empty(),
                client_routes: Map::empty(),
                pending: Map::empty(),
            }),
    {
        Router {
            config,
            idle_timeout,
            next_connection_id: 0,
            connections: Connections::new(),
            cid_routes: Table::new(),
            client_routes: Table::new(),
            pending: Table::new(),
        }
    }

    /// Takes another configuration for connections to come.
    pub fn set_config(&mut self, config: Config)
        requires
            old(self).wf(),
        ensures
            final(self).wf(),
            final(self)@ == (RouterView { config: config@, ..old(self)@ }),
    {
        self.config = config;
        proof {
            let v = old(self)@;
            let w = self@;
            assert forall|k: Seq<u8>| #[trigger]
                w.cid_routes.contains_key(k) implies w.cid_route_wf(k) by {
                assert(v.cid_route_wf(k));
            }
            assert forall|a: SocketAddr| #[trigger]
                w.client_routes.contains_key(a) implies w.client_route_wf(a) by {
                assert(v.client_route_wf(a));
            }
            assert forall|i: usize| #[trigger]
                w.connections.contains_key(i) implies w.connection_wf(i) by {
                assert(v.connection_wf(i));
            }
            assert forall|k: (SocketAddr, Seq<u8>)| #[trigger]
                w.pending.contains_key(k) implies w.pending_wf(k) by {
                assert(v.pending_wf(k));
            }
        }
    }

    /// The number that the next connection gets.
    pub fn next_id(&self) -> (r: usize)
        ensures
            r == self@.next_connection_id,
    {
        self.next_connection_id
    }

    /// A connection by its number.
    pub fn connection(&self, conn_id: usize) -> (r: Option<&Connection>)
        requires
            self.wf(),
        ensures
            (match r {
                Some(c) => Some(c@),
                None => None,
            }) == model::lookup(self@.connections, conn_id),
    {
        self.connections.get(conn_id)
    }

    /// The connection that a connection ID belongs to.
    pub fn cid_route(&self, cid: &Vec<u8>) -> (r: Option<usize>)
        requires
            self.wf(),
        ensures
            r == model::lookup(self@.cid_routes, cid@),
    {
        match self.cid_routes.get(cid) {
            Some(id) => Some(*id),
            None => None,
        }
    }

    /// The connection that a client's address belongs to.
    pub fn client_route(&self, peer: SocketAddr) -> (r: Option<usize>)
        requires
            self.wf(),
        ensures
            r == model::lookup(self@.client_routes, addr::normal(peer)),
    {
        match self.client_routes.get(&normalize_socket_addr(peer)) {
            Some(id) => Some(*id),
            None => None,
        }
    }

    /// Finds where a client goes that asks for the name `sni`, or for none.
    pub fn route_for_sni(&self, peer: SocketAddr, sni: Option<String>) -> (r: Result<
        Route,
        RouteError,
    >)
        ensures
            match r {
                Ok(found) => route::route_of(self@.config, peer, route::text_view(sni)) == Ok::<
                    RouteView,
                    RouteError,
                >(found@),
                Err(e) => route::route_of(self@.config, peer, route::text_view(sni)) == Err::<
                    RouteView,
                    RouteError,
                >(e),
            },
    {
        route::route_for_sni(&self.config, peer, sni)
    }

    /// Finds the connection that a packet with a short header belongs to: that
    /// with the longest known connection ID at the packet's start.
    pub fn match_short_header_route(&self, packet: &[u8]) -> (r: Option<usize>)
        requires
            self.wf(),
        ensures
            r == model::short_header_route(self@.cid_routes, packet@),
    {
        if packet.len() == 0 || packet[0] >= 0x80 {
            return None;
        }
        let rest = slice_subrange(packet, 1, packet.len());
        assert(rest@ =~= packet@.skip(1));
        let mut best: Option<usize> = None;
        let mut best_len: usize = 0;
        let mut i: usize = 0;
        while i < self.cid_routes.len()
            invariant
                self.wf(),
                i <= self.cid_routes.size(),
                best_len <= rest@.len(),
                best is Some <==> best_len > 0,
                best matches Some(id) ==> self@.cid_routes.contains_key(
                    rest@.take(best_len as int),
                ) && self@.cid_routes[rest@.take(best_len as int)] == id,
                forall|j: int|
                    #![trigger self.cid_routes.key(j)]
                    0 <= j < i && self.cid_routes.key(j).len() <= rest@.len() && rest@.take(
                        self.cid_routes.key(j).len() as int,
                    ) == self.cid_routes.key(j) ==> self.cid_routes.key(j).len() <= best_len,
            decreases self.cid_routes.size() - i,
        {
            let (cid, conn_id) = self.cid_routes.entry(i);
            if cid.len() > best_len && starts_with(rest, cid.as_slice()) {
                best = Some(*conn_id);
                best_len = cid.len();
            }
            i = i + 1;
        }
        proof {
            self.cid_routes.lemma_places();
            assert forall|m: nat|
                best_len < m <= rest@.len() implies !self@.cid_routes.contains_key(
                #[trigger] rest@.take(m as int),
            ) by {
                let key = rest@.take(m as int);
                if self.cid_routes@.contains_key(key) {
                    let j = choose|j: int|
                        0 <= j < self.cid_routes.size() && #[trigger] self.cid_routes.key(j) == key;
                    assert(self.cid_routes.key(j).len() == m);
                }
            }
            lemma_longest_route(self@.cid_routes, rest@, best_len as nat, rest@.len());
        }
        best
    }

    /// Reads a packet's long header, if it has one, and finds the connection
    /// that the packet belongs to by its connection ID.
    pub fn packet_connection_id(&self, packet: &[u8]) -> (r: Result<
        (Option<LongPacketCids>, Option<usize>),
        QuicError,
    >)
        requires
            self.wf(),
        ensures
            match r {
                Ok((long, conn_id)) => packet::long_header(packet@) == Ok::<
                    Option<LongHeader>,
                    QuicError,
                >(packet::long_view(long)) && conn_id == model::route_by_cid(
                    self@.cid_routes,
                    packet@,
                    packet::long_view(long),
                ),
                Err(e) => packet::long_header(packet@) == Err::<Option<LongHeader>, QuicError>(e),
            },
    {
        let long = match parse_long_packet_cids(packet) {
            Ok(long) => long,
            Err(e) => return Err(e),
        };
        let conn_id = match &long {
            Some(cids) => self.cid_route(&cids.dcid),
            None => self.match_short_header_route(packet),
        };
        Ok((long, conn_id))
    }

    /// Learns a connection ID of a connection.
    pub fn add_cid_route(&mut self, conn_id: usize, cid: Vec<u8>)
        requires
            old(self).wf(),
        ensures
            final(self).wf(),
            final(self)@ == model::with_cid(old(self)@, conn_id, cid@),
    {
        if cid.len() == 0 {
            return;
        }
        let ghost v = self@;
        let ghost name = cid@;
        proof {
            model::lemma_with_cid_wf(v, conn_id, name);
        }
        match self.connections.remove(conn_id) {
            None => {
                assert(self@ =~= v);
            },
            Some(taken) => {
                let mut conn = taken;
                let added = conn.cids.insert(slice_to_vec(cid.as_slice()));
                self.connections.insert(conn_id, conn);
                if added {
                    self.cid_routes.insert(cid, conn_id);
                } else {
                    assert(v.connections[conn_id].cids.insert(name)
                        =~= v.connections[conn_id].cids);
                    assert(conn@ =~= v.connections[conn_id]);
                }
                assert(self@ =~= model::with_cid(v, conn_id, name));
            },
        }
    }

    /// Takes note of a datagram of a connection from its client, which is then
    /// to be sent to the connection's backend. A datagram of a connection that is
    /// not known is dropped.
    pub fn forward_established_client_datagram(
        &mut self,
        conn_id: usize,
        peer: SocketAddr,
        packet: Vec<u8>,
        long: Option<LongPacketCids>,
        now: u64,
    ) -> (r: ClientAction)
        requires
            old(self).wf(),
        ensures
            final(self).wf(),
            (final(self)@, r@) == (if !old(self)@.connections.contains_key(conn_id) {
                (old(self)@, ActionView::Drop(DropReason::NoConnection { conn_id }))
            } else {
                (
                    model::client_seen(
                        old(self)@,
                        conn_id,
                        peer,
                        now,
                        model::sender_cid(packet::long_view(long)),
                    ),
                    ActionView::Forward { conn_id, packet: packet@ },
                )
            }),
    {
        let ghost v = self@;
        let taken = self.connections.remove(conn_id);
        let mut conn = match taken {
            Some(conn) => conn,
            None => {
                assert(self@ =~= v);
                return ClientAction::Drop(DropReason::NoConnection { conn_id });
            },
        };
        proof {
            model::lemma_client_seen_wf(
                v,
                conn_id,
                peer,
                now,
                model::sender_cid(packet::long_view(long)),
            );
        }
        let old_key = normalize_socket_addr(conn.client_addr);
        conn.client_addr = peer;
        conn.last_seen = now;
        self.connections.insert(conn_id, conn);
        let new_key = normalize_socket_addr(peer);
        if old_key != new_key {
            self.client_routes.remove(&old_key);
        }
        self.client_routes.insert(new_key, conn_id);
        proof {
            let c = v.connections[conn_id];
            let routes = if addr::normal(c.client_addr) != addr::normal(peer) {
                v.client_routes.remove(addr::normal(c.client_addr))
            } else {
                v.client_routes
            };
            assert(self@ =~= RouterView {
                connections: v.connections.insert(
                    conn_id,
                    ConnectionView { client_addr: peer, last_seen: now, ..c },
                ),
                client_routes: routes.insert(addr::normal(peer), conn_id),
                ..v
            });
            model::lemma_client_seen_wf(v, conn_id, peer, now, Seq::empty());
        }
        if let Some(cids) = long {
            self.add_cid_route(conn_id, cids.scid);
        }
        ClientAction::Forward { conn_id, packet }
    }

    /// Takes note of a datagram of a connection from its backend, which is then
    /// to be sent to the connection's client.
    pub fn forward_established_backend_datagram(
        &mut self,
        conn_id: usize,
        packet: Vec<u8>,
        long: Option<LongPacketCids>,
        now: u64,
    ) -> (r: BackendAction)
        requires
            old(self).wf(),
        ensures
            final(self).wf(),
            (final(self)@, r@) == (if !old(self)@.connections.contains_key(conn_id) {
                (old(self)@, ReplyView::Drop(DropReason::NoConnection { conn_id }))
            } else {
                (
                    model::backend_seen(
                        old(self)@,
                        conn_id,
                        now,
                        model::sender_cid(packet::long_view(long)),
                    ),
                    ReplyView::Send {
                        client_addr: old(self)@.connections[conn_id].client_addr,
                        packet: packet@,
                    },
                )
            }),
    {
        let ghost v = self@;
        let taken = self.connections.remove(conn_id);
        let mut conn = match taken {
            Some(conn) => conn,
            None => {
                assert(self@ =~= v);
                return BackendAction::Drop(DropReason::NoConnection { conn_id });
            },
        };
        conn.last_seen = now;
        let client_addr = conn.client_addr;
        self.connections.insert(conn_id, conn);
        proof {
            let c = v.connections[conn_id];
            assert(self@ =~= RouterView {
                connections: v.connections.insert(conn_id, ConnectionView { last_seen: now, ..c }),
                ..v
            });
            model::lemma_backend_seen_wf(v, conn_id, now, Seq::empty());
        }
        if let Some(cids) = long {
            self.add_cid_route(conn_id, cids.scid);
        }
        BackendAction::Send { client_addr, packet }
    }

    /// Handles a datagram that came from the backend of a connection.
    pub fn handle_backend_datagram(&mut self, conn_id: usize, packet: Vec<u8>, now: u64) -> (r:
        BackendAction)
        requires
            old(self).wf(),
        ensures
            final(self).wf(),
            (final(self)@, r@) == model::on_backend(old(self)@, conn_id, packet@, now),
    {
        let long = match parse_long_packet_cids(packet.as_slice()) {
            Ok(long) => long,
            Err(e) => return BackendAction::Drop(DropReason::BadHeader(e)),
        };
        self.forward_established_backend_datagram(conn_id, packet, long, now)
    }

    /// Takes what is known of a pending connection out, or starts anew.
    fn take_pending(&mut self, peer: SocketAddr, dcid: &Vec<u8>, now: u64) -> (r: PendingConnection)
        requires
            old(self).wf(),
        ensures
            final(self).tables_wf(),
            final(self)@ == (RouterView {
                pending: old(self)@.pending.remove((peer, dcid@)),
                ..old(self)@
            }),
            r@ == (match model::lookup(old(self)@.pending, (peer, dcid@)) {
                Some(p) => p,
                None => pending::fresh(peer, dcid@, now),
            }),
            r@.wf(),
    {
        let ghost v = self@;
        let key = ClientKey { peer, dcid: slice_to_vec(dcid.as_slice()) };
        let taken = self.pending.remove(&key);
        proof {
            if v.pending.contains_key((peer, dcid@)) {
                assert(v.pending_wf((peer, dcid@)));
            }
        }
        match taken {
            Some(p) => p,
            None => PendingConnection::new(peer, slice_to_vec(dcid.as_slice()), now),
        }
    }

    /// Puts what is known of a pending connection back.
    fn put_pending(&mut self, peer: SocketAddr, dcid: Vec<u8>, p: PendingConnection)
        requires
            old(self).tables_wf(),
        ensures
            final(self).tables_wf(),
            final(self)@ == model::with_pending(old(self)@, peer, dcid@, p@),
    {
        self.pending.insert(ClientKey { peer, dcid }, p);
    }

    /// Handles an opened Initial packet that belongs to no connection yet, with
    /// the pieces of the handshake that it carries.
    pub fn handle_initial(
        &mut self,
        peer: SocketAddr,
        packet: Vec<u8>,
        opened: DecryptedInitial,
        crypto_frames: Vec<(u64, Vec<u8>)>,
        now: u64,
    ) -> (r: Result<ClientAction, HandleError>)
        requires
            old(self).wf(),
            old(self)@.next_connection_id < usize::MAX,
        ensures
            final(self).wf(),
            (final(self)@, outcome(r)) == model::on_initial(
                old(self)@,
                peer,
                packet@,
                opened@,
                frames::pieces_view(crypto_frames@),
                now,
            ),
            r matches Ok(ClientAction::Connect(new)) ==> model::new_wf(final(self)@, new@),
    {
        let ghost v = self@;
        let ghost pieces = frames::pieces_view(crypto_frames@);
        let ghost o = opened@;
        let dcid = opened.dcid;
        let scid = opened.scid;
        proof {
            model::lemma_initial_wf(v, peer, packet@, o, pieces, now);
            model::lemma_pending_seen_wf(v, peer, dcid@, scid@, now);
        }
        let mut p = self.take_pending(peer, &dcid, now);
        p.last_seen = now;
        if scid.len() > 0 {
            p.client_cids.insert(scid);
        }
        let ghost seen = model::pending_seen(v, peer, dcid@, o.scid, now);
        assert(p@ =~= seen);
        assert forall|q: crate::quic::pending::PendingView|
            model::with_pending(
                RouterView { pending: v.pending.remove((peer, dcid@)), ..v },
                peer,
                dcid@,
                q,
            ) == #[trigger] model::with_pending(v, peer, dcid@, q) by {
            assert(v.pending.remove((peer, dcid@)).insert((peer, dcid@), q) =~= v.pending.insert(
                (peer, dcid@),
                q,
            ));
        }
        if let Err(e) = p.push_datagram(packet) {
            self.put_pending(peer, dcid, p);
            return Err(HandleError::Pending(e));
        }
        p = add_pieces(p, crypto_frames);
        match p.crypto.clienthello() {
            Err(e) => {
                self.put_pending(peer, dcid, p);
                Err(HandleError::Hello(e))
            },
            Ok(None) => {
                self.put_pending(peer, dcid, p);
                Ok(ClientAction::Wait)
            },
            Ok(Some(hello)) => {
                let sni = match extract_tls_sni(hello.as_slice()) {
                    Ok(sni) => sni,
                    Err(_) => None,
                };
                let found = match self.route_for_sni(peer, sni) {
                    Ok(found) => found,
                    Err(e) => {
                        self.put_pending(peer, dcid, p);
                        return Err(HandleError::Route(e));
                    },
                };
                match found.backend {
                    Backend::Null => Ok(ClientAction::Drop(DropReason::NullBackend)),
                    Backend::Udp { addr } => {
                        let conn_id: usize = self.next_connection_id;
                        self.next_connection_id = conn_id + 1;
                        let new = start_connection(conn_id, p, addr, found, now);
                        Ok(ClientAction::Connect(new))
                    },
                }
            },
        }
    }

    /// Handles a client's packet that belongs to no connection.
    pub fn handle_unrouted_client_datagram(
        &mut self,
        peer: SocketAddr,
        packet: Vec<u8>,
        long: Option<LongPacketCids>,
        now: u64,
    ) -> (r: Result<ClientAction, HandleError>)
        requires
            old(self).wf(),
            old(self)@.next_connection_id < usize::MAX,
        ensures
            final(self).wf(),
            (final(self)@, outcome(r)) == model::on_unrouted(
                old(self)@,
                peer,
                packet@,
                packet::long_view(long),
                now,
            ),
            r matches Ok(ClientAction::Connect(new)) ==> model::new_wf(final(self)@, new@),
    {
        let cids = match long {
            Some(cids) => cids,
            None => return Ok(ClientAction::Drop(DropReason::UnknownShortHeader)),
        };
        if cids.version != QUIC_VERSION_1 || cids.packet_type != QUIC_PACKET_TYPE_INITIAL {
            return Ok(
                ClientAction::Drop(
                    DropReason::NotInitial {
                        version: cids.version,
                        packet_type: cids.packet_type,
                    },
                ),
            );
        }
        let opened = match decrypt_initial_packet(packet.as_slice()) {
            Ok(opened) => opened,
            Err(e) => return Ok(ClientAction::Drop(DropReason::Undecryptable(e))),
        };
        let crypto_frames = match read_crypto_frames(opened.payload.as_slice()) {
            Ok(crypto_frames) => crypto_frames,
            Err(e) => return Ok(ClientAction::Drop(DropReason::BadFrames(e))),
        };
        self.handle_initial(peer, packet, opened, crypto_frames, now)
    }

    /// Handles a datagram that came from a client.
    pub fn handle_datagram(&mut self, peer: SocketAddr, packet: Vec<u8>, now: u64) -> (r: Result<
        ClientAction,
        HandleError,
    >)
        requires
            old(self).wf(),
            old(self)@.next_connection_id < usize::MAX,
        ensures
            final(self).wf(),
            (final(self)@, outcome(r)) == model::on_client(old(self)@, peer, packet@, now),
            r matches Ok(ClientAction::Connect(new)) ==> model::new_wf(final(self)@, new@),
    {
        let (long, by_cid) = match self.packet_connection_id(packet.as_slice()) {
            Ok(found) => found,
            Err(e) => return Ok(ClientAction::Drop(DropReason::BadHeader(e))),
        };
        let lacks_cid = match &long {
            Some(cids) => cids.dcid.len() == 0,
            None => true,
        };
        let found: Option<usize> = match by_cid {
            Some(conn_id) => Some(conn_id),
            None => if lacks_cid {
                self.client_route(peer)
            } else {
                None
            },
        };
        let conn_id: usize = match found {
            Some(conn_id) => conn_id,
            None => return self.handle_unrouted_client_datagram(peer, packet, long, now),
        };
        let client_addr = match self.connections.get(conn_id) {
            Some(conn) => conn.client_addr,
            None => return Ok(ClientAction::Drop(DropReason::NoConnection { conn_id })),
        };
        if !socket_addrs_equal(peer, client_addr) {
            return Ok(ClientAction::Drop(DropReason::UnexpectedPeer { conn_id }));
        }
        Ok(self.forward_established_client_datagram(conn_id, peer, packet, long, now))
    }

    /// Takes up a connection whose backend was connected to. Returns what the
    /// backend is to be sent first.
    pub fn establish_and_flush(&mut self, new: NewConnection) -> (r: Vec<Vec<u8>>)
        requires
            old(self).wf(),
            model::new_wf(old(self)@, new@),
        ensures
            final(self).wf(),
            final(self)@ == model::established(old(self)@, new@),
            pending::datagrams_view(r@) == new@.datagrams,
    {
        let ghost v = self@;
        proof {
            model::lemma_established_wf(v, new@);
        }
        let conn_id: usize = new.conn_id;
        let client_key = normalize_socket_addr(new.connection.client_addr);
        let cids = &new.connection.cids;
        let ghost mut added = Set::<Seq<u8>>::empty();
        let mut i: usize = 0;
        assert(v.cid_routes.union_prefer_right(model::routes_to(added, conn_id))
            =~= v.cid_routes);
        while i < cids.len()
            invariant
                self.tables_wf(),
                i <= cids.size(),
                self@ == (RouterView {
                    cid_routes: v.cid_routes.union_prefer_right(model::routes_to(added, conn_id)),
                    ..v
                }),
                forall|j: int| 0 <= j < i ==> added.contains(#[trigger] cids.member(j)),
                forall|m: Seq<u8>| #[trigger] added.contains(m) ==> cids@.contains(m),
            decreases cids.size() - i,
        {
            let cid = slice_to_vec(cids.at(i).as_slice());
            let ghost name = cid@;
            self.cid_routes.insert(cid, conn_id);
            proof {
                assert(v.cid_routes.union_prefer_right(model::routes_to(added, conn_id)).insert(
                    name,
                    conn_id,
                ) =~= v.cid_routes.union_prefer_right(
                    model::routes_to(added.insert(name), conn_id),
                ));
                added = added.insert(name);
            }
            i = i + 1;
        }
        proof {
            cids.lemma_places();
            assert forall|m: Seq<u8>| cids@.contains(m) implies added.contains(m) by {
                let j = choose|j: int| 0 <= j < cids.size() && #[trigger] cids.member(j) == m;
                assert(added.contains(cids.member(j)));
            }
            assert(added =~= cids@);
        }
        self.connections.insert(conn_id, new.connection);
        self.client_routes.insert(client_key, conn_id);
        assert(self@ =~= model::established(v, new@));
        new.datagrams
    }

    /// Forgets a connection and the routes by its connection IDs and its
    /// client's address.
    fn forget(&mut self, conn_id: usize)
        requires
            old(self).wf(),
            old(self)@.connections.contains_key(conn_id),
        ensures
            final(self).wf(),
            final(self)@ == model::forgotten(old(self)@, set![conn_id]),
    {
        let ghost v = self@;
        proof {
            model::lemma_forgotten_wf(v, set![conn_id]);
        }
        let conn = match self.connections.remove(conn_id) {
            Some(conn) => conn,
            None => return,
        };
        let cids = &conn.cids;
        let ghost mut gone = Set::<Seq<u8>>::empty();
        let mut i: usize = 0;
        assert(v.cid_routes.remove_keys(gone) =~= v.cid_routes);
        while i < cids.len()
            invariant
                self.tables_wf(),
                i <= cids.size(),
                self@ == (RouterView {
                    connections: v.connections.remove(conn_id),
                    cid_routes: v.cid_routes.remove_keys(gone),
                    ..v
                }),
                forall|j: int| 0 <= j < i ==> gone.contains(#[trigger] cids.member(j)),
                forall|m: Seq<u8>| #[trigger] gone.contains(m) ==> cids@.contains(m),
            decreases cids.size() - i,
        {
            let cid = cids.at(i);
            self.cid_routes.remove(cid);
            proof {
                assert(v.cid_routes.remove_keys(gone).remove(cid@) =~= v.cid_routes.remove_keys(
                    gone.insert(cid@),
                ));
                gone = gone.insert(cid@);
            }
            i = i + 1;
        }
        self.client_routes.remove(&normalize_socket_addr(conn.client_addr));
        proof {
            cids.lemma_places();
            let ids = set![conn_id];
            assert(ids.contains(conn_id));
            assert forall|m: Seq<u8>| gone.contains(m) == model::cid_of_any(v, ids, m) by {
                if cids@.contains(m) {
                    let j = choose|j: int| 0 <= j < cids.size() && #[trigger] cids.member(j) == m;
                    assert(gone.contains(cids.member(j)));
                }
            }
            assert forall|a: SocketAddr| (a == addr::normal(conn.client_addr))
                == model::client_of_any(v, ids, a) by {
            }
            assert(self@ =~= model::forgotten(v, ids));
        }
    }

    /// The connections that have been idle for too long or have reached their
    /// end.
    fn expired(&self, now: u64) -> (r: Vec<usize>)
        requires
            self.wf(),
        ensures
            r@.no_duplicates(),
            r@.to_set() == model::expired_ids(self@, now),
    {
        let all = self.connections.ids();
        let mut ids: Vec<usize> = Vec::new();
        let mut i: usize = 0;
        while i < all.len()
            invariant
                i <= all@.len(),
                all@.no_duplicates(),
                all@.to_set() == self@.connections.dom(),
                ids@.no_duplicates(),
                forall|id: usize| #[trigger]
                    ids@.contains(id) <==> model::expired_ids(self@, now).contains(id)
                        && all@.take(i as int).contains(id),
            decreases all@.len() - i,
        {
            let id: usize = all[i];
            let ghost before = ids@;
            proof {
                assert(all@.to_set().contains(id));
                assert(all@.take(i + 1) =~= all@.take(i as int).push(id));
                lemma_take_one_more(all@, i as int);
                assert(!all@.take(i as int).to_set().contains(id));
                assert(!before.contains(id));
            }
            if let Some(conn) = self.connections.get(id) {
                let idle: bool = since(now, conn.last_seen) as u128 >= self.idle_timeout as u128
                    * 1_000_000;
                let over: bool = match conn.deadline {
                    Some(deadline) => now as u128 >= deadline,
                    None => false,
                };
                if idle || over {
                    ids.push(id);
                }
            }
            proof {
                assert(ids@ == before || ids@ == before.push(id));
                lemma_contains_pushed(before, id);
                lemma_contains_pushed(all@.take(i as int), id);
            }
            i = i + 1;
        }
        proof {
            assert(all@.take(all@.len() as int) =~= all@);
            assert forall|id: usize| model::expired_ids(self@, now).contains(
                id,
            ) implies ids@.contains(id) by {
                assert(all@.to_set().contains(id));
            }
            assert(ids@.to_set() =~= model::expired_ids(self@, now));
        }
        ids
    }

    /// Drops pending connections that are no longer waited for.
    fn drop_stale_pending(&mut self, now: u64)
        requires
            old(self).wf(),
        ensures
            final(self).tables_wf(),
            final(self)@ == (RouterView {
                pending: model::waited_for(
                    old(self)@.pending,
                    model::pending_limit(old(self)@),
                    now,
                ),
                ..old(self)@
            }),
    {
        let ghost v = self@;
        let ms: u64 = match self.config.handshake_timeout {
            Some(ms) => if ms <= self.idle_timeout {
                ms
            } else {
                self.idle_timeout
            },
            None => self.idle_timeout,
        };
        let limit: u128 = ms as u128 * 1_000_000;
        let mut kept: Table<ClientKey, PendingConnection> = Table::new();
        let ghost all = v.pending;
        loop
            invariant
                self.tables_wf(),
                kept.wf(),
                limit == ms * 1_000_000,
                ms == model::pending_limit(v),
                all == v.pending,
                self@ == (RouterView { pending: self.pending@, ..v }),
                forall|k: (SocketAddr, Seq<u8>)| #[trigger]
                    self.pending@.contains_key(k) ==> all.contains_key(k) && self.pending@[k]
                        == all[k],
                forall|k: (SocketAddr, Seq<u8>)|
                    #![trigger kept@.contains_key(k)]
                    #![trigger all.contains_key(k)]
                    kept@.contains_key(k) <==> all.contains_key(k) && !self.pending@.contains_key(k)
                        && model::is_waited_for(all[k], ms, now),
                forall|k: (SocketAddr, Seq<u8>)| #[trigger]
                    kept@.contains_key(k) ==> kept@[k] == all[k],
            ensures
                self.pending@ == Map::<(SocketAddr, Seq<u8>), pending::PendingView>::empty(),
            decreases self.pending.size(),
        {
            let (key, p) = match self.pending.pop() {
                Some(entry) => entry,
                None => break,
            };
            let unseen: u128 = since(now, p.last_seen) as u128;
            let age: u128 = since(now, p.created) as u128;
            if unseen < limit && age < limit {
                kept.insert(key, p);
            }
        }
        assert(kept@ =~= model::waited_for(all, ms, now));
        self.pending = kept;
    }

    /// Forgets the connections that are over and drops the pending ones that
    /// are no longer waited for. Returns the connections that are over.
    pub fn cleanup(&mut self, now: u64) -> (r: Vec<usize>)
        requires
            old(self).wf(),
        ensures
            final(self).wf(),
            final(self)@ == model::cleaned(old(self)@, now),
            r@.no_duplicates(),
            r@.to_set() == model::expired_ids(old(self)@, now),
    {
        let ghost v = self@;
        proof {
            model::lemma_cleaned_wf(v, now);
        }
        let ids = self.expired(now);
        let mut i: usize = 0;
        proof {
            assert(ids@.take(0).to_set() =~= Set::<usize>::empty());
            model::lemma_forget_none(v);
        }
        while i < ids.len()
            invariant
                self.wf(),
                i <= ids@.len(),
                ids@.no_duplicates(),
                ids@.to_set() == model::expired_ids(v, now),
                self@ == model::forgotten(v, ids@.take(i as int).to_set()),
            decreases ids@.len() - i,
        {
            proof {
                let done = ids@.take(i as int).to_set();
                let id = ids@[i as int];
                assert(ids@.to_set().contains(id));
                lemma_take_one_more(ids@, i as int);
                model::lemma_forget_one_more(v, done, id);
            }
            self.forget(ids[i]);
            i = i + 1;
        }
        assert(ids@.take(ids@.len() as int) =~= ids@);
        self.drop_stale_pending(now);
        ids
    }
}

/// The time from `then` to `now`; none where `then` is later.
fn since(now: u64, then: u64) -> (r: u64)
    ensures
        r == model::elapsed(now, then),
{
    if now >= then {
        now - then
    } else {
        0
    }
}

/// Adds pieces of a handshake stream to those that are known.
fn add_pieces(p: PendingConnection, pieces: Vec<(u64, Vec<u8>)>) -> (r: PendingConnection)
    ensures
        r@ == (pending::PendingView {
            crypto: model::with_pieces(p@.crypto, frames::pieces_view(pieces@)),
            ..p@
        }),
{
    let mut r = p;
    let ghost all = frames::pieces_view(pieces@);
    let mut i: usize = 0;
    assert(all.take(0) =~= Seq::<frames::CryptoPiece>::empty());
    while i < pieces.len()
        invariant
            i <= pieces@.len(),
            all == frames::pieces_view(pieces@),
            r@ == (pending::PendingView {
                crypto: model::with_pieces(p@.crypto, all.take(i as int)),
                ..p@
            }),
        decreases pieces@.len() - i,
    {
        let piece = &pieces[i];
        proof {
            assert(all.take(i + 1).drop_last() =~= all.take(i as int));
            assert(all.take(i + 1).last() == frames::piece_view(*piece));
        }
        r.crypto.insert(piece.0, slice_to_vec(piece.1.as_slice()));
        i = i + 1;
    }
    assert(all.take(pieces@.len() as int) =~= all);
    r
}

/// When a connection that starts at `now` ends at the latest.
fn deadline(now: u64, timeout: Option<u64>) -> (r: Option<u128>)
    ensures
        r == model::deadline_of(now, timeout),
{
    match timeout {
        None => None,
        Some(ms) => Some(now as u128 + ms as u128 * 1_000_000),
    }
}

/// Makes a pending connection one that is to get the backend at `backend`.
fn start_connection(
    conn_id: usize,
    p: PendingConnection,
    backend: SocketAddr,
    found: Route,
    now: u64,
) -> (r: NewConnection)
    ensures
        r@ == model::new_connection(conn_id, p@, backend, found@.timeout, found@.sni, now),
{
    let mut cids = p.client_cids;
    if p.initial_dcid.len() > 0 {
        cids.insert(p.initial_dcid);
    }
    NewConnection {
        conn_id,
        backend,
        connection: Connection {
            client_addr: p.client_addr,
            cids,
            created: now,
            last_seen: now,
            deadline: deadline(now, found.timeout),
            sni: found.sni,
        },
        datagrams: p.datagrams,
    }
}

/// What an action says is what it holds: which connection or reason, and all
/// bytes of the packet.
pub proof fn lemma_actions_say_what_they_hold(action: ClientAction, reply: BackendAction)
    ensures
        match action {
            ClientAction::Drop(reason) => action@ == ActionView::Drop(reason),
            ClientAction::Wait => action@ == ActionView::Wait,
            ClientAction::Forward { conn_id, packet } => action@ matches ActionView::Forward {
                conn_id: id,
                packet: bytes,
            } && id == conn_id && bytes == packet@,
            ClientAction::Connect(new) => action@ matches ActionView::Connect(told)
                && told.conn_id == new.conn_id && told.backend == new.backend
                && told.connection.client_addr == new.connection.client_addr
                && told.connection.cids == new.connection.cids@ && told.connection.created
                == new.connection.created && told.connection.last_seen == new.connection.last_seen
                && told.connection.deadline == new.connection.deadline && told.datagrams.len()
                == new.datagrams.len() && forall|i: int|
                0 <= i < new.datagrams.len() ==> #[trigger] told.datagrams[i]
                    == new.datagrams[i]@,
        },
        match reply {
            BackendAction::Drop(reason) => reply@ == ReplyView::Drop(reason),
            BackendAction::Send { client_addr, packet } => reply@ matches ReplyView::Send {
                client_addr: to,
                packet: bytes,
            } && to == client_addr && bytes == packet@,
        },
{
}

} // verus!
