//! What holds of the QUIC router as a whole.

use vstd::prelude::*;

use crate::addr;
use crate::addr::SocketAddr;
use crate::client_hello;
use crate::quic::config::Backend;
use crate::quic::error::QuicError;
use crate::quic::frames;
use crate::quic::frames::CryptoPiece;
use crate::quic::initial;
use crate::quic::initial::OpenedInitial;
use crate::quic::model;
use crate::quic::model::{
    ActionView, ConnectionView, DropReason, HandleError, NewView, ReplyView, RouterView,
};
use crate::quic::packet;
use crate::quic::packet::LongHeader;
use crate::quic::pending;
use crate::quic::reassembly;
use crate::quic::route;

verus! {

/// A datagram is sent to a connection's backend only if it comes from the
/// connection's client, and it is sent unchanged.
pub proof fn lemma_forwarded_only_from_its_client(
    v: RouterView,
    peer: SocketAddr,
    packet: Seq<u8>,
    now: u64,
)
    ensures
        model::on_client(v, peer, packet, now).1 matches Ok(
            ActionView::Forward { conn_id, packet: sent },
        ) ==> {
            &&& sent == packet
            &&& v.connections.contains_key(conn_id)
            &&& addr::normal(v.connections[conn_id].client_addr) == addr::normal(peer)
        },
{
}

/// A backend's datagram goes unchanged to the client of the connection whose
/// backend sent it, and to nobody else.
pub proof fn lemma_reply_goes_to_its_client(
    v: RouterView,
    conn_id: usize,
    packet: Seq<u8>,
    now: u64,
)
    ensures
        model::on_backend(v, conn_id, packet, now).1 matches ReplyView::Send {
            client_addr,
            packet: sent,
        } ==> {
            &&& sent == packet
            &&& v.connections.contains_key(conn_id)
            &&& client_addr == v.connections[conn_id].client_addr
        },
        v.connections.contains_key(conn_id) && packet::long_header(packet) is Ok
            ==> model::on_backend(v, conn_id, packet, now).1 is Send,
{
}

/// A datagram that is dropped unread leaves the router as it was.
pub proof fn lemma_drop_changes_nothing(
    v: RouterView,
    peer: SocketAddr,
    packet: Seq<u8>,
    now: u64,
)
    ensures
        model::on_client(v, peer, packet, now).1 matches Ok(ActionView::Drop(reason)) ==> (reason
            != DropReason::NullBackend ==> model::on_client(v, peer, packet, now).0 == v),
{
}

/// A datagram that cannot be handled changes no connection and no route.
pub proof fn lemma_error_changes_no_route(
    v: RouterView,
    peer: SocketAddr,
    packet: Seq<u8>,
    now: u64,
)
    ensures
        model::on_client(v, peer, packet, now).1 is Err ==> ({
            let w = model::on_client(v, peer, packet, now).0;
            &&& w.connections == v.connections
            &&& w.cid_routes == v.cid_routes
            &&& w.client_routes == v.client_routes
            &&& w.next_connection_id == v.next_connection_id
        }),
{
}

/// A client's datagram changes no other connection than the one that it belongs
/// to.
pub proof fn lemma_other_connections_are_untouched(
    v: RouterView,
    peer: SocketAddr,
    packet: Seq<u8>,
    now: u64,
    other: usize,
)
    requires
        v.connections.contains_key(other),
        !(model::on_client(v, peer, packet, now).1 matches Ok(
            ActionView::Forward { conn_id, .. },
        ) && conn_id == other),
    ensures
        model::on_client(v, peer, packet, now).0.connections.contains_key(other),
        model::on_client(v, peer, packet, now).0.connections[other] == v.connections[other],
{
}

/// A packet with a long header whose connection ID is known goes to that
/// connection's backend, if it comes from the connection's client.
pub proof fn lemma_known_cid_is_forwarded(
    v: RouterView,
    peer: SocketAddr,
    packet: Seq<u8>,
    now: u64,
    header: LongHeader,
)
    requires
        v.wf(),
        packet::long_header(packet) == Ok::<Option<LongHeader>, QuicError>(
            Some(header),
        ),
        v.cid_routes.contains_key(header.dcid),
        addr::normal(peer) == addr::normal(
            v.connections[v.cid_routes[header.dcid]].client_addr,
        ),
    ensures
        model::on_client(v, peer, packet, now).1 == Ok::<ActionView, HandleError>(
            ActionView::Forward { conn_id: v.cid_routes[header.dcid], packet },
        ),
{
    assert(v.cid_route_wf(header.dcid));
}

/// A packet that may have no connection ID, and starts with no known one, goes
/// by its client's address.
pub proof fn lemma_client_address_is_the_fallback(
    v: RouterView,
    peer: SocketAddr,
    packet: Seq<u8>,
    now: u64,
    long: Option<LongHeader>,
)
    requires
        v.wf(),
        packet::long_header(packet) == Ok::<Option<LongHeader>, QuicError>(
            long,
        ),
        model::may_lack_cid(long),
        model::route_by_cid(v.cid_routes, packet, long) is None,
        v.client_routes.contains_key(addr::normal(peer)),
    ensures
        model::on_client(v, peer, packet, now).1 == Ok::<ActionView, HandleError>(
            ActionView::Forward { conn_id: v.client_routes[addr::normal(peer)], packet },
        ),
{
    assert(v.client_route_wf(addr::normal(peer)));
}

/// A packet with a short header goes by the longest known connection ID that it
/// starts with.
pub proof fn lemma_short_header_goes_by_longest_cid(
    routes: Map<Seq<u8>, usize>,
    first: u8,
    cid: Seq<u8>,
    rest: Seq<u8>,
)
    requires
        first < 0x80,
        cid.len() > 0,
        routes.contains_key(cid),
        forall|other: Seq<u8>| #[trigger]
            routes.contains_key(other) && other.len() > cid.len() ==> !(other.len() <= (cid
                + rest).len() && (cid + rest).take(other.len() as int) == other),
    ensures
        model::short_header_route(routes, seq![first] + cid + rest) == Some(routes[cid]),
{
    let packet = seq![first] + cid + rest;
    let text = packet.skip(1);
    assert(text =~= cid + rest);
    assert(text.take(cid.len() as int) =~= cid);
    lemma_longest(routes, text, cid, text.len());
}

proof fn lemma_longest(routes: Map<Seq<u8>, usize>, text: Seq<u8>, cid: Seq<u8>, n: nat)
    requires
        0 < cid.len() <= n <= text.len(),
        text.take(cid.len() as int) == cid,
        routes.contains_key(cid),
        forall|other: Seq<u8>| #[trigger]
            routes.contains_key(other) && other.len() > cid.len() ==> !(other.len() <= text.len()
                && text.take(other.len() as int) == other),
    ensures
        model::longest_route(routes, text, n) == Some(routes[cid]),
    decreases n,
{
    if n > cid.len() {
        assert(text.take(n as int).len() == n);
        assert(!routes.contains_key(text.take(n as int)));
        lemma_longest(routes, text, cid, (n - 1) as nat);
    }
}

/// A connection that was taken up is found by each of its connection IDs and by
/// its client's address.
pub proof fn lemma_established_connection_is_found(v: RouterView, new: NewView)
    ensures
        ({
            let w = model::established(v, new);
            &&& model::lookup(w.connections, new.conn_id) == Some(new.connection)
            &&& model::lookup(w.client_routes, addr::normal(new.connection.client_addr)) == Some(
                new.conn_id,
            )
            &&& forall|cid: Seq<u8>| #[trigger]
                new.connection.cids.contains(cid) ==> model::lookup(w.cid_routes, cid) == Some(
                    new.conn_id,
                )
        }),
{
}

/// An Initial packet that belongs to no connection is opened, and what its
/// frames carry of the handshake is added to what its client has sent before.
pub proof fn lemma_initial_packet_is_read(
    v: RouterView,
    peer: SocketAddr,
    packet: Seq<u8>,
    now: u64,
    header: LongHeader,
    opened: OpenedInitial,
    pieces: Seq<CryptoPiece>,
)
    requires
        packet::long_header(packet) == Ok::<Option<LongHeader>, QuicError>(Some(header)),
        header.version == packet::QUIC_VERSION_1,
        header.packet_type == packet::QUIC_PACKET_TYPE_INITIAL,
        model::connection_of(v, peer, packet, Some(header)) is None,
        initial::decrypted(packet) == Ok::<OpenedInitial, QuicError>(opened),
        frames::crypto_frames(opened.payload, 0) == Ok::<Seq<CryptoPiece>, QuicError>(pieces),
    ensures
        model::on_client(v, peer, packet, now) == model::on_initial(
            v,
            peer,
            packet,
            opened,
            pieces,
            now,
        ),
{
}

/// What a connection that gets a backend sends there is what its client has
/// sent, in order: the datagrams that were kept and then the one that completed
/// the ClientHello.
pub proof fn lemma_kept_datagrams_reach_the_backend(
    v: RouterView,
    peer: SocketAddr,
    packet: Seq<u8>,
    opened: OpenedInitial,
    pieces: Seq<CryptoPiece>,
    now: u64,
)
    requires
        v.wf(),
    ensures
        model::on_initial(v, peer, packet, opened, pieces, now).1 matches Ok(
            ActionView::Connect(new),
        ) ==> {
            &&& new.connection.client_addr == peer
            &&& new.datagrams == (match model::lookup(v.pending, (peer, opened.dcid)) {
                Some(p) => p.datagrams,
                None => Seq::empty(),
            }).push(packet)
            &&& !model::on_initial(v, peer, packet, opened, pieces, now).0.pending.contains_key(
                (peer, opened.dcid),
            )
        },
{
    if v.pending.contains_key((peer, opened.dcid)) {
        assert(v.pending_wf((peer, opened.dcid)));
    }
}

/// Once the pieces of the handshake hold the whole ClientHello, however they
/// are cut and in whatever order they have come, the client goes where its
/// server name is routed to; before that, it is waited for.
pub proof fn lemma_routed_once_hello_is_whole(
    v: RouterView,
    peer: SocketAddr,
    packet: Seq<u8>,
    opened: OpenedInitial,
    pieces: Seq<CryptoPiece>,
    now: u64,
    body: Seq<u8>,
    rest: Seq<u8>,
)
    requires
        body.len() <= 0xff_ffff,
        pending::pushed(
            model::pending_seen(v, peer, opened.dcid, opened.scid, now),
            packet,
        ) is Ok,
        reassembly::pieces_of(
            model::with_pieces(
                model::pending_seen(v, peer, opened.dcid, opened.scid, now).crypto,
                pieces,
            ),
            client_hello::hello_message(body) + rest,
        ),
    ensures
        ({
            let crypto = model::with_pieces(
                model::pending_seen(v, peer, opened.dcid, opened.scid, now).crypto,
                pieces,
            );
            let message = client_hello::hello_message(body);
            let r = model::on_initial(v, peer, packet, opened, pieces, now).1;
            if !reassembly::cover_start(crypto, message.len()) {
                r == Ok::<ActionView, HandleError>(ActionView::Wait)
            } else {
                match route::route_of(v.config, peer, model::name_or_none(message)) {
                    Err(e) => r == Err::<ActionView, HandleError>(HandleError::Route(e)),
                    Ok(found) => match found.backend {
                        Backend::Null => r == Ok::<ActionView, HandleError>(
                            ActionView::Drop(DropReason::NullBackend),
                        ),
                        Backend::Udp { addr } => r matches Ok(ActionView::Connect(new))
                            && new.backend == addr && new.conn_id == v.next_connection_id
                            && new.connection.sni == model::name_or_none(message),
                    },
                }
            }
        }),
{
    let crypto = model::with_pieces(
        model::pending_seen(v, peer, opened.dcid, opened.scid, now).crypto,
        pieces,
    );
    reassembly::lemma_hello_of_pieces(crypto, body, rest);
}

/// A connection ID that a backend is seen to use leads to its connection from
/// then on.
pub proof fn lemma_backend_cid_is_learned(
    v: RouterView,
    conn_id: usize,
    packet: Seq<u8>,
    now: u64,
    header: LongHeader,
)
    requires
        v.connections.contains_key(conn_id),
        packet::long_header(packet) == Ok::<Option<LongHeader>, QuicError>(
            Some(header),
        ),
        header.scid.len() > 0,
        !v.connections[conn_id].cids.contains(header.scid),
    ensures
        model::lookup(
            model::on_backend(v, conn_id, packet, now).0.cid_routes,
            header.scid,
        ) == Some(conn_id),
{
}

/// A connection ID that a client is seen to use leads to its connection from
/// then on.
pub proof fn lemma_client_cid_is_learned(
    v: RouterView,
    peer: SocketAddr,
    packet: Seq<u8>,
    now: u64,
    header: LongHeader,
)
    requires
        packet::long_header(packet) == Ok::<Option<LongHeader>, QuicError>(
            Some(header),
        ),
        header.scid.len() > 0,
    ensures
        model::on_client(v, peer, packet, now).1 matches Ok(ActionView::Forward { conn_id, .. })
            ==> (!v.connections[conn_id].cids.contains(header.scid) ==> model::lookup(
            model::on_client(v, peer, packet, now).0.cid_routes,
            header.scid,
        ) == Some(conn_id)),
{
}

/// A client that uses the connection ID that its backend has picked reaches
/// that backend.
pub proof fn lemma_backend_cid_reaches_the_backend(
    v: RouterView,
    conn_id: usize,
    reply: Seq<u8>,
    replied: LongHeader,
    now: u64,
    peer: SocketAddr,
    packet: Seq<u8>,
    header: LongHeader,
    later: u64,
)
    requires
        v.connections.contains_key(conn_id),
        packet::long_header(reply) == Ok::<Option<LongHeader>, QuicError>(
            Some(replied),
        ),
        replied.scid.len() > 0,
        !v.connections[conn_id].cids.contains(replied.scid),
        packet::long_header(packet) == Ok::<Option<LongHeader>, QuicError>(
            Some(header),
        ),
        header.dcid == replied.scid,
        addr::normal(peer) == addr::normal(v.connections[conn_id].client_addr),
    ensures
        model::on_client(
            model::on_backend(v, conn_id, reply, now).0,
            peer,
            packet,
            later,
        ).1 == Ok::<ActionView, HandleError>(ActionView::Forward { conn_id, packet }),
{
    lemma_backend_cid_is_learned(v, conn_id, reply, now, replied);
}

/// After cleaning up, no connection is left that is over, and no route leads to
/// one.
pub proof fn lemma_cleaned_forgets_what_is_over(v: RouterView, now: u64, id: usize)
    requires
        v.wf(),
        model::expired_ids(v, now).contains(id),
    ensures
        ({
            let w = model::cleaned(v, now);
            &&& !w.connections.contains_key(id)
            &&& forall|cid: Seq<u8>| #[trigger]
                w.cid_routes.contains_key(cid) ==> w.cid_routes[cid] != id
            &&& forall|a: SocketAddr| #[trigger]
                w.client_routes.contains_key(a) ==> w.client_routes[a] != id
        }),
{
    let w = model::cleaned(v, now);
    model::lemma_cleaned_wf(v, now);
    assert forall|cid: Seq<u8>| #[trigger] w.cid_routes.contains_key(cid) implies w.cid_routes[cid]
        != id by {
        assert(w.cid_route_wf(cid));
    }
    assert forall|a: SocketAddr| #[trigger]
        w.client_routes.contains_key(a) implies w.client_routes[a] != id by {
        assert(w.client_route_wf(a));
    }
}

/// Cleaning up keeps every connection that is not over as it was.
pub proof fn lemma_cleaned_keeps_the_rest(v: RouterView, now: u64, id: usize)
    requires
        v.connections.contains_key(id),
        !model::expired_ids(v, now).contains(id),
    ensures
        model::lookup(model::cleaned(v, now).connections, id) == Some(v.connections[id]),
{
}

/// Cleaning up twice at the same time is cleaning up once.
pub proof fn lemma_cleaned_is_clean(v: RouterView, now: u64)
    ensures
        model::expired_ids(model::cleaned(v, now), now) == Set::<usize>::empty(),
        model::cleaned(model::cleaned(v, now), now) == model::cleaned(v, now),
{
    let w = model::cleaned(v, now);
    assert(model::expired_ids(w, now) =~= Set::<usize>::empty());
    model::lemma_forget_none(w);
    assert(model::waited_for(w.pending, model::pending_limit(w), now) =~= w.pending);
}

/// A connection is over only once it has been idle for the idle timeout or has
/// lived as long as its route allows.
pub proof fn lemma_connection_lives_until_limit(
    start: u64,
    timeout: Option<u64>,
    c: ConnectionView,
    idle_timeout: u64,
    now: u64,
)
    requires
        c.deadline == model::deadline_of(start, timeout),
        start <= now,
    ensures
        model::is_expired(c, idle_timeout, now) <==> model::elapsed(now, c.last_seen)
            >= idle_timeout * 1_000_000 || (timeout matches Some(ms) && now - start >= ms
            * 1_000_000),
{
}

/// Whether a piece is what `stream` holds at the piece's offset.
pub open spec fn is_piece_of(piece: CryptoPiece, stream: Seq<u8>) -> bool {
    &&& piece.offset + piece.data.len() <= stream.len()
    &&& piece.data == stream.subrange(piece.offset as int, piece.offset + piece.data.len() as int)
}

/// Whether a piece holds the byte at position `p`.
pub open spec fn piece_holds(piece: CryptoPiece, p: int) -> bool {
    piece.offset <= p < piece.offset + piece.data.len()
}

/// Whether one of the pieces holds the byte at position `p`.
pub open spec fn comes(pieces: Seq<CryptoPiece>, p: int) -> bool {
    exists|i: int| 0 <= i < pieces.len() && piece_holds(#[trigger] pieces[i], p)
}

/// Whether what was known of a handshake, or one of the pieces that come, holds
/// the byte at position `p`.
pub open spec fn known_or_comes(
    known: Map<u64, Seq<u8>>,
    pieces: Seq<CryptoPiece>,
    p: int,
) -> bool {
    ||| exists|offset: u64| #[trigger]
        known.contains_key(offset) && offset <= p < offset + known[offset].len()
    ||| comes(pieces, p)
}

/// With pieces of one stream, what is known holds exactly what was known before
/// and what comes.
proof fn lemma_known_after_pieces(
    known: Map<u64, Seq<u8>>,
    pieces: Seq<CryptoPiece>,
    stream: Seq<u8>,
    n: nat,
)
    requires
        stream.len() <= u64::MAX,
        reassembly::pieces_of(known, stream),
        forall|i: int| 0 <= i < pieces.len() ==> is_piece_of(#[trigger] pieces[i], stream),
        forall|i: int, j: int|
            0 <= i < j < pieces.len() ==> (#[trigger] pieces[i]).offset != (
            #[trigger] pieces[j]).offset,
        forall|i: int|
            0 <= i < pieces.len() ==> !known.contains_key((#[trigger] pieces[i]).offset as u64),
    ensures
        reassembly::pieces_of(model::with_pieces(known, pieces), stream),
        reassembly::cover_start(model::with_pieces(known, pieces), n) <==> forall|p: int|
            0 <= p < n ==> #[trigger] known_or_comes(known, pieces, p),
{
    let all = model::with_pieces(known, pieces);
    assert forall|offset: u64| #[trigger] all.contains_key(offset) implies ((known.contains_key(
        offset,
    ) && all[offset] == known[offset]) || exists|i: int|
        0 <= i < pieces.len() && (#[trigger] pieces[i]).offset == offset && all[offset]
            == pieces[i].data) by {
        if exists|i: int|
            0 <= i < pieces.len() && (#[trigger] pieces[i]).data.len() > 0
                && pieces[i].offset as u64 == offset {
            let i = choose|i: int|
                0 <= i < pieces.len() && (#[trigger] pieces[i]).data.len() > 0
                    && pieces[i].offset as u64 == offset;
            assert(is_piece_of(pieces[i], stream));
            assert forall|j: int| i < j < pieces.len() implies (#[trigger] pieces[j]).data.len()
                == 0 || pieces[j].offset as u64 != pieces[i].offset as u64 by {
                assert(is_piece_of(pieces[j], stream));
            }
            model::lemma_every_piece_is_kept(known, pieces, i);
            assert(pieces[i].offset == offset);
        } else {
            model::lemma_nothing_else_is_kept(known, pieces, offset);
        }
    }
    assert forall|offset: u64| #[trigger] all.contains_key(offset) implies offset
        + all[offset].len() <= stream.len() && all[offset] == stream.subrange(
        offset as int,
        offset + all[offset].len() as int,
    ) by {
        if !(known.contains_key(offset) && all[offset] == known[offset]) {
            let i = choose|i: int|
                0 <= i < pieces.len() && (#[trigger] pieces[i]).offset == offset && all[offset]
                    == pieces[i].data;
            assert(is_piece_of(pieces[i], stream));
        }
    }
    assert forall|p: int| 0 <= p < n implies #[trigger] reassembly::covered(all, p)
        == known_or_comes(known, pieces, p) by {
        if reassembly::covered(all, p) {
            let offset = choose|offset: u64| #[trigger] reassembly::covers(all, offset, p);
            assert(all.contains_key(offset));
            if !(known.contains_key(offset) && all[offset] == known[offset]) {
                let i = choose|i: int|
                    0 <= i < pieces.len() && (#[trigger] pieces[i]).offset == offset && all[offset]
                        == pieces[i].data;
                assert(piece_holds(pieces[i], p));
            }
        }
        if exists|offset: u64| #[trigger]
            known.contains_key(offset) && offset <= p < offset + known[offset].len() {
            let offset = choose|offset: u64| #[trigger]
                known.contains_key(offset) && offset <= p < offset + known[offset].len();
            assert forall|j: int| 0 <= j < pieces.len() implies (#[trigger] pieces[j]).data.len()
                == 0 || pieces[j].offset as u64 != offset by {
                assert(is_piece_of(pieces[j], stream));
            }
            model::lemma_nothing_else_is_kept(known, pieces, offset);
            assert(reassembly::covers(all, offset, p));
        }
        if comes(pieces, p) {
            let i = choose|i: int| 0 <= i < pieces.len() && piece_holds(#[trigger] pieces[i], p);
            assert(is_piece_of(pieces[i], stream));
            assert forall|j: int| i < j < pieces.len() implies (#[trigger] pieces[j]).data.len()
                == 0 || pieces[j].offset as u64 != pieces[i].offset as u64 by {
                assert(is_piece_of(pieces[j], stream));
            }
            model::lemma_every_piece_is_kept(known, pieces, i);
            assert(reassembly::covers(all, pieces[i].offset as u64, p));
        }
    }
    if reassembly::cover_start(all, n) {
        assert forall|p: int| 0 <= p < n implies #[trigger] known_or_comes(known, pieces, p) by {
            assert(reassembly::covered(all, p));
        }
    }
    if forall|p: int| 0 <= p < n ==> #[trigger] known_or_comes(known, pieces, p) {
        assert forall|p: int| 0 <= p < n implies #[trigger] reassembly::covered(all, p) by {
            assert(known_or_comes(known, pieces, p));
        }
    }
}

/// A client is routed by the packet that completes its ClientHello, and waited
/// for until then. What counts is what the client has sent before and every
/// piece that the packet carries: once these hold each byte of the ClientHello,
/// however it was cut, the client goes where its server name is routed to.
pub proof fn lemma_all_pieces_count(
    v: RouterView,
    peer: SocketAddr,
    packet: Seq<u8>,
    opened: OpenedInitial,
    pieces: Seq<CryptoPiece>,
    now: u64,
    known: Map<u64, Seq<u8>>,
    body: Seq<u8>,
    rest: Seq<u8>,
)
    requires
        body.len() <= 0xff_ffff,
        client_hello::hello_message(body).len() + rest.len() <= u64::MAX,
        v.pending.contains_key((peer, opened.dcid)) ==> {
            let p = v.pending[(peer, opened.dcid)];
            &&& known == p.crypto
            &&& p.datagrams.len() < 32
            &&& p.buffered_bytes + packet.len() <= 131072
        },
        !v.pending.contains_key((peer, opened.dcid)) ==> known == Map::<u64, Seq<u8>>::empty()
            && packet.len() <= 131072,
        reassembly::pieces_of(known, client_hello::hello_message(body) + rest),
        forall|i: int|
            0 <= i < pieces.len() ==> is_piece_of(
                #[trigger] pieces[i],
                client_hello::hello_message(body) + rest,
            ),
        forall|i: int, j: int|
            0 <= i < j < pieces.len() ==> (#[trigger] pieces[i]).offset != (
            #[trigger] pieces[j]).offset,
        forall|i: int|
            0 <= i < pieces.len() ==> !known.contains_key((#[trigger] pieces[i]).offset as u64),
    ensures
        ({
            let message = client_hello::hello_message(body);
            let r = model::on_initial(v, peer, packet, opened, pieces, now).1;
            let name = match client_hello::server_name(message) {
                Ok(name) => name,
                Err(_) => None,
            };
            if !(forall|p: int|
                0 <= p < message.len() ==> #[trigger] known_or_comes(known, pieces, p)) {
                r == Ok::<ActionView, HandleError>(ActionView::Wait)
            } else {
                match route::route_of(v.config, peer, name) {
                    Err(e) => r == Err::<ActionView, HandleError>(HandleError::Route(e)),
                    Ok(found) => match found.backend {
                        Backend::Null => r == Ok::<ActionView, HandleError>(
                            ActionView::Drop(DropReason::NullBackend),
                        ),
                        Backend::Udp { addr } => r matches Ok(ActionView::Connect(new))
                            && new.backend == addr && new.connection.sni == name,
                    },
                }
            }
        }),
{
    let message = client_hello::hello_message(body);
    lemma_known_after_pieces(known, pieces, message + rest, message.len());
    lemma_routed_once_hello_is_whole(v, peer, packet, opened, pieces, now, body, rest);
}

/// A new client whose first packet carries its whole ClientHello, in any number
/// of pieces and in any order, is not waited for.
pub proof fn lemma_whole_hello_in_first_packet(
    v: RouterView,
    peer: SocketAddr,
    packet: Seq<u8>,
    opened: OpenedInitial,
    pieces: Seq<CryptoPiece>,
    now: u64,
    body: Seq<u8>,
)
    requires
        body.len() <= 0xff_ffff,
        !v.pending.contains_key((peer, opened.dcid)),
        packet.len() <= 131072,
        forall|i: int|
            0 <= i < pieces.len() ==> is_piece_of(
                #[trigger] pieces[i],
                client_hello::hello_message(body),
            ),
        forall|i: int, j: int|
            0 <= i < j < pieces.len() ==> (#[trigger] pieces[i]).offset != (
            #[trigger] pieces[j]).offset,
        forall|p: int|
            0 <= p < client_hello::hello_message(body).len() ==> #[trigger] comes(pieces, p),
    ensures
        model::on_initial(v, peer, packet, opened, pieces, now).1 != Ok::<ActionView, HandleError>(
            ActionView::Wait,
        ),
{
    let message = client_hello::hello_message(body);
    let known = Map::<u64, Seq<u8>>::empty();
    let rest = Seq::<u8>::empty();
    assert(message + rest =~= message);
    crate::bytes::lemma_to_be_len(body.len(), 3);
    assert forall|p: int| 0 <= p < message.len() implies #[trigger] known_or_comes(
        known,
        pieces,
        p,
    ) by {
        assert(comes(pieces, p));
    }
    lemma_all_pieces_count(v, peer, packet, opened, pieces, now, known, body, rest);
}

/// A connection that is to get a backend has the next number and the client's
/// address, starts now, ends at the latest when its route's limit is over, and
/// goes by exactly the connection IDs that are not empty among those that its
/// client has picked, for itself and first for the server. Its client is no
/// longer pending, and nothing else changes.
pub proof fn lemma_new_connection_is_described(
    v: RouterView,
    peer: SocketAddr,
    packet: Seq<u8>,
    opened: OpenedInitial,
    pieces: Seq<CryptoPiece>,
    now: u64,
)
    requires
        v.wf(),
        v.next_connection_id < usize::MAX,
    ensures
        ({
            let (w, r) = model::on_initial(v, peer, packet, opened, pieces, now);
            let key = (peer, opened.dcid);
            r matches Ok(ActionView::Connect(new)) ==> {
                &&& new.conn_id == v.next_connection_id
                &&& new.connection.client_addr == peer
                &&& new.connection.created == now
                &&& new.connection.last_seen == now
                &&& forall|cid: Seq<u8>| #[trigger]
                    new.connection.cids.contains(cid) <==> cid.len() > 0 && (cid == opened.dcid
                        || cid == opened.scid || (v.pending.contains_key(key)
                        && v.pending[key].client_cids.contains(cid)))
                &&& route::route_of(v.config, peer, new.connection.sni) matches Ok(found) && (
                match found.timeout {
                    None => new.connection.deadline is None,
                    Some(ms) => new.connection.deadline matches Some(end) && end == now + ms
                        * 1_000_000,
                })
                &&& w.next_connection_id == v.next_connection_id + 1
                &&& forall|k: (SocketAddr, Seq<u8>)| #[trigger]
                    w.pending.contains_key(k) <==> v.pending.contains_key(k) && k != key
                &&& forall|k: (SocketAddr, Seq<u8>)| #[trigger]
                    w.pending.contains_key(k) ==> w.pending[k] == v.pending[k]
                &&& w.connections == v.connections
                &&& w.cid_routes == v.cid_routes
                &&& w.client_routes == v.client_routes
                &&& w.config == v.config
                &&& w.idle_timeout == v.idle_timeout
            }
        }),
{
    let key = (peer, opened.dcid);
    if v.pending.contains_key(key) {
        assert(v.pending_wf(key));
    }
    if let Ok(ActionView::Connect(new)) = model::on_initial(
        v,
        peer,
        packet,
        opened,
        pieces,
        now,
    ).1 {
        let seen = model::pending_seen(v, peer, opened.dcid, opened.scid, now);
        let kept = pending::pushed(seen, packet)->Ok_0;
        let crypto = model::with_pieces(kept.crypto, pieces);
        let hello = reassembly::leading_hello(
            reassembly::contiguous_bytes(crypto),
        )->Ok_0->Some_0;
        let found = route::route_of(v.config, peer, model::name_or_none(hello))->Ok_0;
        assert(new.connection.sni == found.sni);
        route::lemma_route_keeps_name(v.config, peer, model::name_or_none(hello));
        if let Some(ms) = found.timeout {
            assert(0 <= now + ms * 1_000_000 <= u128::MAX);
        }
        assert forall|cid: Seq<u8>| #[trigger] new.connection.cids.contains(cid) <==> cid.len() > 0
            && (cid == opened.dcid || cid == opened.scid || (v.pending.contains_key(key)
            && v.pending[key].client_cids.contains(cid))) by {
            if cid.len() == 0 {
                assert(cid =~= Seq::<u8>::empty());
            }
        }
    }
}

/// Of a client that is waited for, the packet is kept behind those kept before,
/// and the client's connection ID beside those known before. The time is noted;
/// the time at which the client was first seen stays. Nothing else changes.
pub proof fn lemma_waiting_client_is_remembered(
    v: RouterView,
    peer: SocketAddr,
    packet: Seq<u8>,
    opened: OpenedInitial,
    pieces: Seq<CryptoPiece>,
    now: u64,
)
    requires
        v.wf(),
    ensures
        ({
            let (w, r) = model::on_initial(v, peer, packet, opened, pieces, now);
            let key = (peer, opened.dcid);
            r == Ok::<ActionView, HandleError>(ActionView::Wait) ==> {
                let p = v.pending[key];
                let q = w.pending[key];
                let known = v.pending.contains_key(key);
                &&& w.pending.contains_key(key)
                &&& q.client_addr == peer
                &&& q.initial_dcid == opened.dcid
                &&& q.datagrams == (if known {
                    p.datagrams.push(packet)
                } else {
                    seq![packet]
                })
                &&& q.last_seen == now
                &&& q.created == (if known {
                    p.created
                } else {
                    now
                })
                &&& forall|cid: Seq<u8>| #[trigger]
                    q.client_cids.contains(cid) <==> (known && p.client_cids.contains(cid)) || (
                    cid.len() > 0 && cid == opened.scid)
                &&& forall|k: (SocketAddr, Seq<u8>)|
                    k != key ==> (#[trigger] w.pending.contains_key(k) <==> v.pending.contains_key(
                        k,
                    ))
                &&& forall|k: (SocketAddr, Seq<u8>)|
                    k != key && #[trigger] w.pending.contains_key(k) ==> w.pending[k]
                        == v.pending[k]
                &&& w == (RouterView { pending: w.pending, ..v })
            }
        }),
{
    let key = (peer, opened.dcid);
    if v.pending.contains_key(key) {
        assert(v.pending_wf(key));
    }
    assert(Seq::<Seq<u8>>::empty().push(packet) =~= seq![packet]);
}

/// A client's datagram that is forwarded counts as a sign of life of its
/// connection, whose client is at the datagram's sender from then on. Nothing
/// else of the connection changes but that the sender's connection ID may be
/// learned, and nothing else of the router.
pub proof fn lemma_client_datagram_is_noted(
    v: RouterView,
    peer: SocketAddr,
    packet: Seq<u8>,
    now: u64,
)
    ensures
        ({
            let (w, r) = model::on_client(v, peer, packet, now);
            r matches Ok(ActionView::Forward { conn_id, .. }) ==> {
                let c = v.connections[conn_id];
                let d = w.connections[conn_id];
                let scid = match packet::long_header(packet) {
                    Ok(Some(header)) => header.scid,
                    _ => Seq::empty(),
                };
                &&& w.connections.contains_key(conn_id)
                &&& d.last_seen == now
                &&& d.client_addr == peer
                &&& d.created == c.created
                &&& d.deadline == c.deadline
                &&& d.sni == c.sni
                &&& forall|cid: Seq<u8>| #[trigger]
                    d.cids.contains(cid) <==> c.cids.contains(cid) || (cid == scid && scid.len()
                        > 0)
                &&& w.client_routes.contains_key(addr::normal(peer))
                &&& w.client_routes[addr::normal(peer)] == conn_id
                &&& forall|a: SocketAddr|
                    a != addr::normal(peer) ==> (#[trigger] w.client_routes.contains_key(a) <==>
                        v.client_routes.contains_key(a))
                &&& forall|a: SocketAddr|
                    a != addr::normal(peer) && #[trigger] w.client_routes.contains_key(a)
                        ==> w.client_routes[a] == v.client_routes[a]
                &&& forall|cid: Seq<u8>|
                    cid != scid || scid.len() == 0 ==> (#[trigger] w.cid_routes.contains_key(cid)
                        <==> v.cid_routes.contains_key(cid))
                &&& forall|cid: Seq<u8>|
                    (cid != scid || scid.len() == 0) && #[trigger] w.cid_routes.contains_key(cid)
                        ==> w.cid_routes[cid] == v.cid_routes[cid]
                &&& w.pending == v.pending
                &&& w.config == v.config
                &&& w.idle_timeout == v.idle_timeout
                &&& w.next_connection_id == v.next_connection_id
            }
        }),
{
}

/// A backend's datagram that is sent on counts as a sign of life of its
/// connection. Nothing else of the connection changes but that the backend's
/// connection ID may be learned, and nothing else of the router; a datagram that
/// is dropped changes nothing.
pub proof fn lemma_backend_datagram_is_noted(
    v: RouterView,
    conn_id: usize,
    packet: Seq<u8>,
    now: u64,
)
    ensures
        ({
            let (w, r) = model::on_backend(v, conn_id, packet, now);
            let c = v.connections[conn_id];
            let d = w.connections[conn_id];
            let scid = match packet::long_header(packet) {
                Ok(Some(header)) => header.scid,
                _ => Seq::empty(),
            };
            &&& r is Drop ==> w == v
            &&& r is Send ==> {
                &&& w.connections.contains_key(conn_id)
                &&& d.last_seen == now
                &&& d.client_addr == c.client_addr
                &&& d.created == c.created
                &&& d.deadline == c.deadline
                &&& d.sni == c.sni
                &&& forall|cid: Seq<u8>| #[trigger]
                    d.cids.contains(cid) <==> c.cids.contains(cid) || (cid == scid && scid.len()
                        > 0)
                &&& forall|id: usize|
                    id != conn_id ==> (#[trigger] w.connections.contains_key(id) <==>
                        v.connections.contains_key(id))
                &&& forall|id: usize|
                    id != conn_id && #[trigger] w.connections.contains_key(id) ==> w.connections[id]
                        == v.connections[id]
                &&& forall|cid: Seq<u8>|
                    cid != scid || scid.len() == 0 ==> (#[trigger] w.cid_routes.contains_key(cid)
                        <==> v.cid_routes.contains_key(cid))
                &&& forall|cid: Seq<u8>|
                    (cid != scid || scid.len() == 0) && #[trigger] w.cid_routes.contains_key(cid)
                        ==> w.cid_routes[cid] == v.cid_routes[cid]
                &&& w.client_routes == v.client_routes
                &&& w.pending == v.pending
                &&& w.config == v.config
                &&& w.idle_timeout == v.idle_timeout
                &&& w.next_connection_id == v.next_connection_id
            }
            &&& !v.connections.contains_key(conn_id) && packet::long_header(packet) is Ok ==> r
                == ReplyView::Drop(DropReason::NoConnection { conn_id })
            &&& packet::long_header(packet) matches Err(e) ==> r == ReplyView::Drop(
                DropReason::BadHeader(e),
            )
        }),
{
}

/// Taking up a connection leaves every other connection and every other route
/// as it was.
pub proof fn lemma_established_leaves_the_rest(v: RouterView, new: NewView)
    ensures
        ({
            let w = model::established(v, new);
            &&& forall|id: usize|
                id != new.conn_id ==> (#[trigger] w.connections.contains_key(id) <==>
                    v.connections.contains_key(id))
            &&& forall|id: usize|
                id != new.conn_id && #[trigger] w.connections.contains_key(id) ==> w.connections[id]
                    == v.connections[id]
            &&& forall|cid: Seq<u8>|
                !new.connection.cids.contains(cid) ==> (#[trigger] w.cid_routes.contains_key(cid)
                    <==> v.cid_routes.contains_key(cid))
            &&& forall|cid: Seq<u8>|
                !new.connection.cids.contains(cid) && #[trigger] w.cid_routes.contains_key(cid)
                    ==> w.cid_routes[cid] == v.cid_routes[cid]
            &&& forall|a: SocketAddr|
                a != addr::normal(new.connection.client_addr) ==> (
                #[trigger] w.client_routes.contains_key(a) <==> v.client_routes.contains_key(a))
            &&& forall|a: SocketAddr|
                a != addr::normal(new.connection.client_addr)
                    && #[trigger] w.client_routes.contains_key(a) ==> w.client_routes[a]
                    == v.client_routes[a]
            &&& w.pending == v.pending
            &&& w.config == v.config
            &&& w.next_connection_id == v.next_connection_id
        }),
{
}

/// The time between two points in time, in nanoseconds; none where the later
/// comes first.
pub open spec fn time_between(then: u64, now: u64) -> int {
    if then <= now {
        now - then
    } else {
        0
    }
}

/// Whether a connection is over: it has been idle for `idle` milliseconds, or
/// its end has come.
pub open spec fn over(c: ConnectionView, idle: u64, now: u64) -> bool {
    ||| time_between(c.last_seen, now) >= idle * 1_000_000
    ||| c.deadline matches Some(end) && now >= end
}

/// Whether a connection that is over goes by a connection ID.
pub open spec fn over_by_cid(v: RouterView, now: u64, cid: Seq<u8>) -> bool {
    exists|id: usize| #[trigger]
        v.connections.contains_key(id) && over(v.connections[id], v.idle_timeout, now)
            && v.connections[id].cids.contains(cid)
}

/// Whether a connection that is over has its client at an address.
pub open spec fn over_by_client(v: RouterView, now: u64, a: SocketAddr) -> bool {
    exists|id: usize| #[trigger]
        v.connections.contains_key(id) && over(v.connections[id], v.idle_timeout, now)
            && addr::normal(v.connections[id].client_addr) == a
}

/// Cleaning up keeps exactly the connections that are not over, and exactly the
/// routes by connection IDs and addresses of which none is that of a connection
/// that is over. What is kept does not change.
pub proof fn lemma_cleaned_exactly(v: RouterView, now: u64)
    ensures
        ({
            let w = model::cleaned(v, now);
            &&& forall|id: usize| #[trigger]
                w.connections.contains_key(id) <==> v.connections.contains_key(id) && !over(
                    v.connections[id],
                    v.idle_timeout,
                    now,
                )
            &&& forall|id: usize| #[trigger]
                w.connections.contains_key(id) ==> w.connections[id] == v.connections[id]
            &&& forall|cid: Seq<u8>| #[trigger]
                w.cid_routes.contains_key(cid) <==> v.cid_routes.contains_key(cid) && !over_by_cid(
                    v,
                    now,
                    cid,
                )
            &&& forall|cid: Seq<u8>| #[trigger]
                w.cid_routes.contains_key(cid) ==> w.cid_routes[cid] == v.cid_routes[cid]
            &&& forall|a: SocketAddr| #[trigger]
                w.client_routes.contains_key(a) <==> v.client_routes.contains_key(a)
                    && !over_by_client(v, now, a)
            &&& forall|a: SocketAddr| #[trigger]
                w.client_routes.contains_key(a) ==> w.client_routes[a] == v.client_routes[a]
            &&& w.config == v.config
            &&& w.idle_timeout == v.idle_timeout
            &&& w.next_connection_id == v.next_connection_id
        }),
{
    let ids = model::expired_ids(v, now);
    assert forall|id: usize| #[trigger] ids.contains(id) <==> v.connections.contains_key(id)
        && over(v.connections[id], v.idle_timeout, now) by {
    }
    assert forall|cid: Seq<u8>| #[trigger] model::cid_of_any(v, ids, cid) == over_by_cid(
        v,
        now,
        cid,
    ) by {
        if over_by_cid(v, now, cid) {
            let id = choose|id: usize| #[trigger]
                v.connections.contains_key(id) && over(v.connections[id], v.idle_timeout, now)
                    && v.connections[id].cids.contains(cid);
            assert(ids.contains(id));
        }
    }
    assert forall|a: SocketAddr| #[trigger] model::client_of_any(v, ids, a) == over_by_client(
        v,
        now,
        a,
    ) by {
        if over_by_client(v, now, a) {
            let id = choose|id: usize| #[trigger]
                v.connections.contains_key(id) && over(v.connections[id], v.idle_timeout, now)
                    && addr::normal(v.connections[id].client_addr) == a;
            assert(ids.contains(id));
        }
    }
}

/// Cleaning up keeps exactly the pending connections that were seen, and first
/// seen, less than both the idle timeout and the handshake timeout ago.
pub proof fn lemma_cleaned_pending_exactly(v: RouterView, now: u64)
    ensures
        ({
            let w = model::cleaned(v, now);
            &&& forall|k: (SocketAddr, Seq<u8>)| #[trigger]
                w.pending.contains_key(k) <==> v.pending.contains_key(k) && ({
                    let p = v.pending[k];
                    &&& time_between(p.last_seen, now) < v.idle_timeout * 1_000_000
                    &&& time_between(p.created, now) < v.idle_timeout * 1_000_000
                    &&& v.config.handshake_timeout matches Some(ms) ==> {
                        &&& time_between(p.last_seen, now) < ms * 1_000_000
                        &&& time_between(p.created, now) < ms * 1_000_000
                    }
                })
            &&& forall|k: (SocketAddr, Seq<u8>)| #[trigger]
                w.pending.contains_key(k) ==> w.pending[k] == v.pending[k]
        }),
{
}

/// A packet that belongs to no connection is dropped, and changes nothing, if it
/// has a short header, is of another version than 1 or no Initial packet, or
/// cannot be opened or read.
pub proof fn lemma_unrouted_packets_are_dropped(
    v: RouterView,
    peer: SocketAddr,
    packet: Seq<u8>,
    long: Option<LongHeader>,
    now: u64,
)
    ensures
        ({
            let (w, r) = model::on_unrouted(v, peer, packet, long, now);
            &&& long is None ==> (w, r) == (
                v,
                Ok::<ActionView, HandleError>(ActionView::Drop(DropReason::UnknownShortHeader)),
            )
            &&& long matches Some(header) ==> {
                &&& header.version != 1 || header.packet_type != 0 ==> (w, r) == (
                    v,
                    Ok::<ActionView, HandleError>(
                        ActionView::Drop(
                            DropReason::NotInitial {
                                version: header.version,
                                packet_type: header.packet_type,
                            },
                        ),
                    ),
                )
                &&& header.version == 1 && header.packet_type == 0 ==> match initial::decrypted(
                    packet,
                ) {
                    Err(e) => (w, r) == (
                        v,
                        Ok::<ActionView, HandleError>(
                            ActionView::Drop(DropReason::Undecryptable(e)),
                        ),
                    ),
                    Ok(opened) => match frames::crypto_frames(opened.payload, 0) {
                        Err(e) => (w, r) == (
                            v,
                            Ok::<ActionView, HandleError>(
                                ActionView::Drop(DropReason::BadFrames(e)),
                            ),
                        ),
                        Ok(pieces) => (w, r) == model::on_initial(
                            v,
                            peer,
                            packet,
                            opened,
                            pieces,
                            now,
                        ),
                    },
                }
            }
        }),
{
}

/// A packet with a long header whose connection ID is neither empty nor known
/// belongs to no connection, even if its client has one.
pub proof fn lemma_unknown_cid_is_unrouted(
    v: RouterView,
    peer: SocketAddr,
    packet: Seq<u8>,
    now: u64,
    header: LongHeader,
)
    requires
        packet::long_header(packet) == Ok::<Option<LongHeader>, QuicError>(Some(header)),
        header.dcid.len() > 0,
        !v.cid_routes.contains_key(header.dcid),
    ensures
        model::on_client(v, peer, packet, now) == model::on_unrouted(
            v,
            peer,
            packet,
            Some(header),
            now,
        ),
{
}

/// A packet with an empty connection ID, or with a short header that starts with
/// no known one, is forwarded by its client's address, if that is known.
pub proof fn lemma_packet_without_cid_goes_by_address(
    v: RouterView,
    peer: SocketAddr,
    packet: Seq<u8>,
    now: u64,
)
    requires
        v.wf(),
        v.client_routes.contains_key(addr::normal(peer)),
        (packet::long_header(packet) matches Ok(Some(header)) && header.dcid.len() == 0) || (
        packet.len() > 0 && packet[0] < 0x80 && forall|n: int|
            1 <= n < packet.len() ==> !v.cid_routes.contains_key(
                #[trigger] packet.subrange(1, 1 + n),
            )),
    ensures
        model::on_client(v, peer, packet, now).1 == Ok::<ActionView, HandleError>(
            ActionView::Forward { conn_id: v.client_routes[addr::normal(peer)], packet },
        ),
{
    assert(v.client_route_wf(addr::normal(peer)));
    if let Ok(Some(header)) = packet::long_header(packet) {
        assert(header.dcid =~= Seq::<u8>::empty());
        if v.cid_routes.contains_key(header.dcid) {
            assert(v.cid_route_wf(header.dcid));
            assert(v.connection_wf(v.cid_routes[header.dcid]));
        }
    } else {
        let text = packet.skip(1);
        assert forall|n: nat| 1 <= n <= text.len() implies !v.cid_routes.contains_key(
            #[trigger] text.take(n as int),
        ) by {
            assert(text.take(n as int) =~= packet.subrange(1, 1 + n as int));
        }
        lemma_no_route(v.cid_routes, text, text.len());
    }
}

proof fn lemma_no_route(routes: Map<Seq<u8>, usize>, text: Seq<u8>, n: nat)
    requires
        n <= text.len(),
        forall|m: nat| 1 <= m <= n ==> !routes.contains_key(#[trigger] text.take(m as int)),
    ensures
        model::longest_route(routes, text, n) is None,
    decreases n,
{
    if n > 0 {
        assert(!routes.contains_key(text.take(n as int)));
        lemma_no_route(routes, text, (n - 1) as nat);
    }
}

/// A packet with a short header is forwarded to the connection with the longest
/// known connection ID that it starts with, if it comes from the connection's
/// client, and dropped otherwise.
pub proof fn lemma_short_header_is_forwarded(
    v: RouterView,
    peer: SocketAddr,
    first: u8,
    cid: Seq<u8>,
    rest: Seq<u8>,
    now: u64,
)
    requires
        v.wf(),
        first < 0x80,
        cid.len() > 0,
        v.cid_routes.contains_key(cid),
        forall|other: Seq<u8>| #[trigger]
            v.cid_routes.contains_key(other) && other.len() > cid.len() ==> !(other.len() <= (cid
                + rest).len() && (cid + rest).take(other.len() as int) == other),
    ensures
        ({
            let packet = seq![first] + cid + rest;
            let conn_id = v.cid_routes[cid];
            model::on_client(v, peer, packet, now).1 == Ok::<ActionView, HandleError>(
                if addr::normal(peer) == addr::normal(v.connections[conn_id].client_addr) {
                    ActionView::Forward { conn_id, packet }
                } else {
                    ActionView::Drop(DropReason::UnexpectedPeer { conn_id })
                },
            )
        }),
{
    lemma_short_header_goes_by_longest_cid(v.cid_routes, first, cid, rest);
    assert(v.cid_route_wf(cid));
    assert((seq![first] + cid + rest)[0] == first);
}

/// A client whose server name is routed nowhere is no longer pending, and nothing
/// else changes.
pub proof fn lemma_client_routed_nowhere_is_forgotten(
    v: RouterView,
    peer: SocketAddr,
    packet: Seq<u8>,
    opened: OpenedInitial,
    pieces: Seq<CryptoPiece>,
    now: u64,
)
    ensures
        ({
            let (w, r) = model::on_initial(v, peer, packet, opened, pieces, now);
            r matches Ok(ActionView::Drop(reason)) ==> {
                &&& reason == DropReason::NullBackend
                &&& w == (RouterView { pending: v.pending.remove((peer, opened.dcid)), ..v })
            }
        }),
{
}

/// A client whose packet cannot be handled stays pending. If no more could be
/// kept, all that was kept stays and only the time and the client's connection ID
/// are noted; otherwise the packet is kept behind the others. Nothing else
/// changes.
pub proof fn lemma_client_with_error_stays_pending(
    v: RouterView,
    peer: SocketAddr,
    packet: Seq<u8>,
    opened: OpenedInitial,
    pieces: Seq<CryptoPiece>,
    now: u64,
)
    requires
        v.wf(),
    ensures
        ({
            let (w, r) = model::on_initial(v, peer, packet, opened, pieces, now);
            let key = (peer, opened.dcid);
            r matches Err(e) ==> {
                let known = v.pending.contains_key(key);
                let p = v.pending[key];
                let q = w.pending[key];
                let kept = if known {
                    p.datagrams
                } else {
                    Seq::empty()
                };
                &&& w == (RouterView { pending: v.pending.insert(key, q), ..v })
                &&& q.last_seen == now
                &&& q.created == (if known {
                    p.created
                } else {
                    now
                })
                &&& forall|cid: Seq<u8>| #[trigger]
                    q.client_cids.contains(cid) <==> (known && p.client_cids.contains(cid)) || (
                    cid.len() > 0 && cid == opened.scid)
                &&& e is Pending ==> {
                    &&& q.datagrams == kept
                    &&& known ==> q.crypto == p.crypto
                    &&& !known ==> q.crypto == Map::<u64, Seq<u8>>::empty()
                }
                &&& !(e is Pending) ==> q.datagrams == kept.push(packet)
            }
        }),
{
    let key = (peer, opened.dcid);
    if v.pending.contains_key(key) {
        assert(v.pending_wf(key));
    }
}

/// A packet of a client is refused for what is kept of the client exactly if 32
/// datagrams are kept or, with it, more than 131072 bytes would be.
pub proof fn lemma_too_much_is_refused(
    v: RouterView,
    peer: SocketAddr,
    packet: Seq<u8>,
    opened: OpenedInitial,
    pieces: Seq<CryptoPiece>,
    now: u64,
)
    requires
        v.wf(),
    ensures
        ({
            let r = model::on_initial(v, peer, packet, opened, pieces, now).1;
            let key = (peer, opened.dcid);
            let kept = if v.pending.contains_key(key) {
                v.pending[key].datagrams
            } else {
                Seq::empty()
            };
            (r matches Err(HandleError::Pending(_))) <==> kept.len() >= 32 || pending::total_len(
                kept,
            ) + packet.len() > 131072
        }),
{
    let key = (peer, opened.dcid);
    if v.pending.contains_key(key) {
        assert(v.pending_wf(key));
    }
}

/// A client whose handshake stream starts with another message than a ClientHello
/// is refused once the first four bytes of the stream are there.
pub proof fn lemma_other_handshake_is_refused(
    v: RouterView,
    peer: SocketAddr,
    packet: Seq<u8>,
    opened: OpenedInitial,
    pieces: Seq<CryptoPiece>,
    now: u64,
    stream: Seq<u8>,
)
    requires
        !v.pending.contains_key((peer, opened.dcid)),
        packet.len() <= 131072,
        4 <= stream.len() <= u64::MAX,
        stream[0] != 1,
        forall|i: int| 0 <= i < pieces.len() ==> is_piece_of(#[trigger] pieces[i], stream),
        forall|i: int, j: int|
            0 <= i < j < pieces.len() ==> (#[trigger] pieces[i]).offset != (
            #[trigger] pieces[j]).offset,
        forall|p: int| 0 <= p < 4 ==> #[trigger] comes(pieces, p),
    ensures
        model::on_initial(v, peer, packet, opened, pieces, now).1 == Err::<ActionView, HandleError>(
            HandleError::Hello(QuicError::NotClientHello(stream[0])),
        ),
{
    let known = Map::<u64, Seq<u8>>::empty();
    assert forall|p: int| 0 <= p < 4 implies #[trigger] known_or_comes(known, pieces, p) by {
        assert(comes(pieces, p));
    }
    lemma_known_after_pieces(known, pieces, stream, 4);
    let all = model::with_pieces(known, pieces);
    reassembly::lemma_pieces_give_stream(all, stream, 4);
    let out = reassembly::contiguous_bytes(all);
    assert(out[0] == stream[0]);
}

/// A packet whose header cannot be read is dropped, as is one that belongs to a
/// connection of another client; neither changes anything.
pub proof fn lemma_unreadable_and_foreign_packets_are_dropped(
    v: RouterView,
    peer: SocketAddr,
    packet: Seq<u8>,
    now: u64,
)
    requires
        v.wf(),
    ensures
        packet::long_header(packet) matches Err(e) ==> model::on_client(v, peer, packet, now) == (
            v,
            Ok::<ActionView, HandleError>(ActionView::Drop(DropReason::BadHeader(e))),
        ),
        packet::long_header(packet) matches Ok(Some(header)) ==> (v.cid_routes.contains_key(
            header.dcid,
        ) && addr::normal(peer) != addr::normal(
            v.connections[v.cid_routes[header.dcid]].client_addr,
        ) ==> model::on_client(v, peer, packet, now) == (
            v,
            Ok::<ActionView, HandleError>(
                ActionView::Drop(
                    DropReason::UnexpectedPeer { conn_id: v.cid_routes[header.dcid] },
                ),
            ),
        )),
{
    if let Ok(Some(header)) = packet::long_header(packet) {
        if v.cid_routes.contains_key(header.dcid) {
            assert(v.cid_route_wf(header.dcid));
        }
    }
}

/// A connection ID that a connection is already known to have is not learned
/// anew: no route by a connection ID changes.
pub proof fn lemma_known_cid_is_not_learned_anew(
    v: RouterView,
    peer: SocketAddr,
    packet: Seq<u8>,
    conn_id: usize,
    now: u64,
    header: LongHeader,
)
    requires
        packet::long_header(packet) == Ok::<Option<LongHeader>, QuicError>(Some(header)),
    ensures
        v.connections.contains_key(conn_id) && v.connections[conn_id].cids.contains(header.scid)
            ==> model::on_backend(v, conn_id, packet, now).0.cid_routes == v.cid_routes,
        model::on_client(v, peer, packet, now).1 matches Ok(ActionView::Forward { conn_id: id, .. })
            ==> (v.connections[id].cids.contains(header.scid) ==> model::on_client(
            v,
            peer,
            packet,
            now,
        ).0.cid_routes == v.cid_routes),
{
}

/// A packet is routed by its start only if it has a short header, and only to a
/// connection whose connection ID it starts with; it is not routed only if it
/// starts with no known connection ID.
pub proof fn lemma_short_header_route_is_known(routes: Map<Seq<u8>, usize>, packet: Seq<u8>)
    ensures
        packet.len() == 0 ==> model::short_header_route(routes, packet) is None,
        packet.len() > 0 && packet[0] >= 0x80 ==> model::short_header_route(routes, packet) is None,
        model::short_header_route(routes, packet) matches Some(id) ==> exists|end: int|
            1 < end <= packet.len() && routes.contains_key(#[trigger] packet.subrange(1, end))
                && routes[packet.subrange(1, end)] == id && forall|more: int|
                end < more <= packet.len() ==> !routes.contains_key(
                    #[trigger] packet.subrange(1, more),
                ),
        packet.len() > 0 && packet[0] < 0x80 && model::short_header_route(routes, packet) is None
            ==> forall|end: int|
            1 < end <= packet.len() ==> !routes.contains_key(#[trigger] packet.subrange(1, end)),
{
    if packet.len() > 0 && packet[0] < 0x80 {
        lemma_found_at_start(routes, packet.skip(1), (packet.len() - 1) as nat);
        assert forall|end: int| 1 < end <= packet.len() implies #[trigger] packet.subrange(1, end)
            == packet.skip(1).take(end - 1) by {
            assert(packet.subrange(1, end) =~= packet.skip(1).take(end - 1));
        }
        if let Some(id) = model::short_header_route(routes, packet) {
            let m = choose|m: int|
                0 < m <= packet.len() - 1 && found_at(routes, packet.skip(1), packet.len() - 1, m)
                    && #[trigger] routes[packet.skip(1).take(m)] == id;
            assert(packet.subrange(1, m + 1) == packet.skip(1).take(m));
            assert forall|more: int|
                m + 1 < more <= packet.len() implies !routes.contains_key(
                #[trigger] packet.subrange(1, more),
            ) by {
                assert(packet.subrange(1, more) == packet.skip(1).take(more - 1));
            }
        } else {
            assert forall|end: int|
                1 < end <= packet.len() implies !routes.contains_key(
                #[trigger] packet.subrange(1, end),
            ) by {
                assert(packet.subrange(1, end) == packet.skip(1).take(end - 1));
            }
        }
    }
}

spec fn found_at(routes: Map<Seq<u8>, usize>, text: Seq<u8>, n: int, m: int) -> bool {
    routes.contains_key(text.take(m)) && forall|more: int|
        m < more <= n ==> !routes.contains_key(#[trigger] text.take(more))
}

proof fn lemma_found_at_start(routes: Map<Seq<u8>, usize>, text: Seq<u8>, n: nat)
    requires
        n <= text.len(),
    ensures
        model::longest_route(routes, text, n) matches Some(id) ==> exists|m: int|
            0 < m <= n && found_at(routes, text, n as int, m) && #[trigger] routes[text.take(m)]
                == id,
        model::longest_route(routes, text, n) is None ==> forall|m: int|
            0 < m <= n ==> !routes.contains_key(#[trigger] text.take(m)),
    decreases n,
{
    if n > 0 {
        if routes.contains_key(text.take(n as int)) {
            assert(found_at(routes, text, n as int, n as int));
            assert(routes[text.take(n as int)] == routes[text.take(n as int)]);
        } else {
            lemma_found_at_start(routes, text, (n - 1) as nat);
            if let Some(id) = model::longest_route(routes, text, n) {
                let m = choose|m: int|
                    0 < m <= n - 1 && found_at(routes, text, n - 1, m) && #[trigger] routes[
                    text.take(m)] == id;
                assert(found_at(routes, text, n as int, m));
            }
        }
    }
}

} // verus!
