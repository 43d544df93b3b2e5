//! Connections whose ClientHello is not yet complete.

use vstd::prelude::*;

use crate::addr::SocketAddr;
use crate::quic::reassembly::CryptoReassembly;
use crate::table::ByteSet;

verus! {

/// How many datagrams of a connection are kept until it is routed.
pub const MAX_PENDING_DATAGRAMS: usize = 32;

/// How many bytes of datagrams of a connection are kept until it is routed.
pub const MAX_PENDING_BYTES: usize = 131072;

/// Why a datagram is not kept.
#[derive(Clone, Copy, Debug, PartialEq, Eq, Structural)]
pub enum PendingError {
    /// Too many are kept already.
    TooManyDatagrams,
    /// The number of bytes does not fit the machine.
    ByteCountOverflow,
    /// With it, too many bytes would be kept.
    TooManyBytes,
}

/// A connection whose ClientHello is not yet complete.
#[derive(Debug)]
pub struct PendingConnection {
    pub client_addr: SocketAddr,
    /// The connection ID that the client first picked for the server.
    pub initial_dcid: Vec<u8>,
    /// The connection IDs that the client picked for itself.
    pub client_cids: ByteSet,
    pub datagrams: Vec<Vec<u8>>,
    pub buffered_bytes: usize,
    pub crypto: CryptoReassembly,
    /// In nanoseconds.
    pub created: u64,
    /// In nanoseconds.
    pub last_seen: u64,
}

/// The contents of a [`PendingConnection`].
#[verifier::ext_equal]
pub struct PendingView {
    pub client_addr: SocketAddr,
    pub initial_dcid: Seq<u8>,
    pub client_cids: Set<Seq<u8>>,
    pub datagrams: Seq<Seq<u8>>,
    pub buffered_bytes: usize,
    pub crypto: Map<u64, Seq<u8>>,
    pub created: u64,
    pub last_seen: u64,
}

/// The contents of datagrams.
pub open spec fn datagrams_view(datagrams: Seq<Vec<u8>>) -> Seq<Seq<u8>> {
    datagrams.map_values(|d: Vec<u8>| d@)
}

impl View for PendingConnection {
    type V = PendingView;

    open spec fn view(&self) -> PendingView {
        PendingView {
            client_addr: self.client_addr,
            initial_dcid: self.initial_dcid@,
            client_cids: self.client_cids@,
            datagrams: datagrams_view(self.datagrams@),
            buffered_bytes: self.buffered_bytes,
            crypto: self.crypto@,
            created: self.created,
            last_seen: self.last_seen,
        }
    }
}

/// How many bytes datagrams have together.
pub open spec fn total_len(datagrams: Seq<Seq<u8>>) -> nat
    decreases datagrams.len(),
{
    if datagrams.len() == 0 {
        0
    } else {
        total_len(datagrams.drop_last()) + datagrams.last().len()
    }
}

impl PendingView {
    /// Whether no more is kept than may be, and the bytes are counted right.
    pub open spec fn wf(self) -> bool {
        &&& self.datagrams.len() <= MAX_PENDING_DATAGRAMS
        &&& self.buffered_bytes == total_len(self.datagrams)
        &&& self.buffered_bytes <= MAX_PENDING_BYTES
    }
}

/// What keeping one more datagram gives.
pub open spec fn pushed(p: PendingView, datagram: Seq<u8>) -> Result<PendingView, PendingError> {
    let total = p.buffered_bytes + datagram.len();
    if p.datagrams.len() >= MAX_PENDING_DATAGRAMS {
        Err(PendingError::TooManyDatagrams)
    } else if total > usize::MAX {
        Err(PendingError::ByteCountOverflow)
    } else if total > MAX_PENDING_BYTES {
        Err(PendingError::TooManyBytes)
    } else {
        Ok(
            PendingView {
                datagrams: p.datagrams.push(datagram),
                buffered_bytes: total as usize,
                ..p
            },
        )
    }
}

/// A connection of which nothing is known yet.
pub open spec fn fresh(client_addr: SocketAddr, initial_dcid: Seq<u8>, now: u64) -> PendingView {
    PendingView {
        client_addr,
        initial_dcid,
        client_cids: Set::empty(),
        datagrams: Seq::empty(),
        buffered_bytes: 0,
        crypto: Map::empty(),
        created: now,
        last_seen: now,
    }
}

impl PendingConnection {
    /// A connection of which nothing is known yet.
    pub fn new(client_addr: SocketAddr, initial_dcid: Vec<u8>, now: u64) -> (r: PendingConnection)
        ensures
            r@.wf(),
            r@ == fresh(client_addr, initial_dcid@, now),
    {
        let r = PendingConnection {
            client_addr,
            initial_dcid,
            client_cids: ByteSet::new(),
            datagrams: Vec::new(),
            buffered_bytes: 0,
            crypto: CryptoReassembly::default(),
            created: now,
            last_seen: now,
        };
        assert(r@ =~= fresh(client_addr, initial_dcid@, now));
        r
    }

    /// Keeps one more datagram. A datagram that is refused changes nothing.
    pub fn push_datagram(&mut self, datagram: Vec<u8>) -> (r: Result<(), PendingError>)
        requires
            old(self)@.wf(),
        ensures
            final(self)@.wf(),
            match r {
                Ok(_) => pushed(old(self)@, datagram@) == Ok::<PendingView, PendingError>(
                    final(self)@,
                ),
                Err(e) => pushed(old(self)@, datagram@) == Err::<PendingView, PendingError>(e)
                    && *final(self) == *old(self),
            },
    {
        if self.datagrams.len() >= MAX_PENDING_DATAGRAMS {
            return Err(PendingError::TooManyDatagrams);
        }
        let total: usize = match self.buffered_bytes.checked_add(datagram.len()) {
            Some(total) => total,
            None => return Err(PendingError::ByteCountOverflow),
        };
        if total > MAX_PENDING_BYTES {
            return Err(PendingError::TooManyBytes);
        }
        let ghost before = self@.datagrams;
        self.buffered_bytes = total;
        self.datagrams.push(datagram);
        proof {
            assert(self@.datagrams =~= before.push(datagram@));
            assert(before.push(datagram@).drop_last() =~= before);
        }
        Ok(())
    }
}

/// A datagram that is kept is the last of those kept, and nothing else changes.
pub proof fn lemma_kept_in_order(p: PendingView, datagram: Seq<u8>)
    requires
        p.wf(),
    ensures
        pushed(p, datagram) matches Ok(q) ==> {
            &&& q.wf()
            &&& q.datagrams == p.datagrams.push(datagram)
            &&& total_len(q.datagrams) == total_len(p.datagrams) + datagram.len()
        },
{
    assert(p.datagrams.push(datagram).drop_last() =~= p.datagrams);
}

/// A datagram is kept exactly if fewer than 32 are kept and, with it, no more
/// than 131072 bytes; what else is known of the connection does not change. Of
/// the two reasons against it, the number of datagrams comes first.
pub proof fn lemma_kept_within_limits(p: PendingView, datagram: Seq<u8>)
    requires
        p.wf(),
    ensures
        p.datagrams.len() >= 32 ==> pushed(p, datagram) == Err::<PendingView, PendingError>(
            PendingError::TooManyDatagrams,
        ),
        p.datagrams.len() < 32 && total_len(p.datagrams) + datagram.len() > 131072 ==> (
        pushed(p, datagram) matches Err(e) && e != PendingError::TooManyDatagrams),
        p.datagrams.len() < 32 && total_len(p.datagrams) + datagram.len() <= 131072 ==> (
        pushed(p, datagram) matches Ok(q) && q.datagrams == p.datagrams.push(datagram)
            && q.buffered_bytes == total_len(p.datagrams) + datagram.len() && q.crypto
            == p.crypto && q.client_addr
            == p.client_addr && q.initial_dcid == p.initial_dcid && q.client_cids == p.client_cids
            && q.created == p.created && q.last_seen == p.last_seen),
{
}

/// Of a connection that is new, only its client's address, the connection ID
/// that it picked and the time are known.
pub proof fn lemma_fresh_is_empty(client_addr: SocketAddr, initial_dcid: Seq<u8>, now: u64)
    ensures
        ({
            let p = fresh(client_addr, initial_dcid, now);
            &&& p.wf()
            &&& p.client_addr == client_addr
            &&& p.initial_dcid == initial_dcid
            &&& p.created == now
            &&& p.last_seen == now
            &&& p.datagrams.len() == 0
            &&& forall|cid: Seq<u8>| !(#[trigger] p.client_cids.contains(cid))
            &&& forall|offset: u64| !(#[trigger] p.crypto.contains_key(offset))
        }),
{
}

} // verus!
