//! Established connections.

use std::collections::HashMap;
use vstd::prelude::*;

use crate::addr::SocketAddr;
use crate::quic::model::ConnectionView;
use crate::quic::route;
use crate::table::ByteSet;

verus! {

/// A connection that has a backend. Times are in nanoseconds.
#[derive(Debug)]
pub struct Connection {
    pub client_addr: SocketAddr,
    /// The connection IDs that were seen to belong to it.
    pub cids: ByteSet,
    pub created: u64,
    pub last_seen: u64,
    /// When it ends at the latest.
    pub deadline: Option<u128>,
    pub sni: Option<String>,
}

impl View for Connection {
    type V = ConnectionView;

    open spec fn view(&self) -> ConnectionView {
        ConnectionView {
            client_addr: self.client_addr,
            cids: self.cids@,
            created: self.created,
            last_seen: self.last_seen,
            deadline: self.deadline,
            sni: route::text_view(self.sni),
        }
    }
}

/// Connections by their numbers.
#[derive(Debug)]
pub struct Connections {
    by_id: HashMap<usize, Connection>,
}

impl View for Connections {
    type V = Map<usize, ConnectionView>;

    closed spec fn view(&self) -> Map<usize, ConnectionView> {
        self.by_id@.map_values(|conn: Connection| conn@)
    }
}

impl Connections {
    /// No connections.
    pub fn new() -> (r: Connections)
        ensures
            r@ == Map::<usize, ConnectionView>::empty(),
    {
        let r = Connections { by_id: HashMap::new() };
        assert(r@ =~= Map::<usize, ConnectionView>::empty());
        r
    }

    /// A connection by its number.
    pub fn get(&self, conn_id: usize) -> (r: Option<&Connection>)
        ensures
            match r {
                Some(conn) => self@.contains_key(conn_id) && conn@ == self@[conn_id],
                None => !self@.contains_key(conn_id),
            },
    {
        broadcast use vstd::std_specs::hash::group_hash_axioms;

        self.by_id.get(&conn_id)
    }

    /// Takes a connection out.
    pub fn remove(&mut self, conn_id: usize) -> (r: Option<Connection>)
        ensures
            final(self)@ == old(self)@.remove(conn_id),
            match r {
                Some(conn) => old(self)@.contains_key(conn_id) && conn@ == old(self)@[conn_id],
                None => !old(self)@.contains_key(conn_id),
            },
    {
        broadcast use vstd::std_specs::hash::group_hash_axioms;

        let taken = self.by_id.remove(&conn_id);
        assert(self@ =~= old(self)@.remove(conn_id));
        taken
    }

    /// Sets the connection with a number.
    pub fn insert(&mut self, conn_id: usize, conn: Connection)
        ensures
            final(self)@ == old(self)@.insert(conn_id, conn@),
    {
        broadcast use vstd::std_specs::hash::group_hash_axioms;

        self.by_id.insert(conn_id, conn);
        assert(self@ =~= old(self)@.insert(conn_id, conn@));
    }

    /// The numbers of the connections, in any order.
    pub fn ids(&self) -> (r: Vec<usize>)
        ensures
            r@.no_duplicates(),
            r@.to_set() == self@.dom(),
    {
        broadcast use vstd::std_specs::hash::group_hash_axioms;

        let mut ids: Vec<usize> = Vec::new();
        let keys = self.by_id.keys();
        let ghost all = vstd::std_specs::iter::IteratorSpec::remaining(&keys).unref();
        assert(all.to_set() == self.by_id@.dom());
        for id in iter: keys
            invariant
                iter.seq().unref() == all,
                ids@ == all.take(iter.index() as int),
        {
            ids.push(*id);
        }
        assert(ids@ =~= all);
        assert(self@.dom() =~= self.by_id@.dom());
        ids
    }
}

} // verus!
