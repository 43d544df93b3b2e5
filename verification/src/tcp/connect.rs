//! Reaching a backend, or its sorry server.

use vstd::prelude::*;

use crate::config::TlsFiles;
use crate::tcp::config;
use crate::tcp::config::Backend;

verus! {

/// What to try first for a backend.
pub enum Attempt<'a> {
    /// Nothing: the connection is closed.
    Close,
    /// Connect to the Unix socket at this path.
    ConnectUnix(&'a String),
    /// Connect to this address.
    ConnectTcp(&'a String),
}

/// What to do once a backend was tried.
pub enum Next<'a> {
    /// Nothing more.
    Done,
    /// Hand the client's socket over, after a TLS handshake if files are given
    /// for one.
    HandOff { frontend_tls: &'a Option<TlsFiles> },
    /// Copy between the client and the backend, after a TLS handshake if files
    /// are given for one.
    Proxy { proxy_header: bool, frontend_tls: &'a Option<TlsFiles> },
    /// Try the sorry server.
    TrySorry(&'a Backend),
    /// Give up.
    Fail,
}

/// What to try first for a backend.
pub open spec fn attempt_for(backend: &Backend) -> Attempt {
    match backend {
        Backend::Null => Attempt::Close,
        Backend::Pass { path, .. } => Attempt::ConnectUnix(path),
        Backend::Proxy { addr, .. } => Attempt::ConnectTcp(addr),
    }
}

/// What to do when a backend cannot be reached.
pub open spec fn fallback(sorry: &Option<Box<Backend>>) -> Next {
    match sorry {
        None => Next::Fail,
        Some(s) => Next::TrySorry(&**s),
    }
}

/// What to do once a backend was tried, by whether it was reached.
pub open spec fn next_for(backend: &Backend, reached: bool) -> Next {
    match backend {
        Backend::Null => Next::Done,
        Backend::Pass { frontend_tls, sorry, .. } => if reached {
            Next::HandOff { frontend_tls }
        } else {
            fallback(sorry)
        },
        Backend::Proxy { proxy_header, frontend_tls, sorry, .. } => if reached {
            Next::Proxy { proxy_header: *proxy_header, frontend_tls }
        } else {
            fallback(sorry)
        },
    }
}

/// Says what to try first for a backend.
pub fn attempt(backend: &Backend) -> (r: Attempt)
    ensures
        r == attempt_for(backend),
{
    match backend {
        Backend::Null => Attempt::Close,
        Backend::Pass { path, .. } => Attempt::ConnectUnix(path),
        Backend::Proxy { addr, .. } => Attempt::ConnectTcp(addr),
    }
}

fn try_sorry(sorry: &Option<Box<Backend>>) -> (r: Next)
    ensures
        r == fallback(sorry),
{
    match sorry {
        None => Next::Fail,
        Some(s) => Next::TrySorry(&**s),
    }
}

/// Says what to do once a backend was tried. The sorry server is for a backend
/// that could not be reached, not for one that failed later.
pub fn after_attempt(backend: &Backend, reached: bool) -> (r: Next)
    ensures
        r == next_for(backend, reached),
{
    match backend {
        Backend::Null => Next::Done,
        Backend::Pass { frontend_tls, sorry, .. } => if reached {
            Next::HandOff { frontend_tls }
        } else {
            try_sorry(sorry)
        },
        Backend::Proxy { proxy_header, frontend_tls, sorry, .. } => if reached {
            Next::Proxy { proxy_header: *proxy_header, frontend_tls }
        } else {
            try_sorry(sorry)
        },
    }
}

/// What to do after one of a backend's addresses was tried.
#[derive(Clone, Copy, Debug, PartialEq, Eq, Structural)]
pub enum AddressNext {
    /// Use the connection.
    Use,
    /// Try the address at this place.
    Try(usize),
    /// No address is left.
    GiveUp,
}

/// The address to start with, of `total`.
pub fn first_address(total: usize) -> (r: AddressNext)
    ensures
        r == (if total > 0 {
            AddressNext::Try(0)
        } else {
            AddressNext::GiveUp
        }),
{
    if total > 0 {
        AddressNext::Try(0)
    } else {
        AddressNext::GiveUp
    }
}

/// Says what to do after the address at `i`, of `total`, was tried: addresses
/// are tried in order until one is connected to.
pub fn after_address(i: usize, total: usize, connected: bool) -> (r: AddressNext)
    requires
        i < total,
    ensures
        r == (if connected {
            AddressNext::Use
        } else if i + 1 < total {
            AddressNext::Try((i + 1) as usize)
        } else {
            AddressNext::GiveUp
        }),
{
    if connected {
        AddressNext::Use
    } else if i + 1 < total {
        AddressNext::Try(i + 1)
    } else {
        AddressNext::GiveUp
    }
}

/// Why a socket was not handed over.
#[derive(Clone, Copy, Debug, PartialEq, Eq, Structural)]
pub enum HandOffError {
    /// Only a part of the bytes that go with it was sent.
    Partial { expected: usize, sent: usize },
}

/// Checks that all bytes that go with a socket were sent.
pub fn check_hand_off(expected: usize, sent: usize) -> (r: Result<(), HandOffError>)
    ensures
        r == (if sent == expected {
            Ok::<(), HandOffError>(())
        } else {
            Err(HandOffError::Partial { expected, sent })
        }),
{
    if sent == expected {
        Ok(())
    } else {
        Err(HandOffError::Partial { expected, sent })
    }
}

/// The backend that a connection ends up with, by which backends can be
/// reached; `None` where it has to give up.
pub open spec fn ends_with(backend: Backend, reachable: spec_fn(Backend) -> bool) -> Option<Backend>
    decreases backend,
{
    match backend {
        Backend::Null => Some(backend),
        Backend::Pass { sorry, .. } => if reachable(backend) {
            Some(backend)
        } else {
            match sorry {
                None => None,
                Some(s) => ends_with(*s, reachable),
            }
        },
        Backend::Proxy { sorry, .. } => if reachable(backend) {
            Some(backend)
        } else {
            match sorry {
                None => None,
                Some(s) => ends_with(*s, reachable),
            }
        },
    }
}

/// The sorry server is tried exactly when the backend cannot be reached, and
/// the steps that `after_attempt` gives lead to the first backend that can.
pub proof fn lemma_steps_lead_to_reachable_backend(
    backend: Backend,
    reachable: spec_fn(Backend) -> bool,
)
    ensures
        match next_for(&backend, reachable(backend)) {
            Next::Done => ends_with(backend, reachable) == Some(backend) && backend is Null,
            Next::HandOff { .. } => ends_with(backend, reachable) == Some(backend) && reachable(
                backend,
            ),
            Next::Proxy { .. } => ends_with(backend, reachable) == Some(backend) && reachable(
                backend,
            ),
            Next::TrySorry(s) => ends_with(backend, reachable) == ends_with(*s, reachable)
                && !reachable(backend) && config::sorry_of(backend@) == Some(Box::new(s@)),
            Next::Fail => ends_with(backend, reachable) is None && !reachable(backend),
        },
{
}

/// For a backend whose sorry server has none of its own, as in every loaded
/// configuration, at most two backends are tried.
pub proof fn lemma_at_most_two_attempts(backend: Backend)
    requires
        config::sorry_of(backend@) matches Some(s) ==> config::sorry_of(*s) is None,
    ensures
        next_for(&backend, false) matches Next::TrySorry(s) ==> !(next_for(s, false) is TrySorry),
{
    reveal_with_fuel(config::backend_view, 3);
}

/// What is tried for a backend is what the backend says: nothing, its path or
/// its address.
pub proof fn lemma_attempt_is_for_the_backend(backend: Backend)
    ensures
        backend is Null ==> attempt_for(&backend) is Close,
        backend matches Backend::Pass { path, .. } ==> (attempt_for(
            &backend,
        ) matches Attempt::ConnectUnix(to) && *to == path),
        backend matches Backend::Proxy { addr, .. } ==> (attempt_for(
            &backend,
        ) matches Attempt::ConnectTcp(to) && *to == addr),
{
}

/// A backend that was reached is used as it says: with its TLS files, and with a
/// PROXY line if it asks for one. One that was not reached is replaced by its
/// sorry server, if it has one, and only then. Where there is no backend, nothing
/// is left to do.
pub proof fn lemma_reached_backend_is_used(backend: Backend, reached: bool)
    ensures
        backend is Null ==> next_for(&backend, reached) is Done,
        backend matches Backend::Pass { frontend_tls: files, sorry, .. } ==> (if reached {
            next_for(&backend, reached) matches Next::HandOff { frontend_tls } && *frontend_tls
                == files
        } else {
            match sorry {
                None => next_for(&backend, reached) is Fail,
                Some(s) => next_for(&backend, reached) matches Next::TrySorry(next) && *next == *s,
            }
        }),
        backend matches Backend::Proxy { proxy_header: header, frontend_tls: files, sorry, .. }
            ==> (if reached {
            next_for(&backend, reached) matches Next::Proxy { proxy_header, frontend_tls }
                && *frontend_tls == files && proxy_header == header
        } else {
            match sorry {
                None => next_for(&backend, reached) is Fail,
                Some(s) => next_for(&backend, reached) matches Next::TrySorry(next) && *next == *s,
            }
        }),
{
}

/// Addresses are tried in order, from the first on, until one is connected to or
/// none is left.
pub proof fn lemma_addresses_are_tried_in_order(
    i: usize,
    total: usize,
    connected: bool,
    first: AddressNext,
    next: AddressNext,
)
    requires
        i < total,
        call_ensures(first_address, (total,), first),
        call_ensures(after_address, (i, total, connected), next),
    ensures
        first == AddressNext::Try(0),
        connected <==> next == AddressNext::Use,
        !connected && i + 1 == total ==> next == AddressNext::GiveUp,
        !connected && i + 1 < total ==> (next matches AddressNext::Try(j) && j == i + 1),
{
}

/// Without any address there is nothing to try.
pub proof fn lemma_no_address_is_tried(first: AddressNext)
    requires
        call_ensures(first_address, (0usize,), first),
    ensures
        first == AddressNext::GiveUp,
{
}

/// A socket is handed over only if all bytes that go with it were sent.
pub proof fn lemma_hand_off_is_whole(expected: usize, sent: usize, r: Result<(), HandOffError>)
    requires
        call_ensures(check_hand_off, (expected, sent), r),
    ensures
        r is Ok <==> sent == expected,
        sent != expected ==> r == Err::<(), HandOffError>(
            HandOffError::Partial { expected, sent },
        ),
{
}

} // verus!
