//! Where a QUIC client goes.

use vstd::prelude::*;

use crate::acl;
use crate::acl::AclAction;
use crate::addr;
use crate::addr::{peer_ip_v6, SocketAddr};
use crate::pattern;
use crate::pattern::is_full_match;
use crate::quic::config::{Backend, Config, ConfigView};
use crate::rules;
use crate::rules::{verdict, Verdict};

verus! {

/// Where a client goes, and how long its connection may last.
#[derive(Debug)]
pub struct Route {
    pub backend: Backend,
    /// In milliseconds.
    pub timeout: Option<u64>,
    pub sni: Option<String>,
}

/// The contents of a [`Route`].
pub struct RouteView {
    pub backend: Backend,
    pub timeout: Option<u64>,
    pub sni: Option<Seq<char>>,
}

/// The contents of an optional text.
pub open spec fn text_view(text: Option<String>) -> Option<Seq<char>> {
    match text {
        None => None,
        Some(text) => Some(text@),
    }
}

impl View for Route {
    type V = RouteView;

    open spec fn view(&self) -> RouteView {
        RouteView { backend: self.backend, timeout: self.timeout, sni: text_view(self.sni) }
    }
}

/// Why a client is not routed.
#[derive(Clone, Copy, Debug, PartialEq, Eq, Structural)]
pub enum RouteError {
    /// The access control of the rule does not say what to do.
    UnspecifiedAction,
}

/// The shorter of two limits; `None` stands for no limit.
pub open spec fn shorter(a: Option<u64>, b: Option<u64>) -> Option<u64> {
    match (a, b) {
        (None, None) => None,
        (Some(a), None) => Some(a),
        (None, Some(b)) => Some(b),
        (Some(a), Some(b)) => Some(
            if a <= b {
                a
            } else {
                b
            },
        ),
    }
}

/// The shorter of two limits in milliseconds; `None` stands for no limit.
pub fn min_timeout(a: Option<u64>, b: Option<u64>) -> (r: Option<u64>)
    ensures
        r == shorter(a, b),
{
    match (a, b) {
        (Some(a), Some(b)) => Some(
            if a <= b {
                a
            } else {
                b
            },
        ),
        (Some(a), None) => Some(a),
        (None, Some(b)) => Some(b),
        (None, None) => None,
    }
}

/// What each rule says about a client that asks for `name`.
pub open spec fn verdicts(config: ConfigView, name: Seq<char>, peer: u128) -> Seq<Verdict> {
    Seq::new(
        config.rules.len(),
        |i: int|
            rules::verdict_of(
                config.rules[i].acl,
                pattern::matches_fully(config.rules[i].re, name),
                peer,
            ),
    )
}

/// The route that the default rule gives.
pub open spec fn default_route(config: ConfigView, sni: Option<Seq<char>>) -> RouteView {
    RouteView {
        backend: config.default.backend,
        timeout: shorter(config.max_lifetime, config.default.timeout),
        sni,
    }
}

/// Where a client goes that asks for the name `sni`, or for none. A client that
/// is turned away goes nowhere.
pub open spec fn route_of(config: ConfigView, peer: SocketAddr, sni: Option<Seq<char>>) -> Result<
    RouteView,
    RouteError,
> {
    match sni {
        None => Ok(default_route(config, sni)),
        Some(name) => {
            let said = verdicts(config, name, addr::v6_of(peer));
            match rules::first_decided(said, 0) {
                None => Ok(default_route(config, sni)),
                Some(i) => match said[i] {
                    Verdict::Accept => Ok(
                        RouteView {
                            backend: config.rules[i].backend,
                            timeout: shorter(config.max_lifetime, config.rules[i].timeout),
                            sni,
                        },
                    ),
                    Verdict::Reject => Ok(
                        RouteView {
                            backend: Backend::Null,
                            timeout: shorter(config.max_lifetime, config.rules[i].timeout),
                            sni,
                        },
                    ),
                    _ => Err(RouteError::UnspecifiedAction),
                },
            }
        },
    }
}

/// Finds where a client goes that asks for the name `sni`, or for none.
pub fn route_for_sni(config: &Config, peer: SocketAddr, sni: Option<String>) -> (r: Result<
    Route,
    RouteError,
>)
    ensures
        match r {
            Ok(route) => route_of(config@, peer, text_view(sni)) == Ok::<RouteView, RouteError>(
                route@,
            ),
            Err(e) => route_of(config@, peer, text_view(sni)) == Err::<RouteView, RouteError>(e),
        },
{
    if let Some(name) = &sni {
        let ip: u128 = peer_ip_v6(peer);
        let ghost said = verdicts(config@, name@, ip);
        let mut i: usize = 0;
        while i < config.rules.len()
            invariant
                i <= config.rules@.len(),
                said == verdicts(config@, name@, ip),
                ip == addr::v6_of(peer),
                sni matches Some(text) && text@ == name@,
                rules::first_decided(said, 0) == rules::first_decided(said, i as int),
            decreases config.rules@.len() - i,
        {
            let rule = &config.rules[i];
            assert(config@.rules[i as int] == rule@);
            let matched = is_full_match(&rule.re, name.as_str());
            let backend = match verdict(&rule.acl, matched, ip) {
                Verdict::Next => None,
                Verdict::Accept => Some(rule.backend),
                Verdict::Reject => Some(Backend::Null),
                Verdict::Unspecified => return Err(RouteError::UnspecifiedAction),
            };
            if let Some(backend) = backend {
                let timeout = min_timeout(config.max_lifetime, rule.timeout);
                return Ok(Route { backend, timeout, sni });
            }
            i = i + 1;
        }
    }
    let timeout = min_timeout(config.max_lifetime, config.default.timeout);
    Ok(Route { backend: config.default.backend, timeout, sni })
}

/// The shorter of two limits is no longer than either, and is one of them.
pub proof fn lemma_shorter(a: Option<u64>, b: Option<u64>)
    ensures
        shorter(a, b) == a || shorter(a, b) == b,
        shorter(a, b) == shorter(b, a),
        a matches Some(x) ==> (shorter(a, b) matches Some(y) && y <= x),
        b matches Some(x) ==> (shorter(a, b) matches Some(y) && y <= x),
{
}

/// The first rule that says anything about a client decides. The client goes to
/// the rule's backend only if the rule's pattern matches the whole name and the
/// rule's access control accepts the client; one that is turned away goes
/// nowhere. Where no rule says anything, the default rule decides.
pub proof fn lemma_first_rule_decides(config: ConfigView, peer: SocketAddr, name: Seq<char>)
    ensures
        ({
            let said = verdicts(config, name, addr::v6_of(peer));
            match rules::first_decided(said, 0) {
                None => route_of(config, peer, Some(name)) == Ok::<RouteView, RouteError>(
                    default_route(config, Some(name)),
                ),
                Some(i) => {
                    let rule = config.rules[i];
                    let action = acl::action_for(rule.acl, addr::v6_of(peer));
                    &&& 0 <= i < config.rules.len()
                    &&& pattern::matches_fully(rule.re, name)
                    &&& match route_of(config, peer, Some(name)) {
                        Ok(route) => route.sni == Some(name) && (if action == AclAction::Accept {
                            route.backend == rule.backend
                        } else {
                            action == AclAction::Drop && route.backend == Backend::Null
                        }),
                        Err(_) => action == AclAction::Unspecified,
                    }
                },
            }
        }),
{
    rules::lemma_first_decided_is_first(verdicts(config, name, addr::v6_of(peer)), 0);
}

/// No connection is allowed to last longer than the configuration allows any.
pub proof fn lemma_no_route_outlasts_max_lifetime(
    config: ConfigView,
    peer: SocketAddr,
    sni: Option<Seq<char>>,
)
    ensures
        config.max_lifetime matches Some(max) ==> (route_of(config, peer, sni) matches Ok(route)
            ==> (route.timeout matches Some(t) && t <= max)),
{
}

/// The first rule that does not pass a client on decides. A rule passes a client
/// on if its pattern does not match the whole name or its access control says to
/// go on. The client goes to the backend of the rule that decides if its access
/// control accepts the client, and nowhere if it says to drop the client.
pub proof fn lemma_first_match_decides(
    config: ConfigView,
    peer: SocketAddr,
    name: Seq<char>,
    k: int,
)
    requires
        0 <= k < config.rules.len(),
        pattern::matches_fully(config.rules[k].re, name),
        acl::action_for(config.rules[k].acl, addr::v6_of(peer)) != AclAction::Continue,
        forall|j: int|
            0 <= j < k ==> !pattern::matches_fully((#[trigger] config.rules[j]).re, name)
                || acl::action_for(config.rules[j].acl, addr::v6_of(peer)) == AclAction::Continue,
    ensures
        ({
            let action = acl::action_for(config.rules[k].acl, addr::v6_of(peer));
            let r = route_of(config, peer, Some(name));
            &&& action == AclAction::Accept ==> (r matches Ok(route) && route.backend
                == config.rules[k].backend && route.sni == Some(name) && is_shorter(
                route.timeout,
                config.max_lifetime,
                config.rules[k].timeout,
            ))
            &&& action == AclAction::Drop ==> (r matches Ok(route) && route.backend
                == Backend::Null)
            &&& action == AclAction::Unspecified ==> r == Err::<RouteView, RouteError>(
                RouteError::UnspecifiedAction,
            )
        }),
{
    let said = verdicts(config, name, addr::v6_of(peer));
    rules::lemma_first_decided_is_first(said, 0);
    rules::lemma_verdict_is_the_action(config.rules[k].acl, true, addr::v6_of(peer));
    assert(said[k] != Verdict::Next);
    if let Some(i) = rules::first_decided(said, 0) {
        if i < k {
            let rule = config.rules[i];
            rules::lemma_verdict_is_the_action(
                rule.acl,
                pattern::matches_fully(rule.re, name),
                addr::v6_of(peer),
            );
        }
    }
    lemma_shorter(config.max_lifetime, config.rules[k].timeout);
}

/// A client that asks for no name, or that every rule passes on, goes where the
/// default rule says.
pub proof fn lemma_passed_on_by_all(
    config: ConfigView,
    peer: SocketAddr,
    sni: Option<Seq<char>>,
)
    requires
        sni matches Some(name) ==> forall|j: int|
            0 <= j < config.rules.len() ==> !pattern::matches_fully(
                (#[trigger] config.rules[j]).re,
                name,
            ) || acl::action_for(config.rules[j].acl, addr::v6_of(peer)) == AclAction::Continue,
    ensures
        route_of(config, peer, sni) matches Ok(route) && route.backend == config.default.backend
            && route.sni == sni && is_shorter(
            route.timeout,
            config.max_lifetime,
            config.default.timeout,
        ),
{
    if let Some(name) = sni {
        let said = verdicts(config, name, addr::v6_of(peer));
        rules::lemma_first_decided_is_first(said, 0);
        if let Some(i) = rules::first_decided(said, 0) {
            let rule = config.rules[i];
            rules::lemma_verdict_is_the_action(
                rule.acl,
                pattern::matches_fully(rule.re, name),
                addr::v6_of(peer),
            );
        }
    }
}

/// Whether `limit` is the shorter of two limits: it is one of them, and no
/// longer than either.
pub open spec fn is_shorter(limit: Option<u64>, a: Option<u64>, b: Option<u64>) -> bool {
    &&& limit == a || limit == b
    &&& a matches Some(x) ==> (limit matches Some(y) && y <= x)
    &&& b matches Some(x) ==> (limit matches Some(y) && y <= x)
}

/// Wherever a client goes, the name that it asks for goes with it.
pub proof fn lemma_route_keeps_name(config: ConfigView, peer: SocketAddr, sni: Option<Seq<char>>)
    ensures
        route_of(config, peer, sni) matches Ok(route) ==> route.sni == sni,
{
}

/// What a route says is what it holds.
pub proof fn lemma_routes_say_what_they_hold(route: Route)
    ensures
        route@.backend == route.backend,
        route@.timeout == route.timeout,
        route@.sni is Some <==> route.sni is Some,
        route.sni matches Some(name) ==> route@.sni == Some(name@),
{
}

} // verus!
