//! Where a TLS client goes.

use vstd::prelude::*;

use crate::client_hello;
use crate::client_hello::{extract_sni, SniError};
use crate::pattern;
use crate::pattern::is_full_match;
use crate::rules;
use crate::rules::{verdict, Verdict};
use crate::tcp::config::{Config, ConfigView, Rule, RuleView};
use crate::tcp::hello_reader::HelloError;

verus! {

/// The rule that a client falls under.
#[derive(Clone, Copy, Debug, PartialEq, Eq, Structural)]
pub enum Target {
    /// The rule at this place.
    Rule(usize),
    /// The default rule.
    Default,
}

/// How a client is counted.
#[derive(Clone, Copy, Debug, PartialEq, Eq, Structural)]
pub enum Label {
    /// Under the name that it asked for.
    Name,
    /// As one that asked for a name that no rule takes.
    Unknown,
    /// As one that asked for no name.
    Missing,
    /// Not at all: it sent no ClientHello.
    Uncounted,
}

/// Why a client is not routed.
#[derive(Clone, Copy, Debug, PartialEq, Eq, Structural)]
pub enum RouteError {
    /// Its ClientHello cannot be read.
    Sni(SniError),
    /// The access control of the rule does not say what to do.
    UnspecifiedAction,
    /// The access control of the rule at this place turns it away.
    Rejected(usize),
}

/// Where a client goes.
#[derive(Debug)]
pub struct Choice {
    pub target: Target,
    /// The name that picked the rule.
    pub sni: Option<String>,
    pub label: Label,
}

/// The contents of a [`Choice`].
pub struct ChoiceView {
    pub target: Target,
    pub sni: Option<Seq<char>>,
    pub label: Label,
}

impl View for Choice {
    type V = ChoiceView;

    open spec fn view(&self) -> ChoiceView {
        ChoiceView {
            target: self.target,
            sni: match self.sni {
                None => None,
                Some(name) => Some(name@),
            },
            label: self.label,
        }
    }
}

/// What each rule says about a client that asks for `name`.
pub open spec fn verdicts(config: ConfigView, name: Seq<char>, peer: u128) -> Seq<Verdict> {
    Seq::new(
        config.rules.len(),
        |i: int|
            rules::verdict_of(
                config.rules[i].acl,
                pattern::matches_fully(config.rules[i].re, name),
                peer,
            ),
    )
}

/// Where a client goes that asks for `name`.
pub open spec fn routed_by_name(config: ConfigView, name: Seq<char>, peer: u128) -> Result<
    ChoiceView,
    RouteError,
> {
    let said = verdicts(config, name, peer);
    match rules::first_decided(said, 0) {
        None => Ok(ChoiceView { target: Target::Default, sni: None, label: Label::Unknown }),
        Some(i) => match said[i] {
            Verdict::Accept => Ok(
                ChoiceView {
                    target: Target::Rule(i as usize),
                    sni: Some(name),
                    label: Label::Name,
                },
            ),
            Verdict::Reject => Err(RouteError::Rejected(i as usize)),
            _ => Err(RouteError::UnspecifiedAction),
        },
    }
}

/// Where a client goes, by what its stream starts with. One that sends no
/// ClientHello, or asks for no name, goes where the default rule says.
pub open spec fn routed(
    config: ConfigView,
    hello: Result<Seq<u8>, HelloError>,
    peer: u128,
) -> Result<ChoiceView, RouteError> {
    match hello {
        Err(_) => Ok(ChoiceView { target: Target::Default, sni: None, label: Label::Uncounted }),
        Ok(hello) => match client_hello::server_name(hello) {
            Err(e) => Err(RouteError::Sni(e)),
            Ok(None) => Ok(
                ChoiceView { target: Target::Default, sni: None, label: Label::Missing },
            ),
            Ok(Some(name)) => routed_by_name(config, name, peer),
        },
    }
}

/// Finds where a client goes that asks for `name`.
pub fn route_by_name(config: &Config, name: String, peer: u128) -> (r: Result<Choice, RouteError>)
    ensures
        match r {
            Ok(choice) => routed_by_name(config@, name@, peer) == Ok::<ChoiceView, RouteError>(
                choice@,
            ),
            Err(e) => routed_by_name(config@, name@, peer) == Err::<ChoiceView, RouteError>(e),
        },
        r matches Ok(Choice { target: Target::Rule(i), .. }) ==> i < config.rules@.len() && (
        pattern::regex_found(config@.rules[i as int].re, name@) matches Some((start, _)) && start
            == 0),
        r matches Err(RouteError::Rejected(i)) ==> i < config.rules@.len() && (
        pattern::regex_found(config@.rules[i as int].re, name@) matches Some((start, _)) && start
            == 0),
{
    let ghost said = verdicts(config@, name@, peer);
    let mut i: usize = 0;
    while i < config.rules.len()
        invariant
            i <= config.rules@.len(),
            said == verdicts(config@, name@, peer),
            rules::first_decided(said, 0) == rules::first_decided(said, i as int),
        decreases config.rules@.len() - i,
    {
        let rule = &config.rules[i];
        assert(config@.rules[i as int] == rule@);
        let matched = is_full_match(&rule.re, name.as_str());
        match verdict(&rule.acl, matched, peer) {
            Verdict::Next => {},
            Verdict::Accept => {
                return Ok(
                    Choice { target: Target::Rule(i), sni: Some(name), label: Label::Name },
                );
            },
            Verdict::Reject => return Err(RouteError::Rejected(i)),
            Verdict::Unspecified => return Err(RouteError::UnspecifiedAction),
        }
        i = i + 1;
    }
    Ok(Choice { target: Target::Default, sni: None, label: Label::Unknown })
}

/// Finds where a client goes, by what its stream starts with.
pub fn route(config: &Config, hello: &Result<Vec<u8>, HelloError>, peer: u128) -> (r: Result<
    Choice,
    RouteError,
>)
    ensures
        ({
            let start = match *hello {
                Ok(hello) => Ok::<Seq<u8>, HelloError>(hello@),
                Err(e) => Err(e),
            };
            match r {
                Ok(choice) => routed(config@, start, peer) == Ok::<ChoiceView, RouteError>(choice@),
                Err(e) => routed(config@, start, peer) == Err::<ChoiceView, RouteError>(e),
            }
        }),
        r matches Ok(Choice { target: Target::Rule(i), .. }) ==> i < config.rules@.len(),
{
    match hello {
        Err(_) => Ok(Choice { target: Target::Default, sni: None, label: Label::Uncounted }),
        Ok(hello) => match extract_sni(hello.as_slice()) {
            Err(e) => Err(RouteError::Sni(e)),
            Ok(None) => Ok(Choice { target: Target::Default, sni: None, label: Label::Missing }),
            Ok(Some(name)) => route_by_name(config, name, peer),
        },
    }
}

/// The text that a client is counted under.
pub fn metric_label(choice: &Choice) -> (r: Option<String>)
    ensures
        (match r {
            None => None,
            Some(text) => Some(text@),
        }) == (match choice@.label {
            Label::Name => choice@.sni,
            Label::Unknown => Some("<unknown>"@),
            Label::Missing => Some("<missing>"@),
            Label::Uncounted => None,
        }),
{
    match choice.label {
        Label::Name => match &choice.sni {
            Some(name) => Some(name.clone()),
            None => None,
        },
        Label::Unknown => Some("<unknown>".to_string()),
        Label::Missing => Some("<missing>".to_string()),
        Label::Uncounted => None,
    }
}

/// The rule that a client falls under.
pub open spec fn target_view(config: ConfigView, target: Target) -> RuleView {
    match target {
        Target::Rule(i) => config.rules[i as int],
        Target::Default => config.default,
    }
}

/// Looks up the rule that a client falls under.
pub fn target_rule(config: &Config, target: Target) -> (r: &Rule)
    requires
        target matches Target::Rule(i) ==> i < config.rules@.len(),
    ensures
        r@ == target_view(config@, target),
{
    match target {
        Target::Rule(i) => &config.rules[i],
        Target::Default => &config.default,
    }
}

/// How long the parts of a connection's life may take, in milliseconds.
#[derive(Clone, Copy, Debug, PartialEq, Eq, Structural)]
pub struct Limits {
    /// From accepting the connection to its end.
    pub whole: Option<u64>,
    /// From accepting the connection until its backend is reached.
    pub routing: Option<u64>,
    /// Reaching the backend, and again from then to the end.
    pub backend: Option<u64>,
}

/// The limits on a connection that falls under the rule `target`.
pub fn limits(config: &Config, target: Target) -> (r: Limits)
    requires
        target matches Target::Rule(i) ==> i < config.rules@.len(),
    ensures
        r == (Limits {
            whole: config@.max_lifetime,
            routing: config@.handshake_timeout,
            backend: target_view(config@, target).timeout,
        }),
{
    Limits {
        whole: config.max_lifetime,
        routing: config.handshake_timeout,
        backend: target_rule(config, target).timeout,
    }
}

/// A client is sent to a rule's backend only if the rule's pattern matches the
/// whole name, the rule's access control accepts the client, and every rule
/// before it passes the client on.
pub proof fn lemma_routed_client_was_accepted(config: ConfigView, name: Seq<char>, peer: u128)
    requires
        config.rules.len() <= usize::MAX,
    ensures
        routed_by_name(config, name, peer) matches Ok(choice) ==> (
        choice.target matches Target::Rule(k) ==> {
            &&& k < config.rules.len()
            &&& pattern::matches_fully(config.rules[k as int].re, name)
            &&& crate::acl::action_for(config.rules[k as int].acl, peer)
                == crate::acl::AclAction::Accept
            &&& choice.sni == Some(name)
            &&& forall|j: int|
                0 <= j < k ==> #[trigger] verdicts(config, name, peer)[j] == Verdict::Next
        }),
{
    rules::lemma_first_decided_is_first(verdicts(config, name, peer), 0);
}

/// A client goes by the default rule exactly when no rule says anything about
/// the name that it asks for.
pub proof fn lemma_default_takes_the_rest(config: ConfigView, name: Seq<char>, peer: u128)
    requires
        config.rules.len() <= usize::MAX,
    ensures
        (routed_by_name(config, name, peer) matches Ok(choice) && choice.target == Target::Default)
            <==> forall|j: int|
            0 <= j < config.rules.len() ==> #[trigger] verdicts(config, name, peer)[j]
                == Verdict::Next,
{
    rules::lemma_first_decided_is_first(verdicts(config, name, peer), 0);
}

/// The first rule that does not pass a client on decides. A rule passes a client
/// on if its pattern does not match the whole name or its access control says to
/// go on. The rule that decides takes the client if its access control accepts
/// the client, and turns the client away if it says to drop the client.
pub proof fn lemma_first_match_decides(config: ConfigView, name: Seq<char>, peer: u128, k: int)
    requires
        config.rules.len() <= usize::MAX,
        0 <= k < config.rules.len(),
        pattern::matches_fully(config.rules[k].re, name),
        crate::acl::action_for(config.rules[k].acl, peer) != crate::acl::AclAction::Continue,
        forall|j: int|
            0 <= j < k ==> !pattern::matches_fully((#[trigger] config.rules[j]).re, name)
                || crate::acl::action_for(config.rules[j].acl, peer)
                == crate::acl::AclAction::Continue,
    ensures
        ({
            let action = crate::acl::action_for(config.rules[k].acl, peer);
            let r = routed_by_name(config, name, peer);
            &&& action == crate::acl::AclAction::Accept ==> r == Ok::<ChoiceView, RouteError>(
                ChoiceView {
                    target: Target::Rule(k as usize),
                    sni: Some(name),
                    label: Label::Name,
                },
            )
            &&& action == crate::acl::AclAction::Drop ==> r == Err::<ChoiceView, RouteError>(
                RouteError::Rejected(k as usize),
            )
            &&& action == crate::acl::AclAction::Unspecified ==> r == Err::<ChoiceView, RouteError>(
                RouteError::UnspecifiedAction,
            )
        }),
{
    let said = verdicts(config, name, peer);
    rules::lemma_first_decided_is_first(said, 0);
    rules::lemma_verdict_is_the_action(config.rules[k].acl, true, peer);
    assert(said[k] != Verdict::Next);
    if let Some(i) = rules::first_decided(said, 0) {
        if i < k {
            let rule = config.rules[i];
            rules::lemma_verdict_is_the_action(
                rule.acl,
                pattern::matches_fully(rule.re, name),
                peer,
            );
        }
    }
}

/// A client that every rule passes on goes where the default rule says, and is
/// not counted under its name.
pub proof fn lemma_passed_on_by_all(config: ConfigView, name: Seq<char>, peer: u128)
    requires
        forall|j: int|
            0 <= j < config.rules.len() ==> !pattern::matches_fully(
                (#[trigger] config.rules[j]).re,
                name,
            ) || crate::acl::action_for(config.rules[j].acl, peer)
                == crate::acl::AclAction::Continue,
    ensures
        routed_by_name(config, name, peer) == Ok::<ChoiceView, RouteError>(
            ChoiceView { target: Target::Default, sni: None, label: Label::Unknown },
        ),
{
    let said = verdicts(config, name, peer);
    rules::lemma_first_decided_is_first(said, 0);
    if let Some(i) = rules::first_decided(said, 0) {
        let rule = config.rules[i];
        rules::lemma_verdict_is_the_action(rule.acl, pattern::matches_fully(rule.re, name), peer);
    }
}

/// A client whose stream starts with no ClientHello, or with one that asks for
/// no name, goes where the default rule says, whatever the rules and its
/// address; one whose ClientHello cannot be read goes nowhere; any other goes by
/// its name.
pub proof fn lemma_name_decides(config: ConfigView, hello: Seq<u8>, e: HelloError, peer: u128)
    ensures
        routed(config, Err(e), peer) == Ok::<ChoiceView, RouteError>(
            ChoiceView { target: Target::Default, sni: None, label: Label::Uncounted },
        ),
        client_hello::host_bytes(hello) == Ok::<Option<Seq<u8>>, SniError>(None) ==> routed(
            config,
            Ok(hello),
            peer,
        ) == Ok::<ChoiceView, RouteError>(
            ChoiceView { target: Target::Default, sni: None, label: Label::Missing },
        ),
        client_hello::host_bytes(hello) matches Err(bad) ==> routed(config, Ok(hello), peer)
            == Err::<ChoiceView, RouteError>(RouteError::Sni(bad)),
        client_hello::host_bytes(hello) matches Ok(Some(host)) ==> routed(config, Ok(hello), peer)
            == routed_by_name(config, client_hello::utf8_lossy(host), peer),
{
}

/// A connection as a whole and its routing are limited by the configuration, and
/// reaching its backend by the rule that it falls under.
pub proof fn lemma_limits_are_those_configured(config: &Config, target: Target, limited: Limits)
    requires
        call_ensures(limits, (config, target), limited),
    ensures
        limited.whole == config@.max_lifetime,
        limited.routing == config@.handshake_timeout,
        target == Target::Default ==> limited.backend == config@.default.timeout,
        target matches Target::Rule(i) ==> limited.backend == config@.rules[i as int].timeout,
{
}

/// A client is counted under its name only if a rule took it for that name, and
/// under `<unknown>` or `<missing>` where no rule did or it asked for none.
pub proof fn lemma_counted_under_its_name(choice: &Choice, text: Option<String>)
    requires
        call_ensures(metric_label, (choice,), text),
    ensures
        choice@.label == Label::Name ==> crate::quic::route::text_view(text) == choice@.sni,
        choice@.label == Label::Unknown ==> (text matches Some(t) && t@ == "<unknown>"@),
        choice@.label == Label::Missing ==> (text matches Some(t) && t@ == "<missing>"@),
        choice@.label == Label::Uncounted ==> text is None,
{
}

/// Wherever a client is sent by its name, the pattern of the rule that decides is
/// found from the start of the name on, and the rule's access control says so.
pub proof fn lemma_sent_by_its_name(
    config: &Config,
    name: String,
    peer: u128,
    sent: Result<Choice, RouteError>,
)
    requires
        call_ensures(route_by_name, (config, name, peer), sent),
        config.rules@.len() <= usize::MAX,
    ensures
        sent matches Ok(choice) ==> (choice.target matches Target::Rule(i) ==> {
            let rule = config@.rules[i as int];
            &&& i < config.rules@.len()
            &&& pattern::regex_found(rule.re, name@) matches Some((start, _)) && start == 0
            &&& crate::acl::action_for(rule.acl, peer) == crate::acl::AclAction::Accept
        }),
        sent matches Err(RouteError::Rejected(i)) ==> {
            let rule = config@.rules[i as int];
            &&& i < config.rules@.len()
            &&& pattern::regex_found(rule.re, name@) matches Some((start, _)) && start == 0
            &&& crate::acl::action_for(rule.acl, peer) == crate::acl::AclAction::Drop
        },
{
    lemma_routed_client_was_accepted(config@, name@, peer);
    rules::lemma_first_decided_is_first(verdicts(config@, name@, peer), 0);
}

/// What a choice says is what it holds.
pub proof fn lemma_choices_say_what_they_hold(choice: Choice)
    ensures
        choice@.target == choice.target,
        choice@.label == choice.label,
        choice@.sni is Some <==> choice.sni is Some,
        choice.sni matches Some(name) ==> choice@.sni == Some(name@),
{
}

} // verus!
