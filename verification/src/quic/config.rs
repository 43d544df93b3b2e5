//! The configuration of the QUIC router.

use vstd::prelude::*;

use crate::acl::{Acl, AclView};
use crate::addr::SocketAddr;
use crate::config;
use crate::config::{
    load_limit, load_matcher, BackendConfig, BackendConfigView, BackendType, BackendTypeView,
    ConfigError, RuleConfig, RuleConfigView, SniConfig, SniConfigView,
};
use crate::pattern::Pattern;

verus! {

/// Where a connection goes.
#[derive(Clone, Copy, Debug, PartialEq, Eq, Structural)]
pub enum Backend {
    /// Nowhere: its datagrams are dropped.
    Null,
    /// To the server at this UDP address.
    Udp { addr: SocketAddr },
}

/// Which clients go where.
#[derive(Debug)]
pub struct Rule {
    pub re: Pattern,
    pub backend: Backend,
    pub acl: Acl,
    pub timeout: Option<u64>,
}

/// The contents of a [`Rule`].
pub struct RuleView {
    pub re: Seq<char>,
    pub backend: Backend,
    pub acl: AclView,
    pub timeout: Option<u64>,
}

impl View for Rule {
    type V = RuleView;

    open spec fn view(&self) -> RuleView {
        RuleView { re: self.re@, backend: self.backend, acl: self.acl@, timeout: self.timeout }
    }
}

/// A loaded configuration. Times are in milliseconds.
#[derive(Debug)]
pub struct Config {
    pub max_lifetime: Option<u64>,
    pub handshake_timeout: Option<u64>,
    pub rules: Vec<Rule>,
    pub default: Rule,
}

/// The contents of a [`Config`].
pub struct ConfigView {
    pub max_lifetime: Option<u64>,
    pub handshake_timeout: Option<u64>,
    pub rules: Seq<RuleView>,
    pub default: RuleView,
}

/// The contents of rules.
pub open spec fn rules_view(rules: Seq<Rule>) -> Seq<RuleView> {
    rules.map_values(|rule: Rule| rule@)
}

impl View for Config {
    type V = ConfigView;

    open spec fn view(&self) -> ConfigView {
        ConfigView {
            max_lifetime: self.max_lifetime,
            handshake_timeout: self.handshake_timeout,
            rules: rules_view(self.rules@),
            default: self.default@,
        }
    }
}

/// What a backend needs to be loaded.
#[derive(Debug)]
pub enum Plan {
    /// Nothing.
    Null,
    /// The UDP address that this text stands for.
    Resolve(String),
}

/// The contents of a [`Plan`].
pub enum PlanView {
    Null,
    Resolve(Seq<char>),
}

impl View for Plan {
    type V = PlanView;

    open spec fn view(&self) -> PlanView {
        match *self {
            Plan::Null => PlanView::Null,
            Plan::Resolve(addr) => PlanView::Resolve(addr@),
        }
    }
}

/// Whether a backend asks for TLS at the router.
pub open spec fn has_frontend_tls(pb: BackendConfigView) -> bool {
    pb.frontend_tls is Some || match pb.backend_type {
        Some(BackendTypeView::Proxy { frontend_tls, .. }) => frontend_tls is Some,
        Some(BackendTypeView::Pass { frontend_tls, .. }) => frontend_tls is Some,
        _ => false,
    }
}

/// What a backend needs to be loaded. What only works over TCP is refused.
pub open spec fn backend_plan(pb: BackendConfigView) -> Result<PlanView, ConfigError> {
    if has_frontend_tls(pb) {
        Err(ConfigError::FrontendTlsUnsupported)
    } else if pb.sorry is Some {
        Err(ConfigError::SorryUnsupported)
    } else {
        match pb.backend_type {
            None => Err(ConfigError::NoBackendType),
            Some(BackendTypeView::Null) => Ok(PlanView::Null),
            Some(BackendTypeView::Proxy { addr, proxy_header, .. }) => if proxy_header {
                Err(ConfigError::ProxyHeaderUnsupported)
            } else {
                Ok(PlanView::Resolve(addr))
            },
            Some(BackendTypeView::Pass { .. }) => Err(ConfigError::PassUnsupported),
        }
    }
}

/// What loading a backend gives, with the address that its text stands for.
pub open spec fn backend_loaded(pb: BackendConfigView, resolved: Option<SocketAddr>) -> Result<
    Backend,
    ConfigError,
> {
    match backend_plan(pb) {
        Err(e) => Err(e),
        Ok(PlanView::Null) => Ok(Backend::Null),
        Ok(PlanView::Resolve(_)) => match resolved {
            Some(addr) => Ok(Backend::Udp { addr }),
            None => Err(ConfigError::Unresolved),
        },
    }
}

/// What loading a rule gives.
pub open spec fn rule_loaded(
    rule: RuleConfigView,
    is_default: bool,
    resolved: Option<SocketAddr>,
) -> Result<RuleView, ConfigError> {
    match config::matcher_loaded(rule, is_default) {
        Err(e) => Err(e),
        Ok(m) => match rule.backend {
            None => Err(ConfigError::NoBackend),
            Some(pb) => match backend_loaded(pb, resolved) {
                Err(e) => Err(e),
                Ok(backend) => Ok(RuleView { re: m.re, backend, acl: m.acl, timeout: m.timeout }),
            },
        },
    }
}

/// What loading the rules from `i` on gives: the first rule that cannot be
/// loaded decides.
pub open spec fn rules_loaded(
    rules: Seq<RuleConfigView>,
    resolved: Seq<Option<SocketAddr>>,
    i: int,
) -> Result<Seq<RuleView>, ConfigError>
    decreases rules.len() - i,
{
    if i >= rules.len() {
        Ok(Seq::empty())
    } else {
        match rule_loaded(rules[i], false, resolved[i]) {
            Err(e) => Err(e),
            Ok(first) => match rules_loaded(rules, resolved, i + 1) {
                Err(e) => Err(e),
                Ok(rest) => Ok(seq![first] + rest),
            },
        }
    }
}

/// What loading a configuration gives. The default rule is loaded first.
pub open spec fn config_loaded(
    pb: SniConfigView,
    default_resolved: Option<SocketAddr>,
    resolved: Seq<Option<SocketAddr>>,
) -> Result<ConfigView, ConfigError> {
    match pb.default {
        None => Err(ConfigError::DefaultMissing),
        Some(rule) => match rule_loaded(rule, true, default_resolved) {
            Err(e) => Err(e),
            Ok(default) => match rules_loaded(pb.rules, resolved, 0) {
                Err(e) => Err(e),
                Ok(rules) => Ok(
                    ConfigView {
                        max_lifetime: config::limit(pb.max_lifetime_ms),
                        handshake_timeout: config::limit(pb.handshake_timeout_ms),
                        rules,
                        default,
                    },
                ),
            },
        },
    }
}

/// Says what a backend needs to be loaded.
pub fn plan_backend(pb: &BackendConfig) -> (r: Result<Plan, ConfigError>)
    ensures
        (match r {
            Ok(plan) => Ok(plan@),
            Err(e) => Err(e),
        }) == backend_plan(pb@),
{
    let inner = match &pb.backend_type {
        Some(BackendType::Proxy { frontend_tls, .. }) => frontend_tls.is_some(),
        Some(BackendType::Pass { frontend_tls, .. }) => frontend_tls.is_some(),
        _ => false,
    };
    if pb.frontend_tls.is_some() || inner {
        return Err(ConfigError::FrontendTlsUnsupported);
    }
    if pb.sorry.is_some() {
        return Err(ConfigError::SorryUnsupported);
    }
    match &pb.backend_type {
        None => Err(ConfigError::NoBackendType),
        Some(BackendType::Null) => Ok(Plan::Null),
        Some(BackendType::Proxy { addr, proxy_header, .. }) => if *proxy_header {
            Err(ConfigError::ProxyHeaderUnsupported)
        } else {
            Ok(Plan::Resolve(addr.clone()))
        },
        Some(BackendType::Pass { .. }) => Err(ConfigError::PassUnsupported),
    }
}

/// Loads a backend, with the address that its text stands for, if one was
/// found.
pub fn load_backend(pb: &BackendConfig, resolved: Option<SocketAddr>) -> (r: Result<
    Backend,
    ConfigError,
>)
    ensures
        r == backend_loaded(pb@, resolved),
{
    match plan_backend(pb) {
        Err(e) => Err(e),
        Ok(Plan::Null) => Ok(Backend::Null),
        Ok(Plan::Resolve(_)) => match resolved {
            Some(addr) => Ok(Backend::Udp { addr }),
            None => Err(ConfigError::Unresolved),
        },
    }
}

/// Loads a rule, with the address of its backend, if one was found.
pub fn load_rule(rule: &RuleConfig, is_default: bool, resolved: Option<SocketAddr>) -> (r: Result<
    Rule,
    ConfigError,
>)
    ensures
        match r {
            Ok(loaded) => rule_loaded(rule@, is_default, resolved) == Ok::<RuleView, ConfigError>(
                loaded@,
            ) && loaded@.acl.wf(),
            Err(e) => rule_loaded(rule@, is_default, resolved) == Err::<RuleView, ConfigError>(e),
        },
{
    let m = match load_matcher(rule, is_default) {
        Ok(m) => m,
        Err(e) => return Err(e),
    };
    let pb = match &rule.backend {
        Some(pb) => pb,
        None => return Err(ConfigError::NoBackend),
    };
    match load_backend(pb, resolved) {
        Ok(backend) => Ok(Rule { re: m.re, backend, acl: m.acl, timeout: m.timeout }),
        Err(e) => Err(e),
    }
}

/// Loads a configuration, with the addresses of the backends as far as they
/// were found: that of the default rule's, and those of the other rules' in
/// order.
pub fn load_config(
    pb: &SniConfig,
    default_resolved: Option<SocketAddr>,
    resolved: &[Option<SocketAddr>],
) -> (r: Result<Config, ConfigError>)
    requires
        resolved@.len() == pb.rules@.len(),
    ensures
        match r {
            Ok(config) => config_loaded(pb@, default_resolved, resolved@) == Ok::<
                ConfigView,
                ConfigError,
            >(config@) && config.wf(),
            Err(e) => config_loaded(pb@, default_resolved, resolved@) == Err::<
                ConfigView,
                ConfigError,
            >(e),
        },
{
    let default = match &pb.default {
        Some(rule) => match load_rule(rule, true, default_resolved) {
            Ok(default) => default,
            Err(e) => return Err(e),
        },
        None => return Err(ConfigError::DefaultMissing),
    };
    let mut rules: Vec<Rule> = Vec::new();
    let mut i: usize = 0;
    let ghost all = pb@.rules;
    assert(rules_view(rules@) =~= Seq::<RuleView>::empty());
    proof {
        if let Ok(rest) = rules_loaded(all, resolved@, 0) {
            assert(Seq::<RuleView>::empty() + rest =~= rest);
        }
    }
    while i < pb.rules.len()
        invariant
            i <= pb.rules@.len() == resolved@.len(),
            all == pb@.rules,
            rules_loaded(all, resolved@, 0) == (match rules_loaded(all, resolved@, i as int) {
                Err(e) => Err::<Seq<RuleView>, ConfigError>(e),
                Ok(rest) => Ok(rules_view(rules@) + rest),
            }),
            forall|j: int| 0 <= j < rules@.len() ==> (#[trigger] rules@[j])@.acl.wf(),
            pb@.default matches Some(rule) && rule_loaded(rule, true, default_resolved) == Ok::<
                RuleView,
                ConfigError,
            >(default@),
            default@.acl.wf(),
        decreases pb.rules@.len() - i,
    {
        let rule = match load_rule(&pb.rules[i], false, resolved[i]) {
            Ok(rule) => rule,
            Err(e) => return Err(e),
        };
        let ghost before = rules@;
        rules.push(rule);
        proof {
            assert(rules_view(rules@) =~= rules_view(before).push(rule@));
            if let Ok(rest) = rules_loaded(all, resolved@, i + 1) {
                assert(rules_view(before) + (seq![rule@] + rest) =~= rules_view(rules@) + rest);
            }
        }
        i = i + 1;
    }
    assert(rules_view(rules@) + Seq::<RuleView>::empty() =~= rules_view(rules@));
    Ok(
        Config {
            max_lifetime: load_limit(pb.max_lifetime_ms),
            handshake_timeout: load_limit(pb.handshake_timeout_ms),
            rules,
            default,
        },
    )
}

impl Config {
    /// Whether all access control in the configuration is well formed.
    pub open spec fn wf(self) -> bool {
        &&& self.default@.acl.wf()
        &&& forall|j: int| 0 <= j < self.rules@.len() ==> (#[trigger] self.rules@[j])@.acl.wf()
    }
}

/// Whatever address is found, a backend that asks for something that only works
/// over TCP is refused.
pub proof fn lemma_tcp_only_options_are_refused(
    pb: BackendConfigView,
    resolved: Option<SocketAddr>,
)
    requires
        has_frontend_tls(pb) || pb.sorry is Some || pb.backend_type matches Some(
            BackendTypeView::Pass { .. },
        ) || (pb.backend_type matches Some(BackendTypeView::Proxy { proxy_header, .. })
            && proxy_header),
    ensures
        backend_loaded(pb, resolved) is Err,
{
}

/// A backend that closes connections needs nothing and is loaded as such; one
/// that is proxied to, without any option that only works over TCP, is loaded
/// with the address that its text stands for, and refused if there is none.
pub proof fn lemma_backend_keeps_what_is_given(
    pb: BackendConfigView,
    resolved: Option<SocketAddr>,
)
    requires
        pb.frontend_tls is None,
        pb.sorry is None,
    ensures
        pb.backend_type == Some(BackendTypeView::Null) ==> backend_plan(pb) == Ok::<
            PlanView,
            ConfigError,
        >(PlanView::Null) && backend_loaded(pb, resolved) == Ok::<Backend, ConfigError>(
            Backend::Null,
        ),
        pb.backend_type matches Some(
            BackendTypeView::Proxy { addr, proxy_header, frontend_tls },
        ) ==> (!proxy_header && frontend_tls is None ==> backend_plan(pb) == Ok::<
            PlanView,
            ConfigError,
        >(PlanView::Resolve(addr)) && match resolved {
            Some(at) => backend_loaded(pb, resolved) == Ok::<Backend, ConfigError>(
                Backend::Udp { addr: at },
            ),
            None => backend_loaded(pb, resolved) == Err::<Backend, ConfigError>(
                ConfigError::Unresolved,
            ),
        }),
        pb.backend_type is None ==> backend_loaded(pb, resolved) == Err::<Backend, ConfigError>(
            ConfigError::NoBackendType,
        ),
{
}

/// Which of the options that only work over TCP a backend is refused for: TLS at
/// the router, beside the kind of the backend or within, before a sorry server,
/// and that before handing over sockets and PROXY lines.
pub proof fn lemma_which_option_is_refused(pb: BackendConfigView, resolved: Option<SocketAddr>)
    ensures
        ({
            let inner = match pb.backend_type {
                Some(BackendTypeView::Proxy { frontend_tls, .. }) => frontend_tls,
                Some(BackendTypeView::Pass { frontend_tls, .. }) => frontend_tls,
                _ => None,
            };
            let r = backend_loaded(pb, resolved);
            &&& pb.frontend_tls is Some || inner is Some ==> r == Err::<Backend, ConfigError>(
                ConfigError::FrontendTlsUnsupported,
            )
            &&& pb.frontend_tls is None && inner is None ==> {
                &&& pb.sorry is Some ==> r == Err::<Backend, ConfigError>(
                    ConfigError::SorryUnsupported,
                )
                &&& pb.sorry is None && (pb.backend_type matches Some(
                    BackendTypeView::Pass { .. },
                )) ==> r == Err::<Backend, ConfigError>(ConfigError::PassUnsupported)
                &&& pb.sorry is None && (pb.backend_type matches Some(
                    BackendTypeView::Proxy { proxy_header, .. },
                ) && proxy_header) ==> r == Err::<Backend, ConfigError>(
                    ConfigError::ProxyHeaderUnsupported,
                )
            }
        }),
{
}

/// A rule is loaded with what picks its clients and with its backend.
pub proof fn lemma_rule_keeps_what_is_given(
    rule: RuleConfigView,
    is_default: bool,
    resolved: Option<SocketAddr>,
)
    ensures
        rule_loaded(rule, is_default, resolved) matches Ok(loaded) ==> {
            &&& config::matcher_loaded(rule, is_default) matches Ok(m) && m.re == loaded.re && m.acl
                == loaded.acl && m.timeout == loaded.timeout
            &&& rule.backend matches Some(pb) && backend_loaded(pb, resolved) == Ok::<
                Backend,
                ConfigError,
            >(loaded.backend)
        },
        config::matcher_loaded(rule, is_default) matches Err(e) ==> rule_loaded(
            rule,
            is_default,
            resolved,
        ) == Err::<RuleView, ConfigError>(e),
        config::matcher_loaded(rule, is_default) is Ok ==> match rule.backend {
            None => rule_loaded(rule, is_default, resolved) == Err::<RuleView, ConfigError>(
                ConfigError::NoBackend,
            ),
            Some(pb) => match backend_loaded(pb, resolved) {
                Ok(_) => rule_loaded(rule, is_default, resolved) is Ok,
                Err(e) => rule_loaded(rule, is_default, resolved) == Err::<RuleView, ConfigError>(
                    e,
                ),
            },
        },
{
}

proof fn lemma_rules_keep_their_order(
    rules: Seq<RuleConfigView>,
    resolved: Seq<Option<SocketAddr>>,
    from: int,
    i: int,
)
    requires
        0 <= from <= rules.len(),
    ensures
        rules_loaded(rules, resolved, from) matches Ok(loaded) ==> loaded.len() == rules.len()
            - from && (from <= i < rules.len() ==> rule_loaded(rules[i], false, resolved[i])
            == Ok::<RuleView, ConfigError>(loaded[i - from])),
    decreases rules.len() - from,
{
    if from < rules.len() {
        lemma_rules_keep_their_order(rules, resolved, from + 1, i);
    }
}

/// A configuration is loaded with its limits, where 0 stands for none, its
/// default rule and all of its rules in order, each with its own address. It is
/// refused without a default rule, and for a default rule that is refused.
pub proof fn lemma_config_keeps_what_is_given(
    pb: SniConfigView,
    default_resolved: Option<SocketAddr>,
    resolved: Seq<Option<SocketAddr>>,
    i: int,
)
    ensures
        config_loaded(pb, default_resolved, resolved) matches Ok(loaded) ==> {
            &&& pb.max_lifetime_ms == 0 ==> loaded.max_lifetime is None
            &&& pb.max_lifetime_ms > 0 ==> loaded.max_lifetime == Some(pb.max_lifetime_ms)
            &&& pb.handshake_timeout_ms == 0 ==> loaded.handshake_timeout is None
            &&& pb.handshake_timeout_ms > 0 ==> loaded.handshake_timeout == Some(
                pb.handshake_timeout_ms,
            )
            &&& pb.default matches Some(rule) && rule_loaded(rule, true, default_resolved) == Ok::<
                RuleView,
                ConfigError,
            >(loaded.default)
            &&& loaded.rules.len() == pb.rules.len()
            &&& 0 <= i < pb.rules.len() ==> rule_loaded(pb.rules[i], false, resolved[i]) == Ok::<
                RuleView,
                ConfigError,
            >(loaded.rules[i])
        },
        pb.default is None ==> config_loaded(pb, default_resolved, resolved) == Err::<
            ConfigView,
            ConfigError,
        >(ConfigError::DefaultMissing),
        pb.default matches Some(rule) ==> (rule_loaded(rule, true, default_resolved) matches Err(e)
            ==> config_loaded(pb, default_resolved, resolved) == Err::<ConfigView, ConfigError>(e)),
{
    lemma_rules_keep_their_order(pb.rules, resolved, 0, i);
}

/// Of the rules, the first that is refused is what they are refused for; if none
/// is, all are loaded.
pub proof fn lemma_first_bad_rule_is_reported(
    rules: Seq<RuleConfigView>,
    resolved: Seq<Option<SocketAddr>>,
    from: int,
    i: int,
)
    requires
        0 <= from <= i <= rules.len(),
        forall|j: int|
            from <= j < i ==> rule_loaded(#[trigger] rules[j], false, resolved[j]) is Ok,
    ensures
        i == rules.len() ==> rules_loaded(rules, resolved, from) is Ok,
        i < rules.len() ==> (rule_loaded(rules[i], false, resolved[i]) matches Err(e)
            ==> rules_loaded(rules, resolved, from) == Err::<Seq<RuleView>, ConfigError>(e)),
    decreases i - from,
{
    if from < i {
        assert(rule_loaded(rules[from], false, resolved[from]) is Ok);
        lemma_first_bad_rule_is_reported(rules, resolved, from + 1, i);
    }
}

/// What a configuration says is what it holds, rule by rule, and so is what a
/// plan says.
pub proof fn lemma_config_says_what_it_holds(config: Config, rule: Rule, plan: Plan)
    ensures
        config@.max_lifetime == config.max_lifetime,
        config@.handshake_timeout == config.handshake_timeout,
        config@.rules.len() == config.rules.len(),
        forall|i: int|
            0 <= i < config.rules.len() ==> #[trigger] config@.rules[i] == config.rules[i]@,
        config@.default == config.default@,
        rule@.re == rule.re@,
        rule@.backend == rule.backend,
        rule@.acl == rule.acl@,
        rule@.timeout == rule.timeout,
        plan is Null <==> plan@ is Null,
        plan matches Plan::Resolve(addr) ==> plan@ == PlanView::Resolve(addr@),
{
}

} // verus!
