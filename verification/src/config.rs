//! The configuration that both routers read.

use vstd::prelude::*;

use crate::acl;
use crate::acl::{load_acl, Acl, AclAction, AclConfig, AclConfigView, AclError, AclView};
use crate::pattern;
use crate::pattern::Pattern;

verus! {

/// The files that a TLS certificate and its key are in.
#[derive(Debug)]
pub struct TlsFiles {
    pub cert_file: String,
    pub key_file: String,
}

impl Clone for TlsFiles {
    fn clone(&self) -> (r: TlsFiles)
        ensures
            r@ == self@,
    {
        TlsFiles { cert_file: self.cert_file.clone(), key_file: self.key_file.clone() }
    }
}

/// The contents of [`TlsFiles`].
pub struct TlsView {
    pub cert_file: Seq<char>,
    pub key_file: Seq<char>,
}

impl View for TlsFiles {
    type V = TlsView;

    open spec fn view(&self) -> TlsView {
        TlsView { cert_file: self.cert_file@, key_file: self.key_file@ }
    }
}

/// The contents of TLS files, if there are any.
pub open spec fn tls_view(files: Option<TlsFiles>) -> Option<TlsView> {
    match files {
        None => None,
        Some(files) => Some(files@),
    }
}

/// Where a connection goes, as it is configured.
#[derive(Debug)]
pub enum BackendType {
    /// Nowhere: it is closed.
    Null,
    /// To a server that is connected to.
    Proxy { addr: String, proxy_header: bool, frontend_tls: Option<TlsFiles> },
    /// To a server that is handed the socket.
    Pass { path: String, frontend_tls: Option<TlsFiles> },
}

/// The contents of a [`BackendType`].
pub enum BackendTypeView {
    Null,
    Proxy { addr: Seq<char>, proxy_header: bool, frontend_tls: Option<TlsView> },
    Pass { path: Seq<char>, frontend_tls: Option<TlsView> },
}

impl View for BackendType {
    type V = BackendTypeView;

    open spec fn view(&self) -> BackendTypeView {
        match *self {
            BackendType::Null => BackendTypeView::Null,
            BackendType::Proxy { addr, proxy_header, frontend_tls } => BackendTypeView::Proxy {
                addr: addr@,
                proxy_header,
                frontend_tls: tls_view(frontend_tls),
            },
            BackendType::Pass { path, frontend_tls } => BackendTypeView::Pass {
                path: path@,
                frontend_tls: tls_view(frontend_tls),
            },
        }
    }
}

/// A backend as it is configured.
#[derive(Debug)]
pub struct BackendConfig {
    pub backend_type: Option<BackendType>,
    pub frontend_tls: Option<TlsFiles>,
    /// The backend to use where this one cannot be reached.
    pub sorry: Option<Box<BackendConfig>>,
}

/// The contents of a [`BackendConfig`].
pub struct BackendConfigView {
    pub backend_type: Option<BackendTypeView>,
    pub frontend_tls: Option<TlsView>,
    pub sorry: Option<Box<BackendConfigView>>,
}

/// The contents of a configured backend.
pub open spec fn backend_config_view(pb: BackendConfig) -> BackendConfigView
    decreases pb,
{
    BackendConfigView {
        backend_type: match pb.backend_type {
            None => None,
            Some(be) => Some(be@),
        },
        frontend_tls: tls_view(pb.frontend_tls),
        sorry: match pb.sorry {
            None => None,
            Some(s) => Some(Box::new(backend_config_view(*s))),
        },
    }
}

impl View for BackendConfig {
    type V = BackendConfigView;

    open spec fn view(&self) -> BackendConfigView {
        backend_config_view(*self)
    }
}

/// A rule as it is configured.
#[derive(Debug)]
pub struct RuleConfig {
    pub regex: Option<String>,
    pub acl: Option<AclConfig>,
    /// How long a connection may last; 0 stands for no limit.
    pub max_lifetime_ms: u64,
    pub backend: Option<BackendConfig>,
}

/// The contents of a [`RuleConfig`].
pub struct RuleConfigView {
    pub regex: Option<Seq<char>>,
    pub acl: Option<AclConfigView>,
    pub max_lifetime_ms: u64,
    pub backend: Option<BackendConfigView>,
}

impl View for RuleConfig {
    type V = RuleConfigView;

    open spec fn view(&self) -> RuleConfigView {
        RuleConfigView {
            regex: match self.regex {
                None => None,
                Some(regex) => Some(regex@),
            },
            acl: match self.acl {
                None => None,
                Some(acl) => Some(acl@),
            },
            max_lifetime_ms: self.max_lifetime_ms,
            backend: match self.backend {
                None => None,
                Some(backend) => Some(backend@),
            },
        }
    }
}

/// A configuration as it is written.
#[derive(Debug)]
pub struct SniConfig {
    /// How long a connection may last; 0 stands for no limit.
    pub max_lifetime_ms: u64,
    /// How long it may take to route a connection; 0 stands for no limit.
    pub handshake_timeout_ms: u64,
    pub rules: Vec<RuleConfig>,
    pub default: Option<RuleConfig>,
}

/// The contents of a [`SniConfig`].
pub struct SniConfigView {
    pub max_lifetime_ms: u64,
    pub handshake_timeout_ms: u64,
    pub rules: Seq<RuleConfigView>,
    pub default: Option<RuleConfigView>,
}

impl View for SniConfig {
    type V = SniConfigView;

    open spec fn view(&self) -> SniConfigView {
        SniConfigView {
            max_lifetime_ms: self.max_lifetime_ms,
            handshake_timeout_ms: self.handshake_timeout_ms,
            rules: self.rules@.map_values(|rule: RuleConfig| rule@),
            default: match self.default {
                None => None,
                Some(rule) => Some(rule@),
            },
        }
    }
}

/// Why a configuration cannot be loaded.
#[derive(Clone, Copy, Debug, PartialEq, Eq, Structural)]
pub enum ConfigError {
    /// The text is not a configuration.
    Unreadable,
    /// There is no default rule.
    DefaultMissing,
    /// The default rule has a regular expression.
    DefaultHasRegex,
    /// A rule has no regular expression.
    NoRegex,
    /// A rule's regular expression cannot be compiled.
    BadRegex,
    /// A rule's access control cannot be loaded.
    Acl(AclError),
    /// A rule has no backend.
    NoBackend,
    /// A backend does not say where connections go.
    NoBackendType,
    /// A sorry server has a sorry server of its own.
    SorryHasSorry,
    /// A sorry server does not say where connections go.
    SorryWithoutType,
    /// A backend that closes connections has a sorry server.
    NullWithSorry,
    /// TLS at the router is for TCP only.
    FrontendTlsUnsupported,
    /// Sorry servers are for TCP only.
    SorryUnsupported,
    /// PROXY headers are for TCP only.
    ProxyHeaderUnsupported,
    /// Handing over sockets is for TCP only.
    PassUnsupported,
    /// A backend's address could not be resolved.
    Unresolved,
}

/// A limit in milliseconds: 0 stands for none.
pub open spec fn limit(ms: u64) -> Option<u64> {
    if ms > 0 {
        Some(ms)
    } else {
        None
    }
}

/// Reads a limit in milliseconds.
pub fn load_limit(ms: u64) -> (r: Option<u64>)
    ensures
        r == limit(ms),
{
    if ms > 0 {
        Some(ms)
    } else {
        None
    }
}

/// The regular expression of a rule. The default rule has the empty one and may
/// not give any, not even that one; another rule must give one.
pub open spec fn regex_of(rule: RuleConfigView, is_default: bool) -> Result<
    Seq<char>,
    ConfigError,
> {
    match rule.regex {
        Some(regex) => if is_default {
            Err(ConfigError::DefaultHasRegex)
        } else {
            Ok(regex)
        },
        None => if is_default {
            Ok(Seq::empty())
        } else {
            Err(ConfigError::NoRegex)
        },
    }
}

/// Access control that lets every client through.
pub open spec fn accept_all() -> AclView {
    AclView { rules: Seq::empty(), default_action: AclAction::Accept }
}

/// The access control of a rule; every client is let through without any.
pub open spec fn acl_of(rule: RuleConfigView) -> Result<AclView, ConfigError> {
    match rule.acl {
        None => Ok(accept_all()),
        Some(pb) => match acl::acl_loaded(pb) {
            Ok(acl) => Ok(acl),
            Err(e) => Err(ConfigError::Acl(e)),
        },
    }
}

/// Which clients a rule is for, and how long their connections may last.
#[derive(Debug)]
pub struct Matcher {
    pub re: Pattern,
    pub acl: Acl,
    pub timeout: Option<u64>,
}

/// The contents of a [`Matcher`].
pub struct MatcherView {
    pub re: Seq<char>,
    pub acl: AclView,
    pub timeout: Option<u64>,
}

impl View for Matcher {
    type V = MatcherView;

    open spec fn view(&self) -> MatcherView {
        MatcherView { re: self.re@, acl: self.acl@, timeout: self.timeout }
    }
}

/// What loading the part of a rule that picks clients gives.
pub open spec fn matcher_loaded(rule: RuleConfigView, is_default: bool) -> Result<
    MatcherView,
    ConfigError,
> {
    match regex_of(rule, is_default) {
        Err(e) => Err(e),
        Ok(re) => if !pattern::regex_valid(re) && re.len() > 0 {
            Err(ConfigError::BadRegex)
        } else {
            match acl_of(rule) {
                Err(e) => Err(e),
                Ok(acl) => Ok(MatcherView { re, acl, timeout: limit(rule.max_lifetime_ms) }),
            }
        },
    }
}

/// The text of a rule's regular expression.
pub fn rule_regex(rule: &RuleConfig, is_default: bool) -> (r: Result<String, ConfigError>)
    ensures
        match r {
            Ok(re) => regex_of(rule@, is_default) == Ok::<Seq<char>, ConfigError>(re@),
            Err(e) => regex_of(rule@, is_default) == Err::<Seq<char>, ConfigError>(e),
        },
{
    match &rule.regex {
        Some(regex) => if is_default {
            Err(ConfigError::DefaultHasRegex)
        } else {
            Ok(regex.clone())
        },
        None => if is_default {
            let empty = String::new();
            assert(empty@ =~= Seq::<char>::empty());
            Ok(empty)
        } else {
            Err(ConfigError::NoRegex)
        },
    }
}

/// Loads the access control of a rule.
pub fn rule_acl(rule: &RuleConfig) -> (r: Result<Acl, ConfigError>)
    ensures
        match r {
            Ok(acl) => acl_of(rule@) == Ok::<AclView, ConfigError>(acl@) && acl@.wf(),
            Err(e) => acl_of(rule@) == Err::<AclView, ConfigError>(e),
        },
{
    match &rule.acl {
        None => {
            let acl = Acl { rules: Vec::new(), default_action: AclAction::Accept };
            assert(acl@.rules =~= Seq::<acl::AclRule>::empty());
            Ok(acl)
        },
        Some(pb) => match load_acl(pb) {
            Ok(acl) => Ok(acl),
            Err(e) => Err(ConfigError::Acl(e)),
        },
    }
}

/// Loads the part of a rule that picks clients.
pub fn load_matcher(rule: &RuleConfig, is_default: bool) -> (r: Result<Matcher, ConfigError>)
    ensures
        match r {
            Ok(m) => matcher_loaded(rule@, is_default) == Ok::<MatcherView, ConfigError>(m@)
                && m@.acl.wf(),
            Err(e) => matcher_loaded(rule@, is_default) == Err::<MatcherView, ConfigError>(e),
        },
{
    let text = match rule_regex(rule, is_default) {
        Ok(text) => text,
        Err(e) => return Err(e),
    };
    let re = match Pattern::new(text) {
        Some(re) => re,
        None => return Err(ConfigError::BadRegex),
    };
    let acl = match rule_acl(rule) {
        Ok(acl) => acl,
        Err(e) => return Err(e),
    };
    Ok(Matcher { re, acl, timeout: load_limit(rule.max_lifetime_ms) })
}

/// A rule that can be loaded keeps the regular expression that it gives, or, if
/// it is the default rule, has none; it lasts as long as it says, and without
/// limit where it says 0; and it lets every client through unless it gives access
/// control.
pub proof fn lemma_matcher_keeps_what_is_given(rule: RuleConfigView, is_default: bool, peer: u128)
    ensures
        matcher_loaded(rule, is_default) matches Ok(m) ==> {
            &&& is_default ==> rule.regex is None && m.re.len() == 0
            &&& !is_default ==> rule.regex == Some(m.re)
            &&& rule.max_lifetime_ms == 0 ==> m.timeout is None
            &&& rule.max_lifetime_ms > 0 ==> m.timeout == Some(rule.max_lifetime_ms)
            &&& rule.acl is None ==> acl::action_for(m.acl, peer) == AclAction::Accept
            &&& rule.acl matches Some(pb) ==> acl::acl_loaded(pb) == Ok::<AclView, AclError>(m.acl)
        },
{
}

/// What a rule is refused for: first a regular expression that must not or must
/// be there, then one that does not compile, then its access control; and for
/// nothing else.
pub proof fn lemma_why_a_matcher_is_refused(rule: RuleConfigView, is_default: bool)
    ensures
        is_default && rule.regex is Some ==> matcher_loaded(rule, is_default) == Err::<
            MatcherView,
            ConfigError,
        >(ConfigError::DefaultHasRegex),
        !is_default && rule.regex is None ==> matcher_loaded(rule, is_default) == Err::<
            MatcherView,
            ConfigError,
        >(ConfigError::NoRegex),
        !is_default && (rule.regex matches Some(re) && re.len() > 0 && !pattern::regex_valid(re))
            ==> matcher_loaded(rule, is_default) == Err::<MatcherView, ConfigError>(
            ConfigError::BadRegex,
        ),
        (is_default && rule.regex is None || !is_default && (rule.regex matches Some(re) && (
        re.len() == 0 || pattern::regex_valid(re)))) ==> match rule.acl {
            None => matcher_loaded(rule, is_default) is Ok,
            Some(pb) => match acl::acl_loaded(pb) {
                Ok(_) => matcher_loaded(rule, is_default) is Ok,
                Err(e) => matcher_loaded(rule, is_default) == Err::<MatcherView, ConfigError>(
                    ConfigError::Acl(e),
                ),
            },
        },
{
}

/// What a configuration says is what is written in it, rule by rule.
pub proof fn lemma_config_says_what_it_holds(config: SniConfig, rule: RuleConfig)
    ensures
        config@.max_lifetime_ms == config.max_lifetime_ms,
        config@.handshake_timeout_ms == config.handshake_timeout_ms,
        config@.rules.len() == config.rules.len(),
        forall|i: int|
            0 <= i < config.rules.len() ==> #[trigger] config@.rules[i] == config.rules[i]@,
        config@.default is Some <==> config.default is Some,
        config.default matches Some(default) ==> config@.default == Some(default@),
        rule@.regex is Some <==> rule.regex is Some,
        rule.regex matches Some(regex) ==> rule@.regex == Some(regex@),
        rule@.acl is Some <==> rule.acl is Some,
        rule.acl matches Some(acl) ==> rule@.acl == Some(acl@),
        rule@.max_lifetime_ms == rule.max_lifetime_ms,
        rule@.backend is Some <==> rule.backend is Some,
        rule.backend matches Some(backend) ==> rule@.backend == Some(backend@),
{
}

/// What a configured backend says is what is written in it: where it goes, its
/// TLS files, and its sorry server.
pub proof fn lemma_backends_say_what_they_hold(pb: BackendConfig, be: BackendType, files: TlsFiles)
    ensures
        pb@.backend_type is Some <==> pb.backend_type is Some,
        pb.backend_type matches Some(be) ==> pb@.backend_type == Some(be@),
        pb@.frontend_tls is Some <==> pb.frontend_tls is Some,
        pb.frontend_tls matches Some(files) ==> pb@.frontend_tls == Some(files@),
        pb@.sorry is Some <==> pb.sorry is Some,
        pb.sorry matches Some(s) ==> (pb@.sorry matches Some(other) && *other == s@),
        match be {
            BackendType::Null => be@ is Null,
            BackendType::Proxy { addr, proxy_header, frontend_tls } =>
                be@ matches BackendTypeView::Proxy {
                addr: to,
                proxy_header: header,
                frontend_tls: inner,
            } && to == addr@ && header == proxy_header && (inner is Some <==> frontend_tls is Some)
                && (frontend_tls is Some ==> inner == Some(frontend_tls->0@)),
            BackendType::Pass { path, frontend_tls } => be@ matches BackendTypeView::Pass {
                path: to,
                frontend_tls: inner,
            } && to == path@ && (inner is Some <==> frontend_tls is Some) && (
            frontend_tls is Some ==> inner == Some(frontend_tls->0@)),
        },
        files@.cert_file == files.cert_file@,
        files@.key_file == files.key_file@,
{
}

} // verus!
