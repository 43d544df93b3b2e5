//! The configuration of the TCP router.

use vstd::prelude::*;

use crate::acl::{Acl, AclView};
use crate::config;
use crate::config::{
    load_limit, load_matcher, BackendConfig, BackendConfigView, BackendType, BackendTypeView,
    ConfigError, RuleConfig, RuleConfigView, SniConfig, SniConfigView, TlsFiles, TlsView,
};
use crate::pattern::Pattern;
use crate::text;
use crate::text::parse_config;

verus! {

/// Where a connection goes.
#[derive(Debug)]
pub enum Backend {
    /// Nowhere: it is closed.
    Null,
    /// To the server at a Unix socket, which is handed the client's socket and
    /// the bytes read so far.
    Pass { path: String, frontend_tls: Option<TlsFiles>, sorry: Option<Box<Backend>> },
    /// To a server that is connected to. The address is resolved on every
    /// connection.
    Proxy {
        addr: String,
        proxy_header: bool,
        frontend_tls: Option<TlsFiles>,
        sorry: Option<Box<Backend>>,
    },
}

/// The contents of a [`Backend`].
pub enum BackendView {
    Null,
    Pass { path: Seq<char>, frontend_tls: Option<TlsView>, sorry: Option<Box<BackendView>> },
    Proxy {
        addr: Seq<char>,
        proxy_header: bool,
        frontend_tls: Option<TlsView>,
        sorry: Option<Box<BackendView>>,
    },
}

/// The contents of a backend.
pub open spec fn backend_view(backend: Backend) -> BackendView
    decreases backend,
{
    match backend {
        Backend::Null => BackendView::Null,
        Backend::Pass { path, frontend_tls, sorry } => BackendView::Pass {
            path: path@,
            frontend_tls: config::tls_view(frontend_tls),
            sorry: match sorry {
                None => None,
                Some(s) => Some(Box::new(backend_view(*s))),
            },
        },
        Backend::Proxy { addr, proxy_header, frontend_tls, sorry } => BackendView::Proxy {
            addr: addr@,
            proxy_header,
            frontend_tls: config::tls_view(frontend_tls),
            sorry: match sorry {
                None => None,
                Some(s) => Some(Box::new(backend_view(*s))),
            },
        },
    }
}

impl View for Backend {
    type V = BackendView;

    open spec fn view(&self) -> BackendView {
        backend_view(*self)
    }
}

/// Which clients go where.
#[derive(Debug)]
pub struct Rule {
    pub re: Pattern,
    pub backend: Backend,
    pub acl: Acl,
    pub timeout: Option<u64>,
}

/// The contents of a [`Rule`].
pub struct RuleView {
    pub re: Seq<char>,
    pub backend: BackendView,
    pub acl: AclView,
    pub timeout: Option<u64>,
}

impl View for Rule {
    type V = RuleView;

    open spec fn view(&self) -> RuleView {
        RuleView { re: self.re@, backend: self.backend@, acl: self.acl@, timeout: self.timeout }
    }
}

/// A loaded configuration. Times are in milliseconds.
#[derive(Debug)]
pub struct Config {
    pub max_lifetime: Option<u64>,
    pub handshake_timeout: Option<u64>,
    pub rules: Vec<Rule>,
    pub default: Rule,
}

/// The contents of a [`Config`].
pub struct ConfigView {
    pub max_lifetime: Option<u64>,
    pub handshake_timeout: Option<u64>,
    pub rules: Seq<RuleView>,
    pub default: RuleView,
}

/// The contents of rules.
pub open spec fn rules_view(rules: Seq<Rule>) -> Seq<RuleView> {
    rules.map_values(|rule: Rule| rule@)
}

impl View for Config {
    type V = ConfigView;

    open spec fn view(&self) -> ConfigView {
        ConfigView {
            max_lifetime: self.max_lifetime,
            handshake_timeout: self.handshake_timeout,
            rules: rules_view(self.rules@),
            default: self.default@,
        }
    }
}

/// The TLS files of a backend: those given beside its kind, or else those given
/// within.
pub open spec fn tls_of(outer: Option<TlsView>, inner: Option<TlsView>) -> Option<TlsView> {
    match outer {
        Some(_) => outer,
        None => inner,
    }
}

/// The backend of a given kind with an already loaded sorry server.
pub open spec fn backend_with(
    be: BackendTypeView,
    frontend_tls: Option<TlsView>,
    sorry: Option<Box<BackendView>>,
) -> Result<BackendView, ConfigError> {
    match be {
        BackendTypeView::Null => if sorry is Some {
            Err(ConfigError::NullWithSorry)
        } else {
            Ok(BackendView::Null)
        },
        BackendTypeView::Proxy { addr, proxy_header, frontend_tls: inner } => Ok(
            BackendView::Proxy {
                addr,
                proxy_header,
                frontend_tls: tls_of(frontend_tls, inner),
                sorry,
            },
        ),
        BackendTypeView::Pass { path, frontend_tls: inner } => Ok(
            BackendView::Pass { path, frontend_tls: tls_of(frontend_tls, inner), sorry },
        ),
    }
}

/// What loading a backend gives. A sorry server has none of its own.
pub open spec fn backend_loaded(
    be: BackendTypeView,
    frontend_tls: Option<TlsView>,
    sorry: Option<Box<BackendConfigView>>,
) -> Result<BackendView, ConfigError> {
    match sorry {
        None => backend_with(be, frontend_tls, None),
        Some(s) => if s.sorry is Some {
            Err(ConfigError::SorryHasSorry)
        } else {
            match s.backend_type {
                None => Err(ConfigError::SorryWithoutType),
                Some(sorry_type) => match backend_with(sorry_type, s.frontend_tls, None) {
                    Err(e) => Err(e),
                    Ok(loaded) => backend_with(be, frontend_tls, Some(Box::new(loaded))),
                },
            }
        },
    }
}

/// The backend of a rule.
pub open spec fn rule_backend(rule: RuleConfigView) -> Result<BackendView, ConfigError> {
    match rule.backend {
        None => Err(ConfigError::NoBackend),
        Some(backend) => match backend.backend_type {
            None => Err(ConfigError::NoBackendType),
            Some(be) => backend_loaded(be, backend.frontend_tls, backend.sorry),
        },
    }
}

/// What loading a rule gives.
pub open spec fn rule_loaded(rule: RuleConfigView, is_default: bool) -> Result<
    RuleView,
    ConfigError,
> {
    match config::matcher_loaded(rule, is_default) {
        Err(e) => Err(e),
        Ok(m) => match rule_backend(rule) {
            Err(e) => Err(e),
            Ok(backend) => Ok(RuleView { re: m.re, backend, acl: m.acl, timeout: m.timeout }),
        },
    }
}

/// What loading rules gives: the first rule that cannot be loaded decides.
pub open spec fn rules_loaded(rules: Seq<RuleConfigView>) -> Result<Seq<RuleView>, ConfigError>
    decreases rules.len(),
{
    if rules.len() == 0 {
        Ok(Seq::empty())
    } else {
        match rule_loaded(rules[0], false) {
            Err(e) => Err(e),
            Ok(first) => match rules_loaded(rules.skip(1)) {
                Err(e) => Err(e),
                Ok(rest) => Ok(seq![first] + rest),
            },
        }
    }
}

/// What loading a configuration gives. The default rule is loaded first.
pub open spec fn config_loaded(pb: SniConfigView) -> Result<ConfigView, ConfigError> {
    match pb.default {
        None => Err(ConfigError::DefaultMissing),
        Some(rule) => match rule_loaded(rule, true) {
            Err(e) => Err(e),
            Ok(default) => match rules_loaded(pb.rules) {
                Err(e) => Err(e),
                Ok(rules) => Ok(
                    ConfigView {
                        max_lifetime: config::limit(pb.max_lifetime_ms),
                        handshake_timeout: config::limit(pb.handshake_timeout_ms),
                        rules,
                        default,
                    },
                ),
            },
        },
    }
}

/// What loading a configuration file gives.
pub open spec fn text_loaded(text: Seq<char>) -> Result<ConfigView, ConfigError> {
    match text::config_in(text) {
        None => Err(ConfigError::Unreadable),
        Some(pb) => config_loaded(pb),
    }
}

/// The contents of a loaded backend.
pub open spec fn loaded_view(r: Result<Backend, ConfigError>) -> Result<BackendView, ConfigError> {
    match r {
        Ok(backend) => Ok(backend@),
        Err(e) => Err(e),
    }
}

/// The contents of a sorry server, if there is one.
pub open spec fn sorry_view(sorry: Option<Box<Backend>>) -> Option<Box<BackendView>> {
    match sorry {
        None => None,
        Some(s) => Some(Box::new(s@)),
    }
}

/// The contents of a configured sorry server, if there is one.
pub open spec fn sorry_config_view(sorry: Option<Box<BackendConfig>>) -> Option<
    Box<BackendConfigView>,
> {
    match sorry {
        None => None,
        Some(s) => Some(Box::new(s@)),
    }
}

fn choose_tls(outer: &Option<TlsFiles>, inner: &Option<TlsFiles>) -> (r: Option<TlsFiles>)
    ensures
        config::tls_view(r) == tls_of(config::tls_view(*outer), config::tls_view(*inner)),
{
    match outer {
        Some(files) => Some(files.clone()),
        None => match inner {
            Some(files) => Some(files.clone()),
            None => None,
        },
    }
}

fn make_backend(
    be: &BackendType,
    frontend_tls: &Option<TlsFiles>,
    sorry: Option<Box<Backend>>,
) -> (r: Result<Backend, ConfigError>)
    ensures
        loaded_view(r) == backend_with(be@, config::tls_view(*frontend_tls), sorry_view(sorry)),
{
    match be {
        BackendType::Null => if sorry.is_some() {
            Err(ConfigError::NullWithSorry)
        } else {
            Ok(Backend::Null)
        },
        BackendType::Proxy { addr, proxy_header, frontend_tls: inner } => Ok(
            Backend::Proxy {
                addr: addr.clone(),
                proxy_header: *proxy_header,
                frontend_tls: choose_tls(frontend_tls, inner),
                sorry,
            },
        ),
        BackendType::Pass { path, frontend_tls: inner } => Ok(
            Backend::Pass {
                path: path.clone(),
                frontend_tls: choose_tls(frontend_tls, inner),
                sorry,
            },
        ),
    }
}

/// Loads a backend with its sorry server.
pub fn load_backend(
    be: &BackendType,
    frontend_tls: &Option<TlsFiles>,
    sorry: &Option<Box<BackendConfig>>,
) -> (r: Result<Backend, ConfigError>)
    ensures
        loaded_view(r) == backend_loaded(
            be@,
            config::tls_view(*frontend_tls),
            sorry_config_view(*sorry),
        ),
{
    match sorry {
        None => make_backend(be, frontend_tls, None),
        Some(s) => {
            if s.sorry.is_some() {
                return Err(ConfigError::SorryHasSorry);
            }
            let sorry_type = match &s.backend_type {
                Some(sorry_type) => sorry_type,
                None => return Err(ConfigError::SorryWithoutType),
            };
            match make_backend(sorry_type, &s.frontend_tls, None) {
                Ok(loaded) => make_backend(be, frontend_tls, Some(Box::new(loaded))),
                Err(e) => Err(e),
            }
        },
    }
}

/// Loads a rule.
pub fn load_rule(rule: &RuleConfig, is_default: bool) -> (r: Result<Rule, ConfigError>)
    ensures
        match r {
            Ok(loaded) => rule_loaded(rule@, is_default) == Ok::<RuleView, ConfigError>(loaded@)
                && loaded@.acl.wf(),
            Err(e) => rule_loaded(rule@, is_default) == Err::<RuleView, ConfigError>(e),
        },
{
    let m = match load_matcher(rule, is_default) {
        Ok(m) => m,
        Err(e) => return Err(e),
    };
    let backend = match &rule.backend {
        Some(backend) => backend,
        None => return Err(ConfigError::NoBackend),
    };
    let be = match &backend.backend_type {
        Some(be) => be,
        None => return Err(ConfigError::NoBackendType),
    };
    match load_backend(be, &backend.frontend_tls, &backend.sorry) {
        Ok(backend) => Ok(Rule { re: m.re, backend, acl: m.acl, timeout: m.timeout }),
        Err(e) => Err(e),
    }
}

/// Loads a configuration.
pub fn load_config(pb: &SniConfig) -> (r: Result<Config, ConfigError>)
    ensures
        match r {
            Ok(config) => config_loaded(pb@) == Ok::<ConfigView, ConfigError>(config@)
                && config.wf(),
            Err(e) => config_loaded(pb@) == Err::<ConfigView, ConfigError>(e),
        },
{
    let default = match &pb.default {
        Some(rule) => match load_rule(rule, true) {
            Ok(default) => default,
            Err(e) => return Err(e),
        },
        None => return Err(ConfigError::DefaultMissing),
    };
    let mut rules: Vec<Rule> = Vec::new();
    let mut i: usize = 0;
    let ghost all = pb@.rules;
    assert(all.skip(0) =~= all);
    assert(rules_view(rules@) =~= Seq::<RuleView>::empty());
    proof {
        if let Ok(rest) = rules_loaded(all) {
            assert(Seq::<RuleView>::empty() + rest =~= rest);
        }
    }
    while i < pb.rules.len()
        invariant
            i <= pb.rules@.len(),
            all == pb@.rules,
            rules_loaded(all) == (match rules_loaded(all.skip(i as int)) {
                Err(e) => Err::<Seq<RuleView>, ConfigError>(e),
                Ok(rest) => Ok(rules_view(rules@) + rest),
            }),
            forall|j: int| 0 <= j < rules@.len() ==> (#[trigger] rules@[j])@.acl.wf(),
            pb@.default matches Some(rule) && rule_loaded(rule, true) == Ok::<
                RuleView,
                ConfigError,
            >(default@),
            default@.acl.wf(),
        decreases pb.rules@.len() - i,
    {
        let source = &pb.rules[i];
        assert(all.skip(i as int)[0] == source@);
        assert(all.skip(i as int).skip(1) =~= all.skip(i + 1));
        let rule = match load_rule(source, false) {
            Ok(rule) => rule,
            Err(e) => return Err(e),
        };
        let ghost before = rules@;
        rules.push(rule);
        proof {
            assert(rules_view(rules@) =~= rules_view(before).push(rule@));
            if let Ok(rest) = rules_loaded(all.skip(i + 1)) {
                assert(rules_view(before) + (seq![rule@] + rest) =~= rules_view(rules@) + rest);
            }
        }
        i = i + 1;
    }
    assert(rules_view(rules@) + Seq::<RuleView>::empty() =~= rules_view(rules@));
    Ok(
        Config {
            max_lifetime: load_limit(pb.max_lifetime_ms),
            handshake_timeout: load_limit(pb.handshake_timeout_ms),
            rules,
            default,
        },
    )
}

/// Loads a configuration file.
pub fn load_text(text: &str) -> (r: Result<Config, ConfigError>)
    ensures
        match r {
            Ok(config) => text_loaded(text@) == Ok::<ConfigView, ConfigError>(config@)
                && config.wf(),
            Err(e) => text_loaded(text@) == Err::<ConfigView, ConfigError>(e),
        },
{
    match parse_config(text) {
        Some(pb) => load_config(&pb),
        None => Err(ConfigError::Unreadable),
    }
}

/// The backend to use where `backend` cannot be reached.
pub open spec fn sorry_of(backend: BackendView) -> Option<Box<BackendView>> {
    match backend {
        BackendView::Null => None,
        BackendView::Pass { sorry, .. } => sorry,
        BackendView::Proxy { sorry, .. } => sorry,
    }
}

/// A loaded sorry server has no sorry server of its own.
pub proof fn lemma_sorry_server_is_last(
    be: BackendTypeView,
    frontend_tls: Option<TlsView>,
    sorry: Option<Box<BackendConfigView>>,
)
    ensures
        backend_loaded(be, frontend_tls, sorry) matches Ok(backend) ==> (sorry_of(
            backend,
        ) matches Some(s) ==> sorry_of(*s) is None),
{
}

/// A default rule with a regular expression is refused, even with an empty one.
pub proof fn lemma_default_rule_has_no_regex(pb: SniConfigView)
    requires
        pb.default matches Some(rule) && rule.regex is Some,
    ensures
        config_loaded(pb) == Err::<ConfigView, ConfigError>(ConfigError::DefaultHasRegex),
{
}

/// Every loaded rule is the loaded form of the rule at the same place.
pub proof fn lemma_rules_keep_their_order(rules: Seq<RuleConfigView>, i: int)
    requires
        rules_loaded(rules) is Ok,
        0 <= i < rules.len(),
    ensures
        rules_loaded(rules) matches Ok(loaded) && loaded.len() == rules.len() && rule_loaded(
            rules[i],
            false,
        ) == Ok::<RuleView, ConfigError>(loaded[i]),
    decreases rules.len(),
{
    if i > 0 {
        lemma_rules_keep_their_order(rules.skip(1), i - 1);
        assert(rules.skip(1)[i - 1] == rules[i]);
    } else if rules.len() > 1 {
        lemma_rules_keep_their_order(rules.skip(1), 0);
    }
}

impl Config {
    /// Whether all access control in the configuration is well formed.
    pub open spec fn wf(self) -> bool {
        &&& self.default@.acl.wf()
        &&& forall|j: int| 0 <= j < self.rules@.len() ==> (#[trigger] self.rules@[j])@.acl.wf()
    }
}

/// A backend keeps what its configuration gives. TLS files beside the kind of
/// the backend take precedence over those within. The sorry server, if there is
/// one, is kept in the same way.
pub proof fn lemma_backend_keeps_what_is_given(
    be: BackendTypeView,
    outer: Option<TlsView>,
    sorry: Option<Box<BackendConfigView>>,
)
    ensures
        backend_loaded(be, outer, sorry) matches Ok(backend) ==> {
            &&& be is Null <==> backend is Null
            &&& be matches BackendTypeView::Proxy { addr, proxy_header, frontend_tls } ==> (
            backend matches BackendView::Proxy {
                addr: kept_addr,
                proxy_header: kept_header,
                frontend_tls: kept_tls,
                ..
            } && kept_addr == addr && kept_header == proxy_header && (outer is Some ==> kept_tls
                == outer) && (outer is None ==> kept_tls == frontend_tls))
            &&& be matches BackendTypeView::Pass { path, frontend_tls } ==> (
            backend matches BackendView::Pass { path: kept_path, frontend_tls: kept_tls, .. }
                && kept_path == path && (outer is Some ==> kept_tls == outer) && (outer is None
                ==> kept_tls == frontend_tls))
            &&& sorry is None <==> sorry_of(backend) is None
            &&& sorry matches Some(s) ==> (s.backend_type matches Some(kind) && (sorry_of(
                backend,
            ) matches Some(kept) && backend_loaded(kind, s.frontend_tls, None) == Ok::<
                BackendView,
                ConfigError,
            >(*kept)))
        },
{
}

/// What a backend is refused for: a sorry server that has one of its own, that
/// does not say where connections go, or that goes with a backend that closes
/// connections; and for nothing else.
pub proof fn lemma_why_a_backend_is_refused(
    be: BackendTypeView,
    outer: Option<TlsView>,
    sorry: Option<Box<BackendConfigView>>,
)
    ensures
        sorry is None ==> backend_loaded(be, outer, sorry) is Ok,
        sorry matches Some(s) ==> {
            &&& s.sorry is Some ==> backend_loaded(be, outer, sorry) == Err::<
                BackendView,
                ConfigError,
            >(ConfigError::SorryHasSorry)
            &&& s.sorry is None && s.backend_type is None ==> backend_loaded(be, outer, sorry)
                == Err::<BackendView, ConfigError>(ConfigError::SorryWithoutType)
            &&& s.sorry is None && s.backend_type is Some && be is Null ==> backend_loaded(
                be,
                outer,
                sorry,
            ) == Err::<BackendView, ConfigError>(ConfigError::NullWithSorry)
            &&& s.sorry is None && s.backend_type is Some && !(be is Null) ==> backend_loaded(
                be,
                outer,
                sorry,
            ) is Ok
        },
{
}

/// A rule is loaded with what picks its clients and with its backend; it needs a
/// backend, and the backend must say where connections go.
pub proof fn lemma_rule_keeps_what_is_given(rule: RuleConfigView, is_default: bool)
    ensures
        rule_loaded(rule, is_default) matches Ok(loaded) ==> {
            &&& config::matcher_loaded(rule, is_default) matches Ok(m) && m.re == loaded.re && m.acl
                == loaded.acl && m.timeout == loaded.timeout
            &&& rule.backend matches Some(pb) && pb.backend_type matches Some(be)
                && backend_loaded(be, pb.frontend_tls, pb.sorry) == Ok::<BackendView, ConfigError>(
                loaded.backend,
            )
        },
        config::matcher_loaded(rule, is_default) matches Err(e) ==> rule_loaded(rule, is_default)
            == Err::<RuleView, ConfigError>(e),
        config::matcher_loaded(rule, is_default) is Ok ==> match rule.backend {
            None => rule_loaded(rule, is_default) == Err::<RuleView, ConfigError>(
                ConfigError::NoBackend,
            ),
            Some(pb) => match pb.backend_type {
                None => rule_loaded(rule, is_default) == Err::<RuleView, ConfigError>(
                    ConfigError::NoBackendType,
                ),
                Some(be) => match backend_loaded(be, pb.frontend_tls, pb.sorry) {
                    Ok(_) => rule_loaded(rule, is_default) is Ok,
                    Err(e) => rule_loaded(rule, is_default) == Err::<RuleView, ConfigError>(e),
                },
            },
        },
{
}

/// A configuration is loaded with its limits, where 0 stands for none, its
/// default rule and all of its rules in order. It is refused without a default
/// rule, and for the first rule, the default one before the others, that is
/// refused.
pub proof fn lemma_config_keeps_what_is_given(pb: SniConfigView, i: int)
    ensures
        config_loaded(pb) matches Ok(loaded) ==> {
            &&& pb.max_lifetime_ms == 0 ==> loaded.max_lifetime is None
            &&& pb.max_lifetime_ms > 0 ==> loaded.max_lifetime == Some(pb.max_lifetime_ms)
            &&& pb.handshake_timeout_ms == 0 ==> loaded.handshake_timeout is None
            &&& pb.handshake_timeout_ms > 0 ==> loaded.handshake_timeout == Some(
                pb.handshake_timeout_ms,
            )
            &&& pb.default matches Some(rule) && rule_loaded(rule, true) == Ok::<
                RuleView,
                ConfigError,
            >(loaded.default)
            &&& loaded.rules.len() == pb.rules.len()
            &&& 0 <= i < pb.rules.len() ==> rule_loaded(pb.rules[i], false) == Ok::<
                RuleView,
                ConfigError,
            >(loaded.rules[i])
        },
        pb.default is None ==> config_loaded(pb) == Err::<ConfigView, ConfigError>(
            ConfigError::DefaultMissing,
        ),
        (pb.default matches Some(rule) && rule_loaded(rule, true) is Err) ==> (
        config_loaded(pb) matches Err(e) && rule_loaded(pb.default->Some_0, true) == Err::<
            RuleView,
            ConfigError,
        >(e)),
{
    lemma_same_number_of_rules(pb.rules);
    if config_loaded(pb) is Ok && 0 <= i < pb.rules.len() {
        lemma_rules_keep_their_order(pb.rules, i);
    }
}

proof fn lemma_same_number_of_rules(rules: Seq<RuleConfigView>)
    ensures
        rules_loaded(rules) matches Ok(loaded) ==> loaded.len() == rules.len(),
    decreases rules.len(),
{
    if rules.len() > 0 {
        lemma_same_number_of_rules(rules.skip(1));
    }
}

/// Of the rules, the first that is refused is what they are refused for; if none
/// is, all are loaded.
pub proof fn lemma_first_bad_rule_is_reported(rules: Seq<RuleConfigView>, i: int)
    requires
        0 <= i <= rules.len(),
        forall|j: int| 0 <= j < i ==> rule_loaded(#[trigger] rules[j], false) is Ok,
    ensures
        i == rules.len() ==> rules_loaded(rules) is Ok,
        i < rules.len() ==> (rule_loaded(rules[i], false) matches Err(e) ==> rules_loaded(rules)
            == Err::<Seq<RuleView>, ConfigError>(e)),
    decreases i,
{
    if i > 0 {
        let rest = rules.skip(1);
        assert(rule_loaded(rules[0], false) is Ok);
        assert forall|j: int| 0 <= j < i - 1 implies rule_loaded(#[trigger] rest[j], false)
            is Ok by {
            assert(rest[j] == rules[j + 1]);
        }
        lemma_first_bad_rule_is_reported(rest, i - 1);
        if i < rules.len() {
            assert(rest[i - 1] == rules[i]);
        }
    }
}

/// What a backend says is what it holds, and so is what its sorry server says.
pub proof fn lemma_backends_say_what_they_hold(backend: Backend)
    ensures
        match backend {
            Backend::Null => backend@ is Null,
            Backend::Pass { path, frontend_tls, sorry } => backend@ matches BackendView::Pass {
                path: to,
                frontend_tls: files,
                sorry: other,
            } && to == path@ && (files is Some <==> frontend_tls is Some) && (frontend_tls is Some
                ==> files->0.cert_file == frontend_tls->0.cert_file@ && files->0.key_file
                == frontend_tls->0.key_file@) && (other is Some <==> sorry is Some) && (
            sorry is Some ==> *other->0 == sorry->0@),
            Backend::Proxy { addr, proxy_header, frontend_tls, sorry } =>
                backend@ matches BackendView::Proxy {
                addr: to,
                proxy_header: header,
                frontend_tls: files,
                sorry: other,
            } && to == addr@ && header == proxy_header && (files is Some <==> frontend_tls is Some)
                && (frontend_tls is Some ==> files->0.cert_file == frontend_tls->0.cert_file@
                && files->0.key_file == frontend_tls->0.key_file@) && (other is Some
                <==> sorry is Some) && (sorry is Some ==> *other->0 == sorry->0@),
        },
{
}

/// What a configuration says is what it holds, rule by rule.
pub proof fn lemma_config_says_what_it_holds(config: Config, rule: Rule)
    ensures
        config@.max_lifetime == config.max_lifetime,
        config@.handshake_timeout == config.handshake_timeout,
        config@.rules.len() == config.rules.len(),
        forall|i: int|
            0 <= i < config.rules.len() ==> #[trigger] config@.rules[i] == config.rules[i]@,
        config@.default == config.default@,
        rule@.re == rule.re@,
        rule@.backend == rule.backend@,
        rule@.acl == rule.acl@,
        rule@.timeout == rule.timeout,
{
}

/// A file that cannot be read is refused as such; one that can be is loaded as
/// what is read of it.
pub proof fn lemma_file_is_loaded_as_read(text: &str, r: Result<Config, ConfigError>)
    requires
        call_ensures(load_text, (text,), r),
    ensures
        text::config_in(text@) is None ==> (r matches Err(e) && e == ConfigError::Unreadable),
        text::config_in(text@) matches Some(pb) ==> match config_loaded(pb) {
            Ok(config) => r matches Ok(loaded) && loaded@ == config,
            Err(e) => r matches Err(error) && error == e,
        },
{
}

/// A backend that is loaded goes where the configuration says, and has a sorry
/// server if and only if one is configured. One that is refused is not loaded.
pub proof fn lemma_loaded_backend_goes_where_it_is_told(
    be: &BackendType,
    frontend_tls: &Option<TlsFiles>,
    sorry: &Option<Box<BackendConfig>>,
    r: Result<Backend, ConfigError>,
)
    requires
        call_ensures(load_backend, (be, frontend_tls, sorry), r),
    ensures
        r matches Ok(backend) ==> match *be {
            BackendType::Null => backend is Null && sorry is None,
            BackendType::Proxy { addr, proxy_header, .. } => backend matches Backend::Proxy {
                addr: to,
                proxy_header: header,
                sorry: other,
                ..
            } && to@ == addr@ && header == proxy_header && (other is Some <==> sorry is Some),
            BackendType::Pass { path, .. } => backend matches Backend::Pass {
                path: to,
                sorry: other,
                ..
            } && to@ == path@ && (other is Some <==> sorry is Some),
        },
        r matches Err(e) ==> sorry is Some,
        sorry matches Some(s) ==> {
            &&& s.sorry is Some ==> (r matches Err(e) && e == ConfigError::SorryHasSorry)
            &&& s.sorry is None && s.backend_type is None ==> (r matches Err(e) && e
                == ConfigError::SorryWithoutType)
            &&& s.sorry is None && s.backend_type is Some && be is Null ==> (r matches Err(e) && e
                == ConfigError::NullWithSorry)
        },
{
    reveal_with_fuel(backend_view, 2);
    reveal_with_fuel(config::backend_config_view, 2);
}

} // verus!
