use sni_router::acl::{
    acl_action, load_acl, rule_for_network, Acl, AclAction, AclConfig, AclError, AclRule,
    AclRuleConfig, IpNetwork,
};
use sni_router::addr::SocketAddr;
use sni_router::config::{load_limit, BackendConfig, BackendType, ConfigError, SniConfig};
use sni_router::pattern::{is_full_match, is_full_span, Pattern};
use sni_router::quic;
use sni_router::rules::{verdict, Verdict};
use sni_router::schema::config_schema;
use sni_router::tcp;
use sni_router::text::{parse_config, text_nesting, MAX_NESTING};

fn config(s: &str) -> SniConfig {
    parse_config(s).expect("text follows the schema")
}

/// Loads a TCP configuration from its text.
fn tcp_config(s: &str) -> Result<tcp::config::Config, ConfigError> {
    tcp::config::load_text(s)
}

/// Resolves the literal addresses that the tests use.
fn resolve(plan: &BackendConfig) -> Option<SocketAddr> {
    match quic::config::plan_backend(plan) {
        Ok(quic::config::Plan::Resolve(name)) if name == "[::1]:8443" => Some(SocketAddr::V6 {
            ip: 1,
            port: 8443,
            flowinfo: 0,
            scope_id: 0,
        }),
        _ => None,
    }
}

/// Loads a QUIC configuration from its text.
fn h3_config(s: &str) -> Result<quic::config::Config, ConfigError> {
    let pb = config(s);
    let default = pb
        .default
        .as_ref()
        .and_then(|r| r.backend.as_ref())
        .and_then(resolve);
    let resolved: Vec<Option<SocketAddr>> = pb
        .rules
        .iter()
        .map(|r| r.backend.as_ref().and_then(resolve))
        .collect();
    quic::config::load_config(&pb, default, &resolved)
}

#[test]
fn config_loads_handshake_timeout() {
    let config = tcp_config(
        r#"
default: <
        backend: <
            null: <>
        >
>
handshake_timeout_ms: 1234
"#,
    )
    .unwrap();
    assert_eq!(config.handshake_timeout, Some(1234));
    assert_eq!(config.max_lifetime, None);
}

#[test]
fn default_cant_have_regex() {
    let c = tcp_config(
        r#"
default: <
        regex: ""
        backend: <
            null: <>
        >
>
"#,
    );
    assert_eq!(c.err(), Some(ConfigError::DefaultHasRegex));
}

#[test]
fn h3_config_uses_proxy_addr_as_udp_backend() {
    let config = h3_config(
        r#"
rules: <
    regex: "www[.]example[.]com"
    backend: <
        proxy: <
            addr: "[::1]:8443"
        >
    >
>
default: <
    backend: <
        null: <>
    >
>
"#,
    )
    .unwrap();
    assert_eq!(
        config.rules[0].backend,
        quic::config::Backend::Udp {
            addr: SocketAddr::V6 {
                ip: 1,
                port: 8443,
                flowinfo: 0,
                scope_id: 0,
            },
        }
    );
    assert_eq!(config.default.backend, quic::config::Backend::Null);
    assert_eq!(config.rules[0].re.as_str(), "www[.]example[.]com");
}

#[test]
fn h3_config_rejects_tcp_only_pass_backend() {
    let config = h3_config(
        r#"
default: <
    backend: <
        pass: <
            path: "x.sock"
        >
    >
>
"#,
    );
    assert_eq!(config.err(), Some(ConfigError::PassUnsupported));
}

#[test]
fn h3_config_rejects_other_tcp_only_options() {
    let with = |inner: &str| h3_config(&format!("default: < backend: < {inner} > >")).err();
    assert_eq!(
        with(r#"proxy: < addr: "[::1]:8443" proxy_header: true >"#),
        Some(ConfigError::ProxyHeaderUnsupported)
    );
    assert_eq!(
        with(r#"null: <> frontend_tls: < cert_file: "c" key_file: "k" >"#),
        Some(ConfigError::FrontendTlsUnsupported)
    );
    assert_eq!(
        with(r#"proxy: < addr: "[::1]:8443" frontend_tls: < cert_file: "c" > >"#),
        Some(ConfigError::FrontendTlsUnsupported)
    );
    assert_eq!(
        with(r#"null: <> sorry: < null: <> >"#),
        Some(ConfigError::SorryUnsupported)
    );
    assert_eq!(
        with(r#"proxy: < addr: "nowhere" >"#),
        Some(ConfigError::Unresolved)
    );
    assert_eq!(with(""), Some(ConfigError::NoBackendType));
    assert_eq!(h3_config("default: <>").err(), Some(ConfigError::NoBackend));
    assert_eq!(h3_config("").err(), Some(ConfigError::DefaultMissing));
}

#[test]
fn example_config_loads() {
    let config = tcp_config(
        r#"
rules: <
        regex: "disabled[.]example[.]com"
        backend: <
                # Just close the connection.
                null: <>
        >
>
rules: <
        regex: "(www[.]|)example[.]com"
        backend: <
                proxy: <
                        addr: "localhost:8080"
                        frontend_tls: <
                                cert_file: "fullchain.pem"
                                key_file: "privkey.pem"
                        >
                        proxy_header: true,
                >
        >
>
rules: <
        regex: "admin[.]example[.]com"
        acl: <
                default_action: DROP
                rules: <
                        source: "192.168.0.0/16"
                        action: ACCEPT
                >
        >
        backend: <
                pass: <
                        path: "pass.sock",
                        frontend_tls: <
                                cert_file: "fullchain.pem"
                                key_file: "privkey.pem"
                        >
                >
        >
>
default: <
        backend: <
                proxy: <
                        addr: "localhost:444"
                        proxy_header: true,
                >
        >
>
"#,
    )
    .unwrap();
    assert_eq!(config.rules.len(), 3);
    assert!(matches!(
        config.rules[0].backend,
        tcp::config::Backend::Null
    ));
    match &config.rules[1].backend {
        tcp::config::Backend::Proxy {
            addr,
            proxy_header,
            frontend_tls: Some(files),
            sorry: None,
        } => {
            assert_eq!(addr, "localhost:8080");
            assert!(*proxy_header);
            assert_eq!(files.cert_file, "fullchain.pem");
            assert_eq!(files.key_file, "privkey.pem");
        }
        other => panic!("unexpected backend {other:?}"),
    }
    match &config.rules[2].backend {
        tcp::config::Backend::Pass {
            path,
            frontend_tls: Some(_),
            sorry: None,
        } => assert_eq!(path, "pass.sock"),
        other => panic!("unexpected backend {other:?}"),
    }
    assert_eq!(config.rules[2].acl.default_action, AclAction::Drop);
    assert_eq!(
        config.rules[2].acl.rules,
        vec![AclRule {
            addr: 0xffff_c0a8_0000,
            prefix_len: 112,
            action: AclAction::Accept,
        }]
    );
    assert_eq!(config.rules[0].acl.default_action, AclAction::Accept);
}

#[test]
fn text_that_does_not_follow_the_schema_is_refused() {
    for bad in [
        "no_such_field: 1",
        "max_lifetime_ms: \"x\"",
        "max_lifetime_ms: -1",
        "default: <",
        "default: < regex: \"x",
        "default: < backend: < null: <> pass: <> > >",
    ] {
        assert!(parse_config(bad).is_none(), "{bad}");
        assert_eq!(tcp_config(bad).err(), Some(ConfigError::Unreadable));
    }
    let schema = config_schema();
    assert_eq!(schema[0], 0x0a);
    assert!(schema.ends_with(b"\x12\x0c\x0a\x08CONTINUE\x10\x03\x62\x06proto3"));
}

#[test]
fn every_field_is_read() {
    let pb = config(
        r#"
rules: <
    regex: "b\303\274cher"
    max_lifetime_ms: 300
    acl: <
        rules: < source: "10.0.0.0/8" action: CONTINUE >
        rules: < source: "::/0" action: 2 >
        default_action: ACCEPT
    >
    backend: <
        proxy: <
            addr: "a:1"
            proxy_header: true
            frontend_tls: < cert_file: "c1" key_file: "k1" >
        >
        frontend_tls: < cert_file: "c2" key_file: "k2" >
        sorry: < pass: < path: "p" frontend_tls: < key_file: "k3" > > >
    >
>
rules: <>
max_lifetime_ms: 7
handshake_timeout_ms: 18446744073709551615
"#,
    );
    assert_eq!(pb.max_lifetime_ms, 7);
    assert_eq!(pb.handshake_timeout_ms, u64::MAX);
    assert!(pb.default.is_none());
    assert_eq!(pb.rules.len(), 2);
    let rule = &pb.rules[0];
    assert_eq!(rule.regex.as_deref(), Some("b\u{fc}cher"));
    assert_eq!(rule.max_lifetime_ms, 300);
    let acl = rule.acl.as_ref().unwrap();
    assert_eq!(acl.default_action, AclAction::Accept);
    assert_eq!(acl.rules.len(), 2);
    assert_eq!(acl.rules[0].source, "10.0.0.0/8");
    assert_eq!(acl.rules[0].action, AclAction::Continue);
    assert_eq!(acl.rules[1].action, AclAction::Drop);
    let backend = rule.backend.as_ref().unwrap();
    match &backend.backend_type {
        Some(BackendType::Proxy {
            addr,
            proxy_header,
            frontend_tls: Some(files),
        }) => {
            assert_eq!(addr, "a:1");
            assert!(*proxy_header);
            assert_eq!(files.cert_file, "c1");
            assert_eq!(files.key_file, "k1");
        }
        other => panic!("unexpected backend {other:?}"),
    }
    let files = backend.frontend_tls.as_ref().unwrap();
    assert_eq!((files.cert_file.as_str(), files.key_file.as_str()), ("c2", "k2"));
    let sorry = backend.sorry.as_ref().unwrap();
    match &sorry.backend_type {
        Some(BackendType::Pass {
            path,
            frontend_tls: Some(files),
        }) => {
            assert_eq!(path, "p");
            assert_eq!(files.cert_file, "");
            assert_eq!(files.key_file, "k3");
        }
        other => panic!("unexpected sorry server {other:?}"),
    }
    assert!(sorry.frontend_tls.is_none() && sorry.sorry.is_none());
    let empty = &pb.rules[1];
    assert!(empty.regex.is_none() && empty.acl.is_none() && empty.backend.is_none());
    assert_eq!(empty.max_lifetime_ms, 0);
}

#[test]
fn what_is_not_given_is_told_from_what_is_empty() {
    let pb = config("default: < regex: \"\" acl: < default_action: 7 > backend: <> >");
    let rule = pb.default.unwrap();
    assert_eq!(rule.regex.as_deref(), Some(""));
    assert_eq!(rule.acl.unwrap().default_action, AclAction::Unspecified);
    let backend = rule.backend.unwrap();
    assert!(backend.backend_type.is_none());
    let pb = config("default: < backend: < null: <> > max_lifetime_ms: 0 >");
    let rule = pb.default.unwrap();
    assert!(rule.regex.is_none());
    assert!(matches!(
        rule.backend.unwrap().backend_type,
        Some(BackendType::Null)
    ));
    assert_eq!(rule.max_lifetime_ms, 0);
    let pb = config("");
    assert!(pb.default.is_none() && pb.rules.is_empty());
}

/// A configuration with this many nested messages.
fn nested(depth: usize) -> String {
    let mut s = "default: < backend: {".to_string();
    for _ in 2..depth {
        s.push_str(" sorry: <");
    }
    for _ in 2..depth {
        s.push_str(" >");
    }
    s.push_str("} >");
    s
}

#[test]
fn deeply_nested_text_is_refused() {
    assert_eq!(text_nesting(&nested(2)), 2);
    assert_eq!(text_nesting(&nested(MAX_NESTING)), MAX_NESTING);
    assert!(parse_config(&nested(MAX_NESTING)).is_some());
    assert!(parse_config(&nested(MAX_NESTING + 1)).is_none());
    assert_eq!(
        tcp_config(&nested(100_000)).err(),
        Some(ConfigError::Unreadable)
    );
    assert_eq!(text_nesting(""), 0);
    assert_eq!(text_nesting("rules: <> rules: <>"), 1);
    assert_eq!(text_nesting("> } rules: < a: { b: < > } >"), 3);
    assert_eq!(text_nesting("# <<< { \" '\nrules: <>"), 1);
    assert_eq!(text_nesting(r#"regex: "<{\"<'" regex: '{"\'<' "#), 0);
}

#[test]
fn brackets_in_strings_and_comments_do_not_nest() {
    let brackets = "<{".repeat(MAX_NESTING);
    let pb = config(&format!(
        "# {brackets}\ndefault: < regex: \"\\\"{brackets}\" > # {brackets}"
    ));
    assert_eq!(
        pb.default.unwrap().regex.unwrap(),
        format!("\"{brackets}")
    );
}

#[test]
fn rule_errors() {
    let with = |inner: &str| {
        tcp_config(&format!(
            "default: < backend: < null: <> > > rules: < {inner} >"
        ))
        .err()
    };
    assert_eq!(with("backend: < null: <> >"), Some(ConfigError::NoRegex));
    assert_eq!(
        with("regex: \"(\" backend: < null: <> >"),
        Some(ConfigError::BadRegex)
    );
    assert_eq!(with("regex: \"x\""), Some(ConfigError::NoBackend));
    assert_eq!(
        with("regex: \"x\" backend: <>"),
        Some(ConfigError::NoBackendType)
    );
    assert_eq!(
        with("regex: \"x\" acl: < rules: < source: \"1.2.3.4\" action: DROP > >"),
        Some(ConfigError::Acl(AclError::BadSource))
    );
    assert_eq!(
        with("regex: \"x\" acl: < rules: < source: \"1.2.3.4/32\" > >"),
        Some(ConfigError::Acl(AclError::UnspecifiedAction))
    );
    assert_eq!(with("regex: \"x\" backend: < null: <> >"), None);
    assert_eq!(tcp_config("").err(), Some(ConfigError::DefaultMissing));
}

#[test]
fn sorry_servers() {
    let with = |inner: &str| tcp_config(&format!("default: < backend: < {inner} > >"));
    let config = with(
        r#"proxy: < addr: "a:1" > sorry: < pass: < path: "s" > frontend_tls: < cert_file: "c" > >"#,
    )
    .unwrap();
    match config.default.backend {
        tcp::config::Backend::Proxy {
            sorry: Some(sorry),
            frontend_tls: None,
            ..
        } => match *sorry {
            tcp::config::Backend::Pass {
                path,
                frontend_tls: Some(files),
                sorry: None,
            } => {
                assert_eq!(path, "s");
                assert_eq!(files.cert_file, "c");
            }
            other => panic!("unexpected sorry server {other:?}"),
        },
        other => panic!("unexpected backend {other:?}"),
    }
    assert_eq!(
        with("pass: <> sorry: < null: <> sorry: < null: <> > >").err(),
        Some(ConfigError::SorryHasSorry)
    );
    assert_eq!(
        with("pass: <> sorry: <>").err(),
        Some(ConfigError::SorryWithoutType)
    );
    assert_eq!(
        with("null: <> sorry: < null: <> >").err(),
        Some(ConfigError::NullWithSorry)
    );
}

#[test]
fn limits_of_zero_are_none() {
    assert_eq!(load_limit(0), None);
    assert_eq!(load_limit(1), Some(1));
    let config =
        tcp_config("default: < backend: < null: <> > max_lifetime_ms: 7 > max_lifetime_ms: 9")
            .unwrap();
    assert_eq!(config.default.timeout, Some(7));
    assert_eq!(config.max_lifetime, Some(9));
    assert_eq!(config.handshake_timeout, None);
}

fn mapped(ip: u32) -> u128 {
    0xffff_0000_0000 + u128::from(ip)
}

#[test]
fn v4_networks_match_mapped_peers() {
    let acl = load_acl(&AclConfig {
        rules: vec![AclRuleConfig {
            source: "192.168.77.1/16".to_string(),
            action: AclAction::Accept,
        }],
        default_action: AclAction::Drop,
    })
    .unwrap();
    assert_eq!(acl.rules[0].addr, mapped(0xc0a8_0000));
    assert_eq!(acl_action(&acl, mapped(0xc0a8_ffff)), AclAction::Accept);
    assert_eq!(acl_action(&acl, mapped(0xc0a9_0000)), AclAction::Drop);
    assert_eq!(acl_action(&acl, 0xc0a8_0001), AclAction::Drop);
}

#[test]
fn any_v4_network_matches_no_v6_peer() {
    let rule = rule_for_network(
        IpNetwork::V4 {
            addr: 0x0102_0304,
            prefix_len: 0,
        },
        AclAction::Accept,
    )
    .unwrap();
    let acl = Acl {
        rules: vec![rule],
        default_action: AclAction::Continue,
    };
    assert_eq!(acl_action(&acl, mapped(0)), AclAction::Accept);
    assert_eq!(acl_action(&acl, mapped(u32::MAX)), AclAction::Accept);
    assert_eq!(acl_action(&acl, 1), AclAction::Continue);
    assert_eq!(acl_action(&acl, u128::MAX), AclAction::Continue);
}

#[test]
fn first_matching_network_decides() {
    let acl = load_acl(&AclConfig {
        rules: vec![
            AclRuleConfig {
                source: "2001:db8:1::/48".to_string(),
                action: AclAction::Drop,
            },
            AclRuleConfig {
                source: "2001:db8::/32".to_string(),
                action: AclAction::Accept,
            },
            AclRuleConfig {
                source: "::/0".to_string(),
                action: AclAction::Continue,
            },
        ],
        default_action: AclAction::Unspecified,
    })
    .unwrap();
    let base: u128 = 0x2001_0db8 << 96;
    assert_eq!(acl_action(&acl, base + (1 << 80) + 5), AclAction::Drop);
    assert_eq!(acl_action(&acl, base + (2 << 80)), AclAction::Accept);
    assert_eq!(acl_action(&acl, 7), AclAction::Continue);
}

#[test]
fn no_matching_network_gives_default() {
    let acl = Acl {
        rules: vec![AclRule {
            addr: 8,
            prefix_len: 128,
            action: AclAction::Accept,
        }],
        default_action: AclAction::Unspecified,
    };
    assert_eq!(acl_action(&acl, 8), AclAction::Accept);
    assert_eq!(acl_action(&acl, 9), AclAction::Unspecified);
}

#[test]
fn patterns_match_the_whole_name() {
    let foo = Pattern::new("foo".to_string()).unwrap();
    assert!(is_full_match(&foo, "foo"));
    assert!(!is_full_match(&foo, "foo2"));
    assert!(!is_full_match(&foo, "xfoo"));
    assert!(!is_full_match(&foo, ""));
    let any = Pattern::new("(www[.]|)example[.]com".to_string()).unwrap();
    assert!(is_full_match(&any, "www.example.com"));
    assert!(is_full_match(&any, "example.com"));
    assert!(!is_full_match(&any, "wwwxexample.com"));
    let first = Pattern::new("a|ab".to_string()).unwrap();
    assert!(is_full_match(&first, "a"));
    assert!(is_full_match(&first, "ab"));
    assert!(!is_full_match(&first, "abb"));
    assert!(!is_full_match(&first, "b"));
    let names = Pattern::new("example[.]com|example[.]com[.]au".to_string()).unwrap();
    assert!(is_full_match(&names, "example.com"));
    assert!(is_full_match(&names, "example.com.au"));
    assert!(!is_full_match(&names, "example.com.aux"));
    let lazy = Pattern::new("w*?".to_string()).unwrap();
    assert!(is_full_match(&lazy, "www"));
    assert!(!is_full_match(&lazy, "wwwx"));
    assert_eq!(lazy.as_str(), "w*?");
    let spaced = Pattern::new("(?x) foo # a name".to_string()).unwrap();
    assert!(is_full_match(&spaced, "foo"));
    assert!(!is_full_match(&spaced, "foo2"));
    let lines = Pattern::new("(?m)^foo$".to_string()).unwrap();
    assert!(is_full_match(&lines, "foo"));
    assert!(!is_full_match(&lines, "foo\nbar"));
    let wide = Pattern::new(".*".to_string()).unwrap();
    assert!(is_full_match(&wide, "b\u{fc}cher"));
    assert!(Pattern::new("(".to_string()).is_none());
    assert_eq!(Pattern::new(String::new()).unwrap().as_str(), "");
}

#[test]
fn spans() {
    assert!(is_full_span(Some((0, 3)), 3));
    assert!(!is_full_span(Some((0, 2)), 3));
    assert!(!is_full_span(Some((1, 3)), 3));
    assert!(!is_full_span(None, 0));
}

#[test]
fn verdicts_follow_access_control() {
    for (action, expected) in [
        (AclAction::Accept, Verdict::Accept),
        (AclAction::Drop, Verdict::Reject),
        (AclAction::Continue, Verdict::Next),
        (AclAction::Unspecified, Verdict::Unspecified),
    ] {
        let acl = Acl {
            rules: Vec::new(),
            default_action: action,
        };
        assert_eq!(verdict(&acl, true, 1), expected);
        assert_eq!(verdict(&acl, false, 1), Verdict::Next);
    }
}
