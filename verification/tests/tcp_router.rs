use sni_router::acl::{Acl, AclAction};
use sni_router::addr::SocketAddr;
use sni_router::client_hello::SniError;
use sni_router::config::TlsFiles;
use sni_router::fd_io::{after_peek, CallOutcome, Direction, IoNext, Transfer};
use sni_router::pattern::Pattern;
use sni_router::privs::{
    after_step, first_step, tcp_profile, CapabilitySet, PrivsError, Profile, Step, StepOutcome,
};
use sni_router::tcp::config::{Backend, Config, Rule};
use sni_router::tcp::connect::{
    after_address, after_attempt, attempt, check_hand_off, first_address, AddressNext, Attempt,
    HandOffError, Next,
};
use sni_router::tcp::handshake::{
    Event, Handshake, HandshakeError, Stage, MAX_OUTSTANDING,
};
use sni_router::tcp::hello_reader::{HelloError, HelloReader, Progress};
use sni_router::tcp::proxy::{preamble, proxy_line};
use sni_router::tcp::route::{
    limits, metric_label, route, route_by_name, target_rule, Label, Limits, RouteError, Target,
};

fn push_u16_len_prefixed(out: &mut Vec<u8>, value: &[u8]) {
    out.extend_from_slice(&u16::try_from(value.len()).unwrap().to_be_bytes());
    out.extend_from_slice(value);
}

fn clienthello_sni(host: Option<&str>) -> Vec<u8> {
    let mut body = vec![0x03, 0x03];
    body.extend_from_slice(&[0u8; 32]);
    body.push(0);
    body.extend_from_slice(&2u16.to_be_bytes());
    body.extend_from_slice(&[0x13, 0x01]);
    body.push(1);
    body.push(0);
    if let Some(host) = host {
        let mut list = vec![0];
        push_u16_len_prefixed(&mut list, host.as_bytes());
        let mut ext = Vec::new();
        push_u16_len_prefixed(&mut ext, &list);
        let mut extensions = 0u16.to_be_bytes().to_vec();
        push_u16_len_prefixed(&mut extensions, &ext);
        push_u16_len_prefixed(&mut body, &extensions);
    }
    let mut hello = vec![1];
    hello.extend_from_slice(&u32::try_from(body.len()).unwrap().to_be_bytes()[1..]);
    hello.extend_from_slice(&body);
    hello
}

fn records(payload: &[u8], size: usize) -> Vec<u8> {
    let mut out = Vec::new();
    for chunk in payload.chunks(size) {
        out.extend_from_slice(&[22, 3, 1]);
        push_u16_len_prefixed(&mut out, chunk);
    }
    out
}

/// Feeds a stream to a reader. Returns what was read, and what it came to if it
/// came to an end.
fn read(stream: &[u8]) -> (Vec<u8>, Option<Result<Vec<u8>, HelloError>>) {
    let mut reader = HelloReader::new();
    let mut i = 0;
    loop {
        let n = reader.wanted();
        if stream.len() - i < n {
            return (reader.into_bytes(), None);
        }
        match reader.feed(&stream[i..i + n]) {
            Progress::More => i += n,
            Progress::Done(hello) => return (reader.into_bytes(), Some(hello)),
        }
    }
}

fn accept_all() -> Acl {
    Acl {
        rules: Vec::new(),
        default_action: AclAction::Accept,
    }
}

fn proxy(addr: &str) -> Backend {
    Backend::Proxy {
        addr: addr.to_string(),
        proxy_header: false,
        frontend_tls: None,
        sorry: None,
    }
}

fn rule(re: &str, backend: Backend) -> Rule {
    Rule {
        re: Pattern::new(re.to_string()).unwrap(),
        acl: accept_all(),
        backend,
        timeout: None,
    }
}

fn test_config() -> Config {
    Config {
        max_lifetime: Some(5_000),
        handshake_timeout: None,
        rules: vec![
            rule("foo", Backend::Null),
            rule(
                "socket",
                Backend::Pass {
                    path: "tarweb-testing.sock".to_string(),
                    frontend_tls: None,
                    sorry: None,
                },
            ),
            rule("bar", proxy("[::1]:1")),
        ],
        default: rule("xxx not used xxx", proxy("[::1]:2")),
    }
}

#[test]
fn default_client() {
    let config = test_config();
    for (sni, expected) in [
        ("foo", Attempt::Close),
        ("bar", Attempt::ConnectTcp(&"[::1]:1".to_string())),
        ("bar2", Attempt::ConnectTcp(&"[::1]:2".to_string())),
        (
            "socket",
            Attempt::ConnectUnix(&"tarweb-testing.sock".to_string()),
        ),
    ] {
        let stream = records(&clienthello_sni(Some(sni)), 16_384);
        let (bytes, hello) = read(&stream);
        assert_eq!(bytes, stream);
        let choice = route(&config, &hello.unwrap(), 1).unwrap();
        match (
            attempt(&target_rule(&config, choice.target).backend),
            expected,
        ) {
            (Attempt::Close, Attempt::Close) => {}
            (Attempt::ConnectTcp(a), Attempt::ConnectTcp(b)) => assert_eq!(a, b),
            (Attempt::ConnectUnix(a), Attempt::ConnectUnix(b)) => assert_eq!(a, b),
            _ => panic!("SNI {sni:?} went elsewhere"),
        }
    }
}

#[test]
fn handshake_timeout_stops_after_proxy_backend_connects() {
    let config = Config {
        max_lifetime: Some(5_000),
        handshake_timeout: Some(50),
        rules: vec![],
        default: rule("xxx not used xxx", proxy("[::1]:2")),
    };
    let (bytes, hello) = read(b"abcde");
    assert_eq!(bytes, b"abcde");
    assert_eq!(hello, Some(Err(HelloError::ContentType(b'a'))));
    let choice = route(&config, &hello.unwrap(), 1).unwrap();
    assert_eq!(choice.target, Target::Default);
    assert_eq!(
        limits(&config, choice.target),
        Limits {
            whole: Some(5_000),
            routing: Some(50),
            backend: None,
        }
    );
    match after_attempt(&target_rule(&config, choice.target).backend, true) {
        Next::Proxy {
            proxy_header: false,
            frontend_tls: None,
        } => {}
        _ => panic!("not proxied"),
    }
    assert_eq!(preamble(None, &bytes), b"abcde");
}

#[test]
fn handshake_timeout_closes_idle_preroute_client() {
    let config = Config {
        max_lifetime: Some(5_000),
        handshake_timeout: Some(50),
        rules: vec![],
        default: rule("xxx not used xxx", Backend::Null),
    };
    let (bytes, hello) = read(b"");
    assert!(bytes.is_empty());
    assert_eq!(hello, None);
    assert_eq!(limits(&config, Target::Default).routing, Some(50));
}

#[test]
fn records_do_not_matter() {
    let hello = clienthello_sni(Some("www.example.com"));
    for size in [1, 2, 3, 7, 50, 16_384] {
        let mut stream = records(&hello, size);
        let len = stream.len();
        stream.extend_from_slice(b"more");
        let (bytes, found) = read(&stream);
        assert_eq!(bytes, &stream[..len]);
        assert_eq!(found, Some(Ok(hello.clone())));
    }
}

#[test]
fn rest_of_record_is_not_part_of_hello() {
    let hello = clienthello_sni(Some("foo"));
    let mut payload = hello.clone();
    payload.extend_from_slice(&[2, 0, 0, 0]);
    let stream = records(&payload, 16_384);
    let (bytes, found) = read(&stream);
    assert_eq!(bytes, stream);
    assert_eq!(found, Some(Ok(hello)));
}

#[test]
fn handed_over_bytes_are_read_again() {
    let mut stream = records(&clienthello_sni(Some("foo")), 9);
    stream.extend_from_slice(b"first");
    let (bytes, hello) = read(&stream);
    assert_eq!(bytes.len() + 5, stream.len());
    let mut again = bytes.clone();
    again.extend_from_slice(b"something else");
    assert_eq!(read(&again), (bytes, hello));
}

#[test]
fn streams_without_hello() {
    assert_eq!(
        read(&[22, 3, 1, 0, 0]).1,
        Some(Err(HelloError::EmptyRecord))
    );
    assert_eq!(
        read(&records(&[2, 0, 0, 0], 9)).1,
        Some(Err(HelloError::MessageType(2)))
    );
    assert_eq!(read(&records(&[2, 0, 0], 9)).1, None);
    assert_eq!(read(&[22, 3, 1, 0, 5, 1]).1, None);
    assert_eq!(
        read(b"GET / HTTP/1.1").1,
        Some(Err(HelloError::ContentType(b'G')))
    );
}

#[test]
fn clients_are_counted() {
    let config = test_config();
    let choice = route(&config, &Ok(clienthello_sni(Some("bar"))), 1).unwrap();
    assert_eq!(choice.label, Label::Name);
    assert_eq!(choice.sni, Some("bar".to_string()));
    assert_eq!(metric_label(&choice), Some("bar".to_string()));
    let choice = route(&config, &Ok(clienthello_sni(Some("baz"))), 1).unwrap();
    assert_eq!(choice.sni, None);
    assert_eq!(metric_label(&choice), Some("<unknown>".to_string()));
    let choice = route(&config, &Ok(clienthello_sni(None)), 1).unwrap();
    assert_eq!(metric_label(&choice), Some("<missing>".to_string()));
    let choice = route(&config, &Err(HelloError::EmptyRecord), 1).unwrap();
    assert_eq!(choice.target, Target::Default);
    assert_eq!(metric_label(&choice), None);
}

#[test]
fn clients_are_turned_away() {
    let mut config = test_config();
    assert_eq!(
        route(&config, &Ok(vec![1, 0, 0, 9]), 1).err(),
        Some(RouteError::Sni(SniError::TruncatedBody))
    );
    config.rules[2].acl.default_action = AclAction::Drop;
    assert_eq!(
        route_by_name(&config, "bar".to_string(), 1).err(),
        Some(RouteError::Rejected(2))
    );
    config.rules[2].acl.default_action = AclAction::Unspecified;
    assert_eq!(
        route_by_name(&config, "bar".to_string(), 1).err(),
        Some(RouteError::UnspecifiedAction)
    );
    config.rules[2].acl.default_action = AclAction::Continue;
    let choice = route_by_name(&config, "bar".to_string(), 1).unwrap();
    assert_eq!(choice.target, Target::Default);
    config.rules.push(rule("ba.", Backend::Null));
    let choice = route_by_name(&config, "bar".to_string(), 1).unwrap();
    assert_eq!(choice.target, Target::Rule(3));
}

#[test]
fn sorry_server_is_for_unreachable_backends() {
    let backend = Backend::Proxy {
        addr: "a:1".to_string(),
        proxy_header: true,
        frontend_tls: Some(TlsFiles {
            cert_file: "c".to_string(),
            key_file: "k".to_string(),
        }),
        sorry: Some(Box::new(Backend::Pass {
            path: "s".to_string(),
            frontend_tls: None,
            sorry: None,
        })),
    };
    match after_attempt(&backend, true) {
        Next::Proxy {
            proxy_header: true,
            frontend_tls: Some(files),
        } => assert_eq!(files.key_file, "k"),
        _ => panic!("not proxied"),
    }
    let sorry = match after_attempt(&backend, false) {
        Next::TrySorry(sorry) => sorry,
        _ => panic!("sorry server not tried"),
    };
    assert!(matches!(attempt(sorry), Attempt::ConnectUnix(path) if path == "s"));
    assert!(matches!(
        after_attempt(sorry, true),
        Next::HandOff { frontend_tls: None }
    ));
    assert!(matches!(after_attempt(sorry, false), Next::Fail));
    assert!(matches!(after_attempt(&Backend::Null, false), Next::Done));
}

#[test]
fn addresses_are_tried_in_order() {
    assert_eq!(first_address(0), AddressNext::GiveUp);
    assert_eq!(first_address(2), AddressNext::Try(0));
    assert_eq!(after_address(0, 2, false), AddressNext::Try(1));
    assert_eq!(after_address(0, 2, true), AddressNext::Use);
    assert_eq!(after_address(1, 2, false), AddressNext::GiveUp);
}

#[test]
fn partial_hand_off_is_an_error() {
    assert_eq!(check_hand_off(5, 5), Ok(()));
    assert_eq!(
        check_hand_off(5, 3),
        Err(HandOffError::Partial {
            expected: 5,
            sent: 3,
        })
    );
}

#[test]
fn proxy_lines() {
    let peer = SocketAddr::V4 {
        ip: 0x0102_0304,
        port: 65_535,
    };
    let local = SocketAddr::V4 {
        ip: 0x7f00_0001,
        port: 0,
    };
    assert_eq!(
        proxy_line(peer, local, "1.2.3.4", "127.0.0.1"),
        b"PROXY TCP4 1.2.3.4 127.0.0.1 65535 0\r\n"
    );
    let peer = SocketAddr::V6 {
        ip: 1,
        port: 10,
        flowinfo: 0,
        scope_id: 0,
    };
    let line = proxy_line(peer, peer, "::1", "::1");
    assert_eq!(line, b"PROXY TCP6 ::1 ::1 10 10\r\n");
    assert_eq!(
        preamble(Some(line), b"hello"),
        b"PROXY TCP6 ::1 ::1 10 10\r\nhello"
    );
}

fn run(handshake: Handshake, events: Vec<Event>) -> Result<Handshake, HandshakeError> {
    let mut state = handshake;
    for event in events {
        state = state.step(event)?;
    }
    Ok(state)
}

fn processed(to_send: usize, plaintext: usize, handshaking: bool) -> Event {
    Event::Processed {
        to_send,
        plaintext,
        handshaking,
    }
}

#[test]
fn handshake_runs_to_the_end() {
    let start = Handshake::new(b"hello".to_vec());
    assert_eq!(start.stage(), Stage::Feed);
    assert_eq!(start.waiting(), b"hello");
    let state = run(start, vec![Event::Fed(3), processed(9, 0, true)]).unwrap();
    assert_eq!(
        state.stage(),
        Stage::Send {
            len: 9,
            plaintext: 0,
            handshaking: true,
        }
    );
    let state = run(state, vec![Event::Sent]).unwrap();
    assert_eq!(state.stage(), Stage::Receive);
    let state = run(state, vec![Event::Received(b"more".to_vec())]).unwrap();
    assert_eq!(state.waiting(), b"lomore");
    let state = run(state, vec![Event::Fed(6), processed(0, 2, false)]).unwrap();
    assert_eq!(state.stage(), Stage::TakePlaintext { len: 2 });
    let state = run(
        state,
        vec![
            Event::Plaintext(b"hi".to_vec()),
            Event::TlsEnabled(0),
            Event::KeysExtracted,
            Event::ReceiveKeyInstalled(0),
            Event::SendKeyInstalled(0),
        ],
    )
    .unwrap();
    assert_eq!(state.stage(), Stage::Finished);
    assert_eq!(state.into_plaintext(), b"hi");
}

#[test]
fn keys_wait_for_the_handshake() {
    let state = run(
        Handshake::new(b"x".to_vec()),
        vec![Event::Fed(1), processed(3, 0, true), Event::Sent],
    )
    .unwrap();
    assert_eq!(state.stage(), Stage::Receive);
    let state = run(
        Handshake::new(b"x".to_vec()),
        vec![Event::Fed(1), processed(3, 0, false), Event::Sent],
    )
    .unwrap();
    assert_eq!(state.stage(), Stage::TakePlaintext { len: 0 });
}

#[test]
fn handshake_errors() {
    let receiving = || {
        run(
            Handshake::new(Vec::new()),
            vec![Event::Fed(0), processed(0, 0, true)],
        )
        .unwrap()
    };
    assert_eq!(
        receiving().step(Event::Received(Vec::new())).err(),
        Some(HandshakeError::EndOfStream)
    );
    assert!(receiving()
        .step(Event::Received(vec![0; MAX_OUTSTANDING]))
        .is_ok());
    assert_eq!(
        receiving()
            .step(Event::Received(vec![0; MAX_OUTSTANDING + 1]))
            .err(),
        Some(HandshakeError::TooMuchOutstanding)
    );
    let done = || {
        run(
            Handshake::new(Vec::new()),
            vec![
                Event::Fed(0),
                processed(0, 0, false),
                Event::Plaintext(Vec::new()),
            ],
        )
        .unwrap()
    };
    assert_eq!(
        done().step(Event::TlsEnabled(-1)).err(),
        Some(HandshakeError::EnableTls(-1))
    );
    assert_eq!(
        run(
            done(),
            vec![
                Event::TlsEnabled(0),
                Event::KeysExtracted,
                Event::ReceiveKeyInstalled(-2),
            ]
        )
        .err(),
        Some(HandshakeError::InstallKey(-2))
    );
}

#[test]
fn whole_buffers_are_transferred() {
    let mut t = Transfer::new(Direction::Receive, 5);
    assert_eq!(t.start(), IoNext::Again);
    assert_eq!(t.after(CallOutcome::WouldBlock), IoNext::WaitAnew);
    assert_eq!(t.after(CallOutcome::Interrupted), IoNext::Again);
    assert_eq!(t.after(CallOutcome::Count(3)), IoNext::Again);
    assert_eq!(t.done, 3);
    assert_eq!(t.after(CallOutcome::Count(0)), IoNext::EndOfStream);
    assert_eq!(t.after(CallOutcome::Count(2)), IoNext::Done);
    assert_eq!(t.after(CallOutcome::Failed), IoNext::Fail);
    let mut t = Transfer::new(Direction::Send, 1);
    assert_eq!(t.after(CallOutcome::Count(0)), IoNext::Again);
    assert_eq!(t.after(CallOutcome::Count(1)), IoNext::Done);
    assert_eq!(Transfer::new(Direction::Send, 0).start(), IoNext::Done);
}

#[test]
fn counts_add_up_to_the_whole_buffer() {
    for direction in [Direction::Receive, Direction::Send] {
        let mut t = Transfer::new(direction, 10);
        let mut next = t.start();
        let mut sum = 0;
        for outcome in [
            CallOutcome::Count(4),
            CallOutcome::WouldBlock,
            CallOutcome::Count(1),
            CallOutcome::Interrupted,
            CallOutcome::Count(3),
            CallOutcome::Count(2),
        ] {
            assert!(matches!(next, IoNext::Again | IoNext::WaitAnew));
            next = t.after(outcome);
            if let CallOutcome::Count(n) = outcome {
                sum += n;
            }
            assert_eq!(t.done, sum);
            assert_eq!(next == IoNext::Done, sum == 10);
        }
        assert_eq!(next, IoNext::Done);
    }
}

#[test]
fn peeking_waits_for_all_bytes() {
    assert_eq!(after_peek(5, CallOutcome::Count(0)), IoNext::EndOfStream);
    assert_eq!(after_peek(5, CallOutcome::Count(4)), IoNext::WaitAnew);
    assert_eq!(after_peek(5, CallOutcome::Count(5)), IoNext::Done);
    assert_eq!(after_peek(5, CallOutcome::WouldBlock), IoNext::WaitAnew);
    assert_eq!(after_peek(5, CallOutcome::Interrupted), IoNext::Again);
    assert_eq!(after_peek(5, CallOutcome::Failed), IoNext::Fail);
}

/// Carries the steps out with an outcome for each. Returns the steps taken and
/// whether one was worth a warning.
fn drop_privileges(
    profile: Profile,
    outcome: impl Fn(Step) -> StepOutcome,
) -> Result<(Vec<Step>, bool), PrivsError> {
    let mut steps = Vec::new();
    let mut warned = false;
    let mut step = first_step();
    while step != Step::Finished {
        steps.push(step);
        let next = after_step(profile, step, outcome(step))?;
        warned = warned || next.warn;
        step = next.step;
    }
    Ok((steps, warned))
}

fn all_well(step: Step) -> StepOutcome {
    match step {
        Step::Clear(_) => StepOutcome::Cleared,
        Step::ProbeBind => StepOutcome::BindDenied,
        _ => StepOutcome::FullyEnforced,
    }
}

#[test]
fn privileges_are_dropped_in_order() {
    let clears = [
        Step::Clear(CapabilitySet::Effective),
        Step::Clear(CapabilitySet::Inheritable),
        Step::Clear(CapabilitySet::Ambient),
        Step::Clear(CapabilitySet::Permitted),
        Step::Clear(CapabilitySet::Bounding),
    ];
    let (steps, warned) = drop_privileges(tcp_profile(true, true), all_well).unwrap();
    assert_eq!(steps[..5], clears);
    assert_eq!(
        steps[5..],
        [
            Step::Confine {
                deny_bind: true,
                keylog: true,
            },
            Step::ConfineSignals,
            Step::ProbeBind,
        ]
    );
    assert!(!warned);
    let (steps, _) = drop_privileges(Profile::Quic, all_well).unwrap();
    assert_eq!(
        steps[5..],
        [
            Step::Confine {
                deny_bind: false,
                keylog: false,
            },
            Step::ConfineSignals,
        ]
    );
    assert_eq!(tcp_profile(false, true), Profile::Tcp { keylog: false });
    assert_eq!(tcp_profile(true, false), Profile::Tcp { keylog: false });
}

#[test]
fn privileges_that_stay_are_errors() {
    let profile = tcp_profile(false, false);
    let failing = |bad: Step, outcome: StepOutcome| {
        drop_privileges(profile, |step| {
            if step == bad {
                outcome
            } else {
                all_well(step)
            }
        })
    };
    assert_eq!(
        failing(
            Step::Clear(CapabilitySet::Permitted),
            StepOutcome::NotCleared
        )
        .err(),
        Some(PrivsError::NotCleared(CapabilitySet::Permitted))
    );
    assert!(failing(
        Step::Clear(CapabilitySet::Bounding),
        StepOutcome::NotCleared
    )
    .is_ok());
    assert_eq!(
        failing(
            Step::Confine {
                deny_bind: true,
                keylog: false,
            },
            StepOutcome::NotFullyEnforced
        )
        .err(),
        Some(PrivsError::NotConfined)
    );
    assert!(failing(Step::ConfineSignals, StepOutcome::NotFullyEnforced)
        .unwrap()
        .1);
    assert_eq!(
        failing(Step::ProbeBind, StepOutcome::Bound).err(),
        Some(PrivsError::BindNotDenied)
    );
    assert_eq!(
        failing(Step::ProbeBind, StepOutcome::BindFailed).err(),
        Some(PrivsError::BindProbeFailed)
    );
}
