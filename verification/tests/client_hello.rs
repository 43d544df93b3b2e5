use sni_router::client_hello::{extract_sni, find_host_bytes, SniError};
use sni_router::quic::router::extract_tls_sni;

fn push_u16_len_prefixed(out: &mut Vec<u8>, value: &[u8]) {
    out.extend_from_slice(&u16::try_from(value.len()).unwrap().to_be_bytes());
    out.extend_from_slice(value);
}

fn body_with(extensions: Option<&[u8]>) -> Vec<u8> {
    let mut body = Vec::new();
    body.extend_from_slice(&[0x03, 0x03]);
    body.extend_from_slice(&[0u8; 32]);
    body.push(0);
    body.extend_from_slice(&2u16.to_be_bytes());
    body.extend_from_slice(&[0x13, 0x01]);
    body.push(1);
    body.push(0);
    if let Some(extensions) = extensions {
        push_u16_len_prefixed(&mut body, extensions);
    }
    body
}

fn message(body: &[u8]) -> Vec<u8> {
    let mut hello = vec![1];
    hello.extend_from_slice(&u32::try_from(body.len()).unwrap().to_be_bytes()[1..]);
    hello.extend_from_slice(body);
    hello
}

fn extension(kind: u16, data: &[u8]) -> Vec<u8> {
    let mut out = kind.to_be_bytes().to_vec();
    push_u16_len_prefixed(&mut out, data);
    out
}

fn server_names(names: &[(u8, &[u8])]) -> Vec<u8> {
    let mut list = Vec::new();
    for (kind, name) in names {
        list.push(*kind);
        push_u16_len_prefixed(&mut list, name);
    }
    let mut out = Vec::new();
    push_u16_len_prefixed(&mut out, &list);
    out
}

fn minimal_clienthello_sni(host: &str) -> Vec<u8> {
    let ext = extension(0, &server_names(&[(0, host.as_bytes())]));
    message(&body_with(Some(&ext)))
}

#[test]
fn extracts_sni_from_tls_clienthello() {
    let hello = minimal_clienthello_sni("www.example.com");
    assert_eq!(
        extract_tls_sni(&hello),
        Ok(Some("www.example.com".to_string()))
    );
}

#[test]
fn both_routers_read_the_same_name() {
    for host in ["", "a", "foo", "xn--bcher-kva.example"] {
        let hello = minimal_clienthello_sni(host);
        assert_eq!(extract_sni(&hello), Ok(Some(host.to_string())));
        assert_eq!(extract_tls_sni(&hello), extract_sni(&hello));
    }
}

#[test]
fn bytes_behind_hello_are_ignored() {
    let mut hello = minimal_clienthello_sni("foo");
    hello.extend_from_slice(&[9, 9, 9]);
    assert_eq!(extract_sni(&hello), Ok(Some("foo".to_string())));
}

#[test]
fn name_that_is_no_utf8_is_replaced() {
    let ext = extension(0, &server_names(&[(0, &[b'a', 0xff, b'b'])]));
    let hello = message(&body_with(Some(&ext)));
    assert_eq!(extract_sni(&hello), Ok(Some("a\u{fffd}b".to_string())));
    assert_eq!(find_host_bytes(&hello), Ok(Some(&[b'a', 0xff, b'b'][..])));
}

#[test]
fn first_host_name_of_first_server_name_extension() {
    let mut exts = extension(0x2b, &[1, 2, 3]);
    exts.extend_from_slice(&extension(
        0,
        &server_names(&[(7, b"skipped"), (0, b"first"), (0, b"second")]),
    ));
    exts.extend_from_slice(&extension(0, &server_names(&[(0, b"third")])));
    let hello = message(&body_with(Some(&exts)));
    assert_eq!(extract_sni(&hello), Ok(Some("first".to_string())));
}

#[test]
fn no_extensions_means_no_name() {
    assert_eq!(extract_sni(&message(&body_with(None))), Ok(None));
    assert_eq!(extract_sni(&message(&body_with(Some(&[])))), Ok(None));
    let other = extension(0x2b, &[1]);
    assert_eq!(extract_sni(&message(&body_with(Some(&other)))), Ok(None));
    let only_other_kind = extension(0, &server_names(&[(1, b"x")]));
    assert_eq!(
        extract_sni(&message(&body_with(Some(&only_other_kind)))),
        Ok(None)
    );
    let no_names = extension(0, &server_names(&[]));
    assert_eq!(extract_sni(&message(&body_with(Some(&no_names)))), Ok(None));
}

#[test]
fn header_errors() {
    assert_eq!(extract_sni(&[1, 0, 0]), Err(SniError::HeaderTooShort));
    assert_eq!(
        extract_sni(&[2, 0, 0, 0]),
        Err(SniError::NotClientHello(2))
    );
    assert_eq!(extract_sni(&[1, 0, 0, 1]), Err(SniError::TruncatedBody));
    assert_eq!(
        extract_sni(&message(&[0u8; 34])),
        Err(SniError::BodyTooShort)
    );
}

#[test]
fn vector_errors() {
    let mut body = vec![0u8; 34];
    body.push(1);
    assert_eq!(
        extract_sni(&message(&body)),
        Err(SniError::TruncatedSessionId)
    );
    let mut body = vec![0u8; 35];
    assert_eq!(
        extract_sni(&message(&body)),
        Err(SniError::MissingCipherSuites)
    );
    body.extend_from_slice(&[0, 3, 1, 2, 3]);
    assert_eq!(
        extract_sni(&message(&body)),
        Err(SniError::InvalidCipherSuites)
    );
    let mut body = vec![0u8; 35];
    body.extend_from_slice(&[0, 4, 1, 2]);
    assert_eq!(
        extract_sni(&message(&body)),
        Err(SniError::InvalidCipherSuites)
    );
    let mut body = vec![0u8; 35];
    body.extend_from_slice(&[0, 2, 1, 2]);
    assert_eq!(
        extract_sni(&message(&body)),
        Err(SniError::MissingCompressionMethods)
    );
    body.push(1);
    assert_eq!(
        extract_sni(&message(&body)),
        Err(SniError::InvalidCompressionMethods)
    );
    body.push(0);
    assert_eq!(extract_sni(&message(&body)), Ok(None));
    body.push(0);
    assert_eq!(
        extract_sni(&message(&body)),
        Err(SniError::MissingExtensionsLength)
    );
    body.push(1);
    assert_eq!(
        extract_sni(&message(&body)),
        Err(SniError::TruncatedExtensions)
    );
}

#[test]
fn extension_errors() {
    let truncated = [0, 1, 0, 9, 1];
    assert_eq!(
        extract_sni(&message(&body_with(Some(&truncated)))),
        Err(SniError::TruncatedExtension)
    );
    let no_list = extension(0, &[1]);
    assert_eq!(
        extract_sni(&message(&body_with(Some(&no_list)))),
        Err(SniError::MissingListLength)
    );
    let short_list = extension(0, &[0, 4, 0]);
    assert_eq!(
        extract_sni(&message(&body_with(Some(&short_list)))),
        Err(SniError::TruncatedList)
    );
    let short_host = extension(0, &[0, 4, 0, 0, 2, b'a']);
    assert_eq!(
        extract_sni(&message(&body_with(Some(&short_host)))),
        Err(SniError::TruncatedHost)
    );
}
