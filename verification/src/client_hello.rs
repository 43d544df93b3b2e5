//! The server name in a TLS ClientHello.

use vstd::prelude::*;
use vstd::slice::slice_subrange;

use crate::bytes;

verus! {

/// Why a ClientHello cannot be read.
#[derive(Clone, Copy, Debug, PartialEq, Eq, Structural)]
pub enum SniError {
    /// Fewer than four bytes: no handshake header.
    HeaderTooShort,
    /// The handshake message is of another type.
    NotClientHello(u8),
    /// The body is shorter than its length field says.
    TruncatedBody,
    /// The body ends before the session ID length.
    BodyTooShort,
    /// The session ID reaches past the body.
    TruncatedSessionId,
    /// No room for the length of the cipher suites.
    MissingCipherSuites,
    /// The cipher suites reach past the body, or take an odd number of bytes.
    InvalidCipherSuites,
    /// No room for the length of the compression methods.
    MissingCompressionMethods,
    /// The compression methods reach past the body.
    InvalidCompressionMethods,
    /// No room for the length of the extensions.
    MissingExtensionsLength,
    /// The extensions reach past the body.
    TruncatedExtensions,
    /// One extension reaches past the extensions.
    TruncatedExtension,
    /// No room for the length of the server name list.
    MissingListLength,
    /// The server name list reaches past its extension.
    TruncatedList,
    /// One server name reaches past the list.
    TruncatedHost,
}

/// The body of the handshake message `hello`, which must be a ClientHello.
pub open spec fn hello_body(hello: Seq<u8>) -> Result<Seq<u8>, SniError> {
    if hello.len() < 4 {
        Err(SniError::HeaderTooShort)
    } else if hello[0] != 1 {
        Err(SniError::NotClientHello(hello[0]))
    } else if hello.len() < 4 + bytes::be24(hello, 1) {
        Err(SniError::TruncatedBody)
    } else {
        Ok(hello.subrange(4, 4 + bytes::be24(hello, 1)))
    }
}

/// Where the cipher suites start: behind the version, the random bytes and the
/// session ID with its one-byte length.
pub open spec fn cipher_suites_start(body: Seq<u8>) -> int {
    35 + body[34]
}

/// Where the compression methods start.
pub open spec fn compression_start(body: Seq<u8>) -> int {
    cipher_suites_start(body) + 2 + bytes::be16(body, cipher_suites_start(body))
}

/// Where the extensions start.
pub open spec fn extensions_start(body: Seq<u8>) -> int {
    compression_start(body) + 1 + body[compression_start(body)]
}

/// The extensions of a ClientHello body; `None` where the body ends before them.
pub open spec fn extension_block(body: Seq<u8>) -> Result<Option<Seq<u8>>, SniError> {
    let suites = cipher_suites_start(body);
    let compression = compression_start(body);
    let extensions = extensions_start(body);
    if body.len() < 35 {
        Err(SniError::BodyTooShort)
    } else if body.len() < suites {
        Err(SniError::TruncatedSessionId)
    } else if body.len() < suites + 2 {
        Err(SniError::MissingCipherSuites)
    } else if body.len() < compression || bytes::be16(body, suites) % 2 != 0 {
        Err(SniError::InvalidCipherSuites)
    } else if body.len() < compression + 1 {
        Err(SniError::MissingCompressionMethods)
    } else if body.len() < extensions {
        Err(SniError::InvalidCompressionMethods)
    } else if body.len() == extensions {
        Ok(None)
    } else if body.len() < extensions + 2 {
        Err(SniError::MissingExtensionsLength)
    } else if body.len() < extensions + 2 + bytes::be16(body, extensions) {
        Err(SniError::TruncatedExtensions)
    } else {
        Ok(Some(body.subrange(extensions + 2, extensions + 2 + bytes::be16(body, extensions))))
    }
}

/// The data of the first server name extension (type 0) in `block`. Extensions
/// behind it are not looked at, nor are fewer than four bytes at the end.
pub open spec fn server_name_extension(block: Seq<u8>) -> Result<Option<Seq<u8>>, SniError>
    decreases block.len(),
{
    if block.len() < 4 {
        Ok(None)
    } else if block.len() < 4 + bytes::be16(block, 2) {
        Err(SniError::TruncatedExtension)
    } else if bytes::be16(block, 0) == 0 {
        Ok(Some(block.subrange(4, 4 + bytes::be16(block, 2))))
    } else {
        server_name_extension(block.skip(4 + bytes::be16(block, 2)))
    }
}

/// The first name of type 0 (host name) in a server name list. Names behind it
/// are not looked at, nor are fewer than three bytes at the end.
pub open spec fn first_host_name(list: Seq<u8>) -> Result<Option<Seq<u8>>, SniError>
    decreases list.len(),
{
    if list.len() < 3 {
        Ok(None)
    } else if list.len() < 3 + bytes::be16(list, 1) {
        Err(SniError::TruncatedHost)
    } else if list[0] == 0 {
        Ok(Some(list.subrange(3, 3 + bytes::be16(list, 1))))
    } else {
        first_host_name(list.skip(3 + bytes::be16(list, 1)))
    }
}

/// The host name in the data of a server name extension.
pub open spec fn host_in_extension(ext: Seq<u8>) -> Result<Option<Seq<u8>>, SniError> {
    if ext.len() < 2 {
        Err(SniError::MissingListLength)
    } else if ext.len() < 2 + bytes::be16(ext, 0) {
        Err(SniError::TruncatedList)
    } else {
        first_host_name(ext.subrange(2, 2 + bytes::be16(ext, 0)))
    }
}

/// The bytes of the host name that the ClientHello `hello` asks for; `None`
/// where it asks for none.
pub open spec fn host_bytes(hello: Seq<u8>) -> Result<Option<Seq<u8>>, SniError> {
    match hello_body(hello) {
        Err(e) => Err(e),
        Ok(body) => match extension_block(body) {
            Err(e) => Err(e),
            Ok(None) => Ok(None),
            Ok(Some(block)) => match server_name_extension(block) {
                Err(e) => Err(e),
                Ok(None) => Ok(None),
                Ok(Some(ext)) => host_in_extension(ext),
            },
        },
    }
}

/// The text that `String::from_utf8_lossy` makes of `bytes`.
pub uninterp spec fn utf8_lossy(bytes: Seq<u8>) -> Seq<char>;

/// The server name that the ClientHello `hello` asks for, as text.
pub open spec fn server_name(hello: Seq<u8>) -> Result<Option<Seq<char>>, SniError> {
    match host_bytes(hello) {
        Err(e) => Err(e),
        Ok(None) => Ok(None),
        Ok(Some(host)) => Ok(Some(utf8_lossy(host))),
    }
}

/// A search result with the bytes that it points at.
pub open spec fn found(r: Result<Option<&[u8]>, SniError>) -> Result<Option<Seq<u8>>, SniError> {
    match r {
        Err(e) => Err(e),
        Ok(None) => Ok(None),
        Ok(Some(bytes)) => Ok(Some(bytes@)),
    }
}

/// A search result with the text that it holds.
pub open spec fn named(r: Result<Option<String>, SniError>) -> Result<Option<Seq<char>>, SniError> {
    match r {
        Err(e) => Err(e),
        Ok(None) => Ok(None),
        Ok(Some(text)) => Ok(Some(text@)),
    }
}

/// Calls `String::from_utf8_lossy`. The text is a function of the bytes alone,
/// and for valid UTF-8 it is the text that the bytes encode.
#[verifier::external_body]
fn text_of_bytes(bytes: &[u8]) -> (text: String)
    ensures
        text@ == utf8_lossy(bytes@),
        vstd::utf8::valid_utf8(bytes@) ==> text@ == vstd::utf8::decode_utf8(bytes@),
{
    String::from_utf8_lossy(bytes).to_string()
}

/// Finds the extensions of a ClientHello body.
fn find_extensions(body: &[u8]) -> (r: Result<Option<&[u8]>, SniError>)
    ensures
        found(r) == extension_block(body@),
{
    if body.len() < 35 {
        return Err(SniError::BodyTooShort);
    }
    let suites: usize = 35 + body[34] as usize;
    if body.len() < suites {
        return Err(SniError::TruncatedSessionId);
    }
    if body.len() < suites + 2 {
        return Err(SniError::MissingCipherSuites);
    }
    let suites_len: usize = bytes::read_be16(body, suites);
    let compression: usize = suites + 2 + suites_len;
    if body.len() < compression || suites_len % 2 != 0 {
        return Err(SniError::InvalidCipherSuites);
    }
    if body.len() < compression + 1 {
        return Err(SniError::MissingCompressionMethods);
    }
    let extensions: usize = compression + 1 + body[compression] as usize;
    if body.len() < extensions {
        return Err(SniError::InvalidCompressionMethods);
    }
    if body.len() == extensions {
        return Ok(None);
    }
    if body.len() < extensions + 2 {
        return Err(SniError::MissingExtensionsLength);
    }
    let total: usize = bytes::read_be16(body, extensions);
    if body.len() < extensions + 2 + total {
        return Err(SniError::TruncatedExtensions);
    }
    Ok(Some(slice_subrange(body, extensions + 2, extensions + 2 + total)))
}

/// Finds the data of the server name extension among the extensions.
fn find_server_name_extension(block: &[u8]) -> (r: Result<Option<&[u8]>, SniError>)
    ensures
        found(r) == server_name_extension(block@),
{
    let mut j: usize = 0;
    assert(block@.skip(0) =~= block@);
    while block.len() - j >= 4
        invariant
            j <= block@.len(),
            server_name_extension(block@) == server_name_extension(block@.skip(j as int)),
        decreases block@.len() - j,
    {
        let ghost rest = block@.skip(j as int);
        let kind: usize = bytes::read_be16(block, j);
        let len: usize = bytes::read_be16(block, j + 2);
        assert(kind == bytes::be16(rest, 0) && len == bytes::be16(rest, 2));
        if block.len() - j - 4 < len {
            return Err(SniError::TruncatedExtension);
        }
        if kind == 0 {
            let ext = slice_subrange(block, j + 4, j + 4 + len);
            assert(ext@ =~= rest.subrange(4, 4 + len));
            return Ok(Some(ext));
        }
        assert(rest.skip(4 + len) =~= block@.skip(j + 4 + len));
        j = j + 4 + len;
    }
    Ok(None)
}

/// Finds the host name in the data of a server name extension.
fn find_host_name(ext: &[u8]) -> (r: Result<Option<&[u8]>, SniError>)
    ensures
        found(r) == host_in_extension(ext@),
{
    if ext.len() < 2 {
        return Err(SniError::MissingListLength);
    }
    let list_len: usize = bytes::read_be16(ext, 0);
    if ext.len() < 2 + list_len {
        return Err(SniError::TruncatedList);
    }
    let list = slice_subrange(ext, 2, 2 + list_len);
    let mut k: usize = 0;
    assert(list@.skip(0) =~= list@);
    while list.len() - k >= 3
        invariant
            k <= list@.len(),
            first_host_name(list@) == first_host_name(list@.skip(k as int)),
            host_in_extension(ext@) == first_host_name(list@),
        decreases list@.len() - k,
    {
        let ghost rest = list@.skip(k as int);
        let kind: u8 = list[k];
        let len: usize = bytes::read_be16(list, k + 1);
        assert(kind == rest[0] && len == bytes::be16(rest, 1));
        if list.len() - k - 3 < len {
            return Err(SniError::TruncatedHost);
        }
        if kind == 0 {
            let host = slice_subrange(list, k + 3, k + 3 + len);
            assert(host@ =~= rest.subrange(3, 3 + len));
            return Ok(Some(host));
        }
        assert(rest.skip(3 + len) =~= list@.skip(k + 3 + len));
        k = k + 3 + len;
    }
    Ok(None)
}

/// Finds the bytes of the host name that a ClientHello asks for.
pub fn find_host_bytes(hello: &[u8]) -> (r: Result<Option<&[u8]>, SniError>)
    ensures
        found(r) == host_bytes(hello@),
{
    if hello.len() < 4 {
        return Err(SniError::HeaderTooShort);
    }
    if hello[0] != 1 {
        return Err(SniError::NotClientHello(hello[0]));
    }
    let body_len: usize = bytes::read_be24(hello, 1);
    if hello.len() < 4 + body_len {
        return Err(SniError::TruncatedBody);
    }
    let body = slice_subrange(hello, 4, 4 + body_len);
    let block = match find_extensions(body) {
        Err(e) => return Err(e),
        Ok(None) => return Ok(None),
        Ok(Some(block)) => block,
    };
    match find_server_name_extension(block) {
        Err(e) => Err(e),
        Ok(None) => Ok(None),
        Ok(Some(ext)) => find_host_name(ext),
    }
}

/// Extracts the server name from a ClientHello (handshake header and body).
/// `Ok(None)` where it holds no host name.
pub fn extract_sni(clienthello: &[u8]) -> (r: Result<Option<String>, SniError>)
    ensures
        named(r) == server_name(clienthello@),
        r matches Ok(Some(name)) ==> (host_bytes(clienthello@) matches Ok(Some(host))
            && (vstd::utf8::valid_utf8(host) ==> name@ == vstd::utf8::decode_utf8(host))),
{
    match find_host_bytes(clienthello) {
        Err(e) => Err(e),
        Ok(None) => Ok(None),
        Ok(Some(host)) => Ok(Some(text_of_bytes(host))),
    }
}

/// An extension of a ClientHello.
pub struct Extension {
    pub kind: u16,
    pub data: Seq<u8>,
}

/// An entry of a server name list.
pub struct ServerName {
    pub kind: u8,
    pub name: Seq<u8>,
}

/// What a ClientHello says.
pub struct HelloParts {
    /// The legacy version and the random bytes.
    pub preamble: Seq<u8>,
    pub session_id: Seq<u8>,
    pub cipher_suites: Seq<u8>,
    pub compression_methods: Seq<u8>,
    pub extensions: Option<Seq<Extension>>,
}

/// `data` behind its length in `width` bytes.
pub open spec fn prefixed(data: Seq<u8>, width: nat) -> Seq<u8> {
    bytes::to_be(data.len(), width) + data
}

/// The wire form of a server name list.
pub open spec fn encode_names(names: Seq<ServerName>) -> Seq<u8>
    decreases names.len(),
{
    if names.len() == 0 {
        Seq::empty()
    } else {
        seq![names[0].kind] + prefixed(names[0].name, 2) + encode_names(names.skip(1))
    }
}

/// The wire form of a list of extensions.
pub open spec fn encode_extensions(extensions: Seq<Extension>) -> Seq<u8>
    decreases extensions.len(),
{
    if extensions.len() == 0 {
        Seq::empty()
    } else {
        bytes::to_be(extensions[0].kind as nat, 2) + prefixed(extensions[0].data, 2)
            + encode_extensions(extensions.skip(1))
    }
}

/// The wire form of a ClientHello body.
pub open spec fn encode_body(parts: HelloParts) -> Seq<u8> {
    parts.preamble + prefixed(parts.session_id, 1) + prefixed(parts.cipher_suites, 2) + prefixed(
        parts.compression_methods,
        1,
    ) + match parts.extensions {
        None => Seq::empty(),
        Some(extensions) => prefixed(encode_extensions(extensions), 2),
    }
}

/// A ClientHello body behind its handshake header.
pub open spec fn hello_message(body: Seq<u8>) -> Seq<u8> {
    seq![1u8] + prefixed(body, 3)
}

/// The wire form of a ClientHello with its handshake header.
pub open spec fn encode_hello(parts: HelloParts) -> Seq<u8> {
    hello_message(encode_body(parts))
}

/// Whether every part fits its length field.
pub open spec fn encodable(parts: HelloParts) -> bool {
    &&& parts.preamble.len() == 34
    &&& parts.session_id.len() <= 0xff
    &&& parts.cipher_suites.len() <= 0xffff
    &&& parts.cipher_suites.len() % 2 == 0
    &&& parts.compression_methods.len() <= 0xff
    &&& parts.extensions matches Some(extensions) ==> {
        &&& encode_extensions(extensions).len() <= 0xffff
        &&& forall|i: int|
            0 <= i < extensions.len() ==> (#[trigger] extensions[i]).data.len() <= 0xffff
    }
}

/// The first host name (type 0) of a server name list.
pub open spec fn requested_host(names: Seq<ServerName>) -> Option<Seq<u8>>
    decreases names.len(),
{
    if names.len() == 0 {
        None
    } else if names[0].kind == 0 {
        Some(names[0].name)
    } else {
        requested_host(names.skip(1))
    }
}

/// The data of the first server name extension (type 0).
pub open spec fn requested_extension(extensions: Seq<Extension>) -> Option<Seq<u8>>
    decreases extensions.len(),
{
    if extensions.len() == 0 {
        None
    } else if extensions[0].kind == 0 {
        Some(extensions[0].data)
    } else {
        requested_extension(extensions.skip(1))
    }
}

/// Reading an encoded server name list gives its first host name.
pub proof fn lemma_host_of_names(names: Seq<ServerName>)
    requires
        forall|i: int| 0 <= i < names.len() ==> (#[trigger] names[i]).name.len() <= 0xffff,
    ensures
        first_host_name(encode_names(names)) == Ok::<Option<Seq<u8>>, SniError>(
            requested_host(names),
        ),
    decreases names.len(),
{
    if names.len() > 0 {
        let name = names[0].name;
        let list = encode_names(names);
        let rest = encode_names(names.skip(1));
        bytes::lemma_be16_round_trip(name.len());
        let width = bytes::to_be(name.len(), 2);
        assert(list =~= seq![names[0].kind] + width + name + rest);
        assert(list[1] == width[0] && list[2] == width[1]);
        assert(bytes::be16(list, 1) == name.len());
        assert(list.subrange(3, 3int + name.len()) =~= name);
        assert(list.skip(3int + name.len()) =~= rest);
        lemma_host_of_names(names.skip(1));
    }
}

/// Reading an encoded server name extension gives its first host name.
pub proof fn lemma_host_of_extension(names: Seq<ServerName>)
    requires
        encode_names(names).len() <= 0xffff,
        forall|i: int| 0 <= i < names.len() ==> (#[trigger] names[i]).name.len() <= 0xffff,
    ensures
        host_in_extension(prefixed(encode_names(names), 2)) == Ok::<Option<Seq<u8>>, SniError>(
            requested_host(names),
        ),
{
    let list = encode_names(names);
    let ext = prefixed(list, 2);
    bytes::lemma_be16_round_trip(list.len());
    let width = bytes::to_be(list.len(), 2);
    assert(ext[0] == width[0] && ext[1] == width[1]);
    assert(ext.subrange(2, 2int + list.len()) =~= list);
    lemma_host_of_names(names);
}

/// Reading encoded extensions gives the first server name extension.
pub proof fn lemma_extension_of_list(extensions: Seq<Extension>)
    requires
        forall|i: int|
            0 <= i < extensions.len() ==> (#[trigger] extensions[i]).data.len() <= 0xffff,
    ensures
        server_name_extension(encode_extensions(extensions)) == Ok::<Option<Seq<u8>>, SniError>(
            requested_extension(extensions),
        ),
    decreases extensions.len(),
{
    if extensions.len() > 0 {
        let kind = extensions[0].kind as nat;
        let data = extensions[0].data;
        let block = encode_extensions(extensions);
        let rest = encode_extensions(extensions.skip(1));
        bytes::lemma_be16_round_trip(kind);
        bytes::lemma_be16_round_trip(data.len());
        let tag = bytes::to_be(kind, 2);
        let width = bytes::to_be(data.len(), 2);
        assert(block =~= tag + width + data + rest);
        assert(block[0] == tag[0] && block[1] == tag[1]);
        assert(block[2] == width[0] && block[3] == width[1]);
        assert(block.subrange(4, 4int + data.len()) =~= data);
        assert(block.skip(4int + data.len()) =~= rest);
        lemma_extension_of_list(extensions.skip(1));
    }
}

/// The extensions found in an encoded body are the encoded extensions.
proof fn lemma_extensions_of_encoded_body(parts: HelloParts)
    requires
        encodable(parts),
    ensures
        encode_body(parts).len() <= 0xff_ffff,
        extension_block(encode_body(parts)) == match parts.extensions {
            None => Ok::<Option<Seq<u8>>, SniError>(None),
            Some(extensions) => Ok(Some(encode_extensions(extensions))),
        },
{
    let body = encode_body(parts);
    let sid = prefixed(parts.session_id, 1);
    let suites = prefixed(parts.cipher_suites, 2);
    let methods = prefixed(parts.compression_methods, 1);
    let tail = match parts.extensions {
        None => Seq::<u8>::empty(),
        Some(extensions) => prefixed(encode_extensions(extensions), 2),
    };
    reveal_with_fuel(bytes::to_be, 2);
    bytes::lemma_be16_round_trip(parts.cipher_suites.len());
    assert(sid[0] == parts.session_id.len());
    assert(bytes::be16(suites, 0) == parts.cipher_suites.len());
    assert(methods[0] == parts.compression_methods.len());

    let head1 = parts.preamble + sid;
    let head2 = head1 + suites;
    let head3 = head2 + methods;
    let a: int = head1.len() as int;
    let b: int = head2.len() as int;
    let c: int = head3.len() as int;
    assert(body == head3 + tail);
    assert(head1[34] == sid[0]);
    assert(head2[a] == suites[0] && head2[a + 1] == suites[1]);
    assert(head3[b] == methods[0]);
    assert(body[34] == sid[0]);
    assert(body[a] == suites[0] && body[a + 1] == suites[1]);
    assert(body[b] == methods[0]);
    assert(cipher_suites_start(body) == a);
    assert(compression_start(body) == b);
    assert(extensions_start(body) == c);
    if parts.extensions is Some {
        let block = encode_extensions(parts.extensions->0);
        bytes::lemma_be16_round_trip(block.len());
        let width = bytes::to_be(block.len(), 2);
        assert(tail == width + block);
        assert(body[c] == width[0] && body[c + 1] == width[1]);
        assert(bytes::be16(body, c) == block.len());
        assert(body.subrange(c + 2, c + 2 + block.len()) =~= block);
    }
}

/// What is read from a framed message is what its extensions say.
proof fn lemma_host_of_message(body: Seq<u8>)
    requires
        body.len() <= 0xff_ffff,
    ensures
        host_bytes(hello_message(body)) == match extension_block(body) {
            Err(e) => Err(e),
            Ok(None) => Ok(None),
            Ok(Some(block)) => match server_name_extension(block) {
                Err(e) => Err(e),
                Ok(None) => Ok(None),
                Ok(Some(ext)) => host_in_extension(ext),
            },
        },
{
    let hello = hello_message(body);
    bytes::lemma_be24_round_trip(body.len());
    let width = bytes::to_be(body.len(), 3);
    assert(hello[1] == width[0] && hello[2] == width[1] && hello[3] == width[2]);
    assert(hello.subrange(4, 4int + body.len()) =~= body);
    assert(hello_body(hello) == Ok::<Seq<u8>, SniError>(body));
}

/// The host name read from an encoded ClientHello is the one in its first
/// server name extension. Where it has no such extension, none is read.
pub proof fn lemma_host_of_encoded_hello(parts: HelloParts)
    requires
        encodable(parts),
    ensures
        host_bytes(encode_hello(parts)) == match parts.extensions {
            None => Ok::<Option<Seq<u8>>, SniError>(None),
            Some(extensions) => match requested_extension(extensions) {
                None => Ok(None),
                Some(ext) => host_in_extension(ext),
            },
        },
{
    lemma_extensions_of_encoded_body(parts);
    lemma_host_of_message(encode_body(parts));
    if parts.extensions is Some {
        lemma_extension_of_list(parts.extensions->0);
    }
}

/// A ClientHello that asks for host names in its first server name extension is
/// read as asking for the first of them.
pub proof fn lemma_requested_host_is_read(parts: HelloParts, names: Seq<ServerName>)
    requires
        encodable(parts),
        encode_names(names).len() <= 0xffff,
        forall|i: int| 0 <= i < names.len() ==> (#[trigger] names[i]).name.len() <= 0xffff,
        parts.extensions matches Some(extensions) && requested_extension(extensions) == Some(
            prefixed(encode_names(names), 2),
        ),
    ensures
        host_bytes(encode_hello(parts)) == Ok::<Option<Seq<u8>>, SniError>(requested_host(names)),
        server_name(encode_hello(parts)) == (match requested_host(names) {
            None => Ok::<Option<Seq<char>>, SniError>(None),
            Some(host) => Ok(Some(utf8_lossy(host))),
        }),
{
    lemma_host_of_encoded_hello(parts);
    lemma_host_of_extension(names);
}

/// Bytes behind the message do not change what is read from it.
pub proof fn lemma_bytes_behind_hello_are_ignored(hello: Seq<u8>, tail: Seq<u8>)
    requires
        hello_body(hello) is Ok,
    ensures
        host_bytes(hello + tail) == host_bytes(hello),
        server_name(hello + tail) == server_name(hello),
{
    let len = bytes::be24(hello, 1);
    assert((hello + tail).subrange(4, 4 + len) =~= hello.subrange(4, 4 + len));
}

/// A ClientHello is framed by a one and the length of its body in three bytes.
pub proof fn lemma_message_by_its_bytes(body: Seq<u8>)
    requires
        body.len() <= 0xff_ffff,
    ensures
        hello_message(body) == seq![
            1u8,
            (body.len() / 0x1_0000) as u8,
            (body.len() / 0x100 % 0x100) as u8,
            (body.len() % 0x100) as u8,
        ] + body,
{
    reveal_with_fuel(bytes::to_be, 4);
    assert(hello_message(body) =~= seq![
        1u8,
        (body.len() / 0x1_0000) as u8,
        (body.len() / 0x100 % 0x100) as u8,
        (body.len() % 0x100) as u8,
    ] + body);
}

/// Another message than a ClientHello, and a ClientHello that is cut off, is
/// refused.
pub proof fn lemma_only_whole_hellos_are_read(body: Seq<u8>, n: int, hello: Seq<u8>)
    requires
        body.len() <= 0xff_ffff,
        0 <= n < hello_message(body).len(),
    ensures
        hello.len() >= 4 && hello[0] != 1 ==> host_bytes(hello) == Err::<
            Option<Seq<u8>>,
            SniError,
        >(SniError::NotClientHello(hello[0])),
        host_bytes(hello_message(body).take(n)) == Err::<Option<Seq<u8>>, SniError>(
            if n < 4 {
                SniError::HeaderTooShort
            } else {
                SniError::TruncatedBody
            },
        ),
{
    bytes::lemma_be24_round_trip(body.len());
    let cut = hello_message(body).take(n);
    let width = bytes::to_be(body.len(), 3);
    if n >= 4 {
        assert(cut[0] == 1 && cut[1] == width[0] && cut[2] == width[1] && cut[3] == width[2]);
    }
}

/// What is asked for does not depend on what stands behind it. Whatever follows
/// the first host name in the list, the list in its extension, the first server
/// name extension among the extensions, or the extensions in the body, that host
/// name is read.
pub proof fn lemma_leftovers_are_ignored(
    parts: HelloParts,
    before: Seq<Extension>,
    other_names: Seq<ServerName>,
    host: Seq<u8>,
    behind_host: Seq<u8>,
    behind_list: Seq<u8>,
    behind_extension: Seq<u8>,
    behind_extensions: Seq<u8>,
)
    requires
        encodable(HelloParts { extensions: None, ..parts }),
        forall|i: int|
            0 <= i < before.len() ==> (#[trigger] before[i]).kind != 0 && before[i].data.len()
                <= 0xffff,
        forall|i: int|
            0 <= i < other_names.len() ==> (#[trigger] other_names[i]).kind != 0
                && other_names[i].name.len() <= 0xffff,
        host.len() <= 0xffff,
        (encode_names(other_names) + seq![0u8] + prefixed(host, 2) + behind_host).len() <= 0xffff,
        (prefixed(
            encode_names(other_names) + seq![0u8] + prefixed(host, 2) + behind_host,
            2,
        ) + behind_list).len() <= 0xffff,
        (encode_extensions(before) + seq![0u8, 0] + prefixed(
            prefixed(encode_names(other_names) + seq![0u8] + prefixed(host, 2) + behind_host, 2)
                + behind_list,
            2,
        ) + behind_extension).len() <= 0xffff,
        behind_extensions.len() <= 0xffff,
    ensures
        ({
            let list = encode_names(other_names) + seq![0u8] + prefixed(host, 2) + behind_host;
            let data = prefixed(list, 2) + behind_list;
            let block = encode_extensions(before) + seq![0u8, 0] + prefixed(data, 2)
                + behind_extension;
            let body = encode_body(HelloParts { extensions: None, ..parts }) + prefixed(block, 2)
                + behind_extensions;
            host_bytes(hello_message(body)) == Ok::<Option<Seq<u8>>, SniError>(Some(host))
        }),
{
    let list = encode_names(other_names) + seq![0u8] + prefixed(host, 2) + behind_host;
    let data = prefixed(list, 2) + behind_list;
    let block = encode_extensions(before) + seq![0u8, 0] + prefixed(data, 2) + behind_extension;
    let start = HelloParts { extensions: None, ..parts };
    let body = encode_body(start) + prefixed(block, 2) + behind_extensions;
    lemma_block_behind_start(start, block, behind_extensions);
    lemma_host_of_message(body);
    lemma_extension_behind_others(before, data, behind_extension);
    lemma_host_behind_others(other_names, host, behind_host);
    bytes::lemma_be16_round_trip(list.len());
    let width = bytes::to_be(list.len(), 2);
    assert(data[0] == width[0] && data[1] == width[1]);
    assert(data.subrange(2, 2int + list.len()) =~= list);
}

proof fn lemma_host_behind_others(names: Seq<ServerName>, host: Seq<u8>, behind: Seq<u8>)
    requires
        host.len() <= 0xffff,
        forall|i: int|
            0 <= i < names.len() ==> (#[trigger] names[i]).kind != 0 && names[i].name.len()
                <= 0xffff,
    ensures
        first_host_name(encode_names(names) + seq![0u8] + prefixed(host, 2) + behind) == Ok::<
            Option<Seq<u8>>,
            SniError,
        >(Some(host)),
    decreases names.len(),
{
    let tail = seq![0u8] + prefixed(host, 2) + behind;
    let list = encode_names(names) + seq![0u8] + prefixed(host, 2) + behind;
    if names.len() == 0 {
        bytes::lemma_be16_round_trip(host.len());
        let width = bytes::to_be(host.len(), 2);
        assert(list =~= tail);
        assert(list[0] == 0 && list[1] == width[0] && list[2] == width[1]);
        assert(list.subrange(3, 3int + host.len()) =~= host);
    } else {
        let name = names[0].name;
        let rest = names.skip(1);
        bytes::lemma_be16_round_trip(name.len());
        let width = bytes::to_be(name.len(), 2);
        let others = encode_names(rest) + seq![0u8] + prefixed(host, 2) + behind;
        assert(list =~= seq![names[0].kind] + width + name + others);
        assert(list[0] == names[0].kind && list[1] == width[0] && list[2] == width[1]);
        assert(list.skip(3int + name.len()) =~= others);
        assert forall|i: int| 0 <= i < rest.len() implies (#[trigger] rest[i]).kind != 0
            && rest[i].name.len() <= 0xffff by {
            assert(rest[i] == names[i + 1]);
        }
        lemma_host_behind_others(rest, host, behind);
    }
}

proof fn lemma_extension_behind_others(
    extensions: Seq<Extension>,
    data: Seq<u8>,
    behind: Seq<u8>,
)
    requires
        data.len() <= 0xffff,
        forall|i: int|
            0 <= i < extensions.len() ==> (#[trigger] extensions[i]).kind != 0
                && extensions[i].data.len() <= 0xffff,
    ensures
        server_name_extension(
            encode_extensions(extensions) + seq![0u8, 0] + prefixed(data, 2) + behind,
        ) == Ok::<Option<Seq<u8>>, SniError>(Some(data)),
    decreases extensions.len(),
{
    let block = encode_extensions(extensions) + seq![0u8, 0] + prefixed(data, 2) + behind;
    if extensions.len() == 0 {
        bytes::lemma_be16_round_trip(data.len());
        let width = bytes::to_be(data.len(), 2);
        assert(block =~= seq![0u8, 0] + width + data + behind);
        assert(block[2] == width[0] && block[3] == width[1]);
        assert(block.subrange(4, 4int + data.len()) =~= data);
    } else {
        let kind = extensions[0].kind as nat;
        let first = extensions[0].data;
        let rest = extensions.skip(1);
        bytes::lemma_be16_round_trip(kind);
        bytes::lemma_be16_round_trip(first.len());
        let tag = bytes::to_be(kind, 2);
        let width = bytes::to_be(first.len(), 2);
        let others = encode_extensions(rest) + seq![0u8, 0] + prefixed(data, 2) + behind;
        assert(block =~= tag + width + first + others);
        assert(block[0] == tag[0] && block[1] == tag[1]);
        assert(block[2] == width[0] && block[3] == width[1]);
        assert(block.skip(4int + first.len()) =~= others);
        assert forall|i: int| 0 <= i < rest.len() implies (#[trigger] rest[i]).kind != 0
            && rest[i].data.len() <= 0xffff by {
            assert(rest[i] == extensions[i + 1]);
        }
        lemma_extension_behind_others(rest, data, behind);
    }
}

/// Where the parts of a body start that has no extensions.
proof fn lemma_start_of_body(parts: HelloParts)
    requires
        encodable(parts),
        parts.extensions is None,
    ensures
        ({
            let start = encode_body(parts);
            let a = 35 + parts.session_id.len() as int;
            let b = a + 2 + parts.cipher_suites.len();
            &&& start.len() == b + 1 + parts.compression_methods.len()
            &&& start.len() <= 0x2_0000
            &&& start[34] == parts.session_id.len()
            &&& start[a] * 256 + start[a + 1] == parts.cipher_suites.len()
            &&& start[b] == parts.compression_methods.len()
        }),
{
    let sid = prefixed(parts.session_id, 1);
    let suites = prefixed(parts.cipher_suites, 2);
    let methods = prefixed(parts.compression_methods, 1);
    reveal_with_fuel(bytes::to_be, 2);
    bytes::lemma_be16_round_trip(parts.cipher_suites.len());
    let head1 = parts.preamble + sid;
    let head2 = head1 + suites;
    let head3 = head2 + methods;
    let a = head1.len() as int;
    let b = head2.len() as int;
    assert(encode_body(parts) =~= head3);
    assert(sid[0] == parts.session_id.len());
    assert(head1[34] == sid[0]);
    assert(head2[a] == suites[0] && head2[a + 1] == suites[1]);
    assert(head3[b] == methods[0]);
    assert(bytes::be16(suites, 0) == parts.cipher_suites.len());
}

proof fn lemma_block_behind_start(parts: HelloParts, block: Seq<u8>, behind: Seq<u8>)
    requires
        encodable(parts),
        parts.extensions is None,
        block.len() <= 0xffff,
        behind.len() <= 0xffff,
    ensures
        ({
            let body = encode_body(parts) + prefixed(block, 2) + behind;
            &&& body.len() <= 0xff_ffff
            &&& extension_block(body) == Ok::<Option<Seq<u8>>, SniError>(Some(block))
        }),
{
    let start = encode_body(parts);
    let body = start + prefixed(block, 2) + behind;
    lemma_start_of_body(parts);
    bytes::lemma_be16_round_trip(block.len());
    let width = bytes::to_be(block.len(), 2);
    let a = 35 + parts.session_id.len() as int;
    let b = a + 2 + parts.cipher_suites.len();
    let c = start.len() as int;
    assert(body[34] == start[34]);
    assert(body[a] == start[a] && body[a + 1] == start[a + 1]);
    assert(body[b] == start[b]);
    assert(body[c] == width[0] && body[c + 1] == width[1]);
    assert(body.subrange(c + 2, c + 2 + block.len()) =~= block);
}

/// A body without extensions asks for no name, and one that is cut short is
/// refused by the part that it is cut in.
pub proof fn lemma_cut_body_is_refused(parts: HelloParts, n: int)
    requires
        encodable(parts),
        parts.extensions is None,
        0 <= n <= encode_body(parts).len(),
    ensures
        ({
            let a = 35 + parts.session_id.len();
            let b = a + 2 + parts.cipher_suites.len();
            extension_block(encode_body(parts).take(n)) == if n < 35 {
                Err::<Option<Seq<u8>>, SniError>(SniError::BodyTooShort)
            } else if n < a {
                Err(SniError::TruncatedSessionId)
            } else if n < a + 2 {
                Err(SniError::MissingCipherSuites)
            } else if n < b {
                Err(SniError::InvalidCipherSuites)
            } else if n < b + 1 {
                Err(SniError::MissingCompressionMethods)
            } else if n < encode_body(parts).len() {
                Err(SniError::InvalidCompressionMethods)
            } else {
                Ok(None)
            }
        }),
{
    let start = encode_body(parts);
    let cut = start.take(n);
    lemma_start_of_body(parts);
    let a = 35 + parts.session_id.len() as int;
    let b = a + 2 + parts.cipher_suites.len();
    if n > 34 {
        assert(cut[34] == start[34]);
    }
    if n > a + 1 {
        assert(cut[a] == start[a] && cut[a + 1] == start[a + 1]);
    }
    if n > b {
        assert(cut[b] == start[b]);
    }
}

/// Extensions, server name lists and host names that reach past what they stand
/// in are refused; so is a server name extension or extensions without room for
/// their length.
pub proof fn lemma_what_reaches_too_far_is_refused(s: Seq<u8>)
    ensures
        s.len() >= 4 && s.len() < 4 + s[2] * 256 + s[3] ==> server_name_extension(s) == Err::<
            Option<Seq<u8>>,
            SniError,
        >(SniError::TruncatedExtension),
        s.len() >= 4 && s.len() >= 4 + s[2] * 256 + s[3] && !(s[0] == 0 && s[1] == 0)
            ==> server_name_extension(s) == server_name_extension(s.skip(4 + s[2] * 256 + s[3])),
        s.len() < 4 ==> server_name_extension(s) == Ok::<Option<Seq<u8>>, SniError>(None),
        s.len() >= 3 && s.len() < 3 + s[1] * 256 + s[2] ==> first_host_name(s) == Err::<
            Option<Seq<u8>>,
            SniError,
        >(SniError::TruncatedHost),
        s.len() >= 3 && s.len() >= 3 + s[1] * 256 + s[2] && s[0] != 0 ==> first_host_name(s)
            == first_host_name(s.skip(3 + s[1] * 256 + s[2])),
        s.len() < 3 ==> first_host_name(s) == Ok::<Option<Seq<u8>>, SniError>(None),
        s.len() < 2 ==> host_in_extension(s) == Err::<Option<Seq<u8>>, SniError>(
            SniError::MissingListLength,
        ),
        2 <= s.len() < 2 + s[0] * 256 + s[1] ==> host_in_extension(s) == Err::<
            Option<Seq<u8>>,
            SniError,
        >(SniError::TruncatedList),
        s.len() >= 2 && s.len() >= 2 + s[0] * 256 + s[1] ==> host_in_extension(s)
            == first_host_name(s.subrange(2, 2 + s[0] * 256 + s[1])),
{
}

/// Extensions that are cut short are refused: within their length, or within
/// what the length announces.
pub proof fn lemma_cut_extensions_are_refused(parts: HelloParts, block: Seq<u8>, n: int)
    requires
        encodable(parts),
        parts.extensions is None,
        block.len() <= 0xffff,
        0 < n < 2 + block.len(),
    ensures
        extension_block(encode_body(parts) + prefixed(block, 2).take(n)) == Err::<
            Option<Seq<u8>>,
            SniError,
        >(
            if n < 2 {
                SniError::MissingExtensionsLength
            } else {
                SniError::TruncatedExtensions
            },
        ),
{
    let start = encode_body(parts);
    let body = start + prefixed(block, 2).take(n);
    lemma_start_of_body(parts);
    bytes::lemma_be16_round_trip(block.len());
    let width = bytes::to_be(block.len(), 2);
    let a = 35 + parts.session_id.len() as int;
    let b = a + 2 + parts.cipher_suites.len();
    let c = start.len() as int;
    assert(body[34] == start[34]);
    assert(body[a] == start[a] && body[a + 1] == start[a + 1]);
    assert(body[b] == start[b]);
    if n >= 2 {
        assert(body[c] == width[0] && body[c + 1] == width[1]);
    }
}

/// Cipher suites take two bytes each: an odd number of bytes for them is refused.
pub proof fn lemma_odd_cipher_suites_are_refused(body: Seq<u8>)
    requires
        body.len() >= 35,
        body.len() >= 37 + body[34],
        body[36 + body[34]] % 2 == 1,
    ensures
        extension_block(body) == Err::<Option<Seq<u8>>, SniError>(SniError::InvalidCipherSuites),
{
}

/// What is read of a ClientHello comes through its parts: the first of them that
/// cannot be read is why no name is, and where the extensions, or the server name
/// among them, are missing, no name is asked for.
pub proof fn lemma_name_comes_through_the_parts(hello: Seq<u8>)
    ensures
        hello_body(hello) matches Err(e) ==> host_bytes(hello) == Err::<
            Option<Seq<u8>>,
            SniError,
        >(e),
        hello_body(hello) matches Ok(body) ==> {
            &&& extension_block(body) matches Err(e) ==> host_bytes(hello) == Err::<
                Option<Seq<u8>>,
                SniError,
            >(e)
            &&& extension_block(body) == Ok::<Option<Seq<u8>>, SniError>(None) ==> host_bytes(hello)
                == Ok::<Option<Seq<u8>>, SniError>(None)
            &&& extension_block(body) matches Ok(Some(block)) ==> {
                &&& server_name_extension(block) matches Err(e) ==> host_bytes(hello) == Err::<
                    Option<Seq<u8>>,
                    SniError,
                >(e)
                &&& server_name_extension(block) == Ok::<Option<Seq<u8>>, SniError>(None)
                    ==> host_bytes(hello) == Ok::<Option<Seq<u8>>, SniError>(None)
                &&& server_name_extension(block) matches Ok(Some(data)) ==> host_bytes(hello)
                    == host_in_extension(data)
            }
        },
{
}

/// A name that is read is the text of the bytes that are asked for; where these
/// cannot be read or none are asked for, that is what is said.
pub proof fn lemma_name_is_the_text_of_the_bytes(
    hello: &[u8],
    name: Result<Option<String>, SniError>,
)
    requires
        call_ensures(extract_sni, (hello,), name),
    ensures
        match host_bytes(hello@) {
            Err(e) => name matches Err(error) && error == e,
            Ok(None) => name matches Ok(None),
            Ok(Some(host)) => name matches Ok(Some(text)) && text@ == utf8_lossy(host),
        },
{
}

} // verus!
