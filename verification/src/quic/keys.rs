//! The keys that protect Initial packets.

use vstd::prelude::*;
use vstd::slice::slice_to_vec;

use crate::bytes;
use crate::quic::error::QuicError;

verus! {

/// A length of key material.
#[derive(Clone, Copy)]
pub struct HkdfLen(pub usize);

impl ring::hkdf::KeyType for HkdfLen {
    fn len(&self) -> (n: usize)
        ensures
            n == self.0,
    {
        self.0
    }
}

/// The error of ring's functions.
#[verifier::external_type_specification]
#[verifier::external_body]
pub struct ExUnspecified(ring::error::Unspecified);

/// The `len` bytes that HKDF with SHA-256 derives from a secret with a salt and
/// for the context `info`.
pub uninterp spec fn hkdf_sha256(
    salt: Seq<u8>,
    secret: Seq<u8>,
    info: Seq<u8>,
    len: nat,
) -> Seq<u8>;

/// The `len` bytes that the expanding half of HKDF with SHA-256 derives from the
/// pseudorandom key `prk` for the context `info`.
pub uninterp spec fn hkdf_expand_sha256(prk: Seq<u8>, info: Seq<u8>, len: nat) -> Seq<u8>;

/// The most bytes that HKDF with SHA-256 can derive at once: 255 times the
/// digest's 32.
pub const MAX_EXPANDED: usize = 8160;

/// Whether `n` bytes, with what HMAC adds to them, can be hashed with SHA-256,
/// whose inputs have less than 2 to the 64 bits.
pub open spec fn hashable(n: nat) -> bool {
    n <= 0x1fff_ffff_ffff_ff80
}

/// Runs `ring::hkdf::Salt::extract` and expands the result with
/// `ring::hkdf::Prk::expand` and `ring::hkdf::Okm::fill`.
///
/// Believed: it fails exactly when more than [`MAX_EXPANDED`] bytes are asked
/// for, gives as many bytes as were asked for, and the bytes depend on the
/// salt, the secret, the context and the length alone.
#[verifier::external_body]
fn extract_and_expand(salt: &[u8], secret: &[u8], info: &[u8], len: usize) -> (r: Result<
    Vec<u8>,
    ring::error::Unspecified,
>)
    requires
        hashable(salt@.len()),
        hashable(secret@.len()),
        hashable(info@.len()),
        len <= 0xffff,
    ensures
        r is Ok <==> len <= MAX_EXPANDED,
        r matches Ok(out) ==> out@ == hkdf_sha256(salt@, secret@, info@, len as nat) && out@.len()
            == len,
{
    let mut out = vec![0u8; len];
    let prk = ring::hkdf::Salt::new(ring::hkdf::HKDF_SHA256, salt).extract(secret);
    prk.expand(&[info], HkdfLen(len))?.fill(&mut out)?;
    Ok(out)
}

/// Makes a key with `ring::hkdf::Prk::new_less_safe` and expands it with
/// `ring::hkdf::Prk::expand` and `ring::hkdf::Okm::fill`.
///
/// Believed: it fails exactly when more than [`MAX_EXPANDED`] bytes are asked
/// for, gives as many bytes as were asked for, and the bytes depend on the key,
/// the context and the length alone.
#[verifier::external_body]
fn expand(prk: &[u8], info: &[u8], len: usize) -> (r: Result<Vec<u8>, ring::error::Unspecified>)
    requires
        hashable(prk@.len()),
        hashable(info@.len()),
        len <= 0xffff,
    ensures
        r is Ok <==> len <= MAX_EXPANDED,
        r matches Ok(out) ==> out@ == hkdf_expand_sha256(prk@, info@, len as nat) && out@.len()
            == len,
{
    let mut out = vec![0u8; len];
    let prk = ring::hkdf::Prk::new_less_safe(ring::hkdf::HKDF_SHA256, prk);
    prk.expand(&[info], HkdfLen(len))?.fill(&mut out)?;
    Ok(out)
}

/// A secret that keys are derived from.
pub enum Secret {
    /// What extracting from `secret` with `salt` gives.
    Extracted { salt: Vec<u8>, secret: Vec<u8> },
    /// A pseudorandom key itself.
    Key(Vec<u8>),
}

impl Secret {
    /// Whether the secret is short enough to be hashed.
    pub open spec fn hashable(self) -> bool {
        match self {
            Secret::Extracted { salt, secret } => hashable(salt@.len()) && hashable(secret@.len()),
            Secret::Key(key) => hashable(key@.len()),
        }
    }

    /// The `len` bytes that the secret gives for the context `info`.
    pub open spec fn expanded(self, info: Seq<u8>, len: nat) -> Seq<u8> {
        match self {
            Secret::Extracted { salt, secret } => hkdf_sha256(salt@, secret@, info, len),
            Secret::Key(key) => hkdf_expand_sha256(key@, info, len),
        }
    }
}

/// The ASCII bytes of `tls13 `.
pub open spec fn label_prefix() -> Seq<u8> {
    seq![116, 108, 115, 49, 51, 32]
}

/// The context that TLS 1.3 derives key material for: the length, the label
/// behind its own length, and an empty hash.
pub open spec fn label_info(label: Seq<u8>, len: nat) -> Seq<u8> {
    bytes::to_be(len, 2) + seq![(6 + label.len()) as u8] + label_prefix() + label + seq![0u8]
}

/// What deriving `len` bytes under `label` gives.
pub open spec fn expanded_label(secret: Secret, label: Seq<u8>, len: nat) -> Result<
    Seq<u8>,
    QuicError,
> {
    if 6 + label.len() > 255 {
        Err(QuicError::LabelTooLong)
    } else if len > 0xffff {
        Err(QuicError::OutputTooLong)
    } else if len > MAX_EXPANDED {
        Err(QuicError::ExpandFailed)
    } else {
        Ok(secret.expanded(label_info(label, len), len))
    }
}

/// Derives `len` bytes of key material from a secret under a TLS 1.3 label.
pub fn hkdf_expand_label(secret: &Secret, label: &[u8], len: usize) -> (r: Result<
    Vec<u8>,
    QuicError,
>)
    requires
        secret.hashable(),
    ensures
        match r {
            Ok(out) => expanded_label(*secret, label@, len as nat) == Ok::<Seq<u8>, QuicError>(
                out@,
            ) && out@.len() == len,
            Err(e) => expanded_label(*secret, label@, len as nat) == Err::<Seq<u8>, QuicError>(e),
        },
{
    if label.len() > 249 {
        return Err(QuicError::LabelTooLong);
    }
    if len > 0xffff {
        return Err(QuicError::OutputTooLong);
    }
    let mut info: Vec<u8> = vec![
        (len / 256) as u8,
        (len % 256) as u8,
        (6 + label.len()) as u8,
        116,
        108,
        115,
        49,
        51,
        32,
    ];
    info.extend_from_slice(label);
    info.push(0);
    proof {
        reveal_with_fuel(bytes::to_be, 3);
        assert(info@ =~= label_info(label@, len as nat));
    }
    let expanded = match secret {
        Secret::Extracted { salt, secret } => extract_and_expand(
            salt.as_slice(),
            secret.as_slice(),
            info.as_slice(),
            len,
        ),
        Secret::Key(key) => expand(key.as_slice(), info.as_slice(), len),
    };
    match expanded {
        Ok(out) => Ok(out),
        Err(_) => Err(QuicError::ExpandFailed),
    }
}

/// The salt that QUIC version 1 derives its Initial keys with.
pub open spec fn initial_salt() -> Seq<u8> {
    seq![
        0x38,
        0x76,
        0x2c,
        0xf7,
        0xf5,
        0x59,
        0x34,
        0xb3,
        0x4d,
        0x17,
        0x9a,
        0xe6,
        0xa4,
        0xc8,
        0x0c,
        0xad,
        0xcc,
        0xbb,
        0x7f,
        0x0a,
    ]
}

/// The ASCII bytes of `client in`.
pub open spec fn client_in_label() -> Seq<u8> {
    seq![99, 108, 105, 101, 110, 116, 32, 105, 110]
}

/// The ASCII bytes of `quic key`.
pub open spec fn quic_key_label() -> Seq<u8> {
    seq![113, 117, 105, 99, 32, 107, 101, 121]
}

/// The ASCII bytes of `quic iv`.
pub open spec fn quic_iv_label() -> Seq<u8> {
    seq![113, 117, 105, 99, 32, 105, 118]
}

/// The ASCII bytes of `quic hp`.
pub open spec fn quic_hp_label() -> Seq<u8> {
    seq![113, 117, 105, 99, 32, 104, 112]
}

/// The keys of a client's Initial packets.
pub struct InitialKeyBytes {
    /// The packet protection key, 16 bytes.
    pub key: Vec<u8>,
    /// The initialisation vector, 12 bytes.
    pub iv: Vec<u8>,
    /// The header protection key, 16 bytes.
    pub hp: Vec<u8>,
}

impl InitialKeyBytes {
    /// Whether the keys have the lengths that their uses ask for.
    pub open spec fn wf(self) -> bool {
        self.key@.len() == 16 && self.iv@.len() == 12 && self.hp@.len() == 16
    }
}

/// The client's secret for the connection ID that it first picked.
pub open spec fn client_secret(dcid: Seq<u8>) -> Seq<u8> {
    hkdf_sha256(initial_salt(), dcid, label_info(client_in_label(), 32), 32)
}

/// The `len` bytes that the client's secret gives under a label.
pub open spec fn client_key(dcid: Seq<u8>, label: Seq<u8>, len: nat) -> Seq<u8> {
    hkdf_expand_sha256(client_secret(dcid), label_info(label, len), len)
}

/// The packet protection key for a connection ID.
pub open spec fn initial_key(dcid: Seq<u8>) -> Seq<u8> {
    client_key(dcid, quic_key_label(), 16)
}

/// The initialisation vector for a connection ID.
pub open spec fn initial_iv(dcid: Seq<u8>) -> Seq<u8> {
    client_key(dcid, quic_iv_label(), 12)
}

/// The header protection key for a connection ID.
pub open spec fn initial_hp(dcid: Seq<u8>) -> Seq<u8> {
    client_key(dcid, quic_hp_label(), 16)
}

/// Derives the keys of a client's Initial packets from the connection ID that
/// the client first picked.
pub fn initial_key_bytes(dcid: &[u8]) -> (r: Result<InitialKeyBytes, QuicError>)
    requires
        hashable(dcid@.len()),
    ensures
        r matches Ok(keys) && keys.wf() && keys.key@ == initial_key(dcid@) && keys.iv@
            == initial_iv(dcid@) && keys.hp@ == initial_hp(dcid@),
{
    let salt: Vec<u8> = vec![
        0x38,
        0x76,
        0x2c,
        0xf7,
        0xf5,
        0x59,
        0x34,
        0xb3,
        0x4d,
        0x17,
        0x9a,
        0xe6,
        0xa4,
        0xc8,
        0x0c,
        0xad,
        0xcc,
        0xbb,
        0x7f,
        0x0a,
    ];
    let client_in: Vec<u8> = vec![99, 108, 105, 101, 110, 116, 32, 105, 110];
    let quic_key: Vec<u8> = vec![113, 117, 105, 99, 32, 107, 101, 121];
    let quic_iv: Vec<u8> = vec![113, 117, 105, 99, 32, 105, 118];
    let quic_hp: Vec<u8> = vec![113, 117, 105, 99, 32, 104, 112];
    assert(salt@ =~= initial_salt());
    assert(client_in@ =~= client_in_label());
    assert(quic_key@ =~= quic_key_label());
    assert(quic_iv@ =~= quic_iv_label());
    assert(quic_hp@ =~= quic_hp_label());
    let initial_secret = Secret::Extracted { salt, secret: slice_to_vec(dcid) };
    let client_secret = match hkdf_expand_label(&initial_secret, client_in.as_slice(), 32) {
        Ok(secret) => Secret::Key(secret),
        Err(e) => return Err(e),
    };
    let key = match hkdf_expand_label(&client_secret, quic_key.as_slice(), 16) {
        Ok(key) => key,
        Err(e) => return Err(e),
    };
    let iv = match hkdf_expand_label(&client_secret, quic_iv.as_slice(), 12) {
        Ok(iv) => iv,
        Err(e) => return Err(e),
    };
    let hp = match hkdf_expand_label(&client_secret, quic_hp.as_slice(), 16) {
        Ok(hp) => hp,
        Err(e) => return Err(e),
    };
    Ok(InitialKeyBytes { key, iv, hp })
}

/// Whatever secret key material is derived from, the context that it is derived
/// for is, byte by byte: the length in two bytes, the length of what follows up
/// to the last byte, `tls13 `, the label, and a zero. Longer labels than 249
/// bytes, and more bytes than HKDF can give, are refused.
pub proof fn lemma_context_of_label(secret: Secret, label: Seq<u8>, len: nat)
    ensures
        ({
            let info = seq![
                (len / 256) as u8,
                (len % 256) as u8,
                (6 + label.len()) as u8,
                116,
                108,
                115,
                49,
                51,
                32,
            ] + label + seq![0u8];
            expanded_label(secret, label, len) == (if label.len() > 249 {
                Err(QuicError::LabelTooLong)
            } else if len > 65535 {
                Err(QuicError::OutputTooLong)
            } else if len > 8160 {
                Err(QuicError::ExpandFailed)
            } else {
                Ok::<Seq<u8>, QuicError>(
                    match secret {
                        Secret::Extracted { salt, secret } => hkdf_sha256(
                            salt@,
                            secret@,
                            info,
                            len,
                        ),
                        Secret::Key(key) => hkdf_expand_sha256(key@, info, len),
                    },
                )
            })
        }),
{
    reveal_with_fuel(bytes::to_be, 3);
    assert(label_info(label, len) =~= bytes::to_be(len, 2) + seq![
        (6 + label.len()) as u8,
        116,
        108,
        115,
        49,
        51,
        32,
    ] + label + seq![0u8]);
    if len <= 65535 {
        assert(bytes::to_be(len, 2) =~= seq![(len / 256) as u8, (len % 256) as u8]);
        assert(label_info(label, len) =~= seq![
            (len / 256) as u8,
            (len % 256) as u8,
            (6 + label.len()) as u8,
            116,
            108,
            115,
            49,
            51,
            32,
        ] + label + seq![0u8]);
    }
}

/// The keys for a connection ID of any length come from the whole of it. With
/// the salt of version 1, HKDF extracts from the connection ID and expands under
/// `tls13 client in` to the client's secret; from that, it expands under
/// `tls13 quic key`, `tls13 quic iv` and `tls13 quic hp` to 16, 12 and 16 bytes.
pub proof fn lemma_keys_come_from_whole_cid(dcid: Seq<u8>)
    ensures
        ({
            let salt = seq![
                0x38u8,
                0x76,
                0x2c,
                0xf7,
                0xf5,
                0x59,
                0x34,
                0xb3,
                0x4d,
                0x17,
                0x9a,
                0xe6,
                0xa4,
                0xc8,
                0x0c,
                0xad,
                0xcc,
                0xbb,
                0x7f,
                0x0a,
            ];
            let client_in = seq![
                0u8, 32, 15, 116, 108, 115, 49, 51, 32, 99, 108, 105, 101, 110, 116, 32, 105, 110,
                0,
            ];
            let key = seq![
                0u8, 16, 14, 116, 108, 115, 49, 51, 32, 113, 117, 105, 99, 32, 107, 101, 121, 0,
            ];
            let iv = seq![
                0u8, 12, 13, 116, 108, 115, 49, 51, 32, 113, 117, 105, 99, 32, 105, 118, 0,
            ];
            let hp = seq![
                0u8, 16, 13, 116, 108, 115, 49, 51, 32, 113, 117, 105, 99, 32, 104, 112, 0,
            ];
            let secret = hkdf_sha256(salt, dcid, client_in, 32);
            &&& initial_key(dcid) == hkdf_expand_sha256(secret, key, 16)
            &&& initial_iv(dcid) == hkdf_expand_sha256(secret, iv, 12)
            &&& initial_hp(dcid) == hkdf_expand_sha256(secret, hp, 16)
        }),
{
    reveal_with_fuel(bytes::to_be, 3);
    assert(bytes::to_be(32, 2) =~= seq![0u8, 32]);
    assert(bytes::to_be(16, 2) =~= seq![0u8, 16]);
    assert(bytes::to_be(12, 2) =~= seq![0u8, 12]);
    assert(label_info(client_in_label(), 32) =~= seq![
        0u8, 32, 15, 116, 108, 115, 49, 51, 32, 99, 108, 105, 101, 110, 116, 32, 105, 110, 0,
    ]);
    assert(label_info(quic_key_label(), 16) =~= seq![
        0u8, 16, 14, 116, 108, 115, 49, 51, 32, 113, 117, 105, 99, 32, 107, 101, 121, 0,
    ]);
    assert(label_info(quic_iv_label(), 12) =~= seq![
        0u8, 12, 13, 116, 108, 115, 49, 51, 32, 113, 117, 105, 99, 32, 105, 118, 0,
    ]);
    assert(label_info(quic_hp_label(), 16) =~= seq![
        0u8, 16, 13, 116, 108, 115, 49, 51, 32, 113, 117, 105, 99, 32, 104, 112, 0,
    ]);
}

/// The keys that are derived for a connection ID of any length are those that
/// [`lemma_keys_come_from_whole_cid`] describes.
pub proof fn lemma_derived_keys_come_from_whole_cid(
    dcid: &[u8],
    derived: Result<InitialKeyBytes, QuicError>,
)
    requires
        call_ensures(initial_key_bytes, (dcid,), derived),
    ensures
        derived matches Ok(keys) && {
            let salt = seq![
                0x38u8,
                0x76,
                0x2c,
                0xf7,
                0xf5,
                0x59,
                0x34,
                0xb3,
                0x4d,
                0x17,
                0x9a,
                0xe6,
                0xa4,
                0xc8,
                0x0c,
                0xad,
                0xcc,
                0xbb,
                0x7f,
                0x0a,
            ];
            let client_in = seq![
                0u8, 32, 15, 116, 108, 115, 49, 51, 32, 99, 108, 105, 101, 110, 116, 32, 105, 110,
                0,
            ];
            let secret = hkdf_sha256(salt, dcid@, client_in, 32);
            &&& keys.key@ == hkdf_expand_sha256(
                secret,
                seq![
                    0u8, 16, 14, 116, 108, 115, 49, 51, 32, 113, 117, 105, 99, 32, 107, 101, 121, 0,
                ],
                16,
            )
            &&& keys.iv@ == hkdf_expand_sha256(
                secret,
                seq![0u8, 12, 13, 116, 108, 115, 49, 51, 32, 113, 117, 105, 99, 32, 105, 118, 0],
                12,
            )
            &&& keys.hp@ == hkdf_expand_sha256(
                secret,
                seq![0u8, 16, 13, 116, 108, 115, 49, 51, 32, 113, 117, 105, 99, 32, 104, 112, 0],
                16,
            )
        },
{
    lemma_keys_come_from_whole_cid(dcid@);
}

} // verus!
