//! Opening Initial packets.

use vstd::prelude::*;
use vstd::slice::{slice_subrange, slice_to_vec};

use crate::bytes;
use crate::quic::error::QuicError;
use crate::quic::keys;
use crate::quic::keys::initial_key_bytes;
use crate::quic::packet;
use crate::quic::packet::parse_initial_header;
use crate::quic::varint;

verus! {

/// How many bytes of a packet are sampled for header protection.
pub const SAMPLE_LEN: usize = 16;

/// The mask that AES-128 header protection makes from a key and a sample.
pub uninterp spec fn aes128_mask(hp: Seq<u8>, sample: Seq<u8>) -> Option<Seq<u8>>;

/// What opening `sealed` with AES-128-GCM gives; `None` where the key cannot be
/// used or the tag does not fit.
pub uninterp spec fn aes128_gcm_opened(
    key: Seq<u8>,
    nonce: Seq<u8>,
    aad: Seq<u8>,
    sealed: Seq<u8>,
) -> Option<Seq<u8>>;

/// The contents of an optional byte vector.
pub open spec fn contents(r: Option<Vec<u8>>) -> Option<Seq<u8>> {
    match r {
        None => None,
        Some(v) => Some(v@),
    }
}

/// Makes a key with `ring::aead::quic::HeaderProtectionKey::new` for AES-128
/// and a mask with its `new_mask`.
///
/// Believed: there is a mask exactly for a key of 16 bytes and a sample of 16
/// bytes. It depends on the two alone and has five bytes.
#[verifier::external_body]
fn header_mask(hp: &[u8], sample: &[u8]) -> (r: Option<Vec<u8>>)
    ensures
        contents(r) == aes128_mask(hp@, sample@),
        r is Some <==> (hp@.len() == 16 && sample@.len() == SAMPLE_LEN),
        r matches Some(mask) ==> mask@.len() == 5,
{
    let key = ring::aead::quic::HeaderProtectionKey::new(&ring::aead::quic::AES_128, hp).ok()?;
    let mask = key.new_mask(sample).ok()?;
    Some(mask.to_vec())
}

/// Makes a key with `ring::aead::UnboundKey::new` for AES-128-GCM and opens
/// with `ring::aead::LessSafeKey::open_in_place`.
///
/// Believed: the outcome depends on the key, the nonce, the associated data and
/// the sealed bytes alone. Nothing is opened with a key of other than 16 bytes
/// or a nonce of other than 12, and the opened bytes are 16 fewer than the
/// sealed ones. What opening gives is not stated further.
#[verifier::external_body]
fn open_sealed(key: &[u8], nonce: &[u8], aad: &[u8], sealed: &[u8]) -> (r: Option<Vec<u8>>)
    ensures
        contents(r) == aes128_gcm_opened(key@, nonce@, aad@, sealed@),
        r matches Some(opened) ==> key@.len() == 16 && nonce@.len() == 12 && opened@.len() + 16
            == sealed@.len(),
{
    let key = ring::aead::UnboundKey::new(&ring::aead::AES_128_GCM, key).ok()?;
    let nonce = ring::aead::Nonce::try_assume_unique_for_key(nonce).ok()?;
    let mut in_out = sealed.to_vec();
    let opened = ring::aead::LessSafeKey::new(key)
        .open_in_place(nonce, ring::aead::Aad::from(aad), &mut in_out)
        .ok()?;
    Some(opened.to_vec())
}

/// The nonce for a packet number: the number's eight bytes over the end of the
/// initialisation vector.
pub open spec fn nonce_for(iv: Seq<u8>, packet_number: nat) -> Seq<u8> {
    Seq::new(
        12,
        |i: int|
            if i < 4 {
                iv[i]
            } else {
                iv[i] ^ bytes::to_be(packet_number, 8)[i - 4]
            },
    )
}

/// Makes the nonce for a packet number.
pub fn packet_nonce(iv: &[u8], packet_number: u64) -> (nonce: Vec<u8>)
    requires
        iv@.len() == 12,
    ensures
        nonce@ == nonce_for(iv@, packet_number as nat),
{
    let mut nonce: Vec<u8> = slice_to_vec(iv);
    let mut rest: u64 = packet_number;
    let mut i: usize = 12;
    let ghost number = bytes::to_be(packet_number as nat, 8);
    while i > 4
        invariant
            4 <= i <= 12,
            iv@.len() == 12,
            nonce@.len() == 12,
            number == bytes::to_be(packet_number as nat, 8),
            forall|j: int| 0 <= j < i ==> nonce@[j] == iv@[j],
            forall|j: int| i <= j < 12 ==> #[trigger] nonce@[j] == iv@[j] ^ number[j - 4],
            forall|k: int|
                0 <= k < i - 4 ==> #[trigger] number[k] == bytes::to_be(
                    rest as nat,
                    (i - 4) as nat,
                )[k],
        decreases i,
    {
        proof {
            bytes::lemma_to_be_len(rest as nat / 256, (i - 5) as nat);
        }
        let byte: u8 = (rest % 256) as u8;
        assert(number[i - 5] == byte);
        nonce.set(i - 1, iv[i - 1] ^ byte);
        rest = rest / 256;
        i = i - 1;
    }
    assert(nonce@ =~= nonce_for(iv@, packet_number as nat));
    nonce
}

/// A packet without its header protection.
pub struct Unprotected {
    pub packet_number: u64,
    /// The header, which the payload was sealed with.
    pub associated_data: Vec<u8>,
    /// The payload, still sealed.
    pub sealed: Vec<u8>,
}

/// The contents of an [`Unprotected`].
pub struct PlainHeader {
    pub packet_number: nat,
    pub associated_data: Seq<u8>,
    pub sealed: Seq<u8>,
}

impl View for Unprotected {
    type V = PlainHeader;

    open spec fn view(&self) -> PlainHeader {
        PlainHeader {
            packet_number: self.packet_number as nat,
            associated_data: self.associated_data@,
            sealed: self.sealed@,
        }
    }
}

/// A first byte with the header protection taken off, or put on.
pub open spec fn flip_first(first: u8, mask: Seq<u8>) -> u8 {
    first ^ (mask[0] & 0x0f)
}

/// Packet number bytes with the header protection taken off, or put on.
pub open spec fn flip_number(number: Seq<u8>, mask: Seq<u8>) -> Seq<u8> {
    Seq::new(number.len(), |i: int| number[i] ^ mask[i + 1])
}

/// How many bytes the packet number takes under a plain first byte.
pub open spec fn number_len(first: u8) -> int {
    first % 4 + 1
}

/// The packet whose number is at `offset` and which ends at `end`, without its
/// header protection.
pub open spec fn unprotected(packet: Seq<u8>, offset: int, end: int, mask: Seq<u8>) -> Result<
    PlainHeader,
    QuicError,
> {
    let first = flip_first(packet[0], mask);
    let number_end = offset + number_len(first);
    if number_end > end {
        Err(QuicError::TruncatedPacketNumber)
    } else {
        let number = flip_number(packet.subrange(offset, number_end), mask);
        Ok(
            PlainHeader {
                packet_number: bytes::be_nat(number),
                associated_data: packet.take(offset).update(0, first) + number,
                sealed: packet.subrange(number_end, end),
            },
        )
    }
}

/// Takes the header protection off a packet, given its mask.
pub fn remove_header_protection(
    packet: &[u8],
    offset: usize,
    end: usize,
    mask: &[u8],
) -> (r: Result<Unprotected, QuicError>)
    requires
        0 < offset <= end <= packet@.len(),
        mask@.len() == 5,
    ensures
        match r {
            Ok(u) => unprotected(packet@, offset as int, end as int, mask@) == Ok::<
                PlainHeader,
                QuicError,
            >(u@),
            Err(e) => unprotected(packet@, offset as int, end as int, mask@) == Err::<
                PlainHeader,
                QuicError,
            >(e),
        },
{
    let first: u8 = packet[0] ^ (mask[0] & 0x0f);
    let number_len: usize = (first % 4) as usize + 1;
    if end - offset < number_len {
        return Err(QuicError::TruncatedPacketNumber);
    }
    let number_end: usize = offset + number_len;
    let mut associated_data: Vec<u8> = slice_to_vec(slice_subrange(packet, 0, offset));
    associated_data.set(0, first);
    let ghost head = associated_data@;
    let ghost number = flip_number(packet@.subrange(offset as int, number_end as int), mask@);
    let mut packet_number: u64 = 0;
    let mut i: usize = 0;
    assert(number.take(0) =~= Seq::<u8>::empty());
    assert(head + number.take(0) =~= head);
    reveal_with_fuel(bytes::pow256, 5);
    while i < number_len
        invariant
            i <= number_len <= 4,
            offset + number_len == number_end <= packet.len(),
            mask@.len() == 5,
            number == flip_number(packet@.subrange(offset as int, number_end as int), mask@),
            associated_data@ == head + number.take(i as int),
            packet_number == bytes::be_nat(number.take(i as int)),
            packet_number < bytes::pow256(i as nat),
        decreases number_len - i,
    {
        let byte: u8 = packet[offset + i] ^ mask[i + 1];
        proof {
            reveal_with_fuel(bytes::pow256, 5);
            assert(number[i as int] == byte);
            assert(number.take(i + 1).drop_last() =~= number.take(i as int));
            assert(number.take(i + 1) =~= number.take(i as int).push(byte));
        }
        packet_number = packet_number * 256 + byte as u64;
        associated_data.push(byte);
        i = i + 1;
    }
    assert(number.take(number_len as int) =~= number);
    assert(head =~= packet@.take(offset as int).update(0, first));
    let sealed = slice_to_vec(slice_subrange(packet, number_end, end));
    Ok(Unprotected { packet_number, associated_data, sealed })
}

/// An opened Initial packet.
#[derive(Debug)]
pub struct DecryptedInitial {
    pub dcid: Vec<u8>,
    pub scid: Vec<u8>,
    pub payload: Vec<u8>,
}

/// The contents of a [`DecryptedInitial`].
pub struct OpenedInitial {
    pub dcid: Seq<u8>,
    pub scid: Seq<u8>,
    pub payload: Seq<u8>,
}

impl View for DecryptedInitial {
    type V = OpenedInitial;

    open spec fn view(&self) -> OpenedInitial {
        OpenedInitial { dcid: self.dcid@, scid: self.scid@, payload: self.payload@ }
    }
}

/// The Initial packet at the start of a datagram, opened with the keys that its
/// destination connection ID gives.
pub open spec fn decrypted(packet: Seq<u8>) -> Result<OpenedInitial, QuicError> {
    match packet::initial_header(packet) {
        Err(e) => Err(e),
        Ok(header) => {
            let dcid = header.cids.dcid;
            let offset = header.packet_number_offset;
            let end = header.packet_end;
            if end < offset + 4 + SAMPLE_LEN {
                Err(QuicError::NoSample)
            } else {
                match aes128_mask(
                    keys::initial_hp(dcid),
                    packet.subrange(offset + 4, offset + 4 + SAMPLE_LEN),
                ) {
                    None => Err(QuicError::MaskFailed),
                    Some(mask) => match unprotected(packet, offset, end, mask) {
                        Err(e) => Err(e),
                        Ok(plain) => match aes128_gcm_opened(
                            keys::initial_key(dcid),
                            nonce_for(keys::initial_iv(dcid), plain.packet_number),
                            plain.associated_data,
                            plain.sealed,
                        ) {
                            None => Err(QuicError::DecryptFailed),
                            Some(payload) => Ok(
                                OpenedInitial { dcid, scid: header.cids.scid, payload },
                            ),
                        },
                    },
                }
            }
        },
    }
}

/// Opens the Initial packet at the start of a datagram. Making a mask never
/// fails, as key and sample have the right lengths.
pub fn decrypt_initial_packet(packet: &[u8]) -> (r: Result<DecryptedInitial, QuicError>)
    ensures
        match r {
            Ok(opened) => decrypted(packet@) == Ok::<OpenedInitial, QuicError>(opened@),
            Err(e) => decrypted(packet@) == Err::<OpenedInitial, QuicError>(e) && e
                != QuicError::MaskFailed,
        },
{
    let header = match parse_initial_header(packet) {
        Ok(header) => header,
        Err(e) => return Err(e),
    };
    let keys = match initial_key_bytes(header.cids.dcid.as_slice()) {
        Ok(keys) => keys,
        Err(e) => return Err(e),
    };
    let offset: usize = header.packet_number_offset;
    let end: usize = header.packet_end;
    if end - offset < 4 + SAMPLE_LEN {
        return Err(QuicError::NoSample);
    }
    let sample = slice_subrange(packet, offset + 4, offset + 4 + SAMPLE_LEN);
    let mask = match header_mask(keys.hp.as_slice(), sample) {
        Some(mask) => mask,
        None => return Err(QuicError::MaskFailed),
    };
    let plain = match remove_header_protection(packet, offset, end, mask.as_slice()) {
        Ok(plain) => plain,
        Err(e) => return Err(e),
    };
    let nonce = packet_nonce(keys.iv.as_slice(), plain.packet_number);
    match open_sealed(
        keys.key.as_slice(),
        nonce.as_slice(),
        plain.associated_data.as_slice(),
        plain.sealed.as_slice(),
    ) {
        Some(payload) => Ok(
            DecryptedInitial { dcid: header.cids.dcid, scid: header.cids.scid, payload },
        ),
        None => Err(QuicError::DecryptFailed),
    }
}

/// A header with its protection put on: `header` ends with its packet number.
pub open spec fn protected_header(header: Seq<u8>, mask: Seq<u8>) -> Seq<u8> {
    let offset = header.len() - number_len(header[0]);
    header.take(offset).update(0, flip_first(header[0], mask)) + flip_number(
        header.skip(offset),
        mask,
    )
}

proof fn lemma_flip_twice(a: u8, b: u8)
    ensures
        (a ^ b) ^ b == a,
{
    assert((a ^ b) ^ b == a) by (bit_vector);
}

/// Taking off the header protection undoes putting it on: the packet number,
/// the header and the sealed payload come back.
pub proof fn lemma_header_protection_undone(
    header: Seq<u8>,
    sealed: Seq<u8>,
    rest: Seq<u8>,
    mask: Seq<u8>,
)
    requires
        header.len() > number_len(header[0]),
    ensures
        unprotected(
            protected_header(header, mask) + sealed + rest,
            header.len() - number_len(header[0]),
            (header.len() + sealed.len()) as int,
            mask,
        ) == Ok::<PlainHeader, QuicError>(
            PlainHeader {
                packet_number: bytes::be_nat(header.skip(header.len() - number_len(header[0]))),
                associated_data: header,
                sealed,
            },
        ),
{
    let offset = header.len() - number_len(header[0]);
    let packet = protected_header(header, mask) + sealed + rest;
    lemma_flip_twice(header[0], mask[0] & 0x0f);
    assert(packet[0] == flip_first(header[0], mask));
    assert(flip_first(packet[0], mask) == header[0]);
    let number_end = offset + number_len(header[0]);
    let number = flip_number(packet.subrange(offset, number_end), mask);
    assert forall|i: int| 0 <= i < number.len() implies number[i] == header[offset + i] by {
        lemma_flip_twice(header[offset + i], mask[i + 1]);
    }
    assert(number =~= header.skip(offset));
    assert(packet.take(offset).update(0, header[0]) + number =~= header);
    assert(packet.subrange(number_end, number_end + sealed.len()) =~= sealed);
}

proof fn lemma_flip_keeps_type(first: u8, mask: u8)
    ensures
        (first ^ (mask & 0x0f)) / 16 == first / 16,
{
    assert((first ^ (mask & 0x0f)) / 16 == first / 16) by (bit_vector);
}

/// Putting the protection on a header changes its first byte and its packet
/// number.
proof fn lemma_protected_parts(head: Seq<u8>, number: Seq<u8>, mask: Seq<u8>)
    requires
        head.len() > 0,
        number.len() == number_len(head[0]),
    ensures
        protected_header(head + number, mask) == head.update(0, flip_first(head[0], mask))
            + flip_number(number, mask),
        (head + number)[0] == head[0],
        (head + number).skip(head.len() as int) == number,
{
    assert((head + number).take(head.len() as int) =~= head);
    assert((head + number).skip(head.len() as int) =~= number);
}

/// The header of an Initial packet starts with its first byte, and is otherwise
/// the same whatever that byte is.
proof fn lemma_another_first_byte(
    first: u8,
    other: u8,
    dcid: Seq<u8>,
    scid: Seq<u8>,
    token: Seq<u8>,
    token_size: nat,
    len: nat,
    len_size: nat,
)
    ensures
        ({
            let head = packet::encode_initial_header(
                first,
                dcid,
                scid,
                token,
                token_size,
                len,
                len_size,
            );
            &&& head.len() > 0
            &&& head[0] == first
            &&& head.update(0, other) == packet::encode_initial_header(
                other,
                dcid,
                scid,
                token,
                token_size,
                len,
                len_size,
            )
        }),
{
    reveal(packet::encode_initial_header);
    let head = packet::encode_initial_header(first, dcid, scid, token, token_size, len, len_size);
    assert(head.update(0, other) =~= packet::encode_initial_header(
        other,
        dcid,
        scid,
        token,
        token_size,
        len,
        len_size,
    ));
}

proof fn lemma_joined(a: Seq<u8>, b: Seq<u8>, c: Seq<u8>, d: Seq<u8>)
    ensures
        a + b + c + d == a + (b + c) + d,
{
    assert(a + b + c + d =~= a + (b + c) + d);
}

/// Where the parts of a protected Initial packet are is read from its header,
/// which the protection leaves readable.
proof fn lemma_protected_packet_is_read(
    first: u8,
    dcid: Seq<u8>,
    scid: Seq<u8>,
    token: Seq<u8>,
    token_size: nat,
    len_size: nat,
    number: Seq<u8>,
    sealed: Seq<u8>,
    rest: Seq<u8>,
    mask: Seq<u8>,
)
    requires
        first >= 0x80,
        first / 16 % 4 == packet::QUIC_PACKET_TYPE_INITIAL,
        dcid.len() <= 255,
        scid.len() <= 255,
        number.len() == number_len(first),
        varint::fits_varint(token.len(), token_size),
        varint::fits_varint(number.len() + sealed.len(), len_size),
        ({
            let head = packet::encode_initial_header(
                first,
                dcid,
                scid,
                token,
                token_size,
                number.len() + sealed.len(),
                len_size,
            );
            (protected_header(head + number, mask) + sealed + rest).len() <= usize::MAX
        }),
    ensures
        ({
            let head = packet::encode_initial_header(
                first,
                dcid,
                scid,
                token,
                token_size,
                number.len() + sealed.len(),
                len_size,
            );
            packet::initial_header(protected_header(head + number, mask) + sealed + rest) == Ok::<
                packet::InitialLayout,
                QuicError,
            >(
                packet::InitialLayout {
                    cids: packet::LongHeader {
                        version: packet::QUIC_VERSION_1,
                        packet_type: packet::QUIC_PACKET_TYPE_INITIAL,
                        dcid,
                        scid,
                    },
                    packet_number_offset: head.len() as int,
                    packet_end: (head.len() + number.len() + sealed.len()) as int,
                },
            )
        }),
{
    let len = number.len() + sealed.len();
    let head = packet::encode_initial_header(first, dcid, scid, token, token_size, len, len_size);
    let flipped = flip_first(first, mask);
    let flipped_number = flip_number(number, mask);
    lemma_flip_keeps_type(first, mask[0]);
    lemma_another_first_byte(first, flipped, dcid, scid, token, token_size, len, len_size);
    lemma_protected_parts(head, number, mask);
    lemma_joined(head.update(0, flipped), flipped_number, sealed, rest);
    packet::lemma_initial_header_round_trip(
        flipped,
        dcid,
        scid,
        token,
        token_size,
        flipped_number + sealed,
        len_size,
        rest,
    );
}

/// A packet whose header is read right is opened.
proof fn lemma_opened(
    header: Seq<u8>,
    sealed: Seq<u8>,
    rest: Seq<u8>,
    mask: Seq<u8>,
    layout: packet::InitialLayout,
    payload: Seq<u8>,
)
    requires
        header.len() > number_len(header[0]),
        layout.packet_number_offset == header.len() - number_len(header[0]),
        layout.packet_end == header.len() + sealed.len(),
        layout.packet_end >= layout.packet_number_offset + 4 + SAMPLE_LEN,
        ({
            let packet = protected_header(header, mask) + sealed + rest;
            let offset = layout.packet_number_offset;
            let dcid = layout.cids.dcid;
            &&& packet::initial_header(packet) == Ok::<packet::InitialLayout, QuicError>(layout)
            &&& aes128_mask(
                keys::initial_hp(dcid),
                packet.subrange(offset + 4, offset + 4 + SAMPLE_LEN),
            ) == Some(mask)
            &&& aes128_gcm_opened(
                keys::initial_key(dcid),
                nonce_for(keys::initial_iv(dcid), bytes::be_nat(header.skip(offset))),
                header,
                sealed,
            ) == Some(payload)
        }),
    ensures
        decrypted(protected_header(header, mask) + sealed + rest) == Ok::<
            OpenedInitial,
            QuicError,
        >(OpenedInitial { dcid: layout.cids.dcid, scid: layout.cids.scid, payload }),
{
    lemma_header_protection_undone(header, sealed, rest, mask);
}

/// An Initial packet that was sealed and protected with the keys of its
/// destination connection ID is opened: its connection IDs and its payload come
/// back, whatever follows the packet in its datagram.
pub proof fn lemma_protected_packet_is_opened(
    first: u8,
    dcid: Seq<u8>,
    scid: Seq<u8>,
    token: Seq<u8>,
    token_size: nat,
    len_size: nat,
    number: Seq<u8>,
    sealed: Seq<u8>,
    rest: Seq<u8>,
    mask: Seq<u8>,
    payload: Seq<u8>,
)
    requires
        first >= 0x80,
        first / 16 % 4 == packet::QUIC_PACKET_TYPE_INITIAL,
        dcid.len() <= 255,
        scid.len() <= 255,
        number.len() == number_len(first),
        number.len() + sealed.len() >= 4 + SAMPLE_LEN,
        varint::fits_varint(token.len(), token_size),
        varint::fits_varint(number.len() + sealed.len(), len_size),
        ({
            let len = number.len() + sealed.len();
            let head = packet::encode_initial_header(
                first,
                dcid,
                scid,
                token,
                token_size,
                len,
                len_size,
            );
            let packet = protected_header(head + number, mask) + sealed + rest;
            &&& packet.len() <= usize::MAX
            &&& aes128_mask(
                keys::initial_hp(dcid),
                packet.subrange(head.len() + 4int, head.len() + 4int + SAMPLE_LEN),
            ) == Some(mask)
            &&& aes128_gcm_opened(
                keys::initial_key(dcid),
                nonce_for(keys::initial_iv(dcid), bytes::be_nat(number)),
                head + number,
                sealed,
            ) == Some(payload)
        }),
    ensures
        decrypted(
            protected_header(
                packet::encode_initial_header(
                    first,
                    dcid,
                    scid,
                    token,
                    token_size,
                    number.len() + sealed.len(),
                    len_size,
                ) + number,
                mask,
            ) + sealed + rest,
        ) == Ok::<OpenedInitial, QuicError>(OpenedInitial { dcid, scid, payload }),
{
    let len = number.len() + sealed.len();
    let head = packet::encode_initial_header(first, dcid, scid, token, token_size, len, len_size);
    let layout = packet::InitialLayout {
        cids: packet::LongHeader {
            version: packet::QUIC_VERSION_1,
            packet_type: packet::QUIC_PACKET_TYPE_INITIAL,
            dcid,
            scid,
        },
        packet_number_offset: head.len() as int,
        packet_end: (head.len() + len) as int,
    };
    lemma_protected_packet_is_read(
        first,
        dcid,
        scid,
        token,
        token_size,
        len_size,
        number,
        sealed,
        rest,
        mask,
    );
    lemma_another_first_byte(first, first, dcid, scid, token, token_size, len, len_size);
    lemma_protected_parts(head, number, mask);
    lemma_opened(head + number, sealed, rest, mask, layout, payload);
}

/// Taking the header protection off is, byte by byte: the low four bits of the
/// first byte are flipped by those of the first byte of the mask, and the bytes
/// of the packet number by the others in order. The first byte then says, in its
/// low two bits, how many bytes the packet number has; the packet number is what
/// they stand for, most significant first, and what is sealed is the rest.
pub proof fn lemma_unprotected_by_its_bytes(
    packet: Seq<u8>,
    offset: int,
    end: int,
    mask: Seq<u8>,
)
    requires
        0 < offset <= end <= packet.len(),
        mask.len() == 5,
    ensures
        ({
            let first = packet[0] ^ (mask[0] & 0x0f);
            let n = first % 4 + 1;
            &&& unprotected(packet, offset, end, mask) is Err <==> offset + n > end
            &&& unprotected(packet, offset, end, mask) matches Ok(plain) ==> {
                let number = plain.associated_data.skip(offset);
                &&& plain.associated_data.len() == offset + n
                &&& plain.associated_data[0] == first
                &&& forall|i: int|
                    0 < i < offset ==> #[trigger] plain.associated_data[i] == packet[i]
                &&& forall|i: int|
                    0 <= i < n ==> #[trigger] number[i] == packet[offset + i] ^ mask[i + 1]
                &&& plain.packet_number == (if n == 1 {
                    number[0] as int
                } else if n == 2 {
                    number[0] * 0x100 + number[1]
                } else if n == 3 {
                    number[0] * 0x1_0000 + number[1] * 0x100 + number[2]
                } else {
                    number[0] * 0x100_0000 + number[1] * 0x1_0000 + number[2] * 0x100 + number[3]
                })
                &&& plain.sealed == packet.subrange(offset + n, end)
            }
        }),
{
    if let Ok(plain) = unprotected(packet, offset, end, mask) {
        let first = packet[0] ^ (mask[0] & 0x0f);
        let n = first % 4 + 1;
        let number = flip_number(packet.subrange(offset, offset + n), mask);
        assert(plain.associated_data.skip(offset) =~= number);
        reveal_with_fuel(bytes::be_nat, 5);
    }
}

/// The nonce for a packet number is the initialisation vector with its last
/// eight bytes flipped by the bytes of the packet number, most significant
/// first.
pub proof fn lemma_nonce_by_its_bytes(iv: Seq<u8>, n: nat)
    requires
        iv.len() == 12,
    ensures
        ({
            let nonce = nonce_for(iv, n);
            &&& nonce.len() == 12
            &&& forall|i: int| 0 <= i < 4 ==> #[trigger] nonce[i] == iv[i]
            &&& nonce[4] == iv[4] ^ ((n / 0x100_0000_0000_0000 % 256) as u8)
            &&& nonce[5] == iv[5] ^ ((n / 0x1_0000_0000_0000 % 256) as u8)
            &&& nonce[6] == iv[6] ^ ((n / 0x100_0000_0000 % 256) as u8)
            &&& nonce[7] == iv[7] ^ ((n / 0x1_0000_0000 % 256) as u8)
            &&& nonce[8] == iv[8] ^ ((n / 0x100_0000 % 256) as u8)
            &&& nonce[9] == iv[9] ^ ((n / 0x1_0000 % 256) as u8)
            &&& nonce[10] == iv[10] ^ ((n / 0x100 % 256) as u8)
            &&& nonce[11] == iv[11] ^ ((n % 256) as u8)
        }),
{
    reveal_with_fuel(bytes::to_be, 9);
    let number = bytes::to_be(n, 8);
    assert(n / 256 / 256 == n / 0x1_0000);
    assert(n / 0x1_0000 / 256 == n / 0x100_0000);
    assert(n / 0x100_0000 / 256 == n / 0x1_0000_0000);
    assert(n / 0x1_0000_0000 / 256 == n / 0x100_0000_0000);
    assert(n / 0x100_0000_0000 / 256 == n / 0x1_0000_0000_0000);
    assert(n / 0x1_0000_0000_0000 / 256 == n / 0x100_0000_0000_0000);
    assert(number =~= seq![
        (n / 0x100_0000_0000_0000 % 256) as u8,
        (n / 0x1_0000_0000_0000 % 256) as u8,
        (n / 0x100_0000_0000 % 256) as u8,
        (n / 0x1_0000_0000 % 256) as u8,
        (n / 0x100_0000 % 256) as u8,
        (n / 0x1_0000 % 256) as u8,
        (n / 0x100 % 256) as u8,
        (n % 256) as u8,
    ]);
}

/// What an opened packet holds was sealed, with the key, the nonce and the
/// header that belong to it, for the connection IDs that its header gives.
pub proof fn lemma_opened_packet_was_sealed(packet: Seq<u8>)
    ensures
        decrypted(packet) matches Ok(opened) ==> {
            &&& packet::initial_header(packet) matches Ok(layout) && {
                let offset = layout.packet_number_offset;
                &&& opened.dcid == layout.cids.dcid
                &&& opened.scid == layout.cids.scid
                &&& layout.packet_end >= offset + 20
                &&& aes128_mask(
                    keys::initial_hp(opened.dcid),
                    packet.subrange(offset + 4, offset + 20),
                ) matches Some(mask) && unprotected(
                    packet,
                    offset,
                    layout.packet_end,
                    mask,
                ) matches Ok(plain) && aes128_gcm_opened(
                    keys::initial_key(opened.dcid),
                    nonce_for(keys::initial_iv(opened.dcid), plain.packet_number),
                    plain.associated_data,
                    plain.sealed,
                ) == Some(opened.payload)
            }
        },
{
}

/// Why a packet is not opened: its header cannot be read, it is too short to be
/// sampled, its packet number reaches past its end, or what is sealed does not
/// open.
pub proof fn lemma_why_a_packet_is_not_opened(packet: Seq<u8>)
    ensures
        packet::initial_header(packet) matches Err(e) ==> decrypted(packet) == Err::<
            OpenedInitial,
            QuicError,
        >(e),
        packet::initial_header(packet) matches Ok(layout) ==> {
            let offset = layout.packet_number_offset;
            let end = layout.packet_end;
            let dcid = layout.cids.dcid;
            &&& end < offset + 20 ==> decrypted(packet) == Err::<OpenedInitial, QuicError>(
                QuicError::NoSample,
            )
            &&& end >= offset + 20 ==> (aes128_mask(
                keys::initial_hp(dcid),
                packet.subrange(offset + 4, offset + 20),
            ) matches Some(mask) ==> match unprotected(packet, offset, end, mask) {
                Err(e) => decrypted(packet) == Err::<OpenedInitial, QuicError>(e),
                Ok(plain) => match aes128_gcm_opened(
                    keys::initial_key(dcid),
                    nonce_for(keys::initial_iv(dcid), plain.packet_number),
                    plain.associated_data,
                    plain.sealed,
                ) {
                    None => decrypted(packet) == Err::<OpenedInitial, QuicError>(
                        QuicError::DecryptFailed,
                    ),
                    Some(payload) => decrypted(packet) == Ok::<OpenedInitial, QuicError>(
                        OpenedInitial { dcid, scid: layout.cids.scid, payload },
                    ),
                },
            })
        },
{
}

} // verus!
