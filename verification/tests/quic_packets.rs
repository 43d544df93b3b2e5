use ring::aead;
use sni_router::quic::error::QuicError;
use sni_router::quic::frames::{
    read_crypto_frames, skip_ack_frame, skip_application_close_frame, skip_transport_close_frame,
};
use sni_router::quic::initial::{
    decrypt_initial_packet, packet_nonce, remove_header_protection,
};
use sni_router::quic::keys::{hkdf_expand_label, initial_key_bytes, Secret};
use sni_router::quic::packet::{parse_initial_header, parse_long_packet_cids, QUIC_VERSION_1};
use sni_router::quic::reassembly::CryptoReassembly;
use sni_router::quic::varint::{read_varint, read_varint_at};

const AEAD_TAG_LEN: usize = 16;

fn hex_to_vec(s: &str) -> Vec<u8> {
    assert!(s.len() % 2 == 0);
    (0..s.len())
        .step_by(2)
        .map(|i| u8::from_str_radix(&s[i..i + 2], 16).unwrap())
        .collect()
}

fn push_u16_len_prefixed(out: &mut Vec<u8>, value: &[u8]) {
    out.extend_from_slice(&u16::try_from(value.len()).unwrap().to_be_bytes());
    out.extend_from_slice(value);
}

fn minimal_clienthello_sni(host: &str) -> Vec<u8> {
    let mut server_name_list = vec![0];
    push_u16_len_prefixed(&mut server_name_list, host.as_bytes());
    let mut server_name_ext = Vec::new();
    push_u16_len_prefixed(&mut server_name_ext, &server_name_list);
    let mut extensions = 0u16.to_be_bytes().to_vec();
    push_u16_len_prefixed(&mut extensions, &server_name_ext);
    let mut body = vec![0x03, 0x03];
    body.extend_from_slice(&[0u8; 32]);
    body.push(0);
    body.extend_from_slice(&2u16.to_be_bytes());
    body.extend_from_slice(&[0x13, 0x01]);
    body.push(1);
    body.push(0);
    push_u16_len_prefixed(&mut body, &extensions);
    let mut hello = vec![1];
    hello.extend_from_slice(&u32::try_from(body.len()).unwrap().to_be_bytes()[1..]);
    hello.extend_from_slice(&body);
    hello
}

fn encode_varint(value: u64) -> Vec<u8> {
    if value < 64 {
        vec![u8::try_from(value).unwrap()]
    } else if value < 16_384 {
        let value = u16::try_from(value).unwrap() | 0x4000;
        value.to_be_bytes().to_vec()
    } else if value < 1_073_741_824 {
        let value = u32::try_from(value).unwrap() | 0x8000_0000;
        value.to_be_bytes().to_vec()
    } else {
        let value = value | 0xc000_0000_0000_0000;
        value.to_be_bytes().to_vec()
    }
}

fn crypto_frame(offset: u64, data: &[u8]) -> Vec<u8> {
    let mut frame = vec![0x06];
    frame.extend_from_slice(&encode_varint(offset));
    frame.extend_from_slice(&encode_varint(u64::try_from(data.len()).unwrap()));
    frame.extend_from_slice(data);
    frame
}

fn initial_header(first: u8, dcid: &[u8], scid: &[u8]) -> Vec<u8> {
    let mut header = vec![first];
    header.extend_from_slice(&QUIC_VERSION_1.to_be_bytes());
    header.push(u8::try_from(dcid.len()).unwrap());
    header.extend_from_slice(dcid);
    header.push(u8::try_from(scid.len()).unwrap());
    header.extend_from_slice(scid);
    header
}

fn protected_initial_packet(dcid: &[u8], scid: &[u8], payload: &[u8]) -> Vec<u8> {
    let key_bytes = initial_key_bytes(dcid).unwrap();
    let open = aead::LessSafeKey::new(
        aead::UnboundKey::new(&aead::AES_128_GCM, &key_bytes.key).unwrap(),
    );
    let hp = aead::quic::HeaderProtectionKey::new(&aead::quic::AES_128, &key_bytes.hp).unwrap();
    let packet_number = 0u64;
    let packet_number_bytes = [0u8, 0, 0, 0];

    let mut ciphertext = payload.to_vec();
    let mut header = initial_header(0xc3, dcid, scid);
    header.push(0);
    let packet_len = packet_number_bytes.len() + ciphertext.len() + AEAD_TAG_LEN;
    header.extend_from_slice(&encode_varint(u64::try_from(packet_len).unwrap()));
    let packet_number_offset = header.len();
    header.extend_from_slice(&packet_number_bytes);

    let nonce = packet_nonce(&key_bytes.iv, packet_number);
    open.seal_in_place_append_tag(
        aead::Nonce::try_assume_unique_for_key(&nonce).unwrap(),
        aead::Aad::from(&header),
        &mut ciphertext,
    )
    .unwrap();

    let mut packet = header;
    packet.extend_from_slice(&ciphertext);
    let sample_offset = packet_number_offset + 4;
    let mask = hp
        .new_mask(&packet[sample_offset..sample_offset + aead::quic::AES_128.sample_len()])
        .unwrap();
    packet[0] ^= mask[0] & 0x0f;
    for i in 0..packet_number_bytes.len() {
        packet[packet_number_offset + i] ^= mask[i + 1];
    }
    packet
}

#[test]
fn quic_v1_initial_key_derivation_matches_rfc9001() {
    let dcid = hex_to_vec("8394c8f03e515708");
    let key_bytes = initial_key_bytes(&dcid).unwrap();
    assert_eq!(
        key_bytes.key.to_vec(),
        hex_to_vec("1f369613dd76d5467730efcbe3b1a22d")
    );
    assert_eq!(
        key_bytes.iv.to_vec(),
        hex_to_vec("fa044b2f42a3fd3b46fb255c")
    );
    assert_eq!(
        key_bytes.hp.to_vec(),
        hex_to_vec("9f50449e04a0e810283a1e9933adedd2")
    );
}

#[test]
fn decrypts_synthetic_quic_initial_crypto_frame() {
    let dcid = hex_to_vec("8394c8f03e515708");
    let scid = hex_to_vec("0001020304050607");
    let hello = minimal_clienthello_sni("www.example.com");
    let payload = crypto_frame(0, &hello);
    let packet = protected_initial_packet(&dcid, &scid, &payload);

    let decrypted = decrypt_initial_packet(&packet).unwrap();
    assert_eq!(decrypted.dcid, dcid);
    assert_eq!(decrypted.scid, scid);
    let frames = read_crypto_frames(&decrypted.payload).unwrap();
    assert_eq!(frames.len(), 1);
    assert_eq!(frames[0].0, 0);
    assert_eq!(frames[0].1, hello);
}

#[test]
fn changed_packet_does_not_decrypt() {
    let payload = crypto_frame(0, &minimal_clienthello_sni("foo"));
    let mut packet = protected_initial_packet(b"12345678", b"", &payload);
    let last = packet.len() - 1;
    packet[last] ^= 1;
    assert_eq!(
        decrypt_initial_packet(&packet).unwrap_err(),
        QuicError::DecryptFailed
    );
}

#[test]
fn packet_behind_first_is_ignored() {
    let payload = crypto_frame(0, &minimal_clienthello_sni("foo"));
    let mut packet = protected_initial_packet(b"12345678", b"", &payload);
    packet.extend_from_slice(&[0u8; 40]);
    assert_eq!(decrypt_initial_packet(&packet).unwrap().payload, payload);
}

#[test]
fn key_derivation_limits() {
    let secret = Secret::Key(vec![0; 32]);
    assert_eq!(
        hkdf_expand_label(&secret, &[b'x'; 250], 16),
        Err(QuicError::LabelTooLong)
    );
    assert!(hkdf_expand_label(&secret, &[b'x'; 249], 16).is_ok());
    assert_eq!(
        hkdf_expand_label(&secret, b"x", 65_536),
        Err(QuicError::OutputTooLong)
    );
    assert_eq!(
        hkdf_expand_label(&secret, b"x", 8161),
        Err(QuicError::ExpandFailed)
    );
    assert_eq!(hkdf_expand_label(&secret, b"x", 8160).unwrap().len(), 8160);
    assert_eq!(hkdf_expand_label(&secret, b"x", 0).unwrap(), Vec::<u8>::new());
}

#[test]
fn client_secret_matches_rfc9001() {
    let salt = hex_to_vec("38762cf7f55934b34d179ae6a4c80cadccbb7f0a");
    let secret = Secret::Extracted {
        salt,
        secret: hex_to_vec("8394c8f03e515708"),
    };
    assert_eq!(
        hkdf_expand_label(&secret, b"client in", 32).unwrap(),
        hex_to_vec("c00cf151ca5be075ed0ebfb5c80323c42d6b7db67881289af4008f1f6c357aea")
    );
}

#[test]
fn nonce_is_vector_over_packet_number() {
    let iv = hex_to_vec("fa044b2f42a3fd3b46fb255c");
    assert_eq!(packet_nonce(&iv, 0), iv);
    assert_eq!(
        packet_nonce(&iv, 2),
        hex_to_vec("fa044b2f42a3fd3b46fb255e")
    );
    assert_eq!(
        packet_nonce(&iv, 0x0102_0304_0506_0708),
        hex_to_vec("fa044b2f43a1fe3f43fd2254")
    );
}

#[test]
fn header_protection_is_undone() {
    let header = [0xc1u8, 1, 2, 3, 0xab, 0xcd];
    let mask = [0xff, 0x10, 0x20, 0x30, 0x40];
    let mut packet = header.to_vec();
    packet[0] ^= mask[0] & 0x0f;
    packet[4] ^= mask[1];
    packet[5] ^= mask[2];
    packet.extend_from_slice(b"sealed");
    packet.extend_from_slice(b"rest");
    let plain = remove_header_protection(&packet, 4, 12, &mask).unwrap();
    assert_eq!(plain.packet_number, 0xabcd);
    assert_eq!(plain.associated_data, header);
    assert_eq!(plain.sealed, b"sealed");
    assert_eq!(
        remove_header_protection(&packet, 4, 5, &mask).err(),
        Some(QuicError::TruncatedPacketNumber)
    );
}

#[test]
fn varints_of_every_size() {
    for (value, len) in [
        (0u64, 1usize),
        (63, 1),
        (64, 2),
        (16_383, 2),
        (16_384, 4),
        (1_073_741_823, 4),
        (1_073_741_824, 8),
        (4_611_686_018_427_387_903, 8),
    ] {
        let mut buf = vec![0xaa];
        buf.extend_from_slice(&encode_varint(value));
        buf.push(0xbb);
        assert_eq!(read_varint_at(&buf, 1), Ok((value, len)));
        let mut i = 1;
        assert_eq!(read_varint(&buf, &mut i), Ok(value));
        assert_eq!(i, 1 + len);
    }
    assert_eq!(read_varint_at(&[0x40, 0x05], 0), Ok((5, 2)));
    assert_eq!(read_varint_at(&[], 0), Err(QuicError::MissingVarint));
    let mut i = 0;
    assert_eq!(
        read_varint(&[0x80, 0, 0], &mut i),
        Err(QuicError::TruncatedVarint)
    );
    assert_eq!(i, 0);
}

#[test]
fn long_headers() {
    let packet = initial_header(0xe0, b"dest", b"sr");
    let cids = parse_long_packet_cids(&packet).unwrap().unwrap();
    assert_eq!(cids.version, 1);
    assert_eq!(cids.packet_type, 2);
    assert_eq!(cids.dcid, b"dest");
    assert_eq!(cids.scid, b"sr");
    assert!(parse_long_packet_cids(&[]).unwrap().is_none());
    assert!(parse_long_packet_cids(&[0x7f, 1]).unwrap().is_none());
    assert_eq!(
        parse_long_packet_cids(&[0x80, 0, 0, 0, 1, 0]).err(),
        Some(QuicError::TruncatedLongHeader)
    );
    assert_eq!(
        parse_long_packet_cids(&[0x80, 0, 0, 0, 1, 1, 9]).err(),
        Some(QuicError::TruncatedDestination)
    );
    assert_eq!(
        parse_long_packet_cids(&[0x80, 0, 0, 0, 1, 0, 1]).err(),
        Some(QuicError::TruncatedSource)
    );
}

#[test]
fn initial_headers() {
    let mut packet = initial_header(0xc0, b"dest", b"");
    packet.extend_from_slice(&[2, 0xaa, 0xbb, 3, 7, 8, 9, 0xff]);
    let header = parse_initial_header(&packet).unwrap();
    assert_eq!(header.cids.dcid, b"dest");
    assert_eq!(header.packet_number_offset, 15);
    assert_eq!(header.packet_end, 18);

    assert_eq!(
        parse_initial_header(&[0x40]).err(),
        Some(QuicError::NotLongHeader)
    );
    let mut other = packet.clone();
    other[4] = 2;
    assert_eq!(
        parse_initial_header(&other).err(),
        Some(QuicError::UnsupportedVersion(2))
    );
    let mut other = packet.clone();
    other[0] = 0xd0;
    assert_eq!(
        parse_initial_header(&other).err(),
        Some(QuicError::NotInitial)
    );
    assert_eq!(
        parse_initial_header(&packet[..13]).err(),
        Some(QuicError::TruncatedToken)
    );
    assert_eq!(
        parse_initial_header(&packet[..17]).err(),
        Some(QuicError::TruncatedPayload)
    );
    assert_eq!(
        decrypt_initial_packet(&packet).err(),
        Some(QuicError::NoSample)
    );
    let mut overflowing = initial_header(0xc0, b"dest", b"");
    overflowing.push(0);
    overflowing.extend_from_slice(&[0xff; 8]);
    assert_eq!(
        parse_initial_header(&overflowing).err(),
        Some(QuicError::TruncatedPayload)
    );
}

#[test]
fn frames_of_every_kind() {
    let mut payload = vec![0x00, 0x01];
    payload.extend_from_slice(&[0x02, 9, 1, 1, 3, 4, 5]);
    payload.extend_from_slice(&crypto_frame(7, b"abc"));
    payload.extend_from_slice(&[0x03, 9, 1, 0, 3, 1, 2, 3]);
    payload.extend_from_slice(&[0x1c, 1, 2, 3, b'w', b'h', b'y']);
    payload.extend_from_slice(&crypto_frame(0, b""));
    payload.extend_from_slice(&[0x1d, 1, 2, b'n', b'o']);
    assert_eq!(
        read_crypto_frames(&payload),
        Ok(vec![(7, b"abc".to_vec()), (0, Vec::new())])
    );
    assert_eq!(read_crypto_frames(&[]), Ok(Vec::new()));
}

#[test]
fn frame_errors() {
    assert_eq!(
        read_crypto_frames(&[0x08]),
        Err(QuicError::UnexpectedFrame(8))
    );
    assert_eq!(
        read_crypto_frames(&[0x06, 0, 2, 1]),
        Err(QuicError::TruncatedCrypto)
    );
    assert_eq!(
        read_crypto_frames(&[0x1c, 0, 0, 2, 1]),
        Err(QuicError::TruncatedReason)
    );
    assert_eq!(
        read_crypto_frames(&[0x02, 0, 0, 1]),
        Err(QuicError::MissingVarint)
    );
}

#[test]
fn skipping_moves_behind_what_was_read() {
    let payload = [9, 1, 1, 3, 4, 5, 1, 2, 3];
    let mut i = 0;
    assert_eq!(skip_ack_frame(&payload, &mut i, false), Ok(()));
    assert_eq!(i, 6);
    let mut i = 0;
    assert_eq!(skip_ack_frame(&payload, &mut i, true), Ok(()));
    assert_eq!(i, 9);
    let mut i = 0;
    assert_eq!(
        skip_ack_frame(&payload[..8], &mut i, true),
        Err(QuicError::MissingVarint)
    );
    assert_eq!(i, 8);
    let mut i = 0;
    assert_eq!(
        skip_transport_close_frame(&[1, 2, 1, 7], &mut i),
        Ok(())
    );
    assert_eq!(i, 4);
    let mut i = 0;
    assert_eq!(
        skip_application_close_frame(&[1, 3, 7], &mut i),
        Err(QuicError::TruncatedReason)
    );
    assert_eq!(i, 2);
}

#[test]
fn pieces_arrive_in_any_order() {
    let hello = minimal_clienthello_sni("www.example.com");
    let mut crypto = CryptoReassembly::default();
    assert_eq!(crypto.clienthello(), Ok(None));
    crypto.insert(40, hello[40..].to_vec());
    assert_eq!(crypto.contiguous(), Vec::<u8>::new());
    crypto.insert(0, hello[..20].to_vec());
    assert_eq!(crypto.contiguous(), hello[..20].to_vec());
    assert_eq!(crypto.clienthello(), Ok(None));
    crypto.insert(10, hello[10..45].to_vec());
    assert_eq!(crypto.contiguous(), hello);
    assert_eq!(crypto.clienthello(), Ok(Some(hello.clone())));
    crypto.insert(hello.len() as u64, b"more".to_vec());
    assert_eq!(crypto.clienthello(), Ok(Some(hello)));
}

#[test]
fn overlapping_pieces_keep_the_lower_one() {
    let mut crypto = CryptoReassembly::default();
    crypto.insert(2, b"XYZ".to_vec());
    crypto.insert(0, b"abcd".to_vec());
    assert_eq!(crypto.contiguous(), b"abcdZ".to_vec());
    crypto.insert(1, Vec::new());
    assert_eq!(crypto.contiguous(), b"abcdZ".to_vec());
    crypto.insert(0, b"ab".to_vec());
    assert_eq!(crypto.contiguous(), b"abXYZ".to_vec());
}

#[test]
fn other_handshake_message_is_refused() {
    let mut crypto = CryptoReassembly::default();
    crypto.insert(0, vec![2, 0, 0, 0]);
    assert_eq!(crypto.clienthello(), Err(QuicError::NotClientHello(2)));
}
