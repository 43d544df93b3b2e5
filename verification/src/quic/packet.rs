//! Long headers and the headers of Initial packets.

use vstd::prelude::*;
use vstd::slice::{slice_subrange, slice_to_vec};

use crate::bytes;
use crate::quic::error::QuicError;
use crate::quic::varint;
use crate::quic::varint::read_varint_at;

verus! {

/// The QUIC version whose Initial packets can be opened.
pub const QUIC_VERSION_1: u32 = 1;

/// The packet type of Initial packets.
pub const QUIC_PACKET_TYPE_INITIAL: u8 = 0;

/// What a long header says, up to its connection IDs.
#[derive(Debug)]
pub struct LongPacketCids {
    pub version: u32,
    pub packet_type: u8,
    pub dcid: Vec<u8>,
    pub scid: Vec<u8>,
}

/// The contents of a [`LongPacketCids`].
pub struct LongHeader {
    pub version: u32,
    pub packet_type: u8,
    pub dcid: Seq<u8>,
    pub scid: Seq<u8>,
}

impl View for LongPacketCids {
    type V = LongHeader;

    open spec fn view(&self) -> LongHeader {
        LongHeader {
            version: self.version,
            packet_type: self.packet_type,
            dcid: self.dcid@,
            scid: self.scid@,
        }
    }
}

/// The long header of `packet`; `None` where the packet has a short one.
pub open spec fn long_header(packet: Seq<u8>) -> Result<Option<LongHeader>, QuicError> {
    if packet.len() == 0 || packet[0] < 0x80 {
        Ok(None)
    } else if packet.len() < 7 {
        Err(QuicError::TruncatedLongHeader)
    } else {
        let dcid_len = packet[5] as int;
        let scid_len = packet[6 + dcid_len] as int;
        if packet.len() < 7 + dcid_len {
            Err(QuicError::TruncatedDestination)
        } else if packet.len() < 7 + dcid_len + scid_len {
            Err(QuicError::TruncatedSource)
        } else {
            Ok(
                Some(
                    LongHeader {
                        version: bytes::be32(packet, 1) as u32,
                        packet_type: (packet[0] / 16 % 4) as u8,
                        dcid: packet.subrange(6, 6 + dcid_len),
                        scid: packet.subrange(7 + dcid_len, 7 + dcid_len + scid_len),
                    },
                ),
            )
        }
    }
}

/// A parsed long header, by its contents.
pub open spec fn long_view(long: Option<LongPacketCids>) -> Option<LongHeader> {
    match long {
        None => None,
        Some(cids) => Some(cids@),
    }
}

/// Reads the long header of a packet; `None` where the packet has a short one.
pub fn parse_long_packet_cids(packet: &[u8]) -> (r: Result<Option<LongPacketCids>, QuicError>)
    ensures
        match r {
            Ok(long) => long_header(packet@) == Ok::<Option<LongHeader>, QuicError>(
                long_view(long),
            ),
            Err(e) => long_header(packet@) == Err::<Option<LongHeader>, QuicError>(e),
        },
        r matches Ok(Some(cids)) ==> cids.dcid@.len() <= 255 && cids.scid@.len() <= 255 && 7
            + cids.dcid@.len() + cids.scid@.len() <= packet@.len(),
{
    if packet.len() == 0 || packet[0] < 0x80 {
        return Ok(None);
    }
    if packet.len() < 7 {
        return Err(QuicError::TruncatedLongHeader);
    }
    let version: u32 = bytes::read_be32(packet, 1);
    let packet_type: u8 = packet[0] / 16 % 4;
    let dcid_len: usize = packet[5] as usize;
    if packet.len() < 7 + dcid_len {
        return Err(QuicError::TruncatedDestination);
    }
    let dcid = slice_to_vec(slice_subrange(packet, 6, 6 + dcid_len));
    let scid_len: usize = packet[6 + dcid_len] as usize;
    if packet.len() < 7 + dcid_len + scid_len {
        return Err(QuicError::TruncatedSource);
    }
    let scid = slice_to_vec(slice_subrange(packet, 7 + dcid_len, 7 + dcid_len + scid_len));
    Ok(Some(LongPacketCids { version, packet_type, dcid, scid }))
}

/// Where the parts of an Initial packet are.
#[derive(Debug)]
pub struct InitialHeader {
    pub cids: LongPacketCids,
    /// Where the packet number starts.
    pub packet_number_offset: usize,
    /// Where the packet ends; another packet may follow in the datagram.
    pub packet_end: usize,
}

/// The contents of an [`InitialHeader`].
pub struct InitialLayout {
    pub cids: LongHeader,
    pub packet_number_offset: int,
    pub packet_end: int,
}

impl View for InitialHeader {
    type V = InitialLayout;

    open spec fn view(&self) -> InitialLayout {
        InitialLayout {
            cids: self.cids@,
            packet_number_offset: self.packet_number_offset as int,
            packet_end: self.packet_end as int,
        }
    }
}

/// Where the packet number of an Initial packet starts and where the packet
/// ends, given where its token length stands.
pub open spec fn initial_span(packet: Seq<u8>, token_at: int) -> Result<(int, int), QuicError> {
    match varint::varint_at(packet, token_at) {
        Err(e) => Err(e),
        Ok((token_len, n)) => {
            if token_len > usize::MAX {
                Err(QuicError::TokenTooLarge)
            } else if packet.len() < token_at + n + token_len {
                Err(QuicError::TruncatedToken)
            } else {
                let length_at = token_at + n + token_len;
                match varint::varint_at(packet, length_at) {
                    Err(e) => Err(e),
                    Ok((len, k)) => {
                        let start = length_at + k;
                        if len > usize::MAX {
                            Err(QuicError::LengthTooLarge)
                        } else if start + len > usize::MAX {
                            Err(QuicError::LengthOverflow)
                        } else if start + len > packet.len() {
                            Err(QuicError::TruncatedPayload)
                        } else {
                            Ok((start, start + len))
                        }
                    },
                }
            }
        },
    }
}

/// The header of the Initial packet that `packet` starts with.
pub open spec fn initial_header(packet: Seq<u8>) -> Result<InitialLayout, QuicError> {
    match long_header(packet) {
        Err(e) => Err(e),
        Ok(None) => Err(QuicError::NotLongHeader),
        Ok(Some(cids)) => {
            if cids.version != QUIC_VERSION_1 {
                Err(QuicError::UnsupportedVersion(cids.version))
            } else if cids.packet_type != QUIC_PACKET_TYPE_INITIAL {
                Err(QuicError::NotInitial)
            } else {
                match initial_span(packet, 7 + cids.dcid.len() + cids.scid.len() as int) {
                    Err(e) => Err(e),
                    Ok((start, end)) => Ok(
                        InitialLayout { cids, packet_number_offset: start, packet_end: end },
                    ),
                }
            }
        },
    }
}

/// Finds where the packet number of an Initial packet starts and where the
/// packet ends.
fn find_initial_span(packet: &[u8], token_at: usize) -> (r: Result<(usize, usize), QuicError>)
    requires
        token_at <= packet@.len(),
    ensures
        match r {
            Ok((start, end)) => initial_span(packet@, token_at as int) == Ok::<
                (int, int),
                QuicError,
            >((start as int, end as int)) && start <= end <= packet@.len(),
            Err(e) => initial_span(packet@, token_at as int) == Err::<(int, int), QuicError>(e),
        },
{
    let (token_len, n): (u64, usize) = match read_varint_at(packet, token_at) {
        Ok(read) => read,
        Err(e) => return Err(e),
    };
    assert(token_at + n <= packet.len());
    if token_len > usize::MAX as u64 {
        return Err(QuicError::TokenTooLarge);
    }
    let token_len: usize = token_len as usize;
    if packet.len() - (token_at + n) < token_len {
        return Err(QuicError::TruncatedToken);
    }
    let length_at: usize = token_at + n + token_len;
    let (len, k): (u64, usize) = match read_varint_at(packet, length_at) {
        Ok(read) => read,
        Err(e) => return Err(e),
    };
    assert(length_at + k <= packet.len());
    let start: usize = length_at + k;
    if len > usize::MAX as u64 {
        return Err(QuicError::LengthTooLarge);
    }
    let len: usize = len as usize;
    let end: usize = match start.checked_add(len) {
        Some(end) => end,
        None => return Err(QuicError::LengthOverflow),
    };
    if end > packet.len() {
        return Err(QuicError::TruncatedPayload);
    }
    Ok((start, end))
}

/// Reads the header of an Initial packet.
pub fn parse_initial_header(packet: &[u8]) -> (r: Result<InitialHeader, QuicError>)
    ensures
        match r {
            Ok(header) => initial_header(packet@) == Ok::<InitialLayout, QuicError>(header@),
            Err(e) => initial_header(packet@) == Err::<InitialLayout, QuicError>(e),
        },
        r matches Ok(header) ==> header.packet_number_offset <= header.packet_end
            <= packet@.len(),
{
    let cids = match parse_long_packet_cids(packet) {
        Ok(Some(cids)) => cids,
        Ok(None) => return Err(QuicError::NotLongHeader),
        Err(e) => return Err(e),
    };
    if cids.version != QUIC_VERSION_1 {
        return Err(QuicError::UnsupportedVersion(cids.version));
    }
    if cids.packet_type != QUIC_PACKET_TYPE_INITIAL {
        return Err(QuicError::NotInitial);
    }
    let token_at: usize = 7 + cids.dcid.len() + cids.scid.len();
    match find_initial_span(packet, token_at) {
        Ok((packet_number_offset, packet_end)) => Ok(
            InitialHeader { cids, packet_number_offset, packet_end },
        ),
        Err(e) => Err(e),
    }
}

/// The wire form of a long header: `first` is its first byte.
pub open spec fn encode_long_header(
    first: u8,
    version: u32,
    dcid: Seq<u8>,
    scid: Seq<u8>,
) -> Seq<u8> {
    seq![first] + bytes::to_be(version as nat, 4) + seq![dcid.len() as u8] + dcid + seq![
        scid.len() as u8,
    ] + scid
}

/// The wire form of the header of an Initial packet up to its packet number,
/// for a packet number and payload of `len` bytes. `token_size` and `len_size`
/// pick how the two lengths are encoded.
#[verifier::opaque]
pub open spec fn encode_initial_header(
    first: u8,
    dcid: Seq<u8>,
    scid: Seq<u8>,
    token: Seq<u8>,
    token_size: nat,
    len: nat,
    len_size: nat,
) -> Seq<u8> {
    encode_long_header(first, QUIC_VERSION_1, dcid, scid) + varint::encode_varint(
        token.len(),
        token_size,
    ) + token + varint::encode_varint(len, len_size)
}

proof fn lemma_joined(
    a: Seq<u8>,
    b: Seq<u8>,
    c: Seq<u8>,
    d: Seq<u8>,
    e: Seq<u8>,
    f: Seq<u8>,
)
    ensures
        a + b + c + d + e + f == a + (b + c + (d + e + f)),
        a + b + c + d + e + f == a + b + (c + (d + e + f)),
        a + b + c + d + e + f == a + b + c + d + (e + f),
{
    assert(a + b + c + d + e + f =~= a + (b + c + (d + e + f)));
    assert(a + b + c + d + e + f =~= a + b + (c + (d + e + f)));
    assert(a + b + c + d + e + f =~= a + b + c + d + (e + f));
}

/// Reading an encoded long header gives back its version, type and connection
/// IDs, whatever follows it.
pub proof fn lemma_long_header_round_trip(
    first: u8,
    version: u32,
    dcid: Seq<u8>,
    scid: Seq<u8>,
    rest: Seq<u8>,
)
    requires
        first >= 0x80,
        dcid.len() <= 255,
        scid.len() <= 255,
    ensures
        encode_long_header(first, version, dcid, scid).len() == 7 + dcid.len() + scid.len(),
        long_header(encode_long_header(first, version, dcid, scid) + rest) == Ok::<
            Option<LongHeader>,
            QuicError,
        >(
            Some(
                LongHeader { version, packet_type: (first / 16 % 4) as u8, dcid, scid },
            ),
        ),
{
    let head = encode_long_header(first, version, dcid, scid);
    let packet = head + rest;
    bytes::lemma_be32_round_trip(version as nat);
    let v = bytes::to_be(version as nat, 4);
    assert(packet[0] == first);
    assert(packet[1] == v[0] && packet[2] == v[1] && packet[3] == v[2] && packet[4] == v[3]);
    assert(packet[5] == dcid.len());
    assert(packet[6int + dcid.len()] == scid.len());
    assert(packet.subrange(6, 6int + dcid.len()) =~= dcid);
    assert(packet.subrange(7int + dcid.len(), 7int + dcid.len() + scid.len()) =~= scid);
}

/// Reading an encoded Initial header finds its connection IDs and the exact
/// span of its packet number and payload.
pub proof fn lemma_initial_header_round_trip(
    first: u8,
    dcid: Seq<u8>,
    scid: Seq<u8>,
    token: Seq<u8>,
    token_size: nat,
    payload: Seq<u8>,
    len_size: nat,
    rest: Seq<u8>,
)
    requires
        0x80 <= first,
        first / 16 % 4 == QUIC_PACKET_TYPE_INITIAL,
        dcid.len() <= 255,
        scid.len() <= 255,
        varint::fits_varint(token.len(), token_size),
        varint::fits_varint(payload.len(), len_size),
        encode_initial_header(first, dcid, scid, token, token_size, payload.len(), len_size).len()
            + payload.len() + rest.len() <= usize::MAX,
    ensures
        ({
            let head = encode_initial_header(
                first,
                dcid,
                scid,
                token,
                token_size,
                payload.len(),
                len_size,
            );
            initial_header(head + payload + rest) == Ok::<InitialLayout, QuicError>(
                InitialLayout {
                    cids: LongHeader {
                        version: QUIC_VERSION_1,
                        packet_type: QUIC_PACKET_TYPE_INITIAL,
                        dcid,
                        scid,
                    },
                    packet_number_offset: head.len() as int,
                    packet_end: head.len() + payload.len() as int,
                },
            )
        }),
{
    reveal(encode_initial_header);
    let long = encode_long_header(first, QUIC_VERSION_1, dcid, scid);
    let token_len = varint::encode_varint(token.len(), token_size);
    let len = varint::encode_varint(payload.len(), len_size);
    let behind_token = len + payload + rest;
    lemma_joined(long, token_len, token, len, payload, rest);
    lemma_long_header_round_trip(
        first,
        QUIC_VERSION_1,
        dcid,
        scid,
        token_len + token + behind_token,
    );
    varint::lemma_varint_round_trip(long, token.len(), token_size, token + behind_token);
    varint::lemma_varint_round_trip(
        long + token_len + token,
        payload.len(),
        len_size,
        payload + rest,
    );
}

/// What a long header says stands in its bytes like this: the first byte, the
/// version in four, the length of the destination connection ID in one, that
/// connection ID, the length of the source connection ID in one, and that
/// connection ID; the packet type is in the third and fourth of the high bits of
/// the first byte. A packet whose first byte has its high bit clear, or that has
/// none, has no long header.
pub proof fn lemma_long_header_by_its_bytes(
    first: u8,
    version: u32,
    dcid: Seq<u8>,
    scid: Seq<u8>,
    rest: Seq<u8>,
)
    requires
        dcid.len() <= 255,
        scid.len() <= 255,
    ensures
        ({
            let packet = seq![
                first,
                (version / 0x100_0000) as u8,
                (version / 0x1_0000 % 0x100) as u8,
                (version / 0x100 % 0x100) as u8,
                (version % 0x100) as u8,
                dcid.len() as u8,
            ] + dcid + seq![scid.len() as u8] + scid + rest;
            long_header(packet) == (if first < 0x80 {
                Ok::<Option<LongHeader>, QuicError>(None)
            } else {
                Ok(
                    Some(
                        LongHeader { version, packet_type: (first / 16 % 4) as u8, dcid, scid },
                    ),
                )
            })
        }),
        long_header(Seq::empty()) == Ok::<Option<LongHeader>, QuicError>(None),
{
    let head = seq![
        first,
        (version / 0x100_0000) as u8,
        (version / 0x1_0000 % 0x100) as u8,
        (version / 0x100 % 0x100) as u8,
        (version % 0x100) as u8,
        dcid.len() as u8,
    ];
    let packet = head + dcid + seq![scid.len() as u8] + scid + rest;
    assert(packet[0] == first);
    assert(packet[5] == dcid.len());
    assert(packet[6 + dcid.len() as int] == scid.len());
    assert(packet.subrange(6, 6 + dcid.len() as int) =~= dcid);
    assert(packet.subrange(7 + dcid.len() as int, 7 + dcid.len() as int + scid.len()) =~= scid);
    assert(packet[1] == head[1] && packet[2] == head[2] && packet[3] == head[3] && packet[4]
        == head[4]);
    assert(bytes::be32(packet, 1) == version);
}

/// A long header that ends before its second connection ID does cannot be read.
pub proof fn lemma_cut_long_header_is_refused(packet: Seq<u8>)
    requires
        packet.len() > 0,
        packet[0] >= 0x80,
    ensures
        packet.len() < 7 ==> long_header(packet) == Err::<Option<LongHeader>, QuicError>(
            QuicError::TruncatedLongHeader,
        ),
        7 <= packet.len() < 7 + packet[5] ==> long_header(packet) == Err::<
            Option<LongHeader>,
            QuicError,
        >(QuicError::TruncatedDestination),
        7 <= packet.len() && 7 + packet[5] <= packet.len() < 7 + packet[5] + packet[6
            + packet[5] as int] ==> long_header(packet) == Err::<Option<LongHeader>, QuicError>(
            QuicError::TruncatedSource,
        ),
        7 <= packet.len() && 7 + packet[5] + packet[6 + packet[5] as int] <= packet.len()
            ==> long_header(packet) is Ok,
{
}

/// Only the header of an Initial packet of version 1 is read as one, and only if
/// the packet reaches as far as its length says.
pub proof fn lemma_only_initial_headers_are_read(packet: Seq<u8>)
    ensures
        initial_header(packet) matches Ok(layout) ==> {
            &&& long_header(packet) == Ok::<Option<LongHeader>, QuicError>(Some(layout.cids))
            &&& layout.cids.version == 1
            &&& layout.cids.packet_type == 0
            &&& layout.packet_number_offset <= layout.packet_end <= packet.len()
        },
        long_header(packet) matches Ok(Some(header)) ==> {
            &&& header.version != 1 ==> initial_header(packet) == Err::<InitialLayout, QuicError>(
                QuicError::UnsupportedVersion(header.version),
            )
            &&& header.version == 1 && header.packet_type != 0 ==> initial_header(packet) == Err::<
                InitialLayout,
                QuicError,
            >(QuicError::NotInitial)
        },
        long_header(packet) == Ok::<Option<LongHeader>, QuicError>(None) ==> initial_header(packet)
            == Err::<InitialLayout, QuicError>(QuicError::NotLongHeader),
        long_header(packet) matches Err(e) ==> initial_header(packet) == Err::<
            InitialLayout,
            QuicError,
        >(e),
{
}

/// An Initial packet is refused where its token or its payload reaches past what
/// is there; otherwise its packet number starts right behind the length and the
/// packet ends as far behind that as the length says.
pub proof fn lemma_initial_reaches_as_far_as_it_says(packet: Seq<u8>, token_at: int)
    requires
        0 <= token_at,
    ensures
        varint::varint_at(packet, token_at) matches Ok((token_len, n)) ==> {
            let length_at = token_at + n + token_len;
            &&& token_len <= usize::MAX && packet.len() < length_at ==> initial_span(
                packet,
                token_at,
            ) == Err::<(int, int), QuicError>(QuicError::TruncatedToken)
            &&& token_len <= usize::MAX && packet.len() >= length_at ==> match varint::varint_at(
                packet,
                length_at,
            ) {
                Err(e) => initial_span(packet, token_at) == Err::<(int, int), QuicError>(e),
                Ok((len, k)) => {
                    let start = length_at + k;
                    &&& start + len <= packet.len() <= usize::MAX ==> initial_span(packet, token_at)
                        == Ok::<(int, int), QuicError>((start as int, start + len))
                    &&& start + len > packet.len() ==> initial_span(packet, token_at) is Err
                    &&& packet.len() < start + len <= usize::MAX ==> initial_span(packet, token_at)
                        == Err::<(int, int), QuicError>(QuicError::TruncatedPayload)
                },
            }
        },
        varint::varint_at(packet, token_at) matches Err(e) ==> initial_span(packet, token_at)
            == Err::<(int, int), QuicError>(e),
{
}

/// What a header says is what it holds: its version and type, all bytes of its
/// connection IDs, and where the packet number starts and the packet ends.
pub proof fn lemma_headers_say_what_they_hold(cids: LongPacketCids, header: InitialHeader)
    ensures
        cids@.version == cids.version,
        cids@.packet_type == cids.packet_type,
        cids@.dcid == cids.dcid@,
        cids@.scid == cids.scid@,
        long_view(Some(cids)) == Some(cids@),
        long_view(None) is None,
        header@.cids == header.cids@,
        header@.packet_number_offset == header.packet_number_offset,
        header@.packet_end == header.packet_end,
{
}

} // verus!
