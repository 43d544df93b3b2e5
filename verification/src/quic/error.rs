//! Why a QUIC packet is refused.

use vstd::prelude::*;

verus! {

/// Why a QUIC packet, or a frame in it, cannot be read.
#[derive(Clone, Copy, Debug, PartialEq, Eq, Structural)]
pub enum QuicError {
    /// The buffer ends where a variable-length integer should start.
    MissingVarint,
    /// A variable-length integer reaches past the buffer.
    TruncatedVarint,
    /// Fewer bytes than any long header has.
    TruncatedLongHeader,
    /// The destination connection ID reaches past the packet.
    TruncatedDestination,
    /// The source connection ID reaches past the packet.
    TruncatedSource,
    /// The packet has a short header.
    NotLongHeader,
    /// The packet is of another QUIC version.
    UnsupportedVersion(u32),
    /// The packet is not an Initial packet.
    NotInitial,
    /// The token length does not fit the machine.
    TokenTooLarge,
    /// The token reaches past the packet.
    TruncatedToken,
    /// The payload length does not fit the machine.
    LengthTooLarge,
    /// The end of the payload does not fit the machine.
    LengthOverflow,
    /// The payload reaches past the packet.
    TruncatedPayload,
    /// The payload is too short to sample for header protection.
    NoSample,
    /// The packet number reaches past the payload.
    TruncatedPacketNumber,
    /// A key derivation label is too long.
    LabelTooLong,
    /// More key material was asked for than a length field can say.
    OutputTooLong,
    /// Key derivation failed.
    ExpandFailed,
    /// The header protection mask could not be computed.
    MaskFailed,
    /// The payload does not decrypt.
    DecryptFailed,
    /// A CRYPTO frame is longer than the machine can address.
    CryptoTooLarge,
    /// A CRYPTO frame reaches past the payload.
    TruncatedCrypto,
    /// A close reason is longer than the machine can address.
    ReasonTooLarge,
    /// A close reason reaches past the payload.
    TruncatedReason,
    /// A frame that an Initial packet may not hold.
    UnexpectedFrame(u64),
    /// The first handshake message is not a ClientHello.
    NotClientHello(u8),
}

} // verus!
