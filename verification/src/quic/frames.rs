//! The frames of an Initial packet.

use vstd::prelude::*;
use vstd::slice::{slice_subrange, slice_to_vec};

use crate::quic::error::QuicError;
use crate::quic::varint;
use crate::quic::varint::read_varint;

verus! {

/// Where reading stops and whether it failed there.
pub struct Skipped {
    pub offset: int,
    pub outcome: Result<(), QuicError>,
}

/// Reads `count` integers from `i` on. On failure the offset is that of the
/// integer that could not be read.
pub open spec fn skip_varints(payload: Seq<u8>, i: int, count: nat) -> Skipped
    decreases count,
{
    if count == 0 {
        Skipped { offset: i, outcome: Ok(()) }
    } else {
        match varint::varint_at(payload, i) {
            Err(e) => Skipped { offset: i, outcome: Err(e) },
            Ok((_, n)) => skip_varints(payload, i + n, (count - 1) as nat),
        }
    }
}

/// Goes on with `count` more integers where nothing has failed yet.
pub open spec fn skip_more(payload: Seq<u8>, before: Skipped, count: nat) -> Skipped {
    if before.outcome is Ok {
        skip_varints(payload, before.offset, count)
    } else {
        before
    }
}

/// Reads the body of an ACK frame from `i` on: the largest acknowledged packet
/// number and the delay, the number of further ranges, the first range, two
/// integers for each further range, and three counters with `has_ecn`.
pub open spec fn skip_ack(payload: Seq<u8>, i: int, has_ecn: bool) -> Skipped {
    let head = skip_varints(payload, i, 2);
    if head.outcome is Err {
        head
    } else {
        match varint::varint_at(payload, head.offset) {
            Err(e) => Skipped { offset: head.offset, outcome: Err(e) },
            Ok((ranges, n)) => {
                let first = skip_varints(payload, head.offset + n, 1);
                let all = skip_more(payload, first, 2 * ranges);
                skip_more(
                    payload,
                    all,
                    if has_ecn {
                        3
                    } else {
                        0
                    },
                )
            },
        }
    }
}

/// Reads `count` integers and then a close reason behind its length.
pub open spec fn skip_close(payload: Seq<u8>, i: int, count: nat) -> Skipped {
    let head = skip_varints(payload, i, count);
    if head.outcome is Err {
        head
    } else {
        match varint::varint_at(payload, head.offset) {
            Err(e) => Skipped { offset: head.offset, outcome: Err(e) },
            Ok((len, n)) => {
                let reason = head.offset + n;
                if len > usize::MAX {
                    Skipped { offset: reason, outcome: Err(QuicError::ReasonTooLarge) }
                } else if payload.len() < reason + len {
                    Skipped { offset: reason, outcome: Err(QuicError::TruncatedReason) }
                } else {
                    Skipped { offset: reason + len, outcome: Ok(()) }
                }
            },
        }
    }
}

/// A piece of the handshake stream, as a CRYPTO frame carries it.
pub struct CryptoPiece {
    pub offset: nat,
    pub data: Seq<u8>,
}

/// What stands at `i` in a payload.
pub enum FrameAt {
    /// A frame that carries nothing for the handshake, up to the offset.
    Other(int),
    /// A CRYPTO frame, up to the offset.
    Crypto(CryptoPiece, int),
    /// Nothing that can be read.
    Bad(QuicError),
}

/// The outcome of skipping a frame body.
pub open spec fn skipped_frame(s: Skipped) -> FrameAt {
    match s.outcome {
        Ok(_) => FrameAt::Other(s.offset),
        Err(e) => FrameAt::Bad(e),
    }
}

/// The body of a CRYPTO frame that starts at `i`.
pub open spec fn crypto_at(payload: Seq<u8>, i: int) -> FrameAt {
    match varint::varint_at(payload, i) {
        Err(e) => FrameAt::Bad(e),
        Ok((offset, n)) => match varint::varint_at(payload, i + n) {
            Err(e) => FrameAt::Bad(e),
            Ok((len, k)) => {
                let start = i + n + k;
                if len > usize::MAX {
                    FrameAt::Bad(QuicError::CryptoTooLarge)
                } else if payload.len() < start + len {
                    FrameAt::Bad(QuicError::TruncatedCrypto)
                } else {
                    FrameAt::Crypto(
                        CryptoPiece { offset, data: payload.subrange(start, start + len) },
                        start + len,
                    )
                }
            },
        },
    }
}

/// The frame that starts at `i`: padding (0), ping (1), ACK (2, and 3 with
/// counters), CRYPTO (6) or one of the two closes (0x1c, 0x1d).
pub open spec fn frame_at(payload: Seq<u8>, i: int) -> FrameAt {
    match varint::varint_at(payload, i) {
        Err(e) => FrameAt::Bad(e),
        Ok((kind, n)) => {
            if kind == 0 || kind == 1 {
                FrameAt::Other(i + n)
            } else if kind == 2 || kind == 3 {
                skipped_frame(skip_ack(payload, i + n, kind == 3))
            } else if kind == 6 {
                crypto_at(payload, i + n)
            } else if kind == 0x1c {
                skipped_frame(skip_close(payload, i + n, 2))
            } else if kind == 0x1d {
                skipped_frame(skip_close(payload, i + n, 1))
            } else {
                FrameAt::Bad(QuicError::UnexpectedFrame(kind as u64))
            }
        },
    }
}

/// The CRYPTO frames from `i` on, in order. One unreadable frame spoils all.
pub open spec fn crypto_frames(payload: Seq<u8>, i: int) -> Result<Seq<CryptoPiece>, QuicError>
    decreases payload.len() - i,
{
    if i >= payload.len() {
        Ok(Seq::empty())
    } else {
        proof {
            lemma_frame_advances(payload, i);
        }
        match frame_at(payload, i) {
            FrameAt::Bad(e) => Err(e),
            FrameAt::Other(next) => crypto_frames(payload, next),
            FrameAt::Crypto(piece, next) => match crypto_frames(payload, next) {
                Err(e) => Err(e),
                Ok(rest) => Ok(seq![piece] + rest),
            },
        }
    }
}

/// Reading integers never moves back nor past the end.
pub proof fn lemma_skip_advances(payload: Seq<u8>, i: int, count: nat)
    requires
        i <= payload.len(),
    ensures
        i <= skip_varints(payload, i, count).offset <= payload.len(),
    decreases count,
{
    if count > 0 {
        if let Ok((_, n)) = varint::varint_at(payload, i) {
            lemma_skip_advances(payload, i + n, (count - 1) as nat);
        }
    }
}

/// Every readable frame takes at least one byte and ends within the payload.
pub proof fn lemma_frame_advances(payload: Seq<u8>, i: int)
    requires
        i < payload.len(),
    ensures
        match frame_at(payload, i) {
            FrameAt::Bad(_) => true,
            FrameAt::Other(next) => i < next <= payload.len(),
            FrameAt::Crypto(_, next) => i < next <= payload.len(),
        },
{
    if let Ok((kind, n)) = varint::varint_at(payload, i) {
        let body = i + n;
        lemma_skip_advances(payload, body, 1);
        lemma_skip_advances(payload, body, 2);
        let head = skip_varints(payload, body, 2);
        if let Ok((ranges, k)) = varint::varint_at(payload, head.offset) {
            let first = skip_varints(payload, head.offset + k, 1);
            lemma_skip_advances(payload, head.offset + k, 1);
            lemma_skip_advances(payload, first.offset, 2 * ranges);
            let all = skip_more(payload, first, 2 * ranges);
            lemma_skip_advances(payload, all.offset, 0);
            lemma_skip_advances(payload, all.offset, 3);
        }
    }
}

/// Reads `count` integers.
fn skip_integers(payload: &[u8], i: &mut usize, count: u64) -> (r: Result<(), QuicError>)
    ensures
        skip_varints(payload@, *old(i) as int, count as nat) == (Skipped {
            offset: *final(i) as int,
            outcome: r,
        }),
        *old(i) <= payload@.len() ==> *final(i) <= payload@.len(),
{
    let ghost start = *i as int;
    let mut left: u64 = count;
    while left > 0
        invariant
            start == *old(i),
            skip_varints(payload@, start, count as nat) == skip_varints(
                payload@,
                *i as int,
                left as nat,
            ),
            start <= payload@.len() ==> *i <= payload@.len(),
        decreases left,
    {
        match read_varint(payload, i) {
            Ok(_) => {},
            Err(e) => return Err(e),
        }
        left = left - 1;
    }
    Ok(())
}

/// Skips the body of an ACK frame, which starts at `*i`.
pub fn skip_ack_frame(payload: &[u8], i: &mut usize, has_ecn: bool) -> (r: Result<(), QuicError>)
    ensures
        skip_ack(payload@, *old(i) as int, has_ecn) == (Skipped {
            offset: *final(i) as int,
            outcome: r,
        }),
        *old(i) <= payload@.len() ==> *final(i) <= payload@.len(),
{
    match skip_integers(payload, i, 2) {
        Ok(_) => {},
        Err(e) => return Err(e),
    }
    let ack_range_count: u64 = match read_varint(payload, i) {
        Ok(count) => count,
        Err(e) => return Err(e),
    };
    match skip_integers(payload, i, 1) {
        Ok(_) => {},
        Err(e) => return Err(e),
    }
    match skip_integers(payload, i, 2 * ack_range_count) {
        Ok(_) => {},
        Err(e) => return Err(e),
    }
    if has_ecn {
        skip_integers(payload, i, 3)
    } else {
        Ok(())
    }
}

/// Skips `count` integers and then a close reason behind its length.
fn skip_close_frame(payload: &[u8], i: &mut usize, count: u64) -> (r: Result<(), QuicError>)
    ensures
        skip_close(payload@, *old(i) as int, count as nat) == (Skipped {
            offset: *final(i) as int,
            outcome: r,
        }),
        *old(i) <= payload@.len() ==> *final(i) <= payload@.len(),
{
    match skip_integers(payload, i, count) {
        Ok(_) => {},
        Err(e) => return Err(e),
    }
    let reason_len: u64 = match read_varint(payload, i) {
        Ok(len) => len,
        Err(e) => return Err(e),
    };
    if reason_len > usize::MAX as u64 {
        return Err(QuicError::ReasonTooLarge);
    }
    let reason_len: usize = reason_len as usize;
    assert(*i <= payload.len());
    if payload.len() - *i < reason_len {
        return Err(QuicError::TruncatedReason);
    }
    *i = *i + reason_len;
    Ok(())
}

/// Skips the body of a CONNECTION_CLOSE frame of the transport: an error code,
/// a frame type and a reason.
pub fn skip_transport_close_frame(payload: &[u8], i: &mut usize) -> (r: Result<(), QuicError>)
    ensures
        skip_close(payload@, *old(i) as int, 2) == (Skipped {
            offset: *final(i) as int,
            outcome: r,
        }),
        *old(i) <= payload@.len() ==> *final(i) <= payload@.len(),
{
    skip_close_frame(payload, i, 2)
}

/// Skips the body of a CONNECTION_CLOSE frame of the application: an error code
/// and a reason.
pub fn skip_application_close_frame(payload: &[u8], i: &mut usize) -> (r: Result<(), QuicError>)
    ensures
        skip_close(payload@, *old(i) as int, 1) == (Skipped {
            offset: *final(i) as int,
            outcome: r,
        }),
        *old(i) <= payload@.len() ==> *final(i) <= payload@.len(),
{
    skip_close_frame(payload, i, 1)
}

/// Reads the body of a CRYPTO frame, which starts at `*i`.
fn read_crypto_frame(payload: &[u8], i: &mut usize) -> (r: Result<(u64, Vec<u8>), QuicError>)
    ensures
        crypto_at(payload@, *old(i) as int) == (match r {
            Ok(piece) => FrameAt::Crypto(piece_view(piece), *final(i) as int),
            Err(e) => FrameAt::Bad(e),
        }),
        r is Ok ==> *final(i) <= payload@.len(),
{
    let offset: u64 = match read_varint(payload, i) {
        Ok(offset) => offset,
        Err(e) => return Err(e),
    };
    let len: u64 = match read_varint(payload, i) {
        Ok(len) => len,
        Err(e) => return Err(e),
    };
    if len > usize::MAX as u64 {
        return Err(QuicError::CryptoTooLarge);
    }
    let len: usize = len as usize;
    assert(*i <= payload.len());
    if payload.len() - *i < len {
        return Err(QuicError::TruncatedCrypto);
    }
    let data = slice_to_vec(slice_subrange(payload, *i, *i + len));
    *i = *i + len;
    Ok((offset, data))
}

/// A read piece of the handshake stream, by its contents.
pub open spec fn piece_view(piece: (u64, Vec<u8>)) -> CryptoPiece {
    CryptoPiece { offset: piece.0 as nat, data: piece.1@ }
}

/// Read pieces of the handshake stream, by their contents.
pub open spec fn pieces_view(pieces: Seq<(u64, Vec<u8>)>) -> Seq<CryptoPiece> {
    pieces.map_values(|piece| piece_view(piece))
}

/// What `read` is followed by.
pub open spec fn behind(
    read: Seq<CryptoPiece>,
    rest: Result<Seq<CryptoPiece>, QuicError>,
) -> Result<Seq<CryptoPiece>, QuicError> {
    match rest {
        Ok(rest) => Ok(read + rest),
        Err(e) => Err(e),
    }
}

/// Reads the frame at `*i`; returns what it carries of the handshake stream.
fn read_frame(payload: &[u8], i: &mut usize) -> (r: Result<Option<(u64, Vec<u8>)>, QuicError>)
    requires
        *old(i) < payload@.len(),
    ensures
        frame_at(payload@, *old(i) as int) == (match r {
            Ok(None) => FrameAt::Other(*final(i) as int),
            Ok(Some(piece)) => FrameAt::Crypto(piece_view(piece), *final(i) as int),
            Err(e) => FrameAt::Bad(e),
        }),
{
    let frame_type: u64 = match read_varint(payload, i) {
        Ok(frame_type) => frame_type,
        Err(e) => return Err(e),
    };
    let skipped = if frame_type == 0 || frame_type == 1 {
        Ok(())
    } else if frame_type == 2 || frame_type == 3 {
        skip_ack_frame(payload, i, frame_type == 3)
    } else if frame_type == 6 {
        return match read_crypto_frame(payload, i) {
            Ok(piece) => Ok(Some(piece)),
            Err(e) => Err(e),
        };
    } else if frame_type == 0x1c {
        skip_transport_close_frame(payload, i)
    } else if frame_type == 0x1d {
        skip_application_close_frame(payload, i)
    } else {
        Err(QuicError::UnexpectedFrame(frame_type))
    };
    match skipped {
        Ok(_) => Ok(None),
        Err(e) => Err(e),
    }
}

/// Reads the CRYPTO frames of an Initial packet's payload: for each its offset
/// in the handshake stream and its data.
pub fn read_crypto_frames(payload: &[u8]) -> (r: Result<Vec<(u64, Vec<u8>)>, QuicError>)
    ensures
        match r {
            Ok(frames) => crypto_frames(payload@, 0) == Ok::<Seq<CryptoPiece>, QuicError>(
                pieces_view(frames@),
            ),
            Err(e) => crypto_frames(payload@, 0) == Err::<Seq<CryptoPiece>, QuicError>(e),
        },
{
    let mut frames: Vec<(u64, Vec<u8>)> = Vec::new();
    let mut i: usize = 0;
    assert(pieces_view(frames@) =~= Seq::<CryptoPiece>::empty());
    assert(behind(pieces_view(frames@), crypto_frames(payload@, 0)) =~= crypto_frames(payload@, 0))
        by {
        if let Ok(rest) = crypto_frames(payload@, 0) {
            assert(Seq::<CryptoPiece>::empty() + rest =~= rest);
        }
    }
    while i < payload.len()
        invariant
            i <= payload@.len(),
            crypto_frames(payload@, 0) == behind(
                pieces_view(frames@),
                crypto_frames(payload@, i as int),
            ),
        decreases payload@.len() - i,
    {
        proof {
            lemma_frame_advances(payload@, i as int);
        }
        match read_frame(payload, &mut i) {
            Ok(None) => {},
            Ok(Some(piece)) => {
                let ghost before = frames@;
                frames.push(piece);
                proof {
                    assert(pieces_view(frames@) =~= pieces_view(before) + seq![piece_view(piece)]);
                    if let Ok(rest) = crypto_frames(payload@, i as int) {
                        assert(pieces_view(before) + (seq![piece_view(piece)] + rest)
                            =~= pieces_view(frames@) + rest);
                    }
                }
            },
            Err(e) => return Err(e),
        }
    }
    assert(pieces_view(frames@) + Seq::<CryptoPiece>::empty() =~= pieces_view(frames@));
    Ok(frames)
}

/// An integer and the size that it is encoded with.
pub struct Coded {
    pub value: nat,
    pub size: nat,
}

/// Whether an integer can be encoded.
pub open spec fn codable(c: Coded) -> bool {
    varint::fits_varint(c.value, c.size)
}

/// The wire form of an integer.
pub open spec fn encode_int(c: Coded) -> Seq<u8> {
    varint::encode_varint(c.value, c.size)
}

/// The wire form of integers that follow each other.
pub open spec fn encode_ints(ints: Seq<Coded>) -> Seq<u8>
    decreases ints.len(),
{
    if ints.len() == 0 {
        Seq::empty()
    } else {
        encode_int(ints[0]) + encode_ints(ints.skip(1))
    }
}

/// A frame that an Initial packet may hold.
pub enum Frame {
    /// Padding (0) or a ping (1).
    Plain { kind: Coded },
    /// An acknowledgement: two integers, the number of ranges behind the first
    /// one, the first range, the other ranges and, with kind 3, three counters.
    Ack { kind: Coded, head: Seq<Coded>, count: Coded, ranges: Seq<Coded>, ecn: Seq<Coded> },
    /// A piece of the handshake.
    Crypto { kind: Coded, offset: Coded, len: Coded, data: Seq<u8> },
    /// A close, with its integers and its reason.
    Close { kind: Coded, head: Seq<Coded>, len: Coded, reason: Seq<u8> },
}

/// The integer that a frame starts with.
pub open spec fn frame_kind(f: Frame) -> Coded {
    match f {
        Frame::Plain { kind } => kind,
        Frame::Ack { kind, .. } => kind,
        Frame::Crypto { kind, .. } => kind,
        Frame::Close { kind, .. } => kind,
    }
}

/// What follows a frame's kind.
pub open spec fn encode_frame_body(f: Frame) -> Seq<u8> {
    match f {
        Frame::Plain { .. } => Seq::empty(),
        Frame::Ack { head, count, ranges, ecn, .. } => encode_ints(head) + encode_int(count)
            + encode_ints(ranges) + encode_ints(ecn),
        Frame::Crypto { offset, len, data, .. } => encode_int(offset) + encode_int(len) + data,
        Frame::Close { head, len, reason, .. } => encode_ints(head) + encode_int(len) + reason,
    }
}

/// The wire form of a frame.
pub open spec fn encode_frame(f: Frame) -> Seq<u8> {
    encode_int(frame_kind(f)) + encode_frame_body(f)
}

/// Whether all integers can be encoded.
pub open spec fn all_codable(ints: Seq<Coded>) -> bool {
    forall|i: int| 0 <= i < ints.len() ==> codable(#[trigger] ints[i])
}

/// Whether a frame is one that its wire form can hold.
pub open spec fn frame_valid(f: Frame) -> bool {
    &&& codable(frame_kind(f))
    &&& match f {
        Frame::Plain { kind } => kind.value <= 1,
        Frame::Ack { kind, head, count, ranges, ecn } => {
            &&& kind.value == 2 && ecn.len() == 0 || kind.value == 3 && ecn.len() == 3
            &&& head.len() == 2 && all_codable(head)
            &&& codable(count)
            &&& ranges.len() == 1 + 2 * count.value && all_codable(ranges)
            &&& all_codable(ecn)
        },
        Frame::Crypto { kind, offset, len, data } => {
            &&& kind.value == 6
            &&& codable(offset)
            &&& codable(len)
            &&& len.value == data.len() <= usize::MAX
        },
        Frame::Close { kind, head, len, reason } => {
            &&& kind.value == 0x1c && head.len() == 2 || kind.value == 0x1d && head.len() == 1
            &&& all_codable(head)
            &&& codable(len)
            &&& len.value == reason.len() <= usize::MAX
        },
    }
}

/// What a frame carries of the handshake stream.
pub open spec fn carried(f: Frame) -> Seq<CryptoPiece> {
    match f {
        Frame::Crypto { offset, data, .. } => seq![CryptoPiece { offset: offset.value, data }],
        _ => Seq::empty(),
    }
}

/// The wire form of frames that follow each other.
pub open spec fn encode_frames(frames: Seq<Frame>) -> Seq<u8>
    decreases frames.len(),
{
    if frames.len() == 0 {
        Seq::empty()
    } else {
        encode_frame(frames[0]) + encode_frames(frames.skip(1))
    }
}

/// What frames carry of the handshake stream, in order.
pub open spec fn all_carried(frames: Seq<Frame>) -> Seq<CryptoPiece>
    decreases frames.len(),
{
    if frames.len() == 0 {
        Seq::empty()
    } else {
        carried(frames[0]) + all_carried(frames.skip(1))
    }
}

/// Reading over encoded integers ends right behind them.
pub proof fn lemma_skip_encoded(before: Seq<u8>, ints: Seq<Coded>, after: Seq<u8>)
    requires
        all_codable(ints),
    ensures
        skip_varints(before + encode_ints(ints) + after, before.len() as int, ints.len()) == (
        Skipped { offset: before.len() + encode_ints(ints).len() as int, outcome: Ok(()) }),
    decreases ints.len(),
{
    if ints.len() > 0 {
        let first = encode_int(ints[0]);
        let rest = ints.skip(1);
        assert(codable(ints[0]));
        assert forall|i: int| 0 <= i < rest.len() implies codable(#[trigger] rest[i]) by {
            assert(codable(ints[i + 1]));
        }
        varint::lemma_varint_round_trip(
            before,
            ints[0].value,
            ints[0].size,
            encode_ints(rest) + after,
        );
        lemma_skip_encoded(before + first, rest, after);
        assert(before + first + (encode_ints(rest) + after) =~= before + encode_ints(ints) + after);
        assert((before + first) + encode_ints(rest) + after =~= before + encode_ints(ints) + after);
    }
}

/// Reading integers in two goes is reading them in one.
proof fn lemma_skip_split(payload: Seq<u8>, i: int, a: nat, b: nat)
    ensures
        skip_varints(payload, i, a + b) == skip_more(payload, skip_varints(payload, i, a), b),
    decreases a,
{
    if a > 0 {
        if let Ok((_, n)) = varint::varint_at(payload, i) {
            lemma_skip_split(payload, i + n, (a - 1) as nat, b);
        }
    }
}

/// The frame that reading finds where a frame was encoded.
pub open spec fn found_frame(f: Frame, next: int) -> FrameAt {
    match f {
        Frame::Crypto { offset, data, .. } => FrameAt::Crypto(
            CryptoPiece { offset: offset.value, data },
            next,
        ),
        _ => FrameAt::Other(next),
    }
}

proof fn lemma_joined(
    a: Seq<u8>,
    b: Seq<u8>,
    c: Seq<u8>,
    d: Seq<u8>,
    e: Seq<u8>,
    f: Seq<u8>,
)
    ensures
        a + (b + c + d + e) + f == a + b + (c + d + e + f),
        a + (b + c + d + e) + f == (a + b) + c + (d + e + f),
        a + (b + c + d + e) + f == (a + b + c) + d + (e + f),
        a + (b + c + d + e) + f == (a + b + c + d) + e + f,
{
    assert(a + (b + c + d + e) + f =~= a + b + (c + d + e + f));
    assert(a + (b + c + d + e) + f =~= (a + b) + c + (d + e + f));
    assert(a + (b + c + d + e) + f =~= (a + b + c) + d + (e + f));
    assert(a + (b + c + d + e) + f =~= (a + b + c + d) + e + f);
}

proof fn lemma_ack_body(before: Seq<u8>, f: Frame, after: Seq<u8>)
    requires
        frame_valid(f),
        f is Ack,
    ensures
        skip_ack(
            before + encode_frame_body(f) + after,
            before.len() as int,
            frame_kind(f).value == 3,
        ) == (Skipped {
            offset: before.len() + encode_frame_body(f).len() as int,
            outcome: Ok(()),
        }),
{
    if let Frame::Ack { kind, head, count, ranges, ecn } = f {
        let h = encode_ints(head);
        let c = encode_int(count);
        let r = encode_ints(ranges);
        let e = encode_ints(ecn);
        let all = before + encode_frame_body(f) + after;
        lemma_joined(before, h, c, r, e, after);
        lemma_skip_encoded(before, head, c + r + e + after);
        varint::lemma_varint_round_trip(before + h, count.value, count.size, r + e + after);
        lemma_skip_encoded(before + h + c, ranges, e + after);
        lemma_skip_split(all, (before + h + c).len() as int, 1, 2 * count.value);
        lemma_skip_encoded(before + h + c + r, ecn, after);
    }
}

proof fn lemma_close_body(before: Seq<u8>, f: Frame, after: Seq<u8>)
    requires
        frame_valid(f),
        f is Close,
    ensures
        skip_close(before + encode_frame_body(f) + after, before.len() as int, f->Close_head.len())
            == (Skipped {
            offset: before.len() + encode_frame_body(f).len() as int,
            outcome: Ok(()),
        }),
{
    if let Frame::Close { kind, head, len, reason } = f {
        let h = encode_ints(head);
        let l = encode_int(len);
        let all = before + encode_frame_body(f) + after;
        assert(all =~= before + h + (l + reason + after));
        lemma_skip_encoded(before, head, l + reason + after);
        assert(all =~= (before + h) + l + (reason + after));
        varint::lemma_varint_round_trip(before + h, len.value, len.size, reason + after);
    }
}

proof fn lemma_crypto_body(before: Seq<u8>, f: Frame, after: Seq<u8>)
    requires
        frame_valid(f),
        f is Crypto,
    ensures
        crypto_at(before + encode_frame_body(f) + after, before.len() as int) == found_frame(
            f,
            before.len() + encode_frame_body(f).len() as int,
        ),
{
    if let Frame::Crypto { kind, offset, len, data } = f {
        let o = encode_int(offset);
        let l = encode_int(len);
        let all = before + encode_frame_body(f) + after;
        assert(all =~= before + o + (l + data + after));
        varint::lemma_varint_round_trip(before, offset.value, offset.size, l + data + after);
        assert(all =~= (before + o) + l + (data + after));
        varint::lemma_varint_round_trip(before + o, len.value, len.size, data + after);
        let start = (before + o + l).len() as int;
        assert(all.subrange(start, start + data.len()) =~= data);
    }
}

proof fn lemma_kind_of_frame(before: Seq<u8>, kind: Coded, body: Seq<u8>, after: Seq<u8>)
    requires
        codable(kind),
    ensures
        varint::varint_at(before + (encode_int(kind) + body) + after, before.len() as int) == Ok::<
            (nat, nat),
            QuicError,
        >((kind.value, encode_int(kind).len())),
        before + (encode_int(kind) + body) + after == (before + encode_int(kind)) + body + after,
        encode_int(kind).len() > 0,
{
    let k = encode_int(kind);
    varint::lemma_varint_round_trip(before, kind.value, kind.size, body + after);
    assert(before + (k + body) + after =~= before + k + (body + after));
    assert(before + (k + body) + after =~= (before + k) + body + after);
}

/// Reading finds an encoded frame, whatever stands around it.
pub proof fn lemma_frame_round_trip(before: Seq<u8>, f: Frame, after: Seq<u8>)
    requires
        frame_valid(f),
    ensures
        frame_at(before + encode_frame(f) + after, before.len() as int) == found_frame(
            f,
            before.len() + encode_frame(f).len() as int,
        ),
        encode_frame(f).len() > 0,
{
    let k = encode_int(frame_kind(f));
    lemma_kind_of_frame(before, frame_kind(f), encode_frame_body(f), after);
    match f {
        Frame::Plain { .. } => {},
        Frame::Ack { .. } => lemma_ack_body(before + k, f, after),
        Frame::Crypto { .. } => lemma_crypto_body(before + k, f, after),
        Frame::Close { .. } => lemma_close_body(before + k, f, after),
    }
}

/// Reading encoded frames gives exactly what they carry of the handshake
/// stream, in order.
pub proof fn lemma_frames_round_trip(before: Seq<u8>, frames: Seq<Frame>)
    requires
        forall|i: int| 0 <= i < frames.len() ==> frame_valid(#[trigger] frames[i]),
    ensures
        crypto_frames(before + encode_frames(frames), before.len() as int) == Ok::<
            Seq<CryptoPiece>,
            QuicError,
        >(all_carried(frames)),
    decreases frames.len(),
{
    let all = before + encode_frames(frames);
    if frames.len() > 0 {
        let f = frames[0];
        let rest = frames.skip(1);
        let one = encode_frame(f);
        assert(frame_valid(f));
        assert forall|i: int| 0 <= i < rest.len() implies frame_valid(#[trigger] rest[i]) by {
            assert(frame_valid(frames[i + 1]));
        }
        lemma_frame_round_trip(before, f, encode_frames(rest));
        assert(all =~= before + one + encode_frames(rest));
        lemma_frames_round_trip(before + one, rest);
        assert(Seq::<CryptoPiece>::empty() + all_carried(rest) =~= all_carried(rest));
    }
}

/// A frame of any other kind than padding, ping, the two acknowledgements,
/// CRYPTO and the two closes cannot be read, and neither can a frame whose kind
/// is cut off.
pub proof fn lemma_other_frames_are_refused(payload: Seq<u8>, i: int)
    ensures
        varint::varint_at(payload, i) matches Ok((kind, n)) ==> (kind != 0 && kind != 1 && kind != 2
            && kind != 3 && kind != 6 && kind != 0x1c && kind != 0x1d ==> frame_at(payload, i)
            == FrameAt::Bad(QuicError::UnexpectedFrame(kind as u64))),
        varint::varint_at(payload, i) matches Err(e) ==> frame_at(payload, i) == FrameAt::Bad(e),
{
}

/// One frame that cannot be read spoils all, however many frames that can be
/// read stand before it.
pub proof fn lemma_one_bad_frame_spoils_all(before: Seq<u8>, frames: Seq<Frame>, bad: Seq<u8>)
    requires
        forall|i: int| 0 <= i < frames.len() ==> frame_valid(#[trigger] frames[i]),
        bad.len() > 0,
        frame_at(
            before + encode_frames(frames) + bad,
            (before + encode_frames(frames)).len() as int,
        ) is Bad,
    ensures
        crypto_frames(before + encode_frames(frames) + bad, before.len() as int) is Err,
    decreases frames.len(),
{
    if frames.len() == 0 {
        assert(before + encode_frames(frames) =~= before);
    } else {
        let f = frames[0];
        let rest = frames.skip(1);
        assert(frame_valid(f));
        assert forall|i: int| 0 <= i < rest.len() implies frame_valid(#[trigger] rest[i]) by {
            assert(frame_valid(frames[i + 1]));
        }
        lemma_around(before, encode_frame(f), encode_frames(rest), bad);
        lemma_one_bad_frame_spoils_all(before + encode_frame(f), rest, bad);
        lemma_frame_first(before, f, encode_frames(rest) + bad);
    }
}

proof fn lemma_around(a: Seq<u8>, b: Seq<u8>, c: Seq<u8>, d: Seq<u8>)
    ensures
        a + (b + c) + d == a + b + (c + d),
        a + (b + c) + d == (a + b) + c + d,
        a + (b + c) == (a + b) + c,
{
    assert(a + (b + c) + d =~= a + b + (c + d));
    assert(a + (b + c) + d =~= (a + b) + c + d);
    assert(a + (b + c) =~= (a + b) + c);
}

/// Behind a frame, reading goes on with what follows it.
proof fn lemma_frame_first(before: Seq<u8>, f: Frame, after: Seq<u8>)
    requires
        frame_valid(f),
        crypto_frames(
            before + encode_frame(f) + after,
            (before + encode_frame(f)).len() as int,
        ) is Err,
    ensures
        crypto_frames(before + encode_frame(f) + after, before.len() as int) is Err,
{
    lemma_frame_round_trip(before, f, after);
}

/// A CRYPTO frame or a close whose data or reason reaches past the payload
/// cannot be read; one that does not can be, and ends behind it.
pub proof fn lemma_what_reaches_too_far_is_refused(payload: Seq<u8>, i: int, at: int)
    ensures
        varint::varint_at(payload, i) matches Ok((offset, n)) ==> (varint::varint_at(
            payload,
            i + n,
        ) matches Ok((len, k)) ==> (len <= usize::MAX ==> crypto_at(payload, i) == (
        if payload.len() < i + n + k + len {
            FrameAt::Bad(QuicError::TruncatedCrypto)
        } else {
            FrameAt::Crypto(
                CryptoPiece {
                    offset,
                    data: payload.subrange(i + n + k as int, i + n + k as int + len),
                },
                i + n + k + len as int,
            )
        }))),
        varint::varint_at(payload, i) matches Ok((_, n)) ==> (varint::varint_at(
            payload,
            i + n,
        ) matches Ok((len, k)) ==> (len <= usize::MAX ==> skip_close(payload, i, 1) == (
        if payload.len() < i + n + k + len {
            Skipped {
                offset: i + n + k as int,
                outcome: Err::<(), QuicError>(QuicError::TruncatedReason),
            }
        } else {
            Skipped { offset: i + n + k + len as int, outcome: Ok(()) }
        }))),
{
    reveal_with_fuel(skip_varints, 2);
}

/// Of integers that are to be read over, the first that cannot be read is where
/// reading stops.
pub proof fn lemma_unreadable_integer_stops(before: Seq<u8>, ints: Seq<Coded>, bad: Seq<u8>)
    requires
        all_codable(ints),
        varint::varint_at(
            before + encode_ints(ints) + bad,
            (before + encode_ints(ints)).len() as int,
        ) is Err,
    ensures
        skip_varints(
            before + encode_ints(ints) + bad,
            before.len() as int,
            ints.len() + 1,
        ).outcome is Err,
{
    lemma_skip_encoded(before, ints, bad);
    lemma_skip_split(before + encode_ints(ints) + bad, before.len() as int, ints.len(), 1);
    reveal_with_fuel(skip_varints, 2);
}

/// The pieces that are read are those in the payload, each with its offset and
/// all of its data, in order.
pub proof fn lemma_read_pieces_are_those_in_the_payload(
    payload: &[u8],
    r: Result<Vec<(u64, Vec<u8>)>, QuicError>,
)
    requires
        call_ensures(read_crypto_frames, (payload,), r),
    ensures
        match crypto_frames(payload@, 0) {
            Ok(pieces) => r matches Ok(read) && read.len() == pieces.len() && forall|i: int|
                0 <= i < read.len() ==> (#[trigger] read[i]).0 == pieces[i].offset && read[i].1@
                    == pieces[i].data,
            Err(e) => r matches Err(error) && error == e,
        },
{
    if let Ok(read) = r {
        assert forall|i: int| 0 <= i < read.len() implies pieces_view(read@)[i] == piece_view(
            #[trigger] read[i],
        ) by {}
    }
}

} // verus!
