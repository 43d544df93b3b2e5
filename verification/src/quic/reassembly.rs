//! The handshake stream, put together from its pieces.

use std::collections::BTreeMap;
use vstd::prelude::*;
use vstd::slice::{slice_subrange, slice_to_vec};

use crate::bytes;
use crate::client_hello;
use crate::quic::error::QuicError;

verus! {

/// Pieces of the handshake stream, each by its offset in the stream.
#[derive(Debug)]
pub struct CryptoReassembly {
    fragments: BTreeMap<u64, Vec<u8>>,
}

impl View for CryptoReassembly {
    type V = Map<u64, Seq<u8>>;

    closed spec fn view(&self) -> Map<u64, Seq<u8>> {
        self.fragments@.map_values(|data: Vec<u8>| data@)
    }
}

/// Whether the piece at `offset` holds the byte at position `p`.
pub open spec fn covers(fragments: Map<u64, Seq<u8>>, offset: u64, p: int) -> bool {
    fragments.contains_key(offset) && offset <= p < offset + fragments[offset].len()
}

/// Whether `byte` is the byte at position `p`: that of the covering piece with
/// the lowest offset.
pub open spec fn holds_byte(fragments: Map<u64, Seq<u8>>, p: int, byte: u8) -> bool {
    exists|offset: u64|
        {
            &&& #[trigger] covers(fragments, offset, p)
            &&& forall|other: u64| #[trigger] covers(fragments, other, p) ==> offset <= other
            &&& byte == fragments[offset][p - offset]
        }
}

/// Whether `out` is the stream from its start up to the first position that no
/// piece covers.
pub open spec fn is_contiguous(fragments: Map<u64, Seq<u8>>, out: Seq<u8>) -> bool {
    &&& forall|p: int| 0 <= p < out.len() ==> holds_byte(fragments, p, #[trigger] out[p])
    &&& forall|offset: u64| !covers(fragments, offset, out.len() as int)
}

/// The stream from its start up to the first position that no piece covers.
pub open spec fn contiguous_bytes(fragments: Map<u64, Seq<u8>>) -> Seq<u8> {
    choose|out: Seq<u8>| is_contiguous(fragments, out)
}

/// The pieces with one more; an empty one is not kept.
pub open spec fn with_piece(fragments: Map<u64, Seq<u8>>, offset: u64, data: Seq<u8>) -> Map<
    u64,
    Seq<u8>,
> {
    if data.len() == 0 {
        fragments
    } else {
        fragments.insert(offset, data)
    }
}

/// The ClientHello at the start of a handshake stream, as far as the stream is
/// known: `None` while it is incomplete.
pub open spec fn leading_hello(stream: Seq<u8>) -> Result<Option<Seq<u8>>, QuicError> {
    if stream.len() < 4 {
        Ok(None)
    } else if stream[0] != 1 {
        Err(QuicError::NotClientHello(stream[0]))
    } else if stream.len() < 4 + bytes::be24(stream, 1) {
        Ok(None)
    } else {
        Ok(Some(stream.take(4 + bytes::be24(stream, 1))))
    }
}

/// There is only one such stream.
pub proof fn lemma_contiguous_unique(fragments: Map<u64, Seq<u8>>, a: Seq<u8>, b: Seq<u8>)
    requires
        is_contiguous(fragments, a),
        is_contiguous(fragments, b),
    ensures
        a == b,
{
    if a.len() < b.len() {
        assert(holds_byte(fragments, a.len() as int, b[a.len() as int]));
    } else if b.len() < a.len() {
        assert(holds_byte(fragments, b.len() as int, a[b.len() as int]));
    }
    assert forall|p: int| 0 <= p < a.len() implies a[p] == b[p] by {
        assert(holds_byte(fragments, p, a[p]));
        assert(holds_byte(fragments, p, b[p]));
    }
    assert(a =~= b);
}

impl Default for CryptoReassembly {
    /// No pieces yet.
    fn default() -> (r: CryptoReassembly)
        ensures
            r@ == Map::<u64, Seq<u8>>::empty(),
    {
        let r = CryptoReassembly { fragments: BTreeMap::new() };
        assert(r@ =~= Map::<u64, Seq<u8>>::empty());
        r
    }
}

impl CryptoReassembly {
    /// Keeps a piece. It takes the place of one with the same offset; an empty
    /// one is not kept.
    pub fn insert(&mut self, offset: u64, data: Vec<u8>)
        ensures
            final(self)@ == with_piece(old(self)@, offset, data@),
    {
        broadcast use vstd::laws_cmp::group_laws_cmp;

        if data.len() == 0 {
            return;
        }
        let ghost before = self@;
        let ghost piece = data@;
        self.fragments.insert(offset, data);
        assert(self@ =~= before.insert(offset, piece));
    }

    /// The bytes from the start of the stream up to the first gap.
    pub fn contiguous(&self) -> (out: Vec<u8>)
        ensures
            is_contiguous(self@, out@),
            out@ == contiguous_bytes(self@),
    {
        proof {
            lemma_offsets_are_keys();
        }
        let mut out: Vec<u8> = Vec::new();
        let ghost frags = self@;
        let entries = self.fragments.iter();
        proof {
            lemma_entries(self.fragments, vstd::std_specs::iter::IteratorSpec::remaining(&entries));
        }
        for (offset, data) in iter: entries
            invariant_except_break
                forall|j: int|
                    0 <= j < iter.index() ==> *(#[trigger] iter.seq()[j]).0
                        + iter.seq()[j].1@.len() <= out@.len(),
            invariant
                frags == self@,
                lists(frags, iter.seq()),
                forall|p: int| 0 <= p < out@.len() ==> holds_byte(frags, p, #[trigger] out@[p]),
            ensures
                forall|offset: u64| !covers(frags, offset, out@.len() as int),
        {
            if *offset > out.len() as u64 {
                break;
            }
            let start: usize = out.len() - *offset as usize;
            if start < data.len() {
                let ghost before = out@;
                out.extend_from_slice(slice_subrange(data.as_slice(), start, data.len()));
                assert forall|p: int| 0 <= p < out@.len() implies holds_byte(
                    frags,
                    p,
                    #[trigger] out@[p],
                ) by {
                    if p < before.len() {
                        assert(holds_byte(frags, p, before[p]));
                    } else {
                        assert(out@[p] == data@[p - *offset]);
                        assert(covers(frags, *offset, p));
                        assert forall|other: u64| #[trigger]
                            covers(frags, other, p) implies *offset <= other by {
                            let j = choose|j: int|
                                0 <= j < iter.seq().len() && *(#[trigger] iter.seq()[j]).0 == other;
                            assert(*iter.seq()[iter.index()].0 == *offset);
                        }
                    }
                }
            }
        }
        proof {
            assert(is_contiguous(self@, out@));
            lemma_contiguous_unique(self@, out@, contiguous_bytes(self@));
        }
        out
    }

    /// The ClientHello that the stream starts with; `None` while bytes of it
    /// are missing.
    pub fn clienthello(&self) -> (r: Result<Option<Vec<u8>>, QuicError>)
        ensures
            leading_hello(contiguous_bytes(self@)) == (match r {
                Ok(None) => Ok(None),
                Ok(Some(hello)) => Ok(Some(hello@)),
                Err(e) => Err(e),
            }),
    {
        let stream = self.contiguous();
        if stream.len() < 4 {
            return Ok(None);
        }
        if stream[0] != 1 {
            return Err(QuicError::NotClientHello(stream[0]));
        }
        let needed: usize = 4 + bytes::read_be24(stream.as_slice(), 1);
        if stream.len() < needed {
            return Ok(None);
        }
        let hello = slice_to_vec(slice_subrange(stream.as_slice(), 0, needed));
        assert(hello@ =~= stream@.take(needed as int));
        Ok(Some(hello))
    }
}

/// Whether `pairs` lists the pieces by increasing offset.
spec fn lists(fragments: Map<u64, Seq<u8>>, pairs: Seq<(&u64, &Vec<u8>)>) -> bool {
    &&& forall|i: int, j: int|
        0 <= i < j < pairs.len() ==> *(#[trigger] pairs[i]).0 < *(#[trigger] pairs[j]).0
    &&& forall|i: int|
        0 <= i < pairs.len() ==> fragments.contains_key(*(#[trigger] pairs[i]).0)
            && fragments[*pairs[i].0] == pairs[i].1@
    &&& forall|offset: u64| #[trigger]
        fragments.contains_key(offset) ==> exists|i: int|
            0 <= i < pairs.len() && *(#[trigger] pairs[i]).0 == offset
}

/// The entries of the map of pieces list the pieces.
proof fn lemma_entries(fragments: BTreeMap<u64, Vec<u8>>, pairs: Seq<(&u64, &Vec<u8>)>)
    requires
        pairs == vstd::std_specs::iter::IteratorSpec::remaining(
            &vstd::std_specs::btree::spec_btree_map_iter(&fragments),
        ),
        vstd::std_specs::btree::increasing_seq(
            pairs.map_values(|kv: (&u64, &Vec<u8>)| *kv.0),
        ),
    ensures
        lists(fragments@.map_values(|data: Vec<u8>| data@), pairs),
{
    broadcast use vstd::laws_cmp::group_laws_cmp;
    broadcast use vstd::std_specs::btree::group_btree_axioms;

    let offsets = pairs.map_values(|kv: (&u64, &Vec<u8>)| *kv.0);
    assert(vstd::laws_cmp::obeys_cmp::<u64>());
    assert forall|i: int, j: int| 0 <= i < j < pairs.len() implies *(#[trigger] pairs[i]).0
        < *(#[trigger] pairs[j]).0 by {
        assert(offsets[i] == *pairs[i].0 && offsets[j] == *pairs[j].0);
        assert(vstd::std_specs::cmp::OrdSpec::cmp_spec(&offsets[i], &offsets[j]) is Less);
    }
    assert forall|offset: u64| fragments@.contains_key(offset) implies exists|i: int|
        0 <= i < pairs.len() && *(#[trigger] pairs[i]).0 == offset by {
        assert(pairs.contains((&offset, &fragments@[offset])));
    }
}

/// Offsets are ordered as numbers.
proof fn lemma_offsets_are_keys()
    ensures
        vstd::std_specs::btree::key_obeys_cmp_spec::<u64>(),
{
    broadcast use vstd::laws_cmp::group_laws_cmp;
    broadcast use vstd::std_specs::btree::group_btree_axioms;

}

/// Whether every piece is what `stream` holds at the piece's offset.
pub open spec fn pieces_of(fragments: Map<u64, Seq<u8>>, stream: Seq<u8>) -> bool {
    forall|offset: u64| #[trigger]
        fragments.contains_key(offset) ==> offset + fragments[offset].len() <= stream.len()
            && fragments[offset] == stream.subrange(
            offset as int,
            offset + fragments[offset].len() as int,
        )
}

/// Whether some piece holds the byte at position `p`.
pub open spec fn covered(fragments: Map<u64, Seq<u8>>, p: int) -> bool {
    exists|offset: u64| #[trigger] covers(fragments, offset, p)
}

/// Whether the pieces hold the first `n` bytes of their stream.
pub open spec fn cover_start(fragments: Map<u64, Seq<u8>>, n: nat) -> bool {
    forall|p: int| 0 <= p < n ==> #[trigger] covered(fragments, p)
}

/// The first position from `p` up to `limit` that no piece covers.
spec fn first_gap(fragments: Map<u64, Seq<u8>>, p: int, limit: int) -> int
    decreases limit - p,
{
    if p >= limit || !covered(fragments, p) {
        p
    } else {
        first_gap(fragments, p + 1, limit)
    }
}

proof fn lemma_first_gap(fragments: Map<u64, Seq<u8>>, p: int, limit: int)
    requires
        p <= limit,
    ensures
        p <= first_gap(fragments, p, limit) <= limit,
        forall|q: int| p <= q < first_gap(fragments, p, limit) ==> #[trigger] covered(fragments, q),
        first_gap(fragments, p, limit) < limit ==> !covered(
            fragments,
            first_gap(fragments, p, limit),
        ),
    decreases limit - p,
{
    if p < limit && covered(fragments, p) {
        lemma_first_gap(fragments, p + 1, limit);
    }
}

/// Of the pieces that hold a byte, one has the lowest offset.
proof fn lemma_lowest(fragments: Map<u64, Seq<u8>>, p: int, offset: u64) -> (lowest: u64)
    requires
        covers(fragments, offset, p),
    ensures
        covers(fragments, lowest, p),
        forall|other: u64| #[trigger] covers(fragments, other, p) ==> lowest <= other,
    decreases offset,
{
    if exists|other: u64| #[trigger] covers(fragments, other, p) && other < offset {
        let other = choose|other: u64| #[trigger] covers(fragments, other, p) && other < offset;
        lemma_lowest(fragments, p, other)
    } else {
        offset
    }
}

/// Pieces of a stream can be put together.
pub proof fn lemma_contiguous_exists(fragments: Map<u64, Seq<u8>>, stream: Seq<u8>)
    requires
        pieces_of(fragments, stream),
    ensures
        is_contiguous(fragments, contiguous_bytes(fragments)),
{
    let n = first_gap(fragments, 0, stream.len() as int);
    lemma_first_gap(fragments, 0, stream.len() as int);
    let out = stream.take(n);
    assert forall|p: int| 0 <= p < out.len() implies holds_byte(
        fragments,
        p,
        #[trigger] out[p],
    ) by {
        assert(covered(fragments, p));
        let offset = choose|offset: u64| #[trigger] covers(fragments, offset, p);
        let lowest = lemma_lowest(fragments, p, offset);
        assert(fragments.contains_key(lowest));
        assert(covers(fragments, lowest, p) && out[p] == fragments[lowest][p - lowest]);
    }
    assert forall|offset: u64| !covers(fragments, offset, out.len() as int) by {
        if covers(fragments, offset, out.len() as int) {
            assert(fragments.contains_key(offset));
            assert(covered(fragments, n));
        }
    }
    assert(is_contiguous(fragments, out));
}

/// Putting together pieces of one stream gives a start of that stream, however
/// the pieces overlap. It reaches exactly as far as the pieces do without a
/// gap.
pub proof fn lemma_pieces_give_stream(fragments: Map<u64, Seq<u8>>, stream: Seq<u8>, n: nat)
    requires
        pieces_of(fragments, stream),
    ensures
        ({
            let out = contiguous_bytes(fragments);
            &&& out.len() <= stream.len()
            &&& out == stream.take(out.len() as int)
            &&& n <= out.len() <==> cover_start(fragments, n)
        }),
{
    let out = contiguous_bytes(fragments);
    lemma_contiguous_exists(fragments, stream);
    if out.len() > stream.len() {
        assert(holds_byte(fragments, stream.len() as int, out[stream.len() as int]));
    }
    assert forall|p: int| 0 <= p < out.len() implies out[p] == stream[p] by {
        assert(holds_byte(fragments, p, out[p]));
    }
    assert(out =~= stream.take(out.len() as int));
    if n <= out.len() {
        assert forall|p: int| 0 <= p < n implies #[trigger] covered(fragments, p) by {
            assert(holds_byte(fragments, p, out[p]));
        }
    } else if cover_start(fragments, n) {
        assert(covered(fragments, out.len() as int));
    }
}

/// Two pieces with different offsets may arrive in either order.
pub proof fn lemma_pieces_commute(
    fragments: Map<u64, Seq<u8>>,
    offset: u64,
    data: Seq<u8>,
    other_offset: u64,
    other_data: Seq<u8>,
)
    requires
        offset != other_offset,
    ensures
        with_piece(with_piece(fragments, offset, data), other_offset, other_data) == with_piece(
            with_piece(fragments, other_offset, other_data),
            offset,
            data,
        ),
{
    assert(with_piece(with_piece(fragments, offset, data), other_offset, other_data)
        =~= with_piece(with_piece(fragments, other_offset, other_data), offset, data));
}

/// A stream that starts with a ClientHello is found to do so once the whole
/// message has arrived, and not before.
pub proof fn lemma_hello_of_stream(body: Seq<u8>, rest: Seq<u8>, n: nat)
    requires
        body.len() <= 0xff_ffff,
        n <= client_hello::hello_message(body).len() + rest.len(),
    ensures
        leading_hello((client_hello::hello_message(body) + rest).take(n as int)) == (if n
            < client_hello::hello_message(body).len() {
            Ok::<Option<Seq<u8>>, QuicError>(None)
        } else {
            Ok(Some(client_hello::hello_message(body)))
        }),
{
    let message = client_hello::hello_message(body);
    let stream = (message + rest).take(n as int);
    bytes::lemma_be24_round_trip(body.len());
    let coded = bytes::to_be(body.len(), 3);
    if n >= 4 {
        assert(stream[0] == 1);
        assert(stream[1] == coded[0] && stream[2] == coded[1] && stream[3] == coded[2]);
        if n >= message.len() {
            assert(stream.take(message.len() as int) =~= message);
        }
    }
}

/// From pieces of a handshake stream that starts with a ClientHello, that
/// ClientHello is recovered exactly when the pieces hold all of it.
pub proof fn lemma_hello_of_pieces(fragments: Map<u64, Seq<u8>>, body: Seq<u8>, rest: Seq<u8>)
    requires
        body.len() <= 0xff_ffff,
        pieces_of(fragments, client_hello::hello_message(body) + rest),
    ensures
        leading_hello(contiguous_bytes(fragments)) == (if cover_start(
            fragments,
            client_hello::hello_message(body).len(),
        ) {
            Ok::<Option<Seq<u8>>, QuicError>(Some(client_hello::hello_message(body)))
        } else {
            Ok(None)
        }),
{
    let message = client_hello::hello_message(body);
    let stream = message + rest;
    lemma_pieces_give_stream(fragments, stream, message.len());
    lemma_hello_of_stream(body, rest, contiguous_bytes(fragments).len());
}

/// A piece that is not empty is known at its offset once it has come, in place
/// of what was known there; at any other offset nothing changes, and an empty
/// piece changes nothing.
pub proof fn lemma_latest_piece_counts(
    fragments: Map<u64, Seq<u8>>,
    offset: u64,
    data: Seq<u8>,
    other: u64,
)
    ensures
        ({
            let after = with_piece(fragments, offset, data);
            &&& data.len() > 0 ==> after.contains_key(offset) && after[offset] == data
            &&& data.len() == 0 || other != offset ==> {
                &&& after.contains_key(other) == fragments.contains_key(other)
                &&& fragments.contains_key(other) ==> after[other] == fragments[other]
            }
        }),
{
}

/// What is known of the stream from its start is not changed by a piece that
/// starts behind all others, whatever bytes it repeats; it can only get longer.
pub proof fn lemma_later_piece_changes_no_byte(
    fragments: Map<u64, Seq<u8>>,
    offset: u64,
    data: Seq<u8>,
    before: Seq<u8>,
    after: Seq<u8>,
)
    requires
        is_contiguous(fragments, before),
        is_contiguous(fragments.insert(offset, data), after),
        forall|other: u64| #[trigger] fragments.contains_key(other) ==> other < offset,
    ensures
        before.len() <= after.len(),
        after.take(before.len() as int) == before,
{
    let more = fragments.insert(offset, data);
    assert forall|p: int| 0 <= p < before.len() implies (p < after.len() ==> after[p]
        == before[p]) && covered(more, p) by {
        assert(holds_byte(fragments, p, before[p]));
        let low = choose|low: u64|
            {
                &&& #[trigger] covers(fragments, low, p)
                &&& forall|other: u64| #[trigger] covers(fragments, other, p) ==> low <= other
                &&& before[p] == fragments[low][p - low]
            };
        assert(covers(more, low, p));
        if p < after.len() {
            assert(holds_byte(more, p, after[p]));
            let least = choose|least: u64|
                {
                    &&& #[trigger] covers(more, least, p)
                    &&& forall|other: u64| #[trigger] covers(more, other, p) ==> least <= other
                    &&& after[p] == more[least][p - least]
                };
            assert(least <= low);
            assert(fragments.contains_key(low));
            assert(covers(fragments, least, p));
        }
    }
    if after.len() < before.len() {
        assert(covered(more, after.len() as int));
    }
    assert(after.take(before.len() as int) =~= before);
}

/// A handshake stream that starts with another message than a ClientHello is
/// refused as soon as four bytes of it are known.
pub proof fn lemma_other_message_is_refused(stream: Seq<u8>)
    ensures
        stream.len() >= 4 && stream[0] != 1 ==> leading_hello(stream) == Err::<
            Option<Seq<u8>>,
            QuicError,
        >(QuicError::NotClientHello(stream[0])),
        leading_hello(stream) is Err ==> stream.len() >= 4 && stream[0] != 1,
{
}

} // verus!
