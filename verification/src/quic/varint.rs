//! Variable-length integers.

use vstd::prelude::*;

use crate::bytes;
use crate::quic::error::QuicError;

verus! {

/// How many bytes an integer takes: the two high bits of its first byte say so.
pub open spec fn varint_len(first: u8) -> nat {
    if first < 64 {
        1
    } else if first < 128 {
        2
    } else if first < 192 {
        4
    } else {
        8
    }
}

/// The integer at `i` in `s` and the number of bytes that it takes. Its value
/// is the big-endian number without the two high bits.
pub open spec fn varint_at(s: Seq<u8>, i: int) -> Result<(nat, nat), QuicError> {
    if i >= s.len() {
        Err(QuicError::MissingVarint)
    } else if s.len() < i + varint_len(s[i]) {
        Err(QuicError::TruncatedVarint)
    } else {
        let len = varint_len(s[i]);
        Ok((bytes::be_nat(s.subrange(i, i + len).update(0, (s[i] % 64) as u8)), len))
    }
}

/// The first integer value that no encoding can hold.
pub open spec fn varint_limit() -> nat {
    0x4000_0000_0000_0000
}

/// Reads the integer at `offset`; returns it with the number of bytes it takes.
pub fn read_varint_at(buf: &[u8], offset: usize) -> (r: Result<(u64, usize), QuicError>)
    ensures
        match r {
            Ok((value, len)) => varint_at(buf@, offset as int) == Ok::<(nat, nat), QuicError>(
                (value as nat, len as nat),
            ),
            Err(e) => varint_at(buf@, offset as int) == Err::<(nat, nat), QuicError>(e),
        },
        r matches Ok((value, len)) ==> value < varint_limit() && 1 <= len <= 8 && offset + len
            <= buf@.len(),
{
    if offset >= buf.len() {
        return Err(QuicError::MissingVarint);
    }
    let first: u8 = buf[offset];
    let len: usize = if first < 64 {
        1
    } else if first < 128 {
        2
    } else if first < 192 {
        4
    } else {
        8
    };
    if buf.len() - offset < len {
        return Err(QuicError::TruncatedVarint);
    }
    let ghost encoded = buf@.subrange(offset as int, offset + len).update(0, (first % 64) as u8);
    let mut value: u64 = (first % 64) as u64;
    let mut k: usize = 1;
    proof {
        reveal_with_fuel(bytes::be_nat, 2);
        reveal_with_fuel(bytes::pow256, 9);
        assert(encoded.take(1).drop_last() =~= Seq::<u8>::empty());
    }
    while k < len
        invariant
            1 <= k <= len <= 8,
            offset + len <= buf.len(),
            encoded == buf@.subrange(offset as int, offset + len).update(0, (first % 64) as u8),
            value == bytes::be_nat(encoded.take(k as int)),
            value < 64 * bytes::pow256((k - 1) as nat),
        decreases len - k,
    {
        proof {
            reveal_with_fuel(bytes::pow256, 8);
            assert(encoded.take(k + 1).drop_last() =~= encoded.take(k as int));
            assert(encoded.take(k + 1).last() == buf@[offset + k]);
        }
        value = value * 256 + buf[offset + k] as u64;
        k = k + 1;
    }
    assert(encoded.take(len as int) =~= encoded);
    proof {
        reveal_with_fuel(bytes::pow256, 8);
    }
    Ok((value, len))
}

/// Reads the integer at `*offset` and moves `*offset` behind it. A failed read
/// leaves `*offset` as it was.
pub fn read_varint(buf: &[u8], offset: &mut usize) -> (r: Result<u64, QuicError>)
    ensures
        match r {
            Ok(value) => varint_at(buf@, *old(offset) as int) == Ok::<(nat, nat), QuicError>(
                (value as nat, (*final(offset) - *old(offset)) as nat),
            ),
            Err(e) => varint_at(buf@, *old(offset) as int) == Err::<(nat, nat), QuicError>(e)
                && *final(offset) == *old(offset),
        },
        r matches Ok(value) ==> value < varint_limit() && *old(offset) < *final(offset)
            <= buf@.len(),
{
    match read_varint_at(buf, *offset) {
        Ok((value, len)) => {
            assert(*offset + len <= buf.len());
            *offset = *offset + len;
            Ok(value)
        },
        Err(e) => Err(e),
    }
}

/// The encoding of `value` in one, two, four or eight bytes, which `size` (0 to
/// 3) picks.
pub open spec fn encode_varint(value: nat, size: nat) -> Seq<u8> {
    let plain = bytes::to_be(value, varint_width(size));
    plain.update(0, (plain[0] + 64 * size) as u8)
}

/// The number of bytes that the size `size` stands for.
pub open spec fn varint_width(size: nat) -> nat {
    if size == 0 {
        1
    } else if size == 1 {
        2
    } else if size == 2 {
        4
    } else {
        8
    }
}

/// Whether `value` can be encoded with the size `size`.
pub open spec fn fits_varint(value: nat, size: nat) -> bool {
    size <= 3 && value < 64 * bytes::pow256((varint_width(size) - 1) as nat)
}

/// Reading an encoded integer gives its value, whatever size was picked and
/// whatever stands around it.
pub proof fn lemma_varint_round_trip(before: Seq<u8>, value: nat, size: nat, after: Seq<u8>)
    requires
        fits_varint(value, size),
    ensures
        encode_varint(value, size).len() == varint_width(size),
        varint_at(before + encode_varint(value, size) + after, before.len() as int) == Ok::<
            (nat, nat),
            QuicError,
        >((value, varint_width(size))),
{
    let width = varint_width(size);
    let plain = bytes::to_be(value, width);
    let coded = encode_varint(value, size);
    let all = before + coded + after;
    let i = before.len() as int;
    reveal_with_fuel(bytes::pow256, 9);
    bytes::lemma_be_nat_round_trip(value, width);
    bytes::lemma_be_nat_first(plain);
    let p = bytes::pow256((width - 1) as nat);
    assert(plain[0] < 64) by (nonlinear_arith)
        requires
            plain[0] * p <= value,
            value < 64 * p,
            p > 0,
    ;
    assert(all[i] == coded[0]);
    assert(all[i] % 64 == plain[0]);
    assert(varint_len(all[i]) == width);
    assert(all.subrange(i, i + width).update(0, (all[i] % 64) as u8) =~= plain);
}

/// An integer takes one, two, four or eight bytes, by the two high bits of its
/// first byte, and its value is that of the other bits, most significant first.
/// It cannot be read where it does not end within what is there.
pub proof fn lemma_varint_by_its_bytes(s: Seq<u8>, i: int)
    requires
        0 <= i,
    ensures
        i >= s.len() ==> varint_at(s, i) == Err::<(nat, nat), QuicError>(QuicError::MissingVarint),
        i < s.len() && s[i] / 64 == 0 ==> varint_at(s, i) == Ok::<(nat, nat), QuicError>(
            (s[i] as nat, 1),
        ),
        i < s.len() && s[i] / 64 == 1 ==> varint_at(s, i) == (if s.len() < i + 2 {
            Err(QuicError::TruncatedVarint)
        } else {
            Ok::<(nat, nat), QuicError>((((s[i] % 64) * 256 + s[i + 1]) as nat, 2))
        }),
        i < s.len() && s[i] / 64 == 2 ==> varint_at(s, i) == (if s.len() < i + 4 {
            Err(QuicError::TruncatedVarint)
        } else {
            Ok::<(nat, nat), QuicError>(
                (
                    ((s[i] % 64) * 0x100_0000 + s[i + 1] * 0x1_0000 + s[i + 2] * 0x100 + s[i
                        + 3]) as nat,
                    4,
                ),
            )
        }),
        i < s.len() && s[i] / 64 == 3 ==> varint_at(s, i) == (if s.len() < i + 8 {
            Err(QuicError::TruncatedVarint)
        } else {
            Ok::<(nat, nat), QuicError>(
                (
                    ((s[i] % 64) * 0x100_0000_0000_0000 + s[i + 1] * 0x1_0000_0000_0000 + s[i + 2]
                        * 0x100_0000_0000 + s[i + 3] * 0x1_0000_0000 + s[i + 4] * 0x100_0000 + s[i
                        + 5] * 0x1_0000 + s[i + 6] * 0x100 + s[i + 7]) as nat,
                    8,
                ),
            )
        }),
{
    if i < s.len() && s.len() >= i + varint_len(s[i]) {
        let len = varint_len(s[i]);
        let coded = s.subrange(i, i + len).update(0, (s[i] % 64) as u8);
        lemma_be_nat_of_eight(coded);
    }
}

/// The weights of the bytes of a big-endian number of one, two, four or eight
/// bytes.
proof fn lemma_be_nat_of_eight(c: Seq<u8>)
    ensures
        c.len() == 1 ==> bytes::be_nat(c) == c[0],
        c.len() == 2 ==> bytes::be_nat(c) == c[0] * 256 + c[1],
        c.len() == 4 ==> bytes::be_nat(c) == c[0] * 0x100_0000 + c[1] * 0x1_0000 + c[2] * 0x100
            + c[3],
        c.len() == 8 ==> bytes::be_nat(c) == c[0] * 0x100_0000_0000_0000 + c[1] * 0x1_0000_0000_0000
            + c[2] * 0x100_0000_0000 + c[3] * 0x1_0000_0000 + c[4] * 0x100_0000 + c[5] * 0x1_0000
            + c[6] * 0x100 + c[7],
{
    reveal_with_fuel(bytes::be_nat, 9);
}

} // verus!
