//! Unsigned integers in network byte order.

use vstd::prelude::*;

verus! {

/// The two bytes of `s` at `i`, read as a big-endian number.
pub open spec fn be16(s: Seq<u8>, i: int) -> int {
    s[i] * 256 + s[i + 1]
}

/// The three bytes of `s` at `i`, read as a big-endian number.
pub open spec fn be24(s: Seq<u8>, i: int) -> int {
    s[i] * 65536 + s[i + 1] * 256 + s[i + 2]
}

/// The four bytes of `s` at `i`, read as a big-endian number.
pub open spec fn be32(s: Seq<u8>, i: int) -> int {
    s[i] * 16777216 + s[i + 1] * 65536 + s[i + 2] * 256 + s[i + 3]
}

/// The `width` low bytes of `n`, most significant byte first.
pub open spec fn to_be(n: nat, width: nat) -> Seq<u8>
    decreases width,
{
    if width == 0 {
        Seq::empty()
    } else {
        to_be(n / 256, (width - 1) as nat).push((n % 256) as u8)
    }
}

/// All of `s`, read as a big-endian number.
pub open spec fn be_nat(s: Seq<u8>) -> nat
    decreases s.len(),
{
    if s.len() == 0 {
        0
    } else {
        be_nat(s.drop_last()) * 256 + s.last() as nat
    }
}

/// 256 to the power `n`.
pub open spec fn pow256(n: nat) -> nat
    decreases n,
{
    if n == 0 {
        1
    } else {
        256 * pow256((n - 1) as nat)
    }
}

/// Reads the two bytes at `i` as a big-endian number.
pub fn read_be16(buf: &[u8], i: usize) -> (n: usize)
    requires
        i + 2 <= buf@.len(),
    ensures
        n == be16(buf@, i as int),
        n <= 0xffff,
{
    (buf[i] as usize) * 256 + (buf[i + 1] as usize)
}

/// Reads the three bytes at `i` as a big-endian number.
pub fn read_be24(buf: &[u8], i: usize) -> (n: usize)
    requires
        i + 3 <= buf@.len(),
    ensures
        n == be24(buf@, i as int),
        n <= 0xff_ffff,
{
    (buf[i] as usize) * 65536 + (buf[i + 1] as usize) * 256 + (buf[i + 2] as usize)
}

/// Reads the four bytes at `i` as a big-endian number.
pub fn read_be32(buf: &[u8], i: usize) -> (n: u32)
    requires
        i + 4 <= buf@.len(),
    ensures
        n == be32(buf@, i as int),
{
    (buf[i] as u32) * 16777216 + (buf[i + 1] as u32) * 65536 + (buf[i + 2] as u32) * 256 + (
    buf[i + 3] as u32)
}

/// Big-endian encoding has the asked width.
pub proof fn lemma_to_be_len(n: nat, width: nat)
    ensures
        to_be(n, width).len() == width,
    decreases width,
{
    if width > 0 {
        lemma_to_be_len(n / 256, (width - 1) as nat);
    }
}

/// Reading back a 16-bit number gives the number that was written.
pub proof fn lemma_be16_round_trip(n: nat)
    requires
        n <= 0xffff,
    ensures
        to_be(n, 2).len() == 2,
        be16(to_be(n, 2), 0) == n,
{
    reveal_with_fuel(to_be, 3);
    assert(to_be(n, 2) =~= seq![(n / 256 % 256) as u8, (n % 256) as u8]);
}

/// Reading back a 24-bit number gives the number that was written.
pub proof fn lemma_be24_round_trip(n: nat)
    requires
        n <= 0xff_ffff,
    ensures
        to_be(n, 3).len() == 3,
        be24(to_be(n, 3), 0) == n,
{
    reveal_with_fuel(to_be, 4);
    assert(to_be(n, 3) =~= seq![
        (n / 256 / 256 % 256) as u8,
        (n / 256 % 256) as u8,
        (n % 256) as u8,
    ]);
}

/// Reading back a 32-bit number gives the number that was written.
pub proof fn lemma_be32_round_trip(n: nat)
    requires
        n <= 0xffff_ffff,
    ensures
        to_be(n, 4).len() == 4,
        be32(to_be(n, 4), 0) == n,
{
    reveal_with_fuel(to_be, 5);
    assert(to_be(n, 4) =~= seq![
        (n / 256 / 256 / 256 % 256) as u8,
        (n / 256 / 256 % 256) as u8,
        (n / 256 % 256) as u8,
        (n % 256) as u8,
    ]);
}

/// A number of `s.len()` bytes is below the power of that length.
pub proof fn lemma_be_nat_bound(s: Seq<u8>)
    ensures
        be_nat(s) < pow256(s.len()),
    decreases s.len(),
{
    if s.len() > 0 {
        lemma_be_nat_bound(s.drop_last());
    }
}

/// Reading back a big-endian number gives the number that was written.
pub proof fn lemma_be_nat_round_trip(n: nat, width: nat)
    requires
        n < pow256(width),
    ensures
        to_be(n, width).len() == width,
        be_nat(to_be(n, width)) == n,
    decreases width,
{
    lemma_to_be_len(n, width);
    if width > 0 {
        lemma_be_nat_round_trip(n / 256, (width - 1) as nat);
        assert(to_be(n, width).drop_last() =~= to_be(n / 256, (width - 1) as nat));
    }
}

/// The weight of the first byte of a big-endian number.
pub proof fn lemma_be_nat_first(s: Seq<u8>)
    requires
        s.len() > 0,
    ensures
        be_nat(s) == s[0] * pow256((s.len() - 1) as nat) + be_nat(s.skip(1)),
    decreases s.len(),
{
    if s.len() == 1 {
        assert(s.drop_last() =~= Seq::<u8>::empty());
        assert(s.skip(1) =~= Seq::<u8>::empty());
        reveal_with_fuel(be_nat, 2);
        reveal_with_fuel(pow256, 2);
    } else {
        lemma_be_nat_first(s.drop_last());
        assert(s.drop_last().skip(1) =~= s.skip(1).drop_last());
        assert(s.skip(1).last() == s.last());
        let p = pow256((s.len() - 2) as nat);
        assert((s[0] * p) * 256 == s[0] * (256 * p)) by (nonlinear_arith);
        assert((s[0] * p + be_nat(s.skip(1).drop_last())) * 256 == (s[0] * p) * 256 + be_nat(
            s.skip(1).drop_last(),
        ) * 256) by (nonlinear_arith);
    }
}

} // verus!
