//! What a proxied backend is sent ahead of the client's stream.

use vstd::prelude::*;

use crate::addr::SocketAddr;

verus! {

/// The decimal digits of a number, in ASCII.
pub open spec fn decimal(n: nat) -> Seq<u8>
    decreases n,
{
    if n < 10 {
        seq![(48 + n) as u8]
    } else {
        decimal(n / 10).push((48 + n % 10) as u8)
    }
}

/// The number that ASCII digits stand for.
pub open spec fn decimal_value(digits: Seq<u8>) -> nat
    decreases digits.len(),
{
    if digits.len() == 0 {
        0
    } else {
        decimal_value(digits.drop_last()) * 10 + (digits.last() - 48) as nat
    }
}

/// The port of an address.
pub open spec fn port_of(addr: SocketAddr) -> u16 {
    match addr {
        SocketAddr::V4 { port, .. } => port,
        SocketAddr::V6 { port, .. } => port,
    }
}

/// The ASCII bytes of `PROXY TCP4 ` or `PROXY TCP6 `, by the client's family.
pub open spec fn line_start(peer: SocketAddr) -> Seq<u8> {
    seq![
        80,
        82,
        79,
        88,
        89,
        32,
        84,
        67,
        80,
        match peer {
            SocketAddr::V4 { .. } => 52,
            SocketAddr::V6 { .. } => 54,
        },
        32,
    ]
}

/// The PROXY line for a client at `peer` that connected to `local`: the family,
/// the two addresses as texts, and the two ports.
pub open spec fn proxy_line_for(
    peer: SocketAddr,
    local: SocketAddr,
    src_addr: Seq<u8>,
    dst_addr: Seq<u8>,
) -> Seq<u8> {
    line_start(peer) + src_addr + seq![32u8] + dst_addr + seq![32u8] + decimal(
        port_of(peer) as nat,
    ) + seq![32u8] + decimal(port_of(local) as nat) + seq![13u8, 10u8]
}

/// Writes a number in decimal behind what is there.
fn push_decimal(out: &mut Vec<u8>, n: u16)
    ensures
        final(out)@ == old(out)@ + decimal(n as nat),
    decreases n,
{
    if n >= 10 {
        push_decimal(out, n / 10);
    }
    out.push(48 + (n % 10) as u8);
    assert(out@ =~= old(out)@ + decimal(n as nat));
}

fn port(addr: SocketAddr) -> (r: u16)
    ensures
        r == port_of(addr),
{
    match addr {
        SocketAddr::V4 { port, .. } => port,
        SocketAddr::V6 { port, .. } => port,
    }
}

/// Makes the PROXY line for a client. The addresses come as texts.
pub fn proxy_line(peer: SocketAddr, local: SocketAddr, src_addr: &str, dst_addr: &str) -> (r: Vec<
    u8,
>)
    ensures
        r@ == proxy_line_for(
            peer,
            local,
            vstd::utf8::encode_utf8(src_addr@),
            vstd::utf8::encode_utf8(dst_addr@),
        ),
{
    let family: u8 = match peer {
        SocketAddr::V4 { .. } => 52,
        SocketAddr::V6 { .. } => 54,
    };
    let mut line: Vec<u8> = vec![80, 82, 79, 88, 89, 32, 84, 67, 80, family, 32];
    assert(line@ =~= line_start(peer));
    let ghost src = vstd::utf8::encode_utf8(src_addr@);
    let ghost dst = vstd::utf8::encode_utf8(dst_addr@);
    line.extend_from_slice(src_addr.as_bytes());
    assert(line@ =~= line_start(peer) + src);
    line.push(32);
    assert(line@ =~= line_start(peer) + src + seq![32u8]);
    line.extend_from_slice(dst_addr.as_bytes());
    let ghost addrs = line_start(peer) + src + seq![32u8] + dst;
    assert(line@ =~= addrs);
    line.push(32);
    assert(line@ =~= addrs + seq![32u8]);
    push_decimal(&mut line, port(peer));
    line.push(32);
    push_decimal(&mut line, port(local));
    line.push(13);
    line.push(10);
    assert(line@ =~= addrs + seq![32u8] + decimal(port_of(peer) as nat) + seq![32u8] + decimal(
        port_of(local) as nat,
    ) + seq![13u8, 10u8]);
    line
}

/// What the backend is sent ahead of the client's stream: the PROXY line, if it
/// is to have one, and the bytes that were read from the client to route it.
pub fn preamble(line: Option<Vec<u8>>, bytes: &[u8]) -> (r: Vec<u8>)
    ensures
        r@ == (match line {
            Some(line) => line@ + bytes@,
            None => bytes@,
        }),
{
    let mut out: Vec<u8> = match line {
        Some(line) => line,
        None => Vec::new(),
    };
    let ghost before = out@;
    out.extend_from_slice(bytes);
    assert(out@ =~= before + bytes@);
    assert(line is None ==> out@ =~= bytes@);
    out
}

/// Decimal digits stand for the number that they were made from, they are
/// digits, and they start with a zero only for zero itself.
pub proof fn lemma_decimal_round_trip(n: nat)
    ensures
        decimal_value(decimal(n)) == n,
        decimal(n).len() > 0,
        forall|i: int| 0 <= i < decimal(n).len() ==> 48 <= #[trigger] decimal(n)[i] <= 57,
        n > 0 ==> decimal(n)[0] != 48,
    decreases n,
{
    if n < 10 {
        assert(decimal(n).drop_last() =~= Seq::<u8>::empty());
        reveal_with_fuel(decimal_value, 2);
    } else {
        lemma_decimal_round_trip(n / 10);
        assert(decimal(n).drop_last() =~= decimal(n / 10));
    }
}

/// The words of a line: what stands between its spaces (32).
pub open spec fn words(line: Seq<u8>) -> Seq<Seq<u8>>
    decreases line.len(),
{
    if line.len() == 0 {
        seq![Seq::empty()]
    } else {
        let before = words(line.drop_last());
        if line.last() == 32 {
            before.push(Seq::empty())
        } else {
            before.drop_last().push(before.last().push(line.last()))
        }
    }
}

/// Whether a text has no space in it.
pub open spec fn is_word(text: Seq<u8>) -> bool {
    forall|i: int| 0 <= i < text.len() ==> #[trigger] text[i] != 32
}

/// A word behind a space is the last word.
proof fn lemma_last_word(line: Seq<u8>, word: Seq<u8>)
    requires
        is_word(word),
    ensures
        words(line + seq![32u8] + word) == words(line).push(word),
        words(word) == seq![word],
    decreases word.len(),
{
    if word.len() == 0 {
        assert(line + seq![32u8] + word =~= line.push(32));
        assert(line.push(32).drop_last() =~= line);
        assert(word =~= Seq::<u8>::empty());
    } else {
        let start = word.drop_last();
        assert forall|i: int| 0 <= i < start.len() implies #[trigger] start[i] != 32 by {
            assert(start[i] == word[i]);
        }
        lemma_last_word(line, start);
        let all = line + seq![32u8] + word;
        assert(all.drop_last() =~= line + seq![32u8] + start);
        assert(start.push(word.last()) =~= word);
        assert(words(all) =~= words(line).push(word));
        assert(words(word) =~= seq![word]);
    }
}

/// A PROXY line can be read back. For a client of either family, with addresses
/// that hold no space, the words of the line are `PROXY`, `TCP4` or `TCP6` by
/// the client's family, the client's address, the local address, the client's
/// port and the local port, in this order; behind them the line ends.
pub proof fn lemma_line_reads_back(
    peer: SocketAddr,
    local: SocketAddr,
    src_addr: Seq<u8>,
    dst_addr: Seq<u8>,
)
    requires
        is_word(src_addr),
        is_word(dst_addr),
    ensures
        ({
            let line = proxy_line_for(peer, local, src_addr, dst_addr);
            let read = words(line.take(line.len() - 2));
            &&& line.skip(line.len() - 2) == seq![13u8, 10]
            &&& read.len() == 6
            &&& read[0] == seq![80u8, 82, 79, 88, 89]
            &&& peer is V4 ==> read[1] == seq![84u8, 67, 80, 52]
            &&& peer is V6 ==> read[1] == seq![84u8, 67, 80, 54]
            &&& read[2] == src_addr
            &&& read[3] == dst_addr
            &&& is_port(read[4], match peer {
                SocketAddr::V4 { port, .. } => port,
                SocketAddr::V6 { port, .. } => port,
            })
            &&& is_port(read[5], match local {
                SocketAddr::V4 { port, .. } => port,
                SocketAddr::V6 { port, .. } => port,
            })
        }),
{
    let proxy = seq![80u8, 82, 79, 88, 89];
    let family = seq![84u8, 67, 80, if peer is V4 {
        52u8
    } else {
        54u8
    }];
    let a = decimal(port_of(peer) as nat);
    let b = decimal(port_of(local) as nat);
    lemma_decimal_round_trip(port_of(peer) as nat);
    lemma_decimal_round_trip(port_of(local) as nat);
    let sp = seq![32u8];
    let two = proxy + sp + family;
    let three = two + sp + src_addr;
    let four = three + sp + dst_addr;
    let five = four + sp + a;
    let six = five + sp + b;
    lemma_last_word(Seq::empty(), proxy);
    lemma_last_word(proxy, family);
    lemma_last_word(two, src_addr);
    lemma_last_word(three, dst_addr);
    lemma_last_word(four, a);
    lemma_last_word(five, b);
    let line = proxy_line_for(peer, local, src_addr, dst_addr);
    assert(line_start(peer) =~= two + sp);
    assert(line =~= six + seq![13u8, 10]);
    assert(line.take(line.len() - 2) =~= six);
    assert(line.skip(line.len() - 2) =~= seq![13u8, 10]);
}

/// Whether a text is a port in decimal: digits without a leading zero that stand
/// for it.
pub open spec fn is_port(text: Seq<u8>, port: u16) -> bool {
    &&& text.len() > 0
    &&& forall|i: int| 0 <= i < text.len() ==> 48 <= #[trigger] text[i] <= 57
    &&& port > 0 ==> text[0] != 48
    &&& decimal_value(text) == port
}

/// What a backend is sent first starts with the PROXY line, if there is one, and
/// ends with all bytes that were read from the client; nothing else is in it.
pub proof fn lemma_preamble_holds_all(line: Option<Vec<u8>>, bytes: &[u8], sent: Vec<u8>)
    requires
        call_ensures(preamble, (line, bytes), sent),
    ensures
        ({
            let n = sent@.len() - bytes@.len();
            &&& n >= 0
            &&& sent@.skip(n) == bytes@
            &&& line is None ==> n == 0
            &&& line matches Some(line) ==> sent@.take(n) == line@
        }),
{
    let n = sent@.len() - bytes@.len();
    assert(sent@.skip(n) =~= bytes@);
    if let Some(line) = line {
        assert(sent@.take(n) =~= line@);
    }
}

/// The line that is made for a client, with addresses whose texts hold no space,
/// can be read back, as [`lemma_line_reads_back`] says.
pub proof fn lemma_made_line_reads_back(
    peer: SocketAddr,
    local: SocketAddr,
    src_addr: &str,
    dst_addr: &str,
    line: Vec<u8>,
)
    requires
        call_ensures(proxy_line, (peer, local, src_addr, dst_addr), line),
        is_word(vstd::utf8::encode_utf8(src_addr@)),
        is_word(vstd::utf8::encode_utf8(dst_addr@)),
    ensures
        ({
            let read = words(line@.take(line@.len() - 2));
            &&& line@.skip(line@.len() - 2) == seq![13u8, 10]
            &&& read.len() == 6
            &&& read[0] == seq![80u8, 82, 79, 88, 89]
            &&& peer is V4 ==> read[1] == seq![84u8, 67, 80, 52]
            &&& peer is V6 ==> read[1] == seq![84u8, 67, 80, 54]
            &&& read[2] == vstd::utf8::encode_utf8(src_addr@)
            &&& read[3] == vstd::utf8::encode_utf8(dst_addr@)
            &&& is_port(read[4], match peer {
                SocketAddr::V4 { port, .. } => port,
                SocketAddr::V6 { port, .. } => port,
            })
            &&& is_port(read[5], match local {
                SocketAddr::V4 { port, .. } => port,
                SocketAddr::V6 { port, .. } => port,
            })
        }),
{
    lemma_line_reads_back(
        peer,
        local,
        vstd::utf8::encode_utf8(src_addr@),
        vstd::utf8::encode_utf8(dst_addr@),
    );
}

} // verus!
