//! Reading a ClientHello out of TLS records.

use vstd::prelude::*;

use crate::bytes;
use crate::client_hello;

verus! {

/// The length of a TLS record's header.
pub const RECORD_HEADER_LEN: usize = 5;

/// Why a stream does not start with a ClientHello.
#[derive(Clone, Copy, Debug, PartialEq, Eq, Structural)]
pub enum HelloError {
    /// A record is of another type than handshake (22).
    ContentType(u8),
    /// A record is empty.
    EmptyRecord,
    /// The first handshake message is of another type than ClientHello (1).
    MessageType(u8),
}

/// What reading a stream from its start has come to.
pub enum Scan {
    /// All bytes are read, and `want` more are needed to go on.
    More { want: nat },
    /// Reading stopped behind the first `consumed` bytes.
    Stop { consumed: nat, hello: Result<Seq<u8>, HelloError> },
}

/// What the handshake bytes read so far amount to: a whole ClientHello, an
/// error, or `None` while more are needed.
pub open spec fn hello_in(hello: Seq<u8>) -> Option<Result<Seq<u8>, HelloError>> {
    if hello.len() < 4 {
        None
    } else if hello[0] != 1 {
        Some(Err(HelloError::MessageType(hello[0])))
    } else if hello.len() < 4 + bytes::be24(hello, 1) {
        None
    } else {
        Some(Ok(hello.take(4 + bytes::be24(hello, 1))))
    }
}

/// Reads records from `pos` on; `hello` holds the handshake bytes of those
/// before.
pub open spec fn scan(stream: Seq<u8>, pos: int, hello: Seq<u8>) -> Scan
    decreases stream.len() - pos,
{
    if stream.len() < pos + RECORD_HEADER_LEN {
        Scan::More { want: (pos + RECORD_HEADER_LEN - stream.len()) as nat }
    } else if stream[pos] != 22 {
        Scan::Stop {
            consumed: (pos + RECORD_HEADER_LEN) as nat,
            hello: Err(HelloError::ContentType(stream[pos])),
        }
    } else {
        let payload = pos + RECORD_HEADER_LEN;
        let end = payload + bytes::be16(stream, pos + 3);
        if end == payload {
            Scan::Stop { consumed: payload as nat, hello: Err(HelloError::EmptyRecord) }
        } else if stream.len() < end {
            Scan::More { want: (end - stream.len()) as nat }
        } else {
            let read = hello + stream.subrange(payload, end);
            match hello_in(read) {
                Some(outcome) => Scan::Stop { consumed: end as nat, hello: outcome },
                None => scan(stream, end, read),
            }
        }
    }
}

/// Reads a stream from its start.
pub open spec fn scan_stream(stream: Seq<u8>) -> Scan {
    scan(stream, 0, Seq::empty())
}

/// What a fed reader has come to.
#[derive(Debug)]
pub enum Progress {
    /// More bytes are needed.
    More,
    /// The stream starts with this ClientHello, or with none.
    Done(Result<Vec<u8>, HelloError>),
}

/// Reads a stream until it has a whole ClientHello, asking for exactly as many
/// bytes as it needs to go on.
#[derive(Debug)]
pub struct HelloReader {
    /// All bytes read.
    bytes: Vec<u8>,
    /// The handshake bytes of all whole records.
    hello: Vec<u8>,
    /// How many bytes of a record's payload come next; 0 for a header.
    payload: usize,
}

impl HelloReader {
    /// All bytes read so far.
    pub closed spec fn read(self) -> Seq<u8> {
        self.bytes@
    }

    /// How many bytes are needed to go on.
    pub closed spec fn want(self) -> nat {
        if self.payload == 0 {
            RECORD_HEADER_LEN as nat
        } else {
            self.payload as nat
        }
    }

    /// Whether the reader waits for a header, or for the payload of a record
    /// whose header was read last.
    pub closed spec fn wf(self) -> bool {
        let len = self.bytes@.len() as int;
        &&& self.payload <= 0xffff
        &&& hello_in(self.hello@) is None
        &&& if self.payload == 0 {
            scans_on(self.bytes@, len, self.hello@)
        } else {
            &&& len >= RECORD_HEADER_LEN
            &&& self.bytes@[len - 5] == 22
            &&& bytes::be16(self.bytes@, len - 2) == self.payload
            &&& scans_on(self.bytes@, len - 5, self.hello@)
        }
    }
}

/// Whether reading any continuation of `read` comes to `pos` with the handshake
/// bytes `hello`.
spec fn scans_on(read: Seq<u8>, pos: int, hello: Seq<u8>) -> bool {
    &&& 0 <= pos <= read.len()
    &&& forall|more: Seq<u8>| #[trigger]
        scan_stream(read + more) == scan(read + more, pos, hello)
}

proof fn lemma_scans_on(read: Seq<u8>, more: Seq<u8>, pos: int, hello: Seq<u8>)
    requires
        scans_on(read, pos, hello),
    ensures
        scans_on(read + more, pos, hello),
{
    assert forall|rest: Seq<u8>| #[trigger]
        scan_stream((read + more) + rest) == scan((read + more) + rest, pos, hello) by {
        assert((read + more) + rest =~= read + (more + rest));
    }
}

proof fn lemma_scans_on_itself(read: Seq<u8>, pos: int, hello: Seq<u8>)
    requires
        scans_on(read, pos, hello),
    ensures
        scan_stream(read) == scan(read, pos, hello),
{
    assert(read + Seq::<u8>::empty() =~= read);
}

impl HelloReader {
    /// A reader that has read nothing.
    pub fn new() -> (r: HelloReader)
        ensures
            r.wf(),
            r.read() == Seq::<u8>::empty(),
            r.want() == RECORD_HEADER_LEN,
    {
        let r = HelloReader { bytes: Vec::new(), hello: Vec::new(), payload: 0 };
        assert(r.hello@ =~= Seq::<u8>::empty());
        assert(r.bytes@ =~= Seq::<u8>::empty());
        r
    }

    /// How many bytes to read next.
    pub fn wanted(&self) -> (n: usize)
        ensures
            n == self.want(),
            self.wf() ==> n > 0 && scan_stream(self.read()) == (Scan::More { want: n as nat }),
    {
        proof {
            if self.wf() {
                self.lemma_want();
            }
        }
        if self.payload == 0 {
            RECORD_HEADER_LEN
        } else {
            self.payload
        }
    }

    proof fn lemma_want(self)
        requires
            self.wf(),
        ensures
            scan_stream(self.read()) == (Scan::More { want: self.want() }),
    {
        let len = self.bytes@.len() as int;
        if self.payload == 0 {
            lemma_scans_on_itself(self.bytes@, len, self.hello@);
        } else {
            lemma_scans_on_itself(self.bytes@, len - 5, self.hello@);
        }
    }

    /// All bytes read, to be passed on to the backend.
    pub fn into_bytes(self) -> (r: Vec<u8>)
        ensures
            r@ == self.read(),
    {
        self.bytes
    }

    /// Takes the bytes that were wanted.
    pub fn feed(&mut self, chunk: &[u8]) -> (r: Progress)
        requires
            old(self).wf(),
            chunk@.len() == old(self).want(),
        ensures
            final(self).read() == old(self).read() + chunk@,
            match r {
                Progress::More => final(self).wf() && scan_stream(final(self).read()) == (
                Scan::More { want: final(self).want() }),
                Progress::Done(hello) => scan_stream(final(self).read()) == (Scan::Stop {
                    consumed: final(self).read().len(),
                    hello: match hello {
                        Ok(hello) => Ok(hello@),
                        Err(e) => Err(e),
                    },
                }),
            },
    {
        let ghost before = self.bytes@;
        let ghost len = self.bytes@.len() as int;
        self.bytes.extend_from_slice(chunk);
        assert(self.bytes@ =~= before + chunk@);
        if self.payload == 0 {
            proof {
                lemma_scans_on(before, chunk@, len, self.hello@);
                lemma_scans_on_itself(self.bytes@, len, self.hello@);
                assert(self.bytes@[len] == chunk@[0]);
            }
            if chunk[0] != 22 {
                return Progress::Done(Err(HelloError::ContentType(chunk[0])));
            }
            let payload: usize = bytes::read_be16(chunk, 3);
            assert(bytes::be16(self.bytes@, len + 3) == payload);
            if payload == 0 {
                return Progress::Done(Err(HelloError::EmptyRecord));
            }
            self.payload = payload;
            proof {
                self.lemma_want();
            }
            return Progress::More;
        }
        let ghost read = self.hello@;
        self.hello.extend_from_slice(chunk);
        proof {
            let pos = len - 5;
            lemma_scans_on(before, chunk@, pos, read);
            lemma_scans_on_itself(self.bytes@, pos, read);
            assert(self.hello@ =~= read + chunk@);
            assert(self.bytes@.subrange(len, len + self.payload) =~= chunk@);
            assert(self.bytes@[pos] == 22);
            assert(bytes::be16(self.bytes@, pos + 3) == self.payload);
        }
        if self.hello.len() >= 4 {
            if self.hello[0] != 1 {
                return Progress::Done(Err(HelloError::MessageType(self.hello[0])));
            }
            let needed: usize = 4 + bytes::read_be24(self.hello.as_slice(), 1);
            if self.hello.len() >= needed {
                let hello = vstd::slice::slice_to_vec(
                    vstd::slice::slice_subrange(self.hello.as_slice(), 0, needed),
                );
                assert(hello@ =~= self.hello@.take(needed as int));
                return Progress::Done(Ok(hello));
            }
        }
        proof {
            let pos = len - 5;
            let end = len + self.payload;
            assert forall|more: Seq<u8>| #[trigger]
                scan_stream(self.bytes@ + more) == scan(self.bytes@ + more, end, self.hello@) by {
                let all = self.bytes@ + more;
                assert(scan_stream(all) == scan(all, pos, read));
                assert(all[pos] == 22);
                assert(bytes::be16(all, pos + 3) == self.payload);
                assert(all.subrange(len, end) =~= chunk@);
            }
        }
        self.payload = 0;
        proof {
            self.lemma_want();
        }
        Progress::More
    }
}

/// Where reading stopped, it stops on any longer stream too, with the same
/// outcome: no byte behind the consumed ones matters.
pub proof fn lemma_scan_stops_for_good(stream: Seq<u8>, more: Seq<u8>, pos: int, hello: Seq<u8>)
    requires
        0 <= pos <= stream.len(),
        scan(stream, pos, hello) is Stop,
    ensures
        scan(stream + more, pos, hello) == scan(stream, pos, hello),
        scan(stream, pos, hello)->consumed <= stream.len(),
    decreases stream.len() - pos,
{
    let all = stream + more;
    assert(all[pos] == stream[pos]);
    let payload = pos + RECORD_HEADER_LEN;
    let end = payload + bytes::be16(stream, pos + 3);
    assert(bytes::be16(all, pos + 3) == bytes::be16(stream, pos + 3));
    if stream[pos] == 22 && end != payload {
        assert(all.subrange(payload, end) =~= stream.subrange(payload, end));
        let read = hello + stream.subrange(payload, end);
        if hello_in(read) is None {
            lemma_scan_stops_for_good(stream, more, end, read);
        }
    }
}

proof fn lemma_scan_of_consumed(stream: Seq<u8>, pos: int, hello: Seq<u8>)
    requires
        0 <= pos <= stream.len(),
        scan(stream, pos, hello) is Stop,
    ensures
        pos <= scan(stream, pos, hello)->consumed <= stream.len(),
        scan(stream.take(scan(stream, pos, hello)->consumed as int), pos, hello) == scan(
            stream,
            pos,
            hello,
        ),
    decreases stream.len() - pos,
{
    let payload = pos + RECORD_HEADER_LEN;
    let end = payload + bytes::be16(stream, pos + 3);
    if stream[pos] == 22 && end != payload {
        let read = hello + stream.subrange(payload, end);
        if hello_in(read) is None {
            lemma_scan_of_consumed(stream, end, read);
        }
        let consumed = scan(stream, pos, hello)->consumed as int;
        assert(stream.take(consumed).subrange(payload, end) =~= stream.subrange(payload, end));
    }
}

/// A router that is handed a client's socket, with the bytes that were read
/// from it, reads the same ClientHello again, whatever follows on the socket.
pub proof fn lemma_handed_over_reads_the_same(stream: Seq<u8>, more: Seq<u8>)
    requires
        scan_stream(stream) is Stop,
    ensures
        scan_stream(stream.take(scan_stream(stream)->consumed as int) + more) == scan_stream(
            stream,
        ),
{
    let empty = Seq::<u8>::empty();
    lemma_scan_of_consumed(stream, 0, empty);
    lemma_scan_stops_for_good(
        stream.take(scan_stream(stream)->consumed as int),
        more,
        0,
        empty,
    );
}

/// A handshake record.
pub struct Record {
    /// The legacy version, two bytes.
    pub version: Seq<u8>,
    pub payload: Seq<u8>,
}

/// Whether a record can be sent and read.
pub open spec fn record_valid(record: Record) -> bool {
    record.version.len() == 2 && 0 < record.payload.len() <= 0xffff
}

/// The wire form of a record.
pub open spec fn encode_record(record: Record) -> Seq<u8> {
    seq![22u8] + record.version + bytes::to_be(record.payload.len(), 2) + record.payload
}

/// The wire form of records that follow each other.
pub open spec fn encode_records(records: Seq<Record>) -> Seq<u8>
    decreases records.len(),
{
    if records.len() == 0 {
        Seq::empty()
    } else {
        encode_record(records[0]) + encode_records(records.skip(1))
    }
}

/// What records carry.
pub open spec fn carried(records: Seq<Record>) -> Seq<u8>
    decreases records.len(),
{
    if records.len() == 0 {
        Seq::empty()
    } else {
        records[0].payload + carried(records.skip(1))
    }
}

proof fn lemma_hello_in_start(body: Seq<u8>, rest: Seq<u8>, n: nat)
    requires
        body.len() <= 0xff_ffff,
        n <= client_hello::hello_message(body).len() + rest.len(),
    ensures
        hello_in((client_hello::hello_message(body) + rest).take(n as int)) == (if n
            < client_hello::hello_message(body).len() {
            None
        } else {
            Some(Ok::<Seq<u8>, HelloError>(client_hello::hello_message(body)))
        }),
{
    let message = client_hello::hello_message(body);
    let start = (message + rest).take(n as int);
    bytes::lemma_be24_round_trip(body.len());
    let coded = bytes::to_be(body.len(), 3);
    if n >= 4 {
        assert(start[0] == 1);
        assert(start[1] == coded[0] && start[2] == coded[1] && start[3] == coded[2]);
        if n >= message.len() {
            assert(start.take(message.len() as int) =~= message);
        }
    }
}

proof fn lemma_scan_record(
    before: Seq<u8>,
    record: Record,
    after: Seq<u8>,
    hello: Seq<u8>,
)
    requires
        record_valid(record),
    ensures
        scan(before + encode_record(record) + after, before.len() as int, hello) == (match hello_in(
            hello + record.payload,
        ) {
            Some(outcome) => Scan::Stop {
                consumed: before.len() + encode_record(record).len(),
                hello: outcome,
            },
            None => scan(
                before + encode_record(record) + after,
                before.len() + encode_record(record).len() as int,
                hello + record.payload,
            ),
        }),
{
    let stream = before + encode_record(record) + after;
    let pos = before.len() as int;
    bytes::lemma_be16_round_trip(record.payload.len());
    let coded = bytes::to_be(record.payload.len(), 2);
    assert(stream[pos] == 22);
    assert(stream[pos + 3] == coded[0] && stream[pos + 4] == coded[1]);
    assert(stream.subrange(pos + 5, pos + 5 + record.payload.len()) =~= record.payload);
}

/// Reading records goes on from the handshake bytes read before to the whole
/// ClientHello.
proof fn lemma_scan_records(
    before: Seq<u8>,
    records: Seq<Record>,
    after: Seq<u8>,
    hello: Seq<u8>,
    body: Seq<u8>,
    rest: Seq<u8>,
)
    requires
        body.len() <= 0xff_ffff,
        forall|i: int| 0 <= i < records.len() ==> record_valid(#[trigger] records[i]),
        hello + carried(records) == client_hello::hello_message(body) + rest,
        hello_in(hello) is None,
    ensures
        scan(
            before + encode_records(records) + after,
            before.len() as int,
            hello,
        ) matches Scan::Stop { consumed, hello: outcome } && consumed <= before.len()
            + encode_records(records).len() && outcome == Ok::<Seq<u8>, HelloError>(
            client_hello::hello_message(body),
        ),
    decreases records.len(),
{
    let stream = before + encode_records(records) + after;
    let whole = client_hello::hello_message(body) + rest;
    if records.len() == 0 {
        assert(hello =~= whole.take(whole.len() as int));
        lemma_hello_in_start(body, rest, whole.len());
    } else {
        let record = records[0];
        let others = records.skip(1);
        let one = encode_record(record);
        assert(record_valid(record));
        assert(stream =~= before + one + (encode_records(others) + after));
        lemma_scan_record(before, record, encode_records(others) + after, hello);
        let read = hello + record.payload;
        assert(read =~= whole.take(read.len() as int));
        lemma_hello_in_start(body, rest, read.len());
        if hello_in(read) is None {
            assert forall|i: int| 0 <= i < others.len() implies record_valid(
                #[trigger] others[i],
            ) by {
                assert(record_valid(records[i + 1]));
            }
            assert(read + carried(others) =~= whole);
            lemma_scan_records(before + one, others, after, read, body, rest);
            assert(stream =~= (before + one) + encode_records(others) + after);
        }
    }
}

/// However a ClientHello is cut into records, and whatever else the records
/// carry behind it, exactly that ClientHello is read.
pub proof fn lemma_records_do_not_matter(
    records: Seq<Record>,
    after: Seq<u8>,
    body: Seq<u8>,
    rest: Seq<u8>,
)
    requires
        body.len() <= 0xff_ffff,
        forall|i: int| 0 <= i < records.len() ==> record_valid(#[trigger] records[i]),
        carried(records) == client_hello::hello_message(body) + rest,
    ensures
        scan_stream(encode_records(records) + after) matches Scan::Stop { consumed, hello }
            && consumed <= encode_records(records).len() && hello == Ok::<Seq<u8>, HelloError>(
            client_hello::hello_message(body),
        ),
{
    let empty = Seq::<u8>::empty();
    assert(empty + carried(records) =~= carried(records));
    lemma_scan_records(empty, records, after, empty, body, rest);
    assert(empty + encode_records(records) + after =~= encode_records(records) + after);
}

/// A stream whose first record is not a handshake record, is empty, or starts
/// with another message than a ClientHello, has no ClientHello; reading stops at
/// the end of that record's header, or of that record.
pub proof fn lemma_streams_without_hello(stream: Seq<u8>)
    requires
        stream.len() >= 5,
    ensures
        ({
            let len = stream[3] * 256 + stream[4];
            &&& stream[0] != 22 ==> scan_stream(stream) == (Scan::Stop {
                consumed: 5,
                hello: Err(HelloError::ContentType(stream[0])),
            })
            &&& stream[0] == 22 && len == 0 ==> scan_stream(stream) == (Scan::Stop {
                consumed: 5,
                hello: Err(HelloError::EmptyRecord),
            })
            &&& stream[0] == 22 && 4 <= len <= stream.len() - 5 && stream[5] != 1 ==> scan_stream(
                stream,
            ) == (Scan::Stop {
                consumed: (5 + len) as nat,
                hello: Err(HelloError::MessageType(stream[5])),
            })
        }),
{
    let len = stream[3] * 256 + stream[4];
    if 4 <= len <= stream.len() - 5 {
        let empty = Seq::<u8>::empty();
        assert(empty + stream.subrange(5, 5 + len) =~= stream.subrange(5, 5 + len));
    }
}

/// As long as a header of five bytes or the payload that it announces is not
/// there, exactly what is missing of it is wanted.
pub proof fn lemma_what_is_missing_is_wanted(stream: Seq<u8>)
    ensures
        stream.len() < 5 ==> scan_stream(stream) == (Scan::More {
            want: (5 - stream.len()) as nat,
        }),
        stream.len() >= 5 && stream[0] == 22 && stream.len() < 5 + stream[3] * 256 + stream[4]
            ==> scan_stream(stream) == (Scan::More {
            want: (5 + stream[3] * 256 + stream[4] - stream.len()) as nat,
        }),
{
}

/// At every record, reading goes by the record's bytes: one of another type than
/// handshake, or an empty one, ends it; of one that is not all there, what is
/// missing is wanted; any other adds its payload to the handshake bytes, and
/// reading goes on behind it until these hold four bytes of another message than
/// a ClientHello, or a whole ClientHello.
pub proof fn lemma_record_by_record(stream: Seq<u8>, pos: int, hello: Seq<u8>)
    requires
        0 <= pos,
        stream.len() >= pos + 5,
    ensures
        ({
            let end = pos + 5 + stream[pos + 3] * 256 + stream[pos + 4];
            let read = hello + stream.subrange(pos + 5, end);
            let r = scan(stream, pos, hello);
            &&& stream[pos] != 22 ==> r == (Scan::Stop {
                consumed: (pos + 5) as nat,
                hello: Err(HelloError::ContentType(stream[pos])),
            })
            &&& stream[pos] == 22 && end == pos + 5 ==> r == (Scan::Stop {
                consumed: (pos + 5) as nat,
                hello: Err(HelloError::EmptyRecord),
            })
            &&& stream[pos] == 22 && end > stream.len() ==> r == (Scan::More {
                want: (end - stream.len()) as nat,
            })
            &&& stream[pos] == 22 && pos + 5 < end <= stream.len() ==> {
                let len = 4 + read[1] * 0x1_0000 + read[2] * 0x100 + read[3];
                &&& read.len() >= 4 && read[0] != 1 ==> r == (Scan::Stop {
                    consumed: end as nat,
                    hello: Err(HelloError::MessageType(read[0])),
                })
                &&& read.len() >= 4 && read[0] == 1 && read.len() >= len ==> r == (Scan::Stop {
                    consumed: end as nat,
                    hello: Ok(read.take(len)),
                })
                &&& read.len() < 4 || (read[0] == 1 && read.len() < len) ==> r == scan(
                    stream,
                    end,
                    read,
                )
            }
        }),
{
}

} // verus!
