//! The TLS handshake at the router, after which the kernel encrypts.
//!
//! The handshake itself is another library's work. What is decided here is what
//! to do in which order: which bytes go to that library, when more are read
//! from the client, and how the keys get to the kernel.

use vstd::prelude::*;

verus! {

/// How many bytes are read from the client at once.
pub const READ_LEN: usize = 4096;

/// How many bytes from the client may wait for the TLS library.
pub const MAX_OUTSTANDING: usize = 8192;

/// How far a handshake is.
#[derive(Clone, Copy, Debug, PartialEq, Eq, Structural)]
pub enum Stage {
    /// The waiting bytes are to be given to the TLS library.
    Feed,
    /// The TLS library is to work on what it was given.
    Process,
    /// What the TLS library has to say is to be sent.
    Send { len: usize, plaintext: usize, handshaking: bool },
    /// More bytes are to be read from the client.
    Receive,
    /// The handshake is done, and what the client has sent since is to be taken
    /// from the TLS library.
    TakePlaintext { len: usize },
    /// The socket is to be made a TLS socket.
    EnableTls,
    /// The keys are to be taken from the TLS library.
    ExtractKeys,
    /// The kernel is to get the key for receiving.
    InstallReceiveKey,
    /// The kernel is to get the key for sending.
    InstallSendKey,
    /// The kernel has taken over.
    Finished,
}

/// What has happened at a stage.
#[derive(Debug)]
pub enum Event {
    /// The TLS library took this many of the waiting bytes.
    Fed(usize),
    /// The TLS library did its work. It has `to_send` bytes to send and
    /// `plaintext` bytes from the client.
    Processed { to_send: usize, plaintext: usize, handshaking: bool },
    /// The bytes were sent.
    Sent,
    /// These bytes came from the client; none at the end of the stream.
    Received(Vec<u8>),
    /// The client has sent this since the handshake.
    Plaintext(Vec<u8>),
    /// The socket was made a TLS socket; negative if that failed.
    TlsEnabled(i32),
    /// The keys were taken from the TLS library.
    KeysExtracted,
    /// The kernel got the key for receiving; negative if that failed.
    ReceiveKeyInstalled(i32),
    /// The kernel got the key for sending; negative if that failed.
    SendKeyInstalled(i32),
}

/// The contents of an [`Event`].
pub enum EventView {
    Fed(nat),
    Processed { to_send: usize, plaintext: usize, handshaking: bool },
    Sent,
    Received(Seq<u8>),
    Plaintext(Seq<u8>),
    TlsEnabled(i32),
    KeysExtracted,
    ReceiveKeyInstalled(i32),
    SendKeyInstalled(i32),
}

impl View for Event {
    type V = EventView;

    open spec fn view(&self) -> EventView {
        match *self {
            Event::Fed(n) => EventView::Fed(n as nat),
            Event::Processed { to_send, plaintext, handshaking } => EventView::Processed {
                to_send,
                plaintext,
                handshaking,
            },
            Event::Sent => EventView::Sent,
            Event::Received(chunk) => EventView::Received(chunk@),
            Event::Plaintext(chunk) => EventView::Plaintext(chunk@),
            Event::TlsEnabled(code) => EventView::TlsEnabled(code),
            Event::KeysExtracted => EventView::KeysExtracted,
            Event::ReceiveKeyInstalled(code) => EventView::ReceiveKeyInstalled(code),
            Event::SendKeyInstalled(code) => EventView::SendKeyInstalled(code),
        }
    }
}

/// Why a handshake failed.
#[derive(Clone, Copy, Debug, PartialEq, Eq, Structural)]
pub enum HandshakeError {
    /// The client's stream ended.
    EndOfStream,
    /// More bytes from the client are waiting than may.
    TooMuchOutstanding,
    /// The socket could not be made a TLS socket.
    EnableTls(i32),
    /// The kernel did not take a key.
    InstallKey(i32),
}

/// A handshake under way.
#[derive(Debug)]
pub struct Handshake {
    /// Bytes from the client that wait for the TLS library.
    bytes: Vec<u8>,
    /// What the client has sent since the handshake.
    plaintext: Vec<u8>,
    stage: Stage,
}

/// The contents of a [`Handshake`].
pub struct HandshakeView {
    pub bytes: Seq<u8>,
    pub plaintext: Seq<u8>,
    pub stage: Stage,
}

impl View for Handshake {
    type V = HandshakeView;

    closed spec fn view(&self) -> HandshakeView {
        HandshakeView { bytes: self.bytes@, plaintext: self.plaintext@, stage: self.stage }
    }
}

/// Whether `event` is what can happen next.
pub open spec fn expects(state: HandshakeView, event: EventView) -> bool {
    match (state.stage, event) {
        (Stage::Feed, EventView::Fed(n)) => n <= state.bytes.len(),
        (Stage::Process, EventView::Processed { .. }) => true,
        (Stage::Send { .. }, EventView::Sent) => true,
        (Stage::Receive, EventView::Received(_)) => true,
        (Stage::TakePlaintext { len }, EventView::Plaintext(chunk)) => chunk.len() == len,
        (Stage::EnableTls, EventView::TlsEnabled(_)) => true,
        (Stage::ExtractKeys, EventView::KeysExtracted) => true,
        (Stage::InstallReceiveKey, EventView::ReceiveKeyInstalled(_)) => true,
        (Stage::InstallSendKey, EventView::SendKeyInstalled(_)) => true,
        _ => false,
    }
}

/// What comes when nothing is left to be sent.
pub open spec fn all_sent(plaintext: usize, handshaking: bool) -> Stage {
    if handshaking {
        Stage::Receive
    } else {
        Stage::TakePlaintext { len: plaintext }
    }
}

/// The handshake at another stage.
pub open spec fn at(state: HandshakeView, stage: Stage) -> HandshakeView {
    HandshakeView { stage, ..state }
}

/// The handshake after an event.
pub open spec fn after(state: HandshakeView, event: EventView) -> Result<
    HandshakeView,
    HandshakeError,
> {
    match event {
        EventView::Fed(n) => Ok(
            HandshakeView { bytes: state.bytes.skip(n as int), stage: Stage::Process, ..state },
        ),
        EventView::Processed { to_send, plaintext, handshaking } => Ok(
            at(
                state,
                if to_send > 0 {
                    Stage::Send { len: to_send, plaintext, handshaking }
                } else {
                    all_sent(plaintext, handshaking)
                },
            ),
        ),
        EventView::Sent => Ok(
            at(
                state,
                match state.stage {
                    Stage::Send { plaintext, handshaking, .. } => all_sent(plaintext, handshaking),
                    other => other,
                },
            ),
        ),
        EventView::Received(chunk) => if chunk.len() == 0 {
            Err(HandshakeError::EndOfStream)
        } else if state.bytes.len() + chunk.len() > MAX_OUTSTANDING {
            Err(HandshakeError::TooMuchOutstanding)
        } else {
            Ok(HandshakeView { bytes: state.bytes + chunk, stage: Stage::Feed, ..state })
        },
        EventView::Plaintext(chunk) => Ok(
            HandshakeView { plaintext: chunk, stage: Stage::EnableTls, ..state },
        ),
        EventView::TlsEnabled(code) => if code < 0 {
            Err(HandshakeError::EnableTls(code))
        } else {
            Ok(at(state, Stage::ExtractKeys))
        },
        EventView::KeysExtracted => Ok(at(state, Stage::InstallReceiveKey)),
        EventView::ReceiveKeyInstalled(code) => if code < 0 {
            Err(HandshakeError::InstallKey(code))
        } else {
            Ok(at(state, Stage::InstallSendKey))
        },
        EventView::SendKeyInstalled(code) => if code < 0 {
            Err(HandshakeError::InstallKey(code))
        } else {
            Ok(at(state, Stage::Finished))
        },
    }
}

fn stage_when_sent(plaintext: usize, handshaking: bool) -> (r: Stage)
    ensures
        r == all_sent(plaintext, handshaking),
{
    if handshaking {
        Stage::Receive
    } else {
        Stage::TakePlaintext { len: plaintext }
    }
}

impl Handshake {
    /// A handshake that starts with the bytes that the client has already sent.
    pub fn new(bytes: Vec<u8>) -> (r: Handshake)
        ensures
            r@ == (HandshakeView { bytes: bytes@, plaintext: Seq::empty(), stage: Stage::Feed }),
    {
        let r = Handshake { bytes, plaintext: Vec::new(), stage: Stage::Feed };
        assert(r@.plaintext =~= Seq::<u8>::empty());
        r
    }

    /// How far the handshake is.
    pub fn stage(&self) -> (r: Stage)
        ensures
            r == self@.stage,
    {
        self.stage
    }

    /// The bytes that wait for the TLS library.
    pub fn waiting(&self) -> (r: &[u8])
        ensures
            r@ == self@.bytes,
    {
        self.bytes.as_slice()
    }

    /// What the client has sent since the handshake.
    pub fn into_plaintext(self) -> (r: Vec<u8>)
        ensures
            r@ == self@.plaintext,
    {
        self.plaintext
    }

    /// Goes on after an event.
    pub fn step(self, event: Event) -> (r: Result<Handshake, HandshakeError>)
        requires
            expects(self@, event@),
        ensures
            match r {
                Ok(next) => after(self@, event@) == Ok::<HandshakeView, HandshakeError>(next@),
                Err(e) => after(self@, event@) == Err::<HandshakeView, HandshakeError>(e),
            },
    {
        let mut next = self;
        match event {
            Event::Fed(n) => {
                let rest = vstd::slice::slice_to_vec(
                    vstd::slice::slice_subrange(next.bytes.as_slice(), n, next.bytes.len()),
                );
                assert(rest@ =~= next.bytes@.skip(n as int));
                next.bytes = rest;
                next.stage = Stage::Process;
            },
            Event::Processed { to_send, plaintext, handshaking } => {
                next.stage = if to_send > 0 {
                    Stage::Send { len: to_send, plaintext, handshaking }
                } else {
                    stage_when_sent(plaintext, handshaking)
                };
            },
            Event::Sent => {
                if let Stage::Send { plaintext, handshaking, .. } = next.stage {
                    next.stage = stage_when_sent(plaintext, handshaking);
                }
            },
            Event::Received(chunk) => {
                if chunk.len() == 0 {
                    return Err(HandshakeError::EndOfStream);
                }
                let ghost before = next.bytes@;
                next.bytes.extend_from_slice(chunk.as_slice());
                assert(next.bytes@ =~= before + chunk@);
                if next.bytes.len() > MAX_OUTSTANDING {
                    return Err(HandshakeError::TooMuchOutstanding);
                }
                next.stage = Stage::Feed;
            },
            Event::Plaintext(chunk) => {
                next.plaintext = chunk;
                next.stage = Stage::EnableTls;
            },
            Event::TlsEnabled(code) => {
                if code < 0 {
                    return Err(HandshakeError::EnableTls(code));
                }
                next.stage = Stage::ExtractKeys;
            },
            Event::KeysExtracted => {
                next.stage = Stage::InstallReceiveKey;
            },
            Event::ReceiveKeyInstalled(code) => {
                if code < 0 {
                    return Err(HandshakeError::InstallKey(code));
                }
                next.stage = Stage::InstallSendKey;
            },
            Event::SendKeyInstalled(code) => {
                if code < 0 {
                    return Err(HandshakeError::InstallKey(code));
                }
                next.stage = Stage::Finished;
            },
        }
        Ok(next)
    }
}

/// Where a handshake comes to from `state` through the events; `None` where one
/// of them cannot happen or makes it fail.
pub open spec fn run(state: HandshakeView, events: Seq<EventView>) -> Option<HandshakeView>
    decreases events.len(),
{
    if events.len() == 0 {
        Some(state)
    } else {
        match run(state, events.drop_last()) {
            None => None,
            Some(last) => if !expects(last, events.last()) {
                None
            } else {
                match after(last, events.last()) {
                    Err(_) => None,
                    Ok(next) => Some(next),
                }
            },
        }
    }
}

/// The bytes that came from the client in the events.
pub open spec fn received(events: Seq<EventView>) -> Seq<u8>
    decreases events.len(),
{
    if events.len() == 0 {
        Seq::empty()
    } else {
        received(events.drop_last()) + match events.last() {
            EventView::Received(chunk) => chunk,
            _ => Seq::empty(),
        }
    }
}

/// How many bytes were given to the TLS library in the events.
pub open spec fn fed(events: Seq<EventView>) -> nat
    decreases events.len(),
{
    if events.len() == 0 {
        0
    } else {
        fed(events.drop_last()) + match events.last() {
            EventView::Fed(n) => n,
            _ => 0,
        }
    }
}

/// The TLS library gets the client's bytes in order, and none is lost: what
/// waits is what came from the client, without what was already given.
pub proof fn lemma_no_byte_is_lost(state: HandshakeView, events: Seq<EventView>)
    ensures
        run(state, events) matches Some(end) ==> fed(events) <= state.bytes.len() + received(
            events,
        ).len() && end.bytes == (state.bytes + received(events)).skip(fed(events) as int),
    decreases events.len(),
{
    if events.len() == 0 {
        assert((state.bytes + received(events)).skip(0) =~= state.bytes);
    } else if run(state, events) is Some {
        lemma_no_byte_is_lost(state, events.drop_last());
        let before = state.bytes + received(events.drop_last());
        let given = fed(events.drop_last()) as int;
        match events.last() {
            EventView::Fed(n) => {
                assert(received(events) =~= received(events.drop_last()));
                assert(before.skip(given).skip(n as int) =~= before.skip(given + n));
            },
            EventView::Received(chunk) => {
                assert((state.bytes + received(events)).skip(given) =~= before.skip(given) + chunk);
            },
            _ => {
                assert(received(events) =~= received(events.drop_last()));
            },
        }
    }
}

/// Whenever bytes from the client have been taken in, at most
/// [`MAX_OUTSTANDING`] of them wait for the TLS library.
pub proof fn lemma_outstanding_is_bounded(state: HandshakeView, chunk: Seq<u8>)
    ensures
        after(state, EventView::Received(chunk)) matches Ok(next) ==> next.bytes.len()
            <= MAX_OUTSTANDING,
{
}

/// Whether the TLS library says that the handshake is done.
pub open spec fn says_done(event: EventView) -> bool {
    event matches EventView::Processed { handshaking, .. } && !handshaking
}

/// Before the plaintext is taken, the TLS library has said that the handshake is
/// done.
proof fn lemma_handshake_is_done_first(bytes: Seq<u8>, events: Seq<EventView>)
    ensures
        run(
            HandshakeView { bytes, plaintext: Seq::empty(), stage: Stage::Feed },
            events,
        ) matches Some(end) ==> (end.stage is TakePlaintext ==> exists|i: int|
            0 <= i < events.len() && says_done(#[trigger] events[i])),
{
    reveal_with_fuel(run, 3);
    let state = HandshakeView { bytes, plaintext: Seq::empty(), stage: Stage::Feed };
    if let Some(end) = run(state, events) {
        if end.stage is TakePlaintext {
            let n = events.len() as int;
            if events[n - 1] is Sent {
                assert(events.drop_last().last() == events[n - 2]);
                assert(says_done(events[n - 2]));
            } else {
                assert(says_done(events[n - 1]));
            }
        }
    }
}

/// The kernel takes over only after, in this order, the handshake was done and
/// its plaintext taken, the socket made a TLS socket, the keys extracted, and
/// the key for receiving and then that for sending installed, none of which
/// failed.
pub proof fn lemma_keys_are_installed_in_order(bytes: Seq<u8>, events: Seq<EventView>)
    ensures
        run(
            HandshakeView { bytes, plaintext: Seq::empty(), stage: Stage::Feed },
            events,
        ) matches Some(end) ==> (end.stage == Stage::Finished ==> {
            &&& events.len() >= 5
            &&& exists|i: int| 0 <= i < events.len() - 5 && says_done(#[trigger] events[i])
            &&& events[events.len() - 5] == EventView::Plaintext(end.plaintext)
            &&& events[events.len() - 4] matches EventView::TlsEnabled(code) && code >= 0
            &&& events[events.len() - 3] == EventView::KeysExtracted
            &&& events[events.len() - 2] matches EventView::ReceiveKeyInstalled(code) && code >= 0
            &&& events[events.len() - 1] matches EventView::SendKeyInstalled(code) && code >= 0
        }),
{
    reveal_with_fuel(run, 6);
    let state = HandshakeView { bytes, plaintext: Seq::empty(), stage: Stage::Feed };
    if let Some(end) = run(state, events) {
        if end.stage == Stage::Finished {
            let before = events.drop_last().drop_last().drop_last().drop_last().drop_last();
            lemma_handshake_is_done_first(bytes, before);
            let i = choose|i: int| 0 <= i < before.len() && says_done(#[trigger] before[i]);
            assert(says_done(events[i]));
        }
    }
}

/// Whatever the TLS library has to send is sent before anything else is done.
/// Then, while the handshake goes on, more is read from the client, and once it
/// is done, what the client has sent since is taken; bytes that are read go to
/// the TLS library, which then works on them.
pub proof fn lemma_what_comes_next(
    state: HandshakeView,
    to_send: usize,
    plaintext: usize,
    handshaking: bool,
    n: nat,
    chunk: Seq<u8>,
)
    ensures
        after(state, EventView::Fed(n)) matches Ok(next) && next.stage == Stage::Process
            && next.bytes == state.bytes.skip(n as int) && next.plaintext == state.plaintext,
        after(state, EventView::Processed { to_send, plaintext, handshaking }) matches Ok(next) && {
            &&& to_send > 0 ==> next.stage == (Stage::Send {
                len: to_send,
                plaintext,
                handshaking,
            })
            &&& to_send == 0 && handshaking ==> next.stage == Stage::Receive
            &&& to_send == 0 && !handshaking ==> next.stage == (Stage::TakePlaintext {
                len: plaintext,
            })
        },
        state.stage matches Stage::Send { plaintext: left, handshaking: going_on, .. } ==> (after(
            state,
            EventView::Sent,
        ) matches Ok(next) && {
            &&& going_on ==> next.stage == Stage::Receive
            &&& !going_on ==> next.stage == (Stage::TakePlaintext { len: left })
        }),
        0 < chunk.len() && state.bytes.len() + chunk.len() <= 8192 ==> (after(
            state,
            EventView::Received(chunk),
        ) matches Ok(next) && next.stage == Stage::Feed && next.bytes == state.bytes + chunk),
        after(state, EventView::Plaintext(chunk)) matches Ok(next) && next.stage == Stage::EnableTls
            && next.plaintext == chunk,
{
}

/// What a handshake fails for: the end of the client's stream, more than 8192
/// bytes that wait, a socket that cannot be made a TLS socket, and a key that the
/// kernel does not take.
pub proof fn lemma_why_a_handshake_fails(state: HandshakeView, event: EventView, code: i32)
    ensures
        after(state, event) == Err::<HandshakeView, HandshakeError>(HandshakeError::EndOfStream)
            <==> (event matches EventView::Received(chunk) && chunk.len() == 0),
        after(state, event) == Err::<HandshakeView, HandshakeError>(
            HandshakeError::TooMuchOutstanding,
        ) <==> (event matches EventView::Received(chunk) && chunk.len() > 0 && state.bytes.len()
            + chunk.len() > 8192),
        after(state, event) == Err::<HandshakeView, HandshakeError>(HandshakeError::EnableTls(code))
            <==> event == EventView::TlsEnabled(code) && code < 0,
        after(state, event) == Err::<HandshakeView, HandshakeError>(
            HandshakeError::InstallKey(code),
        ) <==> (event == EventView::ReceiveKeyInstalled(code) || event
            == EventView::SendKeyInstalled(code)) && code < 0,
{
}

/// What an event says is what it holds.
pub proof fn lemma_events_say_what_they_hold(event: Event)
    ensures
        match event {
            Event::Fed(n) => event@ == EventView::Fed(n as nat),
            Event::Processed { to_send, plaintext, handshaking } => event@ == (
            EventView::Processed { to_send, plaintext, handshaking }),
            Event::Sent => event@ == EventView::Sent,
            Event::Received(chunk) => event@ == EventView::Received(chunk@),
            Event::Plaintext(chunk) => event@ == EventView::Plaintext(chunk@),
            Event::TlsEnabled(code) => event@ == EventView::TlsEnabled(code),
            Event::KeysExtracted => event@ == EventView::KeysExtracted,
            Event::ReceiveKeyInstalled(code) => event@ == EventView::ReceiveKeyInstalled(code),
            Event::SendKeyInstalled(code) => event@ == EventView::SendKeyInstalled(code),
        },
{
}

/// The bytes that wait for the TLS library change only when it takes some or more
/// come from the client, and what the client has sent since the handshake only
/// when it is taken.
pub proof fn lemma_what_stays(state: HandshakeView, event: EventView)
    ensures
        after(state, event) matches Ok(next) ==> {
            &&& next.bytes == state.bytes || event is Fed || event is Received
            &&& next.plaintext == state.plaintext || event is Plaintext
        },
{
}

/// After the handshake the socket is made a TLS socket, then the keys are taken,
/// then the key for receiving is installed, then that for sending, and that is
/// all.
pub proof fn lemma_keys_in_order(state: HandshakeView, code: i32)
    requires
        code >= 0,
    ensures
        after(state, EventView::TlsEnabled(code)) matches Ok(next) && next.stage
            == Stage::ExtractKeys,
        after(state, EventView::KeysExtracted) matches Ok(next) && next.stage
            == Stage::InstallReceiveKey,
        after(state, EventView::ReceiveKeyInstalled(code)) matches Ok(next) && next.stage
            == Stage::InstallSendKey,
        after(state, EventView::SendKeyInstalled(code)) matches Ok(next) && next.stage
            == Stage::Finished,
{
}

/// Each stage is followed by one kind of event, and the last by none. The TLS
/// library takes no more than what waits for it, and gives as many bytes as it
/// said.
pub proof fn lemma_each_stage_waits_for_one_event(state: HandshakeView, event: EventView)
    ensures
        expects(state, event) <==> match state.stage {
            Stage::Feed => event is Fed && event->Fed_0 <= state.bytes.len(),
            Stage::Process => event is Processed,
            Stage::Send { .. } => event is Sent,
            Stage::Receive => event is Received,
            Stage::TakePlaintext { len } => event is Plaintext && event->Plaintext_0.len() == len,
            Stage::EnableTls => event is TlsEnabled,
            Stage::ExtractKeys => event is KeysExtracted,
            Stage::InstallReceiveKey => event is ReceiveKeyInstalled,
            Stage::InstallSendKey => event is SendKeyInstalled,
            Stage::Finished => false,
        },
{
}

} // verus!
