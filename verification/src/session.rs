//! Session state machine, without input or output.
//!
//! A [`Session`] owns one end of a connection: it produces the outgoing byte
//! stream and consumes the incoming one, yielding [`SessionEvent`]s. The caller
//! moves bytes between the session and whatever carries them, and lends it the
//! codec: a function that decodes a payload, and one that encodes a message.
//!
//! Handshake: both peers send a [`Hello`] at once. The session's version is the
//! lower of the two; the codec is the first entry in the provider's list that the
//! consumer also supports. Pings are answered at once; incoming pongs are
//! surfaced.

use crate::codec::codec_name;
use crate::codec::codec_named;
use crate::codec::Codec;
use crate::codec::CodecError;
use crate::framing::framable;
use crate::framing::frame_bytes;
use crate::framing::frame_error_text;
use crate::framing::frame_into;
use crate::framing::law_frame_round_trip;
use crate::framing::law_more_bytes_change_nothing_read;
use crate::framing::parse_frame;
use crate::framing::stream_of;
use crate::framing::FrameError;
use crate::framing::FrameReader;
use crate::framing::Parsed;
use crate::framing::DEFAULT_MAX_FRAME_LEN;
use crate::messages::other_role;
use crate::messages::Hello;
use crate::messages::Message;
use crate::messages::PeerRole;
use crate::messages::MIN_PROTOCOL_VERSION;
use crate::messages::PROTOCOL_VERSION;
use crate::search::find_first;
use crate::search::first_match;
use crate::search::lemma_found;
use crate::search::lemma_not_found;
use crate::strings::append;
use crate::strings::contains;
use crate::strings::decimal;
use crate::strings::numeral;
use crate::strings::views;
use vstd::prelude::*;

verus! {

// ---------------------------------------------------------------- configuration

#[derive(Debug, Clone)]
pub struct SessionConfig {
    pub role: PeerRole,
    pub name: String,
    pub codecs: Vec<Codec>,
    pub max_frame_len: usize,
}

/// The names of codecs.
pub open spec fn codec_names(codecs: Seq<Codec>) -> Seq<Seq<char>> {
    codecs.map_values(|c: Codec| codec_name(c))
}

fn names_of(codecs: &[Codec]) -> (names: Vec<String>)
    ensures
        views(names@) == codec_names(codecs@),
{
    let mut names: Vec<String> = Vec::new();
    for i in 0..codecs.len()
        invariant
            names@.len() == i,
            forall|j: int| 0 <= j < i ==> (#[trigger] names@[j])@ == codec_name(codecs@[j]),
    {
        names.push(codecs[i].name().to_owned());
    }
    assert(views(names@) =~= codec_names(codecs@));
    names
}

/// Whether a hello is the one that a peer of this configuration sends.
pub open spec fn introduces(hello: Hello, config: SessionConfig) -> bool {
    &&& hello.version == PROTOCOL_VERSION
    &&& hello.role == config.role
    &&& views(hello.codecs@) == codec_names(config.codecs@)
    &&& hello.name@ == config.name@
}

impl SessionConfig {
    pub fn new(role: PeerRole, name: &str) -> (config: Self)
        ensures
            config.role == role,
            config.name@ == name@,
            config.codecs@ == seq![Codec::Json],
            config.max_frame_len == DEFAULT_MAX_FRAME_LEN,
    {
        let mut codecs: Vec<Codec> = Vec::new();
        codecs.push(Codec::Json);
        assert(codecs@ =~= seq![Codec::Json]);
        Self { role, name: name.to_owned(), codecs, max_frame_len: DEFAULT_MAX_FRAME_LEN }
    }

    /// The message this end introduces itself with.
    pub fn hello(&self) -> (hello: Hello)
        ensures
            introduces(hello, *self),
    {
        Hello {
            version: PROTOCOL_VERSION,
            role: self.role,
            codecs: names_of(self.codecs.as_slice()),
            name: self.name.clone(),
        }
    }
}

// ---------------------------------------------------------------- events and errors

#[derive(Debug)]
pub enum SessionEvent {
    Established { version: u32, codec: Codec },
    Message(Message),
    Closed { reason: String },
}

#[derive(Debug, Clone, PartialEq, Eq)]
pub enum SessionError {
    Frame(FrameError),
    Codec(CodecError),
    UnexpectedMessage(String),
    RoleConflict,
    IncompatibleVersion { ours: u32, theirs: u32 },
    NoCommonCodec,
    NotEstablished,
}

/// The content of an error.
pub enum ErrorView {
    Frame(FrameError),
    Codec(Seq<char>),
    UnexpectedMessage(Seq<char>),
    RoleConflict,
    IncompatibleVersion { ours: u32, theirs: u32 },
    NoCommonCodec,
    NotEstablished,
}

impl View for SessionError {
    type V = ErrorView;

    open spec fn view(&self) -> ErrorView {
        match self {
            SessionError::Frame(error) => ErrorView::Frame(*error),
            SessionError::Codec(error) => ErrorView::Codec(error.0@),
            SessionError::UnexpectedMessage(what) => ErrorView::UnexpectedMessage(what@),
            SessionError::RoleConflict => ErrorView::RoleConflict,
            SessionError::IncompatibleVersion { ours, theirs } => ErrorView::IncompatibleVersion {
                ours: *ours,
                theirs: *theirs,
            },
            SessionError::NoCommonCodec => ErrorView::NoCommonCodec,
            SessionError::NotEstablished => ErrorView::NotEstablished,
        }
    }
}

/// An error in words.
pub open spec fn error_text(error: ErrorView) -> Seq<char> {
    match error {
        ErrorView::Frame(error) => frame_error_text(error),
        ErrorView::Codec(what) => "codec error: "@ + what,
        ErrorView::UnexpectedMessage(what) => "unexpected message: "@ + what,
        ErrorView::RoleConflict => "both peers claim the same role"@,
        ErrorView::IncompatibleVersion { ours, theirs } => {
            "incompatible protocol versions (ours "@ + numeral(ours as nat) + ", theirs "@
                + numeral(theirs as nat) + ")"@
        },
        ErrorView::NoCommonCodec => "no common codec"@,
        ErrorView::NotEstablished => "session not established"@,
    }
}

impl SessionError {
    /// The error in words.
    pub fn message(&self) -> (text: String)
        ensures
            text@ == error_text(self@),
    {
        match self {
            Self::Frame(error) => error.message(),
            Self::Codec(error) => error.message(),
            Self::UnexpectedMessage(what) => {
                let mut text: String = "unexpected message: ".to_owned();
                append(&mut text, what.as_str());
                text
            },
            Self::RoleConflict => "both peers claim the same role".to_owned(),
            Self::IncompatibleVersion { ours, theirs } => {
                let mut text: String = "incompatible protocol versions (ours ".to_owned();
                append(&mut text, decimal(*ours as u64).as_str());
                append(&mut text, ", theirs ");
                append(&mut text, decimal(*theirs as u64).as_str());
                append(&mut text, ")");
                text
            },
            Self::NoCommonCodec => "no common codec".to_owned(),
            Self::NotEstablished => "session not established".to_owned(),
        }
    }
}

// ---------------------------------------------------------------- negotiation

/// The codec two peers agree on: the first in the provider's list that the
/// consumer also supports.
pub open spec fn common_codec(provider: Seq<Seq<char>>, consumer: Seq<Seq<char>>) -> Option<
    Codec,
> {
    match find_first(provider, supported_by(consumer)) {
        Some(i) => codec_named(provider[i]),
        None => None,
    }
}

/// Whether a name is in a list.
pub open spec fn supported_by(names: Seq<Seq<char>>) -> spec_fn(Seq<char>) -> bool {
    |name: Seq<char>| names.contains(name)
}

/// The codec that a peer of a role agrees on with the other.
pub open spec fn agreed_codec(
    role: PeerRole,
    ours: Seq<Seq<char>>,
    theirs: Seq<Seq<char>>,
) -> Option<Codec> {
    match role {
        PeerRole::Provider => common_codec(ours, theirs),
        PeerRole::Consumer => common_codec(theirs, ours),
    }
}

/// Both ends of a connection come to the same codec.
pub proof fn law_peers_agree_on_the_codec(
    role: PeerRole,
    ours: Seq<Seq<char>>,
    theirs: Seq<Seq<char>>,
)
    ensures
        agreed_codec(role, ours, theirs) == agreed_codec(other_role(role), theirs, ours),
{
}

/// A codec is agreed on whenever the peers have one in common, and it is one that
/// both support.
pub proof fn law_a_common_codec_is_found(
    role: PeerRole,
    ours: Seq<Codec>,
    theirs: Seq<Seq<char>>,
)
    ensures
        agreed_codec(role, codec_names(ours), theirs) is Some <==> exists|i: int|
            0 <= i < ours.len() && theirs.contains(codec_name(#[trigger] ours[i])),
        agreed_codec(role, codec_names(ours), theirs) matches Some(codec) ==> ours.contains(codec)
            && theirs.contains(codec_name(codec)),
{
    let names = codec_names(ours);
    let (provider, consumer) = match role {
        PeerRole::Provider => (names, theirs),
        PeerRole::Consumer => (theirs, names),
    };
    let wanted = supported_by(consumer);
    if exists|i: int| 0 <= i < ours.len() && theirs.contains(codec_name(#[trigger] ours[i])) {
        let i = choose|i: int| 0 <= i < ours.len() && theirs.contains(codec_name(#[trigger] ours[i]));
        assert(names[i] == codec_name(ours[i]));
        let k = match role {
            PeerRole::Provider => i,
            PeerRole::Consumer => theirs.index_of(names[i]),
        };
        assert(wanted(provider[k]));
        lemma_first_exists(provider, wanted, k);
    }
    match find_first(provider, wanted) {
        Some(k) => {
            assert(crate::search::first_match(provider, wanted, k));
            assert(consumer.contains(provider[k]));
            let j = match role {
                PeerRole::Provider => k,
                PeerRole::Consumer => names.index_of(provider[k]),
            };
            assert(names[j] == provider[k]);
            assert(names[j] == codec_name(ours[j]));
            assert(ours[j] == Codec::Json);
        },
        None => {},
    }
}

proof fn lemma_first_exists(all: Seq<Seq<char>>, fits: spec_fn(Seq<char>) -> bool, k: int)
    requires
        0 <= k < all.len(),
        fits(all[k]),
    ensures
        find_first(all, fits) is Some,
    decreases k,
{
    if exists|j: int| 0 <= j < k && fits(#[trigger] all[j]) {
        let j = choose|j: int| 0 <= j < k && fits(#[trigger] all[j]);
        lemma_first_exists(all, fits, j);
    } else {
        lemma_found(all, fits, k);
    }
}

fn first_common(provider: &[String], consumer: &[String]) -> (codec: Option<Codec>)
    ensures
        codec == common_codec(views(provider@), views(consumer@)),
{
    let ghost (all, wanted) = (views(provider@), supported_by(views(consumer@)));
    for i in 0..provider.len()
        invariant
            all == views(provider@),
            wanted == supported_by(views(consumer@)),
            forall|j: int| 0 <= j < i ==> !wanted(#[trigger] all[j]),
    {
        assert(all[i as int] == provider@[i as int]@);
        if contains(consumer, provider[i].as_str()) {
            proof {
                lemma_found(all, wanted, i as int);
            }
            return Codec::from_name(provider[i].as_str());
        }
    }
    proof {
        lemma_not_found(all, wanted);
    }
    None
}

// ---------------------------------------------------------------- one message

#[derive(Debug, Clone, Copy, PartialEq, Eq, Structural)]
pub enum State {
    AwaitingHello,
    Established { codec: Codec },
    Closed,
}

/// The codec in use in a state.
pub open spec fn codec_in(state: State) -> Codec {
    match state {
        State::Established { codec } => codec,
        _ => Codec::HANDSHAKE,
    }
}

/// What a message comes to.
pub enum Outcome {
    /// Something to tell the caller.
    Event(SessionEvent),
    /// A ping to answer.
    Answer { codec: Codec, seq: u64 },
    /// A breach of the protocol.
    Breach(ErrorView),
}

/// What the first message of a peer comes to, and the state after.
pub open spec fn greeted(
    role: PeerRole,
    codecs: Seq<Seq<char>>,
    message: Message,
) -> (State, Outcome) {
    match message {
        Message::Hello(hello) => {
            let version = if hello.version < PROTOCOL_VERSION {
                hello.version
            } else {
                PROTOCOL_VERSION
            };
            if hello.role != other_role(role) {
                (State::AwaitingHello, Outcome::Breach(ErrorView::RoleConflict))
            } else if version < MIN_PROTOCOL_VERSION {
                (
                    State::AwaitingHello,
                    Outcome::Breach(
                        ErrorView::IncompatibleVersion {
                            ours: PROTOCOL_VERSION,
                            theirs: hello.version,
                        },
                    ),
                )
            } else {
                match agreed_codec(role, codecs, views(hello.codecs@)) {
                    Some(codec) => (
                        State::Established { codec },
                        Outcome::Event(SessionEvent::Established { version, codec }),
                    ),
                    None => (State::AwaitingHello, Outcome::Breach(ErrorView::NoCommonCodec)),
                }
            }
        },
        _ => (
            State::AwaitingHello,
            Outcome::Breach(ErrorView::UnexpectedMessage("first message must be hello"@)),
        ),
    }
}

/// A session established with a codec, and the event that tells of it.
pub open spec fn established(codec: Codec) -> (State, Outcome) {
    (
        State::Established { codec },
        Outcome::Event(SessionEvent::Established { version: PROTOCOL_VERSION, codec }),
    )
}

/// Two peers of opposite roles with a codec in common establish the session on
/// hearing each other's hello: both ends, in the same version, with the same codec.
pub proof fn law_the_handshake_establishes_both_ends(
    one: SessionConfig,
    other: SessionConfig,
    from_one: Hello,
    from_other: Hello,
)
    requires
        other.role == other_role(one.role),
        introduces(from_one, one),
        introduces(from_other, other),
        exists|i: int| 0 <= i < one.codecs@.len() && other.codecs@.contains(
            #[trigger] one.codecs@[i],
        ),
    ensures
        exists|codec: Codec|
            {
                &&& one.codecs@.contains(codec)
                &&& other.codecs@.contains(codec)
                &&& greeted(one.role, codec_names(one.codecs@), Message::Hello(from_other))
                    == #[trigger] established(codec)
                &&& greeted(other.role, codec_names(other.codecs@), Message::Hello(from_one))
                    == established(codec)
            },
{
    let (ours, theirs) = (codec_names(one.codecs@), codec_names(other.codecs@));
    let i = choose|i: int|
        0 <= i < one.codecs@.len() && other.codecs@.contains(#[trigger] one.codecs@[i]);
    let j = other.codecs@.index_of(one.codecs@[i]);
    assert(theirs[j] == codec_name(one.codecs@[i]));
    law_a_common_codec_is_found(one.role, one.codecs@, theirs);
    law_a_common_codec_is_found(other.role, other.codecs@, ours);
    law_peers_agree_on_the_codec(one.role, ours, theirs);
    let codec = agreed_codec(one.role, ours, theirs)->0;
    assert(one.codecs@.contains(codec));
    assert(other.codecs@.contains(codec));
    assert(greeted(one.role, ours, Message::Hello(from_other)) == established(codec));
}

/// What a message after the handshake comes to, and the state after.
pub open spec fn conversed(codec: Codec, message: Message) -> (State, Outcome) {
    let same = State::Established { codec };
    match message {
        Message::Hello(_) => (
            same,
            Outcome::Breach(ErrorView::UnexpectedMessage("hello after handshake"@)),
        ),
        Message::Goodbye { reason } => (
            State::Closed,
            Outcome::Event(SessionEvent::Closed { reason }),
        ),
        Message::Ping { seq } => (same, Outcome::Answer { codec, seq }),
        other => (same, Outcome::Event(SessionEvent::Message(other))),
    }
}

/// What a payload comes to once it has been decoded, or failed to be, and the
/// state after.
pub open spec fn received(
    role: PeerRole,
    codecs: Seq<Seq<char>>,
    state: State,
    decoded: Result<Message, CodecError>,
) -> (State, Outcome) {
    match decoded {
        Err(error) => (state, Outcome::Breach(ErrorView::Codec(error.0@))),
        Ok(message) => match state {
            State::AwaitingHello => greeted(role, codecs, message),
            State::Established { codec } => conversed(codec, message),
            State::Closed => (state, Outcome::Breach(ErrorView::NotEstablished)),
        },
    }
}

/// What a message calls for.
pub enum Step {
    Event(SessionEvent),
    Answer { codec: Codec, seq: u64 },
}

/// Whether a step, or an error, is an outcome.
pub open spec fn is_outcome(step: Result<Step, SessionError>, outcome: Outcome) -> bool {
    match outcome {
        Outcome::Event(event) => step == Ok::<Step, SessionError>(Step::Event(event)),
        Outcome::Answer { codec, seq } => step == Ok::<Step, SessionError>(
            Step::Answer { codec, seq },
        ),
        Outcome::Breach(error) => step matches Err(raised) && raised@ == error,
    }
}

// ---------------------------------------------------------------- the session

pub struct Session {
    config: SessionConfig,
    reader: FrameReader,
    state: State,
    out: Vec<u8>,
}

/// The contents of a [`Session`]: which end it is, what codecs it has, where the
/// conversation stands, the bytes received and not yet read, and the bytes to be
/// sent.
#[verifier::ext_equal]
pub struct SessionView {
    pub role: PeerRole,
    pub codecs: Seq<Seq<char>>,
    pub max: usize,
    pub state: State,
    pub pending: Seq<u8>,
    pub out: Seq<u8>,
}

impl View for Session {
    type V = SessionView;

    closed spec fn view(&self) -> SessionView {
        SessionView {
            role: self.config.role,
            codecs: codec_names(self.config.codecs@),
            max: self.reader.max(),
            state: self.state,
            pending: self.reader.pending(),
            out: self.out@,
        }
    }
}

/// A session that has received more bytes.
pub open spec fn with_bytes(session: SessionView, bytes: Seq<u8>) -> SessionView {
    SessionView { pending: session.pending + bytes, ..session }
}

/// Bytes to be sent, with one more payload framed behind them where it can be.
pub open spec fn with_payload(out: Seq<u8>, encoded: Result<Vec<u8>, CodecError>) -> Seq<u8> {
    match encoded {
        Ok(payload) if framable(payload@) => out + frame_bytes(payload@),
        _ => out,
    }
}

/// Why a payload could not be queued, if it could not.
pub open spec fn queue_error(encoded: Result<Vec<u8>, CodecError>) -> Option<ErrorView> {
    match encoded {
        Err(error) => Some(ErrorView::Codec(error.0@)),
        Ok(payload) => if payload@.len() == 0 {
            Some(ErrorView::Frame(FrameError::Empty))
        } else if payload@.len() > DEFAULT_MAX_FRAME_LEN {
            Some(
                ErrorView::Frame(
                    FrameError::TooLarge {
                        len: payload@.len() as usize,
                        max: DEFAULT_MAX_FRAME_LEN,
                    },
                ),
            )
        } else {
            None
        },
    }
}

/// What the codec made of one frame: the decoded payload, and, for a ping, the
/// encoded answer.
pub struct Exchange {
    pub decoded: Result<Message, CodecError>,
    pub answer: Option<Result<Vec<u8>, CodecError>>,
}

/// A session that has read some frames: the session after them, the events they
/// gave, and the breach that ended it, if one did.
pub struct Progress {
    pub session: SessionView,
    pub events: Seq<SessionEvent>,
    pub breach: Option<ErrorView>,
}

/// A session after it has read one more frame.
pub open spec fn advanced(before: Progress, exchange: Exchange) -> Progress {
    let session = before.session;
    let rest = match parse_frame(session.pending, session.max) {
        Parsed::Frame { rest, .. } => rest,
        _ => session.pending,
    };
    let (state, outcome) = received(
        session.role,
        session.codecs,
        session.state,
        exchange.decoded,
    );
    let moved = SessionView { state, pending: rest, ..session };
    match outcome {
        Outcome::Event(event) => Progress {
            session: moved,
            events: before.events.push(event),
            breach: None,
        },
        Outcome::Answer { .. } => match exchange.answer {
            Some(encoded) => Progress {
                session: SessionView { out: with_payload(moved.out, encoded), ..moved },
                events: before.events,
                breach: queue_error(encoded),
            },
            None => Progress { session: moved, events: before.events, breach: None },
        },
        Outcome::Breach(error) => Progress {
            session: moved,
            events: before.events,
            breach: Some(error),
        },
    }
}

/// A session after it has read frames, each as the codec took it.
pub open spec fn progressed(session: SessionView, exchanges: Seq<Exchange>) -> Progress
    decreases exchanges.len(),
{
    if exchanges.len() == 0 {
        Progress { session, events: Seq::empty(), breach: None }
    } else {
        advanced(progressed(session, exchanges.drop_last()), exchanges.last())
    }
}

/// Whether a session reads on: no breach, not closed, and a whole frame is there.
pub open spec fn reads_on(progress: Progress) -> bool {
    &&& progress.breach is None
    &&& progress.session.state != State::Closed
    &&& parse_frame(progress.session.pending, progress.session.max) is Frame
}

/// The payload a session reads next.
pub open spec fn next_payload(progress: Progress) -> Seq<u8> {
    match parse_frame(progress.session.pending, progress.session.max) {
        Parsed::Frame { payload, .. } => payload,
        _ => Seq::empty(),
    }
}

/// Whether a codec's decoding function gave `decoded` for a payload.
pub open spec fn decoded_by<D: Fn(Codec, &Vec<u8>) -> Result<Message, CodecError>>(
    decode: D,
    codec: Codec,
    payload: Seq<u8>,
    decoded: Result<Message, CodecError>,
) -> bool {
    exists|bytes: &Vec<u8>|
        bytes@ == payload && #[trigger] decode.ensures((codec, bytes), decoded)
}

/// Whether an exchange is what the codec made of the frame a session reads next.
pub open spec fn exchanged<
    D: Fn(Codec, &Vec<u8>) -> Result<Message, CodecError>,
    E: Fn(Codec, &Message) -> Result<Vec<u8>, CodecError>,
>(decode: D, encode: E, before: Progress, exchange: Exchange) -> bool {
    let session = before.session;
    &&& decoded_by(decode, codec_in(session.state), next_payload(before), exchange.decoded)
    &&& match received(session.role, session.codecs, session.state, exchange.decoded).1 {
        Outcome::Answer { codec, seq } => exchange.answer matches Some(encoded) && encode.ensures(
            (codec, &Message::Pong { seq }),
            encoded,
        ),
        _ => exchange.answer is None,
    }
}

/// Whether the exchanges are what the codec made of the frames, in order, each of
/// them read because the session was reading on.
pub open spec fn faithful<
    D: Fn(Codec, &Vec<u8>) -> Result<Message, CodecError>,
    E: Fn(Codec, &Message) -> Result<Vec<u8>, CodecError>,
>(decode: D, encode: E, session: SessionView, exchanges: Seq<Exchange>) -> bool
    decreases exchanges.len(),
{
    exchanges.len() == 0 || {
        let before = progressed(session, exchanges.drop_last());
        &&& faithful(decode, encode, session, exchanges.drop_last())
        &&& reads_on(before)
        &&& exchanged(decode, encode, before, exchanges.last())
    }
}

proof fn lemma_one_more<
    D: Fn(Codec, &Vec<u8>) -> Result<Message, CodecError>,
    E: Fn(Codec, &Message) -> Result<Vec<u8>, CodecError>,
>(
    decode: D,
    encode: E,
    session: SessionView,
    exchanges: Seq<Exchange>,
    before: Progress,
    exchange: Exchange,
)
    requires
        faithful(decode, encode, session, exchanges),
        before == progressed(session, exchanges),
        reads_on(before),
        exchanged(decode, encode, before, exchange),
    ensures
        faithful(decode, encode, session, exchanges.push(exchange)),
        progressed(session, exchanges.push(exchange)) == advanced(before, exchange),
{
    assert(exchanges.push(exchange).drop_last() =~= exchanges);
}

/// A session that has said goodbye.
pub open spec fn said_goodbye(
    session: SessionView,
    encoded: Result<Vec<u8>, CodecError>,
) -> SessionView {
    SessionView {
        state: State::Closed,
        out: with_payload(session.out, encoded),
        ..session
    }
}

/// Whether a codec's encoding function gave `encoded` for a goodbye.
pub open spec fn goodbye_encoded<E: Fn(Codec, &Message) -> Result<Vec<u8>, CodecError>>(
    encode: E,
    codec: Codec,
    reason: Seq<char>,
    encoded: Result<Vec<u8>, CodecError>,
) -> bool {
    exists|said: String|
        said@ == reason && #[trigger] encode.ensures(
            (codec, &Message::Goodbye { reason: said }),
            encoded,
        )
}

/// Whether a session was closed for a reason: it queued a goodbye, as far as that
/// could be encoded and framed.
pub open spec fn closed_for<E: Fn(Codec, &Message) -> Result<Vec<u8>, CodecError>>(
    encode: E,
    before: SessionView,
    reason: Seq<char>,
    after: SessionView,
) -> bool {
    exists|encoded: Result<Vec<u8>, CodecError>| #[trigger]
        goodbye_encoded(encode, codec_in(before.state), reason, encoded) && after == said_goodbye(
            before,
            encoded,
        )
}

/// What ended the reading of a session: a breach, or a frame that no frame may be.
pub open spec fn fatal(progress: Progress) -> Option<ErrorView> {
    match progress.breach {
        Some(error) => Some(error),
        None => if progress.session.state == State::Closed {
            None
        } else {
            match parse_frame(progress.session.pending, progress.session.max) {
                Parsed::Invalid(error) => Some(ErrorView::Frame(error)),
                _ => None,
            }
        },
    }
}

impl Session {
    pub closed spec fn wf(&self) -> bool {
        self.reader.wf()
    }

    /// A session with its hello queued already; drain it with
    /// [`take_output`](Self::take_output) and send it to the peer. The codec must
    /// be able to encode that hello.
    pub fn new<E: Fn(Codec, &Message) -> Result<Vec<u8>, CodecError>>(
        config: SessionConfig,
        encode: E,
    ) -> (session: Self)
        requires
            forall|codec: Codec, message: &Message| encode.requires((codec, message)),
            forall|message: &Message, encoded: Result<Vec<u8>, CodecError>| #[trigger]
                encode.ensures((Codec::HANDSHAKE, message), encoded) && (message matches
                    Message::Hello(hello) && introduces(*hello, config)) ==> (encoded matches Ok(
                    payload,
                ) && framable(payload@)),
        ensures
            session.wf(),
            session@.role == config.role,
            session@.codecs == codec_names(config.codecs@),
            session@.max == config.max_frame_len,
            session@.state == State::AwaitingHello,
            session@.pending == Seq::<u8>::empty(),
            exists|hello: Hello, payload: Vec<u8>|
                introduces(hello, config) && #[trigger] encode.ensures(
                    (Codec::HANDSHAKE, &Message::Hello(hello)),
                    Ok(payload),
                ) && session@.out == frame_bytes(payload@),
    {
        let hello: Hello = config.hello();
        let ghost said = hello;
        let message = Message::Hello(hello);
        let mut out: Vec<u8> = Vec::new();
        let encoded: Result<Vec<u8>, CodecError> = encode(Codec::HANDSHAKE, &message);
        match encoded {
            Ok(payload) => {
                let framed: Result<(), FrameError> = frame_into(payload.as_slice(), &mut out);
                proof {
                    assert(encode.ensures(
                        (Codec::HANDSHAKE, &Message::Hello(said)),
                        Ok::<Vec<u8>, CodecError>(payload),
                    ));
                    assert(out@ =~= frame_bytes(payload@));
                }
            },
            Err(_) => {
                assert(false);
            },
        }
        let reader: FrameReader = FrameReader::with_max_len(config.max_frame_len);
        Session { config, reader, state: State::AwaitingHello, out }
    }

    pub fn is_established(&self) -> (established: bool)
        ensures
            established == (self@.state is Established),
    {
        matches!(self.state, State::Established { .. })
    }

    pub fn is_closed(&self) -> (closed: bool)
        ensures
            closed == (self@.state == State::Closed),
    {
        matches!(self.state, State::Closed)
    }

    /// Drains the bytes that must be sent to the peer.
    pub fn take_output(&mut self) -> (bytes: Vec<u8>)
        requires
            old(self).wf(),
        ensures
            final(self).wf(),
            bytes@ == old(self)@.out,
            final(self)@ == (SessionView { out: Seq::empty(), ..old(self)@ }),
    {
        let mut bytes: Vec<u8> = Vec::new();
        std::mem::swap(&mut self.out, &mut bytes);
        bytes
    }

    /// The codec this end and a peer agree on.
    pub fn negotiate_codec(&self, peer: &Hello) -> (codec: Option<Codec>)
        ensures
            codec == agreed_codec(self@.role, self@.codecs, views(peer.codecs@)),
    {
        let ours: Vec<String> = names_of(self.config.codecs.as_slice());
        match self.config.role {
            PeerRole::Provider => first_common(ours.as_slice(), peer.codecs.as_slice()),
            PeerRole::Consumer => first_common(peer.codecs.as_slice(), ours.as_slice()),
        }
    }

    /// Takes the first message of the peer.
    fn handle_hello(&mut self, message: Message) -> (step: Result<Step, SessionError>)
        requires
            old(self).wf(),
            old(self)@.state == State::AwaitingHello,
        ensures
            final(self).wf(),
            ({
                let (state, outcome) = greeted(old(self)@.role, old(self)@.codecs, message);
                &&& final(self)@ == SessionView { state, ..old(self)@ }
                &&& is_outcome(step, outcome)
            }),
    {
        let hello: Hello = match message {
            Message::Hello(hello) => hello,
            _ => {
                return Err(
                    SessionError::UnexpectedMessage("first message must be hello".to_owned()),
                );
            },
        };
        if hello.role != self.config.role.opposite() {
            return Err(SessionError::RoleConflict);
        }
        let version: u32 = if hello.version < PROTOCOL_VERSION {
            hello.version
        } else {
            PROTOCOL_VERSION
        };
        if version < MIN_PROTOCOL_VERSION {
            return Err(
                SessionError::IncompatibleVersion {
                    ours: PROTOCOL_VERSION,
                    theirs: hello.version,
                },
            );
        }
        match self.negotiate_codec(&hello) {
            Some(codec) => {
                self.state = State::Established { codec };
                Ok(Step::Event(SessionEvent::Established { version, codec }))
            },
            None => Err(SessionError::NoCommonCodec),
        }
    }

    /// Takes a payload that has been decoded, or failed to be, and says what it
    /// calls for; see [`received`].
    pub fn receive(&mut self, decoded: Result<Message, CodecError>) -> (step: Result<
        Step,
        SessionError,
    >)
        requires
            old(self).wf(),
        ensures
            final(self).wf(),
            ({
                let (state, outcome) = received(
                    old(self)@.role,
                    old(self)@.codecs,
                    old(self)@.state,
                    decoded,
                );
                &&& final(self)@ == SessionView { state, ..old(self)@ }
                &&& is_outcome(step, outcome)
            }),
    {
        let message: Message = match decoded {
            Ok(message) => message,
            Err(error) => {
                return Err(SessionError::Codec(error));
            },
        };
        match self.state {
            State::AwaitingHello => self.handle_hello(message),
            State::Established { codec } => match message {
                Message::Hello(_) => Err(
                    SessionError::UnexpectedMessage("hello after handshake".to_owned()),
                ),
                Message::Goodbye { reason } => {
                    self.state = State::Closed;
                    Ok(Step::Event(SessionEvent::Closed { reason }))
                },
                Message::Ping { seq } => Ok(Step::Answer { codec, seq }),
                other => Ok(Step::Event(SessionEvent::Message(other))),
            },
            State::Closed => Err(SessionError::NotEstablished),
        }
    }

    /// Frames an encoded message behind what is to be sent.
    pub fn queue(&mut self, encoded: Result<Vec<u8>, CodecError>) -> (queued: Result<
        (),
        SessionError,
    >)
        requires
            old(self).wf(),
        ensures
            final(self).wf(),
            final(self)@ == (SessionView {
                out: with_payload(old(self)@.out, encoded),
                ..old(self)@
            }),
            match queue_error(encoded) {
                Some(error) => queued matches Err(raised) && raised@ == error,
                None => queued is Ok,
            },
    {
        match encoded {
            Ok(payload) => match frame_into(payload.as_slice(), &mut self.out) {
                Ok(()) => Ok(()),
                Err(error) => Err(SessionError::Frame(error)),
            },
            Err(error) => Err(SessionError::Codec(error)),
        }
    }

    /// Encodes and queues an application message.
    pub fn send<E: Fn(Codec, &Message) -> Result<Vec<u8>, CodecError>>(
        &mut self,
        message: &Message,
        encode: E,
    ) -> (sent: Result<(), SessionError>)
        requires
            old(self).wf(),
            forall|codec: Codec, message: &Message| encode.requires((codec, message)),
        ensures
            final(self).wf(),
            old(self)@.state !is Established ==> (sent matches Err(raised) && raised@
                == ErrorView::NotEstablished && final(self)@ == old(self)@),
            old(self)@.state is Established && (message is Hello || message is Goodbye) ==> (
            sent matches Err(raised) && raised@ == ErrorView::UnexpectedMessage(
                "hello and goodbye are managed by the session"@,
            ) && final(self)@ == old(self)@),
            old(self)@.state is Established && message !is Hello && message !is Goodbye
                ==> exists|encoded: Result<Vec<u8>, CodecError>| #[trigger]
                encode.ensures((codec_in(old(self)@.state), message), encoded) && final(self)@ == (
                SessionView { out: with_payload(old(self)@.out, encoded), ..old(self)@ })
                    && match queue_error(encoded) {
                    Some(error) => sent matches Err(raised) && raised@ == error,
                    None => sent is Ok,
                },
    {
        let codec: Codec = match self.state {
            State::Established { codec } => codec,
            _ => {
                return Err(SessionError::NotEstablished);
            },
        };
        if matches!(message, Message::Hello(_) | Message::Goodbye { .. }) {
            return Err(
                SessionError::UnexpectedMessage(
                    "hello and goodbye are managed by the session".to_owned(),
                ),
            );
        }
        let encoded: Result<Vec<u8>, CodecError> = encode(codec, message);
        let ghost given = encoded;
        let sent: Result<(), SessionError> = self.queue(encoded);
        assert(encode.ensures((codec_in(old(self)@.state), message), given));
        sent
    }

    /// Queues a goodbye and closes the session, unless it is closed already.
    pub fn close<E: Fn(Codec, &Message) -> Result<Vec<u8>, CodecError>>(
        &mut self,
        reason: String,
        encode: E,
    )
        requires
            old(self).wf(),
            forall|codec: Codec, message: &Message| encode.requires((codec, message)),
        ensures
            final(self).wf(),
            old(self)@.state == State::Closed ==> final(self)@ == old(self)@,
            old(self)@.state != State::Closed ==> closed_for(
                encode,
                old(self)@,
                reason@,
                final(self)@,
            ),
    {
        self.say_goodbye(reason, &encode);
    }

    /// Queues a goodbye and closes the session, unless it is closed already.
    fn say_goodbye<E: Fn(Codec, &Message) -> Result<Vec<u8>, CodecError>>(
        &mut self,
        reason: String,
        encode: &E,
    )
        requires
            old(self).wf(),
            forall|codec: Codec, message: &Message| encode.requires((codec, message)),
        ensures
            final(self).wf(),
            old(self)@.state == State::Closed ==> final(self)@ == old(self)@,
            old(self)@.state != State::Closed ==> closed_for(
                *encode,
                old(self)@,
                reason@,
                final(self)@,
            ),
    {
        let codec: Codec = match self.state {
            State::Closed => {
                return ;
            },
            State::Established { codec } => codec,
            State::AwaitingHello => Codec::HANDSHAKE,
        };
        let ghost said = reason;
        let goodbye = Message::Goodbye { reason };
        let encoded: Result<Vec<u8>, CodecError> = encode(codec, &goodbye);
        let ghost given = encoded;
        proof {
            assert(encode.ensures((codec, &Message::Goodbye { reason: said }), given));
            assert(goodbye_encoded(*encode, codec_in(old(self)@.state), said@, given));
        }
        let queued: Result<(), SessionError> = self.queue(encoded);
        self.state = State::Closed;
        assert(self@ == said_goodbye(old(self)@, given));
    }
}

impl Session {
    /// Reads one frame, if a whole one is there, and takes what it holds.
    fn read_frame<
        D: Fn(Codec, &Vec<u8>) -> Result<Message, CodecError>,
        E: Fn(Codec, &Message) -> Result<Vec<u8>, CodecError>,
    >(
        &mut self,
        events: &mut Vec<SessionEvent>,
        decode: &D,
        encode: &E,
        Ghost(before): Ghost<Progress>,
    ) -> (read: (Result<bool, SessionError>, Ghost<Option<Exchange>>))
        requires
            old(self).wf(),
            before == (Progress { session: old(self)@, events: old(events)@, breach: None }),
            old(self)@.state != State::Closed,
            forall|codec: Codec, bytes: &Vec<u8>| decode.requires((codec, bytes)),
            forall|codec: Codec, message: &Message| encode.requires((codec, message)),
        ensures
            final(self).wf(),
            reads_on(before) <==> read.1@ is Some,
            match read.1@ {
                Some(exchange) => {
                    let after = advanced(before, exchange);
                    &&& final(self)@ == after.session
                    &&& final(events)@ == after.events
                    &&& match after.breach {
                        Some(error) => read.0 matches Err(raised) && raised@ == error,
                        None => read.0 == Ok::<bool, SessionError>(true),
                    }
                    &&& exchanged(*decode, *encode, before, exchange)
                },
                None => {
                    &&& final(self)@ == old(self)@
                    &&& final(events)@ == old(events)@
                    &&& match fatal(before) {
                        Some(error) => read.0 matches Err(raised) && raised@ == error,
                        None => read.0 == Ok::<bool, SessionError>(false),
                    }
                },
            },
    {
        let payload: Vec<u8> = match self.reader.next_frame() {
            Ok(Some(payload)) => payload,
            Ok(None) => {
                return (Ok(false), Ghost(None));
            },
            Err(error) => {
                return (Err(SessionError::Frame(error)), Ghost(None));
            },
        };
        let codec: Codec = match self.state {
            State::Established { codec } => codec,
            _ => Codec::HANDSHAKE,
        };
        let decoded: Result<Message, CodecError> = decode(codec, &payload);
        let ghost given = decoded;
        assert(decode.ensures((codec, &payload), given));
        assert(decoded_by(
            *decode,
            codec_in(before.session.state),
            next_payload(before),
            given,
        ));
        match self.receive(decoded) {
            Ok(Step::Event(event)) => {
                events.push(event);
                (Ok(true), Ghost(Some(Exchange { decoded: given, answer: None })))
            },
            Ok(Step::Answer { codec, seq }) => {
                let pong = Message::Pong { seq };
                let encoded: Result<Vec<u8>, CodecError> = encode(codec, &pong);
                let ghost answer = encoded;
                assert(encode.ensures((codec, &Message::Pong { seq }), answer));
                let queued: Result<(), SessionError> = self.queue(encoded);
                let ghost exchange = Exchange { decoded: given, answer: Some(answer) };
                match queued {
                    Ok(()) => (Ok(true), Ghost(Some(exchange))),
                    Err(error) => (Err(error), Ghost(Some(exchange))),
                }
            },
            Err(error) => (
                Err(error),
                Ghost(Some(Exchange { decoded: given, answer: None })),
            ),
        }
    }

    /// Consumes a chunk received from the peer: reads every whole frame, decodes
    /// it and takes what it holds, until the bytes run out, the peer says goodbye,
    /// or something fatal comes up. On a fatal error the session queues a goodbye
    /// and closes; the caller should send what is queued before it drops the
    /// connection. A closed session takes nothing.
    pub fn handle_input<
        D: Fn(Codec, &Vec<u8>) -> Result<Message, CodecError>,
        E: Fn(Codec, &Message) -> Result<Vec<u8>, CodecError>,
    >(&mut self, chunk: &[u8], decode: D, encode: E) -> (result: Result<
        Vec<SessionEvent>,
        SessionError,
    >)
        requires
            old(self).wf(),
            forall|codec: Codec, bytes: &Vec<u8>| decode.requires((codec, bytes)),
            forall|codec: Codec, message: &Message| encode.requires((codec, message)),
        ensures
            final(self).wf(),
            handled(decode, encode, old(self)@, chunk@, final(self)@, result_view(result)),
    {
        let mut events: Vec<SessionEvent> = Vec::new();
        if self.is_closed() {
            assert(events@ =~= Seq::<SessionEvent>::empty());
            return Ok(events);
        }
        self.reader.push(chunk);
        let ghost start = self@;
        assert(start == with_bytes(old(self)@, chunk@));
        let (drained, Ghost(exchanges)) = self.drain_frames(&mut events, &decode, &encode);
        match drained {
            Ok(()) => {
                assert(taken(
                    decode,
                    encode,
                    start,
                    exchanges,
                    self@,
                    Ok::<Seq<SessionEvent>, ErrorView>(events@),
                ));
                Ok(events)
            },
            Err(error) => {
                let reason: String = error.message();
                self.say_goodbye(reason, &encode);
                assert(taken(
                    decode,
                    encode,
                    start,
                    exchanges,
                    self@,
                    Err::<Seq<SessionEvent>, ErrorView>(error@),
                ));
                Err(error)
            },
        }
    }

    /// Reads frames until there are no more, the session closes, or something
    /// fatal comes up.
    fn drain_frames<
        D: Fn(Codec, &Vec<u8>) -> Result<Message, CodecError>,
        E: Fn(Codec, &Message) -> Result<Vec<u8>, CodecError>,
    >(&mut self, events: &mut Vec<SessionEvent>, decode: &D, encode: &E) -> (drained: (
        Result<(), SessionError>,
        Ghost<Seq<Exchange>>,
    ))
        requires
            old(self).wf(),
            old(events)@.len() == 0,
            forall|codec: Codec, bytes: &Vec<u8>| decode.requires((codec, bytes)),
            forall|codec: Codec, message: &Message| encode.requires((codec, message)),
        ensures
            final(self).wf(),
            ({
                let end = progressed(old(self)@, drained.1@);
                &&& faithful(*decode, *encode, old(self)@, drained.1@)
                &&& !reads_on(end)
                &&& final(self)@ == end.session
                &&& final(events)@ == end.events
                &&& match fatal(end) {
                    Some(error) => drained.0 matches Err(raised) && raised@ == error,
                    None => drained.0 is Ok,
                }
            }),
    {
        let ghost start = self@;
        let ghost mut exchanges: Seq<Exchange> = Seq::empty();
        assert(events@ =~= Seq::<SessionEvent>::empty());
        while !self.is_closed()
            invariant
                self.wf(),
                start == old(self)@,
                forall|codec: Codec, bytes: &Vec<u8>| decode.requires((codec, bytes)),
                forall|codec: Codec, message: &Message| encode.requires((codec, message)),
                faithful(*decode, *encode, start, exchanges),
                progressed(start, exchanges) == (Progress {
                    session: self@,
                    events: events@,
                    breach: None,
                }),
            decreases self@.pending.len(),
        {
            let ghost before = progressed(start, exchanges);
            let (read, Ghost(exchange)) = self.read_frame(events, decode, encode, Ghost(before));
            proof {
                match exchange {
                    Some(exchange) => {
                        lemma_one_more(*decode, *encode, start, exchanges, before, exchange);
                        lemma_frame_shrinks(before, exchange);
                        exchanges = exchanges.push(exchange);
                    },
                    None => {},
                }
            }
            match read {
                Ok(true) => {},
                Ok(false) => {
                    return (Ok(()), Ghost(exchanges));
                },
                Err(error) => {
                    return (Err(error), Ghost(exchanges));
                },
            }
        }
        (Ok(()), Ghost(exchanges))
    }
}

/// The content of what a session makes of a chunk.
pub open spec fn result_view(result: Result<Vec<SessionEvent>, SessionError>) -> Result<
    Seq<SessionEvent>,
    ErrorView,
> {
    match result {
        Ok(events) => Ok(events@),
        Err(error) => Err(error@),
    }
}

/// Whether a session took its bytes as it should: the exchanges are what the
/// codec made of the frames; the events are theirs; and reading ended because the
/// bytes ran out or the peer said goodbye, or else with the error that ended it,
/// upon which the session was closed with that error's words.
pub open spec fn taken<
    D: Fn(Codec, &Vec<u8>) -> Result<Message, CodecError>,
    E: Fn(Codec, &Message) -> Result<Vec<u8>, CodecError>,
>(
    decode: D,
    encode: E,
    start: SessionView,
    exchanges: Seq<Exchange>,
    after: SessionView,
    result: Result<Seq<SessionEvent>, ErrorView>,
) -> bool {
    let end = progressed(start, exchanges);
    &&& faithful(decode, encode, start, exchanges)
    &&& !reads_on(end)
    &&& match fatal(end) {
        Some(error) => {
            &&& result == Err::<Seq<SessionEvent>, ErrorView>(error)
            &&& if end.session.state == State::Closed {
                after == end.session
            } else {
                closed_for(encode, end.session, error_text(error), after)
            }
        },
        None => {
            &&& result == Ok::<Seq<SessionEvent>, ErrorView>(end.events)
            &&& after == end.session
        },
    }
}

/// Whether a session took a chunk as it should: a closed one takes nothing, and any
/// other takes its bytes with the chunk behind them.
pub open spec fn handled<
    D: Fn(Codec, &Vec<u8>) -> Result<Message, CodecError>,
    E: Fn(Codec, &Message) -> Result<Vec<u8>, CodecError>,
>(
    decode: D,
    encode: E,
    before: SessionView,
    chunk: Seq<u8>,
    after: SessionView,
    result: Result<Seq<SessionEvent>, ErrorView>,
) -> bool {
    if before.state == State::Closed {
        &&& after == before
        &&& result == Ok::<Seq<SessionEvent>, ErrorView>(Seq::empty())
    } else {
        exists|exchanges: Seq<Exchange>| #[trigger]
            taken(decode, encode, with_bytes(before, chunk), exchanges, after, result)
    }
}

proof fn lemma_frame_shrinks(progress: Progress, exchange: Exchange)
    requires
        reads_on(progress),
    ensures
        advanced(progress, exchange).session.pending.len() < progress.session.pending.len(),
{
}

/// Whatever a session made of its frames, it makes the same of them when more bytes
/// have arrived behind them, and leaves those.
pub proof fn law_more_bytes_change_no_exchange(
    session: SessionView,
    exchanges: Seq<Exchange>,
    more: Seq<u8>,
)
    requires
        forall|k: int|
            0 <= k < exchanges.len() ==> #[trigger] reads_on(
                progressed(session, exchanges.take(k)),
            ),
    ensures
        ({
            let longer = with_bytes(session, more);
            let (a, b) = (progressed(session, exchanges), progressed(longer, exchanges));
            &&& b.events == a.events
            &&& b.breach == a.breach
            &&& b.session == with_bytes(a.session, more)
        }),
    decreases exchanges.len(),
{
    if exchanges.len() > 0 {
        let init = exchanges.drop_last();
        let n = exchanges.len() - 1;
        assert forall|k: int| 0 <= k < init.len() implies #[trigger] reads_on(
            progressed(session, init.take(k)),
        ) by {
            assert(init.take(k) =~= exchanges.take(k));
            assert(reads_on(progressed(session, exchanges.take(k))));
        }
        law_more_bytes_change_no_exchange(session, init, more);
        let before = progressed(session, init);
        assert(exchanges.take(n) =~= init);
        assert(reads_on(progressed(session, exchanges.take(n))));
        law_more_bytes_change_nothing_read(
            before.session.pending,
            more,
            before.session.max,
        );
    }
}

/// Whether two readings of a payload come to the same.
pub open spec fn same_reading(
    one: Result<Message, CodecError>,
    other: Result<Message, CodecError>,
) -> bool {
    match (one, other) {
        (Ok(a), Ok(b)) => a == b,
        (Err(a), Err(b)) => a.0@ == b.0@,
        _ => false,
    }
}

/// Whether two encodings of a message come to the same.
pub open spec fn same_encoding(
    one: Result<Vec<u8>, CodecError>,
    other: Result<Vec<u8>, CodecError>,
) -> bool {
    match (one, other) {
        (Ok(a), Ok(b)) => a@ == b@,
        (Err(a), Err(b)) => a.0@ == b.0@,
        _ => false,
    }
}

/// Whether a codec reads the same payload always the same way.
pub open spec fn reads_alike<D: Fn(Codec, &Vec<u8>) -> Result<Message, CodecError>>(
    decode: D,
) -> bool {
    forall|
        codec: Codec,
        payload: Seq<u8>,
        one: Result<Message, CodecError>,
        other: Result<Message, CodecError>,
    |
        #![trigger decoded_by(decode, codec, payload, one), decoded_by(decode, codec, payload, other)]
        decoded_by(decode, codec, payload, one) && decoded_by(decode, codec, payload, other)
            ==> same_reading(one, other)
}

/// Whether a codec writes the same message always the same way.
pub open spec fn writes_alike<E: Fn(Codec, &Message) -> Result<Vec<u8>, CodecError>>(
    encode: E,
) -> bool {
    &&& forall|
        codec: Codec,
        message: &Message,
        one: Result<Vec<u8>, CodecError>,
        other: Result<Vec<u8>, CodecError>,
    |
        #![trigger encode.ensures((codec, message), one), encode.ensures((codec, message), other)]
        encode.ensures((codec, message), one) && encode.ensures((codec, message), other)
            ==> same_encoding(one, other)
    &&& forall|
        codec: Codec,
        reason: Seq<char>,
        one: Result<Vec<u8>, CodecError>,
        other: Result<Vec<u8>, CodecError>,
    |
        #![trigger goodbye_encoded(encode, codec, reason, one), goodbye_encoded(encode, codec, reason, other)]
        goodbye_encoded(encode, codec, reason, one) && goodbye_encoded(
            encode,
            codec,
            reason,
            other,
        ) ==> same_encoding(one, other)
}

proof fn lemma_same_step<
    D: Fn(Codec, &Vec<u8>) -> Result<Message, CodecError>,
    E: Fn(Codec, &Message) -> Result<Vec<u8>, CodecError>,
>(decode: D, encode: E, before: Progress, one: Exchange, other: Exchange)
    requires
        reads_alike(decode),
        writes_alike(encode),
        exchanged(decode, encode, before, one),
        exchanged(decode, encode, before, other),
    ensures
        advanced(before, one) == advanced(before, other),
{
    let session = before.session;
    assert(same_reading(one.decoded, other.decoded));
    let (state, outcome) = received(session.role, session.codecs, session.state, one.decoded);
    assert((state, outcome) == received(
        session.role,
        session.codecs,
        session.state,
        other.decoded,
    ));
    if outcome is Answer {
        assert(same_encoding(one.answer->0, other.answer->0));
    }
}

/// Two readings of the same bytes go the same way as far as both go.
proof fn lemma_same_progress<
    D: Fn(Codec, &Vec<u8>) -> Result<Message, CodecError>,
    E: Fn(Codec, &Message) -> Result<Vec<u8>, CodecError>,
>(
    decode: D,
    encode: E,
    session: SessionView,
    one: Seq<Exchange>,
    other: Seq<Exchange>,
    k: int,
)
    requires
        reads_alike(decode),
        writes_alike(encode),
        faithful(decode, encode, session, one),
        faithful(decode, encode, session, other),
        0 <= k <= one.len(),
        k <= other.len(),
    ensures
        progressed(session, one.take(k)) == progressed(session, other.take(k)),
    decreases k,
{
    if k == 0 {
        assert(one.take(0) =~= other.take(0));
    } else {
        let j = k - 1;
        lemma_same_progress(decode, encode, session, one, other, j);
        lemma_faithful_so_far(decode, encode, session, one, j);
        lemma_faithful_so_far(decode, encode, session, other, j);
        let before = progressed(session, one.take(j));
        lemma_same_step(decode, encode, before, one[j], other[j]);
        assert(one.take(k).drop_last() =~= one.take(j));
        assert(other.take(k).drop_last() =~= other.take(j));
        assert(one.take(k).last() == one[j]);
        assert(other.take(k).last() == other[j]);
    }
}

/// Two readings of the same bytes, both to the end, come to the same.
proof fn lemma_same_end<
    D: Fn(Codec, &Vec<u8>) -> Result<Message, CodecError>,
    E: Fn(Codec, &Message) -> Result<Vec<u8>, CodecError>,
>(decode: D, encode: E, session: SessionView, one: Seq<Exchange>, other: Seq<Exchange>)
    requires
        reads_alike(decode),
        writes_alike(encode),
        faithful(decode, encode, session, one),
        faithful(decode, encode, session, other),
        !reads_on(progressed(session, one)),
        !reads_on(progressed(session, other)),
    ensures
        progressed(session, one) == progressed(session, other),
{
    let n = if one.len() < other.len() {
        one.len() as int
    } else {
        other.len() as int
    };
    lemma_same_progress(decode, encode, session, one, other, n);
    assert(one.take(one.len() as int) =~= one);
    assert(other.take(other.len() as int) =~= other);
    if n < one.len() {
        lemma_faithful_so_far(decode, encode, session, one, n);
    }
    if n < other.len() {
        lemma_faithful_so_far(decode, encode, session, other, n);
    }
}

/// Two goodbyes for the same reason leave the same session.
proof fn lemma_same_goodbye<E: Fn(Codec, &Message) -> Result<Vec<u8>, CodecError>>(
    encode: E,
    before: SessionView,
    reason: Seq<char>,
    one: SessionView,
    other: SessionView,
)
    requires
        writes_alike(encode),
        closed_for(encode, before, reason, one),
        closed_for(encode, before, reason, other),
    ensures
        one == other,
{
    let codec = codec_in(before.state);
    let a = choose|encoded: Result<Vec<u8>, CodecError>| #[trigger]
        goodbye_encoded(encode, codec, reason, encoded) && one == said_goodbye(before, encoded);
    let b = choose|encoded: Result<Vec<u8>, CodecError>| #[trigger]
        goodbye_encoded(encode, codec, reason, encoded) && other == said_goodbye(before, encoded);
    assert(same_encoding(a, b));
}

/// The frames that were read are read when more bytes have arrived behind them.
proof fn lemma_faithful_longer<
    D: Fn(Codec, &Vec<u8>) -> Result<Message, CodecError>,
    E: Fn(Codec, &Message) -> Result<Vec<u8>, CodecError>,
>(decode: D, encode: E, session: SessionView, exchanges: Seq<Exchange>, more: Seq<u8>)
    requires
        faithful(decode, encode, session, exchanges),
    ensures
        faithful(decode, encode, with_bytes(session, more), exchanges),
        ({
            let (a, b) = (
                progressed(session, exchanges),
                progressed(with_bytes(session, more), exchanges),
            );
            &&& b.events == a.events
            &&& b.breach == a.breach
            &&& b.session == with_bytes(a.session, more)
        }),
    decreases exchanges.len(),
{
    assert forall|k: int| 0 <= k < exchanges.len() implies #[trigger] reads_on(
        progressed(session, exchanges.take(k)),
    ) by {
        lemma_faithful_so_far(decode, encode, session, exchanges, k);
    }
    law_more_bytes_change_no_exchange(session, exchanges, more);
    if exchanges.len() > 0 {
        let init = exchanges.drop_last();
        lemma_faithful_longer(decode, encode, session, init, more);
        let before = progressed(session, init);
        law_more_bytes_change_nothing_read(before.session.pending, more, before.session.max);
    }
}

/// What was read first and what was read after it are one reading.
proof fn lemma_joined<
    D: Fn(Codec, &Vec<u8>) -> Result<Message, CodecError>,
    E: Fn(Codec, &Message) -> Result<Vec<u8>, CodecError>,
>(decode: D, encode: E, session: SessionView, first: Seq<Exchange>, second: Seq<Exchange>)
    requires
        faithful(decode, encode, session, first),
        progressed(session, first).breach is None,
        faithful(decode, encode, progressed(session, first).session, second),
    ensures
        faithful(decode, encode, session, first + second),
        ({
            let middle = progressed(session, first);
            let end = progressed(middle.session, second);
            progressed(session, first + second) == (Progress {
                events: middle.events + end.events,
                ..end
            })
        }),
    decreases second.len(),
{
    let middle = progressed(session, first);
    if second.len() == 0 {
        assert(first + second =~= first);
        assert(middle.events + Seq::<SessionEvent>::empty() =~= middle.events);
    } else {
        let init = second.drop_last();
        lemma_joined(decode, encode, session, first, init);
        assert((first + second).drop_last() =~= first + init);
        let (part, before) = (progressed(middle.session, init), progressed(session, first + init));
        let (one, all) = (advanced(part, second.last()), advanced(before, second.last()));
        assert(all.events =~= middle.events + one.events);
    }
}

/// What two chunks come to, taken as one.
pub open spec fn joined(
    first: Result<Seq<SessionEvent>, ErrorView>,
    second: Result<Seq<SessionEvent>, ErrorView>,
) -> Result<Seq<SessionEvent>, ErrorView> {
    match (first, second) {
        (Ok(before), Ok(after)) => Ok(before + after),
        (Ok(_), Err(error)) => Err(error),
        (Err(error), _) => Err(error),
    }
}

/// A session that was to take one chunk and then another, as it is had it taken both
/// at once. One that the first chunk closed took no second; at once, it holds the
/// second unread.
pub open spec fn at_once(
    before: SessionView,
    middle: SessionView,
    second: Seq<u8>,
    end: SessionView,
) -> SessionView {
    if before.state != State::Closed && middle.state == State::Closed {
        with_bytes(end, second)
    } else {
        end
    }
}

proof fn lemma_goodbye_longer<E: Fn(Codec, &Message) -> Result<Vec<u8>, CodecError>>(
    encode: E,
    before: SessionView,
    more: Seq<u8>,
    reason: Seq<char>,
    after: SessionView,
)
    requires
        closed_for(encode, before, reason, after),
    ensures
        closed_for(encode, with_bytes(before, more), reason, with_bytes(after, more)),
{
    let encoded = choose|encoded: Result<Vec<u8>, CodecError>| #[trigger]
        goodbye_encoded(encode, codec_in(before.state), reason, encoded) && after == said_goodbye(
            before,
            encoded,
        );
    assert(with_bytes(after, more) == said_goodbye(with_bytes(before, more), encoded));
}

/// A reading that closed the session is the whole reading, more bytes or not.
proof fn lemma_closed_piece<
    D: Fn(Codec, &Vec<u8>) -> Result<Message, CodecError>,
    E: Fn(Codec, &Message) -> Result<Vec<u8>, CodecError>,
>(
    decode: D,
    encode: E,
    start: SessionView,
    more: Seq<u8>,
    exchanges: Seq<Exchange>,
    after: SessionView,
    result: Result<Seq<SessionEvent>, ErrorView>,
)
    requires
        taken(decode, encode, start, exchanges, after, result),
        after.state == State::Closed,
    ensures
        taken(
            decode,
            encode,
            with_bytes(start, more),
            exchanges,
            with_bytes(after, more),
            result,
        ),
{
    let read = progressed(start, exchanges);
    lemma_faithful_longer(decode, encode, start, exchanges, more);
    law_more_bytes_change_nothing_read(read.session.pending, more, read.session.max);
    let longer = progressed(with_bytes(start, more), exchanges);
    assert(fatal(longer) == fatal(read));
    match fatal(read) {
        Some(error) => {
            if read.session.state != State::Closed {
                lemma_goodbye_longer(encode, read.session, more, error_text(error), after);
            }
        },
        None => {},
    }
}

/// A reading that left the session open goes on when more bytes come.
proof fn lemma_open_piece<
    D: Fn(Codec, &Vec<u8>) -> Result<Message, CodecError>,
    E: Fn(Codec, &Message) -> Result<Vec<u8>, CodecError>,
>(
    decode: D,
    encode: E,
    start: SessionView,
    more: Seq<u8>,
    first: Seq<Exchange>,
    middle: SessionView,
    before: Result<Seq<SessionEvent>, ErrorView>,
    second: Seq<Exchange>,
    end: SessionView,
    after: Result<Seq<SessionEvent>, ErrorView>,
)
    requires
        taken(decode, encode, start, first, middle, before),
        middle.state != State::Closed,
        taken(decode, encode, with_bytes(middle, more), second, end, after),
    ensures
        taken(
            decode,
            encode,
            with_bytes(start, more),
            first + second,
            end,
            joined(before, after),
        ),
{
    lemma_faithful_longer(decode, encode, start, first, more);
    assert(fatal(progressed(start, first)) is None);
    lemma_joined(decode, encode, with_bytes(start, more), first, second);
    let (rest, all) = (
        progressed(with_bytes(middle, more), second),
        progressed(with_bytes(start, more), first + second),
    );
    assert(fatal(rest) == fatal(all));
}

/// How bytes are cut into chunks does not matter, whatever the codec: what a session
/// comes to that takes in `a` and then `b`, one in the same state can come to that
/// takes in both at once. The state and the bytes to be sent are the same, and the
/// events of `a` come before those of `b`, or else the error is the same.
pub proof fn law_pieces_are_one_reading<
    D: Fn(Codec, &Vec<u8>) -> Result<Message, CodecError>,
    E: Fn(Codec, &Message) -> Result<Vec<u8>, CodecError>,
>(
    decode: D,
    encode: E,
    session: SessionView,
    a: Seq<u8>,
    b: Seq<u8>,
    middle: SessionView,
    first: Result<Seq<SessionEvent>, ErrorView>,
    end: SessionView,
    second: Result<Seq<SessionEvent>, ErrorView>,
)
    requires
        handled(decode, encode, session, a, middle, first),
        handled(decode, encode, middle, b, end, second),
    ensures
        handled(
            decode,
            encode,
            session,
            a + b,
            at_once(session, middle, b, end),
            joined(first, second),
        ),
{
    let none = Seq::<SessionEvent>::empty();
    if session.state == State::Closed {
        assert(none + none =~= none);
    } else {
        let start = with_bytes(session, a);
        let longer = with_bytes(session, a + b);
        assert(with_bytes(start, b).pending =~= longer.pending);
        assert(with_bytes(start, b) == longer);
        let x = choose|exchanges: Seq<Exchange>| #[trigger]
            taken(decode, encode, start, exchanges, middle, first);
        if middle.state == State::Closed {
            lemma_closed_piece(decode, encode, start, b, x, middle, first);
            assert(joined(first, second) == first) by {
                if let Ok(events) = first {
                    assert(events + none =~= events);
                }
            }
        } else {
            let y = choose|exchanges: Seq<Exchange>| #[trigger]
                taken(decode, encode, with_bytes(middle, b), exchanges, end, second);
            lemma_open_piece(decode, encode, start, b, x, middle, first, y, end, second);
        }
    }
}

/// With a codec that always reads and writes alike, what a chunk comes to is settled:
/// the state after it, the bytes to be sent, and the events or the error.
pub proof fn law_a_steady_codec_leaves_no_choice<
    D: Fn(Codec, &Vec<u8>) -> Result<Message, CodecError>,
    E: Fn(Codec, &Message) -> Result<Vec<u8>, CodecError>,
>(
    decode: D,
    encode: E,
    session: SessionView,
    chunk: Seq<u8>,
    one: SessionView,
    this: Result<Seq<SessionEvent>, ErrorView>,
    other: SessionView,
    that: Result<Seq<SessionEvent>, ErrorView>,
)
    requires
        reads_alike(decode),
        writes_alike(encode),
        handled(decode, encode, session, chunk, one, this),
        handled(decode, encode, session, chunk, other, that),
    ensures
        one == other,
        this == that,
{
    if session.state != State::Closed {
        let start = with_bytes(session, chunk);
        let x = choose|exchanges: Seq<Exchange>| #[trigger]
            taken(decode, encode, start, exchanges, one, this);
        let y = choose|exchanges: Seq<Exchange>| #[trigger]
            taken(decode, encode, start, exchanges, other, that);
        lemma_same_end(decode, encode, start, x, y);
        let read = progressed(start, x);
        match fatal(read) {
            Some(error) if read.session.state != State::Closed => {
                lemma_same_goodbye(encode, read.session, error_text(error), one, other);
            },
            _ => {},
        }
    }
}

/// Of two sessions in the same state, with one codec that always reads and writes
/// alike, one takes in `a` and then `b`, the other both at once: they end in the same
/// state with the same bytes to be sent, and the second reports the events of the
/// first, or the error that the first came to.
pub proof fn law_chunks_do_not_matter<
    D: Fn(Codec, &Vec<u8>) -> Result<Message, CodecError>,
    E: Fn(Codec, &Message) -> Result<Vec<u8>, CodecError>,
>(
    decode: D,
    encode: E,
    session: SessionView,
    a: Seq<u8>,
    b: Seq<u8>,
    middle: SessionView,
    first: Result<Seq<SessionEvent>, ErrorView>,
    end: SessionView,
    second: Result<Seq<SessionEvent>, ErrorView>,
    whole: SessionView,
    result: Result<Seq<SessionEvent>, ErrorView>,
)
    requires
        reads_alike(decode),
        writes_alike(encode),
        handled(decode, encode, session, a, middle, first),
        handled(decode, encode, middle, b, end, second),
        handled(decode, encode, session, a + b, whole, result),
    ensures
        result == joined(first, second),
        whole == at_once(session, middle, b, end),
{
    law_pieces_are_one_reading(decode, encode, session, a, b, middle, first, end, second);
    law_a_steady_codec_leaves_no_choice(
        decode,
        encode,
        session,
        a + b,
        at_once(session, middle, b, end),
        joined(first, second),
        whole,
        result,
    );
}

/// Whether a message is one that a session hands out as it is, neither part of the
/// session's own protocol nor answered by it.
pub open spec fn handed_out(message: Message) -> bool {
    message !is Hello && message !is Goodbye && message !is Ping
}

/// The events that hand messages out.
pub open spec fn message_events(messages: Seq<Message>) -> Seq<SessionEvent> {
    messages.map_values(|message: Message| SessionEvent::Message(message))
}

/// Whether payloads are those of messages: each can be framed and received, and is
/// decoded as its message and as nothing else.
pub open spec fn carries<D: Fn(Codec, &Vec<u8>) -> Result<Message, CodecError>>(
    decode: D,
    codec: Codec,
    max: usize,
    payload: Seq<u8>,
    message: Message,
) -> bool {
    &&& framable(payload)
    &&& payload.len() <= max
    &&& handed_out(message)
    &&& forall|decoded: Result<Message, CodecError>| #[trigger]
        decoded_by(decode, codec, payload, decoded) ==> decoded == Ok::<Message, CodecError>(
            message,
        )
}

proof fn lemma_faithful_so_far<
    D: Fn(Codec, &Vec<u8>) -> Result<Message, CodecError>,
    E: Fn(Codec, &Message) -> Result<Vec<u8>, CodecError>,
>(decode: D, encode: E, session: SessionView, exchanges: Seq<Exchange>, k: int)
    requires
        faithful(decode, encode, session, exchanges),
        0 <= k < exchanges.len(),
    ensures
        ({
            let before = progressed(session, exchanges.take(k));
            &&& reads_on(before)
            &&& exchanged(decode, encode, before, exchanges[k])
        }),
    decreases exchanges.len(),
{
    let init = exchanges.drop_last();
    if k < init.len() {
        lemma_faithful_so_far(decode, encode, session, init, k);
        assert(init.take(k) =~= exchanges.take(k));
    } else {
        assert(init =~= exchanges.take(k));
    }
}

/// A session that has handed out the first `k` messages of a stream.
spec fn part_way(
    session: SessionView,
    payloads: Seq<Seq<u8>>,
    messages: Seq<Message>,
    k: int,
) -> Progress {
    Progress {
        session: SessionView { pending: stream_of(payloads.skip(k)), ..session },
        events: message_events(messages.take(k)),
        breach: None,
    }
}

proof fn lemma_next_frame(session: SessionView, payloads: Seq<Seq<u8>>, k: int)
    requires
        0 <= k <= payloads.len(),
        k < payloads.len() ==> framable(payloads[k]) && payloads[k].len() <= session.max,
    ensures
        parse_frame(stream_of(payloads.skip(k)), session.max) == (if k < payloads.len() {
            Parsed::Frame { payload: payloads[k], rest: stream_of(payloads.skip(k + 1)) }
        } else {
            Parsed::Incomplete
        }),
{
    if k < payloads.len() {
        assert(payloads.skip(k).drop_first() =~= payloads.skip(k + 1));
        law_frame_round_trip(payloads[k], stream_of(payloads.skip(k + 1)), session.max);
    } else {
        assert(payloads.skip(k).len() == 0);
    }
}

proof fn lemma_arriving<
    D: Fn(Codec, &Vec<u8>) -> Result<Message, CodecError>,
    E: Fn(Codec, &Message) -> Result<Vec<u8>, CodecError>,
>(
    decode: D,
    encode: E,
    session: SessionView,
    codec: Codec,
    payloads: Seq<Seq<u8>>,
    messages: Seq<Message>,
    exchanges: Seq<Exchange>,
    k: int,
)
    requires
        session.state == (State::Established { codec }),
        payloads.len() == messages.len(),
        forall|i: int|
            0 <= i < payloads.len() ==> carries(
                decode,
                codec,
                session.max,
                #[trigger] payloads[i],
                messages[i],
            ),
        session.pending == stream_of(payloads),
        faithful(decode, encode, session, exchanges),
        0 <= k <= exchanges.len(),
    ensures
        k <= payloads.len(),
        progressed(session, exchanges.take(k)) == part_way(session, payloads, messages, k),
    decreases k,
{
    if k == 0 {
        assert(exchanges.take(0) =~= Seq::<Exchange>::empty());
        assert(payloads.skip(0) =~= payloads);
        assert(message_events(messages.take(0)) =~= Seq::<SessionEvent>::empty());
    } else {
        let j = k - 1;
        lemma_arriving(decode, encode, session, codec, payloads, messages, exchanges, j);
        lemma_faithful_so_far(decode, encode, session, exchanges, j);
        let before = part_way(session, payloads, messages, j);
        if j < payloads.len() {
            assert(carries(decode, codec, session.max, payloads[j], messages[j]));
        }
        lemma_next_frame(session, payloads, j);
        assert(next_payload(before) == payloads[j]);
        assert(exchanges[j].decoded == Ok::<Message, CodecError>(messages[j]));
        assert(exchanges.take(k).drop_last() =~= exchanges.take(j));
        assert(exchanges.take(k).last() == exchanges[j]);
        assert(message_events(messages.take(j)).push(SessionEvent::Message(messages[j]))
            =~= message_events(messages.take(k)));
    }
}

/// What one end sends, the other hands out: all of it, in order, and nothing else.
/// An established session with nothing left to read that receives the frames of
/// some messages, and whose codec reads each payload as its message, reports
/// exactly those messages and is otherwise as it was.
pub proof fn law_sent_messages_arrive<
    D: Fn(Codec, &Vec<u8>) -> Result<Message, CodecError>,
    E: Fn(Codec, &Message) -> Result<Vec<u8>, CodecError>,
>(
    decode: D,
    encode: E,
    session: SessionView,
    codec: Codec,
    payloads: Seq<Seq<u8>>,
    messages: Seq<Message>,
    after: SessionView,
    result: Result<Seq<SessionEvent>, ErrorView>,
)
    requires
        session.state == (State::Established { codec }),
        session.pending.len() == 0,
        payloads.len() == messages.len(),
        forall|i: int|
            0 <= i < payloads.len() ==> carries(
                decode,
                codec,
                session.max,
                #[trigger] payloads[i],
                messages[i],
            ),
        handled(decode, encode, session, stream_of(payloads), after, result),
    ensures
        result == Ok::<Seq<SessionEvent>, ErrorView>(message_events(messages)),
        after == session,
{
    let start = with_bytes(session, stream_of(payloads));
    assert(start.pending =~= stream_of(payloads));
    let exchanges = choose|exchanges: Seq<Exchange>| #[trigger]
        taken(decode, encode, start, exchanges, after, result);
    let n = exchanges.len() as int;
    lemma_arriving(decode, encode, start, codec, payloads, messages, exchanges, n);
    assert(exchanges.take(n) =~= exchanges);
    if n < payloads.len() {
        assert(carries(decode, codec, session.max, payloads[n], messages[n]));
    }
    lemma_next_frame(start, payloads, n);
    assert(messages.take(n) =~= messages);
    assert(payloads.skip(n).len() == 0);
    assert(after.pending =~= session.pending);
}

// ---------------------------------------------------------------- what a message comes to

/// A session is established by the hello of a peer in the other role, of a version that is
/// spoken, with which there is a codec in common: with that codec, and the lower of the
/// two versions. Any other first message is refused, for the first of these that fails,
/// and the session waits on.
pub proof fn law_a_fitting_hello_establishes(
    role: PeerRole,
    codecs: Seq<Seq<char>>,
    message: Message,
)
    ensures
        ({
            let (state, outcome) = greeted(role, codecs, message);
            match message {
                Message::Hello(hello) => {
                    let common = agreed_codec(role, codecs, views(hello.codecs@));
                    let lower = if hello.version <= 1 {
                        hello.version
                    } else {
                        1
                    };
                    &&& hello.role == role ==> outcome == Outcome::Breach(ErrorView::RoleConflict)
                    &&& hello.role != role && hello.version < 1 ==> outcome == Outcome::Breach(
                        ErrorView::IncompatibleVersion { ours: 1, theirs: hello.version },
                    )
                    &&& hello.role != role && hello.version >= 1 && common is None ==> outcome
                        == Outcome::Breach(ErrorView::NoCommonCodec)
                    &&& hello.role != role && hello.version >= 1 && common is Some ==> {
                        &&& outcome == Outcome::Event(
                            SessionEvent::Established { version: lower, codec: common->0 },
                        )
                        &&& state == State::Established { codec: common->0 }
                    }
                },
                _ => outcome == Outcome::Breach(
                    ErrorView::UnexpectedMessage("first message must be hello"@),
                ),
            }
        }),
        greeted(role, codecs, message).1 is Breach ==> greeted(role, codecs, message).0
            == State::AwaitingHello,
{
}

/// After the handshake a ping is answered with its own number, in the session's codec; a
/// goodbye closes, and its reason is told; another hello is refused. Every other message
/// is handed out as it is. Only a goodbye changes the state.
pub proof fn law_messages_are_handed_out(codec: Codec, message: Message)
    ensures
        ({
            let (state, outcome) = conversed(codec, message);
            &&& message matches Message::Ping { seq } ==> outcome == Outcome::Answer { codec, seq }
            &&& message matches Message::Goodbye { reason } ==> state == State::Closed && outcome
                == Outcome::Event(SessionEvent::Closed { reason })
            &&& message is Hello ==> outcome is Breach
            &&& message !is Ping && message !is Goodbye && message !is Hello ==> outcome
                == Outcome::Event(SessionEvent::Message(message))
            &&& message !is Goodbye ==> state == State::Established { codec }
        }),
{
}

/// What cannot be decoded is a breach in every state, and leaves the state. A closed
/// session takes nothing.
pub proof fn law_garbage_changes_no_state(
    role: PeerRole,
    codecs: Seq<Seq<char>>,
    state: State,
    decoded: Result<Message, CodecError>,
)
    ensures
        decoded matches Err(error) ==> received(role, codecs, state, decoded) == (
            state,
            Outcome::Breach(ErrorView::Codec(error.0@)),
        ),
        decoded is Ok ==> received(role, codecs, State::Closed, decoded) == (
            State::Closed,
            Outcome::Breach(ErrorView::NotEstablished),
        ),
        decoded matches Ok(message) ==> received(role, codecs, State::AwaitingHello, decoded)
            == greeted(role, codecs, message),
        decoded matches Ok(message) ==> (state matches State::Established { codec } ==> received(
            role,
            codecs,
            state,
            decoded,
        ) == conversed(codec, message)),
{
}

/// A payload is queued behind what is queued already, as a frame, exactly if it was
/// encoded, holds something and is no longer than a frame may be. Otherwise what is queued
/// stays, and the reason is told.
pub proof fn law_what_is_queued_stays_queued(out: Seq<u8>, encoded: Result<Vec<u8>, CodecError>)
    ensures
        out.is_prefix_of(with_payload(out, encoded)),
        match encoded {
            Err(error) => queue_error(encoded) == Some(ErrorView::Codec(error.0@)),
            Ok(payload) => {
                &&& payload@.len() == 0 ==> queue_error(encoded) == Some(
                    ErrorView::Frame(FrameError::Empty),
                )
                &&& payload@.len() > 67_108_864 ==> queue_error(encoded) == Some(
                    ErrorView::Frame(
                        FrameError::TooLarge { len: payload@.len() as usize, max: 67_108_864 },
                    ),
                )
                &&& 0 < payload@.len() <= 67_108_864 ==> queue_error(encoded) is None
                    && with_payload(out, encoded).len() == out.len() + 4 + payload@.len()
                    && payload@ == with_payload(out, encoded).skip((out.len() + 4) as int)
            },
        },
        queue_error(encoded) is Some ==> with_payload(out, encoded) == out,
{
    match encoded {
        Ok(payload) => {
            if framable(payload@) {
                assert(with_payload(out, encoded).skip((out.len() + 4) as int) =~= payload@);
            }
        },
        Err(_) => {},
    }
}

/// A ping that is read in a session is answered and nothing is reported of it: the answer
/// is queued behind what is queued already.
pub proof fn law_a_ping_is_answered(
    before: Progress,
    codec: Codec,
    seq: u64,
    answer: Vec<u8>,
    exchange: Exchange,
)
    requires
        before.session.state == (State::Established { codec }),
        exchange.decoded == Ok::<Message, CodecError>(Message::Ping { seq }),
        exchange.answer == Some(Ok::<Vec<u8>, CodecError>(answer)),
        framable(answer@),
    ensures
        advanced(before, exchange).events == before.events,
        advanced(before, exchange).breach is None,
        advanced(before, exchange).session.state == before.session.state,
        advanced(before, exchange).session.out == before.session.out + frame_bytes(answer@),
{
}

/// Saying goodbye closes, and takes nothing back that is queued.
pub proof fn law_a_goodbye_closes(session: SessionView, encoded: Result<Vec<u8>, CodecError>)
    ensures
        said_goodbye(session, encoded).state == State::Closed,
        session.out.is_prefix_of(said_goodbye(session, encoded).out),
        said_goodbye(session, encoded).pending == session.pending,
        said_goodbye(session, encoded).role == session.role,
        said_goodbye(session, encoded).max == session.max,
        said_goodbye(session, encoded).codecs == session.codecs,
{
}

/// The codec that is agreed on is the one that the provider names first among those that
/// the consumer names too.
pub proof fn law_the_choice_of_the_provider_is_taken(
    ours: Seq<Seq<char>>,
    theirs: Seq<Seq<char>>,
    i: int,
)
    requires
        0 <= i < ours.len(),
        theirs.contains(ours[i]),
        forall|j: int| 0 <= j < i ==> !theirs.contains(#[trigger] ours[j]),
    ensures
        agreed_codec(PeerRole::Provider, ours, theirs) == codec_named(ours[i]),
        agreed_codec(PeerRole::Consumer, theirs, ours) == codec_named(ours[i]),
{
    assert(first_match(ours, supported_by(theirs), i));
    lemma_found(ours, supported_by(theirs), i);
}

/// Nothing is read after a breach, after a goodbye, or where no whole frame is there. A
/// breach is what ended the reading; without one it is a frame that no frame may be, if
/// there is one at the front, and bytes that are still to come are no error.
pub proof fn law_nothing_is_read_after_the_end(progress: Progress)
    ensures
        ({
            let next = parse_frame(progress.session.pending, progress.session.max);
            let closed = progress.session.state == State::Closed;
            &&& progress.breach is Some || closed || next !is Frame ==> !reads_on(progress)
            &&& progress.breach is None && !closed && next is Frame ==> reads_on(progress)
            &&& progress.breach is Some ==> fatal(progress) == progress.breach
            &&& progress.breach is None && closed ==> fatal(progress) is None
            &&& progress.breach is None && !closed ==> match next {
                Parsed::Invalid(error) => fatal(progress) == Some(ErrorView::Frame(error)),
                _ => fatal(progress) is None,
            }
        }),
{
}

} // verus!
