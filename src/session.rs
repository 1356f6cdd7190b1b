//! The per-connection session: a state machine from the current phase and
//! what the connection delivered to the next phase and what to do next.
//!
//! The caller owns the transport. It performs each `Step` (send its bytes,
//! then read, convert or close) and feeds the outcome back as an `Event`.

use crate::digest::{digest_matches, sha256_of, verify, DIGEST_LEN};
use crate::frame::{
    accept_bytes, ack_bytes, ack_token, accept_token, chunk_plan, decode_header, encode_response,
    header_bytes, header_of, is_handshake, lemma_header_round_trip, next_chunk_len, response_frame, handshake_token, RequestHeader,
    HEADER_LEN, MAX_CHUNK, MAX_QUALITY, MAX_SPEED, TOKEN_LEN,
};
use vstd::prelude::*;

verus! {

/// What the connection delivered since the last step.
pub enum Event {
    /// Exactly the bytes that the last `Next::Read` asked for.
    Received(Vec<u8>),
    /// The converter's output for the last `Next::Convert`.
    Converted(Vec<u8>),
    /// A read or write failed or timed out, the peer closed, or the
    /// converter failed.
    Failed,
}

/// What to do after sending a step's bytes.
pub enum Next {
    /// Read exactly this many bytes.
    Read(usize),
    /// Convert a verified payload with these parameters.
    Convert(RequestHeader, Vec<u8>),
    /// Close the connection.
    Close,
}

/// Bytes to send, then what to do next.
pub struct Step {
    pub send: Vec<u8>,
    pub next: Next,
}

/// Model of `Event`.
pub enum EventView {
    Received(Seq<u8>),
    Converted(Seq<u8>),
    Failed,
}

/// Model of `Next`.
pub enum NextView {
    Read(nat),
    Convert(RequestHeader, Seq<u8>),
    Close,
}

/// Model of `Step`.
pub struct StepView {
    pub send: Seq<u8>,
    pub next: NextView,
}

/// The phases of a session.
pub enum PhaseView {
    AwaitingHandshake,
    AwaitingHeader,
    AwaitingDigest(RequestHeader),
    /// Header, expected digest, and the body bytes received so far.
    ReceivingBody(RequestHeader, Seq<u8>, Seq<u8>),
    Converting,
    Closed,
}

impl View for Event {
    type V = EventView;

    open spec fn view(&self) -> EventView {
        match self {
            Event::Received(d) => EventView::Received(d@),
            Event::Converted(d) => EventView::Converted(d@),
            Event::Failed => EventView::Failed,
        }
    }
}

impl View for Next {
    type V = NextView;

    open spec fn view(&self) -> NextView {
        match self {
            Next::Read(n) => NextView::Read(*n as nat),
            Next::Convert(h, d) => NextView::Convert(*h, d@),
            Next::Close => NextView::Close,
        }
    }
}

impl View for Step {
    type V = StepView;

    open spec fn view(&self) -> StepView {
        StepView { send: self.send@, next: self.next@ }
    }
}

/// Size of the next body read when `have` of the header's bytes are in.
pub open spec fn body_read_len(h: RequestHeader, have: nat) -> nat {
    let left = h.length - have;
    if left <= MAX_CHUNK {
        left as nat
    } else {
        MAX_CHUNK as nat
    }
}

/// Close without sending anything.
pub open spec fn silent_close() -> (PhaseView, StepView) {
    (PhaseView::Closed, StepView { send: Seq::empty(), next: NextView::Close })
}

/// After `send`, continue with a body of which `body` is in: read more,
/// convert once the whole body is in and matches its digest, or close.
pub open spec fn continue_body(h: RequestHeader, expected: Seq<u8>, body: Seq<u8>, send: Seq<u8>) -> (
    PhaseView,
    StepView,
) {
    if body.len() < h.length {
        (
            PhaseView::ReceivingBody(h, expected, body),
            StepView { send, next: NextView::Read(body_read_len(h, body.len())) },
        )
    } else if digest_matches(body, expected) {
        (PhaseView::Converting, StepView { send, next: NextView::Convert(h, body) })
    } else {
        (PhaseView::Closed, StepView { send, next: NextView::Close })
    }
}

/// The protocol: the next phase and step for each phase and event.
pub open spec fn transition(p: PhaseView, e: EventView) -> (PhaseView, StepView) {
    match (p, e) {
        (PhaseView::AwaitingHandshake, EventView::Received(d)) => {
            if d == handshake_token() {
                (
                    PhaseView::AwaitingHeader,
                    StepView { send: accept_token(), next: NextView::Read(HEADER_LEN as nat) },
                )
            } else {
                silent_close()
            }
        },
        (PhaseView::AwaitingHeader, EventView::Received(d)) => match header_of(d) {
            Some(h) => (
                PhaseView::AwaitingDigest(h),
                StepView { send: Seq::empty(), next: NextView::Read(DIGEST_LEN as nat) },
            ),
            None => silent_close(),
        },
        (PhaseView::AwaitingDigest(h), EventView::Received(d)) => {
            if d.len() == DIGEST_LEN {
                continue_body(h, d, Seq::empty(), Seq::empty())
            } else {
                silent_close()
            }
        },
        (PhaseView::ReceivingBody(h, x, body), EventView::Received(d)) => {
            if body.len() < h.length && d.len() == body_read_len(h, body.len()) {
                continue_body(h, x, body + d, ack_token())
            } else {
                silent_close()
            }
        },
        (PhaseView::Converting, EventView::Converted(out)) => {
            if out.len() <= u32::MAX {
                (
                    PhaseView::AwaitingHeader,
                    StepView {
                        send: response_frame(out, sha256_of(out)),
                        next: NextView::Read(HEADER_LEN as nat),
                    },
                )
            } else {
                silent_close()
            }
        },
        _ => silent_close(),
    }
}

/// A phase that the session can be in.
pub open spec fn phase_wf(p: PhaseView) -> bool {
    match p {
        PhaseView::ReceivingBody(h, x, body) => body.len() < h.length && x.len() == DIGEST_LEN,
        _ => true,
    }
}

enum Phase {
    AwaitingHandshake,
    AwaitingHeader,
    AwaitingDigest(RequestHeader),
    ReceivingBody(RequestHeader, Vec<u8>, Vec<u8>),
    Converting,
    Closed,
}

/// One connection's protocol state.
pub struct Session {
    phase: Phase,
}

impl View for Session {
    type V = PhaseView;

    closed spec fn view(&self) -> PhaseView {
        match &self.phase {
            Phase::AwaitingHandshake => PhaseView::AwaitingHandshake,
            Phase::AwaitingHeader => PhaseView::AwaitingHeader,
            Phase::AwaitingDigest(h) => PhaseView::AwaitingDigest(*h),
            Phase::ReceivingBody(h, x, b) => PhaseView::ReceivingBody(*h, x@, b@),
            Phase::Converting => PhaseView::Converting,
            Phase::Closed => PhaseView::Closed,
        }
    }
}

fn closing() -> (r: (Session, Step))
    ensures
        (r.0@, r.1@) == silent_close(),
{
    (Session { phase: Phase::Closed }, Step { send: Vec::new(), next: Next::Close })
}

fn body_progress(h: RequestHeader, expected: Vec<u8>, body: Vec<u8>, send: Vec<u8>) -> (r: (
    Session,
    Step,
))
    requires
        body@.len() <= h.length,
        expected@.len() == DIGEST_LEN,
    ensures
        (r.0@, r.1@) == continue_body(h, expected@, body@, send@),
        phase_wf(r.0@),
{
    let have = body.len();
    if have < h.length as usize {
        let want = next_chunk_len(h.length as usize - have);
        (
            Session { phase: Phase::ReceivingBody(h, expected, body) },
            Step { send, next: Next::Read(want) },
        )
    } else if verify(body.as_slice(), expected.as_slice()) {
        (Session { phase: Phase::Converting }, Step { send, next: Next::Convert(h, body) })
    } else {
        (Session { phase: Phase::Closed }, Step { send, next: Next::Close })
    }
}

impl Session {
    /// Whether the session is in a phase that it can reach.
    pub open spec fn wf(&self) -> bool {
        phase_wf(self@)
    }

    /// A new session, awaiting the handshake, and its first step: read the
    /// handshake token.
    pub fn start() -> (r: (Session, Step))
        ensures
            r.0@ == PhaseView::AwaitingHandshake,
            r.0.wf(),
            r.1@ == (StepView { send: Seq::empty(), next: NextView::Read(TOKEN_LEN as nat) }),
    {
        (Session { phase: Phase::AwaitingHandshake }, Step { send: Vec::new(), next: Next::Read(TOKEN_LEN) })
    }

    /// Whether the session has ended.
    pub fn is_closed(&self) -> (r: bool)
        ensures
            r == (self@ == PhaseView::Closed),
    {
        match self.phase {
            Phase::Closed => true,
            _ => false,
        }
    }

    /// Takes the outcome of the last step and decides the next one.
    pub fn step(self, event: Event) -> (r: (Session, Step))
        requires
            self.wf(),
        ensures
            (r.0@, r.1@) == transition(self@, event@),
            r.0.wf(),
    {
        match (self.phase, event) {
            (Phase::AwaitingHandshake, Event::Received(d)) => {
                if is_handshake(d.as_slice()) {
                    (
                        Session { phase: Phase::AwaitingHeader },
                        Step { send: accept_bytes(), next: Next::Read(HEADER_LEN) },
                    )
                } else {
                    closing()
                }
            },
            (Phase::AwaitingHeader, Event::Received(d)) => match decode_header(d.as_slice()) {
                Some(h) => (
                    Session { phase: Phase::AwaitingDigest(h) },
                    Step { send: Vec::new(), next: Next::Read(DIGEST_LEN) },
                ),
                None => closing(),
            },
            (Phase::AwaitingDigest(h), Event::Received(d)) => {
                if d.len() == DIGEST_LEN {
                    body_progress(h, d, Vec::with_capacity(h.length as usize), Vec::new())
                } else {
                    closing()
                }
            },
            (Phase::ReceivingBody(h, x, body), Event::Received(d)) => {
                let mut body = body;
                let mut d = d;
                if body.len() < h.length as usize && d.len() == next_chunk_len(
                    h.length as usize - body.len(),
                ) {
                    body.append(&mut d);
                    body_progress(h, x, body, ack_bytes())
                } else {
                    closing()
                }
            },
            (Phase::Converting, Event::Converted(out)) => match encode_response(out.as_slice()) {
                Some(frame) => (
                    Session { phase: Phase::AwaitingHeader },
                    Step { send: frame, next: Next::Read(HEADER_LEN) },
                ),
                None => closing(),
            },
            _ => closing(),
        }
    }
}

/// The phase reached and the bytes sent after feeding `events` in order.
pub open spec fn run(p: PhaseView, events: Seq<EventView>) -> (PhaseView, Seq<u8>)
    decreases events.len(),
{
    if events.len() == 0 {
        (p, Seq::empty())
    } else {
        let (q, st) = transition(p, events[0]);
        let (last, rest) = run(q, events.drop_first());
        (last, st.send + rest)
    }
}

/// A closed session stays closed and sends nothing, whatever happens.
pub proof fn lemma_closed_is_final(events: Seq<EventView>)
    ensures
        run(PhaseView::Closed, events) == (PhaseView::Closed, Seq::<u8>::empty()),
    decreases events.len(),
{
    if events.len() > 0 {
        lemma_closed_is_final(events.drop_first());
        assert(Seq::<u8>::empty() + Seq::<u8>::empty() =~= Seq::<u8>::empty());
    }
}

/// Four bytes other than the handshake token close the session without a
/// single byte sent back, and nothing is sent afterwards either.
pub proof fn lemma_bad_handshake_is_silent(d: Seq<u8>, later: Seq<EventView>)
    requires
        d.len() == TOKEN_LEN,
        d != handshake_token(),
    ensures
        transition(PhaseView::AwaitingHandshake, EventView::Received(d)) == silent_close(),
        run(PhaseView::AwaitingHandshake, seq![EventView::Received(d)] + later) == (
            PhaseView::Closed,
            Seq::<u8>::empty(),
        ),
{
    let evs = seq![EventView::Received(d)] + later;
    assert(evs.drop_first() =~= later);
    lemma_closed_is_final(later);
    assert(Seq::<u8>::empty() + Seq::<u8>::empty() =~= Seq::<u8>::empty());
}

/// The chunk that completes a body whose digest does not match closes the
/// session: the chunk is acknowledged, and no response is sent.
pub proof fn lemma_digest_mismatch_is_silent(
    h: RequestHeader,
    expected: Seq<u8>,
    body: Seq<u8>,
    d: Seq<u8>,
)
    requires
        phase_wf(PhaseView::ReceivingBody(h, expected, body)),
        d.len() == body_read_len(h, body.len()),
        body.len() + d.len() == h.length,
        !digest_matches(body + d, expected),
    ensures
        transition(PhaseView::ReceivingBody(h, expected, body), EventView::Received(d)) == (
            PhaseView::Closed,
            StepView { send: ack_token(), next: NextView::Close },
        ),
{
}

/// A whole exchange whose body, sent in one chunk, does not match the
/// declared digest: after the accept token and one acknowledgement the
/// session is closed, and no response header is ever written.
pub proof fn lemma_mismatched_request_is_dropped(
    h: RequestHeader,
    expected: Seq<u8>,
    body: Seq<u8>,
    later: Seq<EventView>,
)
    requires
        h.quality <= MAX_QUALITY,
        h.speed <= MAX_SPEED,
        expected.len() == DIGEST_LEN,
        0 < body.len() == h.length <= MAX_CHUNK,
        !digest_matches(body, expected),
    ensures
        run(
            PhaseView::AwaitingHandshake,
            seq![
                EventView::Received(handshake_token()),
                EventView::Received(header_bytes(h)),
                EventView::Received(expected),
                EventView::Received(body),
            ] + later,
        ) == (PhaseView::Closed, accept_token() + ack_token()),
{
    lemma_header_round_trip(h);
    let e0 = EventView::Received(handshake_token());
    let e1 = EventView::Received(header_bytes(h));
    let e2 = EventView::Received(expected);
    let e3 = EventView::Received(body);
    let evs = seq![e0, e1, e2, e3] + later;
    let p1 = PhaseView::AwaitingHeader;
    let p2 = PhaseView::AwaitingDigest(h);
    let p3 = PhaseView::ReceivingBody(h, expected, Seq::empty());
    assert(transition(PhaseView::AwaitingHandshake, e0).0 == p1);
    assert(transition(p1, e1).0 == p2);
    assert(transition(p2, e2).0 == p3);
    assert(Seq::<u8>::empty() + body =~= body);
    assert(transition(p3, e3) == (
        PhaseView::Closed,
        StepView { send: ack_token(), next: NextView::Close },
    ));
    let s3 = seq![e3] + later;
    let s2 = seq![e2, e3] + later;
    let s1 = seq![e1, e2, e3] + later;
    let e = Seq::<u8>::empty();
    lemma_closed_is_final(later);
    assert(s3.drop_first() =~= later);
    assert(run(p3, s3) == (PhaseView::Closed, ack_token() + e));
    assert(s2.drop_first() =~= s3);
    assert(run(p2, s2) == (PhaseView::Closed, e + (ack_token() + e)));
    assert(s1.drop_first() =~= s2);
    assert(run(p1, s1) == (PhaseView::Closed, e + (e + (ack_token() + e))));
    assert(evs.drop_first() =~= s1);
    assert(accept_token() + (e + (e + (ack_token() + e))) =~= accept_token() + ack_token());
}

/// Body reads follow the chunk plan: the read asked for is the plan's next
/// chunk, and once it is in, what is left is the rest of the plan. Each such
/// chunk is acknowledged.
pub proof fn lemma_body_reads_follow_plan(
    h: RequestHeader,
    expected: Seq<u8>,
    body: Seq<u8>,
    d: Seq<u8>,
)
    requires
        phase_wf(PhaseView::ReceivingBody(h, expected, body)),
        d.len() == body_read_len(h, body.len()),
    ensures
        body_read_len(h, body.len()) == chunk_plan((h.length - body.len()) as nat, MAX_CHUNK as nat)[0],
        chunk_plan((h.length - body.len() - d.len()) as nat, MAX_CHUNK as nat) == chunk_plan(
            (h.length - body.len()) as nat,
            MAX_CHUNK as nat,
        ).drop_first(),
        transition(PhaseView::ReceivingBody(h, expected, body), EventView::Received(d)).1.send
            == ack_token(),
{
    let left = (h.length - body.len()) as nat;
    let c = MAX_CHUNK as nat;
    if left <= c {
        assert(chunk_plan((left - d.len()) as nat, c) =~= chunk_plan(left, c).drop_first());
    } else {
        assert(chunk_plan((left - c) as nat, c) =~= chunk_plan(left, c).drop_first());
    }
}

/// After a response the same session, with no new handshake, takes the next
/// request's header, whatever its parameters.
pub proof fn lemma_session_persists(output: Seq<u8>, next_header: Seq<u8>)
    requires
        output.len() <= u32::MAX,
        header_of(next_header) is Some,
    ensures
        transition(PhaseView::Converting, EventView::Converted(output)) == (
            PhaseView::AwaitingHeader,
            StepView {
                send: response_frame(output, sha256_of(output)),
                next: NextView::Read(HEADER_LEN as nat),
            },
        ),
        run(
            PhaseView::Converting,
            seq![EventView::Converted(output), EventView::Received(next_header)],
        ) == (
            PhaseView::AwaitingDigest(header_of(next_header)->Some_0),
            response_frame(output, sha256_of(output)),
        ),
{
    let evs = seq![EventView::Converted(output), EventView::Received(next_header)];
    let s1 = seq![EventView::Received(next_header)];
    let p2 = PhaseView::AwaitingDigest(header_of(next_header)->Some_0);
    let f = response_frame(output, sha256_of(output));
    let e = Seq::<u8>::empty();
    assert(s1.drop_first() =~= Seq::<EventView>::empty());
    assert(run(p2, s1.drop_first()) == (p2, e));
    assert(run(PhaseView::AwaitingHeader, s1) == (p2, e + e));
    assert(evs.drop_first() =~= s1);
    assert(f + (e + e) =~= f);
}

} // verus!
