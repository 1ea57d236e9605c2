//! The per-connection proxy channel: a duplex state machine that performs
//! the opening handshake, relays client data-frame payloads to the backend
//! and backend bytes to the client as binary frames, and sequences the
//! ordered shutdown of both directions.
//!
//! The channel owns only byte buffers and flags; the sockets and the
//! scheduling live with the caller, which feeds bytes in, takes bytes out,
//! and reports connect results, end-of-stream and cancellation.

use vstd::prelude::*;
use crate::MAX_PAYLOAD_LEN;
use crate::frame::{
    decode_frame, encode_frame, push_all, spec_decode, spec_encode, Decoded, Frame, FrameError,
    Opcode, SpecDecoded,
};
use crate::handshake::{
    process_handshake, spec_find_term, spec_handshake_sound, spec_handshake_valid,
    spec_response_101, spec_response_400, spec_response_426, spec_ws_key, HandshakeOutcome,
    MAX_HEADER_BYTES,
};

verus! {

/// A pump stalls its read side once the opposite write buffer holds this
/// many bytes.
pub const WRITE_BUF_LIMIT: usize = 0x100000;

/// The life of a channel, entered in order; any phase may fall directly to
/// `Drained` on cancellation.
#[derive(Clone, Copy, PartialEq, Eq, Structural, Debug)]
pub enum Phase {
    Handshake,
    Connecting,
    Relaying,
    ClosingWs,
    Drained,
}

/// One frame queued toward the client, recorded in the channel's history.
pub ghost struct FrameRec {
    pub fin: bool,
    pub op: Opcode,
    pub payload: Seq<u8>,
}

/// The payload bytes of the binary frames among `frames`, in order.
pub open spec fn spec_binary_payloads(frames: Seq<FrameRec>) -> Seq<u8>
    decreases frames.len(),
{
    if frames.len() == 0 {
        Seq::empty()
    } else {
        spec_binary_payloads(frames.drop_last()) + (if frames.last().op == Opcode::Binary {
            frames.last().payload
        } else {
            Seq::<u8>::empty()
        })
    }
}

proof fn lemma_binary_payloads_push(frames: Seq<FrameRec>, f: FrameRec)
    ensures
        spec_binary_payloads(frames.push(f)) == spec_binary_payloads(frames) + (
        if f.op == Opcode::Binary {
            f.payload
        } else {
            Seq::<u8>::empty()
        }),
{
    assert(frames.push(f).drop_last() =~= frames);
    assert(frames.push(f).last() == f);
}

/// The two-byte big-endian body of a Close frame carrying a status code.
pub open spec fn spec_close_payload(status: u16) -> Seq<u8> {
    seq![(status / 256) as u8, (status % 256) as u8]
}

/// How a run of the client-to-backend pump ended.
pub ghost enum PumpEnd {
    /// The bytes end mid-frame: wait for more.
    More,
    /// The client sent a Close frame, with this status if it carried one.
    PeerClose { status: Option<u16> },
    /// The decoder refused the bytes.
    Malformed { err: FrameError },
    /// A continuation frame arrived with no fragmented message in progress.
    BadContinuation,
}

/// What a run of the client-to-backend pump does with the buffered bytes.
pub ghost struct PumpOutcome {
    /// Bytes consumed from the front of the read buffer (complete frames
    /// before the stopping point).
    pub consumed: nat,
    /// The data-frame payloads forwarded to the backend, in order.
    pub data: Seq<u8>,
    /// The payload of the last Ping seen, if any: the pong owed.
    pub pong: Option<Seq<u8>>,
    /// Whether a fragmented message is open after the run.
    pub frag: bool,
    /// Why the run stopped.
    pub end: PumpEnd,
}

/// The client-to-backend pump over the buffered bytes `s`: decode frames in
/// order, forwarding data payloads and noting pings, until the bytes run
/// out, the client closes, or a protocol error appears.
pub open spec fn spec_pump(s: Seq<u8>, frag: bool) -> PumpOutcome
    decreases s.len(),
{
    match spec_decode(s, true) {
        SpecDecoded::NeedMore { .. } => PumpOutcome {
            consumed: 0,
            data: Seq::empty(),
            pong: None,
            frag,
            end: PumpEnd::More,
        },
        SpecDecoded::Invalid { err } => PumpOutcome {
            consumed: 0,
            data: Seq::empty(),
            pong: None,
            frag,
            end: PumpEnd::Malformed { err },
        },
        SpecDecoded::Frame { fin, op, payload, size, .. } => {
            if size < 2 || size > s.len() {
                // never reached: a decoded frame spans at least its two
                // header bytes and lies within the buffer
                PumpOutcome {
                    consumed: 0,
                    data: Seq::empty(),
                    pong: None,
                    frag,
                    end: PumpEnd::More,
                }
            } else if op == Opcode::Close {
                PumpOutcome {
                    consumed: size,
                    data: Seq::empty(),
                    pong: None,
                    frag,
                    end: PumpEnd::PeerClose {
                        status: if payload.len() >= 2 {
                            Some((payload[0] * 256 + payload[1]) as u16)
                        } else {
                            None
                        },
                    },
                }
            } else if op == Opcode::Continuation && !frag {
                PumpOutcome {
                    consumed: 0,
                    data: Seq::empty(),
                    pong: None,
                    frag,
                    end: PumpEnd::BadContinuation,
                }
            } else {
                let frag2 = if op.spec_is_data() {
                    !fin
                } else {
                    frag
                };
                let rest = spec_pump(s.skip(size as int), frag2);
                PumpOutcome {
                    consumed: size + rest.consumed,
                    data: (if op.spec_is_data() {
                        payload
                    } else {
                        Seq::<u8>::empty()
                    }) + rest.data,
                    pong: if rest.pong is Some {
                        rest.pong
                    } else if op == Opcode::Ping {
                        Some(payload)
                    } else {
                        None
                    },
                    frag: rest.frag,
                    end: rest.end,
                }
            }
        },
    }
}

/// The pump consumes at most the bytes it was given.
pub proof fn lemma_pump_consumed(s: Seq<u8>, frag: bool)
    ensures
        spec_pump(s, frag).consumed <= s.len(),
    decreases s.len(),
{
    match spec_decode(s, true) {
        SpecDecoded::Frame { fin, op, payload, size, .. } => {
            if 2 <= size <= s.len() && op != Opcode::Close && !(op == Opcode::Continuation
                && !frag) {
                let frag2 = if op.spec_is_data() {
                    !fin
                } else {
                    frag
                };
                lemma_pump_consumed(s.skip(size as int), frag2);
            }
        },
        _ => {},
    }
}

/// The Close status the proxy answers a malformed stream with.
pub open spec fn spec_error_status(end: PumpEnd) -> u16 {
    match end {
        PumpEnd::Malformed { err } => if err == FrameError::Oversize {
            1009
        } else {
            1002
        },
        _ => 1002,
    }
}

/// One WebSocket-to-TCP proxy connection.
///
/// The four byte buffers and the ghost histories record everything that has
/// crossed the channel; the invariant `inv` ties them together.
pub struct ProxyChannel {
    pub phase: Phase,
    /// Bytes from the client socket not yet consumed.
    pub ws_read: Vec<u8>,
    /// Bytes queued toward the client socket.
    pub ws_write: Vec<u8>,
    /// Bytes from the backend socket not yet framed.
    pub tcp_read: Vec<u8>,
    /// Bytes queued toward the backend socket.
    pub tcp_write: Vec<u8>,
    /// The payload of the pong owed for the last ping, until flushed.
    pub pending_pong: Option<Vec<u8>>,
    /// A fragmented data message is in progress (for validation only).
    pub frag_in_progress: bool,
    pub ws_read_eof: bool,
    pub ws_write_closed: bool,
    pub tcp_read_eof: bool,
    pub tcp_write_closed: bool,
    /// A Close frame has been queued toward the client.
    pub close_sent: bool,
    pub cancelled: bool,
    /// The client socket is still open.
    pub ws_open: bool,
    /// The backend socket is still open.
    pub tcp_open: bool,
    /// History: payload bytes of all client data frames, in order.
    pub client_data: Ghost<Seq<u8>>,
    /// History: bytes handed out for the backend socket, in order.
    pub tcp_sent: Ghost<Seq<u8>>,
    /// History: bytes fed in from the backend socket, in order.
    pub backend_data: Ghost<Seq<u8>>,
    /// History: every frame queued toward the client, in order.
    pub frames_out: Ghost<Seq<FrameRec>>,
}

impl ProxyChannel {
    /// The channel invariant.  It carries the relay guarantees:
    /// - a Close frame, once queued toward the client, is the last frame
    ///   queued in that direction;
    /// - the bytes framed toward the client are exactly the bytes read from
    ///   the backend, in order (a prefix once the close is under way);
    /// - the bytes handed toward the backend are exactly the payloads of the
    ///   client's data frames, in order (a prefix after cancellation);
    /// - a drained channel holds no open socket.
    pub open spec fn inv(self) -> bool {
        &&& (forall|i: int|
            0 <= i < self.frames_out@.len() ==> ((#[trigger] self.frames_out@[i]).op
                == Opcode::Close ==> i == self.frames_out@.len() - 1))
        &&& (self.close_sent <==> self.frames_out@.len() > 0 && self.frames_out@.last().op
            == Opcode::Close)
        &&& (!self.close_sent ==> spec_binary_payloads(self.frames_out@) + self.tcp_read@
            == self.backend_data@)
        &&& spec_binary_payloads(self.frames_out@).is_prefix_of(self.backend_data@)
        &&& (!self.cancelled ==> self.tcp_sent@ + self.tcp_write@ == self.client_data@)
        &&& (self.cancelled ==> self.tcp_sent@.is_prefix_of(self.client_data@) && self.tcp_write@
            =~= Seq::<u8>::empty())
        &&& (self.phase == Phase::Drained ==> !self.ws_open && !self.tcp_open)
        &&& (forall|i: int|
            0 <= i < self.frames_out@.len() ==> ((#[trigger] self.frames_out@[i]).op.spec_is_control()
                ==> self.frames_out@[i].fin && self.frames_out@[i].payload.len() <= 125))
        &&& (self.pending_pong matches Some(p) ==> p@.len() <= 125)
        &&& (self.close_sent ==> self.pending_pong is None)
        &&& self.tcp_read@.len() <= MAX_PAYLOAD_LEN
        &&& ((self.phase == Phase::Handshake || self.phase == Phase::Connecting)
            ==> !self.close_sent && !self.cancelled && self.pending_pong is None)
        &&& (self.phase == Phase::Relaying ==> !self.cancelled)
    }

    /// The byte sequence handed toward the backend equals the concatenation
    /// of the payloads of the client's data frames, in order: what was
    /// already taken plus what still waits in the write buffer.
    pub proof fn lemma_backend_receives_client_data(self)
        requires
            self.inv(),
            !self.cancelled,
        ensures
            self.tcp_sent@ + self.tcp_write@ == self.client_data@,
    {
    }

    /// The byte sequence framed toward the client as binary-frame payloads
    /// equals the byte sequence read from the backend, in order, up to the
    /// point where a Close went out.
    pub proof fn lemma_client_receives_backend_data(self)
        requires
            self.inv(),
        ensures
            !self.close_sent ==> spec_binary_payloads(self.frames_out@) + self.tcp_read@
                == self.backend_data@,
            spec_binary_payloads(self.frames_out@).is_prefix_of(self.backend_data@),
    {
    }

    /// A Close frame, once queued toward the client, is the last frame
    /// queued in that direction.
    pub proof fn lemma_close_is_last_frame(self, i: int)
        requires
            self.inv(),
            0 <= i < self.frames_out@.len(),
            self.frames_out@[i].op == Opcode::Close,
        ensures
            i == self.frames_out@.len() - 1,
    {
    }

    /// Every control frame queued toward the client is final and carries at
    /// most 125 payload bytes.
    pub proof fn lemma_queued_control_frames(self, i: int)
        requires
            self.inv(),
            0 <= i < self.frames_out@.len(),
            self.frames_out@[i].op.spec_is_control(),
        ensures
            self.frames_out@[i].fin,
            self.frames_out@[i].payload.len() <= 125,
    {
    }

    /// A drained channel holds no open socket.
    pub proof fn lemma_drained_sockets_closed(self)
        requires
            self.inv(),
            self.phase == Phase::Drained,
        ensures
            !self.ws_open,
            !self.tcp_open,
    {
    }

    /// A fresh channel for one accepted client connection: in the handshake
    /// phase, client socket open, backend not yet dialed.
    pub fn new() -> (c: ProxyChannel)
        ensures
            c.inv(),
            c.phase == Phase::Handshake,
            c.ws_read@ =~= Seq::<u8>::empty(),
            c.ws_write@ =~= Seq::<u8>::empty(),
            c.tcp_read@ =~= Seq::<u8>::empty(),
            c.tcp_write@ =~= Seq::<u8>::empty(),
            c.pending_pong is None,
            !c.frag_in_progress,
            !c.ws_read_eof && !c.ws_write_closed && !c.tcp_read_eof && !c.tcp_write_closed,
            !c.close_sent && !c.cancelled,
            c.ws_open && !c.tcp_open,
            c.client_data@ =~= Seq::<u8>::empty(),
            c.tcp_sent@ =~= Seq::<u8>::empty(),
            c.backend_data@ =~= Seq::<u8>::empty(),
            c.frames_out@ =~= Seq::<FrameRec>::empty(),
    {
        ProxyChannel {
            phase: Phase::Handshake,
            ws_read: Vec::new(),
            ws_write: Vec::new(),
            tcp_read: Vec::new(),
            tcp_write: Vec::new(),
            pending_pong: None,
            frag_in_progress: false,
            ws_read_eof: false,
            ws_write_closed: false,
            tcp_read_eof: false,
            tcp_write_closed: false,
            close_sent: false,
            cancelled: false,
            ws_open: true,
            tcp_open: false,
            client_data: Ghost(Seq::empty()),
            tcp_sent: Ghost(Seq::empty()),
            backend_data: Ghost(Seq::empty()),
            frames_out: Ghost(Seq::empty()),
        }
    }

    /// Encodes one non-Close frame toward the client and records it.
    /// Callers re-establish the invariant.
    fn push_frame(&mut self, fin: bool, op: Opcode, payload: &Vec<u8>)
        requires
            !old(self).close_sent,
            op != Opcode::Close,
            payload@.len() < 0x8000000000000000,
            op.spec_is_control() ==> fin && payload@.len() <= 125,
        ensures
            final(self).ws_write@ == old(self).ws_write@ + spec_encode(fin, op, payload@),
            final(self).frames_out@ == old(self).frames_out@.push(
                FrameRec { fin, op, payload: payload@ },
            ),
            *final(self) == (ProxyChannel {
                ws_write: final(self).ws_write,
                frames_out: final(self).frames_out,
                ..*old(self)
            }),
    {
        encode_frame(fin, op, payload, &mut self.ws_write);
        proof {
            self.frames_out@ = self.frames_out@.push(FrameRec { fin, op, payload: payload@ });
        }
    }

    /// Queues a Close frame toward the client: any owed pong first, then the
    /// Close with the given status and reason.  Nothing follows them.
    fn enqueue_close(&mut self, status: u16, reason: &Vec<u8>)
        requires
            !old(self).close_sent,
            old(self).pending_pong matches Some(p) ==> p@.len() <= 125,
            reason@.len() <= 123,
            forall|i: int|
                0 <= i < old(self).frames_out@.len() ==> (#[trigger] old(self).frames_out@[i]).op
                    != Opcode::Close,
            forall|i: int|
                0 <= i < old(self).frames_out@.len() ==> ((#[trigger] old(self).frames_out@[i]).op.spec_is_control() ==> old(self).frames_out@[i].fin && old(self).frames_out@[i].payload.len() <= 125),
        ensures
            final(self).close_sent,
            forall|i: int|
                0 <= i < final(self).frames_out@.len() ==> ((#[trigger] final(self).frames_out@[i]).op.spec_is_control() ==> final(self).frames_out@[i].fin && final(self).frames_out@[i].payload.len() <= 125),
            forall|i: int|
                0 <= i < final(self).frames_out@.len() ==> ((#[trigger] final(self).frames_out@[i]).op == Opcode::Close ==> i == final(self).frames_out@.len() - 1),
            final(self).frames_out@.len() > 0 && final(self).frames_out@.last().op
                == Opcode::Close,
            final(self).pending_pong is None,
            final(self).ws_write@ == old(self).ws_write@ + (match old(self).pending_pong {
                Some(p) => spec_encode(true, Opcode::Pong, p@),
                None => Seq::<u8>::empty(),
            }) + spec_encode(true, Opcode::Close, spec_close_payload(status) + reason@),
            final(self).frames_out@ == (match old(self).pending_pong {
                Some(p) => old(self).frames_out@.push(
                    FrameRec { fin: true, op: Opcode::Pong, payload: p@ },
                ),
                None => old(self).frames_out@,
            }).push(
                FrameRec {
                    fin: true,
                    op: Opcode::Close,
                    payload: spec_close_payload(status) + reason@,
                },
            ),
            spec_binary_payloads(final(self).frames_out@) == spec_binary_payloads(
                old(self).frames_out@,
            ),
            *final(self) == (ProxyChannel {
                ws_write: final(self).ws_write,
                frames_out: final(self).frames_out,
                pending_pong: final(self).pending_pong,
                close_sent: final(self).close_sent,
                ..*old(self)
            }),
    {
        let pong = self.pending_pong.take();
        match pong {
            Some(p) => {
                self.push_frame(true, Opcode::Pong, &p);
                proof {
                    lemma_binary_payloads_push(
                        old(self).frames_out@,
                        FrameRec { fin: true, op: Opcode::Pong, payload: p@ },
                    );
                }
            },
            None => {},
        }
        let mut body: Vec<u8> = Vec::new();
        body.push((status / 256) as u8);
        body.push((status % 256) as u8);
        push_all(&mut body, reason.as_slice());
        assert(body@ =~= spec_close_payload(status) + reason@);
        let ghost mid_frames = self.frames_out@;
        encode_frame(true, Opcode::Close, &body, &mut self.ws_write);
        proof {
            self.frames_out@ = self.frames_out@.push(
                FrameRec { fin: true, op: Opcode::Close, payload: body@ },
            );
            lemma_binary_payloads_push(
                mid_frames,
                FrameRec { fin: true, op: Opcode::Close, payload: body@ },
            );
            assert(self.ws_write@ =~= old(self).ws_write@ + (match old(self).pending_pong {
                Some(p) => spec_encode(true, Opcode::Pong, p@),
                None => Seq::<u8>::empty(),
            }) + spec_encode(true, Opcode::Close, spec_close_payload(status) + reason@));
        }
        self.close_sent = true;
    }

    /// Appends bytes read from the client socket to the read buffer.
    pub fn feed_client(&mut self, data: &Vec<u8>)
        requires
            old(self).inv(),
            !old(self).ws_read_eof,
        ensures
            final(self).inv(),
            final(self).ws_read@ == old(self).ws_read@ + data@,
            *final(self) == (ProxyChannel { ws_read: final(self).ws_read, ..*old(self) }),
    {
        push_all(&mut self.ws_read, data.as_slice());
    }

    /// Runs the handshake engine over the buffered client bytes.  On
    /// acceptance the 101 response is queued, the handshake bytes are
    /// consumed — bytes after the terminator stay for the frame decoder —
    /// and the channel turns to dialing the backend.  On refusal the error
    /// response is queued and the channel starts draining.
    pub fn handshake_step(&mut self)
        requires
            old(self).inv(),
            old(self).phase == Phase::Handshake,
        ensures
            final(self).inv(),
            ({
                let t = spec_find_term(old(self).ws_read@);
                let head = old(self).ws_read@.take(t);
                &&& (t == -1 && old(self).ws_read@.len() < MAX_HEADER_BYTES ==> *final(self) == *old(self))
                &&& (t >= 0 && spec_handshake_valid(head) ==> {
                    &&& final(self).phase == Phase::Connecting
                    &&& final(self).ws_write@ == old(self).ws_write@ + spec_response_101(
                        spec_ws_key(head),
                    )
                    &&& final(self).ws_read@ == old(self).ws_read@.skip(t + 4)
                    &&& *final(self) == (ProxyChannel {
                        phase: final(self).phase,
                        ws_read: final(self).ws_read,
                        ws_write: final(self).ws_write,
                        ..*old(self)
                    })
                })
                &&& (t >= 0 && !spec_handshake_valid(head) ==> {
                    &&& final(self).phase == Phase::ClosingWs
                    &&& final(self).ws_read_eof && final(self).tcp_read_eof && final(self).tcp_write_closed
                    &&& final(self).ws_write@ == old(self).ws_write@ + (
                    if spec_handshake_sound(head) {
                        spec_response_426()
                    } else {
                        spec_response_400()
                    })
                    &&& *final(self) == (ProxyChannel {
                        phase: final(self).phase,
                        ws_read_eof: final(self).ws_read_eof,
                        tcp_read_eof: final(self).tcp_read_eof,
                        tcp_write_closed: final(self).tcp_write_closed,
                        ws_write: final(self).ws_write,
                        ..*old(self)
                    })
                })
                &&& (t == -1 && old(self).ws_read@.len() >= MAX_HEADER_BYTES ==> {
                    &&& final(self).phase == Phase::ClosingWs
                    &&& final(self).ws_read_eof && final(self).tcp_read_eof && final(self).tcp_write_closed
                    &&& final(self).ws_write@ == old(self).ws_write@ + spec_response_400()
                    &&& *final(self) == (ProxyChannel {
                        phase: final(self).phase,
                        ws_read_eof: final(self).ws_read_eof,
                        tcp_read_eof: final(self).tcp_read_eof,
                        tcp_write_closed: final(self).tcp_write_closed,
                        ws_write: final(self).ws_write,
                        ..*old(self)
                    })
                })
            }),
    {
        match process_handshake(&self.ws_read) {
            HandshakeOutcome::Incomplete => {},
            HandshakeOutcome::Accepted { response, consumed } => {
                proof {
                    crate::handshake::lemma_find_term(self.ws_read@);
                }
                push_all(&mut self.ws_write, response.as_slice());
                let tail = self.ws_read.split_off(consumed);
                self.ws_read = tail;
                self.phase = Phase::Connecting;
            },
            HandshakeOutcome::Rejected { response } => {
                push_all(&mut self.ws_write, response.as_slice());
                self.ws_read_eof = true;
                self.tcp_read_eof = true;
                self.tcp_write_closed = true;
                self.phase = Phase::ClosingWs;
            },
        }
    }

    /// The backend connection succeeded: enter the relay.
    pub fn on_backend_connected(&mut self)
        requires
            old(self).inv(),
            old(self).phase == Phase::Connecting,
        ensures
            final(self).inv(),
            final(self).phase == Phase::Relaying,
            final(self).tcp_open,
            *final(self) == (ProxyChannel {
                phase: final(self).phase,
                tcp_open: final(self).tcp_open,
                ..*old(self)
            }),
    {
        self.tcp_open = true;
        self.phase = Phase::Relaying;
    }

    /// The backend connection failed: tell the client with Close 1011 and
    /// start draining.
    pub fn on_backend_connect_failed(&mut self)
        requires
            old(self).inv(),
            old(self).phase == Phase::Connecting,
        ensures
            final(self).inv(),
            final(self).phase == Phase::ClosingWs,
            final(self).close_sent,
            final(self).ws_read_eof && final(self).tcp_read_eof && final(self).tcp_write_closed,
            final(self).ws_write@ == old(self).ws_write@ + spec_encode(
                true,
                Opcode::Close,
                spec_close_payload(1011) + crate::bytes::spec_ascii("backend unreachable"@),
            ),
            final(self).frames_out@ == old(self).frames_out@.push(
                FrameRec {
                    fin: true,
                    op: Opcode::Close,
                    payload: spec_close_payload(1011) + crate::bytes::spec_ascii(
                        "backend unreachable"@,
                    ),
                },
            ),
            final(self).pending_pong is None,
            *final(self) == (ProxyChannel {
                phase: final(self).phase,
                close_sent: final(self).close_sent,
                ws_read_eof: final(self).ws_read_eof,
                tcp_read_eof: final(self).tcp_read_eof,
                tcp_write_closed: final(self).tcp_write_closed,
                ws_write: final(self).ws_write,
                frames_out: final(self).frames_out,
                pending_pong: final(self).pending_pong,
                ..*old(self)
            }),
    {
        proof {
            reveal_strlit("backend unreachable");
            assert forall|i: int| 0 <= i < self.frames_out@.len() implies (#[trigger] self
                .frames_out@[i]).op != Opcode::Close by {
                if self.frames_out@[i].op == Opcode::Close {
                    assert(i == self.frames_out@.len() - 1);
                }
            }
        }
        let reason = crate::handshake::ascii_lit("backend unreachable");
        self.enqueue_close(1011, &reason);
        proof {
            assert(self.ws_write@ =~= old(self).ws_write@ + spec_encode(
                true,
                Opcode::Close,
                spec_close_payload(1011) + crate::bytes::spec_ascii("backend unreachable"@),
            ));
        }
        self.ws_read_eof = true;
        self.tcp_read_eof = true;
        self.tcp_write_closed = true;
        self.phase = Phase::ClosingWs;
    }

    /// Appends bytes read from the backend socket to the backend read
    /// buffer.
    pub fn feed_backend(&mut self, data: &Vec<u8>)
        requires
            old(self).inv(),
            !old(self).tcp_read_eof,
            old(self).tcp_read@.len() + data@.len() <= MAX_PAYLOAD_LEN,
        ensures
            final(self).inv(),
            final(self).tcp_read@ == old(self).tcp_read@ + data@,
            final(self).backend_data@ == old(self).backend_data@ + data@,
            *final(self) == (ProxyChannel {
                tcp_read: final(self).tcp_read,
                backend_data: final(self).backend_data,
                ..*old(self)
            }),
    {
        push_all(&mut self.tcp_read, data.as_slice());
        proof {
            self.backend_data@ = self.backend_data@ + data@;
            if !self.close_sent {
                assert(spec_binary_payloads(self.frames_out@) + self.tcp_read@
                    =~= self.backend_data@);
            }
        }
    }

    /// Frames the buffered backend bytes as one binary frame toward the
    /// client and clears the backend read buffer.  After a Close has been
    /// queued nothing more is framed; the bytes are dropped.
    pub fn pump_tcp_to_ws(&mut self)
        requires
            old(self).inv(),
        ensures
            final(self).inv(),
            final(self).tcp_read@ =~= Seq::<u8>::empty(),
            !old(self).close_sent && old(self).tcp_read@.len() > 0 ==> {
                &&& final(self).ws_write@ == old(self).ws_write@ + spec_encode(
                    true,
                    Opcode::Binary,
                    old(self).tcp_read@,
                )
                &&& final(self).frames_out@ == old(self).frames_out@.push(
                    FrameRec { fin: true, op: Opcode::Binary, payload: old(self).tcp_read@ },
                )
            },
            old(self).close_sent || old(self).tcp_read@.len() == 0 ==> final(self).ws_write@ == old(self).ws_write@ && final(self).frames_out@ == old(self).frames_out@,
            *final(self) == (ProxyChannel {
                tcp_read: final(self).tcp_read,
                ws_write: final(self).ws_write,
                frames_out: final(self).frames_out,
                ..*old(self)
            }),
    {
        if self.tcp_read.len() == 0 {
            assert(self.tcp_read@ =~= Seq::<u8>::empty());
            return ;
        }
        if self.close_sent {
            self.tcp_read.clear();
            return ;
        }
        let data = self.tcp_read.split_off(0);
        assert(self.tcp_read@ =~= Seq::<u8>::empty());
        assert(data@ == old(self).tcp_read@);
        self.push_frame(true, Opcode::Binary, &data);
        proof {
            lemma_binary_payloads_push(
                old(self).frames_out@,
                FrameRec { fin: true, op: Opcode::Binary, payload: data@ },
            );
            assert(spec_binary_payloads(final(self).frames_out@) + final(self).tcp_read@
                =~= final(self).backend_data@);
            assert(spec_binary_payloads(final(self).frames_out@).is_prefix_of(
                final(self).backend_data@,
            ));
        }
    }

    /// The backend reached end of stream: no more frames will be produced;
    /// tell the client with Close 1000 if no Close has gone out yet.
    pub fn on_backend_eof(&mut self)
        requires
            old(self).inv(),
            old(self).phase == Phase::Relaying || old(self).phase == Phase::ClosingWs,
        ensures
            final(self).inv(),
            final(self).tcp_read_eof,
            final(self).close_sent || old(self).close_sent,
            old(self).close_sent ==> *final(self) == (ProxyChannel {
                tcp_read_eof: final(self).tcp_read_eof,
                ..*old(self)
            }),
            !old(self).close_sent ==> {
                &&& final(self).close_sent
                &&& final(self).pending_pong is None
                &&& final(self).ws_write@ == old(self).ws_write@ + (
                match old(self).pending_pong {
                    Some(p) => spec_encode(true, Opcode::Pong, p@),
                    None => Seq::<u8>::empty(),
                }) + spec_encode(true, Opcode::Close, spec_close_payload(1000))
                &&& final(self).frames_out@ == (match old(self).pending_pong {
                    Some(p) => old(self).frames_out@.push(
                        FrameRec { fin: true, op: Opcode::Pong, payload: p@ },
                    ),
                    None => old(self).frames_out@,
                }).push(
                    FrameRec { fin: true, op: Opcode::Close, payload: spec_close_payload(1000) },
                )
                &&& *final(self) == (ProxyChannel {
                    tcp_read_eof: final(self).tcp_read_eof,
                    ws_write: final(self).ws_write,
                    frames_out: final(self).frames_out,
                    pending_pong: final(self).pending_pong,
                    close_sent: final(self).close_sent,
                    ..*old(self)
                })
            },
    {
        self.tcp_read_eof = true;
        if !self.close_sent {
            proof {
                assert forall|i: int| 0 <= i < self.frames_out@.len() implies (#[trigger] self
                    .frames_out@[i]).op != Opcode::Close by {
                    if self.frames_out@[i].op == Opcode::Close {
                        assert(i == self.frames_out@.len() - 1);
                    }
                }
                let bp = spec_binary_payloads(self.frames_out@);
                assert(bp =~= self.backend_data@.subrange(0, bp.len() as int));
                assert(bp.is_prefix_of(self.backend_data@));
            }
            let empty_reason: Vec<u8> = Vec::new();
            self.enqueue_close(1000, &empty_reason);
            proof {
                assert(spec_close_payload(1000) + empty_reason@ =~= spec_close_payload(1000));
            }
        }
    }

    /// The client socket reached end of stream without a Close frame.
    pub fn on_client_eof(&mut self)
        requires
            old(self).inv(),
        ensures
            final(self).inv(),
            final(self).ws_read_eof,
            *final(self) == (ProxyChannel { ws_read_eof: final(self).ws_read_eof, ..*old(self) }),
    {
        self.ws_read_eof = true;
    }

    /// Takes the bytes owed to the client socket: the queued frames and
    /// response bytes, followed by any owed pong.
    pub fn take_client_output(&mut self) -> (out: Vec<u8>)
        requires
            old(self).inv(),
        ensures
            final(self).inv(),
            out@ == old(self).ws_write@ + (match old(self).pending_pong {
                Some(p) => spec_encode(true, Opcode::Pong, p@),
                None => Seq::<u8>::empty(),
            }),
            final(self).ws_write@ =~= Seq::<u8>::empty(),
            final(self).pending_pong is None,
            final(self).frames_out@ == (match old(self).pending_pong {
                Some(p) => old(self).frames_out@.push(
                    FrameRec { fin: true, op: Opcode::Pong, payload: p@ },
                ),
                None => old(self).frames_out@,
            }),
            *final(self) == (ProxyChannel {
                ws_write: final(self).ws_write,
                pending_pong: final(self).pending_pong,
                frames_out: final(self).frames_out,
                ..*old(self)
            }),
    {
        let pong = self.pending_pong.take();
        match pong {
            Some(p) => {
                self.push_frame(true, Opcode::Pong, &p);
                proof {
                    lemma_binary_payloads_push(
                        old(self).frames_out@,
                        FrameRec { fin: true, op: Opcode::Pong, payload: p@ },
                    );
                }
            },
            None => {},
        }
        let out = self.ws_write.split_off(0);
        assert(self.ws_write@ =~= Seq::<u8>::empty());
        out
    }

    /// Takes the bytes owed to the backend socket.
    pub fn take_backend_output(&mut self) -> (out: Vec<u8>)
        requires
            old(self).inv(),
        ensures
            final(self).inv(),
            out@ == old(self).tcp_write@,
            final(self).tcp_write@ =~= Seq::<u8>::empty(),
            final(self).tcp_sent@ == old(self).tcp_sent@ + out@,
            *final(self) == (ProxyChannel {
                tcp_write: final(self).tcp_write,
                tcp_sent: final(self).tcp_sent,
                ..*old(self)
            }),
    {
        let out = self.tcp_write.split_off(0);
        assert(self.tcp_write@ =~= Seq::<u8>::empty());
        proof {
            self.tcp_sent@ = self.tcp_sent@ + out@;
            if !self.cancelled {
                assert(final(self).tcp_sent@ + final(self).tcp_write@ =~= final(self).client_data@);
            } else {
                assert(out@.len() == 0);
                assert(final(self).tcp_sent@ =~= old(self).tcp_sent@);
            }
        }
        out
    }

    /// Orders the shutdown: once the client direction is done and its
    /// buffers are flushed, the write sides are shut and finally both
    /// sockets are closed and the channel is drained.  The returned actions
    /// tell the caller which socket operations to perform now.
    pub fn poll_shutdown(&mut self) -> (acts: (bool, bool, bool))
        requires
            old(self).inv(),
        ensures
            final(self).inv(),
            acts.0 == (old(self).ws_read_eof && !old(self).ws_write_closed && old(self).ws_write@.len() == 0 && old(self).pending_pong is None),
            acts.1 == (old(self).ws_read_eof && !old(self).tcp_write_closed && old(self).tcp_write@.len() == 0),
            final(self).ws_write_closed == (old(self).ws_write_closed || acts.0),
            final(self).tcp_write_closed == (old(self).tcp_write_closed || acts.1),
            acts.2 == (old(self).ws_read_eof && final(self).ws_write_closed && final(self).tcp_write_closed && old(self).tcp_read_eof),
            acts.2 ==> final(self).phase == Phase::Drained && !final(self).ws_open && !final(self).tcp_open,
            !acts.2 ==> final(self).phase == old(self).phase && final(self).ws_open == old(self).ws_open && final(self).tcp_open == old(self).tcp_open,
            *final(self) == (ProxyChannel {
                phase: final(self).phase,
                ws_write_closed: final(self).ws_write_closed,
                tcp_write_closed: final(self).tcp_write_closed,
                ws_open: final(self).ws_open,
                tcp_open: final(self).tcp_open,
                ..*old(self)
            }),
    {
        let mut shut_ws: bool = false;
        let mut shut_tcp: bool = false;
        let mut done: bool = false;
        if self.ws_read_eof && !self.ws_write_closed && self.ws_write.len() == 0
            && self.pending_pong.is_none() {
            self.ws_write_closed = true;
            shut_ws = true;
        }
        if self.ws_read_eof && !self.tcp_write_closed && self.tcp_write.len() == 0 {
            self.tcp_write_closed = true;
            shut_tcp = true;
        }
        if self.ws_read_eof && self.ws_write_closed && self.tcp_write_closed && self.tcp_read_eof {
            self.ws_open = false;
            self.tcp_open = false;
            self.phase = Phase::Drained;
            done = true;
        }
        (shut_ws, shut_tcp, done)
    }

    /// Queues the reciprocal or error Close, stops reading and starts the
    /// shutdown of the WebSocket side.
    fn close_ws(&mut self, status: u16)
        requires
            old(self).inv(),
        ensures
            final(self).inv(),
            final(self).phase == Phase::ClosingWs,
            final(self).ws_read_eof,
            final(self).close_sent,
            final(self).pending_pong is None,
            final(self).ws_read@ =~= Seq::<u8>::empty(),
            !old(self).close_sent ==> final(self).ws_write@ == old(self).ws_write@ + spec_encode(
                true,
                Opcode::Close,
                spec_close_payload(status),
            ),
            old(self).close_sent ==> final(self).ws_write@ == old(self).ws_write@,
            final(self).tcp_write@ == old(self).tcp_write@,
            final(self).client_data@ == old(self).client_data@,
            final(self).tcp_sent@ == old(self).tcp_sent@,
            final(self).backend_data@ == old(self).backend_data@,
            final(self).tcp_read@ == old(self).tcp_read@,
            final(self).tcp_read_eof == old(self).tcp_read_eof,
            final(self).ws_write_closed == old(self).ws_write_closed,
            final(self).tcp_write_closed == old(self).tcp_write_closed,
            final(self).ws_open == old(self).ws_open,
            final(self).tcp_open == old(self).tcp_open,
            final(self).cancelled == old(self).cancelled,
    {
        self.pending_pong = None;
        if !self.close_sent {
            proof {
                assert forall|i: int| 0 <= i < self.frames_out@.len() implies (#[trigger] self
                    .frames_out@[i]).op != Opcode::Close by {
                    if self.frames_out@[i].op == Opcode::Close {
                        assert(i == self.frames_out@.len() - 1);
                    }
                }
                let bp = spec_binary_payloads(self.frames_out@);
                if !self.close_sent {
                    assert(bp =~= self.backend_data@.subrange(0, bp.len() as int));
                    assert(bp.is_prefix_of(self.backend_data@));
                }
            }
            let empty_reason: Vec<u8> = Vec::new();
            self.enqueue_close(status, &empty_reason);
            proof {
                assert(spec_close_payload(status) + empty_reason@ =~= spec_close_payload(status));
            }
        }
        self.ws_read.clear();
        self.ws_read_eof = true;
        self.phase = Phase::ClosingWs;
    }

    /// The client-to-backend pump: decodes the buffered client frames in
    /// order, appends data-frame payloads to the backend write buffer, notes
    /// the pong owed for the last ping (last ping wins), answers a Close
    /// with the reciprocal Close and a malformed stream with Close 1002 (or
    /// 1009 for an oversize frame).  A half-closed backend does not stop it:
    /// client data keeps draining until the client closes.
    #[verifier::rlimit(100)]
    pub fn pump_ws_to_tcp(&mut self)
        requires
            old(self).inv(),
            old(self).phase == Phase::Relaying,
            !old(self).ws_read_eof,
        ensures
            final(self).inv(),
            ({
                let p = spec_pump(old(self).ws_read@, old(self).frag_in_progress);
                &&& final(self).client_data@ == old(self).client_data@ + p.data
                &&& final(self).tcp_write@ == old(self).tcp_write@ + p.data
                &&& final(self).tcp_sent@ == old(self).tcp_sent@
                &&& final(self).backend_data@ == old(self).backend_data@
                &&& final(self).tcp_read@ == old(self).tcp_read@
                &&& final(self).tcp_read_eof == old(self).tcp_read_eof
                &&& final(self).ws_write_closed == old(self).ws_write_closed
                &&& final(self).tcp_write_closed == old(self).tcp_write_closed
                &&& final(self).ws_open == old(self).ws_open
                &&& final(self).tcp_open == old(self).tcp_open
                &&& final(self).cancelled == old(self).cancelled
                &&& (p.end is More ==> {
                    &&& final(self).phase == Phase::Relaying
                    &&& !final(self).ws_read_eof
                    &&& final(self).ws_read@ == old(self).ws_read@.skip(p.consumed as int)
                    &&& final(self).frag_in_progress == p.frag
                    &&& final(self).close_sent == old(self).close_sent
                    &&& final(self).ws_write@ == old(self).ws_write@
                    &&& final(self).frames_out@ == old(self).frames_out@
                    &&& (old(self).close_sent ==> final(self).pending_pong is None)
                    &&& (!old(self).close_sent ==> (match p.pong {
                        Some(pl) => final(self).pending_pong matches Some(q) && q@ == pl,
                        None => final(self).pending_pong == old(self).pending_pong,
                    }))
                })
                &&& (!(p.end is More) ==> {
                    &&& final(self).phase == Phase::ClosingWs
                    &&& final(self).ws_read_eof
                    &&& final(self).close_sent
                    &&& final(self).pending_pong is None
                    &&& final(self).ws_read@ =~= Seq::<u8>::empty()
                    &&& (!old(self).close_sent ==> final(self).ws_write@ == old(self).ws_write@
                        + spec_encode(
                        true,
                        Opcode::Close,
                        spec_close_payload(
                            match p.end {
                                PumpEnd::PeerClose { status } => match status {
                                    Some(st) => st,
                                    None => 1000,
                                },
                                _ => spec_error_status(p.end),
                            },
                        ),
                    ))
                    &&& (old(self).close_sent ==> final(self).ws_write@ == old(self).ws_write@)
                })
            }),
        decreases self.ws_read@.len(),
    {
        let ghost s0 = self.ws_read@;
        let ghost frag0 = self.frag_in_progress;
        let ghost p = spec_pump(s0, frag0);
        proof {
            assert(s0.skip(0) =~= s0);
        }
        match decode_frame(&self.ws_read, 0, true) {
            Decoded::NeedMore { .. } => {
                proof {
                    assert(s0.skip(0) =~= s0);
                }
            },
            Decoded::Invalid { err } => {
                let code: u16 = if matches!(err, FrameError::Oversize) {
                    1009
                } else {
                    1002
                };
                self.close_ws(code);
            },
            Decoded::Complete { frame, size } => {
                let Frame { fin, opcode, payload } = frame;
                proof {
                    crate::frame::lemma_decoded_control(s0, true);
                    assert(size >= 2 && size <= s0.len());
                }
                if matches!(opcode, Opcode::Close) {
                    let status: u16 = if payload.len() >= 2 {
                        (payload[0] as u16) * 256 + (payload[1] as u16)
                    } else {
                        1000
                    };
                    self.close_ws(status);
                } else if matches!(opcode, Opcode::Continuation) && !self.frag_in_progress {
                    self.close_ws(1002);
                } else {
                    let tail = self.ws_read.split_off(size);
                    self.ws_read = tail;
                    assert(self.ws_read@ =~= s0.skip(size as int));
                    let is_data = !opcode.is_control();
                    if is_data {
                        push_all(&mut self.tcp_write, payload.as_slice());
                        proof {
                            self.client_data@ = self.client_data@ + payload@;
                            if !self.cancelled {
                                assert(self.tcp_sent@ + self.tcp_write@ =~= self.client_data@);
                            }
                        }
                        self.frag_in_progress = !fin;
                    } else if matches!(opcode, Opcode::Ping) {
                        if !self.close_sent {
                            self.pending_pong = Some(payload);
                        }
                    }
                    let ghost mid = *self;
                    let ghost frag2 = if opcode.spec_is_data() {
                        !fin
                    } else {
                        frag0
                    };
                    let ghost rest = spec_pump(s0.skip(size as int), frag2);
                    self.pump_ws_to_tcp();
                    proof {
                        assert(mid.frag_in_progress == frag2);
                        assert(p.consumed == size + rest.consumed);
                        assert(p.data == (if opcode.spec_is_data() {
                            payload@
                        } else {
                            Seq::<u8>::empty()
                        }) + rest.data);
                        assert(p.end == rest.end);
                        assert(p.frag == rest.frag);
                        assert(final(self).client_data@ =~= old(self).client_data@ + p.data);
                        assert(final(self).tcp_write@ =~= old(self).tcp_write@ + p.data);
                        if rest.end is More {
                            lemma_pump_consumed(s0.skip(size as int), frag2);
                            assert(s0.skip(size as int).skip(rest.consumed as int) =~= s0.skip(
                                size + rest.consumed,
                            ));
                            assert(final(self).ws_read@ =~= old(self).ws_read@.skip(
                                p.consumed as int,
                            ));
                        }
                    }
                }
            },
        }
    }

    /// The parent asked the channel to stop: drop what is still queued,
    /// close both sockets and drain.  Idempotent.
    pub fn on_cancelled(&mut self)
        requires
            old(self).inv(),
        ensures
            final(self).inv(),
            final(self).phase == Phase::Drained,
            !final(self).ws_open && !final(self).tcp_open,
            final(self).cancelled,
            final(self).ws_write@ =~= Seq::<u8>::empty(),
            final(self).tcp_write@ =~= Seq::<u8>::empty(),
            final(self).ws_read_eof && final(self).ws_write_closed && final(self).tcp_read_eof
                && final(self).tcp_write_closed,
            final(self).tcp_sent@ == old(self).tcp_sent@,
            final(self).backend_data@ == old(self).backend_data@,
            final(self).client_data@ == old(self).client_data@,
            final(self).frames_out@ == old(self).frames_out@,
    {
        proof {
            if !self.cancelled {
                assert(self.client_data@.take(self.tcp_sent@.len() as int) =~= self.tcp_sent@);
            }
        }
        self.cancelled = true;
        self.ws_write.clear();
        self.tcp_write.clear();
        self.ws_read_eof = true;
        self.ws_write_closed = true;
        self.tcp_read_eof = true;
        self.tcp_write_closed = true;
        self.ws_open = false;
        self.tcp_open = false;
        self.phase = Phase::Drained;
    }
}

} // verus!
