use vstd::prelude::*;

use crate::addr::{
    ActorPath, IpAddress, LocalHandle, PathResolvable, PathView, PeerAddr, ResolvableView,
    SystemPath, Transport,
};
use crate::assoc::{
    al_find, al_unique, lemma_al_find_none, lemma_al_find_some, lemma_al_push, lemma_al_remove,
};
use crate::frames::{spec_stream_id, stream_id_for, Frame, FrameView};
use crate::lookup::{ActorLookup, RegistryError};
use crate::net::{channel_try_send, FrameSender, NetworkEvent, SendOutcome};
use crate::queue::{DrainOutcome, QueueManager};
use crate::wire::{encode_envelope, envelope_bytes, path_encodable};

verus! {

/// Configuration the dispatcher is created with.
#[derive(Clone, Copy, PartialEq, Eq, Structural, Debug)]
pub struct NetworkConfig {
    /// Address the bridge binds to; also the dispatcher's own identity.
    pub addr: PeerAddr,
    /// Upper bound of each per-peer pending queue; the oldest frame is
    /// deadlettered when an enqueue would exceed it.
    pub max_pending_frames_per_peer: usize,
    /// How long a connection attempt may stay `Initializing`.
    pub connect_timeout_ms: u64,
    /// Grace window `Stop` grants for queued frames to flush.
    pub stop_grace_ms: u64,
    /// Whether a closed connection with queued frames is retried.
    pub retry_on_close: bool,
}

/// The default configuration: 127.0.0.1:8080 with a 1024-frame pending cap.
pub open spec fn default_config() -> NetworkConfig {
    NetworkConfig {
        addr: PeerAddr { ip: IpAddress::V4(0x7f000001), port: 8080 },
        max_pending_frames_per_peer: 1024,
        connect_timeout_ms: 5000,
        stop_grace_ms: 5000,
        retry_on_close: true,
    }
}

impl Default for NetworkConfig {
    /// Binds to 127.0.0.1:8080 with a 1024-frame pending cap.
    fn default() -> (r: NetworkConfig)
        ensures
            r == default_config(),
    {
        NetworkConfig {
            addr: PeerAddr { ip: IpAddress::V4(0x7f000001), port: 8080 },
            max_pending_frames_per_peer: 1024,
            connect_timeout_ms: 5000,
            stop_grace_ms: 5000,
            retry_on_close: true,
        }
    }
}

/// Lifecycle control events the runtime delivers.
#[derive(Clone, Copy, PartialEq, Eq, Structural, Debug)]
pub enum ControlEvent {
    Start,
    Stop,
    Kill,
}

/// Per-peer connection state. The send channel lives only in `Connected`.
pub enum ConnectionState {
    /// Never attempted.
    New,
    /// A connect request is in flight.
    Initializing,
    /// Live connection with its bounded send channel.
    Connected { peer_id: u64, tx: FrameSender },
    /// Down; a new attempt may be made.
    Closed,
    /// The peer refused or is unreachable; no retries until policy clears.
    Blocked,
}

/// The shape of a connection state, without the channel.
#[derive(Clone, Copy, PartialEq, Eq, Structural, Debug)]
pub enum ConnKind {
    New,
    Initializing,
    Connected,
    Closed,
    Blocked,
}

impl ConnectionState {
    pub open spec fn kind(&self) -> ConnKind {
        match self {
            ConnectionState::New => ConnKind::New,
            ConnectionState::Initializing => ConnKind::Initializing,
            ConnectionState::Connected { .. } => ConnKind::Connected,
            ConnectionState::Closed => ConnKind::Closed,
            ConnectionState::Blocked => ConnKind::Blocked,
        }
    }
}

/// An envelope as handed to a local actor's mailbox.
pub struct ReceivedEnvelope {
    pub src: ActorPath,
    pub dst: ActorPath,
    pub ser_id: u64,
    pub payload: Vec<u8>,
}

/// Mathematical shape of a [`ReceivedEnvelope`].
pub struct EnvView {
    pub src: PathView,
    pub dst: PathView,
    pub ser_id: u64,
    pub payload: Seq<u8>,
}

impl View for ReceivedEnvelope {
    type V = EnvView;

    open spec fn view(&self) -> EnvView {
        EnvView { src: self.src@, dst: self.dst@, ser_id: self.ser_id, payload: self.payload@ }
    }
}

/// What one dispatcher step asks of its surroundings or reports: local
/// deliveries, deadletters, overflow drops, and bridge requests.
pub enum DispatchEvent {
    /// Enqueue `env` on the mailbox in arena slot `slot`.
    LocalDeliver { slot: u64, env: ReceivedEnvelope },
    /// The envelope could not be delivered locally.
    DeadLetter { env: ReceivedEnvelope },
    /// The destination transport is not supported.
    UnsupportedTransport { env: ReceivedEnvelope },
    /// A frame for `peer` was dropped.
    DeadLetterFrame { peer: PeerAddr, frame: Frame },
    /// The oldest pending frame for `peer` was dropped to respect the cap.
    QueueOverflow { peer: PeerAddr, frame: Frame },
    /// Ask the bridge to connect to `peer`.
    ConnectRequest { peer: PeerAddr },
    /// Ask the runtime to start the bridge, listening on `addr`.
    BridgeUp { addr: PeerAddr },
    /// A registration was dropped; the existing binding is retained.
    RegistrationRefused { err: RegistryError },
    /// A malformed inbound frame or an illegal envelope was dropped.
    ProtocolViolation,
}

/// Mathematical shape of a [`DispatchEvent`].
pub enum EventView {
    LocalDeliver { slot: u64, env: EnvView },
    DeadLetter { env: EnvView },
    UnsupportedTransport { env: EnvView },
    DeadLetterFrame { peer: PeerAddr, frame: FrameView },
    QueueOverflow { peer: PeerAddr, frame: FrameView },
    ConnectRequest { peer: PeerAddr },
    BridgeUp { addr: PeerAddr },
    RegistrationRefused { err: RegistryError },
    ProtocolViolation,
}

impl DeepView for DispatchEvent {
    type V = EventView;

    open spec fn deep_view(&self) -> EventView {
        match self {
            DispatchEvent::LocalDeliver { slot, env } => EventView::LocalDeliver {
                slot: *slot,
                env: env@,
            },
            DispatchEvent::DeadLetter { env } => EventView::DeadLetter { env: env@ },
            DispatchEvent::UnsupportedTransport { env } => EventView::UnsupportedTransport {
                env: env@,
            },
            DispatchEvent::DeadLetterFrame { peer, frame } => EventView::DeadLetterFrame {
                peer: *peer,
                frame: frame@,
            },
            DispatchEvent::QueueOverflow { peer, frame } => EventView::QueueOverflow {
                peer: *peer,
                frame: frame@,
            },
            DispatchEvent::ConnectRequest { peer } => EventView::ConnectRequest { peer: *peer },
            DispatchEvent::BridgeUp { addr } => EventView::BridgeUp { addr: *addr },
            DispatchEvent::RegistrationRefused { err } => EventView::RegistrationRefused {
                err: *err,
            },
            DispatchEvent::ProtocolViolation => EventView::ProtocolViolation,
        }
    }
}

/// Everything the dispatcher tracks for one peer: connection shape, the
/// pending queue, what was handed to send channels, and what was dropped.
pub struct PeerModel {
    pub conn: ConnKind,
    pub queue: Seq<FrameView>,
    pub sent: Seq<FrameView>,
    pub dead: Seq<FrameView>,
}

/// Outcome of a non-blocking send, as the model sees it.
#[derive(Clone, Copy, PartialEq, Eq, Structural, Debug)]
pub enum SendResult {
    Accepted,
    WasFull,
    WasDisconnected,
}

/// Appends `f`; if the queue already held `cap` frames, the oldest leaves
/// and is reported.
pub open spec fn cap_enqueue(q: Seq<FrameView>, f: FrameView, cap: nat) -> (
    Seq<FrameView>,
    Option<FrameView>,
) {
    if q.len() < cap {
        (q.push(f), None)
    } else {
        (q.push(f).drop_first(), Some(q.push(f)[0]))
    }
}

pub open spec fn push_opt(s: Seq<FrameView>, o: Option<FrameView>) -> Seq<FrameView> {
    match o {
        Some(f) => s.push(f),
        None => s,
    }
}

pub open spec fn overflow_events(p: PeerAddr, o: Option<FrameView>) -> Seq<EventView> {
    match o {
        Some(f) => seq![EventView::QueueOverflow { peer: p, frame: f }],
        None => Seq::empty(),
    }
}

/// The outbound routing step for one peer: the state-machine table of the
/// connection lifecycle, with the queue-first rule (a direct send never
/// bypasses a non-empty queue) and the bounded-queue policy.
pub open spec fn step_route(
    m: PeerModel,
    f: FrameView,
    res: SendResult,
    bridge_up: bool,
    cap: nat,
    p: PeerAddr,
) -> (PeerModel, Seq<EventView>) {
    match m.conn {
        ConnKind::New | ConnKind::Closed => {
            if bridge_up {
                let (q2, dropped) = cap_enqueue(m.queue, f, cap);
                (
                    PeerModel {
                        conn: ConnKind::Initializing,
                        queue: q2,
                        sent: m.sent,
                        dead: push_opt(m.dead, dropped),
                    },
                    overflow_events(p, dropped).push(EventView::ConnectRequest { peer: p }),
                )
            } else {
                (
                    PeerModel {
                        conn: ConnKind::Closed,
                        queue: m.queue,
                        sent: m.sent,
                        dead: m.dead.push(f),
                    },
                    seq![EventView::DeadLetterFrame { peer: p, frame: f }],
                )
            }
        },
        ConnKind::Initializing | ConnKind::Blocked => {
            let (q2, dropped) = cap_enqueue(m.queue, f, cap);
            (
                PeerModel {
                    conn: m.conn,
                    queue: q2,
                    sent: m.sent,
                    dead: push_opt(m.dead, dropped),
                },
                overflow_events(p, dropped),
            )
        },
        ConnKind::Connected => {
            if m.queue.len() > 0 {
                let (q2, dropped) = cap_enqueue(m.queue, f, cap);
                (
                    PeerModel {
                        conn: m.conn,
                        queue: q2,
                        sent: m.sent,
                        dead: push_opt(m.dead, dropped),
                    },
                    overflow_events(p, dropped),
                )
            } else {
                match res {
                    SendResult::Accepted => (
                        PeerModel {
                            conn: m.conn,
                            queue: m.queue,
                            sent: m.sent.push(f),
                            dead: m.dead,
                        },
                        Seq::empty(),
                    ),
                    SendResult::WasFull => {
                        let (q2, dropped) = cap_enqueue(m.queue, f, cap);
                        (
                            PeerModel {
                                conn: m.conn,
                                queue: q2,
                                sent: m.sent,
                                dead: push_opt(m.dead, dropped),
                            },
                            overflow_events(p, dropped),
                        )
                    },
                    SendResult::WasDisconnected => {
                        let (q2, dropped) = cap_enqueue(m.queue, f, cap);
                        (
                            PeerModel {
                                conn: ConnKind::Closed,
                                queue: q2,
                                sent: m.sent,
                                dead: push_opt(m.dead, dropped),
                            },
                            overflow_events(p, dropped).push(
                                EventView::ConnectRequest { peer: p },
                            ),
                        )
                    },
                }
            }
        },
    }
}

/// One connection coming up (or a drain pass on a live one): `k` queued
/// frames go to the channel first, in order; the rest stay queued. If the
/// channel turned out dead the connection closes instead.
pub open spec fn step_opened(m: PeerModel, k: int, closed: bool) -> PeerModel {
    PeerModel {
        conn: if closed {
            ConnKind::Closed
        } else {
            ConnKind::Connected
        },
        queue: m.queue.skip(k),
        sent: m.sent + m.queue.take(k),
        dead: m.dead,
    }
}

/// A connection going down: with frames queued and a retry policy the
/// queue survives for the reconnect, otherwise it is deadlettered whole.
pub open spec fn step_closed(m: PeerModel, retry: bool) -> PeerModel {
    if m.queue.len() > 0 && retry {
        PeerModel { conn: ConnKind::Closed, queue: m.queue, sent: m.sent, dead: m.dead }
    } else {
        PeerModel {
            conn: ConnKind::Closed,
            queue: Seq::empty(),
            sent: m.sent,
            dead: m.dead + m.queue,
        }
    }
}

/// A connection attempt failing: a permanent refusal blocks the peer and
/// deadletters its queue; a transient fault leaves the queue for a retry.
pub open spec fn step_connect_failed(m: PeerModel, permanent: bool) -> PeerModel {
    if permanent {
        PeerModel {
            conn: ConnKind::Blocked,
            queue: Seq::empty(),
            sent: m.sent,
            dead: m.dead + m.queue,
        }
    } else {
        PeerModel { conn: ConnKind::Closed, queue: m.queue, sent: m.sent, dead: m.dead }
    }
}

/// One deadletter report per dropped frame, in queue order.
pub open spec fn dle_seq(peer: PeerAddr, q: Seq<FrameView>) -> Seq<EventView> {
    Seq::new(q.len(), |i: int| EventView::DeadLetterFrame { peer, frame: q[i] })
}

/// What handling an inbound data frame reports: a delivery or deadletter
/// whose envelope re-encodes exactly to the frame's payload, or a
/// protocol-violation drop; control frames pass silently.
pub open spec fn received_events_ok(
    d: NetworkDispatcher,
    f: FrameView,
    evs: Seq<EventView>,
) -> bool {
    match f {
        FrameView::Data { payload, .. } => {
            &&& evs.len() == 1
            &&& match evs[0] {
                EventView::LocalDeliver { slot, env } => {
                    &&& payload == envelope_bytes(env.ser_id, env.src, env.dst, env.payload)
                    &&& d.registry().spec_lookup(env.dst) matches Some(h) && h.slot == slot
                },
                EventView::DeadLetter { env } => {
                    &&& payload == envelope_bytes(env.ser_id, env.src, env.dst, env.payload)
                    &&& d.registry().spec_lookup(env.dst) == None::<LocalHandle>
                },
                EventView::ProtocolViolation => crate::wire::spec_parse_envelope(payload)
                    is None,
                _ => false,
            }
        },
        _ => evs == Seq::<EventView>::empty(),
    }
}

/// What one network event does to the dispatcher, per the event-handling
/// table: `Opened` drains queue-first, `Closed` keeps or drops the queue
/// by policy, `ConnectFailed` blocks or allows retry, `Received` only
/// delivers.
pub open spec fn network_step_ok(
    pre: NetworkDispatcher,
    post: NetworkDispatcher,
    ev: NetworkEvent,
    evs: Seq<EventView>,
) -> bool {
    &&& post.registry() == pre.registry()
    &&& post.config() == pre.config()
    &&& post.is_started() == pre.is_started()
    &&& post.seq_counter() == pre.seq_counter()
    &&& match ev {
        NetworkEvent::Opened { peer, .. } => (forall|q: PeerAddr|
            q != peer ==> post.peer_model(q) == pre.peer_model(q)) && exists|k: int, closed: bool|
            {
                &&& 0 <= k <= pre.pending_of(peer).len()
                &&& post.peer_model(peer) == #[trigger] step_opened(pre.peer_model(peer), k, closed)
                &&& evs == (if closed {
                    seq![EventView::ConnectRequest { peer }]
                } else {
                    Seq::<EventView>::empty()
                })
            },
        NetworkEvent::Closed { peer } => {
            &&& (forall|q: PeerAddr| q != peer ==> post.peer_model(q) == pre.peer_model(q))
            &&& post.peer_model(peer) == step_closed(
                pre.peer_model(peer),
                pre.config().retry_on_close,
            )
            &&& evs == (if pre.pending_of(peer).len() > 0 && pre.config().retry_on_close {
                seq![EventView::ConnectRequest { peer }]
            } else {
                dle_seq(peer, pre.pending_of(peer))
            })
        },
        NetworkEvent::ConnectFailed { peer, permanent } => {
            &&& (forall|q: PeerAddr| q != peer ==> post.peer_model(q) == pre.peer_model(q))
            &&& post.peer_model(peer) == step_connect_failed(pre.peer_model(peer), permanent)
            &&& evs == (if permanent {
                dle_seq(peer, pre.pending_of(peer))
            } else {
                Seq::<EventView>::empty()
            })
        },
        NetworkEvent::Received { frame, .. } => post == pre && received_events_ok(
            pre,
            frame@,
            evs,
        ),
    }
}

/// What one `route` call does, by the destination's transport.
pub open spec fn route_post(
    pre: NetworkDispatcher,
    post: NetworkDispatcher,
    src: ResolvableView,
    dst: PathView,
    ser_id: u64,
    payload: Seq<u8>,
    evs: Seq<EventView>,
) -> bool {
    match dst.system().transport {
        Transport::Local => post == pre && evs == pre.local_route_events(src, dst, ser_id, payload),
        Transport::Udp => post == pre && evs == seq![
            EventView::UnsupportedTransport {
                env: EnvView { src: pre.resolve_src(src), dst, ser_id, payload },
            },
        ],
        Transport::Tcp => {
            &&& post.registry() == pre.registry()
            &&& post.config() == pre.config()
            &&& post.is_started() == pre.is_started()
            &&& post.seq_counter() == vstd::wrapping::u64_specs::wrapping_add(pre.seq_counter(), 1)
            &&& (forall|q: PeerAddr| q != dst.peer() ==> post.peer_model(q) == pre.peer_model(q))
            &&& ({
                let m0 = pre.peer_model(dst.peer());
                let f0 = pre.spec_data_frame(src, dst, ser_id, payload);
                let cap0 = pre.config().max_pending_frames_per_peer as nat;
                exists|res: SendResult|
                    {
                        &&& post.peer_model(dst.peer()) == (#[trigger] step_route(
                            m0,
                            f0,
                            res,
                            pre.is_started(),
                            cap0,
                            dst.peer(),
                        )).0
                        &&& evs == step_route(m0, f0, res, pre.is_started(), cap0, dst.peer()).1
                    }
            })
        },
    }
}

/// A registration request or an already-routable message, as the runtime
/// hands them to the dispatcher.
pub enum RegistrationEnvelope {
    Register(LocalHandle, ActorPath),
    Deregister(ActorPath),
}

/// Everything the dispatcher consumes: outbound messages, registrations,
/// inbound network events, and the reserved `Cast` kind, which is a
/// protocol violation here.
pub enum DispatchEnvelope {
    Msg { src: PathResolvable, dst: ActorPath, ser_id: u64, payload: Vec<u8> },
    Registration(RegistrationEnvelope),
    Event(NetworkEvent),
    Cast,
}

impl Default for NetworkDispatcher {
    /// An inert dispatcher with the default configuration.
    fn default() -> (r: NetworkDispatcher)
        ensures
            r.wf(),
            !r.is_started(),
            r.config() == default_config(),
    {
        NetworkDispatcher::with_config(NetworkConfig::default())
    }
}

/// Turns a taken queue into deadletter reports, one per frame, in order.
fn push_dle_events(peer: PeerAddr, frames: Vec<Frame>, out: &mut Vec<DispatchEvent>)
    ensures
        final(out).deep_view() == old(out).deep_view() + dle_seq(peer, frames.deep_view()),
{
    let ghost orig = frames.deep_view();
    let mut frames = frames;
    let total = frames.len();
    proof {
        assert(orig.len() == total);
        assert forall|m: int| 0 <= m < total implies (#[trigger] frames@[m])@ == orig[m] by {
            assert(orig[m] == frames@[m].deep_view());
        }
    }
    let mut i: usize = 0;
    while frames.len() > 0
        invariant
            orig.len() == total,
            i + frames@.len() == orig.len(),
            forall|m: int| 0 <= m < frames@.len() ==> (#[trigger] frames@[m])@ == orig[i + m],
            out.deep_view() == old(out).deep_view() + dle_seq(peer, orig.take(i as int)),
        decreases frames.len(),
    {
        let ghost pre_v = frames@;
        let ghost pre_out = out.deep_view();
        let f = frames.remove(0);
        proof {
            pre_v.remove_ensures(0);
            assert(f@ == orig[i as int]);
        }
        out.push(DispatchEvent::DeadLetterFrame { peer, frame: f });
        proof {
            assert(out.deep_view() =~= pre_out.push(
                EventView::DeadLetterFrame { peer, frame: orig[i as int] },
            ));
        }
        i = i + 1;
        proof {
            assert forall|m: int| 0 <= m < frames@.len() implies (#[trigger] frames@[m])@ == orig[
                i + m
            ] by {
                assert(frames@[m] == pre_v[m + 1]);
            }
            assert(pre_out.push(EventView::DeadLetterFrame { peer, frame: orig[i - 1] }) =~= old(
                out,
            ).deep_view() + dle_seq(peer, orig.take(i as int)));
            assert(out.deep_view() == old(out).deep_view() + dle_seq(peer, orig.take(i as int)));
        }
    }
    proof {
        assert(orig.take(orig.len() as int) =~= orig);
        assert(out.deep_view() =~= old(out).deep_view() + dle_seq(peer, orig));
    }
}

/// Network-aware dispatcher for messages to remote actors: owns the
/// address registry, the per-peer connection table, and the pending-frame
/// queues, and is the single mutator of all three.
pub struct NetworkDispatcher {
    cfg: NetworkConfig,
    lookup: ActorLookup,
    connections: Vec<(PeerAddr, ConnectionState)>,
    queue_manager: Option<QueueManager>,
    started: bool,
    next_seq: u64,
    sent_log: Ghost<Map<PeerAddr, Seq<FrameView>>>,
    dead_log: Ghost<Map<PeerAddr, Seq<FrameView>>>,
}

impl NetworkDispatcher {
    /// The connection table as an association sequence of state shapes.
    pub closed spec fn conns(self) -> Seq<(PeerAddr, ConnKind)> {
        Seq::new(self.connections@.len(), |i: int| (self.connections@[i].0, self.connections@[i].1.kind()))
    }

    /// The connection shape for `p`; an absent peer was never attempted.
    pub open spec fn conn_of(self, p: PeerAddr) -> ConnKind {
        match al_find(self.conns(), p) {
            Some(k) => k,
            None => ConnKind::New,
        }
    }

    pub closed spec fn queueman(self) -> Option<QueueManager> {
        self.queue_manager
    }

    /// Frames pending for `p`, oldest first.
    pub open spec fn pending_of(self, p: PeerAddr) -> Seq<FrameView> {
        match self.queueman() {
            Some(q) => q.pending(p),
            None => Seq::empty(),
        }
    }

    /// Frames handed to send channels for `p`, in order, across
    /// reconnections.
    pub closed spec fn sent_of(self, p: PeerAddr) -> Seq<FrameView> {
        if self.sent_log@.contains_key(p) {
            self.sent_log@[p]
        } else {
            Seq::empty()
        }
    }

    /// Frames dropped for `p` (deadletters and overflow), in drop order.
    pub closed spec fn dead_of(self, p: PeerAddr) -> Seq<FrameView> {
        if self.dead_log@.contains_key(p) {
            self.dead_log@[p]
        } else {
            Seq::empty()
        }
    }

    pub open spec fn peer_model(self, p: PeerAddr) -> PeerModel {
        PeerModel {
            conn: self.conn_of(p),
            queue: self.pending_of(p),
            sent: self.sent_of(p),
            dead: self.dead_of(p),
        }
    }

    pub closed spec fn registry(self) -> ActorLookup {
        self.lookup
    }

    pub closed spec fn config(self) -> NetworkConfig {
        self.cfg
    }

    pub closed spec fn is_started(self) -> bool {
        self.started
    }

    pub closed spec fn seq_counter(self) -> u64 {
        self.next_seq
    }

    /// The dispatcher's own system identity: local transport at the bind
    /// address.
    pub open spec fn self_system(self) -> SystemPath {
        SystemPath {
            transport: Transport::Local,
            ip: self.config().addr.ip,
            port: self.config().addr.port,
        }
    }

    /// A source field promoted to a full path: a local handle becomes a
    /// unique path under the dispatcher's own system identity.
    pub open spec fn resolve_src(self, src: ResolvableView) -> PathView {
        match src {
            ResolvableView::Path(p) => p,
            ResolvableView::Local(h) => PathView::Unique { system: self.self_system(), uid: h.uid },
        }
    }

    /// The `Data` frame one `route` call builds: stream derived from the
    /// destination, the dispatcher's running sequence number, and the
    /// envelope's wire form as payload.
    pub open spec fn spec_data_frame(
        self,
        src: ResolvableView,
        dst: PathView,
        ser_id: u64,
        payload: Seq<u8>,
    ) -> FrameView {
        FrameView::Data {
            stream_id: spec_stream_id(dst),
            seq: self.seq_counter(),
            payload: envelope_bytes(ser_id, self.resolve_src(src), dst, payload),
        }
    }

    /// The queue-manager invariant of the data model: frames wait for a
    /// peer only once a connection was attempted — the peer's state has
    /// left `New`. It then sits in `Initializing`, `Connected` (possibly
    /// backpressured), `Closed` awaiting drain policy, or `Blocked` with
    /// its capped queue.
    pub open spec fn queue_conn_coherent(self) -> bool {
        forall|p: PeerAddr| (#[trigger] self.pending_of(p)).len() > 0 ==> self.conn_of(p)
            != ConnKind::New
    }

    /// Dispatcher invariant: registry and queues well formed, one table
    /// entry per peer, queues exist exactly while started, and a stopped
    /// dispatcher holds only closed connections.
    pub open spec fn wf(self) -> bool {
        &&& self.registry().wf()
        &&& al_unique(self.conns())
        &&& match self.queueman() {
            Some(q) => q.wf(),
            None => true,
        }
        &&& (self.is_started() <==> self.queueman() is Some)
        &&& (!self.is_started() ==> forall|i: int|
            0 <= i < self.conns().len() ==> (#[trigger] self.conns()[i]).1 == ConnKind::Closed)
    }

    /// An inert dispatcher with the default configuration.
    pub fn new() -> (r: NetworkDispatcher)
        ensures
            r.wf(),
            r.queue_conn_coherent(),
            !r.is_started(),
            r.config() == default_config(),
            forall|p: PeerAddr| r.peer_model(p) == (PeerModel {
                conn: ConnKind::New,
                queue: Seq::<FrameView>::empty(),
                sent: Seq::<FrameView>::empty(),
                dead: Seq::<FrameView>::empty(),
            }),
            forall|pv: PathView| r.registry().spec_lookup(pv) == None::<LocalHandle>,
    {
        NetworkDispatcher::with_config(NetworkConfig::default())
    }

    /// An inert dispatcher with the given configuration; nothing is
    /// registered, no peer has been attempted.
    pub fn with_config(cfg: NetworkConfig) -> (r: NetworkDispatcher)
        ensures
            r.wf(),
            r.queue_conn_coherent(),
            !r.is_started(),
            r.config() == cfg,
            forall|p: PeerAddr| r.peer_model(p) == (PeerModel {
                conn: ConnKind::New,
                queue: Seq::<FrameView>::empty(),
                sent: Seq::<FrameView>::empty(),
                dead: Seq::<FrameView>::empty(),
            }),
            forall|pv: PathView| r.registry().spec_lookup(pv) == None::<LocalHandle>,
    {
        let r = NetworkDispatcher {
            cfg,
            lookup: ActorLookup::new(),
            connections: Vec::new(),
            queue_manager: None,
            started: false,
            next_seq: 0,
            sent_log: Ghost(Map::empty()),
            dead_log: Ghost(Map::empty()),
        };
        proof {
            assert forall|p: PeerAddr| r.peer_model(p) == (PeerModel {
                conn: ConnKind::New,
                queue: Seq::<FrameView>::empty(),
                sent: Seq::<FrameView>::empty(),
                dead: Seq::<FrameView>::empty(),
            }) by {
                lemma_al_find_none(r.conns(), p);
            }
        }
        r
    }

    /// The system path the dispatcher answers for.
    pub fn system_path(&self) -> (r: SystemPath)
        ensures
            r == self.self_system(),
    {
        SystemPath {
            transport: Transport::Local,
            ip: self.cfg.addr.ip,
            port: self.cfg.addr.port,
        }
    }

    /// How many frames wait for `peer`: the per-peer queue-depth counter.
    pub fn queue_depth(&self, peer: &PeerAddr) -> (r: usize)
        requires
            self.wf(),
        ensures
            r == self.pending_of(*peer).len(),
    {
        match &self.queue_manager {
            Some(q) => q.queue_depth(peer),
            None => 0,
        }
    }

    /// The shape of the connection to `peer`; a peer never attempted
    /// reads as `New`.
    pub fn connection_kind(&self, peer: &PeerAddr) -> (r: ConnKind)
        requires
            self.wf(),
        ensures
            r == self.conn_of(*peer),
    {
        match self.find_conn(peer) {
            Some(i) => match &self.connections[i].1 {
                ConnectionState::New => ConnKind::New,
                ConnectionState::Initializing => ConnKind::Initializing,
                ConnectionState::Connected { .. } => ConnKind::Connected,
                ConnectionState::Closed => ConnKind::Closed,
                ConnectionState::Blocked => ConnKind::Blocked,
            },
            None => ConnKind::New,
        }
    }

    /// Position of the connection entry for `p`, if any.
    fn find_conn(&self, p: &PeerAddr) -> (r: Option<usize>)
        requires
            al_unique(self.conns()),
        ensures
            match r {
                Some(i) => i < self.conns().len() && self.conns()[i as int].0 == *p && al_find(
                    self.conns(),
                    *p,
                ) == Some(self.conns()[i as int].1),
                None => al_find(self.conns(), *p) == None::<ConnKind>,
            },
    {
        let mut i: usize = 0;
        while i < self.connections.len()
            invariant
                al_unique(self.conns()),
                i <= self.conns().len(),
                forall|j: int| 0 <= j < i ==> (#[trigger] self.conns()[j]).0 != *p,
            decreases self.connections.len() - i,
        {
            if self.connections[i].0 == *p {
                proof {
                    lemma_al_find_some(self.conns(), *p, i as int);
                }
                return Some(i);
            }
            i = i + 1;
        }
        proof {
            lemma_al_find_none(self.conns(), *p);
        }
        None
    }

    /// Enqueues under the per-peer cap: the oldest frame leaves and is
    /// returned when the queue is already full.
    fn enqueue_capped(&mut self, frame: Frame, p: PeerAddr) -> (r: Option<Frame>)
        requires
            old(self).wf(),
            old(self).is_started(),
        ensures
            final(self).wf(),
            final(self).is_started(),
            final(self).registry() == old(self).registry(),
            final(self).conns() == old(self).conns(),
            final(self).config() == old(self).config(),
            final(self).seq_counter() == old(self).seq_counter(),
            forall|q: PeerAddr| q != p ==> final(self).pending_of(q) == old(self).pending_of(q),
            forall|q: PeerAddr| final(self).sent_of(q) == old(self).sent_of(q),
            forall|q: PeerAddr| q != p ==> final(self).dead_of(q) == old(self).dead_of(q),
            final(self).sent_of(p) == old(self).sent_of(p),
            ({
                let (q2, dropped) = cap_enqueue(
                    old(self).pending_of(p),
                    frame@,
                    old(self).config().max_pending_frames_per_peer as nat,
                );
                &&& final(self).pending_of(p) == q2
                &&& final(self).dead_of(p) == push_opt(old(self).dead_of(p), dropped)
                &&& match (r, dropped) {
                    (Some(g), Some(d)) => g@ == d,
                    (None, None) => true,
                    _ => false,
                }
            }),
    {
        let cap = self.cfg.max_pending_frames_per_peer;
        let dropped: Option<Frame>;
        match &mut self.queue_manager {
            Some(q) => {
                q.enqueue_frame(frame, p);
                let depth = q.queue_depth(&p);
                if depth > cap {
                    dropped = q.dequeue_frame(&p);
                } else {
                    dropped = None;
                }
            },
            None => {
                proof {
                    assert(false);
                }
                dropped = None;
            },
        }
        match &dropped {
            Some(g) => {
                self.dead_log = Ghost(self.dead_log@.insert(p, self.dead_of(p).push(g@)));
            },
            None => {},
        }
        dropped
    }

    /// A connection entry extracted for processing; pushing the new state
    /// back restores one entry per peer.
    fn extract_conn(&mut self, p: &PeerAddr) -> (r: ConnectionState)
        requires
            old(self).wf(),
        ensures
            r.kind() == old(self).conn_of(*p),
            al_find(final(self).conns(), *p) == None::<ConnKind>,
            forall|q: PeerAddr| q != *p ==> al_find(final(self).conns(), q) == al_find(
                old(self).conns(),
                q,
            ),
            al_unique(final(self).conns()),
            !old(self).is_started() ==> forall|i: int|
                0 <= i < final(self).conns().len() ==> (#[trigger] final(self).conns()[i]).1
                    == ConnKind::Closed,
            final(self).queueman() == old(self).queueman(),
            final(self).registry() == old(self).registry(),
            final(self).config() == old(self).config(),
            final(self).is_started() == old(self).is_started(),
            final(self).seq_counter() == old(self).seq_counter(),
            forall|q: PeerAddr| final(self).sent_of(q) == old(self).sent_of(q),
            forall|q: PeerAddr| final(self).dead_of(q) == old(self).dead_of(q),
            forall|q: PeerAddr| final(self).pending_of(q) == old(self).pending_of(q),
    {
        let ghost pre = self.conns();
        match self.find_conn(p) {
            Some(i) => {
                let e = self.connections.remove(i);
                proof {
                    assert(self.conns() =~= pre.remove(i as int));
                    lemma_al_remove(pre, i as int);
                    pre.remove_ensures(i as int);
                    if !self.is_started() {
                        assert forall|k: int| 0 <= k < self.conns().len() implies (
                        #[trigger] self.conns()[k]).1 == ConnKind::Closed by {
                            let j = if k < i as int { k } else { k + 1 };
                            assert(self.conns()[k] == pre[j]);
                            assert(pre[j].1 == ConnKind::Closed);
                        }
                    }
                }
                e.1
            },
            None => ConnectionState::New,
        }
    }

    /// Restores the entry for `p` with its new state.
    fn store_conn(&mut self, p: PeerAddr, st: ConnectionState)
        requires
            al_unique(old(self).conns()),
            al_find(old(self).conns(), p) == None::<ConnKind>,
            old(self).registry().wf(),
            match old(self).queueman() {
                Some(q) => q.wf(),
                None => true,
            },
            old(self).is_started() <==> old(self).queueman() is Some,
            !old(self).is_started() ==> st.kind() == ConnKind::Closed && (forall|i: int|
                0 <= i < old(self).conns().len() ==> (#[trigger] old(self).conns()[i]).1
                    == ConnKind::Closed),
        ensures
            final(self).wf(),
            final(self).conn_of(p) == st.kind(),
            forall|q: PeerAddr| q != p ==> al_find(final(self).conns(), q) == al_find(
                old(self).conns(),
                q,
            ),
            final(self).queueman() == old(self).queueman(),
            final(self).registry() == old(self).registry(),
            final(self).config() == old(self).config(),
            final(self).is_started() == old(self).is_started(),
            final(self).seq_counter() == old(self).seq_counter(),
            forall|q: PeerAddr| final(self).sent_of(q) == old(self).sent_of(q),
            forall|q: PeerAddr| final(self).dead_of(q) == old(self).dead_of(q),
            forall|q: PeerAddr| final(self).pending_of(q) == old(self).pending_of(q),
    {
        let ghost pre = self.conns();
        let ghost k = st.kind();
        self.connections.push((p, st));
        proof {
            assert(self.conns() =~= pre.push((p, k)));
            lemma_al_push(pre, p, k);
        }
    }

    /// A peer whose connection is being attempted or used can only exist
    /// after `Start`.
    proof fn lemma_started_when_active(self, p: PeerAddr)
        requires
            self.wf(),
            self.conn_of(p) != ConnKind::New,
            self.conn_of(p) != ConnKind::Closed,
        ensures
            self.is_started(),
    {
        if !self.is_started() {
            let s = self.conns();
            if crate::assoc::al_contains(s, p) {
                let j = crate::assoc::al_idx(s, p);
                assert(0 <= j < s.len() && s[j].0 == p);
                assert(s[j].1 == ConnKind::Closed);
            }
            assert(false);
        }
    }

    /// Events one local route emits: a mailbox delivery on a registry hit,
    /// a deadletter on a miss.
    pub open spec fn local_route_events(
        self,
        src: ResolvableView,
        dst: PathView,
        ser_id: u64,
        payload: Seq<u8>,
    ) -> Seq<EventView> {
        let env = EnvView { src: self.resolve_src(src), dst, ser_id, payload };
        match self.registry().spec_lookup(dst) {
            Some(h) => seq![EventView::LocalDeliver { slot: h.slot, env }],
            None => seq![EventView::DeadLetter { env }],
        }
    }

    /// Forwards a message to a local actor: on a registry hit the envelope
    /// goes to that actor's mailbox, otherwise it is deadlettered. No
    /// state changes either way.
    pub fn route_local(
        &mut self,
        src: PathResolvable,
        dst: ActorPath,
        ser_id: u64,
        payload: Vec<u8>,
    ) -> (r: Vec<DispatchEvent>)
        requires
            old(self).wf(),
            old(self).queue_conn_coherent(),
        ensures
            final(self).wf(),
            final(self).queue_conn_coherent(),
            *final(self) == *old(self),
            r.deep_view() == old(self).local_route_events(src@, dst@, ser_id, payload@),
    {
        let src_path: ActorPath = match src {
            PathResolvable::Path(ap) => ap,
            PathResolvable::Local(h) => ActorPath::Unique { system: self.system_path(), uid: h.uid },
        };
        let found = self.lookup.lookup(&dst);
        let env = ReceivedEnvelope { src: src_path, dst, ser_id, payload };
        let mut r: Vec<DispatchEvent> = Vec::new();
        match found {
            Some(h) => r.push(DispatchEvent::LocalDeliver { slot: h.slot, env }),
            None => r.push(DispatchEvent::DeadLetter { env }),
        }
        proof {
            assert(r.deep_view() =~= old(self).local_route_events(src@, dst@, ser_id, payload@));
        }
        r
    }


    /// The queueing half of the routing step: the frame joins the peer's
    /// queue under the cap, the given state is restored, and a connect is
    /// requested when the caller asks for one.
    #[verifier::rlimit(100)]
    #[verifier::spinoff_prover]
    fn route_remote_queueing(
        &mut self,
        frame: Frame,
        p: PeerAddr,
        restore: ConnectionState,
        request_connect: bool,
        Ghost(m0): Ghost<PeerModel>,
    ) -> (r: Vec<DispatchEvent>)
        requires
            old(self).registry().wf(),
            al_unique(old(self).conns()),
            al_find(old(self).conns(), p) == None::<ConnKind>,
            old(self).queueman() matches Some(q) && q.wf(),
            old(self).is_started(),
            m0.queue == old(self).pending_of(p),
            m0.sent == old(self).sent_of(p),
            m0.dead == old(self).dead_of(p),
            restore.kind() == ConnKind::Initializing || restore.kind() == ConnKind::Blocked,
        ensures
            final(self).wf(),
            final(self).registry() == old(self).registry(),
            final(self).config() == old(self).config(),
            final(self).is_started() == old(self).is_started(),
            final(self).seq_counter() == old(self).seq_counter(),
            forall|q: PeerAddr| q != p ==> al_find(final(self).conns(), q) == al_find(
                old(self).conns(),
                q,
            ),
            forall|q: PeerAddr| q != p ==> final(self).pending_of(q) == old(self).pending_of(q),
            forall|q: PeerAddr| q != p ==> final(self).sent_of(q) == old(self).sent_of(q),
            forall|q: PeerAddr| q != p ==> final(self).dead_of(q) == old(self).dead_of(q),
            ({
                let cap0 = old(self).config().max_pending_frames_per_peer as nat;
                let (q2, dropped) = cap_enqueue(m0.queue, frame@, cap0);
                &&& final(self).conn_of(p) == restore.kind()
                &&& final(self).pending_of(p) == q2
                &&& final(self).sent_of(p) == m0.sent
                &&& final(self).dead_of(p) == push_opt(m0.dead, dropped)
                &&& r.deep_view() == (if request_connect {
                    overflow_events(p, dropped).push(EventView::ConnectRequest { peer: p })
                } else {
                    overflow_events(p, dropped)
                })
            }),
    {
        let dropped = self.enqueue_capped(frame, p);
        let mut events: Vec<DispatchEvent> = Vec::new();
        match dropped {
            Some(g) => events.push(DispatchEvent::QueueOverflow { peer: p, frame: g }),
            None => {},
        }
        if request_connect {
            events.push(DispatchEvent::ConnectRequest { peer: p });
        }
        self.store_conn(p, restore);
        proof {
            let cap0 = old(self).config().max_pending_frames_per_peer as nat;
            let dr = cap_enqueue(m0.queue, frame@, cap0).1;
            assert(events.deep_view() =~= (if request_connect {
                overflow_events(p, dr).push(EventView::ConnectRequest { peer: p })
            } else {
                overflow_events(p, dr)
            }));
            assert forall|q2: PeerAddr| q2 != p implies self.pending_of(q2) == old(
                self,
            ).pending_of(q2) by {}
            assert forall|q2: PeerAddr| q2 != p implies self.sent_of(q2) == old(self).sent_of(
                q2,
            ) by {}
            assert forall|q2: PeerAddr| q2 != p implies self.dead_of(q2) == old(self).dead_of(
                q2,
            ) by {}
        }
        events
    }

    /// The connected-peer half of the routing step: sends directly only
    /// when the queue is empty, queues on backpressure, and closes and
    /// asks for a reconnect when the channel's consumer is gone.
    #[verifier::rlimit(100)]
    #[verifier::spinoff_prover]
    fn route_remote_connected(
        &mut self,
        frame: Frame,
        p: PeerAddr,
        peer_id: u64,
        tx: FrameSender,
        Ghost(m0): Ghost<PeerModel>,
    ) -> (r: Vec<DispatchEvent>)
        requires
            old(self).registry().wf(),
            al_unique(old(self).conns()),
            al_find(old(self).conns(), p) == None::<ConnKind>,
            old(self).queueman() matches Some(q) && q.wf(),
            old(self).is_started(),
            m0 == (PeerModel {
                conn: ConnKind::Connected,
                queue: old(self).pending_of(p),
                sent: old(self).sent_of(p),
                dead: old(self).dead_of(p),
            }),
        ensures
            final(self).wf(),
            final(self).registry() == old(self).registry(),
            final(self).config() == old(self).config(),
            final(self).is_started() == old(self).is_started(),
            final(self).seq_counter() == old(self).seq_counter(),
            forall|q: PeerAddr| q != p ==> al_find(final(self).conns(), q) == al_find(
                old(self).conns(),
                q,
            ),
            forall|q: PeerAddr| q != p ==> final(self).pending_of(q) == old(self).pending_of(q),
            forall|q: PeerAddr| q != p ==> final(self).sent_of(q) == old(self).sent_of(q),
            forall|q: PeerAddr| q != p ==> final(self).dead_of(q) == old(self).dead_of(q),
            ({
                let cap0 = old(self).config().max_pending_frames_per_peer as nat;
                exists|res: SendResult|
                    {
                        &&& final(self).peer_model(p) == (#[trigger] step_route(
                            m0,
                            frame@,
                            res,
                            true,
                            cap0,
                            p,
                        )).0
                        &&& r.deep_view() == step_route(m0, frame@, res, true, cap0, p).1
                    }
            }),
    {
        let ghost fv = frame@;
        let ghost cap0 = self.cfg.max_pending_frames_per_peer as nat;
        let mut events: Vec<DispatchEvent> = Vec::new();
        let mut tx = tx;
        let depth: usize = match &self.queue_manager {
            Some(q) => q.queue_depth(&p),
            None => {
                proof {
                    assert(false);
                }
                0
            },
        };
        if depth > 0 {
            let dropped = self.enqueue_capped(frame, p);
            match dropped {
                Some(g) => events.push(DispatchEvent::QueueOverflow { peer: p, frame: g }),
                None => {},
            }
            self.store_conn(p, ConnectionState::Connected { peer_id, tx });
            proof {
                let sr = step_route(m0, fv, SendResult::Accepted, true, cap0, p);
                assert(self.peer_model(p) == sr.0);
                assert(events.deep_view() =~= sr.1);
            }
        } else {
            match channel_try_send(&mut tx, frame) {
                SendOutcome::Sent => {
                    self.sent_log = Ghost(self.sent_log@.insert(p, self.sent_of(p).push(fv)));
                    self.store_conn(p, ConnectionState::Connected { peer_id, tx });
                    proof {
                        let sr = step_route(m0, fv, SendResult::Accepted, true, cap0, p);
                        assert(self.peer_model(p) == sr.0);
                        assert(events.deep_view() =~= sr.1);
                    }
                },
                SendOutcome::Full(g) => {
                    let dropped = self.enqueue_capped(g, p);
                    match dropped {
                        Some(g2) => events.push(
                            DispatchEvent::QueueOverflow { peer: p, frame: g2 },
                        ),
                        None => {},
                    }
                    self.store_conn(p, ConnectionState::Connected { peer_id, tx });
                    proof {
                        let sr = step_route(m0, fv, SendResult::WasFull, true, cap0, p);
                        assert(self.peer_model(p) == sr.0);
                        assert(events.deep_view() =~= sr.1);
                    }
                },
                SendOutcome::Disconnected(g) => {
                    let dropped = self.enqueue_capped(g, p);
                    match dropped {
                        Some(g2) => events.push(
                            DispatchEvent::QueueOverflow { peer: p, frame: g2 },
                        ),
                        None => {},
                    }
                    events.push(DispatchEvent::ConnectRequest { peer: p });
                    self.store_conn(p, ConnectionState::Closed);
                    proof {
                        let sr = step_route(m0, fv, SendResult::WasDisconnected, true, cap0, p);
                        assert(self.peer_model(p) == sr.0);
                        assert(events.deep_view() =~= sr.1);
                    }
                },
            }
        }
        proof {
            assert forall|q2: PeerAddr| q2 != p implies self.pending_of(q2) == old(
                self,
            ).pending_of(q2) by {}
            assert forall|q2: PeerAddr| q2 != p implies self.sent_of(q2) == old(self).sent_of(
                q2,
            ) by {}
            assert forall|q2: PeerAddr| q2 != p implies self.dead_of(q2) == old(self).dead_of(
                q2,
            ) by {}
        }
        events
    }

    /// Routes a message to a remote actor, per the connection state
    /// machine: a live channel is tried only when nothing is queued ahead;
    /// everything else waits in the per-peer queue under the cap; a peer
    /// never attempted is connected to first. Exactly one of: the frame is
    /// handed to a send channel, it is queued, or it (or the frame it
    /// displaced) is reported dropped.
    #[verifier::rlimit(100)]
    #[verifier::spinoff_prover]
    pub fn route_remote(
        &mut self,
        src: PathResolvable,
        dst: ActorPath,
        ser_id: u64,
        payload: Vec<u8>,
    ) -> (r: Vec<DispatchEvent>)
        requires
            old(self).wf(),
            old(self).queue_conn_coherent(),
            path_encodable(dst@),
            src@ matches ResolvableView::Path(sp) ==> path_encodable(sp),
        ensures
            final(self).wf(),
            final(self).queue_conn_coherent(),
            final(self).registry() == old(self).registry(),
            final(self).config() == old(self).config(),
            final(self).is_started() == old(self).is_started(),
            final(self).seq_counter() == vstd::wrapping::u64_specs::wrapping_add(
                old(self).seq_counter(),
                1,
            ),
            forall|q: PeerAddr| q != dst@.peer() ==> final(self).peer_model(q) == old(
                self,
            ).peer_model(q),
            ({
                let m0 = old(self).peer_model(dst@.peer());
                let f0 = old(self).spec_data_frame(src@, dst@, ser_id, payload@);
                let cap0 = old(self).config().max_pending_frames_per_peer as nat;
                exists|res: SendResult|
                    {
                        &&& final(self).peer_model(dst@.peer()) == (#[trigger] step_route(
                            m0,
                            f0,
                            res,
                            old(self).is_started(),
                            cap0,
                            dst@.peer(),
                        )).0
                        &&& r.deep_view() == step_route(
                            m0,
                            f0,
                            res,
                            old(self).is_started(),
                            cap0,
                            dst@.peer(),
                        ).1
                    }
            }),
    {
        let sys = dst.system();
        let p = sys.peer();
        let src_path: ActorPath = match src {
            PathResolvable::Path(ap) => ap,
            PathResolvable::Local(h) => ActorPath::Unique { system: self.system_path(), uid: h.uid },
        };
        proof {
            if !(src@ matches ResolvableView::Path(_)) {
                crate::wire::lemma_unique_path_encodable(src_path@);
            }
            assert(src_path@ == old(self).resolve_src(src@));
        }
        let wire_bytes = encode_envelope(ser_id, &src_path, &dst, &payload);
        let stream = stream_id_for(&dst);
        let frame = Frame::Data { stream_id: stream, seq: self.next_seq, payload: wire_bytes };
        let ghost fv = frame@;
        let ghost m0 = self.peer_model(p);
        let ghost cap0 = self.cfg.max_pending_frames_per_peer as nat;
        let ghost up = self.started;
        proof {
            assert(p == dst@.peer());
            assert(fv == old(self).spec_data_frame(src@, dst@, ser_id, payload@));
        }
        self.next_seq = self.next_seq.wrapping_add(1);
        proof {
            assert(forall|q2: PeerAddr| self.sent_of(q2) == old(self).sent_of(q2));
            assert(forall|q2: PeerAddr| self.dead_of(q2) == old(self).dead_of(q2));
            assert(forall|q2: PeerAddr| self.pending_of(q2) == old(self).pending_of(q2));
            assert(self.conns() == old(self).conns());
        }
        let mut events: Vec<DispatchEvent> = Vec::new();
        let st = self.extract_conn(&p);
        match st {
            ConnectionState::New | ConnectionState::Closed => {
                if self.started {
                    let sub = self.route_remote_queueing(
                        frame,
                        p,
                        ConnectionState::Initializing,
                        true,
                        Ghost(m0),
                    );
                    events = sub;
                    proof {
                        let sr = step_route(m0, fv, SendResult::Accepted, up, cap0, p);
                        assert(self.peer_model(p) == sr.0);
                        assert(events.deep_view() == sr.1);
                    }
                } else {
                    proof {
                        assert(self.sent_of(p) == m0.sent);
                    }
                    let ghost pre2 = *self;
                    self.dead_log = Ghost(self.dead_log@.insert(p, self.dead_of(p).push(fv)));
                    proof {
                        assert(self.sent_of(p) == m0.sent);
                        assert forall|q2: PeerAddr| q2 != p implies self.dead_of(q2)
                            == pre2.dead_of(q2) by {}
                        assert forall|q2: PeerAddr| q2 != p implies self.sent_of(q2)
                            == pre2.sent_of(q2) by {}
                    }
                    events.push(DispatchEvent::DeadLetterFrame { peer: p, frame });
                    self.store_conn(p, ConnectionState::Closed);
                    proof {
                        let sr = step_route(m0, fv, SendResult::Accepted, up, cap0, p);
                        assert(self.conn_of(p) == sr.0.conn);
                        assert(self.pending_of(p) == sr.0.queue);
                        assert(self.sent_of(p) == sr.0.sent);
                        assert(self.dead_of(p) == sr.0.dead);
                        assert(self.peer_model(p) == sr.0);
                        assert(events.deep_view() =~= sr.1);
                    }
                }
            },
            ConnectionState::Initializing => {
                proof {
                    old(self).lemma_started_when_active(p);
                }
                let sub = self.route_remote_queueing(
                    frame,
                    p,
                    ConnectionState::Initializing,
                    false,
                    Ghost(m0),
                );
                events = sub;
                proof {
                    let sr = step_route(m0, fv, SendResult::Accepted, up, cap0, p);
                    assert(self.peer_model(p) == sr.0);
                    assert(events.deep_view() == sr.1);
                }
            },
            ConnectionState::Blocked => {
                proof {
                    old(self).lemma_started_when_active(p);
                }
                let sub = self.route_remote_queueing(
                    frame,
                    p,
                    ConnectionState::Blocked,
                    false,
                    Ghost(m0),
                );
                events = sub;
                proof {
                    let sr = step_route(m0, fv, SendResult::Accepted, up, cap0, p);
                    assert(self.peer_model(p) == sr.0);
                    assert(events.deep_view() == sr.1);
                }
            },
            ConnectionState::Connected { peer_id, tx } => {
                proof {
                    old(self).lemma_started_when_active(p);
                }
                let sub = self.route_remote_connected(frame, p, peer_id, tx, Ghost(m0));
                events = sub;
            },
        }
        proof {
            assert forall|q: PeerAddr| q != p implies self.peer_model(q) == old(self).peer_model(
                q,
            ) by {
                assert(al_find(self.conns(), q) == al_find(old(self).conns(), q));
                assert(self.pending_of(q) == old(self).pending_of(q));
                assert(self.sent_of(q) == old(self).sent_of(q));
                assert(self.dead_of(q) == old(self).dead_of(q));
            }
        }
        events
    }

    /// Forwards a message to the destination, across the network when its
    /// transport asks for it; routing to an unsupported transport
    /// deadletters the envelope.
    pub fn route(
        &mut self,
        src: PathResolvable,
        dst: ActorPath,
        ser_id: u64,
        payload: Vec<u8>,
    ) -> (r: Vec<DispatchEvent>)
        requires
            old(self).wf(),
            old(self).queue_conn_coherent(),
            dst@.system().transport == Transport::Tcp ==> path_encodable(dst@) && (
            src@ matches ResolvableView::Path(sp) ==> path_encodable(sp)),
        ensures
            final(self).wf(),
            final(self).queue_conn_coherent(),
            route_post(*old(self), *final(self), src@, dst@, ser_id, payload@, r.deep_view()),
    {
        let sys = dst.system();
        match sys.transport {
            Transport::Local => self.route_local(src, dst, ser_id, payload),
            Transport::Tcp => self.route_remote(src, dst, ser_id, payload),
            Transport::Udp => {
                let src_path: ActorPath = match src {
                    PathResolvable::Path(ap) => ap,
                    PathResolvable::Local(h) => ActorPath::Unique {
                        system: self.system_path(),
                        uid: h.uid,
                    },
                };
                let env = ReceivedEnvelope { src: src_path, dst, ser_id, payload };
                let mut r: Vec<DispatchEvent> = Vec::new();
                r.push(DispatchEvent::UnsupportedTransport { env });
                proof {
                    assert(r.deep_view() =~= seq![
                        EventView::UnsupportedTransport {
                            env: EnvView {
                                src: old(self).resolve_src(src@),
                                dst: dst@,
                                ser_id,
                                payload: payload@,
                            },
                        },
                    ]);
                }
                r
            },
        }
    }

    /// Drains the peer's queue into `tx` in FIFO order, then installs the
    /// channel; a dead channel closes the connection and asks for a
    /// reconnect instead.
    fn drain_with(
        &mut self,
        peer: PeerAddr,
        peer_id: u64,
        tx: FrameSender,
        Ghost(m0): Ghost<PeerModel>,
    ) -> (r: Vec<DispatchEvent>)
        requires
            old(self).registry().wf(),
            al_unique(old(self).conns()),
            al_find(old(self).conns(), peer) == None::<ConnKind>,
            old(self).queueman() matches Some(q) && q.wf(),
            old(self).is_started(),
            m0.queue == old(self).pending_of(peer),
            m0.sent == old(self).sent_of(peer),
            m0.dead == old(self).dead_of(peer),
        ensures
            final(self).wf(),
            final(self).registry() == old(self).registry(),
            final(self).config() == old(self).config(),
            final(self).is_started() == old(self).is_started(),
            final(self).seq_counter() == old(self).seq_counter(),
            forall|q: PeerAddr| q != peer ==> al_find(final(self).conns(), q) == al_find(
                old(self).conns(),
                q,
            ),
            forall|q: PeerAddr| q != peer ==> final(self).pending_of(q) == old(self).pending_of(q),
            forall|q: PeerAddr| q != peer ==> final(self).sent_of(q) == old(self).sent_of(q),
            forall|q: PeerAddr| q != peer ==> final(self).dead_of(q) == old(self).dead_of(q),
            exists|k: int, closed: bool|
                {
                    &&& 0 <= k <= m0.queue.len()
                    &&& final(self).peer_model(peer) == #[trigger] step_opened(m0, k, closed)
                    &&& r.deep_view() == (if closed {
                        seq![EventView::ConnectRequest { peer }]
                    } else {
                        Seq::<EventView>::empty()
                    })
                },
    {
        let mut tx = tx;
        let drained: (usize, DrainOutcome, Ghost<Seq<FrameView>>) = match &mut self
            .queue_manager {
            Some(q) => q.drain_into(peer, &mut tx),
            None => {
                proof {
                    assert(false);
                }
                (0, DrainOutcome::Drained, Ghost(Seq::empty()))
            },
        };
        let count = drained.0;
        proof {
            assert(drained.2@ == m0.queue.take(count as int));
        }
        self.sent_log = Ghost(self.sent_log@.insert(peer, self.sent_of(peer) + drained.2@));
        let mut events: Vec<DispatchEvent> = Vec::new();
        match drained.1 {
            DrainOutcome::Drained | DrainOutcome::SinkFull => {
                self.store_conn(peer, ConnectionState::Connected { peer_id, tx });
                proof {
                    assert(self.peer_model(peer) == step_opened(m0, count as int, false));
                    assert(events.deep_view() =~= Seq::<EventView>::empty());
                }
            },
            DrainOutcome::SinkClosed => {
                events.push(DispatchEvent::ConnectRequest { peer });
                self.store_conn(peer, ConnectionState::Closed);
                proof {
                    assert(self.peer_model(peer) == step_opened(m0, count as int, true));
                    assert(events.deep_view() =~= seq![EventView::ConnectRequest { peer }]);
                }
            },
        }
        proof {
            assert forall|q2: PeerAddr| q2 != peer implies self.pending_of(q2) == old(
                self,
            ).pending_of(q2) && self.sent_of(q2) == old(self).sent_of(q2) && self.dead_of(q2)
                == old(self).dead_of(q2) by {}
        }
        events
    }

    /// Consumes one event from the network bridge, per the event-handling
    /// table: a fresh connection drains the pending queue before anything
    /// else; a loss keeps or deadletters the queue by policy; an inbound
    /// data frame is decoded and delivered through the registry, and a
    /// malformed one is dropped with a report.
    pub fn handle_network_event(&mut self, ev: NetworkEvent) -> (r: Vec<DispatchEvent>)
        requires
            old(self).wf(),
            old(self).queue_conn_coherent(),
            old(self).is_started(),
        ensures
            final(self).wf(),
            final(self).queue_conn_coherent(),
            network_step_ok(*old(self), *final(self), ev, r.deep_view()),
    {
        match ev {
            NetworkEvent::Opened { peer, peer_id, tx } => {
                let ghost m0 = self.peer_model(peer);
                let _st = self.extract_conn(&peer);
                let evs = self.drain_with(peer, peer_id, tx, Ghost(m0));
                proof {
                    assert forall|q: PeerAddr| q != peer implies self.peer_model(q) == old(
                        self,
                    ).peer_model(q) by {
                        assert(al_find(self.conns(), q) == al_find(old(self).conns(), q));
                        assert(self.pending_of(q) == old(self).pending_of(q));
                        assert(self.sent_of(q) == old(self).sent_of(q));
                        assert(self.dead_of(q) == old(self).dead_of(q));
                    }
                    assert(self.conn_of(peer) != ConnKind::New);
                }
                proof {
                    assert forall|q: PeerAddr| (#[trigger] self.pending_of(q)).len() > 0 implies
                        self.conn_of(q) != ConnKind::New by {
                        if q != peer {
                            assert(self.pending_of(q) == old(self).pending_of(q));
                            assert(al_find(self.conns(), q) == al_find(old(self).conns(), q));
                        }
                    }
                }
                evs
            },
            NetworkEvent::Closed { peer } => {
                let ghost m0 = self.peer_model(peer);
                let _st = self.extract_conn(&peer);
                let mut events: Vec<DispatchEvent> = Vec::new();
                let depth: usize = match &self.queue_manager {
                    Some(q) => q.queue_depth(&peer),
                    None => {
                        proof {
                            assert(false);
                        }
                        0
                    },
                };
                if depth > 0 && self.cfg.retry_on_close {
                    events.push(DispatchEvent::ConnectRequest { peer });
                    self.store_conn(peer, ConnectionState::Closed);
                    proof {
                        assert(self.peer_model(peer) == step_closed(m0, true));
                        assert(events.deep_view() =~= seq![EventView::ConnectRequest { peer }]);
                    }
                } else {
                    let taken: Vec<Frame> = match &mut self.queue_manager {
                        Some(q) => q.take_pending(&peer),
                        None => {
                            proof {
                                assert(false);
                            }
                            Vec::new()
                        },
                    };
                    self.dead_log = Ghost(
                        self.dead_log@.insert(peer, self.dead_of(peer) + taken.deep_view()),
                    );
                    push_dle_events(peer, taken, &mut events);
                    self.store_conn(peer, ConnectionState::Closed);
                    proof {
                        assert(self.peer_model(peer) == step_closed(
                            m0,
                            old(self).config().retry_on_close,
                        ));
                        assert(events.deep_view() =~= dle_seq(peer, m0.queue));
                    }
                }
                proof {
                    assert forall|q: PeerAddr| q != peer implies self.peer_model(q) == old(
                        self,
                    ).peer_model(q) by {
                        assert(al_find(self.conns(), q) == al_find(old(self).conns(), q));
                        assert(self.pending_of(q) == old(self).pending_of(q));
                        assert(self.sent_of(q) == old(self).sent_of(q));
                        assert(self.dead_of(q) == old(self).dead_of(q));
                    }
                    assert(self.conn_of(peer) != ConnKind::New);
                }
                proof {
                    assert forall|q: PeerAddr| (#[trigger] self.pending_of(q)).len() > 0 implies
                        self.conn_of(q) != ConnKind::New by {
                        if q != peer {
                            assert(self.pending_of(q) == old(self).pending_of(q));
                            assert(al_find(self.conns(), q) == al_find(old(self).conns(), q));
                        }
                    }
                }
                events
            },
            NetworkEvent::ConnectFailed { peer, permanent } => {
                let ghost m0 = self.peer_model(peer);
                let _st = self.extract_conn(&peer);
                let mut events: Vec<DispatchEvent> = Vec::new();
                if permanent {
                    let taken: Vec<Frame> = match &mut self.queue_manager {
                        Some(q) => q.take_pending(&peer),
                        None => {
                            proof {
                                assert(false);
                            }
                            Vec::new()
                        },
                    };
                    self.dead_log = Ghost(
                        self.dead_log@.insert(peer, self.dead_of(peer) + taken.deep_view()),
                    );
                    push_dle_events(peer, taken, &mut events);
                    self.store_conn(peer, ConnectionState::Blocked);
                    proof {
                        assert(self.peer_model(peer) == step_connect_failed(m0, true));
                        assert(events.deep_view() =~= dle_seq(peer, m0.queue));
                    }
                } else {
                    self.store_conn(peer, ConnectionState::Closed);
                    proof {
                        assert(self.peer_model(peer) == step_connect_failed(m0, false));
                        assert(events.deep_view() =~= Seq::<EventView>::empty());
                    }
                }
                proof {
                    assert forall|q: PeerAddr| q != peer implies self.peer_model(q) == old(
                        self,
                    ).peer_model(q) by {
                        assert(al_find(self.conns(), q) == al_find(old(self).conns(), q));
                        assert(self.pending_of(q) == old(self).pending_of(q));
                        assert(self.sent_of(q) == old(self).sent_of(q));
                        assert(self.dead_of(q) == old(self).dead_of(q));
                    }
                    assert(self.conn_of(peer) != ConnKind::New);
                }
                proof {
                    assert forall|q: PeerAddr| (#[trigger] self.pending_of(q)).len() > 0 implies
                        self.conn_of(q) != ConnKind::New by {
                        if q != peer {
                            assert(self.pending_of(q) == old(self).pending_of(q));
                            assert(al_find(self.conns(), q) == al_find(old(self).conns(), q));
                        }
                    }
                }
                events
            },
            NetworkEvent::Received { peer: _, frame } => {
                let mut events: Vec<DispatchEvent> = Vec::new();
                match frame {
                    Frame::Data { payload, .. } => {
                        match crate::wire::parse_envelope(&payload) {
                            Some(parts) => {
                                let (sid, sp, dp, pl) = parts;
                                let found = self.lookup.lookup(&dp);
                                let env = ReceivedEnvelope {
                                    src: sp,
                                    dst: dp,
                                    ser_id: sid,
                                    payload: pl,
                                };
                                let ghost envv = env@;
                                match found {
                                    Some(h) => {
                                        events.push(
                                            DispatchEvent::LocalDeliver { slot: h.slot, env },
                                        );
                                        proof {
                                            assert(events.deep_view() =~= seq![
                                                EventView::LocalDeliver { slot: h.slot, env: envv },
                                            ]);
                                        }
                                    },
                                    None => {
                                        events.push(DispatchEvent::DeadLetter { env });
                                        proof {
                                            assert(events.deep_view() =~= seq![
                                                EventView::DeadLetter { env: envv },
                                            ]);
                                        }
                                    },
                                }
                            },
                            None => {
                                events.push(DispatchEvent::ProtocolViolation);
                                proof {
                                    assert(events.deep_view() =~= seq![
                                        EventView::ProtocolViolation,
                                    ]);
                                }
                            },
                        }
                    },
                    _ => {
                        proof {
                            assert(events.deep_view() =~= Seq::<EventView>::empty());
                        }
                    },
                }
                events
            },
        }
    }

    /// Consumes a lifecycle event. `Start` brings up the queues and asks
    /// the runtime for a bridge; until it arrives nothing is accepted for
    /// the network. `Stop` and `Kill` close every connection and drop the
    /// queues; the grace flush a `Stop` allows is driven by the runtime
    /// with [`NetworkDispatcher::drain_peer`] before it delivers the event.
    pub fn handle(&mut self, event: ControlEvent) -> (r: Vec<DispatchEvent>)
        requires
            old(self).wf(),
            old(self).queue_conn_coherent(),
        ensures
            final(self).wf(),
            final(self).queue_conn_coherent(),
            match event {
                ControlEvent::Start => {
                    &&& final(self).is_started()
                    &&& final(self).registry() == old(self).registry()
                    &&& final(self).config() == old(self).config()
                    &&& (old(self).is_started() ==> *final(self) == *old(self) && r.deep_view()
                        == Seq::<EventView>::empty())
                    &&& (!old(self).is_started() ==> r.deep_view() == seq![
                        EventView::BridgeUp { addr: old(self).config().addr },
                    ] && (forall|p: PeerAddr|
                        final(self).pending_of(p) == Seq::<FrameView>::empty())
                        && final(self).conns() == old(self).conns())
                },
                ControlEvent::Stop | ControlEvent::Kill => {
                    &&& !final(self).is_started()
                    &&& final(self).conns().len() == 0
                    &&& final(self).registry() == old(self).registry()
                    &&& final(self).config() == old(self).config()
                    &&& (forall|p: PeerAddr|
                        final(self).pending_of(p) == Seq::<FrameView>::empty())
                    &&& (forall|p: PeerAddr|
                        final(self).dead_of(p) == old(self).dead_of(p) + old(self).pending_of(p))
                    &&& (forall|p: PeerAddr| final(self).sent_of(p) == old(self).sent_of(p))
                    &&& r.deep_view() == Seq::<EventView>::empty()
                },
            },
    {
        match event {
            ControlEvent::Start => {
                let mut r: Vec<DispatchEvent> = Vec::new();
                if !self.started {
                    self.started = true;
                    self.queue_manager = Some(QueueManager::new());
                    r.push(DispatchEvent::BridgeUp { addr: self.cfg.addr });
                    proof {
                        assert(r.deep_view() =~= seq![
                            EventView::BridgeUp { addr: old(self).config().addr },
                        ]);
                    }
                }
                r
            },
            ControlEvent::Stop | ControlEvent::Kill => {
                let ghost pre = *self;
                self.connections = Vec::new();
                self.queue_manager = None;
                self.started = false;
                self.dead_log = Ghost(
                    Map::new(
                        |q: PeerAddr| true,
                        |q: PeerAddr| pre.dead_of(q) + pre.pending_of(q),
                    ),
                );
                let r: Vec<DispatchEvent> = Vec::new();
                proof {
                    assert(self.conns() =~= Seq::<(PeerAddr, ConnKind)>::empty());
                    assert(r.deep_view() =~= Seq::<EventView>::empty());
                }
                r
            },
        }
    }

    /// Gives a connected peer's queue another chance to flush into its
    /// send channel, queue head first: the runtime calls this when the
    /// channel may have freed up and during the `Stop` grace window. On a
    /// peer without a live channel it does nothing.
    pub fn drain_peer(&mut self, peer: PeerAddr) -> (r: Vec<DispatchEvent>)
        requires
            old(self).wf(),
            old(self).queue_conn_coherent(),
        ensures
            final(self).wf(),
            final(self).queue_conn_coherent(),
            final(self).registry() == old(self).registry(),
            final(self).config() == old(self).config(),
            final(self).is_started() == old(self).is_started(),
            old(self).conn_of(peer) != ConnKind::Connected ==> *final(self) == *old(self)
                && r.deep_view() == Seq::<EventView>::empty(),
            old(self).conn_of(peer) == ConnKind::Connected ==> exists|k: int, closed: bool|
                {
                    &&& 0 <= k <= old(self).pending_of(peer).len()
                    &&& final(self).peer_model(peer) == #[trigger] step_opened(
                        old(self).peer_model(peer),
                        k,
                        closed,
                    )
                    &&& r.deep_view() == (if closed {
                        seq![EventView::ConnectRequest { peer }]
                    } else {
                        Seq::<EventView>::empty()
                    })
                },
    {
        let connected: bool = match self.find_conn(&peer) {
            Some(i) => match &self.connections[i].1 {
                ConnectionState::Connected { .. } => true,
                _ => false,
            },
            None => false,
        };
        if !connected {
            return Vec::new();
        }
        proof {
            self.lemma_started_when_active(peer);
        }
        let ghost m0 = self.peer_model(peer);
        let st = self.extract_conn(&peer);
        match st {
            ConnectionState::Connected { peer_id, tx } => {
                self.drain_with(peer, peer_id, tx, Ghost(m0))
            },
            _ => {
                proof {
                    assert(false);
                }
                Vec::new()
            },
        }
    }

    /// Consumes one dispatch envelope: messages are routed, registrations
    /// update the registry (a rejected one is reported and dropped, the
    /// binding kept), network events drive the connection table, and a
    /// `Cast` is a protocol violation, reported and dropped.
    pub fn receive(&mut self, env: DispatchEnvelope) -> (r: Vec<DispatchEvent>)
        requires
            old(self).wf(),
            old(self).queue_conn_coherent(),
            match env {
                DispatchEnvelope::Msg { src, dst, .. } => dst@.system().transport
                    == Transport::Tcp ==> path_encodable(dst@) && (
                src@ matches ResolvableView::Path(sp) ==> path_encodable(sp)),
                _ => true,
            },
            env matches DispatchEnvelope::Event(_) ==> old(self).is_started(),
        ensures
            final(self).wf(),
            final(self).queue_conn_coherent(),
            match env {
                DispatchEnvelope::Msg { src, dst, ser_id, payload } => route_post(
                    *old(self),
                    *final(self),
                    src@,
                    dst@,
                    ser_id,
                    payload@,
                    r.deep_view(),
                ),
                DispatchEnvelope::Registration(reg) => {
                    &&& final(self).conns() == old(self).conns()
                    &&& final(self).queueman() == old(self).queueman()
                    &&& final(self).config() == old(self).config()
                    &&& final(self).is_started() == old(self).is_started()
                    &&& (forall|p: PeerAddr| final(self).sent_of(p) == old(self).sent_of(p))
                    &&& (forall|p: PeerAddr| final(self).dead_of(p) == old(self).dead_of(p))
                    &&& match reg {
                        RegistrationEnvelope::Register(h, path) => match old(
                            self,
                        ).registry().spec_insert_result(h, path@) {
                            Ok(()) => {
                                &&& r.deep_view() == Seq::<EventView>::empty()
                                &&& final(self).registry().spec_lookup(path@) == Some(h)
                                &&& al_find(final(self).registry().uids(), h.uid) == Some(h)
                                &&& forall|k: u128| k != h.uid ==> al_find(
                                    final(self).registry().uids(),
                                    k,
                                ) == al_find(old(self).registry().uids(), k)
                                &&& forall|n: Seq<Seq<u8>>|
                                    !(path@ matches PathView::Named { segments, .. } && segments
                                        == n) ==> al_find(final(self).registry().names(), n)
                                        == al_find(old(self).registry().names(), n)
                            },
                            Err(e) => r.deep_view() == seq![
                                EventView::RegistrationRefused { err: e },
                            ] && final(self).registry() == old(self).registry(),
                        },
                        RegistrationEnvelope::Deregister(path) => {
                            &&& r.deep_view() == Seq::<EventView>::empty()
                            &&& final(self).registry().spec_lookup(path@) == None::<LocalHandle>
                            &&& match old(self).registry().spec_lookup(path@) {
                                None => final(self).registry() == old(self).registry(),
                                Some(h) => {
                                    &&& al_find(final(self).registry().uids(), h.uid)
                                        == None::<LocalHandle>
                                    &&& forall|k: u128| k != h.uid ==> al_find(
                                        final(self).registry().uids(),
                                        k,
                                    ) == al_find(old(self).registry().uids(), k)
                                    &&& forall|n: Seq<Seq<u8>>| al_find(
                                        final(self).registry().names(),
                                        n,
                                    ) == (match al_find(old(self).registry().names(), n) {
                                        Some(g) => if g.uid == h.uid {
                                            None
                                        } else {
                                            Some(g)
                                        },
                                        None => None::<LocalHandle>,
                                    })
                                },
                            }
                        },
                    }
                },
                DispatchEnvelope::Event(ev) => network_step_ok(
                    *old(self),
                    *final(self),
                    ev,
                    r.deep_view(),
                ),
                DispatchEnvelope::Cast => *final(self) == *old(self) && r.deep_view() == seq![
                    EventView::ProtocolViolation,
                ],
            },
    {
        match env {
            DispatchEnvelope::Msg { src, dst, ser_id, payload } => {
                self.route(src, dst, ser_id, payload)
            },
            DispatchEnvelope::Registration(reg) => {
                match reg {
                    RegistrationEnvelope::Register(h, path) => {
                        let res = self.lookup.insert(h, &path);
                        let mut r: Vec<DispatchEvent> = Vec::new();
                        match res {
                            Ok(()) => {},
                            Err(e) => {
                                r.push(DispatchEvent::RegistrationRefused { err: e });
                                proof {
                                    assert(r.deep_view() =~= seq![
                                        EventView::RegistrationRefused { err: e },
                                    ]);
                                }
                            },
                        }
                proof {
                    assert forall|q: PeerAddr| (#[trigger] self.pending_of(q)).len() > 0 implies
                        self.conn_of(q) != ConnKind::New by {
                        assert(self.pending_of(q) == old(self).pending_of(q));
                        assert(al_find(self.conns(), q) == al_find(old(self).conns(), q));
                    }
                }
                        r
                    },
                    RegistrationEnvelope::Deregister(path) => {
                        let removed = self.lookup.remove(&path);
                        proof {
                            match removed {
                                Some(h) => {
                                    match path@ {
                                        PathView::Unique { uid, .. } => {
                                            assert(h.uid == uid);
                                        },
                                        PathView::Named { .. } => {},
                                    }
                                },
                                None => {},
                            }
                        }
                proof {
                    assert forall|q: PeerAddr| (#[trigger] self.pending_of(q)).len() > 0 implies
                        self.conn_of(q) != ConnKind::New by {
                        assert(self.pending_of(q) == old(self).pending_of(q));
                        assert(al_find(self.conns(), q) == al_find(old(self).conns(), q));
                    }
                }
                        Vec::new()
                    },
                }
            },
            DispatchEnvelope::Event(ev) => self.handle_network_event(ev),
            DispatchEnvelope::Cast => {
                let mut r: Vec<DispatchEvent> = Vec::new();
                r.push(DispatchEvent::ProtocolViolation);
                proof {
                    assert(r.deep_view() =~= seq![EventView::ProtocolViolation]);
                }
                r
            },
        }
    }
}

} // verus!
