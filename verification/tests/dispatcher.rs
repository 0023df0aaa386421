use futures::Stream;
use netdispatch::addr::{
    ActorPath, IpAddress, LocalHandle, PathResolvable, PeerAddr, SystemPath, Transport,
};
use netdispatch::dispatch::{
    ConnKind, ControlEvent, DispatchEnvelope, DispatchEvent, NetworkConfig, NetworkDispatcher,
    RegistrationEnvelope,
};
use netdispatch::frames::Frame;
use netdispatch::net::NetworkEvent;
use netdispatch::wire::encode_envelope;

fn local_system() -> SystemPath {
    SystemPath::new(Transport::Local, IpAddress::V4(0x7f000001), 8080)
}

fn named_local(segs: &[&[u8]]) -> ActorPath {
    ActorPath::Named {
        system: local_system(),
        segments: segs.iter().map(|s| s.to_vec()).collect(),
    }
}

fn remote_peer() -> PeerAddr {
    PeerAddr { ip: IpAddress::V4(0x0a000002), port: 9000 }
}

fn remote_path(uid: u128) -> ActorPath {
    ActorPath::Unique {
        system: SystemPath::new(Transport::Tcp, IpAddress::V4(0x0a000002), 9000),
        uid,
    }
}

fn sender_path(uid: u128) -> ActorPath {
    ActorPath::Unique { system: local_system(), uid }
}

fn started() -> NetworkDispatcher {
    let mut d = NetworkDispatcher::new();
    let evs = d.handle(ControlEvent::Start);
    assert_eq!(evs.len(), 1);
    assert!(matches!(evs[0], DispatchEvent::BridgeUp { .. }));
    d
}

fn data_payload(f: &Frame) -> Vec<u8> {
    match f {
        Frame::Data { payload, .. } => payload.clone(),
        _ => panic!("expected a data frame"),
    }
}

fn data_seq(f: &Frame) -> u64 {
    match f {
        Frame::Data { seq, .. } => *seq,
        _ => panic!("expected a data frame"),
    }
}

#[test]
fn local_hit_delivers_to_mailbox() {
    let mut d = started();
    let handle = LocalHandle { uid: 77, slot: 3 };
    let evs = d.receive(DispatchEnvelope::Registration(RegistrationEnvelope::Register(
        handle,
        named_local(&[b"foo", b"bar"]),
    )));
    assert!(evs.is_empty());
    let evs = d.route(
        PathResolvable::Local(LocalHandle { uid: 5, slot: 0 }),
        named_local(&[b"foo", b"bar"]),
        42,
        b"p".to_vec(),
    );
    assert_eq!(evs.len(), 1);
    match &evs[0] {
        DispatchEvent::LocalDeliver { slot, env } => {
            assert_eq!(*slot, 3);
            assert_eq!(env.ser_id, 42);
            assert_eq!(env.payload, b"p".to_vec());
            match &env.dst {
                ActorPath::Named { segments, .. } => {
                    assert_eq!(segments, &vec![b"foo".to_vec(), b"bar".to_vec()]);
                },
                _ => panic!("wrong destination kind"),
            }
            match &env.src {
                ActorPath::Unique { uid, system } => {
                    assert_eq!(*uid, 5);
                    assert_eq!(system.transport, Transport::Local);
                },
                _ => panic!("source was not promoted to a unique path"),
            }
        },
        _ => panic!("expected a local delivery"),
    }
    // No network activity: the remote peer was never touched.
    assert_eq!(d.connection_kind(&remote_peer()), ConnKind::New);
}

#[test]
fn local_miss_goes_to_deadletters() {
    let mut d = started();
    let evs = d.route(
        PathResolvable::Path(sender_path(1)),
        named_local(&[b"foo", b"baz"]),
        7,
        b"q".to_vec(),
    );
    assert_eq!(evs.len(), 1);
    match &evs[0] {
        DispatchEvent::DeadLetter { env } => {
            assert_eq!(env.payload, b"q".to_vec());
        },
        _ => panic!("expected a deadletter"),
    }
}

#[test]
fn cold_start_remote_queues_then_drains_in_order() {
    let mut d = started();
    let peer = remote_peer();
    let src = sender_path(1);
    let evs = d.route(PathResolvable::Path(sender_path(1)), remote_path(9), 7, b"m1".to_vec());
    assert_eq!(evs.len(), 1);
    assert!(matches!(evs[0], DispatchEvent::ConnectRequest { .. }));
    assert_eq!(d.connection_kind(&peer), ConnKind::Initializing);
    let evs = d.route(PathResolvable::Path(sender_path(1)), remote_path(9), 7, b"m2".to_vec());
    assert!(evs.is_empty());
    let evs = d.route(PathResolvable::Path(sender_path(1)), remote_path(9), 7, b"m3".to_vec());
    assert!(evs.is_empty());
    assert_eq!(d.queue_depth(&peer), 3);

    let (tx, rx) = futures::sync::mpsc::channel::<Frame>(4);
    let evs = d.handle_network_event(NetworkEvent::Opened { peer, peer_id: 1, tx });
    assert!(evs.is_empty());
    assert_eq!(d.connection_kind(&peer), ConnKind::Connected);
    assert_eq!(d.queue_depth(&peer), 0);

    let mut it = rx.wait();
    for (i, m) in [&b"m1"[..], &b"m2"[..], &b"m3"[..]].iter().enumerate() {
        let f = it.next().unwrap().unwrap();
        assert_eq!(data_seq(&f), i as u64);
        assert_eq!(data_payload(&f), encode_envelope(7, &src, &remote_path(9), &m.to_vec()));
    }
}

#[test]
fn full_channel_reshapes_into_queue() {
    let mut d = started();
    let peer = remote_peer();
    // One slot: the channel is full after one accepted frame.
    let (tx, rx) = futures::sync::mpsc::channel::<Frame>(0);
    let evs = d.handle_network_event(NetworkEvent::Opened { peer, peer_id: 1, tx });
    assert!(evs.is_empty());
    let mut it = rx.wait();

    for m in [&b"m1"[..], &b"m2"[..], &b"m3"[..], &b"m4"[..]] {
        let evs = d.route(PathResolvable::Path(sender_path(1)), remote_path(9), 7, m.to_vec());
        assert!(evs.is_empty());
    }
    // First accepted directly; the remaining three queued, in order.
    assert_eq!(d.queue_depth(&peer), 3);
    let f = it.next().unwrap().unwrap();
    assert_eq!(data_seq(&f), 0);

    // One slot freed: on the next drain opportunity the queue head leaves first.
    let evs = d.drain_peer(peer);
    assert!(evs.is_empty());
    assert_eq!(d.queue_depth(&peer), 2);
    let f = it.next().unwrap().unwrap();
    assert_eq!(data_seq(&f), 1);
    assert_eq!(
        data_payload(&f),
        encode_envelope(7, &sender_path(1), &remote_path(9), &b"m2".to_vec())
    );
}

#[test]
fn disconnect_requeues_frame_and_requests_reconnect() {
    let mut d = started();
    let peer = remote_peer();
    let (tx, rx) = futures::sync::mpsc::channel::<Frame>(0);
    let evs = d.handle_network_event(NetworkEvent::Opened { peer, peer_id: 1, tx });
    assert!(evs.is_empty());
    drop(rx);
    let evs = d.route(PathResolvable::Path(sender_path(1)), remote_path(9), 7, b"m1".to_vec());
    assert_eq!(evs.len(), 1);
    assert!(matches!(evs[0], DispatchEvent::ConnectRequest { .. }));
    assert_eq!(d.connection_kind(&peer), ConnKind::Closed);
    // m1 is back at the head of the queue.
    assert_eq!(d.queue_depth(&peer), 1);
    let evs = d.route(PathResolvable::Path(sender_path(1)), remote_path(9), 7, b"m2".to_vec());
    assert_eq!(evs.len(), 1);
    assert!(matches!(evs[0], DispatchEvent::ConnectRequest { .. }));
    assert_eq!(d.queue_depth(&peer), 2);

    // On reconnection both frames leave, oldest first.
    let (tx2, rx2) = futures::sync::mpsc::channel::<Frame>(4);
    let evs = d.handle_network_event(NetworkEvent::Opened { peer, peer_id: 2, tx: tx2 });
    assert!(evs.is_empty());
    let mut it = rx2.wait();
    assert_eq!(data_seq(&it.next().unwrap().unwrap()), 0);
    assert_eq!(data_seq(&it.next().unwrap().unwrap()), 1);
}

#[test]
fn overflow_deadletters_oldest_first() {
    let mut cfg = NetworkConfig::default();
    cfg.max_pending_frames_per_peer = 2;
    let mut d = NetworkDispatcher::with_config(cfg);
    d.handle(ControlEvent::Start);
    let peer = remote_peer();
    d.route(PathResolvable::Path(sender_path(1)), remote_path(9), 7, b"m1".to_vec());
    assert_eq!(d.connection_kind(&peer), ConnKind::Initializing);
    let evs = d.route(PathResolvable::Path(sender_path(1)), remote_path(9), 7, b"m2".to_vec());
    assert!(evs.is_empty());
    let evs = d.route(PathResolvable::Path(sender_path(1)), remote_path(9), 7, b"m3".to_vec());
    assert_eq!(evs.len(), 1);
    match &evs[0] {
        DispatchEvent::QueueOverflow { peer: p, frame } => {
            assert_eq!(*p, peer);
            // The overflow victim is m1, the oldest.
            assert_eq!(data_seq(frame), 0);
            assert_eq!(
                data_payload(frame),
                encode_envelope(7, &sender_path(1), &remote_path(9), &b"m1".to_vec())
            );
        },
        _ => panic!("expected an overflow event"),
    }
    assert_eq!(d.queue_depth(&peer), 2);
}

#[test]
fn udp_routing_is_unsupported() {
    let mut d = started();
    let dst = ActorPath::Unique {
        system: SystemPath::new(Transport::Udp, IpAddress::V4(0x0a000002), 9000),
        uid: 4,
    };
    let evs = d.route(PathResolvable::Path(sender_path(1)), dst, 7, b"x".to_vec());
    assert_eq!(evs.len(), 1);
    assert!(matches!(evs[0], DispatchEvent::UnsupportedTransport { .. }));
}

#[test]
fn cast_envelope_is_a_protocol_violation() {
    let mut d = started();
    let evs = d.receive(DispatchEnvelope::Cast);
    assert_eq!(evs.len(), 1);
    assert!(matches!(evs[0], DispatchEvent::ProtocolViolation));
}

#[test]
fn received_data_frame_is_delivered_or_deadlettered() {
    let mut d = started();
    let handle = LocalHandle { uid: 8, slot: 6 };
    d.receive(DispatchEnvelope::Registration(RegistrationEnvelope::Register(
        handle,
        named_local(&[b"svc"]),
    )));
    let payload = encode_envelope(9, &sender_path(2), &named_local(&[b"svc"]), &b"hi".to_vec());
    let evs = d.handle_network_event(NetworkEvent::Received {
        peer: remote_peer(),
        frame: Frame::Data { stream_id: 0, seq: 0, payload },
    });
    assert_eq!(evs.len(), 1);
    match &evs[0] {
        DispatchEvent::LocalDeliver { slot, env } => {
            assert_eq!(*slot, 6);
            assert_eq!(env.ser_id, 9);
            assert_eq!(env.payload, b"hi".to_vec());
        },
        _ => panic!("expected a local delivery"),
    }
    // An unknown destination is deadlettered.
    let payload = encode_envelope(9, &sender_path(2), &named_local(&[b"ghost"]), &b"yo".to_vec());
    let evs = d.handle_network_event(NetworkEvent::Received {
        peer: remote_peer(),
        frame: Frame::Data { stream_id: 0, seq: 1, payload },
    });
    assert_eq!(evs.len(), 1);
    assert!(matches!(evs[0], DispatchEvent::DeadLetter { .. }));
}

#[test]
fn malformed_frame_is_dropped_with_a_report() {
    let mut d = started();
    let evs = d.handle_network_event(NetworkEvent::Received {
        peer: remote_peer(),
        frame: Frame::Data { stream_id: 0, seq: 0, payload: vec![0xff, 0x01] },
    });
    assert_eq!(evs.len(), 1);
    assert!(matches!(evs[0], DispatchEvent::ProtocolViolation));
    // Control frames pass through silently.
    let evs = d.handle_network_event(NetworkEvent::Received {
        peer: remote_peer(),
        frame: Frame::Bye,
    });
    assert!(evs.is_empty());
}

#[test]
fn connect_failed_policies() {
    let mut d = started();
    let peer = remote_peer();
    d.route(PathResolvable::Path(sender_path(1)), remote_path(9), 7, b"m1".to_vec());
    // Transient fault: the queue survives for a later retry.
    let evs = d.handle_network_event(NetworkEvent::ConnectFailed { peer, permanent: false });
    assert!(evs.is_empty());
    assert_eq!(d.connection_kind(&peer), ConnKind::Closed);
    assert_eq!(d.queue_depth(&peer), 1);
    // Permanent refusal: the peer blocks and the queue is deadlettered.
    let evs = d.handle_network_event(NetworkEvent::ConnectFailed { peer, permanent: true });
    assert_eq!(evs.len(), 1);
    assert!(matches!(evs[0], DispatchEvent::DeadLetterFrame { .. }));
    assert_eq!(d.connection_kind(&peer), ConnKind::Blocked);
    assert_eq!(d.queue_depth(&peer), 0);
}

#[test]
fn kill_drops_queues_and_closes() {
    let mut d = started();
    let peer = remote_peer();
    d.route(PathResolvable::Path(sender_path(1)), remote_path(9), 7, b"m1".to_vec());
    assert_eq!(d.queue_depth(&peer), 1);
    let evs = d.handle(ControlEvent::Kill);
    assert!(evs.is_empty());
    assert_eq!(d.queue_depth(&peer), 0);
    assert_eq!(d.connection_kind(&peer), ConnKind::New);
    // A dead dispatcher deadletters instead of queueing.
    let evs = d.route(PathResolvable::Path(sender_path(1)), remote_path(9), 7, b"m2".to_vec());
    assert_eq!(evs.len(), 1);
    assert!(matches!(evs[0], DispatchEvent::DeadLetterFrame { .. }));
    assert_eq!(d.connection_kind(&peer), ConnKind::Closed);
}
