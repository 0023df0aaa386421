use netdispatch::addr::{ActorPath, IpAddress, LocalHandle, PeerAddr, SystemPath, Transport};
use netdispatch::dispatch::{
    ControlEvent, DispatchEnvelope, DispatchEvent, NetworkDispatcher, RegistrationEnvelope,
};
use netdispatch::frames::{stream_id_for, Frame};
use netdispatch::lookup::{ActorLookup, RegistryError};
use netdispatch::queue::QueueManager;
use netdispatch::wire::{encode_envelope, parse_envelope};

fn sys() -> SystemPath {
    SystemPath::new(Transport::Local, IpAddress::V4(0x7f000001), 8080)
}

fn named(segs: &[&[u8]]) -> ActorPath {
    ActorPath::Named { system: sys(), segments: segs.iter().map(|s| s.to_vec()).collect() }
}

fn unique(uid: u128) -> ActorPath {
    ActorPath::Unique { system: sys(), uid }
}

#[test]
fn registry_unique_insert_lookup_remove() {
    let mut reg = ActorLookup::new();
    let h = LocalHandle { uid: 11, slot: 1 };
    assert!(reg.insert(h, &unique(11)).is_ok());
    assert_eq!(reg.lookup(&unique(11)), Some(h));
    assert_eq!(reg.lookup(&unique(12)), None);
    assert_eq!(reg.remove(&unique(11)), Some(h));
    assert_eq!(reg.lookup(&unique(11)), None);
}

#[test]
fn registry_named_reachable_both_ways() {
    let mut reg = ActorLookup::new();
    let h = LocalHandle { uid: 21, slot: 2 };
    assert!(reg.insert(h, &named(&[b"foo", b"bar"])).is_ok());
    assert_eq!(reg.lookup(&named(&[b"foo", b"bar"])), Some(h));
    // Registered under the unique ID as well.
    assert_eq!(reg.lookup(&unique(21)), Some(h));
    // A full-path match is required: a prefix is not delivered.
    assert_eq!(reg.lookup(&named(&[b"foo"])), None);
    // Removing the unique binding clears the named one too.
    assert_eq!(reg.remove(&unique(21)), Some(h));
    assert_eq!(reg.lookup(&named(&[b"foo", b"bar"])), None);
}

#[test]
fn registry_duplicate_path_keeps_existing() {
    let mut reg = ActorLookup::new();
    let h1 = LocalHandle { uid: 1, slot: 1 };
    let h2 = LocalHandle { uid: 2, slot: 2 };
    assert!(reg.insert(h1, &named(&[b"a"])).is_ok());
    assert_eq!(reg.insert(h2, &named(&[b"a"])), Err(RegistryError::DuplicatePath));
    assert_eq!(reg.lookup(&named(&[b"a"])), Some(h1));
}

#[test]
fn registration_refused_is_reported() {
    let mut d = NetworkDispatcher::new();
    d.handle(ControlEvent::Start);
    let h1 = LocalHandle { uid: 1, slot: 1 };
    let h2 = LocalHandle { uid: 2, slot: 2 };
    let evs = d.receive(DispatchEnvelope::Registration(RegistrationEnvelope::Register(
        h1,
        named(&[b"a"]),
    )));
    assert!(evs.is_empty());
    let evs = d.receive(DispatchEnvelope::Registration(RegistrationEnvelope::Register(
        h2,
        named(&[b"a"]),
    )));
    assert_eq!(evs.len(), 1);
    assert!(matches!(
        evs[0],
        DispatchEvent::RegistrationRefused { err: RegistryError::DuplicatePath }
    ));
    // Deregistration clears the binding; queued frames are unaffected.
    let evs = d.receive(DispatchEnvelope::Registration(RegistrationEnvelope::Deregister(
        named(&[b"a"]),
    )));
    assert!(evs.is_empty());
    let mut reg = ActorLookup::new();
    assert!(reg.insert(h1, &named(&[b"a"])).is_ok());
}

#[test]
fn envelope_round_trip() {
    let src = unique(0x0123456789abcdef0123456789abcdef);
    let dst = ActorPath::Named {
        system: SystemPath::new(Transport::Tcp, IpAddress::V6(0xfe80000000000000_0000000000000001),
        9000),
        segments: vec![b"foo".to_vec(), b"".to_vec(), b"bar".to_vec()],
    };
    let bytes = encode_envelope(0xdead_beef, &src, &dst, &b"payload".to_vec());
    let (ser_id, psrc, pdst, payload) = parse_envelope(&bytes).expect("round trip failed");
    assert_eq!(ser_id, 0xdead_beef);
    assert_eq!(payload, b"payload".to_vec());
    match psrc {
        ActorPath::Unique { uid, system } => {
            assert_eq!(uid, 0x0123456789abcdef0123456789abcdef);
            assert_eq!(system, sys());
        },
        _ => panic!("wrong source kind"),
    }
    match pdst {
        ActorPath::Named { segments, system } => {
            assert_eq!(segments, vec![b"foo".to_vec(), b"".to_vec(), b"bar".to_vec()]);
            assert_eq!(system.transport, Transport::Tcp);
            assert_eq!(system.port, 9000);
        },
        _ => panic!("wrong destination kind"),
    }
}

#[test]
fn envelope_header_layout_is_bit_exact() {
    // Unique path over IPv4: [kind][transport][ip kind][ip][port][16-byte uid].
    let src = ActorPath::Unique {
        system: SystemPath::new(Transport::Tcp, IpAddress::V4(0x0a000002), 9000),
        uid: 7,
    };
    let bytes = encode_envelope(1, &src, &src.duplicate(), &Vec::new());
    // serializer id, big-endian.
    assert_eq!(&bytes[0..8], &[0, 0, 0, 0, 0, 0, 0, 1]);
    // source path length: 1 + (2 + 4 + 2) + 16 = 25 bytes.
    assert_eq!(&bytes[8..10], &[0, 25]);
    // path kind 0 = unique; transport 1 = tcp; ip kind 4; 10.0.0.2; port 9000.
    assert_eq!(&bytes[10..18], &[0, 1, 4, 10, 0, 0, 2, 0x23, 0x28][0..8]);
    assert_eq!(bytes[17], 0x23);
    assert_eq!(bytes[18], 0x28);
    // 16-byte uid, big-endian.
    assert_eq!(&bytes[19..35], &[0, 0, 0, 0, 0, 0, 0, 0, 0, 0, 0, 0, 0, 0, 0, 7]);
    assert_eq!(bytes.len(), 8 + 2 + 25 + 2 + 25);
}

#[test]
fn malformed_envelopes_are_rejected() {
    assert!(parse_envelope(&vec![]).is_none());
    assert!(parse_envelope(&vec![0xff; 9]).is_none());
    // A declared path length that does not match the path is refused.
    let src = unique(7);
    let mut bytes = encode_envelope(1, &src, &src.duplicate(), &Vec::new());
    bytes[9] = bytes[9].wrapping_add(1);
    assert!(parse_envelope(&bytes).is_none());
}

#[test]
fn stream_id_takes_unique_low_bits() {
    let p = ActorPath::Unique {
        system: SystemPath::new(Transport::Tcp, IpAddress::V4(1), 1),
        uid: 0xffff_0000_0000_0000_0000_0000_0000_0042,
    };
    assert_eq!(stream_id_for(&p), 0x42);
}

#[test]
fn stream_id_is_stable_per_destination() {
    let a = named(&[b"foo", b"bar"]);
    let b = named(&[b"foo", b"bar"]);
    let c = named(&[b"foob", b"ar"]);
    assert_eq!(stream_id_for(&a), stream_id_for(&b));
    // Segment boundaries matter.
    assert_ne!(stream_id_for(&a), stream_id_for(&c));
}

#[test]
fn queue_manager_is_fifo_per_peer() {
    let mut qm = QueueManager::new();
    let p1 = PeerAddr { ip: IpAddress::V4(1), port: 1 };
    let p2 = PeerAddr { ip: IpAddress::V4(2), port: 2 };
    qm.enqueue_frame(Frame::Ack { seq: 1 }, p1);
    qm.enqueue_frame(Frame::Ack { seq: 2 }, p1);
    qm.enqueue_frame(Frame::Ack { seq: 9 }, p2);
    assert_eq!(qm.queue_depth(&p1), 2);
    match qm.dequeue_frame(&p1) {
        Some(Frame::Ack { seq }) => assert_eq!(seq, 1),
        _ => panic!("expected the oldest frame"),
    }
    match qm.dequeue_frame(&p1) {
        Some(Frame::Ack { seq }) => assert_eq!(seq, 2),
        _ => panic!("expected the second frame"),
    }
    assert!(qm.dequeue_frame(&p1).is_none());
    assert_eq!(qm.drop_peer(&p2), 1);
    assert_eq!(qm.queue_depth(&p2), 0);
}
