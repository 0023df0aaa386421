use vstd::prelude::*;

use crate::addr::{ActorPath, IpAddress, PathView, SystemPath, Transport};

verus! {

/// Wire tag of a transport.
pub open spec fn transport_byte(t: Transport) -> u8 {
    match t {
        Transport::Local => 0,
        Transport::Tcp => 1,
        Transport::Udp => 2,
    }
}

/// Wire tag of an address family.
pub open spec fn ip_kind_byte(ip: IpAddress) -> u8 {
    match ip {
        IpAddress::V4(_) => 4,
        IpAddress::V6(_) => 6,
    }
}

/// `x`'s lowest `n` bytes, big-endian.
pub open spec fn be_bytes(x: u128, n: nat) -> Seq<u8>
    decreases n,
{
    if n == 0 {
        Seq::empty()
    } else {
        be_bytes(x / 256, (n - 1) as nat).push((x % 256) as u8)
    }
}

/// Address bytes: 4 for v4, 16 for v6.
pub open spec fn ip_bytes(ip: IpAddress) -> Seq<u8> {
    match ip {
        IpAddress::V4(x) => be_bytes(x as u128, 4),
        IpAddress::V6(x) => be_bytes(x, 16),
    }
}

/// System path body: `[transport][ip kind][ip bytes][port]`.
pub open spec fn system_bytes(sp: SystemPath) -> Seq<u8> {
    seq![transport_byte(sp.transport), ip_kind_byte(sp.ip)] + ip_bytes(sp.ip) + be_bytes(
        sp.port as u128,
        2,
    )
}

/// The first `n` segments, each prefixed by its 16-bit length.
pub open spec fn segs_bytes(segs: Seq<Seq<u8>>, n: int) -> Seq<u8>
    decreases n,
{
    if n <= 0 {
        Seq::empty()
    } else {
        segs_bytes(segs, n - 1) + be_bytes(segs[n - 1].len() as u128, 2) + segs[n - 1]
    }
}

/// A path's wire form: `[kind][system body][body]`, with a 16-byte unique
/// ID for unique paths and counted, length-prefixed segments for named
/// paths.
pub open spec fn path_bytes(p: PathView) -> Seq<u8> {
    match p {
        PathView::Unique { system, uid } => seq![0u8] + system_bytes(system) + be_bytes(uid, 16),
        PathView::Named { system, segments } => seq![1u8] + system_bytes(system) + be_bytes(
            segments.len() as u128,
            2,
        ) + segs_bytes(segments, segments.len() as int),
    }
}

/// Whether a path's counted fields fit their 16-bit wire slots.
pub open spec fn path_encodable(p: PathView) -> bool {
    &&& path_bytes(p).len() <= 0xffff
    &&& match p {
        PathView::Unique { .. } => true,
        PathView::Named { segments, .. } => segments.len() <= 0xffff && forall|i: int|
            0 <= i < segments.len() ==> (#[trigger] segments[i]).len() <= 0xffff,
    }
}

/// A `Data` frame's payload: serializer ID, then the length-prefixed
/// source and destination paths, then the user payload.
pub open spec fn envelope_bytes(ser_id: u64, src: PathView, dst: PathView, payload: Seq<u8>) -> Seq<
    u8,
> {
    be_bytes(ser_id as u128, 8) + be_bytes(path_bytes(src).len() as u128, 2) + path_bytes(src)
        + be_bytes(path_bytes(dst).len() as u128, 2) + path_bytes(dst) + payload
}

/// Appends `x`'s lowest `n` bytes, big-endian.
pub fn push_be(out: &mut Vec<u8>, x: u128, n: usize)
    ensures
        final(out)@ == old(out)@ + be_bytes(x, n as nat),
    decreases n,
{
    if n == 0 {
        assert(final(out)@ =~= old(out)@ + be_bytes(x, 0));
        return ;
    }
    push_be(out, x / 256, n - 1);
    let b: u8 = (x % 256) as u8;
    out.push(b);
}

/// Appends a byte vector.
pub fn push_bytes(out: &mut Vec<u8>, v: &Vec<u8>)
    ensures
        final(out)@ == old(out)@ + v@,
{
    let mut i: usize = 0;
    while i < v.len()
        invariant
            i <= v.len(),
            out@ == old(out)@ + v@.subrange(0, i as int),
        decreases v.len() - i,
    {
        out.push(v[i]);
        proof {
            assert(out@ =~= old(out)@ + v@.subrange(0, i as int + 1));
        }
        i = i + 1;
    }
    assert(out@ =~= old(out)@ + v@);
}

/// Appends a system path body.
pub fn encode_system(out: &mut Vec<u8>, sp: &SystemPath)
    ensures
        final(out)@ == old(out)@ + system_bytes(*sp),
{
    let t: u8 = match sp.transport {
        Transport::Local => 0,
        Transport::Tcp => 1,
        Transport::Udp => 2,
    };
    out.push(t);
    match sp.ip {
        IpAddress::V4(x) => {
            out.push(4);
            push_be(out, x as u128, 4);
        },
        IpAddress::V6(x) => {
            out.push(6);
            push_be(out, x, 16);
        },
    }
    push_be(out, sp.port as u128, 2);
    assert(final(out)@ =~= old(out)@ + system_bytes(*sp));
}

/// Appends a path's wire form.
pub fn encode_path(out: &mut Vec<u8>, p: &ActorPath)
    requires
        path_encodable(p@),
    ensures
        final(out)@ == old(out)@ + path_bytes(p@),
{
    match p {
        ActorPath::Unique { system, uid } => {
            out.push(0);
            encode_system(out, system);
            push_be(out, *uid, 16);
            assert(final(out)@ =~= old(out)@ + path_bytes(p@));
        },
        ActorPath::Named { system, segments } => {
            let ghost segs: Seq<Seq<u8>> = segments.deep_view();
            out.push(1);
            encode_system(out, system);
            push_be(out, segments.len() as u128, 2);
            let ghost head = out@;
            let mut i: usize = 0;
            while i < segments.len()
                invariant
                    i <= segments.len(),
                    segs == segments.deep_view(),
                    path_encodable(p@),
                    p@ == (PathView::Named { system: *system, segments: segs }),
                    out@ == head + segs_bytes(segs, i as int),
                decreases segments.len() - i,
            {
                let seg: &Vec<u8> = &segments[i];
                proof {
                    crate::addr::lemma_bytes_deep_view(*seg);
                    assert(seg@ == segs[i as int]);
                }
                push_be(out, seg.len() as u128, 2);
                push_bytes(out, seg);
                proof {
                    assert(out@ =~= head + segs_bytes(segs, i as int + 1));
                }
                i = i + 1;
            }
            assert(final(out)@ =~= old(out)@ + path_bytes(p@));
        },
    }
}

/// Builds a `Data` frame payload from a serialized message and its
/// endpoints, bit-exact to [`envelope_bytes`].
pub fn encode_envelope(ser_id: u64, src: &ActorPath, dst: &ActorPath, payload: &Vec<u8>) -> (r: Vec<
    u8,
>)
    requires
        path_encodable(src@),
        path_encodable(dst@),
    ensures
        r@ == envelope_bytes(ser_id, src@, dst@, payload@),
{
    let mut out: Vec<u8> = Vec::new();
    push_be(&mut out, ser_id as u128, 8);
    let mut src_buf: Vec<u8> = Vec::new();
    encode_path(&mut src_buf, src);
    push_be(&mut out, src_buf.len() as u128, 2);
    push_bytes(&mut out, &src_buf);
    let mut dst_buf: Vec<u8> = Vec::new();
    encode_path(&mut dst_buf, dst);
    push_be(&mut out, dst_buf.len() as u128, 2);
    push_bytes(&mut out, &dst_buf);
    push_bytes(&mut out, payload);
    assert(out@ =~= envelope_bytes(ser_id, src@, dst@, payload@));
    out
}

/// `256^n`: the number of values `n` bytes can hold.
pub open spec fn pow256(n: nat) -> nat
    decreases n,
{
    if n == 0 {
        1
    } else {
        256 * pow256((n - 1) as nat)
    }
}

/// [`be_bytes`] has one byte per requested position.
pub proof fn lemma_be_len(x: u128, n: nat)
    ensures
        be_bytes(x, n).len() == n,
    decreases n,
{
    if n > 0 {
        lemma_be_len(x / 256, (n - 1) as nat);
    }
}

/// A unique path always fits the wire format: its byte form is at most 37
/// bytes long.
pub proof fn lemma_unique_path_encodable(p: PathView)
    requires
        p matches PathView::Unique { .. },
    ensures
        path_encodable(p),
{
    match p {
        PathView::Unique { system, uid } => {
            lemma_be_len(uid, 16);
            lemma_be_len(system.port as u128, 2);
            match system.ip {
                IpAddress::V4(x) => lemma_be_len(x as u128, 4),
                IpAddress::V6(x) => lemma_be_len(x, 16),
            }
            assert(path_bytes(p).len() <= 37);
        },
        PathView::Named { .. } => {},
    }
}

/// [`segs_bytes`] reads only the first `n` segments.
pub proof fn lemma_segs_bytes_prefix(s1: Seq<Seq<u8>>, s2: Seq<Seq<u8>>, n: int)
    requires
        forall|k: int| 0 <= k < n ==> s1[k] == s2[k],
    ensures
        segs_bytes(s1, n) == segs_bytes(s2, n),
    decreases n,
{
    if n > 0 {
        lemma_segs_bytes_prefix(s1, s2, n - 1);
    }
}

/// The integer the `n` bytes at `pos` encode, big-endian.
pub open spec fn spec_parse_be(input: Seq<u8>, pos: int, n: nat) -> int
    decreases n,
{
    if n == 0 {
        0
    } else {
        spec_parse_be(input, pos, (n - 1) as nat) * 256 + input[pos + n - 1]
    }
}

/// The system path the bytes at `pos` encode, with the first position
/// after it, if they encode one.
pub open spec fn spec_parse_system(input: Seq<u8>, pos: int) -> Option<(SystemPath, int)> {
    if input.len() - pos < 2 {
        None
    } else {
        let t = input[pos];
        let k = input[pos + 1];
        if t != 0 && t != 1 && t != 2 {
            None
        } else if k != 4 && k != 6 {
            None
        } else {
            let transport = if t == 0 {
                Transport::Local
            } else if t == 1 {
                Transport::Tcp
            } else {
                Transport::Udp
            };
            let ip_len: int = if k == 4 {
                4
            } else {
                16
            };
            if input.len() - pos < 2 + ip_len + 2 {
                None
            } else {
                let ip_val = spec_parse_be(input, pos + 2, ip_len as nat);
                let ip = if k == 4 {
                    IpAddress::V4(ip_val as u32)
                } else {
                    IpAddress::V6(ip_val as u128)
                };
                let port = spec_parse_be(input, pos + 2 + ip_len, 2);
                Some((SystemPath { transport, ip, port: port as u16 }, pos + 2 + ip_len + 2))
            }
        }
    }
}

/// The `k` length-prefixed segments at `pos`, with the first position
/// after them, if the bytes hold that many.
pub open spec fn spec_parse_segs(input: Seq<u8>, pos: int, k: nat) -> Option<(Seq<Seq<u8>>, int)>
    decreases k,
{
    if k == 0 {
        Some((Seq::empty(), pos))
    } else if input.len() - pos < 2 {
        None
    } else {
        let seg_len = spec_parse_be(input, pos, 2);
        if input.len() - (pos + 2) < seg_len {
            None
        } else {
            let seg = input.subrange(pos + 2, pos + 2 + seg_len);
            match spec_parse_segs(input, pos + 2 + seg_len, (k - 1) as nat) {
                Some((rest, end)) => Some((seq![seg] + rest, end)),
                None => None,
            }
        }
    }
}

/// The path the bytes at `pos` encode, with the first position after it,
/// if they encode one.
pub open spec fn spec_parse_path(input: Seq<u8>, pos: int) -> Option<(PathView, int)> {
    if input.len() == pos {
        None
    } else {
        let kind = input[pos];
        if kind == 0 {
            match spec_parse_system(input, pos + 1) {
                Some((system, mid)) => if input.len() - mid < 16 {
                    None
                } else {
                    Some(
                        (
                            PathView::Unique {
                                system,
                                uid: spec_parse_be(input, mid, 16) as u128,
                            },
                            mid + 16,
                        ),
                    )
                },
                None => None,
            }
        } else if kind == 1 {
            match spec_parse_system(input, pos + 1) {
                Some((system, mid)) => if input.len() - mid < 2 {
                    None
                } else {
                    let count = spec_parse_be(input, mid, 2);
                    match spec_parse_segs(input, mid + 2, count as nat) {
                        Some((segments, end)) => Some((PathView::Named { system, segments }, end)),
                        None => None,
                    }
                },
                None => None,
            }
        } else {
            None
        }
    }
}

/// The envelope a `Data` payload encodes, if it encodes one: every byte
/// accounted for, every declared length matching.
pub open spec fn spec_parse_envelope(input: Seq<u8>) -> Option<(u64, PathView, PathView, Seq<u8>)> {
    if input.len() < 10 {
        None
    } else {
        let ser_id = spec_parse_be(input, 0, 8);
        let src_len = spec_parse_be(input, 8, 2);
        if input.len() - 10 < src_len {
            None
        } else {
            match spec_parse_path(input, 10) {
                Some((src, src_end)) => if src_end != 10 + src_len {
                    None
                } else if input.len() - src_end < 2 {
                    None
                } else {
                    let dst_len = spec_parse_be(input, src_end, 2);
                    if input.len() - (src_end + 2) < dst_len {
                        None
                    } else {
                        match spec_parse_path(input, src_end + 2) {
                            Some((dst, dst_end)) => if dst_end != src_end + 2 + dst_len {
                                None
                            } else {
                                Some(
                                    (
                                        ser_id as u64,
                                        src,
                                        dst,
                                        input.subrange(dst_end, input.len() as int),
                                    ),
                                )
                            },
                            None => None,
                        }
                    }
                },
                None => None,
            }
        }
    }
}

/// The byte counts `n` bytes can distinguish.
pub proof fn lemma_pow256_values()
    ensures
        pow256(0) == 1,
        pow256(2) == 0x10000,
        pow256(4) == 0x100000000,
        pow256(8) == 0x10000000000000000,
        pow256(16) == 0x100000000000000000000000000000000,
{
    reveal_with_fuel(pow256, 17);
}

/// Parsing inverts encoding for big-endian integers: the bytes of any
/// `x` under `256^n` read back as `x`.
pub proof fn lemma_parse_be_rt(input: Seq<u8>, pos: int, x: u128, n: nat)
    requires
        0 <= pos,
        pos + n <= input.len(),
        x < pow256(n),
        input.subrange(pos, pos + n as int) == be_bytes(x, n),
    ensures
        spec_parse_be(input, pos, n) == x as int,
    decreases n,
{
    lemma_be_len(x, n);
    if n == 0 {
        assert(pow256(0) == 1);
    } else {
        let sub = input.subrange(pos, pos + n as int);
        lemma_be_len(x / 256, (n - 1) as nat);
        assert(sub[n - 1] == (x % 256) as u8);
        assert(input[pos + n - 1] == (x % 256) as u8);
        assert(input.subrange(pos, pos + n - 1) =~= be_bytes(x / 256, (n - 1) as nat));
        assert(pow256(n) == 256 * pow256((n - 1) as nat));
        assert(x as int == 256 * ((x as int) / 256) + (x as int) % 256);
        if (x as int) / 256 >= pow256((n - 1) as nat) {
            assert(256 * ((x as int) / 256) >= 256 * pow256((n - 1) as nat)) by (nonlinear_arith)
                requires
                    (x as int) / 256 >= pow256((n - 1) as nat),
            ;
            assert(false);
        }
        lemma_parse_be_rt(input, pos, x / 256, (n - 1) as nat);
        assert(spec_parse_be(input, pos, n) == spec_parse_be(input, pos, (n - 1) as nat) * 256
            + input[pos + n - 1]);
    }
}

/// Parsing inverts encoding for system path bodies.
pub proof fn lemma_system_rt(input: Seq<u8>, pos: int, sp: SystemPath)
    requires
        0 <= pos,
        pos + system_bytes(sp).len() <= input.len(),
        input.subrange(pos, pos + system_bytes(sp).len() as int) == system_bytes(sp),
    ensures
        spec_parse_system(input, pos) == Some((sp, pos + system_bytes(sp).len() as int)),
{
    lemma_pow256_values();
    let bytes = system_bytes(sp);
    let ip_len: int = match sp.ip {
        IpAddress::V4(_) => 4,
        IpAddress::V6(_) => 16,
    };
    match sp.ip {
        IpAddress::V4(x) => lemma_be_len(x as u128, 4),
        IpAddress::V6(x) => lemma_be_len(x, 16),
    }
    lemma_be_len(sp.port as u128, 2);
    assert(bytes.len() == 2 + ip_len + 2);
    let sub = input.subrange(pos, pos + bytes.len() as int);
    assert(input[pos] == transport_byte(sp.transport)) by {
        assert(sub[0] == bytes[0]);
    }
    assert(input[pos + 1] == ip_kind_byte(sp.ip)) by {
        assert(sub[1] == bytes[1]);
    }
    assert(input.subrange(pos + 2, pos + 2 + ip_len) =~= ip_bytes(sp.ip)) by {
        assert forall|j: int| 0 <= j < ip_len implies #[trigger] (input.subrange(
            pos + 2,
            pos + 2 + ip_len,
        )[j]) == ip_bytes(sp.ip)[j] by {
            assert(sub[2 + j] == bytes[2 + j]);
        }
    }
    assert(input.subrange(pos + 2 + ip_len, pos + 4 + ip_len) =~= be_bytes(sp.port as u128, 2))
        by {
        assert forall|j: int| 0 <= j < 2 implies #[trigger] (input.subrange(
            pos + 2 + ip_len,
            pos + 4 + ip_len,
        )[j]) == be_bytes(sp.port as u128, 2)[j] by {
            assert(sub[2 + ip_len + j] == bytes[2 + ip_len + j]);
        }
    }
    match sp.ip {
        IpAddress::V4(x) => {
            lemma_parse_be_rt(input, pos + 2, x as u128, 4);
        },
        IpAddress::V6(x) => {
            lemma_parse_be_rt(input, pos + 2, x, 16);
        },
    }
    lemma_parse_be_rt(input, pos + 2 + ip_len, sp.port as u128, 2);
    assert(spec_parse_system(input, pos) == Some((sp, pos + bytes.len() as int)));
}

/// The first of `k` encoded segments can be split off the front.
pub proof fn lemma_segs_head(s: Seq<Seq<u8>>, k: int)
    requires
        1 <= k <= s.len(),
    ensures
        segs_bytes(s, k) == be_bytes(s[0].len() as u128, 2) + s[0] + segs_bytes(s.skip(1), k - 1),
    decreases k,
{
    if k == 1 {
        assert(segs_bytes(s, 0) == Seq::<u8>::empty());
        assert(segs_bytes(s.skip(1), 0) == Seq::<u8>::empty());
        assert(segs_bytes(s, 1) =~= be_bytes(s[0].len() as u128, 2) + s[0] + segs_bytes(
            s.skip(1),
            0,
        ));
    } else {
        lemma_segs_head(s, k - 1);
        assert(s.skip(1)[k - 2] == s[k - 1]);
        assert(segs_bytes(s, k) =~= be_bytes(s[0].len() as u128, 2) + s[0] + segs_bytes(
            s.skip(1),
            k - 1,
        ));
    }
}

/// Parsing inverts encoding for segment lists whose lengths fit their
/// 16-bit slots.
pub proof fn lemma_segs_rt(input: Seq<u8>, pos: int, s: Seq<Seq<u8>>, k: nat)
    requires
        0 <= pos,
        k <= s.len(),
        forall|j: int| 0 <= j < k ==> (#[trigger] s[j]).len() <= 0xffff,
        pos + segs_bytes(s, k as int).len() <= input.len(),
        input.subrange(pos, pos + segs_bytes(s, k as int).len() as int) == segs_bytes(s, k as int),
    ensures
        spec_parse_segs(input, pos, k) == Some(
            (s.take(k as int), pos + segs_bytes(s, k as int).len() as int),
        ),
    decreases k,
{
    lemma_pow256_values();
    if k == 0 {
        assert(s.take(0) =~= Seq::<Seq<u8>>::empty());
    } else {
        lemma_segs_head(s, k as int);
        lemma_be_len(s[0].len() as u128, 2);
        let head_len: int = 2 + s[0].len() as int;
        let rest_bytes = segs_bytes(s.skip(1), k as int - 1);
        assert(segs_bytes(s, k as int).len() == head_len + rest_bytes.len());
        let total = segs_bytes(s, k as int);
        let sub = input.subrange(pos, pos + total.len() as int);
        assert(input.subrange(pos, pos + 2) =~= be_bytes(s[0].len() as u128, 2)) by {
            assert forall|j: int| 0 <= j < 2 implies #[trigger] (input.subrange(pos, pos + 2)[j])
                == be_bytes(s[0].len() as u128, 2)[j] by {
                assert(sub[j] == total[j]);
            }
        }
        lemma_parse_be_rt(input, pos, s[0].len() as u128, 2);
        assert(input.subrange(pos + 2, pos + 2 + s[0].len()) =~= s[0]) by {
            assert forall|j: int| 0 <= j < s[0].len() implies #[trigger] (input.subrange(
                pos + 2,
                pos + 2 + s[0].len(),
            )[j]) == s[0][j] by {
                assert(sub[2 + j] == total[2 + j]);
            }
        }
        assert(input.subrange(pos + head_len, pos + head_len + rest_bytes.len() as int)
            =~= rest_bytes) by {
            assert forall|j: int| 0 <= j < rest_bytes.len() implies #[trigger] (input.subrange(
                pos + head_len,
                pos + head_len + rest_bytes.len() as int,
            )[j]) == rest_bytes[j] by {
                assert(sub[head_len + j] == total[head_len + j]);
            }
        }
        assert forall|j: int| 0 <= j < k - 1 implies (#[trigger] s.skip(1)[j]).len()
            <= 0xffff by {
            assert(s.skip(1)[j] == s[j + 1]);
        }
        lemma_segs_rt(input, pos + head_len, s.skip(1), (k - 1) as nat);
        assert(seq![s[0]] + s.skip(1).take(k as int - 1) =~= s.take(k as int));
        assert(spec_parse_segs(input, pos, k) == Some(
            (s.take(k as int), pos + segs_bytes(s, k as int).len() as int),
        ));
    }
}

/// Parsing inverts encoding for paths that fit the wire format.
pub proof fn lemma_path_rt(input: Seq<u8>, pos: int, p: PathView)
    requires
        path_encodable(p),
        0 <= pos,
        pos + path_bytes(p).len() <= input.len(),
        input.subrange(pos, pos + path_bytes(p).len() as int) == path_bytes(p),
    ensures
        spec_parse_path(input, pos) == Some((p, pos + path_bytes(p).len() as int)),
{
    lemma_pow256_values();
    match p {
        PathView::Unique { system, uid } => {
            lemma_be_len(uid, 16);
            let sys_len = system_bytes(system).len() as int;
            assert(path_bytes(p).len() == 1 + sys_len + 16);
            let total = path_bytes(p);
            let sub = input.subrange(pos, pos + total.len() as int);
            assert(input[pos] == 0) by {
                assert(sub[0] == total[0]);
            }
            assert(input.subrange(pos + 1, pos + 1 + sys_len) =~= system_bytes(system)) by {
                assert forall|j: int| 0 <= j < sys_len implies #[trigger] (input.subrange(
                    pos + 1,
                    pos + 1 + sys_len,
                )[j]) == system_bytes(system)[j] by {
                    assert(sub[1 + j] == total[1 + j]);
                }
            }
            lemma_system_rt(input, pos + 1, system);
            assert(input.subrange(pos + 1 + sys_len, pos + 1 + sys_len + 16) =~= be_bytes(
                uid,
                16,
            )) by {
                assert forall|j: int| 0 <= j < 16 implies #[trigger] (input.subrange(
                    pos + 1 + sys_len,
                    pos + 1 + sys_len + 16,
                )[j]) == be_bytes(uid, 16)[j] by {
                    assert(sub[1 + sys_len + j] == total[1 + sys_len + j]);
                }
            }
            lemma_parse_be_rt(input, pos + 1 + sys_len, uid, 16);
            assert(spec_parse_path(input, pos) == Some((p, pos + path_bytes(p).len() as int)));
        },
        PathView::Named { system, segments } => {
            lemma_be_len(segments.len() as u128, 2);
            let sys_len = system_bytes(system).len() as int;
            let segsb = segs_bytes(segments, segments.len() as int);
            assert(path_bytes(p).len() == 1 + sys_len + 2 + segsb.len());
            let total = path_bytes(p);
            let sub = input.subrange(pos, pos + total.len() as int);
            assert(input[pos] == 1) by {
                assert(sub[0] == total[0]);
            }
            assert(input.subrange(pos + 1, pos + 1 + sys_len) =~= system_bytes(system)) by {
                assert forall|j: int| 0 <= j < sys_len implies #[trigger] (input.subrange(
                    pos + 1,
                    pos + 1 + sys_len,
                )[j]) == system_bytes(system)[j] by {
                    assert(sub[1 + j] == total[1 + j]);
                }
            }
            lemma_system_rt(input, pos + 1, system);
            assert(input.subrange(pos + 1 + sys_len, pos + 3 + sys_len) =~= be_bytes(
                segments.len() as u128,
                2,
            )) by {
                assert forall|j: int| 0 <= j < 2 implies #[trigger] (input.subrange(
                    pos + 1 + sys_len,
                    pos + 3 + sys_len,
                )[j]) == be_bytes(segments.len() as u128, 2)[j] by {
                    assert(sub[1 + sys_len + j] == total[1 + sys_len + j]);
                }
            }
            lemma_parse_be_rt(input, pos + 1 + sys_len, segments.len() as u128, 2);
            assert(input.subrange(pos + 3 + sys_len, pos + 3 + sys_len + segsb.len() as int)
                =~= segsb) by {
                assert forall|j: int| 0 <= j < segsb.len() implies #[trigger] (input.subrange(
                    pos + 3 + sys_len,
                    pos + 3 + sys_len + segsb.len() as int,
                )[j]) == segsb[j] by {
                    assert(sub[3 + sys_len + j] == total[3 + sys_len + j]);
                }
            }
            lemma_segs_rt(input, pos + 3 + sys_len, segments, segments.len());
            assert(segments.take(segments.len() as int) =~= segments);
            assert(spec_parse_path(input, pos) == Some((p, pos + path_bytes(p).len() as int)));
        },
    }
}

/// Parsing inverts encoding for whole envelopes: every well-formed
/// payload parses back to exactly the parts that built it.
pub proof fn lemma_envelope_rt(
    input: Seq<u8>,
    ser_id: u64,
    src: PathView,
    dst: PathView,
    payload: Seq<u8>,
)
    requires
        path_encodable(src),
        path_encodable(dst),
        input == envelope_bytes(ser_id, src, dst, payload),
    ensures
        spec_parse_envelope(input) == Some((ser_id, src, dst, payload)),
{
    lemma_pow256_values();
    lemma_be_len(ser_id as u128, 8);
    lemma_be_len(path_bytes(src).len() as u128, 2);
    lemma_be_len(path_bytes(dst).len() as u128, 2);
    let sl = path_bytes(src).len() as int;
    let dl = path_bytes(dst).len() as int;
    assert(input.len() == 8 + 2 + sl + 2 + dl + payload.len());
    assert(input.subrange(0, 8) =~= be_bytes(ser_id as u128, 8));
    lemma_parse_be_rt(input, 0, ser_id as u128, 8);
    assert(input.subrange(8, 10) =~= be_bytes(path_bytes(src).len() as u128, 2));
    lemma_parse_be_rt(input, 8, path_bytes(src).len() as u128, 2);
    assert(input.subrange(10, 10 + sl) =~= path_bytes(src));
    lemma_path_rt(input, 10, src);
    assert(input.subrange(10 + sl, 12 + sl) =~= be_bytes(path_bytes(dst).len() as u128, 2));
    lemma_parse_be_rt(input, 10 + sl, path_bytes(dst).len() as u128, 2);
    assert(input.subrange(12 + sl, 12 + sl + dl) =~= path_bytes(dst));
    lemma_path_rt(input, 12 + sl, dst);
    assert(input.subrange(12 + sl + dl, input.len() as int) =~= payload);
    assert(spec_parse_envelope(input) == Some((ser_id, src, dst, payload)));
}

/// What the spec parser rejects encodes nothing: no serializer ID, pair
/// of wire-fitting paths and payload produce those bytes.
pub proof fn lemma_unparsed_has_no_envelope(input: Seq<u8>)
    requires
        spec_parse_envelope(input) is None,
    ensures
        !(exists|sid: u64, s: PathView, d: PathView, pl: Seq<u8>|
            path_encodable(s) && path_encodable(d) && input == envelope_bytes(sid, s, d, pl)),
{
    if exists|sid: u64, s: PathView, d: PathView, pl: Seq<u8>|
        path_encodable(s) && path_encodable(d) && input == envelope_bytes(sid, s, d, pl) {
        let (sid, s, d, pl) = choose|sid: u64, s: PathView, d: PathView, pl: Seq<u8>|
            path_encodable(s) && path_encodable(d) && input == envelope_bytes(sid, s, d, pl);
        lemma_envelope_rt(input, sid, s, d, pl);
        assert(false);
    }
}

/// Reads `n` big-endian bytes at `pos`; the result is the unique integer
/// under `256^n` those bytes encode.
#[verifier::rlimit(100)]
#[verifier::spinoff_prover]
fn parse_be(input: &Vec<u8>, pos: usize, n: usize) -> (r: u128)
    requires
        pos + n <= input.len(),
        n <= 16,
    ensures
        r < pow256(n as nat),
        be_bytes(r, n as nat) == input@.subrange(pos as int, pos as int + n as int),
        r as int == spec_parse_be(input@, pos as int, n as nat),
    decreases n,
{
    proof {
        reveal_with_fuel(pow256, 17);
    }
    if n == 0 {
        assert(be_bytes(0, 0) =~= input@.subrange(pos as int, pos as int));
        return 0;
    }
    let hi = parse_be(input, pos, n - 1);
    let b = input[pos + n - 1];
    proof {
        assert(pow256(n as nat) == 256 * pow256((n - 1) as nat));
        assert(hi * 256 + (b as u128) < pow256(n as nat)) by (nonlinear_arith)
            requires
                hi < pow256((n - 1) as nat),
                b < 256,
                pow256(n as nat) == 256 * pow256((n - 1) as nat),
        ;
        assert(pow256(16) == 0x100000000000000000000000000000000);
    }
    let r = hi * 256 + (b as u128);
    proof {
        assert(r / 256 == hi && r % 256 == b as u128) by (nonlinear_arith)
            requires
                r == hi * 256 + (b as u128),
                b < 256,
        ;
        assert(be_bytes(r, n as nat) =~= input@.subrange(pos as int, pos as int + n as int));
    }
    r
}

/// Copies `input[from..to]`.
fn copy_range(input: &Vec<u8>, from: usize, to: usize) -> (r: Vec<u8>)
    requires
        from <= to <= input.len(),
    ensures
        r@ == input@.subrange(from as int, to as int),
{
    let mut r: Vec<u8> = Vec::new();
    let mut i: usize = from;
    while i < to
        invariant
            from <= i <= to <= input.len(),
            r@ == input@.subrange(from as int, i as int),
        decreases to - i,
    {
        r.push(input[i]);
        proof {
            assert(r@ =~= input@.subrange(from as int, i as int + 1));
        }
        i = i + 1;
    }
    r
}

/// Reads a system path body at `pos`. On success the consumed bytes are
/// exactly the returned path's wire form.
fn parse_system(input: &Vec<u8>, pos: usize) -> (r: Option<(SystemPath, usize)>)
    requires
        pos <= input.len(),
    ensures
        r matches Some((sp, end)) ==> pos <= end <= input.len() && system_bytes(sp)
            == input@.subrange(pos as int, end as int),
        match r {
            Some((sp, end)) => spec_parse_system(input@, pos as int) == Some((sp, end as int)),
            None => spec_parse_system(input@, pos as int) is None,
        },
{
    if input.len() - pos < 2 {
        return None;
    }
    let transport = match input[pos] {
        0 => Transport::Local,
        1 => Transport::Tcp,
        2 => Transport::Udp,
        _ => {
            proof {
                assert(spec_parse_system(input@, pos as int) is None);
            }
            return None;
        },
    };
    let ip_len: usize = match input[pos + 1] {
        4 => 4,
        6 => 16,
        _ => {
            proof {
                assert(spec_parse_system(input@, pos as int) is None);
            }
            return None;
        },
    };
    if input.len() - pos < 2 + ip_len + 2 {
        proof {
            assert(spec_parse_system(input@, pos as int) is None);
        }
        return None;
    }
    let ip_val = parse_be(input, pos + 2, ip_len);
    let ip = if ip_len == 4 {
        proof {
            reveal_with_fuel(pow256, 17);
        }
        IpAddress::V4(ip_val as u32)
    } else {
        IpAddress::V6(ip_val)
    };
    let port_val = parse_be(input, pos + 2 + ip_len, 2);
    proof {
        reveal_with_fuel(pow256, 17);
    }
    let sp = SystemPath { transport, ip, port: port_val as u16 };
    let end = pos + 2 + ip_len + 2;
    proof {
        assert(system_bytes(sp) =~= input@.subrange(pos as int, end as int));
        assert(spec_parse_system(input@, pos as int) == Some((sp, end as int)));
    }
    Some((sp, end))
}

/// Reads a path at `pos`. On success the consumed bytes are exactly the
/// returned path's wire form.
pub fn parse_path(input: &Vec<u8>, pos: usize) -> (r: Option<(ActorPath, usize)>)
    requires
        pos <= input.len(),
    ensures
        r matches Some((p, end)) ==> pos <= end <= input.len() && path_bytes(p@) == input@.subrange(
            pos as int,
            end as int,
        ),
        match r {
            Some((p, end)) => spec_parse_path(input@, pos as int) == Some((p@, end as int)),
            None => spec_parse_path(input@, pos as int) is None,
        },
{
    if input.len() == pos {
        return None;
    }
    let kind = input[pos];
    if kind == 0 {
        let (system, mid) = match parse_system(input, pos + 1) {
            Some(x) => x,
            None => {
                return None;
            },
        };
        if input.len() - mid < 16 {
            return None;
        }
        let uid = parse_be(input, mid, 16);
        let p = ActorPath::Unique { system, uid };
        let end = mid + 16;
        proof {
            assert(path_bytes(p@) =~= input@.subrange(pos as int, end as int));
            assert(spec_parse_path(input@, pos as int) == Some((p@, end as int)));
        }
        Some((p, end))
    } else if kind == 1 {
        let (system, mid) = match parse_system(input, pos + 1) {
            Some(x) => x,
            None => {
                return None;
            },
        };
        if input.len() - mid < 2 {
            return None;
        }
        let count_val = parse_be(input, mid, 2);
        proof {
            reveal_with_fuel(pow256, 17);
        }
        let count: usize = count_val as usize;
        let mut segments: Vec<Vec<u8>> = Vec::new();
        let mut cursor: usize = mid + 2;
        let mut i: usize = 0;
        proof {
            if spec_parse_segs(input@, mid as int + 2, count as nat) is Some {
                let rest = spec_parse_segs(input@, mid as int + 2, count as nat)->Some_0.0;
                assert(Seq::<Seq<u8>>::empty() + rest =~= rest);
                assert(segments.deep_view() =~= Seq::<Seq<u8>>::empty());
            }
        }
        while i < count
            invariant
                i <= count,
                segments@.len() == i,
                pos < input.len(),
                input@[pos as int] == 1,
                mid + 2 <= cursor <= input.len(),
                count <= 0xffff,
                spec_parse_system(input@, pos as int + 1) == Some((system, mid as int)),
                spec_parse_be(input@, mid as int, 2) == count as int,
                segs_bytes(segments.deep_view(), i as int) == input@.subrange(
                    mid as int + 2,
                    cursor as int,
                ),
                spec_parse_segs(input@, mid as int + 2, count as nat) == (match spec_parse_segs(
                    input@,
                    cursor as int,
                    (count - i) as nat,
                ) {
                    Some((rest, e)) => Some((segments.deep_view() + rest, e)),
                    None => None::<(Seq<Seq<u8>>, int)>,
                }),
            decreases count - i,
        {
            if input.len() - cursor < 2 {
                proof {
                    assert(spec_parse_segs(input@, cursor as int, (count - i) as nat) is None);
                    assert(spec_parse_system(input@, pos as int + 1) == Some((system, mid as int)));
                    assert(spec_parse_be(input@, mid as int, 2) == count as int);
                    assert(spec_parse_segs(input@, mid as int + 2, count as nat) is None);
                    assert(spec_parse_path(input@, pos as int) is None);
                }
                return None;
            }
            let seg_len_val = parse_be(input, cursor, 2);
            proof {
                reveal_with_fuel(pow256, 17);
            }
            let seg_len: usize = seg_len_val as usize;
            if input.len() - (cursor + 2) < seg_len {
                proof {
                    assert(spec_parse_be(input@, cursor as int, 2) == seg_len as int);
                    assert(spec_parse_segs(input@, cursor as int, (count - i) as nat) is None);
                    assert(spec_parse_system(input@, pos as int + 1) == Some((system, mid as int)));
                    assert(spec_parse_be(input@, mid as int, 2) == count as int);
                    assert(spec_parse_segs(input@, mid as int + 2, count as nat) is None);
                    assert(spec_parse_path(input@, pos as int) is None);
                }
                return None;
            }
            let seg = copy_range(input, cursor + 2, cursor + 2 + seg_len);
            let ghost pre_segs = segments.deep_view();
            let ghost pre_cursor = cursor;
            let ghost pre_i = i;
            segments.push(seg);
            proof {
                lemma_bytes_deep_view_wire(seg);
                assert(segments.deep_view() =~= pre_segs.push(seg@));
                lemma_segs_bytes_prefix(segments.deep_view(), pre_segs, i as int);
                assert(segments.deep_view()[i as int] == seg@);
                assert(segs_bytes(segments.deep_view(), i as int + 1) =~= input@.subrange(
                    mid as int + 2,
                    cursor as int + 2 + seg_len as int,
                ));
            }
            cursor = cursor + 2 + seg_len;
            i = i + 1;
            proof {
                assert(spec_parse_segs(input@, pre_cursor as int, (count - pre_i) as nat) == (
                match spec_parse_segs(input@, cursor as int, (count - i) as nat) {
                    Some((rest, e)) => Some((seq![seg@] + rest, e)),
                    None => None::<(Seq<Seq<u8>>, int)>,
                }));
                if spec_parse_segs(input@, cursor as int, (count - i) as nat) is Some {
                    let rest = spec_parse_segs(input@, cursor as int, (count - i) as nat)->Some_0.0;
                    assert(pre_segs + (seq![seg@] + rest) =~= segments.deep_view() + rest);
                }
            }
        }
        let p = ActorPath::Named { system, segments };
        proof {
            assert(path_bytes(p@) =~= input@.subrange(pos as int, cursor as int));
            assert(spec_parse_segs(input@, cursor as int, 0) == Some(
                (Seq::<Seq<u8>>::empty(), cursor as int),
            ));
            assert(segments.deep_view() + Seq::<Seq<u8>>::empty() =~= segments.deep_view());
            assert(spec_parse_segs(input@, mid as int + 2, count as nat) == Some(
                (segments.deep_view(), cursor as int),
            ));
            assert(spec_parse_path(input@, pos as int) == Some((p@, cursor as int)));
        }
        Some((p, cursor))
    } else {
        None
    }
}

/// A byte vector's deep view is its view.
proof fn lemma_bytes_deep_view_wire(v: Vec<u8>)
    ensures
        v.deep_view() == v@,
{
    assert(v.deep_view() =~= v@);
}

/// Parses a `Data` frame payload back into serializer ID, endpoints and
/// user payload. Whatever parses re-encodes, bit for bit, to the input;
/// anything else is rejected.
pub fn parse_envelope(input: &Vec<u8>) -> (r: Option<(u64, ActorPath, ActorPath, Vec<u8>)>)
    ensures
        r matches Some((ser_id, src, dst, payload)) ==> input@ == envelope_bytes(
            ser_id,
            src@,
            dst@,
            payload@,
        ),
        r is None ==> spec_parse_envelope(input@) is None,
        r is None ==> !(exists|sid: u64, s: PathView, d: PathView, pl: Seq<u8>|
            path_encodable(s) && path_encodable(d) && input@ == envelope_bytes(sid, s, d, pl)),
{
    if input.len() < 10 {
        proof {
            assert(spec_parse_envelope(input@) is None);
            lemma_unparsed_has_no_envelope(input@);
        }
        return None;
    }
    let ser_id_val = parse_be(input, 0, 8);
    proof {
        reveal_with_fuel(pow256, 17);
    }
    let ser_id: u64 = ser_id_val as u64;
    let src_len_val = parse_be(input, 8, 2);
    let src_len: usize = src_len_val as usize;
    if input.len() - 10 < src_len {
        proof {
            assert(spec_parse_envelope(input@) is None);
            lemma_unparsed_has_no_envelope(input@);
        }
        return None;
    }
    let (src, src_end) = match parse_path(input, 10) {
        Some(x) => x,
        None => {
            proof {
                assert(spec_parse_envelope(input@) is None);
                lemma_unparsed_has_no_envelope(input@);
            }
            return None;
        },
    };
    if src_end != 10 + src_len {
        proof {
            assert(spec_parse_envelope(input@) is None);
            lemma_unparsed_has_no_envelope(input@);
        }
        return None;
    }
    if input.len() - src_end < 2 {
        proof {
            assert(spec_parse_envelope(input@) is None);
            lemma_unparsed_has_no_envelope(input@);
        }
        return None;
    }
    let dst_len_val = parse_be(input, src_end, 2);
    let dst_len: usize = dst_len_val as usize;
    let dst_start = src_end + 2;
    if input.len() - dst_start < dst_len {
        proof {
            assert(spec_parse_envelope(input@) is None);
            lemma_unparsed_has_no_envelope(input@);
        }
        return None;
    }
    let (dst, dst_end) = match parse_path(input, dst_start) {
        Some(x) => x,
        None => {
            proof {
                assert(spec_parse_envelope(input@) is None);
                lemma_unparsed_has_no_envelope(input@);
            }
            return None;
        },
    };
    if dst_end != dst_start + dst_len {
        proof {
            assert(spec_parse_envelope(input@) is None);
            lemma_unparsed_has_no_envelope(input@);
        }
        return None;
    }
    let payload = copy_range(input, dst_end, input.len());
    proof {
        lemma_be_len(src_len_val, 2);
        lemma_be_len(dst_len_val, 2);
        assert(path_bytes(src@).len() == src_len);
        assert(path_bytes(dst@).len() == dst_len);
        assert(input@ =~= envelope_bytes(ser_id, src@, dst@, payload@));
    }
    Some((ser_id, src, dst, payload))
}

} // verus!
