use vstd::prelude::*;

use crate::addr::{ActorPath, PathView, PeerAddr};

verus! {

/// A wire unit exchanged with the network bridge. The dispatcher builds and
/// routes `Data` frames; the control variants belong to the bridge's own
/// handshake and are carried through opaquely.
pub enum Frame {
    Data { stream_id: u64, seq: u64, payload: Vec<u8> },
    Hello { peer: PeerAddr },
    Bye,
    Ack { seq: u64 },
}

/// Mathematical shape of a [`Frame`].
pub enum FrameView {
    Data { stream_id: u64, seq: u64, payload: Seq<u8> },
    Hello { peer: PeerAddr },
    Bye,
    Ack { seq: u64 },
}

impl View for Frame {
    type V = FrameView;

    open spec fn view(&self) -> FrameView {
        match self {
            Frame::Data { stream_id, seq, payload } => FrameView::Data {
                stream_id: *stream_id,
                seq: *seq,
                payload: payload@,
            },
            Frame::Hello { peer } => FrameView::Hello { peer: *peer },
            Frame::Bye => FrameView::Bye,
            Frame::Ack { seq } => FrameView::Ack { seq: *seq },
        }
    }
}

impl DeepView for Frame {
    type V = FrameView;

    open spec fn deep_view(&self) -> FrameView {
        self@
    }
}

/// Offset basis of the 64-bit FNV-1a hash.
pub const FNV_OFFSET: u64 = 0xcbf29ce484222325;

/// Prime of the 64-bit FNV-1a hash.
pub const FNV_PRIME: u64 = 0x100000001b3;

/// Separator folded in between path segments so that segment boundaries
/// influence the hash.
pub const SEG_SEP: u8 = 0x2f;

/// One FNV-1a step: fold a byte into the running hash.
pub open spec fn fnv_step(h: u64, b: u8) -> u64 {
    vstd::wrapping::u64_specs::wrapping_mul(h ^ (b as u64), FNV_PRIME)
}

/// Hash of the first `n` bytes of `s`, starting from `h0`.
pub open spec fn fnv_bytes_upto(s: Seq<u8>, n: int, h0: u64) -> u64
    decreases n,
{
    if n <= 0 {
        h0
    } else {
        fnv_step(fnv_bytes_upto(s, n - 1, h0), s[n - 1])
    }
}

/// Hash of the first `n` segments of `segs`, each followed by the separator,
/// starting from `h0`.
pub open spec fn fnv_segments_upto(segs: Seq<Seq<u8>>, n: int, h0: u64) -> u64
    decreases n,
{
    if n <= 0 {
        h0
    } else {
        fnv_step(
            fnv_bytes_upto(segs[n - 1], segs[n - 1].len() as int, fnv_segments_upto(segs, n - 1, h0)),
            SEG_SEP,
        )
    }
}

/// The stream identifier a destination path maps to: the unique ID's low
/// 64 bits for unique paths, a stable hash of the segments for named paths.
/// Frames for one logical destination always share a stream.
pub open spec fn spec_stream_id(p: PathView) -> u64 {
    match p {
        PathView::Unique { uid, .. } => (uid & 0xffff_ffff_ffff_ffff) as u64,
        PathView::Named { segments, .. } => fnv_segments_upto(
            segments,
            segments.len() as int,
            FNV_OFFSET,
        ),
    }
}

/// Computes [`spec_stream_id`] for a destination path.
pub fn stream_id_for(p: &ActorPath) -> (r: u64)
    ensures
        r == spec_stream_id(p@),
{
    match p {
        ActorPath::Unique { uid, .. } => {
            let low: u128 = *uid & 0xffff_ffff_ffff_ffff;
            assert(low <= 0xffff_ffff_ffff_ffff) by (bit_vector)
                requires low == *uid & 0xffff_ffff_ffff_ffff;
            low as u64
        },
        ActorPath::Named { segments, .. } => {
            let ghost segs: Seq<Seq<u8>> = segments.deep_view();
            let mut h: u64 = FNV_OFFSET;
            let mut i: usize = 0;
            while i < segments.len()
                invariant
                    i <= segments.len(),
                    segs == segments.deep_view(),
                    h == fnv_segments_upto(segs, i as int, FNV_OFFSET),
                decreases segments.len() - i,
            {
                let seg: &Vec<u8> = &segments[i];
                let mut j: usize = 0;
                let ghost hseg: u64 = h;
                while j < seg.len()
                    invariant
                        j <= seg.len(),
                        seg@ == segs[i as int],
                        i < segments.len(),
                        segs == segments.deep_view(),
                        h == fnv_bytes_upto(seg@, j as int, hseg),
                    decreases seg.len() - j,
                {
                    h = (h ^ (seg[j] as u64)).wrapping_mul(FNV_PRIME);
                    j = j + 1;
                }
                h = (h ^ (SEG_SEP as u64)).wrapping_mul(FNV_PRIME);
                i = i + 1;
            }
            assert(segs.len() == segments.len());
            h
        },
    }
}

} // verus!
