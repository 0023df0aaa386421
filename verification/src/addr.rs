use vstd::prelude::*;

verus! {

/// A transport protocol an actor system is reachable over.
#[derive(Clone, Copy, PartialEq, Eq, Structural, Debug)]
pub enum Transport {
    Local,
    Tcp,
    Udp,
}

/// An IP address held as a plain integer: 32 bits for v4, 128 bits for v6.
#[derive(Clone, Copy, PartialEq, Eq, Structural, Debug)]
pub enum IpAddress {
    V4(u32),
    V6(u128),
}

/// The network identity of a remote peer: where frames for it are sent.
#[derive(Clone, Copy, PartialEq, Eq, Structural, Debug)]
pub struct PeerAddr {
    pub ip: IpAddress,
    pub port: u16,
}

/// The `{transport, address, port}` triple identifying an actor system.
#[derive(Clone, Copy, PartialEq, Eq, Structural, Debug)]
pub struct SystemPath {
    pub transport: Transport,
    pub ip: IpAddress,
    pub port: u16,
}

impl SystemPath {
    pub open spec fn spec_peer(self) -> PeerAddr {
        PeerAddr { ip: self.ip, port: self.port }
    }

    pub fn new(transport: Transport, ip: IpAddress, port: u16) -> (r: SystemPath)
        ensures
            r == (SystemPath { transport, ip, port }),
    {
        SystemPath { transport, ip, port }
    }

    /// The peer address this system is reached at.
    pub fn peer(&self) -> (r: PeerAddr)
        ensures
            r == self.spec_peer(),
    {
        PeerAddr { ip: self.ip, port: self.port }
    }
}

/// A logical actor address: a system identity plus either an opaque
/// 128-bit unique ID or an ordered sequence of path segments.
pub enum ActorPath {
    Unique { system: SystemPath, uid: u128 },
    Named { system: SystemPath, segments: Vec<Vec<u8>> },
}

/// Mathematical shape of an [`ActorPath`]: segments become sequences.
pub enum PathView {
    Unique { system: SystemPath, uid: u128 },
    Named { system: SystemPath, segments: Seq<Seq<u8>> },
}

impl PathView {
    pub open spec fn system(self) -> SystemPath {
        match self {
            PathView::Unique { system, .. } => system,
            PathView::Named { system, .. } => system,
        }
    }

    pub open spec fn peer(self) -> PeerAddr {
        self.system().spec_peer()
    }
}

impl View for ActorPath {
    type V = PathView;

    open spec fn view(&self) -> PathView {
        match self {
            ActorPath::Unique { system, uid } => PathView::Unique {
                system: *system,
                uid: *uid,
            },
            ActorPath::Named { system, segments } => PathView::Named {
                system: *system,
                segments: segments.deep_view(),
            },
        }
    }
}

/// A byte vector's deep view is its view.
pub proof fn lemma_bytes_deep_view(v: Vec<u8>)
    ensures
        v.deep_view() == v@,
{
    assert(v.deep_view() =~= v@);
}

/// Copies one segment, byte for byte.
pub fn clone_bytes(v: &Vec<u8>) -> (r: Vec<u8>)
    ensures
        r@ == v@,
{
    let mut r: Vec<u8> = Vec::new();
    let mut i: usize = 0;
    while i < v.len()
        invariant
            i <= v.len(),
            r@ == v@.subrange(0, i as int),
        decreases v.len() - i,
    {
        r.push(v[i]);
        i = i + 1;
    }
    assert(r@ == v@);
    r
}

/// Copies a segment list, preserving its view.
pub fn clone_segments(v: &Vec<Vec<u8>>) -> (r: Vec<Vec<u8>>)
    ensures
        r.deep_view() == v.deep_view(),
{
    let mut r: Vec<Vec<u8>> = Vec::new();
    let mut i: usize = 0;
    while i < v.len()
        invariant
            i <= v.len(),
            r@.len() == i,
            forall|k: int| 0 <= k < i ==> r@[k]@ == v@[k]@,
        decreases v.len() - i,
    {
        let c = clone_bytes(&v[i]);
        r.push(c);
        i = i + 1;
    }
    assert forall|k: int| 0 <= k < v@.len() implies r.deep_view()[k] == v.deep_view()[k] by {
        lemma_bytes_deep_view(r@[k]);
        lemma_bytes_deep_view(v@[k]);
    }
    assert(r.deep_view() =~= v.deep_view());
    r
}

/// Compares two segments byte for byte.
pub fn bytes_eq(a: &Vec<u8>, b: &Vec<u8>) -> (r: bool)
    ensures
        r <==> a@ == b@,
{
    if a.len() != b.len() {
        return false;
    }
    let mut i: usize = 0;
    while i < a.len()
        invariant
            i <= a.len(),
            a.len() == b.len(),
            forall|j: int| 0 <= j < i ==> a@[j] == b@[j],
        decreases a.len() - i,
    {
        if a[i] != b[i] {
            return false;
        }
        i = i + 1;
    }
    assert(a@ =~= b@);
    true
}

/// Compares two segment lists.
pub fn segments_eq(a: &Vec<Vec<u8>>, b: &Vec<Vec<u8>>) -> (r: bool)
    ensures
        r <==> a.deep_view() == b.deep_view(),
{
    if a.len() != b.len() {
        assert(a.deep_view().len() != b.deep_view().len());
        return false;
    }
    let mut i: usize = 0;
    while i < a.len()
        invariant
            i <= a.len(),
            a.len() == b.len(),
            forall|j: int| 0 <= j < i ==> a.deep_view()[j] == b.deep_view()[j],
        decreases a.len() - i,
    {
        let same = bytes_eq(&a[i], &b[i]);
        proof {
            lemma_bytes_deep_view(a@[i as int]);
            lemma_bytes_deep_view(b@[i as int]);
        }
        if !same {
            assert(a.deep_view()[i as int] != b.deep_view()[i as int]);
            return false;
        }
        i = i + 1;
    }
    assert(a.deep_view() =~= b.deep_view());
    true
}

impl ActorPath {
    /// The system identity this path belongs to.
    pub fn system(&self) -> (r: SystemPath)
        ensures
            r == self@.system(),
    {
        match self {
            ActorPath::Unique { system, .. } => *system,
            ActorPath::Named { system, .. } => *system,
        }
    }

    pub fn duplicate(&self) -> (r: ActorPath)
        ensures
            r@ == self@,
    {
        match self {
            ActorPath::Unique { system, uid } => ActorPath::Unique { system: *system, uid: *uid },
            ActorPath::Named { system, segments } => ActorPath::Named {
                system: *system,
                segments: clone_segments(segments),
            },
        }
    }
}

/// A delivery endpoint for a local actor: its globally unique identity and
/// the arena slot its mailbox handle lives in.
#[derive(Clone, Copy, PartialEq, Eq, Structural, Debug)]
pub struct LocalHandle {
    pub uid: u128,
    pub slot: u64,
}

/// Either a fully formed actor path, or a local handle the dispatcher
/// promotes to a unique path under its own system identity.
pub enum PathResolvable {
    Path(ActorPath),
    Local(LocalHandle),
}

/// Mathematical shape of a [`PathResolvable`].
pub enum ResolvableView {
    Path(PathView),
    Local(LocalHandle),
}

impl View for PathResolvable {
    type V = ResolvableView;

    open spec fn view(&self) -> ResolvableView {
        match self {
            PathResolvable::Path(p) => ResolvableView::Path(p@),
            PathResolvable::Local(h) => ResolvableView::Local(*h),
        }
    }
}

} // verus!
