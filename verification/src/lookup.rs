use vstd::prelude::*;

use crate::addr::{ActorPath, LocalHandle, PathView, segments_eq};
use crate::assoc::{al_contains, al_find, al_idx, al_unique, lemma_al_find_none, lemma_al_find_some, lemma_al_remove};

verus! {

/// Why a registration was rejected. The existing registration is retained
/// in every error case.
#[derive(Clone, Copy, PartialEq, Eq, Structural, Debug)]
pub enum RegistryError {
    /// The named path is already bound.
    DuplicatePath,
    /// The handle's unique ID is already bound; a sound ID generator never
    /// produces this, it is rejected defensively.
    DuplicateId,
    /// A unique path was given whose ID is not the handle's own.
    IdentityMismatch,
}

/// The address registry: maps unique actor IDs and named paths to local
/// delivery handles. An actor registered under a named path is reachable
/// through both indices, and removing either binding removes both.
pub struct ActorLookup {
    by_uid: Vec<(u128, LocalHandle)>,
    by_path: Vec<(Vec<Vec<u8>>, LocalHandle)>,
}

impl ActorLookup {
    /// The unique-ID index as an association sequence.
    pub closed spec fn uids(self) -> Seq<(u128, LocalHandle)> {
        self.by_uid@
    }

    /// The named-path index as an association sequence.
    pub closed spec fn names(self) -> Seq<(Seq<Seq<u8>>, LocalHandle)> {
        Seq::new(self.by_path@.len(), |i: int| (self.by_path@[i].0.deep_view(), self.by_path@[i].1))
    }

    /// Registry invariant: both indices are keyed uniquely, every uid entry
    /// is keyed by its handle's own ID, every named entry is also reachable
    /// through the uid index, and no two names share an actor.
    pub open spec fn wf(self) -> bool {
        &&& al_unique(self.uids())
        &&& al_unique(self.names())
        &&& forall|i: int| 0 <= i < self.uids().len() ==> (#[trigger] self.uids()[i]).0
            == self.uids()[i].1.uid
        &&& forall|i: int| 0 <= i < self.names().len() ==> al_find(
            self.uids(),
            (#[trigger] self.names()[i]).1.uid,
        ) == Some(self.names()[i].1)
        &&& forall|i: int, j: int| 0 <= i < j < self.names().len() ==> (
        #[trigger] self.names()[i]).1.uid != (#[trigger] self.names()[j]).1.uid
    }

    /// What `insert` answers for a given handle and path: a unique path
    /// must carry the handle's own ID, the ID must be fresh, and a named
    /// path must be unbound; the first failed check names the error.
    pub open spec fn spec_insert_result(self, h: LocalHandle, p: PathView) -> Result<
        (),
        RegistryError,
    > {
        match p {
            PathView::Unique { uid, .. } => if uid != h.uid {
                Err(RegistryError::IdentityMismatch)
            } else if al_find(self.uids(), h.uid) matches Some(_) {
                Err(RegistryError::DuplicateId)
            } else {
                Ok(())
            },
            PathView::Named { .. } => if al_find(self.uids(), h.uid) matches Some(_) {
                Err(RegistryError::DuplicateId)
            } else if self.spec_lookup(p) matches Some(_) {
                Err(RegistryError::DuplicatePath)
            } else {
                Ok(())
            },
        }
    }

    /// What `lookup` returns: explicit unique lookups go through the uid
    /// index, explicit named lookups through the named index.
    pub open spec fn spec_lookup(self, p: PathView) -> Option<LocalHandle> {
        match p {
            PathView::Unique { uid, .. } => al_find(self.uids(), uid),
            PathView::Named { segments, .. } => al_find(self.names(), segments),
        }
    }

    pub fn new() -> (r: ActorLookup)
        ensures
            r.wf(),
            forall|p: PathView| r.spec_lookup(p) == None::<LocalHandle>,
    {
        let r = ActorLookup { by_uid: Vec::new(), by_path: Vec::new() };
        proof {
            assert forall|p: PathView| r.spec_lookup(p) == None::<LocalHandle> by {
                match p {
                    PathView::Unique { uid, .. } => lemma_al_find_none(r.uids(), uid),
                    PathView::Named { segments, .. } => lemma_al_find_none(r.names(), segments),
                }
            }
        }
        r
    }

    /// Position of `uid` in the uid index, if bound.
    fn find_uid(&self, uid: u128) -> (r: Option<usize>)
        requires
            self.wf(),
        ensures
            match r {
                Some(i) => i < self.uids().len() && self.uids()[i as int].0 == uid && al_find(
                    self.uids(),
                    uid,
                ) == Some(self.uids()[i as int].1),
                None => al_find(self.uids(), uid) == None::<LocalHandle>,
            },
    {
        let mut i: usize = 0;
        while i < self.by_uid.len()
            invariant
                self.wf(),
                i <= self.uids().len(),
                forall|j: int| 0 <= j < i ==> (#[trigger] self.uids()[j]).0 != uid,
            decreases self.by_uid.len() - i,
        {
            if self.by_uid[i].0 == uid {
                proof {
                    lemma_al_find_some(self.uids(), uid, i as int);
                }
                return Some(i);
            }
            i = i + 1;
        }
        proof {
            lemma_al_find_none(self.uids(), uid);
        }
        None
    }

    /// Position of `segments` in the named index, if bound.
    fn find_name(&self, segments: &Vec<Vec<u8>>) -> (r: Option<usize>)
        requires
            self.wf(),
        ensures
            match r {
                Some(i) => i < self.names().len() && self.names()[i as int].0
                    == segments.deep_view() && al_find(self.names(), segments.deep_view()) == Some(
                    self.names()[i as int].1,
                ),
                None => al_find(self.names(), segments.deep_view()) == None::<LocalHandle>,
            },
    {
        let mut i: usize = 0;
        while i < self.by_path.len()
            invariant
                self.wf(),
                i <= self.names().len(),
                forall|j: int| 0 <= j < i ==> (#[trigger] self.names()[j]).0
                    != segments.deep_view(),
            decreases self.by_path.len() - i,
        {
            if segments_eq(&self.by_path[i].0, segments) {
                proof {
                    lemma_al_find_some(self.names(), segments.deep_view(), i as int);
                }
                return Some(i);
            }
            i = i + 1;
        }
        proof {
            lemma_al_find_none(self.names(), segments.deep_view());
        }
        None
    }

    /// Resolves a path to the local delivery handle registered for it, if
    /// any. A named lookup must match the full path; no prefix matching.
    pub fn lookup(&self, path: &ActorPath) -> (r: Option<LocalHandle>)
        requires
            self.wf(),
        ensures
            r == self.spec_lookup(path@),
    {
        match path {
            ActorPath::Unique { uid, .. } => {
                match self.find_uid(*uid) {
                    Some(i) => Some(self.by_uid[i].1),
                    None => None,
                }
            },
            ActorPath::Named { segments, .. } => {
                match self.find_name(segments) {
                    Some(i) => Some(self.by_path[i].1),
                    None => None,
                }
            },
        }
    }

    /// Registers `handle` under the given path: always under the handle's
    /// unique ID, and additionally under the segments when the path is
    /// named. A collision on the named path is rejected with
    /// `DuplicatePath` and the registry is left unchanged.
    pub fn insert(&mut self, handle: LocalHandle, path: &ActorPath) -> (r: Result<
        (),
        RegistryError,
    >)
        requires
            old(self).wf(),
        ensures
            final(self).wf(),
            r == old(self).spec_insert_result(handle, path@),
            match r {
                Ok(()) => {
                    &&& old(self).spec_lookup(path@) matches None
                    &&& al_find(old(self).uids(), handle.uid) matches None
                    &&& final(self).spec_lookup(path@) == Some(handle)
                    &&& al_find(final(self).uids(), handle.uid) == Some(handle)
                    &&& forall|k: u128| k != handle.uid ==> al_find(final(self).uids(), k)
                        == al_find(old(self).uids(), k)
                    &&& forall|n: Seq<Seq<u8>>|
                        !(path@ matches PathView::Named { segments, .. } && segments == n)
                            ==> al_find(final(self).names(), n) == al_find(old(self).names(), n)
                },
                Err(RegistryError::IdentityMismatch) => {
                    &&& *final(self) == *old(self)
                    &&& path@ matches PathView::Unique { uid, .. } && uid != handle.uid
                },
                Err(RegistryError::DuplicateId) => {
                    &&& *final(self) == *old(self)
                    &&& al_find(old(self).uids(), handle.uid) matches Some(_)
                },
                Err(RegistryError::DuplicatePath) => {
                    &&& *final(self) == *old(self)
                    &&& path@ matches PathView::Named { segments, .. } && al_find(
                        old(self).names(),
                        segments,
                    ) matches Some(_)
                },
            },
    {
        match path {
            ActorPath::Unique { uid, .. } => {
                if *uid != handle.uid {
                    return Err(RegistryError::IdentityMismatch);
                }
                if self.find_uid(handle.uid).is_some() {
                    return Err(RegistryError::DuplicateId);
                }
                let ghost pre = *self;
                self.by_uid.push((handle.uid, handle));
                proof {
                    self.lemma_uid_push(pre, handle);
                }
                Ok(())
            },
            ActorPath::Named { segments, .. } => {
                if self.find_uid(handle.uid).is_some() {
                    return Err(RegistryError::DuplicateId);
                }
                if self.find_name(segments).is_some() {
                    return Err(RegistryError::DuplicatePath);
                }
                let ghost pre = *self;
                self.by_uid.push((handle.uid, handle));
                proof {
                    self.lemma_uid_push(pre, handle);
                }
                let ghost mid = *self;
                let owned = crate::addr::clone_segments(segments);
                self.by_path.push((owned, handle));
                proof {
                    assert(self.names() =~= mid.names().push((segments.deep_view(), handle)));
                    self.lemma_name_push(mid, segments.deep_view(), handle);
                }
                Ok(())
            },
        }
    }

    /// Position of the named entry registered to `uid`, if any.
    fn find_name_by_uid(&self, uid: u128) -> (r: Option<usize>)
        ensures
            match r {
                Some(i) => i < self.names().len() && self.names()[i as int].1.uid == uid,
                None => forall|m: int| 0 <= m < self.names().len() ==> (
                #[trigger] self.names()[m]).1.uid != uid,
            },
    {
        let mut i: usize = 0;
        while i < self.by_path.len()
            invariant
                i <= self.names().len(),
                forall|j: int| 0 <= j < i ==> (#[trigger] self.names()[j]).1.uid != uid,
            decreases self.by_path.len() - i,
        {
            if self.by_path[i].1.uid == uid {
                return Some(i);
            }
            i = i + 1;
        }
        None
    }

    /// Removes the binding the path resolves to and returns its handle.
    /// Both indices forget the actor atomically: removing a unique binding
    /// also clears its named one, and the other way round.
    pub fn remove(&mut self, path: &ActorPath) -> (r: Option<LocalHandle>)
        requires
            old(self).wf(),
        ensures
            final(self).wf(),
            r == old(self).spec_lookup(path@),
            match r {
                None => *final(self) == *old(self),
                Some(h) => {
                    &&& al_find(final(self).uids(), h.uid) == None::<LocalHandle>
                    &&& forall|k: u128| k != h.uid ==> al_find(final(self).uids(), k) == al_find(
                        old(self).uids(),
                        k,
                    )
                    &&& forall|n: Seq<Seq<u8>>| al_find(final(self).names(), n) == (match al_find(
                        old(self).names(),
                        n,
                    ) {
                        Some(g) => if g.uid == h.uid {
                            None
                        } else {
                            Some(g)
                        },
                        None => None::<LocalHandle>,
                    })
                },
            },
    {
        let handle: LocalHandle = match path {
            ActorPath::Unique { uid, .. } => {
                match self.find_uid(*uid) {
                    Some(i) => self.by_uid[i].1,
                    None => {
                        return None;
                    },
                }
            },
            ActorPath::Named { segments, .. } => {
                match self.find_name(segments) {
                    Some(i) => self.by_path[i].1,
                    None => {
                        return None;
                    },
                }
            },
        };
        proof {
            assert(al_find(self.uids(), handle.uid) == Some(handle));
        }
        match self.find_uid(handle.uid) {
            Some(i) => {
                let ghost pre = self.uids();
                self.by_uid.remove(i);
                proof {
                    assert(self.uids() =~= pre.remove(i as int));
                    lemma_al_remove(pre, i as int);
                    pre.remove_ensures(i as int);
                    assert forall|m: int| 0 <= m < self.uids().len() implies (
                    #[trigger] self.uids()[m]).0 == self.uids()[m].1.uid by {
                        let m2 = if m < i as int { m } else { m + 1 };
                        assert(self.uids()[m] == pre[m2]);
                    }
                }
            },
            None => {
                proof {
                    assert(false);
                }
            },
        }
        match self.find_name_by_uid(handle.uid) {
            Some(j) => {
                let ghost pren = self.names();
                let ghost preu = self.uids();
                self.by_path.remove(j);
                proof {
                    assert(self.names() =~= pren.remove(j as int));
                    lemma_al_remove(pren, j as int);
                    pren.remove_ensures(j as int);
                    assert forall|m: int| 0 <= m < self.names().len() implies al_find(
                        self.uids(),
                        (#[trigger] self.names()[m]).1.uid,
                    ) == Some(self.names()[m].1) && self.names()[m].1.uid != handle.uid by {
                        let m2 = if m < j as int { m } else { m + 1 };
                        assert(self.names()[m] == pren[m2]);
                    }
                    assert forall|a: int, b: int|
                        0 <= a < b < self.names().len() implies (#[trigger] self.names()[a]).1.uid
                        != (#[trigger] self.names()[b]).1.uid by {
                        let a2 = if a < j as int { a } else { a + 1 };
                        let b2 = if b < j as int { b } else { b + 1 };
                        assert(self.names()[a] == pren[a2] && self.names()[b] == pren[b2]);
                    }
                    self.lemma_remove_name_frame(pren, j as int, handle.uid);
                }
            },
            None => {
                proof {
                    assert forall|m: int| 0 <= m < self.names().len() implies al_find(
                        self.uids(),
                        (#[trigger] self.names()[m]).1.uid,
                    ) == Some(self.names()[m].1) by {
                        assert(self.names()[m].1.uid != handle.uid);
                    }
                    assert forall|n: Seq<Seq<u8>>| al_find(self.names(), n) == (match al_find(
                        self.names(),
                        n,
                    ) {
                        Some(g) => if g.uid == handle.uid {
                            None
                        } else {
                            Some(g)
                        },
                        None => None::<LocalHandle>,
                    }) by {
                        if al_contains(self.names(), n) {
                            let idx = al_idx(self.names(), n);
                            assert(self.names()[idx].1.uid != handle.uid);
                        }
                    }
                }
            },
        }
        Some(handle)
    }

    /// After removing the one named entry registered to `uid`, every named
    /// lookup answers as before except that entry's key, which is gone.
    proof fn lemma_remove_name_frame(self, pren: Seq<(Seq<Seq<u8>>, LocalHandle)>, j: int, uid: u128)
        requires
            al_unique(pren),
            0 <= j < pren.len(),
            pren[j].1.uid == uid,
            forall|a: int, b: int| 0 <= a < b < pren.len() ==> (#[trigger] pren[a]).1.uid != (
            #[trigger] pren[b]).1.uid,
            self.names() == pren.remove(j),
        ensures
            forall|n: Seq<Seq<u8>>| al_find(self.names(), n) == (match al_find(pren, n) {
                Some(g) => if g.uid == uid {
                    None::<LocalHandle>
                } else {
                    Some(g)
                },
                None => None::<LocalHandle>,
            }),
    {
        lemma_al_remove(pren, j);
        assert forall|n: Seq<Seq<u8>>| al_find(self.names(), n) == (match al_find(pren, n) {
            Some(g) => if g.uid == uid {
                None::<LocalHandle>
            } else {
                Some(g)
            },
            None => None::<LocalHandle>,
        }) by {
            if al_contains(pren, n) {
                let idx = al_idx(pren, n);
                lemma_al_find_some(pren, n, idx);
                if n == pren[j].0 {
                    assert(idx == j);
                } else {
                    assert(idx != j);
                    assert(pren[idx].1.uid != uid);
                }
            }
        }
    }

    /// After pushing a fresh uid binding, the uid index gains exactly that
    /// binding and the named index is untouched.
    proof fn lemma_uid_push(self, pre: ActorLookup, handle: LocalHandle)
        requires
            pre.wf(),
            al_find(pre.uids(), handle.uid) == None::<LocalHandle>,
            self.uids() == pre.uids().push((handle.uid, handle)),
            self.by_path == pre.by_path,
        ensures
            self.wf(),
            al_find(self.uids(), handle.uid) == Some(handle),
            forall|k: u128| k != handle.uid ==> al_find(self.uids(), k) == al_find(pre.uids(), k),
            self.names() == pre.names(),
    {
        let s = pre.uids();
        let t = self.uids();
        assert(!al_contains(s, handle.uid));
        assert(forall|m: int| 0 <= m < s.len() ==> t[m] == s[m]);
        assert(t[s.len() as int] == (handle.uid, handle));
        assert(al_unique(t));
        lemma_al_find_some(t, handle.uid, s.len() as int);
        assert forall|k: u128| k != handle.uid implies al_find(t, k) == al_find(s, k) by {
            if al_contains(s, k) {
                let j = al_idx(s, k);
                lemma_al_find_some(s, k, j);
                lemma_al_find_some(t, k, j);
            } else {
                lemma_al_find_none(s, k);
                assert(forall|m: int| 0 <= m < t.len() ==> (#[trigger] t[m]).0 != k);
                lemma_al_find_none(t, k);
            }
        }
        assert(self.names() =~= pre.names());
        assert forall|i: int| 0 <= i < self.names().len() implies al_find(
            self.uids(),
            (#[trigger] self.names()[i]).1.uid,
        ) == Some(self.names()[i].1) by {
            assert(al_find(s, self.names()[i].1.uid) == Some(self.names()[i].1));
            assert(al_contains(s, self.names()[i].1.uid));
            assert(self.names()[i].1.uid != handle.uid);
        }
    }

    /// After pushing a fresh named binding whose handle was just added to
    /// the uid index, the whole registry is well formed again.
    proof fn lemma_name_push(self, mid: ActorLookup, segs: Seq<Seq<u8>>, handle: LocalHandle)
        requires
            mid.wf(),
            al_find(mid.names(), segs) == None::<LocalHandle>,
            al_find(mid.uids(), handle.uid) == Some(handle),
            forall|i: int| 0 <= i < mid.names().len() ==> (#[trigger] mid.names()[i]).1.uid
                != handle.uid,
            self.names() == mid.names().push((segs, handle)),
            self.by_uid == mid.by_uid,
        ensures
            self.wf(),
            al_find(self.names(), segs) == Some(handle),
            forall|n: Seq<Seq<u8>>| n != segs ==> al_find(self.names(), n) == al_find(
                mid.names(),
                n,
            ),
            self.uids() == mid.uids(),
    {
        let s = mid.names();
        let t = self.names();
        assert(!al_contains(s, segs));
        assert(forall|m: int| 0 <= m < s.len() ==> t[m] == s[m]);
        assert(t[s.len() as int] == (segs, handle));
        assert(al_unique(t));
        lemma_al_find_some(t, segs, s.len() as int);
        assert forall|n: Seq<Seq<u8>>| n != segs implies al_find(t, n) == al_find(s, n) by {
            if al_contains(s, n) {
                let j = al_idx(s, n);
                lemma_al_find_some(s, n, j);
                lemma_al_find_some(t, n, j);
            } else {
                lemma_al_find_none(s, n);
                assert(forall|m: int| 0 <= m < t.len() ==> (#[trigger] t[m]).0 != n);
                lemma_al_find_none(t, n);
            }
        }
    }
}

} // verus!
