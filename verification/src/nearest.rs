//! Which surface a ray meets first. Distances come as keys: unsigned numbers
//! that order as the distances they stand for, so that the nearer of two hits
//! is the one with the smaller key.

use vstd::prelude::*;
use crate::scene::Cell;
use crate::surface::HitClass;

verus! {

/// A sphere that the ray meets, with the key of the distance at which it does.
#[derive(Clone, Copy, Debug, PartialEq, Eq, Structural)]
pub struct Candidate {
    pub cell: Cell,
    pub key: u32,
}

/// The nearest hit found so far.
#[derive(Clone, Copy, Debug, PartialEq, Eq, Structural)]
pub enum Nearest {
    /// Nothing yet; only a hit with a key below `limit` counts.
    Sky { limit: u32 },
    /// The ground plane, at the distance of `key`.
    Ground { key: u32 },
    /// The sphere of `cell`, at the distance of `key`.
    Sphere { key: u32, cell: Cell },
}

/// Position `w` holds the least key of all, and is the first that does.
pub open spec fn first_least(offers: Seq<Candidate>, w: int) -> bool {
    &&& 0 <= w < offers.len()
    &&& forall|j: int| 0 <= j < offers.len() ==> offers[w].key <= (#[trigger] offers[j]).key
    &&& forall|j: int| 0 <= j < w ==> offers[w].key < (#[trigger] offers[j]).key
}

impl Nearest {
    /// The key that a candidate must stay below to become the nearest hit.
    pub open spec fn bound(self) -> u32 {
        match self {
            Nearest::Sky { limit } => limit,
            Nearest::Ground { key } => key,
            Nearest::Sphere { key, cell } => key,
        }
    }

    /// What kind of surface this is.
    pub open spec fn class_of(self) -> HitClass {
        match self {
            Nearest::Sky { limit } => HitClass::Sky,
            Nearest::Ground { key } => HitClass::Ground,
            Nearest::Sphere { key, cell } => HitClass::Sphere,
        }
    }

    /// The nearest hit once one more sphere has been looked at: the sphere
    /// where it is strictly nearer, else what it was.
    pub open spec fn offered(self, candidate: Candidate) -> Nearest {
        if candidate.key < self.bound() {
            Nearest::Sphere { key: candidate.key, cell: candidate.cell }
        } else {
            self
        }
    }

    /// The nearest hit once all of `offers` have been looked at, in order.
    pub open spec fn after(self, offers: Seq<Candidate>) -> Nearest
        decreases offers.len(),
    {
        if offers.len() == 0 {
            self
        } else {
            self.after(offers.drop_last()).offered(offers.last())
        }
    }

    /// The key of the nearest hit, or the limit where there is none.
    pub fn key(&self) -> (key: u32)
        ensures
            key == self.bound(),
    {
        match self {
            Nearest::Sky { limit } => *limit,
            Nearest::Ground { key } => *key,
            Nearest::Sphere { key, cell } => *key,
        }
    }

    /// The kind of surface that was hit.
    pub fn class(&self) -> (class: HitClass)
        ensures
            class == self.class_of(),
    {
        match self {
            Nearest::Sky { limit } => HitClass::Sky,
            Nearest::Ground { key } => HitClass::Ground,
            Nearest::Sphere { key, cell } => HitClass::Sphere,
        }
    }

    /// Looks at one more sphere. It becomes the nearest hit where its key is
    /// strictly below the one held; the result says whether it did.
    pub fn offer(&mut self, candidate: Candidate) -> (accepted: bool)
        ensures
            *final(self) == old(self).offered(candidate),
            accepted == (candidate.key < old(self).bound()),
    {
        if candidate.key < self.key() {
            *self = Nearest::Sphere { key: candidate.key, cell: candidate.cell };
            true
        } else {
            false
        }
    }
}

/// The nearest hit among `start` and all of `offers`: every candidate is
/// looked at, in order, and of several equally near the first one wins.
pub fn nearest(start: Nearest, offers: &Vec<Candidate>) -> (end: Nearest)
    ensures
        end == start.after(offers@),
{
    let mut best = start;
    let mut i: usize = 0;
    while i < offers.len()
        invariant
            i <= offers.len(),
            best == start.after(offers@.take(i as int)),
        decreases offers.len() - i,
    {
        proof {
            assert(offers@.take(i + 1).drop_last() =~= offers@.take(i as int));
        }
        best.offer(offers[i]);
        i += 1;
    }
    assert(offers@.take(offers.len() as int) =~= offers@);
    best
}

/// Where no candidate is strictly nearer than the start, the start stands:
/// the ground at its own distance, or the sky.
pub proof fn lemma_start_stands(start: Nearest, offers: Seq<Candidate>)
    requires
        forall|i: int| 0 <= i < offers.len() ==> (#[trigger] offers[i]).key >= start.bound(),
    ensures
        start.after(offers) == start,
    decreases offers.len(),
{
    if offers.len() > 0 {
        let rest = offers.drop_last();
        assert forall|i: int| 0 <= i < rest.len() implies (#[trigger] rest[i]).key
            >= start.bound() by {
            assert(rest[i] == offers[i]);
        }
        lemma_start_stands(start, rest);
        assert(offers.last() == offers[offers.len() - 1]);
    }
}

/// Where some candidate is strictly nearer than the start, the nearest hit is
/// a sphere: the first of the candidates with the least key.
pub proof fn lemma_nearest_candidate_wins(start: Nearest, offers: Seq<Candidate>) -> (w: int)
    requires
        exists|i: int| 0 <= i < offers.len() && (#[trigger] offers[i]).key < start.bound(),
    ensures
        first_least(offers, w),
        offers[w].key < start.bound(),
        start.after(offers) == (Nearest::Sphere { key: offers[w].key, cell: offers[w].cell }),
    decreases offers.len(),
{
    let rest = offers.drop_last();
    let last = offers.last();
    assert(forall|j: int| 0 <= j < rest.len() ==> rest[j] == offers[j]);
    if exists|i: int| 0 <= i < rest.len() && (#[trigger] rest[i]).key < start.bound() {
        let v = lemma_nearest_candidate_wins(start, rest);
        if last.key < rest[v].key {
            offers.len() - 1
        } else {
            v
        }
    } else {
        lemma_start_stands(start, rest);
        let i = choose|i: int| 0 <= i < offers.len() && (#[trigger] offers[i]).key < start.bound();
        assert(i == offers.len() - 1) by {
            if i < offers.len() - 1 {
                assert(rest[i].key < start.bound());
            }
        }
        offers.len() - 1
    }
}

/// The key never rises: the nearest hit is no farther than the start and no
/// farther than any candidate.
pub proof fn lemma_nothing_is_nearer(start: Nearest, offers: Seq<Candidate>)
    ensures
        start.after(offers).bound() <= start.bound(),
        forall|i: int|
            0 <= i < offers.len() ==> start.after(offers).bound() <= (#[trigger] offers[i]).key,
    decreases offers.len(),
{
    if offers.len() > 0 {
        let rest = offers.drop_last();
        lemma_nothing_is_nearer(start, rest);
        assert forall|i: int| 0 <= i < offers.len() implies start.after(offers).bound() <= (
        #[trigger] offers[i]).key by {
            if i < rest.len() {
                assert(rest[i] == offers[i]);
            }
        }
    }
}

} // verus!
