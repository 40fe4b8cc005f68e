//! The registry of tracked entities and the steps that make up a tick.
//!
//! A tick handles the candidates of one frame in the order in which the
//! detector gave them, then ends. The registry decides, the caller works on
//! the frame: for each candidate the caller calls `associate`, which either
//! settles the candidate or says what it needs. For `Association::Create`
//! the caller cuts the candidate's signature out of the frame and hands it
//! to `create`. For `Association::Reidentify` it also scores the signature
//! against that of every entity and hands the scores to `reidentify`.
//! `end_tick` then ages what was not matched and names the overlays to draw.

use vstd::prelude::*;
use crate::entity::{Entity, EntityView};
use crate::geometry::{
    dist2, distance_squared, ghost_window, ghost_window_of, patch_window, signature_window,
    within_reach, Rect, DISTANCE_THRESHOLD,
};
use crate::ranking::{best, is_best, most_similar};
use crate::signature::Signature;

verus! {

/// Entities that the registry holds before it stops creating new ones.
pub const CAPACITY: usize = 5;

/// Whether entity `i` is the one to which a candidate at `p` is matched by
/// position: it is within reach of `p`, no entity is nearer, and every
/// entity before it is farther away.
pub open spec fn is_neighbor(s: Seq<EntityView>, p: (i32, i32), i: int) -> bool {
    &&& 0 <= i < s.len()
    &&& within_reach(s[i].coordinate, p)
    &&& forall|j: int| 0 <= j < s.len() ==> dist2(s[i].coordinate, p) <= dist2(s[j].coordinate, p)
    &&& forall|j: int| 0 <= j < i ==> dist2(s[i].coordinate, p) < dist2(s[j].coordinate, p)
}

/// Whether no entity is within reach of a candidate at `p`.
pub open spec fn out_of_reach(s: Seq<EntityView>, p: (i32, i32)) -> bool {
    forall|j: int| 0 <= j < s.len() ==> !within_reach(#[trigger] s[j].coordinate, p)
}

/// The entity matched by position to a candidate at `p`, if there is one.
/// There is at most one (`lemma_neighbor_unique`), so this is the entity of
/// which `is_neighbor` holds.
pub open spec fn neighbor(s: Seq<EntityView>, p: (i32, i32)) -> Option<int> {
    if exists|i: int| is_neighbor(s, p, i) {
        Some(choose|i: int| is_neighbor(s, p, i))
    } else {
        None
    }
}

/// What `associate` did with a candidate, or what is to be done for it.
#[derive(Clone, Copy, Debug, PartialEq, Eq)]
pub enum Association {
    /// The entity at this place was within reach and fresh: it was refreshed.
    Refreshed(usize),
    /// The entity at this place was within reach but had gone unseen for too
    /// long: the candidate is dropped and nothing changed.
    Dormant(usize),
    /// No entity was within reach, and the candidate is so close to the edge
    /// of the frame that it has no signature: it is dropped and nothing
    /// changed.
    Skipped,
    /// No entity was within reach and the registry has room: the candidate's
    /// signature is to be cut from this window and handed to `create`.
    Create(Rect),
    /// No entity was within reach and the registry is full: the candidate's
    /// signature is to be cut from this window and scored against that of
    /// every entity, and the scores handed to `reidentify`.
    Reidentify(Rect),
}

/// The outcome that `associate` reports for a candidate at `p` in a frame of
/// `frame_width` by `frame_height` pixels.
pub open spec fn association(
    s: Seq<EntityView>,
    p: (i32, i32),
    frame_width: i32,
    frame_height: i32,
) -> Association {
    match neighbor(s, p) {
        Some(i) => if s[i].fresh() {
            Association::Refreshed(i as usize)
        } else {
            Association::Dormant(i as usize)
        },
        None => match patch_window(p, frame_width, frame_height) {
            None => Association::Skipped,
            Some(window) => if s.len() < CAPACITY {
                Association::Create(window)
            } else {
                Association::Reidentify(window)
            },
        },
    }
}

/// A ghost to draw: the place of a stale entity, and the window of the frame
/// into which its signature is to be drawn. An entity so close to the edge
/// of the frame that the window would leave it has none.
#[derive(Clone, Copy, Debug, PartialEq, Eq)]
pub struct Overlay {
    pub place: usize,
    pub window: Option<Rect>,
}

/// Whether `overlays` names the ghosts to draw for the entities `s` in a
/// frame of `frame_width` by `frame_height` pixels: every overlay is that of
/// a stale entity, with the window of that entity; the places rise; and
/// every stale entity has its overlay.
pub open spec fn names_ghosts(
    overlays: Seq<Overlay>,
    s: Seq<EntityView>,
    frame_width: i32,
    frame_height: i32,
) -> bool {
    &&& forall|g: int|
        0 <= g < overlays.len() ==> overlays[g].place < s.len()
            && s[overlays[g].place as int].stale() && overlays[g].window == ghost_window_of(
            s[overlays[g].place as int].coordinate,
            frame_width,
            frame_height,
        )
    &&& forall|g: int, h: int| 0 <= g < h < overlays.len() ==> overlays[g].place < overlays[h].place
    &&& forall|i: int|
        0 <= i < s.len() && s[i].stale() ==> exists|g: int|
            0 <= g < overlays.len() && overlays[g].place == i
}

/// The entities after `associate` has handled a candidate at `p`.
pub open spec fn after_sighting(s: Seq<EntityView>, p: (i32, i32)) -> Seq<EntityView> {
    match neighbor(s, p) {
        Some(i) => if s[i].fresh() {
            s.update(i, s[i].refreshed(p))
        } else {
            s
        },
        None => s,
    }
}

/// Whether a candidate at `p` gets an entity of its own: none is within
/// reach and the registry has room.
pub open spec fn admits(s: Seq<EntityView>, p: (i32, i32)) -> bool {
    neighbor(s, p) is None && s.len() < CAPACITY
}

/// The entities after `create` has handled a candidate at `p`.
pub open spec fn after_creation(s: Seq<EntityView>, p: (i32, i32), signature: Seq<u8>) -> Seq<
    EntityView,
> {
    if admits(s, p) {
        s.push(EntityView::created(p, signature))
    } else {
        s
    }
}

/// Whether a candidate at `p` is matched by similarity: no entity is within
/// reach, the registry is full, and there is one score for each entity.
pub open spec fn recalls(s: Seq<EntityView>, p: (i32, i32), scores: Seq<i64>) -> bool {
    neighbor(s, p) is None && s.len() >= CAPACITY && scores.len() == s.len()
}

/// The entities after `reidentify` has handled a candidate at `p`.
pub open spec fn after_reidentification(
    s: Seq<EntityView>,
    p: (i32, i32),
    scores: Seq<i64>,
) -> Seq<EntityView> {
    if recalls(s, p, scores) {
        s.update(best(scores), s[best(scores)].refreshed(p))
    } else {
        s
    }
}

/// The entities as the next tick finds them: those that depart are gone, the
/// others have aged, and their order is kept. `lemma_tick_by_entity` says
/// the same entity by entity.
pub open spec fn after_tick(s: Seq<EntityView>) -> Seq<EntityView> {
    s.filter(|e: EntityView| !e.departs()).map_values(|e: EntityView| e.aged())
}

/// The end of a tick, entity by entity: an empty registry stays empty, and
/// the last entity either leaves or follows the others, aged.
pub proof fn lemma_tick_by_entity(s: Seq<EntityView>, e: EntityView)
    ensures
        after_tick(Seq::<EntityView>::empty()) == Seq::<EntityView>::empty(),
        after_tick(s.push(e)) == if e.departs() {
            after_tick(s)
        } else {
            after_tick(s).push(e.aged())
        },
{
    let stays = |x: EntityView| !x.departs();
    let ages = |x: EntityView| x.aged();
    assert(Seq::<EntityView>::empty().filter(stays) =~= Seq::<EntityView>::empty()) by {
        reveal(Seq::filter);
    }
    assert(after_tick(Seq::<EntityView>::empty()) =~= Seq::<EntityView>::empty());
    s.lemma_filter_push(e, stays);
    if !e.departs() {
        assert(s.filter(stays).push(e).map_values(ages) =~= s.filter(stays).map_values(ages).push(
            e.aged(),
        ));
    }
}

/// Where no entity departs, the end of a tick keeps every entity in its
/// place, aged. Where every entity departs, it leaves none.
pub proof fn lemma_tick_of_like_entities(s: Seq<EntityView>)
    ensures
        (forall|i: int| 0 <= i < s.len() ==> !(#[trigger] s[i]).departs()) ==> after_tick(s)
            == s.map_values(|e: EntityView| e.aged()),
        (forall|i: int| 0 <= i < s.len() ==> (#[trigger] s[i]).departs()) ==> after_tick(s)
            == Seq::<EntityView>::empty(),
    decreases s.len(),
{
    if s.len() == 0 {
        lemma_tick_by_entity(s, arbitrary());
        assert(s =~= Seq::<EntityView>::empty());
        assert(s.map_values(|e: EntityView| e.aged()) =~= Seq::<EntityView>::empty());
    } else {
        let front = s.drop_last();
        let last = s.last();
        assert(s =~= front.push(last));
        lemma_tick_by_entity(front, last);
        lemma_tick_of_like_entities(front);
        if forall|i: int| 0 <= i < s.len() ==> !(#[trigger] s[i]).departs() {
            assert forall|i: int| 0 <= i < front.len() implies !(#[trigger] front[i]).departs() by {
                assert(front[i] == s[i]);
            }
            assert(s.map_values(|e: EntityView| e.aged()) =~= front.map_values(
                |e: EntityView| e.aged(),
            ).push(last.aged()));
        }
        if forall|i: int| 0 <= i < s.len() ==> (#[trigger] s[i]).departs() {
            assert forall|i: int| 0 <= i < front.len() implies (#[trigger] front[i]).departs() by {
                assert(front[i] == s[i]);
            }
        }
    }
}

/// At most one entity is matched by position to a candidate.
pub proof fn lemma_neighbor_unique(s: Seq<EntityView>, p: (i32, i32), i: int, j: int)
    requires
        is_neighbor(s, p, i),
        is_neighbor(s, p, j),
    ensures
        i == j,
{
    if i < j {
        assert(dist2(s[j].coordinate, p) < dist2(s[i].coordinate, p));
        assert(dist2(s[i].coordinate, p) <= dist2(s[j].coordinate, p));
    } else if j < i {
        assert(dist2(s[i].coordinate, p) < dist2(s[j].coordinate, p));
        assert(dist2(s[j].coordinate, p) <= dist2(s[i].coordinate, p));
    }
}

/// What a list of entities holds, as plain values.
pub open spec fn views(entities: Seq<Entity>) -> Seq<EntityView> {
    Seq::new(entities.len(), |i: int| entities[i]@)
}

/// The tracked entities, in the order in which they were created.
pub struct Registry {
    entities: Vec<Entity>,
}

impl View for Registry {
    type V = Seq<EntityView>;

    closed spec fn view(&self) -> Seq<EntityView> {
        views(self.entities@)
    }
}

impl Registry {
    #[verifier::type_invariant]
    spec fn bounded(&self) -> bool {
        self.entities@.len() <= CAPACITY
    }

    /// An empty registry.
    pub fn new() -> (registry: Registry)
        ensures
            registry@ == Seq::<EntityView>::empty(),
    {
        let registry = Registry { entities: Vec::new() };
        assert(registry@ =~= Seq::<EntityView>::empty());
        registry
    }

    /// How many entities are tracked. There are never more than `CAPACITY`.
    pub fn len(&self) -> (n: usize)
        ensures
            n == self@.len(),
            n <= CAPACITY,
    {
        proof {
            use_type_invariant(self);
        }
        self.entities.len()
    }

    /// Whether the registry has stopped creating entities.
    pub fn is_full(&self) -> (full: bool)
        ensures
            full == (self@.len() >= CAPACITY),
    {
        self.entities.len() >= CAPACITY
    }

    /// The entity at place `i`, if there is one.
    pub fn get(&self, i: usize) -> (entity: Option<&Entity>)
        ensures
            entity is Some <==> i < self@.len(),
            entity matches Some(e) ==> e@ == self@[i as int],
    {
        if i < self.entities.len() {
            Some(&self.entities[i])
        } else {
            None
        }
    }

    /// Finds the entity to which a candidate at `p` is matched by position:
    /// the nearest one, the first of several equally near, provided that it is
    /// at most `DISTANCE_THRESHOLD` pixels away.
    pub fn nearest(&self, p: (i32, i32)) -> (found: Option<usize>)
        ensures
            found matches Some(i) ==> neighbor(self@, p) == Some(i as int) && is_neighbor(
                self@,
                p,
                i as int,
            ),
            found is None ==> neighbor(self@, p) is None && out_of_reach(self@, p),
    {
        let n = self.entities.len();
        if n == 0 {
            return None;
        }
        let mut at: usize = 0;
        let mut least: i128 = distance_squared(self.entities[0].coordinate(), p);
        let mut k: usize = 1;
        while k < n
            invariant
                0 <= at < k <= n,
                n == self.entities@.len(),
                least == dist2(self@[at as int].coordinate, p),
                forall|j: int| 0 <= j < k ==> least <= dist2(self@[j].coordinate, p),
                forall|j: int| 0 <= j < at ==> least < dist2(self@[j].coordinate, p),
            decreases n - k,
        {
            let d = distance_squared(self.entities[k].coordinate(), p);
            if d < least {
                at = k;
                least = d;
            }
            k += 1;
        }
        let reach: i128 = DISTANCE_THRESHOLD as i128 * DISTANCE_THRESHOLD as i128;
        if least <= reach {
            proof {
                assert(is_neighbor(self@, p, at as int));
                lemma_neighbor_unique(self@, p, at as int, choose|i: int| is_neighbor(self@, p, i));
            }
            Some(at)
        } else {
            proof {
                assert forall|i: int| 0 <= i < self@.len() implies !within_reach(
                    #[trigger] self@[i].coordinate,
                    p,
                ) by {
                    assert(least <= dist2(self@[i].coordinate, p));
                }
            }
            None
        }
    }

    /// Handles a candidate at `p`, found in a frame of `frame_width` by
    /// `frame_height` pixels. If an entity is within reach, the nearest one
    /// claims the candidate, and is refreshed if it is still fresh. Otherwise
    /// nothing changes, and the outcome says what the candidate needs.
    pub fn associate(&mut self, p: (i32, i32), frame_width: i32, frame_height: i32) -> (outcome:
        Association)
        ensures
            final(self)@ == after_sighting(old(self)@, p),
            outcome == association(old(self)@, p, frame_width, frame_height),
            match outcome {
                Association::Refreshed(i) | Association::Dormant(i) => is_neighbor(
                    old(self)@,
                    p,
                    i as int,
                ),
                _ => out_of_reach(old(self)@, p),
            },
    {
        proof {
            use_type_invariant(&*self);
        }
        match self.nearest(p) {
            Some(i) => {
                if self.entities[i].is_fresh() {
                    self.entities[i].refresh(p);
                    assert(self@ =~= old(self)@.update(i as int, old(self)@[i as int].refreshed(p)));
                    Association::Refreshed(i)
                } else {
                    Association::Dormant(i)
                }
            },
            None => match signature_window(p, frame_width, frame_height) {
                None => Association::Skipped,
                Some(window) => if self.entities.len() < CAPACITY {
                    Association::Create(window)
                } else {
                    Association::Reidentify(window)
                },
            },
        }
    }

    /// Gives a candidate at `p` an entity of its own, with `signature` as its
    /// patch, if no entity is within reach of `p` and the registry has room.
    /// Returns the place of the new entity. Otherwise nothing changes.
    pub fn create(&mut self, p: (i32, i32), signature: Signature) -> (place: Option<usize>)
        ensures
            final(self)@ == after_creation(old(self)@, p, signature@),
            place == if admits(old(self)@, p) {
                Some(old(self)@.len() as usize)
            } else {
                None
            },
            place is Some <==> out_of_reach(old(self)@, p) && old(self)@.len() < CAPACITY,
    {
        proof {
            use_type_invariant(&*self);
        }
        let near = self.nearest(p);
        if self.entities.len() < CAPACITY && near.is_none() {
            let mut entities: Vec<Entity> = Vec::new();
            std::mem::swap(&mut self.entities, &mut entities);
            let place = entities.len();
            entities.push(Entity::new(p, signature));
            self.entities = entities;
            assert(self@ =~= old(self)@.push(EntityView::created(p, signature@)));
            Some(place)
        } else {
            None
        }
    }

    /// Matches a candidate at `p` by similarity, if no entity is within reach
    /// of `p`, the registry is full and `scores` holds one score for each
    /// entity, in the registry's order. The entity with the best score, the
    /// last of several equally good, is refreshed however long it has gone
    /// unseen, and its place is returned. Otherwise nothing changes.
    pub fn reidentify(&mut self, p: (i32, i32), scores: &Vec<i64>) -> (place: Option<usize>)
        ensures
            final(self)@ == after_reidentification(old(self)@, p, scores@),
            place == if recalls(old(self)@, p, scores@) {
                Some(best(scores@) as usize)
            } else {
                None
            },
            place is Some <==> out_of_reach(old(self)@, p) && old(self)@.len() >= CAPACITY
                && scores@.len() == old(self)@.len(),
            place matches Some(i) ==> is_best(scores@, i as int),
    {
        proof {
            use_type_invariant(&*self);
        }
        if self.entities.len() < CAPACITY || scores.len() != self.entities.len() {
            return None;
        }
        if self.nearest(p).is_some() {
            return None;
        }
        match most_similar(scores) {
            Some(i) => {
                self.entities[i].refresh(p);
                assert(self@ =~= old(self)@.update(i as int, old(self)@[i as int].refreshed(p)));
                Some(i)
            },
            None => None,
        }
    }

    /// Names the ghosts to draw into a frame of `frame_width` by
    /// `frame_height` pixels: one for each stale entity, in the registry's
    /// order.
    pub fn overlays(&self, frame_width: i32, frame_height: i32) -> (overlays: Vec<Overlay>)
        ensures
            names_ghosts(overlays@, self@, frame_width, frame_height),
            overlays@.len() <= self@.len(),
            (forall|i: int| 0 <= i < self@.len() ==> !(#[trigger] self@[i]).stale())
                ==> overlays@.len() == 0,
    {
        let mut overlays: Vec<Overlay> = Vec::new();
        let mut i: usize = 0;
        while i < self.entities.len()
            invariant
                i <= self.entities@.len(),
                overlays@.len() <= i,
                forall|g: int|
                    0 <= g < overlays@.len() ==> overlays@[g].place < i
                        && self@[overlays@[g].place as int].stale() && overlays@[g].window
                        == ghost_window_of(
                        self@[overlays@[g].place as int].coordinate,
                        frame_width,
                        frame_height,
                    ),
                forall|g: int, h: int|
                    0 <= g < h < overlays@.len() ==> overlays@[g].place < overlays@[h].place,
                forall|j: int|
                    0 <= j < i && self@[j].stale() ==> exists|g: int|
                        0 <= g < overlays@.len() && overlays@[g].place == j,
            decreases self.entities@.len() - i,
        {
            if self.entities[i].is_stale() {
                let ghost listed = overlays@;
                let window = ghost_window(self.entities[i].coordinate(), frame_width, frame_height);
                overlays.push(Overlay { place: i, window });
                proof {
                    assert forall|j: int| 0 <= j < i + 1 && self@[j].stale() implies exists|g: int|
                        0 <= g < overlays@.len() && overlays@[g].place == j by {
                        if j < i {
                            let g = choose|g: int| 0 <= g < listed.len() && listed[g].place == j;
                            assert(overlays@[g].place == j);
                        } else {
                            assert(overlays@[listed.len() as int].place == i);
                        }
                    }
                }
            }
            i += 1;
        }
        proof {
            if overlays@.len() > 0 {
                assert(self@[overlays@[0].place as int].stale());
            }
        }
        overlays
    }

    /// Ends the tick of a frame of `frame_width` by `frame_height` pixels.
    /// Every entity that was neither created nor refreshed in the tick has
    /// gone unseen for one more tick, unless it is a landmark already; those
    /// that have timed out without ever being confirmed leave. The others
    /// keep their order, and all start the next tick unmatched.
    ///
    /// Returns the ghosts to draw: one for each stale entity of the registry
    /// as it now is, in the registry's order.
    ///
    /// The clauses after the first two add nothing to them. They spell out
    /// the plainest cases: there are no more ghosts than entities, and none
    /// where no entity is stale; where no entity departs all stay in their
    /// places, and where all depart none is left.
    pub fn end_tick(&mut self, frame_width: i32, frame_height: i32) -> (overlays: Vec<Overlay>)
        ensures
            final(self)@ == after_tick(old(self)@),
            names_ghosts(overlays@, final(self)@, frame_width, frame_height),
            overlays@.len() <= final(self)@.len(),
            (forall|i: int| 0 <= i < final(self)@.len() ==> !(#[trigger] final(self)@[i]).stale())
                ==> overlays@.len() == 0,
            (forall|i: int| 0 <= i < old(self)@.len() ==> !(#[trigger] old(self)@[i]).departs())
                ==> final(self)@ == old(self)@.map_values(|e: EntityView| e.aged()),
            (forall|i: int| 0 <= i < old(self)@.len() ==> (#[trigger] old(self)@[i]).departs())
                ==> final(self)@ == Seq::<EntityView>::empty(),
    {
        proof {
            use_type_invariant(&*self);
            lemma_tick_of_like_entities(self@);
        }
        let mut entities: Vec<Entity> = Vec::new();
        std::mem::swap(&mut self.entities, &mut entities);
        sweep(&mut entities);
        self.entities = entities;
        self.overlays(frame_width, frame_height)
    }
}

/// Ends the tick for a list of entities: removes those that depart and ages
/// the others, in their order.
fn sweep(entities: &mut Vec<Entity>)
    ensures
        views(final(entities)@) == after_tick(views(old(entities)@)),
        final(entities)@.len() <= old(entities)@.len(),
{
    let ghost before = views(entities@);
    // The entities before place `i` are done. They are what is left of the
    // first `k` that there were.
    let mut i: usize = 0;
    let ghost mut k: int = 0;
    proof {
        lemma_tick_by_entity(before, arbitrary());
        assert(before.take(0) =~= Seq::<EntityView>::empty());
        assert(views(entities@).take(0) =~= after_tick(before.take(0)));
        assert(views(entities@).skip(0) =~= before.skip(0));
    }
    while i < entities.len()
        invariant
            0 <= k <= before.len(),
            i <= entities@.len(),
            entities@.len() - i == before.len() - k,
            before.len() == old(entities)@.len(),
            views(entities@).take(i as int) == after_tick(before.take(k)),
            views(entities@).skip(i as int) == before.skip(k),
        decreases entities@.len() - i,
    {
        let ghost here = views(entities@);
        let ghost current = before[k];
        proof {
            assert(here.skip(i as int)[0] == before.skip(k)[0]);
            assert(before.take(k + 1) =~= before.take(k).push(current));
            lemma_tick_by_entity(before.take(k), current);
            assert(before.skip(k + 1) =~= before.skip(k).skip(1));
        }
        if entities[i].departs() {
            entities.remove(i);
            proof {
                assert(views(entities@).take(i as int) =~= here.take(i as int));
                assert(views(entities@).skip(i as int) =~= here.skip(i as int).skip(1));
            }
        } else {
            entities[i].age();
            proof {
                assert(views(entities@).take(i + 1) =~= here.take(i as int).push(current.aged()));
                assert(views(entities@).skip(i + 1) =~= here.skip(i as int).skip(1));
            }
            i += 1;
        }
        proof {
            k = k + 1;
        }
    }
    proof {
        assert(views(entities@).take(i as int) =~= views(entities@));
        assert(before.take(k) =~= before);
    }
}

} // verus!
