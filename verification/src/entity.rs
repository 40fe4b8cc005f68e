//! A tracked entity and the rules by which it is refreshed and ages.

use vstd::prelude::*;
use crate::signature::Signature;

verus! {

/// A spatial match refreshes an entity only while it has gone unseen for
/// fewer ticks than this.
pub const REFRESH_WINDOW: u32 = 5;

/// An entity unseen for more ticks than this has timed out.
pub const STALE_AFTER: u32 = 5;

/// Sightings from which an entity counts as confirmed. A confirmed entity
/// that has timed out stays as a ghost; an unconfirmed one leaves.
pub const CONFIRMED_SIGHTINGS: u32 = 4;

/// A confirmed entity unseen for more ticks than this is a landmark: it
/// stays, its counter stands still and it casts no ghost.
pub const LANDMARK_AFTER: u32 = 666;

/// A tracked marker: where it was last seen, for how many ticks it has gone
/// unseen, how often it was matched, and the patch by which it is known.
pub struct Entity {
    coordinate: (i32, i32),
    ticks_since_seen: u32,
    sightings: u32,
    signature: Signature,
    matched: bool,
}

/// What an entity holds, as plain values.
pub struct EntityView {
    /// Last known position in the image.
    pub coordinate: (i32, i32),
    /// Ticks that have ended since the entity was last matched.
    pub ticks_since_seen: u32,
    /// Candidates matched to the entity since it was created.
    pub sightings: u32,
    /// The patch taken when the entity was created.
    pub signature: Seq<u8>,
    /// Whether the entity was created or refreshed in the tick under way.
    pub matched: bool,
}

impl EntityView {
    /// A newly created entity at `coordinate`.
    pub open spec fn created(coordinate: (i32, i32), signature: Seq<u8>) -> EntityView {
        EntityView { coordinate, ticks_since_seen: 0, sightings: 0, signature, matched: true }
    }

    /// The sightings after one more match. The count stops at `u32::MAX`.
    pub open spec fn next_sightings(self) -> u32 {
        if self.sightings < u32::MAX {
            (self.sightings + 1) as u32
        } else {
            self.sightings
        }
    }

    /// The entity after a candidate at `coordinate` was matched to it.
    pub open spec fn refreshed(self, coordinate: (i32, i32)) -> EntityView {
        EntityView {
            coordinate,
            ticks_since_seen: 0,
            sightings: self.next_sightings(),
            signature: self.signature,
            matched: true,
        }
    }

    /// Whether a candidate close by may still refresh the entity.
    pub open spec fn fresh(self) -> bool {
        self.ticks_since_seen < REFRESH_WINDOW
    }

    /// The counter at the end of the tick under way: untouched if the entity
    /// was matched or is a landmark, one more otherwise.
    pub open spec fn next_ticks(self) -> u32 {
        if self.matched || self.ticks_since_seen > LANDMARK_AFTER {
            self.ticks_since_seen
        } else {
            (self.ticks_since_seen + 1) as u32
        }
    }

    /// Whether the entity leaves the registry at the end of the tick under
    /// way: it was not matched, has timed out and was never confirmed.
    pub open spec fn departs(self) -> bool {
        !self.matched && self.next_ticks() > STALE_AFTER && self.sightings < CONFIRMED_SIGHTINGS
    }

    /// The entity as the next tick finds it.
    pub open spec fn aged(self) -> EntityView {
        EntityView {
            coordinate: self.coordinate,
            ticks_since_seen: self.next_ticks(),
            sightings: self.sightings,
            signature: self.signature,
            matched: false,
        }
    }

    /// Whether the entity is a ghost: confirmed, timed out, and not yet a
    /// landmark.
    pub open spec fn stale(self) -> bool {
        STALE_AFTER < self.ticks_since_seen <= LANDMARK_AFTER && self.sightings
            >= CONFIRMED_SIGHTINGS
    }
}

impl View for Entity {
    type V = EntityView;

    closed spec fn view(&self) -> EntityView {
        EntityView {
            coordinate: self.coordinate,
            ticks_since_seen: self.ticks_since_seen,
            sightings: self.sightings,
            signature: self.signature@,
            matched: self.matched,
        }
    }
}

impl Entity {
    /// Creates an entity for a candidate that matched none. It counts as
    /// seen in the tick under way, with no sighting yet.
    pub fn new(coordinate: (i32, i32), signature: Signature) -> (entity: Entity)
        ensures
            entity@ == EntityView::created(coordinate, signature@),
    {
        Entity { coordinate, ticks_since_seen: 0, sightings: 0, signature, matched: true }
    }

    /// Records that a candidate at `coordinate` was matched to the entity:
    /// it moves there, its counter starts again and it has one more sighting.
    pub fn refresh(&mut self, coordinate: (i32, i32))
        ensures
            final(self)@ == old(self)@.refreshed(coordinate),
    {
        self.coordinate = coordinate;
        self.ticks_since_seen = 0;
        if self.sightings < u32::MAX {
            self.sightings = self.sightings + 1;
        }
        self.matched = true;
    }

    /// Ends the tick for an entity that stays in the registry.
    pub fn age(&mut self)
        ensures
            final(self)@ == old(self)@.aged(),
    {
        if !self.matched && self.ticks_since_seen <= LANDMARK_AFTER {
            self.ticks_since_seen = self.ticks_since_seen + 1;
        }
        self.matched = false;
    }

    /// Last known position in the image.
    pub fn coordinate(&self) -> (coordinate: (i32, i32))
        ensures
            coordinate == self@.coordinate,
    {
        self.coordinate
    }

    /// Ticks that have ended since the entity was last matched.
    pub fn ticks_since_seen(&self) -> (ticks: u32)
        ensures
            ticks == self@.ticks_since_seen,
    {
        self.ticks_since_seen
    }

    /// Candidates matched to the entity since it was created.
    pub fn sightings(&self) -> (sightings: u32)
        ensures
            sightings == self@.sightings,
    {
        self.sightings
    }

    /// The patch taken when the entity was created.
    pub fn signature(&self) -> (signature: &Signature)
        ensures
            signature@ == self@.signature,
    {
        &self.signature
    }

    /// Whether the entity was created or refreshed in the tick under way.
    pub fn seen_this_tick(&self) -> (seen: bool)
        ensures
            seen == self@.matched,
    {
        self.matched
    }

    /// Whether a candidate close by may still refresh the entity.
    pub fn is_fresh(&self) -> (fresh: bool)
        ensures
            fresh == self@.fresh(),
    {
        self.ticks_since_seen < REFRESH_WINDOW
    }

    /// Whether the entity is a ghost, to be drawn from its signature.
    pub fn is_stale(&self) -> (stale: bool)
        ensures
            stale == self@.stale(),
    {
        STALE_AFTER < self.ticks_since_seen && self.ticks_since_seen <= LANDMARK_AFTER
            && self.sightings >= CONFIRMED_SIGHTINGS
    }

    /// Whether the entity leaves the registry at the end of the tick.
    pub fn departs(&self) -> (leaving: bool)
        ensures
            leaving == self@.departs(),
    {
        !self.matched && self.ticks_since_seen >= STALE_AFTER && self.sightings
            < CONFIRMED_SIGHTINGS
    }
}

} // verus!
