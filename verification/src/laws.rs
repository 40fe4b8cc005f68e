//! What holds of the tracker whatever the frames bring, proved from the
//! definitions of its steps.

use vstd::prelude::*;
use crate::entity::{
    EntityView, CONFIRMED_SIGHTINGS, LANDMARK_AFTER, REFRESH_WINDOW, STALE_AFTER,
};
use crate::geometry::{dist2, ghost_window_of, patch_window, within_reach};
use crate::ranking::{best, lemma_best_exists};
use crate::registry::{
    admits, after_creation, after_reidentification, after_sighting, after_tick, association,
    is_neighbor, lemma_neighbor_unique, lemma_tick_by_entity, names_ghosts, neighbor,
    out_of_reach, recalls, Association, Overlay, CAPACITY,
};

verus! {

/// Where `neighbor` finds an entity, it is the one that `is_neighbor`
/// describes, and where `is_neighbor` holds of an entity, `neighbor` finds it.
pub proof fn lemma_neighbor_is_neighbor(s: Seq<EntityView>, p: (i32, i32), i: int)
    ensures
        neighbor(s, p) == Some(i) <==> is_neighbor(s, p, i),
{
    if is_neighbor(s, p, i) {
        lemma_neighbor_unique(s, p, i, choose|c: int| is_neighbor(s, p, c));
    }
}

/// A candidate is matched to no entity by position exactly where no entity
/// is within reach of it.
pub proof fn lemma_no_neighbor_out_of_reach(s: Seq<EntityView>, p: (i32, i32))
    ensures
        neighbor(s, p) is None <==> out_of_reach(s, p),
{
    if !out_of_reach(s, p) {
        let j = choose|j: int| 0 <= j < s.len() && within_reach(#[trigger] s[j].coordinate, p);
        lemma_someone_within_reach(s, p, j);
    }
}

/// Neither a refresh nor the end of a tick lowers the sightings of an
/// entity or touches its signature.
pub proof fn lemma_entity_keeps_history(e: EntityView, p: (i32, i32))
    ensures
        e.refreshed(p).sightings >= e.sightings,
        e.refreshed(p).signature == e.signature,
        e.aged().sightings == e.sightings,
        e.aged().signature == e.signature,
        e.aged().coordinate == e.coordinate,
{
}

/// Handling a candidate by position keeps every entity in its place, lowers
/// no entity's sightings, touches no signature, and changes at most one
/// entity: the one that claims the candidate.
pub proof fn lemma_sighting_keeps_history(s: Seq<EntityView>, p: (i32, i32))
    ensures
        after_sighting(s, p).len() == s.len(),
        forall|i: int|
            0 <= i < s.len() ==> after_sighting(s, p)[i].sightings >= s[i].sightings
                && after_sighting(s, p)[i].signature == s[i].signature,
        forall|i: int|
            0 <= i < s.len() && neighbor(s, p) != Some(i) ==> after_sighting(s, p)[i] == s[i],
{
    if let Some(c) = neighbor(s, p) {
        lemma_neighbor_is_neighbor(s, p, c);
    }
}

/// Creating an entity leaves those that are there as they are.
pub proof fn lemma_creation_keeps_history(s: Seq<EntityView>, p: (i32, i32), signature: Seq<u8>)
    ensures
        s.len() <= after_creation(s, p, signature).len() <= s.len() + 1,
        forall|i: int| 0 <= i < s.len() ==> after_creation(s, p, signature)[i] == s[i],
{
}

/// Matching a candidate by similarity keeps every entity in its place,
/// lowers no entity's sightings, touches no signature, and changes at most
/// one entity: the one with the best score.
pub proof fn lemma_reidentification_keeps_history(
    s: Seq<EntityView>,
    p: (i32, i32),
    scores: Seq<i64>,
)
    ensures
        after_reidentification(s, p, scores).len() == s.len(),
        forall|i: int|
            0 <= i < s.len() ==> after_reidentification(s, p, scores)[i].sightings
                >= s[i].sightings && after_reidentification(s, p, scores)[i].signature
                == s[i].signature,
        forall|i: int|
            0 <= i < s.len() && !(recalls(s, p, scores) && i == best(scores))
                ==> after_reidentification(s, p, scores)[i] == s[i],
{
    if recalls(s, p, scores) {
        lemma_best_exists(scores);
    }
}

/// Every entity found after the end of a tick was there before it, did not
/// depart, and has aged: it has the sightings, the signature and the
/// position that it had. The place at which it stood is returned: the same
/// or a later one.
pub proof fn lemma_survivor_origin(s: Seq<EntityView>, j: int) -> (i: int)
    requires
        0 <= j < after_tick(s).len(),
    ensures
        j <= i < s.len(),
        !s[i].departs(),
        after_tick(s)[j] == s[i].aged(),
        after_tick(s)[j].sightings == s[i].sightings,
        after_tick(s)[j].signature == s[i].signature,
        after_tick(s)[j].coordinate == s[i].coordinate,
    decreases s.len(),
{
    if s.len() == 0 {
        lemma_tick_by_entity(s, arbitrary());
        assert(s =~= Seq::<EntityView>::empty());
        0
    } else {
        let front = s.drop_last();
        let last = s.last();
        assert(s =~= front.push(last));
        lemma_tick_by_entity(front, last);
        if !last.departs() && j == after_tick(front).len() {
            lemma_tick_length(front);
            s.len() - 1
        } else {
            lemma_survivor_origin(front, j)
        }
    }
}

/// Every entity that does not depart is found, aged, after the end of the
/// tick, behind those that stood before it and stay too. Its new place is
/// returned: the same or an earlier one.
pub proof fn lemma_stayer_survives(s: Seq<EntityView>, i: int) -> (j: int)
    requires
        0 <= i < s.len(),
        !s[i].departs(),
    ensures
        j == after_tick(s.take(i)).len(),
        0 <= j <= i,
        j < after_tick(s).len(),
        after_tick(s)[j] == s[i].aged(),
    decreases s.len(),
{
    let front = s.drop_last();
    let last = s.last();
    assert(s =~= front.push(last));
    lemma_tick_by_entity(front, last);
    if i == s.len() - 1 {
        assert(s.take(i) =~= front);
        lemma_tick_length(front);
        after_tick(front).len() as int
    } else {
        assert(s.take(i) =~= front.take(i));
        lemma_stayer_survives(front, i)
    }
}

/// An entity that departs leaves no trace: the end of the tick gives what
/// it would give without that entity.
pub proof fn lemma_departed_is_gone(s: Seq<EntityView>, i: int)
    requires
        0 <= i < s.len(),
        s[i].departs(),
    ensures
        after_tick(s) == after_tick(s.remove(i)),
        after_tick(s).len() < s.len(),
    decreases s.len(),
{
    let front = s.drop_last();
    let last = s.last();
    assert(s =~= front.push(last));
    lemma_tick_by_entity(front, last);
    lemma_tick_length(front);
    if i == s.len() - 1 {
        assert(s.remove(i) =~= front);
    } else {
        lemma_departed_is_gone(front, i);
        assert(s.remove(i) =~= front.remove(i).push(last));
        lemma_tick_by_entity(front.remove(i), last);
    }
}

/// The end of a tick adds no entity.
pub proof fn lemma_tick_length(s: Seq<EntityView>)
    ensures
        after_tick(s).len() <= s.len(),
    decreases s.len(),
{
    if s.len() == 0 {
        lemma_tick_by_entity(s, arbitrary());
        assert(s =~= Seq::<EntityView>::empty());
    } else {
        let front = s.drop_last();
        assert(s =~= front.push(s.last()));
        lemma_tick_by_entity(front, s.last());
        lemma_tick_length(front);
    }
}

/// One step of a tick.
pub enum Step {
    /// A candidate is handled by position.
    Sighting { at: (i32, i32) },
    /// A candidate is offered for an entity of its own.
    Creation { at: (i32, i32), signature: Seq<u8> },
    /// A candidate is offered for a match by similarity.
    Reidentification { at: (i32, i32), scores: Seq<i64> },
    /// The tick ends.
    TickEnd,
}

/// The entities after one step.
pub open spec fn after(s: Seq<EntityView>, step: Step) -> Seq<EntityView> {
    match step {
        Step::Sighting { at } => after_sighting(s, at),
        Step::Creation { at, signature } => after_creation(s, at, signature),
        Step::Reidentification { at, scores } => after_reidentification(s, at, scores),
        Step::TickEnd => after_tick(s),
    }
}

/// Over its lifetime the sightings of an entity never decrease and its
/// signature never changes: whatever the step, every entity found after it
/// was either created by it, with no sighting yet, or was there before it
/// with no more sightings and the same signature. The place at which it
/// stood before the step is returned, `None` for the one that was created.
pub proof fn lemma_sightings_never_decrease(s: Seq<EntityView>, step: Step, j: int) -> (origin:
    Option<int>)
    requires
        0 <= j < after(s, step).len(),
    ensures
        origin matches Some(i) ==> 0 <= i < s.len() && after(s, step)[j].sightings
            >= s[i].sightings && after(s, step)[j].signature == s[i].signature,
        origin is None ==> step is Creation && j == s.len() && after(s, step)[j].sightings == 0,
{
    match step {
        Step::Sighting { at } => {
            lemma_sighting_keeps_history(s, at);
            Some(j)
        },
        Step::Creation { at, signature } => {
            lemma_creation_keeps_history(s, at, signature);
            if j < s.len() {
                Some(j)
            } else {
                None
            }
        },
        Step::Reidentification { at, scores } => {
            lemma_reidentification_keeps_history(s, at, scores);
            Some(j)
        },
        Step::TickEnd => { Some(lemma_survivor_origin(s, j)) },
    }
}

/// What `associate` asks for is what the next call grants: a candidate that
/// is to be created is admitted, one that is to be matched by similarity is
/// matched as soon as there is one score for each entity, and for one that
/// was settled neither call changes anything.
pub proof fn lemma_outcome_is_honoured(
    s: Seq<EntityView>,
    p: (i32, i32),
    frame_width: i32,
    frame_height: i32,
    signature: Seq<u8>,
    scores: Seq<i64>,
)
    ensures
        association(s, p, frame_width, frame_height) is Create ==> after_sighting(s, p) == s
            && admits(s, p),
        association(s, p, frame_width, frame_height) is Reidentify ==> after_sighting(s, p) == s
            && (recalls(s, p, scores) <==> scores.len() == s.len()),
        association(s, p, frame_width, frame_height) is Skipped ==> after_sighting(s, p) == s,
        association(s, p, frame_width, frame_height) is Dormant ==> after_sighting(s, p) == s,
        association(s, p, frame_width, frame_height) is Refreshed || association(
            s,
            p,
            frame_width,
            frame_height,
        ) is Dormant ==> after_creation(after_sighting(s, p), p, signature) == after_sighting(s, p)
            && after_reidentification(after_sighting(s, p), p, scores) == after_sighting(s, p),
{
    if let Some(i) = neighbor(s, p) {
        lemma_neighbor_is_neighbor(s, p, i);
        if s[i].fresh() {
            // The refreshed entity stands at the candidate's own position, so
            // an entity is still within reach of it.
            let t = after_sighting(s, p);
            assert(t[i].coordinate == p);
            lemma_someone_within_reach(t, p, i);
        }
    }
}

/// Where some entity is within reach of a candidate, one is matched to it by
/// position.
pub proof fn lemma_someone_within_reach(s: Seq<EntityView>, p: (i32, i32), i: int)
    requires
        0 <= i < s.len(),
        within_reach(s[i].coordinate, p),
    ensures
        neighbor(s, p) is Some,
{
    let c = lemma_closest(s, p);
    assert(dist2(s[c].coordinate, p) <= dist2(s[i].coordinate, p));
    assert(is_neighbor(s, p, c));
}

/// Among entities, one is nearest to a candidate and stands before every
/// other that is as near. Its place is returned.
pub proof fn lemma_closest(s: Seq<EntityView>, p: (i32, i32)) -> (c: int)
    requires
        s.len() > 0,
    ensures
        0 <= c < s.len(),
        forall|j: int| 0 <= j < s.len() ==> dist2(s[c].coordinate, p) <= dist2(s[j].coordinate, p),
        forall|j: int| 0 <= j < c ==> dist2(s[c].coordinate, p) < dist2(s[j].coordinate, p),
    decreases s.len(),
{
    if s.len() == 1 {
        0
    } else {
        let front = s.drop_last();
        let last = s.len() - 1;
        let b = lemma_closest(front, p);
        assert(front[b] == s[b]);
        assert forall|j: int| 0 <= j < last implies dist2(front[b].coordinate, p) <= dist2(
            s[j].coordinate,
            p,
        ) by {
            assert(front[j] == s[j]);
        }
        assert forall|j: int| 0 <= j < b implies dist2(front[b].coordinate, p) < dist2(
            s[j].coordinate,
            p,
        ) by {
            assert(front[j] == s[j]);
        }
        if dist2(s[last].coordinate, p) < dist2(front[b].coordinate, p) {
            last
        } else {
            b
        }
    }
}

/// A candidate within reach of exactly one entity, which is still fresh,
/// refreshes that entity, wherever in the frame it is, and no entity is
/// created or matched by similarity for it.
pub proof fn lemma_sole_neighbor_is_refreshed(
    s: Seq<EntityView>,
    p: (i32, i32),
    i: int,
    frame_width: i32,
    frame_height: i32,
    signature: Seq<u8>,
    scores: Seq<i64>,
)
    requires
        0 <= i < s.len(),
        within_reach(s[i].coordinate, p),
        s[i].ticks_since_seen < REFRESH_WINDOW,
        forall|j: int| 0 <= j < s.len() && j != i ==> !within_reach(s[j].coordinate, p),
    ensures
        association(s, p, frame_width, frame_height) == Association::Refreshed(i as usize),
        after_sighting(s, p) == s.update(i, s[i].refreshed(p)),
        after_sighting(s, p).len() == s.len(),
        after_sighting(s, p)[i].coordinate == p,
        after_sighting(s, p)[i].ticks_since_seen == 0,
        after_creation(s, p, signature) == s,
        after_reidentification(s, p, scores) == s,
{
    assert(is_neighbor(s, p, i));
    lemma_neighbor_is_neighbor(s, p, i);
}

/// A candidate with no entity within reach, far enough from the edge of the
/// frame to have a signature, while the registry has room, changes nothing
/// by position, is to be created, and gets exactly one new entity, at its
/// own position, with no sighting and a counter of zero.
pub proof fn lemma_stranger_is_created(
    s: Seq<EntityView>,
    p: (i32, i32),
    frame_width: i32,
    frame_height: i32,
    signature: Seq<u8>,
)
    requires
        s.len() < CAPACITY,
        out_of_reach(s, p),
        patch_window(p, frame_width, frame_height) is Some,
    ensures
        association(s, p, frame_width, frame_height) == Association::Create(
            patch_window(p, frame_width, frame_height)->0,
        ),
        after_sighting(s, p) == s,
        admits(s, p),
        after_creation(s, p, signature) == s.push(EntityView::created(p, signature)),
        after_creation(s, p, signature).len() == s.len() + 1,
        after_creation(s, p, signature).last().coordinate == p,
        after_creation(s, p, signature).last().sightings == 0,
        after_creation(s, p, signature).last().ticks_since_seen == 0,
        after_creation(s, p, signature).last().signature == signature,
{
    lemma_no_neighbor_out_of_reach(s, p);
}

/// The entity `e` after `ticks` ticks in a row in which it stayed and was
/// not matched.
pub open spec fn unseen(e: EntityView, ticks: nat) -> EntityView
    decreases ticks,
{
    if ticks == 0 {
        e
    } else {
        unseen(e, (ticks - 1) as nat).aged()
    }
}

/// An entity that was never confirmed leaves at the end of the sixth tick in
/// a row in which it is not matched, when its counter would become six, and
/// at the end of none before.
pub proof fn lemma_unconfirmed_leaves_on_sixth_tick(e: EntityView)
    requires
        e.ticks_since_seen == 0,
        !e.matched,
        e.sightings < CONFIRMED_SIGHTINGS,
    ensures
        forall|n: nat|
            n < 5 ==> !(#[trigger] unseen(e, n)).departs() && unseen(e, n).ticks_since_seen == n,
        unseen(e, 5).departs(),
        unseen(e, 5).next_ticks() == 6,
{
    reveal_with_fuel(unseen, 6);
    assert forall|n: nat| n < 5 implies !(#[trigger] unseen(e, n)).departs() && unseen(
        e,
        n,
    ).ticks_since_seen == n by {
        if n == 0 {
        } else if n == 1 {
        } else if n == 2 {
        } else if n == 3 {
        } else {
            assert(n == 4);
        }
    }
}

/// The entities after `ticks` ticks in a row without any candidate.
pub open spec fn after_idle_ticks(s: Seq<EntityView>, ticks: nat) -> Seq<EntityView>
    decreases ticks,
{
    if ticks == 0 {
        s
    } else {
        after_tick(after_idle_ticks(s, (ticks - 1) as nat))
    }
}

/// A registry with one entity, through ticks without any candidate: as long
/// as the entity does not depart, it is there and has aged with every tick;
/// at the end of the tick in which it departs, the registry is empty.
pub proof fn lemma_lone_entity_through_idle_ticks(e: EntityView, ticks: nat)
    requires
        forall|n: nat| n < ticks ==> !(#[trigger] unseen(e, n)).departs(),
    ensures
        after_idle_ticks(seq![e], ticks) == seq![unseen(e, ticks)],
        unseen(e, ticks).departs() ==> after_idle_ticks(seq![e], ticks + 1)
            == Seq::<EntityView>::empty(),
    decreases ticks,
{
    if ticks > 0 {
        let earlier = (ticks - 1) as nat;
        lemma_lone_entity_through_idle_ticks(e, earlier);
        let before = unseen(e, earlier);
        assert(!before.departs());
        assert(seq![before] =~= Seq::<EntityView>::empty().push(before));
        lemma_tick_by_entity(Seq::<EntityView>::empty(), before);
        assert(after_tick(seq![before]) =~= seq![before.aged()]);
    }
    let now = unseen(e, ticks);
    assert(seq![now] =~= Seq::<EntityView>::empty().push(now));
    lemma_tick_by_entity(Seq::<EntityView>::empty(), now);
    assert(after_idle_ticks(seq![e], ticks + 1) == after_tick(
        after_idle_ticks(seq![e], (ticks + 1 - 1) as nat),
    ));
}

/// The only entity of a registry, never confirmed, is still there five
/// ticks after the one in which it was last matched, if no candidate came,
/// and gone after the sixth.
pub proof fn lemma_lone_unconfirmed_entity_leaves(e: EntityView)
    requires
        e.ticks_since_seen == 0,
        !e.matched,
        e.sightings < CONFIRMED_SIGHTINGS,
    ensures
        after_idle_ticks(seq![e], 5).len() == 1,
        after_idle_ticks(seq![e], 5)[0].ticks_since_seen == 5,
        after_idle_ticks(seq![e], 6).len() == 0,
{
    lemma_unconfirmed_leaves_on_sixth_tick(e);
    lemma_lone_entity_through_idle_ticks(e, 5);
    reveal_with_fuel(unseen, 6);
}

/// A confirmed entity through ticks in a row in which it is not matched:
/// it never departs, and its counter rises by one with each tick up to one
/// above `LANDMARK_AFTER`.
pub proof fn lemma_confirmed_through_idle_ticks(e: EntityView, ticks: nat)
    requires
        e.ticks_since_seen == 0,
        !e.matched,
        e.sightings >= CONFIRMED_SIGHTINGS,
        ticks <= LANDMARK_AFTER + 1,
    ensures
        !unseen(e, ticks).departs(),
        unseen(e, ticks) == (EntityView { ticks_since_seen: ticks as u32, ..e }),
    decreases ticks,
{
    if ticks > 0 {
        lemma_confirmed_through_idle_ticks(e, (ticks - 1) as nat);
    }
}

/// The only entity of a registry, confirmed, is there after any number of
/// ticks without a candidate, up to one above `LANDMARK_AFTER`, with as many
/// ticks on its counter; it is a ghost from the sixth tick to the last
/// before it becomes a landmark.
pub proof fn lemma_lone_confirmed_entity_stays(e: EntityView, ticks: nat)
    requires
        e.ticks_since_seen == 0,
        !e.matched,
        e.sightings >= CONFIRMED_SIGHTINGS,
        ticks <= LANDMARK_AFTER + 1,
    ensures
        after_idle_ticks(seq![e], ticks) == seq![(EntityView { ticks_since_seen: ticks as u32, ..e })],
        after_idle_ticks(seq![e], ticks)[0].stale() <==> STALE_AFTER < ticks <= LANDMARK_AFTER,
{
    assert forall|n: nat| n < ticks implies !(#[trigger] unseen(e, n)).departs() by {
        lemma_confirmed_through_idle_ticks(e, n);
    }
    lemma_lone_entity_through_idle_ticks(e, ticks);
    lemma_confirmed_through_idle_ticks(e, ticks);
}

/// An entity that is not matched and was never confirmed leaves exactly
/// when it has gone unseen for more than `STALE_AFTER` ticks, the tick that
/// ends counted.
pub proof fn lemma_unconfirmed_departs(e: EntityView)
    requires
        !e.matched,
        e.sightings < CONFIRMED_SIGHTINGS,
    ensures
        e.departs() <==> e.ticks_since_seen >= STALE_AFTER,
{
}

/// A confirmed entity never leaves. At the end of a tick in which it was not
/// matched it is a ghost exactly when it has then gone unseen for more than
/// `STALE_AFTER` and at most `LANDMARK_AFTER` ticks; its counter rises by
/// one until it stands still one above `LANDMARK_AFTER`.
pub proof fn lemma_confirmed_stays(e: EntityView)
    requires
        e.sightings >= CONFIRMED_SIGHTINGS,
    ensures
        !e.departs(),
        e.aged().stale() <==> STALE_AFTER < e.aged().ticks_since_seen <= LANDMARK_AFTER,
        !e.matched && STALE_AFTER <= e.ticks_since_seen < LANDMARK_AFTER ==> e.aged().stale(),
        !e.matched && e.ticks_since_seen <= LANDMARK_AFTER ==> e.aged().ticks_since_seen
            == e.ticks_since_seen + 1,
        e.ticks_since_seen > LANDMARK_AFTER ==> e.aged().ticks_since_seen == e.ticks_since_seen
            && !e.aged().stale(),
{
}

/// No step lets a registry grow beyond `CAPACITY`.
pub proof fn lemma_capacity_is_kept(
    s: Seq<EntityView>,
    p: (i32, i32),
    signature: Seq<u8>,
    scores: Seq<i64>,
)
    requires
        s.len() <= CAPACITY,
    ensures
        after_sighting(s, p).len() <= CAPACITY,
        after_creation(s, p, signature).len() <= CAPACITY,
        after_reidentification(s, p, scores).len() <= CAPACITY,
        after_tick(s).len() <= CAPACITY,
{
    lemma_sighting_keeps_history(s, p);
    lemma_reidentification_keeps_history(s, p, scores);
    lemma_tick_length(s);
}

/// The ghosts of a registry can be named in one way only.
pub proof fn lemma_ghosts_are_named_once(
    a: Seq<Overlay>,
    b: Seq<Overlay>,
    s: Seq<EntityView>,
    frame_width: i32,
    frame_height: i32,
)
    requires
        names_ghosts(a, s, frame_width, frame_height),
        names_ghosts(b, s, frame_width, frame_height),
    ensures
        a == b,
    decreases s.len(),
{
    if s.len() == 0 {
        if a.len() > 0 {
            assert(a[0].place < s.len());
        }
        if b.len() > 0 {
            assert(b[0].place < s.len());
        }
        assert(a =~= b);
    } else {
        let last = s.len() - 1;
        let front = s.drop_last();
        if s[last].stale() {
            lemma_ghosts_without_last(a, s, frame_width, frame_height);
            lemma_ghosts_without_last(b, s, frame_width, frame_height);
            lemma_ghosts_are_named_once(
                a.drop_last(),
                b.drop_last(),
                front,
                frame_width,
                frame_height,
            );
            assert(a =~= a.drop_last().push(a.last()));
            assert(b =~= b.drop_last().push(b.last()));
            assert(a.last() == b.last());
        } else {
            lemma_ghosts_without_last(a, s, frame_width, frame_height);
            lemma_ghosts_without_last(b, s, frame_width, frame_height);
            lemma_ghosts_are_named_once(a, b, front, frame_width, frame_height);
        }
    }
}

/// Without the last entity, the ghosts are those that were named, but for
/// that of the last entity if it was stale.
proof fn lemma_ghosts_without_last(
    a: Seq<Overlay>,
    s: Seq<EntityView>,
    frame_width: i32,
    frame_height: i32,
)
    requires
        s.len() > 0,
        names_ghosts(a, s, frame_width, frame_height),
    ensures
        s.last().stale() ==> a.len() > 0 && a.last().place == s.len() - 1 && names_ghosts(
            a.drop_last(),
            s.drop_last(),
            frame_width,
            frame_height,
        ),
        !s.last().stale() ==> names_ghosts(a, s.drop_last(), frame_width, frame_height),
{
    let last = s.len() - 1;
    let front = s.drop_last();
    if s[last].stale() {
        // The overlay of the last entity is the last one: the places rise,
        // and none is beyond the last entity.
        let ga = choose|g: int| 0 <= g < a.len() && a[g].place == last;
        if ga < a.len() - 1 {
            assert(a[ga].place < a[a.len() - 1].place);
        }
        let rest = a.drop_last();
        assert forall|g: int| 0 <= g < rest.len() implies rest[g].place < front.len()
            && front[rest[g].place as int].stale() && rest[g].window == ghost_window_of(
            front[rest[g].place as int].coordinate,
            frame_width,
            frame_height,
        ) by {
            assert(a[g].place < a[ga].place);
            assert(front[a[g].place as int] == s[a[g].place as int]);
        }
        assert forall|i: int| 0 <= i < front.len() && front[i].stale() implies exists|g: int|
            0 <= g < rest.len() && rest[g].place == i by {
            assert(s[i].stale());
            let g = choose|g: int| 0 <= g < a.len() && a[g].place == i;
            assert(g != ga);
            assert(rest[g].place == i);
        }
        assert(names_ghosts(rest, front, frame_width, frame_height));
    } else {
        assert forall|g: int| 0 <= g < a.len() implies a[g].place < front.len()
            && front[a[g].place as int].stale() && a[g].window == ghost_window_of(
            front[a[g].place as int].coordinate,
            frame_width,
            frame_height,
        ) by {
            assert(s[a[g].place as int].stale());
            assert(front[a[g].place as int] == s[a[g].place as int]);
        }
        assert forall|i: int| 0 <= i < front.len() && front[i].stale() implies exists|g: int|
            0 <= g < a.len() && a[g].place == i by {
            assert(s[i].stale());
        }
        assert(names_ghosts(a, front, frame_width, frame_height));
    }
}

/// An entity that was created or refreshed in a tick ends it with a counter
/// of zero, stays, and is no ghost.
pub proof fn lemma_matched_is_kept(e: EntityView, p: (i32, i32), signature: Seq<u8>)
    ensures
        !e.refreshed(p).departs(),
        e.refreshed(p).aged().ticks_since_seen == 0,
        !e.refreshed(p).aged().stale(),
        !EntityView::created(p, signature).departs(),
        EntityView::created(p, signature).aged().ticks_since_seen == 0,
        EntityView::created(p, signature).aged().sightings == 0,
{
}

} // verus!
