use minimap_tracker::entity::Entity;
use minimap_tracker::geometry::Rect;
use minimap_tracker::registry::{Association, Overlay, Registry, CAPACITY};
use minimap_tracker::signature::{Signature, PATCH_BYTES};

/// The size of the frames of these tests.
const WIDTH: i32 = 2000;
const HEIGHT: i32 = 1500;

fn patch(fill: u8) -> Signature {
    Signature::from_pixels(vec![fill; PATCH_BYTES]).expect("a patch of the right size")
}

/// The window from which the signature of a candidate at `at` is cut.
fn window(at: (i32, i32)) -> Rect {
    Rect { x: at.0 - 11, y: at.1 - 11, width: 22, height: 22 }
}

/// The overlay of a stale entity at place `place` and position `at`.
fn overlay(place: usize, at: (i32, i32)) -> Overlay {
    Overlay { place, window: Some(Rect { x: at.0 - 6, y: at.1 - 6, width: 11, height: 11 }) }
}

fn end_tick(registry: &mut Registry) -> Vec<Overlay> {
    registry.end_tick(WIDTH, HEIGHT)
}

/// Runs one tick in which `candidate` is the only detection and is expected
/// to refresh the entity at place 0.
fn tick_matching(registry: &mut Registry, candidate: (i32, i32)) {
    assert_eq!(registry.associate(candidate, WIDTH, HEIGHT), Association::Refreshed(0));
    end_tick(registry);
}

/// A registry with one entity at `at` that has been matched `sightings`
/// times, the last time in the tick that just ended.
fn registry_with_entity(at: (i32, i32), sightings: u32) -> Registry {
    let mut registry = Registry::new();
    assert_eq!(registry.associate(at, WIDTH, HEIGHT), Association::Create(window(at)));
    assert_eq!(registry.create(at, patch(7)), Some(0));
    end_tick(&mut registry);
    for _ in 0..sightings {
        tick_matching(&mut registry, at);
    }
    registry
}

/// A full registry whose entities stand at (100, 100), (200, 100), ... and
/// hold patches filled with 0, 1, ...
fn full_registry() -> Registry {
    let mut registry = Registry::new();
    for i in 0..CAPACITY {
        assert_eq!(registry.create((100 + 100 * i as i32, 100), patch(i as u8)), Some(i));
    }
    end_tick(&mut registry);
    registry
}

fn snapshot(registry: &Registry) -> Vec<((i32, i32), u32, u32)> {
    (0..registry.len())
        .map(|i| {
            let e = registry.get(i).unwrap();
            (e.coordinate(), e.ticks_since_seen(), e.sightings())
        })
        .collect()
}

#[test]
fn new_registry_is_empty() {
    let registry = Registry::new();
    assert_eq!(registry.len(), 0);
    assert!(!registry.is_full());
    assert!(registry.get(0).is_none());
    assert_eq!(registry.nearest((0, 0)), None);
}

#[test]
fn first_candidate_creates_an_entity() {
    let mut registry = Registry::new();
    assert_eq!(
        registry.associate((100, 100), WIDTH, HEIGHT),
        Association::Create(Rect { x: 89, y: 89, width: 22, height: 22 })
    );
    assert_eq!(registry.len(), 0);
    assert_eq!(registry.create((100, 100), patch(1)), Some(0));
    let overlays = end_tick(&mut registry);
    assert!(overlays.is_empty());
    assert_eq!(registry.len(), 1);
    let entity = registry.get(0).unwrap();
    assert_eq!(entity.coordinate(), (100, 100));
    assert_eq!(entity.ticks_since_seen(), 0);
    assert_eq!(entity.sightings(), 0);
    assert!(!entity.seen_this_tick());
    assert_eq!(entity.signature().pixels(), &vec![1u8; PATCH_BYTES]);
}

#[test]
fn nearby_candidate_refreshes_the_entity() {
    let mut registry = registry_with_entity((50, 50), 0);
    assert_eq!(registry.get(0).unwrap().ticks_since_seen(), 0);
    assert_eq!(registry.associate((55, 54), WIDTH, HEIGHT), Association::Refreshed(0));
    assert_eq!(registry.len(), 1);
    let entity = registry.get(0).unwrap();
    assert_eq!(entity.coordinate(), (55, 54));
    assert_eq!(entity.ticks_since_seen(), 0);
    assert_eq!(entity.sightings(), 1);
    assert!(entity.seen_this_tick());
    end_tick(&mut registry);
    assert_eq!(snapshot(&registry), vec![((55, 54), 0, 1)]);
}

#[test]
fn unconfirmed_entity_leaves_after_six_unmatched_ticks() {
    let mut registry = registry_with_entity((50, 50), 2);
    assert_eq!(snapshot(&registry), vec![((50, 50), 0, 2)]);
    for tick in 1..=5u32 {
        let overlays = end_tick(&mut registry);
        assert!(overlays.is_empty());
        assert_eq!(snapshot(&registry), vec![((50, 50), tick, 2)]);
    }
    let overlays = end_tick(&mut registry);
    assert!(overlays.is_empty());
    assert_eq!(registry.len(), 0);
}

#[test]
fn confirmed_entity_becomes_a_ghost_after_six_unmatched_ticks() {
    let mut registry = registry_with_entity((50, 50), 5);
    for tick in 1..=5u32 {
        let overlays = end_tick(&mut registry);
        assert!(overlays.is_empty());
        assert_eq!(snapshot(&registry), vec![((50, 50), tick, 5)]);
        assert!(!registry.get(0).unwrap().is_stale());
    }
    let overlays = end_tick(&mut registry);
    assert_eq!(
        overlays,
        vec![Overlay { place: 0, window: Some(Rect { x: 44, y: 44, width: 11, height: 11 }) }]
    );
    assert_eq!(snapshot(&registry), vec![((50, 50), 6, 5)]);
    let entity = registry.get(0).unwrap();
    assert!(entity.is_stale());
    assert_eq!(entity.signature().pixels(), &vec![7u8; PATCH_BYTES]);
}

#[test]
fn every_unconfirmed_count_leaves_on_the_sixth_tick() {
    for sightings in 0..4u32 {
        let mut registry = registry_with_entity((40, 40), sightings);
        for _ in 0..5 {
            end_tick(&mut registry);
            assert_eq!(registry.len(), 1);
        }
        assert_eq!(registry.get(0).unwrap().ticks_since_seen(), 5);
        end_tick(&mut registry);
        assert_eq!(registry.len(), 0, "sightings = {}", sightings);
    }
}

#[test]
fn four_sightings_are_enough_to_stay() {
    let mut registry = registry_with_entity((40, 40), 4);
    for _ in 0..6 {
        end_tick(&mut registry);
    }
    assert_eq!(snapshot(&registry), vec![((40, 40), 6, 4)]);
}

#[test]
fn ghost_is_named_once_per_tick_until_it_is_a_landmark() {
    let mut registry = registry_with_entity((50, 50), 4);
    for tick in 1..=700u32 {
        let overlays = end_tick(&mut registry);
        assert_eq!(registry.len(), 1);
        let entity = registry.get(0).unwrap();
        assert_eq!(entity.sightings(), 4);
        if tick <= 5 {
            assert_eq!(entity.ticks_since_seen(), tick);
            assert!(overlays.is_empty(), "tick {}", tick);
        } else if tick <= 666 {
            assert_eq!(entity.ticks_since_seen(), tick);
            assert_eq!(overlays, vec![overlay(0, (50, 50))], "tick {}", tick);
        } else {
            assert_eq!(entity.ticks_since_seen(), 667);
            assert!(overlays.is_empty(), "tick {}", tick);
            assert!(!entity.is_stale());
        }
    }
}

#[test]
fn ghost_near_the_edge_has_no_window() {
    let mut registry = Registry::new();
    assert_eq!(registry.create((3, 700), patch(0)), Some(0));
    assert_eq!(registry.create((700, 1497), patch(1)), Some(1));
    assert_eq!(registry.create((700, 700), patch(2)), Some(2));
    end_tick(&mut registry);
    for _ in 0..4 {
        for (place, at) in [(3, 700), (700, 1497), (700, 700)].into_iter().enumerate() {
            assert_eq!(registry.associate(at, WIDTH, HEIGHT), Association::Refreshed(place));
        }
        end_tick(&mut registry);
    }
    for _ in 0..5 {
        assert!(end_tick(&mut registry).is_empty());
    }
    assert_eq!(
        end_tick(&mut registry),
        vec![
            Overlay { place: 0, window: None },
            Overlay { place: 1, window: None },
            Overlay { place: 2, window: Some(Rect { x: 694, y: 694, width: 11, height: 11 }) },
        ]
    );
    // In a higher frame the second one has a window too.
    assert_eq!(
        registry.end_tick(2000, 2000),
        vec![
            Overlay { place: 0, window: None },
            Overlay { place: 1, window: Some(Rect { x: 694, y: 1491, width: 11, height: 11 }) },
            Overlay { place: 2, window: Some(Rect { x: 694, y: 694, width: 11, height: 11 }) },
        ]
    );
    // In a narrow frame none has.
    assert_eq!(
        registry.end_tick(704, 2000),
        vec![
            Overlay { place: 0, window: None },
            Overlay { place: 1, window: None },
            Overlay { place: 2, window: None },
        ]
    );
}

#[test]
fn sightings_never_decrease() {
    let mut registry = Registry::new();
    registry.create((50, 50), patch(0));
    end_tick(&mut registry);
    let mut last = 0;
    let moves = [(52, 50), (300, 300), (54, 50), (56, 50), (500, 500), (58, 50), (58, 50)];
    for candidate in moves {
        registry.associate(candidate, WIDTH, HEIGHT);
        let now = registry.get(0).unwrap().sightings();
        assert!(now >= last);
        last = now;
        end_tick(&mut registry);
        let now = registry.get(0).unwrap().sightings();
        assert!(now >= last);
        last = now;
    }
    assert_eq!(last, 5);
}

#[test]
fn sole_fresh_neighbour_is_refreshed_and_nothing_is_created() {
    let mut registry = Registry::new();
    registry.create((50, 50), patch(1));
    registry.create((200, 200), patch(2));
    end_tick(&mut registry);
    assert_eq!(registry.associate((190, 210), WIDTH, HEIGHT), Association::Refreshed(1));
    assert_eq!(registry.create((190, 210), patch(3)), None);
    assert_eq!(registry.reidentify((190, 210), &vec![1, 2]), None);
    assert_eq!(registry.len(), 2);
    assert_eq!(snapshot(&registry), vec![((50, 50), 0, 0), ((190, 210), 0, 1)]);
}

#[test]
fn neighbour_is_refreshed_even_at_the_edge_of_the_frame() {
    let mut registry = Registry::new();
    registry.create((5, 5), patch(1));
    end_tick(&mut registry);
    assert_eq!(registry.associate((0, 0), WIDTH, HEIGHT), Association::Refreshed(0));
    assert_eq!(snapshot(&registry), vec![((0, 0), 0, 1)]);
}

#[test]
fn stranger_gets_one_new_entity_while_there_is_room() {
    let mut registry = registry_with_entity((50, 50), 3);
    assert_eq!(
        registry.associate((150, 50), WIDTH, HEIGHT),
        Association::Create(Rect { x: 139, y: 39, width: 22, height: 22 })
    );
    assert_eq!(snapshot(&registry), vec![((50, 50), 0, 3)]);
    assert_eq!(registry.create((150, 50), patch(9)), Some(1));
    assert_eq!(registry.len(), 2);
    let created = registry.get(1).unwrap();
    assert_eq!(created.coordinate(), (150, 50));
    assert_eq!(created.sightings(), 0);
    assert_eq!(created.ticks_since_seen(), 0);
    assert!(created.seen_this_tick());
    assert_eq!(created.signature().pixels(), &vec![9u8; PATCH_BYTES]);
    assert_eq!(registry.get(0).unwrap().coordinate(), (50, 50));
}

#[test]
fn stranger_at_the_edge_of_the_frame_is_skipped() {
    let mut registry = registry_with_entity((500, 500), 0);
    for at in [(10, 500), (500, 10), (1990, 500), (500, 1490), (0, 0), (-40, 700)] {
        assert_eq!(registry.associate(at, WIDTH, HEIGHT), Association::Skipped, "{:?}", at);
    }
    assert_eq!(registry.associate((11, 11), WIDTH, HEIGHT), Association::Create(window((11, 11))));
    assert_eq!(
        registry.associate((1989, 1489), WIDTH, HEIGHT),
        Association::Create(Rect { x: 1978, y: 1478, width: 22, height: 22 })
    );
    assert_eq!(snapshot(&registry), vec![((500, 500), 0, 0)]);
    let mut full = full_registry();
    assert_eq!(full.associate((1995, 700), WIDTH, HEIGHT), Association::Skipped);
    assert_eq!(full.len(), 5);
}

#[test]
fn reach_is_twenty_pixels_inclusive() {
    let mut registry = registry_with_entity((50, 50), 0);
    // 12 * 12 + 16 * 16 = 400: exactly twenty pixels away.
    assert_eq!(registry.nearest((62, 66)), Some(0));
    assert_eq!(registry.nearest((50, 70)), Some(0));
    assert_eq!(registry.nearest((30, 50)), Some(0));
    // 12 * 12 + 17 * 17 = 433.
    assert_eq!(registry.nearest((62, 67)), None);
    assert_eq!(registry.nearest((50, 71)), None);
    assert_eq!(registry.nearest((29, 50)), None);
    assert_eq!(registry.associate((62, 67), WIDTH, HEIGHT), Association::Create(window((62, 67))));
    assert_eq!(registry.associate((62, 66), WIDTH, HEIGHT), Association::Refreshed(0));
}

#[test]
fn nearest_entity_claims_the_candidate() {
    let mut registry = Registry::new();
    registry.create((0, 0), patch(0));
    registry.create((30, 0), patch(1));
    end_tick(&mut registry);
    assert_eq!(registry.nearest((14, 0)), Some(0));
    assert_eq!(registry.nearest((16, 0)), Some(1));
    // Equally near: the first one.
    assert_eq!(registry.nearest((15, 0)), Some(0));
    assert_eq!(registry.associate((16, 0), WIDTH, HEIGHT), Association::Refreshed(1));
    assert_eq!(snapshot(&registry), vec![((0, 0), 0, 0), ((16, 0), 0, 1)]);
}

#[test]
fn nearest_handles_the_corners_of_the_plane() {
    let mut registry = Registry::new();
    registry.create((i32::MIN, i32::MIN), patch(0));
    registry.create((i32::MAX, i32::MAX), patch(1));
    assert_eq!(registry.nearest((i32::MAX, i32::MAX - 20)), Some(1));
    assert_eq!(registry.nearest((i32::MIN + 1, i32::MIN + 1)), Some(0));
    assert_eq!(registry.nearest((0, 0)), None);
    assert_eq!(registry.nearest((i32::MAX, i32::MIN)), None);
}

#[test]
fn entity_unseen_for_five_ticks_is_neither_refreshed_nor_gone() {
    let mut registry = registry_with_entity((50, 50), 1);
    for _ in 0..4 {
        end_tick(&mut registry);
    }
    assert_eq!(registry.get(0).unwrap().ticks_since_seen(), 4);
    // Still fresh at four.
    let mut other = registry_with_entity((50, 50), 1);
    for _ in 0..4 {
        end_tick(&mut other);
    }
    assert_eq!(other.associate((51, 50), WIDTH, HEIGHT), Association::Refreshed(0));
    assert_eq!(snapshot(&other), vec![((51, 50), 0, 2)]);
    // At five the candidate is claimed and dropped.
    end_tick(&mut registry);
    assert_eq!(registry.get(0).unwrap().ticks_since_seen(), 5);
    assert_eq!(registry.associate((51, 50), WIDTH, HEIGHT), Association::Dormant(0));
    assert_eq!(snapshot(&registry), vec![((50, 50), 5, 1)]);
    assert!(!registry.get(0).unwrap().seen_this_tick());
    assert_eq!(registry.create((51, 50), patch(3)), None);
    assert_eq!(registry.len(), 1);
    end_tick(&mut registry);
    assert_eq!(registry.len(), 0);
}

#[test]
fn matched_entity_does_not_age() {
    let mut registry = registry_with_entity((50, 50), 0);
    end_tick(&mut registry);
    end_tick(&mut registry);
    assert_eq!(registry.get(0).unwrap().ticks_since_seen(), 2);
    assert_eq!(registry.associate((50, 51), WIDTH, HEIGHT), Association::Refreshed(0));
    end_tick(&mut registry);
    assert_eq!(snapshot(&registry), vec![((50, 51), 0, 1)]);
    assert!(!registry.get(0).unwrap().seen_this_tick());
    end_tick(&mut registry);
    assert_eq!(snapshot(&registry), vec![((50, 51), 1, 1)]);
}

#[test]
fn two_candidates_may_refresh_one_entity_in_a_tick() {
    let mut registry = registry_with_entity((50, 50), 0);
    assert_eq!(registry.associate((60, 50), WIDTH, HEIGHT), Association::Refreshed(0));
    assert_eq!(registry.associate((75, 50), WIDTH, HEIGHT), Association::Refreshed(0));
    // The entity has moved: the first position is out of reach now.
    assert_eq!(registry.associate((50, 50), WIDTH, HEIGHT), Association::Create(window((50, 50))));
    end_tick(&mut registry);
    assert_eq!(snapshot(&registry), vec![((75, 50), 0, 2)]);
}

#[test]
fn registry_stops_creating_at_capacity() {
    assert_eq!(CAPACITY, 5);
    let mut registry = Registry::new();
    for i in 0..CAPACITY {
        assert!(!registry.is_full());
        let at = (100 + 100 * i as i32, 100);
        assert_eq!(registry.associate(at, WIDTH, HEIGHT), Association::Create(window(at)));
        assert_eq!(registry.create(at, patch(i as u8)), Some(i));
    }
    assert!(registry.is_full());
    assert_eq!(registry.len(), 5);
    assert_eq!(
        registry.associate((1000, 1000), WIDTH, HEIGHT),
        Association::Reidentify(Rect { x: 989, y: 989, width: 22, height: 22 })
    );
    assert_eq!(registry.create((1000, 1000), patch(99)), None);
    assert_eq!(registry.len(), 5);
    assert!(registry.get(5).is_none());
}

#[test]
fn full_registry_matches_by_best_score() {
    let mut registry = full_registry();
    let before = snapshot(&registry);
    assert_eq!(
        registry.associate((1000, 1000), WIDTH, HEIGHT),
        Association::Reidentify(window((1000, 1000)))
    );
    assert_eq!(registry.reidentify((1000, 1000), &vec![-5, 40, 12, 39, 0]), Some(1));
    let mut expected = before.clone();
    expected[1] = ((1000, 1000), 0, 1);
    assert_eq!(snapshot(&registry), expected);
    assert!(registry.get(1).unwrap().seen_this_tick());
    assert_eq!(registry.get(1).unwrap().signature().pixels(), &vec![1u8; PATCH_BYTES]);
}

#[test]
fn equal_best_scores_go_to_the_last() {
    let mut registry = full_registry();
    assert_eq!(registry.reidentify((1000, 1000), &vec![8, 3, 8, 8, 1]), Some(3));
    assert_eq!(registry.get(3).unwrap().coordinate(), (1000, 1000));
    assert_eq!(registry.get(0).unwrap().coordinate(), (100, 100));
    assert_eq!(registry.get(2).unwrap().coordinate(), (300, 100));
}

#[test]
fn similarity_refreshes_even_an_entity_long_unseen() {
    let mut registry = full_registry();
    // Confirm every entity, so that all of them stay.
    for _ in 0..4 {
        for i in 0..5 {
            assert_eq!(
                registry.associate((100 + 100 * i, 100), WIDTH, HEIGHT),
                Association::Refreshed(i as usize)
            );
        }
        end_tick(&mut registry);
    }
    for _ in 0..10 {
        end_tick(&mut registry);
    }
    assert_eq!(registry.get(4).unwrap().ticks_since_seen(), 10);
    assert_eq!(registry.associate((500, 101), WIDTH, HEIGHT), Association::Dormant(4));
    assert_eq!(registry.reidentify((900, 900), &vec![0, 0, 0, 0, 1]), Some(4));
    let overlays = end_tick(&mut registry);
    assert_eq!(
        overlays,
        vec![
            overlay(0, (100, 100)),
            overlay(1, (200, 100)),
            overlay(2, (300, 100)),
            overlay(3, (400, 100)),
        ]
    );
    let entity = registry.get(4).unwrap();
    assert_eq!(entity.coordinate(), (900, 900));
    assert_eq!(entity.ticks_since_seen(), 0);
    assert_eq!(entity.sightings(), 5);
}

#[test]
fn reidentify_needs_a_full_registry_and_one_score_each() {
    let mut registry = Registry::new();
    for i in 0..4 {
        registry.create((100 * i, 0), patch(i as u8));
    }
    let before = snapshot(&registry);
    assert_eq!(registry.reidentify((1000, 1000), &vec![1, 2, 3, 4]), None);
    assert_eq!(snapshot(&registry), before);
    registry.create((400, 0), patch(4));
    let before = snapshot(&registry);
    assert_eq!(registry.reidentify((1000, 1000), &vec![1, 2, 3, 4]), None);
    assert_eq!(registry.reidentify((1000, 1000), &vec![1, 2, 3, 4, 5, 6]), None);
    assert_eq!(registry.reidentify((1000, 1000), &vec![]), None);
    // A candidate within reach of an entity is not matched by similarity.
    assert_eq!(registry.reidentify((405, 0), &vec![9, 2, 3, 4, 5]), None);
    assert_eq!(snapshot(&registry), before);
    assert_eq!(registry.reidentify((1000, 1000), &vec![1, 2, 3, 4, 5]), Some(4));
}

#[test]
fn create_needs_a_candidate_out_of_reach() {
    let mut registry = registry_with_entity((50, 50), 0);
    assert_eq!(registry.create((60, 60), patch(1)), None);
    assert_eq!(registry.len(), 1);
    assert_eq!(registry.create((80, 80), patch(1)), Some(1));
    assert_eq!(registry.len(), 2);
}

#[test]
fn eviction_keeps_the_order_of_the_others() {
    let mut registry = Registry::new();
    registry.create((100, 100), patch(0));
    registry.create((200, 100), patch(1));
    registry.create((300, 100), patch(2));
    registry.create((400, 100), patch(3));
    end_tick(&mut registry);
    // Places 1 and 3 are seen again for four more ticks, 0 and 2 never.
    for _ in 0..4 {
        assert_eq!(registry.associate((200, 100), WIDTH, HEIGHT), Association::Refreshed(1));
        assert_eq!(registry.associate((400, 100), WIDTH, HEIGHT), Association::Refreshed(3));
        end_tick(&mut registry);
    }
    assert_eq!(
        snapshot(&registry),
        vec![((100, 100), 4, 0), ((200, 100), 0, 4), ((300, 100), 4, 0), ((400, 100), 0, 4)]
    );
    end_tick(&mut registry);
    assert_eq!(registry.len(), 4);
    let overlays = end_tick(&mut registry);
    assert!(overlays.is_empty());
    assert_eq!(snapshot(&registry), vec![((200, 100), 2, 4), ((400, 100), 2, 4)]);
    assert_eq!(registry.get(0).unwrap().signature().pixels(), &vec![1u8; PATCH_BYTES]);
    assert_eq!(registry.get(1).unwrap().signature().pixels(), &vec![3u8; PATCH_BYTES]);
    for _ in 0..3 {
        assert!(end_tick(&mut registry).is_empty());
    }
    assert_eq!(end_tick(&mut registry), vec![overlay(0, (200, 100)), overlay(1, (400, 100))]);
}

#[test]
fn overlays_can_be_asked_for_at_any_time() {
    let mut registry = Registry::new();
    registry.create((100, 100), patch(0));
    registry.create((300, 100), patch(1));
    end_tick(&mut registry);
    for _ in 0..4 {
        assert_eq!(registry.associate((100, 100), WIDTH, HEIGHT), Association::Refreshed(0));
        end_tick(&mut registry);
    }
    assert!(registry.overlays(WIDTH, HEIGHT).is_empty());
    for _ in 0..6 {
        end_tick(&mut registry);
    }
    assert_eq!(snapshot(&registry), vec![((100, 100), 6, 4)]);
    assert_eq!(registry.overlays(WIDTH, HEIGHT), vec![overlay(0, (100, 100))]);
    assert_eq!(registry.overlays(WIDTH, HEIGHT), vec![overlay(0, (100, 100))]);
    assert_eq!(registry.overlays(104, 200), vec![Overlay { place: 0, window: None }]);
    assert_eq!(snapshot(&registry), vec![((100, 100), 6, 4)]);
    // A similarity match in the next tick ends the ghost.
    registry.create((500, 500), patch(2));
    registry.create((600, 500), patch(3));
    registry.create((700, 500), patch(4));
    registry.create((800, 500), patch(5));
    assert_eq!(registry.reidentify((1000, 1000), &vec![9, 0, 0, 0, 0]), Some(0));
    assert!(registry.overlays(WIDTH, HEIGHT).is_empty());
}

#[test]
fn tick_without_candidates_only_ages() {
    let mut registry = Registry::new();
    assert!(end_tick(&mut registry).is_empty());
    assert_eq!(registry.len(), 0);
    registry.create((5, 5), patch(0));
    end_tick(&mut registry);
    end_tick(&mut registry);
    assert_eq!(snapshot(&registry), vec![((5, 5), 1, 0)]);
}

#[test]
fn entity_steps_on_their_own() {
    let mut entity = Entity::new((3, 4), patch(5));
    assert_eq!(entity.coordinate(), (3, 4));
    assert_eq!(entity.ticks_since_seen(), 0);
    assert_eq!(entity.sightings(), 0);
    assert!(entity.seen_this_tick());
    assert!(entity.is_fresh());
    assert!(!entity.is_stale());
    assert!(!entity.departs());
    entity.age();
    assert!(!entity.seen_this_tick());
    assert_eq!(entity.ticks_since_seen(), 0);
    for expected in 1..=5u32 {
        assert!(!entity.departs());
        entity.age();
        assert_eq!(entity.ticks_since_seen(), expected);
    }
    assert!(!entity.is_fresh());
    assert!(entity.departs());
    entity.refresh((9, 9));
    assert_eq!(entity.coordinate(), (9, 9));
    assert_eq!(entity.ticks_since_seen(), 0);
    assert_eq!(entity.sightings(), 1);
    assert!(entity.seen_this_tick());
    assert!(!entity.departs());
    assert_eq!(entity.signature().pixels(), &vec![5u8; PATCH_BYTES]);
}
