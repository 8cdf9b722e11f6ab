//! Drag and drop, hovering, homing, nudging, pack opening, and the game
//! clock.

use the_stacks::card::{card_type, CardTypeId};
use the_stacks::card_packs::card_pack_open_system;
use the_stacks::drag::{
    card_hover_system, card_mouse_pickup_system, dropped_stack_merging_system,
    find_stack_movement_target_system, int_sqrt, stack_mouse_drag_system, stack_mouse_drop_system,
    stack_move_to_target, stack_overlap_nudging_system, would_merging_break_ongoing_recipes,
};
use the_stacks::geom::{Vec2i, Vec3i, CARD_STACK_Y_SPACING, UNIT};
use the_stacks::procedural::{HashedRng, SeededHasherResource};
use the_stacks::recipe::{
    recipe_check_system, recipe_timer_update_system, Recipes, RecipesBuilder,
};
use the_stacks::recipe_defines::build_recipes;
use the_stacks::stack_store::{
    CreateStackEvent, HoveredCard, Motion, StackStore, STACK_AUTO_MOVE_Z, STACK_DRAG_Z,
    STACK_ROOT_Z_MAX, STACK_ROOT_Z_MIN,
};
use the_stacks::{time_of_day_progress_system, Speed, TimeOfDay, TimeSpeed};

/// How large the card texture looks on screen in these tests: 100 by 200
/// world units.
fn visual() -> Vec2i {
    Vec2i { x: 100 * UNIT, y: 200 * UNIT }
}

fn v2(x: i64, y: i64) -> Vec2i {
    Vec2i { x: x * UNIT, y: y * UNIT }
}

fn cards_of(store: &StackStore, sid: usize) -> Vec<usize> {
    store.stacks[sid].as_ref().unwrap().cards.clone()
}

fn settle(store: &mut StackStore) {
    // Freshly spawned stacks look for a movement target; settle them into
    // resting physics (no compatible stacks in these setups unless wanted).
    find_stack_movement_target_system(store, visual());
}

#[test]
fn test_hover_system() {
    let mut store = StackStore::new();
    let card_size = v2(100, 200);

    // Running it without any cards shouldn't fail.
    card_hover_system(&mut store, None, card_size, false);
    assert_eq!(store.hovered, None);

    // Spawn the card at (0, 0).
    let coin = card_type(CardTypeId::Coin);
    let sid = store.spawn_stack(v2(0, 0), &coin, 1).unwrap();
    let card = cards_of(&store, sid)[0];

    // Put the mouse right at the middle of the card.
    card_hover_system(&mut store, Some(v2(0, 0)), card_size, false);
    assert_eq!(
        store.hovered,
        Some(HoveredCard { card, relative_hover_pos: v2(0, 0) })
    );

    // Move the mouse to somewhere else in the card.
    card_hover_system(&mut store, Some(v2(10, 40)), card_size, false);
    assert_eq!(
        store.hovered,
        Some(HoveredCard { card, relative_hover_pos: v2(10, 40) })
    );

    // Move the mouse to somewhere outside the card.
    let outside = Vec2i { x: card_size.x + 10 * UNIT, y: card_size.y };
    card_hover_system(&mut store, Some(outside), card_size, false);
    assert_eq!(store.hovered, None);
}

#[test]
fn the_topmost_card_under_the_mouse_wins() {
    let mut store = StackStore::new();
    let coin = card_type(CardTypeId::Coin);
    let a = store.spawn_stack(v2(0, 0), &coin, 1).unwrap();
    let b = store.spawn_stack(v2(10, 0), &coin, 1).unwrap();
    let za = store.stacks[a].as_ref().unwrap().pos.z;
    let zb = store.stacks[b].as_ref().unwrap().pos.z;
    card_hover_system(&mut store, Some(v2(5, 0)), visual(), false);
    let expected = if za >= zb { cards_of(&store, a)[0] } else { cards_of(&store, b)[0] };
    assert_eq!(store.hovered.unwrap().card, expected);
}

#[test]
fn grabbing_the_bottom_card_drags_the_whole_stack() {
    let mut store = StackStore::new();
    let coin = card_type(CardTypeId::Coin);
    let sid = store.spawn_stack(v2(0, 0), &coin, 3).unwrap();
    let cards = cards_of(&store, sid);
    store.hovered = Some(HoveredCard { card: cards[0], relative_hover_pos: v2(1, 2) });

    card_mouse_pickup_system(&mut store);

    assert_eq!(store.stacks.len(), 1);
    assert_eq!(store.stacks[sid].as_ref().unwrap().motion, Motion::Dragged(v2(1, 2)));
    assert_eq!(cards_of(&store, sid), cards);
}

#[test]
fn grabbing_a_middle_card_splits_the_stack_and_drags_the_top() {
    let mut store = StackStore::new();
    let coin = card_type(CardTypeId::Coin);
    let sid = store.spawn_stack(v2(0, 0), &coin, 3).unwrap();
    let cards = cards_of(&store, sid);
    let root_pos = store.stacks[sid].as_ref().unwrap().pos;
    store.hovered = Some(HoveredCard { card: cards[1], relative_hover_pos: v2(0, 0) });

    card_mouse_pickup_system(&mut store);

    // A 1-card stack stays put; a 2-card stack is in hand.
    assert_eq!(cards_of(&store, sid), vec![cards[0]]);
    let new_root = store.stacks.len() - 1;
    assert_eq!(cards_of(&store, new_root), vec![cards[1], cards[2]]);
    let top = store.stacks[new_root].as_ref().unwrap();
    assert_eq!(top.motion, Motion::Dragged(v2(0, 0)));
    // The new stack starts right where the grabbed card was.
    assert_eq!(
        top.pos,
        Vec3i { x: root_pos.x, y: root_pos.y - CARD_STACK_Y_SPACING, z: root_pos.z + 2 }
    );
    // Both sides are laid out from index zero again.
    assert_eq!(store.cards[cards[1]].as_ref().unwrap().offset.y, 0);
    assert_eq!(store.cards[cards[2]].as_ref().unwrap().offset.y, -CARD_STACK_Y_SPACING);
}

#[test]
fn a_dragged_stack_tracks_the_pointer_above_everything() {
    let mut store = StackStore::new();
    let coin = card_type(CardTypeId::Coin);
    let sid = store.spawn_stack(v2(0, 0), &coin, 1).unwrap();
    store.stacks[sid].as_mut().unwrap().motion = Motion::Dragged(v2(5, 5));

    stack_mouse_drag_system(&mut store, v2(105, 55));

    let pos = store.stacks[sid].as_ref().unwrap().pos;
    assert_eq!(pos, Vec3i { x: 100 * UNIT, y: 50 * UNIT, z: STACK_DRAG_Z });
}

#[test]
fn releasing_the_pointer_drops_every_dragged_stack() {
    let mut store = StackStore::new();
    let coin = card_type(CardTypeId::Coin);
    let sid = store.spawn_stack(v2(0, 0), &coin, 1).unwrap();
    store.stacks[sid].as_mut().unwrap().motion = Motion::Dragged(v2(0, 0));
    let pos = store.stacks[sid].as_ref().unwrap().pos;

    let dropped = stack_mouse_drop_system(&mut store);

    assert_eq!(dropped, vec![(sid, pos)]);
    assert_eq!(store.stacks[sid].as_ref().unwrap().motion, Motion::Physics);
}

#[test]
fn a_drop_on_a_landing_zone_merges_the_stacks() {
    let mut store = StackStore::new();
    let recipes = build_recipes();
    let coin = card_type(CardTypeId::Coin);
    let target = store.spawn_stack(v2(0, 0), &coin, 2).unwrap();
    let dropped = store.spawn_stack(v2(500, 0), &coin, 1).unwrap();
    let t_cards = cards_of(&store, target);
    let d_cards = cards_of(&store, dropped);

    // The landing zone sits one spacing per card below the root.
    let zone = Vec3i { x: 0, y: -2 * CARD_STACK_Y_SPACING, z: STACK_DRAG_Z };
    dropped_stack_merging_system(&mut store, &recipes, dropped, zone, visual());

    assert!(store.stacks[dropped].is_none());
    let mut expected = t_cards.clone();
    expected.extend(d_cards);
    assert_eq!(cards_of(&store, target), expected);
}

#[test]
fn a_drop_that_would_break_an_ongoing_recipe_is_rejected() {
    let mut store = StackStore::new();
    let recipes = build_recipes();
    let tree = card_type(CardTypeId::Tree);
    let villager = card_type(CardTypeId::Villager);
    let coin = card_type(CardTypeId::Coin);
    let crafting = store.spawn_stack(v2(0, 0), &tree, 2).unwrap();
    let w = store.spawn_stack(v2(300, 0), &villager, 1).unwrap();
    store.merge_stacks(w, crafting);
    recipe_check_system(&mut store, &recipes, &vec![]);
    assert!(store.stacks[crafting].as_ref().unwrap().ongoing.is_some());

    let dropped = store.spawn_stack(v2(500, 0), &coin, 1).unwrap();
    assert!(would_merging_break_ongoing_recipes(&store, &recipes, dropped, crafting));

    let zone = Vec3i { x: 0, y: -3 * CARD_STACK_Y_SPACING, z: STACK_DRAG_Z };
    dropped_stack_merging_system(&mut store, &recipes, dropped, zone, visual());

    // The merge is rejected: the dropped stack returns to resting physics
    // where it was dropped, at its own semi-random depth.
    assert_eq!(cards_of(&store, crafting).len(), 3);
    let back = store.stacks[dropped].as_ref().unwrap();
    assert_eq!(back.motion, Motion::Physics);
    assert_eq!(back.pos.x, zone.x);
    assert_eq!(back.pos.y, zone.y);
    assert!(back.pos.z >= STACK_ROOT_Z_MIN && back.pos.z < STACK_ROOT_Z_MAX);
}

#[test]
fn an_exclusive_bottom_card_cannot_be_dropped_onto_anything() {
    let mut store = StackStore::new();
    let recipes = build_recipes();
    let market = card_type(CardTypeId::Market);
    let coin = card_type(CardTypeId::Coin);
    let target = store.spawn_stack(v2(0, 0), &coin, 1).unwrap();
    let dropped = store.spawn_stack(v2(500, 0), &market, 1).unwrap();

    let zone = Vec3i { x: 0, y: -CARD_STACK_Y_SPACING, z: STACK_DRAG_Z };
    dropped_stack_merging_system(&mut store, &recipes, dropped, zone, visual());

    assert!(store.stacks[dropped].is_some());
    assert_eq!(cards_of(&store, target).len(), 1);
}

#[test]
fn a_lone_single_kind_stack_glides_to_its_kin_and_merges() {
    let mut store = StackStore::new();
    let coin = card_type(CardTypeId::Coin);
    let resting = store.spawn_stack(v2(0, 50), &coin, 1).unwrap();
    settle(&mut store);
    assert_eq!(store.stacks[resting].as_ref().unwrap().motion, Motion::Physics);

    let seeker = store.spawn_stack(v2(10, 0), &coin, 2).unwrap();
    find_stack_movement_target_system(&mut store, visual());
    assert_eq!(
        store.stacks[seeker].as_ref().unwrap().motion,
        Motion::MovingToTarget(resting)
    );

    // A whole second of travel covers the short distance: the stacks merge.
    stack_move_to_target(&mut store, seeker, 1000);
    assert!(store.stacks[seeker].is_none());
    assert_eq!(cards_of(&store, resting).len(), 3);
}

#[test]
fn a_mixed_stack_settles_into_resting_physics_instead_of_homing() {
    let mut store = StackStore::new();
    let coin = card_type(CardTypeId::Coin);
    let plank = card_type(CardTypeId::Plank);
    let other = store.spawn_stack(v2(0, 50), &coin, 1).unwrap();
    settle(&mut store);
    let mixed = store.spawn_stack(v2(10, 0), &coin, 1).unwrap();
    let extra = store.spawn_stack(v2(400, 400), &plank, 1).unwrap();
    store.merge_stacks(extra, mixed);

    find_stack_movement_target_system(&mut store, visual());

    assert_eq!(store.stacks[mixed].as_ref().unwrap().motion, Motion::Physics);
    let _ = other;
}

#[test]
fn a_distant_homing_stack_approaches_without_overshooting() {
    let mut store = StackStore::new();
    let coin = card_type(CardTypeId::Coin);
    let resting = store.spawn_stack(v2(0, 0), &coin, 1).unwrap();
    settle(&mut store);
    let seeker = store.spawn_stack(v2(200, 0), &coin, 1).unwrap();
    find_stack_movement_target_system(&mut store, visual());
    assert_eq!(
        store.stacks[seeker].as_ref().unwrap().motion,
        Motion::MovingToTarget(resting)
    );

    // A short tick moves 20 units of the 200-and-some distance.
    let before = store.stacks[seeker].as_ref().unwrap().pos;
    stack_move_to_target(&mut store, seeker, 10);
    let after = store.stacks[seeker].as_ref().unwrap().pos;
    assert!(store.stacks[seeker].is_some());
    assert!(after.x < before.x);
    assert!(after.x > 0);
    assert_eq!(after.z, STACK_AUTO_MOVE_Z);
}

#[test]
fn overlapping_resting_stacks_nudge_each_other_apart() {
    let mut store = StackStore::new();
    let coin = card_type(CardTypeId::Coin);
    let a = store.spawn_stack(v2(0, 0), &coin, 1).unwrap();
    let b = store.spawn_stack(v2(10, 0), &coin, 1).unwrap();
    store.stacks[a].as_mut().unwrap().motion = Motion::Physics;
    store.stacks[b].as_mut().unwrap().motion = Motion::Physics;

    // A whole second of nudging applies the full correction: the pair is
    // 10 units apart on x, the footprints want 110, so each moves 50,
    // split toward opposite sides.
    stack_overlap_nudging_system(&mut store, 1000, visual());

    let pa = store.stacks[a].as_ref().unwrap().pos;
    let pb = store.stacks[b].as_ref().unwrap().pos;
    assert_eq!(pa.x, -50 * UNIT);
    assert_eq!(pb.x, 60 * UNIT);
    assert_eq!(pa.y, 0);
    assert_eq!(pb.y, 0);
}

#[test]
fn nudging_is_clamped_to_the_maximum_speed() {
    let mut store = StackStore::new();
    let coin = card_type(CardTypeId::Coin);
    let a = store.spawn_stack(v2(0, 0), &coin, 1).unwrap();
    let b = store.spawn_stack(v2(10, 0), &coin, 1).unwrap();
    store.stacks[a].as_mut().unwrap().motion = Motion::Physics;
    store.stacks[b].as_mut().unwrap().motion = Motion::Physics;

    // One millisecond allows at most one unit of movement.
    stack_overlap_nudging_system(&mut store, 1, visual());

    let pa = store.stacks[a].as_ref().unwrap().pos;
    assert!(pa.x < 0 && pa.x >= -UNIT);
}

#[test]
fn dragged_stacks_are_left_alone_by_physics() {
    let mut store = StackStore::new();
    let coin = card_type(CardTypeId::Coin);
    let a = store.spawn_stack(v2(0, 0), &coin, 1).unwrap();
    let b = store.spawn_stack(v2(10, 0), &coin, 1).unwrap();
    store.stacks[a].as_mut().unwrap().motion = Motion::Dragged(v2(0, 0));
    store.stacks[b].as_mut().unwrap().motion = Motion::Physics;
    let pa = store.stacks[a].as_ref().unwrap().pos;
    let pb = store.stacks[b].as_ref().unwrap().pos;

    stack_overlap_nudging_system(&mut store, 1000, visual());

    assert_eq!(store.stacks[a].as_ref().unwrap().pos, pa);
    assert_eq!(store.stacks[b].as_ref().unwrap().pos, pb);
}

#[test]
fn opening_a_pack_spawns_cards_until_it_is_used_up() {
    let mut store = StackStore::new();
    let pack_type = card_type(CardTypeId::ForestPack);
    let sid = store.spawn_stack(v2(0, 0), &pack_type, 1).unwrap();
    let pack = cards_of(&store, sid)[0];
    let seeded = SeededHasherResource::new(42);
    let mut events: Vec<CreateStackEvent> = Vec::new();

    store.hovered = Some(HoveredCard { card: pack, relative_hover_pos: v2(0, 0) });
    for opened in 1..=3u32 {
        card_pack_open_system(&mut store, &seeded, &mut events);
        assert_eq!(events.len() as u32, opened);
        let out = events[(opened - 1) as usize];
        assert_eq!(out.amount, 1);
        assert!(out.card_type.id == CardTypeId::Tree || out.card_type.id == CardTypeId::Clay);
    }
    // The third opening used the pack's last card: the pack is gone, and
    // with it its whole stack.
    assert!(store.cards[pack].is_none());
    assert!(store.stacks[sid].is_none());

    // Opening with a stale hover does nothing.
    card_pack_open_system(&mut store, &seeded, &mut events);
    assert_eq!(events.len(), 3);
}

#[test]
fn the_seeded_generator_is_repeatable_and_in_range() {
    let seeded = SeededHasherResource::new(42);
    let mut a: HashedRng = seeded.with(7);
    let mut b: HashedRng = seeded.with(7);
    assert_eq!(a.value(), b.value());
    let v1 = a.value();
    let v2 = a.value();
    assert_ne!(v1, v2);
    for _ in 0..50 {
        let d = a.value_in_range(0, 100);
        assert!(d < 100);
    }
    // A different mixed-in value gives a different stream.
    let mut c: HashedRng = seeded.with(8);
    assert_ne!(b.value(), c.value());
}

#[test]
fn integer_square_roots_bound_their_argument() {
    for n in [0u128, 1, 2, 3, 4, 15, 16, 17, 1_000_000, 999_999_999_999] {
        let r = int_sqrt(n);
        assert!(r * r <= n);
        assert!((r + 1) * (r + 1) > n);
    }
}

#[test]
fn the_game_speed_scales_time_and_pausing_stops_it() {
    let mut speed = TimeSpeed { running: true, speed: Speed::Normal };
    assert_eq!(speed.as_factor(), 1);
    speed.select_speed(Speed::Double);
    assert_eq!(speed.as_factor(), 2);
    speed.select_speed(Speed::Triple);
    assert_eq!(speed.as_factor(), 3);
    speed.toggle_pause();
    assert!(!speed.running);
    assert_eq!(speed.as_factor(), 3);
    assert_eq!(speed.effective_factor(), 0);

    let mut days = TimeOfDay { day: 1, time_of_day_ms: 0 };
    // Paused time does not advance the day clock.
    time_of_day_progress_system(&mut days, &speed, 100_000, 5000);
    assert_eq!(days, TimeOfDay { day: 1, time_of_day_ms: 0 });
    speed.toggle_pause();
    // 40 s at triple speed is 120 s of game time: one day of 100 s passes.
    time_of_day_progress_system(&mut days, &speed, 100_000, 40_000);
    assert_eq!(days, TimeOfDay { day: 2, time_of_day_ms: 20_000 });
}

#[test]
fn a_registry_is_built_in_registration_order() {
    let recipes: Recipes = RecipesBuilder::new().build();
    assert_eq!(recipes.0.len(), 0);
    let standard = build_recipes();
    assert_eq!(standard.0.len(), 5);
    assert!(standard.0[2].duration_ms.is_none());
    assert_eq!(standard.0[0].duration_ms, Some(2000));
}

#[test]
fn nudging_one_pair_directly_matches_the_resolution() {
    let mut store = StackStore::new();
    let coin = card_type(CardTypeId::Coin);
    let a = store.spawn_stack(v2(0, 0), &coin, 1).unwrap();
    let b = store.spawn_stack(v2(10, 0), &coin, 1).unwrap();
    store.stacks[a].as_mut().unwrap().motion = Motion::Physics;
    store.stacks[b].as_mut().unwrap().motion = Motion::Physics;

    the_stacks::drag::nudge_pair(&mut store, a, b, 1_000_000, visual());
    assert_eq!(store.stacks[a].as_ref().unwrap().pos.x, -50 * UNIT);
    assert_eq!(store.stacks[b].as_ref().unwrap().pos.x, 60 * UNIT);

    // Stacks that no longer overlap are left alone.
    let pa = store.stacks[a].as_ref().unwrap().pos;
    the_stacks::drag::nudge_pair(&mut store, a, b, 1_000_000, visual());
    assert_eq!(store.stacks[a].as_ref().unwrap().pos, pa);
}

#[test]
fn while_dragging_the_bottom_card_of_the_held_stack_is_hovered() {
    let mut store = StackStore::new();
    let coin = card_type(CardTypeId::Coin);
    let sid = store.spawn_stack(v2(0, 0), &coin, 2).unwrap();
    store.stacks[sid].as_mut().unwrap().motion = Motion::Dragged(v2(3, 4));
    let bottom = cards_of(&store, sid)[0];

    // Wherever the mouse is, the held stack's root card stays hovered at
    // the recorded grab offset.
    card_hover_system(&mut store, Some(v2(999, 999)), visual(), false);
    assert_eq!(
        store.hovered,
        Some(HoveredCard { card: bottom, relative_hover_pos: v2(3, 4) })
    );
}

#[test]
fn picking_up_with_a_stale_hover_does_nothing() {
    let mut store = StackStore::new();
    let coin = card_type(CardTypeId::Coin);
    let sid = store.spawn_stack(v2(0, 0), &coin, 1).unwrap();
    store.hovered = Some(HoveredCard { card: 42, relative_hover_pos: v2(0, 0) });
    card_mouse_pickup_system(&mut store);
    assert_eq!(store.stacks[sid].as_ref().unwrap().motion, Motion::LookingForTarget);
}

#[test]
fn the_interface_can_read_recipe_progress_and_card_facts() {
    let mut store = StackStore::new();
    let recipes = build_recipes();
    let tree = card_type(CardTypeId::Tree);
    let villager = card_type(CardTypeId::Villager);
    let sid = store.spawn_stack(v2(0, 0), &tree, 1).unwrap();
    let w = store.spawn_stack(v2(100, 0), &villager, 1).unwrap();
    store.merge_stacks(w, sid);
    recipe_check_system(&mut store, &recipes, &vec![]);
    recipe_timer_update_system(&mut store, 500, &TimeSpeed { running: true, speed: Speed::Normal });

    let ongoing = store.get_ongoing_recipe(sid).unwrap();
    assert_eq!(ongoing.remaining_ms(), 1500);
    assert_eq!(store.get_ongoing_recipe(sid + 10), None);

    let tree_card = store.get_card(cards_of(&store, sid)[0]).unwrap();
    assert_eq!(tree_card.value, Some(0));
    assert_eq!(tree_card.category, the_stacks::card::CardCategory::Nature);
}
