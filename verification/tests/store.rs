//! The stack store: spawning, merging, splitting, deleting, and the
//! invariants the operations keep.

use the_stacks::card::{card_type, CardTypeId};
use the_stacks::geom::{Vec2i, Vec3i, CARD_STACK_Y_SPACING, UNIT};
use the_stacks::stack_store::{
    get_semi_random_stack_root_z, Motion, StackStore, STACK_ROOT_Z_MAX, STACK_ROOT_Z_MIN,
};

fn v2(x: i64, y: i64) -> Vec2i {
    Vec2i { x: x * UNIT, y: y * UNIT }
}

fn cards_of(store: &StackStore, sid: usize) -> Vec<usize> {
    store.stacks[sid].as_ref().unwrap().cards.clone()
}

#[test]
fn spawning_lays_out_a_stack_bottom_to_top() {
    let mut store = StackStore::new();
    let tree = card_type(CardTypeId::Tree);
    let sid = store.spawn_stack(v2(3, 4), &tree, 3).unwrap();
    let stack = store.stacks[sid].as_ref().unwrap();
    assert_eq!(stack.cards.len(), 3);
    assert_eq!(stack.pos.x, 3 * UNIT);
    assert_eq!(stack.pos.y, 4 * UNIT);
    assert!(stack.pos.z >= STACK_ROOT_Z_MIN && stack.pos.z < STACK_ROOT_Z_MAX);
    assert!(stack.changed);
    assert!(stack.ongoing.is_none());
    for (i, &cid) in stack.cards.iter().enumerate() {
        let entry = store.cards[cid].as_ref().unwrap();
        assert_eq!(entry.stack, sid);
        assert_eq!(entry.offset.y, -(i as i64) * CARD_STACK_Y_SPACING);
        assert_eq!(entry.card.type_id, CardTypeId::Tree);
        assert_eq!(entry.card.uses, Some(3));
    }
}

#[test]
fn spawning_zero_cards_creates_nothing() {
    let mut store = StackStore::new();
    let tree = card_type(CardTypeId::Tree);
    assert_eq!(store.spawn_stack(v2(0, 0), &tree, 0), None);
    assert_eq!(store.stacks.len(), 0);
    assert_eq!(store.cards.len(), 0);
}

#[test]
fn merge_appends_the_source_on_top_and_destroys_its_root() {
    let mut store = StackStore::new();
    let coin = card_type(CardTypeId::Coin);
    let a = store.spawn_stack(v2(0, 0), &coin, 2).unwrap();
    let b = store.spawn_stack(v2(10, 0), &coin, 3).unwrap();
    let a_cards = cards_of(&store, a);
    let b_cards = cards_of(&store, b);

    store.merge_stacks(a, b);

    assert!(store.stacks[a].is_none());
    let merged = cards_of(&store, b);
    let mut expected = b_cards.clone();
    expected.extend(a_cards.iter().copied());
    assert_eq!(merged, expected);
    // The combined sequence is re-laid-out in place.
    for (i, &cid) in merged.iter().enumerate() {
        let entry = store.cards[cid].as_ref().unwrap();
        assert_eq!(entry.stack, b);
        assert_eq!(entry.offset.y, -(i as i64) * CARD_STACK_Y_SPACING);
    }
}

#[test]
fn merge_with_a_destroyed_handle_or_itself_is_a_no_op() {
    let mut store = StackStore::new();
    let coin = card_type(CardTypeId::Coin);
    let a = store.spawn_stack(v2(0, 0), &coin, 2).unwrap();
    let before = cards_of(&store, a);
    store.merge_stacks(a, a);
    assert_eq!(cards_of(&store, a), before);
    store.merge_stacks(a + 7, a);
    assert_eq!(cards_of(&store, a), before);
    store.merge_stacks(a, a + 7);
    assert_eq!(cards_of(&store, a), before);
}

#[test]
fn split_at_a_middle_card_makes_two_stacks() {
    let mut store = StackStore::new();
    let coin = card_type(CardTypeId::Coin);
    let a = store.spawn_stack(v2(0, 0), &coin, 3).unwrap();
    let cards = cards_of(&store, a);
    let new_pos = Vec3i { x: UNIT, y: 2 * UNIT, z: 5 };

    let new_root = store.split_stack(a, cards[1], new_pos).unwrap();

    assert_eq!(cards_of(&store, a), vec![cards[0]]);
    assert_eq!(cards_of(&store, new_root), vec![cards[1], cards[2]]);
    let top = store.stacks[new_root].as_ref().unwrap();
    assert_eq!(top.pos, new_pos);
    assert!(matches!(top.motion, Motion::Physics));
    // Both sides are laid out from index zero again.
    assert_eq!(store.cards[cards[1]].as_ref().unwrap().offset.y, 0);
    assert_eq!(store.cards[cards[2]].as_ref().unwrap().offset.y, -CARD_STACK_Y_SPACING);
    assert_eq!(store.cards[cards[0]].as_ref().unwrap().offset.y, 0);
}

#[test]
fn split_at_the_bottom_card_is_not_needed() {
    let mut store = StackStore::new();
    let coin = card_type(CardTypeId::Coin);
    let a = store.spawn_stack(v2(0, 0), &coin, 3).unwrap();
    let cards = cards_of(&store, a);
    let r = store.split_stack(a, cards[0], Vec3i { x: 0, y: 0, z: 0 });
    assert_eq!(r, None);
    assert_eq!(cards_of(&store, a), cards);
}

#[test]
fn split_keeps_a_copy_of_the_ongoing_recipe_on_both_sides() {
    let mut store = StackStore::new();
    let coin = card_type(CardTypeId::Coin);
    let a = store.spawn_stack(v2(0, 0), &coin, 2).unwrap();
    let ongoing = the_stacks::recipe::OngoingRecipe { id: 0, elapsed_ms: 500, duration_ms: 2000 };
    store.stacks[a].as_mut().unwrap().ongoing = Some(ongoing);
    let cards = cards_of(&store, a);
    let new_root = store.split_stack(a, cards[1], Vec3i { x: 0, y: 0, z: 0 }).unwrap();
    assert_eq!(store.stacks[a].as_ref().unwrap().ongoing, Some(ongoing));
    assert_eq!(store.stacks[new_root].as_ref().unwrap().ongoing, Some(ongoing));
}

#[test]
fn merge_then_split_at_the_boundary_restores_both_sequences() {
    let mut store = StackStore::new();
    let coin = card_type(CardTypeId::Coin);
    let tree = card_type(CardTypeId::Tree);
    let a = store.spawn_stack(v2(0, 0), &coin, 2).unwrap();
    let b = store.spawn_stack(v2(10, 0), &tree, 3).unwrap();
    let a_cards = cards_of(&store, a);
    let b_cards = cards_of(&store, b);

    store.merge_stacks(a, b);
    let boundary = a_cards[0];
    let new_root = store.split_stack(b, boundary, Vec3i { x: 0, y: 0, z: 0 }).unwrap();

    assert_eq!(cards_of(&store, b), b_cards);
    assert_eq!(cards_of(&store, new_root), a_cards);
}

#[test]
fn deleting_every_card_one_at_a_time_destroys_the_root_on_the_last() {
    let mut store = StackStore::new();
    let coin = card_type(CardTypeId::Coin);
    let a = store.spawn_stack(v2(0, 0), &coin, 3).unwrap();
    let cards = cards_of(&store, a);

    store.delete_cards(&vec![cards[0]], a);
    assert!(store.stacks[a].is_some());
    store.delete_cards(&vec![cards[1]], a);
    assert!(store.stacks[a].is_some());
    assert_eq!(cards_of(&store, a), vec![cards[2]]);
    store.delete_cards(&vec![cards[2]], a);
    assert!(store.stacks[a].is_none());
    for cid in cards {
        assert!(store.cards[cid].is_none());
    }
}

#[test]
fn deleting_a_middle_card_relayouts_the_remainder() {
    let mut store = StackStore::new();
    let coin = card_type(CardTypeId::Coin);
    let a = store.spawn_stack(v2(0, 0), &coin, 3).unwrap();
    let cards = cards_of(&store, a);
    store.delete_cards(&vec![cards[1]], a);
    assert_eq!(cards_of(&store, a), vec![cards[0], cards[2]]);
    assert_eq!(store.cards[cards[2]].as_ref().unwrap().offset.y, -CARD_STACK_Y_SPACING);
    assert!(store.cards[cards[1]].is_none());
}

#[test]
fn delete_on_a_destroyed_handle_is_a_no_op() {
    let mut store = StackStore::new();
    let coin = card_type(CardTypeId::Coin);
    let a = store.spawn_stack(v2(0, 0), &coin, 1).unwrap();
    store.delete_cards(&vec![99], a + 5);
    assert!(store.stacks[a].is_some());
}

#[test]
fn stack_depth_is_a_pure_function_of_identity_in_the_fixed_range() {
    for id in 0..100u64 {
        let z = get_semi_random_stack_root_z(id);
        assert!(z >= STACK_ROOT_Z_MIN && z < STACK_ROOT_Z_MAX);
        assert_eq!(z, get_semi_random_stack_root_z(id));
    }
    // Different identities scatter to different depths at least once.
    assert!((0..100u64).any(|id| {
        get_semi_random_stack_root_z(id) != get_semi_random_stack_root_z(id + 1)
    }));
}

#[test]
fn creation_events_spawn_stacks_in_order() {
    let mut store = StackStore::new();
    let coin = card_type(CardTypeId::Coin);
    let log = card_type(CardTypeId::Log);
    let events = vec![
        the_stacks::stack_store::CreateStackEvent { position: v2(0, 0), card_type: coin, amount: 2 },
        the_stacks::stack_store::CreateStackEvent { position: v2(1, 1), card_type: log, amount: 0 },
        the_stacks::stack_store::CreateStackEvent { position: v2(2, 2), card_type: log, amount: 1 },
    ];
    store.stack_creation_system(&events);
    assert_eq!(store.stacks.len(), 2);
    assert_eq!(cards_of(&store, 0).len(), 2);
    assert_eq!(cards_of(&store, 1).len(), 1);
    let log_card = store.get_card(cards_of(&store, 1)[0]).unwrap();
    assert_eq!(log_card.type_id, CardTypeId::Log);
}
