//! Recipes: predicates, detection, timing, and the exclusive completion
//! phase with its effects.

use the_stacks::card::{card_type, Card, CardCategory, CardTypeId};
use the_stacks::geom::{Vec2i, UNIT};
use the_stacks::procedural::SeededHasherResource;
use the_stacks::recipe::{
    is_ongoing_recipe_valid_for_stack, recipe_check_system, recipe_finished_exclusive_system,
    recipe_is_valid, recipe_timer_update_system, OngoingRecipe, RecipeEffect, RecipePredicate,
    RecipesBuilder, StackCheck,
};
use the_stacks::recipe_defines::build_recipes;
use the_stacks::stack_store::{CreateStackEvent, StackStore};
use the_stacks::{Speed, TimeSpeed};

fn v2(x: i64, y: i64) -> Vec2i {
    Vec2i { x: x * UNIT, y: y * UNIT }
}

fn running() -> TimeSpeed {
    TimeSpeed { running: true, speed: Speed::Normal }
}

fn cards_of(store: &StackStore, sid: usize) -> Vec<usize> {
    store.stacks[sid].as_ref().unwrap().cards.clone()
}

fn card_values(store: &StackStore, sid: usize) -> Vec<Card> {
    cards_of(store, sid).iter().map(|&c| store.get_card(c).unwrap()).collect()
}

/// 3 trees and a worker, merged onto one stack.
fn tree_worker_stack(store: &mut StackStore) -> usize {
    let tree = card_type(CardTypeId::Tree);
    let villager = card_type(CardTypeId::Villager);
    let sid = store.spawn_stack(v2(0, 0), &tree, 3).unwrap();
    let wid = store.spawn_stack(v2(100, 0), &villager, 1).unwrap();
    store.merge_stacks(wid, sid);
    sid
}

#[test]
fn cutting_tree_predicate_wants_one_worker_and_the_rest_trees() {
    let tree = Card::of_type(&card_type(CardTypeId::Tree));
    let worker = Card::of_type(&card_type(CardTypeId::Villager));
    let coin = Card::of_type(&card_type(CardTypeId::Coin));
    let p = RecipePredicate::CuttingTree;
    assert!(recipe_is_valid(&p, &StackCheck(vec![tree, tree, tree, worker])));
    assert!(recipe_is_valid(&p, &StackCheck(vec![tree, worker])));
    assert!(!recipe_is_valid(&p, &StackCheck(vec![worker])));
    assert!(!recipe_is_valid(&p, &StackCheck(vec![tree, tree])));
    assert!(!recipe_is_valid(&p, &StackCheck(vec![tree, coin, worker])));
    assert!(!recipe_is_valid(&p, &StackCheck(vec![tree, worker, worker])));
}

#[test]
fn sell_cards_predicate_wants_a_market_bottom_and_something_sellable() {
    let market = Card::of_type(&card_type(CardTypeId::Market));
    let plank = Card::of_type(&card_type(CardTypeId::Plank));
    let coin = Card::of_type(&card_type(CardTypeId::Coin));
    let p = RecipePredicate::SellCards;
    assert!(recipe_is_valid(&p, &StackCheck(vec![market, plank])));
    // Coins have no sale value, and system cards are never sellable.
    assert!(!recipe_is_valid(&p, &StackCheck(vec![market, coin])));
    assert!(!recipe_is_valid(&p, &StackCheck(vec![market])));
    assert!(!recipe_is_valid(&p, &StackCheck(vec![plank, market])));
}

#[test]
fn detection_starts_the_first_matching_recipe_with_its_timer() {
    let mut store = StackStore::new();
    let recipes = build_recipes();
    let sid = tree_worker_stack(&mut store);

    recipe_check_system(&mut store, &recipes, &vec![]);

    let stack = store.stacks[sid].as_ref().unwrap();
    assert_eq!(
        stack.ongoing,
        Some(OngoingRecipe { id: 0, elapsed_ms: 0, duration_ms: 2000 })
    );
    assert!(!stack.changed);
}

#[test]
fn detection_keeps_the_invariant_that_ongoing_recipes_match() {
    let mut store = StackStore::new();
    let recipes = build_recipes();
    let sid = tree_worker_stack(&mut store);
    let coin = card_type(CardTypeId::Coin);
    let extra = store.spawn_stack(v2(50, 0), &coin, 2).unwrap();

    recipe_check_system(&mut store, &recipes, &vec![]);
    // A coin lands on the crafting stack, which breaks the recipe; the
    // next detection pass abandons it.
    store.merge_stacks(extra, sid);
    recipe_check_system(&mut store, &recipes, &vec![]);

    for sid in 0..store.stacks.len() {
        if let Some(stack) = store.stacks[sid].as_ref() {
            if stack.ongoing.is_some() {
                let check = StackCheck(card_values(&store, sid));
                assert!(is_ongoing_recipe_valid_for_stack(&stack.ongoing, &check, &recipes));
            }
        }
    }
    assert!(store.stacks[sid].as_ref().unwrap().ongoing.is_none());
}

#[test]
fn overlapping_recipes_resolve_by_registration_order() {
    // Two recipes with the same predicate: the first registered wins.
    let recipes = RecipesBuilder::new()
        .with_recipe(RecipePredicate::CuttingTree, 2000, RecipeEffect::CutTree)
        .with_recipe(RecipePredicate::CuttingTree, 9000, RecipeEffect::MakePlank)
        .build();
    let mut store = StackStore::new();
    let sid = tree_worker_stack(&mut store);
    recipe_check_system(&mut store, &recipes, &vec![]);
    assert_eq!(
        store.stacks[sid].as_ref().unwrap().ongoing,
        Some(OngoingRecipe { id: 0, elapsed_ms: 0, duration_ms: 2000 })
    );
}

#[test]
fn timers_advance_with_the_speed_factor_and_freeze_while_paused() {
    let mut store = StackStore::new();
    let recipes = build_recipes();
    let sid = tree_worker_stack(&mut store);
    recipe_check_system(&mut store, &recipes, &vec![]);

    let paused = TimeSpeed { running: false, speed: Speed::Triple };
    recipe_timer_update_system(&mut store, 500, &paused);
    assert_eq!(store.stacks[sid].as_ref().unwrap().ongoing.unwrap().elapsed_ms, 0);

    let double = TimeSpeed { running: true, speed: Speed::Double };
    recipe_timer_update_system(&mut store, 500, &double);
    assert_eq!(store.stacks[sid].as_ref().unwrap().ongoing.unwrap().elapsed_ms, 1000);

    recipe_timer_update_system(&mut store, 500, &double);
    // 2000 ms of game time reached: the recipe is ready.
    let stack = store.stacks[sid].as_ref().unwrap();
    assert!(stack.ongoing.is_none());
    assert_eq!(stack.ready, Some(0));
}

#[test]
fn cutting_a_tree_spends_one_use_and_produces_a_log_stack() {
    let mut store = StackStore::new();
    let recipes = build_recipes();
    let sid = tree_worker_stack(&mut store);
    let first_tree = cards_of(&store, sid)[0];
    recipe_check_system(&mut store, &recipes, &vec![]);
    recipe_timer_update_system(&mut store, 2000, &running());

    let seeded = SeededHasherResource::new(42);
    let mut events: Vec<CreateStackEvent> = Vec::new();
    let finished = recipe_finished_exclusive_system(&mut store, &recipes, &seeded, &mut events);

    assert_eq!(finished, vec![(0, sid)]);
    assert!(store.stacks[sid].as_ref().unwrap().ready.is_none());
    // One log request, possibly followed by an apple drop.
    assert!(events.len() == 1 || events.len() == 2);
    assert_eq!(events[0].card_type.id, CardTypeId::Log);
    assert_eq!(events[0].amount, 1);
    // The first tree lost one of its three uses.
    assert_eq!(store.get_card(first_tree).unwrap().uses, Some(2));

    // The creation pass spawns exactly one stack per request.
    let before = store.stacks.len();
    store.stack_creation_system(&events);
    assert_eq!(store.stacks.len(), before + events.len());
    let log_stack = card_values(&store, before);
    assert_eq!(log_stack.len(), 1);
    assert_eq!(log_stack[0].type_id, CardTypeId::Log);
}

#[test]
fn a_tree_on_its_last_use_is_removed() {
    let mut store = StackStore::new();
    let recipes = build_recipes();
    let sid = tree_worker_stack(&mut store);
    let cards = cards_of(&store, sid);
    // Wear the first tree down to its last use.
    let mut tree = store.get_card(cards[0]).unwrap();
    tree.uses = Some(1);
    store.set_card_data(cards[0], tree);

    recipe_check_system(&mut store, &recipes, &vec![]);
    recipe_timer_update_system(&mut store, 2000, &running());
    let seeded = SeededHasherResource::new(42);
    let mut events: Vec<CreateStackEvent> = Vec::new();
    recipe_finished_exclusive_system(&mut store, &recipes, &seeded, &mut events);

    assert!(store.cards[cards[0]].is_none());
    assert_eq!(cards_of(&store, sid), vec![cards[1], cards[2], cards[3]]);
}

#[test]
fn making_a_plank_consumes_the_log() {
    let mut store = StackStore::new();
    let recipes = build_recipes();
    let log = card_type(CardTypeId::Log);
    let villager = card_type(CardTypeId::Villager);
    let sid = store.spawn_stack(v2(0, 0), &log, 1).unwrap();
    let wid = store.spawn_stack(v2(100, 0), &villager, 1).unwrap();
    store.merge_stacks(wid, sid);

    recipe_check_system(&mut store, &recipes, &vec![]);
    assert_eq!(store.stacks[sid].as_ref().unwrap().ongoing.unwrap().duration_ms, 3000);
    recipe_timer_update_system(&mut store, 3000, &running());
    let seeded = SeededHasherResource::new(42);
    let mut events: Vec<CreateStackEvent> = Vec::new();
    recipe_finished_exclusive_system(&mut store, &recipes, &seeded, &mut events);

    assert_eq!(events.len(), 1);
    assert_eq!(events[0].card_type.id, CardTypeId::Plank);
    let left = card_values(&store, sid);
    assert_eq!(left.len(), 1);
    assert_eq!(left[0].type_id, CardTypeId::Villager);
}

#[test]
fn selling_trades_every_sellable_card_for_its_total_value_in_coins() {
    let mut store = StackStore::new();
    let recipes = build_recipes();
    let market = card_type(CardTypeId::Market);
    let plank = card_type(CardTypeId::Plank);
    let apple = card_type(CardTypeId::Apple);
    let sid = store.spawn_stack(v2(0, 0), &market, 1).unwrap();
    let p = store.spawn_stack(v2(100, 0), &plank, 1).unwrap();
    let a = store.spawn_stack(v2(200, 0), &apple, 1).unwrap();
    store.merge_stacks(p, sid);
    store.merge_stacks(a, sid);

    recipe_check_system(&mut store, &recipes, &vec![]);
    // Selling is instant: it is ready without any timer.
    assert_eq!(store.stacks[sid].as_ref().unwrap().ready, Some(2));
    assert!(store.stacks[sid].as_ref().unwrap().ongoing.is_none());

    let seeded = SeededHasherResource::new(42);
    let mut events: Vec<CreateStackEvent> = Vec::new();
    recipe_finished_exclusive_system(&mut store, &recipes, &seeded, &mut events);

    // A plank is worth 2 and an apple 1.
    assert_eq!(events.len(), 1);
    assert_eq!(events[0].card_type.id, CardTypeId::Coin);
    assert_eq!(events[0].amount, 3);
    let left = card_values(&store, sid);
    assert_eq!(left.len(), 1);
    assert_eq!(left[0].type_id, CardTypeId::Market);
}

#[test]
fn buying_a_pack_needs_the_full_price_in_coins() {
    let mut store = StackStore::new();
    let recipes = build_recipes();
    let buy = card_type(CardTypeId::BuyForestPack);
    let coin = card_type(CardTypeId::Coin);

    // Two coins are not enough for a pack that costs three.
    let sid = store.spawn_stack(v2(0, 0), &buy, 1).unwrap();
    let c = store.spawn_stack(v2(100, 0), &coin, 2).unwrap();
    store.merge_stacks(c, sid);
    recipe_check_system(&mut store, &recipes, &vec![]);
    assert_eq!(store.stacks[sid].as_ref().unwrap().ready, None);

    // A third coin completes the price.
    let c2 = store.spawn_stack(v2(100, 0), &coin, 1).unwrap();
    store.merge_stacks(c2, sid);
    recipe_check_system(&mut store, &recipes, &vec![]);
    assert_eq!(store.stacks[sid].as_ref().unwrap().ready, Some(3));

    let seeded = SeededHasherResource::new(42);
    let mut events: Vec<CreateStackEvent> = Vec::new();
    recipe_finished_exclusive_system(&mut store, &recipes, &seeded, &mut events);

    assert_eq!(events.len(), 1);
    assert_eq!(events[0].card_type.id, CardTypeId::ForestPack);
    // All three coins are consumed; the buy card stays.
    let left = card_values(&store, sid);
    assert_eq!(left.len(), 1);
    assert_eq!(left[0].type_id, CardTypeId::BuyForestPack);
}

#[test]
fn creating_a_villager_consumes_the_clay_and_the_coins() {
    let mut store = StackStore::new();
    let recipes = build_recipes();
    let villager = card_type(CardTypeId::Villager);
    let clay = card_type(CardTypeId::Clay);
    let coin = card_type(CardTypeId::Coin);
    let sid = store.spawn_stack(v2(0, 0), &villager, 1).unwrap();
    let a = store.spawn_stack(v2(100, 0), &clay, 2).unwrap();
    let b = store.spawn_stack(v2(200, 0), &coin, 2).unwrap();
    store.merge_stacks(a, sid);
    store.merge_stacks(b, sid);

    recipe_check_system(&mut store, &recipes, &vec![]);
    assert_eq!(store.stacks[sid].as_ref().unwrap().ongoing.unwrap().duration_ms, 5000);
    recipe_timer_update_system(&mut store, 5000, &running());
    let seeded = SeededHasherResource::new(42);
    let mut events: Vec<CreateStackEvent> = Vec::new();
    recipe_finished_exclusive_system(&mut store, &recipes, &seeded, &mut events);

    assert_eq!(events.len(), 1);
    assert_eq!(events[0].card_type.id, CardTypeId::Villager);
    let left = card_values(&store, sid);
    assert_eq!(left.len(), 1);
    assert_eq!(left[0].category, CardCategory::Worker);
}

#[test]
fn finished_recipes_feed_the_next_detection_pass() {
    let mut store = StackStore::new();
    let recipes = build_recipes();
    let sid = tree_worker_stack(&mut store);
    recipe_check_system(&mut store, &recipes, &vec![]);
    recipe_timer_update_system(&mut store, 2000, &running());
    let seeded = SeededHasherResource::new(42);
    let mut events: Vec<CreateStackEvent> = Vec::new();
    let finished = recipe_finished_exclusive_system(&mut store, &recipes, &seeded, &mut events);

    // The stack still holds trees and the worker, so the notification
    // makes detection start the same recipe again.
    let roots: Vec<usize> = finished.iter().map(|&(_, root)| root).collect();
    recipe_check_system(&mut store, &recipes, &roots);
    assert_eq!(
        store.stacks[sid].as_ref().unwrap().ongoing,
        Some(OngoingRecipe { id: 0, elapsed_ms: 0, duration_ms: 2000 })
    );
}
