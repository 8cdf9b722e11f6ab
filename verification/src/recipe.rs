//! Recipe definitions and the checks that decide whether a stack's contents
//! satisfy a recipe.
//!
//! Recipes are static, ordered configuration: a validity predicate over a
//! stack's card sequence, an optional duration, and a completion effect.
//! Registration order is significant: when several recipes match the same
//! stack, the first registered one wins.

use vstd::prelude::*;

use crate::card::{card_type, spec_card_type, Card, CardCategory, CardType, CardTypeId};
use crate::TimeSpeed;
use crate::stack_store::{CreateStackEvent, Stack, StackId, StackStore};

verus! {

/// Identifies a recipe by its position in the registry's registration
/// order.
pub type RecipeId = usize;

/// The in-progress state of a recipe currently running on a stack.
#[derive(Clone, Copy, PartialEq, Eq, Structural, Debug)]
pub struct OngoingRecipe {
    pub id: RecipeId,
    /// How long the recipe has been running, in fixed-point milliseconds of
    /// game time.
    pub elapsed_ms: u64,
    /// Total time the recipe takes.
    pub duration_ms: u64,
}

/// Validity predicate of a recipe: decides whether an ordered card sequence
/// is a valid input for the recipe. A closed tagged union, since the
/// predicate shapes are fixed configuration.
#[derive(Clone, Copy, PartialEq, Eq, Structural, Debug)]
pub enum RecipePredicate {
    /// Exactly one worker, every other card a tree, and at least one tree.
    CuttingTree,
    /// Exactly one log and one worker, nothing else.
    MakingPlank,
    /// Bottom card is the market, and some card on it can be sold.
    SellCards,
    /// Bottom card sells card packs, and there are at least as many coins as
    /// its cost.
    BuyCardPack,
    /// Exactly one worker, two clay and two coins, nothing else.
    CreatingVillager,
}

/// Completion effect of a recipe, applied once per tick over all stacks on
/// which the recipe is ready.
#[derive(Clone, Copy, PartialEq, Eq, Structural, Debug)]
pub enum RecipeEffect {
    /// Consume one use of a tree (deleting it when exhausted) and produce a
    /// log, sometimes an apple too.
    CutTree,
    /// Consume one log and produce a plank.
    MakePlank,
    /// Consume every sellable card and produce one coin per point of value.
    Sell,
    /// Consume coins equal to the pack's cost and produce a card pack.
    BuyPack,
    /// Consume the clay and the coins and produce a villager.
    CreateVillager,
}

/// A static recipe definition.
#[derive(Clone, Copy, PartialEq, Eq, Structural, Debug)]
pub struct Recipe {
    pub predicate: RecipePredicate,
    /// Time the recipe takes, in fixed-point milliseconds of game time.
    /// `None` means the recipe is instant, and can finish even while game
    /// time is paused.
    pub duration_ms: Option<u64>,
    pub effect: RecipeEffect,
}

/// Resource listing all the possible recipes, in registration order.
pub struct Recipes(pub Vec<Recipe>);

impl OngoingRecipe {
    /// How much game time is left before the recipe finishes.
    pub fn remaining_ms(&self) -> (r: u64)
        ensures
            r == if self.elapsed_ms >= self.duration_ms {
                0u64
            } else {
                (self.duration_ms - self.elapsed_ms) as u64
            },
    {
        if self.elapsed_ms >= self.duration_ms {
            0
        } else {
            self.duration_ms - self.elapsed_ms
        }
    }
}

impl View for Recipes {
    type V = Seq<Recipe>;

    open spec fn view(&self) -> Seq<Recipe> {
        self.0@
    }
}

/// Builds a [`Recipes`] registry; registration order establishes priority.
pub struct RecipesBuilder {
    pub recipes: Vec<Recipe>,
}

impl RecipesBuilder {
    pub open spec fn view(&self) -> Seq<Recipe> {
        self.recipes@
    }

    pub fn new() -> (r: RecipesBuilder)
        ensures
            r.view() == Seq::<Recipe>::empty(),
    {
        RecipesBuilder { recipes: Vec::new() }
    }

    /// Registers a timed recipe.
    pub fn with_recipe(
        self,
        predicate: RecipePredicate,
        duration_ms: u64,
        effect: RecipeEffect,
    ) -> (r: RecipesBuilder)
        ensures
            r.view() == self.view().push(
                Recipe { predicate, duration_ms: Some(duration_ms), effect },
            ),
    {
        let mut recipes = self.recipes;
        recipes.push(Recipe { predicate, duration_ms: Some(duration_ms), effect });
        RecipesBuilder { recipes }
    }

    /// Registers an instant recipe: it becomes ready as soon as its
    /// predicate matches, even while game time is paused.
    pub fn with_instant_recipe(self, predicate: RecipePredicate, effect: RecipeEffect) -> (r:
        RecipesBuilder)
        ensures
            r.view() == self.view().push(Recipe { predicate, duration_ms: None, effect }),
    {
        let mut recipes = self.recipes;
        recipes.push(Recipe { predicate, duration_ms: None, effect });
        RecipesBuilder { recipes }
    }

    pub fn build(self) -> (r: Recipes)
        ensures
            r@ == self.view(),
    {
        Recipes(self.recipes)
    }
}

/// How many cards of the sequence were spawned from the given type.
pub open spec fn count_of_type(cards: Seq<Card>, card_type: CardType) -> int
    decreases cards.len(),
{
    if cards.len() == 0 {
        0
    } else {
        count_of_type(cards.drop_last(), card_type) + if cards.last().spec_is_type(card_type) {
            1int
        } else {
            0int
        }
    }
}

/// How many cards of the sequence belong to the given category.
pub open spec fn count_of_category(cards: Seq<Card>, category: CardCategory) -> int
    decreases cards.len(),
{
    if cards.len() == 0 {
        0
    } else {
        count_of_category(cards.drop_last(), category) + if cards.last().category == category {
            1int
        } else {
            0int
        }
    }
}

/// Whether some card of the sequence can be sold.
pub open spec fn contains_sellable(cards: Seq<Card>) -> bool {
    exists|i: int| 0 <= i < cards.len() && (#[trigger] cards[i]).spec_sellable()
}

pub proof fn lemma_count_of_type_le_len(cards: Seq<Card>, card_type: CardType)
    ensures
        0 <= count_of_type(cards, card_type) <= cards.len(),
    decreases cards.len(),
{
    if cards.len() > 0 {
        lemma_count_of_type_le_len(cards.drop_last(), card_type);
    }
}

/// Convenience structure passed to recipe validity checks, wrapping the
/// ordered card contents of one stack (bottom first).
pub struct StackCheck(pub Vec<Card>);

impl View for StackCheck {
    type V = Seq<Card>;

    open spec fn view(&self) -> Seq<Card> {
        self.0@
    }
}

impl StackCheck {
    pub fn len(&self) -> (r: usize)
        ensures
            r == self@.len(),
    {
        self.0.len()
    }

    /// Whether the bottom card of the stack is of the given type.
    pub fn bottom_card_is_type(&self, card_type: &CardType) -> (r: bool)
        ensures
            r == (self@.len() > 0 && self@[0].spec_is_type(*card_type)),
    {
        if self.0.len() > 0 {
            self.0[0].is_type(card_type)
        } else {
            false
        }
    }

    /// Counts the cards of the given type.
    pub fn count_cards_of_type(&self, card_type: &CardType) -> (r: usize)
        ensures
            r == count_of_type(self@, *card_type),
    {
        proof {
            lemma_count_of_type_le_len(self@, *card_type);
        }
        let mut count: usize = 0;
        let mut i: usize = 0;
        while i < self.0.len()
            invariant
                i <= self@.len(),
                count == count_of_type(self@.take(i as int), *card_type),
                count <= i,
            decreases self@.len() - i,
        {
            proof {
                assert(self@.take(i + 1).drop_last() =~= self@.take(i as int));
                assert(self@.take(i + 1).last() == self@[i as int]);
            }
            if self.0[i].is_type(card_type) {
                count = count + 1;
            }
            i = i + 1;
        }
        proof {
            assert(self@.take(self@.len() as int) =~= self@);
        }
        count
    }

    /// Counts the cards of the given category.
    pub fn count_cards_of_category(&self, category: CardCategory) -> (r: usize)
        ensures
            r == count_of_category(self@, category),
    {
        let mut count: usize = 0;
        let mut i: usize = 0;
        while i < self.0.len()
            invariant
                i <= self@.len(),
                count == count_of_category(self@.take(i as int), category),
                count <= i,
            decreases self@.len() - i,
        {
            proof {
                assert(self@.take(i + 1).drop_last() =~= self@.take(i as int));
                assert(self@.take(i + 1).last() == self@[i as int]);
            }
            if self.0[i].category == category {
                count = count + 1;
            }
            i = i + 1;
        }
        proof {
            assert(self@.take(self@.len() as int) =~= self@);
        }
        count
    }

    /// Whether exactly one card of the stack is of the given type.
    pub fn contains_exactly_one_of_type(&self, card_type: &CardType) -> (r: bool)
        ensures
            r == (count_of_type(self@, *card_type) == 1),
    {
        self.count_cards_of_type(card_type) == 1
    }

    /// Whether exactly `amount` cards of the stack are of the given type.
    pub fn contains_n_of_type(&self, card_type: &CardType, amount: usize) -> (r: bool)
        ensures
            r == (count_of_type(self@, *card_type) == amount),
    {
        self.count_cards_of_type(card_type) == amount
    }

    /// Whether exactly one card of the stack belongs to the given category.
    pub fn contains_exactly_one_of_category(&self, category: CardCategory) -> (r: bool)
        ensures
            r == (count_of_category(self@, category) == 1),
    {
        self.count_cards_of_category(category) == 1
    }

    /// Whether some card of the stack can be sold.
    pub fn contains_sellable_card(&self) -> (r: bool)
        ensures
            r == contains_sellable(self@),
    {
        let mut i: usize = 0;
        while i < self.0.len()
            invariant
                i <= self@.len(),
                forall|j: int| 0 <= j < i ==> !(#[trigger] self@[j]).spec_sellable(),
            decreases self@.len() - i,
        {
            if self.0[i].sellable() {
                return true;
            }
            i = i + 1;
        }
        false
    }
}

/// What each validity predicate says of an ordered card sequence.
pub open spec fn spec_recipe_valid(predicate: RecipePredicate, cards: Seq<Card>) -> bool {
    match predicate {
        RecipePredicate::CuttingTree => count_of_category(cards, CardCategory::Worker) == 1
            && count_of_type(cards, spec_card_type(CardTypeId::Tree)) == cards.len() - 1
            && cards.len() > 1,
        RecipePredicate::MakingPlank => cards.len() == 2 && count_of_type(
            cards,
            spec_card_type(CardTypeId::Log),
        ) == 1 && count_of_category(cards, CardCategory::Worker) == 1,
        RecipePredicate::SellCards => cards.len() > 0 && cards[0].spec_is_type(
            spec_card_type(CardTypeId::Market),
        ) && contains_sellable(cards),
        RecipePredicate::BuyCardPack => cards.len() > 0 && cards[0].spec_is_type(
            spec_card_type(CardTypeId::BuyForestPack),
        ) && cards[0].value is Some && count_of_type(cards, spec_card_type(CardTypeId::Coin))
            >= cards[0].value->0,
        RecipePredicate::CreatingVillager => cards.len() == 5 && count_of_category(
            cards,
            CardCategory::Worker,
        ) == 1 && count_of_type(cards, spec_card_type(CardTypeId::Clay)) == 2 && count_of_type(
            cards,
            spec_card_type(CardTypeId::Coin),
        ) == 2,
    }
}

/// Evaluates a recipe's validity predicate on a stack's contents.
pub fn recipe_is_valid(predicate: &RecipePredicate, check: &StackCheck) -> (r: bool)
    ensures
        r == spec_recipe_valid(*predicate, check@),
{
    match predicate {
        RecipePredicate::CuttingTree => {
            let tree = card_type(CardTypeId::Tree);
            check.contains_exactly_one_of_category(CardCategory::Worker) && check.len() > 1
                && check.contains_n_of_type(&tree, check.len() - 1)
        },
        RecipePredicate::MakingPlank => {
            let log = card_type(CardTypeId::Log);
            check.len() == 2 && check.contains_exactly_one_of_type(&log)
                && check.contains_exactly_one_of_category(CardCategory::Worker)
        },
        RecipePredicate::SellCards => {
            let market = card_type(CardTypeId::Market);
            check.bottom_card_is_type(&market) && check.contains_sellable_card()
        },
        RecipePredicate::BuyCardPack => {
            let buy_pack = card_type(CardTypeId::BuyForestPack);
            if check.bottom_card_is_type(&buy_pack) {
                match check.0[0].value {
                    Some(cost) => {
                        let coin = card_type(CardTypeId::Coin);
                        proof {
                            lemma_count_of_type_le_len(check@, spec_card_type(CardTypeId::Coin));
                        }
                        (check.count_cards_of_type(&coin) as u64) >= cost
                    },
                    None => false,
                }
            } else {
                false
            }
        },
        RecipePredicate::CreatingVillager => {
            let clay = card_type(CardTypeId::Clay);
            let coin = card_type(CardTypeId::Coin);
            check.len() == 5 && check.contains_exactly_one_of_category(CardCategory::Worker)
                && check.contains_n_of_type(&clay, 2) && check.contains_n_of_type(&coin, 2)
        },
    }
}

/// Index of the first recipe in registration order whose predicate matches
/// the card sequence, or `-1` when none does.
pub open spec fn first_matching_recipe(recipes: Seq<Recipe>, cards: Seq<Card>) -> int
    decreases recipes.len(),
{
    if recipes.len() == 0 {
        -1
    } else if spec_recipe_valid(recipes[0].predicate, cards) {
        0
    } else {
        let rest = first_matching_recipe(recipes.drop_first(), cards);
        if rest == -1 {
            -1
        } else {
            rest + 1
        }
    }
}

/// A match with no earlier match is the first one.
pub proof fn lemma_first_matching_recipe(recipes: Seq<Recipe>, cards: Seq<Card>, i: int)
    requires
        0 <= i < recipes.len(),
        spec_recipe_valid(recipes[i].predicate, cards),
        forall|j: int| 0 <= j < i ==> !spec_recipe_valid(recipes[j].predicate, cards),
    ensures
        first_matching_recipe(recipes, cards) == i,
    decreases i,
{
    if i > 0 {
        let rest = recipes.drop_first();
        assert(forall|j: int| 0 <= j < i - 1 ==> rest[j] == recipes[j + 1]);
        assert(rest[i - 1] == recipes[i]);
        lemma_first_matching_recipe(rest, cards, i - 1);
    }
}

/// A registry with no matching recipe has no first match.
pub proof fn lemma_first_matching_recipe_absent(recipes: Seq<Recipe>, cards: Seq<Card>)
    requires
        forall|j: int| 0 <= j < recipes.len() ==> !spec_recipe_valid(recipes[j].predicate, cards),
    ensures
        first_matching_recipe(recipes, cards) == -1,
    decreases recipes.len(),
{
    if recipes.len() > 0 {
        let rest = recipes.drop_first();
        assert(forall|j: int| 0 <= j < rest.len() ==> rest[j] == recipes[j + 1]);
        lemma_first_matching_recipe_absent(rest, cards);
    }
}

/// Scans the registry in registration order for the first recipe whose
/// predicate matches the stack's contents ("first registered wins": this is
/// the tie-break when several recipes could match).
pub fn find_first_matching_recipe(recipes: &Recipes, check: &StackCheck) -> (r: Option<RecipeId>)
    ensures
        r is None <==> first_matching_recipe(recipes@, check@) == -1,
        r matches Some(id) ==> id == first_matching_recipe(recipes@, check@) && id < recipes@.len()
            && spec_recipe_valid(recipes@[id as int].predicate, check@),
    {
    let mut i: usize = 0;
    while i < recipes.0.len()
        invariant
            i <= recipes@.len(),
            forall|j: int|
                0 <= j < i ==> !spec_recipe_valid(
                    (#[trigger] recipes@[j]).predicate,
                    check@,
                ),
        decreases recipes@.len() - i,
    {
        let predicate = recipes.0[i].predicate;
        if recipe_is_valid(&predicate, check) {
            proof {
                lemma_first_matching_recipe(recipes@, check@, i as int);
            }
            return Some(i);
        }
        i = i + 1;
    }
    proof {
        lemma_first_matching_recipe_absent(recipes@, check@);
    }
    None
}

/// Whether the stack's currently-assigned ongoing recipe (if any) is still
/// registered and its predicate still matches the stack's contents.
pub open spec fn spec_ongoing_valid(
    maybe_ongoing: Option<OngoingRecipe>,
    cards: Seq<Card>,
    recipes: Seq<Recipe>,
) -> bool {
    match maybe_ongoing {
        None => false,
        Some(ongoing) => ongoing.id < recipes.len() && spec_recipe_valid(
            recipes[ongoing.id as int].predicate,
            cards,
        ),
    }
}

/// Re-validates an ongoing recipe against a stack's current contents.
/// `false` when there is no ongoing recipe, when its id is not registered,
/// or when its predicate no longer matches.
pub fn is_ongoing_recipe_valid_for_stack(
    maybe_ongoing: &Option<OngoingRecipe>,
    stack_check: &StackCheck,
    recipes: &Recipes,
) -> (r: bool)
    ensures
        r == spec_ongoing_valid(*maybe_ongoing, stack_check@, recipes@),
{
    match maybe_ongoing {
        None => false,
        Some(ongoing) => {
            if ongoing.id < recipes.0.len() {
                let predicate = recipes.0[ongoing.id].predicate;
                recipe_is_valid(&predicate, stack_check)
            } else {
                false
            }
        },
    }
}

/// The recipe-state invariant of one stack: its ongoing recipe is `None` or
/// refers to a recipe whose predicate currently matches the stack's card
/// sequence. Holds of every live stack after every detection pass.
pub open spec fn ongoing_recipe_ok(store: StackStore, recipes: Seq<Recipe>, sid: StackId) -> bool {
    store.stack_at(sid).ongoing is Some ==> spec_ongoing_valid(
        store.stack_at(sid).ongoing,
        store.stack_card_values(sid),
        recipes,
    )
}

/// What one detection step leaves behind on one stack. Unchecked stacks are
/// untouched; a still-valid ongoing recipe is kept; otherwise the first
/// matching recipe is started (timed) or made ready at once (instant), and
/// with no match any ongoing recipe is abandoned.
pub open spec fn spec_detection_result(
    pre: StackStore,
    post: StackStore,
    recipes: Seq<Recipe>,
    sid: StackId,
    finished: Seq<StackId>,
) -> bool {
    let st = pre.stack_at(sid);
    let vals = pre.stack_card_values(sid);
    if !st.changed && !finished.contains(sid) {
        post.stacks@[sid as int] == pre.stacks@[sid as int]
    } else if spec_ongoing_valid(st.ongoing, vals, recipes) {
        post.stack_at(sid) == Stack { changed: false, ..st }
    } else {
        let m = first_matching_recipe(recipes, vals);
        if m == -1 {
            post.stack_at(sid) == Stack { ongoing: None, changed: false, ..st }
        } else if recipes[m].duration_ms is Some {
            post.stack_at(sid) == Stack {
                ongoing: Some(
                    OngoingRecipe {
                        id: m as RecipeId,
                        elapsed_ms: 0,
                        duration_ms: recipes[m].duration_ms->0,
                    },
                ),
                changed: false,
                ..st
            }
        } else {
            post.stack_at(sid) == Stack {
                ongoing: None,
                ready: Some(m as RecipeId),
                changed: false,
                ..st
            }
        }
    }
}

/// The recipe-detection pass: re-validates every stack whose card sequence
/// changed since the last pass, and every stack on which a recipe just
/// finished. A still-matching ongoing recipe is kept; otherwise the
/// registry is scanned in registration order and the first match is started
/// (instant recipes become ready at once); with no match the ongoing recipe
/// is abandoned. Afterwards every live stack's ongoing recipe matches its
/// contents.
#[verifier::rlimit(100)]
pub fn recipe_check_system(store: &mut StackStore, recipes: &Recipes, finished: &Vec<StackId>)
    requires
        old(store).wf(),
        forall|sid: StackId|
            old(store).stack_live(sid) && !old(store).stack_at(sid).changed
                && !finished@.contains(sid) ==> ongoing_recipe_ok(*old(store), recipes@, sid),
    ensures
        final(store).wf(),
        // The detection invariant: every live stack's ongoing recipe (if
        // any) matches its current card sequence.
        forall|sid: StackId|
            final(store).stack_live(sid) ==> ongoing_recipe_ok(*final(store), recipes@, sid),
        forall|sid: StackId|
            final(store).stack_live(sid) ==> !final(store).stack_at(sid).changed,
        forall|sid: StackId|
            old(store).stack_live(sid) ==> spec_detection_result(
                *old(store),
                *final(store),
                recipes@,
                sid,
                finished@,
            ),
        final(store).cards@ == old(store).cards@,
        final(store).stacks@.len() == old(store).stacks@.len(),
        forall|sid: StackId| final(store).stack_live(sid) <==> old(store).stack_live(sid),
        forall|sid: StackId|
            old(store).stack_live(sid) ==> final(store).stack_at(sid).cards@ == old(
                store,
            ).stack_at(sid).cards@ && final(store).stack_at(sid).pos == old(store).stack_at(
                sid,
            ).pos && final(store).stack_at(sid).motion == old(store).stack_at(sid).motion,
        final(store).hovered == old(store).hovered,
    {
        let ghost pre = *store;
        let mut sid: usize = 0;
        let n = store.stacks.len();
        while sid < n
            invariant
                sid <= n,
                n == pre.stacks@.len(),
                store.wf(),
                pre.wf(),
                forall|s2: StackId|
                    pre.stack_live(s2) && !pre.stack_at(s2).changed && !finished@.contains(s2)
                        ==> ongoing_recipe_ok(pre, recipes@, s2),
                store.cards@ == pre.cards@,
                store.stacks@.len() == pre.stacks@.len(),
                store.hovered == pre.hovered,
                forall|s2: StackId| store.stack_live(s2) <==> pre.stack_live(s2),
                forall|s2: StackId|
                    s2 >= sid && s2 < n ==> store.stacks@[s2 as int] == pre.stacks@[s2 as int],
                forall|s2: StackId|
                    s2 < sid && pre.stack_live(s2) ==> spec_detection_result(
                        pre,
                        *store,
                        recipes@,
                        s2,
                        finished@,
                    ) && !store.stack_at(s2).changed && ongoing_recipe_ok(*store, recipes@, s2),
                forall|s2: StackId|
                    pre.stack_live(s2) ==> store.stack_at(s2).cards@ == pre.stack_at(s2).cards@
                        && store.stack_at(s2).pos == pre.stack_at(s2).pos && store.stack_at(
                        s2,
                    ).motion == pre.stack_at(s2).motion,
            decreases n - sid,
        {
            let ghost mid = *store;
            let live = match &store.stacks[sid] {
                Some(_) => true,
                None => false,
            };
            if live {
                let (changed, ongoing) = match &store.stacks[sid] {
                    Some(s) => (s.changed, s.ongoing),
                    None => (false, None),
                };
                if changed || contains_stack(finished, sid) {
                    let check = store.stack_check(sid);
                    proof {
                        assert(store.stack_card_values(sid) =~= pre.stack_card_values(sid));
                    }
                    let still_valid = is_ongoing_recipe_valid_for_stack(&ongoing, &check, recipes);
                    if still_valid {
                        match &mut store.stacks[sid] {
                            Some(s) => {
                                s.changed = false;
                            },
                            None => {
                                proof {
                                    assert(false);
                                }
                            },
                        }
                        proof {
                            assert(store.stack_at(sid) == Stack {
                                changed: false,
                                ..pre.stack_at(sid)
                            });
                            assert(store.stack_card_values(sid) =~= pre.stack_card_values(sid));
                            assert(spec_detection_result(pre, *store, recipes@, sid, finished@));
                            assert(ongoing_recipe_ok(*store, recipes@, sid));
                        }
                    } else {
                        match find_first_matching_recipe(recipes, &check) {
                            Some(id) => {
                                let duration = recipes.0[id].duration_ms;
                                match &mut store.stacks[sid] {
                                    Some(s) => {
                                        match duration {
                                            Some(duration_ms) => {
                                                s.ongoing = Some(
                                                    OngoingRecipe { id, elapsed_ms: 0, duration_ms },
                                                );
                                            },
                                            None => {
                                                // This recipe is instant, so it
                                                // is immediately ready.
                                                s.ongoing = None;
                                                s.ready = Some(id);
                                            },
                                        }
                                        s.changed = false;
                                    },
                                    None => {
                                        proof {
                                            assert(false);
                                        }
                                    },
                                }
                                proof {
                                    assert(store.stack_card_values(sid) =~= pre.stack_card_values(
                                        sid,
                                    ));
                                    assert(spec_detection_result(
                                        pre,
                                        *store,
                                        recipes@,
                                        sid,
                                        finished@,
                                    ));
                                    assert(ongoing_recipe_ok(*store, recipes@, sid));
                                }
                            },
                            None => {
                                match &mut store.stacks[sid] {
                                    Some(s) => {
                                        s.ongoing = None;
                                        s.changed = false;
                                    },
                                    None => {
                                        proof {
                                            assert(false);
                                        }
                                    },
                                }
                                proof {
                                    assert(store.stack_at(sid) == Stack {
                                        ongoing: None,
                                        changed: false,
                                        ..pre.stack_at(sid)
                                    });
                                    assert(spec_detection_result(
                                        pre,
                                        *store,
                                        recipes@,
                                        sid,
                                        finished@,
                                    ));
                                    assert(ongoing_recipe_ok(*store, recipes@, sid));
                                }
                            },
                        }
                    }
                } else {
                    proof {
                        assert(store.stacks@[sid as int] == pre.stacks@[sid as int]);
                        assert(pre.stack_live(sid));
                        assert(!pre.stack_at(sid).changed);
                        assert(!finished@.contains(sid));
                        assert(ongoing_recipe_ok(pre, recipes@, sid));
                        assert(spec_detection_result(pre, *store, recipes@, sid, finished@));
                        assert(store.stack_card_values(sid) =~= pre.stack_card_values(sid));
                        assert(store.stack_card_values(sid) == pre.stack_card_values(sid));
                        assert(ongoing_recipe_ok(*store, recipes@, sid));
                    }
                }
            }
            proof {
                let post = *store;
                assert(post.cards@ == pre.cards@);
                assert forall|s2: StackId| post.stack_live(s2) implies post.stack_entry_wf(
                    s2,
                ) by {
                    assert(mid.stack_live(s2));
                    assert(mid.stack_entry_wf(s2));
                    assert(post.stack_cards(s2) == mid.stack_cards(s2));
                    assert forall|k: int|
                        0 <= k < post.stack_cards(s2).len() implies post.card_live(
                        #[trigger] post.stack_cards(s2)[k],
                    ) && post.card_at(post.stack_cards(s2)[k]) == mid.card_at(
                        post.stack_cards(s2)[k],
                    ) by {
                        assert(mid.card_live(post.stack_cards(s2)[k]));
                    }
                }
                assert forall|c2: crate::stack_store::CardId| post.card_live(c2) implies
                    post.card_entry_wf(c2) by {
                    assert(mid.card_live(c2));
                    assert(mid.card_entry_wf(c2));
                    let owner = mid.card_at(c2).stack;
                    assert(post.stack_cards(owner) == mid.stack_cards(owner));
                }
                assert forall|s2: StackId|
                    s2 < sid + 1 && pre.stack_live(s2) implies spec_detection_result(
                    pre,
                    post,
                    recipes@,
                    s2,
                    finished@,
                ) && !post.stack_at(s2).changed && ongoing_recipe_ok(post, recipes@, s2) by {
                    assert(post.stack_card_values(s2) =~= pre.stack_card_values(s2));
                    if s2 < sid {
                        assert(post.stacks@[s2 as int] == mid.stacks@[s2 as int]);
                        assert(spec_detection_result(pre, mid, recipes@, s2, finished@));
                        assert(mid.stack_card_values(s2) =~= post.stack_card_values(s2));
                    }
                }
            }
            sid = sid + 1;
        }
        proof {
            assert forall|s2: StackId|
                final(store).stack_live(s2) implies ongoing_recipe_ok(
                *final(store),
                recipes@,
                s2,
            ) && !final(store).stack_at(s2).changed by {
                assert(pre.stack_live(s2));
                assert(s2 < n);
            }
        }
    }

/// Whether `v` holds `sid`.
pub fn contains_stack(v: &Vec<StackId>, sid: StackId) -> (r: bool)
    ensures
        r == v@.contains(sid),
{
    let mut i: usize = 0;
    while i < v.len()
        invariant
            i <= v@.len(),
            forall|j: int| 0 <= j < i ==> v@[j] != sid,
        decreases v@.len() - i,
    {
        if v[i] == sid {
            assert(v@[i as int] == sid);
            return true;
        }
        i = i + 1;
    }
    false
}

/// The recipe-timing pass: advances every ongoing recipe's timer by the
/// tick's game-time delta (wall-clock delta scaled by the speed factor,
/// zero while paused), and marks the recipe ready when its time has
/// elapsed. A paused game suspends every timer exactly where it is.
pub fn recipe_timer_update_system(store: &mut StackStore, delta_ms: u64, speed: &TimeSpeed)
    requires
        old(store).wf(),
        delta_ms < 0x1_0000_0000,
    ensures
        final(store).wf(),
        final(store).cards@ == old(store).cards@,
        final(store).stacks@.len() == old(store).stacks@.len(),
        forall|sid: StackId| final(store).stack_live(sid) <==> old(store).stack_live(sid),
        final(store).hovered == old(store).hovered,
        forall|sid: StackId|
            old(store).stack_live(sid) ==> spec_timer_result(
                *old(store),
                *final(store),
                sid,
                delta_ms,
                *speed,
            ),
    {
        let ghost pre = *store;
        let factor = speed.effective_factor();
        let mut sid: usize = 0;
        let n = store.stacks.len();
        while sid < n
            invariant
                sid <= n,
                n == pre.stacks@.len(),
                store.wf(),
                pre.wf(),
                delta_ms < 0x1_0000_0000,
                factor == speed.spec_effective_factor(),
                store.cards@ == pre.cards@,
                store.stacks@.len() == pre.stacks@.len(),
                store.hovered == pre.hovered,
                forall|s2: StackId| store.stack_live(s2) <==> pre.stack_live(s2),
                forall|s2: StackId|
                    s2 >= sid && s2 < n ==> store.stacks@[s2 as int] == pre.stacks@[s2 as int],
                forall|s2: StackId|
                    s2 < sid && pre.stack_live(s2) ==> spec_timer_result(
                        pre,
                        *store,
                        s2,
                        delta_ms,
                        *speed,
                    ),
            decreases n - sid,
        {
            let ghost mid = *store;
            let ongoing = match &store.stacks[sid] {
                Some(s) => s.ongoing,
                None => None,
            };
            match ongoing {
                Some(o) => {
                    let progress = delta_ms * factor;
                    let advanced = if o.elapsed_ms >= o.duration_ms || progress
                        >= o.duration_ms - o.elapsed_ms {
                        o.duration_ms
                    } else {
                        o.elapsed_ms + progress
                    };
                    match &mut store.stacks[sid] {
                        Some(s) => {
                            if advanced >= o.duration_ms {
                                s.ready = Some(o.id);
                                s.ongoing = None;
                            } else {
                                s.ongoing = Some(
                                    OngoingRecipe {
                                        id: o.id,
                                        elapsed_ms: advanced,
                                        duration_ms: o.duration_ms,
                                    },
                                );
                            }
                        },
                        None => {
                            proof {
                                assert(false);
                            }
                        },
                    }
                },
                None => {},
            }
            proof {
                let post = *store;
                assert forall|s2: StackId| post.stack_live(s2) implies post.stack_entry_wf(
                    s2,
                ) by {
                    assert(mid.stack_live(s2));
                    assert(mid.stack_entry_wf(s2));
                    assert(post.stack_cards(s2) == mid.stack_cards(s2));
                    assert forall|k: int|
                        0 <= k < post.stack_cards(s2).len() implies post.card_live(
                        #[trigger] post.stack_cards(s2)[k],
                    ) && post.card_at(post.stack_cards(s2)[k]) == mid.card_at(
                        post.stack_cards(s2)[k],
                    ) by {
                        assert(mid.card_live(post.stack_cards(s2)[k]));
                    }
                }
                assert forall|c2: crate::stack_store::CardId| post.card_live(c2) implies
                    post.card_entry_wf(c2) by {
                    assert(mid.card_live(c2));
                    assert(mid.card_entry_wf(c2));
                    let owner = mid.card_at(c2).stack;
                    assert(post.stack_cards(owner) == mid.stack_cards(owner));
                }
            }
            sid = sid + 1;
        }
    }

/// The ready (recipe, stack) pairs among the first `n` stacks, in arena
/// order: the exact notification list the completion phase reports, one
/// pair per ready stack.
pub open spec fn spec_ready_pairs(store: StackStore, n: int) -> Seq<(RecipeId, StackId)>
    decreases n,
{
    if n <= 0 {
        Seq::empty()
    } else {
        let rest = spec_ready_pairs(store, n - 1);
        if store.stack_live((n - 1) as StackId) && store.stack_at((n - 1) as StackId).ready
            is Some {
            rest.push((store.stack_at((n - 1) as StackId).ready->0, (n - 1) as StackId))
        } else {
            rest
        }
    }
}

/// The store with every ready marker cleared and nothing else changed.
pub open spec fn spec_cleared_rel(pre: StackStore, post: StackStore) -> bool {
    &&& post.cards@ == pre.cards@
    &&& post.hovered == pre.hovered
    &&& post.stacks@.len() == pre.stacks@.len()
    &&& (forall|sid: StackId| post.stack_live(sid) <==> pre.stack_live(sid))
    &&& (forall|sid: StackId|
        pre.stack_live(sid) ==> post.stack_at(sid) == (Stack {
            ready: None,
            ..pre.stack_at(sid)
        }))
    &&& (forall|sid: StackId|
        sid < pre.stacks@.len() && !pre.stack_live(sid) ==> post.stacks@[sid as int]
            == pre.stacks@[sid as int])
}

/// The ready roots of one recipe among the notifications, in order.
pub open spec fn spec_roots_of(pairs: Seq<(RecipeId, StackId)>, rid: RecipeId) -> Seq<StackId>
    decreases pairs.len(),
{
    if pairs.len() == 0 {
        Seq::empty()
    } else {
        let rest = spec_roots_of(pairs.drop_last(), rid);
        if pairs.last().0 == rid {
            rest.push(pairs.last().1)
        } else {
            rest
        }
    }
}

/// The store and event list after running, in registration order, the
/// effects of the first `rid` recipes: each recipe with at least one ready
/// root has its effect folded over all those roots at once, and a recipe
/// with none runs nothing.
pub open spec fn spec_completion_fold(
    recipes: Seq<Recipe>,
    seeded: crate::procedural::SeededHasherResource,
    pairs: Seq<(RecipeId, StackId)>,
    pre: StackStore,
    post: StackStore,
    ev_pre: Seq<CreateStackEvent>,
    ev_post: Seq<CreateStackEvent>,
    rid: int,
) -> bool
    decreases rid,
{
    if rid <= 0 {
        post == pre && ev_post == ev_pre
    } else {
        let roots = spec_roots_of(pairs, (rid - 1) as RecipeId);
        if roots.len() == 0 {
            spec_completion_fold(recipes, seeded, pairs, pre, post, ev_pre, ev_post, rid - 1)
        } else {
            exists|mid_store: StackStore, mid_ev: Seq<CreateStackEvent>|
                #[trigger] crate::recipe_defines::spec_effect_fold(
                    recipes[rid - 1].effect,
                    seeded,
                    mid_store,
                    post,
                    roots,
                    mid_ev,
                    ev_post,
                    roots.len() as int,
                ) && spec_completion_fold(
                    recipes,
                    seeded,
                    pairs,
                    pre,
                    mid_store,
                    ev_pre,
                    mid_ev,
                    rid - 1,
                )
        }
    }
}

/// Applies all the finished recipes: in registration order, each recipe
/// with at least one notified root has its effect run once over all those
/// roots together.
fn apply_finished_recipes(
    store: &mut StackStore,
    recipes: &Recipes,
    seeded: &crate::procedural::SeededHasherResource,
    finished: &Vec<(RecipeId, StackId)>,
    events: &mut Vec<CreateStackEvent>,
)
    requires
        old(store).wf(),
    ensures
        final(store).wf(),
        final(events)@.len() >= old(events)@.len(),
        final(events)@.subrange(0, old(events)@.len() as int) == old(events)@,
        forall|sid: StackId|
            final(store).stack_live(sid) ==> old(store).stack_live(sid)
                && final(store).stack_at(sid).ready == old(store).stack_at(sid).ready,
        spec_completion_fold(
            recipes@,
            *seeded,
            finished@,
            *old(store),
            *final(store),
            old(events)@,
            final(events)@,
            recipes@.len() as int,
        ),
{
    let mut rid: usize = 0;
    while rid < recipes.0.len()
        invariant
            rid <= recipes@.len(),
            store.wf(),
            events@.len() >= old(events)@.len(),
            events@.subrange(0, old(events)@.len() as int) == old(events)@,
            forall|s2: StackId|
                store.stack_live(s2) ==> old(store).stack_live(s2) && store.stack_at(s2).ready
                    == old(store).stack_at(s2).ready,
            spec_completion_fold(
                recipes@,
                *seeded,
                finished@,
                *old(store),
                *store,
                old(events)@,
                events@,
                rid as int,
            ),
        decreases recipes.0.len() - rid,
    {
        let ghost mid = *store;
        let ghost mid_events = events@;
        let mut ready_roots: Vec<StackId> = Vec::new();
        let mut k: usize = 0;
        while k < finished.len()
            invariant
                k <= finished@.len(),
                ready_roots@ == spec_roots_of(finished@.take(k as int), rid),
            decreases finished@.len() - k,
        {
            proof {
                assert(finished@.take(k + 1).drop_last() =~= finished@.take(k as int));
                assert(finished@.take(k + 1).last() == finished@[k as int]);
            }
            let (fid, froot) = finished[k];
            if fid == rid {
                ready_roots.push(froot);
            }
            k = k + 1;
        }
        proof {
            assert(finished@.take(finished@.len() as int) =~= finished@);
            assert(ready_roots@ == spec_roots_of(finished@, rid));
            assert(((rid as int + 1) - 1) as RecipeId == rid);
        }
        if ready_roots.len() > 0 {
            let effect = recipes.0[rid].effect;
            crate::recipe_defines::apply_recipe_effect(store, effect, &ready_roots, seeded, events);
            proof {
                assert(events@.subrange(0, old(events)@.len() as int) =~= old(events)@);
                assert forall|s2: StackId|
                    store.stack_live(s2) implies old(store).stack_live(s2) && store.stack_at(
                    s2,
                ).ready == old(store).stack_at(s2).ready by {
                    assert(mid.stack_live(s2));
                }
                assert(crate::recipe_defines::spec_effect_fold(
                    recipes@[rid as int].effect,
                    *seeded,
                    mid,
                    *store,
                    ready_roots@,
                    mid_events,
                    events@,
                    ready_roots@.len() as int,
                ));
                assert(spec_completion_fold(
                    recipes@,
                    *seeded,
                    finished@,
                    *old(store),
                    *store,
                    old(events)@,
                    events@,
                    rid as int + 1,
                ));
            }
        } else {
            proof {
                assert(spec_roots_of(finished@, rid).len() == 0);
                assert(spec_completion_fold(
                    recipes@,
                    *seeded,
                    finished@,
                    *old(store),
                    *store,
                    old(events)@,
                    events@,
                    rid as int + 1,
                ));
            }
        }
        rid = rid + 1;
    }
}

/// The exclusive recipe-completion phase, run once per tick after every
/// other mutation-producing pass. Collects every stack whose recipe is
/// ready, clears all ready markers, and then applies each recipe's effect
/// exactly once, over all stacks that recipe is ready on together. Effects
/// consume cards through the store and request new stacks through creation
/// events, which the next tick's creation pass spawns. Returns one
/// finished-recipe notification per (recipe, stack) pair, which feeds the
/// next detection pass.
#[verifier::rlimit(100)]
pub fn recipe_finished_exclusive_system(
    store: &mut StackStore,
    recipes: &Recipes,
    seeded: &crate::procedural::SeededHasherResource,
    events: &mut Vec<CreateStackEvent>,
) -> (finished: Vec<(RecipeId, StackId)>)
    requires
        old(store).wf(),
    ensures
        final(store).wf(),
        final(events)@.len() >= old(events)@.len(),
        final(events)@.subrange(0, old(events)@.len() as int) == old(events)@,
        // The notifications are exactly the ready stacks, one pair each, in
        // arena order.
        finished@ == spec_ready_pairs(*old(store), old(store).stacks@.len() as int),
        // Every ready marker is cleared by the end of the phase.
        forall|sid: StackId|
            final(store).stack_live(sid) ==> final(store).stack_at(sid).ready is None,
        // The final store and events result from clearing the markers and
        // then running, in registration order, each notified recipe's
        // effect over all its ready roots at once.
        exists|cleared: StackStore|
            #[trigger] spec_cleared_rel(*old(store), cleared) && spec_completion_fold(
                recipes@,
                *seeded,
                finished@,
                cleared,
                *final(store),
                old(events)@,
                final(events)@,
                recipes@.len() as int,
            ),
{
    let ghost pre = *store;

    // See which recipes have finished, and the stacks they apply to; clear
    // the markers as they are collected.
    let mut finished: Vec<(RecipeId, StackId)> = Vec::new();
    let mut sid: usize = 0;
    let n = store.stacks.len();
    while sid < n
        invariant
            sid <= n,
            n == pre.stacks@.len(),
            store.wf(),
            pre.wf(),
            store.cards@ == pre.cards@,
            store.stacks@.len() == pre.stacks@.len(),
            store.hovered == pre.hovered,
            forall|s2: StackId| store.stack_live(s2) <==> pre.stack_live(s2),
            forall|s2: StackId|
                s2 >= sid && s2 < n ==> store.stacks@[s2 as int] == pre.stacks@[s2 as int],
            forall|s2: StackId|
                s2 < sid && pre.stack_live(s2) ==> store.stack_at(s2) == (Stack {
                    ready: None,
                    ..pre.stack_at(s2)
                }),
            forall|s2: StackId|
                s2 < sid && !pre.stack_live(s2) ==> store.stacks@[s2 as int] == pre.stacks@[s2
                    as int],
            finished@ == spec_ready_pairs(pre, sid as int),
        decreases n - sid,
    {
        let ghost mid = *store;
        let ready = match &store.stacks[sid] {
            Some(s) => s.ready,
            None => None,
        };
        match ready {
            Some(id) => {
                match &mut store.stacks[sid] {
                    Some(s) => {
                        s.ready = None;
                    },
                    None => {
                        proof {
                            assert(false);
                        }
                    },
                }
                finished.push((id, sid));
                proof {
                    assert(pre.stack_live(sid) && pre.stack_at(sid).ready == Some(id));
                    assert(finished@ == spec_ready_pairs(pre, sid as int + 1));
                }
            },
            None => {
                proof {
                    if sid < n && mid.stack_live(sid) {
                        assert(store.stack_at(sid) == (Stack {
                            ready: None,
                            ..pre.stack_at(sid)
                        }));
                    }
                }
            },
        }
        proof {
            let post = *store;
            assert forall|s2: StackId| post.stack_live(s2) implies post.stack_entry_wf(s2) by {
                assert(mid.stack_live(s2));
                assert(mid.stack_entry_wf(s2));
                assert(post.stack_cards(s2) == mid.stack_cards(s2));
                assert forall|k: int|
                    0 <= k < post.stack_cards(s2).len() implies post.card_live(
                    #[trigger] post.stack_cards(s2)[k],
                ) && post.card_at(post.stack_cards(s2)[k]) == mid.card_at(
                    post.stack_cards(s2)[k],
                ) by {
                    assert(mid.card_live(post.stack_cards(s2)[k]));
                }
            }
            assert forall|c2: crate::stack_store::CardId| post.card_live(c2) implies
                post.card_entry_wf(c2) by {
                assert(mid.card_live(c2));
                assert(mid.card_entry_wf(c2));
                let owner = mid.card_at(c2).stack;
                assert(post.stack_cards(owner) == mid.stack_cards(owner));
            }
        }
        sid = sid + 1;
    }
    let ghost cleared = *store;
    proof {
        assert forall|s2: StackId|
            cleared.stack_live(s2) implies cleared.stack_at(s2).ready is None by {
            assert(pre.stack_live(s2));
            assert(s2 < n);
        }
        assert(spec_cleared_rel(pre, cleared));
        assert(events@.subrange(0, old(events)@.len() as int) =~= old(events)@);
    }

    // Apply all the recipes: each effect runs once, over every stack it is
    // ready on, in registration order.
    apply_finished_recipes(store, recipes, seeded, &finished, events);
    proof {
        assert(events@.subrange(0, old(events)@.len() as int) =~= old(events)@);
        assert forall|s2: StackId|
            store.stack_live(s2) implies store.stack_at(s2).ready is None by {
            assert(cleared.stack_live(s2));
            assert(store.stack_at(s2).ready == cleared.stack_at(s2).ready);
        }
    }
    finished
}

/// What one timing step leaves behind on one stack: the elapsed time grows
/// by the scaled delta (capped at the duration), and a timer that reaches
/// its duration turns the ongoing recipe into a ready marker.
pub open spec fn spec_timer_result(
    pre: StackStore,
    post: StackStore,
    sid: StackId,
    delta_ms: u64,
    speed: TimeSpeed,
) -> bool {
    let st = pre.stack_at(sid);
    match st.ongoing {
        None => post.stacks@[sid as int] == pre.stacks@[sid as int],
        Some(o) => {
            let advanced = if o.elapsed_ms + delta_ms * speed.spec_effective_factor()
                >= o.duration_ms {
                o.duration_ms as int
            } else {
                o.elapsed_ms + delta_ms * speed.spec_effective_factor()
            };
            if advanced >= o.duration_ms {
                post.stack_at(sid) == Stack {
                    ongoing: None,
                    ready: Some(o.id),
                    ..st
                }
            } else {
                post.stack_at(sid) == Stack {
                    ongoing: Some(
                        OngoingRecipe {
                            id: o.id,
                            elapsed_ms: advanced as u64,
                            duration_ms: o.duration_ms,
                        },
                    ),
                    ..st
                }
            }
        },
    }
}

} // verus!
