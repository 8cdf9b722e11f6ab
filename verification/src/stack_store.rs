//! The stack store: single owner of all card and stack existence.
//!
//! Stacks and cards live in flat arena storage addressed by stable indices;
//! a card's current stack is a back-reference field updated transactionally
//! by merge, split and delete, so a card belongs to exactly one stack at all
//! times. Every mutation recomputes the layout of the sequences it touches
//! in the same call: a reader never observes a stack whose sequence was
//! updated but whose layout was not.

use vstd::prelude::*;

use crate::card::{Card, CardType};
use crate::geom::{
    relative_center_of_nth_card_in_stack, Vec2i, Vec3i, CARD_STACK_Y_SPACING, DELTA_Z,
};
use crate::recipe::{OngoingRecipe, RecipeId, StackCheck};

verus! {

/// Index of a card in the store's card arena.
pub type CardId = usize;

/// Index of a stack root in the store's stack arena.
pub type StackId = usize;

/// Hard capacity of one stack; keeps every layout offset inside `i64`.
pub const MAX_STACK_SIZE: usize = 1_000_000;

/// Lowest Z position a stack gets when laying on the ground.
pub const STACK_ROOT_Z_MIN: i64 = 1000;

/// One past the highest Z position a stack gets when laying on the ground.
/// When a stack is created or dropped, it picks a semi-random number in
/// `[STACK_ROOT_Z_MIN, STACK_ROOT_Z_MAX)`, which minimizes sprite overlap
/// between stacks.
pub const STACK_ROOT_Z_MAX: i64 = 100_000;

/// Dragged stacks have a Z above everything laying on the ground, so they
/// are drawn floating above the other stacks.
pub const STACK_DRAG_Z: i64 = 200_000;

/// Stacks that move on their own are above everything else, but below
/// stacks dragged by the user.
pub const STACK_AUTO_MOVE_Z: i64 = 190_000;

/// How a stack currently moves.
#[derive(Clone, Copy, PartialEq, Eq, Structural, Debug)]
pub enum Motion {
    /// Resting on the ground; overlap nudging applies.
    Physics,
    /// Held by the user; the payload is the grab offset relative to the
    /// stack root.
    Dragged(Vec2i),
    /// Freshly spawned and looking for a compatible stack to glide toward.
    LookingForTarget,
    /// Gliding toward the given stack in order to merge with it.
    MovingToTarget(StackId),
}

/// Everything the store records about one live card.
#[derive(Clone, Copy, PartialEq, Eq, Debug)]
pub struct CardEntry {
    pub card: Card,
    /// Back-reference to the stack that owns this card.
    pub stack: StackId,
    /// Layout offset of this card relative to its stack root.
    pub offset: Vec3i,
}

/// One live stack: a non-empty ordered card sequence (index 0 is the
/// bottom card) and its transient state.
#[derive(Clone, Debug)]
pub struct Stack {
    pub cards: Vec<CardId>,
    /// World position of the stack root (the bottom card's location).
    pub pos: Vec3i,
    pub motion: Motion,
    /// The recipe currently running on this stack, if any.
    pub ongoing: Option<OngoingRecipe>,
    /// Set when a recipe's timer elapsed and its effect is due this tick.
    pub ready: Option<RecipeId>,
    /// Set when the card sequence changed since the last recipe-detection
    /// pass.
    pub changed: bool,
}

/// Which card the pointer currently hovers, and where inside that card.
#[derive(Clone, Copy, PartialEq, Eq, Structural, Debug)]
pub struct HoveredCard {
    pub card: CardId,
    pub relative_hover_pos: Vec2i,
}

/// Event that indicates a stack should be created; picked up by the
/// stack-creation pass.
#[derive(Clone, Copy, PartialEq, Eq, Structural, Debug)]
pub struct CreateStackEvent {
    pub position: Vec2i,
    pub card_type: CardType,
    pub amount: u64,
}

/// Arena storage for every card and stack in the simulation. Destroyed
/// entries stay `None` so indices are stable handles.
pub struct StackStore {
    pub cards: Vec<Option<CardEntry>>,
    pub stacks: Vec<Option<Stack>>,
    /// At most one card is hovered at a time.
    pub hovered: Option<HoveredCard>,
}

/// Layout offset of the card at index `i` of a stack: a fixed spacing down
/// and two depth steps forward per index.
pub open spec fn spec_nth_card_offset(i: int) -> Vec3i {
    Vec3i { x: 0, y: (-i * CARD_STACK_Y_SPACING) as i64, z: (2 * DELTA_Z * i) as i64 }
}

/// Semi-random Z position for a stack root, a pure function of the stack's
/// identity, mapped into `[STACK_ROOT_Z_MIN, STACK_ROOT_Z_MAX)`.
pub open spec fn spec_semi_random_stack_root_z(entity: u64) -> i64 {
    (STACK_ROOT_Z_MIN + ((entity as int * 0x9E3779B97F4A7C15) % 0x1_0000_0000_0000_0000) % (
    STACK_ROOT_Z_MAX - STACK_ROOT_Z_MIN)) as i64
}

/// Generates a semi-random Z position for a stack, based on the stack's
/// identity alone, so that re-dropping the same stack lands it at the same
/// depth. Minimizes clipping between card sprites of overlapping stacks.
pub fn get_semi_random_stack_root_z(entity: u64) -> (r: i64)
    ensures
        r == spec_semi_random_stack_root_z(entity),
        STACK_ROOT_Z_MIN <= r < STACK_ROOT_Z_MAX,
{
    let span = (STACK_ROOT_Z_MAX - STACK_ROOT_Z_MIN) as u64;
    let hashed = entity.wrapping_mul(0x9E3779B97F4A7C15);
    STACK_ROOT_Z_MIN + ((hashed % span) as i64)
}

/// Index of the first occurrence of `c` in `s`, or `-1` when `s` does not
/// hold `c`.
pub open spec fn first_index_of(s: Seq<CardId>, c: CardId) -> int
    decreases s.len(),
{
    if s.len() == 0 {
        -1
    } else if s[0] == c {
        0
    } else {
        let rest = first_index_of(s.drop_first(), c);
        if rest == -1 {
            -1
        } else {
            rest + 1
        }
    }
}

/// An occurrence with no earlier occurrence is the first one.
pub proof fn lemma_first_index_of(s: Seq<CardId>, c: CardId, i: int)
    requires
        0 <= i < s.len(),
        s[i] == c,
        forall|j: int| 0 <= j < i ==> s[j] != c,
    ensures
        first_index_of(s, c) == i,
        s.contains(c),
    decreases i,
{
    if i == 0 {
    } else {
        assert(s[0] != c);
        let rest = s.drop_first();
        assert(rest[i - 1] == c);
        assert(forall|j: int| 0 <= j < i - 1 ==> rest[j] == s[j + 1] && rest[j] != c);
        lemma_first_index_of(rest, c, i - 1);
    }
}

/// A sequence without `c` has no first occurrence of it.
pub proof fn lemma_first_index_of_absent(s: Seq<CardId>, c: CardId)
    requires
        forall|j: int| 0 <= j < s.len() ==> s[j] != c,
    ensures
        first_index_of(s, c) == -1,
    decreases s.len(),
{
    if s.len() > 0 {
        let rest = s.drop_first();
        assert(forall|j: int| 0 <= j < rest.len() ==> rest[j] == s[j + 1] && rest[j] != c);
        lemma_first_index_of_absent(rest, c);
    }
}

/// Two stores with the same card and stack arenas are equally well-formed:
/// the invariant does not depend on the transient hover state.
pub proof fn lemma_wf_same_arenas(pre: StackStore, post: StackStore)
    requires
        pre.wf(),
        post.cards@ == pre.cards@,
        post.stacks@ == pre.stacks@,
    ensures
        post.wf(),
{
    assert forall|sid: StackId| post.stack_live(sid) implies post.stack_entry_wf(sid) by {
        assert(pre.stack_live(sid));
        assert(pre.stack_entry_wf(sid));
        let cs = post.stack_cards(sid);
        assert(cs == pre.stack_cards(sid));
        assert forall|i: int|
            0 <= i < cs.len() implies post.card_live(#[trigger] cs[i]) && post.card_at(cs[i])
            == pre.card_at(cs[i]) by {
            assert(pre.card_live(cs[i]));
        }
    }
    assert forall|cid: CardId| post.card_live(cid) implies post.card_entry_wf(cid) by {
        assert(pre.card_live(cid));
        assert(pre.card_entry_wf(cid));
        let owner = pre.card_at(cid).stack;
        assert(post.stack_cards(owner) == pre.stack_cards(owner));
    }
}

/// Changing only the transient fields of stacks — position, motion, recipe
/// state, change flag — never breaks well-formedness: the invariant speaks
/// only of the card sequences and the card entries.
pub proof fn lemma_wf_stack_fields_changed(pre: StackStore, post: StackStore)
    requires
        pre.wf(),
        post.cards@ == pre.cards@,
        post.stacks@.len() == pre.stacks@.len(),
        forall|sid: StackId| post.stack_live(sid) <==> pre.stack_live(sid),
        forall|sid: StackId|
            pre.stack_live(sid) ==> post.stack_cards(sid) == pre.stack_cards(sid),
    ensures
        post.wf(),
{
    assert forall|sid: StackId| post.stack_live(sid) implies post.stack_entry_wf(sid) by {
        assert(pre.stack_live(sid));
        assert(pre.stack_entry_wf(sid));
        let cs = post.stack_cards(sid);
        assert(cs == pre.stack_cards(sid));
        assert forall|i: int|
            0 <= i < cs.len() implies post.card_live(#[trigger] cs[i]) && post.card_at(cs[i])
            == pre.card_at(cs[i]) by {
            assert(pre.card_live(cs[i]));
        }
    }
    assert forall|cid: CardId| post.card_live(cid) implies post.card_entry_wf(cid) by {
        assert(pre.card_live(cid));
        assert(pre.card_entry_wf(cid));
        let owner = pre.card_at(cid).stack;
        assert(post.stack_cards(owner) == pre.stack_cards(owner));
    }
}

/// Whether a creation event will actually spawn a stack: a positive amount
/// within the capacity of one stack.
pub open spec fn event_valid(event: CreateStackEvent) -> bool {
    0 < event.amount <= MAX_STACK_SIZE
}

/// How many of the first `n` events are valid.
pub open spec fn count_valid_events(events: Seq<CreateStackEvent>, n: int) -> int
    decreases n,
{
    if n <= 0 {
        0
    } else {
        count_valid_events(events, n - 1) + if event_valid(events[n - 1]) {
            1int
        } else {
            0int
        }
    }
}

/// Counting valid events never decreases and never outruns the range.
pub proof fn lemma_count_valid_events_bounds(events: Seq<CreateStackEvent>, m: int, n: int)
    requires
        0 <= m <= n,
    ensures
        count_valid_events(events, m) <= count_valid_events(events, n),
        count_valid_events(events, n) - count_valid_events(events, m) <= n - m,
        event_valid(events[m]) && m < n ==> count_valid_events(events, m) < count_valid_events(
            events,
            n,
        ),
    decreases n - m,
{
    if m < n {
        lemma_count_valid_events_bounds(events, m + 1, n);
    }
}

/// The subsequence of `s` whose elements do not occur in `del`, in order.
pub open spec fn seq_remove_all(s: Seq<CardId>, del: Seq<CardId>) -> Seq<CardId>
    decreases s.len(),
{
    if s.len() == 0 {
        Seq::empty()
    } else {
        let rest = seq_remove_all(s.drop_last(), del);
        if del.contains(s.last()) {
            rest
        } else {
            rest.push(s.last())
        }
    }
}

/// What removal keeps: exactly the elements of `s` outside `del`, distinct
/// whenever `s` was.
pub proof fn lemma_remove_all_props(s: Seq<CardId>, del: Seq<CardId>)
    ensures
        seq_remove_all(s, del).len() <= s.len(),
        forall|k: int|
            0 <= k < seq_remove_all(s, del).len() ==> s.contains(
                #[trigger] seq_remove_all(s, del)[k],
            ) && !del.contains(seq_remove_all(s, del)[k]),
        forall|c: CardId|
            s.contains(c) && !del.contains(c) ==> seq_remove_all(s, del).contains(c),
        (forall|i: int, j: int| 0 <= i < j < s.len() ==> s[i] != s[j]) ==> (forall|i: int, j: int|
            0 <= i < j < seq_remove_all(s, del).len() ==> seq_remove_all(s, del)[i]
                != seq_remove_all(s, del)[j]),
    decreases s.len(),
{
    let r = seq_remove_all(s, del);
    if s.len() == 0 {
        assert forall|c: CardId| s.contains(c) && !del.contains(c) implies r.contains(c) by {
            let j = choose|j: int| 0 <= j < s.len() && s[j] == c;
        }
    } else {
        let head = s.drop_last();
        let rest = seq_remove_all(head, del);
        lemma_remove_all_props(head, del);
        assert forall|k: int|
            0 <= k < r.len() implies s.contains(#[trigger] r[k]) && !del.contains(r[k]) by {
            if k < rest.len() {
                assert(r[k] == rest[k]);
                let j = choose|j: int| 0 <= j < head.len() && head[j] == rest[k];
                assert(s[j] == r[k]);
                assert(s.contains(r[k]));
            } else {
                assert(r[k] == s.last());
                assert(s.contains(s.last()));
            }
        }
        assert forall|c: CardId| s.contains(c) && !del.contains(c) implies r.contains(c) by {
            let j = choose|j: int| 0 <= j < s.len() && s[j] == c;
            if j < head.len() {
                assert(head[j] == c);
                assert(head.contains(c));
                assert(rest.contains(c));
                let m = choose|m: int| 0 <= m < rest.len() && rest[m] == c;
                assert(r[m] == c);
                assert(r.contains(c));
            } else {
                assert(s.last() == c);
                assert(r[r.len() - 1] == c);
                assert(r.contains(c));
            }
        }
        if forall|i: int, j: int| 0 <= i < j < s.len() ==> s[i] != s[j] {
            assert forall|i: int, j: int| 0 <= i < j < r.len() implies r[i] != r[j] by {
                if j < rest.len() {
                } else if !del.contains(s.last()) && j == rest.len() {
                    assert(r[j] == s.last());
                    assert(r[i] == rest[i]);
                    let m = choose|m: int| 0 <= m < head.len() && head[m] == rest[i];
                    assert(s[m] == r[i]);
                    assert(s[s.len() - 1] == s.last());
                }
            }
        }
    }
}

/// Removing nothing that occurs keeps the sequence as it is.
pub proof fn lemma_remove_all_absent(s: Seq<CardId>, del: Seq<CardId>)
    requires
        forall|j: int| 0 <= j < s.len() ==> !del.contains(#[trigger] s[j]),
    ensures
        seq_remove_all(s, del) == s,
    decreases s.len(),
{
    if s.len() > 0 {
        let head = s.drop_last();
        assert(forall|j: int| 0 <= j < head.len() ==> head[j] == s[j]);
        lemma_remove_all_absent(head, del);
        assert(seq_remove_all(s, del) =~= s);
    }
}

/// Removing one card that occurs once shortens the sequence by exactly one.
pub proof fn lemma_remove_one_length(s: Seq<CardId>, c: CardId)
    requires
        forall|i: int, j: int| 0 <= i < j < s.len() ==> s[i] != s[j],
        s.contains(c),
    ensures
        seq_remove_all(s, seq![c]).len() == s.len() - 1,
    decreases s.len(),
{
    let del = seq![c];
    assert(del[0] == c);
    assert(del.contains(c));
    assert forall|x: CardId| del.contains(x) implies x == c by {
        let k = choose|k: int| 0 <= k < del.len() && del[k] == x;
        assert(k == 0);
    }
    assert(s.len() > 0);
    let head = s.drop_last();
    assert(forall|i: int, j: int| 0 <= i < j < head.len() ==> head[i] != head[j]);
    if s.last() == c {
        assert forall|j: int| 0 <= j < head.len() implies !del.contains(#[trigger] head[j]) by {
            assert(head[j] == s[j]);
            assert(s[j] != s[s.len() - 1]);
        }
        lemma_remove_all_absent(head, del);
    } else {
        let j = choose|j: int| 0 <= j < s.len() && s[j] == c;
        assert(head[j] == c);
        assert(head.contains(c));
        lemma_remove_one_length(head, c);
    }
}

/// Whether `v` holds `c`.
pub fn contains_card(v: &Vec<CardId>, c: CardId) -> (r: bool)
    ensures
        r == v@.contains(c),
{
    let mut i: usize = 0;
    while i < v.len()
        invariant
            i <= v@.len(),
            forall|j: int| 0 <= j < i ==> v@[j] != c,
        decreases v@.len() - i,
    {
        if v[i] == c {
            assert(v@[i as int] == c);
            return true;
        }
        i = i + 1;
    }
    false
}

impl StackStore {
    /// Whether the card handle refers to a live card.
    pub open spec fn card_live(self, cid: CardId) -> bool {
        cid < self.cards@.len() && self.cards@[cid as int] is Some
    }

    /// The entry of a live card.
    pub open spec fn card_at(self, cid: CardId) -> CardEntry {
        self.cards@[cid as int]->0
    }

    /// Whether the stack handle refers to a live stack.
    pub open spec fn stack_live(self, sid: StackId) -> bool {
        sid < self.stacks@.len() && self.stacks@[sid as int] is Some
    }

    /// The state of a live stack.
    pub open spec fn stack_at(self, sid: StackId) -> Stack {
        self.stacks@[sid as int]->0
    }

    /// The ordered card sequence of a live stack.
    pub open spec fn stack_cards(self, sid: StackId) -> Seq<CardId> {
        self.stack_at(sid).cards@
    }

    /// Well-formedness of one live stack: non-empty and bounded, every card
    /// live, owned by this stack, laid out by its index, and listed only
    /// once.
    pub open spec fn stack_entry_wf(self, sid: StackId) -> bool {
        let cs = self.stack_cards(sid);
        &&& 1 <= cs.len() <= MAX_STACK_SIZE
        &&& forall|i: int| 0 <= i < cs.len() ==> self.card_live(#[trigger] cs[i])
        &&& forall|i: int|
            0 <= i < cs.len() ==> (#[trigger] self.card_at(cs[i])).stack == sid
        &&& forall|i: int|
            0 <= i < cs.len() ==> (#[trigger] self.card_at(cs[i])).offset == spec_nth_card_offset(
                i,
            )
        &&& forall|i: int, j: int| 0 <= i < j < cs.len() ==> cs[i] != cs[j]
    }

    /// Well-formedness of one live card: its owning stack is live and lists
    /// it.
    pub open spec fn card_entry_wf(self, cid: CardId) -> bool {
        let sid = self.card_at(cid).stack;
        self.stack_live(sid) && self.stack_cards(sid).contains(cid)
    }

    /// The store's invariant: every live stack and every live card is
    /// well-formed. Together the back-references and the per-stack layout
    /// give card uniqueness: a card belongs to exactly one stack, at exactly
    /// one index.
    pub open spec fn wf(self) -> bool {
        &&& forall|sid: StackId| #[trigger] self.stack_live(sid) ==> self.stack_entry_wf(sid)
        &&& forall|cid: CardId| #[trigger] self.card_live(cid) ==> self.card_entry_wf(cid)
    }

    /// The card data of a live stack's sequence, bottom first.
    pub open spec fn stack_card_values(self, sid: StackId) -> Seq<Card> {
        self.stack_cards(sid).map_values(|cid: CardId| self.card_at(cid).card)
    }

    /// Collects a stack's card contents for a recipe check.
    pub fn stack_check(&self, sid: StackId) -> (r: StackCheck)
        requires
            self.wf(),
            self.stack_live(sid),
        ensures
            r@ == self.stack_card_values(sid),
    {
        proof {
            assert(self.stack_entry_wf(sid));
        }
        let ids = match &self.stacks[sid] {
            Some(s) => s.cards.clone(),
            None => {
                proof {
                    assert(false);
                }
                Vec::new()
            },
        };
        proof {
            assert(ids@ =~= self.stack_cards(sid));
        }
        let ghost svals = self.stack_card_values(sid);
        let mut cards: Vec<Card> = Vec::new();
        let mut i: usize = 0;
        while i < ids.len()
            invariant
                i <= ids@.len(),
                self.wf(),
                self.stack_live(sid),
                ids@ == self.stack_cards(sid),
                svals == self.stack_card_values(sid),
                cards@ == svals.take(i as int),
            decreases ids@.len() - i,
        {
            proof {
                assert(self.stack_entry_wf(sid));
                assert(self.card_live(ids@[i as int]));
                assert(svals[i as int] == self.card_at(ids@[i as int]).card);
            }
            let cid = ids[i];
            let card = match &self.cards[cid] {
                Some(e) => e.card,
                None => {
                    proof {
                        assert(false);
                    }
                    Card::of_type(&crate::card::card_type(crate::card::CardTypeId::Coin))
                },
            };
            cards.push(card);
            proof {
                assert(cards@ =~= svals.take(i + 1));
            }
            i = i + 1;
        }
        proof {
            assert(svals.take(ids@.len() as int) =~= svals);
        }
        StackCheck(cards)
    }

    /// Replaces the data of one live card, leaving its owning stack and its
    /// layout alone. Recipes use this to spend a card's remaining uses or a
    /// pack's remaining cards.
    pub fn set_card_data(&mut self, cid: CardId, card: Card)
        requires
            old(self).wf(),
            old(self).card_live(cid),
        ensures
            final(self).wf(),
            final(self).card_at(cid).card == card,
            final(self).card_at(cid).stack == old(self).card_at(cid).stack,
            final(self).card_at(cid).offset == old(self).card_at(cid).offset,
            final(self).cards@.len() == old(self).cards@.len(),
            forall|c: CardId| final(self).card_live(c) <==> old(self).card_live(c),
            forall|c: CardId|
                c < old(self).cards@.len() && c != cid ==> final(self).cards@[c as int] == old(
                    self,
                ).cards@[c as int],
            final(self).stacks@ == old(self).stacks@,
            final(self).hovered == old(self).hovered,
    {
        let ghost pre = *self;
        let entry_opt = self.cards[cid];
        match entry_opt {
            Some(e) => {
                self.cards[cid] = Some(CardEntry { card, stack: e.stack, offset: e.offset });
            },
            None => {
                proof {
                    assert(false);
                }
            },
        }
        proof {
            let post = *self;
            assert forall|sid2: StackId| post.stack_live(sid2) implies post.stack_entry_wf(
                sid2,
            ) by {
                assert(pre.stack_live(sid2));
                assert(pre.stack_entry_wf(sid2));
                let cs = post.stack_cards(sid2);
                assert(cs == pre.stack_cards(sid2));
                assert forall|k: int|
                    0 <= k < cs.len() implies post.card_live(#[trigger] cs[k]) && post.card_at(
                    cs[k],
                ).stack == pre.card_at(cs[k]).stack && post.card_at(cs[k]).offset == pre.card_at(
                    cs[k],
                ).offset by {
                    assert(pre.card_live(cs[k]));
                }
            }
            assert forall|c: CardId| post.card_live(c) implies post.card_entry_wf(c) by {
                assert(pre.card_live(c));
                assert(pre.card_entry_wf(c));
                assert(post.card_at(c).stack == pre.card_at(c).stack);
            }
        }
    }

    /// The data of a card, or `None` when the handle is destroyed.
    pub fn get_card(&self, cid: CardId) -> (r: Option<Card>)
        ensures
            r is Some <==> self.card_live(cid),
            r matches Some(c) ==> c == self.card_at(cid).card,
    {
        if cid < self.cards.len() {
            match &self.cards[cid] {
                Some(e) => Some(e.card),
                None => None,
            }
        } else {
            None
        }
    }

    /// The recipe currently running on a stack, if the handle is live and
    /// one is running; what the interface reads to show progress.
    pub fn get_ongoing_recipe(&self, sid: StackId) -> (r: Option<OngoingRecipe>)
        ensures
            r is Some <==> self.stack_live(sid) && self.stack_at(sid).ongoing is Some,
            r is Some ==> r == self.stack_at(sid).ongoing,
    {
        if sid < self.stacks.len() {
            match &self.stacks[sid] {
                Some(s) => s.ongoing,
                None => None,
            }
        } else {
            None
        }
    }

    /// The world position of a stack root, or `None` when the handle is
    /// destroyed.
    pub fn get_stack_pos(&self, sid: StackId) -> (r: Option<Vec3i>)
        ensures
            r is Some <==> self.stack_live(sid),
            r matches Some(p) ==> p == self.stack_at(sid).pos,
    {
        if sid < self.stacks.len() {
            match &self.stacks[sid] {
                Some(s) => Some(s.pos),
                None => None,
            }
        } else {
            None
        }
    }

    pub fn new() -> (r: StackStore)
        ensures
            r.wf(),
            r.cards@.len() == 0,
            r.stacks@.len() == 0,
            r.hovered is None,
    {
        StackStore { cards: Vec::new(), stacks: Vec::new(), hovered: None }
    }

    /// Creates `card_amount` cards of `card_type` and one new stack root
    /// owning them in bottom-to-top order, laid out with the fixed per-card
    /// offsets, at the given ground position (the root's depth is the
    /// semi-random function of its identity). The new stack starts out
    /// looking for a place to settle. Returns `None`, changing nothing,
    /// when `card_amount` is zero.
    #[verifier::rlimit(100)]
    pub fn spawn_stack(
        &mut self,
        position: Vec2i,
        card_type: &CardType,
        card_amount: usize,
    ) -> (r: Option<StackId>)
        requires
            old(self).wf(),
            card_amount <= MAX_STACK_SIZE,
        ensures
            final(self).wf(),
            r is Some <==> card_amount > 0,
            card_amount == 0 ==> *final(self) == *old(self),
            r matches Some(sid) ==> sid == old(self).stacks@.len() && !old(self).stack_live(sid)
                && final(self).stack_live(sid),
            r is Some ==> final(self).stacks@.len() == old(self).stacks@.len() + 1
                && final(self).cards@.len() == old(self).cards@.len() + card_amount,
            r matches Some(sid) ==> final(self).stack_cards(sid).len() == card_amount,
            r matches Some(sid) ==> forall|i: int|
                0 <= i < card_amount ==> final(self).card_at(
                    #[trigger] final(self).stack_cards(sid)[i],
                ).card == Card::spec_of_type(*card_type),
            r matches Some(sid) ==> forall|i: int|
                0 <= i < card_amount ==> !old(self).card_live(
                    #[trigger] final(self).stack_cards(sid)[i],
                ),
            r matches Some(sid) ==> final(self).stack_at(sid).pos == (Vec3i {
                x: position.x,
                y: position.y,
                z: spec_semi_random_stack_root_z(sid as u64),
            }),
            r matches Some(sid) ==> final(self).stack_at(sid).motion == Motion::LookingForTarget
                && final(self).stack_at(sid).ongoing is None && final(self).stack_at(sid).ready
                is None && final(self).stack_at(sid).changed,
            // Existing stacks and cards are untouched.
            forall|sid2: StackId|
                sid2 < old(self).stacks@.len() ==> final(self).stacks@[sid2 as int] == old(
                    self,
                ).stacks@[sid2 as int],
            forall|cid: CardId|
                cid < old(self).cards@.len() ==> final(self).cards@[cid as int] == old(
                    self,
                ).cards@[cid as int],
            final(self).hovered == old(self).hovered,
    {
        if card_amount == 0 {
            return None;
        }
        let ghost pre = *self;
        let sid: StackId = self.stacks.len();
        let new_card = Card::of_type(card_type);

        let mut card_ids: Vec<CardId> = Vec::new();
        let mut i: usize = 0;
        while i < card_amount
            invariant
                i <= card_amount <= MAX_STACK_SIZE,
                sid == pre.stacks@.len(),
                new_card == Card::spec_of_type(*card_type),
                self.stacks@ == pre.stacks@,
                self.hovered == pre.hovered,
                self.cards@.len() == pre.cards@.len() + i,
                card_ids@.len() == i,
                forall|k: int| 0 <= k < i ==> card_ids@[k] == pre.cards@.len() + k,
                forall|k: int|
                    0 <= k < i ==> self.cards@[pre.cards@.len() + k] == Some(
                        CardEntry {
                            card: new_card,
                            stack: sid,
                            offset: spec_nth_card_offset(k),
                        },
                    ),
                forall|cid: CardId|
                    cid < pre.cards@.len() ==> self.cards@[cid as int] == pre.cards@[cid as int],
            decreases card_amount - i,
        {
            let cid: CardId = self.cards.len();
            let offset = relative_center_of_nth_card_in_stack(i);
            self.cards.push(Some(CardEntry { card: new_card, stack: sid, offset }));
            card_ids.push(cid);
            i = i + 1;
        }

        let z = get_semi_random_stack_root_z(sid as u64);
        self.stacks.push(
            Some(
                Stack {
                    cards: card_ids,
                    pos: Vec3i { x: position.x, y: position.y, z },
                    motion: Motion::LookingForTarget,
                    ongoing: None,
                    ready: None,
                    changed: true,
                },
            ),
        );

        proof {
            let post = *self;
            assert forall|sid2: StackId| post.stack_live(sid2) implies post.stack_entry_wf(
                sid2,
            ) by {
                if sid2 == sid {
                    let cs = post.stack_cards(sid);
                    assert(cs == card_ids@);
                    assert(cs.len() == card_amount);
                    assert forall|k: int|
                        0 <= k < cs.len() implies post.card_live(#[trigger] cs[k]) && post.card_at(
                        cs[k],
                    ).stack == sid && post.card_at(cs[k]).offset == spec_nth_card_offset(k) by {
                        assert(cs[k] == pre.cards@.len() + k);
                        assert(post.cards@[cs[k] as int] == Some(
                            CardEntry { card: new_card, stack: sid, offset: spec_nth_card_offset(k) },
                        ));
                    }
                    assert forall|k: int, l: int| 0 <= k < l < cs.len() implies cs[k] != cs[l] by {
                        assert(cs[k] == pre.cards@.len() + k);
                        assert(cs[l] == pre.cards@.len() + l);
                    }
                } else {
                    assert(pre.stack_live(sid2));
                    assert(pre.stack_entry_wf(sid2));
                    let cs = post.stack_cards(sid2);
                    assert(cs == pre.stack_cards(sid2));
                    assert forall|k: int|
                        0 <= k < cs.len() implies post.card_live(#[trigger] cs[k]) && post.card_at(
                        cs[k],
                    ) == pre.card_at(cs[k]) by {
                        assert(pre.card_live(cs[k]));
                    }
                }
            }
            let cs = post.stack_cards(sid);
            assert forall|i: int|
                0 <= i < card_amount implies post.card_at(#[trigger] cs[i]).card
                == Card::spec_of_type(*card_type) && !pre.card_live(cs[i]) by {
                assert(cs[i] == pre.cards@.len() + i);
                assert(post.cards@[cs[i] as int] == Some(
                    CardEntry { card: new_card, stack: sid, offset: spec_nth_card_offset(i) },
                ));
            }
            assert forall|cid: CardId| post.card_live(cid) implies post.card_entry_wf(cid) by {
                if cid < pre.cards@.len() {
                    assert(pre.card_live(cid));
                    assert(pre.card_entry_wf(cid));
                    let owner = pre.card_at(cid).stack;
                    assert(post.stack_cards(owner) == pre.stack_cards(owner));
                } else {
                    let k = cid - pre.cards@.len();
                    assert(post.cards@[cid as int] == Some(
                        CardEntry {
                            card: new_card,
                            stack: sid,
                            offset: spec_nth_card_offset(k as int),
                        },
                    ));
                    assert(card_ids@[k as int] == cid);
                    assert(post.stack_cards(sid)[k as int] == cid);
                    assert(post.stack_cards(sid).contains(cid));
                }
            }
        }
        Some(sid)
    }

    /// Spawns one stack per valid creation event, in order. An event is
    /// valid when its amount is positive and within the capacity of one
    /// stack; other events are dropped. Existing stacks and cards are
    /// untouched; the stacks spawned for the valid events appear in event
    /// order at the end of the arena, each holding the event's amount of
    /// cards of the event's type at the event's position.
    #[verifier::rlimit(100)]
    pub fn stack_creation_system(&mut self, events: &Vec<CreateStackEvent>)
        requires
            old(self).wf(),
        ensures
            final(self).wf(),
            forall|sid: StackId|
                sid < old(self).stacks@.len() ==> final(self).stacks@[sid as int] == old(
                    self,
                ).stacks@[sid as int],
            forall|cid: CardId|
                cid < old(self).cards@.len() ==> final(self).cards@[cid as int] == old(
                    self,
                ).cards@[cid as int],
            final(self).hovered == old(self).hovered,
            final(self).stacks@.len() == old(self).stacks@.len() + count_valid_events(
                events@,
                events@.len() as int,
            ),
            forall|k: int|
                0 <= k < events@.len() && event_valid(#[trigger] events@[k]) ==> {
                    let sid = old(self).stacks@.len() + count_valid_events(events@, k);
                    &&& final(self).stack_live(sid as StackId)
                    &&& final(self).stack_cards(sid as StackId).len() == events@[k].amount
                    &&& final(self).stack_at(sid as StackId).pos.x == events@[k].position.x
                    &&& final(self).stack_at(sid as StackId).pos.y == events@[k].position.y
                    &&& forall|i: int|
                        0 <= i < events@[k].amount ==> final(self).card_at(
                            #[trigger] final(self).stack_cards(sid as StackId)[i],
                        ).card == Card::spec_of_type(events@[k].card_type)
                },
    {
        let ghost pre = *self;
        let mut k: usize = 0;
        while k < events.len()
            invariant
                k <= events@.len(),
                self.wf(),
                self.hovered == pre.hovered,
                forall|sid: StackId|
                    sid < pre.stacks@.len() ==> self.stacks@[sid as int] == pre.stacks@[sid as int],
                forall|cid: CardId|
                    cid < pre.cards@.len() ==> self.cards@[cid as int] == pre.cards@[cid as int],
                self.stacks@.len() == pre.stacks@.len() + count_valid_events(events@, k as int),
                self.stacks@.len() >= pre.stacks@.len(),
                self.cards@.len() >= pre.cards@.len(),
                forall|m: int|
                    0 <= m < k && event_valid(#[trigger] events@[m]) ==> {
                        let sid = pre.stacks@.len() + count_valid_events(events@, m);
                        &&& self.stack_live(sid as StackId)
                        &&& self.stack_cards(sid as StackId).len() == events@[m].amount
                        &&& self.stack_at(sid as StackId).pos.x == events@[m].position.x
                        &&& self.stack_at(sid as StackId).pos.y == events@[m].position.y
                        &&& forall|i: int|
                            0 <= i < events@[m].amount ==> self.card_at(
                                #[trigger] self.stack_cards(sid as StackId)[i],
                            ).card == Card::spec_of_type(events@[m].card_type)
                    },
            decreases events@.len() - k,
        {
            let ghost mid = *self;
            let event = events[k];
            proof {
                assert(count_valid_events(events@, k + 1) == count_valid_events(events@, k as int)
                    + if event_valid(events@[k as int]) {
                    1int
                } else {
                    0int
                });
                lemma_count_valid_events_bounds(events@, 0, k as int);
            }
            if event.amount > 0 && event.amount <= (MAX_STACK_SIZE as u64) {
                let amount = event.amount as usize;
                let r = self.spawn_stack(event.position, &event.card_type, amount);
                proof {
                    assert(r is Some);
                    assert forall|sid: StackId|
                        sid < pre.stacks@.len() implies self.stacks@[sid as int] == pre.stacks@[sid
                        as int] by {
                        assert(self.stacks@[sid as int] == mid.stacks@[sid as int]);
                    }
                    assert forall|cid: CardId|
                        cid < pre.cards@.len() implies self.cards@[cid as int] == pre.cards@[cid
                        as int] by {
                        assert(self.cards@[cid as int] == mid.cards@[cid as int]);
                    }
                    assert forall|m: int|
                        0 <= m < k + 1 && event_valid(#[trigger] events@[m]) implies {
                        let sid = pre.stacks@.len() + count_valid_events(events@, m);
                        &&& self.stack_live(sid as StackId)
                        &&& self.stack_cards(sid as StackId).len() == events@[m].amount
                        &&& self.stack_at(sid as StackId).pos.x == events@[m].position.x
                        &&& self.stack_at(sid as StackId).pos.y == events@[m].position.y
                        &&& forall|i: int|
                            0 <= i < events@[m].amount ==> self.card_at(
                                #[trigger] self.stack_cards(sid as StackId)[i],
                            ).card == Card::spec_of_type(events@[m].card_type)
                    } by {
                        let sid = pre.stacks@.len() + count_valid_events(events@, m);
                        if m < k {
                            lemma_count_valid_events_bounds(events@, 0, m);
                            lemma_count_valid_events_bounds(events@, m, k as int);
                            assert(0 <= sid < mid.stacks@.len());
                            assert(self.stacks@[sid as int] == mid.stacks@[sid as int]);
                            assert forall|i: int|
                                0 <= i < events@[m].amount implies self.card_at(
                                #[trigger] self.stack_cards(sid as StackId)[i],
                            ).card == Card::spec_of_type(events@[m].card_type) by {
                                assert(mid.card_live(self.stack_cards(sid as StackId)[i]));
                                assert(self.cards@[self.stack_cards(sid as StackId)[i] as int]
                                    == mid.cards@[self.stack_cards(sid as StackId)[i] as int]);
                            }
                        } else {
                            assert(m == k);
                            assert(sid == mid.stacks@.len());
                        }
                    }
                }
            }
            k = k + 1;
        }
    }

    /// Re-lays-out the given card list as the sequence of stack `sid`:
    /// assigns each card its per-index offset and points its back-reference
    /// at `sid`. The cards' own data is untouched, as is everything else in
    /// the store.
    fn set_stack_card_transforms(&mut self, stack: &Vec<CardId>, sid: StackId)
        requires
            stack@.len() <= MAX_STACK_SIZE,
            forall|i: int| 0 <= i < stack@.len() ==> old(self).card_live(#[trigger] stack@[i]),
            forall|i: int, j: int| 0 <= i < j < stack@.len() ==> stack@[i] != stack@[j],
        ensures
            final(self).cards@.len() == old(self).cards@.len(),
            final(self).stacks@ == old(self).stacks@,
            final(self).hovered == old(self).hovered,
            forall|k: int|
                0 <= k < stack@.len() ==> final(self).cards@[stack@[k] as int] == Some(
                    CardEntry {
                        card: old(self).card_at(stack@[k]).card,
                        stack: sid,
                        offset: spec_nth_card_offset(k),
                    },
                ),
            forall|c: CardId|
                c < old(self).cards@.len() && !stack@.contains(c) ==> final(self).cards@[c as int]
                    == old(self).cards@[c as int],
    {
        let mut i: usize = 0;
        while i < stack.len()
            invariant
                i <= stack@.len() <= MAX_STACK_SIZE,
                forall|k: int| 0 <= k < stack@.len() ==> old(self).card_live(#[trigger] stack@[k]),
                forall|k: int, j: int| 0 <= k < j < stack@.len() ==> stack@[k] != stack@[j],
                self.cards@.len() == old(self).cards@.len(),
                self.stacks@ == old(self).stacks@,
                self.hovered == old(self).hovered,
                forall|k: int|
                    0 <= k < i ==> self.cards@[stack@[k] as int] == Some(
                        CardEntry {
                            card: old(self).card_at(stack@[k]).card,
                            stack: sid,
                            offset: spec_nth_card_offset(k),
                        },
                    ),
                forall|c: int|
                    0 <= c < self.cards@.len() && (forall|k: int|
                        0 <= k < i ==> stack@[k] != c) ==> self.cards@[c] == old(self).cards@[c],
            decreases stack@.len() - i,
        {
            let cid = stack[i];
            proof {
                assert(old(self).card_live(stack@[i as int]));
                assert(forall|k: int| 0 <= k < i ==> stack@[k] != cid as int);
                assert(self.cards@[cid as int] == old(self).cards@[cid as int]);
            }
            let offset = relative_center_of_nth_card_in_stack(i);
            let entry_opt = self.cards[cid];
            match entry_opt {
                Some(e) => {
                    self.cards[cid] = Some(CardEntry { card: e.card, stack: sid, offset });
                },
                None => {
                    proof {
                        assert(false);
                    }
                },
            }
            i = i + 1;
        }
        proof {
            assert forall|c: CardId|
                c < old(self).cards@.len() && !stack@.contains(c) implies self.cards@[c as int]
                == old(self).cards@[c as int] by {
                assert(forall|k: int| 0 <= k < stack@.len() ==> stack@[k] != c);
            }
        }
    }

    /// Whether a merge of `source_root` into `target_root` will actually
    /// happen: both handles live, distinct, and the combined stack within
    /// capacity.
    pub open spec fn can_merge(self, source_root: StackId, target_root: StackId) -> bool {
        &&& self.stack_live(source_root)
        &&& self.stack_live(target_root)
        &&& source_root != target_root
        &&& self.stack_cards(source_root).len() + self.stack_cards(target_root).len()
            <= MAX_STACK_SIZE
    }

    /// Adds the cards of the source stack to the top of the target stack,
    /// in order, re-lays-out the combined sequence and destroys the source
    /// root. If both stacks carry an ongoing recipe the target's is kept;
    /// whether the kept recipe is still valid is decided by the next
    /// recipe-detection pass, not here. A merge with a destroyed handle,
    /// with itself, or past the capacity bound is a no-op.
    #[verifier::rlimit(100)]
    pub fn merge_stacks(&mut self, source_root: StackId, target_root: StackId)
        requires
            old(self).wf(),
        ensures
            final(self).wf(),
            !old(self).can_merge(source_root, target_root) ==> *final(self) == *old(self),
            old(self).can_merge(source_root, target_root) ==> {
                &&& !final(self).stack_live(source_root)
                &&& final(self).stack_live(target_root)
                &&& final(self).stack_cards(target_root) == old(self).stack_cards(target_root)
                    + old(self).stack_cards(source_root)
                &&& final(self).stack_at(target_root).ongoing == (if old(self).stack_at(
                    target_root,
                ).ongoing is Some {
                    old(self).stack_at(target_root).ongoing
                } else {
                    old(self).stack_at(source_root).ongoing
                })
                &&& final(self).stack_at(target_root).pos == old(self).stack_at(target_root).pos
                &&& final(self).stack_at(target_root).motion == old(self).stack_at(
                    target_root,
                ).motion
                &&& final(self).stack_at(target_root).ready == old(self).stack_at(
                    target_root,
                ).ready
                &&& final(self).stack_at(target_root).changed
            },
            final(self).stacks@.len() == old(self).stacks@.len(),
            final(self).cards@.len() == old(self).cards@.len(),
            forall|sid: StackId|
                sid < old(self).stacks@.len() && sid != source_root && sid != target_root
                    ==> final(self).stacks@[sid as int] == old(self).stacks@[sid as int],
            forall|cid: CardId| final(self).card_live(cid) <==> old(self).card_live(cid),
            forall|cid: CardId|
                old(self).card_live(cid) ==> final(self).card_at(cid).card == old(self).card_at(
                    cid,
                ).card,
            final(self).hovered == old(self).hovered,
    {
        let ghost pre = *self;
        if source_root == target_root {
            return ;
        }
        if source_root >= self.stacks.len() || target_root >= self.stacks.len() {
            return ;
        }
        let (source_cards, source_ongoing) = match &self.stacks[source_root] {
            Some(s) => (s.cards.clone(), s.ongoing),
            None => {
                return ;
            },
        };
        let (target_cards, target_ongoing) = match &self.stacks[target_root] {
            Some(s) => (s.cards.clone(), s.ongoing),
            None => {
                return ;
            },
        };
        proof {
            assert(pre.stack_live(source_root));
            assert(pre.stack_live(target_root));
            assert(source_cards@ =~= pre.stack_cards(source_root));
            assert(target_cards@ =~= pre.stack_cards(target_root));
            assert(pre.stack_entry_wf(source_root));
            assert(pre.stack_entry_wf(target_root));
        }
        if source_cards.len() > MAX_STACK_SIZE - target_cards.len() {
            return ;
        }

        let mut combined = target_cards;
        let mut source_tail = source_cards;
        combined.append(&mut source_tail);
        proof {
            let cs = combined@;
            let tlen = pre.stack_cards(target_root).len() as int;
            assert(cs == pre.stack_cards(target_root) + pre.stack_cards(source_root));
            // Every card of the combined list is live, and the two halves
            // are disjoint because their back-references differ.
            assert forall|i: int| 0 <= i < cs.len() implies pre.card_live(#[trigger] cs[i]) by {
                if i < tlen {
                    assert(cs[i] == pre.stack_cards(target_root)[i]);
                } else {
                    assert(cs[i] == pre.stack_cards(source_root)[i - tlen]);
                }
            }
            assert forall|i: int, j: int| 0 <= i < j < cs.len() implies cs[i] != cs[j] by {
                if i < tlen && j >= tlen {
                    assert(pre.card_at(cs[i]).stack == target_root);
                    assert(pre.card_at(cs[j]).stack == source_root);
                }
            }
        }
        self.set_stack_card_transforms(&combined, target_root);
        self.stacks[source_root] = None;
        let kept_recipe = if target_ongoing.is_some() {
            target_ongoing
        } else {
            source_ongoing
        };
        match &mut self.stacks[target_root] {
            Some(ts) => {
                ts.cards = combined;
                ts.ongoing = kept_recipe;
                ts.changed = true;
            },
            None => {
                proof {
                    assert(false);
                }
            },
        }
        proof {
            let post = *self;
            let cs = post.stack_cards(target_root);
            let tlen = pre.stack_cards(target_root).len() as int;
            assert forall|sid2: StackId| post.stack_live(sid2) implies post.stack_entry_wf(
                sid2,
            ) by {
                if sid2 == target_root {
                    assert forall|k: int|
                        0 <= k < cs.len() implies post.card_live(#[trigger] cs[k]) && post.card_at(
                        cs[k],
                    ).stack == target_root && post.card_at(cs[k]).offset == spec_nth_card_offset(
                        k,
                    ) by {
                        assert(post.cards@[cs[k] as int] == Some(
                            CardEntry {
                                card: pre.card_at(cs[k]).card,
                                stack: target_root,
                                offset: spec_nth_card_offset(k),
                            },
                        ));
                    }
                } else {
                    assert(sid2 != source_root);
                    assert(pre.stack_live(sid2));
                    assert(pre.stack_entry_wf(sid2));
                    let os = post.stack_cards(sid2);
                    assert(os == pre.stack_cards(sid2));
                    assert forall|k: int|
                        0 <= k < os.len() implies post.card_live(#[trigger] os[k]) && post.card_at(
                        os[k],
                    ) == pre.card_at(os[k]) by {
                        assert(pre.card_live(os[k]));
                        assert(pre.card_at(os[k]).stack == sid2);
                        // A card of another stack is in neither half of the
                        // combined list.
                        assert forall|m: int| 0 <= m < cs.len() implies cs[m] != os[k] by {
                            if m < tlen {
                                assert(pre.card_at(cs[m]).stack == target_root);
                            } else {
                                assert(pre.card_at(cs[m]).stack == source_root);
                            }
                        }
                        assert(!cs.contains(os[k]));
                        assert(post.cards@[os[k] as int] == pre.cards@[os[k] as int]);
                    }
                }
            }
            assert(cs.subrange(0, tlen) =~= pre.stack_cards(target_root));
            assert(cs.subrange(tlen, cs.len() as int) =~= pre.stack_cards(source_root));
            assert_merge_card_frame(pre, post, cs, tlen, source_root, target_root);
        }
    }

    /// Whether a split of `stack_root` at `new_bottom_card` will actually
    /// happen: the handle is live, the card is in the stack, and it is not
    /// the bottom card (picking up the bottom card means picking up the
    /// whole stack, so no split is needed).
    pub open spec fn can_split(self, stack_root: StackId, new_bottom_card: CardId) -> bool {
        &&& self.stack_live(stack_root)
        &&& self.stack_cards(stack_root).contains(new_bottom_card)
        &&& first_index_of(self.stack_cards(stack_root), new_bottom_card) != 0
    }

    /// Splits a stack so that `new_bottom_card` becomes the bottom of a new
    /// stack at `new_root_pos`: the cards below it stay on the old root,
    /// the cards from it upward move to the new root, and both sides keep a
    /// copy of any ongoing recipe (whether each copy is still valid is
    /// decided by the next recipe-detection pass). Returns the new root,
    /// or `None`, changing nothing, when no split is needed or possible.
    #[verifier::rlimit(100)]
    pub fn split_stack(
        &mut self,
        stack_root: StackId,
        new_bottom_card: CardId,
        new_root_pos: Vec3i,
    ) -> (r: Option<StackId>)
        requires
            old(self).wf(),
        ensures
            final(self).wf(),
            r is Some <==> old(self).can_split(stack_root, new_bottom_card),
            r is None ==> *final(self) == *old(self),
            r matches Some(new_root) ==> {
                let s = old(self).stack_cards(stack_root);
                let idx = first_index_of(s, new_bottom_card);
                &&& new_root == old(self).stacks@.len()
                &&& !old(self).stack_live(new_root)
                &&& final(self).stack_live(stack_root)
                &&& final(self).stack_live(new_root)
                &&& final(self).stack_cards(stack_root) == s.subrange(0, idx)
                &&& final(self).stack_cards(new_root) == s.subrange(idx, s.len() as int)
                &&& final(self).stack_at(new_root).pos == new_root_pos
                &&& final(self).stack_at(new_root).motion == Motion::Physics
                &&& final(self).stack_at(new_root).ongoing == old(self).stack_at(
                    stack_root,
                ).ongoing
                &&& final(self).stack_at(new_root).ready is None
                &&& final(self).stack_at(new_root).changed
                &&& final(self).stack_at(stack_root).pos == old(self).stack_at(stack_root).pos
                &&& final(self).stack_at(stack_root).motion == old(self).stack_at(
                    stack_root,
                ).motion
                &&& final(self).stack_at(stack_root).ongoing == old(self).stack_at(
                    stack_root,
                ).ongoing
                &&& final(self).stack_at(stack_root).ready == old(self).stack_at(stack_root).ready
                &&& final(self).stack_at(stack_root).changed
            },
            final(self).cards@.len() == old(self).cards@.len(),
            forall|sid: StackId|
                sid < old(self).stacks@.len() && sid != stack_root ==> final(self).stacks@[sid
                    as int] == old(self).stacks@[sid as int],
            forall|cid: CardId| final(self).card_live(cid) <==> old(self).card_live(cid),
            forall|cid: CardId|
                old(self).card_live(cid) ==> final(self).card_at(cid).card == old(self).card_at(
                    cid,
                ).card,
            final(self).hovered == old(self).hovered,
    {
        let ghost pre = *self;
        if stack_root >= self.stacks.len() {
            return None;
        }
        let (stack_cards, ongoing) = match &self.stacks[stack_root] {
            Some(s) => (s.cards.clone(), s.ongoing),
            None => {
                return None;
            },
        };
        proof {
            assert(pre.stack_live(stack_root));
            assert(stack_cards@ =~= pre.stack_cards(stack_root));
            assert(pre.stack_entry_wf(stack_root));
        }
        let ghost s = pre.stack_cards(stack_root);

        // Find the first occurrence of the card in the stack.
        let mut idx: usize = 0;
        while idx < stack_cards.len() && stack_cards[idx] != new_bottom_card
            invariant
                idx <= s.len(),
                stack_cards@ == s,
                forall|j: int| 0 <= j < idx ==> s[j] != new_bottom_card,
            decreases s.len() - idx,
        {
            idx = idx + 1;
        }
        if idx >= stack_cards.len() {
            proof {
                lemma_first_index_of_absent(s, new_bottom_card);
                assert(!s.contains(new_bottom_card));
            }
            return None;
        }
        proof {
            lemma_first_index_of(s, new_bottom_card, idx as int);
        }
        if idx == 0 {
            // Picking up the root of a stack. No need to split.
            return None;
        }

        let mut bottom: Vec<CardId> = Vec::new();
        let mut k: usize = 0;
        while k < idx
            invariant
                k <= idx <= stack_cards@.len(),
                stack_cards@ == s,
                bottom@ == s.subrange(0, k as int),
            decreases idx - k,
        {
            bottom.push(stack_cards[k]);
            proof {
                assert(bottom@ =~= s.subrange(0, k + 1));
            }
            k = k + 1;
        }
        let mut top: Vec<CardId> = Vec::new();
        let mut k2: usize = idx;
        while k2 < stack_cards.len()
            invariant
                idx <= k2 <= stack_cards@.len(),
                stack_cards@ == s,
                top@ == s.subrange(idx as int, k2 as int),
            decreases stack_cards@.len() - k2,
        {
            top.push(stack_cards[k2]);
            proof {
                assert(top@ =~= s.subrange(idx as int, k2 + 1));
            }
            k2 = k2 + 1;
        }

        let new_root: StackId = self.stacks.len();
        proof {
            assert forall|i: int| 0 <= i < top@.len() implies pre.card_live(#[trigger] top@[i]) by {
                assert(top@[i] == s[idx + i]);
            }
            assert forall|i: int, j: int| 0 <= i < j < top@.len() implies top@[i] != top@[j] by {
                assert(top@[i] == s[idx + i] && top@[j] == s[idx + j]);
            }
        }
        self.set_stack_card_transforms(&top, new_root);
        self.stacks.push(
            Some(
                Stack {
                    cards: top,
                    pos: new_root_pos,
                    motion: Motion::Physics,
                    ongoing,
                    ready: None,
                    changed: true,
                },
            ),
        );
        match &mut self.stacks[stack_root] {
            Some(ts) => {
                ts.cards = bottom;
                ts.changed = true;
            },
            None => {
                proof {
                    assert(false);
                }
            },
        }

        proof {
            let post = *self;
            let bs = post.stack_cards(stack_root);
            let ts = post.stack_cards(new_root);
            assert(bs == s.subrange(0, idx as int));
            assert(ts == s.subrange(idx as int, s.len() as int));
            assert forall|sid2: StackId| post.stack_live(sid2) implies post.stack_entry_wf(
                sid2,
            ) by {
                if sid2 == new_root {
                    assert forall|m: int|
                        0 <= m < ts.len() implies post.card_live(#[trigger] ts[m]) && post.card_at(
                        ts[m],
                    ).stack == new_root && post.card_at(ts[m]).offset == spec_nth_card_offset(
                        m,
                    ) by {
                        assert(ts[m] == s[idx + m]);
                        assert(post.cards@[ts[m] as int] == Some(
                            CardEntry {
                                card: pre.card_at(ts[m]).card,
                                stack: new_root,
                                offset: spec_nth_card_offset(m),
                            },
                        ));
                    }
                    assert forall|m: int, n: int| 0 <= m < n < ts.len() implies ts[m] != ts[n] by {
                        assert(ts[m] == s[idx + m] && ts[n] == s[idx + n]);
                    }
                } else if sid2 == stack_root {
                    assert forall|m: int|
                        0 <= m < bs.len() implies post.card_live(#[trigger] bs[m]) && post.card_at(
                        bs[m],
                    ).stack == stack_root && post.card_at(bs[m]).offset == spec_nth_card_offset(
                        m,
                    ) by {
                        assert(bs[m] == s[m]);
                        assert(pre.card_live(s[m]));
                        // A bottom card is not among the moved top cards.
                        assert forall|n: int| 0 <= n < ts.len() implies ts[n] != bs[m] by {
                            assert(ts[n] == s[idx + n]);
                        }
                        assert(!ts.contains(bs[m]));
                        assert(post.cards@[bs[m] as int] == pre.cards@[bs[m] as int]);
                    }
                    assert forall|m: int, n: int| 0 <= m < n < bs.len() implies bs[m] != bs[n] by {
                        assert(bs[m] == s[m] && bs[n] == s[n]);
                    }
                } else {
                    assert(pre.stack_live(sid2));
                    assert(pre.stack_entry_wf(sid2));
                    let os = post.stack_cards(sid2);
                    assert(os == pre.stack_cards(sid2));
                    assert forall|m: int|
                        0 <= m < os.len() implies post.card_live(#[trigger] os[m]) && post.card_at(
                        os[m],
                    ) == pre.card_at(os[m]) by {
                        assert(pre.card_live(os[m]));
                        assert(pre.card_at(os[m]).stack == sid2);
                        assert forall|n: int| 0 <= n < ts.len() implies ts[n] != os[m] by {
                            assert(ts[n] == s[idx + n]);
                            assert(pre.card_at(ts[n]).stack == stack_root);
                        }
                        assert(!ts.contains(os[m]));
                        assert(post.cards@[os[m] as int] == pre.cards@[os[m] as int]);
                    }
                }
            }
            assert forall|cid: CardId| post.card_live(cid) == pre.card_live(cid) && (
            post.card_live(cid) ==> post.card_entry_wf(cid) && post.card_at(cid).card
                == pre.card_at(cid).card) by {
                if ts.contains(cid) {
                    let m = choose|m: int| 0 <= m < ts.len() && ts[m] == cid;
                    assert(ts[m] == s[idx + m]);
                    assert(pre.card_live(cid));
                    assert(post.cards@[cid as int] == Some(
                        CardEntry {
                            card: pre.card_at(cid).card,
                            stack: new_root,
                            offset: spec_nth_card_offset(m),
                        },
                    ));
                    assert(post.stack_cards(new_root)[m] == cid);
                    assert(post.stack_cards(new_root).contains(cid));
                } else if cid >= pre.cards@.len() {
                    assert(!pre.card_live(cid));
                    assert(!post.card_live(cid));
                } else {
                    assert(post.cards@[cid as int] == pre.cards@[cid as int]);
                    if pre.card_live(cid) {
                        assert(pre.card_entry_wf(cid));
                        let owner = pre.card_at(cid).stack;
                        if owner == stack_root {
                            let j = choose|j: int| 0 <= j < s.len() && s[j] == cid;
                            if j < idx {
                                assert(bs[j] == cid);
                                assert(post.stack_cards(stack_root).contains(cid));
                                assert(post.card_entry_wf(cid));
                            } else {
                                assert(ts[j - idx] == cid);
                                assert(false);
                            }
                        } else {
                            assert(post.stacks@[owner as int] == pre.stacks@[owner as int]);
                            assert(post.stack_cards(owner) == pre.stack_cards(owner));
                        }
                    }
                }
            }
        }
        Some(new_root)
    }

    /// Removes the given cards from the stack's sequence and destroys them.
    /// If the resulting sequence is empty, the stack root itself is
    /// destroyed; otherwise the remaining sequence is re-laid-out in place.
    /// A delete on an already-destroyed stack handle is a no-op. The card
    /// list must not repeat a card, and every listed card must be in the
    /// stack: deleting a card twice in one batch is a caller error, not a
    /// supported input.
    #[verifier::rlimit(100)]
    pub fn delete_cards(&mut self, cards_to_delete: &Vec<CardId>, stack_root: StackId)
        requires
            old(self).wf(),
            cards_to_delete@.len() >= 1,
            old(self).stack_live(stack_root) ==> forall|i: int|
                0 <= i < cards_to_delete@.len() ==> old(self).stack_cards(stack_root).contains(
                    #[trigger] cards_to_delete@[i],
                ),
            old(self).stack_live(stack_root) ==> forall|i: int, j: int|
                0 <= i < j < cards_to_delete@.len() ==> cards_to_delete@[i] != cards_to_delete@[j],
        ensures
            final(self).wf(),
            !old(self).stack_live(stack_root) ==> *final(self) == *old(self),
            old(self).stack_live(stack_root) ==> {
                let kept = seq_remove_all(old(self).stack_cards(stack_root), cards_to_delete@);
                &&& (final(self).stack_live(stack_root) <==> kept.len() > 0)
                &&& kept.len() > 0 ==> final(self).stack_cards(stack_root) == kept
                &&& kept.len() > 0 ==> final(self).stack_at(stack_root).pos == old(self).stack_at(
                    stack_root,
                ).pos && final(self).stack_at(stack_root).motion == old(self).stack_at(
                    stack_root,
                ).motion && final(self).stack_at(stack_root).ongoing == old(self).stack_at(
                    stack_root,
                ).ongoing && final(self).stack_at(stack_root).ready == old(self).stack_at(
                    stack_root,
                ).ready && final(self).stack_at(stack_root).changed
            },
            old(self).stack_live(stack_root) ==> forall|cid: CardId|
                final(self).card_live(cid) == (old(self).card_live(cid)
                    && !cards_to_delete@.contains(cid)),
            forall|cid: CardId|
                final(self).card_live(cid) && old(self).card_live(cid) ==> final(self).card_at(
                    cid,
                ).card == old(self).card_at(cid).card,
            final(self).cards@.len() == old(self).cards@.len(),
            forall|sid: StackId|
                sid < old(self).stacks@.len() && sid != stack_root ==> final(self).stacks@[sid
                    as int] == old(self).stacks@[sid as int],
            final(self).stacks@.len() == old(self).stacks@.len(),
            final(self).hovered == old(self).hovered,
    {
        let ghost pre = *self;
        if stack_root >= self.stacks.len() {
            return ;
        }
        let stack_cards = match &self.stacks[stack_root] {
            Some(s) => s.cards.clone(),
            None => {
                return ;
            },
        };
        proof {
            assert(pre.stack_live(stack_root));
            assert(stack_cards@ =~= pre.stack_cards(stack_root));
            assert(pre.stack_entry_wf(stack_root));
            lemma_remove_all_props(pre.stack_cards(stack_root), cards_to_delete@);
        }
        let ghost s = pre.stack_cards(stack_root);
        let ghost del = cards_to_delete@;
        let ghost kept_spec = seq_remove_all(s, del);

        // Keep the cards that are not being deleted, in order.
        let mut kept: Vec<CardId> = Vec::new();
        let mut i: usize = 0;
        while i < stack_cards.len()
            invariant
                i <= s.len(),
                stack_cards@ == s,
                del == cards_to_delete@,
                kept@ == seq_remove_all(s.take(i as int), del),
            decreases s.len() - i,
        {
            proof {
                assert(s.take(i + 1).drop_last() =~= s.take(i as int));
                assert(s.take(i + 1).last() == s[i as int]);
                assert(seq_remove_all(s.take(i + 1), del) == if del.contains(s[i as int]) {
                    seq_remove_all(s.take(i as int), del)
                } else {
                    seq_remove_all(s.take(i as int), del).push(s[i as int])
                });
            }
            if !contains_card(cards_to_delete, stack_cards[i]) {
                kept.push(stack_cards[i]);
                proof {
                    assert(!del.contains(s[i as int]));
                    assert(kept@ == seq_remove_all(s.take(i as int), del).push(s[i as int]));
                    assert(kept@ == seq_remove_all(s.take(i + 1), del));
                }
            } else {
                proof {
                    assert(del.contains(s[i as int]));
                    assert(kept@ == seq_remove_all(s.take(i + 1), del));
                }
            }
            i = i + 1;
        }
        proof {
            assert(s.take(s.len() as int) =~= s);
            assert(kept@ == kept_spec);
        }

        // Destroy the deleted cards.
        let mut j: usize = 0;
        while j < cards_to_delete.len()
            invariant
                pre.wf(),
                pre.stack_live(stack_root),
                j <= del.len(),
                cards_to_delete@ == del,
                forall|k: int| 0 <= k < del.len() ==> s.contains(#[trigger] del[k]),
                s == pre.stack_cards(stack_root),
                self.cards@.len() == pre.cards@.len(),
                self.stacks@ == pre.stacks@,
                self.hovered == pre.hovered,
                forall|k: int| 0 <= k < j ==> self.cards@[del[k] as int] is None,
                forall|c: CardId|
                    c < pre.cards@.len() && (forall|k: int| 0 <= k < j ==> del[k] != c)
                        ==> self.cards@[c as int] == pre.cards@[c as int],
            decreases del.len() - j,
        {
            let cid = cards_to_delete[j];
            proof {
                assert(s.contains(del[j as int]));
                let m = choose|m: int| 0 <= m < s.len() && s[m] == del[j as int];
                assert(pre.card_live(s[m]));
            }
            self.cards[cid] = None;
            j = j + 1;
        }
        let ghost mid = *self;

        if kept.len() == 0 {
            self.stacks[stack_root] = None;
        } else {
            proof {
                let mid = *self;
                assert forall|k: int|
                    0 <= k < kept_spec.len() implies mid.card_live(#[trigger] kept_spec[k]) by {
                    assert(s.contains(kept_spec[k]) && !del.contains(kept_spec[k]));
                    let m = choose|m: int| 0 <= m < s.len() && s[m] == kept_spec[k];
                    assert(pre.card_live(s[m]));
                    assert(forall|n: int| 0 <= n < del.len() ==> del[n] != kept_spec[k]);
                    assert(mid.cards@[kept_spec[k] as int] == pre.cards@[kept_spec[k] as int]);
                }
            }
            self.set_stack_card_transforms(&kept, stack_root);
            match &mut self.stacks[stack_root] {
                Some(ts) => {
                    ts.cards = kept;
                    ts.changed = true;
                },
                None => {
                    proof {
                        assert(false);
                    }
                },
            }
        }

        proof {
            let post = *self;
            assert forall|cid: CardId| post.card_live(cid) == (pre.card_live(cid) && !del.contains(
                cid,
            )) && (post.card_live(cid) ==> post.card_at(cid).card == pre.card_at(cid).card) by {
                if cid >= pre.cards@.len() {
                    assert(!pre.card_live(cid));
                    assert(!post.card_live(cid));
                } else if del.contains(cid) {
                    let k = choose|k: int| 0 <= k < del.len() && del[k] == cid;
                    assert(mid.cards@[cid as int] is None);
                    assert(!kept_spec.contains(cid)) by {
                        if kept_spec.contains(cid) {
                            let q = choose|q: int|
                                0 <= q < kept_spec.len() && kept_spec[q] == cid;
                        }
                    }
                    assert(post.cards@[cid as int] == mid.cards@[cid as int]);
                    assert(post.cards@[cid as int] is None);
                } else if kept_spec.contains(cid) {
                    let k = choose|k: int| 0 <= k < kept_spec.len() && kept_spec[k] == cid;
                    assert(s.contains(cid));
                    let m = choose|m: int| 0 <= m < s.len() && s[m] == cid;
                    assert(pre.card_live(cid));
                    assert(post.cards@[cid as int] == Some(
                        CardEntry {
                            card: pre.card_at(cid).card,
                            stack: stack_root,
                            offset: spec_nth_card_offset(k),
                        },
                    ));
                } else {
                    assert(forall|k: int| 0 <= k < del.len() ==> del[k] != cid);
                    assert(post.cards@[cid as int] == pre.cards@[cid as int]);
                }
            }
            assert forall|sid2: StackId| post.stack_live(sid2) implies post.stack_entry_wf(
                sid2,
            ) by {
                if sid2 == stack_root {
                    assert(kept_spec.len() > 0);
                    let cs = post.stack_cards(stack_root);
                    assert(cs == kept_spec);
                    assert forall|k: int|
                        0 <= k < cs.len() implies post.card_live(#[trigger] cs[k]) && post.card_at(
                        cs[k],
                    ).stack == stack_root && post.card_at(cs[k]).offset == spec_nth_card_offset(
                        k,
                    ) by {
                        assert(s.contains(cs[k]) && !del.contains(cs[k]));
                        let m = choose|m: int| 0 <= m < s.len() && s[m] == cs[k];
                        assert(pre.card_live(cs[k]));
                        assert(post.cards@[cs[k] as int] == Some(
                            CardEntry {
                                card: pre.card_at(cs[k]).card,
                                stack: stack_root,
                                offset: spec_nth_card_offset(k),
                            },
                        ));
                    }
                } else {
                    assert(pre.stack_live(sid2));
                    assert(pre.stack_entry_wf(sid2));
                    let os = post.stack_cards(sid2);
                    assert(os == pre.stack_cards(sid2));
                    assert forall|m: int|
                        0 <= m < os.len() implies post.card_live(#[trigger] os[m]) && post.card_at(
                        os[m],
                    ) == pre.card_at(os[m]) by {
                        assert(pre.card_live(os[m]));
                        assert(pre.card_at(os[m]).stack == sid2);
                        assert forall|n: int| 0 <= n < del.len() implies del[n] != os[m] by {
                            assert(s.contains(del[n]));
                            let q = choose|q: int| 0 <= q < s.len() && s[q] == del[n];
                            assert(pre.card_at(s[q]).stack == stack_root);
                        }
                        assert(!del.contains(os[m]));
                        assert(!kept_spec.contains(os[m])) by {
                            if kept_spec.contains(os[m]) {
                                assert(s.contains(os[m]));
                                let q = choose|q: int| 0 <= q < s.len() && s[q] == os[m];
                                assert(pre.card_at(s[q]).stack == stack_root);
                            }
                        }
                        assert(post.cards@[os[m] as int] == pre.cards@[os[m] as int]);
                    }
                }
            }
            assert forall|cid: CardId| post.card_live(cid) implies post.card_entry_wf(cid) by {
                assert(pre.card_live(cid) && !del.contains(cid));
                assert(pre.card_entry_wf(cid));
                let owner = pre.card_at(cid).stack;
                if owner == stack_root {
                    assert(s.contains(cid));
                    assert(kept_spec.contains(cid));
                    assert(post.card_at(cid).stack == stack_root);
                    assert(post.stack_live(stack_root));
                    assert(post.stack_cards(stack_root) == kept_spec);
                } else {
                    assert(!kept_spec.contains(cid)) by {
                        if kept_spec.contains(cid) {
                            assert(s.contains(cid));
                            let q = choose|q: int| 0 <= q < s.len() && s[q] == cid;
                            assert(pre.card_at(s[q]).stack == stack_root);
                        }
                    }
                    assert(forall|k: int| 0 <= k < del.len() ==> del[k] != cid);
                    assert(post.cards@[cid as int] == pre.cards@[cid as int]);
                    assert(post.stacks@[owner as int] == pre.stacks@[owner as int]);
                }
            }
        }
    }
}

/// Law: merging a stack onto another and then splitting the combined stack
/// at the original boundary — the source's old bottom card — restores the
/// two original card sequences exactly. The merged sequence's first
/// occurrence of that card is at the old boundary index, the index is never
/// the bottom (so the split happens), and the two sides of the split are
/// the original target and source sequences. Any ongoing recipe is subject
/// to re-validation by the detection pass afterwards; the sequences
/// themselves round-trip.
pub proof fn lemma_merge_then_split_round_trip(
    pre: StackStore,
    source_root: StackId,
    target_root: StackId,
)
    requires
        pre.wf(),
        pre.can_merge(source_root, target_root),
    ensures
        ({
            let t = pre.stack_cards(target_root);
            let s = pre.stack_cards(source_root);
            let merged = t + s;
            let idx = first_index_of(merged, s[0]);
            &&& merged.contains(s[0])
            &&& idx == t.len()
            &&& idx != 0
            &&& merged.subrange(0, idx) == t
            &&& merged.subrange(idx, merged.len() as int) == s
        }),
{
    let t = pre.stack_cards(target_root);
    let s = pre.stack_cards(source_root);
    let merged = t + s;
    assert(pre.stack_entry_wf(source_root));
    assert(pre.stack_entry_wf(target_root));
    assert(merged[t.len() as int] == s[0]);
    assert(pre.card_at(s[0]).stack == source_root);
    assert forall|j: int| 0 <= j < t.len() implies merged[j] != s[0] by {
        assert(merged[j] == t[j]);
        assert(pre.card_at(t[j]).stack == target_root);
    }
    lemma_first_index_of(merged, s[0], t.len() as int);
    assert(merged.subrange(0, t.len() as int) =~= t);
    assert(merged.subrange(t.len() as int, merged.len() as int) =~= s);
}

/// One step of deleting a single card from a stack, exactly as the delete
/// operation guarantees it for a one-card batch.
pub open spec fn single_card_delete_step(
    pre: StackStore,
    post: StackStore,
    stack_root: StackId,
    card: CardId,
) -> bool {
    &&& pre.wf()
    &&& post.wf()
    &&& pre.stack_live(stack_root)
    &&& pre.stack_cards(stack_root).contains(card)
    &&& (post.stack_live(stack_root) <==> seq_remove_all(
        pre.stack_cards(stack_root),
        seq![card],
    ).len() > 0)
    &&& (post.stack_live(stack_root) ==> post.stack_cards(stack_root) == seq_remove_all(
        pre.stack_cards(stack_root),
        seq![card],
    ))
}

/// Law: deleting every card of a stack one at a time leaves the stack root
/// alive through every deletion but the last, and after the last deletion
/// the root no longer exists. `states` are the store states around each
/// deletion, `deleted` the card deleted at each step.
pub proof fn lemma_delete_one_at_a_time_destroys_stack(
    states: Seq<StackStore>,
    deleted: Seq<CardId>,
    stack_root: StackId,
)
    requires
        states.len() == deleted.len() + 1,
        states[0].wf(),
        states[0].stack_live(stack_root),
        deleted.len() == states[0].stack_cards(stack_root).len(),
        forall|k: int|
            0 <= k < deleted.len() ==> single_card_delete_step(
                #[trigger] states[k],
                states[k + 1],
                stack_root,
                deleted[k],
            ),
    ensures
        forall|k: int| 0 <= k < deleted.len() ==> (#[trigger] states[k]).stack_live(stack_root),
        !states[states.len() - 1].stack_live(stack_root),
    decreases deleted.len(),
{
    let s0 = states[0];
    assert(single_card_delete_step(states[0], states[1], stack_root, deleted[0]));
    assert(s0.stack_entry_wf(stack_root));
    lemma_remove_one_length(s0.stack_cards(stack_root), deleted[0]);
    if deleted.len() == 1 {
        assert(!states[1].stack_live(stack_root));
    } else {
        let rest_states = states.drop_first();
        let rest_deleted = deleted.drop_first();
        assert(states[1].stack_live(stack_root));
        assert(rest_states[0] == states[1]);
        assert(rest_deleted.len() == states[1].stack_cards(stack_root).len());
        assert forall|k: int|
            0 <= k < rest_deleted.len() implies single_card_delete_step(
            #[trigger] rest_states[k],
            rest_states[k + 1],
            stack_root,
            rest_deleted[k],
        ) by {
            assert(rest_states[k] == states[k + 1]);
            assert(rest_states[k + 1] == states[k + 2]);
            assert(rest_deleted[k] == deleted[k + 1]);
            assert(single_card_delete_step(states[k + 1], states[k + 2], stack_root, deleted[k + 1]));
        }
        lemma_delete_one_at_a_time_destroys_stack(rest_states, rest_deleted, stack_root);
        assert forall|k: int|
            0 <= k < deleted.len() implies (#[trigger] states[k]).stack_live(stack_root) by {
            if k > 0 {
                assert(rest_states[k - 1] == states[k]);
                assert(rest_states[k - 1].stack_live(stack_root));
            }
        }
        assert(states[states.len() - 1] == rest_states[rest_states.len() - 1]);
    }
}

/// Frame conditions of a merge on the card arena, shared with the proof of
/// the split operation's converse direction.
#[verifier::spinoff_prover]
proof fn assert_merge_card_frame(
    pre: StackStore,
    post: StackStore,
    cs: Seq<CardId>,
    tlen: int,
    source_root: StackId,
    target_root: StackId,
)
    requires
        pre.wf(),
        post.cards@.len() == pre.cards@.len(),
        0 <= tlen <= cs.len(),
        cs.subrange(0, tlen) == pre.stack_cards(target_root),
        pre.stack_live(target_root),
        pre.stack_live(source_root),
        cs.subrange(tlen, cs.len() as int) == pre.stack_cards(source_root),
        post.stack_live(target_root),
        post.stack_cards(target_root) == cs,
        forall|k: int|
            0 <= k < cs.len() ==> post.cards@[cs[k] as int] == Some(
                CardEntry {
                    card: pre.card_at(cs[k]).card,
                    stack: target_root,
                    offset: spec_nth_card_offset(k),
                },
            ),
        forall|c: CardId|
            c < pre.cards@.len() && !cs.contains(c) ==> post.cards@[c as int] == pre.cards@[c
                as int],
        forall|sid: StackId|
            sid < pre.stacks@.len() && sid != source_root && sid != target_root
                ==> post.stacks@[sid as int] == pre.stacks@[sid as int],
        post.stacks@.len() == pre.stacks@.len(),
    ensures
        forall|cid: CardId|
            post.card_live(cid) == pre.card_live(cid) && (post.card_live(cid)
                ==> post.card_entry_wf(cid) && post.card_at(cid).card == pre.card_at(cid).card),
{
    assert forall|cid: CardId| post.card_live(cid) == pre.card_live(cid) && (post.card_live(cid)
        ==> post.card_entry_wf(cid) && post.card_at(cid).card == pre.card_at(cid).card) by {
        if cs.contains(cid) {
            let k = choose|k: int| 0 <= k < cs.len() && cs[k] == cid;
            if k < tlen {
                assert(pre.stack_cards(target_root)[k] == cid);
            } else {
                assert(pre.stack_cards(source_root)[k - tlen] == cid);
            }
            assert(pre.card_live(cid));
            assert(post.cards@[cid as int] == Some(
                CardEntry {
                    card: pre.card_at(cid).card,
                    stack: target_root,
                    offset: spec_nth_card_offset(k),
                },
            ));
            assert(post.stack_cards(target_root)[k] == cid);
            assert(post.stack_cards(target_root).contains(cid));
        } else if cid >= pre.cards@.len() {
            assert(!pre.card_live(cid));
            assert(!post.card_live(cid));
        } else {
            assert(post.cards@[cid as int] == pre.cards@[cid as int]);
            if pre.card_live(cid) {
                assert(pre.card_entry_wf(cid));
                let owner = pre.card_at(cid).stack;
                if owner == target_root {
                    let j = choose|j: int| 0 <= j < tlen && pre.stack_cards(target_root)[j] == cid;
                    assert(cs[j] == cid);
                    assert(false);
                } else if owner == source_root {
                    let j = choose|j: int|
                        0 <= j < pre.stack_cards(source_root).len() && pre.stack_cards(
                            source_root,
                        )[j] == cid;
                    assert(cs[tlen + j] == cid);
                    assert(false);
                } else {
                    assert(post.stacks@[owner as int] == pre.stacks@[owner as int]);
                    assert(post.stack_cards(owner) == pre.stack_cards(owner));
                }
            }
        }
    }
}

} // verus!
