//! The standard recipe table and the completion effects it uses.
//!
//! Recipes are registered in a fixed order at startup; the order is the
//! priority when several recipes match the same stack. Each effect works on
//! every stack the recipe is ready on: it consumes cards through the stack
//! store and requests new stacks through creation events.

use vstd::prelude::*;

use crate::card::{card_type, spec_card_type, Card, CardType, CardTypeId};
use crate::procedural::SeededHasherResource;
use crate::recipe::{Recipe, RecipeEffect, RecipePredicate, Recipes, RecipesBuilder};
use crate::stack_store::{seq_remove_all, CardId, CreateStackEvent, StackId, StackStore};

verus! {

/// Chance that cutting a tree also drops an apple, in percent.
pub const APPLE_DROP_PERCENTAGE: usize = 25;

/// The card ids of `s` whose card satisfies `p`, in order.
pub open spec fn ids_where(s: Seq<CardId>, p: spec_fn(CardId) -> bool) -> Seq<CardId>
    decreases s.len(),
{
    if s.len() == 0 {
        Seq::empty()
    } else {
        let rest = ids_where(s.drop_last(), p);
        if p(s.last()) {
            rest.push(s.last())
        } else {
            rest
        }
    }
}

/// What filtering keeps: exactly the elements satisfying `p`, distinct
/// whenever `s` was.
pub proof fn lemma_ids_where_props(s: Seq<CardId>, p: spec_fn(CardId) -> bool)
    ensures
        ids_where(s, p).len() <= s.len(),
        forall|k: int|
            0 <= k < ids_where(s, p).len() ==> s.contains(#[trigger] ids_where(s, p)[k]) && p(
                ids_where(s, p)[k],
            ),
        forall|c: CardId| s.contains(c) && p(c) ==> ids_where(s, p).contains(c),
        (forall|i: int, j: int| 0 <= i < j < s.len() ==> s[i] != s[j]) ==> (forall|i: int, j: int|
            0 <= i < j < ids_where(s, p).len() ==> ids_where(s, p)[i] != ids_where(s, p)[j]),
    decreases s.len(),
{
    let r = ids_where(s, p);
    if s.len() == 0 {
        assert forall|c: CardId| s.contains(c) && p(c) implies r.contains(c) by {
            let j = choose|j: int| 0 <= j < s.len() && s[j] == c;
        }
    } else {
        let head = s.drop_last();
        let rest = ids_where(head, p);
        lemma_ids_where_props(head, p);
        assert forall|k: int| 0 <= k < r.len() implies s.contains(#[trigger] r[k]) && p(r[k]) by {
            if k < rest.len() {
                assert(r[k] == rest[k]);
                let j = choose|j: int| 0 <= j < head.len() && head[j] == rest[k];
                assert(s[j] == r[k]);
                assert(s.contains(r[k]));
            } else {
                assert(r[k] == s.last());
                assert(s.contains(s.last()));
            }
        }
        assert forall|c: CardId| s.contains(c) && p(c) implies r.contains(c) by {
            let j = choose|j: int| 0 <= j < s.len() && s[j] == c;
            if j < head.len() {
                assert(head[j] == c);
                assert(head.contains(c));
                assert(rest.contains(c));
                let m = choose|m: int| 0 <= m < rest.len() && rest[m] == c;
                assert(r[m] == c);
                assert(r.contains(c));
            } else {
                assert(s.last() == c);
                assert(r[r.len() - 1] == c);
                assert(r.contains(c));
            }
        }
        if forall|i: int, j: int| 0 <= i < j < s.len() ==> s[i] != s[j] {
            assert forall|i: int, j: int| 0 <= i < j < r.len() implies r[i] != r[j] by {
                if p(s.last()) && j == rest.len() {
                    assert(r[j] == s.last());
                    assert(r[i] == rest[i]);
                    let m = choose|m: int| 0 <= m < head.len() && head[m] == rest[i];
                    assert(s[m] == r[i]);
                    assert(s[s.len() - 1] == s.last());
                }
            }
        }
    }
}

/// Whether a card is a tree that can still be chopped.
pub open spec fn spec_is_choppable_tree(store: StackStore, cid: CardId) -> bool {
    store.card_at(cid).card.spec_is_type(spec_card_type(CardTypeId::Tree)) && store.card_at(
        cid,
    ).card.uses is Some
}

/// Whether the stack is live and holds a tree that can still be chopped.
pub open spec fn spec_has_choppable_tree(store: StackStore, root: StackId) -> bool {
    store.stack_live(root) && exists|k: int|
        0 <= k < store.stack_cards(root).len() && spec_is_choppable_tree(
            store,
            #[trigger] store.stack_cards(root)[k],
        )
}

/// Consumes one use of the first choppable tree in the stack (deleting the
/// tree when that was its last use) and requests one log stack at the
/// stack's position — sometimes an apple stack as well. A stack without a
/// choppable tree, or a destroyed handle, is left alone.
#[verifier::rlimit(100)]
pub fn cut_tree_effect(
    store: &mut StackStore,
    root: StackId,
    seeded: &SeededHasherResource,
    events: &mut Vec<CreateStackEvent>,
)
    requires
        old(store).wf(),
    ensures
        final(store).wf(),
        final(events)@.len() >= old(events)@.len(),
        final(events)@.subrange(0, old(events)@.len() as int) == old(events)@,
        forall|sid: StackId|
            final(store).stack_live(sid) ==> old(store).stack_live(sid)
                && final(store).stack_at(sid).ready == old(store).stack_at(sid).ready,
        !spec_has_choppable_tree(*old(store), root) ==> *final(store) == *old(store)
            && final(events)@ == old(events)@,
        spec_has_choppable_tree(*old(store), root) ==> spec_cut_tree_outcome(
            *seeded,
            *old(store),
            *final(store),
            root,
            old(events)@,
            final(events)@,
        ),
{
    let ghost pre = *store;
    if root >= store.stacks.len() {
        return ;
    }
    let (ids, pos) = match &store.stacks[root] {
        Some(s) => (s.cards.clone(), s.pos),
        None => {
            return ;
        },
    };
    proof {
        assert(pre.stack_live(root));
        assert(ids@ =~= pre.stack_cards(root));
        assert(pre.stack_entry_wf(root));
    }
    let ghost s = pre.stack_cards(root);

    // Find the first tree that still has uses left.
    let tree = card_type(CardTypeId::Tree);
    let mut idx: usize = 0;
    let mut found = false;
    while idx < ids.len() && !found
        invariant
            idx <= s.len(),
            ids@ == s,
            pre.wf(),
            pre.stack_live(root),
            s == pre.stack_cards(root),
            *store == pre,
            tree == spec_card_type(CardTypeId::Tree),
            !found ==> forall|j: int|
                0 <= j < idx ==> !spec_is_choppable_tree(pre, #[trigger] s[j]),
            found ==> idx < s.len() && spec_is_choppable_tree(pre, s[idx as int]) && forall|j: int|
                0 <= j < idx ==> !spec_is_choppable_tree(pre, #[trigger] s[j]),
        decreases s.len() - idx + (if found {
            0int
        } else {
            1int
        }),
    {
        let cid = ids[idx];
        proof {
            assert(pre.card_live(s[idx as int]));
        }
        let card = match store.get_card(cid) {
            Some(c) => c,
            None => {
                proof {
                    assert(false);
                }
                Card::of_type(&tree)
            },
        };
        if card.is_type(&tree) && card.uses.is_some() {
            found = true;
        } else {
            idx = idx + 1;
        }
    }
    if !found {
        proof {
            assert forall|k: int|
                0 <= k < s.len() implies !spec_is_choppable_tree(pre, #[trigger] s[k]) by {}
        }
        return ;
    }

    let cid = ids[idx];
    proof {
        assert(pre.card_live(s[idx as int]));
    }
    let card = match store.get_card(cid) {
        Some(c) => c,
        None => {
            proof {
                assert(false);
            }
            Card::of_type(&tree)
        },
    };
    let uses = match card.uses {
        Some(u) => u,
        None => {
            proof {
                assert(false);
            }
            0
        },
    };

    if uses <= 1 {
        // The recipe consumes the tree's last use: the tree is deleted.
        let mut to_delete: Vec<CardId> = Vec::new();
        to_delete.push(cid);
        proof {
            assert(to_delete@ =~= seq![cid]);
            assert(s.contains(s[idx as int]));
        }
        store.delete_cards(&to_delete, root);
    } else {
        store.set_card_data(
            cid,
            Card {
                type_id: card.type_id,
                category: card.category,
                value: card.value,
                uses: Some(uses - 1),
                pack_cards: card.pack_cards,
            },
        );
    }

    events.push(
        CreateStackEvent {
            position: crate::geom::Vec2i { x: pos.x, y: pos.y },
            card_type: card_type(CardTypeId::Log),
            amount: 1,
        },
    );

    // Sometimes, a tree also drops an apple; the roll mixes in the use
    // count the tree is left with (its last use when it was consumed).
    let mixed_uses = if uses <= 1 {
        uses
    } else {
        uses - 1
    };
    let mut rng = seeded.with(cid as u64);
    rng.with(mixed_uses as u64);
    if rng.value_in_range(0, 100) < APPLE_DROP_PERCENTAGE {
        events.push(
            CreateStackEvent {
                position: crate::geom::Vec2i { x: pos.x, y: pos.y },
                card_type: card_type(CardTypeId::Apple),
                amount: 1,
            },
        );
    }
    proof {
        lemma_first_choppable(pre, s, idx as int);
        assert(final(events)@.subrange(0, old(events)@.len() as int) =~= old(events)@);
        let post = *store;
        let ti = first_choppable_tree_index(pre, s);
        assert(ti == idx);
        let c = s[ti];
        assert(c == cid);
        let tree_card = pre.card_at(c).card;
        assert(tree_card == card);
        assert(tree_card.uses->0 == uses);
        if uses <= 1 {
            assert(seq![cid][0] == cid);
            assert(seq![cid].contains(cid));
            assert(!post.card_live(c));
            assert(post.stack_live(root) <==> seq_remove_all(s, seq![cid]).len() > 0);
            assert(post.stack_live(root) ==> post.stack_cards(root) == seq_remove_all(
                s,
                seq![cid],
            ));
        } else {
            assert(post.card_live(c));
            assert(post.card_at(c).card == Card {
                uses: Some((tree_card.uses->0 - 1) as u32),
                ..tree_card
            });
            assert(post.stack_live(root));
            assert(post.stack_cards(root) == s);
        }
        assert(spec_cut_tree_outcome(*seeded, pre, post, root, old(events)@, final(events)@));
    }
}

/// The index found by the scan is the first choppable tree.
proof fn lemma_first_choppable(pre: StackStore, s: Seq<CardId>, idx: int)
    requires
        0 <= idx < s.len(),
        spec_is_choppable_tree(pre, s[idx]),
        forall|j: int| 0 <= j < idx ==> !spec_is_choppable_tree(pre, #[trigger] s[j]),
    ensures
        first_choppable_tree_index(pre, s) == idx,
    decreases idx,
{
    if idx > 0 {
        let rest = s.drop_first();
        assert(forall|j: int| 0 <= j < idx - 1 ==> rest[j] == s[j + 1]);
        assert(rest[idx - 1] == s[idx]);
        assert forall|j: int|
            0 <= j < idx - 1 implies !spec_is_choppable_tree(pre, #[trigger] rest[j]) by {
            assert(rest[j] == s[j + 1]);
        }
        lemma_first_choppable(pre, rest, idx - 1);
    }
}

/// Index of the first tree with uses left in the card list, or `-1`.
pub open spec fn first_choppable_tree_index(store: StackStore, s: Seq<CardId>) -> int
    decreases s.len(),
{
    if s.len() == 0 {
        -1
    } else if spec_is_choppable_tree(store, s[0]) {
        0
    } else {
        let rest = first_choppable_tree_index(store, s.drop_first());
        if rest == -1 {
            -1
        } else {
            rest + 1
        }
    }
}

/// Whether the card was spawned from the given type.
pub open spec fn spec_is_of_type(store: StackStore, cid: CardId, t: CardType) -> bool {
    store.card_at(cid).card.spec_is_type(t)
}

/// Index of the first card of the given type in the card list, or `-1`.
pub open spec fn first_of_type_index(store: StackStore, s: Seq<CardId>, t: CardType) -> int
    decreases s.len(),
{
    if s.len() == 0 {
        -1
    } else if spec_is_of_type(store, s[0], t) {
        0
    } else {
        let rest = first_of_type_index(store, s.drop_first(), t);
        if rest == -1 {
            -1
        } else {
            rest + 1
        }
    }
}

/// The index found by a scan with no earlier match is the first one.
proof fn lemma_first_of_type(store: StackStore, s: Seq<CardId>, t: CardType, idx: int)
    requires
        0 <= idx < s.len(),
        spec_is_of_type(store, s[idx], t),
        forall|j: int| 0 <= j < idx ==> !spec_is_of_type(store, #[trigger] s[j], t),
    ensures
        first_of_type_index(store, s, t) == idx,
    decreases idx,
{
    if idx > 0 {
        let rest = s.drop_first();
        assert(forall|j: int| 0 <= j < idx - 1 ==> rest[j] == s[j + 1]);
        assert(rest[idx - 1] == s[idx]);
        assert forall|j: int|
            0 <= j < idx - 1 implies !spec_is_of_type(store, #[trigger] rest[j], t) by {
            assert(rest[j] == s[j + 1]);
        }
        lemma_first_of_type(store, rest, t, idx - 1);
    }
}

/// Whether the stack is live and holds a log.
pub open spec fn spec_has_log(store: StackStore, root: StackId) -> bool {
    store.stack_live(root) && exists|k: int|
        0 <= k < store.stack_cards(root).len() && spec_is_of_type(
            store,
            #[trigger] store.stack_cards(root)[k],
            spec_card_type(CardTypeId::Log),
        )
}

/// What making a plank leaves behind: the first log is consumed, and one
/// plank-stack request is appended at the stack's position.
pub open spec fn spec_make_plank_outcome(
    pre: StackStore,
    post: StackStore,
    root: StackId,
    events_pre: Seq<CreateStackEvent>,
    events_post: Seq<CreateStackEvent>,
) -> bool {
    let s = pre.stack_cards(root);
    let li = first_of_type_index(pre, s, spec_card_type(CardTypeId::Log));
    let cid = s[li];
    &&& 0 <= li < s.len()
    &&& !post.card_live(cid)
    &&& (post.stack_live(root) <==> seq_remove_all(s, seq![cid]).len() > 0)
    &&& (post.stack_live(root) ==> post.stack_cards(root) == seq_remove_all(s, seq![cid]))
    &&& events_post == events_pre.push(
        CreateStackEvent {
            position: crate::geom::Vec2i {
                x: pre.stack_at(root).pos.x,
                y: pre.stack_at(root).pos.y,
            },
            card_type: spec_card_type(CardTypeId::Plank),
            amount: 1,
        },
    )
}

/// Consumes the first log in the stack and requests one plank stack at the
/// stack's position. A stack without a log, or a destroyed handle, is left
/// alone.
#[verifier::rlimit(100)]
pub fn make_plank_effect(store: &mut StackStore, root: StackId, events: &mut Vec<CreateStackEvent>)
    requires
        old(store).wf(),
    ensures
        final(store).wf(),
        final(events)@.len() >= old(events)@.len(),
        final(events)@.subrange(0, old(events)@.len() as int) == old(events)@,
        forall|sid: StackId|
            final(store).stack_live(sid) ==> old(store).stack_live(sid)
                && final(store).stack_at(sid).ready == old(store).stack_at(sid).ready,
        !spec_has_log(*old(store), root) ==> *final(store) == *old(store)
            && final(events)@ == old(events)@,
        spec_has_log(*old(store), root) ==> spec_make_plank_outcome(
            *old(store),
            *final(store),
            root,
            old(events)@,
            final(events)@,
        ),
{
    let ghost pre = *store;
    if root >= store.stacks.len() {
        return ;
    }
    let (ids, pos) = match &store.stacks[root] {
        Some(s) => (s.cards.clone(), s.pos),
        None => {
            return ;
        },
    };
    proof {
        assert(pre.stack_live(root));
        assert(ids@ =~= pre.stack_cards(root));
        assert(pre.stack_entry_wf(root));
    }
    let ghost s = pre.stack_cards(root);

    let log = card_type(CardTypeId::Log);
    let mut idx: usize = 0;
    let mut found = false;
    while idx < ids.len() && !found
        invariant
            idx <= s.len(),
            ids@ == s,
            pre.wf(),
            pre.stack_live(root),
            s == pre.stack_cards(root),
            *store == pre,
            log == spec_card_type(CardTypeId::Log),
            !found ==> forall|j: int|
                0 <= j < idx ==> !spec_is_of_type(pre, #[trigger] s[j], log),
            found ==> idx < s.len() && spec_is_of_type(pre, s[idx as int], log) && forall|j: int|
                0 <= j < idx ==> !spec_is_of_type(pre, #[trigger] s[j], log),
        decreases s.len() - idx + (if found {
            0int
        } else {
            1int
        }),
    {
        let cid = ids[idx];
        proof {
            assert(pre.card_live(s[idx as int]));
        }
        let card = match store.get_card(cid) {
            Some(c) => c,
            None => {
                proof {
                    assert(false);
                }
                Card::of_type(&log)
            },
        };
        if card.is_type(&log) {
            found = true;
        } else {
            idx = idx + 1;
        }
    }
    if !found {
        proof {
            assert forall|k: int|
                0 <= k < s.len() implies !spec_is_of_type(pre, #[trigger] s[k], log) by {}
        }
        return ;
    }

    let cid = ids[idx];
    // The recipe consumes a single log.
    let mut to_delete: Vec<CardId> = Vec::new();
    to_delete.push(cid);
    proof {
        assert(to_delete@ =~= seq![cid]);
        assert(s.contains(s[idx as int]));
    }
    store.delete_cards(&to_delete, root);

    events.push(
        CreateStackEvent {
            position: crate::geom::Vec2i { x: pos.x, y: pos.y },
            card_type: card_type(CardTypeId::Plank),
            amount: 1,
        },
    );
    proof {
        lemma_first_of_type(pre, s, spec_card_type(CardTypeId::Log), idx as int);
        assert(final(events)@.subrange(0, old(events)@.len() as int) =~= old(events)@);
        let post = *store;
        let li = first_of_type_index(pre, s, spec_card_type(CardTypeId::Log));
        assert(li == idx);
        assert(seq![cid][0] == cid);
        assert(seq![cid].contains(cid));
        assert(!post.card_live(cid));
        assert(spec_make_plank_outcome(pre, post, root, old(events)@, final(events)@));
    }
}

/// What cutting a tree leaves behind: the first choppable tree loses one
/// use (and is deleted on its last), one log-stack request is appended at
/// the stack's position, sometimes followed by one apple-stack request.
pub open spec fn spec_cut_tree_outcome(
    seeded: SeededHasherResource,
    pre: StackStore,
    post: StackStore,
    root: StackId,
    events_pre: Seq<CreateStackEvent>,
    events_post: Seq<CreateStackEvent>,
) -> bool {
    let s = pre.stack_cards(root);
    let ti = first_choppable_tree_index(pre, s);
    let cid = s[ti];
    let tree_card = pre.card_at(cid).card;
    let mixed_uses = if tree_card.uses->0 <= 1 {
        tree_card.uses->0
    } else {
        (tree_card.uses->0 - 1) as u32
    };
    let apple_roll = crate::procedural::spec_rng_mix(
        crate::procedural::spec_rng_mix(seeded.0, cid as u64),
        mixed_uses as u64,
    );
    let log_event = CreateStackEvent {
        position: crate::geom::Vec2i {
            x: pre.stack_at(root).pos.x,
            y: pre.stack_at(root).pos.y,
        },
        card_type: spec_card_type(CardTypeId::Log),
        amount: 1,
    };
    let apple_event = CreateStackEvent {
        position: crate::geom::Vec2i {
            x: pre.stack_at(root).pos.x,
            y: pre.stack_at(root).pos.y,
        },
        card_type: spec_card_type(CardTypeId::Apple),
        amount: 1,
    };
    &&& 0 <= ti < s.len()
    &&& (tree_card.uses->0 <= 1 ==> {
        // Last use: the tree is deleted, and the stack root with it when the
        // tree was its only card.
        &&& !post.card_live(cid)
        &&& (post.stack_live(root) <==> seq_remove_all(s, seq![cid]).len() > 0)
        &&& (post.stack_live(root) ==> post.stack_cards(root) == seq_remove_all(s, seq![cid]))
    })
    &&& (tree_card.uses->0 > 1 ==> {
        &&& post.card_live(cid)
        &&& post.card_at(cid).card == Card { uses: Some((tree_card.uses->0 - 1) as u32), ..tree_card }
        &&& post.stack_live(root)
        &&& post.stack_cards(root) == s
    })
    &&& events_post == (if apple_roll as int % 100 < APPLE_DROP_PERCENTAGE {
        events_pre.push(log_event).push(apple_event)
    } else {
        events_pre.push(log_event)
    })
}

/// Whether the card can be sold.
pub open spec fn spec_sellable_id(store: StackStore, cid: CardId) -> bool {
    store.card_at(cid).card.spec_sellable()
}

/// Total sale value of the sellable cards in the list.
pub open spec fn total_sellable_value(store: StackStore, s: Seq<CardId>) -> int
    decreases s.len(),
{
    if s.len() == 0 {
        0
    } else {
        total_sellable_value(store, s.drop_last()) + if spec_sellable_id(store, s.last()) {
            store.card_at(s.last()).card.value->0 as int
        } else {
            0int
        }
    }
}

/// What selling leaves behind: every sellable card is consumed (destroying
/// the root if nothing remains), and one coin-stack request is appended
/// whose amount is the total sale value, whenever that value is positive.
pub open spec fn spec_sell_outcome(
    pre: StackStore,
    post: StackStore,
    root: StackId,
    events_pre: Seq<CreateStackEvent>,
    events_post: Seq<CreateStackEvent>,
) -> bool {
    let s = pre.stack_cards(root);
    let sold = ids_where(s, |cid: CardId| spec_sellable_id(pre, cid));
    let total = total_sellable_value(pre, s);
    let coin_event = CreateStackEvent {
        position: crate::geom::Vec2i {
            x: pre.stack_at(root).pos.x,
            y: pre.stack_at(root).pos.y,
        },
        card_type: spec_card_type(CardTypeId::Coin),
        amount: if total <= u64::MAX {
            total as u64
        } else {
            u64::MAX
        },
    };
    &&& (sold.len() == 0 ==> post == pre)
    &&& (sold.len() > 0 ==> {
        &&& (post.stack_live(root) <==> seq_remove_all(s, sold).len() > 0)
        &&& (post.stack_live(root) ==> post.stack_cards(root) == seq_remove_all(s, sold))
        &&& forall|k: int| 0 <= k < sold.len() ==> !post.card_live(#[trigger] sold[k])
    })
    &&& (total > 0 ==> events_post == events_pre.push(coin_event))
    &&& (total <= 0 ==> events_post == events_pre)
}

/// Consumes every sellable card on the stack and requests one coin stack
/// worth their total value at the stack's position. System cards are never
/// sellable. A destroyed handle is left alone.
#[verifier::rlimit(100)]
pub fn sell_cards_effect(store: &mut StackStore, root: StackId, events: &mut Vec<CreateStackEvent>)
    requires
        old(store).wf(),
    ensures
        final(store).wf(),
        final(events)@.len() >= old(events)@.len(),
        final(events)@.subrange(0, old(events)@.len() as int) == old(events)@,
        forall|sid: StackId|
            final(store).stack_live(sid) ==> old(store).stack_live(sid)
                && final(store).stack_at(sid).ready == old(store).stack_at(sid).ready,
        !old(store).stack_live(root) ==> *final(store) == *old(store) && final(events)@ == old(
            events,
        )@,
        old(store).stack_live(root) ==> spec_sell_outcome(
            *old(store),
            *final(store),
            root,
            old(events)@,
            final(events)@,
        ),
{
    let ghost pre = *store;
    if root >= store.stacks.len() {
        return ;
    }
    let (ids, pos) = match &store.stacks[root] {
        Some(s) => (s.cards.clone(), s.pos),
        None => {
            return ;
        },
    };
    proof {
        assert(pre.stack_live(root));
        assert(ids@ =~= pre.stack_cards(root));
        assert(pre.stack_entry_wf(root));
    }
    let ghost s = pre.stack_cards(root);
    let ghost p = |cid: CardId| spec_sellable_id(pre, cid);

    // The recipe consumes all the cards that have a value.
    let mut sold: Vec<CardId> = Vec::new();
    let mut total: u128 = 0;
    let mut i: usize = 0;
    while i < ids.len()
        invariant
            i <= s.len(),
            ids@ == s,
            pre.wf(),
            pre.stack_live(root),
            s == pre.stack_cards(root),
            *store == pre,
            p == (|cid: CardId| spec_sellable_id(pre, cid)),
            sold@ == ids_where(s.take(i as int), p),
            total == total_sellable_value(pre, s.take(i as int)),
            total <= i * 0xFFFF_FFFF_FFFF_FFFFu128,
        decreases s.len() - i,
    {
        proof {
            assert(pre.card_live(s[i as int]));
            assert(s.take(i + 1).drop_last() =~= s.take(i as int));
            assert(s.take(i + 1).last() == s[i as int]);
        }
        let cid = ids[i];
        let card = match store.get_card(cid) {
            Some(c) => c,
            None => {
                proof {
                    assert(false);
                }
                Card::of_type(&card_type(CardTypeId::Coin))
            },
        };
        if card.sellable() {
            sold.push(cid);
            let value = match card.value {
                Some(v) => v,
                None => {
                    proof {
                        assert(false);
                    }
                    0
                },
            };
            total = total + (value as u128);
        }
        i = i + 1;
    }
    proof {
        assert(s.take(s.len() as int) =~= s);
    }

    if sold.len() > 0 {
        proof {
            lemma_ids_where_props(s, p);
        }
        store.delete_cards(&sold, root);
    }
    if total > 0 {
        let amount = if total > 0xFFFF_FFFF_FFFF_FFFFu128 {
            0xFFFF_FFFF_FFFF_FFFFu64
        } else {
            total as u64
        };
        events.push(
            CreateStackEvent {
                position: crate::geom::Vec2i { x: pos.x, y: pos.y },
                card_type: card_type(CardTypeId::Coin),
                amount,
            },
        );
    }
    proof {
        assert(final(events)@.subrange(0, old(events)@.len() as int) =~= old(events)@);
        let post = *store;
        let sold_spec = ids_where(s, |cid: CardId| spec_sellable_id(pre, cid));
        assert(sold@ == sold_spec);
        assert(spec_sell_outcome(pre, post, root, old(events)@, final(events)@));
    }
}

/// Whether the card is an ingredient a villager is made of: clay or coin.
pub open spec fn spec_villager_ingredient(store: StackStore, cid: CardId) -> bool {
    store.card_at(cid).card.spec_is_type(spec_card_type(CardTypeId::Clay)) || store.card_at(
        cid,
    ).card.spec_is_type(spec_card_type(CardTypeId::Coin))
}

/// What creating a villager leaves behind: every clay and coin card is
/// consumed, and one villager-stack request is appended at the stack's
/// position.
pub open spec fn spec_create_villager_outcome(
    pre: StackStore,
    post: StackStore,
    root: StackId,
    events_pre: Seq<CreateStackEvent>,
    events_post: Seq<CreateStackEvent>,
) -> bool {
    let s = pre.stack_cards(root);
    let used = ids_where(s, |cid: CardId| spec_villager_ingredient(pre, cid));
    &&& (used.len() == 0 ==> post == pre)
    &&& (used.len() > 0 ==> {
        &&& (post.stack_live(root) <==> seq_remove_all(s, used).len() > 0)
        &&& (post.stack_live(root) ==> post.stack_cards(root) == seq_remove_all(s, used))
        &&& forall|k: int| 0 <= k < used.len() ==> !post.card_live(#[trigger] used[k])
    })
    &&& events_post == events_pre.push(
        CreateStackEvent {
            position: crate::geom::Vec2i {
                x: pre.stack_at(root).pos.x,
                y: pre.stack_at(root).pos.y,
            },
            card_type: spec_card_type(CardTypeId::Villager),
            amount: 1,
        },
    )
}

/// Consumes the clay and the coins on the stack and requests one villager
/// stack at the stack's position. A destroyed handle is left alone.
#[verifier::rlimit(100)]
pub fn create_villager_effect(
    store: &mut StackStore,
    root: StackId,
    events: &mut Vec<CreateStackEvent>,
)
    requires
        old(store).wf(),
    ensures
        final(store).wf(),
        final(events)@.len() >= old(events)@.len(),
        final(events)@.subrange(0, old(events)@.len() as int) == old(events)@,
        forall|sid: StackId|
            final(store).stack_live(sid) ==> old(store).stack_live(sid)
                && final(store).stack_at(sid).ready == old(store).stack_at(sid).ready,
        !old(store).stack_live(root) ==> *final(store) == *old(store) && final(events)@ == old(
            events,
        )@,
        old(store).stack_live(root) ==> spec_create_villager_outcome(
            *old(store),
            *final(store),
            root,
            old(events)@,
            final(events)@,
        ),
{
    let ghost pre = *store;
    if root >= store.stacks.len() {
        return ;
    }
    let (ids, pos) = match &store.stacks[root] {
        Some(s) => (s.cards.clone(), s.pos),
        None => {
            return ;
        },
    };
    proof {
        assert(pre.stack_live(root));
        assert(ids@ =~= pre.stack_cards(root));
        assert(pre.stack_entry_wf(root));
    }
    let ghost s = pre.stack_cards(root);
    let ghost p = |cid: CardId| spec_villager_ingredient(pre, cid);

    let clay = card_type(CardTypeId::Clay);
    let coin = card_type(CardTypeId::Coin);
    let mut used: Vec<CardId> = Vec::new();
    let mut i: usize = 0;
    while i < ids.len()
        invariant
            i <= s.len(),
            ids@ == s,
            pre.wf(),
            pre.stack_live(root),
            s == pre.stack_cards(root),
            *store == pre,
            clay == spec_card_type(CardTypeId::Clay),
            coin == spec_card_type(CardTypeId::Coin),
            p == (|cid: CardId| spec_villager_ingredient(pre, cid)),
            used@ == ids_where(s.take(i as int), p),
        decreases s.len() - i,
    {
        proof {
            assert(pre.card_live(s[i as int]));
            assert(s.take(i + 1).drop_last() =~= s.take(i as int));
            assert(s.take(i + 1).last() == s[i as int]);
        }
        let cid = ids[i];
        let card = match store.get_card(cid) {
            Some(c) => c,
            None => {
                proof {
                    assert(false);
                }
                Card::of_type(&coin)
            },
        };
        if card.is_type(&clay) || card.is_type(&coin) {
            used.push(cid);
        }
        i = i + 1;
    }
    proof {
        assert(s.take(s.len() as int) =~= s);
    }

    if used.len() > 0 {
        proof {
            lemma_ids_where_props(s, p);
        }
        store.delete_cards(&used, root);
    }
    events.push(
        CreateStackEvent {
            position: crate::geom::Vec2i { x: pos.x, y: pos.y },
            card_type: card_type(CardTypeId::Villager),
            amount: 1,
        },
    );
    proof {
        assert(final(events)@.subrange(0, old(events)@.len() as int) =~= old(events)@);
        let post = *store;
        assert(used@ == ids_where(s, |cid: CardId| spec_villager_ingredient(pre, cid)));
        assert(spec_create_villager_outcome(pre, post, root, old(events)@, final(events)@));
    }
}

/// The first `n` cards of the given type in the list, in order.
pub open spec fn first_n_of_type(
    store: StackStore,
    s: Seq<CardId>,
    t: CardType,
    n: int,
) -> Seq<CardId>
    decreases s.len(),
{
    if s.len() == 0 || n <= 0 {
        Seq::empty()
    } else if spec_is_of_type(store, s[0], t) {
        seq![s[0]] + first_n_of_type(store, s.drop_first(), t, n - 1)
    } else {
        first_n_of_type(store, s.drop_first(), t, n)
    }
}

/// How the selection grows when one card is appended to the list.
proof fn lemma_first_n_of_type_snoc(store: StackStore, s: Seq<CardId>, x: CardId, t: CardType, n: int)
    requires
        n >= 0,
    ensures
        first_n_of_type(store, s.push(x), t, n) == (if first_n_of_type(store, s, t, n).len() < n
            && spec_is_of_type(store, x, t) {
            first_n_of_type(store, s, t, n).push(x)
        } else {
            first_n_of_type(store, s, t, n)
        }),
    decreases s.len(),
{
    lemma_first_n_of_type_props(store, s, t, n);
    if n == 0 {
        assert(first_n_of_type(store, s.push(x), t, 0) =~= first_n_of_type(store, s, t, 0));
    } else if s.len() == 0 {
        assert(s.push(x)[0] == x);
        assert(s.push(x).len() == 1);
        assert(s.push(x).drop_first() =~= Seq::<CardId>::empty());
        assert(first_n_of_type(store, s, t, n) == Seq::<CardId>::empty());
        assert(first_n_of_type(store, Seq::<CardId>::empty(), t, n - 1) == Seq::<CardId>::empty());
        if spec_is_of_type(store, x, t) {
            assert(first_n_of_type(store, s.push(x), t, n) == seq![x] + first_n_of_type(
                store,
                s.push(x).drop_first(),
                t,
                n - 1,
            ));
            assert(seq![x] + Seq::<CardId>::empty() =~= Seq::<CardId>::empty().push(x));
        } else {
            assert(first_n_of_type(store, s.push(x), t, n) == first_n_of_type(
                store,
                s.push(x).drop_first(),
                t,
                n,
            ));
            assert(first_n_of_type(store, Seq::<CardId>::empty(), t, n) == Seq::<
                CardId,
            >::empty());
        }
    } else {
        assert(s.push(x)[0] == s[0]);
        assert(s.push(x).drop_first() =~= s.drop_first().push(x));
        lemma_first_n_of_type_snoc(store, s.drop_first(), x, t, n - 1);
        lemma_first_n_of_type_snoc(store, s.drop_first(), x, t, n);
        lemma_first_n_of_type_props(store, s.drop_first(), t, n - 1);
        if spec_is_of_type(store, s[0], t) {
            let rest = first_n_of_type(store, s.drop_first(), t, n - 1);
            if rest.len() < n - 1 && spec_is_of_type(store, x, t) {
                assert(seq![s[0]] + rest.push(x) =~= (seq![s[0]] + rest).push(x));
            }
        }
    }
}

/// What the selection holds: at most `n` cards, each of the wanted type and
/// taken from the list, each at most once when the list repeats none.
proof fn lemma_first_n_of_type_props(store: StackStore, s: Seq<CardId>, t: CardType, n: int)
    ensures
        first_n_of_type(store, s, t, n).len() <= n || n < 0,
        forall|k: int|
            0 <= k < first_n_of_type(store, s, t, n).len() ==> s.contains(
                #[trigger] first_n_of_type(store, s, t, n)[k],
            ) && spec_is_of_type(store, first_n_of_type(store, s, t, n)[k], t),
        (forall|i: int, j: int| 0 <= i < j < s.len() ==> s[i] != s[j]) ==> (forall|i: int, j: int|
            0 <= i < j < first_n_of_type(store, s, t, n).len() ==> first_n_of_type(store, s, t, n)[i]
                != first_n_of_type(store, s, t, n)[j]),
    decreases s.len(),
{
    let r = first_n_of_type(store, s, t, n);
    if s.len() == 0 || n <= 0 {
    } else {
        let head = s.drop_first();
        assert(forall|j: int| 0 <= j < head.len() ==> head[j] == s[j + 1]);
        lemma_first_n_of_type_props(store, head, t, n);
        lemma_first_n_of_type_props(store, head, t, n - 1);
        assert forall|k: int|
            0 <= k < r.len() implies s.contains(#[trigger] r[k]) && spec_is_of_type(
            store,
            r[k],
            t,
        ) by {
            if spec_is_of_type(store, s[0], t) {
                let rest = first_n_of_type(store, head, t, n - 1);
                if k == 0 {
                    assert(r[0] == s[0]);
                    assert(s.contains(s[0]));
                } else {
                    assert(r[k] == rest[k - 1]);
                    let m = choose|m: int| 0 <= m < head.len() && head[m] == rest[k - 1];
                    assert(s[m + 1] == r[k]);
                    assert(s.contains(r[k]));
                }
            } else {
                let rest = first_n_of_type(store, head, t, n);
                assert(r[k] == rest[k]);
                let m = choose|m: int| 0 <= m < head.len() && head[m] == rest[k];
                assert(s[m + 1] == r[k]);
                assert(s.contains(r[k]));
            }
        }
        if forall|i: int, j: int| 0 <= i < j < s.len() ==> s[i] != s[j] {
            assert(forall|i: int, j: int| 0 <= i < j < head.len() ==> head[i] != head[j]);
            assert forall|i: int, j: int| 0 <= i < j < r.len() implies r[i] != r[j] by {
                if spec_is_of_type(store, s[0], t) {
                    let rest = first_n_of_type(store, head, t, n - 1);
                    if i == 0 {
                        assert(r[j] == rest[j - 1]);
                        let m = choose|m: int| 0 <= m < head.len() && head[m] == rest[j - 1];
                        assert(s[m + 1] == r[j]);
                        assert(s[0] != s[m + 1]);
                    } else {
                        assert(r[i] == rest[i - 1] && r[j] == rest[j - 1]);
                    }
                }
            }
        }
    }
}

/// What buying a pack leaves behind: when the bottom card prices the pack
/// and the stack holds at least that many coins, that many coins are
/// consumed (the first ones, bottom to top) and one card-pack request is
/// appended; otherwise nothing happens.
pub open spec fn spec_buy_pack_outcome(
    pre: StackStore,
    post: StackStore,
    root: StackId,
    events_pre: Seq<CreateStackEvent>,
    events_post: Seq<CreateStackEvent>,
) -> bool {
    let s = pre.stack_cards(root);
    let bottom = pre.card_at(s[0]).card;
    let pack_event = CreateStackEvent {
        position: crate::geom::Vec2i {
            x: pre.stack_at(root).pos.x,
            y: pre.stack_at(root).pos.y,
        },
        card_type: spec_card_type(CardTypeId::ForestPack),
        amount: 1,
    };
    if bottom.value is None {
        post == pre && events_post == events_pre
    } else {
        let cost = bottom.value->0 as int;
        let coins = first_n_of_type(pre, s, spec_card_type(CardTypeId::Coin), cost);
        if coins.len() == cost {
            &&& (coins.len() > 0 ==> {
                &&& (post.stack_live(root) <==> seq_remove_all(s, coins).len() > 0)
                &&& (post.stack_live(root) ==> post.stack_cards(root) == seq_remove_all(s, coins))
                &&& forall|k: int| 0 <= k < coins.len() ==> !post.card_live(#[trigger] coins[k])
            })
            &&& (coins.len() == 0 ==> post == pre)
            &&& events_post == events_pre.push(pack_event)
        } else {
            post == pre && events_post == events_pre
        }
    }
}

/// Consumes as many coins as the bottom card's pack price and requests one
/// card-pack stack at the stack's position; with too few coins, or a bottom
/// card without a price, nothing happens. A destroyed handle is left alone.
#[verifier::rlimit(100)]
pub fn buy_pack_effect(store: &mut StackStore, root: StackId, events: &mut Vec<CreateStackEvent>)
    requires
        old(store).wf(),
    ensures
        final(store).wf(),
        final(events)@.len() >= old(events)@.len(),
        final(events)@.subrange(0, old(events)@.len() as int) == old(events)@,
        forall|sid: StackId|
            final(store).stack_live(sid) ==> old(store).stack_live(sid)
                && final(store).stack_at(sid).ready == old(store).stack_at(sid).ready,
        !old(store).stack_live(root) ==> *final(store) == *old(store) && final(events)@ == old(
            events,
        )@,
        old(store).stack_live(root) ==> spec_buy_pack_outcome(
            *old(store),
            *final(store),
            root,
            old(events)@,
            final(events)@,
        ),
{
    let ghost pre = *store;
    if root >= store.stacks.len() {
        return ;
    }
    let (ids, pos) = match &store.stacks[root] {
        Some(s) => (s.cards.clone(), s.pos),
        None => {
            return ;
        },
    };
    proof {
        assert(pre.stack_live(root));
        assert(ids@ =~= pre.stack_cards(root));
        assert(pre.stack_entry_wf(root));
    }
    let ghost s = pre.stack_cards(root);

    proof {
        assert(pre.card_live(s[0]));
    }
    let bottom = match store.get_card(ids[0]) {
        Some(c) => c,
        None => {
            proof {
                assert(false);
            }
            Card::of_type(&card_type(CardTypeId::Coin))
        },
    };
    let cost = match bottom.value {
        Some(v) => v,
        None => {
            return ;
        },
    };

    let coin = card_type(CardTypeId::Coin);
    let mut coins: Vec<CardId> = Vec::new();
    let mut i: usize = 0;
    while i < ids.len()
        invariant
            i <= s.len(),
            ids@ == s,
            pre.wf(),
            pre.stack_live(root),
            s == pre.stack_cards(root),
            *store == pre,
            coin == spec_card_type(CardTypeId::Coin),
            coins@ == first_n_of_type(pre, s.take(i as int), coin, cost as int),
            coins@.len() <= cost,
        decreases s.len() - i,
    {
        proof {
            assert(pre.card_live(s[i as int]));
            assert(s.take(i + 1) =~= s.take(i as int).push(s[i as int]));
            lemma_first_n_of_type_snoc(pre, s.take(i as int), s[i as int], coin, cost as int);
        }
        let cid = ids[i];
        let card = match store.get_card(cid) {
            Some(c) => c,
            None => {
                proof {
                    assert(false);
                }
                Card::of_type(&coin)
            },
        };
        if card.is_type(&coin) && (coins.len() as u64) < cost {
            coins.push(cid);
        }
        i = i + 1;
    }
    proof {
        assert(s.take(s.len() as int) =~= s);
    }

    if (coins.len() as u64) != cost {
        // Not enough coins.
        return ;
    }
    if coins.len() > 0 {
        proof {
            lemma_first_n_of_type_props(pre, s, coin, cost as int);
        }
        store.delete_cards(&coins, root);
    }
    // Spawn the pack.
    events.push(
        CreateStackEvent {
            position: crate::geom::Vec2i { x: pos.x, y: pos.y },
            card_type: card_type(CardTypeId::ForestPack),
            amount: 1,
        },
    );
    proof {
        assert(final(events)@.subrange(0, old(events)@.len() as int) =~= old(events)@);
        let post = *store;
        assert(coins@ == first_n_of_type(pre, s, spec_card_type(CardTypeId::Coin), cost as int));
        assert(spec_buy_pack_outcome(pre, post, root, old(events)@, final(events)@));
    }
}

/// Everything one effect application to one ready stack guarantees: the
/// event list only grows at its end, no ready marker appears or changes,
/// no stack comes back to life, and the effect's own outcome holds — or
/// nothing at all happened where the effect does not apply.
pub open spec fn spec_effect_step(
    effect: RecipeEffect,
    seeded: SeededHasherResource,
    pre: StackStore,
    post: StackStore,
    root: StackId,
    ev_pre: Seq<CreateStackEvent>,
    ev_post: Seq<CreateStackEvent>,
) -> bool {
    &&& ev_post.len() >= ev_pre.len()
    &&& ev_post.subrange(0, ev_pre.len() as int) == ev_pre
    &&& (forall|sid: StackId|
        post.stack_live(sid) ==> pre.stack_live(sid) && post.stack_at(sid).ready == pre.stack_at(
            sid,
        ).ready)
    &&& match effect {
        RecipeEffect::CutTree => {
            &&& (!spec_has_choppable_tree(pre, root) ==> post == pre && ev_post == ev_pre)
            &&& (spec_has_choppable_tree(pre, root) ==> spec_cut_tree_outcome(
                seeded,
                pre,
                post,
                root,
                ev_pre,
                ev_post,
            ))
        },
        RecipeEffect::MakePlank => {
            &&& (!spec_has_log(pre, root) ==> post == pre && ev_post == ev_pre)
            &&& (spec_has_log(pre, root) ==> spec_make_plank_outcome(pre, post, root, ev_pre, ev_post))
        },
        RecipeEffect::Sell => {
            &&& (!pre.stack_live(root) ==> post == pre && ev_post == ev_pre)
            &&& (pre.stack_live(root) ==> spec_sell_outcome(pre, post, root, ev_pre, ev_post))
        },
        RecipeEffect::BuyPack => {
            &&& (!pre.stack_live(root) ==> post == pre && ev_post == ev_pre)
            &&& (pre.stack_live(root) ==> spec_buy_pack_outcome(pre, post, root, ev_pre, ev_post))
        },
        RecipeEffect::CreateVillager => {
            &&& (!pre.stack_live(root) ==> post == pre && ev_post == ev_pre)
            &&& (pre.stack_live(root) ==> spec_create_villager_outcome(
                pre,
                post,
                root,
                ev_pre,
                ev_post,
            ))
        },
    }
}

/// The store and event list after applying one effect to the first `k`
/// ready roots, in order: each step satisfies the effect's step relation,
/// chained through the intermediate states.
pub open spec fn spec_effect_fold(
    effect: RecipeEffect,
    seeded: SeededHasherResource,
    pre: StackStore,
    post: StackStore,
    roots: Seq<StackId>,
    ev_pre: Seq<CreateStackEvent>,
    ev_post: Seq<CreateStackEvent>,
    k: int,
) -> bool
    decreases k,
{
    if k <= 0 {
        post == pre && ev_post == ev_pre
    } else {
        exists|mid_store: StackStore, mid_ev: Seq<CreateStackEvent>|
            #[trigger] spec_effect_step(effect, seeded, mid_store, post, roots[k - 1], mid_ev, ev_post)
                && spec_effect_fold(effect, seeded, pre, mid_store, roots, ev_pre, mid_ev, k - 1)
    }
}

/// The standard recipe table, in registration order.
pub open spec fn spec_standard_recipes() -> Seq<Recipe> {
    seq![
        Recipe {
            predicate: RecipePredicate::CuttingTree,
            duration_ms: Some(2000),
            effect: RecipeEffect::CutTree,
        },
        Recipe {
            predicate: RecipePredicate::MakingPlank,
            duration_ms: Some(3000),
            effect: RecipeEffect::MakePlank,
        },
        Recipe { predicate: RecipePredicate::SellCards, duration_ms: None, effect: RecipeEffect::Sell },
        Recipe {
            predicate: RecipePredicate::BuyCardPack,
            duration_ms: None,
            effect: RecipeEffect::BuyPack,
        },
        Recipe {
            predicate: RecipePredicate::CreatingVillager,
            duration_ms: Some(5000),
            effect: RecipeEffect::CreateVillager,
        },
    ]
}

/// Builds the standard recipe registry supplied at startup: cutting a tree
/// (2 s), making a plank (3 s), selling cards (instant), buying a card pack
/// (instant), and creating a villager (5 s), in that priority order.
pub fn build_recipes() -> (r: Recipes)
    ensures
        r@ == spec_standard_recipes(),
{
    let r = RecipesBuilder::new().with_recipe(
        RecipePredicate::CuttingTree,
        2000,
        RecipeEffect::CutTree,
    ).with_recipe(RecipePredicate::MakingPlank, 3000, RecipeEffect::MakePlank).with_instant_recipe(
        RecipePredicate::SellCards,
        RecipeEffect::Sell,
    ).with_instant_recipe(RecipePredicate::BuyCardPack, RecipeEffect::BuyPack).with_recipe(
        RecipePredicate::CreatingVillager,
        5000,
        RecipeEffect::CreateVillager,
    ).build();
    proof {
        assert(r@ =~= spec_standard_recipes());
    }
    r
}

/// Applies one recipe's completion effect to every stack the recipe is
/// ready on. Effects only consume cards of the given stacks and append
/// stack-creation requests; no ready marker appears or changes, and no new
/// stack appears before the creation events are processed.
pub fn apply_recipe_effect(
    store: &mut StackStore,
    effect: RecipeEffect,
    ready_roots: &Vec<StackId>,
    seeded: &SeededHasherResource,
    events: &mut Vec<CreateStackEvent>,
)
    requires
        old(store).wf(),
    ensures
        final(store).wf(),
        final(events)@.len() >= old(events)@.len(),
        final(events)@.subrange(0, old(events)@.len() as int) == old(events)@,
        forall|sid: StackId|
            final(store).stack_live(sid) ==> old(store).stack_live(sid)
                && final(store).stack_at(sid).ready == old(store).stack_at(sid).ready,
        spec_effect_fold(
            effect,
            *seeded,
            *old(store),
            *final(store),
            ready_roots@,
            old(events)@,
            final(events)@,
            ready_roots@.len() as int,
        ),
{
    let mut i: usize = 0;
    while i < ready_roots.len()
        invariant
            i <= ready_roots@.len(),
            store.wf(),
            events@.len() >= old(events)@.len(),
            events@.subrange(0, old(events)@.len() as int) == old(events)@,
            forall|sid: StackId|
                store.stack_live(sid) ==> old(store).stack_live(sid) && store.stack_at(sid).ready
                    == old(store).stack_at(sid).ready,
            spec_effect_fold(
                effect,
                *seeded,
                *old(store),
                *store,
                ready_roots@,
                old(events)@,
                events@,
                i as int,
            ),
        decreases ready_roots@.len() - i,
    {
        let ghost mid = *store;
        let ghost mid_events = events@;
        let root = ready_roots[i];
        match effect {
            RecipeEffect::CutTree => {
                cut_tree_effect(store, root, seeded, events);
                proof {
                    assert(spec_effect_step(effect, *seeded, mid, *store, root, mid_events, events@));
                }
            },
            RecipeEffect::MakePlank => {
                make_plank_effect(store, root, events);
                proof {
                    assert(spec_effect_step(effect, *seeded, mid, *store, root, mid_events, events@));
                }
            },
            RecipeEffect::Sell => {
                sell_cards_effect(store, root, events);
                proof {
                    assert(spec_effect_step(effect, *seeded, mid, *store, root, mid_events, events@));
                }
            },
            RecipeEffect::BuyPack => {
                buy_pack_effect(store, root, events);
                proof {
                    assert(spec_effect_step(effect, *seeded, mid, *store, root, mid_events, events@));
                }
            },
            RecipeEffect::CreateVillager => {
                create_villager_effect(store, root, events);
                proof {
                    assert(spec_effect_step(effect, *seeded, mid, *store, root, mid_events, events@));
                }
            },
        }
        proof {
            assert(events@.subrange(0, old(events)@.len() as int) =~= old(events)@);
            assert forall|sid: StackId| store.stack_live(sid) implies old(store).stack_live(sid)
                && store.stack_at(sid).ready == old(store).stack_at(sid).ready by {
                assert(mid.stack_live(sid));
            }
            assert(ready_roots@[(i as int + 1) - 1] == root);
            assert(spec_effect_fold(
                effect,
                *seeded,
                *old(store),
                *store,
                ready_roots@,
                old(events)@,
                events@,
                i as int + 1,
            ));
        }
        i = i + 1;
    }
}

} // verus!
