//! Card packs: depletable cards that spawn one random card per opening.

use vstd::prelude::*;

use crate::card::{card_type, spec_card_type, Card, CardTypeId};
use crate::geom::Vec2i;
use crate::procedural::SeededHasherResource;
use crate::stack_store::{seq_remove_all, CardId, CreateStackEvent, StackStore};

verus! {

/// Whether the store's hovered card is a live card pack.
pub open spec fn spec_hovered_pack(store: StackStore) -> bool {
    &&& store.hovered matches Some(h)
    &&& store.card_live(h.card)
    &&& store.card_at(h.card).card.pack_cards is Some
}

/// What opening the hovered pack leaves behind. With cards left in the
/// pack, one card-stack request — a tree or a clay, chosen by the seeded
/// roll over the pack's identity and its remaining count — is appended at
/// the pack's stack position and the pack's count drops by one; a pack
/// that thereby (or already) reaches zero is deleted from its stack.
pub open spec fn spec_open_pack_outcome(
    seeded: SeededHasherResource,
    pre: StackStore,
    post: StackStore,
    events_pre: Seq<CreateStackEvent>,
    events_post: Seq<CreateStackEvent>,
) -> bool {
    let h = pre.hovered->0;
    let pack = pre.card_at(h.card).card;
    let left = pack.pack_cards->0;
    let owner = pre.card_at(h.card).stack;
    let roll = crate::procedural::spec_rng_mix(
        crate::procedural::spec_rng_mix(seeded.0, h.card as u64),
        left as u64,
    );
    &&& (left > 0 ==> {
        &&& events_post.len() == events_pre.len() + 1
        &&& events_post.subrange(0, events_pre.len() as int) == events_pre
        &&& events_post.last().amount == 1
        &&& events_post.last().card_type == (if roll as int % 2 == 0 {
            spec_card_type(CardTypeId::Tree)
        } else {
            spec_card_type(CardTypeId::Clay)
        })
        &&& events_post.last().position == (Vec2i {
            x: pre.stack_at(owner).pos.x,
            y: pre.stack_at(owner).pos.y,
        })
    })
    &&& (left == 0 ==> events_post == events_pre)
    &&& (left > 1 ==> post.card_live(h.card) && post.card_at(h.card).card == (Card {
        pack_cards: Some((left - 1) as u32),
        ..pack
    }))
    &&& (left <= 1 ==> {
        &&& !post.card_live(h.card)
        &&& (post.stack_live(owner) <==> seq_remove_all(
            pre.stack_cards(owner),
            seq![h.card],
        ).len() > 0)
        &&& (post.stack_live(owner) ==> post.stack_cards(owner) == seq_remove_all(
            pre.stack_cards(owner),
            seq![h.card],
        ))
    })
}

/// Opens the hovered card pack: spawns one card out of it (a tree or a
/// clay, chosen by the seeded generator from the pack's identity and its
/// remaining count) and deletes the pack once it is empty. Hovering
/// anything that is not a live card pack does nothing.
#[verifier::rlimit(100)]
pub fn card_pack_open_system(
    store: &mut StackStore,
    seeded: &SeededHasherResource,
    events: &mut Vec<CreateStackEvent>,
)
    requires
        old(store).wf(),
    ensures
        final(store).wf(),
        !spec_hovered_pack(*old(store)) ==> *final(store) == *old(store) && final(events)@ == old(
            events,
        )@,
        spec_hovered_pack(*old(store)) ==> spec_open_pack_outcome(
            *seeded,
            *old(store),
            *final(store),
            old(events)@,
            final(events)@,
        ),
{
    let ghost pre = *store;
    let h = match store.hovered {
        Some(h) => h,
        None => {
            return ;
        },
    };
    let entry = if h.card < store.cards.len() {
        match &store.cards[h.card] {
            Some(e) => Some((e.card, e.stack)),
            None => None,
        }
    } else {
        None
    };
    let (card, owner) = match entry {
        Some(v) => v,
        None => {
            return ;
        },
    };
    let left = match card.pack_cards {
        Some(p) => p,
        None => {
            return ;
        },
    };
    proof {
        assert(pre.card_live(h.card));
        assert(pre.card_entry_wf(h.card));
        assert(pre.stack_entry_wf(owner));
    }
    let pos = match &store.stacks[owner] {
        Some(s) => s.pos,
        None => {
            proof {
                assert(false);
            }
            crate::geom::Vec3i { x: 0, y: 0, z: 0 }
        },
    };

    if left > 0 {
        // Spawn one card from the card pack.
        let mut rng = seeded.with(h.card as u64);
        rng.with(left as u64);
        let pick = rng.value_in_range(0, 2);
        let new_card_type = if pick == 0 {
            card_type(CardTypeId::Tree)
        } else {
            card_type(CardTypeId::Clay)
        };
        events.push(
            CreateStackEvent {
                position: Vec2i { x: pos.x, y: pos.y },
                card_type: new_card_type,
                amount: 1,
            },
        );
        store.set_card_data(
            h.card,
            Card {
                type_id: card.type_id,
                category: card.category,
                value: card.value,
                uses: card.uses,
                pack_cards: Some(left - 1),
            },
        );
    }

    // Delete the card pack when it is (or was already) empty.
    if left <= 1 {
        let ghost mid = *store;
        let mut to_delete: Vec<CardId> = Vec::new();
        to_delete.push(h.card);
        proof {
            assert(to_delete@ =~= seq![h.card]);
            assert(mid.stack_cards(owner) == pre.stack_cards(owner));
            assert(pre.stack_cards(owner).contains(h.card));
        }
        store.delete_cards(&to_delete, owner);
        proof {
            assert(seq![h.card][0] == h.card);
            assert(seq![h.card].contains(h.card));
            assert(!final(store).card_live(h.card));
        }
    }
    proof {
        if old(events)@.len() < events@.len() {
            assert(events@.subrange(0, old(events)@.len() as int) =~= old(events)@);
        }
    }
}

} // verus!