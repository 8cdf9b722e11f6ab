//! Drag and drop orchestration: hover tracking, picking stacks up,
//! dragging them, and resolving drops into merges or resting placement.

use vstd::prelude::*;

use crate::card::card_type;
use crate::geom::{
    get_movement_to_no_longer_overlap, in_bounds, point_within, Vec2i, Vec3i, COORD_LIMIT,
};
use crate::recipe::{
    is_ongoing_recipe_valid_for_stack, spec_ongoing_valid, Recipe, Recipes, StackCheck,
};
use crate::stack_store::{
    first_index_of, get_semi_random_stack_root_z, spec_semi_random_stack_root_z, CardId,
    HoveredCard, Motion, Stack, StackId, StackStore, STACK_AUTO_MOVE_Z, STACK_DRAG_Z,
};

verus! {

/// `v` clamped into the `i64` range.
pub open spec fn clamp_i64(v: int) -> int {
    if v > i64::MAX {
        i64::MAX as int
    } else if v < i64::MIN {
        i64::MIN as int
    } else {
        v
    }
}

/// Addition that clamps at the coordinate type's limits instead of
/// wrapping.
pub fn sat_add(a: i64, b: i64) -> (r: i64)
    ensures
        r as int == clamp_i64(a + b),
{
    let s = (a as i128) + (b as i128);
    if s > (i64::MAX as i128) {
        i64::MAX
    } else if s < (i64::MIN as i128) {
        i64::MIN
    } else {
        s as i64
    }
}

/// Subtraction that clamps at the coordinate type's limits instead of
/// wrapping.
pub fn sat_sub(a: i64, b: i64) -> (r: i64)
    ensures
        r as int == clamp_i64(a - b),
{
    let s = (a as i128) - (b as i128);
    if s > (i64::MAX as i128) {
        i64::MAX
    } else if s < (i64::MIN as i128) {
        i64::MIN
    } else {
        s as i64
    }
}

/// Whether merging the dropped stack onto the target stack would
/// invalidate an ongoing recipe on either of them: the combined sequence
/// (target's cards, then the dropped stack's cards) is checked against both
/// stacks' ongoing recipes. Stacks without ongoing recipes cannot be
/// broken.
pub open spec fn spec_would_merging_break(
    store: StackStore,
    recipes: Seq<Recipe>,
    dropped: StackId,
    target: StackId,
) -> bool {
    let merged = store.stack_card_values(target) + store.stack_card_values(dropped);
    let dropped_ongoing = store.stack_at(dropped).ongoing;
    let target_ongoing = store.stack_at(target).ongoing;
    ||| (dropped_ongoing is Some && !spec_ongoing_valid(dropped_ongoing, merged, recipes))
    ||| (target_ongoing is Some && !spec_ongoing_valid(target_ongoing, merged, recipes))
}

/// Simulates the merged card sequence against both stacks' ongoing
/// recipes, before committing to a merge.
pub fn would_merging_break_ongoing_recipes(
    store: &StackStore,
    recipes: &Recipes,
    dropped: StackId,
    target: StackId,
) -> (r: bool)
    requires
        store.wf(),
        store.stack_live(dropped),
        store.stack_live(target),
    ensures
        r == spec_would_merging_break(*store, recipes@, dropped, target),
{
    let dropped_ongoing = match &store.stacks[dropped] {
        Some(s) => s.ongoing,
        None => None,
    };
    let target_ongoing = match &store.stacks[target] {
        Some(s) => s.ongoing,
        None => None,
    };
    if dropped_ongoing.is_none() && target_ongoing.is_none() {
        // Can't break recipes that are not there.
        return false;
    }

    let target_check = store.stack_check(target);
    let dropped_check = store.stack_check(dropped);
    let mut merged_cards = target_check.0;
    let mut dropped_cards = dropped_check.0;
    merged_cards.append(&mut dropped_cards);
    let merged = StackCheck(merged_cards);
    proof {
        assert(merged@ == store.stack_card_values(target) + store.stack_card_values(dropped));
    }

    if dropped_ongoing.is_some() && !is_ongoing_recipe_valid_for_stack(
        &dropped_ongoing,
        &merged,
        recipes,
    ) {
        // Breaks the recipe of the dropped stack.
        return true;
    }
    if target_ongoing.is_some() && !is_ongoing_recipe_valid_for_stack(
        &target_ongoing,
        &merged,
        recipes,
    ) {
        // Breaks the recipe on the target stack.
        return true;
    }
    false
}

/// Where a card sits in the world: its stack root's position plus its
/// layout offset, when that sum stays inside the coordinate range.
pub open spec fn spec_card_center_x(store: StackStore, cid: CardId) -> int {
    store.stack_at(store.card_at(cid).stack).pos.x + store.card_at(cid).offset.x
}

pub open spec fn spec_card_center_y(store: StackStore, cid: CardId) -> int {
    store.stack_at(store.card_at(cid).stack).pos.y + store.card_at(cid).offset.y
}

pub open spec fn spec_card_center_z(store: StackStore, cid: CardId) -> int {
    store.stack_at(store.card_at(cid).stack).pos.z + store.card_at(cid).offset.z
}

/// Whether the card's center is inside the coordinate range the geometry
/// accepts; cards pushed past the playfield edge are not hoverable.
pub open spec fn spec_card_center_in_range(store: StackStore, cid: CardId) -> bool {
    &&& -COORD_LIMIT <= spec_card_center_x(store, cid) <= COORD_LIMIT
    &&& -COORD_LIMIT <= spec_card_center_y(store, cid) <= COORD_LIMIT
    &&& -COORD_LIMIT <= spec_card_center_z(store, cid) <= COORD_LIMIT
}

/// Whether the mouse position is within the card's visual bounds.
pub open spec fn spec_card_under_mouse(
    store: StackStore,
    cid: CardId,
    visual_size: Vec2i,
    mouse: Vec2i,
) -> bool {
    &&& store.card_live(cid)
    &&& spec_card_center_in_range(store, cid)
    &&& point_within(
        visual_size,
        Vec2i {
            x: spec_card_center_x(store, cid) as i64,
            y: spec_card_center_y(store, cid) as i64,
        },
        mouse,
    )
}

/// How many live stacks are currently dragged, among the first `n`.
pub open spec fn count_dragged(store: StackStore, n: int) -> int
    decreases n,
{
    if n <= 0 {
        0
    } else {
        count_dragged(store, n - 1) + if store.stack_live((n - 1) as StackId) && store.stack_at(
            (n - 1) as StackId,
        ).motion is Dragged {
            1int
        } else {
            0int
        }
    }
}

/// Tracks which card the pointer hovers. While exactly one stack is being
/// dragged, its bottom card is the hovered one (at the recorded grab
/// offset). Otherwise, unless the UI claims the mouse, the card under the
/// mouse with the highest depth wins; with no card under the mouse nothing
/// is hovered. With no mouse position, the previous hover state is kept.
#[verifier::rlimit(100)]
pub fn card_hover_system(
    store: &mut StackStore,
    maybe_mouse_world_pos: Option<Vec2i>,
    card_visual_size: Vec2i,
    ui_claims_mouse: bool,
)
    requires
        old(store).wf(),
        card_visual_size.is_size(),
        maybe_mouse_world_pos matches Some(m) ==> m.in_range(),
    ensures
        final(store).wf(),
        final(store).cards@ == old(store).cards@,
        final(store).stacks@ == old(store).stacks@,
        maybe_mouse_world_pos is None ==> final(store).hovered == old(store).hovered,
        maybe_mouse_world_pos matches Some(mouse) ==> {
            let n = old(store).stacks@.len() as int;
            if count_dragged(*old(store), n) == 1 {
                exists|sid: StackId|
                    #![auto]
                    old(store).stack_live(sid) && (old(store).stack_at(sid).motion matches
                    Motion::Dragged(grab) && final(store).hovered == Some(
                        HoveredCard {
                            card: old(store).stack_cards(sid)[0],
                            relative_hover_pos: grab,
                        },
                    ))
            } else if !ui_claims_mouse {
                match final(store).hovered {
                    Some(h) => spec_card_under_mouse(*old(store), h.card, card_visual_size, mouse)
                        && h.relative_hover_pos.x == mouse.x - spec_card_center_x(
                        *old(store),
                        h.card,
                    ) && h.relative_hover_pos.y == mouse.y - spec_card_center_y(
                        *old(store),
                        h.card,
                    ) && forall|c: CardId|
                        spec_card_under_mouse(*old(store), c, card_visual_size, mouse)
                            ==> spec_card_center_z(*old(store), c) <= spec_card_center_z(
                            *old(store),
                            h.card,
                        ),
                    None => forall|c: CardId|
                        !spec_card_under_mouse(*old(store), c, card_visual_size, mouse),
                }
            } else {
                final(store).hovered is None
            }
        },
{
    let ghost pre = *store;
    let mouse_world_pos = match maybe_mouse_world_pos {
        Some(m) => m,
        None => {
            return ;
        },
    };

    // Find the single dragged stack, if there is exactly one.
    let n = store.stacks.len();
    let mut dragged_count: usize = 0;
    let mut dragged_sid: StackId = 0;
    let mut dragged_grab = Vec2i { x: 0, y: 0 };
    let mut sid: usize = 0;
    while sid < n
        invariant
            sid <= n,
            n == pre.stacks@.len(),
            *store == pre,
            dragged_count <= sid,
            dragged_count == count_dragged(pre, sid as int),
            dragged_count > 0 ==> pre.stack_live(dragged_sid) && pre.stack_at(
                dragged_sid,
            ).motion == Motion::Dragged(dragged_grab),
        decreases n - sid,
    {
        let dragged = match &store.stacks[sid] {
            Some(s) => match s.motion {
                Motion::Dragged(grab) => Some(grab),
                _ => None,
            },
            None => None,
        };
        match dragged {
            Some(grab) => {
                dragged_count = dragged_count + 1;
                dragged_sid = sid;
                dragged_grab = grab;
            },
            None => {},
        }
        sid = sid + 1;
    }

    if dragged_count == 1 {
        // The user is dragging a stack: its root card is what they hover.
        proof {
            assert(pre.stack_entry_wf(dragged_sid));
        }
        let bottom = match &store.stacks[dragged_sid] {
            Some(s) => s.cards[0],
            None => {
                proof {
                    assert(false);
                }
                0
            },
        };
        store.hovered = Some(HoveredCard { card: bottom, relative_hover_pos: dragged_grab });
        proof {
            crate::stack_store::lemma_wf_same_arenas(pre, *store);
            assert(final(store).hovered == Some(
                HoveredCard {
                    card: pre.stack_cards(dragged_sid)[0],
                    relative_hover_pos: dragged_grab,
                },
            ));
        }
        return ;
    }
    if ui_claims_mouse {
        store.hovered = None;
        proof {
            crate::stack_store::lemma_wf_same_arenas(pre, *store);
        }
        return ;
    }

    // The user isn't dragging a stack; see which card they are hovering.
    let mut best: Option<HoveredCard> = None;
    let mut best_z: i64 = 0;
    let mut cid: usize = 0;
    let m = store.cards.len();
    while cid < m
        invariant
            cid <= m,
            m == pre.cards@.len(),
            *store == pre,
            pre.wf(),
            card_visual_size.is_size(),
            mouse_world_pos.in_range(),
            best is None ==> forall|c: CardId|
                c < cid ==> !spec_card_under_mouse(pre, c, card_visual_size, mouse_world_pos),
            best matches Some(h) ==> h.card < cid && spec_card_under_mouse(
                pre,
                h.card,
                card_visual_size,
                mouse_world_pos,
            ) && best_z == spec_card_center_z(pre, h.card) && h.relative_hover_pos.x
                == mouse_world_pos.x - spec_card_center_x(pre, h.card) && h.relative_hover_pos.y
                == mouse_world_pos.y - spec_card_center_y(pre, h.card) && forall|c: CardId|
                c < cid && spec_card_under_mouse(pre, c, card_visual_size, mouse_world_pos)
                    ==> spec_card_center_z(pre, c) <= best_z,
        decreases m - cid,
    {
        let entry = match &store.cards[cid] {
            Some(e) => Some((e.stack, e.offset)),
            None => None,
        };
        match entry {
            Some((owner, offset)) => {
                proof {
                    assert(pre.card_live(cid));
                    assert(pre.card_entry_wf(cid));
                }
                let root_pos = match &store.stacks[owner] {
                    Some(s) => s.pos,
                    None => {
                        proof {
                            assert(false);
                        }
                        Vec3i { x: 0, y: 0, z: 0 }
                    },
                };
                let cx = sat_add(root_pos.x, offset.x);
                let cy = sat_add(root_pos.y, offset.y);
                let cz = sat_add(root_pos.z, offset.z);
                let in_coord_range = cx >= -COORD_LIMIT && cx <= COORD_LIMIT && cy >= -COORD_LIMIT
                    && cy <= COORD_LIMIT && cz >= -COORD_LIMIT && cz <= COORD_LIMIT;
                if in_coord_range {
                    proof {
                        assert(cx == spec_card_center_x(pre, cid));
                        assert(cy == spec_card_center_y(pre, cid));
                        assert(cz == spec_card_center_z(pre, cid));
                    }
                    match in_bounds(card_visual_size, Vec2i { x: cx, y: cy }, mouse_world_pos) {
                        Some(rel) => {
                            let better = match &best {
                                Some(_) => cz > best_z,
                                None => true,
                            };
                            if better {
                                best = Some(HoveredCard { card: cid, relative_hover_pos: rel });
                                best_z = cz;
                            }
                        },
                        None => {},
                    }
                }
            },
            None => {},
        }
        cid = cid + 1;
    }
    store.hovered = best;
    proof {
        crate::stack_store::lemma_wf_same_arenas(pre, *store);
    }
}

/// Whether a hovered card is recorded and still exists.
pub open spec fn spec_hovered_live_card(store: StackStore) -> bool {
    store.hovered matches Some(h) && store.card_live(h.card)
}

/// Whether the pickup grabs the whole stack: the hovered card is the
/// bottom card of its stack.
pub open spec fn spec_pickup_whole_stack(store: StackStore) -> bool {
    &&& spec_hovered_live_card(store)
    &&& store.stack_cards(store.card_at(store.hovered->0.card).stack)[0] == store.hovered->0.card
}

/// Picks up whatever the pointer hovers. Grabbing the bottom card of a
/// stack drags the whole stack; grabbing a card in the middle first splits
/// the stack there, and drags the newly created top part, which starts at
/// the grabbed card's position. With nothing hovered (or a stale hover),
/// nothing happens.
#[verifier::rlimit(100)]
pub fn card_mouse_pickup_system(store: &mut StackStore)
    requires
        old(store).wf(),
    ensures
        final(store).wf(),
        !spec_hovered_live_card(*old(store)) ==> *final(store) == *old(store),
        spec_pickup_whole_stack(*old(store)) ==> {
            let h = old(store).hovered->0;
            let owner = old(store).card_at(h.card).stack;
            &&& final(store).cards@ == old(store).cards@
            &&& final(store).stacks@.len() == old(store).stacks@.len()
            &&& final(store).stack_at(owner) == (Stack {
                motion: Motion::Dragged(h.relative_hover_pos),
                ..old(store).stack_at(owner)
            })
            &&& forall|sid: StackId|
                sid < old(store).stacks@.len() && sid != owner ==> final(store).stacks@[sid as int]
                    == old(store).stacks@[sid as int]
        },
        spec_hovered_live_card(*old(store)) && !spec_pickup_whole_stack(*old(store)) ==> {
            let h = old(store).hovered->0;
            let owner = old(store).card_at(h.card).stack;
            let s = old(store).stack_cards(owner);
            let idx = first_index_of(s, h.card);
            let new_root = old(store).stacks@.len() as StackId;
            &&& 0 < idx < s.len()
            &&& final(store).stack_live(owner)
            &&& final(store).stack_cards(owner) == s.subrange(0, idx)
            &&& final(store).stack_live(new_root)
            &&& final(store).stack_cards(new_root) == s.subrange(idx, s.len() as int)
            &&& final(store).stack_at(new_root).motion == Motion::Dragged(h.relative_hover_pos)
            &&& final(store).stack_at(new_root).ongoing == old(store).stack_at(owner).ongoing
            &&& forall|cid: CardId| final(store).card_live(cid) <==> old(store).card_live(cid)
        },
{
    let ghost pre = *store;
    let h = match store.hovered {
        Some(h) => h,
        None => {
            return ;
        },
    };
    let entry = if h.card < store.cards.len() {
        match &store.cards[h.card] {
            Some(e) => Some((e.stack, e.offset)),
            None => None,
        }
    } else {
        None
    };
    let (owner, offset) = match entry {
        Some(v) => v,
        None => {
            return ;
        },
    };
    proof {
        assert(pre.card_live(h.card));
        assert(pre.card_entry_wf(h.card));
        assert(pre.stack_entry_wf(owner));
    }
    let (bottom, root_pos) = match &store.stacks[owner] {
        Some(s) => (s.cards[0], s.pos),
        None => {
            proof {
                assert(false);
            }
            (0, Vec3i { x: 0, y: 0, z: 0 })
        },
    };

    if bottom == h.card {
        // Picking up the whole stack.
        match &mut store.stacks[owner] {
            Some(s) => {
                s.motion = Motion::Dragged(h.relative_hover_pos);
            },
            None => {
                proof {
                    assert(false);
                }
            },
        }
        proof {
            crate::stack_store::lemma_wf_stack_fields_changed(pre, *store);
        }
    } else {
        // Picking up some other card in the stack, which means splitting it.
        // The new stack starts right where the grabbed card was.
        let card_pos = Vec3i {
            x: sat_add(root_pos.x, offset.x),
            y: sat_add(root_pos.y, offset.y),
            z: sat_add(root_pos.z, offset.z),
        };
        proof {
            let s = pre.stack_cards(owner);
            assert(s.contains(h.card));
            let j = choose|j: int| 0 <= j < s.len() && s[j] == h.card;
            assert(j != 0);
            assert(first_index_of(s, h.card) != 0) by {
                assert(s[0] != h.card);
            }
            assert(pre.can_split(owner, h.card));
            lemma_first_index_bounds(s, h.card, j);
        }
        let new_root = match store.split_stack(owner, h.card, card_pos) {
            Some(r) => r,
            None => {
                proof {
                    assert(false);
                }
                0
            },
        };
        let ghost mid = *store;
        match &mut store.stacks[new_root] {
            Some(s) => {
                s.motion = Motion::Dragged(h.relative_hover_pos);
            },
            None => {
                proof {
                    assert(false);
                }
            },
        }
        proof {
            crate::stack_store::lemma_wf_stack_fields_changed(mid, *store);
        }
    }
}

/// While held, a dragged stack's position tracks the pointer, offset by
/// the recorded grab point, floating above every stack on the ground.
pub fn stack_mouse_drag_system(store: &mut StackStore, mouse_world_pos: Vec2i)
    requires
        old(store).wf(),
    ensures
        final(store).wf(),
        final(store).cards@ == old(store).cards@,
        final(store).stacks@.len() == old(store).stacks@.len(),
        final(store).hovered == old(store).hovered,
        forall|sid: StackId|
            old(store).stack_live(sid) ==> ((old(store).stack_at(sid).motion matches
            Motion::Dragged(grab) ==> final(store).stack_at(sid) == (Stack {
                pos: Vec3i {
                    x: clamp_i64(mouse_world_pos.x - grab.x) as i64,
                    y: clamp_i64(mouse_world_pos.y - grab.y) as i64,
                    z: STACK_DRAG_Z,
                },
                ..old(store).stack_at(sid)
            })) && (!(old(store).stack_at(sid).motion is Dragged) ==> final(store).stacks@[sid
                as int] == old(store).stacks@[sid as int])),
        forall|sid: StackId| final(store).stack_live(sid) <==> old(store).stack_live(sid),
{
    let ghost pre = *store;
    let n = store.stacks.len();
    let mut sid: usize = 0;
    while sid < n
        invariant
            sid <= n,
            n == pre.stacks@.len(),
            pre.wf(),
            store.cards@ == pre.cards@,
            store.stacks@.len() == pre.stacks@.len(),
            store.hovered == pre.hovered,
            forall|s2: StackId| store.stack_live(s2) <==> pre.stack_live(s2),
            forall|s2: StackId|
                s2 >= sid && s2 < n ==> store.stacks@[s2 as int] == pre.stacks@[s2 as int],
            forall|s2: StackId|
                s2 < sid && pre.stack_live(s2) ==> ((pre.stack_at(s2).motion matches
                Motion::Dragged(grab) ==> store.stack_at(s2) == (Stack {
                    pos: Vec3i {
                        x: clamp_i64(mouse_world_pos.x - grab.x) as i64,
                        y: clamp_i64(mouse_world_pos.y - grab.y) as i64,
                        z: STACK_DRAG_Z,
                    },
                    ..pre.stack_at(s2)
                })) && (!(pre.stack_at(s2).motion is Dragged) ==> store.stacks@[s2 as int]
                    == pre.stacks@[s2 as int])),
        decreases n - sid,
    {
        let grab = match &store.stacks[sid] {
            Some(s) => match s.motion {
                Motion::Dragged(g) => Some(g),
                _ => None,
            },
            None => None,
        };
        match grab {
            Some(g) => {
                let new_pos = Vec3i {
                    x: sat_sub(mouse_world_pos.x, g.x),
                    y: sat_sub(mouse_world_pos.y, g.y),
                    z: STACK_DRAG_Z,
                };
                match &mut store.stacks[sid] {
                    Some(s) => {
                        s.pos = new_pos;
                    },
                    None => {
                        proof {
                            assert(false);
                        }
                    },
                }
            },
            None => {},
        }
        sid = sid + 1;
    }
    proof {
        crate::stack_store::lemma_wf_stack_fields_changed(pre, *store);
    }
}

/// Releases every dragged stack and reports where each was dropped; the
/// drop resolution decides whether each one merges or comes to rest.
pub fn stack_mouse_drop_system(store: &mut StackStore) -> (dropped: Vec<(StackId, Vec3i)>)
    requires
        old(store).wf(),
    ensures
        final(store).wf(),
        final(store).cards@ == old(store).cards@,
        final(store).stacks@.len() == old(store).stacks@.len(),
        final(store).hovered == old(store).hovered,
        forall|sid: StackId| final(store).stack_live(sid) <==> old(store).stack_live(sid),
        forall|sid: StackId|
            old(store).stack_live(sid) ==> if old(store).stack_at(sid).motion is Dragged {
                final(store).stack_at(sid) == (Stack {
                    motion: Motion::Physics,
                    ..old(store).stack_at(sid)
                }) && dropped@.contains((sid, old(store).stack_at(sid).pos))
            } else {
                final(store).stacks@[sid as int] == old(store).stacks@[sid as int]
            },
        forall|k: int|
            0 <= k < dropped@.len() ==> old(store).stack_live(#[trigger] dropped@[k].0) && old(
                store,
            ).stack_at(dropped@[k].0).motion is Dragged && dropped@[k].1 == old(store).stack_at(
                dropped@[k].0,
            ).pos,
{
    let ghost pre = *store;
    let mut dropped: Vec<(StackId, Vec3i)> = Vec::new();
    let n = store.stacks.len();
    let mut sid: usize = 0;
    while sid < n
        invariant
            sid <= n,
            n == pre.stacks@.len(),
            pre.wf(),
            store.cards@ == pre.cards@,
            store.stacks@.len() == pre.stacks@.len(),
            store.hovered == pre.hovered,
            forall|s2: StackId| store.stack_live(s2) <==> pre.stack_live(s2),
            forall|s2: StackId|
                s2 >= sid && s2 < n ==> store.stacks@[s2 as int] == pre.stacks@[s2 as int],
            forall|s2: StackId|
                s2 < sid && pre.stack_live(s2) ==> if pre.stack_at(s2).motion is Dragged {
                    store.stack_at(s2) == (Stack {
                        motion: Motion::Physics,
                        ..pre.stack_at(s2)
                    }) && dropped@.contains((s2, pre.stack_at(s2).pos))
                } else {
                    store.stacks@[s2 as int] == pre.stacks@[s2 as int]
                },
            forall|k: int|
                0 <= k < dropped@.len() ==> pre.stack_live(#[trigger] dropped@[k].0)
                    && pre.stack_at(dropped@[k].0).motion is Dragged && dropped@[k].1
                    == pre.stack_at(dropped@[k].0).pos,
        decreases n - sid,
    {
        let ghost prev_dropped = dropped@;
        let info = match &store.stacks[sid] {
            Some(s) => match s.motion {
                Motion::Dragged(_) => Some(s.pos),
                _ => None,
            },
            None => None,
        };
        match info {
            Some(pos) => {
                match &mut store.stacks[sid] {
                    Some(s) => {
                        s.motion = Motion::Physics;
                    },
                    None => {
                        proof {
                            assert(false);
                        }
                    },
                }
                dropped.push((sid, pos));
                proof {
                    assert(dropped@.last() == (sid, pos));
                    assert(dropped@.contains((sid, pos)));
                    assert forall|x: (StackId, Vec3i)|
                        prev_dropped.contains(x) implies dropped@.contains(x) by {
                        let m = choose|m: int|
                            0 <= m < prev_dropped.len() && prev_dropped[m] == x;
                        assert(dropped@[m] == x);
                    }
                }
            },
            None => {},
        }
        sid = sid + 1;
    }
    proof {
        crate::stack_store::lemma_wf_stack_fields_changed(pre, *store);
    }
    dropped
}

/// Y coordinate of the landing zone just above a stack's top card.
pub open spec fn spec_top_card_center_y(store: StackStore, sid: StackId) -> int {
    store.stack_at(sid).pos.y - store.stack_cards(sid).len() * crate::geom::CARD_STACK_Y_SPACING
}

/// Whether a stack is a valid target for dropping the given stack onto it:
/// a different, live stack whose ongoing recipes the merge would not break,
/// inside the coordinate range, and whose landing zone contains the drop
/// position.
pub open spec fn spec_drop_target_ok(
    store: StackStore,
    recipes: Seq<Recipe>,
    dropped: StackId,
    target: StackId,
    dropped_pos: Vec3i,
    visual_size: Vec2i,
) -> bool {
    &&& target != dropped
    &&& store.stack_live(target)
    &&& !spec_would_merging_break(store, recipes, dropped, target)
    &&& store.stack_at(target).pos.in_range()
    &&& -COORD_LIMIT <= spec_top_card_center_y(store, target) <= COORD_LIMIT
    &&& point_within(
        visual_size,
        Vec2i {
            x: store.stack_at(target).pos.x,
            y: spec_top_card_center_y(store, target) as i64,
        },
        Vec2i { x: dropped_pos.x, y: dropped_pos.y },
    )
}

/// The first valid drop target among the stacks below `n`, or `-1`.
pub open spec fn first_drop_target(
    store: StackStore,
    recipes: Seq<Recipe>,
    dropped: StackId,
    dropped_pos: Vec3i,
    visual_size: Vec2i,
    n: int,
) -> int
    decreases n,
{
    if n <= 0 {
        -1
    } else if first_drop_target(store, recipes, dropped, dropped_pos, visual_size, n - 1) >= 0 {
        first_drop_target(store, recipes, dropped, dropped_pos, visual_size, n - 1)
    } else if spec_drop_target_ok(
        store,
        recipes,
        dropped,
        (n - 1) as StackId,
        dropped_pos,
        visual_size,
    ) {
        n - 1
    } else {
        -1
    }
}

/// Whether a dropped stack falls back to resting physics: its bottom card
/// is an exclusive-bottom card, its drop position is out of coordinate
/// range, or no stack is a valid drop target.
pub open spec fn spec_drop_rests(
    store: StackStore,
    recipes: Seq<Recipe>,
    dropped: StackId,
    dropped_pos: Vec3i,
    visual_size: Vec2i,
) -> bool {
    ||| crate::card::spec_card_type(
        store.card_at(store.stack_cards(dropped)[0]).card.type_id,
    ).exclusive_bottom
    ||| !dropped_pos.in_range()
    ||| first_drop_target(
        store,
        recipes,
        dropped,
        dropped_pos,
        visual_size,
        store.stacks@.len() as int,
    ) == -1
}

/// Resolves one dropped stack: scans the other stacks for one whose
/// landing zone contains the drop position, rejecting targets the merge
/// would break a recipe on, and rejecting everything when the dropped
/// stack's bottom card cannot sit on other cards. The first valid target
/// receives the merge; with none the stack comes to rest where it was
/// dropped, at its own semi-random depth.
#[verifier::rlimit(100)]
pub fn dropped_stack_merging_system(
    store: &mut StackStore,
    recipes: &Recipes,
    dropped_root: StackId,
    dropped_pos: Vec3i,
    card_visual_size: Vec2i,
)
    requires
        old(store).wf(),
        card_visual_size.is_size(),
    ensures
        final(store).wf(),
        !old(store).stack_live(dropped_root) ==> *final(store) == *old(store),
        old(store).stack_live(dropped_root) && spec_drop_rests(
            *old(store),
            recipes@,
            dropped_root,
            dropped_pos,
            card_visual_size,
        ) ==> final(store).cards@ == old(store).cards@ && final(store).stacks@.len() == old(
            store,
        ).stacks@.len() && final(store).stack_live(dropped_root) && final(store).stack_at(
            dropped_root,
        ) == (Stack {
            pos: Vec3i {
                x: dropped_pos.x,
                y: dropped_pos.y,
                z: spec_semi_random_stack_root_z(dropped_root as u64),
            },
            motion: Motion::Physics,
            ..old(store).stack_at(dropped_root)
        }) && forall|sid: StackId|
            sid < old(store).stacks@.len() && sid != dropped_root ==> final(store).stacks@[sid
                as int] == old(store).stacks@[sid as int],
        old(store).stack_live(dropped_root) && !spec_drop_rests(
            *old(store),
            recipes@,
            dropped_root,
            dropped_pos,
            card_visual_size,
        ) ==> {
            let t = first_drop_target(
                *old(store),
                recipes@,
                dropped_root,
                dropped_pos,
                card_visual_size,
                old(store).stacks@.len() as int,
            );
            &&& 0 <= t < old(store).stacks@.len()
            &&& spec_drop_target_ok(
                *old(store),
                recipes@,
                dropped_root,
                t as StackId,
                dropped_pos,
                card_visual_size,
            )
            &&& (old(store).can_merge(dropped_root, t as StackId) ==> {
                &&& !final(store).stack_live(dropped_root)
                &&& final(store).stack_live(t as StackId)
                &&& final(store).stack_cards(t as StackId) == old(store).stack_cards(t as StackId)
                    + old(store).stack_cards(dropped_root)
                // Exactly one merge: everything else is untouched.
                &&& final(store).stacks@.len() == old(store).stacks@.len()
                &&& final(store).cards@.len() == old(store).cards@.len()
                &&& forall|sid: StackId|
                    sid < old(store).stacks@.len() && sid != dropped_root && sid != t
                        ==> final(store).stacks@[sid as int] == old(store).stacks@[sid as int]
                &&& forall|cid: CardId| final(store).card_live(cid) <==> old(store).card_live(cid)
                &&& forall|cid: CardId|
                    old(store).card_live(cid) ==> final(store).card_at(cid).card == old(
                        store,
                    ).card_at(cid).card
            })
            &&& (!old(store).can_merge(dropped_root, t as StackId) ==> *final(store) == *old(
                store,
            ))
        },
{
    let ghost pre = *store;
    if dropped_root >= store.stacks.len() {
        return ;
    }
    let live = match &store.stacks[dropped_root] {
        Some(_) => true,
        None => false,
    };
    if !live {
        return ;
    }
    proof {
        assert(pre.stack_live(dropped_root));
        assert(pre.stack_entry_wf(dropped_root));
    }
    let bottom = match &store.stacks[dropped_root] {
        Some(s) => s.cards[0],
        None => {
            proof {
                assert(false);
            }
            0
        },
    };
    proof {
        assert(pre.card_live(pre.stack_cards(dropped_root)[0]));
    }
    let bottom_card = match store.get_card(bottom) {
        Some(c) => c,
        None => {
            proof {
                assert(false);
            }
            crate::card::Card::of_type(&card_type(crate::card::CardTypeId::Coin))
        },
    };
    let exclusive = card_type(bottom_card.type_id).exclusive_bottom;
    let pos_ok = dropped_pos.x >= -COORD_LIMIT && dropped_pos.x <= COORD_LIMIT && dropped_pos.y
        >= -COORD_LIMIT && dropped_pos.y <= COORD_LIMIT && dropped_pos.z >= -COORD_LIMIT
        && dropped_pos.z <= COORD_LIMIT;

    let n = store.stacks.len();
    let mut target: Option<StackId> = None;
    if !exclusive && pos_ok {
        let mut sid: usize = 0;
        while sid < n && target.is_none()
            invariant
                sid <= n,
                n == pre.stacks@.len(),
                *store == pre,
                pre.wf(),
                card_visual_size.is_size(),
                dropped_pos.in_range(),
                pre.stack_live(dropped_root),
                target is None ==> first_drop_target(
                    pre,
                    recipes@,
                    dropped_root,
                    dropped_pos,
                    card_visual_size,
                    sid as int,
                ) == -1,
                target matches Some(t) ==> sid < n && t == sid && spec_drop_target_ok(
                    pre,
                    recipes@,
                    dropped_root,
                    t,
                    dropped_pos,
                    card_visual_size,
                ) && first_drop_target(
                    pre,
                    recipes@,
                    dropped_root,
                    dropped_pos,
                    card_visual_size,
                    n as int,
                ) == t,
            decreases n - sid + (if target is None {
                1int
            } else {
                0int
            }),
        {
            let mut candidate_ok = false;
            if sid != dropped_root {
                let live = match &store.stacks[sid] {
                    Some(_) => true,
                    None => false,
                };
                if live {
                    let (tgt_pos, tgt_len) = match &store.stacks[sid] {
                        Some(s) => (s.pos, s.cards.len()),
                        None => {
                            proof {
                                assert(false);
                            }
                            (Vec3i { x: 0, y: 0, z: 0 }, 0)
                        },
                    };
                    let tgt_pos_ok = tgt_pos.x >= -COORD_LIMIT && tgt_pos.x <= COORD_LIMIT
                        && tgt_pos.y >= -COORD_LIMIT && tgt_pos.y <= COORD_LIMIT && tgt_pos.z
                        >= -COORD_LIMIT && tgt_pos.z <= COORD_LIMIT;
                    proof {
                        assert(pre.stack_live(sid));
                        assert(pre.stack_entry_wf(sid));
                    }
                    if tgt_pos_ok && !would_merging_break_ongoing_recipes(
                        store,
                        recipes,
                        dropped_root,
                        sid,
                    ) {
                        let center = crate::geom::global_center_of_top_card(tgt_pos, tgt_len);
                        if center.y >= -COORD_LIMIT && center.y <= COORD_LIMIT {
                            match in_bounds(
                                card_visual_size,
                                Vec2i { x: center.x, y: center.y },
                                Vec2i { x: dropped_pos.x, y: dropped_pos.y },
                            ) {
                                Some(_) => {
                                    candidate_ok = true;
                                },
                                None => {},
                            }
                        }
                    }
                }
            }
            if candidate_ok {
                proof {
                    assert(spec_drop_target_ok(
                        pre,
                        recipes@,
                        dropped_root,
                        sid,
                        dropped_pos,
                        card_visual_size,
                    ));
                    lemma_first_drop_target_found(
                        pre,
                        recipes@,
                        dropped_root,
                        dropped_pos,
                        card_visual_size,
                        sid as int,
                        n as int,
                    );
                }
                target = Some(sid);
            } else {
                proof {
                    assert(!spec_drop_target_ok(
                        pre,
                        recipes@,
                        dropped_root,
                        sid,
                        dropped_pos,
                        card_visual_size,
                    ));
                }
                sid = sid + 1;
            }
        }
    }

    match target {
        Some(t) => {
            store.merge_stacks(dropped_root, t);
        },
        None => {
            // Put the stack back on the Z "floor" and re-enable physics.
            let z = get_semi_random_stack_root_z(dropped_root as u64);
            match &mut store.stacks[dropped_root] {
                Some(s) => {
                    s.pos = Vec3i { x: dropped_pos.x, y: dropped_pos.y, z };
                    s.motion = Motion::Physics;
                },
                None => {
                    proof {
                        assert(false);
                    }
                },
            }
            proof {
                crate::stack_store::lemma_wf_stack_fields_changed(pre, *store);
            }
        },
    }
}

/// A valid target with none earlier is the first one, for every wider
/// scan range.
proof fn lemma_first_drop_target_found(
    store: StackStore,
    recipes: Seq<Recipe>,
    dropped: StackId,
    dropped_pos: Vec3i,
    visual_size: Vec2i,
    t: int,
    n: int,
)
    requires
        0 <= t < n,
        spec_drop_target_ok(store, recipes, dropped, t as StackId, dropped_pos, visual_size),
        first_drop_target(store, recipes, dropped, dropped_pos, visual_size, t) == -1,
    ensures
        first_drop_target(store, recipes, dropped, dropped_pos, visual_size, n) == t,
    decreases n,
{
    if n > t + 1 {
        lemma_first_drop_target_found(store, recipes, dropped, dropped_pos, visual_size, t, n - 1);
    }
}

/// Floor of the square root, as a mathematical function.
pub open spec fn spec_isqrt(n: int) -> int
    decreases n,
{
    if n <= 0 {
        0
    } else {
        let r = spec_isqrt(n - 1);
        if (r + 1) * (r + 1) <= n {
            r + 1
        } else {
            r
        }
    }
}

/// The floor square root squares to at most its argument, and one more
/// squares past it.
pub proof fn lemma_spec_isqrt_props(n: int)
    requires
        n >= 0,
    ensures
        spec_isqrt(n) >= 0,
        spec_isqrt(n) * spec_isqrt(n) <= n,
        n < (spec_isqrt(n) + 1) * (spec_isqrt(n) + 1),
    decreases n,
{
    if n > 0 {
        lemma_spec_isqrt_props(n - 1);
        let r = spec_isqrt(n - 1);
        if (r + 1) * (r + 1) <= n {
            assert(n < (r + 2) * (r + 2)) by (nonlinear_arith)
                requires
                    r >= 0,
                    n - 1 < (r + 1) * (r + 1),
            ;
        }
    }
}

/// Anything bracketed by consecutive squares is the floor square root.
pub proof fn lemma_isqrt_unique(n: int, r: int)
    requires
        n >= 0,
        r >= 0,
        r * r <= n,
        n < (r + 1) * (r + 1),
    ensures
        r == spec_isqrt(n),
{
    lemma_spec_isqrt_props(n);
    let s = spec_isqrt(n);
    assert(r == s) by (nonlinear_arith)
        requires
            r >= 0,
            s >= 0,
            r * r <= n,
            n < (r + 1) * (r + 1),
            s * s <= n,
            n < (s + 1) * (s + 1),
    ;
}

/// Ceiling of the square root, as a mathematical function.
pub open spec fn spec_isqrt_ceil(n: int) -> int {
    if spec_isqrt(n) * spec_isqrt(n) == n {
        spec_isqrt(n)
    } else {
        spec_isqrt(n) + 1
    }
}

/// Floor of the square root.
pub fn int_sqrt(n: u128) -> (r: u128)
    requires
        n < 0x4000_0000_0000_0000_0000_0000_0000_0000,
    ensures
        r * r <= n,
        n < (r + 1) * (r + 1),
        r < 0x8000_0000_0000_0000,
        r == spec_isqrt(n as int),
{
    proof {
        lemma_spec_isqrt_props(n as int);
    }
    let mut lo: u128 = 0;
    let mut hi: u128 = 0x8000_0000_0000_0000;
    proof {
        assert(0x8000_0000_0000_0000u128 * 0x8000_0000_0000_0000u128
            == 0x4000_0000_0000_0000_0000_0000_0000_0000u128) by (nonlinear_arith);
    }
    while hi - lo > 1
        invariant
            lo < hi <= 0x8000_0000_0000_0000,
            lo * lo <= n,
            n < hi * hi,
        decreases hi - lo,
    {
        let mid = lo + (hi - lo) / 2;
        proof {
            assert(mid * mid <= 0x4000_0000_0000_0000_0000_0000_0000_0000u128)
                by (nonlinear_arith)
                requires
                    mid <= 0x8000_0000_0000_0000u128,
            ;
        }
        if mid * mid <= n {
            lo = mid;
        } else {
            hi = mid;
        }
    }
    proof {
        lemma_isqrt_unique(n as int, lo as int);
    }
    lo
}

/// Ceiling of the square root of a positive number.
pub fn int_sqrt_ceil(n: u128) -> (r: u128)
    requires
        1 <= n < 0x4000_0000_0000_0000_0000_0000_0000_0000,
    ensures
        1 <= r <= 0x8000_0000_0000_0000,
        (r - 1) * (r - 1) < n,
        n <= r * r,
        r == spec_isqrt_ceil(n as int),
{
    let f = int_sqrt(n);
    if f * f == n {
        proof {
            assert(f >= 1) by (nonlinear_arith)
                requires
                    f * f == n,
                    n >= 1,
            ;
            assert((f - 1) * (f - 1) < f * f) by (nonlinear_arith)
                requires
                    f >= 1,
            ;
        }
        f
    } else {
        f + 1
    }
}

/// Non-negative numbers are ordered as their squares are.
proof fn lemma_sq_le(a: int, b: int)
    requires
        a >= 0,
        b >= 0,
        a * a <= b * b,
    ensures
        a <= b,
{
    assert(a <= b) by (nonlinear_arith)
        requires
            a >= 0,
            b >= 0,
            a * a <= b * b,
    ;
}

/// Magnitude of a coordinate value, as a mathematical integer.
pub open spec fn abs_int(v: int) -> int {
    if v >= 0 {
        v
    } else {
        -v
    }
}

/// A component of a vector scaled down to length `max`: its magnitude
/// scaled by `max` over the rounded-up vector length, keeping its sign.
pub open spec fn spec_clamped_component(v: int, other: int, max: int) -> int {
    let len = spec_isqrt_ceil(v * v + other * other);
    if v >= 0 {
        v * max / len
    } else {
        -((-v) * max / len)
    }
}

/// Clamps a movement vector to the given maximum length: a vector within
/// the bound is returned unchanged; a longer one is scaled down to the
/// bound, so that neither component grows, flips direction, or exceeds the
/// bound.
#[verifier::rlimit(100)]
pub fn clamp_movement(v: Vec2i, max: i64) -> (r: Vec2i)
    requires
        v.in_range(),
        0 <= max <= 0x4000_0000_0000_0000,
    ensures
        v.x * v.x + v.y * v.y <= max * max ==> r == v,
        v.x * v.x + v.y * v.y > max * max ==> r.x == spec_clamped_component(
            v.x as int,
            v.y as int,
            max as int,
        ) && r.y == spec_clamped_component(v.y as int, v.x as int, max as int),
        abs_int(r.x as int) <= abs_int(v.x as int),
        abs_int(r.y as int) <= abs_int(v.y as int),
        r.x as int * v.x as int >= 0,
        r.y as int * v.y as int >= 0,
        abs_int(r.x as int) <= max,
        abs_int(r.y as int) <= max,
{
    let ax: u128 = if v.x >= 0 {
        v.x as u128
    } else {
        (-v.x) as u128
    };
    let ay: u128 = if v.y >= 0 {
        v.y as u128
    } else {
        (-v.y) as u128
    };
    proof {
        assert(ax * ax == v.x as int * v.x as int && ay * ay == v.y as int * v.y as int)
            by (nonlinear_arith)
            requires
                ax == abs_int(v.x as int),
                ay == abs_int(v.y as int),
        ;
        assert(ax * ax <= 0x1_0000_0000_0000_0000_0000_0000u128 && ay * ay
            <= 0x1_0000_0000_0000_0000_0000_0000u128) by (nonlinear_arith)
            requires
                ax <= 1_000_000_000_000u128 && ay <= 1_000_000_000_000u128,
        ;
    }
    let s: u128 = ax * ax + ay * ay;
    proof {
        assert((max as u128) * (max as u128) <= 0x1000_0000_0000_0000_0000_0000_0000_0000u128)
            by (nonlinear_arith)
            requires
                max as u128 <= 0x4000_0000_0000_0000u128,
        ;
    }
    let maxsq: u128 = (max as u128) * (max as u128);
    if s <= maxsq {
        proof {
            assert(v.x * v.x + v.y * v.y <= max * max);
            assert(v.x as int * v.x as int >= 0 && v.y as int * v.y as int >= 0)
                by (nonlinear_arith);
            lemma_sq_le(ax as int, max as int);
            lemma_sq_le(ay as int, max as int);
        }
        v
    } else {
        let len_up = int_sqrt_ceil(s);
        proof {
            assert(ax * ax <= s && ay * ay <= s);
            lemma_sq_le(ax as int, len_up as int);
            lemma_sq_le(ay as int, len_up as int);
            lemma_sq_le(max as int, (len_up - 1) as int + 1);
            assert((max as int) < len_up as int) by {
                if max as int >= len_up as int {
                    assert(len_up * len_up <= (max as u128) * (max as u128)) by (nonlinear_arith)
                        requires
                            len_up <= max as u128,
                    ;
                }
            }
        }
        proof {
            assert(ax * (max as u128) <= 0x1000_0000_0000_0000_0000_0000_0000_0000u128
                && ay * (max as u128) <= 0x1000_0000_0000_0000_0000_0000_0000_0000u128)
                by (nonlinear_arith)
                requires
                    ax <= 1_000_000_000_000u128,
                    ay <= 1_000_000_000_000u128,
                    max as u128 <= 0x4000_0000_0000_0000u128,
            ;
        }
        let mx: u128 = ax * (max as u128) / len_up;
        let my: u128 = ay * (max as u128) / len_up;
        proof {
            lemma_scaled_component_bounds(ax as int, max as int, len_up as int);
            lemma_scaled_component_bounds(ay as int, max as int, len_up as int);
        }
        let rx: i64 = if v.x >= 0 {
            mx as i64
        } else {
            -(mx as i64)
        };
        let ry: i64 = if v.y >= 0 {
            my as i64
        } else {
            -(my as i64)
        };
        proof {
            assert(rx as int * v.x as int >= 0 && ry as int * v.y as int >= 0)
                by (nonlinear_arith)
                requires
                    v.x >= 0 ==> rx >= 0,
                    v.x < 0 ==> rx <= 0,
                    v.y >= 0 ==> ry >= 0,
                    v.y < 0 ==> ry <= 0,
            ;
        }
        Vec2i { x: rx, y: ry }
    }
}

/// Scaling a component by `max / len` with `a <= len` and `max < len`
/// shrinks it and keeps it under `max`.
proof fn lemma_scaled_component_bounds(a: int, max: int, len: int)
    requires
        0 <= a <= len,
        0 <= max < len,
    ensures
        a * max / len <= a,
        a * max / len <= max,
        a * max / len >= 0,
{
    vstd::arithmetic::mul::lemma_mul_inequality(a, len, max);
    vstd::arithmetic::mul::lemma_mul_is_commutative(a, max);
    vstd::arithmetic::mul::lemma_mul_is_commutative(len, max);
    vstd::arithmetic::div_mod::lemma_div_is_ordered(a * max, len * max, len);
    vstd::arithmetic::div_mod::lemma_div_multiples_vanish(max, len);
    assert(a * max >= 0) by (nonlinear_arith)
        requires
            a >= 0,
            max >= 0,
    ;
    vstd::arithmetic::div_mod::lemma_div_is_ordered(0, a * max, len);
    vstd::arithmetic::mul::lemma_mul_inequality(max, len, a);
    assert(a * max == max * a && len * a == a * len) by (nonlinear_arith);
    vstd::arithmetic::div_mod::lemma_div_is_ordered(max * a, len * a, len);
    vstd::arithmetic::div_mod::lemma_div_multiples_vanish(a, len);
}

/// Whether all cards of the stack hold the same card data as its bottom
/// card; only such single-kind stacks go looking for a stack to join.
pub open spec fn spec_stack_homogeneous(store: StackStore, sid: StackId) -> bool {
    let cs = store.stack_cards(sid);
    forall|i: int|
        0 <= i < cs.len() ==> store.card_at(#[trigger] cs[i]).card == store.card_at(cs[0]).card
}

/// Whether a stack is a candidate a seeking stack may glide toward: a live
/// resting stack without an ongoing recipe, whose top card matches the
/// seeker's bottom card, within the fixed search radius (one and a half
/// card diagonals) of the seeker.
pub open spec fn spec_homing_candidate(
    store: StackStore,
    seeker: StackId,
    target: StackId,
    visual_size: Vec2i,
) -> bool {
    let sp = store.stack_at(seeker).pos;
    let tp = store.stack_at(target).pos;
    let tcy = spec_top_card_center_y(store, target);
    let dx = sp.x - tp.x;
    let dy = sp.y - tcy;
    &&& store.stack_live(target)
    &&& !(store.stack_at(target).motion is LookingForTarget)
    &&& !(store.stack_at(target).motion is Dragged)
    &&& store.stack_at(target).ongoing is None
    &&& sp.in_range()
    &&& tp.in_range()
    &&& -COORD_LIMIT <= tcy <= COORD_LIMIT
    &&& store.card_at(store.stack_cards(target).last()).card == store.card_at(
        store.stack_cards(seeker)[0],
    ).card
    &&& 4 * (dx * dx + dy * dy) < 9 * (visual_size.x * visual_size.x + visual_size.y
        * visual_size.y)
}

/// The first homing candidate among the stacks below `n`, or `-1`.
pub open spec fn first_homing_candidate(
    store: StackStore,
    seeker: StackId,
    visual_size: Vec2i,
    n: int,
) -> int
    decreases n,
{
    if n <= 0 {
        -1
    } else if first_homing_candidate(store, seeker, visual_size, n - 1) >= 0 {
        first_homing_candidate(store, seeker, visual_size, n - 1)
    } else if spec_homing_candidate(store, seeker, (n - 1) as StackId, visual_size) {
        n - 1
    } else {
        -1
    }
}

/// The motion a seeking stack settles into: gliding toward the first
/// candidate, or ordinary resting physics when its own cards are not all
/// alike or no candidate is in range.
pub open spec fn spec_homing_decision(
    store: StackStore,
    seeker: StackId,
    visual_size: Vec2i,
) -> Motion {
    if !spec_stack_homogeneous(store, seeker) {
        Motion::Physics
    } else {
        let t = first_homing_candidate(store, seeker, visual_size, store.stacks@.len() as int);
        if t == -1 {
            Motion::Physics
        } else {
            Motion::MovingToTarget(t as StackId)
        }
    }
}

/// A candidate with none earlier is the first one, for every wider scan
/// range.
proof fn lemma_first_homing_candidate_found(
    store: StackStore,
    seeker: StackId,
    visual_size: Vec2i,
    t: int,
    n: int,
)
    requires
        0 <= t < n,
        spec_homing_candidate(store, seeker, t as StackId, visual_size),
        first_homing_candidate(store, seeker, visual_size, t) == -1,
    ensures
        first_homing_candidate(store, seeker, visual_size, n) == t,
    decreases n,
{
    if n > t + 1 {
        lemma_first_homing_candidate_found(store, seeker, visual_size, t, n - 1);
    }
}

/// Settles every stack that is looking for a movement target: single-kind
/// stacks glide toward the first same-kind stack within the search radius,
/// everything else falls back to resting physics. All decisions are made
/// against the state at the start of the pass and applied together.
#[verifier::rlimit(100)]
pub fn find_stack_movement_target_system(store: &mut StackStore, card_visual_size: Vec2i)
    requires
        old(store).wf(),
        card_visual_size.is_size(),
    ensures
        final(store).wf(),
        final(store).cards@ == old(store).cards@,
        final(store).stacks@.len() == old(store).stacks@.len(),
        final(store).hovered == old(store).hovered,
        forall|sid: StackId| final(store).stack_live(sid) <==> old(store).stack_live(sid),
        forall|sid: StackId|
            old(store).stack_live(sid) ==> if old(store).stack_at(sid).motion
                is LookingForTarget {
                final(store).stack_at(sid) == (Stack {
                    motion: spec_homing_decision(*old(store), sid, card_visual_size),
                    ..old(store).stack_at(sid)
                })
            } else {
                final(store).stacks@[sid as int] == old(store).stacks@[sid as int]
            },
{
    let ghost pre = *store;
    let n = store.stacks.len();

    // Decide every seeker against the state at the start of the pass.
    let mut decisions: Vec<Option<Motion>> = Vec::new();
    let mut sid: usize = 0;
    while sid < n
        invariant
            sid <= n,
            n == pre.stacks@.len(),
            *store == pre,
            pre.wf(),
            card_visual_size.is_size(),
            decisions@.len() == sid,
            forall|s2: int|
                0 <= s2 < sid ==> decisions@[s2] == (if pre.stack_live(s2 as StackId)
                    && pre.stack_at(s2 as StackId).motion is LookingForTarget {
                    Some(spec_homing_decision(pre, s2 as StackId, card_visual_size))
                } else {
                    None
                }),
        decreases n - sid,
    {
        let looking = match &store.stacks[sid] {
            Some(s) => match s.motion {
                Motion::LookingForTarget => true,
                _ => false,
            },
            None => false,
        };
        if !looking {
            decisions.push(None);
            sid = sid + 1;
            continue ;
        }
        proof {
            assert(pre.stack_live(sid));
            assert(pre.stack_entry_wf(sid));
        }
        let (seeker_cards, seeker_pos) = match &store.stacks[sid] {
            Some(s) => (s.cards.clone(), s.pos),
            None => {
                proof {
                    assert(false);
                }
                (Vec::new(), Vec3i { x: 0, y: 0, z: 0 })
            },
        };
        proof {
            assert(seeker_cards@ =~= pre.stack_cards(sid));
        }
        let ghost scs = pre.stack_cards(sid);

        // All cards must be of one kind, or the stack cannot auto-stack.
        proof {
            assert(pre.card_live(scs[0]));
        }
        let bottom_card = match store.get_card(seeker_cards[0]) {
            Some(c) => c,
            None => {
                proof {
                    assert(false);
                }
                crate::card::Card::of_type(&card_type(crate::card::CardTypeId::Coin))
            },
        };
        let mut homogeneous = true;
        let mut i: usize = 0;
        while i < seeker_cards.len()
            invariant
                i <= scs.len(),
                seeker_cards@ == scs,
                *store == pre,
                pre.wf(),
                pre.stack_live(sid),
                scs == pre.stack_cards(sid),
                bottom_card == pre.card_at(scs[0]).card,
                homogeneous ==> forall|j: int|
                    0 <= j < i ==> pre.card_at(#[trigger] scs[j]).card == pre.card_at(scs[0]).card,
                !homogeneous ==> !spec_stack_homogeneous(pre, sid),
            decreases scs.len() - i,
        {
            proof {
                assert(pre.stack_entry_wf(sid));
                assert(pre.card_live(scs[i as int]));
            }
            let card = match store.get_card(seeker_cards[i]) {
                Some(c) => c,
                None => {
                    proof {
                        assert(false);
                    }
                    bottom_card
                },
            };
            if !card.same_card(&bottom_card) {
                proof {
                    assert(pre.card_at(scs[i as int]).card != pre.card_at(scs[0]).card);
                }
                homogeneous = false;
            }
            i = i + 1;
        }

        if !homogeneous {
            decisions.push(Some(Motion::Physics));
            sid = sid + 1;
            continue ;
        }
        proof {
            assert(spec_stack_homogeneous(pre, sid));
        }

        let seeker_pos_ok = seeker_pos.x >= -COORD_LIMIT && seeker_pos.x <= COORD_LIMIT
            && seeker_pos.y >= -COORD_LIMIT && seeker_pos.y <= COORD_LIMIT && seeker_pos.z
            >= -COORD_LIMIT && seeker_pos.z <= COORD_LIMIT;

        // Scan for the first same-kind stack within the search radius.
        let mut target: Option<StackId> = None;
        let mut t: usize = 0;
        while t < n && target.is_none()
            invariant
                t <= n,
                n == pre.stacks@.len(),
                *store == pre,
                pre.wf(),
                card_visual_size.is_size(),
                pre.stack_live(sid),
                scs == pre.stack_cards(sid),
                bottom_card == pre.card_at(scs[0]).card,
                seeker_pos == pre.stack_at(sid).pos,
                seeker_pos_ok == pre.stack_at(sid).pos.in_range(),
                target is None ==> first_homing_candidate(pre, sid, card_visual_size, t as int)
                    == -1,
                target matches Some(tv) ==> t < n && tv == t && spec_homing_candidate(
                    pre,
                    sid,
                    tv,
                    card_visual_size,
                ) && first_homing_candidate(pre, sid, card_visual_size, n as int) == tv,
            decreases n - t + (if target is None {
                1int
            } else {
                0int
            }),
        {
            let mut candidate_ok = false;
            if seeker_pos_ok {
                let info = match &store.stacks[t] {
                    Some(s) => match s.motion {
                        Motion::LookingForTarget => None,
                        Motion::Dragged(_) => None,
                        _ => if s.ongoing.is_none() {
                            Some((s.pos, s.cards.len()))
                        } else {
                            None
                        },
                    },
                    None => None,
                };
                match info {
                    Some((tp, tlen)) => {
                        proof {
                            assert(pre.stack_live(t));
                            assert(pre.stack_entry_wf(t));
                            assert(pre.card_live(pre.stack_cards(t)[tlen - 1]));
                        }
                        let tp_ok = tp.x >= -COORD_LIMIT && tp.x <= COORD_LIMIT && tp.y
                            >= -COORD_LIMIT && tp.y <= COORD_LIMIT && tp.z >= -COORD_LIMIT && tp.z
                            <= COORD_LIMIT;
                        if tp_ok {
                            let tcy: i64 = tp.y - (tlen as i64) * crate::geom::CARD_STACK_Y_SPACING;
                            if tcy >= -COORD_LIMIT && tcy <= COORD_LIMIT {
                                let top_id = match &store.stacks[t] {
                                    Some(s) => s.cards[s.cards.len() - 1],
                                    None => {
                                        proof {
                                            assert(false);
                                        }
                                        0
                                    },
                                };
                                proof {
                                    assert(top_id == pre.stack_cards(t).last());
                                }
                                let top_card = match store.get_card(top_id) {
                                    Some(c) => c,
                                    None => {
                                        proof {
                                            assert(false);
                                        }
                                        bottom_card
                                    },
                                };
                                if top_card.same_card(&bottom_card) {
                                    let dx = (seeker_pos.x - tp.x) as i128;
                                    let dy = (seeker_pos.y - tcy) as i128;
                                    let vx = card_visual_size.x as i128;
                                    let vy = card_visual_size.y as i128;
                                    proof {
                                        assert(0 <= dx * dx
                                            <= 0x1_0000_0000_0000_0000_0000_0000i128 && 0 <= dy
                                            * dy <= 0x1_0000_0000_0000_0000_0000_0000i128 && 0
                                            <= vx * vx <= 0x1_0000_0000_0000_0000_0000_0000i128
                                            && 0 <= vy * vy
                                            <= 0x1_0000_0000_0000_0000_0000_0000i128)
                                            by (nonlinear_arith)
                                            requires
                                                -2_000_000_000_000i128 <= dx
                                                    <= 2_000_000_000_000i128,
                                                -2_000_000_000_000i128 <= dy
                                                    <= 2_000_000_000_000i128,
                                                0 <= vx <= 1_000_000_000_000i128,
                                                0 <= vy <= 1_000_000_000_000i128,
                                        ;
                                    }
                                    if 4 * (dx * dx + dy * dy) < 9 * (vx * vx + vy * vy) {
                                        candidate_ok = true;
                                    }
                                }
                            }
                        }
                    },
                    None => {},
                }
            }
            if candidate_ok {
                proof {
                    assert(spec_homing_candidate(pre, sid, t, card_visual_size));
                    lemma_first_homing_candidate_found(
                        pre,
                        sid,
                        card_visual_size,
                        t as int,
                        n as int,
                    );
                }
                target = Some(t);
            } else {
                proof {
                    assert(!spec_homing_candidate(pre, sid, t, card_visual_size));
                }
                t = t + 1;
            }
        }

        match target {
            Some(tv) => {
                decisions.push(Some(Motion::MovingToTarget(tv)));
            },
            None => {
                decisions.push(Some(Motion::Physics));
            },
        }
        sid = sid + 1;
    }

    // Apply all the decisions.
    let mut k: usize = 0;
    while k < n
        invariant
            k <= n,
            n == pre.stacks@.len(),
            pre.wf(),
            store.cards@ == pre.cards@,
            store.stacks@.len() == pre.stacks@.len(),
            store.hovered == pre.hovered,
            decisions@.len() == n,
            card_visual_size.is_size(),
            forall|s2: int|
                0 <= s2 < n ==> decisions@[s2] == (if pre.stack_live(s2 as StackId) && pre.stack_at(
                    s2 as StackId,
                ).motion is LookingForTarget {
                    Some(spec_homing_decision(pre, s2 as StackId, card_visual_size))
                } else {
                    None
                }),
            forall|s2: StackId| store.stack_live(s2) <==> pre.stack_live(s2),
            forall|s2: StackId|
                s2 >= k && s2 < n ==> store.stacks@[s2 as int] == pre.stacks@[s2 as int],
            forall|s2: StackId|
                s2 < k && pre.stack_live(s2) ==> if pre.stack_at(s2).motion is LookingForTarget {
                    store.stack_at(s2) == (Stack {
                        motion: spec_homing_decision(pre, s2, card_visual_size),
                        ..pre.stack_at(s2)
                    })
                } else {
                    store.stacks@[s2 as int] == pre.stacks@[s2 as int]
                },
        decreases n - k,
    {
        let decision = decisions[k];
        match decision {
            Some(motion) => {
                match &mut store.stacks[k] {
                    Some(s) => {
                        s.motion = motion;
                    },
                    None => {
                        proof {
                            assert(false);
                        }
                    },
                }
            },
            None => {},
        }
        k = k + 1;
    }
    proof {
        crate::stack_store::lemma_wf_stack_fields_changed(pre, *store);
    }
}

/// Stack movement speed when a stack moves on its own, in coordinate steps
/// per second.
pub const STACK_AUTO_MOVEMENT_SPEED: i64 = 2_000_000;

/// Max amount of coordinate steps a stack moves per second if it overlaps
/// with another.
pub const STACK_OVERLAP_MOVEMENT: i64 = 1_000_000;

/// Spacing that stacks want to keep between each other.
pub const STACK_OVERLAP_SPACING: i64 = 10_000;

/// Moves one stack that is gliding toward a target stack: it approaches the
/// target's landing zone at the fixed speed, and on arrival (or when
/// already there) merges with the target. A vanished target returns the
/// stack to resting physics. Positions outside the coordinate range leave
/// the stack untouched for this tick.
#[verifier::rlimit(100)]
pub fn stack_move_to_target(store: &mut StackStore, root: StackId, delta_ms: u64)
    requires
        old(store).wf(),
        delta_ms < 0x1_0000_0000,
    ensures
        final(store).wf(),
        !(old(store).stack_live(root) && old(store).stack_at(root).motion is MovingToTarget)
            ==> *final(store) == *old(store),
        old(store).stack_live(root) ==> (old(store).stack_at(root).motion matches
        Motion::MovingToTarget(target) && !old(store).stack_live(target)
            ==> final(store).stack_at(root) == (Stack {
            motion: Motion::Physics,
            ..old(store).stack_at(root)
        }) && final(store).cards@ == old(store).cards@ && forall|sid: StackId|
            sid < old(store).stacks@.len() && sid != root ==> final(store).stacks@[sid as int]
                == old(store).stacks@[sid as int]),
        old(store).stack_live(root) && old(store).stack_at(root).motion is MovingToTarget && old(
            store,
        ).stack_live(old(store).stack_at(root).motion->MovingToTarget_0) ==> spec_move_outcome(
            *old(store),
            *final(store),
            root,
            old(store).stack_at(root).motion->MovingToTarget_0,
            delta_ms,
        ),
{
    let ghost pre = *store;
    if root >= store.stacks.len() {
        return ;
    }
    let info = match &store.stacks[root] {
        Some(s) => match s.motion {
            Motion::MovingToTarget(t) => Some((t, s.pos)),
            _ => None,
        },
        None => None,
    };
    let (target, pos) = match info {
        Some(v) => v,
        None => {
            return ;
        },
    };
    proof {
        assert(pre.stack_live(root));
        assert(pre.stack_entry_wf(root));
    }

    let target_live = target < store.stacks.len() && (match &store.stacks[target] {
        Some(_) => true,
        None => false,
    });
    if !target_live {
        // Target does not exist: back to resting physics.
        match &mut store.stacks[root] {
            Some(s) => {
                s.motion = Motion::Physics;
            },
            None => {
                proof {
                    assert(false);
                }
            },
        }
        proof {
            crate::stack_store::lemma_wf_stack_fields_changed(pre, *store);
        }
        return ;
    }
    let (tp, tlen) = match &store.stacks[target] {
        Some(s) => (s.pos, s.cards.len()),
        None => {
            proof {
                assert(false);
            }
            (Vec3i { x: 0, y: 0, z: 0 }, 0)
        },
    };
    proof {
        assert(pre.stack_live(target));
        assert(pre.stack_entry_wf(target));
    }
    let pos_ok = pos.x >= -COORD_LIMIT && pos.x <= COORD_LIMIT && pos.y >= -COORD_LIMIT && pos.y
        <= COORD_LIMIT && pos.z >= -COORD_LIMIT && pos.z <= COORD_LIMIT;
    let tp_ok = tp.x >= -COORD_LIMIT && tp.x <= COORD_LIMIT && tp.y >= -COORD_LIMIT && tp.y
        <= COORD_LIMIT && tp.z >= -COORD_LIMIT && tp.z <= COORD_LIMIT;
    if !pos_ok || !tp_ok {
        return ;
    }
    let tcy: i64 = tp.y - (tlen as i64) * crate::geom::CARD_STACK_Y_SPACING;
    if tcy < -COORD_LIMIT || tcy > COORD_LIMIT {
        return ;
    }

    let total_x = tp.x - pos.x;
    let total_y = tcy - pos.y;
    let step: i64 = STACK_AUTO_MOVEMENT_SPEED * (delta_ms as i64) / 1000;
    let ax: u128 = if total_x >= 0 {
        total_x as u128
    } else {
        (-total_x) as u128
    };
    let ay: u128 = if total_y >= 0 {
        total_y as u128
    } else {
        (-total_y) as u128
    };
    proof {
        assert(ax * ax <= 0x10_0000_0000_0000_0000_0000_0000u128 && ay * ay
            <= 0x10_0000_0000_0000_0000_0000_0000u128 && (step as u128) * (step as u128)
            <= 0x100_0000_0000_0000_0000_0000_0000u128) by (nonlinear_arith)
            requires
                ax <= 2_000_000_000_000u128,
                ay <= 2_000_000_000_000u128,
                0 <= step as u128 <= 0x8_0000_0000_0000u128,
        ;
        assert(ax * ax == total_x as int * total_x as int && ay * ay == total_y as int * total_y
            as int && (step as u128) * (step as u128) == step as int * step as int)
            by (nonlinear_arith)
            requires
                ax == abs_int(total_x as int),
                ay == abs_int(total_y as int),
                step >= 0,
        ;
    }
    let s: u128 = ax * ax + ay * ay;
    if s == 0 || (step as u128) * (step as u128) >= s {
        // Target reached this frame: snap to it by merging.
        store.merge_stacks(root, target);
        return ;
    }

    let len_up = int_sqrt_ceil(s);
    proof {
        assert(ax * ax <= s && ay * ay <= s);
        lemma_sq_le(ax as int, len_up as int);
        lemma_sq_le(ay as int, len_up as int);
        assert((step as int) < len_up as int) by {
            if step as int >= len_up as int {
                assert(len_up * len_up <= (step as u128) * (step as u128)) by (nonlinear_arith)
                    requires
                        len_up <= step as u128,
                ;
            }
        }
        assert(ax * (step as u128) <= 0x1000_0000_0000_0000_0000_0000_0000_0000u128 && ay * (step
            as u128) <= 0x1000_0000_0000_0000_0000_0000_0000_0000u128) by (nonlinear_arith)
            requires
                ax <= 2_000_000_000_000u128,
                ay <= 2_000_000_000_000u128,
                0 <= step as u128 <= 0x8_0000_0000_0000u128,
        ;
    }
    let mx: u128 = ax * (step as u128) / len_up;
    let my: u128 = ay * (step as u128) / len_up;
    proof {
        lemma_scaled_component_bounds(ax as int, step as int, len_up as int);
        lemma_scaled_component_bounds(ay as int, step as int, len_up as int);
    }
    let move_x: i64 = if total_x >= 0 {
        mx as i64
    } else {
        -(mx as i64)
    };
    let move_y: i64 = if total_y >= 0 {
        my as i64
    } else {
        -(my as i64)
    };
    let new_pos = Vec3i { x: pos.x + move_x, y: pos.y + move_y, z: STACK_AUTO_MOVE_Z };
    match &mut store.stacks[root] {
        Some(st) => {
            st.pos = new_pos;
        },
        None => {
            proof {
                assert(false);
            }
        },
    }
    proof {
        crate::stack_store::lemma_wf_stack_fields_changed(pre, *store);
        assert((move_x as int) * (total_x as int) >= 0 && (move_y as int) * (total_y as int) >= 0)
            by (nonlinear_arith)
            requires
                total_x >= 0 ==> move_x >= 0,
                total_x < 0 ==> move_x <= 0,
                total_y >= 0 ==> move_y >= 0,
                total_y < 0 ==> move_y <= 0,
        ;
        assert(abs_int(move_x as int) <= abs_int(total_x as int));
        assert(abs_int(move_y as int) <= abs_int(total_y as int));
        assert(spec_move_outcome(pre, *store, root, target, delta_ms));
    }
}

/// What one homing-movement step does: reaching the target's landing zone
/// within one step's travel merges the stacks; otherwise the stack moves
/// toward the zone without overshooting on either axis, floating above the
/// resting stacks. Coordinates past the playfield edge freeze the stack
/// for the tick.
pub open spec fn spec_move_outcome(
    pre: StackStore,
    post: StackStore,
    root: StackId,
    target: StackId,
    delta_ms: u64,
) -> bool {
    let pos = pre.stack_at(root).pos;
    let tp = pre.stack_at(target).pos;
    let tcy = spec_top_card_center_y(pre, target);
    let total_x = tp.x - pos.x;
    let total_y = tcy - pos.y;
    let step = STACK_AUTO_MOVEMENT_SPEED * delta_ms / 1000;
    if !pos.in_range() || !tp.in_range() || !(-COORD_LIMIT <= tcy <= COORD_LIMIT) {
        post == pre
    } else if total_x * total_x + total_y * total_y <= step * step {
        // The merge, when it is possible at all.
        &&& (pre.can_merge(root, target) ==> !post.stack_live(root) && post.stack_live(target)
            && post.stack_cards(target) == pre.stack_cards(target) + pre.stack_cards(root))
        &&& (!pre.can_merge(root, target) ==> post == pre)
    } else {
        &&& post.cards@ == pre.cards@
        &&& forall|sid: StackId|
            sid < pre.stacks@.len() && sid != root ==> post.stacks@[sid as int] == pre.stacks@[sid
                as int]
        &&& post.stack_live(root)
        &&& post.stack_at(root) == (Stack {
            pos: post.stack_at(root).pos,
            ..pre.stack_at(root)
        })
        &&& post.stack_at(root).pos.z == STACK_AUTO_MOVE_Z
        &&& abs_int(post.stack_at(root).pos.x - pos.x) <= abs_int(total_x as int)
        &&& abs_int(post.stack_at(root).pos.y - pos.y) <= abs_int(total_y as int)
        &&& (post.stack_at(root).pos.x - pos.x) * total_x >= 0
        &&& (post.stack_at(root).pos.y - pos.y) * total_y >= 0
        // The exact step: each axis scaled by the travel over the
        // rounded-up distance.
        &&& ({
            let len = spec_isqrt_ceil(total_x * total_x + total_y * total_y);
            &&& post.stack_at(root).pos.x == pos.x + (if total_x >= 0 {
                total_x * step / len
            } else {
                -((-total_x) * step / len)
            })
            &&& post.stack_at(root).pos.y == pos.y + (if total_y >= 0 {
                total_y * step / len
            } else {
                -((-total_y) * step / len)
            })
        })
    }
}

/// Width of a stack's wanted footprint: one card plus the spacing margin.
pub open spec fn spec_footprint_x(visual_size: Vec2i) -> int {
    visual_size.x + STACK_OVERLAP_SPACING
}

/// Height of a stack's wanted footprint: its visual height plus the
/// spacing margin.
pub open spec fn spec_footprint_y(store: StackStore, sid: StackId, visual_size: Vec2i) -> int {
    visual_size.y + (store.stack_cards(sid).len() - 1) * crate::geom::CARD_STACK_Y_SPACING
        + STACK_OVERLAP_SPACING
}

/// X coordinate of the footprint's center: the root's.
pub open spec fn spec_footprint_center_x(store: StackStore, sid: StackId) -> int {
    store.stack_at(sid).pos.x as int
}

/// Y coordinate of the footprint's center: half a spacing per card below
/// the root.
pub open spec fn spec_footprint_center_y(store: StackStore, sid: StackId) -> int {
    store.stack_at(sid).pos.y - store.stack_cards(sid).len() * (
    crate::geom::CARD_STACK_Y_SPACING / 2)
}

/// The footprint center of a stack, when it is inside the coordinate range.
pub open spec fn spec_footprint_center(store: StackStore, sid: StackId) -> Vec2i {
    Vec2i {
        x: spec_footprint_center_x(store, sid) as i64,
        y: spec_footprint_center_y(store, sid) as i64,
    }
}

/// The footprint of a stack, when it is inside the coordinate range.
pub open spec fn spec_footprint(store: StackStore, sid: StackId, visual_size: Vec2i) -> Vec2i {
    Vec2i {
        x: spec_footprint_x(visual_size) as i64,
        y: spec_footprint_y(store, sid, visual_size) as i64,
    }
}

/// Whether a pair of stacks is actually nudged: two distinct live resting
/// stacks whose footprints are inside the coordinate range and overlap,
/// with a resolution vector inside the range as well.
pub open spec fn spec_nudge_applies(
    store: StackStore,
    i: StackId,
    j: StackId,
    visual_size: Vec2i,
) -> bool {
    let c1 = spec_footprint_center(store, i);
    let c2 = spec_footprint_center(store, j);
    let f1 = spec_footprint(store, i, visual_size);
    let f2 = spec_footprint(store, j, visual_size);
    &&& i != j
    &&& store.stack_live(i)
    &&& store.stack_live(j)
    &&& store.stack_at(i).motion is Physics
    &&& store.stack_at(j).motion is Physics
    &&& spec_footprint_x(visual_size) <= COORD_LIMIT
    &&& spec_footprint_y(store, i, visual_size) <= COORD_LIMIT
    &&& spec_footprint_y(store, j, visual_size) <= COORD_LIMIT
    &&& -COORD_LIMIT <= spec_footprint_center_x(store, i) <= COORD_LIMIT
    &&& -COORD_LIMIT <= spec_footprint_center_y(store, i) <= COORD_LIMIT
    &&& -COORD_LIMIT <= spec_footprint_center_x(store, j) <= COORD_LIMIT
    &&& -COORD_LIMIT <= spec_footprint_center_y(store, j) <= COORD_LIMIT
    &&& crate::geom::rects_overlap(c1, f1, c2, f2)
    &&& -COORD_LIMIT <= crate::geom::resolution_x(c1, f1, c2, f2) <= COORD_LIMIT
    &&& -COORD_LIMIT <= crate::geom::resolution_y(c1, f1, c2, f2) <= COORD_LIMIT
}

/// The x component of the movement the first stack of a nudged pair makes
/// (the second makes the opposite): the overlap resolution, clamped to the
/// per-tick maximum.
pub open spec fn spec_nudge_movement_x(
    store: StackStore,
    i: StackId,
    j: StackId,
    visual_size: Vec2i,
    max: int,
) -> int {
    let c1 = spec_footprint_center(store, i);
    let c2 = spec_footprint_center(store, j);
    let f1 = spec_footprint(store, i, visual_size);
    let f2 = spec_footprint(store, j, visual_size);
    let rx = crate::geom::resolution_x(c1, f1, c2, f2);
    let ry = crate::geom::resolution_y(c1, f1, c2, f2);
    if rx * rx + ry * ry <= max * max {
        rx
    } else {
        spec_clamped_component(rx, ry, max)
    }
}

pub open spec fn spec_nudge_movement_y(
    store: StackStore,
    i: StackId,
    j: StackId,
    visual_size: Vec2i,
    max: int,
) -> int {
    let c1 = spec_footprint_center(store, i);
    let c2 = spec_footprint_center(store, j);
    let f1 = spec_footprint(store, i, visual_size);
    let f2 = spec_footprint(store, j, visual_size);
    let rx = crate::geom::resolution_x(c1, f1, c2, f2);
    let ry = crate::geom::resolution_y(c1, f1, c2, f2);
    if rx * rx + ry * ry <= max * max {
        ry
    } else {
        spec_clamped_component(ry, rx, max)
    }
}

/// Everything one pair nudge does to the store: nothing when the pair does
/// not apply, and otherwise exactly the clamped overlap resolution applied
/// to the first stack and its negation to the second, with every other
/// entry untouched.
pub open spec fn spec_nudge_pair_rel(
    pre: StackStore,
    post: StackStore,
    i: StackId,
    j: StackId,
    max: int,
    visual_size: Vec2i,
) -> bool {
    &&& post.cards@ == pre.cards@
    &&& post.stacks@.len() == pre.stacks@.len()
    &&& post.hovered == pre.hovered
    &&& (forall|s2: StackId| post.stack_live(s2) <==> pre.stack_live(s2))
    &&& (forall|s2: StackId|
        s2 < pre.stacks@.len() && s2 != i && s2 != j ==> post.stacks@[s2 as int] == pre.stacks@[s2
            as int])
    &&& (!spec_nudge_applies(pre, i, j, visual_size) ==> post == pre)
    &&& (spec_nudge_applies(pre, i, j, visual_size) ==> {
        let mx = spec_nudge_movement_x(pre, i, j, visual_size, max);
        let my = spec_nudge_movement_y(pre, i, j, visual_size, max);
        &&& post.stack_at(i) == (Stack {
            pos: Vec3i {
                x: clamp_i64(pre.stack_at(i).pos.x + mx) as i64,
                y: clamp_i64(pre.stack_at(i).pos.y + my) as i64,
                z: pre.stack_at(i).pos.z,
            },
            ..pre.stack_at(i)
        })
        &&& post.stack_at(j) == (Stack {
            pos: Vec3i {
                x: clamp_i64(pre.stack_at(j).pos.x - mx) as i64,
                y: clamp_i64(pre.stack_at(j).pos.y - my) as i64,
                z: pre.stack_at(j).pos.z,
            },
            ..pre.stack_at(j)
        })
    })
}

/// The store after processing, in order, every pair that comes before scan
/// position (i, j) of the pairwise nudging pass over `n` stacks: position
/// (0, 1) is the start, position (i, i+1) continues from position
/// (i-1, n), and otherwise the pair (i, j-1) was processed last.
pub open spec fn spec_nudge_upto(
    pre: StackStore,
    post: StackStore,
    i: int,
    j: int,
    n: int,
    max: int,
    visual_size: Vec2i,
) -> bool
    decreases i, j,
{
    if i <= 0 && j <= 1 {
        post == pre
    } else if j <= i + 1 {
        spec_nudge_upto(pre, post, i - 1, n, n, max, visual_size)
    } else {
        exists|mid: StackStore|
            #[trigger] spec_nudge_pair_rel(mid, post, i as StackId, (j - 1) as StackId, max, visual_size)
                && spec_nudge_upto(pre, mid, i, j - 1, n, max, visual_size)
    }
}

/// The most a nudged stack may move in one tick of the given length.
pub open spec fn spec_max_nudge(delta_ms: u64) -> int {
    STACK_OVERLAP_MOVEMENT * delta_ms / 1000
}

/// Nudges one pair of resting stacks apart when their wanted footprints
/// overlap: the overlap resolution, clamped to the per-tick maximum, moves
/// the first stack as-is and the second in the opposite direction. Pairs
/// that do not rest, do not overlap, or sit past the playfield edge are
/// left alone.
#[verifier::rlimit(100)]
pub fn nudge_pair(
    store: &mut StackStore,
    i: StackId,
    j: StackId,
    max_movement: i64,
    card_visual_size: Vec2i,
)
    requires
        old(store).wf(),
        card_visual_size.is_size(),
        0 <= max_movement <= 0x4000_0000_0000_0000,
        i < old(store).stacks@.len(),
        j < old(store).stacks@.len(),
    ensures
        final(store).wf(),
        final(store).cards@ == old(store).cards@,
        final(store).stacks@.len() == old(store).stacks@.len(),
        final(store).hovered == old(store).hovered,
        forall|s2: StackId| final(store).stack_live(s2) <==> old(store).stack_live(s2),
        forall|s2: StackId|
            s2 < old(store).stacks@.len() && s2 != i && s2 != j ==> final(store).stacks@[s2
                as int] == old(store).stacks@[s2 as int],
        !spec_nudge_applies(*old(store), i, j, card_visual_size) ==> *final(store) == *old(store),
        spec_nudge_applies(*old(store), i, j, card_visual_size) ==> {
            let mx = spec_nudge_movement_x(*old(store), i, j, card_visual_size, max_movement as int);
            let my = spec_nudge_movement_y(*old(store), i, j, card_visual_size, max_movement as int);
            &&& final(store).stack_at(i) == (Stack {
                pos: Vec3i {
                    x: clamp_i64(old(store).stack_at(i).pos.x + mx) as i64,
                    y: clamp_i64(old(store).stack_at(i).pos.y + my) as i64,
                    z: old(store).stack_at(i).pos.z,
                },
                ..old(store).stack_at(i)
            })
            &&& final(store).stack_at(j) == (Stack {
                pos: Vec3i {
                    x: clamp_i64(old(store).stack_at(j).pos.x - mx) as i64,
                    y: clamp_i64(old(store).stack_at(j).pos.y - my) as i64,
                    z: old(store).stack_at(j).pos.z,
                },
                ..old(store).stack_at(j)
            })
        },
        spec_nudge_pair_rel(
            *old(store),
            *final(store),
            i,
            j,
            max_movement as int,
            card_visual_size,
        ),
{
    let ghost pre = *store;
    if i == j {
        return ;
    }
    let info1 = match &store.stacks[i] {
        Some(s) => match s.motion {
            Motion::Physics => Some((s.pos, s.cards.len())),
            _ => None,
        },
        None => None,
    };
    let info2 = match &store.stacks[j] {
        Some(s) => match s.motion {
            Motion::Physics => Some((s.pos, s.cards.len())),
            _ => None,
        },
        None => None,
    };
    let ((pos1, len1), (pos2, len2)) = match (info1, info2) {
        (Some(a), Some(b)) => (a, b),
        _ => {
            return ;
        },
    };
    proof {
        assert(pre.stack_live(i) && pre.stack_live(j));
        assert(pre.stack_entry_wf(i));
        assert(pre.stack_entry_wf(j));
    }
    // Effective footprint of each stack, with the wanted spacing margin.
    let size1 = crate::geom::stack_visual_size(card_visual_size, len1);
    let size2 = crate::geom::stack_visual_size(card_visual_size, len2);
    let s1 = Vec2i { x: size1.x + STACK_OVERLAP_SPACING, y: size1.y + STACK_OVERLAP_SPACING };
    let s2 = Vec2i { x: size2.x + STACK_OVERLAP_SPACING, y: size2.y + STACK_OVERLAP_SPACING };
    let c1 = Vec2i {
        x: pos1.x,
        y: sat_sub(pos1.y, (len1 as i64) * (crate::geom::CARD_STACK_Y_SPACING / 2)),
    };
    let c2 = Vec2i {
        x: pos2.x,
        y: sat_sub(pos2.y, (len2 as i64) * (crate::geom::CARD_STACK_Y_SPACING / 2)),
    };
    let sizes_ok = s1.x <= COORD_LIMIT && s1.y <= COORD_LIMIT && s2.x <= COORD_LIMIT && s2.y
        <= COORD_LIMIT;
    let centers_ok = c1.x >= -COORD_LIMIT && c1.x <= COORD_LIMIT && c1.y >= -COORD_LIMIT && c1.y
        <= COORD_LIMIT && c2.x >= -COORD_LIMIT && c2.x <= COORD_LIMIT && c2.y >= -COORD_LIMIT
        && c2.y <= COORD_LIMIT;
    if !(sizes_ok && centers_ok) {
        return ;
    }
    proof {
        assert(c1 == spec_footprint_center(pre, i));
        assert(c2 == spec_footprint_center(pre, j));
        assert(s1 == spec_footprint(pre, i, card_visual_size));
        assert(s2 == spec_footprint(pre, j, card_visual_size));
    }
    let total_movement = match get_movement_to_no_longer_overlap(c1, s1, c2, s2) {
        Some(m) => m,
        None => {
            return ;
        },
    };
    let movement_ok = total_movement.x >= -COORD_LIMIT && total_movement.x <= COORD_LIMIT
        && total_movement.y >= -COORD_LIMIT && total_movement.y <= COORD_LIMIT;
    if !movement_ok {
        return ;
    }
    proof {
        assert(spec_nudge_applies(pre, i, j, card_visual_size));
    }
    let movement = clamp_movement(total_movement, max_movement);
    proof {
        assert(movement.x == spec_nudge_movement_x(
            pre,
            i,
            j,
            card_visual_size,
            max_movement as int,
        ));
        assert(movement.y == spec_nudge_movement_y(
            pre,
            i,
            j,
            card_visual_size,
            max_movement as int,
        ));
    }
    let new_pos1 = Vec3i {
        x: sat_add(pos1.x, movement.x),
        y: sat_add(pos1.y, movement.y),
        z: pos1.z,
    };
    let new_pos2 = Vec3i {
        x: sat_sub(pos2.x, movement.x),
        y: sat_sub(pos2.y, movement.y),
        z: pos2.z,
    };
    match &mut store.stacks[i] {
        Some(st) => {
            st.pos = new_pos1;
        },
        None => {
            proof {
                assert(false);
            }
        },
    }
    match &mut store.stacks[j] {
        Some(st) => {
            st.pos = new_pos2;
        },
        None => {
            proof {
                assert(false);
            }
        },
    }
    proof {
        crate::stack_store::lemma_wf_stack_fields_changed(pre, *store);
    }
}

/// What nudging leaves alone on every stack: everything but the resting
/// position. Only stacks under physics move, only sideways and never in
/// depth.
pub open spec fn spec_nudge_frame(pre: StackStore, cur: StackStore, sid: StackId) -> bool {
    &&& cur.stack_at(sid) == (Stack { pos: cur.stack_at(sid).pos, ..pre.stack_at(sid) })
    &&& cur.stack_at(sid).pos.z == pre.stack_at(sid).pos.z
    &&& (!(pre.stack_at(sid).motion is Physics) ==> cur.stacks@[sid as int] == pre.stacks@[sid
        as int])
}

/// Slowly nudges resting stacks until they don't overlap. Every pair of
/// stacks under physics is measured by its wanted footprint — the stack's
/// visual size plus a fixed spacing margin — and when two footprints
/// overlap, the pair moves apart along the shorter axis of penetration,
/// the correction split evenly and clamped to a fixed maximum speed. Only
/// positions change: sequences, recipes and markers stay as they are. The
/// final store is exactly the in-order fold of the pair nudges over every
/// pair (i, j) with i < j.
#[verifier::rlimit(100)]
pub fn stack_overlap_nudging_system(store: &mut StackStore, delta_ms: u64, card_visual_size: Vec2i)
    requires
        old(store).wf(),
        card_visual_size.is_size(),
        delta_ms < 0x1_0000_0000,
    ensures
        final(store).wf(),
        final(store).cards@ == old(store).cards@,
        final(store).stacks@.len() == old(store).stacks@.len(),
        final(store).hovered == old(store).hovered,
        forall|sid: StackId| final(store).stack_live(sid) <==> old(store).stack_live(sid),
        forall|sid: StackId|
            old(store).stack_live(sid) ==> spec_nudge_frame(*old(store), *final(store), sid),
        spec_nudge_upto(
            *old(store),
            *final(store),
            old(store).stacks@.len() as int,
            old(store).stacks@.len() as int + 1,
            old(store).stacks@.len() as int,
            spec_max_nudge(delta_ms),
            card_visual_size,
        ),
{
    let ghost pre = *store;
    let max_movement: i64 = STACK_OVERLAP_MOVEMENT * (delta_ms as i64) / 1000;
    proof {
        assert(max_movement == spec_max_nudge(delta_ms));
    }
    let n = store.stacks.len();
    let mut i: usize = 0;
    while i < n
        invariant
            i <= n,
            n == pre.stacks@.len(),
            pre.wf(),
            card_visual_size.is_size(),
            0 <= max_movement <= 0x4000_0000_0000_0000,
            store.wf(),
            store.cards@ == pre.cards@,
            store.stacks@.len() == pre.stacks@.len(),
            store.hovered == pre.hovered,
            forall|s2: StackId| store.stack_live(s2) <==> pre.stack_live(s2),
            forall|s2: StackId|
                pre.stack_live(s2) ==> spec_nudge_frame(pre, *store, s2),
            max_movement == spec_max_nudge(delta_ms),
            spec_nudge_upto(
                pre,
                *store,
                i as int,
                i as int + 1,
                n as int,
                max_movement as int,
                card_visual_size,
            ),
        decreases n - i,
    {
        let mut j: usize = i + 1;
        while j < n
            invariant
                i < j <= n || j == i + 1,
                i < n,
                n == pre.stacks@.len(),
                pre.wf(),
                card_visual_size.is_size(),
                0 <= max_movement <= 0x4000_0000_0000_0000,
                store.wf(),
                store.cards@ == pre.cards@,
                store.stacks@.len() == pre.stacks@.len(),
                store.hovered == pre.hovered,
                forall|s2: StackId| store.stack_live(s2) <==> pre.stack_live(s2),
                forall|s2: StackId|
                    pre.stack_live(s2) ==> spec_nudge_frame(pre, *store, s2),
                max_movement == spec_max_nudge(delta_ms),
                spec_nudge_upto(
                    pre,
                    *store,
                    i as int,
                    j as int,
                    n as int,
                    max_movement as int,
                    card_visual_size,
                ),
            decreases n - j,
        {
            let ghost mid = *store;
            nudge_pair(store, i, j, max_movement, card_visual_size);
            proof {
                assert forall|s2: StackId|
                    pre.stack_live(s2) implies spec_nudge_frame(pre, *store, s2) by {
                    assert(mid.stack_live(s2));
                    if s2 != i && s2 != j {
                        assert(store.stacks@[s2 as int] == mid.stacks@[s2 as int]);
                    }
                }
                assert(spec_nudge_upto(pre, mid, i as int, j as int, n as int, max_movement as int, card_visual_size));
                assert(((j as int + 1) - 1) as StackId == j);
                assert(spec_nudge_pair_rel(
                    mid,
                    *store,
                    (i as int) as StackId,
                    ((j as int + 1) - 1) as StackId,
                    max_movement as int,
                    card_visual_size,
                ));
                assert(spec_nudge_upto(
                    pre,
                    *store,
                    i as int,
                    j as int + 1,
                    n as int,
                    max_movement as int,
                    card_visual_size,
                ));
            }
            j = j + 1;
        }
        proof {
            assert(spec_nudge_upto(
                pre,
                *store,
                i as int + 1,
                i as int + 2,
                n as int,
                max_movement as int,
                card_visual_size,
            ));
        }
        i = i + 1;
    }
    proof {
        crate::stack_store::lemma_wf_stack_fields_changed(pre, *store);
    }
}

/// A first occurrence that exists lies within the sequence.
proof fn lemma_first_index_bounds(s: Seq<CardId>, c: CardId, j: int)
    requires
        0 <= j < s.len(),
        s[j] == c,
    ensures
        0 <= first_index_of(s, c) < s.len(),
    decreases j,
{
    if s[0] == c {
    } else {
        let rest = s.drop_first();
        assert(rest[j - 1] == s[j]);
        lemma_first_index_bounds(rest, c, j - 1);
    }
}

} // verus!
