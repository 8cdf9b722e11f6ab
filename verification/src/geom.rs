//! Rectangle-overlap resolution and bounds testing over fixed-point
//! coordinates.
//!
//! All positions and sizes are axis-aligned and measured in coordinate steps
//! of 1/[`UNIT`] world units. Rectangles are given by their center and their
//! full size.

use vstd::prelude::*;

verus! {

/// Number of fixed-point coordinate steps in one world unit.
pub const UNIT: i64 = 1000;

/// Bound on every coordinate and size the geometry functions accept; keeps
/// all intermediate arithmetic far inside `i64`.
pub const COORD_LIMIT: i64 = 1_000_000_000_000;

/// How much of the previous card you can see when stacking cards
/// (50 world units).
pub const CARD_STACK_Y_SPACING: i64 = 50 * 1000;

/// Tiny change in Z position, used to put sprites "in front" of other
/// sprites (0.001 world units, the smallest representable step).
pub const DELTA_Z: i64 = 1;

/// A point or size in the plane.
#[derive(Clone, Copy, PartialEq, Eq, Structural, Debug)]
pub struct Vec2i {
    pub x: i64,
    pub y: i64,
}

/// A point in space; `z` orders sprites front to back.
#[derive(Clone, Copy, PartialEq, Eq, Structural, Debug)]
pub struct Vec3i {
    pub x: i64,
    pub y: i64,
    pub z: i64,
}

impl Vec2i {
    pub fn new(x: i64, y: i64) -> (r: Vec2i)
        ensures
            r.x == x && r.y == y,
    {
        Vec2i { x, y }
    }

    /// Whether both coordinates lie in `[-COORD_LIMIT, COORD_LIMIT]`.
    pub open spec fn in_range(self) -> bool {
        -COORD_LIMIT <= self.x <= COORD_LIMIT && -COORD_LIMIT <= self.y <= COORD_LIMIT
    }

    /// Whether this value is a well-formed size: non-negative and bounded.
    pub open spec fn is_size(self) -> bool {
        0 <= self.x <= COORD_LIMIT && 0 <= self.y <= COORD_LIMIT
    }
}

impl Vec3i {
    pub fn new(x: i64, y: i64, z: i64) -> (r: Vec3i)
        ensures
            r.x == x && r.y == y && r.z == z,
    {
        Vec3i { x, y, z }
    }

    pub open spec fn in_range(self) -> bool {
        -COORD_LIMIT <= self.x <= COORD_LIMIT && -COORD_LIMIT <= self.y <= COORD_LIMIT
            && -COORD_LIMIT <= self.z <= COORD_LIMIT
    }
}

/// Magnitude of an integer.
pub open spec fn abs_i(v: int) -> int {
    if v >= 0 {
        v
    } else {
        -v
    }
}

/// Halving that rounds away from zero, so that two halves always cover the
/// whole amount: both rectangles move, and together they must clear the
/// full overlap even when it is odd.
pub open spec fn half_up(v: int) -> int {
    if v >= 0 {
        (v + 1) / 2
    } else {
        -((-v + 1) / 2)
    }
}

/// Centers must be at least this far apart on the x axis for the rectangles
/// not to overlap there.
pub open spec fn min_allowed_distance_x(size1: Vec2i, size2: Vec2i) -> int {
    size1.x as int / 2 + size2.x as int / 2
}

pub open spec fn min_allowed_distance_y(size1: Vec2i, size2: Vec2i) -> int {
    size1.y as int / 2 + size2.y as int / 2
}

/// By how much the rectangles' x extents overlap (positive means they
/// intersect on that axis).
pub open spec fn overlap_x(pos1: Vec2i, size1: Vec2i, pos2: Vec2i, size2: Vec2i) -> int {
    min_allowed_distance_x(size1, size2) - abs_i(pos1.x - pos2.x)
}

pub open spec fn overlap_y(pos1: Vec2i, size1: Vec2i, pos2: Vec2i, size2: Vec2i) -> int {
    min_allowed_distance_y(size1, size2) - abs_i(pos1.y - pos2.y)
}

/// Two axis-aligned rectangles overlap exactly when they overlap on both
/// axes.
pub open spec fn rects_overlap(pos1: Vec2i, size1: Vec2i, pos2: Vec2i, size2: Vec2i) -> bool {
    overlap_x(pos1, size1, pos2, size2) > 0 && overlap_y(pos1, size1, pos2, size2) > 0
}

/// Signed amount rectangle 1 has to move on the x axis to clear the overlap,
/// before the halving that splits the correction between both rectangles.
/// When the centers coincide on the axis there is no direction to push
/// along, so the full minimum separation distance is substituted.
pub open spec fn raw_resolution_x(pos1: Vec2i, size1: Vec2i, pos2: Vec2i, size2: Vec2i) -> int {
    let dx = pos1.x - pos2.x;
    if dx == 0 {
        min_allowed_distance_x(size1, size2)
    } else if dx > 0 {
        overlap_x(pos1, size1, pos2, size2)
    } else {
        -overlap_x(pos1, size1, pos2, size2)
    }
}

pub open spec fn raw_resolution_y(pos1: Vec2i, size1: Vec2i, pos2: Vec2i, size2: Vec2i) -> int {
    let dy = pos1.y - pos2.y;
    if dy == 0 {
        min_allowed_distance_y(size1, size2)
    } else if dy > 0 {
        overlap_y(pos1, size1, pos2, size2)
    } else {
        -overlap_y(pos1, size1, pos2, size2)
    }
}

/// Whether the overlap is resolved along the x axis: the shorter axis of
/// penetration wins, and on a tie the y axis is used.
pub open spec fn resolves_on_x(pos1: Vec2i, size1: Vec2i, pos2: Vec2i, size2: Vec2i) -> bool {
    overlap_x(pos1, size1, pos2, size2) < overlap_y(pos1, size1, pos2, size2)
}

/// The movement rectangle 1 should make (rectangle 2 makes the opposite):
/// half the raw resolution on the chosen axis, zero on the other.
pub open spec fn resolution_x(pos1: Vec2i, size1: Vec2i, pos2: Vec2i, size2: Vec2i) -> int {
    if resolves_on_x(pos1, size1, pos2, size2) {
        half_up(raw_resolution_x(pos1, size1, pos2, size2))
    } else {
        0
    }
}

pub open spec fn resolution_y(pos1: Vec2i, size1: Vec2i, pos2: Vec2i, size2: Vec2i) -> int {
    if resolves_on_x(pos1, size1, pos2, size2) {
        0
    } else {
        half_up(raw_resolution_y(pos1, size1, pos2, size2))
    }
}

/// Returns the shortest movement the two rectangles should make in order not
/// to overlap anymore. The first rectangle should use the vector as-is, the
/// second should invert it. Returns `None` exactly when the rectangles do
/// not overlap.
pub fn get_movement_to_no_longer_overlap(
    pos1: Vec2i,
    size1: Vec2i,
    pos2: Vec2i,
    size2: Vec2i,
) -> (r: Option<Vec2i>)
    requires
        pos1.in_range(),
        pos2.in_range(),
        size1.is_size(),
        size2.is_size(),
    ensures
        r is Some <==> rects_overlap(pos1, size1, pos2, size2),
        r matches Some(v) ==> v.x == resolution_x(pos1, size1, pos2, size2) && v.y
            == resolution_y(pos1, size1, pos2, size2),
{
    let min_x = size1.x / 2 + size2.x / 2;
    let min_y = size1.y / 2 + size2.y / 2;

    let dx = pos1.x - pos2.x;
    let dy = pos1.y - pos2.y;
    let abs_dx = if dx >= 0 {
        dx
    } else {
        -dx
    };
    let abs_dy = if dy >= 0 {
        dy
    } else {
        -dy
    };

    let ox = min_x - abs_dx;
    let oy = min_y - abs_dy;

    if ox > 0 && oy > 0 {
        let raw_x = if dx == 0 {
            min_x
        } else if dx > 0 {
            ox
        } else {
            -ox
        };
        let raw_y = if dy == 0 {
            min_y
        } else if dy > 0 {
            oy
        } else {
            -oy
        };

        // Divide by 2, rounding away from zero: both rectangles are going
        // to move, and together the halves must cover the whole overlap.
        let half_x = if raw_x >= 0 {
            (raw_x + 1) / 2
        } else {
            -((-raw_x + 1) / 2)
        };
        let half_y = if raw_y >= 0 {
            (raw_y + 1) / 2
        } else {
            -((-raw_y + 1) / 2)
        };

        // Select the shortest distance.
        if ox < oy {
            Some(Vec2i { x: half_x, y: 0 })
        } else {
            Some(Vec2i { x: 0, y: half_y })
        }
    } else {
        None
    }
}

/// On the axis the resolution moves along, the two centers must not
/// coincide. When they do, both argument orders substitute the same
/// positive fallback distance, so the sign of the result cannot flip.
pub open spec fn kept_axis_centers_differ(
    pos1: Vec2i,
    size1: Vec2i,
    pos2: Vec2i,
    size2: Vec2i,
) -> bool {
    if resolves_on_x(pos1, size1, pos2, size2) {
        pos1.x != pos2.x
    } else {
        pos1.y != pos2.y
    }
}

/// Law: swapping the two rectangles negates the resolution vector, for every
/// overlapping pair whose centers differ on the axis the resolution moves
/// along.
pub proof fn lemma_overlap_resolution_antisymmetric(
    pos1: Vec2i,
    size1: Vec2i,
    pos2: Vec2i,
    size2: Vec2i,
)
    requires
        size1.is_size(),
        size2.is_size(),
        rects_overlap(pos1, size1, pos2, size2),
        kept_axis_centers_differ(pos1, size1, pos2, size2),
    ensures
        resolution_x(pos1, size1, pos2, size2) == -resolution_x(pos2, size2, pos1, size1),
        resolution_y(pos1, size1, pos2, size2) == -resolution_y(pos2, size2, pos1, size1),
{
    assert(overlap_x(pos1, size1, pos2, size2) == overlap_x(pos2, size2, pos1, size1));
    assert(overlap_y(pos1, size1, pos2, size2) == overlap_y(pos2, size2, pos1, size1));
    if resolves_on_x(pos1, size1, pos2, size2) {
        assert(raw_resolution_x(pos1, size1, pos2, size2) == -raw_resolution_x(
            pos2,
            size2,
            pos1,
            size1,
        ));
    } else {
        assert(raw_resolution_y(pos1, size1, pos2, size2) == -raw_resolution_y(
            pos2,
            size2,
            pos1,
            size1,
        ));
    }
}

/// Law: the resolution vector removes the overlap. Moving rectangle 1 by
/// the vector and rectangle 2 by its negation puts the centers at least the
/// minimum separation apart on the chosen axis, so the rectangles no longer
/// strictly overlap.
pub proof fn lemma_resolution_removes_overlap(
    pos1: Vec2i,
    size1: Vec2i,
    pos2: Vec2i,
    size2: Vec2i,
)
    requires
        size1.is_size(),
        size2.is_size(),
        rects_overlap(pos1, size1, pos2, size2),
    ensures
        ({
            let vx = resolution_x(pos1, size1, pos2, size2);
            let vy = resolution_y(pos1, size1, pos2, size2);
            ||| min_allowed_distance_x(size1, size2) - abs_i((pos1.x + vx) - (pos2.x - vx)) <= 0
            ||| min_allowed_distance_y(size1, size2) - abs_i((pos1.y + vy) - (pos2.y - vy)) <= 0
        }),
{
    if resolves_on_x(pos1, size1, pos2, size2) {
        let dx = pos1.x - pos2.x;
        let raw = raw_resolution_x(pos1, size1, pos2, size2);
        let vx = half_up(raw);
        let min_x = min_allowed_distance_x(size1, size2);
        // Two away-from-zero halves cover the whole raw amount.
        assert(raw >= 0 ==> 2 * vx >= raw);
        assert(raw < 0 ==> 2 * vx <= raw);
        if dx == 0 {
            assert(min_x > 0);
            assert((pos1.x + vx) - (pos2.x - vx) == 2 * vx >= min_x);
        } else if dx > 0 {
            assert((pos1.x + vx) - (pos2.x - vx) == dx + 2 * vx >= dx + raw == min_x);
        } else {
            assert((pos1.x + vx) - (pos2.x - vx) == dx + 2 * vx <= dx + raw == -min_x);
        }
    } else {
        let dy = pos1.y - pos2.y;
        let raw = raw_resolution_y(pos1, size1, pos2, size2);
        let vy = half_up(raw);
        let min_y = min_allowed_distance_y(size1, size2);
        assert(raw >= 0 ==> 2 * vy >= raw);
        assert(raw < 0 ==> 2 * vy <= raw);
        if dy == 0 {
            assert(min_y > 0);
            assert((pos1.y + vy) - (pos2.y - vy) == 2 * vy >= min_y);
        } else if dy > 0 {
            assert((pos1.y + vy) - (pos2.y - vy) == dy + 2 * vy >= dy + raw == min_y);
        } else {
            assert((pos1.y + vy) - (pos2.y - vy) == dy + 2 * vy <= dy + raw == -min_y);
        }
    }
}

/// Whether `point` lies within the rectangle of the given size centered on
/// `center`.
pub open spec fn point_within(unscaled_size: Vec2i, center: Vec2i, point: Vec2i) -> bool {
    let hx = unscaled_size.x as int / 2;
    let hy = unscaled_size.y as int / 2;
    -hx <= point.x - center.x <= hx && -hy <= point.y - center.y <= hy
}

/// Returns where in the bounds the position is located, relative to the
/// rectangle's center; `None` if the position is not in bounds.
pub fn in_bounds(unscaled_size: Vec2i, center: Vec2i, position_to_check: Vec2i) -> (r: Option<
    Vec2i,
>)
    requires
        unscaled_size.is_size(),
        center.in_range(),
        position_to_check.in_range(),
    ensures
        r is Some <==> point_within(unscaled_size, center, position_to_check),
        r matches Some(rel) ==> rel.x == position_to_check.x - center.x && rel.y
            == position_to_check.y - center.y,
{
    let half_x = unscaled_size.x / 2;
    let half_y = unscaled_size.y / 2;

    let rel_x = position_to_check.x - center.x;
    let rel_y = position_to_check.y - center.y;

    if rel_x >= -half_x && rel_x <= half_x && rel_y >= -half_y && rel_y <= half_y {
        Some(Vec2i { x: rel_x, y: rel_y })
    } else {
        None
    }
}

/// Footprint of a whole stack on screen: one card wide, and one card plus
/// the per-card spacing for every further card high.
pub fn stack_visual_size(single_card_visual_size: Vec2i, cards_in_stack: usize) -> (r: Vec2i)
    requires
        single_card_visual_size.is_size(),
        1 <= cards_in_stack <= 1_000_000,
    ensures
        r.x == single_card_visual_size.x,
        r.y == single_card_visual_size.y + (cards_in_stack - 1) * CARD_STACK_Y_SPACING,
{
    Vec2i {
        x: single_card_visual_size.x,
        y: single_card_visual_size.y + ((cards_in_stack - 1) as i64) * CARD_STACK_Y_SPACING,
    }
}

/// Offset of the card at index `nth_card` relative to its stack root: each
/// card sits a fixed spacing below the previous one, and two depth steps in
/// front of it, so draw order inside a stack is monotonic and collision
/// free.
pub fn relative_center_of_nth_card_in_stack(nth_card: usize) -> (r: Vec3i)
    requires
        nth_card <= 1_000_000,
    ensures
        r.x == 0,
        r.y == -(nth_card as int) * CARD_STACK_Y_SPACING,
        r.z == 2 * DELTA_Z * nth_card,
{
    Vec3i {
        x: 0,
        y: -((nth_card as i64) * CARD_STACK_Y_SPACING),
        z: 2 * DELTA_Z * (nth_card as i64),
    }
}

/// Center of the landing zone just above the top card of a stack whose root
/// sits at `root_translation` and holds `amount_of_cards` cards.
pub fn global_center_of_top_card(root_translation: Vec3i, amount_of_cards: usize) -> (r: Vec3i)
    requires
        root_translation.in_range(),
        amount_of_cards <= 1_000_000,
    ensures
        r.x == root_translation.x,
        r.y == root_translation.y - amount_of_cards * CARD_STACK_Y_SPACING,
        r.z == root_translation.z,
{
    Vec3i {
        x: root_translation.x,
        y: root_translation.y - (amount_of_cards as i64) * CARD_STACK_Y_SPACING,
        z: root_translation.z,
    }
}

} // verus!

