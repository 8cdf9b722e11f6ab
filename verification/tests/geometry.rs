//! Geometry: overlap resolution, bounds tests and layout math.
//! Coordinates are fixed point: `UNIT` steps per world unit.

use the_stacks::geom::{
    get_movement_to_no_longer_overlap, global_center_of_top_card, in_bounds,
    relative_center_of_nth_card_in_stack, stack_visual_size, Vec2i, Vec3i, CARD_STACK_Y_SPACING,
    DELTA_Z, UNIT,
};

fn v2(x: i64, y: i64) -> Vec2i {
    Vec2i { x: x * UNIT, y: y * UNIT }
}

#[test]
fn mod_test_get_movement_to_no_longer_overlap() {
    let overlap =
        get_movement_to_no_longer_overlap(v2(10, 10), v2(6, 6), v2(12, 12), v2(4, 4)).unwrap();
    // One and a half world units down on the y axis.
    assert_eq!(overlap, Vec2i { x: 0, y: -3 * UNIT / 2 });

    let overlap_invert_arguments =
        get_movement_to_no_longer_overlap(v2(12, 12), v2(4, 4), v2(10, 10), v2(6, 6)).unwrap();

    // When the two rectangles are swapped, the output vector should also
    // swap its sign.
    assert_eq!(overlap.x, -overlap_invert_arguments.x);
    assert_eq!(overlap.y, -overlap_invert_arguments.y);
}

#[test]
fn mod_test_get_movement_to_no_longer_overlap_when_no_overlap() {
    let overlap = get_movement_to_no_longer_overlap(v2(10, 10), v2(6, 6), v2(16, 10), v2(4, 4));
    assert_eq!(overlap, None);
}

#[test]
fn stack_test_get_movement_to_no_longer_overlap() {
    let overlap =
        get_movement_to_no_longer_overlap(v2(10, 10), v2(6, 6), v2(12, 12), v2(4, 4)).unwrap();
    assert_eq!(overlap, Vec2i { x: 0, y: -3 * UNIT / 2 });

    let overlap_invert_arguments =
        get_movement_to_no_longer_overlap(v2(12, 12), v2(4, 4), v2(10, 10), v2(6, 6)).unwrap();
    assert_eq!(overlap.x, -overlap_invert_arguments.x);
    assert_eq!(overlap.y, -overlap_invert_arguments.y);
}

#[test]
fn stack_test_get_movement_to_no_longer_overlap_when_no_overlap() {
    let overlap = get_movement_to_no_longer_overlap(v2(10, 10), v2(6, 6), v2(16, 10), v2(4, 4));
    assert_eq!(overlap, None);
}

#[test]
fn card_test_get_movement_to_no_longer_overlap() {
    let overlap =
        get_movement_to_no_longer_overlap(v2(10, 10), v2(6, 6), v2(12, 12), v2(4, 4)).unwrap();
    assert_eq!(overlap, Vec2i { x: 0, y: -3 * UNIT / 2 });

    let overlap_invert_arguments =
        get_movement_to_no_longer_overlap(v2(12, 12), v2(4, 4), v2(10, 10), v2(6, 6)).unwrap();
    assert_eq!(overlap.x, -overlap_invert_arguments.x);
    assert_eq!(overlap.y, -overlap_invert_arguments.y);
}

#[test]
fn card_test_get_movement_to_no_longer_overlap_when_no_overlap() {
    let overlap = get_movement_to_no_longer_overlap(v2(10, 10), v2(6, 6), v2(16, 10), v2(4, 4));
    assert_eq!(overlap, None);
}

#[test]
fn touching_rectangles_do_not_overlap() {
    // Exactly touching edges: the overlap amount is zero, not positive.
    let r = get_movement_to_no_longer_overlap(v2(0, 0), v2(4, 4), v2(4, 0), v2(4, 4));
    assert_eq!(r, None);
}

#[test]
fn coinciding_centers_use_the_full_separation_distance() {
    // Degenerate case: both centers at the same point. The x axis has the
    // smaller penetration, and the full minimum separation is substituted
    // for the direction, halved for the two movers.
    let r = get_movement_to_no_longer_overlap(v2(5, 5), v2(4, 8), v2(5, 5), v2(4, 8)).unwrap();
    assert_eq!(r, Vec2i { x: 2 * UNIT, y: 0 });
}

#[test]
fn antisymmetry_on_the_x_axis() {
    // The x axis has the shorter penetration and distinct centers there,
    // so swapping the rectangles flips the sign exactly.
    let a = get_movement_to_no_longer_overlap(v2(0, 0), v2(10, 40), v2(3, 1), v2(10, 40)).unwrap();
    let b = get_movement_to_no_longer_overlap(v2(3, 1), v2(10, 40), v2(0, 0), v2(10, 40)).unwrap();
    assert_eq!(a.x, -b.x);
    assert_eq!(a.y, -b.y);
    assert!(a.x != 0);
    assert_eq!(a.y, 0);
}

#[test]
fn an_odd_overlap_is_fully_removed_by_the_two_half_moves() {
    // A 3.001-unit penetration on x: each half move rounds away from zero
    // to 1.501 units, so the moved rectangles no longer overlap.
    let p1 = Vec2i { x: 0, y: 0 };
    let s1 = v2(6, 20);
    let p2 = Vec2i { x: 1999, y: 0 };
    let s2 = v2(4, 20);
    let v = get_movement_to_no_longer_overlap(p1, s1, p2, s2).unwrap();
    assert_eq!(v, Vec2i { x: -1501, y: 0 });
    let moved1 = Vec2i { x: p1.x + v.x, y: p1.y + v.y };
    let moved2 = Vec2i { x: p2.x - v.x, y: p2.y - v.y };
    // The centers are now at least the minimum separation (5 units) apart.
    assert!((moved1.x - moved2.x).abs() >= (s1.x / 2 + s2.x / 2));
    assert!(get_movement_to_no_longer_overlap(moved1, s1, moved2, s2).is_none());
}

#[test]
fn test_stack_visual_size() {
    let single_card_size = v2(100, 250);
    let one_card = stack_visual_size(single_card_size, 1);
    assert_eq!(one_card, single_card_size);

    let four_cards = stack_visual_size(single_card_size, 4);
    assert_eq!(
        four_cards,
        Vec2i { x: single_card_size.x, y: single_card_size.y + 3 * CARD_STACK_Y_SPACING }
    );
}

#[test]
fn point_in_bounds_is_relative_to_the_center() {
    let size = v2(100, 200);
    let center = v2(10, 10);
    let inside = in_bounds(size, center, v2(20, 40)).unwrap();
    assert_eq!(inside, v2(10, 30));
    // On the edge counts as inside.
    assert!(in_bounds(size, center, v2(60, 10)).is_some());
    // One unit past the half extent does not.
    assert!(in_bounds(size, center, v2(61, 10)).is_none());
}

#[test]
fn nth_card_offsets_are_monotonic_and_distinct() {
    let zeroth = relative_center_of_nth_card_in_stack(0);
    assert_eq!(zeroth, Vec3i { x: 0, y: 0, z: 0 });
    let second = relative_center_of_nth_card_in_stack(2);
    assert_eq!(second, Vec3i { x: 0, y: -2 * CARD_STACK_Y_SPACING, z: 4 * DELTA_Z });
    for i in 1..10usize {
        let a = relative_center_of_nth_card_in_stack(i - 1);
        let b = relative_center_of_nth_card_in_stack(i);
        assert!(b.y < a.y);
        assert!(b.z > a.z);
    }
}

#[test]
fn center_of_top_card_is_one_spacing_per_card_below_the_root() {
    let root = Vec3i { x: 5 * UNIT, y: 7 * UNIT, z: 3 };
    let c = global_center_of_top_card(root, 3);
    assert_eq!(c, Vec3i { x: 5 * UNIT, y: 7 * UNIT - 3 * CARD_STACK_Y_SPACING, z: 3 });
}
