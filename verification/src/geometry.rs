//! Overlap predicates on integer world coordinates.
//!
//! Positions, radii and extents are whole numbers of the host's smallest
//! world unit, so every test is exact.

use vstd::prelude::*;

verus! {

/// The world-space point at which an entity's shape is centred.
#[derive(Clone, Copy, Debug, PartialEq, Eq, Structural)]
pub struct Position {
    pub x: i32,
    pub y: i32,
}

/// Whether the point `(x, y)` lies in the closed rectangle spanned by
/// `left..=right` and `bottom..=top`.
pub open spec fn spec_point_in_rect(x: int, y: int, left: int, bottom: int, right: int, top: int) -> bool {
    left <= x <= right && bottom <= y <= top
}

/// Whether two circles touch or overlap: the squared sum of the radii is
/// at least the squared distance of the centres.
pub open spec fn spec_in_circle(
    circle_radius: int,
    circle_translation: Position,
    other_radius: int,
    other_translation: Position,
) -> bool {
    let dx = circle_translation.x - other_translation.x;
    let dy = circle_translation.y - other_translation.y;
    (circle_radius + other_radius) * (circle_radius + other_radius) >= dx * dx + dy * dy
}

/// Whether a circle touches or overlaps an axis-aligned box: the circle's
/// centre lies in the box grown by the radius on every side. `width` and
/// `height` are full extents, so the inequalities are stated on doubled
/// coordinates.
pub open spec fn spec_circle_in_box(
    radius: int,
    circle_translation: Position,
    width: int,
    height: int,
    box_translation: Position,
) -> bool {
    spec_point_in_rect(
        2 * circle_translation.x,
        2 * circle_translation.y,
        2 * box_translation.x - width - 2 * radius,
        2 * box_translation.y - height - 2 * radius,
        2 * box_translation.x + width + 2 * radius,
        2 * box_translation.y + height + 2 * radius,
    )
}

/// Tests whether a point lies in a closed axis-aligned rectangle.
pub fn point_in_rect(x: i64, y: i64, left: i64, bottom: i64, right: i64, top: i64) -> (inside: bool)
    ensures
        inside == spec_point_in_rect(x as int, y as int, left as int, bottom as int, right as int, top as int),
{
    x >= left && x <= right && y >= bottom && y <= top
}

/// Tests whether two circles touch or overlap, without a square root.
pub fn in_circle(
    circle_radius: i32,
    circle_translation: Position,
    other_radius: i32,
    other_translation: Position,
) -> (overlap: bool)
    ensures
        overlap == spec_in_circle(
            circle_radius as int,
            circle_translation,
            other_radius as int,
            other_translation,
        ),
{
    let reach: i128 = circle_radius as i128 + other_radius as i128;
    let dx: i128 = circle_translation.x as i128 - other_translation.x as i128;
    let dy: i128 = circle_translation.y as i128 - other_translation.y as i128;
    assert(reach * reach <= 0x1_0000_0000_0000_0000 && dx * dx <= 0x1_0000_0000_0000_0000 && dy * dy
        <= 0x1_0000_0000_0000_0000) by (nonlinear_arith)
        requires
            -0x1_0000_0000 <= reach <= 0x1_0000_0000,
            -0x1_0000_0000 <= dx <= 0x1_0000_0000,
            -0x1_0000_0000 <= dy <= 0x1_0000_0000,
    ;
    assert(0 <= reach * reach && 0 <= dx * dx && 0 <= dy * dy) by (nonlinear_arith);
    reach * reach >= dx * dx + dy * dy
}

/// Tests whether a circle touches or overlaps an axis-aligned box that is
/// centred at `box_translation`.
pub fn circle_in_box(
    radius: i32,
    circle_translation: Position,
    width: i32,
    height: i32,
    box_translation: Position,
) -> (overlap: bool)
    ensures
        overlap == spec_circle_in_box(
            radius as int,
            circle_translation,
            width as int,
            height as int,
            box_translation,
        ),
{
    let grow: i64 = 2 * (radius as i64);
    let box_x: i64 = 2 * (box_translation.x as i64) - width as i64;
    let box_y: i64 = 2 * (box_translation.y as i64) - height as i64;
    point_in_rect(
        2 * (circle_translation.x as i64),
        2 * (circle_translation.y as i64),
        box_x - grow,
        box_y - grow,
        box_x + 2 * (width as i64) + grow,
        box_y + 2 * (height as i64) + grow,
    )
}

/// Two circles overlap whichever of them is named first.
pub proof fn lemma_in_circle_symmetric(
    circle_radius: int,
    circle_translation: Position,
    other_radius: int,
    other_translation: Position,
)
    ensures
        spec_in_circle(circle_radius, circle_translation, other_radius, other_translation)
            == spec_in_circle(other_radius, other_translation, circle_radius, circle_translation),
{
    let dx = circle_translation.x - other_translation.x;
    let dy = circle_translation.y - other_translation.y;
    assert(dx * dx == (-dx) * (-dx)) by (nonlinear_arith);
    assert(dy * dy == (-dy) * (-dy)) by (nonlinear_arith);
    assert(-dx == other_translation.x - circle_translation.x);
    assert(-dy == other_translation.y - circle_translation.y);
    assert(circle_radius + other_radius == other_radius + circle_radius);
}

} // verus!
