//! Pixel coordinates, distances between them, and the image windows that the
//! tracker cuts out of a frame.

use vstd::prelude::*;

verus! {

/// A candidate at most this many pixels away from an entity is within its
/// reach.
pub const DISTANCE_THRESHOLD: i32 = 20;

/// Half the side of the square that is cut out around a candidate to take
/// its signature.
pub const RADIUS: i32 = 11;

/// How far the ghost of an entity is drawn below and to the right of the top
/// left corner of the square around it.
pub const GHOST_OFFSET: i32 = 5;

/// A rectangle of pixels: its top left corner and its size.
#[derive(Clone, Copy, Debug, PartialEq, Eq, Structural)]
pub struct Rect {
    pub x: i32,
    pub y: i32,
    pub width: i32,
    pub height: i32,
}

/// Whether the square with top left corner `(x, y)` and side `side` lies
/// within a frame of `frame_width` by `frame_height` pixels.
pub open spec fn square_fits(
    x: int,
    y: int,
    side: int,
    frame_width: int,
    frame_height: int,
) -> bool {
    0 <= x && 0 <= y && x + side <= frame_width && y + side <= frame_height
}

/// The square of side `2 * RADIUS` centred on `center`, if it lies within
/// the frame.
pub open spec fn patch_window(center: (i32, i32), frame_width: i32, frame_height: i32) -> Option<
    Rect,
> {
    if square_fits(
        center.0 - RADIUS,
        center.1 - RADIUS,
        2 * RADIUS,
        frame_width as int,
        frame_height as int,
    ) {
        Some(
            Rect {
                x: (center.0 - RADIUS) as i32,
                y: (center.1 - RADIUS) as i32,
                width: (2 * RADIUS) as i32,
                height: (2 * RADIUS) as i32,
            },
        )
    } else {
        None
    }
}

/// The square of side `RADIUS` into which the ghost of an entity at `center`
/// is drawn, if it lies within the frame. Its top left corner is
/// `GHOST_OFFSET` pixels below and to the right of that of the square of
/// `patch_window`.
pub open spec fn ghost_window_of(center: (i32, i32), frame_width: i32, frame_height: i32) -> Option<
    Rect,
> {
    if square_fits(
        center.0 - RADIUS + GHOST_OFFSET,
        center.1 - RADIUS + GHOST_OFFSET,
        RADIUS as int,
        frame_width as int,
        frame_height as int,
    ) {
        Some(
            Rect {
                x: (center.0 - RADIUS + GHOST_OFFSET) as i32,
                y: (center.1 - RADIUS + GHOST_OFFSET) as i32,
                width: RADIUS,
                height: RADIUS,
            },
        )
    } else {
        None
    }
}

/// The squared Euclidean distance between two points of the plane.
///
/// Its value for given points is a matter of products, which the solver is
/// asked for with `by (nonlinear_arith)`.
pub open spec fn dist2(a: (i32, i32), b: (i32, i32)) -> int {
    (a.0 - b.0) * (a.0 - b.0) + (a.1 - b.1) * (a.1 - b.1)
}

/// Whether `a` and `b` are at most `DISTANCE_THRESHOLD` pixels apart.
pub open spec fn within_reach(a: (i32, i32), b: (i32, i32)) -> bool {
    dist2(a, b) <= DISTANCE_THRESHOLD * DISTANCE_THRESHOLD
}

/// Computes the squared Euclidean distance between two pixel positions.
///
/// The result is exact for every pair of coordinates: the squares are formed
/// in 128 bits, where they cannot overflow.
pub fn distance_squared(a: (i32, i32), b: (i32, i32)) -> (d: i128)
    ensures
        d == dist2(a, b),
{
    let dx: i128 = a.0 as i128 - b.0 as i128;
    let dy: i128 = a.1 as i128 - b.1 as i128;
    assert(-0x1_0000_0000 <= dx <= 0x1_0000_0000);
    assert(-0x1_0000_0000 <= dy <= 0x1_0000_0000);
    assert(0 <= dx * dx <= 0x1_0000_0000_0000_0000) by (nonlinear_arith)
        requires
            -0x1_0000_0000 <= dx <= 0x1_0000_0000,
    ;
    assert(0 <= dy * dy <= 0x1_0000_0000_0000_0000) by (nonlinear_arith)
        requires
            -0x1_0000_0000 <= dy <= 0x1_0000_0000,
    ;
    dx * dx + dy * dy
}

/// The square whose top left corner is `shift` pixels below and to the right
/// of `center` and whose side is `side`, if it lies within the frame.
fn square_in_frame(
    center: (i32, i32),
    shift: i32,
    side: i32,
    frame_width: i32,
    frame_height: i32,
) -> (window: Option<Rect>)
    ensures
        window == if square_fits(
            center.0 + shift,
            center.1 + shift,
            side as int,
            frame_width as int,
            frame_height as int,
        ) {
            Some(
                Rect {
                    x: (center.0 + shift) as i32,
                    y: (center.1 + shift) as i32,
                    width: side,
                    height: side,
                },
            )
        } else {
            None
        },
{
    let x: i64 = center.0 as i64 + shift as i64;
    let y: i64 = center.1 as i64 + shift as i64;
    if 0 <= x && 0 <= y && x + side as i64 <= frame_width as i64 && y + side as i64
        <= frame_height as i64 {
        Some(Rect { x: x as i32, y: y as i32, width: side, height: side })
    } else {
        None
    }
}

/// Finds the square to cut out of a frame of `frame_width` by
/// `frame_height` pixels for the signature of a candidate at `center`. A
/// candidate so close to the edge that the square would leave the frame has
/// none, and is to be skipped.
pub fn signature_window(center: (i32, i32), frame_width: i32, frame_height: i32) -> (window:
    Option<Rect>)
    ensures
        window == patch_window(center, frame_width, frame_height),
{
    square_in_frame(center, -RADIUS, 2 * RADIUS, frame_width, frame_height)
}

/// Finds the square of a frame of `frame_width` by `frame_height` pixels
/// into which the ghost of an entity at `center` is drawn. An entity so
/// close to the edge that the square would leave the frame has none, and
/// its ghost is not drawn.
pub fn ghost_window(center: (i32, i32), frame_width: i32, frame_height: i32) -> (window: Option<
    Rect,
>)
    ensures
        window == ghost_window_of(center, frame_width, frame_height),
{
    square_in_frame(center, GHOST_OFFSET - RADIUS, RADIUS, frame_width, frame_height)
}

} // verus!
