//! The view camera: an offset and a zoom in fixed-point device coordinates, moved
//! by pointer drags and by scrolling about the pointer.

use crate::geom::{floor_div, Point};
use vstd::arithmetic::div_mod::{lemma_fundamental_div_mod, lemma_fundamental_div_mod_converse};
use vstd::prelude::*;

verus! {

/// The fixed-point length that stands for 1 in device coordinates, in zoom levels and
/// in scroll amounts.
pub const UNIT: i64 = 0x4000_0000;

/// A scroll velocity at or below this is taken for rest: a hundredth of a unit.
pub const REST: i64 = 0x00A3_D70A;

/// A pair of fixed-point numbers: a position or an offset in device coordinates.
#[derive(Clone, Copy, Debug, PartialEq, Eq, Structural)]
pub struct Vec2 {
    pub x: i64,
    pub y: i64,
}

/// A position in the space of the drawing, in fixed-point units.
#[derive(Clone, Copy, Debug, PartialEq, Eq, Structural)]
pub struct WorldPos {
    pub x: i128,
    pub y: i128,
}

/// The device coordinate of a pixel column: -1 at the left edge, 1 at the right.
pub open spec fn device_x(px: int, width: int) -> int {
    (2 * px * UNIT) / width - UNIT
}

/// The device coordinate of a pixel row: 1 at the top edge, -1 at the bottom.
pub open spec fn device_y(py: int, height: int) -> int {
    UNIT - (2 * py * UNIT) / height
}

/// The world coordinate that the camera shows at a device coordinate.
pub open spec fn to_world(device: int, offset: int, zoom: int) -> int {
    ((device - offset) * UNIT) / zoom
}

/// The device coordinate at which the camera shows a world coordinate.
pub open spec fn to_device(world: int, offset: int, zoom: int) -> int {
    (world * zoom) / (UNIT as int) + offset
}

/// The factor by which a scroll of `amount` changes the zoom: 1 and a tenth of the
/// amount.
pub open spec fn zoom_factor(amount: int) -> int {
    UNIT + amount / 10
}

/// The zoom after a scroll of `amount`.
pub open spec fn zoomed(zoom: int, amount: int) -> int {
    (zoom * zoom_factor(amount)) / (UNIT as int)
}

/// The offset after a scroll of `amount` about `anchor`: the distance from the anchor
/// grows by the zoom factor.
pub open spec fn anchored(offset: int, anchor: int, amount: int) -> int {
    anchor - ((anchor - offset) * zoom_factor(amount)) / (UNIT as int)
}

/// `v`, or the nearest number that an offset can hold.
pub open spec fn clamped(v: int) -> int {
    if v < i64::MIN {
        i64::MIN as int
    } else if v > i64::MAX {
        i64::MAX as int
    } else {
        v
    }
}

/// What is left of a scroll velocity after one tick: seven tenths of it, rounded toward
/// rest.
pub open spec fn decayed(velocity: int) -> int {
    if velocity >= 0 {
        (velocity * 7) / 10
    } else {
        -((-velocity * 7) / 10)
    }
}

/// A transform of the plane as a matrix of four columns of four fixed-point numbers;
/// `UNIT` stands for 1.
#[derive(Clone, Copy, Debug, PartialEq, Eq)]
pub struct Mat4 {
    pub cols: [[i64; 4]; 4],
}

/// The view: the drawing is scaled by `zoom` and then moved by `offset`. A zoom of
/// `UNIT` stands for 1.
#[derive(Clone, Copy, Debug, PartialEq, Eq, Structural)]
pub struct Camera {
    pub offset: Vec2,
    pub zoom: i64,
}

/// A scroll of `amount` about `anchor` can be done: the zoom stays positive and
/// everything stays in range.
pub open spec fn can_zoom(camera: Camera, anchor: Vec2, amount: int) -> bool {
    &&& zoom_factor(amount) > 0
    &&& 1 <= zoomed(camera.zoom as int, amount) <= i64::MAX
    &&& i64::MIN <= anchored(camera.offset.x as int, anchor.x as int, amount) <= i64::MAX
    &&& i64::MIN <= anchored(camera.offset.y as int, anchor.y as int, amount) <= i64::MAX
}

impl Vec2 {
    /// The pair (`x`, `y`).
    pub fn new(x: i64, y: i64) -> (v: Vec2)
        ensures
            v == (Vec2 { x, y }),
    {
        Vec2 { x, y }
    }
}

impl Camera {
    /// The zoom is positive.
    pub open spec fn wf(&self) -> bool {
        self.zoom > 0
    }

    /// The view that shows the drawing as it is: no offset, a zoom of 1.
    pub open spec fn initial() -> Camera {
        Camera { offset: Vec2 { x: 0, y: 0 }, zoom: UNIT }
    }

    /// The view moved as far as `to` lies from `from`. An offset that would leave
    /// the range of the coordinates stops at the end of the range.
    pub open spec fn panned(self, from: Vec2, to: Vec2) -> Camera {
        Camera {
            offset: Vec2 {
                x: clamped(self.offset.x + (to.x - from.x)) as i64,
                y: clamped(self.offset.y + (to.y - from.y)) as i64,
            },
            zoom: self.zoom,
        }
    }

    /// The view after a scroll of `amount` about `anchor`: zoomed by 1 and a tenth of
    /// the amount, with the anchor held in place; the view as it is where that cannot
    /// be done.
    pub open spec fn zoomed_at(self, amount: int, anchor: Vec2) -> Camera {
        if can_zoom(self, anchor, amount) {
            Camera {
                offset: Vec2 {
                    x: anchored(self.offset.x as int, anchor.x as int, amount) as i64,
                    y: anchored(self.offset.y as int, anchor.y as int, amount) as i64,
                },
                zoom: zoomed(self.zoom as int, amount) as i64,
            }
        } else {
            self
        }
    }

    /// The transform of the view as a matrix: the scaling by the zoom on the diagonal,
    /// and the offset in the last column.
    pub fn matrix(&self) -> (m: Mat4)
        ensures
            m.cols[0]@ == seq![self.zoom, 0i64, 0i64, 0i64],
            m.cols[1]@ == seq![0i64, self.zoom, 0i64, 0i64],
            m.cols[2]@ == seq![0i64, 0i64, UNIT, 0i64],
            m.cols[3]@ == seq![self.offset.x, self.offset.y, 0i64, UNIT],
    {
        let m = Mat4 {
            cols: [
                [self.zoom, 0, 0, 0],
                [0, self.zoom, 0, 0],
                [0, 0, UNIT, 0],
                [self.offset.x, self.offset.y, 0, UNIT],
            ],
        };
        proof {
            assert(m.cols[0]@ =~= seq![self.zoom, 0i64, 0i64, 0i64]);
            assert(m.cols[1]@ =~= seq![0i64, self.zoom, 0i64, 0i64]);
            assert(m.cols[2]@ =~= seq![0i64, 0i64, UNIT, 0i64]);
            assert(m.cols[3]@ =~= seq![self.offset.x, self.offset.y, 0i64, UNIT]);
        }
        m
    }

    /// The view that shows the drawing as it is: no offset, a zoom of 1.
    pub fn new() -> (camera: Camera)
        ensures
            camera == Camera::initial(),
    {
        Camera { offset: Vec2 { x: 0, y: 0 }, zoom: UNIT }
    }

    /// The offset of the view.
    pub fn offset(&self) -> (offset: Vec2)
        ensures
            offset == self.offset,
    {
        self.offset
    }

    /// The zoom of the view; `UNIT` stands for 1.
    pub fn zoom(&self) -> (zoom: i64)
        ensures
            zoom == self.zoom,
    {
        self.zoom
    }

    /// The world position that the view shows at the pixel `screen_pos` of a screen of
    /// `screen_size` pixels.
    pub fn screen_to_world(&self, screen_pos: Point, screen_size: Point) -> (world: WorldPos)
        requires
            self.wf(),
            screen_size.x > 0,
            screen_size.y > 0,
        ensures
            world.x == to_world(
                device_x(screen_pos.x as int, screen_size.x as int),
                self.offset.x as int,
                self.zoom as int,
            ),
            world.y == to_world(
                device_y(screen_pos.y as int, screen_size.y as int),
                self.offset.y as int,
                self.zoom as int,
            ),
    {
        let at = device_of(screen_pos, screen_size);
        self.device_to_world(at)
    }

    /// The world position that the view shows at the device position `at`.
    pub fn device_to_world(&self, at: Vec2) -> (world: WorldPos)
        requires
            self.wf(),
        ensures
            world.x == to_world(at.x as int, self.offset.x as int, self.zoom as int),
            world.y == to_world(at.y as int, self.offset.y as int, self.zoom as int),
    {
        let dx: i128 = at.x as i128 - self.offset.x as i128;
        let dy: i128 = at.y as i128 - self.offset.y as i128;
        proof {
            lemma_product_bound(dx as int, UNIT as int, 0x1_0000_0000_0000_0000, 0x4000_0000);
            lemma_product_bound(dy as int, UNIT as int, 0x1_0000_0000_0000_0000, 0x4000_0000);
        }
        WorldPos {
            x: floor_div(dx * (UNIT as i128), self.zoom as i128),
            y: floor_div(dy * (UNIT as i128), self.zoom as i128),
        }
    }

    /// The device position at which the view shows the world position `world`.
    pub fn world_to_device(&self, world: Vec2) -> (at: WorldPos)
        requires
            self.wf(),
        ensures
            at.x == to_device(world.x as int, self.offset.x as int, self.zoom as int),
            at.y == to_device(world.y as int, self.offset.y as int, self.zoom as int),
    {
        proof {
            lemma_product_bound(
                world.x as int,
                self.zoom as int,
                0x8000_0000_0000_0000,
                0x8000_0000_0000_0000,
            );
            lemma_product_bound(
                world.y as int,
                self.zoom as int,
                0x8000_0000_0000_0000,
                0x8000_0000_0000_0000,
            );
        }
        let sx: i128 = floor_div((world.x as i128) * (self.zoom as i128), UNIT as i128);
        let sy: i128 = floor_div((world.y as i128) * (self.zoom as i128), UNIT as i128);
        proof {
            lemma_quotient_bound((world.x as int) * (self.zoom as int), UNIT as int);
            lemma_quotient_bound((world.y as int) * (self.zoom as int), UNIT as int);
        }
        WorldPos { x: sx + self.offset.x as i128, y: sy + self.offset.y as i128 }
    }

    /// Moves the view by `delta`. An offset that would leave the range of the
    /// coordinates stops at the end of the range.
    pub fn pan(&mut self, delta: Vec2)
        ensures
            *final(self) == old(self).panned((Vec2 { x: 0, y: 0 }), delta),
    {
        self.offset.x = clamp_of(self.offset.x as i128 + delta.x as i128);
        self.offset.y = clamp_of(self.offset.y as i128 + delta.y as i128);
    }

    /// Moves the view as far as the device position `to` lies from `from`. An
    /// offset that would leave the range of the coordinates stops at the end of
    /// the range.
    pub fn pan_between(&mut self, from: Vec2, to: Vec2)
        ensures
            *final(self) == old(self).panned(from, to),
    {
        self.offset.x = clamp_of(self.offset.x as i128 + (to.x as i128 - from.x as i128));
        self.offset.y = clamp_of(self.offset.y as i128 + (to.y as i128 - from.y as i128));
    }

    /// Zooms by a scroll of `amount` about the device position `anchor`, so that the
    /// world position under the anchor stays under it. The zoom becomes the zoom times
    /// 1 and a tenth of `amount`. Where that would not leave the zoom positive, or
    /// would leave the range of the coordinates, the view stays as it is.
    pub fn zoom_at(&mut self, amount: i64, anchor: Vec2)
        requires
            old(self).wf(),
        ensures
            final(self).wf(),
            *final(self) == old(self).zoomed_at(amount as int, anchor),
    {
        let factor: i128 = (UNIT as i128) + floor_div(amount as i128, 10);
        if factor <= 0 {
            return ;
        }
        proof {
            lemma_quotient_bound(amount as int, 10);
            lemma_product_bound(
                self.zoom as int,
                factor as int,
                0x8000_0000_0000_0000,
                0x1000_0000_0000_0000,
            );
            lemma_product_bound(
                anchor.x - self.offset.x,
                factor as int,
                0x1_0000_0000_0000_0000,
                0x1000_0000_0000_0000,
            );
            lemma_product_bound(
                anchor.y - self.offset.y,
                factor as int,
                0x1_0000_0000_0000_0000,
                0x1000_0000_0000_0000,
            );
        }
        let zoom: i128 = floor_div((self.zoom as i128) * factor, UNIT as i128);
        let dx: i128 = floor_div((anchor.x as i128 - self.offset.x as i128) * factor, UNIT as i128);
        let dy: i128 = floor_div((anchor.y as i128 - self.offset.y as i128) * factor, UNIT as i128);
        proof {
            lemma_quotient_bound((anchor.x - self.offset.x) * factor, UNIT as int);
            lemma_quotient_bound((anchor.y - self.offset.y) * factor, UNIT as int);
        }
        let x: i128 = anchor.x as i128 - dx;
        let y: i128 = anchor.y as i128 - dy;
        if zoom < 1 || zoom > i64::MAX as i128 || !fits(x) || !fits(y) {
            return ;
        }
        self.zoom = zoom as i64;
        self.offset = Vec2 { x: x as i64, y: y as i64 };
    }
}

/// The product of two numbers is no farther from zero than the product of their bounds.
proof fn lemma_product_bound(a: int, b: int, la: int, lb: int)
    requires
        -la <= a <= la,
        -lb <= b <= lb,
    ensures
        -(la * lb) <= a * b <= la * lb,
{
    assert(-(la * lb) <= a * b <= la * lb) by (nonlinear_arith)
        requires
            -la <= a <= la,
            -lb <= b <= lb,
    ;
}

/// A quotient by a positive number is no farther from zero than the number divided,
/// but for the rounding down.
proof fn lemma_quotient_bound(a: int, b: int)
    requires
        b > 0,
    ensures
        a >= 0 ==> 0 <= a / b <= a,
        a < 0 ==> a <= a / b < 0,
{
    lemma_fundamental_div_mod(a, b);
    let q = a / b;
    let r = a % b;
    if a >= 0 {
        if q < 0 {
            assert(b * q <= -b) by (nonlinear_arith)
                requires
                    b > 0,
                    q <= -1,
            ;
        }
        if q > a {
            assert(b * q >= q) by (nonlinear_arith)
                requires
                    b >= 1,
                    q >= 0,
            ;
        }
    } else {
        if q >= 0 {
            assert(b * q >= 0) by (nonlinear_arith)
                requires
                    b > 0,
                    q >= 0,
            ;
        }
        if q < a {
            assert(b * (q + 1) <= q + 1) by (nonlinear_arith)
                requires
                    b >= 1,
                    q + 1 <= 0,
            ;
            assert(b * (q + 1) == b * q + b) by (nonlinear_arith);
        }
    }
}

fn fits(v: i128) -> (ok: bool)
    ensures
        ok == (i64::MIN <= v <= i64::MAX),
{
    v >= i64::MIN as i128 && v <= i64::MAX as i128
}

fn clamp_of(v: i128) -> (c: i64)
    ensures
        c == clamped(v as int),
{
    if v < i64::MIN as i128 {
        i64::MIN
    } else if v > i64::MAX as i128 {
        i64::MAX
    } else {
        v as i64
    }
}

/// The device position of the pixel `screen_pos` of a screen of `screen_size` pixels.
pub fn device_of(screen_pos: Point, screen_size: Point) -> (at: Vec2)
    requires
        screen_size.x > 0,
        screen_size.y > 0,
    ensures
        at.x == device_x(screen_pos.x as int, screen_size.x as int),
        at.y == device_y(screen_pos.y as int, screen_size.y as int),
{
    proof {
        lemma_quotient_bound(2 * screen_pos.x * UNIT, screen_size.x as int);
        lemma_quotient_bound(2 * screen_pos.y * UNIT, screen_size.y as int);
    }
    let x: i128 = floor_div(2 * (screen_pos.x as i128) * (UNIT as i128), screen_size.x as i128);
    let y: i128 = floor_div(2 * (screen_pos.y as i128) * (UNIT as i128), screen_size.y as i128);
    Vec2 { x: (x - UNIT as i128) as i64, y: (UNIT as i128 - y) as i64 }
}

/// The distance of `v` from zero.
pub open spec fn magnitude(v: int) -> int {
    if v < 0 {
        -v
    } else {
        v
    }
}

proof fn lemma_floor_is_greatest(a: int, b: int, m: int)
    requires
        b > 0,
        b * m <= a,
    ensures
        m <= a / b,
{
    lemma_fundamental_div_mod(a, b);
    let q = a / b;
    if m > q {
        assert(b * m >= b * q + b) by (nonlinear_arith)
            requires
                b > 0,
                m >= q + 1,
        ;
    }
}

/// A world position that is shown and read back comes back as it was or lower, by no
/// more than the zoom leaves undecided; at a zoom of 1 or more that is one unit at
/// most. Where the zoom places the position on a whole device coordinate, it comes
/// back exactly.
pub proof fn lemma_round_trip(world: int, offset: int, zoom: int)
    requires
        zoom > 0,
    ensures
        to_world(to_device(world, offset, zoom), offset, zoom) <= world,
        world - ((UNIT - 1) / zoom + 1) <= to_world(to_device(world, offset, zoom), offset, zoom),
        (world * zoom) % (UNIT as int) == 0 ==> to_world(
            to_device(world, offset, zoom),
            offset,
            zoom,
        ) == world,
{
    let u = UNIT as int;
    let t = (world * zoom) / u;
    let r = (world * zoom) % u;
    lemma_fundamental_div_mod(world * zoom, u);
    assert(to_device(world, offset, zoom) - offset == t);
    let back = (t * u) / zoom;
    let r2 = (t * u) % zoom;
    lemma_fundamental_div_mod(t * u, zoom);
    assert(to_world(to_device(world, offset, zoom), offset, zoom) == back);
    assert(t * u == u * t) by (nonlinear_arith);
    assert(world * zoom == zoom * world) by (nonlinear_arith);
    // zoom * back + r2 + r == zoom * world
    if back > world {
        assert(zoom * back >= zoom * world + zoom) by (nonlinear_arith)
            requires
                zoom > 0,
                back >= world + 1,
        ;
    }
    let m = world - back;
    assert(zoom * m == r + r2) by (nonlinear_arith)
        requires
            zoom * back + r2 + r == zoom * world,
            m == world - back,
    ;
    assert(zoom * (m - 1) == zoom * m - zoom) by (nonlinear_arith);
    lemma_floor_is_greatest(u - 1, zoom, m - 1);
    if r == 0 {
        lemma_fundamental_div_mod_converse(t * u, zoom, world, 0);
    }
}

/// A scroll keeps the world position under its anchor, up to rounding: the position
/// that the view shows at the anchor moves by no more than one unit and the part of
/// its distance from the origin, and of the unit, that the new zoom cannot tell apart.
/// At a zoom of 1 or more and within the window of the drawing that is three units.
pub proof fn lemma_zoom_keeps_anchor(anchor: int, offset: int, zoom: int, amount: int)
    requires
        zoom > 0,
        zoom_factor(amount) > 0,
        zoomed(zoom, amount) > 0,
    ensures
        magnitude(
            to_world(anchor, anchored(offset, anchor, amount), zoomed(zoom, amount)) - to_world(
                anchor,
                offset,
                zoom,
            ),
        ) <= 1 + (magnitude(to_world(anchor, offset, zoom)) + UNIT) / zoomed(zoom, amount),
{
    let u = UNIT as int;
    let f = zoom_factor(amount);
    let d = anchor - offset;
    let z2 = zoomed(zoom, amount);
    let wb = (d * u) / zoom;
    let r1 = (d * u) % zoom;
    let d2 = (d * f) / u;
    let r2 = (d * f) % u;
    let r3 = (zoom * f) % u;
    let wa = (d2 * u) / z2;
    let r4 = (d2 * u) % z2;
    lemma_fundamental_div_mod(d * u, zoom);
    lemma_fundamental_div_mod(d * f, u);
    lemma_fundamental_div_mod(zoom * f, u);
    lemma_fundamental_div_mod(d2 * u, z2);
    assert(anchor - anchored(offset, anchor, amount) == d2);
    assert(to_world(anchor, anchored(offset, anchor, amount), z2) == wa);
    assert(to_world(anchor, offset, zoom) == wb);
    let delta = wa - wb;
    let slack = (magnitude(wb) + u) / z2;
    // u * z2 * delta == r3 * wb + r1 * f - u * (r4 + r2)
    let lhs = (d * u) * f;
    assert(lhs == (zoom * wb + r1) * f);
    assert((zoom * wb + r1) * f == (zoom * f) * wb + r1 * f) by (nonlinear_arith);
    assert((zoom * f) * wb == (u * z2 + r3) * wb);
    assert((u * z2 + r3) * wb == u * (z2 * wb) + r3 * wb) by (nonlinear_arith);
    assert((d * u) * f == (d * f) * u) by (nonlinear_arith);
    assert((d * f) * u == (u * d2 + r2) * u);
    assert((u * d2 + r2) * u == u * (d2 * u) + u * r2) by (nonlinear_arith);
    assert(u * (d2 * u) == u * (z2 * wa + r4));
    assert(u * (z2 * wa + r4) == u * (z2 * wa) + u * r4) by (nonlinear_arith);
    assert(u * (z2 * wa) - u * (z2 * wb) == u * (z2 * delta)) by (nonlinear_arith)
        requires
            delta == wa - wb,
    ;
    let x = u * (z2 * delta);
    assert(x == r3 * wb + r1 * f - u * r4 - u * r2);
    // bounds of the four remainders' terms
    assert(0 <= r1 * f <= (zoom - 1) * f) by (nonlinear_arith)
        requires
            0 <= r1 <= zoom - 1,
            f > 0,
    ;
    assert((zoom - 1) * f == zoom * f - f) by (nonlinear_arith);
    assert(r1 * f < u * z2 + u);
    assert(0 <= u * r4 <= u * (z2 - 1)) by (nonlinear_arith)
        requires
            0 <= r4 <= z2 - 1,
            u > 0,
    ;
    assert(0 <= u * r2 <= u * (u - 1)) by (nonlinear_arith)
        requires
            0 <= r2 <= u - 1,
            u > 0,
    ;
    assert(-(u * magnitude(wb)) <= r3 * wb <= u * magnitude(wb)) by (nonlinear_arith)
        requires
            0 <= r3 < u,
            magnitude(wb) >= 0,
            wb == magnitude(wb) || wb == -magnitude(wb),
    ;
    assert(u * (z2 - 1) == u * z2 - u) by (nonlinear_arith);
    assert(u * (u - 1) == u * u - u) by (nonlinear_arith);
    let w = magnitude(wb);
    // upper: u * z2 * delta < u * (w + z2 + 1)
    assert(x < u * w + u * z2 + u);
    assert(u * w + u * z2 + u == u * (w + z2 + 1)) by (nonlinear_arith);
    assert(z2 * delta < w + z2 + 1) by (nonlinear_arith)
        requires
            x == u * (z2 * delta),
            x < u * (w + z2 + 1),
            u > 0,
    ;
    assert(z2 * (delta - 1) == z2 * delta - z2) by (nonlinear_arith);
    assert(z2 * (delta - 1) <= w + u);
    lemma_floor_is_greatest(w + u, z2, delta - 1);
    // lower: u * z2 * delta > -u * (w + z2 + u)
    assert(x > -(u * w) - (u * z2 - u) - (u * u - u) - 1);
    assert(u * w + u * z2 + u * u == u * (w + z2 + u)) by (nonlinear_arith);
    assert(x > -(u * (w + z2 + u)));
    assert(z2 * delta > -(w + z2 + u)) by (nonlinear_arith)
        requires
            x == u * (z2 * delta),
            x > -(u * (w + z2 + u)),
            u > 0,
    ;
    assert(z2 * (-delta - 1) == -(z2 * delta) - z2) by (nonlinear_arith);
    assert(z2 * (-delta - 1) <= w + u);
    lemma_floor_is_greatest(w + u, z2, -delta - 1);
}

/// The matrix of a view takes a world coordinate to the device coordinate at which the
/// view shows it: the product of the matrix with the position, divided by the unit.
pub proof fn lemma_matrix_shows(world: int, offset: int, zoom: int)
    ensures
        (zoom * world + offset * UNIT) / (UNIT as int) == to_device(world, offset, zoom),
{
    let u = UNIT as int;
    let q = (world * zoom) / u;
    let r = (world * zoom) % u;
    lemma_fundamental_div_mod(world * zoom, u);
    assert(zoom * world == world * zoom) by (nonlinear_arith);
    assert(zoom * world + offset * u == (q + offset) * u + r) by (nonlinear_arith)
        requires
            zoom * world == u * q + r,
    ;
    lemma_fundamental_div_mod_converse(zoom * world + offset * u, u, q + offset, r);
}

/// A scroll velocity that is not at rest decays: after a tick it is nearer to zero, and
/// on the same side of it.
pub proof fn lemma_velocity_decays(velocity: int)
    ensures
        magnitude(decayed(velocity)) <= magnitude(velocity),
        velocity != 0 ==> magnitude(decayed(velocity)) < magnitude(velocity),
        velocity >= 0 ==> decayed(velocity) >= 0,
        velocity <= 0 ==> decayed(velocity) <= 0,
{
    let m = magnitude(velocity);
    lemma_fundamental_div_mod(m * 7, 10);
}

/// A pointer button.
#[derive(Clone, Copy, Debug, PartialEq, Eq, Structural)]
pub enum Button {
    Left,
    Right,
    Other,
}

/// What the input side reports.
#[derive(Clone, Copy, Debug, PartialEq, Eq, Structural)]
pub enum InputEvent {
    /// The pointer moved to a pixel.
    CursorMoved { position: Point },
    /// A pointer button went down or up.
    MouseInput { pressed: bool, button: Button },
    /// The wheel turned by an amount; `UNIT` stands for one line.
    MouseWheel { amount: i64 },
    /// The screen has a new size in pixels.
    Resized { size: Point },
    /// A frame is about to be drawn.
    RedrawRequested,
    /// The window is to be closed.
    CloseRequested,
}

/// What the caller is to do after an event.
#[derive(Clone, Copy, Debug, PartialEq, Eq, Structural)]
pub enum Action {
    /// Nothing.
    Wait,
    /// Draw a frame with the camera as it now stands.
    Draw,
    /// Leave the event loop.
    Exit,
}

/// The pointer state around a camera: the screen size, where the pointer is, whether a
/// drag is on, and the velocity of a scroll that runs out.
#[derive(Clone, Copy, Debug)]
pub struct CameraController {
    camera: Camera,
    screen_size: Point,
    mouse_pos: Vec2,
    mouse_down: bool,
    scroll_velocity: i64,
}

impl View for CameraController {
    type V = Camera;

    closed spec fn view(&self) -> Camera {
        self.camera
    }
}

/// `after` is `before` but for the camera.
pub open spec fn same_pointer(before: CameraController, after: CameraController) -> bool {
    &&& after.size() == before.size()
    &&& after.pointer() == before.pointer()
    &&& after.dragging() == before.dragging()
    &&& after.velocity() == before.velocity()
}

/// `after` is `before` once the pointer has moved to the pixel `position` of a screen
/// of `size` pixels: the view has moved with the pointer if a drag is on.
pub open spec fn moved(
    before: CameraController,
    position: Point,
    size: Point,
    after: CameraController,
) -> bool {
    &&& after.pointer().x == device_x(position.x as int, size.x as int)
    &&& after.pointer().y == device_y(position.y as int, size.y as int)
    &&& after.size() == before.size()
    &&& after.dragging() == before.dragging()
    &&& after.velocity() == before.velocity()
    &&& after@ == if before.dragging() {
        before@.panned(before.pointer(), after.pointer())
    } else {
        before@
    }
}

/// `after` is `before` once a button has gone down or up: a drag is on while the left
/// button is down, and the right button going down puts the view back.
pub open spec fn pressed(
    before: CameraController,
    down: bool,
    button: Button,
    after: CameraController,
) -> bool {
    &&& after.dragging() == (down && button == Button::Left)
    &&& after.size() == before.size()
    &&& after.pointer() == before.pointer()
    &&& after.velocity() == before.velocity()
    &&& after@ == if down && button == Button::Right {
        Camera::initial()
    } else {
        before@
    }
}

/// `after` is `before` once a scroll of `amount` about the pointer is done.
pub open spec fn scrolled(before: CameraController, amount: int, after: CameraController) -> bool {
    same_pointer(before, after) && after@ == before@.zoomed_at(amount, before.pointer())
}

/// `after` is `before` after one tick of the scroll that runs out.
pub open spec fn ticked(before: CameraController, after: CameraController) -> bool {
    &&& after.size() == before.size()
    &&& after.pointer() == before.pointer()
    &&& after.dragging() == before.dragging()
    &&& if magnitude(before.velocity()) > REST {
        &&& after.velocity() == decayed(before.velocity())
        &&& after@ == before@.zoomed_at(before.velocity(), before.pointer())
    } else {
        &&& after.velocity() == 0
        &&& after@ == before@
    }
}

/// `after` is `before` on a screen that has changed its size to `size`; a size
/// without area changes nothing.
pub open spec fn resized(before: CameraController, size: Point, after: CameraController) -> bool {
    &&& after.size() == if size.x > 0 && size.y > 0 {
        size
    } else {
        before.size()
    }
    &&& after.pointer() == before.pointer()
    &&& after.dragging() == before.dragging()
    &&& after.velocity() == before.velocity()
    &&& after@ == before@
}

/// What an event makes of the controller, and what the caller is to do then.
pub open spec fn handled(
    before: CameraController,
    event: InputEvent,
    after: CameraController,
    action: Action,
) -> bool {
    match event {
        InputEvent::CursorMoved { position } => moved(before, position, before.size(), after)
            && action == Action::Wait,
        InputEvent::MouseInput { pressed: down, button } => pressed(before, down, button, after)
            && action == Action::Wait,
        InputEvent::MouseWheel { amount } => scrolled(before, amount as int, after) && action
            == Action::Wait,
        InputEvent::Resized { size } => resized(before, size, after) && action == Action::Wait,
        InputEvent::RedrawRequested => ticked(before, after) && action == Action::Draw,
        InputEvent::CloseRequested => same_pointer(before, after) && after@ == before@ && action
            == Action::Exit,
    }
}

impl CameraController {
    /// The camera as it stands.
    pub fn camera(&self) -> (camera: Camera)
        ensures
            camera == self@,
    {
        self.camera
    }

    /// The size of the screen in pixels.
    pub closed spec fn size(&self) -> Point {
        self.screen_size
    }

    /// The device position of the pointer.
    pub closed spec fn pointer(&self) -> Vec2 {
        self.mouse_pos
    }

    /// Whether a drag is on.
    pub closed spec fn dragging(&self) -> bool {
        self.mouse_down
    }

    /// The velocity of the scroll that runs out.
    pub closed spec fn velocity(&self) -> int {
        self.scroll_velocity as int
    }

    /// The camera has a positive zoom and the screen a positive size.
    pub open spec fn wf(&self) -> bool {
        self@.wf() && self.size().x > 0 && self.size().y > 0
    }

    /// A controller for a screen of `screen_size` pixels: the view shows the drawing as
    /// it is, the pointer is at the center, no drag is on and nothing scrolls.
    pub fn new(screen_size: Point) -> (controller: CameraController)
        requires
            screen_size.x > 0,
            screen_size.y > 0,
        ensures
            controller.wf(),
            controller@ == Camera::initial(),
            controller.size() == screen_size,
            controller.pointer() == (Vec2 { x: 0, y: 0 }),
            !controller.dragging(),
            controller.velocity() == 0,
    {
        CameraController {
            camera: Camera::new(),
            screen_size,
            mouse_pos: Vec2 { x: 0, y: 0 },
            mouse_down: false,
            scroll_velocity: 0,
        }
    }

    /// The pointer moved to the pixel `position` of a screen of `size` pixels. While a
    /// drag is on, the view moves with the pointer.
    pub fn update(&mut self, position: Point, size: Point)
        requires
            old(self).wf(),
            size.x > 0,
            size.y > 0,
        ensures
            final(self).wf(),
            moved(*old(self), position, size, *final(self)),
    {
        let new_pos = device_of(position, size);
        if self.mouse_down {
            self.camera.pan_between(self.mouse_pos, new_pos);
        }
        self.mouse_pos = new_pos;
    }

    /// The pointer button went down or up: a drag is on while it is down.
    pub fn mouse_down(&mut self, down: bool)
        ensures
            final(self).dragging() == down,
            final(self)@ == old(self)@,
            final(self).size() == old(self).size(),
            final(self).pointer() == old(self).pointer(),
            final(self).velocity() == old(self).velocity(),
    {
        self.mouse_down = down;
    }

    /// Zooms by a scroll of `amount` about the pointer.
    pub fn scroll(&mut self, amount: i64)
        requires
            old(self).wf(),
        ensures
            final(self).wf(),
            scrolled(*old(self), amount as int, *final(self)),
    {
        let anchor = self.mouse_pos;
        self.camera.zoom_at(amount, anchor);
    }

    /// Starts a scroll that runs out: `velocity` is the amount of its first tick.
    pub fn set_scroll_velocity(&mut self, velocity: i64)
        ensures
            final(self).velocity() == velocity,
            final(self)@ == old(self)@,
            final(self).size() == old(self).size(),
            final(self).pointer() == old(self).pointer(),
            final(self).dragging() == old(self).dragging(),
    {
        self.scroll_velocity = velocity;
    }

    /// One tick of the scroll that runs out: while the velocity is above rest, the view
    /// scrolls by it and seven tenths of it are left; at rest it becomes zero.
    pub fn apply_velocity(&mut self)
        requires
            old(self).wf(),
        ensures
            final(self).wf(),
            ticked(*old(self), *final(self)),
    {
        let v: i64 = self.scroll_velocity;
        if v > REST || v < -REST {
            self.scroll(v);
            proof {
                lemma_velocity_decays(v as int);
            }
            let left: i128 = if v >= 0 {
                (v as i128 * 7) / 10
            } else {
                -((-(v as i128) * 7) / 10)
            };
            self.scroll_velocity = left as i64;
        } else {
            self.scroll_velocity = 0;
        }
    }

    /// The world position that the view shows at the pixel `screen_pos`.
    pub fn screen_to_world(&self, screen_pos: Point) -> (world: WorldPos)
        requires
            self.wf(),
        ensures
            world.x == to_world(
                device_x(screen_pos.x as int, self.size().x as int),
                self@.offset.x as int,
                self@.zoom as int,
            ),
            world.y == to_world(
                device_y(screen_pos.y as int, self.size().y as int),
                self@.offset.y as int,
                self@.zoom as int,
            ),
    {
        self.camera.screen_to_world(screen_pos, self.screen_size)
    }

    /// The transform of the view as a matrix.
    pub fn matrix(&self) -> (m: Mat4)
        ensures
            m.cols[0]@ == seq![self@.zoom, 0i64, 0i64, 0i64],
            m.cols[1]@ == seq![0i64, self@.zoom, 0i64, 0i64],
            m.cols[2]@ == seq![0i64, 0i64, UNIT, 0i64],
            m.cols[3]@ == seq![self@.offset.x, self@.offset.y, 0i64, UNIT],
    {
        self.camera.matrix()
    }

    /// The screen has a new size in pixels.
    pub fn resize(&mut self, size: Point)
        requires
            old(self).wf(),
            size.x > 0,
            size.y > 0,
        ensures
            final(self).wf(),
            resized(*old(self), size, *final(self)),
    {
        self.screen_size = size;
    }

    /// Puts the view back: no offset, a zoom of 1.
    pub fn reset(&mut self)
        requires
            old(self).wf(),
        ensures
            final(self).wf(),
            final(self)@ == Camera::initial(),
            same_pointer(*old(self), *final(self)),
    {
        self.camera = Camera::new();
    }

    /// Takes an event of the input side: the pointer moves and drags the view, the
    /// left button arms the drag, the right button puts the view back, the wheel zooms
    /// about the pointer, and each frame lets a running scroll run on.
    pub fn handle(&mut self, event: InputEvent) -> (action: Action)
        requires
            old(self).wf(),
        ensures
            final(self).wf(),
            handled(*old(self), event, *final(self), action),
    {
        match event {
            InputEvent::CursorMoved { position } => {
                let size = self.screen_size;
                self.update(position, size);
                Action::Wait
            },
            InputEvent::MouseInput { pressed, button } => {
                let left = match button {
                    Button::Left => true,
                    _ => false,
                };
                let right = match button {
                    Button::Right => true,
                    _ => false,
                };
                self.mouse_down(pressed && left);
                if pressed && right {
                    self.reset();
                }
                Action::Wait
            },
            InputEvent::MouseWheel { amount } => {
                self.scroll(amount);
                Action::Wait
            },
            InputEvent::Resized { size } => {
                if size.x > 0 && size.y > 0 {
                    self.resize(size);
                }
                Action::Wait
            },
            InputEvent::RedrawRequested => {
                self.apply_velocity();
                Action::Draw
            },
            InputEvent::CloseRequested => Action::Exit,
        }
    }
}

} // verus!
