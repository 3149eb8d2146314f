use rand::Rng;
use vstd::prelude::*;

use crate::geometry::{
    Point, Rect, FIELD_HI, FIELD_LO, cell_of, clamp_field, root, isqrt, round_to_cell,
    clamp_to_field, lemma_cell_of_bounds, lemma_root_exists,
};
use crate::types::{Color, Mode};

verus! {

/// Largest value of a cell's timer: it grows only while at most one second.
pub const TIC_MAX: u64 = 0x1_0000_03e7;

/// Position and motion of a unit.
///
/// The position is continuous, in thousandths of a cell; the cell a unit
/// occupies is that position rounded. Timers count milliseconds.
#[derive(Clone, Copy, Debug)]
pub struct GameCell {
    pub px: i64,
    pub py: i64,
    pub symbol: char,
    pub color: Color,
    pub selected: bool,
    pub destination: Option<Point>,
    pub mode: Mode,
    pub tic: u64,
    pub harmed: bool,
}

/// The unit offset of compass direction `d` (north first, clockwise).
pub open spec fn offset(d: int) -> (int, int) {
    if d == 0 {
        (0, -1)
    } else if d == 1 {
        (1, -1)
    } else if d == 2 {
        (1, 0)
    } else if d == 3 {
        (1, 1)
    } else if d == 4 {
        (0, 1)
    } else if d == 5 {
        (-1, 1)
    } else if d == 6 {
        (-1, 0)
    } else {
        (-1, -1)
    }
}

/// One step from `a` towards `b` along one axis.
pub open spec fn sign_step(a: int, b: int) -> int {
    if a < b {
        1
    } else if a > b {
        -1
    } else {
        0
    }
}

/// Distance covered at `speed` (thousandths of a cell per second) in `dt`
/// milliseconds, in thousandths of a cell.
pub open spec fn travel(speed: u32, dt: u32) -> int {
    speed as int * dt as int / 1000
}

/// `p` advanced towards `t` by the fraction `s / dist`, rounded towards `p`.
pub open spec fn axis_step(p: int, t: int, dist: int, s: int) -> int {
    if t >= p {
        p + (t - p) * s / dist
    } else {
        p - (p - t) * s / dist
    }
}

/// Relies on rand's `Rng::gen_range` on the thread-local generator, which
/// returns a value in `[low, high)` and panics only when `low >= high`.
#[verifier::external_body]
pub(crate) fn random_below(n: u8) -> (r: u8)
    requires
        n > 0,
    ensures
        r < n,
{
    rand::thread_rng().gen_range(0u8, n)
}

fn step_axis(p: i64, t: i64, dist: u64, s: u64) -> (r: i128)
    requires
        FIELD_LO <= p <= FIELD_HI,
        -0x8000_0000_000 <= t <= 0x8000_0000_000,
        0 < dist,
        s < 0x80_0000_0000_0000,
    ensures
        r == axis_step(p as int, t as int, dist as int, s as int),
{
    if t >= p {
        let a: u128 = (t as i128 - p as i128) as u128;
        assert(a * s <= 0x1_0000_0000_0000 * 0x80_0000_0000_0000) by (nonlinear_arith)
            requires
                a <= 0x1_0000_0000_0000,
                s < 0x80_0000_0000_0000,
        ;
        let q: u128 = a * (s as u128) / (dist as u128);
        p as i128 + q as i128
    } else {
        let a: u128 = (p as i128 - t as i128) as u128;
        assert(a * s <= 0x1_0000_0000_0000 * 0x80_0000_0000_0000) by (nonlinear_arith)
            requires
                a <= 0x1_0000_0000_0000,
                s < 0x80_0000_0000_0000,
        ;
        let q: u128 = a * (s as u128) / (dist as u128);
        p as i128 - q as i128
    }
}

impl GameCell {
    pub open spec fn wf(self) -> bool {
        &&& FIELD_LO <= self.px <= FIELD_HI
        &&& FIELD_LO <= self.py <= FIELD_HI
        &&& self.tic <= TIC_MAX
    }

    /// Column of the occupied cell.
    pub open spec fn cx(self) -> int {
        cell_of(self.px as int)
    }

    /// Row of the occupied cell.
    pub open spec fn cy(self) -> int {
        cell_of(self.py as int)
    }

    pub open spec fn at(self) -> Point {
        Point { x: self.cx() as i32, y: self.cy() as i32 }
    }

    pub open spec fn moving(self) -> bool {
        self.mode == Mode::Move
    }

    pub open spec fn holding(self) -> bool {
        self.mode == Mode::Hold
    }

    pub open spec fn moved_to(self, p: Point, mode: Mode) -> GameCell {
        GameCell { mode, destination: Some(p), ..self }
    }

    /// Pursuit of `other`: one cell towards it in each axis, in attack mode,
    /// unless holding or already under way.
    pub open spec fn towards(self, other: Point) -> GameCell {
        if self.destination is None && !self.holding() {
            let x = self.cx() + sign_step(self.cx(), other.x as int);
            let y = self.cy() + sign_step(self.cy(), other.y as int);
            GameCell {
                destination: Some(Point { x: x as i32, y: y as i32 }),
                mode: Mode::Attack,
                ..self
            }
        } else {
            self
        }
    }

    pub open spec fn to_attacker(self, p: Point) -> GameCell {
        if !self.holding() && !self.moving() {
            self.moved_to(p, Mode::Attack)
        } else {
            self
        }
    }

    pub open spec fn stopped(self) -> GameCell {
        GameCell {
            mode: if self.holding() {
                self.mode
            } else {
                Mode::Select
            },
            destination: None,
            ..self
        }
    }

    pub open spec fn with_harmed(self) -> GameCell {
        GameCell { harmed: true, ..self }
    }

    pub open spec fn held(self) -> GameCell {
        GameCell { mode: Mode::Hold, destination: None, ..self }
    }

    /// The damage-flash timer after `dt` milliseconds.
    pub open spec fn ticked(self, dt: u32) -> GameCell {
        if self.tic > 1000 {
            GameCell { tic: 0, harmed: false, ..self }
        } else {
            GameCell {
                tic: (self.tic + dt) as u64,
                harmed: self.harmed && self.tic <= 600,
                ..self
            }
        }
    }

    /// Squared distance, in thousandths of a cell, from the position to the
    /// center of cell `d`.
    pub open spec fn dist2(self, d: Point) -> nat {
        let ex = d.x * 1000 - self.px;
        let ey = d.y * 1000 - self.py;
        (ex * ex + ey * ey) as nat
    }

    /// The position advanced by `s` thousandths of a cell along the straight
    /// line towards cell `d`; no move when already on it.
    pub open spec fn advanced(self, d: Point, s: int) -> GameCell {
        let tx = d.x * 1000;
        let ty = d.y * 1000;
        let dist = root(self.dist2(d)) as int;
        if dist == 0 {
            self
        } else {
            GameCell {
                px: clamp_field(axis_step(self.px as int, tx, dist, s)) as i64,
                py: clamp_field(axis_step(self.py as int, ty, dist, s)) as i64,
                ..self
            }
        }
    }

    /// The occupied cell lies in the 3x3 block of cells centered on `d`.
    pub open spec fn in_window(self, d: Point) -> bool {
        &&& d.x - 1 <= self.cx() <= d.x + 1
        &&& d.y - 1 <= self.cy() <= d.y + 1
    }

    /// Movement over `s` thousandths of a cell.
    pub open spec fn moved(self, s: int) -> GameCell {
        match self.destination {
            Some(d) => {
                let a = self.advanced(d, s);
                if a.in_window(d) {
                    a.stopped()
                } else {
                    a
                }
            },
            None => GameCell {
                px: (self.cx() * 1000) as i64,
                py: (self.cy() * 1000) as i64,
                ..self
            },
        }
    }

    /// One update of `dt` milliseconds at `speed` thousandths of a cell per second.
    pub open spec fn updated(self, dt: u32, speed: u32) -> GameCell {
        self.ticked(dt).moved(travel(speed, dt))
    }

    /// The cell displaced towards compass direction `d`, if its timer allows.
    pub open spec fn bumped(self, d: int) -> GameCell {
        if self.tic >= 100 {
            GameCell {
                px: clamp_field(self.px + offset(d).0 * 1000) as i64,
                py: clamp_field(self.py + offset(d).1 * 1000) as i64,
                tic: 0,
                ..self
            }
        } else {
            self
        }
    }

    /// The box `[-(r+1), r+1]` around the occupied cell, in both axes.
    pub open spec fn range_box(self, r: u32) -> Rect {
        Rect {
            x1: (self.cx() - r - 1) as i64,
            y1: (self.cy() - r - 1) as i64,
            x2: (self.cx() + r + 2) as i64,
            y2: (self.cy() + r + 2) as i64,
        }
    }

    /// A cell standing still at the center of cell `(x, y)`, its timer
    /// already at 100 ms so that it can be bumped at once.
    pub open spec fn fresh(x: int, y: int, symbol: char, color: Color) -> GameCell {
        GameCell {
            px: (x * 1000) as i64,
            py: (y * 1000) as i64,
            symbol,
            color,
            selected: false,
            destination: None,
            mode: Mode::Select,
            tic: 100,
            harmed: false,
        }
    }

    pub fn new(x: i32, y: i32, symbol: char, color: Color) -> (c: GameCell)
        ensures
            c == GameCell::fresh(x as int, y as int, symbol, color),
            c.wf(),
            c.px == x * 1000,
            c.py == y * 1000,
            c.cx() == x,
            c.cy() == y,
            c.symbol == symbol,
            c.color == color,
            !c.selected,
            c.destination is None,
            c.mode == Mode::Select,
            c.tic == 100,
            !c.harmed,
    {
        GameCell {
            px: x as i64 * 1000,
            py: y as i64 * 1000,
            symbol,
            color,
            selected: false,
            destination: None,
            mode: Mode::Select,
            tic: 100,
            harmed: false,
        }
    }

    pub fn move_pos(&mut self, point: Point, mode: Mode)
        ensures
            *final(self) == old(self).moved_to(point, mode),
    {
        self.mode = mode;
        self.destination = Some(point);
    }

    /// Heads one cell towards `other` in each axis, in attack mode, unless
    /// holding or already under way.
    pub fn move_towards(&mut self, other: Point)
        requires
            old(self).wf(),
        ensures
            *final(self) == old(self).towards(other),
    {
        if self.destination.is_none() && !self.is_holding() {
            let x = self.x();
            let y = self.y();
            let a: i32 = if x < other.x {
                1
            } else if x > other.x {
                -1
            } else {
                0
            };
            let b: i32 = if y < other.y {
                1
            } else if y > other.y {
                -1
            } else {
                0
            };
            self.destination = Some(Point::new(x + a, y + b));
            self.mode = Mode::Attack;
        }
    }

    pub fn move_to_attacker(&mut self, other: Point)
        ensures
            *final(self) == old(self).to_attacker(other),
    {
        if !self.is_holding() && !self.is_moving() {
            self.move_pos(other, Mode::Attack);
        }
    }

    pub fn stop_moving(&mut self)
        ensures
            *final(self) == old(self).stopped(),
    {
        if !self.is_holding() {
            self.mode = Mode::Select;
        }
        self.destination = None;
    }

    pub fn is_moving(&self) -> (r: bool)
        ensures
            r == self.moving(),
    {
        self.mode == Mode::Move
    }

    pub fn hold(&mut self)
        ensures
            *final(self) == old(self).held(),
    {
        self.mode = Mode::Hold;
        self.destination = None;
    }

    pub fn is_holding(&self) -> (r: bool)
        ensures
            r == self.holding(),
    {
        self.mode == Mode::Hold
    }

    pub fn x(&self) -> (r: i32)
        requires
            self.wf(),
        ensures
            r == self.cx(),
    {
        proof {
            lemma_cell_of_bounds(self.px as int);
        }
        round_to_cell(self.px)
    }

    pub fn y(&self) -> (r: i32)
        requires
            self.wf(),
        ensures
            r == self.cy(),
    {
        proof {
            lemma_cell_of_bounds(self.py as int);
        }
        round_to_cell(self.py)
    }

    pub fn point(&self) -> (r: Point)
        requires
            self.wf(),
        ensures
            r == self.at(),
            r.x == self.cx(),
            r.y == self.cy(),
    {
        Point::new(self.x(), self.y())
    }

    /// Advances the timers by `dt` milliseconds and moves the cell towards
    /// its destination at `speed` thousandths of a cell per second; without a
    /// destination the position settles on its cell.
    pub fn update(&mut self, dt: u32, speed: u32)
        requires
            old(self).wf(),
        ensures
            final(self).wf(),
            *final(self) == old(self).updated(dt, speed),
    {
        if self.tic > 600 {
            self.harmed = false;
        }
        if self.tic > 1000 {
            self.tic = 0;
            self.harmed = false;
        } else {
            self.tic = self.tic + dt as u64;
        }
        assert(*self == old(self).ticked(dt));
        assert(speed as u64 * dt as u64 <= 0xffff_ffff * 0xffff_ffffu64) by (nonlinear_arith);
        let s: u64 = speed as u64 * dt as u64 / 1000;
        assert(s < 0x80_0000_0000_0000);
        match self.destination {
            Some(d) => {
                let tx: i64 = d.x as i64 * 1000;
                let ty: i64 = d.y as i64 * 1000;
                let ex: i128 = tx as i128 - self.px as i128;
                let ey: i128 = ty as i128 - self.py as i128;
                assert(ex * ex <= 0x1_0000_0000_0000 * 0x1_0000_0000_0000) by (nonlinear_arith)
                    requires
                        -0x1_0000_0000_0000 <= ex <= 0x1_0000_0000_0000,
                ;
                assert(ey * ey <= 0x1_0000_0000_0000 * 0x1_0000_0000_0000) by (nonlinear_arith)
                    requires
                        -0x1_0000_0000_0000 <= ey <= 0x1_0000_0000_0000,
                ;
                assert(0 <= ex * ex) by (nonlinear_arith);
                assert(0 <= ey * ey) by (nonlinear_arith);
                let d2: u128 = (ex * ex + ey * ey) as u128;
                assert(d2 == self.dist2(d));
                let dist: u64 = isqrt(d2);
                if dist > 0 {
                    let nx = step_axis(self.px, tx, dist, s);
                    let ny = step_axis(self.py, ty, dist, s);
                    self.px = clamp_to_field(nx);
                    self.py = clamp_to_field(ny);
                }
                let cx = self.x() as i64;
                let cy = self.y() as i64;
                if d.x as i64 - 1 <= cx && cx <= d.x as i64 + 1 && d.y as i64 - 1 <= cy && cy
                    <= d.y as i64 + 1 {
                    self.stop_moving();
                }
            },
            None => {
                let x = self.x();
                let y = self.y();
                self.px = x as i64 * 1000;
                self.py = y as i64 * 1000;
            },
        }
    }

    /// Displaces the cell by compass direction `d` when at least 100 ms have
    /// passed on its timer, and restarts the timer.
    pub fn bump_with(&mut self, d: u8)
        requires
            old(self).wf(),
            d < 8,
        ensures
            final(self).wf(),
            *final(self) == old(self).bumped(d as int),
    {
        if self.tic >= 100 {
            let (a, b): (i64, i64) = if d == 0 {
                (0, -1)
            } else if d == 1 {
                (1, -1)
            } else if d == 2 {
                (1, 0)
            } else if d == 3 {
                (1, 1)
            } else if d == 4 {
                (0, 1)
            } else if d == 5 {
                (-1, 1)
            } else if d == 6 {
                (-1, 0)
            } else {
                (-1, -1)
            };
            self.px = clamp_to_field(self.px as i128 + a as i128 * 1000);
            self.py = clamp_to_field(self.py as i128 + b as i128 * 1000);
            self.tic = 0;
        }
    }

    /// Displaces the cell in one of the eight compass directions, chosen at
    /// random, when at least 100 ms have passed on its timer.
    pub fn bump(&mut self)
        requires
            old(self).wf(),
        ensures
            final(self).wf(),
            exists|d: int| 0 <= d < 8 && *final(self) == old(self).bumped(d),
    {
        let d = random_below(8);
        self.bump_with(d);
    }

    /// The box covering `r + 1` cells around the occupied cell in each direction.
    pub fn range_rect(&self, r: u32) -> (b: Rect)
        requires
            self.wf(),
        ensures
            b == self.range_box(r),
            forall|x: int, y: int|
                b.contains(x, y) <==> (self.cx() - r - 1 <= x <= self.cx() + r + 1 && self.cy()
                    - r - 1 <= y <= self.cy() + r + 1),
    {
        let r: i64 = r as i64 + 1;
        let x = self.x() as i64;
        let y = self.y() as i64;
        Rect::with_exact(x - r, y - r, x + r + 1, y + r + 1)
    }

    pub fn select(&mut self)
        ensures
            *final(self) == (GameCell { selected: true, ..*old(self) }),
    {
        self.selected = true;
    }

    pub fn deselect(&mut self)
        ensures
            *final(self) == (GameCell { selected: false, ..*old(self) }),
    {
        self.selected = false;
    }

    /// Marks the cell as just hit; it shows in alert color until the flag clears.
    pub fn set_harmed(&mut self)
        ensures
            *final(self) == old(self).with_harmed(),
    {
        self.harmed = true;
    }

    pub fn symbol(&self) -> (r: char)
        ensures
            r == self.symbol,
    {
        self.symbol
    }

    /// The base color, or red while harmed.
    pub fn color(&self) -> (r: Color)
        ensures
            r == (if self.harmed {
                Color { r: 255, g: 0, b: 0 }
            } else {
                self.color
            }),
    {
        if self.harmed {
            Color::new(255, 0, 0)
        } else {
            self.color
        }
    }

    pub fn color_bright(&self) -> (r: Color)
        ensures
            r == self.color.brightened_spec(),
    {
        self.color.brightened()
    }

    /// White behind a selected cell, black otherwise.
    pub fn bg_color(&self) -> (r: Color)
        ensures
            r == (if self.selected {
                Color { r: 255, g: 255, b: 255 }
            } else {
                Color { r: 0, g: 0, b: 0 }
            }),
    {
        if self.selected {
            Color::new(255, 255, 255)
        } else {
            Color::new(0, 0, 0)
        }
    }

    pub fn selected(&self) -> (r: bool)
        ensures
            r == self.selected,
    {
        self.selected
    }
}

/// Along one axis a step shorter than twice the distance ends no farther
/// from the target, and strictly nearer once it moves at least one unit.
proof fn lemma_axis_closer(p: int, t: int, dist: int, s: int)
    requires
        0 < dist,
        0 <= s < 2 * dist,
    ensures
        (t - axis_step(p, t, dist, s)) * (t - axis_step(p, t, dist, s)) <= (t - p) * (t - p),
        ((t - p) * s >= dist || (p - t) * s >= dist) ==> (t - axis_step(p, t, dist, s)) * (t
            - axis_step(p, t, dist, s)) < (t - p) * (t - p),
{
    let a = if t >= p {
        t - p
    } else {
        p - t
    };
    let q = a * s / dist;
    assert(0 <= q <= 2 * a) by (nonlinear_arith)
        requires
            0 <= a,
            0 <= s < 2 * dist,
            q == a * s / dist,
    ;
    if a > 0 {
        assert(q < 2 * a) by (nonlinear_arith)
            requires
                0 < a,
                0 <= s < 2 * dist,
                q == a * s / dist,
        ;
    }
    let v = axis_step(p, t, dist, s);
    assert(t - v == a - q || t - v == q - a);
    assert((t - v) * (t - v) == (a - q) * (a - q)) by (nonlinear_arith)
        requires
            t - v == a - q || t - v == q - a,
    ;
    assert((a - q) * (a - q) <= a * a) by (nonlinear_arith)
        requires
            0 <= q <= 2 * a,
    ;
    assert(a * a == (t - p) * (t - p)) by (nonlinear_arith)
        requires
            a == t - p || a == p - t,
    ;
    if (t - p) * s >= dist || (p - t) * s >= dist {
        assert(a * s >= dist) by (nonlinear_arith)
            requires
                (t - p) * s >= dist || (p - t) * s >= dist,
                a == t - p || a == p - t,
                a >= 0,
                0 <= s,
                0 < dist,
        ;
        assert(q >= 1) by (nonlinear_arith)
            requires
                a * s >= dist,
                0 < dist,
                q == a * s / dist,
        ;
        assert((a - q) * (a - q) < a * a) by (nonlinear_arith)
            requires
                1 <= q < 2 * a,
        ;
    }
}

/// Limiting a coordinate to the battlefield never takes it farther from a
/// target on the battlefield.
proof fn lemma_clamp_closer(t: int, v: int)
    requires
        FIELD_LO <= t <= FIELD_HI,
    ensures
        (t - clamp_field(v)) * (t - clamp_field(v)) <= (t - v) * (t - v),
{
    let c = clamp_field(v);
    assert((t - c) * (t - c) <= (t - v) * (t - v)) by (nonlinear_arith)
        requires
            (v <= c <= t) || (t <= c <= v) || c == v,
    ;
}

/// The way to the destination after one update, next to the way before.
proof fn lemma_update_distance(c: GameCell, dt: u32, speed: u32)
    requires
        c.wf(),
        c.destination is Some,
        c.dist2(c.destination->0) == 0 || travel(speed, dt) < 2 * root(c.dist2(c.destination->0)),
    ensures
        ({
            let d = c.destination->0;
            let u = c.updated(dt, speed);
            &&& u.dist2(d) <= c.dist2(d)
            &&& (travel(speed, dt) >= 2 && c.dist2(d) > 0) ==> u.dist2(d) < c.dist2(d)
            &&& u.destination is None <==> u.in_window(d)
            &&& u.destination is Some ==> u.destination == c.destination
        }),
{
    let d = c.destination->0;
    let t = c.ticked(dt);
    let s = travel(speed, dt);
    assert(0 <= s) by (nonlinear_arith)
        requires
            s == speed as int * dt as int / 1000,
            0 <= speed,
            0 <= dt,
    ;
    let tx = d.x * 1000;
    let ty = d.y * 1000;
    let ex = tx - c.px;
    let ey = ty - c.py;
    let n = c.dist2(d);
    assert(0 <= ex * ex && 0 <= ey * ey) by (nonlinear_arith);
    assert(n == ex * ex + ey * ey);
    lemma_root_exists(n);
    let dist = root(n) as int;
    let a = t.advanced(d, s);
    let u = c.updated(dt, speed);
    assert(u.px == a.px && u.py == a.py);
    if n == 0 {
        assert(dist == 0) by (nonlinear_arith)
            requires
                dist * dist <= n,
                n == 0,
                dist >= 0,
        ;
    }
    if dist == 0 {
        assert(n == 0) by (nonlinear_arith)
            requires
                n < (dist + 1) * (dist + 1),
                dist == 0,
        ;
        assert(a.px == c.px && a.py == c.py);
    } else {
        let vx = axis_step(c.px as int, tx, dist, s);
        let vy = axis_step(c.py as int, ty, dist, s);
        lemma_axis_closer(c.px as int, tx, dist, s);
        lemma_axis_closer(c.py as int, ty, dist, s);
        lemma_clamp_closer(tx, vx);
        lemma_clamp_closer(ty, vy);
        let fx = tx - a.px;
        let fy = ty - a.py;
        assert(0 <= fx * fx && 0 <= fy * fy) by (nonlinear_arith);
        if s >= 2 && n > 0 {
            let m = if ex * ex >= ey * ey {
                if ex >= 0 {
                    ex
                } else {
                    -ex
                }
            } else {
                if ey >= 0 {
                    ey
                } else {
                    -ey
                }
            };
            if ex * ex >= ey * ey {
                assert(m * m == ex * ex) by (nonlinear_arith)
                    requires
                        m == ex || m == -ex,
                ;
            } else {
                assert(m * m == ey * ey) by (nonlinear_arith)
                    requires
                        m == ey || m == -ey,
                ;
            }
            assert(dist <= m * s) by (nonlinear_arith)
                requires
                    dist * dist <= ex * ex + ey * ey,
                    m * m >= ex * ex,
                    m * m >= ey * ey,
                    m >= 0,
                    s >= 2,
                    dist >= 0,
            ;
            assert(fx * fx + fy * fy < ex * ex + ey * ey);
        }
    }
}

/// Moving towards a destination with a step shorter than twice the way
/// left never takes a cell farther from it, and the destination is dropped
/// exactly when the cell reached lies in the 3x3 block around it.
pub proof fn lemma_update_approaches(c: GameCell, dt: u32, speed: u32)
    requires
        c.wf(),
        c.destination is Some,
        c.dist2(c.destination->0) == 0 || travel(speed, dt) < 2 * root(c.dist2(c.destination->0)),
    ensures
        ({
            let d = c.destination->0;
            let u = c.updated(dt, speed);
            &&& u.dist2(d) <= c.dist2(d)
            &&& u.destination is None <==> u.in_window(d)
            &&& u.destination is Some ==> u.destination == c.destination
        }),
{
    lemma_update_distance(c, dt, speed);
}

/// With a step of at least two thousandths of a cell and shorter than
/// twice the way left, every update strictly shortens the way to the
/// destination.
pub proof fn lemma_update_strictly_approaches(c: GameCell, dt: u32, speed: u32)
    requires
        c.wf(),
        c.destination is Some,
        travel(speed, dt) >= 2,
        travel(speed, dt) < 2 * root(c.dist2(c.destination->0)),
        c.dist2(c.destination->0) > 0,
    ensures
        c.updated(dt, speed).dist2(c.destination->0) < c.dist2(c.destination->0),
{
    lemma_update_distance(c, dt, speed);
}

/// An update on a cell whose timer is past 600 ms clears the harmed flag,
/// and no update raises it.
pub proof fn lemma_harmed_clears(c: GameCell, dt: u32, speed: u32)
    ensures
        c.tic > 600 ==> !c.updated(dt, speed).harmed,
        !c.harmed ==> !c.updated(dt, speed).harmed,
{
}

/// The cell after one update of each length in `dts`, in order.
pub open spec fn updated_by(c: GameCell, dts: Seq<u32>, speed: u32) -> GameCell
    decreases dts.len(),
{
    if dts.len() == 0 {
        c
    } else {
        updated_by(c.updated(dts[0], speed), dts.subrange(1, dts.len() as int), speed)
    }
}

/// Total of the lengths in `dts`.
pub open spec fn total(dts: Seq<u32>) -> int
    decreases dts.len(),
{
    if dts.len() == 0 {
        0
    } else {
        dts[0] + total(dts.subrange(1, dts.len() as int))
    }
}

/// Movement leaves the timer and the harmed flag as the timer step set them.
proof fn lemma_update_timer(c: GameCell, dt: u32, speed: u32)
    ensures
        c.updated(dt, speed).tic == c.ticked(dt).tic,
        c.updated(dt, speed).harmed == c.ticked(dt).harmed,
{
    let t = c.ticked(dt);
    match t.destination {
        Some(d) => {
            let a = t.advanced(d, travel(speed, dt));
            assert(a.tic == t.tic && a.harmed == t.harmed);
        },
        None => {},
    }
}

proof fn lemma_still_harmed(c: GameCell, dts: Seq<u32>, speed: u32)
    requires
        dts.len() >= 1,
        updated_by(c, dts, speed).harmed,
    ensures
        c.harmed,
        c.tic + total(dts.subrange(0, dts.len() - 1)) <= 600,
    decreases dts.len(),
{
    let c1 = c.updated(dts[0], speed);
    let rest = dts.subrange(1, dts.len() as int);
    lemma_update_timer(c, dts[0], speed);
    assert(updated_by(c, dts, speed) == updated_by(c1, rest, speed));
    if dts.len() == 1 {
        assert(rest.len() == 0);
        assert(updated_by(c1, rest, speed) == c1);
        assert(dts.subrange(0, 0).len() == 0);
        assert(total(dts.subrange(0, 0)) == 0);
    } else {
        lemma_still_harmed(c1, rest, speed);
        let head = dts.subrange(0, dts.len() - 1);
        assert(head[0] == dts[0]);
        assert(head.subrange(1, head.len() as int) =~= rest.subrange(0, rest.len() - 1));
        assert(total(head) == dts[0] + total(rest.subrange(0, rest.len() - 1)));
    }
}

/// Once the updates before the last add up to more than 600 ms, the harmed
/// flag is clear, whatever the timer stood at when it was set.
pub proof fn lemma_harmed_clears_over_time(c: GameCell, dts: Seq<u32>, speed: u32)
    requires
        dts.len() >= 1,
        total(dts.subrange(0, dts.len() - 1)) > 600,
    ensures
        !updated_by(c, dts, speed).harmed,
{
    if updated_by(c, dts, speed).harmed {
        lemma_still_harmed(c, dts, speed);
    }
}

} // verus!
