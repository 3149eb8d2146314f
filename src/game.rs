use vstd::prelude::*;

use crate::gamecell::GameCell;
use crate::geometry::{Point, Rect};
use crate::world::{
    Entity, World, advanced_all, cells_wf, first_at, grouped, held_all, in_area, ordered_all,
    selected_in, selected_kind, stopped_all, ticked,
};
use crate::types::{Color, Mode, Race, UnitKind};
use crate::unit::{Unit, DEFAULT_SPEED};

verus! {

/// The screen the game is on.
#[derive(Clone, Copy, Debug, PartialEq, Eq, Structural)]
pub enum CurrentState {
    Menu,
    Playing,
    Quitting,
}

/// A direction to scroll the view in.
#[derive(Clone, Copy, Debug, PartialEq, Eq, Structural)]
pub enum Direction {
    N,
    S,
    E,
    W,
}

/// The view's offset from battlefield to screen coordinates, kept within
/// the bounds of the map.
#[derive(Clone, Copy, Debug, PartialEq, Eq, Structural)]
pub struct Camera {
    pub x: i32,
    pub y: i32,
    pub lower_x: i32,
    pub upper_x: i32,
    pub lower_y: i32,
    pub upper_y: i32,
}

/// `v` limited to `[lo, hi]`, the lower bound checked first.
pub open spec fn clamp_to(v: int, lo: int, hi: int) -> int {
    if v < lo {
        lo
    } else if v > hi {
        hi
    } else {
        v
    }
}

impl Camera {
    pub fn new(lower_x: i32, upper_x: i32, lower_y: i32, upper_y: i32) -> (c: Camera)
        ensures
            c == (Camera { x: 0, y: 0, lower_x, upper_x, lower_y, upper_y }),
    {
        Camera { x: 0, y: 0, lower_x, upper_x, lower_y, upper_y }
    }

    /// Moves the view one cell in direction `d`, unless the map's bound in
    /// that direction is reached.
    pub fn scroll(&mut self, d: Direction)
        ensures
            *final(self) == match d {
                Direction::N => if old(self).y < old(self).upper_y {
                    Camera { y: (old(self).y + 1) as i32, ..*old(self) }
                } else {
                    *old(self)
                },
                Direction::S => if old(self).y > old(self).lower_y {
                    Camera { y: (old(self).y - 1) as i32, ..*old(self) }
                } else {
                    *old(self)
                },
                Direction::E => if old(self).x > old(self).lower_x {
                    Camera { x: (old(self).x - 1) as i32, ..*old(self) }
                } else {
                    *old(self)
                },
                Direction::W => if old(self).x < old(self).upper_x {
                    Camera { x: (old(self).x + 1) as i32, ..*old(self) }
                } else {
                    *old(self)
                },
            },
    {
        match d {
            Direction::N => {
                if self.y < self.upper_y {
                    self.y = self.y + 1;
                }
            },
            Direction::S => {
                if self.y > self.lower_y {
                    self.y = self.y - 1;
                }
            },
            Direction::E => {
                if self.x > self.lower_x {
                    self.x = self.x - 1;
                }
            },
            Direction::W => {
                if self.x < self.upper_x {
                    self.x = self.x + 1;
                }
            },
        }
    }

    /// Centers the view on cell `(cx, cy)` of a `w` by `h` screen, as far as
    /// the map's bounds allow.
    pub fn focus(&mut self, cx: i32, cy: i32, w: u32, h: u32)
        ensures
            final(self).x == clamp_to(-cx + w as int / 2, old(self).lower_x as int, old(self).upper_x as int),
            final(self).y == clamp_to(-cy + h as int / 2, old(self).lower_y as int, old(self).upper_y as int),
            final(self).lower_x == old(self).lower_x,
            final(self).upper_x == old(self).upper_x,
            final(self).lower_y == old(self).lower_y,
            final(self).upper_y == old(self).upper_y,
    {
        let x: i64 = -(cx as i64) + (w / 2) as i64;
        let y: i64 = -(cy as i64) + (h / 2) as i64;
        self.x = if x < self.lower_x as i64 {
            self.lower_x
        } else if x > self.upper_x as i64 {
            self.upper_x
        } else {
            x as i32
        };
        self.y = if y < self.lower_y as i64 {
            self.lower_y
        } else if y > self.upper_y as i64 {
            self.upper_y
        } else {
            y as i32
        };
    }
}

pub open spec fn blademaster() -> Unit {
    Unit {
        race: Race::Bionic,
        kind: UnitKind::Blademaster,
        hp: 30,
        damage: Some(5),
        min_range: 0,
        max_range: 0,
        speed: 14_500,
        tic: 0,
    }
}

pub open spec fn strider() -> Unit {
    Unit {
        race: Race::Bionic,
        kind: UnitKind::Strider,
        hp: 40,
        damage: Some(5),
        min_range: 10,
        max_range: 13,
        speed: DEFAULT_SPEED,
        tic: 0,
    }
}

pub open spec fn flesh_spider() -> Unit {
    Unit {
        race: Race::Bug,
        kind: UnitKind::FleshSpider,
        hp: 15,
        damage: None,
        min_range: 0,
        max_range: 0,
        speed: DEFAULT_SPEED,
        tic: 0,
    }
}

pub open spec fn trooper() -> Unit {
    Unit {
        race: Race::Alien,
        kind: UnitKind::Trooper,
        hp: 20,
        damage: Some(2),
        min_range: 5,
        max_range: 8,
        speed: 10_500,
        tic: 0,
    }
}

/// Entry `k` of the opening army: twenty pairs of a Bionic blademaster and
/// a Bionic strider in two staggered columns, five ranks of twenty Bug
/// flesh spiders, and a row of five Alien troopers.
pub open spec fn army_entry(k: int) -> (GameCell, Unit) {
    if k < 40 {
        let row = k / 2;
        if k % 2 == 0 {
            (GameCell::fresh(10 - row % 2, row + 5, 'V', Color { r: 0, g: 170, b: 0 }), blademaster())
        } else {
            (GameCell::fresh(7 - row % 2, row + 5, 'Y', Color { r: 0, g: 120, b: 0 }), strider())
        }
    } else if k < 140 {
        (GameCell::fresh(45, 5 + (k - 40) % 20, '*', Color { r: 170, g: 30, b: 0 }), flesh_spider())
    } else {
        (GameCell::fresh(25 + (k - 140), 35, 'T', Color { r: 0, g: 0, b: 255 }), trooper())
    }
}

/// The opening army, 145 units, entry `k` being `army_entry(k)`.
pub fn starting_army() -> (units: Vec<(GameCell, Unit)>)
    ensures
        units@.len() == 145,
        forall|k: int| 0 <= k < units@.len() ==> (#[trigger] units@[k]).0.wf(),
        forall|k: int| 0 <= k < units@.len() ==> #[trigger] units@[k] == army_entry(k),
{
    let mut units: Vec<(GameCell, Unit)> = Vec::new();
    let mut x: i32 = 0;
    while x < 20
        invariant
            0 <= x <= 20,
            units@.len() == 2 * x,
            forall|q: int| 0 <= q < units@.len() ==> (#[trigger] units@[q]).0.wf(),
            forall|q: int| 0 <= q < units@.len() ==> #[trigger] units@[q] == army_entry(q),
        decreases 20 - x,
    {
        let odd: i32 = x % 2;
        assert((2 * x) / 2 == x && (2 * x) % 2 == 0 && (2 * x + 1) / 2 == x && (2 * x + 1) % 2
            == 1);
        units.push(
            (
                GameCell::new(10 - odd, x + 5, 'V', Color::new(0, 170, 0)),
                Unit::new(Race::Bionic, UnitKind::Blademaster, 30).with_damage(5).with_speed(14_500),
            ),
        );
        units.push(
            (
                GameCell::new(7 - odd, x + 5, 'Y', Color::new(0, 120, 0)),
                Unit::new(Race::Bionic, UnitKind::Strider, 40).with_damage(5).with_range(10, 13),
            ),
        );
        x = x + 1;
    }
    let mut k: i32 = 0;
    while k < 100
        invariant
            0 <= k <= 100,
            units@.len() == 40 + k,
            forall|q: int| 0 <= q < units@.len() ==> (#[trigger] units@[q]).0.wf(),
            forall|q: int| 0 <= q < units@.len() ==> #[trigger] units@[q] == army_entry(q),
        decreases 100 - k,
    {
        units.push(
            (
                GameCell::new(45, 5 + k % 20, '*', Color::new(170, 30, 0)),
                Unit::new(Race::Bug, UnitKind::FleshSpider, 15),
            ),
        );
        k = k + 1;
    }
    let mut x: i32 = 0;
    while x < 5
        invariant
            0 <= x <= 5,
            units@.len() == 140 + x,
            forall|q: int| 0 <= q < units@.len() ==> (#[trigger] units@[q]).0.wf(),
            forall|q: int| 0 <= q < units@.len() ==> #[trigger] units@[q] == army_entry(q),
        decreases 5 - x,
    {
        units.push(
            (
                GameCell::new(25 + x, 35, 'T', Color::new(0, 0, 255)),
                Unit::new(Race::Alien, UnitKind::Trooper, 20).with_damage(2).with_range(5, 8).with_speed(
                    10_500,
                ),
            ),
        );
        x = x + 1;
    }
    units
}

/// The last selected entity of `s`.
pub open spec fn last_selected(s: Seq<Entity>) -> Option<int>
    decreases s.len(),
{
    if s.len() == 0 {
        None
    } else if s.last().cell.selected {
        Some(s.len() - 1)
    } else {
        last_selected(s.drop_last())
    }
}

/// The battlefield box under the screen box with corners `(x1, y1)` and
/// `(x2, y2)`, both included, seen through `cam`.
pub open spec fn screen_box(cam: Camera, x1: i32, y1: i32, x2: i32, y2: i32) -> Rect {
    let lx: int = if x1 <= x2 {
        x1 as int
    } else {
        x2 as int
    };
    let ly: int = if y1 <= y2 {
        y1 as int
    } else {
        y2 as int
    };
    let hx: int = if x1 <= x2 {
        x2 as int
    } else {
        x1 as int
    };
    let hy: int = if y1 <= y2 {
        y2 as int
    } else {
        y1 as int
    };
    Rect {
        x1: (lx - cam.x) as i64,
        y1: (ly - cam.y) as i64,
        x2: (hx - cam.x + 1) as i64,
        y2: (hy - cam.y + 1) as i64,
    }
}

/// The battlefield box shown strictly inside the screen edges.
pub open spec fn view_box(cam: Camera, w: u32, h: u32) -> Rect {
    Rect {
        x1: (1 - cam.x) as i64,
        y1: (1 - cam.y) as i64,
        x2: (w - cam.x) as i64,
        y2: (h - cam.y) as i64,
    }
}

/// The game: the screen it is on, the battlefield, the view, the input mode
/// and the player's selection.
pub struct State {
    pub curr_state: CurrentState,
    pub world: World,
    pub window_size: (u32, u32),
    /// Frame counter for the blinking cursor, from 0 to 99.
    pub tic: u8,
    /// Length of the last frame, in milliseconds.
    pub dt: u32,
    pub camera: Camera,
    pub mode: Mode,
    pub selected: Vec<u64>,
    pub supply: (i32, i32),
}

impl State {
    pub open spec fn wf(self) -> bool {
        self.world.wf() && self.tic <= 99
    }

    /// The screen, the frame counters and the supply agree.
    pub open spec fn same_frame(self, other: State) -> bool {
        &&& self.curr_state == other.curr_state
        &&& self.window_size == other.window_size
        &&& self.tic == other.tic
        &&& self.dt == other.dt
        &&& self.supply == other.supply
    }

    /// A game on the menu screen, with the opening army on a 100 by 100 map.
    pub fn new(w: u32, h: u32) -> (s: State)
        ensures
            s.wf(),
            s.curr_state == CurrentState::Menu,
            s.world.entities@.len() == 145,
            s.world.next_id == 145,
            forall|k: int|
                0 <= k < 145 ==> {
                    &&& #[trigger] s.world.entities@[k].id == k
                    &&& s.world.entities@[k].cell == army_entry(k).0
                    &&& s.world.entities@[k].unit == army_entry(k).1
                },
            s.window_size == (w, h),
            s.tic == 0,
            s.dt == 16,
            s.camera == (Camera { x: 0, y: 0, lower_x: -100i32, upper_x: 0, lower_y: -100i32, upper_y: 0 }),
            s.mode == Mode::Select,
            s.selected@.len() == 0,
            s.supply == (0i32, 99i32),
    {
        let mut world = World::new();
        let army = starting_army();
        let ghost entries = army@;
        world.extend(army);
        assert forall|k: int| 0 <= k < 145 implies {
            &&& #[trigger] world.entities@[k].id == k
            &&& world.entities@[k].cell == army_entry(k).0
            &&& world.entities@[k].unit == army_entry(k).1
        } by {
            assert(world.entities@[0 + k].id == 0 + k);
            assert(entries[k] == army_entry(k));
        }
        State {
            curr_state: CurrentState::Menu,
            world,
            window_size: (w, h),
            tic: 0,
            dt: 16,
            camera: Camera::new(-100, 0, -100, 0),
            mode: Mode::Select,
            selected: Vec::new(),
            supply: (0, 99),
        }
    }

    pub fn mode(&self) -> (r: Mode)
        ensures
            r == self.mode,
    {
        self.mode
    }

    pub fn set_mode(&mut self, mode: Mode)
        ensures
            final(self).mode == mode,
            final(self).world == old(self).world,
            final(self).selected == old(self).selected,
            final(self).tic == old(self).tic,
            final(self).same_frame(*old(self)),
            final(self).camera == old(self).camera,
    {
        self.mode = mode;
    }

    /// Advances the frame counter by four, wrapping past 99 to 0.
    pub fn advance_tic(&mut self)
        requires
            old(self).wf(),
        ensures
            final(self).wf(),
            final(self).tic == if old(self).tic + 4 > 99 {
                0
            } else {
                old(self).tic + 4
            },
            final(self).world == old(self).world,
            final(self).curr_state == old(self).curr_state,
            final(self).camera == old(self).camera,
            final(self).mode == old(self).mode,
            final(self).selected@ == old(self).selected@,
    {
        self.tic = self.tic + 4;
        if self.tic > 99 {
            self.tic = 0;
        }
    }

    /// One frame of the simulation: a tick, then every entity advanced by
    /// the frame's length.
    pub fn frame(&mut self)
        requires
            old(self).wf(),
        ensures
            final(self).wf(),
            final(self).dt == old(self).dt,
            final(self).selected == old(self).selected,
            exists|dirs: Seq<u8>|
                dirs.len() == old(self).world.entities@.len() && (forall|i: int|
                    0 <= i < dirs.len() ==> #[trigger] dirs[i] < 8) && final(self).world.entities@
                    == advanced_all(ticked(old(self).world.entities@, dirs), old(self).dt),
            final(self).curr_state == old(self).curr_state,
            final(self).tic == old(self).tic,
            final(self).camera == old(self).camera,
            final(self).mode == old(self).mode,
    {
        self.world.tick();
        self.world.update_cells(self.dt);
    }

    /// Orders the selected entities to the cell under screen position
    /// `(mx, my)`.
    pub fn move_cells(&mut self, mx: i32, my: i32, mode: Mode)
        requires
            old(self).wf(),
            i32::MIN <= mx - old(self).camera.x <= i32::MAX,
            i32::MIN <= my - old(self).camera.y <= i32::MAX,
        ensures
            final(self).wf(),
            final(self).world.entities@ == ordered_all(
                old(self).world.entities@,
                Point { x: (mx - old(self).camera.x) as i32, y: (my - old(self).camera.y) as i32 },
                mode,
            ),
            final(self).selected == old(self).selected,
            final(self).same_frame(*old(self)),
            final(self).camera == old(self).camera,
            final(self).mode == old(self).mode,
    {
        let p = Point::new(mx - self.camera.x, my - self.camera.y);
        self.world.move_selected(p, mode);
    }

    pub fn stop_cells(&mut self)
        requires
            old(self).wf(),
        ensures
            final(self).wf(),
            final(self).world.entities@ == stopped_all(old(self).world.entities@),
            final(self).same_frame(*old(self)),
            final(self).camera == old(self).camera,
            final(self).mode == old(self).mode,
            final(self).selected@ == old(self).selected@,
    {
        self.world.stop_selected();
    }

    pub fn hold_cells(&mut self)
        requires
            old(self).wf(),
        ensures
            final(self).wf(),
            final(self).world.entities@ == held_all(old(self).world.entities@),
            final(self).same_frame(*old(self)),
            final(self).camera == old(self).camera,
            final(self).mode == old(self).mode,
            final(self).selected@ == old(self).selected@,
    {
        self.world.hold_selected();
    }

    /// Makes `group` the selection.
    pub fn load_ctrl_group(&mut self, group: Vec<u64>)
        requires
            old(self).wf(),
        ensures
            final(self).wf(),
            final(self).world.entities@ == grouped(old(self).world.entities@, group@),
            final(self).selected@ == group@,
            final(self).same_frame(*old(self)),
            final(self).camera == old(self).camera,
            final(self).mode == old(self).mode,
    {
        self.world.select_group(&group);
        self.selected = group;
    }

    /// Selects what lies under the screen box with corners `(x1, y1)` and
    /// `(x2, y2)`, adding to the selection when `add`, and returns to
    /// select mode.
    pub fn select_cells(&mut self, x1: i32, y1: i32, x2: i32, y2: i32, add: bool)
        requires
            old(self).wf(),
        ensures
            final(self).wf(),
            final(self).mode == Mode::Select,
            ({
                let area = screen_box(old(self).camera, x1, y1, x2, y2);
                &&& final(self).world.entities@ == selected_in(old(self).world.entities@, area, add)
                &&& add ==> final(self).selected@.subrange(0, old(self).selected@.len() as int)
                    == old(self).selected@
                &&& forall|id: u64|
                    #![trigger final(self).selected@.contains(id)]
                    final(self).selected@.contains(id) <==> ((add && old(self).selected@.contains(id))
                        || exists|i: int|
                        0 <= i < old(self).world.entities@.len()
                            && old(self).world.entities@[i].id == id && in_area(
                            old(self).world.entities@[i],
                            area,
                        ))
            }),
            final(self).same_frame(*old(self)),
            final(self).camera == old(self).camera,
    {
        let lx: i64 = if x1 <= x2 { x1 as i64 } else { x2 as i64 };
        let ly: i64 = if y1 <= y2 { y1 as i64 } else { y2 as i64 };
        let hx: i64 = if x1 <= x2 { x2 as i64 } else { x1 as i64 };
        let hy: i64 = if y1 <= y2 { y2 as i64 } else { y1 as i64 };
        let area = Rect::with_exact(
            lx - self.camera.x as i64,
            ly - self.camera.y as i64,
            hx - self.camera.x as i64 + 1,
            hy - self.camera.y as i64 + 1,
        );
        let chosen = self.world.select_in(area, add);
        if add {
            let mut sel: Vec<u64> = Vec::new();
            std::mem::swap(&mut sel, &mut self.selected);
            let ghost before = sel@;
            let mut k: usize = 0;
            while k < chosen.len()
                invariant
                    k <= chosen@.len(),
                    sel@.len() == before.len() + k,
                    sel@.subrange(0, before.len() as int) == before,
                    forall|q: int| 0 <= q < k ==> sel@[before.len() + q] == chosen@[q],
                decreases chosen@.len() - k,
            {
                sel.push(chosen[k]);
                k = k + 1;
                assert(sel@.subrange(0, before.len() as int) =~= before);
            }
            proof {
                assert forall|id: u64|
                    #![trigger sel@.contains(id)]
                    sel@.contains(id) <==> (before.contains(id) || chosen@.contains(id)) by {
                    if sel@.contains(id) {
                        let j = choose|j: int| 0 <= j < sel@.len() && sel@[j] == id;
                        if j < before.len() {
                            assert(sel@.subrange(0, before.len() as int)[j] == id);
                        } else {
                            assert(chosen@[j - before.len()] == id);
                        }
                    }
                    if before.contains(id) {
                        let j = choose|j: int| 0 <= j < before.len() && before[j] == id;
                        assert(sel@.subrange(0, before.len() as int)[j] == id);
                    }
                    if chosen@.contains(id) {
                        let j = choose|j: int| 0 <= j < chosen@.len() && chosen@[j] == id;
                        assert(sel@[before.len() + j] == id);
                    }
                }
            }
            self.selected = sel;
        } else {
            self.selected = chosen;
        }
        self.mode = Mode::Select;
    }

    /// Selects, among the entities shown on screen, those of the class of
    /// the entity under screen position `(mx, my)`, and returns to select
    /// mode. With no entity there the selection is emptied and the
    /// battlefield is left as it is.
    pub fn select_same(&mut self, mx: i32, my: i32)
        requires
            old(self).wf(),
            i32::MIN <= mx - old(self).camera.x <= i32::MAX,
            i32::MIN <= my - old(self).camera.y <= i32::MAX,
        ensures
            final(self).wf(),
            final(self).mode == Mode::Select,
            ({
                let x = mx - old(self).camera.x;
                let y = my - old(self).camera.y;
                let area = view_box(old(self).camera, old(self).window_size.0, old(self).window_size.1);
                &&& first_at(old(self).world.entities@, x, y, 0) is None ==> final(self).world
                    == old(self).world && final(self).selected@.len() == 0
                &&& first_at(old(self).world.entities@, x, y, 0) matches Some(i) ==> {
                    let kind = old(self).world.entities@[i].unit.kind;
                    &&& final(self).world.entities@ == selected_kind(
                        old(self).world.entities@,
                        kind,
                        area,
                    )
                    &&& forall|id: u64|
                        final(self).selected@.contains(id) <==> exists|j: int|
                            0 <= j < old(self).world.entities@.len()
                                && old(self).world.entities@[j].id == id
                                && old(self).world.entities@[j].unit.kind == kind && in_area(
                                old(self).world.entities@[j],
                                area,
                            )
                }
            }),
            final(self).same_frame(*old(self)),
            final(self).camera == old(self).camera,
    {
        let area = Rect::with_exact(
            1 - self.camera.x as i64,
            1 - self.camera.y as i64,
            self.window_size.0 as i64 - self.camera.x as i64,
            self.window_size.1 as i64 - self.camera.y as i64,
        );
        self.selected = self.world.select_same(mx - self.camera.x, my - self.camera.y, area);
        self.mode = Mode::Select;
    }

    /// Centers the view on the last selected entity, if any.
    pub fn focus_cell(&mut self)
        requires
            old(self).wf(),
        ensures
            final(self).wf(),
            final(self).world == old(self).world,
            match last_selected(old(self).world.entities@) {
                Some(i) => {
                    let mut cam = old(self).camera;
                    &&& final(self).camera.x == clamp_to(
                        -old(self).world.entities@[i].cell.cx() + old(self).window_size.0 as int / 2,
                        cam.lower_x as int,
                        cam.upper_x as int,
                    )
                    &&& final(self).camera.y == clamp_to(
                        -old(self).world.entities@[i].cell.cy() + old(self).window_size.1 as int / 2,
                        cam.lower_y as int,
                        cam.upper_y as int,
                    )
                },
                None => final(self).camera == old(self).camera,
            },
            final(self).same_frame(*old(self)),
            final(self).mode == old(self).mode,
            final(self).selected@ == old(self).selected@,
    {
        let s = Ghost(self.world.entities@);
        let mut found: Option<usize> = None;
        let mut i: usize = 0;
        while i < self.world.entities.len()
            invariant
                s@ == self.world.entities@,
                i <= s@.len(),
                match found {
                    Some(j) => last_selected(s@.subrange(0, i as int)) == Some(j as int),
                    None => last_selected(s@.subrange(0, i as int)) is None,
                },
            decreases s@.len() - i,
        {
            assert(s@.subrange(0, i + 1).drop_last() =~= s@.subrange(0, i as int));
            if self.world.entities[i].cell.selected() {
                found = Some(i);
            }
            i = i + 1;
        }
        assert(s@.subrange(0, s@.len() as int) =~= s@);
        if let Some(j) = found {
            proof {
                lemma_last_selected(s@);
            }
            let c = self.world.entities[j].cell;
            assert(cells_wf(s@));
            let (w, h) = self.window_size;
            self.camera.focus(c.x(), c.y(), w, h);
        }
    }
}

proof fn lemma_last_selected(s: Seq<Entity>)
    ensures
        last_selected(s) matches Some(i) ==> 0 <= i < s.len(),
    decreases s.len(),
{
    if s.len() > 0 {
        lemma_last_selected(s.drop_last());
    }
}

} // verus!
