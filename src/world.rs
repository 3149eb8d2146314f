use vstd::prelude::*;

use crate::gamecell::{GameCell, offset, random_below};
use crate::geometry::{Point, Rect, FIELD_HI, FIELD_LO};
use crate::types::{Mode, UnitKind};
use crate::unit::{Unit, sat_sub};

verus! {

/// A simulated unit: an identity with its position/motion and combat state.
#[derive(Clone, Copy, Debug)]
pub struct Entity {
    pub id: u64,
    pub cell: GameCell,
    pub unit: Unit,
}

/// The entity store: live entities in order of creation.
pub struct World {
    pub entities: Vec<Entity>,
    pub next_id: u64,
}

/// Identities strictly increase along the store, all below `next`.
pub open spec fn ids_ordered(s: Seq<Entity>, next: u64) -> bool {
    &&& forall|i: int, j: int| 0 <= i < j < s.len() ==> s[i].id < s[j].id
    &&& forall|i: int| 0 <= i < s.len() ==> s[i].id < next
}

pub open spec fn cells_wf(s: Seq<Entity>) -> bool {
    forall|i: int| 0 <= i < s.len() ==> s[i].cell.wf()
}

pub open spec fn same_cell(a: GameCell, b: GameCell) -> bool {
    a.cx() == b.cx() && a.cy() == b.cy()
}

/// Another entity occupies the cell of entity `i`.
pub open spec fn coincident(s: Seq<Entity>, i: int) -> bool {
    exists|j: int| 0 <= j < s.len() && j != i && same_cell(s[j].cell, s[i].cell)
}

/// Entity `i` is due for a bump: it is not holding and shares its cell.
pub open spec fn marked(s: Seq<Entity>, i: int) -> bool {
    !s[i].cell.holding() && coincident(s, i)
}

/// The store after deconfliction, entity `i` bumped towards `dirs[i] % 8`.
pub open spec fn deconflicted(s: Seq<Entity>, dirs: Seq<u8>) -> Seq<Entity> {
    Seq::new(
        s.len(),
        |i: int|
            if marked(s, i) {
                Entity { cell: s[i].cell.bumped((dirs[i] % 8) as int), ..s[i] }
            } else {
                s[i]
            },
    )
}

/// Entity `j` is of another faction than entity `i` and its cell lies in
/// the box of radius `r` around entity `i`.
pub open spec fn hostile_in(s: Seq<Entity>, i: int, j: int, r: u32) -> bool {
    &&& s[i].unit.race != s[j].unit.race
    &&& s[i].cell.range_box(r).contains(s[j].cell.cx(), s[j].cell.cy())
}

/// The first entity from index `j` on that is hostile to `i` within radius `r`.
pub open spec fn first_hostile(s: Seq<Entity>, i: int, r: u32, j: int) -> Option<int>
    decreases s.len() - j,
{
    if j < 0 || j >= s.len() {
        None
    } else if hostile_in(s, i, j, r) {
        Some(j)
    } else {
        first_hostile(s, i, r, j + 1)
    }
}

/// The target of entity `i` this tick: the first hostile entity within its
/// attack radius, if it can deal damage.
pub open spec fn attack_target(s: Seq<Entity>, i: int) -> Option<int> {
    if s[i].unit.damage is Some {
        first_hostile(s, i, s[i].unit.attack_radius(), 0)
    } else {
        None
    }
}

/// Where entity `i` heads this tick: when it attacks nobody and is not
/// holding, the cell of the first hostile entity within its follow radius.
pub open spec fn pursuit(s: Seq<Entity>, i: int) -> Option<Point> {
    if attack_target(s, i) is None && !s[i].cell.holding() {
        match first_hostile(s, i, s[i].unit.follow_radius(), 0) {
            Some(j) => Some(s[j].cell.at()),
            None => None,
        }
    } else {
        None
    }
}

/// Entity `i` strikes entity `j` for `dmg`, having scanned from cell `pt`;
/// nothing happens while `i` is on a move order.
pub open spec fn strike(st: Seq<Entity>, i: int, j: int, dmg: i32, pt: Point) -> Seq<Entity> {
    if st[i].cell.moving() {
        st
    } else {
        let st1 = st.update(i, Entity { cell: st[i].cell.stopped(), unit: st[i].unit.rearmed(), ..st[i] });
        st1.update(
            j,
            Entity {
                cell: st1[j].cell.with_harmed().to_attacker(pt),
                unit: st1[j].unit.harmed_by(dmg),
                ..st1[j]
            },
        )
    }
}

/// The attacks scanned from `snap` by its first `k` entities, applied in order.
pub open spec fn attacks_applied(snap: Seq<Entity>, k: nat) -> Seq<Entity>
    decreases k,
{
    if k == 0 {
        snap
    } else {
        let st = attacks_applied(snap, (k - 1) as nat);
        match attack_target(snap, k - 1) {
            Some(j) => strike(st, k - 1, j, snap[k - 1].unit.damage->0, snap[k - 1].cell.at()),
            None => st,
        }
    }
}

/// The pursuits scanned from `snap` by its first `k` entities, applied in
/// order to `st0`.
pub open spec fn pursuits_applied(snap: Seq<Entity>, st0: Seq<Entity>, k: nat) -> Seq<Entity>
    decreases k,
{
    if k == 0 {
        st0
    } else {
        let st = pursuits_applied(snap, st0, (k - 1) as nat);
        match pursuit(snap, k - 1) {
            Some(p) => st.update(k - 1, Entity { cell: st[k - 1].cell.towards(p), ..st[k - 1] }),
            None => st,
        }
    }
}

/// The store after targeting and combat: every action is read from `s`,
/// then all attacks are applied, then all pursuits.
pub open spec fn fought(s: Seq<Entity>) -> Seq<Entity> {
    pursuits_applied(s, attacks_applied(s, s.len()), s.len())
}

pub proof fn lemma_first_hostile(s: Seq<Entity>, i: int, r: u32, j: int)
    ensures
        first_hostile(s, i, r, j) matches Some(x) ==> 0 <= j <= x < s.len() && hostile_in(
            s,
            i,
            x,
            r,
        ),
    decreases s.len() - j,
{
    if 0 <= j < s.len() && !hostile_in(s, i, j, r) {
        lemma_first_hostile(s, i, r, j + 1);
    }
}

/// The entities of `s` with positive hit points, in order.
pub open spec fn survivors(s: Seq<Entity>) -> Seq<Entity>
    decreases s.len(),
{
    if s.len() == 0 {
        s
    } else {
        let r = survivors(s.drop_last());
        if s.last().unit.hp > 0 {
            r.push(s.last())
        } else {
            r
        }
    }
}

/// One tick: deconfliction with jitter `dirs`, targeting and combat, then
/// removal of the dead.
pub open spec fn ticked(s: Seq<Entity>, dirs: Seq<u8>) -> Seq<Entity> {
    survivors(fought(deconflicted(s, dirs)))
}

/// Every survivor is an entity of `s` with positive hit points, and the
/// order of identities is kept.
pub proof fn lemma_survivors(s: Seq<Entity>, next: u64)
    ensures
        forall|k: int|
            0 <= k < survivors(s).len() ==> exists|i: int|
                0 <= i < s.len() && #[trigger] survivors(s)[k] == s[i],
        forall|k: int| 0 <= k < survivors(s).len() ==> #[trigger] survivors(s)[k].unit.hp > 0,
        ids_ordered(s, next) ==> ids_ordered(survivors(s), next),
        survivors(s).len() <= s.len(),
    decreases s.len(),
{
    if s.len() > 0 {
        let t = s.drop_last();
        lemma_survivors(t, next);
        let r = survivors(t);
        if s.last().unit.hp > 0 {
            assert forall|k: int| 0 <= k < survivors(s).len() implies exists|i: int|
                0 <= i < s.len() && #[trigger] survivors(s)[k] == s[i] by {
                if k < r.len() {
                    let i = choose|i: int| 0 <= i < t.len() && r[k] == t[i];
                    assert(survivors(s)[k] == s[i]);
                } else {
                    assert(survivors(s)[k] == s[s.len() - 1]);
                }
            }
            if ids_ordered(s, next) {
                assert(ids_ordered(t, next));
                assert forall|a: int, b: int| 0 <= a < b < survivors(s).len() implies survivors(
                    s,
                )[a].id < survivors(s)[b].id by {
                    if b == r.len() {
                        let i = choose|i: int| 0 <= i < t.len() && r[a] == t[i];
                        assert(s[i] == t[i]);
                    }
                }
                assert forall|a: int| 0 <= a < survivors(s).len() implies survivors(s)[a].id
                    < next by {
                    if a < r.len() {
                        let i = choose|i: int| 0 <= i < t.len() && r[a] == t[i];
                        assert(s[i] == t[i]);
                    }
                }
            }
        } else {
            assert forall|k: int| 0 <= k < survivors(s).len() implies exists|i: int|
                0 <= i < s.len() && #[trigger] survivors(s)[k] == s[i] by {
                let i = choose|i: int| 0 <= i < t.len() && r[k] == t[i];
                assert(s[i] == t[i]);
            }
            if ids_ordered(s, next) {
                assert(ids_ordered(t, next));
            }
        }
    }
}

/// The first entity from index `j` on whose cell is `(x, y)`.
pub open spec fn first_at(s: Seq<Entity>, x: int, y: int, j: int) -> Option<int>
    decreases s.len() - j,
{
    if j < 0 || j >= s.len() {
        None
    } else if s[j].cell.cx() == x && s[j].cell.cy() == y {
        Some(j)
    } else {
        first_at(s, x, y, j + 1)
    }
}

/// Every entity advanced by `dt` milliseconds at its unit's speed.
pub open spec fn advanced_all(s: Seq<Entity>, dt: u32) -> Seq<Entity> {
    Seq::new(
        s.len(),
        |i: int|
            Entity {
                cell: s[i].cell.updated(dt, s[i].unit.speed),
                unit: s[i].unit.ticked(dt),
                ..s[i]
            },
    )
}

/// Every selected entity ordered to `point` in `mode`.
pub open spec fn ordered_all(s: Seq<Entity>, point: Point, mode: Mode) -> Seq<Entity> {
    Seq::new(
        s.len(),
        |i: int|
            if s[i].cell.selected {
                Entity { cell: s[i].cell.moved_to(point, mode), ..s[i] }
            } else {
                s[i]
            },
    )
}

/// Every selected entity stopped.
pub open spec fn stopped_all(s: Seq<Entity>) -> Seq<Entity> {
    Seq::new(
        s.len(),
        |i: int|
            if s[i].cell.selected {
                Entity { cell: s[i].cell.stopped(), ..s[i] }
            } else {
                s[i]
            },
    )
}

/// Every selected entity put on hold.
pub open spec fn held_all(s: Seq<Entity>) -> Seq<Entity> {
    Seq::new(
        s.len(),
        |i: int|
            if s[i].cell.selected {
                Entity { cell: s[i].cell.held(), ..s[i] }
            } else {
                s[i]
            },
    )
}

/// Exactly the entities whose identity is in `ids` selected.
pub open spec fn grouped(s: Seq<Entity>, ids: Seq<u64>) -> Seq<Entity> {
    Seq::new(
        s.len(),
        |i: int| Entity { cell: GameCell { selected: ids.contains(s[i].id), ..s[i].cell }, ..s[i] },
    )
}

pub open spec fn in_area(e: Entity, area: Rect) -> bool {
    area.contains(e.cell.cx(), e.cell.cy())
}

/// The entity lies in `area` and, when `kind` is given, is of that class.
pub open spec fn picked(e: Entity, area: Rect, kind: Option<UnitKind>) -> bool {
    in_area(e, area) && (kind matches Some(k) ==> e.unit.kind == k)
}

/// The entities picked by `area` and `kind` selected; the others deselected
/// unless `add`.
pub open spec fn selected_where(s: Seq<Entity>, area: Rect, kind: Option<UnitKind>, add: bool) -> Seq<
    Entity,
> {
    Seq::new(
        s.len(),
        |i: int|
            Entity {
                cell: GameCell {
                    selected: if picked(s[i], area, kind) {
                        true
                    } else if add {
                        s[i].cell.selected
                    } else {
                        false
                    },
                    ..s[i].cell
                },
                ..s[i]
            },
    )
}

/// The entities in `area` selected; the others deselected unless `add`.
pub open spec fn selected_in(s: Seq<Entity>, area: Rect, add: bool) -> Seq<Entity> {
    selected_where(s, area, None, add)
}

/// Exactly the entities of class `kind` in `area` selected.
pub open spec fn selected_kind(s: Seq<Entity>, kind: UnitKind, area: Rect) -> Seq<Entity> {
    selected_where(s, area, Some(kind), false)
}

impl World {
    pub open spec fn wf(self) -> bool {
        ids_ordered(self.entities@, self.next_id) && cells_wf(self.entities@)
    }

    pub fn new() -> (w: World)
        ensures
            w.wf(),
            w.entities@.len() == 0,
            w.next_id == 0,
    {
        World { entities: Vec::new(), next_id: 0 }
    }

    pub fn len(&self) -> (r: usize)
        ensures
            r == self.entities@.len(),
    {
        self.entities.len()
    }

    /// Adds one entity per pair, in order, and returns their identities.
    pub fn extend(&mut self, units: Vec<(GameCell, Unit)>) -> (ids: Vec<u64>)
        requires
            old(self).wf(),
            forall|k: int| 0 <= k < units@.len() ==> (#[trigger] units@[k]).0.wf(),
            old(self).next_id + units@.len() <= u64::MAX,
        ensures
            final(self).wf(),
            final(self).next_id == old(self).next_id + units@.len(),
            ids@.len() == units@.len(),
            final(self).entities@.len() == old(self).entities@.len() + units@.len(),
            final(self).entities@.subrange(0, old(self).entities@.len() as int)
                == old(self).entities@,
            forall|k: int|
                0 <= k < units@.len() ==> {
                    &&& ids@[k] == old(self).next_id + k
                    &&& #[trigger] final(self).entities@[old(self).entities@.len() + k] == (Entity {
                        id: (old(self).next_id + k) as u64,
                        cell: units@[k].0,
                        unit: units@[k].1,
                    })
                },
    {
        let mut ids: Vec<u64> = Vec::new();
        let n0 = self.entities.len();
        let mut k: usize = 0;
        while k < units.len()
            invariant
                k <= units@.len(),
                forall|q: int| 0 <= q < units@.len() ==> (#[trigger] units@[q]).0.wf(),
                old(self).next_id + units@.len() <= u64::MAX,
                n0 == old(self).entities@.len(),
                self.wf(),
                self.next_id == old(self).next_id + k,
                ids@.len() == k,
                self.entities@.len() == n0 + k,
                self.entities@.subrange(0, n0 as int) == old(self).entities@,
                forall|q: int|
                    0 <= q < k ==> {
                        &&& ids@[q] == old(self).next_id + q
                        &&& #[trigger] self.entities@[n0 + q] == (Entity {
                            id: (old(self).next_id + q) as u64,
                            cell: units@[q].0,
                            unit: units@[q].1,
                        })
                    },
            decreases units@.len() - k,
        {
            let (cell, unit) = units[k];
            let id = self.next_id;
            self.entities.push(Entity { id, cell, unit });
            ids.push(id);
            self.next_id = id + 1;
            k = k + 1;
            assert(self.entities@.subrange(0, n0 as int) =~= old(self).entities@);
        }
        ids
    }

    /// The entity with identity `id`, if it is live.
    pub fn get(&self, id: u64) -> (r: Option<Entity>)
        requires
            self.wf(),
        ensures
            r is Some <==> exists|i: int| 0 <= i < self.entities@.len() && self.entities@[i].id == id,
            r is Some ==> exists|i: int|
                0 <= i < self.entities@.len() && self.entities@[i] == r->0 && r->0.id == id,
    {
        let mut i: usize = 0;
        while i < self.entities.len()
            invariant
                i <= self.entities@.len(),
                forall|q: int| 0 <= q < i ==> self.entities@[q].id != id,
            decreases self.entities@.len() - i,
        {
            if self.entities[i].id == id {
                return Some(self.entities[i]);
            }
            i = i + 1;
        }
        None
    }

    /// Whether entity `i` shares its cell with another entity.
    fn shares_cell(&self, i: usize) -> (r: bool)
        requires
            self.wf(),
            i < self.entities@.len(),
        ensures
            r == coincident(self.entities@, i as int),
    {
        let s = Ghost(self.entities@);
        let p = self.entities[i].cell.point();
        let mut j: usize = 0;
        while j < self.entities.len()
            invariant
                s@ == self.entities@,
                self.wf(),
                i < s@.len(),
                j <= s@.len(),
                p == s@[i as int].cell.at(),
                forall|q: int| 0 <= q < j && q != i ==> !same_cell(#[trigger] s@[q].cell, s@[i as int].cell),
            decreases s@.len() - j,
        {
            if j != i {
                let p2 = self.entities[j].cell.point();
                if p2.x == p.x && p2.y == p.y {
                    assert(same_cell(s@[j as int].cell, s@[i as int].cell));
                    return true;
                }
            }
            j = j + 1;
        }
        false
    }

    /// Deconfliction with the given jitter: every entity that is not holding
    /// and shares its cell with another is bumped towards `dirs[i] % 8`.
    /// The marks are all taken before the first bump.
    pub fn bump_units_with(&mut self, dirs: &Vec<u8>)
        requires
            old(self).wf(),
            dirs@.len() >= old(self).entities@.len(),
        ensures
            final(self).wf(),
            final(self).next_id == old(self).next_id,
            final(self).entities@ == deconflicted(old(self).entities@, dirs@),
    {
        let n = self.entities.len();
        let mut bumped: Vec<bool> = Vec::new();
        let mut i: usize = 0;
        while i < n
            invariant
                self == old(self),
                self.wf(),
                n == self.entities@.len(),
                i <= n,
                bumped@.len() == i,
                forall|q: int| 0 <= q < i ==> bumped@[q] == marked(self.entities@, q),
            decreases n - i,
        {
            let b = !self.entities[i].cell.is_holding() && self.shares_cell(i);
            bumped.push(b);
            i = i + 1;
        }
        let s = Ghost(self.entities@);
        let mut k: usize = 0;
        while k < n
            invariant
                n == s@.len(),
                n == self.entities@.len(),
                dirs@.len() >= n,
                k <= n,
                bumped@.len() == n,
                forall|q: int| 0 <= q < n ==> bumped@[q] == marked(s@, q),
                ids_ordered(s@, old(self).next_id),
                cells_wf(s@),
                self.next_id == old(self).next_id,
                forall|q: int| k <= q < n ==> self.entities@[q] == s@[q],
                forall|q: int| 0 <= q < k ==> self.entities@[q] == deconflicted(s@, dirs@)[q],
                forall|q: int| 0 <= q < k ==> self.entities@[q].cell.wf(),
                forall|q: int| 0 <= q < k ==> self.entities@[q].id == s@[q].id,
            decreases n - k,
        {
            assert(s@[k as int].cell.wf());
            if bumped[k] {
                let mut e = self.entities[k];
                e.cell.bump_with(dirs[k] % 8);
                self.entities.set(k, e);
            }
            k = k + 1;
        }
        assert(self.entities@ =~= deconflicted(s@, dirs@));
    }
    /// The first entity hostile to entity `i` within radius `r`.
    fn find_hostile(&self, i: usize, r: u32) -> (res: Option<usize>)
        requires
            self.wf(),
            i < self.entities@.len(),
        ensures
            match res {
                Some(j) => first_hostile(self.entities@, i as int, r, 0) == Some(j as int),
                None => first_hostile(self.entities@, i as int, r, 0) is None,
            },
    {
        let s = Ghost(self.entities@);
        let a = self.entities[i];
        let rect = a.cell.range_rect(r);
        let mut j: usize = 0;
        while j < self.entities.len()
            invariant
                s@ == self.entities@,
                self.wf(),
                i < s@.len(),
                j <= s@.len(),
                a == s@[i as int],
                rect == a.cell.range_box(r),
                first_hostile(s@, i as int, r, 0) == first_hostile(s@, i as int, r, j as int),
            decreases s@.len() - j,
        {
            let b = self.entities[j];
            if a.unit.race() != b.unit.race() && rect.point_in_rect(b.cell.point()) {
                return Some(j);
            }
            j = j + 1;
        }
        None
    }

    /// Targeting and combat. A first pass reads every entity's action from
    /// the store as it stands; then the attacks are applied in order, then
    /// the pursuits.
    pub fn attack_units(&mut self)
        requires
            old(self).wf(),
        ensures
            final(self).wf(),
            final(self).next_id == old(self).next_id,
            final(self).entities@ == fought(old(self).entities@),
    {
        let n = self.entities.len();
        let snap = Ghost(self.entities@);
        let mut strikes: Vec<Option<(usize, i32, Point)>> = Vec::new();
        let mut chases: Vec<Option<Point>> = Vec::new();
        let mut i: usize = 0;
        while i < n
            invariant
                self == old(self),
                self.wf(),
                snap@ == self.entities@,
                n == snap@.len(),
                i <= n,
                strikes@.len() == i,
                chases@.len() == i,
                forall|q: int|
                    0 <= q < i ==> match #[trigger] strikes@[q] {
                        Some((j, d, p)) => attack_target(snap@, q) == Some(j as int)
                            && snap@[q].unit.damage == Some(d) && p == snap@[q].cell.at(),
                        None => attack_target(snap@, q) is None,
                    },
                forall|q: int| 0 <= q < i ==> #[trigger] chases@[q] == pursuit(snap@, q),
            decreases n - i,
        {
            let e = self.entities[i];
            let mut hit: Option<(usize, i32, Point)> = None;
            if let Some(d) = e.unit.attack() {
                if let Some(j) = self.find_hostile(i, e.unit.range()) {
                    hit = Some((j, d, e.cell.point()));
                }
            }
            let mut chase: Option<Point> = None;
            if hit.is_none() && !e.cell.is_holding() {
                if let Some(j) = self.find_hostile(i, e.unit.follow_dist()) {
                    proof {
                        lemma_first_hostile(snap@, i as int, e.unit.follow_radius(), 0);
                    }
                    chase = Some(self.entities[j].cell.point());
                }
            }
            strikes.push(hit);
            chases.push(chase);
            i = i + 1;
        }
        let mut k: usize = 0;
        while k < n
            invariant
                n == snap@.len(),
                k <= n,
                strikes@.len() == n,
                forall|q: int|
                    0 <= q < n ==> match #[trigger] strikes@[q] {
                        Some((j, d, p)) => attack_target(snap@, q) == Some(j as int)
                            && snap@[q].unit.damage == Some(d) && p == snap@[q].cell.at(),
                        None => attack_target(snap@, q) is None,
                    },
                self.entities@ == attacks_applied(snap@, k as nat),
                self.next_id == old(self).next_id,
                ids_ordered(snap@, old(self).next_id),
                self.entities@.len() == n,
                forall|q: int| 0 <= q < n ==> (#[trigger] self.entities@[q]).id == snap@[q].id,
                cells_wf(self.entities@),
            decreases n - k,
        {
            if let Some((j, d, p)) = strikes[k] {
                proof {
                    lemma_first_hostile(snap@, k as int, snap@[k as int].unit.attack_radius(), 0);
                }
                let a = self.entities[k];
                if !a.cell.is_moving() {
                    let mut a2 = a;
                    a2.cell.stop_moving();
                    a2.unit.reset_tic();
                    self.entities.set(k, a2);
                    let mut b = self.entities[j];
                    b.cell.set_harmed();
                    b.cell.move_to_attacker(p);
                    b.unit.harm(d);
                    self.entities.set(j, b);
                }
            }
            k = k + 1;
        }
        let mid = Ghost(self.entities@);
        let mut k: usize = 0;
        while k < n
            invariant
                n == snap@.len(),
                k <= n,
                chases@.len() == n,
                forall|q: int| 0 <= q < n ==> #[trigger] chases@[q] == pursuit(snap@, q),
                mid@ == attacks_applied(snap@, n as nat),
                self.entities@ == pursuits_applied(snap@, mid@, k as nat),
                self.next_id == old(self).next_id,
                ids_ordered(snap@, old(self).next_id),
                self.entities@.len() == n,
                forall|q: int| 0 <= q < n ==> (#[trigger] self.entities@[q]).id == snap@[q].id,
                cells_wf(self.entities@),
            decreases n - k,
        {
            if let Some(p) = chases[k] {
                let mut a = self.entities[k];
                a.cell.move_towards(p);
                self.entities.set(k, a);
            }
            k = k + 1;
        }
    }
    /// Death cleanup: removes every entity whose hit points are at most zero.
    pub fn clear_units(&mut self)
        requires
            old(self).wf(),
        ensures
            final(self).wf(),
            final(self).next_id == old(self).next_id,
            final(self).entities@ == survivors(old(self).entities@),
    {
        let s = Ghost(self.entities@);
        let mut kept: Vec<Entity> = Vec::new();
        let mut i: usize = 0;
        while i < self.entities.len()
            invariant
                self == old(self),
                s@ == self.entities@,
                i <= s@.len(),
                kept@ == survivors(s@.subrange(0, i as int)),
            decreases s@.len() - i,
        {
            let e = self.entities[i];
            assert(s@.subrange(0, i + 1).drop_last() =~= s@.subrange(0, i as int));
            if e.unit.hp() > 0 {
                kept.push(e);
            }
            i = i + 1;
        }
        assert(s@.subrange(0, s@.len() as int) =~= s@);
        proof {
            lemma_survivors(s@, self.next_id);
            assert forall|k: int| 0 <= k < kept@.len() implies (#[trigger] kept@[k]).cell.wf() by {
                let j = choose|j: int| 0 <= j < s@.len() && survivors(s@)[k] == s@[j];
            }
        }
        self.entities = kept;
    }

    /// One tick of the simulation with the given jitter for deconfliction:
    /// deconfliction, targeting and combat, then death cleanup. Entities
    /// removed by the cleanup are still present throughout combat.
    pub fn tick_with(&mut self, dirs: &Vec<u8>)
        requires
            old(self).wf(),
            dirs@.len() >= old(self).entities@.len(),
        ensures
            final(self).wf(),
            final(self).next_id == old(self).next_id,
            final(self).entities@ == ticked(old(self).entities@, dirs@),
    {
        self.bump_units_with(dirs);
        self.attack_units();
        self.clear_units();
    }

    /// One tick of the simulation, the jitter of each entity drawn at random.
    pub fn tick(&mut self)
        requires
            old(self).wf(),
        ensures
            final(self).wf(),
            final(self).next_id == old(self).next_id,
            exists|dirs: Seq<u8>|
                dirs.len() == old(self).entities@.len() && (forall|i: int|
                    0 <= i < dirs.len() ==> #[trigger] dirs[i] < 8) && final(self).entities@
                    == ticked(old(self).entities@, dirs),
    {
        let mut dirs: Vec<u8> = Vec::new();
        let mut i: usize = 0;
        while i < self.entities.len()
            invariant
                i <= self.entities@.len(),
                dirs@.len() == i,
                forall|q: int| 0 <= q < i ==> #[trigger] dirs@[q] < 8,
            decreases self.entities@.len() - i,
        {
            dirs.push(random_below(8));
            i = i + 1;
        }
        self.tick_with(&dirs);
    }

    /// Advances every entity by `dt` milliseconds: its motion at its unit's
    /// speed, and its attack cooldown.
    pub fn update_cells(&mut self, dt: u32)
        requires
            old(self).wf(),
        ensures
            final(self).wf(),
            final(self).next_id == old(self).next_id,
            final(self).entities@ == advanced_all(old(self).entities@, dt),
    {
        let n = self.entities.len();
        let mut k: usize = 0;
        while k < n
            invariant
                n == old(self).entities@.len(),
                n == self.entities@.len(),
                k <= n,
                self.next_id == old(self).next_id,
                ids_ordered(old(self).entities@, old(self).next_id),
                cells_wf(old(self).entities@),
                forall|q: int| k <= q < n ==> self.entities@[q] == old(self).entities@[q],
                forall|q: int|
                    0 <= q < k ==> #[trigger] self.entities@[q] == (Entity {
                        cell: old(self).entities@[q].cell.updated(dt, old(self).entities@[q].unit.speed),
                        unit: old(self).entities@[q].unit.ticked(dt),
                        ..old(self).entities@[q]
                    }),
                forall|q: int| 0 <= q < k ==> self.entities@[q].cell.wf(),
            decreases n - k,
        {
            let mut e = self.entities[k];
            assert(old(self).entities@[k as int].cell.wf());
            let speed = e.unit.speed();
            e.cell.update(dt, speed);
            e.unit.tic(dt);
            self.entities.set(k, e);
            k = k + 1;
        }
        assert(self.entities@ =~= advanced_all(old(self).entities@, dt));
    }

    /// Orders every selected entity to `point` in `mode`.
    pub fn move_selected(&mut self, point: Point, mode: Mode)
        requires
            old(self).wf(),
        ensures
            final(self).wf(),
            final(self).next_id == old(self).next_id,
            final(self).entities@ == ordered_all(old(self).entities@, point, mode),
    {
        let n = self.entities.len();
        let mut k: usize = 0;
        while k < n
            invariant
                n == old(self).entities@.len(),
                n == self.entities@.len(),
                k <= n,
                self.next_id == old(self).next_id,
                old(self).wf(),
                forall|q: int| k <= q < n ==> self.entities@[q] == old(self).entities@[q],
                forall|q: int|
                    0 <= q < k ==> #[trigger] self.entities@[q] == if old(self).entities@[q].cell.selected {
                        Entity { cell: old(self).entities@[q].cell.moved_to(point, mode), ..old(self).entities@[q] }
                    } else {
                        old(self).entities@[q]
                    },
            decreases n - k,
        {
            let mut e = self.entities[k];
            if e.cell.selected() {
                e.cell.move_pos(point, mode);
                self.entities.set(k, e);
            }
            k = k + 1;
        }
        assert(self.entities@ =~= ordered_all(old(self).entities@, point, mode));
        assert(cells_wf(self.entities@)) by {
            assert forall|q: int| 0 <= q < n implies #[trigger] self.entities@[q].cell.wf() by {
                assert(old(self).entities@[q].cell.wf());
            }
        }
    }

    /// Stops every selected entity.
    pub fn stop_selected(&mut self)
        requires
            old(self).wf(),
        ensures
            final(self).wf(),
            final(self).next_id == old(self).next_id,
            final(self).entities@ == stopped_all(old(self).entities@),
    {
        let n = self.entities.len();
        let mut k: usize = 0;
        while k < n
            invariant
                n == old(self).entities@.len(),
                n == self.entities@.len(),
                k <= n,
                self.next_id == old(self).next_id,
                old(self).wf(),
                forall|q: int| k <= q < n ==> self.entities@[q] == old(self).entities@[q],
                forall|q: int|
                    0 <= q < k ==> #[trigger] self.entities@[q] == if old(self).entities@[q].cell.selected {
                        Entity { cell: old(self).entities@[q].cell.stopped(), ..old(self).entities@[q] }
                    } else {
                        old(self).entities@[q]
                    },
            decreases n - k,
        {
            let mut e = self.entities[k];
            if e.cell.selected() {
                e.cell.stop_moving();
                self.entities.set(k, e);
            }
            k = k + 1;
        }
        assert(self.entities@ =~= stopped_all(old(self).entities@));
        assert(cells_wf(self.entities@)) by {
            assert forall|q: int| 0 <= q < n implies #[trigger] self.entities@[q].cell.wf() by {
                assert(old(self).entities@[q].cell.wf());
            }
        }
    }

    /// Puts every selected entity on hold.
    pub fn hold_selected(&mut self)
        requires
            old(self).wf(),
        ensures
            final(self).wf(),
            final(self).next_id == old(self).next_id,
            final(self).entities@ == held_all(old(self).entities@),
    {
        let n = self.entities.len();
        let mut k: usize = 0;
        while k < n
            invariant
                n == old(self).entities@.len(),
                n == self.entities@.len(),
                k <= n,
                self.next_id == old(self).next_id,
                old(self).wf(),
                forall|q: int| k <= q < n ==> self.entities@[q] == old(self).entities@[q],
                forall|q: int|
                    0 <= q < k ==> #[trigger] self.entities@[q] == if old(self).entities@[q].cell.selected {
                        Entity { cell: old(self).entities@[q].cell.held(), ..old(self).entities@[q] }
                    } else {
                        old(self).entities@[q]
                    },
            decreases n - k,
        {
            let mut e = self.entities[k];
            if e.cell.selected() {
                e.cell.hold();
                self.entities.set(k, e);
            }
            k = k + 1;
        }
        assert(self.entities@ =~= held_all(old(self).entities@));
        assert(cells_wf(self.entities@)) by {
            assert forall|q: int| 0 <= q < n implies #[trigger] self.entities@[q].cell.wf() by {
                assert(old(self).entities@[q].cell.wf());
            }
        }
    }

    /// Selects the entities picked by `area` and `kind`; unless `add`, every
    /// other entity is deselected. Returns the identities selected, in order.
    fn select_where(&mut self, area: Rect, kind: Option<UnitKind>, add: bool) -> (ids: Vec<u64>)
        requires
            old(self).wf(),
        ensures
            final(self).wf(),
            final(self).next_id == old(self).next_id,
            final(self).entities@ == selected_where(old(self).entities@, area, kind, add),
            forall|id: u64|
                ids@.contains(id) <==> exists|i: int|
                    0 <= i < old(self).entities@.len() && old(self).entities@[i].id == id
                        && picked(old(self).entities@[i], area, kind),
    {
        let n = self.entities.len();
        let mut ids: Vec<u64> = Vec::new();
        let mut k: usize = 0;
        while k < n
            invariant
                n == old(self).entities@.len(),
                n == self.entities@.len(),
                k <= n,
                self.next_id == old(self).next_id,
                old(self).wf(),
                forall|q: int| k <= q < n ==> self.entities@[q] == old(self).entities@[q],
                forall|q: int|
                    0 <= q < k ==> #[trigger] self.entities@[q] == (Entity {
                        cell: GameCell {
                            selected: if picked(old(self).entities@[q], area, kind) {
                                true
                            } else if add {
                                old(self).entities@[q].cell.selected
                            } else {
                                false
                            },
                            ..old(self).entities@[q].cell
                        },
                        ..old(self).entities@[q]
                    }),
                forall|id: u64|
                    ids@.contains(id) <==> exists|i: int|
                        0 <= i < k && old(self).entities@[i].id == id
                            && picked(old(self).entities@[i], area, kind),
            decreases n - k,
        {
            let mut e = self.entities[k];
            assert(old(self).entities@[k as int].cell.wf());
            let of_kind = match kind {
                Some(kd) => e.unit.kind() == kd,
                None => true,
            };
            let inside = of_kind && area.point_in_rect(e.cell.point());
            let ghost prev = ids@;
            if inside {
                e.cell.select();
                ids.push(e.id);
            } else if !add {
                e.cell.deselect();
            }
            self.entities.set(k, e);
            proof {
                let s0 = old(self).entities@;
                assert forall|id: u64| ids@.contains(id) <==> (prev.contains(id) || (inside && id == e.id)) by {
                    if inside {
                        if prev.contains(id) {
                            let j = choose|j: int| 0 <= j < prev.len() && prev[j] == id;
                            assert(ids@[j] == id);
                        }
                        if id == e.id {
                            assert(ids@[prev.len() as int] == id);
                        }
                        if ids@.contains(id) {
                            let j = choose|j: int| 0 <= j < ids@.len() && ids@[j] == id;
                            if j < prev.len() {
                                assert(prev[j] == id);
                            }
                        }
                    }
                }
                assert forall|id: u64|
                    ids@.contains(id) <==> exists|i: int|
                        0 <= i < k + 1 && s0[i].id == id && picked(s0[i], area, kind) by {
                    if prev.contains(id) {
                        let i = choose|i: int| 0 <= i < k && s0[i].id == id && picked(s0[i], area, kind);
                        assert(0 <= i < k + 1 && s0[i].id == id && picked(s0[i], area, kind));
                    }
                    if inside && id == e.id {
                        assert(0 <= k < k + 1 && s0[k as int].id == id && picked(s0[k as int], area, kind));
                    }
                    if exists|i: int| 0 <= i < k + 1 && s0[i].id == id && picked(s0[i], area, kind) {
                        let i = choose|i: int| 0 <= i < k + 1 && s0[i].id == id && picked(s0[i], area, kind);
                        if i < k {
                            assert(prev.contains(id));
                        }
                    }
                }
            }
            k = k + 1;
        }
        assert(self.entities@ =~= selected_where(old(self).entities@, area, kind, add));
        assert(cells_wf(self.entities@)) by {
            assert forall|q: int| 0 <= q < n implies #[trigger] self.entities@[q].cell.wf() by {
                assert(old(self).entities@[q].cell.wf());
            }
        }
        ids
    }

    /// Selects the entities of class `kind` whose cell lies in `area` and
    /// Selects the entities whose cell lies in `area`; unless `add`, every
    /// other entity is deselected. Returns the identities selected, in order.
    pub fn select_in(&mut self, area: Rect, add: bool) -> (ids: Vec<u64>)
        requires
            old(self).wf(),
        ensures
            final(self).wf(),
            final(self).next_id == old(self).next_id,
            final(self).entities@ == selected_in(old(self).entities@, area, add),
            forall|id: u64|
                ids@.contains(id) <==> exists|i: int|
                    0 <= i < old(self).entities@.len() && old(self).entities@[i].id == id
                        && area.contains(old(self).entities@[i].cell.cx(), old(self).entities@[i].cell.cy()),
    {
        self.select_where(area, None, add)
    }

    /// deselects every other entity. Returns the identities selected.
    pub fn select_kind_in(&mut self, kind: UnitKind, area: Rect) -> (ids: Vec<u64>)
        requires
            old(self).wf(),
        ensures
            final(self).wf(),
            final(self).next_id == old(self).next_id,
            final(self).entities@ == selected_kind(old(self).entities@, kind, area),
            forall|id: u64|
                ids@.contains(id) <==> exists|i: int|
                    0 <= i < old(self).entities@.len() && old(self).entities@[i].id == id
                        && old(self).entities@[i].unit.kind == kind && area.contains(old(self).entities@[i].cell.cx(), old(self).entities@[i].cell.cy()),
    {
        self.select_where(area, Some(kind), false)
    }

    /// The class of the first entity whose cell is `(x, y)`.
    pub fn kind_at(&self, x: i32, y: i32) -> (r: Option<UnitKind>)
        requires
            self.wf(),
        ensures
            r == (match first_at(self.entities@, x as int, y as int, 0) {
                Some(i) => Some(self.entities@[i].unit.kind),
                None => None,
            }),
    {
        let mut i: usize = 0;
        while i < self.entities.len()
            invariant
                self.wf(),
                i <= self.entities@.len(),
                first_at(self.entities@, x as int, y as int, 0) == first_at(
                    self.entities@,
                    x as int,
                    y as int,
                    i as int,
                ),
            decreases self.entities@.len() - i,
        {
            assert(self.entities@[i as int].cell.wf());
            let p = self.entities[i].cell.point();
            if p.x == x && p.y == y {
                return Some(self.entities[i].unit.kind());
            }
            i = i + 1;
        }
        None
    }

    /// Selects, within `area`, every entity of the class of the first entity
    /// at cell `(x, y)`, deselecting all others. With no entity at `(x, y)`
    /// nothing changes and nothing is selected.
    pub fn select_same(&mut self, x: i32, y: i32, area: Rect) -> (ids: Vec<u64>)
        requires
            old(self).wf(),
        ensures
            final(self).wf(),
            final(self).next_id == old(self).next_id,
            first_at(old(self).entities@, x as int, y as int, 0) is None ==> (*final(self) == *old(
                self,
            ) && ids@.len() == 0),
            first_at(old(self).entities@, x as int, y as int, 0) matches Some(i) ==> {
                let kind = old(self).entities@[i].unit.kind;
                &&& final(self).entities@ == selected_kind(old(self).entities@, kind, area)
                &&& forall|id: u64|
                    ids@.contains(id) <==> exists|j: int|
                        0 <= j < old(self).entities@.len() && old(self).entities@[j].id == id
                            && old(self).entities@[j].unit.kind == kind && area.contains(
                            old(self).entities@[j].cell.cx(),
                            old(self).entities@[j].cell.cy(),
                        )
            },
    {
        match self.kind_at(x, y) {
            Some(kind) => self.select_kind_in(kind, area),
            None => Vec::new(),
        }
    }

    /// Selects exactly the live entities whose identity is in `ids`.
    pub fn select_group(&mut self, ids: &Vec<u64>)
        requires
            old(self).wf(),
        ensures
            final(self).wf(),
            final(self).next_id == old(self).next_id,
            final(self).entities@ == grouped(old(self).entities@, ids@),
    {
        let n = self.entities.len();
        let mut k: usize = 0;
        while k < n
            invariant
                n == old(self).entities@.len(),
                n == self.entities@.len(),
                k <= n,
                self.next_id == old(self).next_id,
                old(self).wf(),
                forall|q: int| k <= q < n ==> self.entities@[q] == old(self).entities@[q],
                forall|q: int|
                    0 <= q < k ==> #[trigger] self.entities@[q] == (Entity {
                        cell: GameCell { selected: ids@.contains(old(self).entities@[q].id), ..old(self).entities@[q].cell },
                        ..old(self).entities@[q]
                    }),
            decreases n - k,
        {
            let mut e = self.entities[k];
            let mut found = false;
            let mut j: usize = 0;
            while j < ids.len()
                invariant
                    j <= ids@.len(),
                    found <==> exists|q: int| 0 <= q < j && ids@[q] == e.id,
                decreases ids@.len() - j,
            {
                if ids[j] == e.id {
                    found = true;
                }
                j = j + 1;
            }
            assert(found == ids@.contains(e.id));
            if found {
                e.cell.select();
            } else {
                e.cell.deselect();
            }
            self.entities.set(k, e);
            k = k + 1;
        }
        assert(self.entities@ =~= grouped(old(self).entities@, ids@));
        assert(cells_wf(self.entities@)) by {
            assert forall|q: int| 0 <= q < n implies #[trigger] self.entities@[q].cell.wf() by {
                assert(old(self).entities@[q].cell.wf());
            }
        }
    }
}

/// A unit that cannot deal damage never attacks, however close an enemy is.
pub proof fn lemma_harmless_never_attacks(s: Seq<Entity>, i: int)
    requires
        0 <= i < s.len(),
        s[i].unit.damage is None,
    ensures
        attack_target(s, i) is None,
{
}

/// Changing one entity's hit points changes no entity's choice of target:
/// an entity stays a valid target for the rest of the tick in which it dies.
pub proof fn lemma_targeting_ignores_hp(s: Seq<Entity>, j: int, hp: i32, i: int)
    requires
        0 <= j < s.len(),
        0 <= i < s.len(),
    ensures
        ({
            let s2 = s.update(j, Entity { unit: Unit { hp, ..s[j].unit }, ..s[j] });
            &&& attack_target(s2, i) == attack_target(s, i)
            &&& pursuit(s2, i) == pursuit(s, i)
        }),
{
    let s2 = s.update(j, Entity { unit: Unit { hp, ..s[j].unit }, ..s[j] });
    lemma_first_hostile_same(s, s2, i, s[i].unit.attack_radius(), 0);
    lemma_first_hostile_same(s, s2, i, s[i].unit.follow_radius(), 0);
    lemma_first_hostile(s, i, s[i].unit.follow_radius(), 0);
}

proof fn lemma_first_hostile_same(s: Seq<Entity>, s2: Seq<Entity>, i: int, r: u32, j: int)
    requires
        s.len() == s2.len(),
        0 <= i < s.len(),
        forall|k: int|
            0 <= k < s.len() ==> (#[trigger] s2[k]).cell == s[k].cell && s2[k].unit.race
                == s[k].unit.race,
    ensures
        first_hostile(s2, i, r, j) == first_hostile(s, i, r, j),
    decreases s.len() - j,
{
    if 0 <= j < s.len() {
        assert(s2[j].cell == s[j].cell && s2[i].cell == s[i].cell);
        lemma_first_hostile_same(s, s2, i, r, j + 1);
    }
}

/// Combat keeps every entity in place, with its identity.
pub proof fn lemma_fought_ids(s: Seq<Entity>)
    ensures
        fought(s).len() == s.len(),
        forall|i: int| 0 <= i < s.len() ==> #[trigger] fought(s)[i].id == s[i].id,
{
    lemma_attacks_ids(s, s.len());
    lemma_pursuits_ids(s, attacks_applied(s, s.len()), s.len());
}

proof fn lemma_attacks_ids(snap: Seq<Entity>, k: nat)
    requires
        k <= snap.len(),
    ensures
        attacks_applied(snap, k).len() == snap.len(),
        forall|i: int|
            0 <= i < snap.len() ==> #[trigger] attacks_applied(snap, k)[i].id == snap[i].id,
    decreases k,
{
    if k > 0 {
        lemma_attacks_ids(snap, (k - 1) as nat);
        lemma_first_hostile(snap, k - 1, snap[k - 1].unit.attack_radius(), 0);
    }
}

proof fn lemma_pursuits_ids(snap: Seq<Entity>, st0: Seq<Entity>, k: nat)
    requires
        k <= st0.len(),
    ensures
        pursuits_applied(snap, st0, k).len() == st0.len(),
        forall|i: int|
            0 <= i < st0.len() ==> #[trigger] pursuits_applied(snap, st0, k)[i].id == st0[i].id,
    decreases k,
{
    if k > 0 {
        lemma_pursuits_ids(snap, st0, (k - 1) as nat);
    }
}

/// After a tick every live entity has positive hit points: an entity whose
/// hit points combat brought to zero or below is gone when the next tick
/// starts.
pub proof fn lemma_dead_removed(s: Seq<Entity>, dirs: Seq<u8>, next: u64)
    requires
        ids_ordered(s, next),
    ensures
        forall|k: int| 0 <= k < ticked(s, dirs).len() ==> #[trigger] ticked(s, dirs)[k].unit.hp > 0,
        forall|i: int, k: int|
            0 <= i < s.len() && fought(deconflicted(s, dirs))[i].unit.hp <= 0 && 0 <= k
                < ticked(s, dirs).len() ==> #[trigger] ticked(s, dirs)[k].id
                != #[trigger] fought(deconflicted(s, dirs))[i].id,
{
    let f = fought(deconflicted(s, dirs));
    lemma_fought_ids(deconflicted(s, dirs));
    assert(ids_ordered(f, next));
    lemma_survivors(f, next);
    assert forall|i: int, k: int|
        0 <= i < s.len() && f[i].unit.hp <= 0 && 0 <= k < ticked(s, dirs).len() implies #[trigger] ticked(
        s,
        dirs,
    )[k].id != #[trigger] f[i].id by {
        let j = choose|j: int| 0 <= j < f.len() && survivors(f)[k] == f[j];
        if j != i {
            assert(f[j].id != f[i].id);
        }
    }
}

/// A unit on a move order keeps its attack cooldown through combat.
pub proof fn lemma_moving_keeps_cooldown(s: Seq<Entity>, i: int)
    requires
        0 <= i < s.len(),
        s[i].cell.moving(),
    ensures
        fought(s)[i].unit.tic == s[i].unit.tic,
{
    lemma_attacks_keep_mover(s, i, s.len());
    lemma_pursuits_keep_mover(s, attacks_applied(s, s.len()), i, s.len());
}

proof fn lemma_attacks_keep_mover(snap: Seq<Entity>, i: int, k: nat)
    requires
        k <= snap.len(),
        0 <= i < snap.len(),
        snap[i].cell.moving(),
    ensures
        attacks_applied(snap, k).len() == snap.len(),
        attacks_applied(snap, k)[i].cell.moving(),
        attacks_applied(snap, k)[i].unit.tic == snap[i].unit.tic,
    decreases k,
{
    if k > 0 {
        lemma_attacks_keep_mover(snap, i, (k - 1) as nat);
        lemma_first_hostile(snap, k - 1, snap[k - 1].unit.attack_radius(), 0);
    }
}

proof fn lemma_pursuits_keep_mover(snap: Seq<Entity>, st0: Seq<Entity>, i: int, k: nat)
    requires
        k <= st0.len(),
        0 <= i < st0.len(),
    ensures
        pursuits_applied(snap, st0, k).len() == st0.len(),
        pursuits_applied(snap, st0, k)[i].unit == st0[i].unit,
        pursuits_applied(snap, st0, k)[i].cell.harmed == st0[i].cell.harmed,
    decreases k,
{
    if k > 0 {
        lemma_pursuits_keep_mover(snap, st0, i, (k - 1) as nat);
    }
}

/// In a battle of two, an attacker that is not on a move order, can deal
/// damage and has its enemy within its attack radius marks the enemy
/// harmed and deals its damage in one round of combat.
pub proof fn lemma_strike_lands(s: Seq<Entity>, a: int)
    requires
        s.len() == 2,
        a == 0 || a == 1,
        !s[a].cell.moving(),
        s[a].unit.damage is Some,
        s[a].unit.race != s[1 - a].unit.race,
        s[a].cell.range_box(s[a].unit.attack_radius()).contains(s[1 - a].cell.cx(), s[1 - a].cell.cy()),
    ensures
        fought(s)[1 - a].cell.harmed,
        fought(s)[1 - a].unit.hp == sat_sub(s[1 - a].unit.hp, s[a].unit.damage->0),
{
    let b = 1 - a;
    assert(hostile_in(s, a, b, s[a].unit.attack_radius()));
    assert(!hostile_in(s, a, a, s[a].unit.attack_radius()));
    if a == 0 {
        assert(first_hostile(s, a, s[a].unit.attack_radius(), 1) == Some(1int));
    }
    assert(attack_target(s, a) == Some(b));
    let st1 = attacks_applied(s, 1);
    let st2 = attacks_applied(s, 2);
    lemma_attacks_ids(s, 2);
    lemma_pursuits_keep_mover(s, st2, b, 2);
    assert(attacks_applied(s, 0) == s);
    if a == 0 {
        assert(st1[1].cell.harmed && st1[1].unit.hp == sat_sub(s[1].unit.hp, s[0].unit.damage->0));
        lemma_first_hostile(s, 1, s[1].unit.attack_radius(), 0);
    } else {
        lemma_first_hostile(s, 0, s[0].unit.attack_radius(), 0);
        assert(!st1[1].cell.moving());
        assert(st1[0].unit.hp == s[0].unit.hp);
    }
}

proof fn lemma_attacks_on_target(s: Seq<Entity>, a: int, b: int, k: nat)
    requires
        0 <= a < s.len(),
        0 <= b < s.len(),
        k <= s.len(),
        !s[a].cell.moving(),
        attack_target(s, a) == Some(b),
        forall|i: int| 0 <= i < s.len() && i != a ==> attack_target(s, i) != Some(b),
    ensures
        attacks_applied(s, k).len() == s.len(),
        forall|i: int|
            0 <= i < s.len() ==> (#[trigger] attacks_applied(s, k)[i]).cell.moving()
                == s[i].cell.moving(),
        attacks_applied(s, k)[b].unit.hp == if k > a {
            sat_sub(s[b].unit.hp, s[a].unit.damage->0)
        } else {
            s[b].unit.hp
        },
        k > a ==> attacks_applied(s, k)[b].cell.harmed,
    decreases k,
{
    if k > 0 {
        let j = k - 1;
        lemma_attacks_on_target(s, a, b, (k - 1) as nat);
        lemma_first_hostile(s, j, s[j].unit.attack_radius(), 0);
        let st = attacks_applied(s, (k - 1) as nat);
        assert(st[j].cell.moving() == s[j].cell.moving());
        assert(st[a].cell.moving() == s[a].cell.moving());
    }
}

/// An attacker not on a move order whose first target is `b`, when no other
/// attacker targets `b`, marks `b` harmed and deals its damage in one round
/// of combat.
pub proof fn lemma_strike_lands_on_first_target(s: Seq<Entity>, a: int, b: int)
    requires
        0 <= a < s.len(),
        0 <= b < s.len(),
        !s[a].cell.moving(),
        attack_target(s, a) == Some(b),
        forall|i: int| 0 <= i < s.len() && i != a ==> attack_target(s, i) != Some(b),
    ensures
        fought(s)[b].cell.harmed,
        fought(s)[b].unit.hp == sat_sub(s[b].unit.hp, s[a].unit.damage->0),
{
    lemma_attacks_on_target(s, a, b, s.len());
    lemma_pursuits_keep_mover(s, attacks_applied(s, s.len()), b, s.len());
}

/// In a battle of two, an attacker on a move order leaves its enemy's hit
/// points and harmed flag as they were.
pub proof fn lemma_moving_strike_suppressed(s: Seq<Entity>, a: int)
    requires
        s.len() == 2,
        a == 0 || a == 1,
        s[a].cell.moving(),
    ensures
        fought(s)[1 - a].cell.harmed == s[1 - a].cell.harmed,
        fought(s)[1 - a].unit.hp == s[1 - a].unit.hp,
        fought(s)[a].unit.tic == s[a].unit.tic,
{
    let b = 1 - a;
    lemma_moving_keeps_cooldown(s, a);
    lemma_attacks_keep_mover(s, a, 1);
    lemma_attacks_keep_mover(s, a, 2);
    let st2 = attacks_applied(s, 2);
    lemma_attacks_ids(s, 2);
    lemma_pursuits_keep_mover(s, st2, b, 2);
    lemma_first_hostile(s, 0, s[0].unit.attack_radius(), 0);
    lemma_first_hostile(s, 1, s[1].unit.attack_radius(), 0);
    assert(attacks_applied(s, 0) == s);
}

/// Deconfliction moves an entity only when it is not holding, shares its
/// cell with another entity and its timer has reached 100 ms; it then
/// restarts the timer and, away from the edge of the battlefield, displaces
/// the entity by exactly one compass offset.
pub proof fn lemma_bump_only_when_due(s: Seq<Entity>, dirs: Seq<u8>, i: int)
    requires
        0 <= i < s.len(),
        dirs.len() >= s.len(),
    ensures
        ({
            let c = s[i].cell;
            let c2 = deconflicted(s, dirs)[i].cell;
            let o = offset((dirs[i] % 8) as int);
            &&& (c2.px != c.px || c2.py != c.py) ==> {
                &&& !c.holding()
                &&& coincident(s, i)
                &&& c.tic >= 100
                &&& c2.tic == 0
            }
            &&& (marked(s, i) && c.tic >= 100 && FIELD_LO + 1000 <= c.px <= FIELD_HI - 1000
                && FIELD_LO + 1000 <= c.py <= FIELD_HI - 1000) ==> {
                &&& c2.px == c.px + o.0 * 1000
                &&& c2.py == c.py + o.1 * 1000
                &&& o != (0int, 0int)
                &&& -1 <= o.0 <= 1
                &&& -1 <= o.1 <= 1
            }
        }),
{
}

} // verus!
