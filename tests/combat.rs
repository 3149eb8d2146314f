use textrts::{
    starting_army, Camera, Color, Direction, GameCell, Mode, Point, Race, Unit, UnitKind, World,
};

fn fighter(x: i32, y: i32, race: Race, hp: i32, damage: i32, range: u32) -> (GameCell, Unit) {
    (
        GameCell::new(x, y, 'V', Color::new(0, 170, 0)),
        Unit::new(race, UnitKind::Blademaster, hp).with_damage(damage).with_range(0, range),
    )
}

fn target(x: i32, y: i32, race: Race, hp: i32) -> (GameCell, Unit) {
    (GameCell::new(x, y, '*', Color::new(170, 30, 0)), Unit::new(race, UnitKind::FleshSpider, hp))
}

#[test]
fn unit_builders_and_damage() {
    let u = Unit::new(Race::Alien, UnitKind::Trooper, 20).with_damage(2).with_range(5, 8).with_speed(10_500);
    assert_eq!(u.attack(), Some(2));
    assert_eq!(u.range(), 8);
    assert_eq!(u.follow_dist(), 13);
    assert_eq!(u.speed(), 10_500);
    assert_eq!(u.race(), Race::Alien);
    assert_eq!(u.kind(), UnitKind::Trooper);
    let mut v = u;
    v.harm(7);
    assert_eq!(v.hp(), 13);
    v.hp = i32::MIN + 1;
    v.harm(5);
    assert_eq!(v.hp(), i32::MIN);
    v.tic(40);
    assert_eq!(v.tic, 40);
    v.reset_tic();
    assert_eq!(v.tic, 0);
}

#[test]
fn extend_assigns_fresh_ids() {
    let mut w = World::new();
    let ids = w.extend(vec![target(0, 0, Race::Bug, 5), target(3, 3, Race::Bug, 5)]);
    assert_eq!(ids, vec![0, 1]);
    let more = w.extend(vec![target(6, 6, Race::Bug, 5)]);
    assert_eq!(more, vec![2]);
    assert_eq!(w.len(), 3);
    assert_eq!(w.get(1).unwrap().cell.point(), Point::new(3, 3));
    assert!(w.get(7).is_none());
}

#[test]
fn strike_lands_on_enemy_in_range() {
    let mut w = World::new();
    let ids = w.extend(vec![fighter(0, 0, Race::Bionic, 30, 7, 2), target(3, 0, Race::Bug, 20)]);
    w.tick_with(&vec![0, 0]);
    let b = w.get(ids[1]).unwrap();
    assert!(b.cell.harmed);
    assert_eq!(b.unit.hp(), 13);
    assert_eq!(b.cell.mode, Mode::Attack);
    assert_eq!(b.cell.destination, Some(Point::new(0, 0)));
}

#[test]
fn enemy_out_of_range_is_pursued() {
    let mut w = World::new();
    let (c, u) = fighter(0, 0, Race::Bionic, 30, 7, 2);
    let ids = w.extend(vec![(c, u.with_range(2, 2)), target(4, 0, Race::Bug, 20)]);
    w.tick_with(&vec![0, 0]);
    let b = w.get(ids[1]).unwrap();
    assert!(!b.cell.harmed);
    assert_eq!(b.unit.hp(), 20);
    let a = w.get(ids[0]).unwrap();
    assert_eq!(a.cell.destination, Some(Point::new(1, 0)));
    assert_eq!(a.cell.mode, Mode::Attack);
}

#[test]
fn holding_unit_does_not_pursue() {
    let mut w = World::new();
    let (mut c, u) = fighter(0, 0, Race::Bionic, 30, 7, 2);
    c.hold();
    let ids = w.extend(vec![(c, u.with_range(2, 2)), target(4, 0, Race::Bug, 20)]);
    w.tick_with(&vec![0, 0]);
    let a = w.get(ids[0]).unwrap();
    assert_eq!(a.cell.destination, None);
    assert!(a.cell.is_holding());
}

#[test]
fn same_faction_never_fights() {
    let mut w = World::new();
    let ids = w.extend(vec![fighter(0, 0, Race::Bionic, 30, 7, 2), target(1, 0, Race::Bionic, 20)]);
    w.tick_with(&vec![0, 0]);
    assert_eq!(w.get(ids[1]).unwrap().unit.hp(), 20);
    assert_eq!(w.get(ids[0]).unwrap().cell.destination, None);
}

#[test]
fn moving_attacker_deals_nothing() {
    let mut w = World::new();
    let (mut c, mut u) = fighter(0, 0, Race::Bionic, 30, 7, 2);
    c.move_pos(Point::new(0, 50), Mode::Move);
    u.tic(300);
    let ids = w.extend(vec![(c, u), target(2, 0, Race::Bug, 20)]);
    w.tick_with(&vec![0, 0]);
    let b = w.get(ids[1]).unwrap();
    assert!(!b.cell.harmed);
    assert_eq!(b.unit.hp(), 20);
    assert_eq!(w.get(ids[0]).unwrap().unit.tic, 300);
}

#[test]
fn negative_damage_never_heals() {
    let mut w = World::new();
    let ids = w.extend(vec![fighter(0, 0, Race::Bionic, 30, -5, 2), target(2, 0, Race::Bug, 20)]);
    w.tick_with(&vec![0, 0]);
    let b = w.get(ids[1]).unwrap();
    assert_eq!(b.unit.hp(), 20);
    assert!(b.cell.harmed);
}

#[test]
fn attack_restarts_cooldown() {
    let mut w = World::new();
    let (c, mut u) = fighter(0, 0, Race::Bionic, 30, 7, 2);
    u.tic(300);
    let ids = w.extend(vec![(c, u), target(2, 0, Race::Bug, 20)]);
    w.tick_with(&vec![0, 0]);
    assert_eq!(w.get(ids[0]).unwrap().unit.tic, 0);
}

#[test]
fn dying_target_is_hit_by_every_attacker_then_removed() {
    let mut w = World::new();
    let ids = w.extend(vec![
        fighter(0, 0, Race::Bionic, 30, 5, 1),
        fighter(0, 2, Race::Bionic, 30, 5, 1),
        target(0, 1, Race::Bug, 5),
    ]);
    w.attack_units();
    assert_eq!(w.get(ids[2]).unwrap().unit.hp(), -5);
    w.clear_units();
    assert!(w.get(ids[2]).is_none());
    assert_eq!(w.len(), 2);
}

#[test]
fn tick_removes_the_dead() {
    let mut w = World::new();
    let ids = w.extend(vec![fighter(0, 0, Race::Bionic, 30, 5, 1), target(1, 1, Race::Bug, 5)]);
    w.tick_with(&vec![0, 0]);
    assert!(w.get(ids[1]).is_none());
    assert!(w.get(ids[0]).is_some());
    w.tick();
    assert_eq!(w.len(), 1);
}

#[test]
fn harmless_unit_never_attacks() {
    let mut w = World::new();
    let ids = w.extend(vec![target(0, 0, Race::Bug, 15), target(1, 0, Race::Bionic, 15)]);
    w.attack_units();
    for id in ids {
        let e = w.get(id).unwrap();
        assert_eq!(e.unit.hp(), 15);
        assert!(!e.cell.harmed);
    }
}

#[test]
fn deconfliction_bumps_only_due_units() {
    let mut w = World::new();
    let (mut held, hu) = target(5, 5, Race::Bug, 15);
    held.update(200, 0);
    held.hold();
    let (mut a, au) = target(5, 5, Race::Bug, 15);
    a.update(200, 0);
    let (mut lone, lu) = target(9, 9, Race::Bug, 15);
    lone.update(200, 0);
    let (mut young, yu) = target(5, 5, Race::Bug, 15);
    young.tic = 0;
    let ids = w.extend(vec![(held, hu), (a, au), (lone, lu), (young, yu)]);
    w.bump_units_with(&vec![4, 4, 4, 4]);
    assert_eq!(w.get(ids[0]).unwrap().cell.point(), Point::new(5, 5));
    assert_eq!(w.get(ids[1]).unwrap().cell.point(), Point::new(5, 6));
    assert_eq!(w.get(ids[1]).unwrap().cell.tic, 0);
    assert_eq!(w.get(ids[2]).unwrap().cell.point(), Point::new(9, 9));
    assert_eq!(w.get(ids[3]).unwrap().cell.point(), Point::new(5, 5));
}

fn skirmish_armies() -> Vec<(GameCell, Unit)> {
    vec![
        (
            GameCell::new(10, 10, 'V', Color::new(0, 170, 0)),
            Unit::new(Race::Bionic, UnitKind::Blademaster, 30).with_damage(5),
        ),
        target(10, 10, Race::Bug, 15),
    ]
}

#[test]
fn two_unit_skirmish() {
    let mut w = World::new();
    let ids = w.extend(skirmish_armies());
    w.bump_units_with(&vec![0, 2]);
    let px = w.get(ids[0]).unwrap().cell.point();
    let py = w.get(ids[1]).unwrap().cell.point();
    assert_ne!(px, py);
    assert_eq!(px, Point::new(10, 9));
    assert_eq!(py, Point::new(11, 10));
    assert!(w.get(ids[0]).unwrap().cell.range_rect(0).point_in_rect(py));
    w.attack_units();
    w.clear_units();
    let y = w.get(ids[1]).unwrap();
    assert_eq!(y.unit.hp(), 10);
    assert!(y.cell.harmed);
}

#[test]
fn two_unit_skirmish_full_tick() {
    let mut w = World::new();
    let ids = w.extend(skirmish_armies());
    w.tick_with(&vec![0, 2]);
    assert_eq!(w.get(ids[0]).unwrap().cell.point(), Point::new(10, 9));
    assert_eq!(w.get(ids[1]).unwrap().cell.point(), Point::new(11, 10));
    let y = w.get(ids[1]).unwrap();
    assert_eq!(y.unit.hp(), 10);
    assert!(y.cell.harmed);
}

#[test]
fn update_cells_moves_at_unit_speed() {
    let mut w = World::new();
    let (mut c, u) = fighter(0, 0, Race::Bionic, 30, 5, 0);
    c.move_pos(Point::new(20, 0), Mode::Move);
    let ids = w.extend(vec![(c, u.with_speed(14_500))]);
    w.update_cells(100);
    let e = w.get(ids[0]).unwrap();
    assert_eq!(e.cell.px, 1450);
    assert_eq!(e.unit.tic, 100);
    assert_eq!(e.cell.tic, 200);
}

#[test]
fn orders_apply_to_selected_only() {
    let mut w = World::new();
    let ids = w.extend(vec![target(0, 0, Race::Bug, 5), target(3, 3, Race::Bug, 5), target(8, 8, Race::Bug, 5)]);
    w.select_group(&vec![ids[0], ids[2]]);
    assert!(w.get(ids[0]).unwrap().cell.selected());
    assert!(!w.get(ids[1]).unwrap().cell.selected());
    w.move_selected(Point::new(4, 4), Mode::Move);
    assert_eq!(w.get(ids[0]).unwrap().cell.destination, Some(Point::new(4, 4)));
    assert_eq!(w.get(ids[1]).unwrap().cell.destination, None);
    w.hold_selected();
    assert!(w.get(ids[2]).unwrap().cell.is_holding());
    assert_eq!(w.get(ids[2]).unwrap().cell.destination, None);
    w.stop_selected();
    assert_eq!(w.get(ids[2]).unwrap().cell.mode, Mode::Hold);
}

#[test]
fn select_in_area_and_same_kind() {
    let mut w = World::new();
    let ids = w.extend(vec![
        target(1, 1, Race::Bug, 5),
        fighter(2, 2, Race::Bionic, 5, 1, 0),
        target(7, 7, Race::Bug, 5),
    ]);
    let chosen = w.select_in(textrts::Rect::with_exact(0, 0, 3, 3), false);
    assert_eq!(chosen, vec![ids[0], ids[1]]);
    let added = w.select_in(textrts::Rect::with_exact(7, 7, 8, 8), true);
    assert_eq!(added, vec![ids[2]]);
    assert!(w.get(ids[0]).unwrap().cell.selected());
    let same = w.select_same(7, 7, textrts::Rect::with_exact(0, 0, 100, 100));
    assert_eq!(same, vec![ids[0], ids[2]]);
    assert!(!w.get(ids[1]).unwrap().cell.selected());
    assert_eq!(w.kind_at(2, 2), Some(UnitKind::Blademaster));
    assert!(w.select_same(50, 50, textrts::Rect::with_exact(0, 0, 100, 100)).is_empty());
}

#[test]
fn camera_scrolls_within_bounds() {
    let mut c = Camera::new(-2, 0, -1, 1);
    c.scroll(Direction::W);
    assert_eq!(c.x, 0);
    c.scroll(Direction::E);
    c.scroll(Direction::E);
    c.scroll(Direction::E);
    assert_eq!(c.x, -2);
    c.scroll(Direction::N);
    c.scroll(Direction::N);
    assert_eq!(c.y, 1);
    c.scroll(Direction::S);
    assert_eq!(c.y, 0);
    c.focus(10, -30, 80, 50);
    assert_eq!((c.x, c.y), (0, 1));
    let mut d = Camera::new(-100, 0, -100, 0);
    d.focus(50, 40, 80, 50);
    assert_eq!((d.x, d.y), (-10, -15));
}

#[test]
fn starting_army_has_every_unit() {
    let army = starting_army();
    assert_eq!(army.len(), 145);
    assert_eq!(army[0].0.point(), Point::new(10, 5));
    assert_eq!(army[3].0.point(), Point::new(6, 6));
    assert_eq!(army[144].0.point(), Point::new(29, 35));
    let mut w = World::new();
    w.extend(army);
    assert_eq!(w.len(), 145);
}
