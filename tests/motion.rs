use textrts::{isqrt, Color, GameCell, Mode, Point, Rect};

fn cell(x: i32, y: i32) -> GameCell {
    GameCell::new(x, y, 'V', Color::new(0, 170, 0))
}

#[test]
fn integer_square_roots() {
    assert_eq!(isqrt(0), 0);
    assert_eq!(isqrt(1), 1);
    assert_eq!(isqrt(24), 4);
    assert_eq!(isqrt(25), 5);
    assert_eq!(isqrt(25_000_000), 5000);
    assert_eq!(isqrt(u128::MAX), u64::MAX);
}

#[test]
fn new_cell_stands_still() {
    let c = cell(-3, 7);
    assert_eq!((c.x(), c.y()), (-3, 7));
    assert_eq!(c.point(), Point::new(-3, 7));
    assert_eq!(c.symbol(), 'V');
    assert!(!c.selected());
    assert!(!c.is_moving());
    assert!(!c.is_holding());
    assert_eq!(c.mode, Mode::Select);
    assert_eq!(c.destination, None);
    assert_eq!(c.tic, 100);
}

#[test]
fn move_towards_steps_one_cell_and_keeps_orders() {
    let mut c = cell(5, 5);
    c.move_towards(Point::new(9, 1));
    assert_eq!(c.destination, Some(Point::new(6, 4)));
    assert_eq!(c.mode, Mode::Attack);
    c.move_towards(Point::new(0, 0));
    assert_eq!(c.destination, Some(Point::new(6, 4)));
    let mut d = cell(5, 5);
    d.move_towards(Point::new(5, 8));
    assert_eq!(d.destination, Some(Point::new(5, 6)));
}

#[test]
fn move_towards_does_nothing_while_holding() {
    let mut c = cell(5, 5);
    c.hold();
    c.move_towards(Point::new(9, 1));
    assert_eq!(c.destination, None);
    assert!(c.is_holding());
}

#[test]
fn move_to_attacker_respects_hold_and_move() {
    let mut c = cell(0, 0);
    c.move_to_attacker(Point::new(3, 3));
    assert_eq!(c.mode, Mode::Attack);
    assert_eq!(c.destination, Some(Point::new(3, 3)));

    let mut h = cell(0, 0);
    h.hold();
    h.move_to_attacker(Point::new(3, 3));
    assert!(h.is_holding());
    assert_eq!(h.destination, None);

    let mut m = cell(0, 0);
    m.move_pos(Point::new(9, 9), Mode::Move);
    m.move_to_attacker(Point::new(3, 3));
    assert_eq!(m.destination, Some(Point::new(9, 9)));
    assert!(m.is_moving());
}

#[test]
fn stop_moving_keeps_hold() {
    let mut c = cell(0, 0);
    c.move_pos(Point::new(4, 4), Mode::Move);
    c.stop_moving();
    assert_eq!(c.mode, Mode::Select);
    assert_eq!(c.destination, None);
    let mut h = cell(0, 0);
    h.hold();
    h.stop_moving();
    assert_eq!(h.mode, Mode::Hold);
}

#[test]
fn update_moves_straight_along_an_axis() {
    let mut c = cell(0, 0);
    c.move_pos(Point::new(10, 0), Mode::Move);
    c.update(100, 10_000);
    assert_eq!((c.px, c.py), (1000, 0));
    assert_eq!(c.destination, Some(Point::new(10, 0)));
    for _ in 0..7 {
        c.update(100, 10_000);
    }
    assert_eq!(c.px, 8000);
    assert!(c.is_moving());
    c.update(100, 10_000);
    assert_eq!(c.px, 9000);
    assert_eq!(c.destination, None);
    assert_eq!(c.mode, Mode::Select);
}

#[test]
fn update_moves_diagonally() {
    let mut c = cell(0, 0);
    c.move_pos(Point::new(3, 4), Mode::Move);
    c.update(100, 10_000);
    assert_eq!((c.px, c.py), (600, 800));
    assert_eq!((c.x(), c.y()), (1, 1));
}

#[test]
fn update_steps_full_length_past_destination() {
    let mut c = cell(0, 0);
    c.move_pos(Point::new(1, 0), Mode::Move);
    c.update(100, 15_000);
    assert_eq!((c.px, c.py), (1500, 0));
    assert_eq!(c.destination, None);
    assert_eq!(c.mode, Mode::Select);
}

#[test]
fn distance_to_destination_never_grows() {
    let mut c = cell(-4, 7);
    let d = Point::new(20, -13);
    c.move_pos(d, Mode::Move);
    let dist2 = |c: &GameCell| {
        let ex = d.x as i128 * 1000 - c.px as i128;
        let ey = d.y as i128 * 1000 - c.py as i128;
        ex * ex + ey * ey
    };
    let mut last = dist2(&c);
    while c.destination.is_some() {
        c.update(16, 14_500);
        let now = dist2(&c);
        assert!(now < last);
        last = now;
    }
    assert!((c.x() - d.x).abs() <= 1 && (c.y() - d.y).abs() <= 1);
}

#[test]
fn update_without_destination_snaps_to_cell() {
    let mut c = cell(0, 0);
    c.px = 1400;
    c.py = -1600;
    c.update(16, 10_000);
    assert_eq!((c.px, c.py), (1000, -2000));
}

#[test]
fn harmed_clears_after_six_tenths() {
    let mut c = cell(0, 0);
    c.set_harmed();
    assert!(c.harmed);
    assert_eq!(c.color(), Color::new(255, 0, 0));
    c.update(500, 0);
    assert!(c.harmed);
    assert_eq!(c.tic, 600);
    c.update(1, 0);
    assert!(c.harmed);
    assert_eq!(c.tic, 601);
    c.update(1, 0);
    assert!(!c.harmed);
    assert_eq!(c.color(), Color::new(0, 170, 0));
}

#[test]
fn timer_restarts_after_a_second() {
    let mut c = cell(0, 0);
    c.update(901, 0);
    assert_eq!(c.tic, 1001);
    c.update(5, 0);
    assert_eq!(c.tic, 0);
}

#[test]
fn bump_with_displaces_by_compass_offset() {
    let offsets = [(0, -1), (1, -1), (1, 0), (1, 1), (0, 1), (-1, 1), (-1, 0), (-1, -1)];
    for (d, (a, b)) in offsets.iter().enumerate() {
        let mut c = cell(10, 10);
        c.update(100, 0);
        c.bump_with(d as u8);
        assert_eq!((c.x(), c.y()), (10 + a, 10 + b));
        assert_eq!(c.tic, 0);
    }
}

#[test]
fn bump_waits_for_timer() {
    let mut c = cell(10, 10);
    c.bump_with(0);
    assert_eq!((c.x(), c.y()), (10, 9));
    c.update(99, 0);
    c.bump_with(3);
    assert_eq!((c.x(), c.y()), (10, 9));
    assert_eq!(c.tic, 99);
}

#[test]
fn random_bump_moves_one_step() {
    let mut c = cell(10, 10);
    c.update(150, 0);
    c.bump();
    let dx = c.x() - 10;
    let dy = c.y() - 10;
    assert!((dx, dy) != (0, 0));
    assert!(dx.abs() <= 1 && dy.abs() <= 1);
    assert_eq!(c.tic, 0);
}

#[test]
fn range_rect_covers_radius_plus_one() {
    let c = cell(5, -2);
    let r = c.range_rect(0);
    assert_eq!(r, Rect::with_exact(4, -3, 7, 0));
    assert!(r.point_in_rect(Point::new(6, -1)));
    assert!(r.point_in_rect(Point::new(4, -3)));
    assert!(!r.point_in_rect(Point::new(7, -2)));
    assert!(!r.point_in_rect(Point::new(5, 0)));
    let r3 = c.range_rect(3);
    assert!(r3.point_in_rect(Point::new(9, 2)));
    assert!(!r3.point_in_rect(Point::new(10, 2)));
}

#[test]
fn colors_follow_state() {
    let mut c = GameCell::new(0, 0, 'T', Color::new(200, 100, 0));
    assert_eq!(c.bg_color(), Color::new(0, 0, 0));
    c.select();
    assert_eq!(c.bg_color(), Color::new(255, 255, 255));
    c.deselect();
    assert!(!c.selected());
    assert_eq!(c.color_bright(), Color::new(255, 150, 0));
}
