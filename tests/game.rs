use textrts::{Camera, CurrentState, Mode, Point, State};

#[test]
fn new_state_starts_on_menu_with_army() {
    let s = State::new(80, 50);
    assert_eq!(s.curr_state, CurrentState::Menu);
    assert_eq!(s.world.len(), 145);
    assert_eq!(s.world.get(144).unwrap().id, 144);
    let first = s.world.get(0).unwrap();
    assert_eq!(first.cell.point(), Point::new(10, 5));
    assert_eq!(first.unit.kind(), textrts::UnitKind::Blademaster);
    assert_eq!(first.unit.speed(), 14_500);
    let spider = s.world.get(60).unwrap();
    assert_eq!(spider.cell.point(), Point::new(45, 5));
    assert_eq!(spider.unit.attack(), None);
    assert_eq!(s.mode(), Mode::Select);
    assert!(s.selected.is_empty());
    assert_eq!(s.camera, Camera::new(-100, 0, -100, 0));
    assert_eq!(s.dt, 16);
    assert_eq!(s.supply, (0, 99));
}

#[test]
fn frame_counter_wraps() {
    let mut s = State::new(80, 50);
    for _ in 0..24 {
        s.advance_tic();
    }
    assert_eq!(s.tic, 96);
    s.advance_tic();
    assert_eq!(s.tic, 0);
}

#[test]
fn box_selection_and_orders() {
    let mut s = State::new(80, 50);
    s.set_mode(Mode::Add);
    s.select_cells(10, 5, 9, 6, false);
    assert_eq!(s.mode(), Mode::Select);
    assert_eq!(s.selected, vec![0, 2]);
    s.select_cells(45, 5, 45, 5, true);
    assert_eq!(s.selected.len(), 2 + 5);
    assert_eq!(&s.selected[..2], &[0, 2]);
    s.move_cells(20, 20, Mode::Move);
    assert_eq!(s.world.get(0).unwrap().cell.destination, Some(Point::new(20, 20)));
    assert_eq!(s.world.get(1).unwrap().cell.destination, None);
    s.hold_cells();
    assert!(s.world.get(2).unwrap().cell.is_holding());
    s.stop_cells();
    assert!(s.world.get(2).unwrap().cell.is_holding());
}

#[test]
fn select_same_picks_class_on_screen() {
    let mut s = State::new(80, 50);
    s.set_mode(Mode::Ctrl);
    s.select_same(29, 35);
    assert_eq!(s.selected, vec![140, 141, 142, 143, 144]);
    assert_eq!(s.mode(), Mode::Select);
    s.select_same(0, 0);
    assert!(s.selected.is_empty());
    assert!(s.world.get(140).unwrap().cell.selected());
}

#[test]
fn control_group_and_focus() {
    let mut s = State::new(80, 50);
    s.load_ctrl_group(vec![3, 140]);
    assert_eq!(s.selected, vec![3, 140]);
    assert!(s.world.get(3).unwrap().cell.selected());
    assert!(!s.world.get(4).unwrap().cell.selected());
    s.focus_cell();
    assert_eq!((s.camera.x, s.camera.y), (0, -10));
}

#[test]
fn frame_advances_the_battle() {
    let mut s = State::new(80, 50);
    s.dt = 100;
    s.frame();
    let e = s.world.get(0).unwrap();
    assert_eq!(e.cell.tic, 200);
    assert_eq!(e.unit.tic, 100);
}
