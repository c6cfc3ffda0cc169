use flag_frenzy::client::{shoot_at_click, step_on_axis, walk, Keys};
use flag_frenzy::shared::{Bullet, GameState, Player, WoodBox};

fn walker(x: i32, y: i32) -> Player {
    Player { id: 1, x, y, has_flag: true, respawn_num: 2, score: 3 }
}

fn keys(up: bool, down: bool, left: bool, right: bool) -> Keys {
    Keys { up, down, left, right }
}

#[test]
fn axis_step_prefers_the_back_key() {
    assert_eq!(step_on_axis(100_000, 780_000, true, true), -5_000);
    assert_eq!(step_on_axis(100_000, 780_000, false, true), 5_000);
    assert_eq!(step_on_axis(100_000, 780_000, false, false), 0);
    assert_eq!(step_on_axis(0, 780_000, true, true), 5_000);
    assert_eq!(step_on_axis(0, 780_000, true, false), 0);
    assert_eq!(step_on_axis(780_000, 780_000, false, true), 0);
    assert_eq!(step_on_axis(779_999, 780_000, false, true), 5_000);
    assert_eq!(step_on_axis(1, 780_000, true, false), -5_000);
}

#[test]
fn walk_takes_five_units_per_key() {
    let mut p = walker(100_000, 100_000);
    walk(&mut p, &keys(true, false, false, true), &Vec::new());
    assert_eq!(p, walker(105_000, 95_000));
    walk(&mut p, &keys(false, true, true, false), &Vec::new());
    assert_eq!(p, walker(100_000, 100_000));
    walk(&mut p, &keys(false, false, false, false), &Vec::new());
    assert_eq!(p, walker(100_000, 100_000));
}

#[test]
fn walk_stops_at_the_window() {
    let mut p = walker(0, 0);
    walk(&mut p, &keys(true, false, true, false), &Vec::new());
    assert_eq!(p, walker(0, 0));
    let mut p = walker(780_000, 580_000);
    walk(&mut p, &keys(false, true, false, true), &Vec::new());
    assert_eq!(p, walker(780_000, 580_000));
    let mut p = walker(2_000, 578_000);
    walk(&mut p, &keys(false, true, true, false), &Vec::new());
    assert_eq!(p, walker(-3_000, 583_000));
}

#[test]
fn walk_into_a_box_is_taken_back() {
    let boxes = vec![WoodBox { x: 124_000, y: 100_000 }];
    let mut p = walker(100_000, 100_000);
    walk(&mut p, &keys(false, false, false, true), &boxes);
    assert_eq!(p, walker(100_000, 100_000));
    let boxes = vec![WoodBox { x: 125_000, y: 100_000 }];
    walk(&mut p, &keys(false, false, false, true), &boxes);
    assert_eq!(p, walker(105_000, 100_000));
}

#[test]
fn walk_is_taken_back_once_for_every_box_in_reach() {
    let boxes = vec![
        WoodBox { x: 120_000, y: 100_000 },
        WoodBox { x: 300_000, y: 300_000 },
        WoodBox { x: 115_000, y: 100_000 },
    ];
    let mut p = walker(100_000, 100_000);
    walk(&mut p, &keys(false, false, false, true), &boxes);
    assert_eq!(p, walker(95_000, 100_000));
}

#[test]
fn click_fires_from_the_player_at_the_point() {
    let state = GameState {
        players: vec![walker(100_000, 100_000)],
        flag_x: 0,
        flag_y: 0,
        flag_owner_id: None,
        bullets: Vec::new(),
        boxes: Vec::new(),
    };
    assert_eq!(
        shoot_at_click(&state, 1, 130, 140),
        Some(Bullet { x: 100_000, y: 100_000, dx: 600, dy: 800, owner_id: 1 })
    );
    assert_eq!(
        shoot_at_click(&state, 1, 100, 100),
        Some(Bullet { x: 100_000, y: 100_000, dx: 0, dy: 0, owner_id: 1 })
    );
    assert_eq!(
        shoot_at_click(&state, 1, i32::MAX, 100),
        Some(Bullet { x: 100_000, y: 100_000, dx: 1000, dy: 0, owner_id: 1 })
    );
    assert_eq!(shoot_at_click(&state, 2, 130, 140), None);
}
