use flag_frenzy::boxes::{find_struck_box, initialize_boxes, respawn_box, BOX_COUNT};
use flag_frenzy::combat::{
    count_id, credit_shooters, is_hit_by, resolve_player_hits, respawn_player, strike_players,
};
use flag_frenzy::server::{
    add_player, find_player, handle_bullet_cmd, handle_player_cmd, remove_player, step, Acceptor,
    Simulation, SCORE_PERIOD_NANOS,
};
use flag_frenzy::shared::{
    whole_units, Bullet, GameState, Player, WoodBox, FLAG_REST_X, FLAG_REST_Y, SPAWN_X, SPAWN_Y,
    WINDOW_SIZE_X, WINDOW_SIZE_Y,
};
use flag_frenzy::simulation::{
    advance_bullets, award_flag_point, capture_flag, find_holder, give_flag, lower_score,
    prune_bullets, raise_score,
};
use flag_frenzy::spots::{find_free_spot, is_crowding, is_spot_free, scan_free_spot};

fn player(id: u32, x: i32, y: i32) -> Player {
    Player { id, x, y, has_flag: false, respawn_num: 0, score: 0 }
}

fn still_bullet(owner_id: u32, x: i32, y: i32) -> Bullet {
    Bullet { x, y, dx: 0, dy: 0, owner_id }
}

fn world(players: Vec<Player>, bullets: Vec<Bullet>, boxes: Vec<WoodBox>) -> GameState {
    GameState {
        players,
        flag_x: FLAG_REST_X,
        flag_y: FLAG_REST_Y,
        flag_owner_id: None,
        bullets,
        boxes,
    }
}

fn crowded_players() -> Vec<Player> {
    let mut players = Vec::new();
    let mut id = 1;
    for a in 0..42 {
        for b in 0..31 {
            players.push(player(id, 19_000 * a, 19_000 * b));
            id += 1;
        }
    }
    players
}

fn is_clear_of_everything(state: &GameState, x: i32, y: i32, but_box: usize) -> bool {
    state.players.iter().all(|p| !is_crowding(p.x, p.y, x, y))
        && state
            .boxes
            .iter()
            .enumerate()
            .all(|(j, c)| j == but_box || !is_crowding(c.x, c.y, x, y))
}

#[test]
fn new_world_is_empty_with_the_flag_at_rest() {
    let state = GameState::new();
    assert!(state.players.is_empty());
    assert!(state.bullets.is_empty());
    assert!(state.boxes.is_empty());
    assert_eq!((state.flag_x, state.flag_y), (400_000, 300_000));
    assert_eq!(state.flag_owner_id, None);
    assert_eq!((WINDOW_SIZE_X, WINDOW_SIZE_Y), (800, 600));
}

#[test]
fn new_player_stands_at_the_spawn_point() {
    let p = Player::new(9);
    assert_eq!(p, Player { id: 9, x: 100_000, y: 100_000, has_flag: false, respawn_num: 0, score: 0 });
    assert_eq!((SPAWN_X, SPAWN_Y), (100_000, 100_000));
}

#[test]
fn whole_units_scales_by_a_thousand() {
    assert_eq!(whole_units(0), 0);
    assert_eq!(whole_units(780), 780_000);
}

#[test]
fn respawn_at_moves_and_counts() {
    let mut p = Player { id: 1, x: 5, y: 6, has_flag: true, respawn_num: 3, score: -4 };
    p.respawn_at(7000, 8000);
    assert_eq!(p, Player { id: 1, x: 7000, y: 8000, has_flag: true, respawn_num: 4, score: -4 });
}

#[test]
fn respawn_counter_stops_at_the_top() {
    let mut p = player(1, 0, 0);
    p.respawn_num = u32::MAX;
    p.respawn_at(1000, 1000);
    assert_eq!(p.respawn_num, u32::MAX);
    p.respawn();
    assert_eq!(p.respawn_num, u32::MAX);
}

#[test]
fn respawn_lands_on_whole_units_inside_the_arena() {
    let mut p = player(1, -5, -5);
    let mut xs = Vec::new();
    let mut ys = Vec::new();
    for round in 0..200u32 {
        p.respawn();
        assert!(0 <= p.x && p.x <= 780_000);
        assert!(0 <= p.y && p.y <= 580_000);
        assert_eq!(p.x % 1000, 0);
        assert_eq!(p.y % 1000, 0);
        assert_eq!(p.respawn_num, round + 1);
        xs.push(p.x);
        ys.push(p.y);
    }
    assert!(xs.iter().any(|&x| x != xs[0]));
    assert!(ys.iter().any(|&y| y != ys[0]));
    assert!(xs.iter().any(|&x| x != 780_000));
    assert!(ys.iter().any(|&y| y != 580_000));
}

#[test]
fn crowding_needs_both_axes_within_ten_units() {
    assert!(is_crowding(0, 0, 9_999, 9_999));
    assert!(is_crowding(0, 0, -9_999, 9_999));
    assert!(!is_crowding(0, 0, 10_000, 0));
    assert!(!is_crowding(0, 0, 0, 10_000));
    assert!(!is_crowding(0, 0, 0, -10_000));
    assert!(is_crowding(i32::MAX, 0, i32::MAX, 0));
    assert!(!is_crowding(i32::MIN, 0, i32::MAX, 0));
}

#[test]
fn spot_is_free_away_from_players_and_boxes() {
    let state = world(
        vec![player(1, 100_000, 100_000)],
        vec![],
        vec![WoodBox { x: 300_000, y: 300_000 }],
    );
    assert!(is_spot_free(200_000, 200_000, &state));
    assert!(!is_spot_free(105_000, 95_000, &state));
    assert!(!is_spot_free(300_000, 309_999, &state));
    assert!(is_spot_free(110_000, 100_000, &state));
    assert!(is_spot_free(300_000, 310_000, &state));
    assert!(is_spot_free(0, 0, &GameState::new()));
}

#[test]
fn free_spot_is_a_free_candidate() {
    let state = world(
        vec![player(1, 100_000, 100_000)],
        vec![],
        vec![WoodBox { x: 300_000, y: 300_000 }],
    );
    for _ in 0..50 {
        let (x, y) = find_free_spot(&state).unwrap();
        assert!(0 <= x && x <= 779_000);
        assert!(0 <= y && y <= 579_000);
        assert_eq!((x % 1000, y % 1000), (0, 0));
        assert!(is_spot_free(x, y, &state));
    }
}

#[test]
fn free_spots_vary() {
    let state = GameState::new();
    let first = find_free_spot(&state).unwrap();
    let mut varied = false;
    for _ in 0..100 {
        if find_free_spot(&state).unwrap() != first {
            varied = true;
        }
    }
    assert!(varied);
}

#[test]
fn scan_finds_the_first_free_candidate_in_order() {
    assert_eq!(scan_free_spot(&GameState::new()), Some((0, 0)));
    let state = world(vec![player(1, 0, 0)], vec![], vec![]);
    assert_eq!(scan_free_spot(&state), Some((0, 10_000)));
}

#[test]
fn search_finds_the_only_free_spot() {
    let mut players = crowded_players();
    // Take out the player that alone crowds the last corner of the grid.
    let last = players.pop().unwrap();
    assert_eq!((last.x, last.y), (779_000, 570_000));
    let state = world(players, vec![], vec![]);
    let (x, y) = find_free_spot(&state).unwrap();
    assert!(is_spot_free(x, y, &state));
    assert!(x >= 770_000 && y >= 561_000);
}

#[test]
fn crowded_world_has_no_free_spot() {
    let state = world(crowded_players(), vec![], vec![]);
    assert_eq!(scan_free_spot(&state), None);
    assert_eq!(find_free_spot(&state), None);
}

#[test]
fn box_stays_when_the_world_is_crowded() {
    let mut state = world(crowded_players(), vec![], vec![WoodBox { x: 5_000, y: 5_000 }]);
    respawn_box(&mut state, 0);
    assert_eq!(state.boxes, vec![WoodBox { x: 5_000, y: 5_000 }]);
}

#[test]
fn respawned_box_takes_a_free_spot() {
    let mut state = world(
        vec![player(1, 100_000, 100_000), player(2, 500_000, 500_000)],
        vec![still_bullet(1, 1, 1)],
        vec![
            WoodBox { x: 10_000, y: 10_000 },
            WoodBox { x: 50_000, y: 50_000 },
            WoodBox { x: 90_000, y: 90_000 },
        ],
    );
    let before = state.clone();
    for _ in 0..50 {
        let old = state.boxes[1];
        respawn_box(&mut state, 1);
        assert_eq!(state.boxes.len(), 3);
        assert_eq!(state.boxes[0], before.boxes[0]);
        assert_eq!(state.boxes[2], before.boxes[2]);
        assert_eq!(state.players, before.players);
        assert_eq!(state.bullets, before.bullets);
        let new = state.boxes[1];
        assert!(0 <= new.x && new.x <= 779_000 && new.x % 1000 == 0);
        assert!(0 <= new.y && new.y <= 579_000 && new.y % 1000 == 0);
        assert!(is_clear_of_everything(&state, new.x, new.y, 1));
        assert!(!is_crowding(old.x, old.y, new.x, new.y));
    }
}

#[test]
fn server_sets_out_twenty_spaced_boxes() {
    let mut state = GameState::new();
    initialize_boxes(&mut state);
    assert_eq!(BOX_COUNT, 20);
    assert_eq!(state.boxes.len(), 20);
    for (j, c) in state.boxes.iter().enumerate() {
        assert!(0 <= c.x && c.x <= 779_000 && c.x % 1000 == 0);
        assert!(0 <= c.y && c.y <= 579_000 && c.y % 1000 == 0);
        assert!(is_clear_of_everything(&state, c.x, c.y, j));
    }
    assert!(state.players.is_empty());
    assert!(state.bullets.is_empty());
}

#[test]
fn setting_out_boxes_keeps_what_is_there() {
    let mut state = world(
        vec![player(1, 100_000, 100_000)],
        vec![],
        vec![WoodBox { x: 1, y: 2 }],
    );
    initialize_boxes(&mut state);
    assert_eq!(state.boxes.len(), 21);
    assert_eq!(state.boxes[0], WoodBox { x: 1, y: 2 });
    for (j, c) in state.boxes.iter().enumerate().skip(1) {
        assert!(is_clear_of_everything(&state, c.x, c.y, j));
    }
}

#[test]
fn setting_out_boxes_stops_when_the_world_is_crowded() {
    let mut state = world(crowded_players(), vec![], vec![]);
    initialize_boxes(&mut state);
    assert!(state.boxes.is_empty());
}

#[test]
fn bullet_strikes_the_first_box_in_reach() {
    let boxes = vec![
        WoodBox { x: 100_000, y: 100_000 },
        WoodBox { x: 210_000, y: 200_000 },
        WoodBox { x: 200_000, y: 200_000 },
    ];
    assert_eq!(find_struck_box(&still_bullet(1, 205_000, 200_000), &boxes), Some(1));
    assert_eq!(find_struck_box(&still_bullet(1, 100_000, 119_999), &boxes), Some(0));
    assert_eq!(find_struck_box(&still_bullet(1, 100_000, 120_000), &boxes), None);
    assert_eq!(find_struck_box(&still_bullet(1, 0, 0), &Vec::new()), None);
}

#[test]
fn bullets_advance_and_strike_boxes() {
    let mut state = world(
        vec![player(1, 700_000, 500_000)],
        vec![
            Bullet { x: 0, y: 0, dx: 1000, dy: 0, owner_id: 1 },
            Bullet { x: 300_000, y: 300_000, dx: 1000, dy: 0, owner_id: 1 },
            Bullet { x: 10_000, y: 10_000, dx: 0, dy: -1000, owner_id: 2 },
        ],
        vec![WoodBox { x: 300_000, y: 310_000 }, WoodBox { x: 600_000, y: 100_000 }],
    );
    advance_bullets(&mut state);
    assert_eq!(
        state.bullets,
        vec![
            Bullet { x: 20_000, y: 0, dx: 1000, dy: 0, owner_id: 1 },
            Bullet { x: 10_000, y: -10_000, dx: 0, dy: -1000, owner_id: 2 },
        ]
    );
    assert_eq!(state.boxes.len(), 2);
    assert_eq!(state.boxes[1], WoodBox { x: 600_000, y: 100_000 });
    let moved = state.boxes[0];
    assert_ne!(moved, WoodBox { x: 300_000, y: 310_000 });
    assert!(is_clear_of_everything(&state, moved.x, moved.y, 0));
    assert!(!is_crowding(300_000, 310_000, moved.x, moved.y));
    assert_eq!(state.players, vec![player(1, 700_000, 500_000)]);
}

#[test]
fn bullet_is_tested_where_it_stood_before_the_tick() {
    // After its move the bullet would be out of reach of the box.
    let mut state = world(
        vec![],
        vec![Bullet { x: 100_000, y: 100_000, dx: 1000, dy: 0, owner_id: 1 }],
        vec![WoodBox { x: 100_000, y: 100_000 }],
    );
    advance_bullets(&mut state);
    assert!(state.bullets.is_empty());
    // Before its move this bullet is out of reach, after it in reach.
    let mut state = world(
        vec![],
        vec![Bullet { x: 80_000, y: 100_000, dx: 1000, dy: 0, owner_id: 1 }],
        vec![WoodBox { x: 100_000, y: 100_000 }],
    );
    advance_bullets(&mut state);
    assert_eq!(state.bullets.len(), 1);
    assert_eq!(state.boxes, vec![WoodBox { x: 100_000, y: 100_000 }]);
}

#[test]
fn two_bullets_on_one_box_both_go() {
    let mut state = world(
        vec![],
        vec![still_bullet(1, 100_000, 100_000), still_bullet(2, 101_000, 100_000), still_bullet(3, 1, 1)],
        vec![WoodBox { x: 100_000, y: 100_000 }],
    );
    advance_bullets(&mut state);
    assert_eq!(state.bullets, vec![still_bullet(3, 1, 1)]);
    assert_eq!(state.boxes.len(), 1);
    assert!(!is_crowding(100_000, 100_000, state.boxes[0].x, state.boxes[0].y)
        || state.boxes[0] == WoodBox { x: 100_000, y: 100_000 });
}

#[test]
fn window_edges_keep_a_bullet() {
    let mut state = world(
        vec![],
        vec![
            still_bullet(1, 0, 0),
            still_bullet(2, 800_000, 600_000),
            still_bullet(3, 800_001, 0),
            still_bullet(4, 0, 600_001),
            still_bullet(5, -1, 5),
            still_bullet(6, 5, -1),
            still_bullet(7, 400_000, 300_000),
        ],
        vec![],
    );
    prune_bullets(&mut state);
    assert_eq!(
        state.bullets,
        vec![still_bullet(1, 0, 0), still_bullet(2, 800_000, 600_000), still_bullet(7, 400_000, 300_000)]
    );
}

#[test]
fn first_player_in_reach_takes_the_flag() {
    let mut state = world(
        vec![
            player(1, 100_000, 100_000),
            player(2, 400_000, 309_999),
            player(3, 400_000, 300_000),
        ],
        vec![],
        vec![],
    );
    assert!(capture_flag(&mut state));
    assert_eq!(state.flag_owner_id, Some(2));
    assert_eq!((state.flag_x, state.flag_y), (400_000, 309_999));
    assert_eq!(
        state.players.iter().map(|p| p.has_flag).collect::<Vec<bool>>(),
        vec![false, true, false]
    );
    // The holder is still in reach: nothing new.
    assert!(!capture_flag(&mut state));
    assert_eq!(state.flag_owner_id, Some(2));
}

#[test]
fn pickup_radius_is_exclusive() {
    let mut state = world(vec![player(1, 410_000, 300_000)], vec![], vec![]);
    assert!(!capture_flag(&mut state));
    assert_eq!(state.flag_owner_id, None);
    assert!(!state.players[0].has_flag);
    assert_eq!((state.flag_x, state.flag_y), (400_000, 300_000));
    state.players[0].x = 409_999;
    assert!(capture_flag(&mut state));
    assert_eq!(state.flag_owner_id, Some(1));
}

#[test]
fn flag_follows_a_holder_that_walked_out_of_reach() {
    let mut state = world(
        vec![Player { has_flag: true, ..player(1, 450_000, 300_000) }],
        vec![],
        vec![],
    );
    state.flag_owner_id = Some(1);
    assert!(!step(&mut state, 500_000_000));
    assert_eq!((state.flag_x, state.flag_y), (450_000, 300_000));
    assert!(state.players[0].has_flag);
    assert_eq!(state.flag_owner_id, Some(1));
    assert_eq!(state.players[0].score, 0);
}

#[test]
fn capture_check_keeps_the_flag_with_its_holder() {
    let mut state = world(
        vec![
            player(1, 100_000, 100_000),
            Player { has_flag: true, ..player(2, 700_000, 50_000) },
            Player { has_flag: true, ..player(3, 10_000, 10_000) },
        ],
        vec![],
        vec![],
    );
    assert!(!capture_flag(&mut state));
    assert_eq!((state.flag_x, state.flag_y), (700_000, 50_000));
    assert_eq!(state.flag_owner_id, Some(2));
    assert_eq!(
        state.players.iter().map(|p| p.has_flag).collect::<Vec<bool>>(),
        vec![false, true, false]
    );
}

#[test]
fn player_in_reach_of_the_flag_takes_it_from_a_holder_out_of_reach() {
    let mut state = world(
        vec![Player { has_flag: true, ..player(1, 450_000, 300_000) }, player(2, 400_000, 300_000)],
        vec![],
        vec![],
    );
    state.flag_owner_id = Some(1);
    assert!(capture_flag(&mut state));
    assert_eq!((state.flag_x, state.flag_y), (400_000, 300_000));
    assert_eq!(state.flag_owner_id, Some(2));
    assert!(!state.players[0].has_flag);
    assert!(state.players[1].has_flag);
}

#[test]
fn give_flag_makes_one_holder() {
    let mut state = world(
        vec![Player { has_flag: true, ..player(1, 1, 2) }, player(2, 3, 4)],
        vec![],
        vec![],
    );
    give_flag(&mut state, 1);
    assert_eq!((state.flag_x, state.flag_y), (3, 4));
    assert_eq!(state.flag_owner_id, Some(2));
    assert!(!state.players[0].has_flag);
    assert!(state.players[1].has_flag);
    assert_eq!(find_holder(&state), Some(1));
    state.players[1].has_flag = false;
    assert_eq!(find_holder(&state), None);
}

#[test]
fn respawned_player_takes_a_free_spot() {
    let mut state = world(
        vec![player(1, 100_000, 100_000), player(2, 500_000, 500_000)],
        vec![],
        vec![WoodBox { x: 300_000, y: 300_000 }],
    );
    for round in 0..50u32 {
        let old = state.players[0];
        respawn_player(&mut state, 0);
        let new = state.players[0];
        assert_eq!(new, Player { x: new.x, y: new.y, respawn_num: round + 1, ..old });
        assert!(0 <= new.x && new.x <= 779_000 && new.x % 1000 == 0);
        assert!(0 <= new.y && new.y <= 579_000 && new.y % 1000 == 0);
        assert!(!is_crowding(old.x, old.y, new.x, new.y));
        assert!(!is_crowding(500_000, 500_000, new.x, new.y));
        assert!(!is_crowding(300_000, 300_000, new.x, new.y));
        assert_eq!(state.players[1], player(2, 500_000, 500_000));
    }
}

#[test]
fn flag_changes_hands_to_an_earlier_player() {
    let mut state = world(
        vec![player(1, 100_000, 100_000), player(2, 400_000, 300_000)],
        vec![],
        vec![],
    );
    assert!(capture_flag(&mut state));
    assert!(state.players[1].has_flag);
    state.players[0].x = 395_000;
    state.players[0].y = 300_000;
    assert!(capture_flag(&mut state));
    assert_eq!(state.flag_owner_id, Some(1));
    assert_eq!((state.flag_x, state.flag_y), (395_000, 300_000));
    assert!(state.players[0].has_flag);
    assert!(!state.players[1].has_flag);
    assert_eq!(state.players.iter().filter(|p| p.has_flag).count(), 1);
}

#[test]
fn score_tick_pays_the_holder() {
    let mut state = world(vec![player(1, 0, 0), player(2, 0, 0), player(3, 0, 0)], vec![], vec![]);
    award_flag_point(&mut state);
    assert_eq!(state.players.iter().map(|p| p.score).collect::<Vec<i32>>(), vec![0, 0, 0]);
    state.players[1].has_flag = true;
    award_flag_point(&mut state);
    award_flag_point(&mut state);
    assert_eq!(state.players.iter().map(|p| p.score).collect::<Vec<i32>>(), vec![0, 2, 0]);
}

#[test]
fn scores_stop_at_the_ends_of_the_range() {
    assert_eq!(raise_score(5, 3), 8);
    assert_eq!(raise_score(-5, 0), -5);
    assert_eq!(raise_score(i32::MAX, 1), i32::MAX);
    assert_eq!(raise_score(i32::MAX - 1, 7), i32::MAX);
    assert_eq!(raise_score(i32::MIN, usize::MAX), i32::MAX);
    assert_eq!(raise_score(i32::MIN, 1), i32::MIN + 1);
    assert_eq!(lower_score(0), -1);
    assert_eq!(lower_score(i32::MIN), i32::MIN);
    assert_eq!(lower_score(i32::MIN + 1), i32::MIN);
}

#[test]
fn hit_radius_is_exclusive_and_own_bullets_pass() {
    let p = player(1, 100_000, 100_000);
    assert!(is_hit_by(&p, &still_bullet(2, 100_000, 119_999)));
    assert!(!is_hit_by(&p, &still_bullet(2, 100_000, 120_000)));
    assert!(!is_hit_by(&p, &still_bullet(1, 100_000, 100_000)));
    assert!(is_hit_by(&p, &still_bullet(2, 112_000, 112_000)));
    assert!(!is_hit_by(&p, &still_bullet(2, 115_000, 115_000)));
}

#[test]
fn count_id_counts() {
    assert_eq!(count_id(&vec![1, 2, 1, 3, 1], 1), 3);
    assert_eq!(count_id(&vec![1, 2, 1, 3, 1], 2), 1);
    assert_eq!(count_id(&vec![1, 2, 1, 3, 1], 4), 0);
    assert_eq!(count_id(&Vec::new(), 4), 0);
}

#[test]
fn struck_players_pay_and_shooters_are_listed() {
    let mut state = world(
        vec![player(1, 100_000, 100_000), player(2, 500_000, 100_000), player(3, 300_000, 500_000)],
        vec![],
        vec![],
    );
    state.players[1].has_flag = true;
    let shots = vec![
        still_bullet(1, 500_000, 100_000),
        still_bullet(3, 505_000, 100_000),
        still_bullet(2, 500_000, 100_000),
        still_bullet(3, 100_000, 101_000),
    ];
    let shooters = strike_players(&mut state, &shots);
    assert_eq!(shooters, vec![3, 1, 3]);
    assert_eq!(state.players[0].respawn_num, 1);
    assert_eq!(state.players[0].score, -1);
    assert_eq!(state.players[1].respawn_num, 1);
    assert_eq!(state.players[1].score, -1);
    assert!(!state.players[1].has_flag);
    assert_eq!(state.players[2], player(3, 300_000, 500_000));
    credit_shooters(&mut state, &shooters);
    assert_eq!(state.players.iter().map(|p| p.score).collect::<Vec<i32>>(), vec![0, -1, 2]);
}

#[test]
fn two_bullets_on_one_player_cost_once_and_pay_twice() {
    let mut state = world(
        vec![player(1, 100_000, 100_000), player(2, 700_000, 100_000), player(3, 400_000, 500_000)],
        vec![still_bullet(1, 400_000, 505_000), still_bullet(2, 395_000, 500_000)],
        vec![],
    );
    step(&mut state, 0);
    let c = state.players[2];
    assert_eq!(c.id, 3);
    assert_eq!(c.respawn_num, 1);
    assert_eq!(c.score, -1);
    assert!(0 <= c.x && c.x <= 780_000 && 0 <= c.y && c.y <= 580_000);
    assert!(is_clear_of_everything(&world(vec![state.players[0], state.players[1]], vec![], vec![]), c.x, c.y, 0));
    assert_eq!(state.players[0], Player { score: 1, ..player(1, 100_000, 100_000) });
    assert_eq!(state.players[1], Player { score: 1, ..player(2, 700_000, 100_000) });
    assert_eq!(state.bullets.len(), 2);
}

#[test]
fn one_bullet_on_two_players_pays_twice() {
    let mut state = world(
        vec![player(1, 100_000, 100_000), player(2, 105_000, 100_000), player(3, 700_000, 500_000)],
        vec![],
        vec![],
    );
    resolve_player_hits(&mut state, &vec![still_bullet(3, 102_000, 100_000)]);
    assert_eq!(state.players[0].score, -1);
    assert_eq!(state.players[1].score, -1);
    assert_eq!(state.players[2], Player { score: 2, ..player(3, 700_000, 500_000) });
}

#[test]
fn shot_of_an_absent_owner_pays_nobody() {
    let mut state = world(vec![player(1, 100_000, 100_000)], vec![], vec![]);
    resolve_player_hits(&mut state, &vec![still_bullet(9, 100_000, 100_000)]);
    assert_eq!(state.players[0].score, -1);
    assert_eq!(state.players[0].respawn_num, 1);
}

#[test]
fn hit_player_respawns_somewhere_in_a_crowded_world() {
    let mut state = world(crowded_players(), vec![], vec![]);
    let victim = state.players[0];
    resolve_player_hits(&mut state, &vec![still_bullet(0, victim.x, victim.y)]);
    let after = state.players[0];
    assert_eq!(after.respawn_num, 1);
    assert_eq!(after.score, -1);
    assert!(0 <= after.x && after.x <= 780_000 && after.x % 1000 == 0);
    assert!(0 <= after.y && after.y <= 580_000 && after.y % 1000 == 0);
}

#[test]
fn hit_player_loses_at_the_bottom_of_the_range_nothing_more() {
    let mut state = world(vec![player(1, 100_000, 100_000)], vec![], vec![]);
    state.players[0].score = i32::MIN;
    state.players[0].respawn_num = u32::MAX;
    resolve_player_hits(&mut state, &vec![still_bullet(2, 100_000, 100_000)]);
    assert_eq!(state.players[0].score, i32::MIN);
    assert_eq!(state.players[0].respawn_num, u32::MAX);
}

#[test]
fn player_on_the_flag_owns_it_at_once_and_scores_after_a_second() {
    let mut state = GameState::new();
    let mut acceptor = Acceptor::new();
    assert_eq!(acceptor.accept(&mut state), Some(1));
    handle_player_cmd(&mut state, &player(1, 400_000, 300_000));
    assert!(step(&mut state, 0));
    assert_eq!(state.flag_owner_id, Some(1));
    assert!(state.players[0].has_flag);
    assert_eq!(state.players[0].score, 0);
    assert!(!step(&mut state, 999_999_999));
    assert_eq!(state.players[0].score, 0);
    assert!(!step(&mut state, SCORE_PERIOD_NANOS));
    assert_eq!(state.players[0].score, 0);
    assert!(step(&mut state, SCORE_PERIOD_NANOS + 1));
    assert_eq!(state.players[0].score, 1);
    assert_eq!(state.flag_owner_id, Some(1));
    assert!(state.players[0].has_flag);
}

#[test]
fn new_capture_restarts_the_timer_without_paying() {
    let mut state = world(vec![player(1, 400_000, 300_000)], vec![], vec![]);
    assert!(step(&mut state, 5 * SCORE_PERIOD_NANOS));
    assert!(state.players[0].has_flag);
    assert_eq!(state.players[0].score, 0);
}

#[test]
fn timer_restarts_after_a_second_without_a_holder() {
    let mut state = world(vec![player(1, 100_000, 100_000)], vec![], vec![]);
    assert!(step(&mut state, SCORE_PERIOD_NANOS + 1));
    assert_eq!(state.players[0].score, 0);
    assert!(!step(&mut state, 1));
}

#[test]
fn stale_position_update_changes_nothing() {
    let mut state = world(
        vec![player(1, 100_000, 100_000), player(2, 700_000, 500_000)],
        vec![still_bullet(2, 100_000, 100_000)],
        vec![],
    );
    step(&mut state, 0);
    assert_eq!(state.players[0].respawn_num, 1);
    let held = state.players[0];
    handle_player_cmd(&mut state, &player(1, 105_000, 100_000));
    assert_eq!(state.players[0], held);
    let mut fresh = player(1, 105_000, 100_000);
    fresh.respawn_num = 1;
    handle_player_cmd(&mut state, &fresh);
    assert_eq!(state.players[0], Player { x: 105_000, y: 100_000, ..held });
}

#[test]
fn position_update_takes_the_position_only() {
    let mut state = world(vec![player(1, 100_000, 100_000)], vec![], vec![]);
    let update = Player { id: 1, x: 7, y: -8, has_flag: true, respawn_num: 9, score: 99 };
    handle_player_cmd(&mut state, &update);
    assert_eq!(state.players, vec![player(1, 7, -8)]);
}

#[test]
fn position_update_for_an_unknown_player_changes_nothing() {
    let mut state = world(vec![player(1, 100_000, 100_000)], vec![], vec![]);
    let before = state.clone();
    handle_player_cmd(&mut state, &player(2, 7, 8));
    assert_eq!(state, before);
}

#[test]
fn fire_command_adds_the_bullet_as_it_is() {
    let mut state = GameState::new();
    let wild = Bullet { x: i32::MIN, y: i32::MAX, dx: 123_456, dy: -7, owner_id: 42 };
    handle_bullet_cmd(&mut state, wild);
    handle_bullet_cmd(&mut state, still_bullet(1, 2, 3));
    assert_eq!(state.bullets, vec![wild, still_bullet(1, 2, 3)]);
}

#[test]
fn find_player_finds_the_first_with_the_id() {
    let state = world(vec![player(4, 0, 0), player(5, 1, 1), player(5, 2, 2)], vec![], vec![]);
    assert_eq!(find_player(&state, 5), Some(1));
    assert_eq!(find_player(&state, 4), Some(0));
    assert_eq!(find_player(&state, 6), None);
}

#[test]
fn players_join_and_leave() {
    let mut state = GameState::new();
    add_player(&mut state, 1);
    add_player(&mut state, 2);
    add_player(&mut state, 3);
    assert_eq!(state.players, vec![Player::new(1), Player::new(2), Player::new(3)]);
    remove_player(&mut state, 2);
    assert_eq!(state.players, vec![Player::new(1), Player::new(3)]);
    remove_player(&mut state, 2);
    assert_eq!(state.players, vec![Player::new(1), Player::new(3)]);
    remove_player(&mut state, 1);
    remove_player(&mut state, 3);
    assert!(state.players.is_empty());
}

#[test]
fn acceptor_counts_from_one() {
    let mut state = GameState::new();
    let mut acceptor = Acceptor::new();
    assert_eq!(acceptor.issued, 0);
    assert_eq!(acceptor.accept(&mut state), Some(1));
    assert_eq!(acceptor.accept(&mut state), Some(2));
    remove_player(&mut state, 1);
    assert_eq!(acceptor.accept(&mut state), Some(3));
    assert_eq!(state.players, vec![Player::new(2), Player::new(3)]);
    assert_eq!(acceptor.issued, 3);
}

#[test]
fn acceptor_stops_when_identifiers_run_out() {
    let mut state = GameState::new();
    let mut acceptor = Acceptor { issued: u32::MAX - 1 };
    assert_eq!(acceptor.accept(&mut state), Some(u32::MAX));
    assert_eq!(acceptor.accept(&mut state), None);
    assert_eq!(acceptor.issued, u32::MAX);
    assert_eq!(state.players, vec![Player::new(u32::MAX)]);
}

#[test]
fn struck_box_is_replaced_by_one_spaced_box() {
    let mut state = GameState::new();
    add_player(&mut state, 1);
    initialize_boxes(&mut state);
    for round in 0..30 {
        let target = state.boxes[round % 20];
        handle_bullet_cmd(&mut state, still_bullet(1, target.x, target.y + 19_000));
        let before = state.clone();
        step(&mut state, 0);
        assert_eq!(state.boxes.len(), 20);
        assert!(state.bullets.is_empty());
        let mut replaced = 0;
        for (j, c) in state.boxes.iter().enumerate() {
            if *c != before.boxes[j] {
                replaced += 1;
                assert!(0 <= c.x && c.x <= 779_000 && c.x % 1000 == 0);
                assert!(0 <= c.y && c.y <= 579_000 && c.y % 1000 == 0);
            }
            assert!(is_clear_of_everything(&state, c.x, c.y, j));
        }
        assert_eq!(replaced, 1);
    }
}

#[test]
fn respawn_counter_never_decreases() {
    let mut state = world(
        vec![player(1, 100_000, 100_000), player(2, 700_000, 500_000)],
        vec![],
        vec![],
    );
    let mut last = 0;
    for round in 0..40u32 {
        let victim = state.players[0];
        if round % 3 == 0 {
            handle_bullet_cmd(&mut state, still_bullet(2, victim.x, victim.y));
        }
        let mut update = player(1, victim.x + 1000, victim.y);
        update.respawn_num = round % 5;
        handle_player_cmd(&mut state, &update);
        step(&mut state, 0);
        assert!(state.players[0].respawn_num >= last);
        last = state.players[0].respawn_num;
    }
    assert!(last >= 1);
}

#[test]
fn flag_follows_its_only_holder_over_ticks() {
    let mut state = world(
        vec![player(1, 100_000, 100_000), player(2, 400_000, 300_000), player(3, 402_000, 300_000)],
        vec![],
        vec![],
    );
    for round in 0..20 {
        step(&mut state, 0);
        let holders: Vec<&Player> = state.players.iter().filter(|p| p.has_flag).collect();
        assert_eq!(holders.len(), 1);
        assert_eq!(holders[0].id, 2);
        assert_eq!((state.flag_x, state.flag_y), (holders[0].x, holders[0].y));
        assert_eq!(state.flag_owner_id, Some(2));
        // The holder walks on: at first by less than the pickup radius,
        // then, away from the others, by more.
        let mut update = *holders[0];
        update.x += 5_000;
        if round >= 10 {
            update.y += 35_000;
        }
        handle_player_cmd(&mut state, &update);
    }
    // A hit takes the flag away and leaves it where it stood.
    let holder = state.players[1];
    handle_bullet_cmd(&mut state, still_bullet(1, holder.x, holder.y));
    let (fx, fy) = (state.flag_x, state.flag_y);
    step(&mut state, 0);
    let (nx, ny) = (holder.x, holder.y);
    assert!(state.players.iter().filter(|p| p.has_flag).count() <= 1);
    assert!(!state.players[1].has_flag);
    assert_eq!((state.flag_x, state.flag_y), (nx, ny));
    assert!((nx - fx).abs() <= 5_000 && (ny - fy).abs() <= 35_000);
}

#[test]
fn bullets_only_grow_by_fire_commands() {
    let mut state = world(vec![], vec![], vec![]);
    let mut fired = 0;
    for round in 0..60 {
        if round % 2 == 0 {
            handle_bullet_cmd(&mut state, Bullet { x: 400_000, y: 300_000, dx: 1000, dy: 0, owner_id: 1 });
            fired += 1;
        }
        let before = state.bullets.len();
        step(&mut state, 0);
        assert!(state.bullets.len() <= before);
        for b in &state.bullets {
            assert!(0 <= b.x && b.x <= 800_000 && 0 <= b.y && b.y <= 600_000);
        }
    }
    // A bullet crosses the 400 units to the edge in 20 ticks.
    assert_eq!(fired, 30);
    assert_eq!(state.bullets.len(), 10);
}

#[test]
fn bullet_that_left_the_window_is_gone_for_good() {
    let mut state = world(
        vec![],
        vec![Bullet { x: 790_000, y: 300_000, dx: 1000, dy: 0, owner_id: 1 }],
        vec![],
    );
    step(&mut state, 0);
    assert!(state.bullets.is_empty());
    for _ in 0..5 {
        step(&mut state, 0);
        assert!(state.bullets.is_empty());
    }
}

#[test]
fn tick_by_the_clock_captures_and_does_not_pay_at_once() {
    let mut state = world(vec![player(1, 400_000, 300_000)], vec![], vec![]);
    let mut simulation = Simulation::new();
    simulation.tick(&mut state);
    assert_eq!(state.flag_owner_id, Some(1));
    assert!(state.players[0].has_flag);
    for _ in 0..10 {
        simulation.tick(&mut state);
    }
    assert_eq!(state.players[0].score, 0);
}
