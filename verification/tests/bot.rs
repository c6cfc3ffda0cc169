use flag_frenzy::bot::{aim, cooldown_over, fire, fire_planned, head_for, Bot};
use flag_frenzy::shared::{Bullet, GameState, Player, WoodBox};
use std::time::Duration;
use tokio::time::Instant;

fn player_at(id: u32, x: i32, y: i32) -> Player {
    Player { id, x, y, has_flag: false, respawn_num: 0, score: 0 }
}

fn world_of(players: Vec<Player>, boxes: Vec<WoodBox>) -> GameState {
    GameState {
        players,
        flag_x: 400_000,
        flag_y: 300_000,
        flag_owner_id: None,
        bullets: Vec::new(),
        boxes,
    }
}

fn rested(mut bot: Bot) -> Bot {
    bot.last_shot_time = Instant::now().checked_sub(Duration::from_millis(500)).unwrap();
    bot
}

#[test]
fn new_bot_wanders_inside_the_window() {
    let mut xs = Vec::new();
    for _ in 0..100 {
        let bot = Bot::new(7);
        assert_eq!(bot.player_id, 7);
        assert!(0 <= bot.target_x && bot.target_x < 800_000);
        assert!(0 <= bot.target_y && bot.target_y < 600_000);
        xs.push(bot.target_x);
    }
    assert!(xs.iter().any(|&x| x != xs[0]));
    assert!(xs.iter().any(|&x| x != 799_999));
}

#[test]
fn bot_with_target_keeps_it() {
    let bot = Bot::with_target(3, 10, 20);
    assert_eq!((bot.player_id, bot.target_x, bot.target_y), (3, 10, 20));
}

#[test]
fn heading_is_the_unit_direction() {
    assert_eq!(head_for(0, 0, 30_000, 40_000), (600, 800));
    assert_eq!(head_for(30_000, 40_000, 0, 0), (-600, -800));
    assert_eq!(head_for(5, 5, 5, 5), (0, 0));
    assert_eq!(head_for(i32::MIN, 0, i32::MAX, 0), (1000, 0));
}

#[test]
fn fire_and_aim_start_at_the_player() {
    let p = player_at(4, 100_000, 200_000);
    assert_eq!(fire(&p, 1, 2), Bullet { x: 100_000, y: 200_000, dx: 1, dy: 2, owner_id: 4 });
    assert_eq!(
        aim(&p, 130_000, 240_000),
        Bullet { x: 100_000, y: 200_000, dx: 600, dy: 800, owner_id: 4 }
    );
}

#[test]
fn cooldown_lasts_four_hundred_milliseconds() {
    assert_eq!(Bot::SHOOT_FREQ_MILLIS, 400);
    assert!(!cooldown_over(0));
    assert!(!cooldown_over(400_000_000));
    assert!(cooldown_over(400_000_001));
    assert!(cooldown_over(u128::MAX));
}

#[test]
fn shot_after_the_cooldown_only() {
    let p = player_at(1, 5, 6);
    assert_eq!(Bot::shot_after(&p, 1, 2, 400_000_000), None);
    assert_eq!(
        Bot::shot_after(&p, 1, 2, 400_000_001),
        Some(Bullet { x: 5, y: 6, dx: 1, dy: 2, owner_id: 1 })
    );
}

#[test]
fn one_turn_fires_the_first_planned_shot_after_the_cooldown() {
    let first = Bullet { x: 1, y: 2, dx: 3, dy: 4, owner_id: 5 };
    let second = Bullet { x: 1, y: 2, dx: -3, dy: -4, owner_id: 5 };
    let plan = vec![first, second];
    assert_eq!(fire_planned(&plan, 400_000_001), vec![first]);
    assert_eq!(fire_planned(&plan, u128::MAX), vec![first]);
    assert!(fire_planned(&plan, 400_000_000).is_empty());
    assert!(fire_planned(&plan, 0).is_empty());
    assert!(fire_planned(&Vec::new(), 400_000_001).is_empty());
}

#[test]
fn cooldown_by_the_clock() {
    let bot = Bot::with_target(1, 0, 0);
    assert!(!bot.can_shoot());
    assert!(rested(bot).can_shoot());
}

#[test]
fn fresh_bot_cannot_shoot_yet() {
    let p = player_at(1, 0, 0);
    let mut bot = Bot::with_target(1, 0, 0);
    assert_eq!(bot.shoot(&p, 1000, 0), None);
    let mut bot = rested(bot);
    assert!(bot.shoot(&p, 1000, 0).is_some());
}

#[test]
fn shot_starts_the_cooldown() {
    let mut bot = rested(Bot::with_target(1, 0, 0));
    let p = player_at(1, 5, 6);
    assert_eq!(bot.shoot(&p, 600, 800), Some(Bullet { x: 5, y: 6, dx: 600, dy: 800, owner_id: 1 }));
    assert_eq!(bot.shoot(&p, 600, 800), None);
    assert_eq!(bot.shoot(&p, 0, 1000), None);
}

#[test]
fn bot_walks_five_units_towards_its_target() {
    let mut bot = Bot::with_target(1, 700_000, 500_000);
    let mut p = player_at(1, 0, 0);
    bot.move_towards(30_000, 40_000, &mut p);
    assert_eq!(p, player_at(1, 3_000, 4_000));
    assert_eq!((bot.target_x, bot.target_y), (700_000, 500_000));
    bot.move_towards(3_000, -96_000, &mut p);
    assert_eq!(p, player_at(1, 3_000, -1_000));
}

#[test]
fn bot_picks_a_new_wander_point_on_arrival() {
    let mut seen = Vec::new();
    for _ in 0..50 {
        let mut bot = Bot::with_target(1, -5, -5);
        let mut p = player_at(1, 100_000, 100_000);
        bot.move_towards(112_000, 100_000, &mut p);
        assert_eq!(p, player_at(1, 105_000, 100_000));
        assert!(0 <= bot.target_x && bot.target_x < 800_000);
        assert!(0 <= bot.target_y && bot.target_y < 600_000);
        seen.push((bot.target_x, bot.target_y));
    }
    assert!(seen.iter().any(|&t| t != seen[0]));
}

#[test]
fn arrival_radius_is_exclusive() {
    let mut bot = Bot::with_target(1, -5, -5);
    let mut p = player_at(1, 100_000, 100_000);
    bot.move_towards(115_000, 100_000, &mut p);
    assert_eq!(p.x, 105_000);
    assert_eq!((bot.target_x, bot.target_y), (-5, -5));
}

#[test]
fn box_blocks_the_path_when_near_and_on_the_way() {
    let bot = Bot::with_target(1, 200_000, 0);
    let p = player_at(1, 0, 0);
    assert!(bot.is_box_blocking_path(&p, &WoodBox { x: 30_000, y: 0 }));
    assert!(bot.is_box_blocking_path(&p, &WoodBox { x: 49_999, y: 0 }));
    assert!(!bot.is_box_blocking_path(&p, &WoodBox { x: 50_000, y: 0 }));
    assert!(!bot.is_box_blocking_path(&p, &WoodBox { x: 0, y: 45_000 }));
    assert!(!bot.is_box_blocking_path(&p, &WoodBox { x: -30_000, y: 0 }));
    // Behind the player the way past the box is 10 units longer: not less.
    assert!(!bot.is_box_blocking_path(&p, &WoodBox { x: -5_000, y: 0 }));
    assert!(bot.is_box_blocking_path(&p, &WoodBox { x: -4_999, y: 0 }));
}

#[test]
fn plan_aims_at_the_nearest_blocking_box_then_at_players_in_sight() {
    let bot = Bot::with_target(1, 200_000, 0);
    let me = player_at(1, 0, 0);
    let state = world_of(
        vec![
            player_at(2, 0, 100_000),
            me,
            player_at(3, 0, 200_000),
            player_at(4, -199_999, 0),
            player_at(1, 10_000, 0),
        ],
        vec![
            WoodBox { x: 40_000, y: 0 },
            WoodBox { x: 0, y: 45_000 },
            WoodBox { x: 20_000, y: 0 },
            WoodBox { x: 0, y: -20_000 },
            WoodBox { x: 20_000, y: 0 },
        ],
    );
    assert_eq!(bot.find_blocking_box(&me, &state.boxes), Some(2));
    assert_eq!(
        bot.plan_shots(&me, &state),
        vec![
            Bullet { x: 0, y: 0, dx: 1000, dy: 0, owner_id: 1 },
            Bullet { x: 0, y: 0, dx: 0, dy: 1000, owner_id: 1 },
            Bullet { x: 0, y: 0, dx: -1000, dy: 0, owner_id: 1 },
        ]
    );
}

#[test]
fn plan_is_empty_with_nothing_around() {
    let bot = Bot::with_target(1, 200_000, 0);
    let me = player_at(1, 0, 0);
    let state = world_of(vec![me, player_at(2, 500_000, 500_000)], vec![WoodBox { x: 300_000, y: 300_000 }]);
    assert_eq!(bot.find_blocking_box(&me, &state.boxes), None);
    assert!(bot.plan_shots(&me, &state).is_empty());
}

#[test]
fn bot_without_its_player_idles() {
    let mut bot = rested(Bot::with_target(9, 1, 2));
    let mut state = world_of(vec![player_at(1, 0, 0)], vec![]);
    let before = state.clone();
    assert!(bot.update(&mut state).is_none());
    assert_eq!(state, before);
    assert_eq!((bot.target_x, bot.target_y), (1, 2));
}

#[test]
fn bot_walks_to_the_flag_and_holds_fire_during_cooldown() {
    let mut bot = Bot::with_target(2, 700_000, 500_000);
    let mut state = world_of(vec![player_at(1, 390_000, 230_000), player_at(2, 370_000, 260_000)], vec![]);
    let turn = bot.update(&mut state).unwrap();
    assert_eq!(turn.player, player_at(2, 373_000, 264_000));
    assert_eq!(state.players, vec![player_at(1, 390_000, 230_000), player_at(2, 373_000, 264_000)]);
    assert!(turn.shots.is_empty());
    assert_eq!((bot.target_x, bot.target_y), (700_000, 500_000));
}

#[test]
fn bot_with_the_flag_walks_to_its_wander_point() {
    let mut bot = Bot::with_target(2, 100_000, 300_000);
    let mut holder = player_at(2, 400_000, 300_000);
    holder.has_flag = true;
    let mut state = world_of(vec![holder], vec![]);
    let turn = bot.update(&mut state).unwrap();
    assert_eq!(turn.player, Player { x: 395_000, ..holder });
    assert_eq!(state.players, vec![Player { x: 395_000, ..holder }]);
}

#[test]
fn rested_bot_fires_its_first_planned_shot() {
    let mut bot = rested(Bot::with_target(2, 100_000, 100_000));
    let mut state = world_of(
        vec![player_at(1, 100_000, 150_000), player_at(2, 100_000, 100_000), player_at(3, 150_000, 100_000)],
        vec![],
    );
    state.flag_x = 100_000;
    state.flag_y = 500_000;
    let turn = bot.update(&mut state).unwrap();
    assert_eq!(turn.player, player_at(2, 100_000, 105_000));
    assert_eq!(turn.shots, vec![Bullet { x: 100_000, y: 105_000, dx: 0, dy: 1000, owner_id: 2 }]);
    let turn = bot.update(&mut state).unwrap();
    assert!(turn.shots.is_empty());
}
