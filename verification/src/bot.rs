//! The bot controller: where a bot walks and what it shoots at.

use crate::clock::{clock_now, nanos_since};
use crate::geometry::{
    clamp_coord, distance, get_distance, normalize, normalized, saturate, shift, shifted,
};
use crate::rng::random_up_to;
use crate::server::{find_player, index_of};
use crate::shared::{Bullet, GameState, Player, WoodBox, World};
use tokio::time::Instant;
use vstd::prelude::*;

verus! {

/// World units that a bot walks in one turn.
pub const BOT_STEP: i32 = 5;

/// A bot this close to where it was heading picks a new wander point.
pub const ARRIVAL_RADIUS: u64 = 10_000;

/// A box farther away than this is never in the way.
pub const BLOCKING_RANGE: u64 = 50_000;

/// How much longer than the straight way the way past a box may be for the
/// box still to count as on the path.
pub const PATH_SLACK: u64 = 10_000;

/// A bot shoots at players closer than this.
pub const SIGHT_RANGE: u64 = 200_000;

/// Largest abscissa of a wander point.
pub const WANDER_MAX_X: u32 = 799_999;

/// Largest ordinate of a wander point.
pub const WANDER_MAX_Y: u32 = 599_999;

/// A bot: the player it steers, the point it wanders to while it holds the
/// flag, and when it last fired.
pub struct Bot {
    pub player_id: u32,
    pub target_x: i32,
    pub target_y: i32,
    pub last_shot_time: Instant,
}

/// What a bot did in one turn: the player as it stands now, and the bullets
/// fired.
pub struct BotTurn {
    pub player: Player,
    pub shots: Vec<Bullet>,
}

/// The difference `to - from`, held at the ends of the stored range.
pub open spec fn offset(from: int, to: int) -> int {
    clamp_coord(to - from)
}

/// The unit direction from `(x, y)` to `(tx, ty)`.
pub open spec fn heading(x: int, y: int, tx: int, ty: int) -> (int, int) {
    normalized(offset(x, tx), offset(y, ty))
}

/// The player one bot step closer to `(tx, ty)`.
pub open spec fn stepped_towards(p: Player, tx: int, ty: int) -> Player {
    let (dx, dy) = heading(p.x as int, p.y as int, tx, ty);
    Player {
        x: shifted(p.x as int, dx, BOT_STEP as int) as i32,
        y: shifted(p.y as int, dy, BOT_STEP as int) as i32,
        ..p
    }
}

/// Whether the player stands within the arrival radius of `(tx, ty)`.
pub open spec fn arrived(p: Player, tx: int, ty: int) -> bool {
    distance(p.x as int, tx, p.y as int, ty) < ARRIVAL_RADIUS
}

/// Whether `(x, y)` is a point that a bot may choose to wander to.
pub open spec fn wander_point(x: int, y: int) -> bool {
    0 <= x <= WANDER_MAX_X && 0 <= y <= WANDER_MAX_Y
}

/// The bullet that `p` fires in the direction `(dx, dy)`.
pub open spec fn fired_by(p: Player, dx: i32, dy: i32) -> Bullet {
    Bullet { x: p.x, y: p.y, dx, dy, owner_id: p.id }
}

/// The bullet that `p` fires at `(tx, ty)`.
pub open spec fn aimed_at(p: Player, tx: int, ty: int) -> Bullet {
    let (dx, dy) = heading(p.x as int, p.y as int, tx, ty);
    fired_by(p, dx as i32, dy as i32)
}

/// Whether the box is in the way of a player heading for `(tx, ty)`: it is
/// within the blocking range, and the way past it is not longer than the
/// straight way plus the slack.
pub open spec fn blocks_path(p: Player, c: WoodBox, tx: int, ty: int) -> bool {
    let to_box = distance(p.x as int, c.x as int, p.y as int, c.y as int);
    let box_to_target = distance(c.x as int, tx, c.y as int, ty);
    let to_target = distance(p.x as int, tx, p.y as int, ty);
    to_box < BLOCKING_RANGE && to_box + box_to_target < to_target + PATH_SLACK
}

/// Index of the nearest of the first `n` boxes that block the path, the
/// first of them when several are equally near; `-1` when none blocks it.
pub open spec fn nearest_blocking_upto(
    p: Player,
    boxes: Seq<WoodBox>,
    tx: int,
    ty: int,
    n: int,
) -> int
    decreases n,
{
    if n <= 0 || n > boxes.len() {
        -1
    } else {
        let best = nearest_blocking_upto(p, boxes, tx, ty, n - 1);
        if !blocks_path(p, boxes[n - 1], tx, ty) {
            best
        } else if best < 0
            || distance(p.x as int, boxes[n - 1].x as int, p.y as int, boxes[n - 1].y as int)
            < distance(p.x as int, boxes[best].x as int, p.y as int, boxes[best].y as int) {
            n - 1
        } else {
            best
        }
    }
}

/// Index of the nearest box that blocks the path; `-1` when none does.
pub open spec fn nearest_blocking(p: Player, boxes: Seq<WoodBox>, tx: int, ty: int) -> int {
    nearest_blocking_upto(p, boxes, tx, ty, boxes.len() as int)
}

/// Whether `q` is another player within sight of `p`.
pub open spec fn in_sight(p: Player, q: Player) -> bool {
    q.id != p.id && distance(p.x as int, q.x as int, p.y as int, q.y as int) < SIGHT_RANGE
}

/// One bullet for each of the first `n` players that is within sight of
/// `p`, in their order.
pub open spec fn shots_at_players_upto(p: Player, players: Seq<Player>, n: int) -> Seq<Bullet>
    decreases n,
{
    if n <= 0 || n > players.len() {
        Seq::empty()
    } else if in_sight(p, players[n - 1]) {
        shots_at_players_upto(p, players, n - 1).push(
            aimed_at(p, players[n - 1].x as int, players[n - 1].y as int),
        )
    } else {
        shots_at_players_upto(p, players, n - 1)
    }
}

/// The shots that the bot's player `p` would like to fire: one at the
/// nearest box that blocks the path to `(tx, ty)`, then one at every other
/// player within sight.
pub open spec fn planned_shots(p: Player, w: World, tx: int, ty: int) -> Seq<Bullet> {
    let b = nearest_blocking(p, w.boxes, tx, ty);
    let at_box = if b >= 0 {
        seq![aimed_at(p, w.boxes[b].x as int, w.boxes[b].y as int)]
    } else {
        Seq::empty()
    };
    at_box + shots_at_players_upto(p, w.players, w.players.len() as int)
}

/// The nearest blocking box blocks the path, and no blocking box is nearer
/// or equally near with a smaller index.
pub proof fn lemma_nearest_blocking(p: Player, boxes: Seq<WoodBox>, tx: int, ty: int, n: int)
    requires
        0 <= n <= boxes.len(),
    ensures
        -1 <= nearest_blocking_upto(p, boxes, tx, ty, n) < n,
        nearest_blocking_upto(p, boxes, tx, ty, n) >= 0 ==> blocks_path(
            p,
            boxes[nearest_blocking_upto(p, boxes, tx, ty, n)],
            tx,
            ty,
        ),
        forall|j: int| 0 <= j < n && blocks_path(p, #[trigger] boxes[j], tx, ty) ==> {
            let best = nearest_blocking_upto(p, boxes, tx, ty, n);
            let near = distance(p.x as int, boxes[best].x as int, p.y as int, boxes[best].y as int);
            let far = distance(p.x as int, boxes[j].x as int, p.y as int, boxes[j].y as int);
            best >= 0 && (near < far || (near == far && best <= j))
        },
    decreases n,
{
    if n > 0 {
        lemma_nearest_blocking(p, boxes, tx, ty, n - 1);
    }
}

/// The direction from `(x, y)` to `(tx, ty)`.
pub fn head_for(x: i32, y: i32, tx: i32, ty: i32) -> (d: (i32, i32))
    ensures
        (d.0 as int, d.1 as int) == heading(x as int, y as int, tx as int, ty as int),
{
    normalize((saturate(tx as i64 - x as i64), saturate(ty as i64 - y as i64)))
}

/// The bullet that `player` fires in the direction `(dx, dy)`.
pub fn fire(player: &Player, dx: i32, dy: i32) -> (bullet: Bullet)
    ensures
        bullet == fired_by(*player, dx, dy),
{
    Bullet { x: player.x, y: player.y, dx, dy, owner_id: player.id }
}

/// The bullet that `player` fires at `(tx, ty)`.
pub fn aim(player: &Player, tx: i32, ty: i32) -> (bullet: Bullet)
    ensures
        bullet == aimed_at(*player, tx as int, ty as int),
{
    let (dx, dy) = head_for(player.x, player.y, tx, ty);
    fire(player, dx, dy)
}

/// What firing in the direction `(dx, dy)` yields `elapsed_nanos` after the
/// last shot: the bullet when the cooldown is over, else nothing.
pub open spec fn shot_allowed(p: Player, dx: i32, dy: i32, elapsed_nanos: u128) -> Option<Bullet> {
    if elapsed_nanos > Bot::SHOOT_FREQ_MILLIS * 1_000_000 {
        Some(fired_by(p, dx, dy))
    } else {
        None
    }
}

/// The shots of one turn with the plan `plan`, `elapsed_nanos` after the
/// last shot: the first planned shot when the cooldown is over, else none.
pub open spec fn fired_of(plan: Seq<Bullet>, elapsed_nanos: u128) -> Seq<Bullet> {
    if elapsed_nanos > Bot::SHOOT_FREQ_MILLIS * 1_000_000 && plan.len() > 0 {
        seq![plan[0]]
    } else {
        Seq::empty()
    }
}

/// Whether a shot is allowed `elapsed_nanos` after the last one.
pub fn cooldown_over(elapsed_nanos: u128) -> (over: bool)
    ensures
        over == (elapsed_nanos > Bot::SHOOT_FREQ_MILLIS * 1_000_000),
{
    elapsed_nanos > Bot::SHOOT_FREQ_MILLIS as u128 * 1_000_000
}

/// Fires what one turn allows of the plan, `elapsed_nanos` after the last
/// shot: the first planned shot when the cooldown is over, else nothing.
pub fn fire_planned(plan: &Vec<Bullet>, elapsed_nanos: u128) -> (shots: Vec<Bullet>)
    ensures
        shots@ == fired_of(plan@, elapsed_nanos),
{
    let mut shots: Vec<Bullet> = Vec::new();
    if cooldown_over(elapsed_nanos) && plan.len() > 0 {
        shots.push(plan[0]);
    }
    shots
}

impl Bot {
    /// Milliseconds that must pass between two shots.
    pub const SHOOT_FREQ_MILLIS: u64 = 400;

    /// A bot for the player `player_id` that wanders to `(target_x,
    /// target_y)` and has just fired.
    pub fn with_target(player_id: u32, target_x: i32, target_y: i32) -> (bot: Bot)
        ensures
            bot.player_id == player_id,
            bot.target_x == target_x,
            bot.target_y == target_y,
    {
        Bot { player_id, target_x, target_y, last_shot_time: clock_now() }
    }

    /// A bot for the player `player_id` with a random wander point.
    pub fn new(player_id: u32) -> (bot: Bot)
        ensures
            bot.player_id == player_id,
            wander_point(bot.target_x as int, bot.target_y as int),
    {
        let x = random_up_to(WANDER_MAX_X);
        let y = random_up_to(WANDER_MAX_Y);
        Bot::with_target(player_id, x as i32, y as i32)
    }

    /// Walks `player` one step towards `(target_x, target_y)`. When that
    /// brings it within the arrival radius, the bot picks a new random
    /// wander point.
    pub fn move_towards(&mut self, target_x: i32, target_y: i32, player: &mut Player)
        ensures
            *final(player) == stepped_towards(*old(player), target_x as int, target_y as int),
            final(self).player_id == old(self).player_id,
            if arrived(*final(player), target_x as int, target_y as int) {
                wander_point(final(self).target_x as int, final(self).target_y as int)
            } else {
                final(self).target_x == old(self).target_x
                    && final(self).target_y == old(self).target_y
            },
    {
        let (dx, dy) = head_for(player.x, player.y, target_x, target_y);
        player.x = shift(player.x, dx, BOT_STEP);
        player.y = shift(player.y, dy, BOT_STEP);
        if get_distance(player.x, target_x, player.y, target_y) < ARRIVAL_RADIUS {
            self.target_x = random_up_to(WANDER_MAX_X) as i32;
            self.target_y = random_up_to(WANDER_MAX_Y) as i32;
        }
    }

    /// Whether the cooldown since the last shot is over, by the clock.
    pub fn can_shoot(&self) -> (ready: bool) {
        cooldown_over(nanos_since(&self.last_shot_time))
    }

    /// The shot in the direction `(dx, dy)` that is fired `elapsed_nanos`
    /// after the last one: none while the cooldown lasts.
    pub fn shot_after(
        player: &Player,
        dx: i32,
        dy: i32,
        elapsed_nanos: u128,
    ) -> (shot: Option<Bullet>)
        ensures
            shot == shot_allowed(*player, dx, dy, elapsed_nanos),
    {
        if cooldown_over(elapsed_nanos) {
            Some(fire(player, dx, dy))
        } else {
            None
        }
    }

    /// Fires in the direction `(dx, dy)` if the cooldown is over by the
    /// clock, and then starts the cooldown anew. Whatever the clock said,
    /// what comes back is a `shot_allowed` for some time since the last
    /// shot.
    pub fn shoot(&mut self, player: &Player, dx: i32, dy: i32) -> (shot: Option<Bullet>)
        ensures
            exists|elapsed_nanos: u128| shot
                == #[trigger] shot_allowed(*player, dx, dy, elapsed_nanos),
            final(self).player_id == old(self).player_id,
            final(self).target_x == old(self).target_x,
            final(self).target_y == old(self).target_y,
    {
        let elapsed_nanos = nanos_since(&self.last_shot_time);
        let shot = Bot::shot_after(player, dx, dy, elapsed_nanos);
        if shot.is_some() {
            self.last_shot_time = clock_now();
        }
        assert(shot == shot_allowed(*player, dx, dy, elapsed_nanos));
        shot
    }

    /// Whether the box is in the way of `player` on its way to the bot's
    /// wander point.
    pub fn is_box_blocking_path(&self, player: &Player, box_item: &WoodBox) -> (blocking: bool)
        ensures
            blocking == blocks_path(*player, *box_item, self.target_x as int, self.target_y as int),
    {
        let bot_to_target_distance = get_distance(player.x, self.target_x, player.y, self.target_y);
        let bot_to_box_distance = get_distance(player.x, box_item.x, player.y, box_item.y);
        let box_to_target_distance = get_distance(
            box_item.x,
            self.target_x,
            box_item.y,
            self.target_y,
        );
        proof {
            crate::geometry::lemma_distance_bounded(player.x as int,
                self.target_x as int,
                player.y as int,
                self.target_y as int);
            crate::geometry::lemma_distance_bounded(player.x as int,
                box_item.x as int,
                player.y as int,
                box_item.y as int);
            crate::geometry::lemma_distance_bounded(box_item.x as int,
                self.target_x as int,
                box_item.y as int,
                self.target_y as int);
        }
        bot_to_box_distance < BLOCKING_RANGE && bot_to_box_distance + box_to_target_distance
            < bot_to_target_distance + PATH_SLACK
    }
}

/// Where the bot is heading: the flag while its player does not hold it,
/// else the wander point.
pub open spec fn goal(bot: Bot, p: Player, w: World) -> (int, int) {
    if !p.has_flag {
        (w.flag_x, w.flag_y)
    } else {
        (bot.target_x as int, bot.target_y as int)
    }
}

impl Bot {
    /// Finds the nearest box that is in the way of `player`.
    pub fn find_blocking_box(&self, player: &Player, boxes: &Vec<WoodBox>) -> (found: Option<usize>)
        ensures
            match found {
                Some(b) => b < boxes.len() && b == nearest_blocking(
                    *player,
                    boxes@,
                    self.target_x as int,
                    self.target_y as int,
                ),
                None => nearest_blocking(*player,
                    boxes@,
                    self.target_x as int,
                    self.target_y as int)
                    == -1,
            },
    {
        let mut found: Option<usize> = None;
        let mut nearest: u64 = 0;
        let mut j: usize = 0;
        while j < boxes.len()
            invariant
                j <= boxes.len(),
                match found {
                    Some(b) => b < j && b == nearest_blocking_upto(
                        *player,
                        boxes@,
                        self.target_x as int,
                        self.target_y as int,
                        j as int,
                    ) && nearest == distance(
                        player.x as int,
                        boxes@[b as int].x as int,
                        player.y as int,
                        boxes@[b as int].y as int,
                    ),
                    None => nearest_blocking_upto(
                        *player,
                        boxes@,
                        self.target_x as int,
                        self.target_y as int,
                        j as int,
                    ) == -1,
                },
            decreases boxes.len() - j,
        {
            if self.is_box_blocking_path(player, &boxes[j]) {
                let d = get_distance(player.x, boxes[j].x, player.y, boxes[j].y);
                if found.is_none() || d < nearest {
                    found = Some(j);
                    nearest = d;
                }
            }
            j += 1;
        }
        found
    }

    /// The shots that `player` would like to fire: one at the nearest box
    /// in its way, then one at every other player within sight.
    pub fn plan_shots(&self, player: &Player, state: &GameState) -> (plan: Vec<Bullet>)
        ensures
            plan@ == planned_shots(*player, state@, self.target_x as int, self.target_y as int),
    {
        let mut plan: Vec<Bullet> = Vec::new();
        match self.find_blocking_box(player, &state.boxes) {
            Some(b) => {
                plan.push(aim(player, state.boxes[b].x, state.boxes[b].y));
            },
            None => {},
        }
        let ghost at_box = plan@;
        let mut i: usize = 0;
        while i < state.players.len()
            invariant
                i <= state.players.len(),
                plan@ == at_box + shots_at_players_upto(*player, state.players@, i as int),
            decreases state.players.len() - i,
        {
            let other = state.players[i];
            if other.id != player.id && get_distance(player.x, other.x, player.y, other.y)
                < SIGHT_RANGE {
                plan.push(aim(player, other.x, other.y));
            }
            i += 1;
        }
        plan
    }

    /// One turn of the bot. Without its player in the world it idles. Else
    /// the player walks one step: towards the flag while it does not hold
    /// it, towards the wander point while it does. Then the bot reads the
    /// clock once and fires the first shot it planned if the cooldown is
    /// over, which starts the cooldown anew: at most one shot in a turn.
    pub fn update(&mut self, state: &mut GameState) -> (turn: Option<BotTurn>)
        ensures
            final(self).player_id == old(self).player_id,
            old(state)@.wf() ==> final(state)@.wf(),
            match turn {
                None => {
                    &&& index_of(old(state)@.players, old(self).player_id)
                        == old(state)@.players.len()
                    &&& final(state)@ == old(state)@
                    &&& final(self).target_x == old(self).target_x
                    &&& final(self).target_y == old(self).target_y
                },
                Some(done) => {
                    let k = index_of(old(state)@.players, old(self).player_id);
                    let (gx, gy) = goal(*old(self), old(state)@.players[k], old(state)@);
                    let plan = planned_shots(
                        done.player,
                        old(state)@,
                        final(self).target_x as int,
                        final(self).target_y as int,
                    );
                    &&& k < old(state)@.players.len()
                    &&& done.player == stepped_towards(old(state)@.players[k], gx, gy)
                    &&& final(state)@ == (World {
                        players: old(state)@.players.update(k, done.player),
                        ..old(state)@
                    })
                    &&& if arrived(done.player, gx, gy) {
                        wander_point(final(self).target_x as int, final(self).target_y as int)
                    } else {
                        final(self).target_x == old(self).target_x
                            && final(self).target_y == old(self).target_y
                    }
                    &&& done.shots@.len() <= 1
                    &&& exists|elapsed_nanos: u128|
                        done.shots@ == #[trigger] fired_of(plan, elapsed_nanos)
                },
            },
    {
        let k = match find_player(state, self.player_id) {
            Some(k) => k,
            None => {
                return None;
            },
        };
        let mut player = state.players[k];
        if !player.has_flag {
            self.move_towards(state.flag_x, state.flag_y, &mut player);
        } else {
            self.move_towards(self.target_x, self.target_y, &mut player);
        }
        let plan = self.plan_shots(&player, state);
        let elapsed_nanos = nanos_since(&self.last_shot_time);
        let shots = fire_planned(&plan, elapsed_nanos);
        if shots.len() > 0 {
            self.last_shot_time = clock_now();
        }
        assert(shots@ == fired_of(plan@, elapsed_nanos));
        state.players.set(k, player);
        assert(state@.players =~= old(state)@.players.update(k as int, player));
        proof {
            crate::laws::lemma_move_one(old(state)@, k as int, player.x, player.y);
            assert(player
                == (Player { x: player.x, y: player.y, ..old(state)@.players[k as int] }));
        }
        Some(BotTurn { player, shots })
    }
}

} // verus!
