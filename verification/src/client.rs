//! What a client makes of its player's input before it tells the server:
//! one walking step per frame, and a shot at the point that was clicked.

use crate::bot::{aim, aimed_at};
use crate::geometry::{clamp_coord, distance, get_distance, saturate, UNIT};
use crate::server::{find_player, index_of};
use crate::shared::{Bullet, GameState, Player, WoodBox, World, PLAYER_RADIUS};
use vstd::prelude::*;

verus! {

/// Length of one walking step.
pub const WALK_STEP: i32 = 5_000;

/// A player walks right only left of this line.
pub const WALK_EDGE_X: i32 = 780_000;

/// A player walks down only above this line.
pub const WALK_EDGE_Y: i32 = 580_000;

/// The four walking keys, each pressed or not.
pub struct Keys {
    pub up: bool,
    pub down: bool,
    pub left: bool,
    pub right: bool,
}

/// The step along one axis: back while the coordinate is above zero and the
/// back key is pressed; else forth while it is below `edge` and the forth
/// key is pressed; else none.
pub open spec fn axis_step(at: int, edge: int, back: bool, forth: bool) -> int {
    if at > 0 && back {
        -WALK_STEP
    } else if at < edge && forth {
        WALK_STEP as int
    } else {
        0
    }
}

/// Where a player that tried the step `(dx, dy)` and now stands at `(x, y)`
/// stands after the first `n` boxes have been tested: for every box that
/// is within the player's radius of where the player stands at that
/// moment, the step is taken back once.
pub open spec fn backed_off(
    x: int,
    y: int,
    dx: int,
    dy: int,
    boxes: Seq<WoodBox>,
    n: int) -> (int, int,
)
    decreases n,
{
    if n <= 0 || n > boxes.len() {
        (x, y)
    } else {
        let (px, py) = backed_off(x, y, dx, dy, boxes, n - 1);
        if distance(px, boxes[n - 1].x as int, py, boxes[n - 1].y as int) < PLAYER_RADIUS {
            (clamp_coord(px - dx), clamp_coord(py - dy))
        } else {
            (px, py)
        }
    }
}

/// The player after one frame with `keys` pressed.
pub open spec fn walked(p: Player, keys: Keys, boxes: Seq<WoodBox>) -> Player {
    let dx = axis_step(p.x as int, WALK_EDGE_X as int, keys.left, keys.right);
    let dy = axis_step(p.y as int, WALK_EDGE_Y as int, keys.up, keys.down);
    let (x, y) = backed_off(
        clamp_coord(p.x + dx),
        clamp_coord(p.y + dy),
        dx,
        dy,
        boxes,
        boxes.len() as int,
    );
    Player { x: x as i32, y: y as i32, ..p }
}

/// The step along one axis.
pub fn step_on_axis(at: i32, edge: i32, back: bool, forth: bool) -> (step: i32)
    ensures
        step == axis_step(at as int, edge as int, back, forth),
{
    if at > 0 && back {
        -WALK_STEP
    } else if at < edge && forth {
        WALK_STEP
    } else {
        0
    }
}

/// Backed-off positions are stored coordinates.
pub proof fn lemma_backed_off_in_range(
    x: int,
    y: int,
    dx: int,
    dy: int,
    boxes: Seq<WoodBox>,
    n: int,
)
    requires
        i32::MIN <= x <= i32::MAX,
        i32::MIN <= y <= i32::MAX,
    ensures
        i32::MIN <= backed_off(x, y, dx, dy, boxes, n).0 <= i32::MAX,
        i32::MIN <= backed_off(x, y, dx, dy, boxes, n).1 <= i32::MAX,
    decreases n,
{
    if n > 0 && n <= boxes.len() {
        lemma_backed_off_in_range(x, y, dx, dy, boxes, n - 1);
    }
}

/// Moves the player by one frame: a step for the keys pressed, taken back
/// for every box that the player then stands too close to.
pub fn walk(player: &mut Player, keys: &Keys, boxes: &Vec<WoodBox>)
    ensures
        *final(player) == walked(*old(player), *keys, boxes@),
{
    let dx = step_on_axis(player.x, WALK_EDGE_X, keys.left, keys.right);
    let dy = step_on_axis(player.y, WALK_EDGE_Y, keys.up, keys.down);
    let ghost x0 = clamp_coord(player.x + dx);
    let ghost y0 = clamp_coord(player.y + dy);
    player.x = saturate(player.x as i64 + dx as i64);
    player.y = saturate(player.y as i64 + dy as i64);
    let mut j: usize = 0;
    while j < boxes.len()
        invariant
            j <= boxes.len(),
            player.id == old(player).id,
            player.has_flag == old(player).has_flag,
            player.respawn_num == old(player).respawn_num,
            player.score == old(player).score,
            (player.x as int, player.y as int)
                == backed_off(x0, y0, dx as int, dy as int, boxes@, j as int),
        decreases boxes.len() - j,
    {
        if get_distance(player.x, boxes[j].x, player.y, boxes[j].y) < PLAYER_RADIUS {
            player.x = saturate(player.x as i64 - dx as i64);
            player.y = saturate(player.y as i64 - dy as i64);
        }
        j += 1;
    }
    proof {
        lemma_backed_off_in_range(x0, y0, dx as int, dy as int, boxes@, boxes@.len() as int);
    }
}

/// The bullet that the player `player_id` fires at the point `(x, y)`, given
/// in whole world units; nothing when the player is not in the world.
pub open spec fn shot_at_click(w: World, player_id: u32, x: i32, y: i32) -> Option<Bullet> {
    let k = index_of(w.players, player_id);
    if k < w.players.len() {
        Some(aimed_at(w.players[k], clamp_coord(x * UNIT), clamp_coord(y * UNIT)))
    } else {
        None
    }
}

/// The fire command for a click at the point `(x, y)`, given in whole
/// world units.
pub fn shoot_at_click(state: &GameState, player_id: u32, x: i32, y: i32) -> (shot: Option<Bullet>)
    ensures
        shot == shot_at_click(state@, player_id, x, y),
{
    match find_player(state, player_id) {
        Some(k) => {
            let tx = saturate(x as i64 * UNIT as i64);
            let ty = saturate(y as i64 * UNIT as i64);
            Some(aim(&state.players[k], tx, ty))
        },
        None => None,
    }
}

} // verus!
