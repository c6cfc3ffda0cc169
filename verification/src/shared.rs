//! The world that the server owns and every client mirrors.

use crate::geometry::{clamp_coord, saturate, shift, shifted, UNIT};
use crate::rng::random_up_to;
use vstd::prelude::*;

verus! {

/// Width of the arena, in whole world units.
pub const WINDOW_SIZE_X: u32 = 800;

/// Height of the arena, in whole world units.
pub const WINDOW_SIZE_Y: u32 = 600;

/// Right edge of the arena as a stored coordinate.
pub const WINDOW_EDGE_X: i32 = 800_000;

/// Bottom edge of the arena as a stored coordinate.
pub const WINDOW_EDGE_Y: i32 = 600_000;

/// A bullet this close to a player's position hits the player.
pub const PLAYER_RADIUS: u64 = 20_000;

/// A bullet this close to a box's position destroys the box.
pub const BOX_SIZE: u64 = 20_000;

/// A player this close to the flag picks it up.
pub const PICKUP_RADIUS: u64 = 10_000;

/// Where a player stands when the connection is accepted.
pub const SPAWN_X: i32 = 100_000;

/// Where a player stands when the connection is accepted.
pub const SPAWN_Y: i32 = 100_000;

/// Where the flag rests before anyone has taken it.
pub const FLAG_REST_X: i32 = 400_000;

/// Where the flag rests before anyone has taken it.
pub const FLAG_REST_Y: i32 = 300_000;

/// Largest whole-unit abscissa that a respawning player may be given.
pub const RESPAWN_MAX_X: u32 = 780;

/// Largest whole-unit ordinate that a respawning player may be given.
pub const RESPAWN_MAX_Y: u32 = 580;

/// Tag that opens a position update on the wire.
pub const CMD_PLAYER: [u8; 6] = [80, 76, 65, 89, 69, 82];

/// Tag that opens a fire command on the wire.
pub const CMD_BULLET: [u8; 6] = [66, 85, 76, 76, 69, 84];

/// Bytes that close every command on the wire.
pub const CMD_SEPARATOR: [u8; 3] = [58, 68, 47];

/// One participant, human or bot.
#[derive(Clone, Copy, Debug, PartialEq, Eq, Structural)]
pub struct Player {
    pub id: u32,
    pub x: i32,
    pub y: i32,
    pub has_flag: bool,
    pub respawn_num: u32,
    pub score: i32,
}

/// A shot in flight; `dx` and `dy` hold a direction of length `UNIT`.
#[derive(Clone, Copy, Debug, PartialEq, Eq, Structural)]
pub struct Bullet {
    pub x: i32,
    pub y: i32,
    pub dx: i32,
    pub dy: i32,
    pub owner_id: u32,
}

/// An obstacle that gunfire relocates.
#[derive(Clone, Copy, Debug, PartialEq, Eq, Structural)]
pub struct WoodBox {
    pub x: i32,
    pub y: i32,
}

/// The whole shared world.
#[derive(Clone, Debug, PartialEq, Eq)]
pub struct GameState {
    pub players: Vec<Player>,
    pub flag_x: i32,
    pub flag_y: i32,
    pub flag_owner_id: Option<u32>,
    pub bullets: Vec<Bullet>,
    pub boxes: Vec<WoodBox>,
}

/// The mathematical view of a `GameState`.
pub struct World {
    pub players: Seq<Player>,
    pub flag_x: int,
    pub flag_y: int,
    pub flag_owner_id: Option<u32>,
    pub bullets: Seq<Bullet>,
    pub boxes: Seq<WoodBox>,
}

impl View for GameState {
    type V = World;

    open spec fn view(&self) -> World {
        World {
            players: self.players@,
            flag_x: self.flag_x as int,
            flag_y: self.flag_y as int,
            flag_owner_id: self.flag_owner_id,
            bullets: self.bullets@,
            boxes: self.boxes@,
        }
    }
}

/// Whether no two players share an identifier.
pub open spec fn unique_ids(players: Seq<Player>) -> bool {
    forall|i: int, j: int| 0 <= i < players.len() && 0 <= j < players.len() && i != j
        ==> (#[trigger] players[i]).id != (#[trigger] players[j]).id
}

/// Whether at most one player holds the flag.
pub open spec fn single_holder(players: Seq<Player>) -> bool {
    forall|i: int, j: int| 0 <= i < players.len()
        && 0 <= j < players.len()
        && (#[trigger] players[i]).has_flag
        && (#[trigger] players[j]).has_flag
        ==> i == j
}

/// Whether the flag's owner on record is whoever holds the flag.
pub open spec fn owner_is_holder(w: World) -> bool {
    forall|i: int| 0 <= i < w.players.len() && (#[trigger] w.players[i]).has_flag
        ==> w.flag_owner_id == Some(w.players[i].id)
}

/// Whether the flag stands where its holder stands, if anyone holds it.
pub open spec fn flag_with_holder(w: World) -> bool {
    forall|i: int| 0 <= i < w.players.len() && (#[trigger] w.players[i]).has_flag
        ==> w.flag_x == w.players[i].x && w.flag_y == w.players[i].y
}

impl World {
    /// Whether the world is well formed: no two players share an
    /// identifier, at most one player holds the flag, and the flag's owner
    /// on record is whoever holds it. Where the flag stands is no part of
    /// it: a position update may move the holder away from the flag, and
    /// the next tick brings the flag after it (`flag_with_holder`).
    pub open spec fn wf(self) -> bool {
        &&& unique_ids(self.players)
        &&& single_holder(self.players)
        &&& owner_is_holder(self)
    }
}

/// `n + 1`, held at the top of the `u32` range.
pub open spec fn bumped(n: u32) -> u32 {
    if n == u32::MAX {
        n
    } else {
        (n + 1) as u32
    }
}

/// `score + delta`, held at the ends of the `i32` range.
pub open spec fn score_plus(score: i32, delta: int) -> i32 {
    clamp_coord(score + delta) as i32
}

/// Whether `(x, y)` is a whole-unit position that a respawn may choose.
pub open spec fn respawn_point(x: int, y: int) -> bool {
    &&& 0 <= x <= RESPAWN_MAX_X * UNIT
    &&& 0 <= y <= RESPAWN_MAX_Y * UNIT
    &&& x % (UNIT as int) == 0
    &&& y % (UNIT as int) == 0
}

impl WoodBox {
    /// Where the box stands.
    pub open spec fn place(self) -> (int, int) {
        (self.x as int, self.y as int)
    }
}

impl Player {
    /// Where the player stands.
    pub open spec fn place(self) -> (int, int) {
        (self.x as int, self.y as int)
    }

    /// The player as the acceptor creates it: at the spawn point, without the
    /// flag, with no respawns and no score.
    pub open spec fn fresh(id: u32) -> Player {
        Player { id, x: SPAWN_X, y: SPAWN_Y, has_flag: false, respawn_num: 0, score: 0 }
    }

    /// The player after a respawn at `(x, y)`.
    pub open spec fn respawned_at(self, x: i32, y: i32) -> Player {
        Player { x, y, respawn_num: bumped(self.respawn_num), ..self }
    }

    /// A new player at the spawn point.
    pub fn new(id: u32) -> (p: Player)
        ensures
            p == Player::fresh(id),
    {
        Player { id, x: SPAWN_X, y: SPAWN_Y, has_flag: false, respawn_num: 0, score: 0 }
    }

    /// Puts the player at `(x, y)` and counts the respawn. The counter stops
    /// at the top of its range, so it never decreases.
    pub fn respawn_at(&mut self, x: i32, y: i32)
        ensures
            *final(self) == old(self).respawned_at(x, y),
            final(self).respawn_num >= old(self).respawn_num,
    {
        self.x = x;
        self.y = y;
        if self.respawn_num < u32::MAX {
            self.respawn_num = self.respawn_num + 1;
        }
    }

    /// Puts the player at a random whole-unit position of the arena and
    /// counts the respawn.
    pub fn respawn(&mut self)
        ensures
            respawn_point(final(self).x as int, final(self).y as int),
            *final(self) == old(self).respawned_at(final(self).x, final(self).y),
            final(self).respawn_num >= old(self).respawn_num,
    {
        let x = random_up_to(RESPAWN_MAX_X);
        let y = random_up_to(RESPAWN_MAX_Y);
        self.respawn_at(whole_units(x), whole_units(y));
    }
}

/// The stored coordinate of a whole-unit position, held at the top of the
/// stored range.
pub fn whole_units(n: u32) -> (c: i32)
    ensures
        c == clamp_coord(n * UNIT),
        n * UNIT <= i32::MAX ==> c % UNIT == 0,
{
    assert((n * 1000) % 1000 == 0) by (nonlinear_arith)
        requires
            n >= 0,
    ;
    saturate(n as i64 * UNIT as i64)
}

impl Bullet {
    /// World units that a bullet covers in one tick.
    pub const SPEED: i32 = 20;

    /// The bullet one tick later: moved by `SPEED` times its direction, each
    /// coordinate held at the ends of the stored range.
    pub open spec fn moved(self) -> Bullet {
        Bullet {
            x: shifted(self.x as int, self.dx as int, Bullet::SPEED as int) as i32,
            y: shifted(self.y as int, self.dy as int, Bullet::SPEED as int) as i32,
            ..self
        }
    }

    /// Advances the bullet by one tick.
    pub fn mov(&mut self)
        ensures
            *final(self) == old(self).moved(),
    {
        self.x = shift(self.x, self.dx, Bullet::SPEED);
        self.y = shift(self.y, self.dy, Bullet::SPEED);
    }
}

impl GameState {
    /// The world at server start: nobody connected, nothing in flight, no
    /// boxes yet, the flag at rest and unowned.
    pub fn new() -> (state: GameState)
        ensures
            state@ == (World {
                players: Seq::empty(),
                flag_x: FLAG_REST_X as int,
                flag_y: FLAG_REST_Y as int,
                flag_owner_id: None,
                bullets: Seq::empty(),
                boxes: Seq::empty(),
            }),
            state@.wf(),
    {
        GameState {
            players: Vec::new(),
            flag_x: FLAG_REST_X,
            flag_y: FLAG_REST_Y,
            flag_owner_id: None,
            bullets: Vec::new(),
            boxes: Vec::new(),
        }
    }
}

} // verus!
