//! The server's side of the game: the whole tick, the commands that the
//! reader tasks apply, and who joins and leaves.

use crate::boxes::{box_settled, boxes_spaced, is_struck};
use crate::clock::{clock_now, nanos_since};
use crate::combat::{
    after_hits, hit_by, is_hit, player_clear, resolve_player_hits, respawned_free,
    same_but_position, turn_world,
};
use crate::shared::{
    flag_with_holder, owner_is_holder, respawn_point, single_holder, unique_ids, Bullet, GameState,
    Player, World,
};
use crate::simulation::{
    advance_bullets, award_flag_point, capture_flag, captured, flag_holders, flag_taker, kept,
    near_flags, newly_captured, prune_bullets, scored, surviving,
};
use crate::select::{first_index, lemma_first_index_is};
use crate::spots::{candidate_spot, crowds, lemma_same_places, roomy};
use tokio::time::Instant;
use vstd::prelude::*;

verus! {

/// The flag holder scores when more than this many nanoseconds have passed
/// since the timer was last restarted.
pub const SCORE_PERIOD_NANOS: u128 = 1_000_000_000;

/// Whether a tick that finds `elapsed_nanos` on the timer pays the flag
/// holder: the period is over and the flag has not just changed hands.
pub open spec fn score_due(w: World, elapsed_nanos: u128) -> bool {
    !newly_captured(w) && elapsed_nanos > SCORE_PERIOD_NANOS
}

/// Whether a tick that finds `elapsed_nanos` on the timer restarts it: the
/// flag went to a new holder, or the period is over.
pub open spec fn timer_restarts(w: World, elapsed_nanos: u128) -> bool {
    newly_captured(w) || elapsed_nanos > SCORE_PERIOD_NANOS
}

/// The world before hit detection: after the capture check and, when it is
/// due, the score tick.
pub open spec fn before_hits(w: World, elapsed_nanos: u128) -> World {
    if score_due(w, elapsed_nanos) {
        scored(captured(w))
    } else {
        captured(w)
    }
}

/// Everything that a tick decides, with each respawned player and box left
/// where it stood: the bullets that strike no box move and those that leave
/// the window go; the flag is captured; the holder scores when it is due;
/// hit players pay and shooters are paid.
pub open spec fn settled(w: World, elapsed_nanos: u128) -> World {
    let b = before_hits(w, elapsed_nanos);
    World {
        players: Seq::new(b.players.len(), |t: int| after_hits(b.players[t], b.players, w.bullets)),
        bullets: kept(surviving(w.bullets, w.boxes)),
        boxes: w.boxes,
        flag_x: b.flag_x,
        flag_y: b.flag_y,
        flag_owner_id: b.flag_owner_id,
    }
}

/// Whether `after` is what one tick may make of `before` with
/// `elapsed_nanos` on the timer. All is as `settled` says, but for where
/// the players that were hit and the boxes that were struck stand now:
/// a hit player stands on a whole-unit position of the arena, a struck box
/// on a candidate spot or where it stood. A hit player stands on a spot
/// that was free when its turn came, with the boxes where they are now, if
/// a candidate was free then. In a roomy world hit players and struck boxes
/// keep the minimum spacing from everything else.
pub open spec fn step_outcome(before: World, elapsed_nanos: u128, after: World) -> bool {
    let goal = settled(before, elapsed_nanos);
    &&& after.bullets == goal.bullets
    &&& after.flag_x == goal.flag_x
    &&& after.flag_y == goal.flag_y
    &&& after.flag_owner_id == goal.flag_owner_id
    &&& after.players.len() == before.players.len()
    &&& after.boxes.len() == before.boxes.len()
    &&& forall|t: int| 0 <= t < before.players.len()
        ==> same_but_position(#[trigger] after.players[t], goal.players[t])
    &&& forall|t: int| 0 <= t < before.players.len()
        ==> if is_hit(before.players[t], before.bullets) {
        respawn_point((#[trigger] after.players[t]).x as int, after.players[t].y as int)
    } else {
        after.players[t].x == before.players[t].x && after.players[t].y == before.players[t].y
    }
    &&& forall|j: int| 0 <= j < before.boxes.len() ==> {
        ||| #[trigger] after.boxes[j] == before.boxes[j]
        ||| is_struck(j, before.bullets, before.boxes)
            && candidate_spot(after.boxes[j].x as int, after.boxes[j].y as int)
    }
    &&& forall|t: int| 0 <= t < before.players.len() && is_hit(before.players[t], before.bullets)
        ==> #[trigger] respawned_free(World { boxes: after.boxes, ..before }, after, t)
    &&& boxes_spaced(before.boxes) ==> boxes_spaced(after.boxes)
    &&& roomy(before)
        ==> forall|j: int| 0 <= j < before.boxes.len() && is_struck(j, before.bullets, before.boxes)
        ==> #[trigger] box_settled(after, j)
    &&& roomy(before)
        ==> forall|t: int| 0 <= t < before.players.len()
            && is_hit(before.players[t], before.bullets)
        ==> #[trigger] player_clear(after, t)
}

/// Whether a bullet hits a player depends only on who the player is and
/// where it stands.
pub proof fn lemma_hit_by_place(p: Player, q: Player, shots: Seq<Bullet>)
    requires
        p.id == q.id,
        p.x == q.x,
        p.y == q.y,
    ensures
        is_hit(p, shots) == is_hit(q, shots),
{
    if is_hit(p, shots) {
        let i = choose|i: int| 0 <= i < shots.len() && hit_by(p, #[trigger] shots[i]);
        assert(hit_by(q, shots[i]));
    }
    if is_hit(q, shots) {
        let i = choose|i: int| 0 <= i < shots.len() && hit_by(q, #[trigger] shots[i]);
        assert(hit_by(p, shots[i]));
    }
}

/// The capture check and the score tick keep the number of players.
pub proof fn lemma_before_hits_len(w: World, elapsed_nanos: u128)
    ensures
        before_hits(w, elapsed_nanos).players.len() == w.players.len(),
        captured(w).players.len() == w.players.len(),
{
    crate::select::lemma_first_index(flag_holders(w.players), 0);
    crate::select::lemma_first_index(flag_holders(captured(w).players), 0);
}

/// The capture check and the score tick leave every player who and where it
/// was.
pub proof fn lemma_before_hits_keeps_place(w: World, elapsed_nanos: u128, t: int)
    requires
        0 <= t < w.players.len(),
    ensures
        before_hits(w, elapsed_nanos).players.len() == w.players.len(),
        before_hits(w, elapsed_nanos).players[t].id == w.players[t].id,
        before_hits(w, elapsed_nanos).players[t].x == w.players[t].x,
        before_hits(w, elapsed_nanos).players[t].y == w.players[t].y,
        before_hits(w, elapsed_nanos).players[t].respawn_num == w.players[t].respawn_num,
{
    crate::select::lemma_first_index(near_flags(w), 0);
    crate::select::lemma_first_index(flag_holders(w.players), 0);
    crate::select::lemma_first_index(flag_holders(captured(w).players), 0);
}

/// One tick of the world, with the time on the score timer handed in.
/// Tells whether the timer is to be restarted.
pub fn step(state: &mut GameState, elapsed_nanos: u128) -> (restart: bool)
    ensures
        step_outcome(old(state)@, elapsed_nanos, final(state)@),
        restart == timer_restarts(old(state)@, elapsed_nanos),
        old(state)@.wf() ==> final(state)@.wf(),
        single_holder(final(state)@.players),
        owner_is_holder(final(state)@),
        flag_with_holder(final(state)@),
        final(state).bullets@.len() <= old(state).bullets@.len(),
        forall|t: int| 0 <= t < old(state).players@.len()
            ==> (#[trigger] final(state).players@[t]).respawn_num
            >= old(state).players@[t].respawn_num,
{
    let ghost before = state@;
    let shots = state.bullets.clone();
    assert(shots@ =~= before.bullets);
    advance_bullets(state);
    let ghost s1 = state@;
    proof {
        assert(near_flags(s1) =~= near_flags(before));
    }
    let newly = capture_flag(state);
    let due = !newly && elapsed_nanos > SCORE_PERIOD_NANOS;
    if due {
        award_flag_point(state);
    }
    let ghost s3 = state@;
    let ghost b = before_hits(before, elapsed_nanos);
    proof {
        lemma_before_hits_len(before, elapsed_nanos);
        lemma_before_hits_len(s1, elapsed_nanos);
        assert(flag_holders(s1.players) =~= flag_holders(before.players));
        assert(flag_taker(s1) == flag_taker(before));
        assert(newly == newly_captured(before));
        assert(captured(s1).players =~= captured(before).players);
        assert(due == score_due(before, elapsed_nanos));
        assert(s3.players =~= b.players);
        assert(s3.players.len() == before.players.len());
        assert(s3.boxes == s1.boxes);
        assert forall|j: int| 0 <= j < s1.boxes.len() && box_settled(s1, j)
            implies box_settled(s3, j) by {
            assert forall|i: int| 0 <= i < s3.players.len()
                implies !crowds((#[trigger] s3.players[i]).place(), s3.boxes[j].place()) by {
                lemma_before_hits_keeps_place(before, elapsed_nanos, i);
                assert(!crowds(s1.players[i].place(), s1.boxes[j].place()));
            }
        }
    }
    resolve_player_hits(state, &shots);
    let ghost s4 = state@;
    prune_bullets(state);
    proof {
        let after = state@;
        let goal = settled(before, elapsed_nanos);
        assert(after.players.len() == before.players.len());
        assert(goal.players.len() == before.players.len());
        assert forall|t: int| 0 <= t < before.players.len()
            implies same_but_position(#[trigger] after.players[t], goal.players[t]) by {
            assert(goal.players[t] == after_hits(b.players[t], b.players, before.bullets));
        }
        assert forall|t: int| 0 <= t < before.players.len()
            implies if is_hit(before.players[t], before.bullets) {
            respawn_point((#[trigger] after.players[t]).x as int, after.players[t].y as int)
        } else {
            after.players[t].x == before.players[t].x && after.players[t].y == before.players[t].y
        } by {
            lemma_before_hits_keeps_place(before, elapsed_nanos, t);
            lemma_hit_by_place(before.players[t], s3.players[t], before.bullets);
        }
        assert forall|j: int| 0 <= j < before.boxes.len()
            implies (#[trigger] after.boxes[j] == before.boxes[j]
            || is_struck(j, before.bullets, before.boxes)
                && candidate_spot(after.boxes[j].x as int, after.boxes[j].y as int)) by {
            if s1.boxes[j] != before.boxes[j] {
                assert(box_settled(s1, j));
            }
        }
        assert forall|t: int| 0 <= t < before.players.len()
            && is_hit(before.players[t], before.bullets)
            implies #[trigger] respawned_free(World { boxes: after.boxes, ..before }, after, t) by {
            lemma_before_hits_keeps_place(before, elapsed_nanos, t);
            lemma_hit_by_place(before.players[t], s3.players[t], before.bullets);
            assert(respawned_free(s3, s4, t));
            let start = World { boxes: after.boxes, ..before };
            assert forall|k: int| 0 <= k < before.players.len()
                implies (#[trigger] turn_world(s3, s4, t).players[k]).place()
                    == turn_world(start, after, t).players[k].place() by {
                lemma_before_hits_keeps_place(before, elapsed_nanos, k);
            }
            lemma_same_places(turn_world(s3, s4, t), turn_world(start, after, t));
        }
        if boxes_spaced(before.boxes) {
            assert forall|j: int, k: int| 0 <= j < after.boxes.len()
                && 0 <= k < after.boxes.len()
                && j != k
                implies !crowds((#[trigger] after.boxes[j]).place(),
                    (#[trigger] after.boxes[k]).place()) by {
                if s1.boxes[j] != before.boxes[j] {
                    assert(box_settled(s1, j));
                    assert(!crowds(s1.boxes[k].place(), s1.boxes[j].place()));
                } else if s1.boxes[k] != before.boxes[k] {
                    assert(box_settled(s1, k));
                    assert(!crowds(s1.boxes[j].place(), s1.boxes[k].place()));
                } else {
                    assert(!crowds(before.boxes[j].place(), before.boxes[k].place()));
                }
            }
        }
        if roomy(before) {
            assert(roomy(s3));
            assert forall|j: int| 0 <= j < before.boxes.len()
                && is_struck(j, before.bullets, before.boxes)
                implies #[trigger] box_settled(after, j) by {
                assert(box_settled(s1, j));
                assert(box_settled(s3, j));
                assert(box_settled(s4, j));
                assert(after.players == s4.players && after.boxes == s4.boxes);
            }
            assert forall|t: int| 0 <= t < before.players.len()
                && is_hit(before.players[t], before.bullets)
                implies #[trigger] player_clear(after, t) by {
                lemma_before_hits_keeps_place(before, elapsed_nanos, t);
                lemma_hit_by_place(before.players[t], s3.players[t], before.bullets);
                assert(player_clear(s4, t));
                assert(after.players == s4.players && after.boxes == s4.boxes);
            }
        }
        assert(step_outcome(before, elapsed_nanos, after));
        crate::laws::lemma_step_flag(before, elapsed_nanos, after);
        crate::laws::lemma_step_bullets(before, elapsed_nanos, after);
        crate::laws::lemma_step_respawn_monotone(before, elapsed_nanos, after);
        if before.wf() {
            crate::laws::lemma_step_wf(before, elapsed_nanos, after);
        }
    }
    newly || elapsed_nanos > SCORE_PERIOD_NANOS
}

/// The simulation task's own state: when the score timer was last
/// restarted.
pub struct Simulation {
    timer: Instant,
}

impl Simulation {
    /// A simulation whose score timer starts now.
    pub fn new() -> (simulation: Simulation) {
        Simulation { timer: clock_now() }
    }

    /// One tick of the world against the clock: reads the time on the score
    /// timer, runs `step` with it and restarts the timer when `step` says
    /// so. Whatever the clock said, the world is a `step_outcome` of what
    /// it was.
    pub fn tick(&mut self, state: &mut GameState)
        ensures
            exists|elapsed_nanos: u128| #[trigger] step_outcome(old(state)@,
                elapsed_nanos,
                final(state)@),
            old(state)@.wf() ==> final(state)@.wf(),
            single_holder(final(state)@.players),
            owner_is_holder(final(state)@),
            flag_with_holder(final(state)@),
            final(state).bullets@.len() <= old(state).bullets@.len(),
            forall|t: int| 0 <= t < old(state).players@.len()
                ==> (#[trigger] final(state).players@[t]).respawn_num
                >= old(state).players@[t].respawn_num,
    {
        let elapsed_nanos = nanos_since(&self.timer);
        if step(state, elapsed_nanos) {
            self.timer = clock_now();
        }
        assert(step_outcome(old(state)@, elapsed_nanos, state@));
    }
}

/// For each player, whether it has the identifier `id`.
pub open spec fn id_flags(players: Seq<Player>, id: u32) -> Seq<bool> {
    Seq::new(players.len(), |i: int| players[i].id == id)
}

/// Index of the first player with the identifier `id`; the number of
/// players when there is none.
pub open spec fn index_of(players: Seq<Player>, id: u32) -> int {
    first_index(id_flags(players, id), 0)
}

/// Whether a position update is applied: the player is known and the
/// update is not older than the player's last respawn.
pub open spec fn accepts(w: World, update: Player) -> bool {
    let k = index_of(w.players, update.id);
    k < w.players.len() && update.respawn_num >= w.players[k].respawn_num
}

/// The world after a position update: when it is accepted the player
/// stands where the update says, and nothing else changes.
pub open spec fn moved_by(w: World, update: Player) -> World {
    let k = index_of(w.players, update.id);
    if accepts(w, update) {
        World {
            players: w.players.update(k, Player { x: update.x, y: update.y, ..w.players[k] }),
            ..w
        }
    } else {
        w
    }
}

/// Finds the first player with the identifier `id`.
pub fn find_player(state: &GameState, id: u32) -> (found: Option<usize>)
    ensures
        match found {
            Some(k) => k < state.players.len() && k == index_of(state.players@, id),
            None => index_of(state.players@, id) == state.players.len(),
        },
{
    let ghost flags = id_flags(state.players@, id);
    let mut k: usize = 0;
    while k < state.players.len()
        invariant
            k <= state.players.len(),
            flags == id_flags(state.players@, id),
            forall|i: int| 0 <= i < k ==> !flags[i],
        decreases state.players.len() - k,
    {
        if state.players[k].id == id {
            proof {
                lemma_first_index_is(flags, 0, k as int);
            }
            return Some(k);
        }
        k += 1;
    }
    proof {
        lemma_first_index_is(flags, 0, state.players.len() as int);
    }
    None
}

/// Applies a position update from a client. Of the update only the
/// identifier, the respawn counter and the position are read; an update
/// for an unknown player, or one older than the player's last respawn,
/// changes nothing.
pub fn handle_player_cmd(state: &mut GameState, update: &Player)
    ensures
        final(state)@ == moved_by(old(state)@, *update),
        old(state)@.wf() ==> final(state)@.wf(),
{
    proof {
        crate::laws::lemma_update_flag(state@, *update);
    }
    match find_player(state, update.id) {
        Some(k) => {
            let mut current = state.players[k];
            if update.respawn_num < current.respawn_num {
                return ;
            }
            current.x = update.x;
            current.y = update.y;
            state.players.set(k, current);
        },
        None => {},
    }
}

/// Applies a fire command from a client: the bullet joins the bullets in
/// flight as it is.
pub fn handle_bullet_cmd(state: &mut GameState, bullet: Bullet)
    ensures
        final(state)@ == (World { bullets: old(state)@.bullets.push(bullet), ..old(state)@ }),
        old(state)@.wf() ==> final(state)@.wf(),
{
    state.bullets.push(bullet);
}

/// Those of the first `n` players whose identifier is not `id`, in their
/// order.
pub open spec fn others_upto(players: Seq<Player>, id: u32, n: int) -> Seq<Player>
    decreases n,
{
    if n <= 0 || n > players.len() {
        Seq::empty()
    } else if players[n - 1].id != id {
        others_upto(players, id, n - 1).push(players[n - 1])
    } else {
        others_upto(players, id, n - 1)
    }
}

/// The players whose identifier is not `id`, in their order.
pub open spec fn others(players: Seq<Player>, id: u32) -> Seq<Player> {
    others_upto(players, id, players.len() as int)
}

/// Puts a new player with the identifier `id` at the spawn point.
pub fn add_player(state: &mut GameState, id: u32)
    ensures
        final(state)@
            == (World { players: old(state)@.players.push(Player::fresh(id)), ..old(state)@ }),
        old(state)@.wf() && index_of(old(state)@.players, id) == old(state)@.players.len()
            ==> final(state)@.wf(),
{
    proof {
        crate::laws::lemma_join(state@, id);
    }
    state.players.push(Player::new(id));
}

/// Takes the player with the identifier `id` out of the world, when its
/// connection has closed.
pub fn remove_player(state: &mut GameState, id: u32)
    ensures
        final(state)@ == (World { players: others(old(state)@.players, id), ..old(state)@ }),
        old(state)@.wf() ==> final(state)@.wf(),
{
    proof {
        crate::laws::lemma_leave(state@, id);
    }
    let mut staying: Vec<Player> = Vec::new();
    let mut i: usize = 0;
    while i < state.players.len()
        invariant
            i <= state.players.len(),
            *state == *old(state),
            staying@ == others_upto(state.players@, id, i as int),
        decreases state.players.len() - i,
    {
        if state.players[i].id != id {
            staying.push(state.players[i]);
        }
        i += 1;
    }
    state.players = staying;
}

/// Hands out player identifiers: 1, 2, 3 and so on, none twice.
pub struct Acceptor {
    /// The identifier handed out last; 0 before the first.
    pub issued: u32,
}

/// Whether every player's identifier is one that has been handed out.
pub open spec fn ids_issued(players: Seq<Player>, issued: u32) -> bool {
    forall|i: int| 0 <= i < players.len() ==> 1 <= (#[trigger] players[i]).id <= issued
}

impl Acceptor {
    /// An acceptor that has handed out nothing yet.
    pub fn new() -> (acceptor: Acceptor)
        ensures
            acceptor.issued == 0,
    {
        Acceptor { issued: 0 }
    }

    /// Accepts a connection: hands out the next identifier and puts a new
    /// player with it at the spawn point. When the identifiers are used up
    /// nobody is accepted and nothing changes.
    pub fn accept(&mut self, state: &mut GameState) -> (id: Option<u32>)
        ensures
            match id {
                Some(n) => {
                    &&& n == old(self).issued + 1
                    &&& final(self).issued == n
                    &&& final(state)@ == (World {
                        players: old(state)@.players.push(Player::fresh(n)),
                        ..old(state)@
                    })
                },
                None => {
                    &&& old(self).issued == u32::MAX
                    &&& final(self).issued == u32::MAX
                    &&& final(state)@ == old(state)@
                },
            },
            unique_ids(old(state)@.players) && ids_issued(old(state)@.players, old(self).issued)
                ==> unique_ids(final(state)@.players) && ids_issued(
                final(state)@.players,
                final(self).issued,
            ),
            old(state)@.wf() && ids_issued(old(state)@.players, old(self).issued)
                ==> final(state)@.wf(),
    {
        if self.issued == u32::MAX {
            return None;
        }
        self.issued = self.issued + 1;
        proof {
            if ids_issued(state@.players, old(self).issued) {
                assert forall|i: int| 0 <= i < state@.players.len()
                    implies !id_flags(state@.players, self.issued)[i] by {
                    assert(state@.players[i].id <= old(self).issued);
                }
                lemma_first_index_is(id_flags(state@.players, self.issued),
                    0,
                    state@.players.len() as int);
            }
        }
        add_player(state, self.issued);
        proof {
            let before = old(state)@.players;
            let after = state@.players;
            if unique_ids(before) && ids_issued(before, old(self).issued) {
                assert forall|i: int, j: int| 0 <= i < after.len() && 0 <= j < after.len() && i != j
                    implies (#[trigger] after[i]).id != (#[trigger] after[j]).id by {
                    if i < before.len() {
                        assert(after[i] == before[i]);
                    }
                    if j < before.len() {
                        assert(after[j] == before[j]);
                    }
                }
                assert forall|i: int| 0 <= i < after.len()
                    implies 1 <= (#[trigger] after[i]).id <= self.issued by {
                    if i < before.len() {
                        assert(after[i] == before[i]);
                    }
                }
            }
        }
        Some(self.issued)
    }
}

} // verus!
