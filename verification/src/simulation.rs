//! One tick of the world: bullets fly, boxes and players are hit, the flag
//! changes hands, the holder scores.

use crate::boxes::{
    box_settled, find_struck_box, is_struck, respawn_box, struck_box, struck_from,
};
use crate::geometry::{distance, get_distance};
use crate::select::{first_index, lemma_first_index_is};
use crate::shared::{
    score_plus, Bullet, GameState, Player, WoodBox, World, PICKUP_RADIUS, WINDOW_EDGE_X,
    WINDOW_EDGE_Y,
};
use crate::spots::{
    candidate_spot, crowds, lemma_roomy_has_free_spot, no_free_spot, roomy, spot_free,
};
use vstd::prelude::*;

verus! {

/// The bullets from index `from` on that strike no box, each moved by one
/// tick, in their order.
pub open spec fn surviving_from(bullets: Seq<Bullet>, boxes: Seq<WoodBox>, from: int) -> Seq<Bullet>
    decreases bullets.len() - from,
{
    if from < 0 || from >= bullets.len() {
        Seq::empty()
    } else if struck_box(bullets[from], boxes) < boxes.len() {
        surviving_from(bullets, boxes, from + 1)
    } else {
        seq![bullets[from].moved()] + surviving_from(bullets, boxes, from + 1)
    }
}

/// The bullets that strike no box, each moved by one tick, in their order.
pub open spec fn surviving(bullets: Seq<Bullet>, boxes: Seq<WoodBox>) -> Seq<Bullet> {
    surviving_from(bullets, boxes, 0)
}

/// A box is struck by the bullets from `from` on exactly when the bullet at
/// `from` strikes it first or a later one does.
pub proof fn lemma_struck_from_unfold(j: int, bullets: Seq<Bullet>, boxes: Seq<WoodBox>, from: int)
    requires
        0 <= from < bullets.len(),
    ensures
        struck_from(j, bullets, boxes, from) == (struck_box(bullets[from], boxes) == j
            || struck_from(j, bullets, boxes, from + 1)),
{
    if struck_from(j, bullets, boxes, from) {
        let i = choose|i: int| from <= i < bullets.len()
            && struck_box(#[trigger] bullets[i], boxes) == j;
        if i != from {
            assert(from + 1 <= i < bullets.len() && struck_box(bullets[i], boxes) == j);
        }
    }
    if struck_from(j, bullets, boxes, from + 1) {
        let i = choose|i: int| from + 1 <= i < bullets.len()
            && struck_box(#[trigger] bullets[i], boxes) == j;
        assert(from <= i < bullets.len() && struck_box(bullets[i], boxes) == j);
    }
    if struck_box(bullets[from], boxes) == j {
        assert(from <= from < bullets.len() && struck_box(bullets[from], boxes) == j);
    }
}

/// Putting box `g` on a spot that is free of everything leaves every other
/// settled box settled, and settles box `g`.
pub proof fn lemma_respawn_keeps_settled(before: World, after: World, g: int)
    requires
        0 <= g < before.boxes.len(),
        after.players == before.players,
        after.boxes == before.boxes.update(g, after.boxes[g]),
        candidate_spot(after.boxes[g].x as int, after.boxes[g].y as int),
        spot_free(after.boxes[g].x as int, after.boxes[g].y as int, before),
    ensures
        box_settled(after, g),
        forall|j: int| 0 <= j < before.boxes.len() && j != g && box_settled(before, j)
            ==> box_settled(after, j),
{
    assert forall|k: int| 0 <= k < after.boxes.len() && k != g
        implies !crowds((#[trigger] after.boxes[k]).place(), after.boxes[g].place()) by {
        assert(after.boxes[k] == before.boxes[k]);
    }
    assert forall|j: int| 0 <= j < before.boxes.len() && j != g && box_settled(before, j)
        implies box_settled(after, j) by {
        assert(after.boxes[j] == before.boxes[j]);
        assert forall|k: int| 0 <= k < after.boxes.len() && k != j
            implies !crowds((#[trigger] after.boxes[k]).place(), after.boxes[j].place()) by {
            if k == g {
                assert(!crowds(before.boxes[j].place(), after.boxes[g].place()));
            } else {
                assert(after.boxes[k] == before.boxes[k]);
            }
        }
    }
}

/// Bullet flight and box collisions. Every bullet that strikes a box is
/// removed and the first box it strikes is replaced; every other bullet
/// moves on. Bullets are tested where they stood before the tick, against
/// the boxes as they stood before the tick, from the last bullet to the
/// first.
pub fn advance_bullets(state: &mut GameState)
    ensures
        final(state).players@ == old(state).players@,
        final(state).flag_x == old(state).flag_x,
        final(state).flag_y == old(state).flag_y,
        final(state).flag_owner_id == old(state).flag_owner_id,
        final(state).bullets@ == surviving(old(state).bullets@, old(state).boxes@),
        final(state).boxes@.len() == old(state).boxes@.len(),
        forall|j: int| 0 <= j < old(state).boxes@.len() ==> {
            ||| #[trigger] final(state).boxes@[j] == old(state).boxes@[j]
            ||| box_settled(final(state)@, j)
        },
        forall|j: int| 0 <= j < old(state).boxes@.len()
            && !is_struck(j, old(state).bullets@, old(state).boxes@)
            ==> #[trigger] final(state).boxes@[j] == old(state).boxes@[j],
        roomy(old(state)@)
            ==> forall|j: int| 0 <= j < old(state).boxes@.len()
                && is_struck(j, old(state).bullets@, old(state).boxes@)
            ==> #[trigger] box_settled(final(state)@, j),
{
    let shots = state.bullets.clone();
    let crates = state.boxes.clone();
    assert(shots@ =~= state.bullets@);
    assert(crates@ =~= state.boxes@);
    let mut i: usize = shots.len();
    assert(state.bullets@ =~= shots@.subrange(0, i as int)
        + surviving_from(shots@, crates@, i as int));
    while i > 0
        invariant
            i <= shots.len(),
            shots@ == old(state).bullets@,
            crates@ == old(state).boxes@,
            state.players@ == old(state).players@,
            state.flag_x == old(state).flag_x,
            state.flag_y == old(state).flag_y,
            state.flag_owner_id == old(state).flag_owner_id,
            state.bullets@
                == shots@.subrange(0, i as int) + surviving_from(shots@, crates@, i as int),
            state.boxes@.len() == crates@.len(),
            forall|j: int| 0 <= j < crates@.len() ==> {
                ||| #[trigger] state.boxes@[j] == crates@[j]
                ||| box_settled(state@, j)
            },
            forall|j: int| 0 <= j < crates@.len() && !struck_from(j, shots@, crates@, i as int)
                ==> #[trigger] state.boxes@[j] == crates@[j],
            roomy(old(state)@)
                ==> forall|j: int| 0 <= j < crates@.len()
                    && struck_from(j, shots@, crates@, i as int)
                ==> #[trigger] box_settled(state@, j),
        decreases i,
    {
        i -= 1;
        let shot = shots[i];
        let ghost prior = state@;
        proof {
            assert forall|j: int| true
                implies struck_from(j, shots@, crates@, i as int)
                    == (struck_box(shots@[i as int], crates@) == j
                        || struck_from(j, shots@, crates@, i + 1)) by {
                lemma_struck_from_unfold(j, shots@, crates@, i as int);
            }
            if roomy(old(state)@) {
                lemma_roomy_has_free_spot(prior);
            }
        }
        match find_struck_box(&shot, &crates) {
            Some(g) => {
                respawn_box(state, g);
                state.bullets.remove(i);
                proof {
                    if !no_free_spot(prior) {
                        lemma_respawn_keeps_settled(prior, state@, g as int);
                    } else {
                        assert(state@.boxes =~= prior.boxes);
                        assert(state@.players == prior.players);
                    }
                    assert(state.bullets@ =~= shots@.subrange(0, i as int)
                        + surviving_from(shots@, crates@, i as int));
                    assert forall|j: int| 0 <= j < crates@.len()
                        implies (#[trigger] state.boxes@[j] == crates@[j]
                            || box_settled(state@, j)) by {
                        if j != g as int {
                            assert(state.boxes@[j] == prior.boxes[j]);
                            if prior.boxes[j] != crates@[j] {
                                assert(box_settled(prior, j));
                            }
                        }
                    }
                    if roomy(old(state)@) {
                        assert forall|j: int| 0 <= j < crates@.len()
                            && struck_from(j, shots@, crates@, i as int)
                            implies #[trigger] box_settled(state@, j) by {
                            if j != g as int {
                                assert(box_settled(prior, j));
                            }
                        }
                    }
                }
            },
            None => {
                let mut bullet = shot;
                bullet.mov();
                state.bullets.set(i, bullet);
                proof {
                    assert(state.bullets@ =~= shots@.subrange(0, i as int)
                        + surviving_from(shots@, crates@, i as int));
                    assert(state@.boxes == prior.boxes && state@.players == prior.players);
                    if roomy(old(state)@) {
                        assert forall|j: int| 0 <= j < crates@.len()
                            && struck_from(j, shots@, crates@, i as int)
                            implies #[trigger] box_settled(state@, j) by {
                            assert(struck_from(j, shots@, crates@, i + 1));
                            assert(box_settled(prior, j));
                        }
                    }
                }
            },
        }
    }
}

/// Whether the bullet is inside the window, its edges included.
pub open spec fn in_window(b: Bullet) -> bool {
    &&& 0 <= b.x <= WINDOW_EDGE_X
    &&& 0 <= b.y <= WINDOW_EDGE_Y
}

/// Those of the first `n` bullets that are inside the window, in their order.
pub open spec fn kept_upto(bullets: Seq<Bullet>, n: int) -> Seq<Bullet>
    decreases n,
{
    if n <= 0 || n > bullets.len() {
        Seq::empty()
    } else if in_window(bullets[n - 1]) {
        kept_upto(bullets, n - 1).push(bullets[n - 1])
    } else {
        kept_upto(bullets, n - 1)
    }
}

/// The bullets that are inside the window, in their order.
pub open spec fn kept(bullets: Seq<Bullet>) -> Seq<Bullet> {
    kept_upto(bullets, bullets.len() as int)
}

/// Drops the bullets that have left the window.
pub fn prune_bullets(state: &mut GameState)
    ensures
        final(state).players@ == old(state).players@,
        final(state).boxes@ == old(state).boxes@,
        final(state).flag_x == old(state).flag_x,
        final(state).flag_y == old(state).flag_y,
        final(state).flag_owner_id == old(state).flag_owner_id,
        final(state).bullets@ == kept(old(state).bullets@),
{
    let mut inside: Vec<Bullet> = Vec::new();
    let mut i: usize = 0;
    while i < state.bullets.len()
        invariant
            i <= state.bullets.len(),
            state.bullets@ == old(state).bullets@,
            inside@ == kept_upto(state.bullets@, i as int),
        decreases state.bullets.len() - i,
    {
        let b = state.bullets[i];
        if 0 <= b.x && b.x <= WINDOW_EDGE_X && 0 <= b.y && b.y <= WINDOW_EDGE_Y {
            inside.push(b);
        }
        i += 1;
    }
    state.bullets = inside;
}

/// Whether the player stands close enough to `(fx, fy)` to pick the flag up.
pub open spec fn near_flag(p: Player, fx: int, fy: int) -> bool {
    distance(p.x as int, fx, p.y as int, fy) < PICKUP_RADIUS
}

/// For each player, whether it stands close enough to the flag.
pub open spec fn near_flags(w: World) -> Seq<bool> {
    Seq::new(w.players.len(), |i: int| near_flag(w.players[i], w.flag_x, w.flag_y))
}

/// Index of the first player close enough to the flag; the number of
/// players when there is none.
pub open spec fn capturer(w: World) -> int {
    first_index(near_flags(w), 0)
}

/// The players with the flag in the hands of the one at index `k` alone.
pub open spec fn flag_given_to(players: Seq<Player>, k: int) -> Seq<Player> {
    Seq::new(players.len(), |i: int| Player { has_flag: i == k, ..players[i] })
}

/// Index of the player that has the flag after the capture check: the
/// first player close enough to the flag; when nobody is, the player that
/// holds it already; the number of players when nobody holds it either.
pub open spec fn flag_taker(w: World) -> int {
    if capturer(w) < w.players.len() {
        capturer(w)
    } else {
        holder(w.players)
    }
}

/// The world after the flag capture check: the first player close enough to
/// the flag takes it, and when nobody is close enough its holder keeps it.
/// That player owns the flag and is its only holder, and the flag stands
/// where that player stands. With nobody in reach and no holder nothing
/// changes.
pub open spec fn captured(w: World) -> World {
    let k = flag_taker(w);
    if 0 <= k < w.players.len() {
        World {
            players: flag_given_to(w.players, k),
            flag_x: w.players[k].x as int,
            flag_y: w.players[k].y as int,
            flag_owner_id: Some(w.players[k].id),
            ..w
        }
    } else {
        w
    }
}

/// Whether the capture check hands the flag to a player who did not hold it.
pub open spec fn newly_captured(w: World) -> bool {
    capturer(w) < w.players.len() && !w.players[capturer(w)].has_flag
}

/// Finds the first player close enough to the flag.
pub fn find_capturer(state: &GameState) -> (found: Option<usize>)
    ensures
        match found {
            Some(k) => k < state.players.len() && k == capturer(state@),
            None => capturer(state@) == state.players.len(),
        },
{
    let ghost flags = near_flags(state@);
    let mut k: usize = 0;
    while k < state.players.len()
        invariant
            k <= state.players.len(),
            flags == near_flags(state@),
            forall|i: int| 0 <= i < k ==> !flags[i],
        decreases state.players.len() - k,
    {
        if get_distance(state.players[k].x,
            state.flag_x,
            state.players[k].y,
            state.flag_y) < PICKUP_RADIUS {
            proof {
                lemma_first_index_is(flags, 0, k as int);
            }
            return Some(k);
        }
        k += 1;
    }
    proof {
        lemma_first_index_is(flags, 0, state.players.len() as int);
    }
    None
}

/// Finds the first player that holds the flag.
pub fn find_holder(state: &GameState) -> (found: Option<usize>)
    ensures
        match found {
            Some(h) => h < state.players.len() && h == holder(state.players@),
            None => holder(state.players@) == state.players.len(),
        },
{
    let ghost flags = flag_holders(state.players@);
    let mut h: usize = 0;
    while h < state.players.len()
        invariant
            h <= state.players.len(),
            flags == flag_holders(state.players@),
            forall|i: int| 0 <= i < h ==> !flags[i],
        decreases state.players.len() - h,
    {
        if state.players[h].has_flag {
            proof {
                lemma_first_index_is(flags, 0, h as int);
            }
            return Some(h);
        }
        h += 1;
    }
    proof {
        lemma_first_index_is(flags, 0, state.players.len() as int);
    }
    None
}

/// Puts the flag in the hands of the player at index `k` alone, where that
/// player stands.
pub fn give_flag(state: &mut GameState, k: usize)
    requires
        k < old(state).players.len(),
    ensures
        final(state)@ == (World {
            players: flag_given_to(old(state)@.players, k as int),
            flag_x: old(state)@.players[k as int].x as int,
            flag_y: old(state)@.players[k as int].y as int,
            flag_owner_id: Some(old(state)@.players[k as int].id),
            ..old(state)@
        }),
{
    let winner = state.players[k];
    state.flag_owner_id = Some(winner.id);
    state.flag_x = winner.x;
    state.flag_y = winner.y;
    let mut i: usize = 0;
    while i < state.players.len()
        invariant
            i <= state.players.len(),
            k < state.players.len(),
            state.players@.len() == old(state).players@.len(),
            state.bullets@ == old(state).bullets@,
            state.boxes@ == old(state).boxes@,
            state.flag_x == winner.x,
            state.flag_y == winner.y,
            state.flag_owner_id == Some(winner.id),
            forall|t: int| 0 <= t < i
                ==> state.players@[t] == flag_given_to(old(state).players@, k as int)[t],
            forall|t: int| i <= t < state.players@.len()
                ==> state.players@[t] == old(state).players@[t],
        decreases state.players.len() - i,
    {
        let mut p = state.players[i];
        p.has_flag = i == k;
        state.players.set(i, p);
        i += 1;
    }
    assert(state.players@ =~= flag_given_to(old(state).players@, k as int));
}

/// The flag capture check: the first player close enough to the flag takes
/// it, else its holder keeps it, and the flag stands where that player
/// stands. Tells whether the flag went to a player who did not hold it
/// before.
pub fn capture_flag(state: &mut GameState) -> (newly: bool)
    ensures
        final(state)@ == captured(old(state)@),
        newly == newly_captured(old(state)@),
{
    match find_capturer(state) {
        Some(k) => {
            let newly = !state.players[k].has_flag;
            give_flag(state, k);
            newly
        },
        None => {
            match find_holder(state) {
                Some(h) => {
                    give_flag(state, h);
                },
                None => {},
            }
            false
        },
    }
}

/// For each player, whether it holds the flag.
pub open spec fn flag_holders(players: Seq<Player>) -> Seq<bool> {
    Seq::new(players.len(), |i: int| players[i].has_flag)
}

/// Index of the first player that holds the flag; the number of players
/// when nobody does.
pub open spec fn holder(players: Seq<Player>) -> int {
    first_index(flag_holders(players), 0)
}

/// The world after a score tick: the flag holder, if there is one, has one
/// point more.
pub open spec fn scored(w: World) -> World {
    let h = holder(w.players);
    if h < w.players.len() {
        World {
            players: w.players.update(
                h,
                Player { score: score_plus(w.players[h].score, 1), ..w.players[h] },
            ),
            ..w
        }
    } else {
        w
    }
}

/// `score` raised by `by`, held at the top of the range.
pub fn raise_score(score: i32, by: usize) -> (raised: i32)
    ensures
        raised == score_plus(score, by as int),
{
    if by >= 0xFFFF_FFFF {
        i32::MAX
    } else {
        let sum: i64 = score as i64 + by as i64;
        if sum > i32::MAX as i64 {
            i32::MAX
        } else {
            sum as i32
        }
    }
}

/// `score` lowered by one, held at the bottom of the range.
pub fn lower_score(score: i32) -> (lowered: i32)
    ensures
        lowered == score_plus(score, -1),
{
    if score == i32::MIN {
        score
    } else {
        score - 1
    }
}

/// The score tick, run when a second has passed: the flag holder gains one
/// point.
pub fn award_flag_point(state: &mut GameState)
    ensures
        final(state)@ == scored(old(state)@),
{
    match find_holder(state) {
        Some(h) => {
            let mut p = state.players[h];
            p.score = raise_score(p.score, 1);
            state.players.set(h, p);
        },
        None => {},
    }
}

} // verus!
