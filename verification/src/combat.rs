//! Hit detection: which players the bullets of a tick hit, what it costs
//! them and whom it pays.

use crate::boxes::box_settled;
use crate::geometry::{distance, get_distance};
use crate::shared::{
    bumped, respawn_point, score_plus, Bullet, GameState, Player, World, PLAYER_RADIUS,
};
use crate::simulation::{lower_score, raise_score};
use crate::spots::{
    candidate_spot, crowds, find_free_spot, lemma_roomy_has_free_spot, lemma_same_places,
    no_free_spot, roomy, spot_free,
};
use vstd::prelude::*;

verus! {

/// Whether the bullet `b` hits the player `p`: it is someone else's and it
/// is within the hit radius of where the player stands.
pub open spec fn hit_by(p: Player, b: Bullet) -> bool {
    &&& b.owner_id != p.id
    &&& distance(p.x as int, b.x as int, p.y as int, b.y as int) < PLAYER_RADIUS
}

/// Whether one of the first `n` bullets hits the player.
pub open spec fn hit_upto(p: Player, shots: Seq<Bullet>, n: int) -> bool {
    exists|i: int| 0 <= i < n && i < shots.len() && hit_by(p, #[trigger] shots[i])
}

/// Whether one of the bullets hits the player.
pub open spec fn is_hit(p: Player, shots: Seq<Bullet>) -> bool {
    hit_upto(p, shots, shots.len() as int)
}

/// How many of the first `n` bullets hit `victim` and belong to `id`.
pub open spec fn hits_credited(victim: Player, shots: Seq<Bullet>, id: u32, n: int) -> nat
    decreases n,
{
    if n <= 0 || n > shots.len() {
        0
    } else if hit_by(victim, shots[n - 1]) && shots[n - 1].owner_id == id {
        hits_credited(victim, shots, id, n - 1) + 1
    } else {
        hits_credited(victim, shots, id, n - 1)
    }
}

/// How many hits on the first `m` players belong to `id`: every pair of a
/// player and a bullet that hits it counts once.
pub open spec fn credits_upto(players: Seq<Player>, shots: Seq<Bullet>, id: u32, m: int) -> nat
    decreases m,
{
    if m <= 0 || m > players.len() {
        0
    } else {
        credits_upto(players, shots, id, m - 1) + hits_credited(
            players[m - 1],
            shots,
            id,
            shots.len() as int,
        )
    }
}

/// How many hits on any player belong to `id`.
pub open spec fn credits(players: Seq<Player>, shots: Seq<Bullet>, id: u32) -> nat {
    credits_upto(players, shots, id, players.len() as int)
}

/// How often `id` occurs in `ids`.
pub open spec fn occurrences(ids: Seq<u32>, id: u32) -> nat
    decreases ids.len(),
{
    if ids.len() == 0 {
        0
    } else if ids.last() == id {
        occurrences(ids.drop_last(), id) + 1
    } else {
        occurrences(ids.drop_last(), id)
    }
}

/// What being hit costs a player, wherever it respawns: the flag, one
/// point, and one step of the respawn counter. A player that is not hit
/// keeps everything.
pub open spec fn penalized(p: Player, shots: Seq<Bullet>) -> Player {
    if is_hit(p, shots) {
        Player {
            has_flag: false,
            respawn_num: bumped(p.respawn_num),
            score: score_plus(p.score, -1),
            ..p
        }
    } else {
        p
    }
}

/// The player with `points` more.
pub open spec fn credited(p: Player, points: nat) -> Player {
    Player { score: score_plus(p.score, points as int), ..p }
}

/// The player after hit detection, but for where it stands: first the
/// penalty if it was hit, then one point for every hit of its own bullets.
pub open spec fn after_hits(p: Player, players: Seq<Player>, shots: Seq<Bullet>) -> Player {
    credited(penalized(p, shots), credits(players, shots, p.id))
}

/// Whether `a` and `b` agree in everything but where they stand.
pub open spec fn same_but_position(a: Player, b: Player) -> bool {
    a == (Player { x: a.x, y: a.y, ..b })
}

/// Whether player `t` keeps the minimum spacing from every other player and
/// from every box.
pub open spec fn player_clear(w: World, t: int) -> bool {
    &&& forall|k: int| 0 <= k < w.players.len() && k != t
        ==> !crowds((#[trigger] w.players[k]).place(), w.players[t].place())
    &&& forall|j: int| 0 <= j < w.boxes.len()
        ==> !crowds((#[trigger] w.boxes[j]).place(), w.players[t].place())
}

/// One more bullet hits the player exactly when an earlier one did or this
/// one does.
pub proof fn lemma_hit_upto_unfold(p: Player, shots: Seq<Bullet>, n: int)
    requires
        0 <= n < shots.len(),
    ensures
        hit_upto(p, shots, n + 1) == (hit_upto(p, shots, n) || hit_by(p, shots[n])),
{
    if hit_upto(p, shots, n + 1) {
        let i = choose|i: int| 0 <= i < n + 1 && i < shots.len() && hit_by(p, #[trigger] shots[i]);
        if i != n {
            assert(0 <= i < n && hit_by(p, shots[i]));
        }
    }
    if hit_upto(p, shots, n) {
        let i = choose|i: int| 0 <= i < n && i < shots.len() && hit_by(p, #[trigger] shots[i]);
        assert(0 <= i < n + 1 && hit_by(p, shots[i]));
    }
    if hit_by(p, shots[n]) {
        assert(0 <= n < n + 1 && hit_by(p, shots[n]));
    }
}

/// Moving player `g` to a spot that is free of everything keeps every other
/// clear player clear and every settled box settled, and makes `g` clear.
pub proof fn lemma_respawn_keeps_clear(before: World, after: World, g: int)
    requires
        0 <= g < before.players.len(),
        after.boxes == before.boxes,
        after.players == before.players.update(g, after.players[g]),
        spot_free(after.players[g].x as int, after.players[g].y as int, before),
    ensures
        player_clear(after, g),
        forall|t: int| 0 <= t < before.players.len() && t != g && player_clear(before, t)
            ==> player_clear(after, t),
        forall|j: int| 0 <= j < before.boxes.len() && box_settled(before, j)
            ==> box_settled(after, j),
{
    assert forall|k: int| 0 <= k < after.players.len() && k != g
        implies !crowds((#[trigger] after.players[k]).place(), after.players[g].place()) by {
        assert(after.players[k] == before.players[k]);
    }
    assert forall|t: int| 0 <= t < before.players.len() && t != g && player_clear(before, t)
        implies player_clear(after, t) by {
        assert(after.players[t] == before.players[t]);
        assert forall|k: int| 0 <= k < after.players.len() && k != t
            implies !crowds((#[trigger] after.players[k]).place(), after.players[t].place()) by {
            if k == g {
                assert(!crowds(before.players[t].place(), after.players[g].place()));
            } else {
                assert(after.players[k] == before.players[k]);
            }
        }
    }
    assert forall|j: int| 0 <= j < before.boxes.len() && box_settled(before, j)
        implies box_settled(after, j) by {
        assert forall|i: int| 0 <= i < after.players.len()
            implies !crowds((#[trigger] after.players[i]).place(), after.boxes[j].place()) by {
            if i == g {
                assert(!crowds(before.boxes[j].place(), after.players[g].place()));
            } else {
                assert(after.players[i] == before.players[i]);
            }
        }
    }
}

/// Whether the bullet hits the player.
pub fn is_hit_by(player: &Player, bullet: &Bullet) -> (yes: bool)
    ensures
        yes == hit_by(*player, *bullet),
{
    bullet.owner_id != player.id && get_distance(player.x, bullet.x, player.y, bullet.y)
        < PLAYER_RADIUS
}

/// Counts how often `id` occurs in `ids`.
pub fn count_id(ids: &Vec<u32>, id: u32) -> (n: usize)
    ensures
        n == occurrences(ids@, id),
{
    let mut n: usize = 0;
    let mut i: usize = 0;
    while i < ids.len()
        invariant
            i <= ids.len(),
            n <= i,
            n == occurrences(ids@.take(i as int), id),
        decreases ids.len() - i,
    {
        assert(ids@.take(i + 1).drop_last() =~= ids@.take(i as int));
        if ids[i] == id {
            n += 1;
        }
        i += 1;
    }
    assert(ids@.take(ids.len() as int) =~= ids@);
    n
}

/// Tests one player against every bullet. Tells whether a bullet hit it,
/// and appends the owner of each bullet that did to `shooters`.
pub fn collect_hits(player: &Player, shots: &Vec<Bullet>, shooters: &mut Vec<u32>) -> (hit: bool)
    ensures
        hit == is_hit(*player, shots@),
        forall|id: u32| #[trigger] occurrences(final(shooters)@, id)
            == occurrences(old(shooters)@, id)
            + hits_credited(*player, shots@, id, shots@.len() as int),
{
    let mut hit = false;
    let mut i: usize = 0;
    while i < shots.len()
        invariant
            i <= shots.len(),
            hit == hit_upto(*player, shots@, i as int),
            forall|id: u32| #[trigger] occurrences(shooters@, id) == occurrences(old(shooters)@, id)
                + hits_credited(*player, shots@, id, i as int),
        decreases shots.len() - i,
    {
        proof {
            lemma_hit_upto_unfold(*player, shots@, i as int);
        }
        let ghost earlier = shooters@;
        if is_hit_by(player, &shots[i]) {
            hit = true;
            shooters.push(shots[i].owner_id);
            assert(shooters@.drop_last() =~= earlier);
        }
        proof {
            assert forall|id: u32| #[trigger] occurrences(shooters@, id)
                == occurrences(old(shooters)@, id)
                + hits_credited(*player, shots@, id, i + 1) by {
                assert(occurrences(earlier, id) == occurrences(old(shooters)@, id) + hits_credited(
                    *player,
                    shots@,
                    id,
                    i as int,
                ));
            }
        }
        i += 1;
    }
    hit
}

/// Respawns the player at `index`: on a free spot when a candidate is
/// free, keeping the minimum spacing from every player and box that was
/// there, the player's own old place among them; else on any whole-unit
/// position of the arena. Nothing else changes.
pub fn respawn_player(state: &mut GameState, index: usize)
    requires
        index < old(state).players.len(),
    ensures
        final(state).boxes@ == old(state).boxes@,
        final(state).bullets@ == old(state).bullets@,
        final(state).flag_x == old(state).flag_x,
        final(state).flag_y == old(state).flag_y,
        final(state).flag_owner_id == old(state).flag_owner_id,
        final(state).players@
            == old(state).players@.update(index as int, final(state).players@[index as int]),
        final(state).players@[index as int] == old(state).players@[index as int].respawned_at(
            final(state).players@[index as int].x,
            final(state).players@[index as int].y,
        ),
        respawn_point(
            final(state).players@[index as int].x as int,
            final(state).players@[index as int].y as int,
        ),
        !no_free_spot(old(state)@) ==> {
            &&& candidate_spot(
                final(state).players@[index as int].x as int,
                final(state).players@[index as int].y as int,
            )
            &&& spot_free(
                final(state).players@[index as int].x as int,
                final(state).players@[index as int].y as int,
                old(state)@,
            )
        },
{
    let mut p = state.players[index];
    match find_free_spot(state) {
        Some((x, y)) => p.respawn_at(x, y),
        None => p.respawn(),
    }
    state.players.set(index, p);
}

/// The world as it stood when the turn of player `t` came in hit detection:
/// the players before `t` as they are afterwards, the others as they were
/// before.
pub open spec fn turn_world(before: World, after: World, t: int) -> World {
    World {
        players: Seq::new(
            before.players.len(),
            |k: int|
                if k < t {
                    after.players[k]
                } else {
                    before.players[k]
                },
        ),
        ..before
    }
}

/// Whether player `t` of `after` stands on a spot that was free when its
/// turn came, if a candidate was free then.
pub open spec fn respawned_free(before: World, after: World, t: int) -> bool {
    let then = turn_world(before, after, t);
    !no_free_spot(then) ==> {
        &&& candidate_spot(after.players[t].x as int, after.players[t].y as int)
        &&& spot_free(after.players[t].x as int, after.players[t].y as int, then)
    }
}

/// The first half of hit detection. The players take their turns in their
/// order. Every player that a bullet hits respawns once: on a spot that is
/// free at that moment when there is one, else anywhere in the arena; it
/// loses the flag and one point. The owners of the bullets that hit someone
/// are returned, one entry for each hit.
pub fn strike_players(state: &mut GameState, shots: &Vec<Bullet>) -> (shooters: Vec<u32>)
    ensures
        final(state).boxes@ == old(state).boxes@,
        final(state).bullets@ == old(state).bullets@,
        final(state).flag_x == old(state).flag_x,
        final(state).flag_y == old(state).flag_y,
        final(state).flag_owner_id == old(state).flag_owner_id,
        final(state).players@.len() == old(state).players@.len(),
        forall|t: int| 0 <= t < old(state).players@.len() ==> same_but_position(
            #[trigger] final(state).players@[t],
            penalized(old(state).players@[t], shots@),
        ),
        forall|t: int| 0 <= t < old(state).players@.len()
            ==> if is_hit(old(state).players@[t], shots@) {
            respawn_point((#[trigger] final(state).players@[t]).x as int,
                final(state).players@[t].y as int)
        } else {
            final(state).players@[t].x == old(state).players@[t].x
                && final(state).players@[t].y == old(state).players@[t].y
        },
        forall|t: int| 0 <= t < old(state).players@.len()
            && is_hit(old(state).players@[t], shots@)
            ==> #[trigger] respawned_free(old(state)@, final(state)@, t),
        forall|id: u32| #[trigger] occurrences(shooters@, id)
            == credits(old(state).players@, shots@, id),
        roomy(old(state)@)
            ==> forall|t: int| 0 <= t < old(state).players@.len()
                && is_hit(old(state).players@[t], shots@)
            ==> #[trigger] player_clear(final(state)@, t),
        roomy(old(state)@)
            ==> forall|j: int| 0 <= j < old(state).boxes@.len() && box_settled(old(state)@, j)
            ==> #[trigger] box_settled(final(state)@, j),
{
    let mut shooters: Vec<u32> = Vec::new();
    let ghost orig = state.players@;
    let mut j: usize = 0;
    while j < state.players.len()
        invariant
            j <= state.players.len(),
            orig == old(state).players@,
            state.boxes@ == old(state).boxes@,
            state.bullets@ == old(state).bullets@,
            state.flag_x == old(state).flag_x,
            state.flag_y == old(state).flag_y,
            state.flag_owner_id == old(state).flag_owner_id,
            state.players@.len() == orig.len(),
            forall|t: int| j <= t < orig.len() ==> #[trigger] state.players@[t] == orig[t],
            forall|t: int| 0 <= t < j ==> same_but_position(
                #[trigger] state.players@[t],
                penalized(orig[t], shots@),
            ),
            forall|t: int| 0 <= t < j ==> if is_hit(orig[t], shots@) {
                respawn_point((#[trigger] state.players@[t]).x as int, state.players@[t].y as int)
            } else {
                state.players@[t].x == orig[t].x && state.players@[t].y == orig[t].y
            },
            forall|t: int| 0 <= t < j && is_hit(orig[t], shots@)
                ==> #[trigger] respawned_free(old(state)@, state@, t),
            forall|id: u32| #[trigger] occurrences(shooters@, id)
                == credits_upto(orig, shots@, id, j as int),
            roomy(old(state)@) ==> forall|t: int| 0 <= t < j && is_hit(orig[t], shots@)
                ==> #[trigger] player_clear(state@, t),
            roomy(old(state)@)
                ==> forall|k: int| 0 <= k < old(state).boxes@.len() && box_settled(old(state)@, k)
                ==> #[trigger] box_settled(state@, k),
        decreases state.players.len() - j,
    {
        let victim = state.players[j];
        let ghost prior = state@;
        if collect_hits(&victim, shots, &mut shooters) {
            respawn_player(state, j);
            let mut p = state.players[j];
            p.score = lower_score(p.score);
            p.has_flag = false;
            state.players.set(j, p);
            proof {
                let now = state@;
                assert(now.players =~= prior.players.update(j as int, now.players[j as int]));
                assert(turn_world(old(state)@, now, j as int).players =~= prior.players);
                assert(turn_world(old(state)@, now, j as int) == prior);
                assert forall|t: int| 0 <= t < j + 1 && is_hit(orig[t], shots@)
                    implies #[trigger] respawned_free(old(state)@, now, t) by {
                    if t < j {
                        assert(respawned_free(old(state)@, prior, t));
                        assert(turn_world(old(state)@, now, t).players
                            =~= turn_world(old(state)@, prior, t).players);
                        assert(now.players[t] == prior.players[t]);
                    }
                }
                if roomy(old(state)@) {
                    lemma_roomy_has_free_spot(prior);
                    lemma_respawn_keeps_clear(prior, now, j as int);
                    assert forall|t: int| 0 <= t < j + 1 && is_hit(orig[t], shots@)
                        implies #[trigger] player_clear(now, t) by {
                        if t < j {
                            assert(player_clear(prior, t));
                        }
                    }
                    assert forall|k: int| 0 <= k < old(state).boxes@.len()
                        && box_settled(old(state)@, k)
                        implies #[trigger] box_settled(now, k) by {
                        assert(box_settled(prior, k));
                    }
                }
            }
        } else {
            proof {
                assert forall|t: int| 0 <= t < j + 1 && is_hit(orig[t], shots@)
                    implies #[trigger] respawned_free(old(state)@, state@, t) by {}
            }
        }
        j += 1;
    }
    shooters
}

/// The players with every shooter paid: one point for each entry of
/// `shooters` that names the player.
pub open spec fn shooters_paid(players: Seq<Player>, shooters: Seq<u32>) -> Seq<Player> {
    Seq::new(players.len(), |t: int| credited(players[t], occurrences(shooters, players[t].id)))
}

/// The second half of hit detection: every player gains one point for each
/// entry of `shooters` that names it.
pub fn credit_shooters(state: &mut GameState, shooters: &Vec<u32>)
    ensures
        final(state).boxes@ == old(state).boxes@,
        final(state).bullets@ == old(state).bullets@,
        final(state).flag_x == old(state).flag_x,
        final(state).flag_y == old(state).flag_y,
        final(state).flag_owner_id == old(state).flag_owner_id,
        final(state).players@ == shooters_paid(old(state).players@, shooters@),
{
    let mut t: usize = 0;
    while t < state.players.len()
        invariant
            t <= state.players.len(),
            state.boxes@ == old(state).boxes@,
            state.bullets@ == old(state).bullets@,
            state.flag_x == old(state).flag_x,
            state.flag_y == old(state).flag_y,
            state.flag_owner_id == old(state).flag_owner_id,
            state.players@.len() == old(state).players@.len(),
            forall|u: int| 0 <= u < t
                ==> state.players@[u] == shooters_paid(old(state).players@, shooters@)[u],
            forall|u: int| t <= u < state.players@.len()
                ==> state.players@[u] == old(state).players@[u],
        decreases state.players.len() - t,
    {
        let mut p = state.players[t];
        let points = count_id(shooters, p.id);
        p.score = raise_score(p.score, points);
        state.players.set(t, p);
        t += 1;
    }
    assert(state.players@ =~= shooters_paid(old(state).players@, shooters@));
}

/// Hit detection against the bullets as they stood before the tick. A
/// player that any bullet of another owner hits respawns once, on a spot
/// that is free when its turn comes if there is one, and pays once, however
/// many bullets hit it; the owner of every such bullet gains a point for
/// it.
pub fn resolve_player_hits(state: &mut GameState, shots: &Vec<Bullet>)
    ensures
        final(state).boxes@ == old(state).boxes@,
        final(state).bullets@ == old(state).bullets@,
        final(state).flag_x == old(state).flag_x,
        final(state).flag_y == old(state).flag_y,
        final(state).flag_owner_id == old(state).flag_owner_id,
        final(state).players@.len() == old(state).players@.len(),
        forall|t: int| 0 <= t < old(state).players@.len() ==> same_but_position(
            #[trigger] final(state).players@[t],
            after_hits(old(state).players@[t], old(state).players@, shots@),
        ),
        forall|t: int| 0 <= t < old(state).players@.len()
            ==> if is_hit(old(state).players@[t], shots@) {
            respawn_point((#[trigger] final(state).players@[t]).x as int,
                final(state).players@[t].y as int)
        } else {
            final(state).players@[t].x == old(state).players@[t].x
                && final(state).players@[t].y == old(state).players@[t].y
        },
        forall|t: int| 0 <= t < old(state).players@.len()
            && is_hit(old(state).players@[t], shots@)
            ==> #[trigger] respawned_free(old(state)@, final(state)@, t),
        roomy(old(state)@)
            ==> forall|t: int| 0 <= t < old(state).players@.len()
                && is_hit(old(state).players@[t], shots@)
            ==> #[trigger] player_clear(final(state)@, t),
        roomy(old(state)@)
            ==> forall|j: int| 0 <= j < old(state).boxes@.len() && box_settled(old(state)@, j)
            ==> #[trigger] box_settled(final(state)@, j),
{
    let shooters = strike_players(state, shots);
    let ghost mid = state@;
    credit_shooters(state, &shooters);
    proof {
        let now = state@;
        assert forall|t: int| 0 <= t < now.players.len()
            implies now.players[t].x == mid.players[t].x
            && now.players[t].y == mid.players[t].y && now.players[t].id == mid.players[t].id by {
            assert(now.players[t] == shooters_paid(mid.players, shooters@)[t]);
        }
        assert forall|t: int| 0 <= t < old(state).players@.len() implies same_but_position(
            #[trigger] state.players@[t],
            after_hits(old(state).players@[t], old(state).players@, shots@),
        ) by {
            assert(now.players[t] == shooters_paid(mid.players, shooters@)[t]);
            assert(same_but_position(mid.players[t], penalized(old(state).players@[t], shots@)));
        }
        assert forall|t: int| 0 <= t < old(state).players@.len()
            && is_hit(old(state).players@[t], shots@)
            implies #[trigger] respawned_free(old(state)@, now, t) by {
            assert(respawned_free(old(state)@, mid, t));
            lemma_same_places(turn_world(old(state)@, mid, t), turn_world(old(state)@, now, t));
        }
        if roomy(old(state)@) {
            assert forall|t: int| 0 <= t < now.players.len() && player_clear(mid, t)
                implies player_clear(now, t) by {
                assert forall|k: int| 0 <= k < now.players.len() && k != t
                    implies !crowds((#[trigger] now.players[k]).place(),
                        now.players[t].place()) by {
                    assert(!crowds(mid.players[k].place(), mid.players[t].place()));
                }
                assert forall|j: int| 0 <= j < now.boxes.len()
                    implies !crowds((#[trigger] now.boxes[j]).place(), now.players[t].place()) by {
                    assert(!crowds(mid.boxes[j].place(), mid.players[t].place()));
                }
            }
            assert forall|j: int| 0 <= j < now.boxes.len() && box_settled(mid, j)
                implies box_settled(now, j) by {
                assert forall|i: int| 0 <= i < now.players.len()
                    implies !crowds((#[trigger] now.players[i]).place(), now.boxes[j].place()) by {
                    assert(!crowds(mid.players[i].place(), mid.boxes[j].place()));
                }
            }
        }
    }
}

} // verus!
