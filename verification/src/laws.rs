//! What holds of the world across every tick and every command.

use crate::boxes::{box_settled, boxes_spaced, is_struck};
use crate::combat::{is_hit, same_but_position};
use crate::select::lemma_first_index;
use crate::server::{
    accepts, before_hits, index_of, lemma_before_hits_keeps_place, lemma_before_hits_len,
    lemma_hit_by_place, moved_by, others, others_upto, settled, step_outcome, id_flags,
};
use crate::shared::{
    flag_with_holder, owner_is_holder, single_holder, unique_ids, Bullet, Player, WoodBox, World,
};
use crate::spots::roomy;
use crate::simulation::{
    captured, flag_holders, flag_taker, in_window, kept, kept_upto, near_flags, surviving,
    surviving_from,
};
use vstd::prelude::*;

verus! {

/// Over a tick no player's respawn counter decreases, and every player
/// keeps its identifier.
pub proof fn lemma_step_respawn_monotone(before: World, elapsed_nanos: u128, after: World)
    requires
        step_outcome(before, elapsed_nanos, after),
    ensures
        after.players.len() == before.players.len(),
        forall|t: int| 0 <= t < before.players.len()
            ==> (#[trigger] after.players[t]).respawn_num >= before.players[t].respawn_num
                && after.players[t].id == before.players[t].id,
{
    lemma_before_hits_len(before, elapsed_nanos);
    let goal = settled(before, elapsed_nanos);
    assert forall|t: int| 0 <= t < before.players.len()
        implies (#[trigger] after.players[t]).respawn_num >= before.players[t].respawn_num
            && after.players[t].id == before.players[t].id by {
        lemma_before_hits_keeps_place(before, elapsed_nanos, t);
        assert(same_but_position(after.players[t], goal.players[t]));
    }
}

/// A position update changes no respawn counter, and one that is accepted
/// carries a counter at least as large as the one the server holds.
pub proof fn lemma_update_respawn(w: World, update: Player)
    ensures
        moved_by(w, update).players.len() == w.players.len(),
        forall|t: int| 0 <= t < w.players.len()
            ==> (#[trigger] moved_by(w, update).players[t]).respawn_num == w.players[t].respawn_num,
        accepts(w, update)
            ==> update.respawn_num >= w.players[index_of(w.players, update.id)].respawn_num,
        !accepts(w, update) ==> moved_by(w, update) == w,
{
    lemma_first_index(id_flags(w.players, update.id), 0);
}

/// After a tick at most one player holds the flag, and if one does, it is
/// the owner on record and the flag stands where it stands. This holds
/// whatever the world was before the tick.
pub proof fn lemma_step_flag(before: World, elapsed_nanos: u128, after: World)
    requires
        step_outcome(before, elapsed_nanos, after),
    ensures
        single_holder(after.players),
        owner_is_holder(after),
        flag_with_holder(after),
{
    lemma_before_hits_len(before, elapsed_nanos);
    lemma_first_index(near_flags(before), 0);
    lemma_first_index(flag_holders(before.players), 0);
    lemma_first_index(flag_holders(captured(before).players), 0);
    let goal = settled(before, elapsed_nanos);
    let b = before_hits(before, elapsed_nanos);
    let k = flag_taker(before);
    assert forall|t: int| 0 <= t < before.players.len() && (#[trigger] after.players[t]).has_flag
        implies t == k && !is_hit(before.players[t], before.bullets)
            && after.players[t].id == before.players[t].id by {
        lemma_before_hits_keeps_place(before, elapsed_nanos, t);
        lemma_hit_by_place(before.players[t], b.players[t], before.bullets);
        assert(same_but_position(after.players[t], goal.players[t]));
        assert(b.players[t].has_flag);
        if k >= before.players.len() {
            assert(!flag_holders(before.players)[t]);
        }
    }
}

/// A tick keeps a well-formed world well formed.
pub proof fn lemma_step_wf(before: World, elapsed_nanos: u128, after: World)
    requires
        step_outcome(before, elapsed_nanos, after),
        before.wf(),
    ensures
        after.wf(),
{
    lemma_step_respawn_monotone(before, elapsed_nanos, after);
    lemma_step_flag(before, elapsed_nanos, after);
    assert forall|i: int, j: int| 0 <= i < after.players.len()
        && 0 <= j < after.players.len()
        && i != j
        implies (#[trigger] after.players[i]).id != (#[trigger] after.players[j]).id by {
        assert(before.players[i].id != before.players[j].id);
    }
}

/// A position update keeps at most one holder, and keeps the flag with its
/// holder unless it moves the holder itself.
pub proof fn lemma_update_flag(w: World, update: Player)
    ensures
        single_holder(w.players) ==> single_holder(moved_by(w, update).players),
        w.wf() ==> moved_by(w, update).wf(),
        flag_with_holder(w)
            && !(accepts(w, update) && w.players[index_of(w.players, update.id)].has_flag)
            ==> flag_with_holder(moved_by(w, update)),
{
    lemma_first_index(id_flags(w.players, update.id), 0);
    let after = moved_by(w, update);
    if single_holder(w.players) {
        assert forall|i: int, j: int| 0 <= i < after.players.len()
            && 0 <= j < after.players.len()
            && (#[trigger] after.players[i]).has_flag
            && (#[trigger] after.players[j]).has_flag
            implies i == j by {
            assert(w.players[i].has_flag && w.players[j].has_flag);
        }
    }
    if w.wf() {
        assert forall|i: int, j: int| 0 <= i < after.players.len()
            && 0 <= j < after.players.len()
            && i != j
            implies (#[trigger] after.players[i]).id != (#[trigger] after.players[j]).id by {
            assert(w.players[i].id != w.players[j].id);
        }
        assert forall|i: int| 0 <= i < after.players.len() && (#[trigger] after.players[i]).has_flag
            implies after.flag_owner_id == Some(after.players[i].id) by {
            assert(w.players[i].has_flag);
        }
    }
    if flag_with_holder(w)
        && !(accepts(w, update) && w.players[index_of(w.players, update.id)].has_flag) {
        assert forall|i: int| 0 <= i < after.players.len() && (#[trigger] after.players[i]).has_flag
            implies after.flag_x == after.players[i].x && after.flag_y == after.players[i].y by {
            assert(w.players[i].has_flag);
        }
    }
}

/// Whether `p` and then `q` stand among the first `n` players, `p` before
/// `q`.
pub open spec fn stand_in_order(players: Seq<Player>, n: int, p: Player, q: Player) -> bool {
    exists|i: int, j: int| 0 <= i < j < n
        && #[trigger] players[i] == p
        && #[trigger] players[j] == q
}

/// Whether `p` stands among the first `n` players.
pub open spec fn stands_among(players: Seq<Player>, n: int, p: Player) -> bool {
    exists|i: int| 0 <= i < n && #[trigger] players[i] == p
}

/// The players with the one at index `k` put at `(x, y)`.
pub open spec fn moved_one(players: Seq<Player>, k: int, x: i32, y: i32) -> Seq<Player> {
    players.update(k, Player { x, y, ..players[k] })
}

/// Moving one player, and nothing else, changes no respawn counter and no
/// flag holder: at most one holder stays at most one, and the flag stays
/// with its holder unless the holder itself is moved. A bot's walking step
/// is such a move.
pub proof fn lemma_move_one(w: World, k: int, x: i32, y: i32)
    requires
        0 <= k < w.players.len(),
    ensures
        single_holder(w.players) ==> single_holder(moved_one(w.players, k, x, y)),
        w.wf() ==> (World { players: moved_one(w.players, k, x, y), ..w }).wf(),
        flag_with_holder(w) && !w.players[k].has_flag ==> flag_with_holder(
            World { players: moved_one(w.players, k, x, y), ..w },
        ),
        forall|t: int| 0 <= t < w.players.len()
            ==> (#[trigger] moved_one(w.players, k, x, y)[t]).respawn_num
            == w.players[t].respawn_num,
{
    let after = moved_one(w.players, k, x, y);
    if single_holder(w.players) {
        assert forall|i: int, j: int| 0 <= i < after.len()
            && 0 <= j < after.len()
            && (#[trigger] after[i]).has_flag
            && (#[trigger] after[j]).has_flag
            implies i == j by {
            assert(w.players[i].has_flag && w.players[j].has_flag);
        }
    }
    if w.wf() {
        assert forall|i: int, j: int| 0 <= i < after.len() && 0 <= j < after.len() && i != j
            implies (#[trigger] after[i]).id != (#[trigger] after[j]).id by {
            assert(w.players[i].id != w.players[j].id);
        }
        assert forall|i: int| 0 <= i < after.len() && (#[trigger] after[i]).has_flag
            implies w.flag_owner_id == Some(after[i].id) by {
            assert(w.players[i].has_flag);
        }
    }
    if flag_with_holder(w) && !w.players[k].has_flag {
        assert forall|i: int| 0 <= i < after.len() && (#[trigger] after[i]).has_flag
            implies w.flag_x == after[i].x && w.flag_y == after[i].y by {
            assert(w.players[i].has_flag);
        }
    }
}

/// Each of the players that stay when one leaves was there before, and
/// they stay in their order.
pub proof fn lemma_others(players: Seq<Player>, id: u32, n: int)
    requires
        0 <= n <= players.len(),
    ensures
        others_upto(players, id, n).len() <= n,
        forall|k: int| 0 <= k < others_upto(players, id, n).len()
            ==> (#[trigger] others_upto(players, id, n)[k]).id != id,
        forall|k: int| 0 <= k < others_upto(players, id, n).len()
            ==> stands_among(players, n, #[trigger] others_upto(players, id, n)[k]),
        forall|k: int, l: int| 0 <= k < l < others_upto(players, id, n).len()
            ==> stand_in_order(players,
                n,
                #[trigger] others_upto(players, id, n)[k],
                #[trigger] others_upto(players, id, n)[l]),
    decreases n,
{
    if n > 0 {
        lemma_others(players, id, n - 1);
        let now = others_upto(players, id, n);
        let earlier = others_upto(players, id, n - 1);
        assert forall|k: int| 0 <= k < now.len()
            implies stands_among(players, n, #[trigger] now[k]) by {
            if k < earlier.len() {
                assert(stands_among(players, n - 1, earlier[k]));
                let i = choose|i: int| 0 <= i < n - 1 && #[trigger] players[i] == earlier[k];
                assert(players[i] == now[k]);
            } else {
                assert(players[n - 1] == now[k]);
            }
        }
        assert forall|k: int, l: int| 0 <= k < l < now.len()
            implies stand_in_order(players, n, #[trigger] now[k], #[trigger] now[l]) by {
            if l < earlier.len() {
                assert(stand_in_order(players, n - 1, earlier[k], earlier[l]));
                let (i, j) = choose|i: int, j: int| 0 <= i < j < n - 1
                    && #[trigger] players[i] == earlier[k]
                    && #[trigger] players[j] == earlier[l];
                assert(players[i] == now[k] && players[j] == now[l]);
            } else {
                assert(stands_among(players, n - 1, earlier[k]));
                let i = choose|i: int| 0 <= i < n - 1 && #[trigger] players[i] == earlier[k];
                assert(players[i] == now[k] && players[n - 1] == now[l]);
            }
        }
    }
}

/// When a player leaves, nobody with its identifier stays, at most one
/// player keeps holding the flag, the flag stays with its holder, and
/// identifiers stay unique.
pub proof fn lemma_leave(w: World, id: u32)
    ensures
        others(w.players, id).len() <= w.players.len(),
        forall|k: int| 0 <= k < others(w.players, id).len()
            ==> (#[trigger] others(w.players, id)[k]).id != id,
        single_holder(w.players) ==> single_holder(others(w.players, id)),
        flag_with_holder(w) ==> flag_with_holder(World { players: others(w.players, id), ..w }),
        unique_ids(w.players) ==> unique_ids(others(w.players, id)),
        owner_is_holder(w) ==> owner_is_holder(World { players: others(w.players, id), ..w }),
        w.wf() ==> (World { players: others(w.players, id), ..w }).wf(),
{
    let stay = others(w.players, id);
    let n = w.players.len() as int;
    lemma_others(w.players, id, n);
    if single_holder(w.players) {
        assert forall|k: int, l: int| 0 <= k < stay.len()
            && 0 <= l < stay.len()
            && (#[trigger] stay[k]).has_flag
            && (#[trigger] stay[l]).has_flag
            implies k == l by {
            if k < l {
                assert(stand_in_order(w.players, n, stay[k], stay[l]));
                let (i, j) = choose|i: int, j: int| 0 <= i < j < n
                    && #[trigger] w.players[i] == stay[k]
                    && #[trigger] w.players[j] == stay[l];
                assert(w.players[i].has_flag && w.players[j].has_flag);
            } else if l < k {
                assert(stand_in_order(w.players, n, stay[l], stay[k]));
                let (i, j) = choose|i: int, j: int| 0 <= i < j < n
                    && #[trigger] w.players[i] == stay[l]
                    && #[trigger] w.players[j] == stay[k];
                assert(w.players[i].has_flag && w.players[j].has_flag);
            }
        }
    }
    if flag_with_holder(w) {
        assert forall|k: int| 0 <= k < stay.len() && (#[trigger] stay[k]).has_flag
            implies w.flag_x == stay[k].x && w.flag_y == stay[k].y by {
            assert(stands_among(w.players, n, stay[k]));
            let i = choose|i: int| 0 <= i < n && #[trigger] w.players[i] == stay[k];
            assert(w.players[i].has_flag);
        }
    }
    if owner_is_holder(w) {
        assert forall|k: int| 0 <= k < stay.len() && (#[trigger] stay[k]).has_flag
            implies w.flag_owner_id == Some(stay[k].id) by {
            assert(stands_among(w.players, n, stay[k]));
            let i = choose|i: int| 0 <= i < n && #[trigger] w.players[i] == stay[k];
            assert(w.players[i].has_flag);
        }
    }
    if unique_ids(w.players) {
        assert forall|k: int, l: int| 0 <= k < stay.len() && 0 <= l < stay.len() && k != l
            implies (#[trigger] stay[k]).id != (#[trigger] stay[l]).id by {
            if k < l {
                assert(stand_in_order(w.players, n, stay[k], stay[l]));
                let (i, j) = choose|i: int, j: int| 0 <= i < j < n
                    && #[trigger] w.players[i] == stay[k]
                    && #[trigger] w.players[j] == stay[l];
                assert(w.players[i].id != w.players[j].id);
            } else {
                assert(stand_in_order(w.players, n, stay[l], stay[k]));
                let (i, j) = choose|i: int, j: int| 0 <= i < j < n
                    && #[trigger] w.players[i] == stay[l]
                    && #[trigger] w.players[j] == stay[k];
                assert(w.players[i].id != w.players[j].id);
            }
        }
    }
}

/// A player who joins holds no flag: at most one holder stays at most one,
/// and the flag stays with its holder. With an identifier that nobody has
/// yet, the world stays well formed.
pub proof fn lemma_join(w: World, id: u32)
    ensures
        single_holder(w.players) ==> single_holder(w.players.push(Player::fresh(id))),
        flag_with_holder(w)
            ==> flag_with_holder(World { players: w.players.push(Player::fresh(id)), ..w }),
        w.wf() && index_of(w.players, id) == w.players.len() ==> (World {
            players: w.players.push(Player::fresh(id)),
            ..w
        }).wf(),
{
    let after = w.players.push(Player::fresh(id));
    if w.wf() && index_of(w.players, id) == w.players.len() {
        lemma_first_index(id_flags(w.players, id), 0);
        assert forall|i: int, j: int| 0 <= i < after.len() && 0 <= j < after.len() && i != j
            implies (#[trigger] after[i]).id != (#[trigger] after[j]).id by {
            if i < w.players.len() && j < w.players.len() {
                assert(after[i] == w.players[i] && after[j] == w.players[j]);
            } else if i < w.players.len() {
                assert(after[i] == w.players[i]);
                assert(!id_flags(w.players, id)[i]);
            } else {
                assert(after[j] == w.players[j]);
                assert(!id_flags(w.players, id)[j]);
            }
        }
        assert forall|i: int| 0 <= i < after.len() && (#[trigger] after[i]).has_flag
            implies w.flag_owner_id == Some(after[i].id) by {
            assert(after[i] == w.players[i]);
        }
    }
    if single_holder(w.players) {
        assert forall|i: int, j: int| 0 <= i < after.len()
            && 0 <= j < after.len()
            && (#[trigger] after[i]).has_flag
            && (#[trigger] after[j]).has_flag
            implies i == j by {
            assert(after[i] == w.players[i] && after[j] == w.players[j]);
        }
    }
    if flag_with_holder(w) {
        assert forall|i: int| 0 <= i < after.len() && (#[trigger] after[i]).has_flag
            implies w.flag_x == after[i].x && w.flag_y == after[i].y by {
            assert(after[i] == w.players[i]);
        }
    }
}

/// Whether `b` is one of the first `n` bullets.
pub open spec fn flies_among(bullets: Seq<Bullet>, n: int, b: Bullet) -> bool {
    exists|i: int| 0 <= i < n && #[trigger] bullets[i] == b
}

/// Whether `b` is one of the bullets from `from` on, moved by one tick.
pub open spec fn moved_from(bullets: Seq<Bullet>, from: int, b: Bullet) -> bool {
    exists|i: int| from <= i < bullets.len() && (#[trigger] bullets[i]).moved() == b
}

/// Of the first `n` bullets, those kept are no more than `n`, each is
/// inside the window, and each was among them.
pub proof fn lemma_kept(bullets: Seq<Bullet>, n: int)
    requires
        0 <= n <= bullets.len(),
    ensures
        kept_upto(bullets, n).len() <= n,
        forall|k: int| 0 <= k < kept_upto(bullets, n).len()
            ==> in_window(#[trigger] kept_upto(bullets, n)[k]),
        forall|k: int| 0 <= k < kept_upto(bullets, n).len()
            ==> flies_among(bullets, n, #[trigger] kept_upto(bullets, n)[k]),
    decreases n,
{
    if n > 0 {
        lemma_kept(bullets, n - 1);
        let now = kept_upto(bullets, n);
        let earlier = kept_upto(bullets, n - 1);
        assert forall|k: int| 0 <= k < now.len()
            implies flies_among(bullets, n, #[trigger] now[k]) by {
            if k < earlier.len() {
                assert(flies_among(bullets, n - 1, earlier[k]));
                let i = choose|i: int| 0 <= i < n - 1 && #[trigger] bullets[i] == earlier[k];
                assert(bullets[i] == now[k]);
            } else {
                assert(bullets[n - 1] == now[k]);
            }
        }
    }
}

/// Of the bullets from `from` on, those that survive the boxes are no more
/// than there were, and each is one of them, moved by one tick.
pub proof fn lemma_surviving(bullets: Seq<Bullet>, boxes: Seq<WoodBox>, from: int)
    requires
        0 <= from <= bullets.len(),
    ensures
        surviving_from(bullets, boxes, from).len() <= bullets.len() - from,
        forall|k: int| 0 <= k < surviving_from(bullets, boxes, from).len()
            ==> moved_from(bullets, from, #[trigger] surviving_from(bullets, boxes, from)[k]),
    decreases bullets.len() - from,
{
    if from < bullets.len() {
        lemma_surviving(bullets, boxes, from + 1);
        let now = surviving_from(bullets, boxes, from);
        let later = surviving_from(bullets, boxes, from + 1);
        assert forall|k: int| 0 <= k < now.len()
            implies moved_from(bullets, from, #[trigger] now[k]) by {
            if now.len() == later.len() {
                assert(moved_from(bullets, from + 1, later[k]));
                let i = choose|i: int| from + 1 <= i < bullets.len()
                    && (#[trigger] bullets[i]).moved() == later[k];
                assert(bullets[i].moved() == now[k]);
            } else if k == 0 {
                assert(bullets[from].moved() == now[k]);
            } else {
                assert(moved_from(bullets, from + 1, later[k - 1]));
                let i = choose|i: int| from + 1 <= i < bullets.len()
                    && (#[trigger] bullets[i]).moved() == later[k - 1];
                assert(bullets[i].moved() == now[k]);
            }
        }
    }
}

/// A tick never adds a bullet: there are no more after it than before,
/// every one of them is inside the window, and every one of them is a
/// bullet from before the tick, moved by one tick.
pub proof fn lemma_step_bullets(before: World, elapsed_nanos: u128, after: World)
    requires
        step_outcome(before, elapsed_nanos, after),
    ensures
        after.bullets.len() <= before.bullets.len(),
        forall|k: int| 0 <= k < after.bullets.len() ==> in_window(#[trigger] after.bullets[k]),
        forall|k: int| 0 <= k < after.bullets.len()
            ==> moved_from(before.bullets, 0, #[trigger] after.bullets[k]),
{
    let alive = surviving(before.bullets, before.boxes);
    lemma_surviving(before.bullets, before.boxes, 0);
    lemma_kept(alive, alive.len() as int);
    assert forall|k: int| 0 <= k < after.bullets.len()
        implies moved_from(before.bullets, 0, #[trigger] after.bullets[k]) by {
        assert(flies_among(alive, alive.len() as int, kept(alive)[k]));
        let a = choose|a: int| 0 <= a < alive.len() && #[trigger] alive[a] == kept(alive)[k];
        assert(moved_from(before.bullets, 0, alive[a]));
    }
}

/// Over a tick the boxes stay as many as they were, a box that no bullet
/// struck stays where it was, and boxes that kept the minimum spacing from
/// each other still keep it. In a roomy world every box that a bullet
/// struck stands on a candidate spot afterwards, with the minimum spacing
/// from every player and every other box.
pub proof fn lemma_step_boxes(before: World, elapsed_nanos: u128, after: World)
    requires
        step_outcome(before, elapsed_nanos, after),
    ensures
        after.boxes.len() == before.boxes.len(),
        forall|j: int| 0 <= j < before.boxes.len() && !is_struck(j, before.bullets, before.boxes)
            ==> #[trigger] after.boxes[j] == before.boxes[j],
        boxes_spaced(before.boxes) ==> boxes_spaced(after.boxes),
        roomy(before)
            ==> forall|j: int| 0 <= j < before.boxes.len()
                && is_struck(j, before.bullets, before.boxes)
            ==> #[trigger] box_settled(after, j),
{
}

} // verus!
