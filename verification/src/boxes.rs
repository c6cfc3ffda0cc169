//! Boxes: where they start, and how gunfire relocates them.

use crate::geometry::{distance, get_distance};
use crate::select::{first_index, lemma_first_index_is};
use crate::shared::{Bullet, GameState, WoodBox, World, BOX_SIZE};
use crate::spots::{
    candidate_spot, crowds, find_free_spot, lemma_free_candidate, lemma_roomy_has_free_spot,
    no_free_spot, spot_free,
};
use vstd::prelude::*;

verus! {

/// Number of boxes that the server sets out at start.
pub const BOX_COUNT: usize = 20;

/// Whether the bullet `b` is close enough to the box `c` to destroy it.
pub open spec fn strikes(b: Bullet, c: WoodBox) -> bool {
    distance(c.x as int, b.x as int, c.y as int, b.y as int) < BOX_SIZE
}

/// For each box, whether `b` strikes it.
pub open spec fn strike_flags(b: Bullet, boxes: Seq<WoodBox>) -> Seq<bool> {
    Seq::new(boxes.len(), |j: int| strikes(b, boxes[j]))
}

/// Index of the first box that `b` strikes; the number of boxes when it
/// strikes none.
pub open spec fn struck_box(b: Bullet, boxes: Seq<WoodBox>) -> int {
    first_index(strike_flags(b, boxes), 0)
}

/// Whether one of the bullets from index `from` on strikes box `j` first.
pub open spec fn struck_from(j: int, bullets: Seq<Bullet>, boxes: Seq<WoodBox>, from: int) -> bool {
    exists|i: int| from <= i < bullets.len() && struck_box(#[trigger] bullets[i], boxes) == j
}

/// Whether one of the bullets strikes box `j` first.
pub open spec fn is_struck(j: int, bullets: Seq<Bullet>, boxes: Seq<WoodBox>) -> bool {
    struck_from(j, bullets, boxes, 0)
}

/// Whether box `j` keeps the minimum spacing from every player and from
/// every other box.
pub open spec fn box_clear(w: World, j: int) -> bool {
    &&& forall|i: int| 0 <= i < w.players.len()
        ==> !crowds((#[trigger] w.players[i]).place(), w.boxes[j].place())
    &&& forall|k: int| 0 <= k < w.boxes.len() && k != j
        ==> !crowds((#[trigger] w.boxes[k]).place(), w.boxes[j].place())
}

/// Whether box `j` stands on a candidate spot, clear of everything else.
pub open spec fn box_settled(w: World, j: int) -> bool {
    &&& candidate_spot(w.boxes[j].x as int, w.boxes[j].y as int)
    &&& box_clear(w, j)
}

/// Whether any two boxes keep the minimum spacing from each other.
pub open spec fn boxes_spaced(boxes: Seq<WoodBox>) -> bool {
    forall|j: int, k: int| 0 <= j < boxes.len() && 0 <= k < boxes.len() && j != k
        ==> !crowds((#[trigger] boxes[j]).place(), (#[trigger] boxes[k]).place())
}

/// Finds the first box that the bullet strikes.
pub fn find_struck_box(bullet: &Bullet, boxes: &Vec<WoodBox>) -> (hit: Option<usize>)
    ensures
        match hit {
            Some(j) => j < boxes.len() && j == struck_box(*bullet, boxes@),
            None => struck_box(*bullet, boxes@) == boxes.len(),
        },
{
    let ghost flags = strike_flags(*bullet, boxes@);
    let mut j: usize = 0;
    while j < boxes.len()
        invariant
            j <= boxes.len(),
            flags == strike_flags(*bullet, boxes@),
            forall|k: int| 0 <= k < j ==> !flags[k],
        decreases boxes.len() - j,
    {
        if get_distance(boxes[j].x, bullet.x, boxes[j].y, bullet.y) < BOX_SIZE {
            proof {
                lemma_first_index_is(flags, 0, j as int);
            }
            return Some(j);
        }
        j += 1;
    }
    proof {
        lemma_first_index_is(flags, 0, boxes.len() as int);
    }
    None
}

/// Replaces the box at `index` by one new box on a free spot. The count of
/// boxes stays, every other box stays where it is, and the new box keeps
/// the minimum spacing from every player and every box that was there,
/// the replaced one among them. Only when no candidate is free does the box
/// stay where it was.
pub fn respawn_box(state: &mut GameState, index: usize)
    requires
        index < old(state).boxes.len(),
    ensures
        final(state).players@ == old(state).players@,
        final(state).bullets@ == old(state).bullets@,
        final(state).flag_x == old(state).flag_x,
        final(state).flag_y == old(state).flag_y,
        final(state).flag_owner_id == old(state).flag_owner_id,
        final(state).boxes@
            == old(state).boxes@.update(index as int, final(state).boxes@[index as int]),
        no_free_spot(old(state)@)
            ==> final(state).boxes@[index as int] == old(state).boxes@[index as int],
        !no_free_spot(old(state)@) ==> {
            &&& candidate_spot(final(state).boxes@[index as int].x as int,
                final(state).boxes@[index as int].y as int)
            &&& spot_free(final(state).boxes@[index as int].x as int,
                final(state).boxes@[index as int].y as int,
                old(state)@)
        },
{
    match find_free_spot(state) {
        Some((x, y)) => {
            proof {
                lemma_free_candidate(x as int, y as int, state@);
            }
            state.boxes.set(index, WoodBox { x, y });
        },
        None => {
            assert(state.boxes@ =~= state.boxes@.update(index as int, state.boxes@[index as int]));
        },
    }
}

/// Sets out boxes on free spots, one after the other, until `BOX_COUNT`
/// have been added or no candidate is free any more.
pub fn initialize_boxes(state: &mut GameState)
    ensures
        final(state).players@ == old(state).players@,
        final(state).bullets@ == old(state).bullets@,
        final(state).flag_x == old(state).flag_x,
        final(state).flag_y == old(state).flag_y,
        final(state).flag_owner_id == old(state).flag_owner_id,
        old(state).boxes@.is_prefix_of(final(state).boxes@),
        final(state).boxes@.len() <= old(state).boxes@.len() + BOX_COUNT,
        final(state).boxes@.len() < old(state).boxes@.len() + BOX_COUNT
            ==> no_free_spot(final(state)@),
        forall|j: int| old(state).boxes@.len() <= j < final(state).boxes@.len()
            ==> box_settled(final(state)@, j),
        boxes_spaced(old(state).boxes@) ==> boxes_spaced(final(state).boxes@),
        old(state).players@.len()
            + old(state).boxes@.len()
            + BOX_COUNT <= crate::spots::SPOT_CAPACITY
            ==> final(state).boxes@.len() == old(state).boxes@.len() + BOX_COUNT,
        old(state)@.wf() ==> final(state)@.wf(),
{
    let ghost before = state.boxes@;
    let mut added: usize = 0;
    let mut full = false;
    while added < BOX_COUNT && !full
        invariant
            added <= BOX_COUNT,
            state.players@ == old(state).players@,
            state.bullets@ == old(state).bullets@,
            state.flag_x == old(state).flag_x,
            state.flag_y == old(state).flag_y,
            state.flag_owner_id == old(state).flag_owner_id,
            before == old(state).boxes@,
            before.is_prefix_of(state.boxes@),
            state.boxes@.len() == before.len() + added,
            full ==> no_free_spot(state@),
            forall|j: int| before.len() <= j < state.boxes@.len() ==> box_settled(state@, j),
            boxes_spaced(before) ==> boxes_spaced(state.boxes@),
            old(state).players@.len() + before.len() + BOX_COUNT <= crate::spots::SPOT_CAPACITY
                ==> !full,
        decreases BOX_COUNT - added + if full { 0int } else { 1int },
    {
        let ghost prior = state@;
        proof {
            if prior.players.len() + prior.boxes.len() < crate::spots::SPOT_CAPACITY {
                lemma_roomy_has_free_spot(prior);
            }
        }
        match find_free_spot(state) {
            Some((x, y)) => {
                state.boxes.push(WoodBox { x, y });
                added += 1;
                proof {
                    let now = state@;
                    let last = now.boxes.len() - 1;
                    assert(now.boxes[last] == (WoodBox { x, y }));
                    assert forall|j: int| before.len() <= j < now.boxes.len()
                        implies box_settled(now, j) by {
                        if j < last {
                            assert(box_settled(prior, j));
                            assert(now.boxes[j] == prior.boxes[j]);
                            assert forall|k: int| 0 <= k < now.boxes.len() && k != j
                                implies !crowds((#[trigger] now.boxes[k]).place(),
                                    now.boxes[j].place()) by {
                                if k < last {
                                    assert(now.boxes[k] == prior.boxes[k]);
                                } else {
                                    assert(!crowds(prior.boxes[j].place(), (x as int, y as int)));
                                }
                            }
                            assert forall|i: int| 0 <= i < now.players.len()
                                implies !crowds((#[trigger] now.players[i]).place(),
                                    now.boxes[j].place()) by {
                                assert(now.players[i] == prior.players[i]);
                            }
                        } else {
                            assert forall|k: int| 0 <= k < now.boxes.len() && k != j
                                implies !crowds((#[trigger] now.boxes[k]).place(),
                                    now.boxes[j].place()) by {
                                assert(now.boxes[k] == prior.boxes[k]);
                            }
                            assert forall|i: int| 0 <= i < now.players.len()
                                implies !crowds((#[trigger] now.players[i]).place(),
                                    now.boxes[j].place()) by {
                                assert(now.players[i] == prior.players[i]);
                            }
                        }
                    }
                    if boxes_spaced(before) {
                        assert forall|j: int, k: int| 0 <= j < now.boxes.len()
                            && 0 <= k < now.boxes.len()
                            && j != k
                            implies !crowds((#[trigger] now.boxes[j]).place(),
                                (#[trigger] now.boxes[k]).place()) by {
                            if j < last && k < last {
                                assert(now.boxes[j] == prior.boxes[j]);
                                assert(now.boxes[k] == prior.boxes[k]);
                            } else if j == last {
                                assert(now.boxes[k] == prior.boxes[k]);
                            } else {
                                assert(now.boxes[j] == prior.boxes[j]);
                            }
                        }
                    }
                }
            },
            None => {
                full = true;
            },
        }
    }
}

} // verus!
