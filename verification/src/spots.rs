//! Free spots: where a box or a player may be put down.

use crate::geometry::{span, UNIT};
use crate::rng::random_up_to;
use crate::shared::{whole_units, GameState, World};
use vstd::prelude::*;

verus! {

/// Two positions closer than this on both axes crowd each other.
pub const SLOT_HALF: u64 = 10_000;

/// Largest whole-unit abscissa of a candidate spot.
pub const SPOT_MAX_X: u32 = 779;

/// Largest whole-unit ordinate of a candidate spot.
pub const SPOT_MAX_Y: u32 = 579;

/// Random candidates tried before the arena is searched in order.
pub const SPOT_TRIES: u32 = 64;

/// Whether the places `a` and `b` are closer than `SLOT_HALF` on both axes.
pub open spec fn crowds(a: (int, int), b: (int, int)) -> bool {
    &&& -SLOT_HALF < a.0 - b.0 < SLOT_HALF
    &&& -SLOT_HALF < a.1 - b.1 < SLOT_HALF
}

/// Whether no player and no box of `w` crowds `(x, y)`.
pub open spec fn spot_free(x: int, y: int, w: World) -> bool {
    &&& forall|i: int| 0 <= i < w.players.len()
        ==> !crowds((#[trigger] w.players[i]).place(), (x, y))
    &&& forall|j: int| 0 <= j < w.boxes.len() ==> !crowds((#[trigger] w.boxes[j]).place(), (x, y))
}

/// Whether `(x, y)` is one of the whole-unit positions that a search for a
/// free spot considers.
pub open spec fn candidate_spot(x: int, y: int) -> bool {
    &&& 0 <= x <= SPOT_MAX_X * UNIT
    &&& 0 <= y <= SPOT_MAX_Y * UNIT
    &&& x % (UNIT as int) == 0
    &&& y % (UNIT as int) == 0
}

/// Whether the candidate in column `a` and row `b` is free in `w`.
pub open spec fn grid_free(a: int, b: int, w: World) -> bool {
    spot_free(a * UNIT, b * UNIT, w)
}

/// Whether every candidate spot is crowded in `w`.
pub open spec fn no_free_spot(w: World) -> bool {
    forall|a: int, b: int| 0 <= a <= SPOT_MAX_X && 0 <= b <= SPOT_MAX_Y
        ==> !#[trigger] grid_free(a, b, w)
}

/// What a search for a free spot may return in `w`: a free candidate when
/// there is one, nothing only when there is none.
pub open spec fn free_spot_found(spot: Option<(i32, i32)>, w: World) -> bool {
    match spot {
        Some((x, y)) => candidate_spot(x as int, y as int) && spot_free(x as int, y as int, w),
        None => no_free_spot(w),
    }
}

/// Whether two worlds hold the same boxes, and as many players at the same
/// places.
pub open spec fn same_places(a: World, b: World) -> bool {
    &&& a.boxes == b.boxes
    &&& a.players.len() == b.players.len()
    &&& forall|k: int| 0 <= k < a.players.len()
        ==> (#[trigger] a.players[k]).place() == b.players[k].place()
}

/// Which spots are free depends only on where the players and the boxes
/// stand.
pub proof fn lemma_same_places(a: World, b: World)
    requires
        same_places(a, b),
    ensures
        forall|x: int, y: int| #[trigger] spot_free(x, y, a) == spot_free(x, y, b),
        no_free_spot(a) == no_free_spot(b),
{
    assert forall|x: int, y: int| #[trigger] spot_free(x, y, a) == spot_free(x, y, b) by {
        if spot_free(x, y, a) {
            assert forall|i: int| 0 <= i < b.players.len()
                implies !crowds((#[trigger] b.players[i]).place(), (x, y)) by {
                assert(a.players[i].place() == b.players[i].place());
            }
        }
        if spot_free(x, y, b) {
            assert forall|i: int| 0 <= i < a.players.len()
                implies !crowds((#[trigger] a.players[i]).place(), (x, y)) by {
                assert(a.players[i].place() == b.players[i].place());
            }
        }
    }
    if no_free_spot(a) {
        assert forall|c: int, d: int| 0 <= c <= SPOT_MAX_X && 0 <= d <= SPOT_MAX_Y
            implies !#[trigger] grid_free(c, d, b) by {
            assert(!grid_free(c, d, a));
            assert(spot_free(c * UNIT, d * UNIT, a) == spot_free(c * UNIT, d * UNIT, b));
        }
    }
    if no_free_spot(b) {
        assert forall|c: int, d: int| 0 <= c <= SPOT_MAX_X && 0 <= d <= SPOT_MAX_Y
            implies !#[trigger] grid_free(c, d, a) by {
            assert(!grid_free(c, d, b));
            assert(spot_free(c * UNIT, d * UNIT, a) == spot_free(c * UNIT, d * UNIT, b));
        }
    }
}

/// A free candidate shows that not every candidate is crowded.
pub proof fn lemma_free_candidate(x: int, y: int, w: World)
    requires
        candidate_spot(x, y),
        spot_free(x, y, w),
    ensures
        !no_free_spot(w),
{
    let a = x / (UNIT as int);
    let b = y / (UNIT as int);
    assert(a * UNIT == x && b * UNIT == y);
    assert(grid_free(a, b, w));
}

/// Whether `(ax, ay)` and `(bx, by)` crowd each other.
pub fn is_crowding(ax: i32, ay: i32, bx: i32, by: i32) -> (yes: bool)
    ensures
        yes == crowds((ax as int, ay as int), (bx as int, by as int)),
{
    span(ax, bx) < SLOT_HALF && span(ay, by) < SLOT_HALF
}

/// Whether `(x, y)` keeps the minimum spacing from every player and box.
pub fn is_spot_free(x: i32, y: i32, state: &GameState) -> (free: bool)
    ensures
        free == spot_free(x as int, y as int, state@),
{
    let mut i: usize = 0;
    while i < state.players.len()
        invariant
            i <= state.players.len(),
            forall|k: int| 0 <= k < i
                ==> !crowds((#[trigger] state.players@[k]).place(), (x as int, y as int)),
        decreases state.players.len() - i,
    {
        if is_crowding(state.players[i].x, state.players[i].y, x, y) {
            assert(state@.players[i as int] == state.players@[i as int]);
            return false;
        }
        i += 1;
    }
    let mut j: usize = 0;
    while j < state.boxes.len()
        invariant
            j <= state.boxes.len(),
            forall|k: int| 0 <= k < state.players.len()
                ==> !crowds((#[trigger] state.players@[k]).place(), (x as int, y as int)),
            forall|k: int| 0 <= k < j
                ==> !crowds((#[trigger] state.boxes@[k]).place(), (x as int, y as int)),
        decreases state.boxes.len() - j,
    {
        if is_crowding(state.boxes[j].x, state.boxes[j].y, x, y) {
            assert(state@.boxes[j as int] == state.boxes@[j as int]);
            return false;
        }
        j += 1;
    }
    true
}

/// Whether the candidate in column `a` and row `b` comes before `(x, y)`
/// when the candidates are gone through column by column.
pub open spec fn scanned_before(a: int, b: int, x: int, y: int) -> bool {
    &&& 0 <= a <= SPOT_MAX_X
    &&& 0 <= b <= SPOT_MAX_Y
    &&& a * UNIT < x || (a * UNIT == x && b * UNIT < y)
}

/// Searches the candidates column by column and returns the first free
/// one.
pub fn scan_free_spot(state: &GameState) -> (spot: Option<(i32, i32)>)
    ensures
        free_spot_found(spot, state@),
        spot matches Some((x, y)) ==> forall|a: int, b: int|
            scanned_before(a, b, x as int, y as int) ==> !#[trigger] grid_free(a, b, state@),
{
    let mut a: u32 = 0;
    while a <= SPOT_MAX_X
        invariant
            a <= SPOT_MAX_X + 1,
            forall|c: int, d: int| 0 <= c < a && 0 <= d <= SPOT_MAX_Y
                ==> !#[trigger] grid_free(c, d, state@),
        decreases SPOT_MAX_X + 1 - a,
    {
        let mut b: u32 = 0;
        while b <= SPOT_MAX_Y
            invariant
                a <= SPOT_MAX_X,
                b <= SPOT_MAX_Y + 1,
                forall|c: int, d: int| 0 <= c < a && 0 <= d <= SPOT_MAX_Y
                    ==> !#[trigger] grid_free(c, d, state@),
                forall|d: int| 0 <= d < b ==> !#[trigger] grid_free(a as int, d, state@),
            decreases SPOT_MAX_Y + 1 - b,
        {
            let x = whole_units(a);
            let y = whole_units(b);
            if is_spot_free(x, y, state) {
                return Some((x, y));
            }
            assert(!grid_free(a as int, b as int, state@));
            b += 1;
        }
        a += 1;
    }
    None
}

/// Looks for a free spot: a few random candidates first, then every
/// candidate in order, so that a free spot is found whenever one exists.
pub fn find_free_spot(state: &GameState) -> (spot: Option<(i32, i32)>)
    ensures
        free_spot_found(spot, state@),
{
    let mut tries: u32 = 0;
    while tries < SPOT_TRIES
        invariant
            tries <= SPOT_TRIES,
        decreases SPOT_TRIES - tries,
    {
        let x = whole_units(random_up_to(SPOT_MAX_X));
        let y = whole_units(random_up_to(SPOT_MAX_Y));
        if is_spot_free(x, y, state) {
            return Some((x, y));
        }
        tries += 1;
    }
    scan_free_spot(state)
}

/// A world with fewer players and boxes than this always has a free spot:
/// candidates twenty units apart cannot share an occupant, and the arena
/// holds this many of them.
pub const SPOT_CAPACITY: usize = 1131;

/// Whether `w` holds fewer players and boxes than `SPOT_CAPACITY`.
pub open spec fn roomy(w: World) -> bool {
    w.players.len() + w.boxes.len() < SPOT_CAPACITY
}

/// The one candidate on the twenty-unit grid that a position can crowd:
/// the grid has 39 columns of 29 rows, and its cells are counted column by
/// column.
pub open spec fn coarse_cell(x: int, y: int) -> int {
    ((x + 10_000) / 20_000) * 29 + (y + 10_000) / 20_000
}

/// The coarse cell of each player and box of `w`.
pub open spec fn occupied_cells(w: World) -> Seq<int> {
    Seq::new(
        w.players.len() + w.boxes.len(),
        |k: int|
            if k < w.players.len() {
                coarse_cell(w.players[k].x as int, w.players[k].y as int)
            } else {
                coarse_cell(
                    w.boxes[k - w.players.len()].x as int,
                    w.boxes[k - w.players.len()].y as int,
                )
            },
    )
}

/// A position crowds the grid candidate in column `c` and row `r` only from
/// that candidate's own coarse cell.
pub proof fn lemma_crowding_cell(x: int, y: int, c: int, r: int)
    requires
        0 <= r < 29,
        crowds((x, y), (20_000 * c, 20_000 * r)),
    ensures
        coarse_cell(x, y) == c * 29 + r,
{
    assert((x + 10_000) / 20_000 == c);
    assert((y + 10_000) / 20_000 == r);
}

/// A roomy world has a free spot.
pub proof fn lemma_roomy_has_free_spot(w: World)
    requires
        roomy(w),
    ensures
        !no_free_spot(w),
{
    broadcast use vstd::seq_lib::seq_to_set_is_finite;

    let cells = occupied_cells(w);
    let taken = cells.to_set();
    let all = vstd::set_lib::set_int_range(0, 1131);
    cells.lemma_cardinality_of_set();
    vstd::set_lib::lemma_int_range(0, 1131);
    if all.subset_of(taken) {
        vstd::set_lib::lemma_len_subset(all, taken);
        assert(false);
    }
    let v = choose|v: int| all.contains(v) && !taken.contains(v);
    let c = v / 29;
    let r = v % 29;
    assert(0 <= c < 39 && 0 <= r < 29 && v == c * 29 + r);
    assert forall|i: int| 0 <= i < w.players.len()
        implies !crowds((#[trigger] w.players[i]).place(), (20 * c * UNIT, 20 * r * UNIT)) by {
        if crowds(w.players[i].place(), (20 * c * UNIT, 20 * r * UNIT)) {
            lemma_crowding_cell(w.players[i].x as int, w.players[i].y as int, c, r);
            assert(cells[i] == v);
            assert(cells.contains(v));
        }
    }
    assert forall|j: int| 0 <= j < w.boxes.len()
        implies !crowds((#[trigger] w.boxes[j]).place(), (20 * c * UNIT, 20 * r * UNIT)) by {
        if crowds(w.boxes[j].place(), (20 * c * UNIT, 20 * r * UNIT)) {
            lemma_crowding_cell(w.boxes[j].x as int, w.boxes[j].y as int, c, r);
            assert(cells[w.players.len() + j] == v);
            assert(cells.contains(v));
        }
    }
    assert(grid_free(20 * c, 20 * r, w));
}

} // verus!
