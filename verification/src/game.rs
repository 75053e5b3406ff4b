//! Game play on the board: mine placement, opening with flood-fill
//! expansion, flagging, and win and loss evaluation.

use vstd::prelude::*;

verus! {

use crate::board::{
    adjacent_mine_count, all_mines_flagged, all_safe_open, count_flagged, count_flagged_mines,
    count_mined, count_open, count_safe, fresh_cell, grid_index, lemma_adjacent_counts_update,
    lemma_grid_index_bounds, lemma_grid_index_injective, lemma_pos_of_index, pos_of_index,
    win_condition, Board,
};
use crate::cell::{Cell, CellState, GameState};
use crate::counting::{lemma_count_cells_le_len, lemma_count_cells_update};
use crate::pos::{is_adjacent, Pos};
use crate::rng::random_below;
use vstd::pervasive::VecAdditionalExecFns;

/// Number of mines aimed for: a tenth of the grid, rounded down.
pub open spec fn mine_target(b: Board) -> int {
    b.total_cells() / 10
}

/// The positions the mine sampler draws from: both coordinates at least one
/// and strictly below the board's column and row counts.
pub open spec fn in_sample_range(b: Board, p: Pos) -> bool {
    1 <= p.x < b.columns && 1 <= p.y < b.rows
}

/// Number of positions the sampler may mine, the excluded one left out.
pub open spec fn sample_space(b: Board, exclude: Pos) -> int {
    (b.columns as int - 1) * (b.rows as int - 1) - (if in_sample_range(b, exclude) {
        1int
    } else {
        0int
    })
}

/// What mine placement guarantees, whatever the random draws were: the grid
/// and its flags are kept, no cell is opened or exposed, the board comes into
/// play, the excluded position is never mined, mines lie only in the sample
/// range, and their number is the mine target, or the whole sample space when
/// that is smaller.
pub open spec fn placement_ok(pre: Board, post: Board, exclude: Pos) -> bool {
    &&& post.columns == pre.columns
    &&& post.rows == pre.rows
    &&& post.state is Active
    &&& post.opened == pre.opened
    &&& post.flagged == pre.flagged
    &&& post.cells@.len() == pre.cells@.len()
    &&& forall|q: Pos|
        pre.spec_in_grid(q) ==> (#[trigger] post.spec_cell(q)).is_flagged() == pre.spec_cell(
            q,
        ).is_flagged()
    &&& forall|q: Pos|
        pre.spec_in_grid(q) ==> !(#[trigger] post.spec_cell(q)).is_open() && !(post.spec_cell(
            q,
        ).state is ExposedMine)
    &&& forall|q: Pos|
        pre.spec_in_grid(q) && (#[trigger] post.spec_cell(q)).is_mined() ==> in_sample_range(
            pre,
            q,
        ) && q != exclude
    &&& pre.spec_in_grid(exclude) ==> !post.spec_cell(exclude).is_mined()
    &&& post.mined == (if mine_target(pre) <= sample_space(pre, exclude) {
        mine_target(pre)
    } else {
        sample_space(pre, exclude)
    })
}

/// The cell with its flag toggled; cells that are not closed are untouched.
pub open spec fn toggled_cell(c: Cell) -> Cell {
    match c.state {
        CellState::Closed { flagged, mined } => Cell {
            state: CellState::Closed { flagged: !flagged, mined },
            adjacent_mines: c.adjacent_mines,
        },
        _ => c,
    }
}

/// How toggling this cell's flag changes the number of flagged cells.
pub open spec fn flag_delta(c: Cell) -> int {
    match c.state {
        CellState::Closed { flagged, .. } => if flagged {
            -1int
        } else {
            1int
        },
        _ => 0int,
    }
}

/// Exposing the mines turns every hidden mine into an exposed one, keeps its
/// adjacency count, and changes nothing else.
pub open spec fn exposure_of(pre: Seq<Cell>, post: Seq<Cell>) -> bool {
    &&& post.len() == pre.len()
    &&& forall|i: int|
        0 <= i < pre.len() ==> #[trigger] post[i] == (if pre[i].is_closed_and_mined() {
            Cell { state: CellState::ExposedMine, adjacent_mines: pre[i].adjacent_mines }
        } else {
            pre[i]
        })
}

/// The listed cells include position `q`.
pub open spec fn result_contains_pos(r: Seq<(Pos, Cell)>, q: Pos) -> bool {
    exists|k: int| 0 <= k < r.len() && (#[trigger] r[k]).0 == q
}

/// What the cells yielded by one opening move satisfy: every listed position
/// lies on the grid, at most once; its cell was closed, unflagged and unmined
/// before the move and is open with an unchanged adjacency count after it;
/// the listed cell is the cell now on the board; and every position not
/// listed kept its cell.
pub open spec fn opened_cells_ok(pre: Board, post: Board, r: Seq<(Pos, Cell)>) -> bool {
    &&& forall|k: int| 0 <= k < r.len() ==> pre.spec_in_grid((#[trigger] r[k]).0)
    &&& forall|k: int| 0 <= k < r.len() ==> pre.spec_cell((#[trigger] r[k]).0).is_openable()
    &&& forall|k: int| 0 <= k < r.len() ==> (#[trigger] r[k]).1 == post.spec_cell(r[k].0)
    &&& forall|k: int|
        0 <= k < r.len() ==> (#[trigger] r[k]).1.state is Open && r[k].1.adjacent_mines
            == pre.spec_cell(r[k].0).adjacent_mines
    &&& forall|k1: int, k2: int|
        0 <= k1 < k2 < r.len() ==> (#[trigger] r[k1]).0 != (#[trigger] r[k2]).0
    &&& forall|q: Pos|
        pre.spec_in_grid(q) && !result_contains_pos(r, q) ==> #[trigger] post.spec_cell(q)
            == pre.spec_cell(q)
}

/// Flood-fill saturation: no cell this move opened with a zero adjacency
/// count still has a closed, unflagged, unmined neighbour.
pub open spec fn flood_saturated(post: Board, r: Seq<(Pos, Cell)>) -> bool {
    forall|k: int, q: Pos|
        #![trigger r[k], post.spec_cell(q)]
        0 <= k < r.len() && r[k].1.adjacent_mines == 0 && post.spec_in_grid(q) && is_adjacent(
            q,
            r[k].0,
        ) ==> !post.spec_cell(q).is_openable()
}

/// The position is still queued for the flood fill, or already processed.
spec fn queued_or_visited(work: Seq<Pos>, visited: Seq<bool>, columns: u8, q: Pos) -> bool {
    work.contains(q) || visited[grid_index(columns, q.x as int, q.y as int)]
}

/// One flood-fill step pops the last queued position, marks it visited and
/// may queue more: whatever was queued or visited stays so.
proof fn lemma_queue_step(
    work_pre: Seq<Pos>,
    work_post: Seq<Pos>,
    visited_pre: Seq<bool>,
    visited_post: Seq<bool>,
    columns: u8,
    rows: u8,
    p: Pos,
    q: Pos,
)
    requires
        queued_or_visited(work_pre, visited_pre, columns, q),
        p.in_grid(columns, rows),
        q.in_grid(columns, rows),
        visited_pre.len() == rows as int * columns as int,
        visited_post.len() == visited_pre.len(),
        work_pre.len() > 0,
        p == work_pre.last(),
        forall|m: int| 0 <= m < work_pre.len() - 1 ==> #[trigger] work_post[m] == work_pre[m],
        work_post.len() >= work_pre.len() - 1,
        forall|j: int| 0 <= j < visited_pre.len() && visited_pre[j] ==> #[trigger] visited_post[j],
        visited_post[grid_index(columns, p.x as int, p.y as int)],
    ensures
        queued_or_visited(work_post, visited_post, columns, q),
{
    lemma_grid_index_bounds(columns, rows, q.x as int, q.y as int);
    if visited_pre[grid_index(columns, q.x as int, q.y as int)] {
    } else {
        let k = choose|k: int| 0 <= k < work_pre.len() && work_pre[k] == q;
        if k == work_pre.len() - 1 {
            assert(q == p);
        } else {
            assert(work_post[k] == q);
            assert(work_post.contains(q));
        }
    }
}

/// After the flood fill opens one more cell, every loop invariant holds
/// again: the record of opened cells is consistent, visited cells stay
/// unopenable, and each zero-adjacency cell's neighbours stay queued or
/// visited.
proof fn lemma_open_step_invariants(
    pre: Board,
    prev: Board,
    cur: Board,
    work0: Seq<Pos>,
    work1: Seq<Pos>,
    visited0: Seq<bool>,
    visited1: Seq<bool>,
    r0: Seq<(Pos, Cell)>,
    r1: Seq<(Pos, Cell)>,
    p: Pos,
    oc: Cell,
)
    requires
        pre.wf(),
        prev.columns == pre.columns,
        prev.rows == pre.rows,
        cur.columns == pre.columns,
        cur.rows == pre.rows,
        prev.cells@.len() == pre.cells@.len(),
        cur.cells@.len() == pre.cells@.len(),
        pre.spec_in_grid(p),
        opened_cells_ok(pre, prev, r0),
        forall|j: int|
            0 <= j < visited0.len() && visited0[j] ==> !(#[trigger] prev.cells@[j]).is_openable(),
        forall|k: int|
            0 <= k < r0.len() ==> visited0[grid_index(
                pre.columns,
                (#[trigger] r0[k]).0.x as int,
                r0[k].0.y as int,
            )],
        visited0.len() == pre.cells@.len(),
        visited1 == visited0.update(pre.spec_idx(p), true),
        !visited0[pre.spec_idx(p)],
        prev.spec_cell(p).is_openable(),
        prev.spec_cell(p) == pre.spec_cell(p),
        oc == (Cell { state: CellState::Open, adjacent_mines: pre.spec_cell(p).adjacent_mines }),
        cur.cells@ == prev.cells@.update(pre.spec_idx(p), oc),
        r1 == r0.push((p, oc)),
        work0.len() > 0,
        p == work0.last(),
        work1.len() >= work0.len() - 1,
        forall|m: int| 0 <= m < work0.len() - 1 ==> #[trigger] work1[m] == work0[m],
    ensures
        opened_cells_ok(pre, cur, r1),
        forall|j: int|
            0 <= j < visited1.len() && visited1[j] ==> !(#[trigger] cur.cells@[j]).is_openable(),
        forall|k: int|
            0 <= k < r1.len() ==> visited1[grid_index(
                pre.columns,
                (#[trigger] r1[k]).0.x as int,
                r1[k].0.y as int,
            )],
{
    let pi = pre.spec_idx(p);
    lemma_grid_index_bounds(pre.columns, pre.rows, p.x as int, p.y as int);
    assert forall|k: int| 0 <= k < r0.len() implies (#[trigger] r0[k]).0 != p by {
        if r0[k].0 == p {
            assert(visited0[pi]);
        }
    }
    assert forall|k: int|
        0 <= k < r1.len() implies visited1[grid_index(
        pre.columns,
        (#[trigger] r1[k]).0.x as int,
        r1[k].0.y as int,
    )] by {
        if k < r0.len() {
            assert(r1[k] == r0[k]);
            lemma_grid_index_bounds(pre.columns, pre.rows, r0[k].0.x as int, r0[k].0.y as int);
        } else {
            assert(r1[k] == (p, oc));
        }
    }
    assert forall|j: int|
        0 <= j < visited1.len() && visited1[j] implies !(#[trigger] cur.cells@[j]).is_openable() by {
        if j == pi {
            assert(cur.cells@[j] == oc);
        } else {
            assert(visited0[j]);
            assert(cur.cells@[j] == prev.cells@[j]);
        }
    }
    assert forall|k: int|
        0 <= k < r1.len() implies pre.spec_in_grid((#[trigger] r1[k]).0) && pre.spec_cell(
        r1[k].0,
    ).is_openable() && r1[k].1.state is Open && r1[k].1.adjacent_mines == pre.spec_cell(
        r1[k].0,
    ).adjacent_mines by {
        if k < r0.len() {
            assert(r1[k] == r0[k]);
        } else {
            assert(r1[k] == (p, oc));
        }
    }
    assert forall|k: int| 0 <= k < r1.len() implies (#[trigger] r1[k]).1 == cur.spec_cell(
        r1[k].0,
    ) by {
        if k < r0.len() {
            assert(r1[k] == r0[k]);
            assert(r0[k].1 == prev.spec_cell(r0[k].0));
            lemma_grid_index_bounds(pre.columns, pre.rows, r0[k].0.x as int, r0[k].0.y as int);
            if pre.spec_idx(r0[k].0) == pi {
                lemma_grid_index_injective(pre.columns, pre.rows, r0[k].0, p);
            }
            assert(cur.cells@[pre.spec_idx(r0[k].0)] == prev.cells@[pre.spec_idx(r0[k].0)]);
        } else {
            assert(r1[k] == (p, oc));
            assert(cur.cells@[pi] == oc);
        }
    }
    assert forall|k1: int, k2: int|
        0 <= k1 < k2 < r1.len() implies (#[trigger] r1[k1]).0 != (#[trigger] r1[k2]).0 by {
        if k2 < r0.len() {
            assert(r1[k1] == r0[k1] && r1[k2] == r0[k2]);
        } else {
            assert(r1[k1] == r0[k1] && r1[k2] == (p, oc));
        }
    }
    assert forall|q: Pos|
        pre.spec_in_grid(q) && !result_contains_pos(r1, q) implies #[trigger] cur.spec_cell(q)
        == pre.spec_cell(q) by {
        assert(!result_contains_pos(r0, q)) by {
            if result_contains_pos(r0, q) {
                let k = choose|k: int| 0 <= k < r0.len() && (#[trigger] r0[k]).0 == q;
                assert(r1[k].0 == q);
                assert(result_contains_pos(r1, q));
            }
        }
        assert(q != p) by {
            if q == p {
                assert(r1[r0.len() as int].0 == p);
                assert(result_contains_pos(r1, q));
            }
        }
        lemma_grid_index_bounds(pre.columns, pre.rows, q.x as int, q.y as int);
        if pre.spec_idx(q) == pi {
            lemma_grid_index_injective(pre.columns, pre.rows, q, p);
        }
        assert(cur.cells@[pre.spec_idx(q)] == prev.cells@[pre.spec_idx(q)]);
        assert(prev.spec_cell(q) == pre.spec_cell(q));
    }
}

/// What one opening move on a board in play does, by the state of the
/// targeted cell: a closed safe cell opens, with flood-fill expansion when
/// its adjacency count is zero and a win check afterwards; a hidden unflagged
/// mine exposes every mine and loses the game; anything else changes nothing.
pub open spec fn open_step(pre: Board, pos: Pos, post: Board, r: Seq<(Pos, Cell)>) -> bool {
    &&& post.columns == pre.columns
    &&& post.rows == pre.rows
    &&& post.cells@.len() == pre.cells@.len()
    &&& post.mined == pre.mined
    &&& if !pre.spec_in_grid(pos) {
        &&& post == pre
        &&& r.len() == 0
    } else if pre.spec_cell(pos).is_openable() {
        &&& r.len() >= 1
        &&& r[0] == (pos, post.spec_cell(pos))
        &&& opened_cells_ok(pre, post, r)
        &&& post.opened == pre.opened + r.len()
        &&& post.flagged == pre.flagged
        &&& pre.spec_cell(pos).adjacent_mines > 0 ==> r.len() == 1
        &&& flood_saturated(post, r)
        &&& post.state == (if win_condition(post.cells@) {
            GameState::Win
        } else {
            pre.state
        })
    } else if pre.spec_cell(pos).state == (CellState::Closed { flagged: false, mined: true }) {
        &&& exposure_of(pre.cells@, post.cells@)
        &&& post.state is Loss
        &&& post.opened == pre.opened
        &&& r.len() == 0
    } else {
        &&& post == pre
        &&& r.len() == 0
    }
}

/// What one flagging move does, by the state of the board and the targeted
/// cell: off the grid nothing and no cell comes back; on a finished board
/// nothing changes and the cell comes back as it stands; a closed cell has
/// its flag toggled, the flag counter follows, and the win condition is
/// checked; an open or exposed cell comes back unchanged.
pub open spec fn flag_step(pre: Board, pos: Pos, post: Board, r: Option<(Pos, Cell)>) -> bool {
    &&& post.columns == pre.columns
    &&& post.rows == pre.rows
    &&& post.cells@.len() == pre.cells@.len()
    &&& post.opened == pre.opened
    &&& post.mined == pre.mined
    &&& if !pre.spec_in_grid(pos) {
        &&& post == pre
        &&& r is None
    } else if pre.state is Loss || pre.state is Win {
        &&& post == pre
        &&& r == Some((pos, pre.spec_cell(pos)))
    } else if pre.spec_cell(pos).state matches CellState::Closed { .. } {
        &&& post.cells@ == pre.cells@.update(
            pre.spec_idx(pos),
            toggled_cell(pre.spec_cell(pos)),
        )
        &&& post.flagged == pre.flagged + flag_delta(pre.spec_cell(pos))
        &&& r == Some((pos, toggled_cell(pre.spec_cell(pos))))
        &&& post.state == (if win_condition(post.cells@) {
            GameState::Win
        } else {
            pre.state
        })
    } else {
        &&& post == pre
        &&& r == Some((pos, pre.spec_cell(pos)))
    }
}

impl Board {
    /// Count the correctly flagged mines on the board.
    fn flagged_mine_count(&self) -> (n: usize)
        requires
            self.wf(),
        ensures
            n == count_flagged_mines(self.cells@),
    {
        let mut n: usize = 0;
        let mut i: usize = 0;
        let total = self.cells.len();
        while i < total
            invariant
                self.wf(),
                total == self.cells@.len(),
                i <= total,
                n == count_flagged_mines(self.cells@.take(i as int)),
                n <= i,
            decreases total - i,
        {
            let c = self.cells[i];
            proof {
                assert(self.cells@.take(i as int + 1).drop_last() =~= self.cells@.take(i as int));
                assert(self.cells@.take(i as int + 1).last() == self.cells@[i as int]);
            }
            let flagged_mine = match c.state {
                CellState::Closed { flagged: true, mined: true } => true,
                _ => false,
            };
            if flagged_mine {
                n += 1;
            }
            i += 1;
        }
        proof {
            assert(self.cells@.take(total as int) =~= self.cells@);
        }
        n
    }

    /// Evaluate the board against both win conditions: every safe cell
    /// opened, or at least one mine and every mine flagged.
    fn is_win(&self) -> (b: bool)
        requires
            self.wf(),
        ensures
            b == win_condition(self.cells@),
    {
        broadcast use lemma_count_cells_le_len;
        broadcast use crate::counting::lemma_count_cells_subset;
        broadcast use crate::counting::lemma_count_cells_complement;

        proof {
            assert(count_open(self.cells@) <= count_safe(self.cells@));
            assert(count_mined(self.cells@) + count_safe(self.cells@) == self.cells@.len());
            assert(count_flagged_mines(self.cells@) <= count_mined(self.cells@));
        }
        let safe_total = self.cells.len() - self.mined;
        if self.opened == safe_total {
            proof {
                assert(all_safe_open(self.cells@));
            }
            true
        } else if self.mined > 0 && self.flagged_mine_count() == self.mined {
            proof {
                assert(all_mines_flagged(self.cells@));
            }
            true
        } else {
            proof {
                assert(!all_safe_open(self.cells@));
                assert(!all_mines_flagged(self.cells@));
            }
            false
        }
    }

    /// Expose every hidden mine on the board, releasing any flag it carried.
    fn expose_mines(&mut self)
        requires
            old(self).wf(),
            old(self).state is Active,
        ensures
            final(self).wf(),
            final(self).columns == old(self).columns,
            final(self).rows == old(self).rows,
            final(self).state == old(self).state,
            final(self).opened == old(self).opened,
            final(self).mined == old(self).mined,
            final(self).cells@.len() == old(self).cells@.len(),
            exposure_of(old(self).cells@, final(self).cells@),
            crate::board::mines_exposed(final(self).cells@),
    {
        broadcast use lemma_count_cells_update, lemma_count_cells_le_len;

        let ghost pre = *old(self);
        let total = self.cells.len();
        let mut i: usize = 0;
        while i < total
            invariant
                self.wf(),
                self.columns == pre.columns,
                self.rows == pre.rows,
                self.state == pre.state,
                self.opened == pre.opened,
                self.mined == pre.mined,
                total == self.cells@.len(),
                self.cells@.len() == pre.cells@.len(),
                i <= total,
                forall|j: int|
                    0 <= j < i ==> #[trigger] self.cells@[j] == (
                    if pre.cells@[j].is_closed_and_mined() {
                        Cell {
                            state: CellState::ExposedMine,
                            adjacent_mines: pre.cells@[j].adjacent_mines,
                        }
                    } else {
                        pre.cells@[j]
                    }),
                forall|j: int| i <= j < total ==> #[trigger] self.cells@[j] == pre.cells@[j],
            decreases total - i,
        {
            let c = self.cells[i];
            let exposed = match c.state {
                CellState::Closed { mined: true, flagged } => Some(flagged),
                _ => None,
            };
            match exposed {
                Some(flagged) => {
                    let ghost s0 = self.cells@;
                    let newc = Cell { state: CellState::ExposedMine, adjacent_mines: c.adjacent_mines };
                    self.cells.set(i, newc);
                    proof {
                        broadcast use lemma_count_cells_update, lemma_count_cells_le_len;

                        assert(count_flagged(self.cells@) == count_flagged(s0) - (if flagged {
                            1int
                        } else {
                            0int
                        }));
                    }
                    if flagged {
                        self.flagged = self.flagged - 1;
                    }
                    proof {
                        lemma_pos_of_index(self.columns, self.rows, i as int);
                        let p = pos_of_index(self.columns, i as int);
                        lemma_adjacent_counts_update(s0, self.columns, self.rows, p, newc);
                        assert forall|q: Pos|
                            q.in_grid(self.columns, self.rows) implies self.cells@[grid_index(
                            self.columns,
                            q.x as int,
                            q.y as int,
                        )].adjacent_mines == #[trigger] adjacent_mine_count(
                            self.cells@,
                            self.columns,
                            self.rows,
                            q,
                        ) by {
                            lemma_grid_index_bounds(self.columns, self.rows, q.x as int, q.y as int);
                            assert(s0[grid_index(
                                self.columns,
                                q.x as int,
                                q.y as int,
                            )].adjacent_mines == adjacent_mine_count(s0, self.columns, self.rows, q));
                        }
                    }
                },
                None => {},
            }
            i += 1;
        }
    }

    /// Toggle the flag on a closed cell; open and exposed cells, positions
    /// off the grid, and finished boards are left alone. Returns the cell as
    /// it stands after the call.
    pub fn flag_cell(&mut self, pos: Pos) -> (r: Option<(Pos, Cell)>)
        requires
            old(self).wf(),
        ensures
            final(self).wf(),
            flag_step(*old(self), pos, *final(self), r),
    {
        broadcast use lemma_count_cells_update, lemma_count_cells_le_len;

        if !(1 <= pos.x && pos.x <= self.columns && 1 <= pos.y && pos.y <= self.rows) {
            return None;
        }
        let i = self.index_of(pos);
        let c = self.cells[i];
        let terminal = match self.state {
            GameState::Loss | GameState::Win => true,
            _ => false,
        };
        if terminal {
            return Some((pos, c));
        }
        match c.state {
            CellState::Closed { flagged, mined } => {
                let ghost s0 = self.cells@;
                let t = Cell {
                    state: CellState::Closed { flagged: !flagged, mined },
                    adjacent_mines: c.adjacent_mines,
                };
                self.cells.set(i, t);
                proof {
                    assert(count_flagged(self.cells@) == count_flagged(s0) + (if flagged {
                        -1int
                    } else {
                        1int
                    }));
                }
                if flagged {
                    self.flagged = self.flagged - 1;
                } else {
                    proof {
                        let r = self.rows;
                        let cl = self.columns;
                        assert((r as int) * (cl as int) <= 0x10000) by (nonlinear_arith)
                            requires
                                r <= 255,
                                cl <= 255,
                        ;
                    }
                    self.flagged = self.flagged + 1;
                }
                proof {
                    lemma_adjacent_counts_update(s0, self.columns, self.rows, pos, t);
                    assert forall|q: Pos|
                        q.in_grid(self.columns, self.rows) implies self.cells@[grid_index(
                        self.columns,
                        q.x as int,
                        q.y as int,
                    )].adjacent_mines == #[trigger] adjacent_mine_count(
                        self.cells@,
                        self.columns,
                        self.rows,
                        q,
                    ) by {
                        lemma_grid_index_bounds(self.columns, self.rows, q.x as int, q.y as int);
                        assert(s0[grid_index(self.columns, q.x as int, q.y as int)].adjacent_mines
                            == adjacent_mine_count(s0, self.columns, self.rows, q));
                    }
                }
                if self.is_win() {
                    self.state = GameState::Win;
                }
                Some((pos, t))
            },
            _ => Some((pos, c)),
        }
    }

    /// Raise the adjacency count of the cell at `(x, y)` by one; squares off
    /// the grid are left alone.
    fn bump_neighbour(&mut self, x: u16, y: u16)
        requires
            old(self).columns >= 1,
            old(self).rows >= 1,
            old(self).cells@.len() == old(self).total_cells(),
            forall|q: Pos|
                q.in_grid(old(self).columns, old(self).rows) && q.x == x && q.y == y ==> (
                #[trigger] old(self).spec_cell(q)).adjacent_mines < 255,
        ensures
            final(self).columns == old(self).columns,
            final(self).rows == old(self).rows,
            final(self).state == old(self).state,
            final(self).opened == old(self).opened,
            final(self).flagged == old(self).flagged,
            final(self).mined == old(self).mined,
            final(self).cells@.len() == old(self).cells@.len(),
            forall|q: Pos|
                old(self).spec_in_grid(q) ==> (#[trigger] final(self).spec_cell(q)).state == old(
                    self,
                ).spec_cell(q).state,
            forall|q: Pos|
                old(self).spec_in_grid(q) ==> (#[trigger] final(self).spec_cell(
                    q,
                )).adjacent_mines == old(self).spec_cell(q).adjacent_mines + (if q.x == x && q.y
                    == y {
                    1int
                } else {
                    0int
                }),
            count_open(final(self).cells@) == count_open(old(self).cells@),
            count_flagged(final(self).cells@) == count_flagged(old(self).cells@),
            count_mined(final(self).cells@) == count_mined(old(self).cells@),
            count_flagged_mines(final(self).cells@) == count_flagged_mines(old(self).cells@),
            forall|q: Pos|
                q.in_grid(final(self).columns, final(self).rows) ==> #[trigger] adjacent_mine_count(
                    final(self).cells@,
                    final(self).columns,
                    final(self).rows,
                    q,
                ) == adjacent_mine_count(old(self).cells@, final(self).columns, final(self).rows, q),
    {
        broadcast use lemma_count_cells_update;

        if 1 <= x && x <= self.columns as u16 && 1 <= y && y <= self.rows as u16 {
            let p = Pos { x: x as u8, y: y as u8 };
            let ghost s0 = self.cells@;
            let i = self.index_of(p);
            proof {
                assert(old(self).spec_cell(p).adjacent_mines < 255);
            }
            let c = self.cells[i];
            let bumped = Cell { state: c.state, adjacent_mines: c.adjacent_mines + 1 };
            self.cells.set(i, bumped);
            proof {
                lemma_adjacent_counts_update(s0, self.columns, self.rows, p, bumped);
                assert forall|q: Pos| old(self).spec_in_grid(q) implies (#[trigger] self.spec_cell(
                    q,
                )).adjacent_mines == old(self).spec_cell(q).adjacent_mines + (if q.x == x && q.y
                    == y {
                    1int
                } else {
                    0int
                }) by {
                    lemma_grid_index_bounds(self.columns, self.rows, q.x as int, q.y as int);
                    if self.spec_idx(q) == i as int && q != p {
                        lemma_grid_index_injective(self.columns, self.rows, q, p);
                    }
                }
                assert forall|q: Pos| old(self).spec_in_grid(q) implies (#[trigger] self.spec_cell(
                    q,
                )).state == old(self).spec_cell(q).state by {
                    lemma_grid_index_bounds(self.columns, self.rows, q.x as int, q.y as int);
                    if self.spec_idx(q) == i as int && q != p {
                        lemma_grid_index_injective(self.columns, self.rows, q, p);
                    }
                }
            }
        }
    }

    /// Hide a mine in the closed, unmined cell at `p` and raise the adjacency
    /// count of each of its on-grid neighbours by one.
    fn place_mine(&mut self, p: Pos)
        requires
            old(self).wf(),
            old(self).state is Active,
            old(self).spec_in_grid(p),
            old(self).spec_cell(p).state matches CellState::Closed { mined: false, .. },
        ensures
            final(self).wf(),
            final(self).columns == old(self).columns,
            final(self).rows == old(self).rows,
            final(self).state == old(self).state,
            final(self).opened == old(self).opened,
            final(self).flagged == old(self).flagged,
            final(self).mined == old(self).mined + 1,
            final(self).cells@.len() == old(self).cells@.len(),
            forall|q: Pos|
                old(self).spec_in_grid(q) && q != p ==> (#[trigger] final(self).spec_cell(
                    q,
                )).state == old(self).spec_cell(q).state,
            final(self).spec_cell(p).state == (CellState::Closed {
                flagged: old(self).spec_cell(p).is_flagged(),
                mined: true,
            }),
            forall|q: Pos|
                old(self).spec_in_grid(q) ==> ((#[trigger] final(self).spec_cell(q)).is_mined()
                    <==> (old(self).spec_cell(q).is_mined() || q == p)),
    {
        broadcast use lemma_count_cells_update, lemma_count_cells_le_len;

        proof {
            let r = old(self).rows;
            let c = old(self).columns;
            assert(r as int * c as int <= 0x10000) by (nonlinear_arith)
                requires
                    r <= 255,
                    c <= 255,
            ;
        }
        let ghost s0 = self.cells@;
        let i = self.index_of(p);
        let c = self.cells[i];
        let flagged = match c.state {
            CellState::Closed { flagged, .. } => flagged,
            _ => false,
        };
        let mined_cell = Cell {
            state: CellState::Closed { flagged, mined: true },
            adjacent_mines: c.adjacent_mines,
        };
        self.cells.set(i, mined_cell);
        self.mined = self.mined + 1;
        proof {
            lemma_adjacent_counts_update(s0, self.columns, self.rows, p, mined_cell);
            assert forall|q: Pos| old(self).spec_in_grid(q) && q != p implies (
            #[trigger] self.spec_cell(q)) == old(self).spec_cell(q) by {
                lemma_grid_index_bounds(self.columns, self.rows, q.x as int, q.y as int);
                if self.spec_idx(q) == i as int {
                    lemma_grid_index_injective(self.columns, self.rows, q, p);
                }
            }
        }
        let ghost s1 = self.cells@;
        // Every adjacency count was exact before the mine went in, so each
        // stays well within its eight-neighbour bound when raised by one.
        proof {
            assert forall|q: Pos| self.spec_in_grid(q) implies (#[trigger] self.spec_cell(
                q,
            )).adjacent_mines <= 8 by {
                lemma_grid_index_bounds(self.columns, self.rows, q.x as int, q.y as int);
                assert(old(self).spec_cell(q).adjacent_mines == adjacent_mine_count(
                    s0,
                    self.columns,
                    self.rows,
                    q,
                ));
                assert(adjacent_mine_count(s0, self.columns, self.rows, q) <= 8);
                assert(self.spec_cell(q).adjacent_mines == old(self).spec_cell(q).adjacent_mines);
            }
        }
        let px = p.x as u16;
        let py = p.y as u16;
        self.bump_neighbour(px - 1, py - 1);
        self.bump_neighbour(px, py - 1);
        self.bump_neighbour(px + 1, py - 1);
        self.bump_neighbour(px - 1, py);
        self.bump_neighbour(px + 1, py);
        self.bump_neighbour(px - 1, py + 1);
        self.bump_neighbour(px, py + 1);
        self.bump_neighbour(px + 1, py + 1);
        proof {
            assert forall|q: Pos|
                q.in_grid(self.columns, self.rows) implies self.cells@[grid_index(
                self.columns,
                q.x as int,
                q.y as int,
            )].adjacent_mines == #[trigger] adjacent_mine_count(
                self.cells@,
                self.columns,
                self.rows,
                q,
            ) by {
                lemma_grid_index_bounds(self.columns, self.rows, q.x as int, q.y as int);
                assert(old(self).spec_cell(q).adjacent_mines == adjacent_mine_count(
                    s0,
                    self.columns,
                    self.rows,
                    q,
                ));
                assert(adjacent_mine_count(s1, self.columns, self.rows, q) == adjacent_mine_count(
                    s0,
                    self.columns,
                    self.rows,
                    q,
                ) + (if is_adjacent(p, q) {
                    1int
                } else {
                    0int
                }));
                assert(self.spec_cell(q).adjacent_mines == old(self).spec_cell(q).adjacent_mines + (
                if is_adjacent(p, q) {
                    1int
                } else {
                    0int
                }));
            }
        }
    }

    /// Open every closed, unflagged, unmined cell reachable from the opened
    /// zero-adjacency cell `start` through chains of such zero-adjacency
    /// cells, together with the first ring of closed safe cells around the
    /// region, and yield the opened cells.
    fn expand(&mut self, start: Pos) -> (r: Vec<(Pos, Cell)>)
        requires
            old(self).wf(),
            old(self).state is Active,
            old(self).spec_in_grid(start),
            old(self).spec_cell(start).is_open(),
            old(self).spec_cell(start).adjacent_mines == 0,
        ensures
            final(self).wf(),
            final(self).columns == old(self).columns,
            final(self).rows == old(self).rows,
            final(self).state == old(self).state,
            final(self).flagged == old(self).flagged,
            final(self).mined == old(self).mined,
            final(self).cells@.len() == old(self).cells@.len(),
            final(self).opened == old(self).opened + r@.len(),
            opened_cells_ok(*old(self), *final(self), r@),
            flood_saturated(*final(self), r@),
            forall|q: Pos|
                final(self).spec_in_grid(q) && is_adjacent(q, start) ==> !(#[trigger] final(self).spec_cell(q)).is_openable(),
    {
        let ghost pre = *old(self);
        let mut r: Vec<(Pos, Cell)> = Vec::new();
        let total = self.cells.len();
        let mut visited: Vec<bool> = vec![false; total];
        let mut work: Vec<Pos> = start.adjacent(self.rows, self.columns);
        proof {
            assert forall|m: int|
                0 <= m < work@.len() implies (#[trigger] work@[m]).in_grid(
                pre.columns,
                pre.rows,
            ) by {
                work@.lemma_index_contains(m);
            }
        }
        while work.len() > 0
            invariant
                self.wf(),
                pre.state is Active,
                self.state is Active,
                self.columns == pre.columns,
                self.rows == pre.rows,
                self.state == pre.state,
                self.flagged == pre.flagged,
                self.mined == pre.mined,
                self.cells@.len() == pre.cells@.len(),
                total == self.cells@.len(),
                visited@.len() == total,
                self.opened == pre.opened + r@.len(),
                pre.wf(),
                pre.spec_in_grid(start),
                forall|m: int|
                    0 <= m < work@.len() ==> (#[trigger] work@[m]).in_grid(pre.columns, pre.rows),
                opened_cells_ok(pre, *self, r@),
                forall|j: int|
                    0 <= j < total && visited@[j] ==> !(#[trigger] self.cells@[j]).is_openable(),
                forall|k: int|
                    0 <= k < r@.len() ==> visited@[grid_index(
                        pre.columns,
                        (#[trigger] r@[k]).0.x as int,
                        r@[k].0.y as int,
                    )],
                forall|q: Pos|
                    pre.spec_in_grid(q) && is_adjacent(q, start) ==> #[trigger] queued_or_visited(
                        work@,
                        visited@,
                        pre.columns,
                        q,
                    ),
                forall|k: int, q: Pos|
                    #![trigger r@[k], queued_or_visited(work@, visited@, pre.columns, q)]
                    0 <= k < r@.len() && r@[k].1.adjacent_mines == 0 && pre.spec_in_grid(q)
                        && is_adjacent(q, r@[k].0) ==> queued_or_visited(
                        work@,
                        visited@,
                        pre.columns,
                        q,
                    ),
            decreases crate::counting::count_unvisited(visited@), work@.len(),
        {
            let ghost work0 = work@;
            let ghost visited0 = visited@;
            let ghost prev = *self;
            let p = work.pop().unwrap();
            let ghost work_after_pop = work@;
            let i = self.index_of(p);
            if !visited[i] {
                proof {
                    crate::counting::lemma_count_unvisited_update(visited@, i as int);
                }
                visited.set(i, true);
                proof {
                    assert forall|j: int|
                        0 <= j < total && visited0[j] implies #[trigger] visited@[j] by {}
                }
                let c = self.cells[i];
                let openable = match c.state {
                    CellState::Closed { flagged: false, mined: false } => true,
                    _ => false,
                };
                if openable {
                    // this cell was untouched so far, so it still shows its
                    // original, openable state
                    proof {
                        if result_contains_pos(r@, p) {
                            let k = choose|k: int|
                                0 <= k < r@.len() && (#[trigger] r@[k]).0 == p;
                            assert(visited0[grid_index(pre.columns, p.x as int, p.y as int)]);
                        }
                        assert(self.spec_cell(p) == pre.spec_cell(p));
                    }
                    let opened_cell = Cell { state: CellState::Open, adjacent_mines: c.adjacent_mines };
                    let ghost s0 = self.cells@;
                    let ghost r0 = r@;
                    self.cells.set(i, opened_cell);
                    proof {
                        broadcast use lemma_count_cells_update, lemma_count_cells_le_len;

                        let rw = self.rows;
                        let cl = self.columns;
                        assert((rw as int) * (cl as int) <= 0x10000) by (nonlinear_arith)
                            requires
                                rw <= 255,
                                cl <= 255,
                        ;
                        assert(count_open(self.cells@) == count_open(s0) + 1);
                        lemma_adjacent_counts_update(s0, self.columns, self.rows, p, opened_cell);
                        assert forall|q: Pos|
                            q.in_grid(self.columns, self.rows) implies self.cells@[grid_index(
                            self.columns,
                            q.x as int,
                            q.y as int,
                        )].adjacent_mines == #[trigger] adjacent_mine_count(
                            self.cells@,
                            self.columns,
                            self.rows,
                            q,
                        ) by {
                            lemma_grid_index_bounds(self.columns, self.rows, q.x as int, q.y as int);
                            assert(s0[grid_index(self.columns, q.x as int, q.y as int)].adjacent_mines
                                == adjacent_mine_count(s0, self.columns, self.rows, q));
                        }
                    }
                    self.opened = self.opened + 1;
                    r.push((p, opened_cell));
                    if c.adjacent_mines == 0 {
                        let mut more = p.adjacent(self.rows, self.columns);
                        let ghost more0 = more@;
                        proof {
                            assert forall|m: int|
                                0 <= m < more@.len() implies (#[trigger] more@[m]).in_grid(
                                pre.columns,
                                pre.rows,
                            ) by {
                                more@.lemma_index_contains(m);
                            }
                        }
                        work.append(&mut more);
                        proof {
                            assert forall|q: Pos|
                                pre.spec_in_grid(q) && is_adjacent(q, p) implies
                                #[trigger] work@.contains(q) by {
                                assert(more0.contains(q));
                                vstd::seq_lib::lemma_seq_concat_contains_all_elements(
                                    work_after_pop,
                                    more0,
                                    q,
                                );
                            }
                        }
                    }
                    proof {
                        lemma_open_step_invariants(
                            pre,
                            prev,
                            *self,
                            work0,
                            work@,
                            visited0,
                            visited@,
                            r0,
                            r@,
                            p,
                            opened_cell,
                        );
                        assert forall|q: Pos|
                            pre.spec_in_grid(q) && is_adjacent(q, start) implies
                            #[trigger] queued_or_visited(work@, visited@, pre.columns, q) by {
                            lemma_queue_step(
                                work0,
                                work@,
                                visited0,
                                visited@,
                                pre.columns,
                                pre.rows,
                                p,
                                q,
                            );
                        }
                        assert forall|k: int, q: Pos|
                            #![trigger r@[k], queued_or_visited(work@, visited@, pre.columns, q)]
                            0 <= k < r@.len() && r@[k].1.adjacent_mines == 0 && pre.spec_in_grid(q)
                                && is_adjacent(q, r@[k].0) implies queued_or_visited(
                            work@,
                            visited@,
                            pre.columns,
                            q,
                        ) by {
                            if k < r0.len() {
                                assert(r@[k] == r0[k]);
                                lemma_queue_step(
                                    work0,
                                    work@,
                                    visited0,
                                    visited@,
                                    pre.columns,
                                    pre.rows,
                                    p,
                                    q,
                                );
                            } else {
                                assert(r@[k] == (p, opened_cell));
                                assert(work@.contains(q));
                            }
                        }
                    }
                } else {
                    proof {
                        assert forall|k: int|
                            0 <= k < r@.len() implies visited@[grid_index(
                            pre.columns,
                            (#[trigger] r@[k]).0.x as int,
                            r@[k].0.y as int,
                        )] by {
                            lemma_grid_index_bounds(
                                pre.columns,
                                pre.rows,
                                r@[k].0.x as int,
                                r@[k].0.y as int,
                            );
                        }
                        assert forall|q: Pos|
                            pre.spec_in_grid(q) && is_adjacent(q, start) implies
                            #[trigger] queued_or_visited(work@, visited@, pre.columns, q) by {
                            lemma_queue_step(
                                work0,
                                work@,
                                visited0,
                                visited@,
                                pre.columns,
                                pre.rows,
                                p,
                                q,
                            );
                        }
                        assert forall|k: int, q: Pos|
                            #![trigger r@[k], queued_or_visited(work@, visited@, pre.columns, q)]
                            0 <= k < r@.len() && r@[k].1.adjacent_mines == 0 && pre.spec_in_grid(q)
                                && is_adjacent(q, r@[k].0) implies queued_or_visited(
                            work@,
                            visited@,
                            pre.columns,
                            q,
                        ) by {
                            lemma_queue_step(
                                work0,
                                work@,
                                visited0,
                                visited@,
                                pre.columns,
                                pre.rows,
                                p,
                                q,
                            );
                        }
                    }
                }
            } else {
                proof {
                    assert forall|q: Pos|
                        pre.spec_in_grid(q) && is_adjacent(q, start) implies
                        #[trigger] queued_or_visited(work@, visited@, pre.columns, q) by {
                        lemma_queue_step(
                            work0,
                            work@,
                            visited0,
                            visited@,
                            pre.columns,
                            pre.rows,
                            p,
                            q,
                        );
                    }
                    assert forall|k: int, q: Pos|
                        #![trigger r@[k], queued_or_visited(work@, visited@, pre.columns, q)]
                        0 <= k < r@.len() && r@[k].1.adjacent_mines == 0 && pre.spec_in_grid(q)
                            && is_adjacent(q, r@[k].0) implies queued_or_visited(
                        work@,
                        visited@,
                        pre.columns,
                        q,
                    ) by {
                        lemma_queue_step(
                            work0,
                            work@,
                            visited0,
                            visited@,
                            pre.columns,
                            pre.rows,
                            p,
                            q,
                        );
                    }
                }
            }
        }
        proof {
            assert forall|q: Pos|
                self.spec_in_grid(q) && is_adjacent(q, start) implies !(#[trigger] self.spec_cell(
                q,
            )).is_openable() by {
                lemma_grid_index_bounds(self.columns, self.rows, q.x as int, q.y as int);
                assert(queued_or_visited(work@, visited@, pre.columns, q));
            }
            assert forall|k: int, q: Pos|
                #![trigger r@[k], self.spec_cell(q)]
                0 <= k < r@.len() && r@[k].1.adjacent_mines == 0 && self.spec_in_grid(q)
                    && is_adjacent(q, r@[k].0) implies !self.spec_cell(q).is_openable() by {
                lemma_grid_index_bounds(self.columns, self.rows, q.x as int, q.y as int);
                assert(queued_or_visited(work@, visited@, pre.columns, q));
            }
        }
        r
    }

    /// Randomly mine the board at the fixed density, never on the given
    /// position, and bring it into play: the one transition out of `New`.
    pub fn mine_board(&mut self, exclude_pos: &Pos)
        requires
            old(self).wf(),
            old(self).state is New,
        ensures
            final(self).wf(),
            placement_ok(*old(self), *final(self), *exclude_pos),
    {
        broadcast use lemma_count_cells_le_len;
        broadcast use vstd::seq_lib::lemma_seq_contains_after_push;

        let exclude = *exclude_pos;
        self.state = GameState::Active;
        if self.columns < 2 || self.rows < 2 {
            proof {
                let c = self.columns;
                let r = self.rows;
                assert((c as int - 1) * (r as int - 1) == 0) by (nonlinear_arith)
                    requires
                        c == 1 || r == 1,
                ;
                assert forall|q: Pos| old(self).spec_in_grid(q) implies !(#[trigger] self.spec_cell(
                    q,
                )).is_mined() && !self.spec_cell(q).is_open() && !(self.spec_cell(
                    q,
                ).state is ExposedMine) by {
                    lemma_grid_index_bounds(self.columns, self.rows, q.x as int, q.y as int);
                }
            }
            return ;
        }
        let sc = self.columns - 1;
        let sr = self.rows - 1;
        proof {
            assert((sc as int) * (sr as int) < 0x10000 && (sc as int) * (sr as int) == (sr as int)
                * (sc as int)) by (nonlinear_arith)
                requires
                    sc <= 255,
                    sr <= 255,
            ;
        }
        let n = sc as usize * sr as usize;
        let ghost eidx: int = if exclude.in_grid(sc, sr) {
            grid_index(sc, exclude.x as int, exclude.y as int)
        } else {
            -1
        };
        proof {
            if exclude.in_grid(sc, sr) {
                lemma_grid_index_bounds(sc, sr, exclude.x as int, exclude.y as int);
            }
        }
        // Every position in the sample range, the excluded one left out, in
        // row-major order of the sample sub-grid.
        let mut candidates: Vec<Pos> = Vec::new();
        let mut k: usize = 0;
        while k < n
            invariant
                1 <= sc,
                1 <= sr,
                n == sc as int * sr as int,
                n == sr as int * sc as int,
                k <= n,
                eidx == (if exclude.in_grid(sc, sr) {
                    grid_index(sc, exclude.x as int, exclude.y as int)
                } else {
                    -1int
                }),
                forall|m: int|
                    0 <= m < candidates@.len() ==> (#[trigger] candidates@[m]).in_grid(sc, sr)
                        && candidates@[m] != exclude,
                forall|m: int|
                    0 <= m < candidates@.len() ==> grid_index(
                        sc,
                        (#[trigger] candidates@[m]).x as int,
                        candidates@[m].y as int,
                    ) < k,
                forall|m1: int, m2: int|
                    0 <= m1 < m2 < candidates@.len() ==> grid_index(
                        sc,
                        (#[trigger] candidates@[m1]).x as int,
                        candidates@[m1].y as int,
                    ) < grid_index(
                        sc,
                        (#[trigger] candidates@[m2]).x as int,
                        candidates@[m2].y as int,
                    ),
                candidates@.len() == k - (if 0 <= eidx < k {
                    1int
                } else {
                    0int
                }),
            decreases n - k,
        {
            proof {
                lemma_pos_of_index(sc, sr, k as int);
            }
            let x = (k % (sc as usize)) + 1;
            let y = (k / (sc as usize)) + 1;
            let p = Pos { x: x as u8, y: y as u8 };
            proof {
                assert(p == pos_of_index(sc, k as int));
                assert(grid_index(sc, p.x as int, p.y as int) == k as int);
                if eidx == k as int {
                    lemma_grid_index_injective(sc, sr, exclude, p);
                }
            }
            if !(p.x == exclude.x && p.y == exclude.y) {
                candidates.push(p);
            }
            k += 1;
        }
        let ghost pre = *old(self);
        proof {
            assert(candidates@.len() == sample_space(pre, exclude));
            assert forall|q: Pos| pre.spec_in_grid(q) implies !(#[trigger] self.spec_cell(
                q,
            )).is_mined() && !self.spec_cell(q).is_open() && !(self.spec_cell(
                q,
            ).state is ExposedMine) by {
                lemma_grid_index_bounds(self.columns, self.rows, q.x as int, q.y as int);
            }
            assert forall|m1: int, m2: int|
                0 <= m1 < candidates@.len() && 0 <= m2 < candidates@.len() && m1
                    != m2 implies #[trigger] candidates@[m1] != #[trigger] candidates@[m2] by {}
        }
        let total = self.cells.len();
        let target = total / 10;
        let mut remaining = candidates;
        while self.mined < target && remaining.len() > 0
            invariant
                self.wf(),
                self.state is Active,
                self.columns == pre.columns,
                self.rows == pre.rows,
                self.opened == pre.opened,
                self.flagged == pre.flagged,
                self.cells@.len() == pre.cells@.len(),
                pre.columns >= 2,
                pre.rows >= 2,
                sc == pre.columns - 1,
                sr == pre.rows - 1,
                target == mine_target(pre),
                forall|q: Pos|
                    pre.spec_in_grid(q) ==> (#[trigger] self.spec_cell(q)).is_flagged()
                        == pre.spec_cell(q).is_flagged(),
                forall|q: Pos|
                    pre.spec_in_grid(q) ==> !(#[trigger] self.spec_cell(q)).is_open() && !(
                    self.spec_cell(q).state is ExposedMine),
                forall|q: Pos|
                    pre.spec_in_grid(q) && (#[trigger] self.spec_cell(q)).is_mined()
                        ==> in_sample_range(pre, q) && q != exclude,
                forall|m: int|
                    0 <= m < remaining@.len() ==> (#[trigger] remaining@[m]).in_grid(sc, sr)
                        && remaining@[m] != exclude && !self.spec_cell(remaining@[m]).is_mined(),
                remaining@.no_duplicates(),
                self.mined + remaining@.len() == sample_space(pre, exclude),
                self.mined <= target,
            decreases remaining@.len(),
        {
            let j = random_below(remaining.len());
            let ghost rold = remaining@;
            let p = remaining.swap_remove(j);
            proof {
                assert forall|m: int| 0 <= m < remaining@.len() implies #[trigger] remaining@[m]
                    == (if m == j as int {
                    rold[rold.len() - 1]
                } else {
                    rold[m]
                }) by {}
                assert(remaining@.no_duplicates());
                assert forall|m: int| 0 <= m < remaining@.len() implies remaining@[m] != p by {
                    if m == j as int {
                        assert(remaining@[m] == rold[rold.len() - 1]);
                    }
                }
            }
            self.place_mine(p);
        }
    }

    /// Build a board that is already in play, with mines exactly at the
    /// given on-grid positions: the deterministic counterpart of random
    /// placement, for boards whose mine layout must be known in advance.
    pub fn with_mines(columns: u8, rows: u8, mines: &Vec<Pos>) -> (b: Board)
        requires
            columns >= 1,
            rows >= 1,
        ensures
            b.wf(),
            b.columns == columns,
            b.rows == rows,
            b.state is Active,
            b.opened == 0,
            b.flagged == 0,
            b.cells@.len() == rows as int * columns as int,
            forall|q: Pos|
                q.in_grid(columns, rows) ==> ((#[trigger] b.spec_cell(q)).is_mined()
                    <==> mines@.contains(q)),
            forall|q: Pos|
                q.in_grid(columns, rows) ==> !(#[trigger] b.spec_cell(q)).is_open()
                    && !b.spec_cell(q).is_flagged() && !(b.spec_cell(q).state is ExposedMine),
    {
        broadcast use vstd::seq_lib::lemma_seq_contains_after_push;

        let mut b = Board::new(columns, rows);
        b.state = GameState::Active;
        proof {
            assert forall|q: Pos| q.in_grid(columns, rows) implies (#[trigger] b.spec_cell(q))
                == fresh_cell() by {
                lemma_grid_index_bounds(columns, rows, q.x as int, q.y as int);
            }
        }
        let mut i: usize = 0;
        while i < mines.len()
            invariant
                b.wf(),
                b.state is Active,
                b.columns == columns,
                b.rows == rows,
                b.opened == 0,
                b.flagged == 0,
                b.cells@.len() == rows as int * columns as int,
                i <= mines@.len(),
                forall|q: Pos|
                    q.in_grid(columns, rows) ==> ((#[trigger] b.spec_cell(q)).is_mined()
                        <==> mines@.take(i as int).contains(q)),
                forall|q: Pos|
                    q.in_grid(columns, rows) ==> !(#[trigger] b.spec_cell(q)).is_open()
                        && !b.spec_cell(q).is_flagged() && !(b.spec_cell(q).state is ExposedMine),
            decreases mines@.len() - i,
        {
            let ghost b_prev = b;
            let p = mines[i];
            if 1 <= p.x && p.x <= columns && 1 <= p.y && p.y <= rows {
                let cell = b.get_pos(&p);
                match cell {
                    Some(c) => {
                        if !c.mined_cell() {
                            b.place_mine(p);
                        }
                    },
                    None => {},
                }
            }
            i += 1;
            proof {
                assert(mines@.take(i as int) =~= mines@.take(i - 1).push(mines@[i - 1]));
                assert forall|q: Pos|
                    q.in_grid(columns, rows) implies ((#[trigger] b.spec_cell(q)).is_mined()
                    <==> mines@.take(i as int).contains(q)) by {
                    assert(b_prev.spec_cell(q).is_mined() <==> mines@.take(i - 1).contains(q));
                    vstd::seq_lib::lemma_seq_contains_after_push(mines@.take(i - 1), mines@[i - 1], q);
                    assert(mines@.take(i as int).contains(q) <==> (mines@.take(i - 1).contains(q)
                        || q == p));
                }
            }
        }
        proof {
            assert(mines@.take(mines@.len() as int) =~= mines@);
        }
        b
    }

    /// Open a cell. On a fresh board this first places the mines, never on
    /// `pos`, and brings the board into play. A hidden unflagged mine loses
    /// the game and exposes every mine; a closed safe cell opens, spreading
    /// through zero-adjacency neighbourhoods, and the win condition is
    /// checked; a flagged, open or exposed cell, a position off the grid and
    /// a finished board are left alone. Returns the cells this call opened.
    pub fn open_cell(&mut self, pos: Pos) -> (r: Vec<(Pos, Cell)>)
        requires
            old(self).wf(),
        ensures
            final(self).wf(),
            old(self).state is Loss || old(self).state is Win ==> *final(self) == *old(self)
                && r@.len() == 0,
            old(self).state is Active ==> open_step(*old(self), pos, *final(self), r@),
            old(self).state is New ==> exists|mid: Board|
                #[trigger] placement_ok(*old(self), mid, pos) && open_step(
                    mid,
                    pos,
                    *final(self),
                    r@,
                ),
            old(self).state is New && old(self).spec_in_grid(pos) ==> !final(self).spec_cell(
                pos,
            ).is_mined(),
            old(self).state is Active && old(self).spec_in_grid(pos) && old(self).spec_cell(
                pos,
            ).is_open() ==> *final(self) == *old(self) && r@.len() == 0,
    {
        broadcast use lemma_count_cells_update, lemma_count_cells_le_len;

        let terminal = match self.state {
            GameState::Loss | GameState::Win => true,
            _ => false,
        };
        if terminal {
            return Vec::new();
        }
        let ghost was_new = old(self).state is New;
        let is_new = match self.state {
            GameState::New => true,
            _ => false,
        };
        if is_new {
            self.mine_board(&pos);
        }
        let ghost mid = *self;
        let mut r: Vec<(Pos, Cell)> = Vec::new();
        if 1 <= pos.x && pos.x <= self.columns && 1 <= pos.y && pos.y <= self.rows {
            let i = self.index_of(pos);
            let c = self.cells[i];
            match c.state {
                CellState::Closed { mined: true, flagged: false } => {
                    self.expose_mines();
                    self.state = GameState::Loss;
                },
                CellState::Closed { mined: false, flagged: false } => {
                    let opened_cell = Cell {
                        state: CellState::Open,
                        adjacent_mines: c.adjacent_mines,
                    };
                    let ghost s0 = self.cells@;
                    self.cells.set(i, opened_cell);
                    proof {
                        let rw = self.rows;
                        let cl = self.columns;
                        assert((rw as int) * (cl as int) <= 0x10000) by (nonlinear_arith)
                            requires
                                rw <= 255,
                                cl <= 255,
                        ;
                        assert(count_open(self.cells@) == count_open(s0) + 1);
                        lemma_adjacent_counts_update(s0, self.columns, self.rows, pos, opened_cell);
                        assert forall|q: Pos|
                            q.in_grid(self.columns, self.rows) implies self.cells@[grid_index(
                            self.columns,
                            q.x as int,
                            q.y as int,
                        )].adjacent_mines == #[trigger] adjacent_mine_count(
                            self.cells@,
                            self.columns,
                            self.rows,
                            q,
                        ) by {
                            lemma_grid_index_bounds(self.columns, self.rows, q.x as int, q.y as int);
                            assert(s0[grid_index(self.columns, q.x as int, q.y as int)].adjacent_mines
                                == adjacent_mine_count(s0, self.columns, self.rows, q));
                        }
                    }
                    self.opened = self.opened + 1;
                    r.push((pos, opened_cell));
                    let ghost after_first = *self;
                    proof {
                        assert forall|q: Pos|
                            mid.spec_in_grid(q) && q != pos implies #[trigger] after_first.spec_cell(
                            q,
                        ) == mid.spec_cell(q) by {
                            lemma_grid_index_bounds(mid.columns, mid.rows, q.x as int, q.y as int);
                            if mid.spec_idx(q) == i as int {
                                lemma_grid_index_injective(mid.columns, mid.rows, q, pos);
                            }
                        }
                        assert(after_first.spec_cell(pos) == opened_cell);
                    }
                    if c.adjacent_mines == 0 {
                        let mut more = self.expand(pos);
                        let ghost more0 = more@;
                        r.append(&mut more);
                        proof {
                            assert(r@ =~= seq![(pos, opened_cell)] + more0);
                            lemma_open_compose(mid, after_first, *self, pos, opened_cell, more0, r@);
                        }
                    } else {
                        proof {
                            assert(opened_cells_ok(mid, after_first, r@)) by {
                                assert forall|q: Pos|
                                    mid.spec_in_grid(q) && !result_contains_pos(r@, q) implies
                                    #[trigger] after_first.spec_cell(q) == mid.spec_cell(q) by {
                                    assert(r@[0].0 == pos);
                                    if q == pos {
                                        assert(result_contains_pos(r@, q));
                                    }
                                }
                            }
                        }
                    }
                    let ghost pre_win = *self;
                    if self.is_win() {
                        self.state = GameState::Win;
                    }
                    proof {
                        assert(opened_cells_ok(mid, pre_win, r@));
                        assert(flood_saturated(pre_win, r@));
                        assert(r@[0] == (pos, pre_win.spec_cell(pos)));
                        assert forall|k: int|
                            0 <= k < r@.len() implies (#[trigger] r@[k]).1 == self.spec_cell(
                            r@[k].0,
                        ) by {
                            assert(r@[k].1 == pre_win.spec_cell(r@[k].0));
                        }
                        assert forall|q: Pos|
                            mid.spec_in_grid(q) && !result_contains_pos(r@, q) implies
                            #[trigger] self.spec_cell(q) == mid.spec_cell(q) by {
                            assert(pre_win.spec_cell(q) == mid.spec_cell(q));
                        }
                        assert forall|k: int, q: Pos|
                            #![trigger r@[k], self.spec_cell(q)]
                            0 <= k < r@.len() && r@[k].1.adjacent_mines == 0 && self.spec_in_grid(
                                q,
                            ) && is_adjacent(q, r@[k].0) implies !self.spec_cell(
                            q,
                        ).is_openable() by {
                            assert(!pre_win.spec_cell(q).is_openable());
                        }
                        assert(open_step(mid, pos, *self, r@));
                    }
                },
                _ => {},
            }
        }
        proof {
            if was_new {
                assert(placement_ok(*old(self), mid, pos));
                assert(open_step(mid, pos, *self, r@));
                if old(self).spec_in_grid(pos) {
                    assert(!mid.spec_cell(pos).is_mined());
                    assert(!self.spec_cell(pos).is_mined());
                }
            } else {
                assert(open_step(mid, pos, *self, r@));
            }
        }
        r
    }
}

/// Appending the flood fill's cells to the directly opened cell gives one
/// consistent record of the whole move: the composition law behind opening a
/// zero-adjacency cell.
proof fn lemma_open_compose(
    mid: Board,
    after_first: Board,
    post: Board,
    pos: Pos,
    oc: Cell,
    more: Seq<(Pos, Cell)>,
    r: Seq<(Pos, Cell)>,
)
    requires
        mid.wf(),
        mid.state is Active,
        mid.spec_in_grid(pos),
        mid.spec_cell(pos).is_openable(),
        oc == (Cell { state: CellState::Open, adjacent_mines: mid.spec_cell(pos).adjacent_mines }),
        after_first.columns == mid.columns,
        after_first.rows == mid.rows,
        after_first.cells@.len() == mid.cells@.len(),
        after_first.spec_cell(pos) == oc,
        forall|q: Pos|
            mid.spec_in_grid(q) && q != pos ==> #[trigger] after_first.spec_cell(q)
                == mid.spec_cell(q),
        post.columns == after_first.columns,
        post.rows == after_first.rows,
        post.cells@.len() == after_first.cells@.len(),
        opened_cells_ok(after_first, post, more),
        flood_saturated(post, more),
        forall|q: Pos|
            post.spec_in_grid(q) && is_adjacent(q, pos) ==> !(#[trigger] post.spec_cell(
                q,
            )).is_openable(),
        r == seq![(pos, oc)] + more,
    ensures
        opened_cells_ok(mid, post, r),
        flood_saturated(post, r),
        r[0] == (pos, post.spec_cell(pos)),
        r.len() == 1 + more.len(),
{
    assert(r[0] == (pos, oc));
    assert(forall|k: int| 1 <= k < r.len() ==> #[trigger] r[k] == more[k - 1]);
    assert(!result_contains_pos(more, pos)) by {
        if result_contains_pos(more, pos) {
            let k = choose|k: int| 0 <= k < more.len() && (#[trigger] more[k]).0 == pos;
            assert(after_first.spec_cell(pos).is_openable());
        }
    }
    assert(post.spec_cell(pos) == after_first.spec_cell(pos));
    assert forall|k: int|
        0 <= k < r.len() implies mid.spec_in_grid((#[trigger] r[k]).0) && mid.spec_cell(
        r[k].0,
    ).is_openable() && r[k].1 == post.spec_cell(r[k].0) && r[k].1.state is Open
        && r[k].1.adjacent_mines == mid.spec_cell(r[k].0).adjacent_mines by {
        if k == 0 {
        } else {
            assert(r[k] == more[k - 1]);
            assert(more[k - 1].0 != pos) by {
                if more[k - 1].0 == pos {
                    assert(result_contains_pos(more, pos));
                }
            }
            assert(after_first.spec_cell(more[k - 1].0) == mid.spec_cell(more[k - 1].0));
        }
    }
    assert forall|k1: int, k2: int|
        0 <= k1 < k2 < r.len() implies (#[trigger] r[k1]).0 != (#[trigger] r[k2]).0 by {
        if k1 == 0 {
            assert(r[k2] == more[k2 - 1]);
            assert(more[k2 - 1].0 != pos) by {
                if more[k2 - 1].0 == pos {
                    assert(result_contains_pos(more, pos));
                }
            }
        } else {
            assert(r[k1] == more[k1 - 1] && r[k2] == more[k2 - 1]);
        }
    }
    assert forall|q: Pos|
        mid.spec_in_grid(q) && !result_contains_pos(r, q) implies #[trigger] post.spec_cell(q)
        == mid.spec_cell(q) by {
        assert(q != pos) by {
            if q == pos {
                assert(r[0].0 == pos);
                assert(result_contains_pos(r, q));
            }
        }
        assert(!result_contains_pos(more, q)) by {
            if result_contains_pos(more, q) {
                let k = choose|k: int| 0 <= k < more.len() && (#[trigger] more[k]).0 == q;
                assert(r[k + 1].0 == q);
                assert(result_contains_pos(r, q));
            }
        }
        assert(post.spec_cell(q) == after_first.spec_cell(q));
    }
    assert forall|k: int, q: Pos|
        #![trigger r[k], post.spec_cell(q)]
        0 <= k < r.len() && r[k].1.adjacent_mines == 0 && post.spec_in_grid(q) && is_adjacent(
            q,
            r[k].0,
        ) implies !post.spec_cell(q).is_openable() by {
        if k == 0 {
        } else {
            assert(r[k] == more[k - 1]);
        }
    }
}

/// Law: flagging the last unflagged mine on a board in play wins the game,
/// however many safe cells are still closed: once every mine is flagged
/// after the toggle, the board's state is `Win`.
pub proof fn lemma_flagging_all_mines_wins(
    pre: Board,
    pos: Pos,
    post: Board,
    r: Option<(Pos, Cell)>,
)
    requires
        pre.wf(),
        pre.state is Active,
        pre.spec_in_grid(pos),
        pre.spec_cell(pos).state matches CellState::Closed { .. },
        flag_step(pre, pos, post, r),
        all_mines_flagged(post.cells@),
    ensures
        post.state is Win,
{
}

/// Law: an opening move that leaves every safe cell open wins the game, so
/// in particular a board without mines is won as soon as every cell is open.
pub proof fn lemma_full_clear_wins(pre: Board, pos: Pos, post: Board, r: Seq<(Pos, Cell)>)
    requires
        pre.wf(),
        pre.state is Active,
        pre.spec_in_grid(pos),
        pre.spec_cell(pos).is_openable(),
        open_step(pre, pos, post, r),
        all_safe_open(post.cells@),
    ensures
        post.state is Win,
{
}

/// Law: opening a hidden, unflagged mine loses the game, yields no opened
/// cells, and leaves every mined cell exposed.
pub proof fn lemma_losing_move_exposes(pre: Board, pos: Pos, post: Board, r: Seq<(Pos, Cell)>)
    requires
        pre.wf(),
        pre.spec_in_grid(pos),
        pre.spec_cell(pos).state == (CellState::Closed { flagged: false, mined: true }),
        open_step(pre, pos, post, r),
    ensures
        post.state is Loss,
        crate::board::mines_exposed(post.cells@),
        r.len() == 0,
{
    assert forall|i: int|
        0 <= i < post.cells@.len() && (#[trigger] post.cells@[i]).is_mined() implies
        post.cells@[i].state is ExposedMine by {
        assert(post.cells@[i] == (if pre.cells@[i].is_closed_and_mined() {
            Cell { state: CellState::ExposedMine, adjacent_mines: pre.cells@[i].adjacent_mines }
        } else {
            pre.cells@[i]
        }));
    }
}

/// Law: toggling the flag on the same closed cell twice restores the grid
/// and the flag count, provided the first toggle did not already win the
/// game.
pub proof fn lemma_flag_toggle_restores(
    b0: Board,
    pos: Pos,
    b1: Board,
    r1: Option<(Pos, Cell)>,
    b2: Board,
    r2: Option<(Pos, Cell)>,
)
    requires
        b0.wf(),
        !(b0.state is Loss) && !(b0.state is Win),
        !(b1.state is Loss) && !(b1.state is Win),
        flag_step(b0, pos, b1, r1),
        flag_step(b1, pos, b2, r2),
    ensures
        b2.cells@ == b0.cells@,
        b2.flagged == b0.flagged,
{
    if b0.spec_in_grid(pos) {
        let c = b0.spec_cell(pos);
        if c.state matches CellState::Closed { .. } {
            let i = b0.spec_idx(pos);
            lemma_grid_index_bounds(b0.columns, b0.rows, pos.x as int, pos.y as int);
            assert(b1.cells@ == b0.cells@.update(i, toggled_cell(c)));
            assert(b1.spec_cell(pos) == toggled_cell(c));
            assert(toggled_cell(toggled_cell(c)) == c);
            assert(b2.cells@ == b1.cells@.update(i, toggled_cell(toggled_cell(c))));
            assert(b2.cells@ =~= b0.cells@);
        }
    }
}

} // verus!
