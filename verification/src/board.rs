use vstd::prelude::*;
use crate::adjacency::Adjacency;
use crate::error::{BadukError, InvalidMoveError};
use crate::model::{
    adjacent, board_run_from, builder_moves, caps_exact, pos_listed, capture_step, captured_opponent_at, cell,
    classify, closed_under_group, count_color, count_occupied, count_true, dir_dx, dir_dy,
    empty_grid, grid_after_move, grid_wf, group_has_liberty, idx_of, in_bounds, in_group,
    is_group_liberty, is_liberty_of_cell, lemma_count_color_le_len, lemma_count_color_take_step,
    lemma_count_occupied_le_len, lemma_count_occupied_take_step, lemma_count_true_le_len,
    lemma_count_true_update, lemma_group_extend, lemma_group_in_closed, lemma_group_member,
    lemma_group_seed, lemma_idx_of_injective, lemma_idx_of_range, lemma_remove_group_cell,
    lemma_pos_listed_add, lemma_pos_listed_push, lemma_pos_listed_take_step, move_error,
    nbrs_seen, out_has, place, remove_group_grid,
};
use crate::piece::{Piece, PieceAdjacency, PieceColor, PlacedPiece, opposite_color};

verus! {

/// True when both coordinates of pos lie on the 19x19 grid.
pub fn pos_in_bounds(pos: (u8, u8)) -> (r: bool)
    ensures
        r == in_bounds(pos.0 as int, pos.1 as int),
{
    pos.0 <= 18 && pos.1 <= 18
}

/// What a committed move reports: the placed stone and the positions of
/// every captured stone.
pub type MoveResult = (PlacedPiece, Vec<(u8, u8)>);

/// The engine core: the current grid, and a snapshot of the grid as it was
/// immediately before the most recently committed move, kept solely for
/// the ko comparison.
pub struct Board {
    cells: Vec<Option<Piece>>,
    ko_cells: Vec<Option<Piece>>,
}

/// The flood-fill stack mentions position (x, y).
spec fn stack_has(stack: Seq<(u8, u8)>, x: int, y: int) -> bool {
    exists|k: int| 0 <= k < stack.len() && #[trigger] stack[k] == ((x as u8, y as u8))
}

/// The running state of the group flood fill: every marked cell belongs to
/// the group seeded at (sx, sy), stack entries are marked, and out lists
/// exactly the marked cells, each once, with their occupants.
spec fn bfs_core(
    g: Seq<Option<Piece>>,
    sx: int,
    sy: int,
    seen: Seq<bool>,
    stack: Seq<(u8, u8)>,
    out: Seq<PlacedPiece>,
) -> bool {
    &&& seen.len() == 361
    &&& in_bounds(sx, sy)
    &&& cell(g, sx, sy) is Some
    &&& seen[idx_of(sx, sy)]
    &&& (forall|x: int, y: int|
        in_bounds(x, y) && #[trigger] seen[idx_of(x, y)] ==> in_group(g, sx, sy, x, y))
    &&& (forall|k: int|
        0 <= k < stack.len() ==> {
            let p = #[trigger] stack[k];
            in_bounds(p.0 as int, p.1 as int) && seen[idx_of(p.0 as int, p.1 as int)]
        })
    &&& (forall|k: int|
        0 <= k < out.len() ==> {
            let p = #[trigger] out[k];
            &&& in_bounds(p.pos.0 as int, p.pos.1 as int)
            &&& seen[idx_of(p.pos.0 as int, p.pos.1 as int)]
            &&& cell(g, p.pos.0 as int, p.pos.1 as int) == Some(p.piece)
        })
    &&& (forall|x: int, y: int|
        in_bounds(x, y) && #[trigger] seen[idx_of(x, y)] ==> out_has(out, x, y))
    &&& (forall|k1: int, k2: int| 0 <= k1 < k2 < out.len() ==> out[k1].pos != out[k2].pos)
}

/// Every cell marked in the flood fill and no longer on the stack has all
/// its same-occupant neighbors marked.
spec fn bfs_processed(
    g: Seq<Option<Piece>>,
    seen: Seq<bool>,
    stack: Seq<(u8, u8)>,
) -> bool {
    forall|x: int, y: int|
        in_bounds(x, y) && #[trigger] seen[idx_of(x, y)] && !stack_has(stack, x, y) ==> nbrs_seen(
            g,
            seen,
            x,
            y,
        )
}

/// A fresh 361-entry mark vector, all clear.
fn make_unseen() -> (r: Vec<bool>)
    ensures
        r@.len() == 361,
        forall|k: int| 0 <= k < 361 ==> !r@[k],
{
    let mut v: Vec<bool> = Vec::new();
    let mut i: usize = 0;
    while i < 361
        invariant
            v@.len() == i,
            i <= 361,
            forall|k: int| 0 <= k < i ==> !v@[k],
        decreases 361 - i,
    {
        v.push(false);
        i = i + 1;
    }
    v
}

/// The exec cell index of an in-bounds position.
fn grid_index(x: u8, y: u8) -> (i: usize)
    requires
        in_bounds(x as int, y as int),
    ensures
        i == idx_of(x as int, y as int),
        i < 361,
{
    proof {
        lemma_idx_of_range(x as int, y as int);
    }
    (x as usize) * 19 + (y as usize)
}

/// A fresh 361-cell grid with no stones.
fn empty_cells() -> (r: Vec<Option<Piece>>)
    ensures
        r@ == empty_grid(),
{
    let mut v: Vec<Option<Piece>> = Vec::new();
    let mut i: usize = 0;
    while i < 361
        invariant
            v@.len() == i,
            i <= 361,
            forall|k: int| 0 <= k < i ==> v@[k] is None,
        decreases 361 - i,
    {
        v.push(None);
        i = i + 1;
    }
    proof {
        assert(v@ =~= empty_grid());
    }
    v
}

/// An element-for-element copy of a grid.
fn copy_cells(src: &Vec<Option<Piece>>) -> (r: Vec<Option<Piece>>)
    ensures
        r@ == src@,
{
    let mut v: Vec<Option<Piece>> = Vec::new();
    let mut i: usize = 0;
    while i < src.len()
        invariant
            i <= src@.len(),
            v@.len() == i,
            forall|k: int| 0 <= k < i ==> v@[k] == src@[k],
        decreases src@.len() - i,
    {
        v.push(src[i]);
        i = i + 1;
    }
    proof {
        assert(v@ =~= src@);
    }
    v
}

/// Whether the position list already holds q.
fn pos_vec_contains(v: &Vec<(u8, u8)>, q: (u8, u8)) -> (b: bool)
    ensures
        b == pos_listed(v@, q.0 as int, q.1 as int),
{
    let mut i: usize = 0;
    while i < v.len()
        invariant
            i <= v@.len(),
            forall|k: int| 0 <= k < i ==> v@[k] != q,
        decreases v@.len() - i,
    {
        let e = v[i];
        if e.0 == q.0 && e.1 == q.1 {
            proof {
                assert(v@[i as int] == q);
            }
            return true;
        }
        i = i + 1;
    }
    proof {
        if pos_listed(v@, q.0 as int, q.1 as int) {
            let k = choose|k: int| 0 <= k < v@.len() && #[trigger] v@[k] == q;
            assert(false);
        }
    }
    false
}

impl Board {
    /// The current grid, as the model sees it.
    pub closed spec fn grid(self) -> Seq<Option<Piece>> {
        self.cells@
    }

    /// The ko snapshot: the grid as it was before the last committed move.
    pub closed spec fn ko_grid(self) -> Seq<Option<Piece>> {
        self.ko_cells@
    }

    /// Both grids hold exactly 361 cells.
    pub open spec fn wf(self) -> bool {
        grid_wf(self.grid()) && grid_wf(self.ko_grid())
    }

    /// An empty board with an empty ko snapshot.
    pub fn new() -> (r: Board)
        ensures
            r.wf(),
            r.grid() == empty_grid(),
            r.ko_grid() == empty_grid(),
    {
        Board { cells: empty_cells(), ko_cells: empty_cells() }
    }

    /// The occupant of one in-bounds cell.
    fn cell_at(&self, x: u8, y: u8) -> (r: Option<Piece>)
        requires
            self.wf(),
            in_bounds(x as int, y as int),
        ensures
            r == cell(self.grid(), x as int, y as int),
    {
        let i = grid_index(x, y);
        self.cells[i]
    }

    /// Overwrites one in-bounds cell.
    fn set_cell(&mut self, x: u8, y: u8, v: Option<Piece>)
        requires
            old(self).wf(),
            in_bounds(x as int, y as int),
        ensures
            final(self).wf(),
            final(self).grid() == old(self).grid().update(idx_of(x as int, y as int), v),
            final(self).ko_grid() == old(self).ko_grid(),
    {
        let i = grid_index(x, y);
        self.cells[i] = v;
    }

    /// The stone at pos, if any, together with its position.
    pub fn get(&self, pos: (u8, u8)) -> (r: Option<PlacedPiece>)
        requires
            self.wf(),
            in_bounds(pos.0 as int, pos.1 as int),
        ensures
            r == (match cell(self.grid(), pos.0 as int, pos.1 as int) {
                Some(piece) => Some(PlacedPiece { piece, pos }),
                None => None::<PlacedPiece>,
            }),
    {
        match self.cell_at(pos.0, pos.1) {
            Some(piece) => Some(PlacedPiece { piece, pos }),
            None => None,
        }
    }

    /// The color of the stone at pos, if any.
    pub fn get_color(&self, pos: (u8, u8)) -> (r: Option<PieceColor>)
        requires
            self.wf(),
            in_bounds(pos.0 as int, pos.1 as int),
        ensures
            r == (match cell(self.grid(), pos.0 as int, pos.1 as int) {
                Some(piece) => Some(piece.color),
                None => None::<PieceColor>,
            }),
    {
        match self.cell_at(pos.0, pos.1) {
            Some(piece) => Some(piece.color),
            None => None,
        }
    }

    /// Classifies one in-bounds cell for a neighbor query.
    fn classify_in(&self, x: u8, y: u8) -> (r: PieceAdjacency)
        requires
            self.wf(),
            in_bounds(x as int, y as int),
        ensures
            r == classify(self.grid(), x as int, y as int),
    {
        match self.cell_at(x, y) {
            Some(piece) => PieceAdjacency::Piece(PlacedPiece { piece, pos: (x, y) }),
            None => PieceAdjacency::Empty((x, y)),
        }
    }

    /// Classifies neighbor d of pos (0 up, 1 down, 2 left, 3 right).
    fn classify_neighbor(&self, pos: (u8, u8), d: usize) -> (r: PieceAdjacency)
        requires
            self.wf(),
            in_bounds(pos.0 as int, pos.1 as int),
            d < 4,
        ensures
            r == classify(
                self.grid(),
                pos.0 as int + dir_dx(d as int),
                pos.1 as int + dir_dy(d as int),
            ),
    {
        if d == 0 {
            if pos.1 >= 18 {
                PieceAdjacency::Edge
            } else {
                self.classify_in(pos.0, pos.1 + 1)
            }
        } else if d == 1 {
            if pos.1 == 0 {
                PieceAdjacency::Edge
            } else {
                self.classify_in(pos.0, pos.1 - 1)
            }
        } else if d == 2 {
            if pos.0 == 0 {
                PieceAdjacency::Edge
            } else {
                self.classify_in(pos.0 - 1, pos.1)
            }
        } else {
            if pos.0 >= 18 {
                PieceAdjacency::Edge
            } else {
                self.classify_in(pos.0 + 1, pos.1)
            }
        }
    }

    /// Classifies the four orthogonal neighbors of pos in the fixed order
    /// +y, -y, -x, +x.
    pub fn adjacents(&self, pos: (u8, u8)) -> (r: Adjacency<PieceAdjacency>)
        requires
            self.wf(),
            in_bounds(pos.0 as int, pos.1 as int),
        ensures
            r.entry(0) == classify(self.grid(), pos.0 as int, pos.1 as int + 1),
            r.entry(1) == classify(self.grid(), pos.0 as int, pos.1 as int - 1),
            r.entry(2) == classify(self.grid(), pos.0 as int - 1, pos.1 as int),
            r.entry(3) == classify(self.grid(), pos.0 as int + 1, pos.1 as int),
    {
        Adjacency::new(
            self.classify_neighbor(pos, 0),
            self.classify_neighbor(pos, 1),
            self.classify_neighbor(pos, 2),
            self.classify_neighbor(pos, 3),
        )
    }

    /// Writes the stone into its cell unconditionally; callers must have
    /// checked emptiness beforehand. Returns the placed stone.
    pub fn set(&mut self, m: PlacedPiece) -> (r: PlacedPiece)
        requires
            old(self).wf(),
            in_bounds(m.pos.0 as int, m.pos.1 as int),
        ensures
            final(self).wf(),
            final(self).grid() == place(old(self).grid(), m),
            final(self).ko_grid() == old(self).ko_grid(),
            r == m,
    {
        self.set_cell(m.pos.0, m.pos.1, Some(m.piece));
        m
    }

    /// One step of the group flood fill: if the cell at q holds the same
    /// occupant as the seed and is not yet marked, mark it, stack it, and
    /// record it.
    fn visit_neighbor(
        &self,
        spos: (u8, u8),
        sp: Piece,
        fpos: (u8, u8),
        q: (u8, u8),
        seen: &mut Vec<bool>,
        stack: &mut Vec<(u8, u8)>,
        out: &mut Vec<PlacedPiece>,
    )
        requires
            self.wf(),
            in_bounds(q.0 as int, q.1 as int),
            adjacent(fpos.0 as int, fpos.1 as int, q.0 as int, q.1 as int),
            cell(self.grid(), spos.0 as int, spos.1 as int) == Some(sp),
            in_group(
                self.grid(),
                spos.0 as int,
                spos.1 as int,
                fpos.0 as int,
                fpos.1 as int,
            ),
            bfs_core(
                self.grid(),
                spos.0 as int,
                spos.1 as int,
                old(seen)@,
                old(stack)@,
                old(out)@,
            ),
        ensures
            bfs_core(
                self.grid(),
                spos.0 as int,
                spos.1 as int,
                final(seen)@,
                final(stack)@,
                final(out)@,
            ),
            forall|i: int|
                0 <= i < 361 && i != idx_of(q.0 as int, q.1 as int)
                    ==> final(seen)@[i] == old(seen)@[i],
            forall|i: int| 0 <= i < 361 && old(seen)@[i] ==> final(seen)@[i],
            cell(self.grid(), q.0 as int, q.1 as int)
                == cell(self.grid(), spos.0 as int, spos.1 as int)
                ==> final(seen)@[idx_of(q.0 as int, q.1 as int)],
            final(stack)@ == old(stack)@
                || (final(stack)@ == old(stack)@.push(q)
                    && !old(seen)@[idx_of(q.0 as int, q.1 as int)]
                    && final(seen)@ == old(seen)@.update(idx_of(q.0 as int, q.1 as int), true)),
            final(stack)@.len() == old(stack)@.len()
                ==> final(seen)@ == old(seen)@ && final(out)@ == old(out)@,
            count_true(final(seen)@)
                == count_true(old(seen)@) + final(stack)@.len() - old(stack)@.len(),
            final(stack)@.len() == old(stack)@.len()
                || final(stack)@.len() == old(stack)@.len() + 1,
            forall|k: int| 0 <= k < old(out)@.len() ==> final(out)@[k] == old(out)@[k],
    {
        let qi = grid_index(q.0, q.1);
        let c = self.cell_at(q.0, q.1);
        proof {
            lemma_group_member(
                self.grid(),
                spos.0 as int,
                spos.1 as int,
                fpos.0 as int,
                fpos.1 as int,
            );
        }
        match c {
            Some(p) => {
                if p == sp {
                    if !seen[qi] {
                        let ghost seen0 = seen@;
                        let ghost out0 = out@;
                        seen[qi] = true;
                        stack.push(q);
                        out.push(PlacedPiece { piece: p, pos: q });
                        proof {
                            let g = self.grid();
                            let sx = spos.0 as int;
                            let sy = spos.1 as int;
                            let qx = q.0 as int;
                            let qy = q.1 as int;
                            lemma_group_extend(
                                g,
                                sx,
                                sy,
                                fpos.0 as int,
                                fpos.1 as int,
                                qx,
                                qy,
                            );
                            lemma_count_true_update(seen0, idx_of(qx, qy), true);
                            assert forall|x: int, y: int|
                                in_bounds(x, y) && #[trigger] seen@[idx_of(x, y)] implies in_group(
                                g,
                                sx,
                                sy,
                                x,
                                y,
                            ) by {
                                if idx_of(x, y) == idx_of(qx, qy) {
                                    lemma_idx_of_injective(x, y, qx, qy);
                                } else {
                                    assert(seen0[idx_of(x, y)]);
                                }
                            }
                            assert forall|x: int, y: int|
                                in_bounds(x, y) && #[trigger] seen@[idx_of(x, y)] implies out_has(
                                out@,
                                x,
                                y,
                            ) by {
                                if idx_of(x, y) == idx_of(qx, qy) {
                                    lemma_idx_of_injective(x, y, qx, qy);
                                    assert(out@[out@.len() - 1].pos == ((x as u8, y as u8)));
                                } else {
                                    assert(seen0[idx_of(x, y)]);
                                    assert(out_has(out0, x, y));
                                    let k = choose|k: int|
                                        0 <= k < out0.len() && (#[trigger] out0[k]).pos == ((
                                            x as u8,
                                            y as u8,
                                        ));
                                    assert(out@[k] == out0[k]);
                                }
                            }
                            assert forall|k1: int, k2: int|
                                0 <= k1 < k2 < out@.len() implies out@[k1].pos != out@[k2].pos by {
                                if k2 == out@.len() - 1 {
                                    assert(out@[k1] == out0[k1]);
                                    assert(seen0[idx_of(out0[k1].pos.0 as int, out0[k1].pos.1 as int)]);
                                    if out0[k1].pos == q {
                                        assert(seen0[idx_of(qx, qy)]);
                                    }
                                } else {
                                    assert(out@[k1] == out0[k1] && out@[k2] == out0[k2]);
                                }
                            }
                        }
                    }
                }
            },
            None => {},
        }
    }

    /// The connected group of same-colored stones seeded at pos: the seed
    /// plus every stone transitively reachable through same-colored
    /// orthogonal neighbors. Empty seed: empty result. Iterative flood
    /// fill with an explicit stack and mark vector.
    #[verifier::rlimit(100)]
    pub fn shape(&self, pos: (u8, u8)) -> (r: Vec<PlacedPiece>)
        requires
            self.wf(),
            in_bounds(pos.0 as int, pos.1 as int),
        ensures
            cell(self.grid(), pos.0 as int, pos.1 as int) is None ==> r@.len() == 0,
            forall|k: int|
                0 <= k < r@.len() ==> {
                    let p = #[trigger] r@[k];
                    &&& in_group(
                        self.grid(),
                        pos.0 as int,
                        pos.1 as int,
                        p.pos.0 as int,
                        p.pos.1 as int,
                    )
                    &&& cell(self.grid(), p.pos.0 as int, p.pos.1 as int) == Some(p.piece)
                },
            forall|x: int, y: int|
                #[trigger] in_group(self.grid(), pos.0 as int, pos.1 as int, x, y) ==> out_has(
                    r@,
                    x,
                    y,
                ),
            forall|k1: int, k2: int| 0 <= k1 < k2 < r@.len() ==> r@[k1].pos != r@[k2].pos,
    {
        let sp_opt = self.cell_at(pos.0, pos.1);
        if sp_opt.is_none() {
            let r: Vec<PlacedPiece> = Vec::new();
            return r;
        }
        let sp = sp_opt.unwrap();
        let mut seen = make_unseen();
        let mut stack: Vec<(u8, u8)> = Vec::new();
        let mut out: Vec<PlacedPiece> = Vec::new();
        let si = grid_index(pos.0, pos.1);
        seen[si] = true;
        stack.push(pos);
        out.push(PlacedPiece { piece: sp, pos });
        proof {
            let g = self.grid();
            let sx = pos.0 as int;
            let sy = pos.1 as int;
            lemma_group_seed(g, sx, sy);
            assert(stack@[0] == pos);
            assert(out@[0].pos == pos);
            assert forall|x: int, y: int|
                in_bounds(x, y) && #[trigger] seen@[idx_of(x, y)] implies in_group(g, sx, sy, x, y)
                && out_has(out@, x, y) && stack_has(stack@, x, y) by {
                lemma_idx_of_range(x, y);
                lemma_idx_of_injective(x, y, sx, sy);
                assert(x == sx && y == sy);
                assert(out@[0].pos == ((x as u8, y as u8)));
                assert(stack@[0] == ((x as u8, y as u8)));
            }
        }
        while stack.len() > 0
            invariant
                self.wf(),
                in_bounds(pos.0 as int, pos.1 as int),
                cell(self.grid(), pos.0 as int, pos.1 as int) == Some(sp),
                bfs_core(self.grid(), pos.0 as int, pos.1 as int, seen@, stack@, out@),
                bfs_processed(self.grid(), seen@, stack@),
            decreases 361 - count_true(seen@), stack@.len(),
        {
            let ghost g = self.grid();
            let ghost sx = pos.0 as int;
            let ghost sy = pos.1 as int;
            let ghost st0 = stack@;
            let ghost sn0 = seen@;
            let p = stack.pop().unwrap();
            let ghost st1 = stack@;
            let ghost px = p.0 as int;
            let ghost py = p.1 as int;
            proof {
                assert(st0[st0.len() - 1] == p);
                assert(in_bounds(px, py) && sn0[idx_of(px, py)]);
                assert(in_group(g, sx, sy, px, py));
                lemma_count_true_le_len(sn0);
            }
            let ghost sn_a = seen@;
            let ghost st_a = stack@;
            if p.1 < 18 {
                self.visit_neighbor(pos, sp, p, (p.0, p.1 + 1), &mut seen, &mut stack, &mut out);
            }
            let ghost sn_b = seen@;
            let ghost st_b = stack@;
            if p.1 > 0 {
                self.visit_neighbor(pos, sp, p, (p.0, p.1 - 1), &mut seen, &mut stack, &mut out);
            }
            let ghost sn_c = seen@;
            let ghost st_c = stack@;
            if p.0 > 0 {
                self.visit_neighbor(pos, sp, p, (p.0 - 1, p.1), &mut seen, &mut stack, &mut out);
            }
            let ghost sn_d = seen@;
            let ghost st_d = stack@;
            if p.0 < 18 {
                self.visit_neighbor(pos, sp, p, (p.0 + 1, p.1), &mut seen, &mut stack, &mut out);
            }
            proof {
                let sn4 = seen@;
                let st4 = stack@;
                // the grids and marks only grow across the four visits
                assert(forall|i: int| 0 <= i < 361 && sn_a[i] ==> sn_b[i]);
                assert(forall|i: int| 0 <= i < 361 && sn_b[i] ==> sn_c[i]);
                assert(forall|i: int| 0 <= i < 361 && sn_c[i] ==> sn_d[i]);
                assert(forall|i: int| 0 <= i < 361 && sn_d[i] ==> sn4[i]);
                assert(forall|i: int| 0 <= i < 361 && sn_a[i] ==> sn4[i]);
                // stack entries persist across pushes
                assert forall|x: int, y: int| stack_has(st1, x, y) implies stack_has(st4, x, y) by {
                    let k = choose|k: int|
                        0 <= k < st1.len() && #[trigger] st1[k] == ((x as u8, y as u8));
                    assert(st_b[k] == st1[k]);
                    assert(st_c[k] == st1[k]);
                    assert(st_d[k] == st1[k]);
                    assert(st4[k] == st1[k]);
                }
                // the popped cell now has every same-occupant neighbor marked
                assert(cell(g, px, py) == cell(g, sx, sy)) by {
                    lemma_group_member(g, sx, sy, px, py);
                }
                assert forall|nx: int, ny: int|
                    in_bounds(nx, ny) && adjacent(px, py, nx, ny) && cell(g, nx, ny) == cell(
                    g,
                    px,
                    py,
                ) implies #[trigger] sn4[idx_of(nx, ny)] by {
                    if nx == px && ny == py + 1 {
                        assert(sn_b[idx_of(nx, ny)]);
                    } else if nx == px && ny == py - 1 {
                        assert(sn_c[idx_of(nx, ny)]);
                    } else if nx == px - 1 && ny == py {
                        assert(sn_d[idx_of(nx, ny)]);
                    } else {
                        assert(nx == px + 1 && ny == py);
                        assert(sn4[idx_of(nx, ny)]);
                    }
                }
                assert(nbrs_seen(g, sn4, px, py));
                // every marked, unstacked cell still has its neighbors marked
                assert forall|x: int, y: int|
                    in_bounds(x, y) && #[trigger] sn4[idx_of(x, y)] && !stack_has(st4, x, y)
                    implies nbrs_seen(g, sn4, x, y) by {
                    if sn0[idx_of(x, y)] {
                        if x == px && y == py {
                            assert(nbrs_seen(g, sn4, x, y));
                        } else {
                            // it was not on the old stack either
                            assert(!stack_has(st0, x, y)) by {
                                if stack_has(st0, x, y) {
                                    let k = choose|k: int|
                                        0 <= k < st0.len() && #[trigger] st0[k] == ((
                                            x as u8,
                                            y as u8,
                                        ));
                                    if k < st0.len() - 1 {
                                        assert(st1[k] == st0[k]);
                                        assert(stack_has(st1, x, y));
                                        assert(stack_has(st4, x, y));
                                    } else {
                                        assert(st0[k] == p);
                                    }
                                }
                            }
                            assert(nbrs_seen(g, sn0, x, y));
                            assert forall|nx: int, ny: int|
                                in_bounds(nx, ny) && adjacent(x, y, nx, ny) && cell(g, nx, ny)
                                    == cell(g, x, y) implies #[trigger] sn4[idx_of(nx, ny)] by {
                                assert(sn0[idx_of(nx, ny)]);
                            }
                        }
                    } else {
                        // newly marked cells were pushed onto the stack
                        let i = idx_of(x, y);
                        if !sn_a[i] && sn_b[i] {
                            assert(st_b == st_a.push((p.0, (p.1 + 1) as u8)));
                            lemma_idx_of_injective(x, y, p.0 as int, p.1 as int + 1);
                            assert(st_b[st_b.len() - 1] == ((x as u8, y as u8)));
                            assert(stack_has(st_b, x, y));
                            let k = choose|k: int|
                                0 <= k < st_b.len() && #[trigger] st_b[k] == ((x as u8, y as u8));
                            assert(st_c[k] == st_b[k]);
                            assert(st_d[k] == st_b[k]);
                            assert(st4[k] == st_b[k]);
                            assert(stack_has(st4, x, y));
                        } else if !sn_b[i] && sn_c[i] {
                            assert(st_c == st_b.push((p.0, (p.1 - 1) as u8)));
                            lemma_idx_of_injective(x, y, p.0 as int, p.1 as int - 1);
                            assert(st_c[st_c.len() - 1] == ((x as u8, y as u8)));
                            let k = choose|k: int|
                                0 <= k < st_c.len() && #[trigger] st_c[k] == ((x as u8, y as u8));
                            assert(st_d[k] == st_c[k]);
                            assert(st4[k] == st_c[k]);
                            assert(stack_has(st4, x, y));
                        } else if !sn_c[i] && sn_d[i] {
                            assert(st_d == st_c.push(((p.0 - 1) as u8, p.1)));
                            lemma_idx_of_injective(x, y, p.0 as int - 1, p.1 as int);
                            assert(st_d[st_d.len() - 1] == ((x as u8, y as u8)));
                            let k = choose|k: int|
                                0 <= k < st_d.len() && #[trigger] st_d[k] == ((x as u8, y as u8));
                            assert(st4[k] == st_d[k]);
                            assert(stack_has(st4, x, y));
                        } else {
                            assert(!sn_d[i] && sn4[i]);
                            assert(st4 == st_d.push(((p.0 + 1) as u8, p.1)));
                            lemma_idx_of_injective(x, y, p.0 as int + 1, p.1 as int);
                            assert(st4[st4.len() - 1] == ((x as u8, y as u8)));
                            assert(stack_has(st4, x, y));
                        }
                        assert(false);
                    }
                }
                // termination: either a new cell was marked, or the stack shrank
                lemma_count_true_le_len(sn4);
                assert(count_true(sn4) - count_true(sn0) == st4.len() - st1.len());
            }
        }
        proof {
            let g = self.grid();
            let sx = pos.0 as int;
            let sy = pos.1 as int;
            assert(closed_under_group(g, seen@)) by {
                assert forall|x: int, y: int|
                    in_bounds(x, y) && #[trigger] seen@[idx_of(x, y)] implies nbrs_seen(
                    g,
                    seen@,
                    x,
                    y,
                ) by {
                    assert(!stack_has(stack@, x, y));
                }
            }
            assert forall|x: int, y: int| #[trigger] in_group(g, sx, sy, x, y) implies out_has(
                out@,
                x,
                y,
            ) by {
                lemma_group_in_closed(g, seen@, sx, sy, x, y);
                lemma_group_member(g, sx, sy, x, y);
            }
        }
        out
    }

    /// The set of empty cells orthogonally adjacent to pos: a single-cell
    /// helper, not group-aware.
    pub fn liberties(&self, pos: (u8, u8)) -> (r: Vec<(u8, u8)>)
        requires
            self.wf(),
            in_bounds(pos.0 as int, pos.1 as int),
        ensures
            forall|k: int|
                0 <= k < r@.len() ==> is_liberty_of_cell(
                    self.grid(),
                    pos.0 as int,
                    pos.1 as int,
                    (#[trigger] r@[k]).0 as int,
                    r@[k].1 as int,
                ),
            forall|lx: int, ly: int|
                #[trigger] is_liberty_of_cell(self.grid(), pos.0 as int, pos.1 as int, lx, ly)
                    ==> pos_listed(r@, lx, ly),
            forall|k1: int, k2: int| 0 <= k1 < k2 < r@.len() ==> r@[k1] != r@[k2],
    {
        let ghost g = self.grid();
        let ghost px = pos.0 as int;
        let ghost py = pos.1 as int;
        let mut r: Vec<(u8, u8)> = Vec::new();
        match self.classify_neighbor(pos, 0) {
            PieceAdjacency::Empty(q) => r.push(q),
            _ => {},
        }
        let ghost r0 = r@;
        match self.classify_neighbor(pos, 1) {
            PieceAdjacency::Empty(q) => r.push(q),
            _ => {},
        }
        let ghost r1 = r@;
        match self.classify_neighbor(pos, 2) {
            PieceAdjacency::Empty(q) => r.push(q),
            _ => {},
        }
        let ghost r2 = r@;
        match self.classify_neighbor(pos, 3) {
            PieceAdjacency::Empty(q) => r.push(q),
            _ => {},
        }
        proof {
            assert forall|lx: int, ly: int|
                #[trigger] is_liberty_of_cell(g, px, py, lx, ly) implies pos_listed(r@, lx, ly) by {
                if lx == px && ly == py + 1 {
                    assert(r0[r0.len() - 1] == ((lx as u8, ly as u8)));
                    assert(r@[r0.len() - 1] == r0[r0.len() - 1]);
                } else if lx == px && ly == py - 1 {
                    assert(r1[r1.len() - 1] == ((lx as u8, ly as u8)));
                    assert(r@[r1.len() - 1] == r1[r1.len() - 1]);
                } else if lx == px - 1 && ly == py {
                    assert(r2[r2.len() - 1] == ((lx as u8, ly as u8)));
                    assert(r@[r2.len() - 1] == r2[r2.len() - 1]);
                } else {
                    assert(lx == px + 1 && ly == py);
                    assert(r@[r@.len() - 1] == ((lx as u8, ly as u8)));
                }
            }
        }
        r
    }

    /// Adds the liberty q of group member fpos to libs if it is new.
    fn push_lib(&self, spos: (u8, u8), fpos: (u8, u8), q: (u8, u8), libs: &mut Vec<(u8, u8)>)
        requires
            self.wf(),
            in_bounds(q.0 as int, q.1 as int),
            in_group(self.grid(), spos.0 as int, spos.1 as int, fpos.0 as int, fpos.1 as int),
            is_liberty_of_cell(
                self.grid(),
                fpos.0 as int,
                fpos.1 as int,
                q.0 as int,
                q.1 as int,
            ),
            forall|k: int|
                0 <= k < old(libs)@.len() ==> is_group_liberty(
                    self.grid(),
                    spos.0 as int,
                    spos.1 as int,
                    (#[trigger] old(libs)@[k]).0 as int,
                    old(libs)@[k].1 as int,
                ),
            forall|k1: int, k2: int|
                0 <= k1 < k2 < old(libs)@.len() ==> old(libs)@[k1] != old(libs)@[k2],
        ensures
            forall|k: int|
                0 <= k < final(libs)@.len() ==> is_group_liberty(
                    self.grid(),
                    spos.0 as int,
                    spos.1 as int,
                    (#[trigger] final(libs)@[k]).0 as int,
                    final(libs)@[k].1 as int,
                ),
            forall|k1: int, k2: int|
                0 <= k1 < k2 < final(libs)@.len() ==> final(libs)@[k1] != final(libs)@[k2],
            pos_listed(final(libs)@, q.0 as int, q.1 as int),
            forall|lx: int, ly: int|
                pos_listed(old(libs)@, lx, ly) ==> pos_listed(final(libs)@, lx, ly),
    {
        let ghost libs0 = libs@;
        if !pos_vec_contains(libs, q) {
            libs.push(q);
            proof {
                let g = self.grid();
                let sx = spos.0 as int;
                let sy = spos.1 as int;
                assert(is_group_liberty(g, sx, sy, q.0 as int, q.1 as int)) by {
                    assert(in_group(g, sx, sy, fpos.0 as int, fpos.1 as int) && is_liberty_of_cell(
                        g,
                        fpos.0 as int,
                        fpos.1 as int,
                        q.0 as int,
                        q.1 as int,
                    ));
                }
                assert(libs@[libs@.len() - 1] == q);
                assert forall|k1: int, k2: int|
                    0 <= k1 < k2 < libs@.len() implies libs@[k1] != libs@[k2] by {
                    if k2 == libs@.len() - 1 {
                        assert(libs@[k1] == libs0[k1]);
                        if libs0[k1] == q {
                            assert(pos_listed(libs0, q.0 as int, q.1 as int));
                        }
                    } else {
                        assert(libs@[k1] == libs0[k1] && libs@[k2] == libs0[k2]);
                    }
                }
                assert forall|lx: int, ly: int|
                    pos_listed(libs0, lx, ly) implies pos_listed(libs@, lx, ly) by {
                    lemma_pos_listed_push(libs0, q, lx, ly);
                }
            }
        }
    }

    /// The liberties of the whole group seeded at pos: the union of the
    /// liberties of its members. Empty seed: empty result.
    pub fn liberties_shape(&self, pos: (u8, u8)) -> (r: Vec<(u8, u8)>)
        requires
            self.wf(),
            in_bounds(pos.0 as int, pos.1 as int),
        ensures
            forall|k: int|
                0 <= k < r@.len() ==> is_group_liberty(
                    self.grid(),
                    pos.0 as int,
                    pos.1 as int,
                    (#[trigger] r@[k]).0 as int,
                    r@[k].1 as int,
                ),
            forall|lx: int, ly: int|
                #[trigger] is_group_liberty(self.grid(), pos.0 as int, pos.1 as int, lx, ly)
                    ==> pos_listed(r@, lx, ly),
            forall|k1: int, k2: int| 0 <= k1 < k2 < r@.len() ==> r@[k1] != r@[k2],
    {
        let ghost g = self.grid();
        let ghost sx = pos.0 as int;
        let ghost sy = pos.1 as int;
        let members = self.shape(pos);
        let mut libs: Vec<(u8, u8)> = Vec::new();
        let mut i: usize = 0;
        while i < members.len()
            invariant
                self.wf(),
                g == self.grid(),
                sx == pos.0 as int,
                sy == pos.1 as int,
                in_bounds(sx, sy),
                i <= members@.len(),
                forall|k: int|
                    0 <= k < members@.len() ==> {
                        let p = #[trigger] members@[k];
                        &&& in_group(g, sx, sy, p.pos.0 as int, p.pos.1 as int)
                        &&& cell(g, p.pos.0 as int, p.pos.1 as int) == Some(p.piece)
                    },
                forall|x: int, y: int|
                    #[trigger] in_group(g, sx, sy, x, y) ==> out_has(members@, x, y),
                forall|k: int|
                    0 <= k < libs@.len() ==> is_group_liberty(
                        g,
                        sx,
                        sy,
                        (#[trigger] libs@[k]).0 as int,
                        libs@[k].1 as int,
                    ),
                forall|k1: int, k2: int| 0 <= k1 < k2 < libs@.len() ==> libs@[k1] != libs@[k2],
                forall|j: int, lx: int, ly: int|
                    0 <= j < i && #[trigger] is_liberty_of_cell(
                        g,
                        members@[j].pos.0 as int,
                        members@[j].pos.1 as int,
                        lx,
                        ly,
                    ) ==> pos_listed(libs@, lx, ly),
            decreases members@.len() - i,
        {
            let mp = members[i].pos;
            let ghost mx = mp.0 as int;
            let ghost my = mp.1 as int;
            proof {
                assert(members@[i as int].pos == mp);
                lemma_group_member(g, sx, sy, mx, my);
            }
            match self.classify_neighbor(mp, 0) {
                PieceAdjacency::Empty(q) => self.push_lib(pos, mp, q, &mut libs),
                _ => {},
            }
            let ghost la = libs@;
            match self.classify_neighbor(mp, 1) {
                PieceAdjacency::Empty(q) => self.push_lib(pos, mp, q, &mut libs),
                _ => {},
            }
            let ghost lb = libs@;
            match self.classify_neighbor(mp, 2) {
                PieceAdjacency::Empty(q) => self.push_lib(pos, mp, q, &mut libs),
                _ => {},
            }
            let ghost lc = libs@;
            match self.classify_neighbor(mp, 3) {
                PieceAdjacency::Empty(q) => self.push_lib(pos, mp, q, &mut libs),
                _ => {},
            }
            proof {
                assert forall|j: int, lx: int, ly: int|
                    0 <= j < i + 1 && #[trigger] is_liberty_of_cell(
                        g,
                        members@[j].pos.0 as int,
                        members@[j].pos.1 as int,
                        lx,
                        ly,
                    ) implies pos_listed(libs@, lx, ly) by {
                    if j < i {
                        assert(pos_listed(la, lx, ly) || pos_listed(libs@, lx, ly));
                    } else {
                        if lx == mx && ly == my + 1 {
                            assert(pos_listed(la, lx, ly));
                        } else if lx == mx && ly == my - 1 {
                            assert(pos_listed(lb, lx, ly));
                        } else if lx == mx - 1 && ly == my {
                            assert(pos_listed(lc, lx, ly));
                        } else {
                            assert(lx == mx + 1 && ly == my);
                            assert(pos_listed(libs@, lx, ly));
                        }
                    }
                }
            }
            i = i + 1;
        }
        proof {
            assert forall|lx: int, ly: int|
                #[trigger] is_group_liberty(g, sx, sy, lx, ly) implies pos_listed(libs@, lx, ly) by {
                let (x, y): (int, int) = choose|x: int, y: int|
                    #[trigger] in_group(g, sx, sy, x, y) && is_liberty_of_cell(g, x, y, lx, ly);
                lemma_group_member(g, sx, sy, x, y);
                assert(out_has(members@, x, y));
                let k = choose|k: int|
                    0 <= k < members@.len() && (#[trigger] members@[k]).pos == ((x as u8, y as u8));
                assert(is_liberty_of_cell(
                    g,
                    members@[k].pos.0 as int,
                    members@[k].pos.1 as int,
                    lx,
                    ly,
                ));
            }
        }
        libs
    }

    /// Clears one cell.
    pub fn remove(&mut self, pos: (u8, u8))
        requires
            old(self).wf(),
            in_bounds(pos.0 as int, pos.1 as int),
        ensures
            final(self).wf(),
            final(self).grid() == old(self).grid().update(
                idx_of(pos.0 as int, pos.1 as int),
                None::<Piece>,
            ),
            final(self).ko_grid() == old(self).ko_grid(),
    {
        self.set_cell(pos.0, pos.1, None);
    }
}

impl Board {
    /// Clears the whole connected group seeded at pos, returning exactly
    /// the cleared positions. Stones outside the group are untouched.
    pub fn remove_shape(&mut self, pos: (u8, u8)) -> (r: Vec<(u8, u8)>)
        requires
            old(self).wf(),
            in_bounds(pos.0 as int, pos.1 as int),
        ensures
            final(self).wf(),
            final(self).grid() == remove_group_grid(
                old(self).grid(),
                pos.0 as int,
                pos.1 as int,
            ),
            final(self).ko_grid() == old(self).ko_grid(),
            forall|k: int|
                0 <= k < r@.len() ==> in_group(
                    old(self).grid(),
                    pos.0 as int,
                    pos.1 as int,
                    (#[trigger] r@[k]).0 as int,
                    r@[k].1 as int,
                ),
            forall|x: int, y: int|
                #[trigger] in_group(old(self).grid(), pos.0 as int, pos.1 as int, x, y)
                    ==> pos_listed(r@, x, y),
            forall|k1: int, k2: int| 0 <= k1 < k2 < r@.len() ==> r@[k1] != r@[k2],
    {
        let ghost g0 = self.grid();
        let ghost sx = pos.0 as int;
        let ghost sy = pos.1 as int;
        let members = self.shape(pos);
        let mut positions: Vec<(u8, u8)> = Vec::new();
        let mut i: usize = 0;
        while i < members.len()
            invariant
                i <= members@.len(),
                positions@.len() == i,
                forall|k: int| 0 <= k < i ==> positions@[k] == (#[trigger] members@[k]).pos,
            decreases members@.len() - i,
        {
            positions.push(members[i].pos);
            i = i + 1;
        }
        proof {
            // positions mirrors the group exactly
            assert forall|x: int, y: int| #[trigger] in_group(g0, sx, sy, x, y) implies pos_listed(
                positions@,
                x,
                y,
            ) by {
                assert(out_has(members@, x, y));
                let k = choose|k: int|
                    0 <= k < members@.len() && (#[trigger] members@[k]).pos == ((x as u8, y as u8));
                assert(positions@[k] == ((x as u8, y as u8)));
            }
            assert forall|k1: int, k2: int|
                0 <= k1 < k2 < positions@.len() implies positions@[k1] != positions@[k2] by {
                assert(members@[k1].pos != members@[k2].pos);
            }
            assert forall|k: int| 0 <= k < positions@.len() implies in_group(
                g0,
                sx,
                sy,
                (#[trigger] positions@[k]).0 as int,
                positions@[k].1 as int,
            ) by {
                assert(positions@[k] == members@[k].pos);
                let p = members@[k];
                assert(in_group(g0, sx, sy, p.pos.0 as int, p.pos.1 as int));
            }
        }
        let mut j: usize = 0;
        while j < positions.len()
            invariant
                self.wf(),
                grid_wf(g0),
                in_bounds(sx, sy),
                j <= positions@.len(),
                self.ko_grid() == old(self).ko_grid(),
                forall|k: int|
                    0 <= k < positions@.len() ==> in_group(
                        g0,
                        sx,
                        sy,
                        (#[trigger] positions@[k]).0 as int,
                        positions@[k].1 as int,
                    ),
                forall|x: int, y: int|
                    #[trigger] in_group(g0, sx, sy, x, y) ==> pos_listed(positions@, x, y),
                forall|x: int, y: int|
                    in_bounds(x, y) ==> #[trigger] cell(self.grid(), x, y) == (if pos_listed(
                        positions@.take(j as int),
                        x,
                        y,
                    ) {
                        None::<Piece>
                    } else {
                        cell(g0, x, y)
                    }),
            decreases positions@.len() - j,
        {
            let p = positions[j];
            let ghost gpre = self.grid();
            self.remove(p);
            proof {
                let jx = p.0 as int;
                let jy = p.1 as int;
                assert(in_group(g0, sx, sy, jx, jy));
                lemma_group_member(g0, sx, sy, jx, jy);
                assert forall|x: int, y: int|
                    in_bounds(x, y) implies #[trigger] cell(self.grid(), x, y) == (if pos_listed(
                    positions@.take(j as int + 1),
                    x,
                    y,
                ) {
                    None::<Piece>
                } else {
                    cell(g0, x, y)
                }) by {
                    lemma_idx_of_range(x, y);
                    lemma_idx_of_range(jx, jy);
                    lemma_pos_listed_take_step(positions@, j as int, x, y);
                    assert(cell(gpre, x, y) == (if pos_listed(positions@.take(j as int), x, y) {
                        None::<Piece>
                    } else {
                        cell(g0, x, y)
                    }));
                    assert(positions@[j as int] == p);
                    if idx_of(x, y) == idx_of(jx, jy) {
                        lemma_idx_of_injective(x, y, jx, jy);
                        assert(p == ((x as u8, y as u8)));
                        assert(pos_listed(positions@.take(j as int + 1), x, y));
                        assert(cell(self.grid(), x, y) is None);
                    } else {
                        assert(cell(self.grid(), x, y) == cell(gpre, x, y));
                        if positions@[j as int] == ((x as u8, y as u8)) {
                            assert(jx == x && jy == y);
                        }
                        assert(pos_listed(positions@.take(j as int + 1), x, y) == pos_listed(
                            positions@.take(j as int),
                            x,
                            y,
                        ));
                    }
                }
            }
            j = j + 1;
        }
        proof {
            assert(positions@.take(positions@.len() as int) =~= positions@);
            assert forall|x: int, y: int|
                in_bounds(x, y) implies #[trigger] cell(self.grid(), x, y) == cell(
                remove_group_grid(g0, sx, sy),
                x,
                y,
            ) by {
                lemma_remove_group_cell(g0, sx, sy, x, y);
                if in_group(g0, sx, sy, x, y) {
                    assert(pos_listed(positions@, x, y));
                } else {
                    if pos_listed(positions@, x, y) {
                        let k = choose|k: int|
                            0 <= k < positions@.len() && #[trigger] positions@[k] == ((
                                x as u8,
                                y as u8,
                            ));
                        assert(in_group(
                            g0,
                            sx,
                            sy,
                            positions@[k].0 as int,
                            positions@[k].1 as int,
                        ));
                    }
                }
            }
            assert forall|i2: int| 0 <= i2 < 361 implies self.grid()[i2] == remove_group_grid(
                g0,
                sx,
                sy,
            )[i2] by {
                let x = i2 / 19;
                let y = i2 % 19;
                assert(in_bounds(x, y));
                lemma_idx_of_range(x, y);
                assert(idx_of(x, y) == i2);
                assert(cell(self.grid(), x, y) == cell(remove_group_grid(g0, sx, sy), x, y));
            }
            assert(self.grid() =~= remove_group_grid(g0, sx, sy));
        }
        positions
    }
}

impl Clone for Board {
    /// A deep copy: both grids are equal, cell for cell, to the original's.
    fn clone(&self) -> (r: Self)
        ensures
            r.grid() == self.grid(),
            r.ko_grid() == self.ko_grid(),
    {
        Board { cells: copy_cells(&self.cells), ko_cells: copy_cells(&self.ko_cells) }
    }
}

/// Cell-for-cell comparison of two grids.
fn grids_equal(a: &Vec<Option<Piece>>, b: &Vec<Option<Piece>>) -> (r: bool)
    requires
        a@.len() == b@.len(),
    ensures
        r <==> a@ == b@,
{
    let mut i: usize = 0;
    while i < a.len()
        invariant
            a@.len() == b@.len(),
            i <= a@.len(),
            forall|k: int| 0 <= k < i ==> a@[k] == b@[k],
        decreases a@.len() - i,
    {
        let same = match (a[i], b[i]) {
            (None, None) => true,
            (Some(p), Some(q)) => p == q,
            _ => false,
        };
        if !same {
            proof {
                assert(a@[i as int] != b@[i as int]);
            }
            return false;
        }
        i = i + 1;
    }
    proof {
        assert(a@ =~= b@);
    }
    true
}

impl Board {
    /// Resolves the capture in direction d of the stone just placed by m:
    /// if that neighbor holds a libertyless opposite-colored group, the
    /// group is removed and its positions appended to caps. base is the
    /// grid right after the stone was placed; caps always lists exactly
    /// the cells cleared since then.
    fn capture_dir(
        &mut self,
        m: PlacedPiece,
        d: usize,
        caps: &mut Vec<(u8, u8)>,
        base: Ghost<Seq<Option<Piece>>>,
    )
        requires
            old(self).wf(),
            in_bounds(m.pos.0 as int, m.pos.1 as int),
            d < 4,
            grid_wf(base@),
            forall|x: int, y: int|
                in_bounds(x, y) ==> (#[trigger] cell(old(self).grid(), x, y) == cell(base@, x, y)
                    || cell(old(self).grid(), x, y) is None),
            forall|k: int|
                0 <= k < old(caps)@.len() ==> in_bounds(
                    (#[trigger] old(caps)@[k]).0 as int,
                    old(caps)@[k].1 as int,
                ),
            forall|k1: int, k2: int|
                0 <= k1 < k2 < old(caps)@.len() ==> old(caps)@[k1] != old(caps)@[k2],
            forall|x: int, y: int|
                in_bounds(x, y) ==> (pos_listed(old(caps)@, x, y) <==> (#[trigger] cell(
                    base@,
                    x,
                    y,
                ) is Some && cell(old(self).grid(), x, y) is None)),
        ensures
            final(self).wf(),
            final(self).grid() == capture_step(old(self).grid(), m, d as int),
            final(self).ko_grid() == old(self).ko_grid(),
            forall|x: int, y: int|
                in_bounds(x, y) ==> (#[trigger] cell(final(self).grid(), x, y) == cell(
                    base@,
                    x,
                    y,
                ) || cell(final(self).grid(), x, y) is None),
            forall|k: int|
                0 <= k < final(caps)@.len() ==> in_bounds(
                    (#[trigger] final(caps)@[k]).0 as int,
                    final(caps)@[k].1 as int,
                ),
            forall|k1: int, k2: int|
                0 <= k1 < k2 < final(caps)@.len() ==> final(caps)@[k1] != final(caps)@[k2],
            forall|x: int, y: int|
                in_bounds(x, y) ==> (pos_listed(final(caps)@, x, y) <==> (#[trigger] cell(
                    base@,
                    x,
                    y,
                ) is Some && cell(final(self).grid(), x, y) is None)),
    {
        let ghost gpre = self.grid();
        let ghost nx = m.pos.0 as int + dir_dx(d as int);
        let ghost ny = m.pos.1 as int + dir_dy(d as int);
        let nbr_opt: Option<(u8, u8)> = if d == 0 {
            if m.pos.1 < 18 {
                Some((m.pos.0, m.pos.1 + 1))
            } else {
                None
            }
        } else if d == 1 {
            if m.pos.1 > 0 {
                Some((m.pos.0, m.pos.1 - 1))
            } else {
                None
            }
        } else if d == 2 {
            if m.pos.0 > 0 {
                Some((m.pos.0 - 1, m.pos.1))
            } else {
                None
            }
        } else {
            if m.pos.0 < 18 {
                Some((m.pos.0 + 1, m.pos.1))
            } else {
                None
            }
        };
        match nbr_opt {
            None => {
                proof {
                    assert(!in_bounds(nx, ny));
                    assert(capture_step(gpre, m, d as int) == gpre);
                }
            },
            Some(q) => {
                proof {
                    assert(q.0 as int == nx && q.1 as int == ny);
                }
                let copp = m.piece.color.opposite();
                let do_capture: bool = match self.cell_at(q.0, q.1) {
                    Some(p) => {
                        if p.color == copp {
                            let libs = self.liberties_shape(q);
                            if libs.len() == 0 {
                                proof {
                                    if group_has_liberty(gpre, nx, ny) {
                                        let (lx, ly): (int, int) = choose|lx: int, ly: int|
                                            #[trigger] is_group_liberty(gpre, nx, ny, lx, ly);
                                        assert(pos_listed(libs@, lx, ly));
                                        let k = choose|k: int|
                                            0 <= k < libs@.len() && #[trigger] libs@[k] == ((
                                                lx as u8,
                                                ly as u8,
                                            ));
                                        assert(false);
                                    }
                                    assert(p == (Piece { color: p.color }));
                                    assert(captured_opponent_at(gpre, m, nx, ny));
                                }
                                true
                            } else {
                                proof {
                                    assert(is_group_liberty(
                                        gpre,
                                        nx,
                                        ny,
                                        libs@[0].0 as int,
                                        libs@[0].1 as int,
                                    ));
                                    assert(group_has_liberty(gpre, nx, ny));
                                }
                                false
                            }
                        } else {
                            proof {
                                assert(cell(gpre, nx, ny) != Some(
                                    Piece { color: opposite_color(m.piece.color) },
                                ));
                            }
                            false
                        }
                    },
                    None => {
                        proof {
                            assert(!captured_opponent_at(gpre, m, nx, ny));
                        }
                        false
                    },
                };
                if do_capture {
                    let ghost caps0 = caps@;
                    let mut removed = self.remove_shape(q);
                    let ghost rem = removed@;
                    caps.append(&mut removed);
                    proof {
                        assert(capture_step(gpre, m, d as int) == remove_group_grid(gpre, nx, ny));
                        assert(caps@ == caps0 + rem);
                        let gnew = self.grid();
                        assert forall|x: int, y: int| in_bounds(x, y) implies (#[trigger] cell(
                            gnew,
                            x,
                            y,
                        ) == cell(base@, x, y) || cell(gnew, x, y) is None) by {
                            lemma_remove_group_cell(gpre, nx, ny, x, y);
                            assert(cell(gpre, x, y) == cell(base@, x, y) || cell(gpre, x, y)
                                is None);
                        }
                        assert forall|k: int| 0 <= k < caps@.len() implies in_bounds(
                            (#[trigger] caps@[k]).0 as int,
                            caps@[k].1 as int,
                        ) by {
                            if k < caps0.len() {
                                assert(caps@[k] == caps0[k]);
                            } else {
                                assert(caps@[k] == rem[k - caps0.len()]);
                                let e = rem[k - caps0.len()];
                                assert(in_group(gpre, nx, ny, e.0 as int, e.1 as int));
                                lemma_group_member(gpre, nx, ny, e.0 as int, e.1 as int);
                            }
                        }
                        assert forall|k1: int, k2: int|
                            0 <= k1 < k2 < caps@.len() implies caps@[k1] != caps@[k2] by {
                            if k1 < caps0.len() && k2 < caps0.len() {
                                assert(caps@[k1] == caps0[k1] && caps@[k2] == caps0[k2]);
                            } else if k1 >= caps0.len() && k2 >= caps0.len() {
                                assert(caps@[k1] == rem[k1 - caps0.len()] && caps@[k2] == rem[k2
                                    - caps0.len()]);
                            } else {
                                assert(caps@[k1] == caps0[k1] && caps@[k2] == rem[k2 - caps0.len()]);
                                let e1 = caps0[k1];
                                let e2 = rem[k2 - caps0.len()];
                                if e1 == e2 {
                                    assert(caps0[k1] == ((e1.0 as int as u8, e1.1 as int as u8)));
                                    assert(pos_listed(caps0, e1.0 as int, e1.1 as int));
                                    assert(cell(gpre, e1.0 as int, e1.1 as int) is None);
                                    assert(in_group(gpre, nx, ny, e2.0 as int, e2.1 as int));
                                    lemma_group_member(gpre, nx, ny, e2.0 as int, e2.1 as int);
                                }
                            }
                        }
                        assert forall|x: int, y: int| in_bounds(x, y) implies (pos_listed(
                            caps@,
                            x,
                            y,
                        ) <==> (#[trigger] cell(base@, x, y) is Some && cell(gnew, x, y)
                            is None)) by {
                            lemma_pos_listed_add(caps0, rem, x, y);
                            lemma_remove_group_cell(gpre, nx, ny, x, y);
                            assert(cell(gpre, x, y) == cell(base@, x, y) || cell(gpre, x, y)
                                is None);
                            if pos_listed(caps0, x, y) {
                                assert(cell(base@, x, y) is Some && cell(gpre, x, y) is None);
                            }
                            if pos_listed(rem, x, y) {
                                let k = choose|k: int|
                                    0 <= k < rem.len() && #[trigger] rem[k] == ((x as u8, y as u8));
                                assert(in_group(gpre, nx, ny, rem[k].0 as int, rem[k].1 as int));
                                assert(in_group(gpre, nx, ny, x, y));
                                lemma_group_member(gpre, nx, ny, x, y);
                                assert(cell(gpre, x, y) is Some);
                            }
                            if cell(base@, x, y) is Some && cell(gnew, x, y) is None {
                                if cell(gpre, x, y) is None {
                                    assert(pos_listed(caps0, x, y));
                                } else {
                                    assert(in_group(gpre, nx, ny, x, y));
                                    assert(pos_listed(rem, x, y));
                                }
                            }
                        }
                    }
                } else {
                    proof {
                        assert(capture_step(gpre, m, d as int) == gpre);
                    }
                }
            },
        }
    }

    /// Checks whether move m is legal on this board, without changing any
    /// stored state. Checks run in this order: the target must be empty;
    /// after speculative placement and capture resolution the grid must
    /// not recreate the ko snapshot; and the played group must end with at
    /// least one liberty.
    pub fn valid_move(&self, m: PlacedPiece) -> (r: Result<(), BadukError>)
        requires
            self.wf(),
            in_bounds(m.pos.0 as int, m.pos.1 as int),
        ensures
            (match move_error(self.grid(), self.ko_grid(), m) {
                None => r is Ok,
                Some(e) => r == Err::<(), BadukError>(BadukError::InvalidMove { source: e }),
            }),
    {
        let ghost g0 = self.grid();
        if self.get_color(m.pos).is_some() {
            return Err(BadukError::InvalidMove { source: InvalidMoveError::AlreadyOccupied });
        }
        let mut future = self.clone();
        future.set(m);
        let ghost g1 = future.grid();
        let mut caps: Vec<(u8, u8)> = Vec::new();
        future.capture_dir(m, 0, &mut caps, Ghost(g1));
        future.capture_dir(m, 1, &mut caps, Ghost(g1));
        future.capture_dir(m, 2, &mut caps, Ghost(g1));
        future.capture_dir(m, 3, &mut caps, Ghost(g1));
        proof {
            assert(future.grid() == grid_after_move(g0, m));
        }
        if grids_equal(&future.cells, &self.ko_cells) {
            return Err(BadukError::InvalidMove { source: InvalidMoveError::Ko });
        }
        let libs = future.liberties_shape(m.pos);
        let mx = m.pos.0;
        let my = m.pos.1;
        if libs.len() == 0 {
            proof {
                if group_has_liberty(future.grid(), mx as int, my as int) {
                    let (lx, ly): (int, int) = choose|lx: int, ly: int|
                        #[trigger] is_group_liberty(future.grid(), mx as int, my as int, lx, ly);
                    assert(pos_listed(libs@, lx, ly));
                    let k = choose|k: int|
                        0 <= k < libs@.len() && #[trigger] libs@[k] == ((lx as u8, ly as u8));
                    assert(false);
                }
            }
            return Err(BadukError::InvalidMove { source: InvalidMoveError::SelfCapture });
        }
        proof {
            assert(is_group_liberty(
                future.grid(),
                mx as int,
                my as int,
                libs@[0].0 as int,
                libs@[0].1 as int,
            ));
            assert(group_has_liberty(future.grid(), mx as int, my as int));
        }
        Ok(())
    }

    /// Commits move m: re-checks legality, snapshots the grid for ko,
    /// places the stone, and removes every captured opposite-colored
    /// group. On failure the board is unchanged and the failure is
    /// returned; on success the placed stone and the set of captured
    /// positions are returned.
    pub fn do_move(&mut self, m: PlacedPiece) -> (r: Result<MoveResult, BadukError>)
        requires
            old(self).wf(),
            in_bounds(m.pos.0 as int, m.pos.1 as int),
        ensures
            final(self).wf(),
            (match move_error(old(self).grid(), old(self).ko_grid(), m) {
                Some(e) => {
                    &&& final(self).grid() == old(self).grid()
                    &&& final(self).ko_grid() == old(self).ko_grid()
                    &&& r == Err::<MoveResult, BadukError>(BadukError::InvalidMove { source: e })
                },
                None => {
                    &&& final(self).grid() == grid_after_move(old(self).grid(), m)
                    &&& final(self).ko_grid() == old(self).grid()
                    &&& (r matches Ok(res) && res.0 == m && caps_exact(
                        res.1@,
                        place(old(self).grid(), m),
                        final(self).grid(),
                    ))
                },
            }),
    {
        match self.valid_move(m) {
            Err(e) => Err(e),
            Ok(_) => {
                let ghost g0 = self.grid();
                self.ko_cells = copy_cells(&self.cells);
                self.set(m);
                let ghost g1 = self.grid();
                let mut caps: Vec<(u8, u8)> = Vec::new();
                self.capture_dir(m, 0, &mut caps, Ghost(g1));
                self.capture_dir(m, 1, &mut caps, Ghost(g1));
                self.capture_dir(m, 2, &mut caps, Ghost(g1));
                self.capture_dir(m, 3, &mut caps, Ghost(g1));
                proof {
                    assert(self.grid() == grid_after_move(g0, m));
                }
                Ok((m, caps))
            },
        }
    }
}

impl Board {
    /// Applies the moves in order, stopping at and returning the first
    /// failure; moves before the failure stay applied.
    pub fn do_moves(&mut self, moves: Vec<PlacedPiece>) -> (r: Result<(), BadukError>)
        requires
            old(self).wf(),
            forall|k: int|
                0 <= k < moves@.len() ==> in_bounds(
                    (#[trigger] moves@[k]).pos.0 as int,
                    moves@[k].pos.1 as int,
                ),
        ensures
            final(self).wf(),
            final(self).grid() == board_run_from(
                old(self).grid(),
                old(self).ko_grid(),
                moves@,
                0,
            ).0,
            final(self).ko_grid() == board_run_from(
                old(self).grid(),
                old(self).ko_grid(),
                moves@,
                0,
            ).1,
            (match board_run_from(old(self).grid(), old(self).ko_grid(), moves@, 0).2 {
                None => r is Ok,
                Some(e) => r == Err::<(), BadukError>(BadukError::InvalidMove { source: e }),
            }),
    {
        let mut i: usize = 0;
        while i < moves.len()
            invariant
                self.wf(),
                i <= moves@.len(),
                forall|k: int|
                    0 <= k < moves@.len() ==> in_bounds(
                        (#[trigger] moves@[k]).pos.0 as int,
                        moves@[k].pos.1 as int,
                    ),
                board_run_from(old(self).grid(), old(self).ko_grid(), moves@, 0)
                    == board_run_from(self.grid(), self.ko_grid(), moves@, i as int),
            decreases moves@.len() - i,
        {
            match self.do_move(moves[i]) {
                Err(e) => {
                    return Err(e);
                },
                Ok(_) => {},
            }
            i = i + 1;
        }
        Ok(())
    }

    /// Like `do_moves`, but building each move from a (color, x, y)
    /// triple.
    pub fn do_moves_builder(&mut self, moves: Vec<(PieceColor, u8, u8)>) -> (r: Result<
        (),
        BadukError,
    >)
        requires
            old(self).wf(),
            forall|k: int|
                0 <= k < moves@.len() ==> in_bounds(
                    (#[trigger] moves@[k]).1 as int,
                    moves@[k].2 as int,
                ),
        ensures
            final(self).wf(),
            final(self).grid() == board_run_from(
                old(self).grid(),
                old(self).ko_grid(),
                builder_moves(moves@),
                0,
            ).0,
            final(self).ko_grid() == board_run_from(
                old(self).grid(),
                old(self).ko_grid(),
                builder_moves(moves@),
                0,
            ).1,
            (match board_run_from(
                old(self).grid(),
                old(self).ko_grid(),
                builder_moves(moves@),
                0,
            ).2 {
                None => r is Ok,
                Some(e) => r == Err::<(), BadukError>(BadukError::InvalidMove { source: e }),
            }),
    {
        let ghost ms = builder_moves(moves@);
        let mut i: usize = 0;
        while i < moves.len()
            invariant
                self.wf(),
                i <= moves@.len(),
                ms == builder_moves(moves@),
                forall|k: int|
                    0 <= k < moves@.len() ==> in_bounds(
                        (#[trigger] moves@[k]).1 as int,
                        moves@[k].2 as int,
                    ),
                board_run_from(old(self).grid(), old(self).ko_grid(), ms, 0) == board_run_from(
                    self.grid(),
                    self.ko_grid(),
                    ms,
                    i as int,
                ),
            decreases moves@.len() - i,
        {
            let (color, x, y) = moves[i];
            let m = PlacedPiece { piece: Piece { color }, pos: (x, y) };
            proof {
                assert(ms[i as int] == m);
            }
            match self.do_move(m) {
                Err(e) => {
                    return Err(e);
                },
                Ok(_) => {},
            }
            i = i + 1;
        }
        Ok(())
    }

    /// How many stones of the given color are on the board.
    pub fn num_pieces(&self, color: PieceColor) -> (r: u16)
        requires
            self.wf(),
        ensures
            r as int == count_color(self.grid(), color),
    {
        let mut count: u16 = 0;
        let mut i: usize = 0;
        while i < 361
            invariant
                self.wf(),
                i <= 361,
                count as int == count_color(self.grid().take(i as int), color),
                count <= i,
            decreases 361 - i,
        {
            proof {
                lemma_count_color_take_step(self.grid(), color, i as int);
                lemma_count_color_le_len(self.grid().take(i as int), color);
            }
            match self.cells[i] {
                Some(p) => {
                    if p.color == color {
                        count = count + 1;
                    }
                },
                None => {},
            }
            i = i + 1;
        }
        proof {
            assert(self.grid().take(361) =~= self.grid());
        }
        count
    }

    /// How many stones of either color are on the board.
    pub fn num_pieces_all(&self) -> (r: u16)
        requires
            self.wf(),
        ensures
            r as int == count_occupied(self.grid()),
    {
        let mut count: u16 = 0;
        let mut i: usize = 0;
        while i < 361
            invariant
                self.wf(),
                i <= 361,
                count as int == count_occupied(self.grid().take(i as int)),
                count <= i,
            decreases 361 - i,
        {
            proof {
                lemma_count_occupied_take_step(self.grid(), i as int);
                lemma_count_occupied_le_len(self.grid().take(i as int));
            }
            if self.cells[i].is_some() {
                count = count + 1;
            }
            i = i + 1;
        }
        proof {
            assert(self.grid().take(361) =~= self.grid());
        }
        count
    }

    /// Every stone on the board with its position, scanned row-major.
    pub fn all_pieces(&self) -> (r: Vec<PlacedPiece>)
        requires
            self.wf(),
        ensures
            forall|k: int|
                0 <= k < r@.len() ==> {
                    let p = #[trigger] r@[k];
                    &&& in_bounds(p.pos.0 as int, p.pos.1 as int)
                    &&& cell(self.grid(), p.pos.0 as int, p.pos.1 as int) == Some(p.piece)
                },
            forall|x: int, y: int|
                in_bounds(x, y) && #[trigger] cell(self.grid(), x, y) is Some ==> out_has(
                    r@,
                    x,
                    y,
                ),
            forall|k1: int, k2: int|
                0 <= k1 < k2 < r@.len() ==> idx_of(
                    (#[trigger] r@[k1]).pos.0 as int,
                    r@[k1].pos.1 as int,
                ) < idx_of((#[trigger] r@[k2]).pos.0 as int, r@[k2].pos.1 as int),
            forall|k1: int, k2: int| 0 <= k1 < k2 < r@.len() ==> r@[k1].pos != r@[k2].pos,
    {
        let mut r: Vec<PlacedPiece> = Vec::new();
        let mut x: u8 = 0;
        while x < 19
            invariant
                self.wf(),
                x <= 19,
                forall|k: int|
                    0 <= k < r@.len() ==> idx_of(
                        (#[trigger] r@[k]).pos.0 as int,
                        r@[k].pos.1 as int,
                    ) < x * 19,
                forall|k1: int, k2: int|
                    0 <= k1 < k2 < r@.len() ==> idx_of(
                        (#[trigger] r@[k1]).pos.0 as int,
                        r@[k1].pos.1 as int,
                    ) < idx_of((#[trigger] r@[k2]).pos.0 as int, r@[k2].pos.1 as int),
                forall|k: int|
                    0 <= k < r@.len() ==> {
                        let p = #[trigger] r@[k];
                        &&& in_bounds(p.pos.0 as int, p.pos.1 as int)
                        &&& p.pos.0 < x
                        &&& cell(self.grid(), p.pos.0 as int, p.pos.1 as int) == Some(p.piece)
                    },
                forall|x2: int, y2: int|
                    in_bounds(x2, y2) && x2 < x && #[trigger] cell(self.grid(), x2, y2) is Some
                        ==> out_has(r@, x2, y2),
                forall|k1: int, k2: int| 0 <= k1 < k2 < r@.len() ==> r@[k1].pos != r@[k2].pos,
            decreases 19 - x,
        {
            let mut y: u8 = 0;
            while y < 19
                invariant
                    self.wf(),
                    x < 19,
                    y <= 19,
                    forall|k: int|
                        0 <= k < r@.len() ==> idx_of(
                            (#[trigger] r@[k]).pos.0 as int,
                            r@[k].pos.1 as int,
                        ) < x * 19 + y,
                    forall|k1: int, k2: int|
                        0 <= k1 < k2 < r@.len() ==> idx_of(
                            (#[trigger] r@[k1]).pos.0 as int,
                            r@[k1].pos.1 as int,
                        ) < idx_of((#[trigger] r@[k2]).pos.0 as int, r@[k2].pos.1 as int),
                    forall|k: int|
                        0 <= k < r@.len() ==> {
                            let p = #[trigger] r@[k];
                            &&& in_bounds(p.pos.0 as int, p.pos.1 as int)
                            &&& (p.pos.0 < x || (p.pos.0 == x && p.pos.1 < y))
                            &&& cell(self.grid(), p.pos.0 as int, p.pos.1 as int) == Some(p.piece)
                        },
                    forall|x2: int, y2: int|
                        in_bounds(x2, y2) && (x2 < x || (x2 == x && y2 < y)) && #[trigger] cell(
                            self.grid(),
                            x2,
                            y2,
                        ) is Some ==> out_has(r@, x2, y2),
                    forall|k1: int, k2: int| 0 <= k1 < k2 < r@.len() ==> r@[k1].pos != r@[k2].pos,
                decreases 19 - y,
            {
                let ghost r0 = r@;
                match self.cell_at(x, y) {
                    Some(piece) => {
                        r.push(PlacedPiece { piece, pos: (x, y) });
                        proof {
                            assert(r@[r@.len() - 1].pos == (x, y));
                            assert forall|x2: int, y2: int|
                                in_bounds(x2, y2) && (x2 < x || (x2 == x as int && y2 < y + 1))
                                    && #[trigger] cell(self.grid(), x2, y2) is Some implies out_has(
                                r@,
                                x2,
                                y2,
                            ) by {
                                if x2 == x as int && y2 == y as int {
                                    assert(r@[r@.len() - 1].pos == ((x2 as u8, y2 as u8)));
                                } else {
                                    assert(out_has(r0, x2, y2));
                                    let k = choose|k: int|
                                        0 <= k < r0.len() && (#[trigger] r0[k]).pos == ((
                                            x2 as u8,
                                            y2 as u8,
                                        ));
                                    assert(r@[k] == r0[k]);
                                }
                            }
                        }
                    },
                    None => {
                        proof {
                            assert forall|x2: int, y2: int|
                                in_bounds(x2, y2) && (x2 < x || (x2 == x as int && y2 < y + 1))
                                    && #[trigger] cell(self.grid(), x2, y2) is Some implies out_has(
                                r@,
                                x2,
                                y2,
                            ) by {
                                if !(x2 == x as int && y2 == y as int) {
                                    assert(out_has(r0, x2, y2));
                                }
                            }
                        }
                    },
                }
                y = y + 1;
            }
            x = x + 1;
        }
        r
    }
}

} // verus!
