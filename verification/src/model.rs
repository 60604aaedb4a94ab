//! The mathematical model of the board: grids as sequences of 361 cells,
//! adjacency, connected groups, liberties, and the effect of a move.
//! Every executable operation of the engine is specified against these
//! functions.

use vstd::prelude::*;
use crate::piece::{Piece, PieceAdjacency, PieceColor, PlacedPiece, opposite_color};
use crate::error::InvalidMoveError;

verus! {

/// Both coordinates of a position must lie in [0, 18].
pub open spec fn in_bounds(x: int, y: int) -> bool {
    0 <= x <= 18 && 0 <= y <= 18
}

/// A grid is stored row-major: the cell at (x, y) lives at index x * 19 + y.
pub open spec fn idx_of(x: int, y: int) -> int {
    x * 19 + y
}

/// A well-formed grid has exactly 19 * 19 cells.
pub open spec fn grid_wf(g: Seq<Option<Piece>>) -> bool {
    g.len() == 361
}

/// The occupant of cell (x, y).
pub open spec fn cell(g: Seq<Option<Piece>>, x: int, y: int) -> Option<Piece> {
    g[idx_of(x, y)]
}

/// The grid with no stones on it.
pub open spec fn empty_grid() -> Seq<Option<Piece>> {
    Seq::new(361, |i: int| None::<Piece>)
}

/// Orthogonal (4-way) adjacency of two positions.
pub open spec fn adjacent(x1: int, y1: int, x2: int, y2: int) -> bool {
    ||| (x1 == x2 && (y2 == y1 + 1 || y2 == y1 - 1))
    ||| (y1 == y2 && (x2 == x1 + 1 || x2 == x1 - 1))
}

/// Cell indices of in-bounds positions determine the position.
pub proof fn lemma_idx_of_injective(x1: int, y1: int, x2: int, y2: int)
    requires
        in_bounds(x1, y1),
        in_bounds(x2, y2),
        idx_of(x1, y1) == idx_of(x2, y2),
    ensures
        x1 == x2 && y1 == y2,
{
}

/// The cell index of an in-bounds position lies in [0, 361).
pub proof fn lemma_idx_of_range(x: int, y: int)
    requires
        in_bounds(x, y),
    ensures
        0 <= idx_of(x, y) < 361,
        idx_of(x, y) / 19 == x,
        idx_of(x, y) % 19 == y,
{
}

/// A chain is a nonempty sequence of in-bounds positions, each holding the
/// same occupant as the first, with consecutive entries orthogonally
/// adjacent.
pub open spec fn is_chain(g: Seq<Option<Piece>>, path: Seq<(int, int)>) -> bool {
    &&& path.len() >= 1
    &&& (forall|i: int| 0 <= i < path.len() ==> in_bounds((#[trigger] path[i]).0, path[i].1))
    &&& (forall|i: int|
        0 <= i < path.len() ==> cell(g, (#[trigger] path[i]).0, path[i].1) == cell(
            g,
            path[0].0,
            path[0].1,
        ))
    &&& (forall|i: int|
        0 <= i < path.len() - 1 ==> adjacent(
            (#[trigger] path[i]).0,
            path[i].1,
            path[i + 1].0,
            path[i + 1].1,
        ))
}

/// (x, y) can be reached from (sx, sy) through a chain of equal occupants.
pub open spec fn connected(g: Seq<Option<Piece>>, sx: int, sy: int, x: int, y: int) -> bool {
    exists|path: Seq<(int, int)>|
        {
            &&& #[trigger] is_chain(g, path)
            &&& path[0] == (sx, sy)
            &&& path[path.len() - 1] == (x, y)
        }
}

/// (x, y) belongs to the group seeded at (sx, sy): the maximal set of
/// same-colored stones mutually reachable by 4-adjacency. Empty cells seed
/// no group.
pub open spec fn in_group(g: Seq<Option<Piece>>, sx: int, sy: int, x: int, y: int) -> bool {
    &&& in_bounds(sx, sy)
    &&& cell(g, sx, sy) is Some
    &&& connected(g, sx, sy, x, y)
}

/// (lx, ly) is an empty in-bounds cell orthogonally adjacent to (x, y).
pub open spec fn is_liberty_of_cell(
    g: Seq<Option<Piece>>,
    x: int,
    y: int,
    lx: int,
    ly: int,
) -> bool {
    &&& in_bounds(lx, ly)
    &&& adjacent(x, y, lx, ly)
    &&& cell(g, lx, ly) is None
}

/// (lx, ly) is a liberty of the group seeded at (sx, sy).
pub open spec fn is_group_liberty(
    g: Seq<Option<Piece>>,
    sx: int,
    sy: int,
    lx: int,
    ly: int,
) -> bool {
    exists|x: int, y: int|
        #[trigger] in_group(g, sx, sy, x, y) && is_liberty_of_cell(g, x, y, lx, ly)
}

/// The group seeded at (sx, sy) has at least one liberty.
pub open spec fn group_has_liberty(g: Seq<Option<Piece>>, sx: int, sy: int) -> bool {
    exists|lx: int, ly: int| #[trigger] is_group_liberty(g, sx, sy, lx, ly)
}

/// The grid with the whole group seeded at (sx, sy) cleared.
pub open spec fn remove_group_grid(g: Seq<Option<Piece>>, sx: int, sy: int) -> Seq<
    Option<Piece>,
> {
    Seq::new(g.len(), |i: int| if in_group(g, sx, sy, i / 19, i % 19) { None } else { g[i] })
}

/// What `remove_group_grid` leaves in each in-bounds cell.
pub proof fn lemma_remove_group_cell(g: Seq<Option<Piece>>, sx: int, sy: int, x: int, y: int)
    requires
        grid_wf(g),
        in_bounds(x, y),
    ensures
        cell(remove_group_grid(g, sx, sy), x, y) == (if in_group(g, sx, sy, x, y) {
            None::<Piece>
        } else {
            cell(g, x, y)
        }),
{
    lemma_idx_of_range(x, y);
}

/// The grid with the candidate stone written into its cell.
pub open spec fn place(g: Seq<Option<Piece>>, m: PlacedPiece) -> Seq<Option<Piece>> {
    g.update(idx_of(m.pos.0 as int, m.pos.1 as int), Some(m.piece))
}

/// x-offset of neighbor d; neighbors are examined in the order
/// 0: +y (up), 1: -y (down), 2: -x (left), 3: +x (right).
pub open spec fn dir_dx(d: int) -> int {
    if d == 2 {
        -1
    } else if d == 3 {
        1
    } else {
        0
    }
}

/// y-offset of neighbor d (see `dir_dx` for the order).
pub open spec fn dir_dy(d: int) -> int {
    if d == 0 {
        1
    } else if d == 1 {
        -1
    } else {
        0
    }
}

/// The neighbor at (nx, ny) holds an opposite-colored group with no
/// liberties, so that group is captured by the move m.
pub open spec fn captured_opponent_at(
    g: Seq<Option<Piece>>,
    m: PlacedPiece,
    nx: int,
    ny: int,
) -> bool {
    &&& in_bounds(nx, ny)
    &&& cell(g, nx, ny) == Some(Piece { color: opposite_color(m.piece.color) })
    &&& !group_has_liberty(g, nx, ny)
}

/// One step of capture resolution: if neighbor d of the played stone holds
/// a libertyless opposite-colored group, that group is removed.
pub open spec fn capture_step(g: Seq<Option<Piece>>, m: PlacedPiece, d: int) -> Seq<
    Option<Piece>,
> {
    let nx = m.pos.0 + dir_dx(d);
    let ny = m.pos.1 + dir_dy(d);
    if captured_opponent_at(g, m, nx, ny) {
        remove_group_grid(g, nx, ny)
    } else {
        g
    }
}

/// Capture resolution after placing m: the four neighbors are examined in
/// order, each against the grid left by the previous step.
pub open spec fn resolve_captures(g: Seq<Option<Piece>>, m: PlacedPiece) -> Seq<Option<Piece>> {
    capture_step(capture_step(capture_step(capture_step(g, m, 0), m, 1), m, 2), m, 3)
}

/// The grid after committing move m: place the stone, then resolve
/// opponent captures.
pub open spec fn grid_after_move(g: Seq<Option<Piece>>, m: PlacedPiece) -> Seq<Option<Piece>> {
    resolve_captures(place(g, m), m)
}

/// Why move m is illegal on grid g with ko-snapshot ko, or None if it is
/// legal. The checks run in this order: occupancy, ko, self-capture.
pub open spec fn move_error(
    g: Seq<Option<Piece>>,
    ko: Seq<Option<Piece>>,
    m: PlacedPiece,
) -> Option<InvalidMoveError> {
    let x = m.pos.0 as int;
    let y = m.pos.1 as int;
    if cell(g, x, y) is Some {
        Some(InvalidMoveError::AlreadyOccupied)
    } else {
        let after = grid_after_move(g, m);
        if after == ko {
            Some(InvalidMoveError::Ko)
        } else if !group_has_liberty(after, x, y) {
            Some(InvalidMoveError::SelfCapture)
        } else {
            None
        }
    }
}

/// The classification of the cell at (x, y) as seen from a neighbor query:
/// off-board, occupied, or empty.
pub open spec fn classify(g: Seq<Option<Piece>>, x: int, y: int) -> PieceAdjacency {
    if !in_bounds(x, y) {
        PieceAdjacency::Edge
    } else {
        match cell(g, x, y) {
            Some(piece) => PieceAdjacency::Piece(
                PlacedPiece { piece, pos: (x as u8, y as u8) },
            ),
            None => PieceAdjacency::Empty((x as u8, y as u8)),
        }
    }
}

/// Applying moves ms[i..] in order to (g, ko), stopping at the first
/// illegal move: the final grids and the error that stopped the run.
pub open spec fn board_run_from(
    g: Seq<Option<Piece>>,
    ko: Seq<Option<Piece>>,
    ms: Seq<PlacedPiece>,
    i: int,
) -> (Seq<Option<Piece>>, Seq<Option<Piece>>, Option<InvalidMoveError>)
    decreases ms.len() - i,
{
    if i < 0 || i >= ms.len() {
        (g, ko, None::<InvalidMoveError>)
    } else {
        match move_error(g, ko, ms[i]) {
            Some(e) => (g, ko, Some(e)),
            None => board_run_from(grid_after_move(g, ms[i]), g, ms, i + 1),
        }
    }
}

/// The moves that a builder triple list (color, x, y) describes.
pub open spec fn builder_moves(s: Seq<(PieceColor, u8, u8)>) -> Seq<PlacedPiece> {
    s.map_values(
        |t: (PieceColor, u8, u8)| PlacedPiece { piece: Piece { color: t.0 }, pos: (t.1, t.2) },
    )
}

/// caps lists exactly the in-bounds positions occupied in `before` and
/// empty in `after`, each once.
pub open spec fn caps_exact(
    caps: Seq<(u8, u8)>,
    before: Seq<Option<Piece>>,
    after: Seq<Option<Piece>>,
) -> bool {
    &&& (forall|k1: int, k2: int| 0 <= k1 < k2 < caps.len() ==> caps[k1] != caps[k2])
    &&& (forall|k: int|
        0 <= k < caps.len() ==> in_bounds((#[trigger] caps[k]).0 as int, caps[k].1 as int))
    &&& (forall|x: int, y: int|
        in_bounds(x, y) ==> (pos_listed(caps, x, y) <==> (cell(before, x, y) is Some && cell(
            after,
            x,
            y,
        ) is None)))
}

/// The position list mentions (x, y).
pub open spec fn pos_listed(caps: Seq<(u8, u8)>, x: int, y: int) -> bool {
    exists|k: int| 0 <= k < caps.len() && #[trigger] caps[k] == (x as u8, y as u8)
}

/// Pushing onto a position list keeps everything already listed.
pub proof fn lemma_pos_listed_push(s: Seq<(u8, u8)>, v: (u8, u8), x: int, y: int)
    requires
        pos_listed(s, x, y),
    ensures
        pos_listed(s.push(v), x, y),
{
    let k = choose|k: int| 0 <= k < s.len() && #[trigger] s[k] == ((x as u8, y as u8));
    assert(s.push(v)[k] == s[k]);
}

/// What a concatenation of position lists mentions.
pub proof fn lemma_pos_listed_add(a: Seq<(u8, u8)>, b: Seq<(u8, u8)>, x: int, y: int)
    ensures
        pos_listed(a + b, x, y) <==> (pos_listed(a, x, y) || pos_listed(b, x, y)),
{
    if pos_listed(a + b, x, y) {
        let k = choose|k: int| 0 <= k < (a + b).len() && #[trigger] (a + b)[k] == ((x as u8, y as u8));
        if k < a.len() {
            assert(a[k] == (a + b)[k]);
        } else {
            assert(b[k - a.len()] == (a + b)[k]);
        }
    }
    if pos_listed(a, x, y) {
        let k = choose|k: int| 0 <= k < a.len() && #[trigger] a[k] == ((x as u8, y as u8));
        assert((a + b)[k] == a[k]);
    }
    if pos_listed(b, x, y) {
        let k = choose|k: int| 0 <= k < b.len() && #[trigger] b[k] == ((x as u8, y as u8));
        assert((a + b)[k + a.len()] == b[k]);
    }
}

/// Extending a scanned prefix of a position list by one entry.
pub proof fn lemma_pos_listed_take_step(s: Seq<(u8, u8)>, n: int, x: int, y: int)
    requires
        0 <= n < s.len(),
    ensures
        pos_listed(s.take(n + 1), x, y) <==> (pos_listed(s.take(n), x, y) || s[n] == ((
            x as u8,
            y as u8,
        ))),
{
    if pos_listed(s.take(n + 1), x, y) {
        let k = choose|k: int|
            0 <= k < s.take(n + 1).len() && #[trigger] s.take(n + 1)[k] == ((x as u8, y as u8));
        if k < n {
            assert(s.take(n)[k] == s.take(n + 1)[k]);
        } else {
            assert(s[n] == s.take(n + 1)[k]);
        }
    }
    if pos_listed(s.take(n), x, y) {
        let k = choose|k: int|
            0 <= k < s.take(n).len() && #[trigger] s.take(n)[k] == ((x as u8, y as u8));
        assert(s.take(n + 1)[k] == s.take(n)[k]);
    }
    if s[n] == ((x as u8, y as u8)) {
        assert(s.take(n + 1)[n] == s[n]);
    }
}

/// out mentions a stone at position (x, y).
pub open spec fn out_has(out: Seq<PlacedPiece>, x: int, y: int) -> bool {
    exists|k: int| 0 <= k < out.len() && (#[trigger] out[k]).pos == (x as u8, y as u8)
}

/// How many cells of the grid hold a stone.
pub open spec fn count_occupied(g: Seq<Option<Piece>>) -> int
    decreases g.len(),
{
    if g.len() == 0 {
        0
    } else {
        count_occupied(g.drop_last()) + if g.last() is Some {
            1int
        } else {
            0int
        }
    }
}

/// How many cells of the grid hold a stone of color c.
pub open spec fn count_color(g: Seq<Option<Piece>>, c: PieceColor) -> int
    decreases g.len(),
{
    if g.len() == 0 {
        0
    } else {
        count_color(g.drop_last(), c) + if g.last() == Some(Piece { color: c }) {
            1int
        } else {
            0int
        }
    }
}

/// How many entries of a bit sequence are set.
pub open spec fn count_true(s: Seq<bool>) -> int
    decreases s.len(),
{
    if s.len() == 0 {
        0
    } else {
        count_true(s.drop_last()) + if s.last() {
            1int
        } else {
            0int
        }
    }
}

pub proof fn lemma_count_occupied_le_len(g: Seq<Option<Piece>>)
    ensures
        0 <= count_occupied(g) <= g.len(),
    decreases g.len(),
{
    if g.len() > 0 {
        lemma_count_occupied_le_len(g.drop_last());
    }
}

/// A grid with no stones counts zero.
pub proof fn lemma_count_occupied_none(g: Seq<Option<Piece>>)
    requires
        forall|k: int| 0 <= k < g.len() ==> g[k] is None,
    ensures
        count_occupied(g) == 0,
    decreases g.len(),
{
    if g.len() > 0 {
        lemma_count_occupied_none(g.drop_last());
    }
}

pub proof fn lemma_count_color_le_len(g: Seq<Option<Piece>>, c: PieceColor)
    ensures
        0 <= count_color(g, c) <= g.len(),
    decreases g.len(),
{
    if g.len() > 0 {
        lemma_count_color_le_len(g.drop_last(), c);
    }
}

pub proof fn lemma_count_true_le_len(s: Seq<bool>)
    ensures
        0 <= count_true(s) <= s.len(),
    decreases s.len(),
{
    if s.len() > 0 {
        lemma_count_true_le_len(s.drop_last());
    }
}

/// Extending a scanned prefix by one cell adds that cell's contribution.
pub proof fn lemma_count_occupied_take_step(g: Seq<Option<Piece>>, k: int)
    requires
        0 <= k < g.len(),
    ensures
        count_occupied(g.take(k + 1)) == count_occupied(g.take(k)) + if g[k] is Some {
            1int
        } else {
            0int
        },
{
    assert(g.take(k + 1).drop_last() =~= g.take(k));
    assert(g.take(k + 1).last() == g[k]);
}

pub proof fn lemma_count_color_take_step(g: Seq<Option<Piece>>, c: PieceColor, k: int)
    requires
        0 <= k < g.len(),
    ensures
        count_color(g.take(k + 1), c) == count_color(g.take(k), c) + if g[k] == Some(
            Piece { color: c },
        ) {
            1int
        } else {
            0int
        },
{
    assert(g.take(k + 1).drop_last() =~= g.take(k));
    assert(g.take(k + 1).last() == g[k]);
}

/// Setting one empty cell to a stone raises the stone count by one.
pub proof fn lemma_count_occupied_update(g: Seq<Option<Piece>>, i: int, v: Option<Piece>)
    requires
        0 <= i < g.len(),
    ensures
        count_occupied(g.update(i, v)) == count_occupied(g) - (if g[i] is Some {
            1int
        } else {
            0int
        }) + (if v is Some {
            1int
        } else {
            0int
        }),
    decreases g.len(),
{
    let gu = g.update(i, v);
    if i == g.len() - 1 {
        assert(gu.drop_last() =~= g.drop_last());
        assert(gu.last() == v);
    } else {
        assert(gu.drop_last() =~= g.drop_last().update(i, v));
        assert(gu.last() == g.last());
        lemma_count_occupied_update(g.drop_last(), i, v);
    }
}

/// Marking one bit raises the count of set bits accordingly.
pub proof fn lemma_count_true_update(s: Seq<bool>, i: int, v: bool)
    requires
        0 <= i < s.len(),
    ensures
        count_true(s.update(i, v)) == count_true(s) - (if s[i] {
            1int
        } else {
            0int
        }) + (if v {
            1int
        } else {
            0int
        }),
    decreases s.len(),
{
    let su = s.update(i, v);
    if i == s.len() - 1 {
        assert(su.drop_last() =~= s.drop_last());
        assert(su.last() == v);
    } else {
        assert(su.drop_last() =~= s.drop_last().update(i, v));
        assert(su.last() == s.last());
        lemma_count_true_update(s.drop_last(), i, v);
    }
}

/// The one-stone chain: an occupied cell belongs to its own group.
pub proof fn lemma_group_seed(g: Seq<Option<Piece>>, sx: int, sy: int)
    requires
        in_bounds(sx, sy),
        cell(g, sx, sy) is Some,
    ensures
        in_group(g, sx, sy, sx, sy),
{
    let path: Seq<(int, int)> = seq![(sx, sy)];
    assert(is_chain(g, path));
    assert(path[0] == (sx, sy) && path[path.len() - 1] == (sx, sy));
}

/// Every group member is in bounds and holds the seed's occupant.
pub proof fn lemma_group_member(g: Seq<Option<Piece>>, sx: int, sy: int, x: int, y: int)
    requires
        in_group(g, sx, sy, x, y),
    ensures
        in_bounds(x, y),
        cell(g, x, y) == cell(g, sx, sy),
{
    let path = choose|path: Seq<(int, int)>|
        {
            &&& #[trigger] is_chain(g, path)
            &&& path[0] == (sx, sy)
            &&& path[path.len() - 1] == (x, y)
        };
    assert(in_bounds((path[path.len() - 1]).0, path[path.len() - 1].1));
    assert(cell(g, (path[path.len() - 1]).0, path[path.len() - 1].1) == cell(
        g,
        path[0].0,
        path[0].1,
    ));
}

/// A same-occupant in-bounds neighbor of a group member is a group member.
pub proof fn lemma_group_extend(
    g: Seq<Option<Piece>>,
    sx: int,
    sy: int,
    x: int,
    y: int,
    nx: int,
    ny: int,
)
    requires
        in_group(g, sx, sy, x, y),
        in_bounds(nx, ny),
        adjacent(x, y, nx, ny),
        cell(g, nx, ny) == cell(g, x, y),
    ensures
        in_group(g, sx, sy, nx, ny),
{
    lemma_group_member(g, sx, sy, x, y);
    let path = choose|path: Seq<(int, int)>|
        {
            &&& #[trigger] is_chain(g, path)
            &&& path[0] == (sx, sy)
            &&& path[path.len() - 1] == (x, y)
        };
    let grown = path.push((nx, ny));
    assert forall|i: int| 0 <= i < grown.len() implies in_bounds((#[trigger] grown[i]).0, grown[i].1) by {
        if i < path.len() {
            assert(grown[i] == path[i]);
            assert(in_bounds((path[i]).0, path[i].1));
        } else {
            assert(grown[i] == (nx, ny));
        }
    }
    assert forall|i: int|
        0 <= i < grown.len() implies cell(g, (#[trigger] grown[i]).0, grown[i].1) == cell(
        g,
        grown[0].0,
        grown[0].1,
    ) by {
        assert(grown[0] == path[0]);
        if i < path.len() {
            assert(grown[i] == path[i]);
            assert(cell(g, (path[i]).0, path[i].1) == cell(g, path[0].0, path[0].1));
        } else {
            assert(grown[i] == (nx, ny));
            assert(cell(g, (path[path.len() - 1]).0, path[path.len() - 1].1) == cell(
                g,
                path[0].0,
                path[0].1,
            ));
        }
    }
    assert forall|i: int|
        0 <= i < grown.len() - 1 implies adjacent(
        (#[trigger] grown[i]).0,
        grown[i].1,
        grown[i + 1].0,
        grown[i + 1].1,
    ) by {
        if i < path.len() - 1 {
            assert(grown[i] == path[i] && grown[i + 1] == path[i + 1]);
            assert(adjacent((path[i]).0, path[i].1, path[i + 1].0, path[i + 1].1));
        } else {
            assert(grown[i] == path[path.len() - 1] && grown[i + 1] == (nx, ny));
        }
    }
    assert(is_chain(g, grown));
    assert(grown[0] == (sx, sy));
    assert(grown[grown.len() - 1] == (nx, ny));
}

/// All in-bounds same-occupant neighbors of (x, y) are marked in seen.
pub open spec fn nbrs_seen(g: Seq<Option<Piece>>, seen: Seq<bool>, x: int, y: int) -> bool {
    forall|nx: int, ny: int|
        in_bounds(nx, ny) && adjacent(x, y, nx, ny) && cell(g, nx, ny) == cell(g, x, y)
            ==> #[trigger] seen[idx_of(nx, ny)]
}

/// seen is closed under same-occupant adjacency.
pub open spec fn closed_under_group(g: Seq<Option<Piece>>, seen: Seq<bool>) -> bool {
    forall|x: int, y: int|
        in_bounds(x, y) && #[trigger] seen[idx_of(x, y)] ==> nbrs_seen(g, seen, x, y)
}

/// A chain that starts in a closed marked set ends in it.
pub proof fn lemma_chain_in_closed(g: Seq<Option<Piece>>, seen: Seq<bool>, path: Seq<(int, int)>)
    requires
        seen.len() == 361,
        is_chain(g, path),
        seen[idx_of(path[0].0, path[0].1)],
        closed_under_group(g, seen),
    ensures
        seen[idx_of((path[path.len() - 1]).0, path[path.len() - 1].1)],
    decreases path.len(),
{
    if path.len() == 1 {
    } else {
        let pre = path.drop_last();
        assert forall|i: int| 0 <= i < pre.len() implies in_bounds((#[trigger] pre[i]).0, pre[i].1)
            by {
            assert(pre[i] == path[i]);
            assert(in_bounds((path[i]).0, path[i].1));
        }
        assert forall|i: int|
            0 <= i < pre.len() implies cell(g, (#[trigger] pre[i]).0, pre[i].1) == cell(
            g,
            pre[0].0,
            pre[0].1,
        ) by {
            assert(pre[i] == path[i] && pre[0] == path[0]);
            assert(cell(g, (path[i]).0, path[i].1) == cell(g, path[0].0, path[0].1));
        }
        assert forall|i: int|
            0 <= i < pre.len() - 1 implies adjacent(
            (#[trigger] pre[i]).0,
            pre[i].1,
            pre[i + 1].0,
            pre[i + 1].1,
        ) by {
            assert(pre[i] == path[i] && pre[i + 1] == path[i + 1]);
            assert(adjacent((path[i]).0, path[i].1, path[i + 1].0, path[i + 1].1));
        }
        assert(is_chain(g, pre));
        lemma_chain_in_closed(g, seen, pre);
        let a = path[path.len() - 2];
        let b = path[path.len() - 1];
        assert(pre[pre.len() - 1] == a);
        assert(adjacent((path[path.len() - 2]).0, path[path.len() - 2].1, b.0, b.1));
        assert(cell(g, (path[path.len() - 2]).0, path[path.len() - 2].1) == cell(
            g,
            path[0].0,
            path[0].1,
        ));
        assert(cell(g, (path[path.len() - 1]).0, path[path.len() - 1].1) == cell(
            g,
            path[0].0,
            path[0].1,
        ));
        assert(in_bounds(b.0, b.1));
        assert(seen[idx_of(a.0, a.1)]);
        assert(nbrs_seen(g, seen, a.0, a.1));
        assert(cell(g, b.0, b.1) == cell(g, a.0, a.1));
        assert(seen[idx_of(b.0, b.1)]);
    }
}

/// Every member of a group whose seed is marked in a closed set is marked.
pub proof fn lemma_group_in_closed(
    g: Seq<Option<Piece>>,
    seen: Seq<bool>,
    sx: int,
    sy: int,
    x: int,
    y: int,
)
    requires
        seen.len() == 361,
        in_group(g, sx, sy, x, y),
        seen[idx_of(sx, sy)],
        closed_under_group(g, seen),
    ensures
        seen[idx_of(x, y)],
{
    let path = choose|path: Seq<(int, int)>|
        {
            &&& #[trigger] is_chain(g, path)
            &&& path[0] == (sx, sy)
            &&& path[path.len() - 1] == (x, y)
        };
    lemma_chain_in_closed(g, seen, path);
}

} // verus!
