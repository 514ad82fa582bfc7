use std::collections::VecDeque;
use vstd::prelude::*;

use crate::algorithms::{board_paintable, build_threat_board, threat_at};
use crate::datatypes::{neighbours, Battlesnake, Board, CellState, Coord};
use crate::grid::{board_cells, covers, in_bounds, is_grid, lemma_board_cells_len, new_grid, paint};
use crate::tools::{distances_fit, min_distance, nearest_distance};

verus! {

/// What the scoring steps look at for one candidate move of `me`.
pub struct EvalData<'a> {
    pub me: &'a Battlesnake,
    pub board: &'a Board,
    pub next_head: &'a Coord,
}

/// The integer inputs of an approach score: the distance to the nearest
/// target, the snake's health and the board's half perimeter (`width + height`).
#[derive(Clone, Copy, Debug, PartialEq, Eq, Structural)]
pub struct ApproachMeasure {
    pub distance: i32,
    pub health: i32,
    pub area: i32,
}

/// The integer inputs of the space score: the number of cells reachable from
/// the next head, the snake's length, and whether that space is at most the length.
#[derive(Clone, Copy, Debug, PartialEq, Eq, Structural)]
pub struct SpaceMeasure {
    pub space: u32,
    pub length: i32,
    pub within_length: bool,
}

/// The heads of the other snakes whose length is at most `me.length - margin`,
/// in board order.
pub open spec fn smaller_rival_heads(me: Battlesnake, snakes: Seq<Battlesnake>, margin: int) -> Seq<Coord>
    decreases snakes.len(),
{
    if snakes.len() == 0 {
        Seq::empty()
    } else {
        let rest = smaller_rival_heads(me, snakes.drop_last(), margin);
        let s = snakes.last();
        if s.id@ != me.id@ && s.length <= me.length - margin {
            rest.push(s.head)
        } else {
            rest
        }
    }
}

/// Raising the margin keeps only some of the heads: every head at least
/// `larger` shorter is also at least `smaller` shorter. So every head that
/// `get_lowlevel_snakes` reports, `get_low_level_snakes` reports too.
pub proof fn lemma_smaller_rival_heads_shrink(me: Battlesnake, snakes: Seq<Battlesnake>, smaller: int, larger: int)
    requires
        smaller <= larger,
    ensures
        forall|i: int| 0 <= i < smaller_rival_heads(me, snakes, larger).len() ==>
            smaller_rival_heads(me, snakes, smaller).contains(#[trigger] smaller_rival_heads(me, snakes, larger)[i]),
    decreases snakes.len(),
{
    if snakes.len() > 0 {
        let init = snakes.drop_last();
        lemma_smaller_rival_heads_shrink(me, init, smaller, larger);
        let big = smaller_rival_heads(me, snakes, larger);
        let small = smaller_rival_heads(me, snakes, smaller);
        let big0 = smaller_rival_heads(me, init, larger);
        let small0 = smaller_rival_heads(me, init, smaller);
        assert forall|i: int| 0 <= i < big.len() implies small.contains(#[trigger] big[i]) by {
            if i < big0.len() {
                assert(big[i] == big0[i]);
                assert(small0.contains(big0[i]));
                let j = choose|j: int| 0 <= j < small0.len() && small0[j] == big0[i];
                assert(small[j] == small0[j]);
            } else {
                assert(big[i] == snakes.last().head);
                assert(small[small.len() - 1] == snakes.last().head);
            }
        }
    }
}

/// A cell is one of the reported heads exactly when it is the head of some
/// snake with another id whose length is at most `me.length - margin`; there
/// are never more heads than snakes.
pub proof fn lemma_smaller_rival_heads_members(me: Battlesnake, snakes: Seq<Battlesnake>, margin: int)
    ensures
        smaller_rival_heads(me, snakes, margin).len() <= snakes.len(),
        forall|c: Coord| smaller_rival_heads(me, snakes, margin).contains(c) <==> exists|k: int|
            0 <= k < snakes.len() && (#[trigger] snakes[k]).id@ != me.id@ && snakes[k].length <= me.length - margin
                && snakes[k].head == c,
    decreases snakes.len(),
{
    if snakes.len() > 0 {
        let init = snakes.drop_last();
        let last = snakes.len() - 1;
        lemma_smaller_rival_heads_members(me, init, margin);
        let heads = smaller_rival_heads(me, snakes, margin);
        let heads0 = smaller_rival_heads(me, init, margin);
        assert(snakes[last] == snakes.last());
        assert forall|c: Coord| heads.contains(c) <==> exists|k: int|
            0 <= k < snakes.len() && (#[trigger] snakes[k]).id@ != me.id@ && snakes[k].length <= me.length - margin
                && snakes[k].head == c by {
            if heads.contains(c) {
                let j = choose|j: int| 0 <= j < heads.len() && heads[j] == c;
                if j < heads0.len() {
                    assert(heads[j] == heads0[j]);
                    assert(heads0.contains(c));
                    let k = choose|k: int|
                        0 <= k < init.len() && (#[trigger] init[k]).id@ != me.id@ && init[k].length <= me.length - margin
                            && init[k].head == c;
                    assert(init[k] == snakes[k]);
                } else {
                    assert(snakes[last].head == c);
                }
            }
            if exists|k: int|
                0 <= k < snakes.len() && (#[trigger] snakes[k]).id@ != me.id@ && snakes[k].length <= me.length - margin
                    && snakes[k].head == c {
                let k = choose|k: int|
                    0 <= k < snakes.len() && (#[trigger] snakes[k]).id@ != me.id@ && snakes[k].length <= me.length - margin
                        && snakes[k].head == c;
                if k < last {
                    assert(init[k] == snakes[k]);
                    assert(heads0.contains(c));
                    let j = choose|j: int| 0 <= j < heads0.len() && heads0[j] == c;
                    assert(heads[j] == heads0[j]);
                } else {
                    assert(heads[heads.len() - 1] == c);
                }
            }
        }
    } else {
        assert forall|c: Coord| !smaller_rival_heads(me, snakes, margin).contains(c) by {}
    }
}

/// Adding a snake at the end of the board's list adds its head at the end of
/// the reported heads when it has another id and a length at most
/// `me.length - margin`, and changes nothing otherwise: heads come in board order.
pub proof fn lemma_smaller_rival_heads_append(me: Battlesnake, snakes: Seq<Battlesnake>, s: Battlesnake, margin: int)
    ensures
        smaller_rival_heads(me, snakes.push(s), margin) == if s.id@ != me.id@ && s.length <= me.length - margin {
            smaller_rival_heads(me, snakes, margin).push(s.head)
        } else {
            smaller_rival_heads(me, snakes, margin)
        },
{
    assert(snakes.push(s).drop_last() =~= snakes);
}

/// The threat map of `me` on `board`, row by row.
pub open spec fn threat_map(me: Battlesnake, board: Board) -> Seq<Seq<CellState>> {
    Seq::new(
        board.height as nat,
        |y: int| Seq::new(board.width as nat, |x: int| threat_at(me, board.snakes@, board.width as int, board.height as int, x, y)),
    )
}

/// The number of cells reachable from `next` through `SAFE` cells of the threat map of `me`.
pub open spec fn free_space(me: Battlesnake, board: Board, next: Coord) -> nat {
    open_region(threat_map(me, board), board.width as int, board.height as int, next).len()
}

/// The cells of a grid of rows, as a sequence of rows.
pub open spec fn cells_of(g: Seq<Vec<CellState>>) -> Seq<Seq<CellState>> {
    g.map_values(|row: Vec<CellState>| row@)
}

/// A cell of the board that a snake may enter: on the board and `SAFE` in `g`.
pub open spec fn open_cell(g: Seq<Seq<CellState>>, w: int, h: int, x: int, y: int) -> bool {
    in_bounds(w, h, x, y) && g[y][x] == CellState::SAFE
}

/// `(x, y)` can be reached from `start` in at most `n` steps between
/// neighbouring open cells (start included).
pub open spec fn reach_within(
    g: Seq<Seq<CellState>>,
    w: int,
    h: int,
    start: Coord,
    x: int,
    y: int,
    n: nat,
) -> bool
    decreases n,
{
    if n == 0 {
        x == start.x && y == start.y && open_cell(g, w, h, x, y)
    } else {
        ||| reach_within(g, w, h, start, x, y, (n - 1) as nat)
        ||| open_cell(g, w, h, x, y) && {
            ||| reach_within(g, w, h, start, x, y - 1, (n - 1) as nat)
            ||| reach_within(g, w, h, start, x, y + 1, (n - 1) as nat)
            ||| reach_within(g, w, h, start, x + 1, y, (n - 1) as nat)
            ||| reach_within(g, w, h, start, x - 1, y, (n - 1) as nat)
        }
    }
}

/// `(x, y)` can be reached from `start` through open cells.
pub open spec fn reachable(g: Seq<Seq<CellState>>, w: int, h: int, start: Coord, x: int, y: int) -> bool {
    exists|n: nat| reach_within(g, w, h, start, x, y, n)
}

/// The open cells connected to `start` (empty when `start` itself is not open).
pub open spec fn open_region(g: Seq<Seq<CellState>>, w: int, h: int, start: Coord) -> Set<(int, int)> {
    Set::new(|c: (int, int)| reachable(g, w, h, start, c.0, c.1))
}

/// A reached cell is open, and so is the start it was reached from.
proof fn lemma_reach_ends_open(g: Seq<Seq<CellState>>, w: int, h: int, start: Coord, x: int, y: int, n: nat)
    requires
        reach_within(g, w, h, start, x, y, n),
    ensures
        open_cell(g, w, h, x, y),
        open_cell(g, w, h, start.x as int, start.y as int),
    decreases n,
{
    if n > 0 {
        let m = (n - 1) as nat;
        if reach_within(g, w, h, start, x, y, m) {
            lemma_reach_ends_open(g, w, h, start, x, y, m);
        } else if reach_within(g, w, h, start, x, y - 1, m) {
            lemma_reach_ends_open(g, w, h, start, x, y - 1, m);
        } else if reach_within(g, w, h, start, x, y + 1, m) {
            lemma_reach_ends_open(g, w, h, start, x, y + 1, m);
        } else if reach_within(g, w, h, start, x + 1, y, m) {
            lemma_reach_ends_open(g, w, h, start, x + 1, y, m);
        } else {
            lemma_reach_ends_open(g, w, h, start, x - 1, y, m);
        }
    }
}

/// What is reached within `n` steps is reached within any larger bound.
proof fn lemma_reach_monotone(g: Seq<Seq<CellState>>, w: int, h: int, start: Coord, x: int, y: int, n: nat, m: nat)
    requires
        reach_within(g, w, h, start, x, y, n),
        n <= m,
    ensures
        reach_within(g, w, h, start, x, y, m),
    decreases m,
{
    if n < m {
        lemma_reach_monotone(g, w, h, start, x, y, n, (m - 1) as nat);
    }
}

/// Reaching `mid` and then `(x, y)` from `mid` reaches `(x, y)`.
proof fn lemma_reach_trans(
    g: Seq<Seq<CellState>>,
    w: int,
    h: int,
    start: Coord,
    mid: Coord,
    x: int,
    y: int,
    n: nat,
    m: nat,
)
    requires
        reach_within(g, w, h, start, mid.x as int, mid.y as int, n),
        reach_within(g, w, h, mid, x, y, m),
    ensures
        reach_within(g, w, h, start, x, y, n + m),
    decreases m,
{
    if m == 0 {
    } else {
        let k = (m - 1) as nat;
        if reach_within(g, w, h, mid, x, y, k) {
            lemma_reach_trans(g, w, h, start, mid, x, y, n, k);
            lemma_reach_monotone(g, w, h, start, x, y, n + k, n + m);
        } else if reach_within(g, w, h, mid, x, y - 1, k) {
            lemma_reach_trans(g, w, h, start, mid, x, y - 1, n, k);
        } else if reach_within(g, w, h, mid, x, y + 1, k) {
            lemma_reach_trans(g, w, h, start, mid, x, y + 1, n, k);
        } else if reach_within(g, w, h, mid, x + 1, y, k) {
            lemma_reach_trans(g, w, h, start, mid, x + 1, y, n, k);
        } else {
            lemma_reach_trans(g, w, h, start, mid, x - 1, y, n, k);
        }
    }
}

/// The cell `(x, y)` as a `Coord`.
spec fn coord_at(x: int, y: int) -> Coord {
    Coord { x: x as i32, y: y as i32 }
}

/// Paths between open cells can be walked back.
proof fn lemma_reach_symmetric(g: Seq<Seq<CellState>>, w: int, h: int, start: Coord, c: Coord, n: nat)
    requires
        w <= i32::MAX,
        h <= i32::MAX,
        reach_within(g, w, h, start, c.x as int, c.y as int, n),
    ensures
        reach_within(g, w, h, c, start.x as int, start.y as int, n),
    decreases n,
{
    lemma_reach_ends_open(g, w, h, start, c.x as int, c.y as int, n);
    if n > 0 {
        let k = (n - 1) as nat;
        let (x, y) = (c.x as int, c.y as int);
        if reach_within(g, w, h, start, x, y, k) {
            lemma_reach_symmetric(g, w, h, start, c, k);
        } else {
            let d = if reach_within(g, w, h, start, x, y - 1, k) {
                coord_at(x, y - 1)
            } else if reach_within(g, w, h, start, x, y + 1, k) {
                coord_at(x, y + 1)
            } else if reach_within(g, w, h, start, x + 1, y, k) {
                coord_at(x + 1, y)
            } else {
                coord_at(x - 1, y)
            };
            lemma_reach_ends_open(g, w, h, start, d.x as int, d.y as int, k);
            lemma_reach_symmetric(g, w, h, start, d, k);
            // one step from c to its neighbour d
            assert(reach_within(g, w, h, c, x, y, 0));
            assert(reach_within(g, w, h, c, d.x as int, d.y as int, 1));
            lemma_reach_trans(g, w, h, c, d, start.x as int, start.y as int, 1, k);
        }
    }
}

/// Some entry of `q` is the cell `(x, y)`.
spec fn pending(q: Seq<Coord>, x: int, y: int) -> bool {
    exists|i: int| 0 <= i < q.len() && q[i].x == x && q[i].y == y
}

/// The cell `(x, y)` is already counted, closed, or still waiting in `q`.
spec fn covered(
    g: Seq<Seq<CellState>>,
    w: int,
    h: int,
    seen: Set<(int, int)>,
    q: Seq<Coord>,
    x: int,
    y: int,
) -> bool {
    seen.contains((x, y)) || !open_cell(g, w, h, x, y) || pending(q, x, y)
}

/// Every neighbour of a counted cell is covered.
spec fn frontier_covered(
    g: Seq<Seq<CellState>>,
    w: int,
    h: int,
    seen: Set<(int, int)>,
    q: Seq<Coord>,
) -> bool {
    forall|x: int, y: int|
        #[trigger] seen.contains((x, y)) ==> {
            &&& covered(g, w, h, seen, q, x, y + 1)
            &&& covered(g, w, h, seen, q, x, y - 1)
            &&& covered(g, w, h, seen, q, x - 1, y)
            &&& covered(g, w, h, seen, q, x + 1, y)
        }
}

/// Every queued cell is on the board and is the start or a neighbour of a counted cell.
spec fn queue_grounded(w: int, h: int, start: Coord, seen: Set<(int, int)>, q: Seq<Coord>) -> bool {
    forall|i: int|
        0 <= i < q.len() ==> {
            &&& in_bounds(w, h, (#[trigger] q[i]).x as int, q[i].y as int)
            &&& {
                ||| q[i] == start
                ||| seen.contains((q[i].x as int, q[i].y - 1))
                ||| seen.contains((q[i].x as int, q[i].y + 1))
                ||| seen.contains((q[i].x + 1, q[i].y as int))
                ||| seen.contains((q[i].x - 1, q[i].y as int))
            }
        }
}

/// Every counted cell is open and reachable from `start`.
spec fn seen_sound(g: Seq<Seq<CellState>>, w: int, h: int, start: Coord, seen: Set<(int, int)>) -> bool {
    forall|c: (int, int)|
        #[trigger] seen.contains(c) ==> open_cell(g, w, h, c.0, c.1) && reachable(g, w, h, start, c.0, c.1)
}

proof fn lemma_pending_pop(q: Seq<Coord>)
    requires
        q.len() > 0,
    ensures
        forall|x: int, y: int|
            #[trigger] pending(q, x, y) ==> (x == q[0].x && y == q[0].y) || pending(
                q.subrange(1, q.len() as int),
                x,
                y,
            ),
{
    assert forall|x: int, y: int| #[trigger] pending(q, x, y) implies (x == q[0].x && y == q[0].y)
        || pending(q.subrange(1, q.len() as int), x, y) by {
        let i = choose|i: int| 0 <= i < q.len() && q[i].x == x && q[i].y == y;
        if i > 0 {
            assert(q.subrange(1, q.len() as int)[i - 1] == q[i]);
        }
    }
}

proof fn lemma_pending_push(q: Seq<Coord>, v: Coord)
    ensures
        forall|x: int, y: int| #[trigger] pending(q, x, y) ==> pending(q.push(v), x, y),
        pending(q.push(v), v.x as int, v.y as int),
{
    assert forall|x: int, y: int| #[trigger] pending(q, x, y) implies pending(q.push(v), x, y) by {
        let i = choose|i: int| 0 <= i < q.len() && q[i].x == x && q[i].y == y;
        assert(q.push(v)[i] == q[i]);
    }
    assert(q.push(v)[q.len() as int] == v);
}

/// A set of cells that holds the start (when open) and every open neighbour
/// of its members holds every reachable cell.
proof fn lemma_closed_set_holds_reach(
    g: Seq<Seq<CellState>>,
    w: int,
    h: int,
    start: Coord,
    seen: Set<(int, int)>,
    x: int,
    y: int,
    n: nat,
)
    requires
        open_cell(g, w, h, start.x as int, start.y as int) ==> seen.contains((start.x as int, start.y as int)),
        forall|a: int, b: int|
            #[trigger] seen.contains((a, b)) ==> {
                &&& open_cell(g, w, h, a, b + 1) ==> seen.contains((a, b + 1))
                &&& open_cell(g, w, h, a, b - 1) ==> seen.contains((a, b - 1))
                &&& open_cell(g, w, h, a - 1, b) ==> seen.contains((a - 1, b))
                &&& open_cell(g, w, h, a + 1, b) ==> seen.contains((a + 1, b))
            },
        reach_within(g, w, h, start, x, y, n),
    ensures
        seen.contains((x, y)),
    decreases n,
{
    if n > 0 {
        let m = (n - 1) as nat;
        if reach_within(g, w, h, start, x, y, m) {
            lemma_closed_set_holds_reach(g, w, h, start, seen, x, y, m);
        } else if reach_within(g, w, h, start, x, y - 1, m) {
            lemma_closed_set_holds_reach(g, w, h, start, seen, x, y - 1, m);
            assert(seen.contains((x, (y - 1) + 1)));
        } else if reach_within(g, w, h, start, x, y + 1, m) {
            lemma_closed_set_holds_reach(g, w, h, start, seen, x, y + 1, m);
            assert(seen.contains((x, (y + 1) - 1)));
        } else if reach_within(g, w, h, start, x + 1, y, m) {
            lemma_closed_set_holds_reach(g, w, h, start, seen, x + 1, y, m);
            assert(seen.contains(((x + 1) - 1, y)));
        } else {
            lemma_closed_set_holds_reach(g, w, h, start, seen, x - 1, y, m);
            assert(seen.contains(((x - 1) + 1, y)));
        }
    }
}

/// The free space from `start` is the least set of cells that holds `start`
/// when `start` is a `SAFE` board cell and, with each of its members, every
/// `SAFE` board cell directly above, below, left or right of it: its members
/// are `SAFE` board cells, it is closed under those four steps, and it lies
/// within every set `other` that holds the start and is closed the same way.
pub proof fn lemma_region_is_least_closed_set(
    g: Seq<Seq<CellState>>,
    w: int,
    h: int,
    start: Coord,
    other: Set<(int, int)>,
)
    ensures
        forall|c: (int, int)| #[trigger] open_region(g, w, h, start).contains(c) ==>
            0 <= c.0 < w && 0 <= c.1 < h && g[c.1][c.0] == CellState::SAFE,
        (0 <= start.x < w && 0 <= start.y < h && g[start.y as int][start.x as int] == CellState::SAFE)
            ==> open_region(g, w, h, start).contains((start.x as int, start.y as int)),
        forall|x: int, y: int| #[trigger] open_region(g, w, h, start).contains((x, y)) ==> {
            &&& (0 <= y + 1 < h && 0 <= x < w && g[y + 1][x] == CellState::SAFE) ==> open_region(g, w, h, start).contains((x, y + 1))
            &&& (0 <= y - 1 < h && 0 <= x < w && g[y - 1][x] == CellState::SAFE) ==> open_region(g, w, h, start).contains((x, y - 1))
            &&& (0 <= x - 1 < w && 0 <= y < h && g[y][x - 1] == CellState::SAFE) ==> open_region(g, w, h, start).contains((x - 1, y))
            &&& (0 <= x + 1 < w && 0 <= y < h && g[y][x + 1] == CellState::SAFE) ==> open_region(g, w, h, start).contains((x + 1, y))
        },
        ({
            &&& (0 <= start.x < w && 0 <= start.y < h && g[start.y as int][start.x as int] == CellState::SAFE)
                ==> other.contains((start.x as int, start.y as int))
            &&& forall|a: int, b: int| #[trigger] other.contains((a, b)) ==> {
                &&& (0 <= b + 1 < h && 0 <= a < w && g[b + 1][a] == CellState::SAFE) ==> other.contains((a, b + 1))
                &&& (0 <= b - 1 < h && 0 <= a < w && g[b - 1][a] == CellState::SAFE) ==> other.contains((a, b - 1))
                &&& (0 <= a - 1 < w && 0 <= b < h && g[b][a - 1] == CellState::SAFE) ==> other.contains((a - 1, b))
                &&& (0 <= a + 1 < w && 0 <= b < h && g[b][a + 1] == CellState::SAFE) ==> other.contains((a + 1, b))
            }
        }) ==> open_region(g, w, h, start).subset_of(other),
{
    let region = open_region(g, w, h, start);
    assert forall|c: (int, int)| #[trigger] region.contains(c) implies 0 <= c.0 < w && 0 <= c.1 < h && g[c.1][c.0]
        == CellState::SAFE by {
        let n = choose|n: nat| reach_within(g, w, h, start, c.0, c.1, n);
        lemma_reach_ends_open(g, w, h, start, c.0, c.1, n);
    }
    if open_cell(g, w, h, start.x as int, start.y as int) {
        assert(reach_within(g, w, h, start, start.x as int, start.y as int, 0));
    }
    assert forall|x: int, y: int| #[trigger] region.contains((x, y)) implies {
        &&& (0 <= y + 1 < h && 0 <= x < w && g[y + 1][x] == CellState::SAFE) ==> region.contains((x, y + 1))
        &&& (0 <= y - 1 < h && 0 <= x < w && g[y - 1][x] == CellState::SAFE) ==> region.contains((x, y - 1))
        &&& (0 <= x - 1 < w && 0 <= y < h && g[y][x - 1] == CellState::SAFE) ==> region.contains((x - 1, y))
        &&& (0 <= x + 1 < w && 0 <= y < h && g[y][x + 1] == CellState::SAFE) ==> region.contains((x + 1, y))
    } by {
        let n = choose|n: nat| reach_within(g, w, h, start, x, y, n);
        let up = y + 1;
        let down = y - 1;
        let left = x - 1;
        let right = x + 1;
        assert(reach_within(g, w, h, start, x, up, n + 1) <== open_cell(g, w, h, x, up));
        assert(reach_within(g, w, h, start, x, down, n + 1) <== open_cell(g, w, h, x, down));
        assert(reach_within(g, w, h, start, left, y, n + 1) <== open_cell(g, w, h, left, y));
        assert(reach_within(g, w, h, start, right, y, n + 1) <== open_cell(g, w, h, right, y));
    }
    if ({
        &&& (0 <= start.x < w && 0 <= start.y < h && g[start.y as int][start.x as int] == CellState::SAFE)
            ==> other.contains((start.x as int, start.y as int))
        &&& forall|a: int, b: int| #[trigger] other.contains((a, b)) ==> {
            &&& (0 <= b + 1 < h && 0 <= a < w && g[b + 1][a] == CellState::SAFE) ==> other.contains((a, b + 1))
            &&& (0 <= b - 1 < h && 0 <= a < w && g[b - 1][a] == CellState::SAFE) ==> other.contains((a, b - 1))
            &&& (0 <= a - 1 < w && 0 <= b < h && g[b][a - 1] == CellState::SAFE) ==> other.contains((a - 1, b))
            &&& (0 <= a + 1 < w && 0 <= b < h && g[b][a + 1] == CellState::SAFE) ==> other.contains((a + 1, b))
        }
    }) {
        assert forall|c: (int, int)| #[trigger] region.contains(c) implies other.contains(c) by {
            let n = choose|n: nat| reach_within(g, w, h, start, c.0, c.1, n);
            lemma_closed_set_holds_reach(g, w, h, start, other, c.0, c.1, n);
        }
    }
}

/// The free space reached from any cell of a region is that same region.
pub proof fn lemma_region_same_from_member(g: Seq<Seq<CellState>>, w: int, h: int, start: Coord, c: Coord)
    requires
        w <= i32::MAX,
        h <= i32::MAX,
        open_region(g, w, h, start).contains((c.x as int, c.y as int)),
    ensures
        open_region(g, w, h, c) == open_region(g, w, h, start),
{
    let n = choose|n: nat| reach_within(g, w, h, start, c.x as int, c.y as int, n);
    lemma_reach_symmetric(g, w, h, start, c, n);
    assert forall|p: (int, int)| open_region(g, w, h, c).contains(p) <==> open_region(g, w, h, start).contains(p) by {
        if open_region(g, w, h, c).contains(p) {
            let m = choose|m: nat| reach_within(g, w, h, c, p.0, p.1, m);
            lemma_reach_trans(g, w, h, start, c, p.0, p.1, n, m);
        }
        if open_region(g, w, h, start).contains(p) {
            let m = choose|m: nat| reach_within(g, w, h, start, p.0, p.1, m);
            lemma_reach_trans(g, w, h, c, start, p.0, p.1, n, m);
        }
    }
    assert(open_region(g, w, h, c) =~= open_region(g, w, h, start));
}

/// The free space is a finite set of open cells of the board: at most
/// `w * h` of them, none when the start is not open, and the start itself
/// when it is.
pub proof fn lemma_region_bounds(g: Seq<Seq<CellState>>, w: int, h: int, start: Coord)
    requires
        0 <= w,
        0 <= h,
    ensures
        open_region(g, w, h, start).finite(),
        open_region(g, w, h, start).len() <= w * h,
        forall|c: (int, int)| #[trigger] open_region(g, w, h, start).contains(c) ==> open_cell(g, w, h, c.0, c.1),
        !open_cell(g, w, h, start.x as int, start.y as int) ==> open_region(g, w, h, start).len() == 0,
        open_cell(g, w, h, start.x as int, start.y as int) ==> open_region(g, w, h, start).contains((start.x as int, start.y as int))
            && open_region(g, w, h, start).len() >= 1,
{
    let region = open_region(g, w, h, start);
    assert forall|c: (int, int)| #[trigger] region.contains(c) implies open_cell(g, w, h, c.0, c.1)
        && open_cell(g, w, h, start.x as int, start.y as int) by {
        let n = choose|n: nat| reach_within(g, w, h, start, c.0, c.1, n);
        lemma_reach_ends_open(g, w, h, start, c.0, c.1, n);
    }
    lemma_board_cells_len(w, h);
    assert(region.subset_of(board_cells(w, h)));
    vstd::set_lib::lemma_len_subset(region, board_cells(w, h));
    if !open_cell(g, w, h, start.x as int, start.y as int) {
        assert(region =~= Set::empty());
    } else {
        assert(reach_within(g, w, h, start, start.x as int, start.y as int, 0));
        assert(region.contains((start.x as int, start.y as int)));
        assert(region.len() >= 1) by {
            if region.len() == 0 {
                assert(region =~= Set::empty());
            }
        }
    }
}

/// Every cell of a move's free space is a board cell that no snake claims:
/// no middle body part of any snake, no head of a snake at least as long as
/// `me`, and no cell next to the head of such a rival.
pub proof fn lemma_free_space_avoids_snakes(me: Battlesnake, board: Board, next: Coord)
    ensures
        forall|x: int, y: int, k: int|
            #[trigger] open_region(threat_map(me, board), board.width as int, board.height as int, next).contains((x, y))
                && 0 <= k < board.snakes@.len() ==> {
                &&& in_bounds(board.width as int, board.height as int, x, y)
                &&& !crate::datatypes::middle_part_at(#[trigger] board.snakes@[k], x, y)
                &&& !(board.snakes@[k].length >= me.length && crate::datatypes::at(board.snakes@[k].head, x, y))
                &&& !(board.snakes@[k].length >= me.length && board.snakes@[k].id@ != me.id@
                    && crate::datatypes::next_to(board.snakes@[k].head, x, y))
            },
{
    let w = board.width as int;
    let h = board.height as int;
    let g = threat_map(me, board);
    assert forall|x: int, y: int, k: int|
        #[trigger] open_region(g, w, h, next).contains((x, y)) && 0 <= k < board.snakes@.len() implies {
            &&& in_bounds(w, h, x, y)
            &&& !crate::datatypes::middle_part_at(#[trigger] board.snakes@[k], x, y)
            &&& !(board.snakes@[k].length >= me.length && crate::datatypes::at(board.snakes@[k].head, x, y))
            &&& !(board.snakes@[k].length >= me.length && board.snakes@[k].id@ != me.id@
                && crate::datatypes::next_to(board.snakes@[k].head, x, y))
        } by {
        let n = choose|n: nat| reach_within(g, w, h, next, x, y, n);
        lemma_reach_ends_open(g, w, h, next, x, y, n);
        assert(threat_at(me, board.snakes@, w, h, x, y) == CellState::SAFE);
        crate::algorithms::lemma_safe_cells_are_unclaimed(me, board.snakes@, w, h, x, y);
    }
}

/// Counts the cells that can be reached from `start` by stepping between
/// neighbouring `SAFE` cells of `thread_board` (a flood fill); 0 when `start`
/// itself is not `SAFE`.
pub fn count_space(start: &Coord, thread_board: &Vec<Vec<CellState>>, board: &Board) -> (r: u32)
    requires
        in_bounds(board.width as int, board.height as int, start.x as int, start.y as int),
        covers(thread_board@, board.width as int, board.height as int),
        open_region(cells_of(thread_board@), board.width as int, board.height as int, *start).len() <= u32::MAX,
    ensures
        r == open_region(cells_of(thread_board@), board.width as int, board.height as int, *start).len(),
{
    let ghost g = cells_of(thread_board@);
    let ghost w = board.width as int;
    let ghost h = board.height as int;
    let mut visited = new_grid(board.width as usize, board.height as usize, false);
    let mut queue: VecDeque<Coord> = VecDeque::new();
    queue.push_back(*start);
    let mut count: u32 = 0;
    let ghost mut seen: Set<(int, int)> = Set::empty();
    proof {
        lemma_board_cells_len(w, h);
        lemma_region_bounds(g, w, h, *start);
        assert(queue@[0] == *start);
    }
    while queue.len() > 0
        invariant
            g == cells_of(thread_board@),
            w == board.width,
            h == board.height,
            in_bounds(w, h, start.x as int, start.y as int),
            covers(thread_board@, w, h),
            open_region(g, w, h, *start).finite(),
            open_region(g, w, h, *start).len() <= u32::MAX,
            board_cells(w, h).finite(),
            board_cells(w, h).len() <= w * h,
            is_grid(visited@, w, h),
            forall|x: int, y: int| in_bounds(w, h, x, y) ==> (#[trigger] visited@[y]@[x] == seen.contains((x, y))),
            seen_sound(g, w, h, *start, seen),
            seen.finite(),
            count == seen.len(),
            count <= w * h,
            queue_grounded(w, h, *start, seen, queue@),
            frontier_covered(g, w, h, seen, queue@),
            covered(g, w, h, seen, queue@, start.x as int, start.y as int),
        decreases 5 * (w * h - count) + queue@.len(),
    {
        let ghost q0 = queue@;
        if let Some(p) = queue.pop_front() {
            proof {
                lemma_pending_pop(q0);
            }
            let px = p.x as usize;
            let py = p.y as usize;
            assert(g[py as int][px as int] == thread_board@[py as int]@[px as int]);
            if !thread_board[py][px].is_safe(false) {
                continue;
            }
            if visited[py][px] {
                continue;
            }
            proof {
                // p is reachable: it is the start or next to a counted cell
                let c = (p.x as int, p.y as int);
                let below = c.1 - 1;
                let above = c.1 + 1;
                let right = c.0 + 1;
                let left = c.0 - 1;
                if p == *start {
                    assert(reach_within(g, w, h, *start, c.0, c.1, 0));
                } else if seen.contains((c.0, below)) {
                    let n = choose|n: nat| reach_within(g, w, h, *start, c.0, below, n);
                    assert(reach_within(g, w, h, *start, c.0, c.1, n + 1));
                } else if seen.contains((c.0, above)) {
                    let n = choose|n: nat| reach_within(g, w, h, *start, c.0, above, n);
                    assert(reach_within(g, w, h, *start, c.0, c.1, n + 1));
                } else if seen.contains((right, c.1)) {
                    let n = choose|n: nat| reach_within(g, w, h, *start, right, c.1, n);
                    assert(reach_within(g, w, h, *start, c.0, c.1, n + 1));
                } else {
                    assert(seen.contains((left, c.1)));
                    let n = choose|n: nat| reach_within(g, w, h, *start, left, c.1, n);
                    assert(reach_within(g, w, h, *start, c.0, c.1, n + 1));
                }
                seen = seen.insert(c);
                vstd::set_lib::lemma_len_subset(seen, board_cells(w, h));
                assert(seen.subset_of(open_region(g, w, h, *start)));
                vstd::set_lib::lemma_len_subset(seen, open_region(g, w, h, *start));
            }
            count += 1;
            paint(&mut visited, px, py, true);
            let around = p.surrounded();
            let ghost q1 = queue@;
            let mut j: usize = 0;
            while j < 4
                invariant
                    g == cells_of(thread_board@),
                    w == board.width,
                    h == board.height,
                    in_bounds(w, h, p.x as int, p.y as int),
                    around@ == neighbours(p),
                    j <= 4,
                    seen.contains((p.x as int, p.y as int)),
                    queue@.len() <= q1.len() + j,
                    forall|x: int, y: int| #[trigger] pending(q1, x, y) ==> pending(queue@, x, y),
                    forall|t: int|
                        0 <= t < j ==> covered(
                            g,
                            w,
                            h,
                            seen,
                            queue@,
                            (#[trigger] around@[t]).x as int,
                            around@[t].y as int,
                        ),
                    queue_grounded(w, h, *start, seen, queue@),
                decreases 4 - j,
            {
                let pp = around[j];
                if pp.x < 0 || pp.y < 0 || pp.x >= board.width || pp.y >= board.height {
                    j += 1;
                    continue;
                }
                proof {
                    lemma_pending_push(queue@, pp);
                }
                queue.push_back(pp);
                j += 1;
            }
            proof {
                assert(around@[0] == neighbours(p)[0]);
                assert(around@[1] == neighbours(p)[1]);
                assert(around@[2] == neighbours(p)[2]);
                assert(around@[3] == neighbours(p)[3]);
                assert(covered(g, w, h, seen, queue@, around@[0].x as int, around@[0].y as int));
                assert(covered(g, w, h, seen, queue@, around@[1].x as int, around@[1].y as int));
                assert(covered(g, w, h, seen, queue@, around@[2].x as int, around@[2].y as int));
                assert(covered(g, w, h, seen, queue@, around@[3].x as int, around@[3].y as int));
            }
        }
    }
    proof {
        assert forall|a: int, b: int| #[trigger] seen.contains((a, b)) implies {
            &&& open_cell(g, w, h, a, b + 1) ==> seen.contains((a, b + 1))
            &&& open_cell(g, w, h, a, b - 1) ==> seen.contains((a, b - 1))
            &&& open_cell(g, w, h, a - 1, b) ==> seen.contains((a - 1, b))
            &&& open_cell(g, w, h, a + 1, b) ==> seen.contains((a + 1, b))
        } by {
            assert(!pending(queue@, a, b + 1));
            assert(!pending(queue@, a, b - 1));
            assert(!pending(queue@, a - 1, b));
            assert(!pending(queue@, a + 1, b));
        }
        assert(!pending(queue@, start.x as int, start.y as int));
        assert forall|c: (int, int)| #[trigger] open_region(g, w, h, *start).contains(c) implies seen.contains(c) by {
            let n = choose|n: nat| reach_within(g, w, h, *start, c.0, c.1, n);
            lemma_closed_set_holds_reach(g, w, h, *start, seen, c.0, c.1, n);
        }
        assert(open_region(g, w, h, *start) =~= seen);
    }
    count
}

/// The heads of the other snakes shorter than `me`.
pub fn get_low_level_snakes(me: &Battlesnake, board: &Board) -> (r: Vec<Coord>)
    ensures
        r@ == smaller_rival_heads(*me, board.snakes@, 1),
{
    let mut output: Vec<Coord> = Vec::new();
    let mut k: usize = 0;
    while k < board.snakes.len()
        invariant
            k <= board.snakes@.len(),
            output@ == smaller_rival_heads(*me, board.snakes@.take(k as int), 1),
        decreases board.snakes@.len() - k,
    {
        let snake = &board.snakes[k];
        assert(board.snakes@.take(k as int + 1).drop_last() =~= board.snakes@.take(k as int));
        if snake.id != me.id && snake.length < me.length {
            output.push(snake.head);
        }
        k += 1;
    }
    assert(board.snakes@.take(board.snakes@.len() as int) =~= board.snakes@);
    output
}

/// The inputs of the food-approach score for the move in `data`, or `None`
/// (the state stays as it is) when the move is deadly.
pub fn food_dest(data: &EvalData, state: CellState) -> (r: Option<ApproachMeasure>)
    requires
        state != CellState::DEATH ==> {
            &&& distances_fit(*data.next_head, data.board.food@)
            &&& i32::MIN <= data.board.width + data.board.height <= i32::MAX
        },
    ensures
        state == CellState::DEATH ==> r is None,
        state != CellState::DEATH ==> r == Some(
            ApproachMeasure {
                distance: nearest_distance(*data.next_head, data.board.food@) as i32,
                health: data.me.health,
                area: (data.board.width + data.board.height) as i32,
            },
        ),
{
    if state == CellState::DEATH {
        return None;
    }
    let dist = min_distance(*data.next_head, data.board.food.as_slice());
    let area = data.board.width + data.board.height;
    Some(ApproachMeasure { distance: dist, health: data.me.health, area })
}

/// The inputs of the score for closing in on a shorter snake, or `None` (the
/// state stays as it is) when the move is deadly or no other snake is shorter.
pub fn aggressive_dest(data: &EvalData, state: CellState) -> (r: Option<ApproachMeasure>)
    requires
        state != CellState::DEATH && smaller_rival_heads(*data.me, data.board.snakes@, 1).len() > 0 ==> {
            &&& distances_fit(*data.next_head, smaller_rival_heads(*data.me, data.board.snakes@, 1))
            &&& i32::MIN <= data.board.width + data.board.height <= i32::MAX
        },
    ensures
        state == CellState::DEATH || smaller_rival_heads(*data.me, data.board.snakes@, 1).len() == 0 ==> r is None,
        state != CellState::DEATH && smaller_rival_heads(*data.me, data.board.snakes@, 1).len() > 0 ==> r == Some(
            ApproachMeasure {
                distance: nearest_distance(*data.next_head, smaller_rival_heads(*data.me, data.board.snakes@, 1)) as i32,
                health: data.me.health,
                area: (data.board.width + data.board.height) as i32,
            },
        ),
{
    if state == CellState::DEATH {
        return None;
    }
    let low_level_heads = get_low_level_snakes(data.me, data.board);
    if low_level_heads.len() == 0 {
        return None;
    }
    let dist = min_distance(*data.next_head, low_level_heads.as_slice());
    let area = data.board.width + data.board.height;
    Some(ApproachMeasure { distance: dist, health: data.me.health, area })
}

/// The inputs of the space score for the move in `data`, or `None` (the state
/// stays as it is) when the move is deadly: how many cells the next head can
/// reach through safe cells of the threat map.
pub fn space_check(data: &EvalData, state: CellState) -> (r: Option<SpaceMeasure>)
    requires
        state != CellState::DEATH ==> {
            &&& board_paintable(*data.me, *data.board)
            &&& in_bounds(data.board.width as int, data.board.height as int, data.next_head.x as int, data.next_head.y as int)
            &&& free_space(*data.me, *data.board, *data.next_head) <= u32::MAX
        },
    ensures
        state == CellState::DEATH ==> r is None,
        state != CellState::DEATH ==> r == Some(
            SpaceMeasure {
                space: free_space(*data.me, *data.board, *data.next_head) as u32,
                length: data.me.length,
                within_length: free_space(*data.me, *data.board, *data.next_head) <= data.me.length,
            },
        ),
{
    if state == CellState::DEATH {
        return None;
    }
    let thread_board = build_threat_board(data.me, data.board);
    proof {
        let map = threat_map(*data.me, *data.board);
        assert forall|y: int| 0 <= y < data.board.height implies #[trigger] cells_of(thread_board@)[y] =~= map[y] by {
        }
        assert(cells_of(thread_board@) =~= map);
    }
    let space = count_space(data.next_head, &thread_board, data.board);
    let within_length = (space as i64) <= (data.me.length as i64);
    Some(SpaceMeasure { space, length: data.me.length, within_length })
}

} // verus!
