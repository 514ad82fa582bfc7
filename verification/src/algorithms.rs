use vstd::prelude::*;

use crate::datatypes::{
    at, direction_names_distinct, direction_offset, lemma_direction_names_distinct, middle_part_at, move_name,
    move_name_of, next_head_for, next_to, Battlesnake, Board, CellState, Coord,
};
use crate::grid::{in_bounds, is_grid, new_grid, paint, paint_middle, paint_ring};
use crate::move_algos::{free_space, space_check, EvalData, SpaceMeasure};

verus! {

/// What a snake paints over the cell `(x, y)` of the threat map of `me`,
/// given the state `before` left by the snakes before it: its middle body
/// parts are deadly; a snake at least as long as `me` makes its head cell
/// deadly and, unless it is `me`, marks the cells next to its head as
/// possibly entered by that head.
pub open spec fn painted_by(me: Battlesnake, s: Battlesnake, w: int, h: int, x: int, y: int, before: CellState) -> CellState {
    if middle_part_at(s, x, y) {
        CellState::DEATH
    } else if s.length >= me.length && s.id@ != me.id@ && in_bounds(w, h, x, y) && next_to(s.head, x, y) {
        CellState::POTENTIAL_HEAD
    } else if s.length >= me.length && at(s.head, x, y) {
        CellState::DEATH
    } else {
        before
    }
}

/// The state of cell `(x, y)` after painting `snakes` in order over a board
/// that starts out all `SAFE`.
pub open spec fn threat_at(me: Battlesnake, snakes: Seq<Battlesnake>, w: int, h: int, x: int, y: int) -> CellState
    decreases snakes.len(),
{
    if snakes.len() == 0 {
        CellState::SAFE
    } else {
        painted_by(me, snakes.last(), w, h, x, y, threat_at(me, snakes.drop_last(), w, h, x, y))
    }
}

/// A cell is `SAFE` in the threat map exactly when no snake claims it: it
/// holds no middle body part, no head of a snake at least as long as `me`,
/// and (on the board) is not next to the head of such a snake other than `me`.
pub proof fn lemma_safe_cells_are_unclaimed(me: Battlesnake, snakes: Seq<Battlesnake>, w: int, h: int, x: int, y: int)
    ensures
        threat_at(me, snakes, w, h, x, y) == CellState::SAFE <==> forall|k: int|
            0 <= k < snakes.len() ==> {
                &&& !middle_part_at(#[trigger] snakes[k], x, y)
                &&& !(snakes[k].length >= me.length && at(snakes[k].head, x, y))
                &&& !(snakes[k].length >= me.length && snakes[k].id@ != me.id@ && in_bounds(w, h, x, y)
                    && next_to(snakes[k].head, x, y))
            },
    decreases snakes.len(),
{
    if snakes.len() > 0 {
        let init = snakes.drop_last();
        let last = snakes.len() - 1;
        lemma_safe_cells_are_unclaimed(me, init, w, h, x, y);
        assert(snakes[last] == snakes.last());
        if threat_at(me, snakes, w, h, x, y) == CellState::SAFE {
            assert forall|k: int| 0 <= k < snakes.len() implies {
                &&& !middle_part_at(#[trigger] snakes[k], x, y)
                &&& !(snakes[k].length >= me.length && at(snakes[k].head, x, y))
                &&& !(snakes[k].length >= me.length && snakes[k].id@ != me.id@ && in_bounds(w, h, x, y)
                    && next_to(snakes[k].head, x, y))
            } by {
                if k < last {
                    assert(init[k] == snakes[k]);
                }
            }
        }
        if forall|k: int|
            0 <= k < snakes.len() ==> {
                &&& !middle_part_at(#[trigger] snakes[k], x, y)
                &&& !(snakes[k].length >= me.length && at(snakes[k].head, x, y))
                &&& !(snakes[k].length >= me.length && snakes[k].id@ != me.id@ && in_bounds(w, h, x, y)
                    && next_to(snakes[k].head, x, y))
            } {
            assert forall|k: int| 0 <= k < init.len() implies {
                &&& !middle_part_at(#[trigger] init[k], x, y)
                &&& !(init[k].length >= me.length && at(init[k].head, x, y))
                &&& !(init[k].length >= me.length && init[k].id@ != me.id@ && in_bounds(w, h, x, y)
                    && next_to(init[k].head, x, y))
            } by {
                assert(init[k] == snakes[k]);
            }
            assert(!middle_part_at(snakes[last], x, y));
        }
    }
}

/// The last snake painted decides the cells it claims: its middle body parts
/// (indices 1 to `len - 2`) become `DEATH`; otherwise, when it is at least as
/// long as `me`, the board cells one step from its head become
/// `POTENTIAL_HEAD` if it is not `me`, and its head cell becomes `DEATH`.
/// Every other cell keeps the state the earlier snakes left.
pub proof fn lemma_last_snake_paints(me: Battlesnake, snakes: Seq<Battlesnake>, w: int, h: int, x: int, y: int)
    requires
        snakes.len() > 0,
    ensures
        ({
            let s = snakes.last();
            let middle = exists|i: int| 1 <= i < s.body@.len() - 1 && (#[trigger] s.body@[i]).x == x && s.body@[i].y == y;
            let long = s.length >= me.length;
            let ring = long && s.id@ != me.id@ && 0 <= x < w && 0 <= y < h
                && vstd::math::abs(x - s.head.x) + vstd::math::abs(y - s.head.y) == 1;
            let head = long && s.head.x == x && s.head.y == y;
            &&& middle ==> threat_at(me, snakes, w, h, x, y) == CellState::DEATH
            &&& !middle && ring ==> threat_at(me, snakes, w, h, x, y) == CellState::POTENTIAL_HEAD
            &&& !middle && head ==> threat_at(me, snakes, w, h, x, y) == CellState::DEATH
            &&& !middle && !ring && !head ==> threat_at(me, snakes, w, h, x, y) == threat_at(me, snakes.drop_last(), w, h, x, y)
        }),
{
}

/// The cells that painting `s` writes lie on the board, and its body has a
/// head and a last part.
pub open spec fn snake_paintable(me: Battlesnake, s: Battlesnake, w: int, h: int) -> bool {
    &&& s.length >= me.length ==> in_bounds(w, h, s.head.x as int, s.head.y as int)
    &&& s.body@.len() >= 2
    &&& forall|i: int| 1 <= i < s.body@.len() - 1 ==> in_bounds(w, h, (#[trigger] s.body@[i]).x as int, s.body@[i].y as int)
}

/// Every snake of the board can be painted on it.
pub open spec fn board_paintable(me: Battlesnake, board: Board) -> bool {
    &&& board.width >= 0
    &&& board.height >= 0
    &&& forall|k: int| 0 <= k < board.snakes@.len() ==> snake_paintable(me, #[trigger] board.snakes@[k], board.width as int, board.height as int)
}

/// Marks, for `me`, each cell of the board as deadly (a body, or the head of
/// a snake at least as long), possibly entered by such a head, or safe.
pub fn build_threat_board(me: &Battlesnake, board: &Board) -> (r: Vec<Vec<CellState>>)
    requires
        board_paintable(*me, *board),
    ensures
        is_grid(r@, board.width as int, board.height as int),
        forall|x: int, y: int| in_bounds(board.width as int, board.height as int, x, y) ==>
            (#[trigger] r@[y]@[x]) == threat_at(*me, board.snakes@, board.width as int, board.height as int, x, y),
{
    let ghost w = board.width as int;
    let ghost h = board.height as int;
    let ghost snakes = board.snakes@;
    let mut threat_board = new_grid(board.width as usize, board.height as usize, CellState::SAFE);
    let mut k: usize = 0;
    while k < board.snakes.len()
        invariant
            w == board.width,
            h == board.height,
            snakes == board.snakes@,
            board_paintable(*me, *board),
            k <= snakes.len(),
            is_grid(threat_board@, w, h),
            forall|x: int, y: int| in_bounds(w, h, x, y) ==>
                (#[trigger] threat_board@[y]@[x]) == threat_at(*me, snakes.take(k as int), w, h, x, y),
        decreases snakes.len() - k,
    {
        let snake = &board.snakes[k];
        assert(snake_paintable(*me, *snake, w, h));
        // Head
        if snake.length >= me.length {
            paint(&mut threat_board, snake.head.x as usize, snake.head.y as usize, CellState::DEATH);
            if snake.id != me.id {
                paint_ring(&mut threat_board, snake.head, board.width, board.height, CellState::POTENTIAL_HEAD);
            }
        }
        // Body
        paint_middle(&mut threat_board, &snake.body, board.width, board.height, CellState::DEATH);
        proof {
            let taken = snakes.take(k as int + 1);
            assert(taken.drop_last() =~= snakes.take(k as int));
            assert(taken.last() == *snake);
            assert forall|x: int, y: int| in_bounds(w, h, x, y) implies
                (#[trigger] threat_board@[y]@[x]) == threat_at(*me, taken, w, h, x, y) by {}
        }
        k += 1;
    }
    assert(snakes.take(snakes.len() as int) =~= snakes);
    threat_board
}

/// The assessment of one move: its name, the state of the cell it enters,
/// and, unless that is deadly, the inputs of the space score.
#[derive(Clone, Copy, Debug)]
pub struct MoveEvaluation {
    pub direction: &'static str,
    pub state: CellState,
    pub space: Option<SpaceMeasure>,
}

/// The state of the cell that the `i`-th move of `me` enters: deadly off the
/// board, else its state in the threat map.
pub open spec fn move_state(me: Battlesnake, board: Board, i: int) -> CellState {
    let n = next_head_for(me.head, i);
    if !in_bounds(board.width as int, board.height as int, n.x as int, n.y as int) {
        CellState::DEATH
    } else {
        threat_at(me, board.snakes@, board.width as int, board.height as int, n.x as int, n.y as int)
    }
}

/// What the evaluation reports for the `i`-th move of `me`.
pub open spec fn move_evaluation(me: Battlesnake, board: Board, i: int, e: MoveEvaluation) -> bool {
    let state = move_state(me, board, i);
    let next = next_head_for(me.head, i);
    &&& e.direction@ == move_name(i)
    &&& e.state == state
    &&& e.space == if state == CellState::DEATH {
        None
    } else {
        Some(
            SpaceMeasure {
                space: free_space(me, board, next) as u32,
                length: me.length,
                within_length: free_space(me, board, next) <= me.length,
            },
        )
    }
}

/// The inputs `evaluate` needs: the head and the snakes lie on a board at
/// least two cells wide and high, and each free space it counts fits in `u32`.
pub open spec fn evaluable(me: Battlesnake, board: Board) -> bool {
    &&& board_paintable(me, board)
    &&& board.width >= 2
    &&& board.height >= 2
    &&& in_bounds(board.width as int, board.height as int, me.head.x as int, me.head.y as int)
    &&& forall|i: int| 0 <= i < 4 && #[trigger] move_state(me, board, i) != CellState::DEATH ==>
        free_space(me, board, next_head_for(me.head, i)) <= u32::MAX
}

/// What `evaluate` reports for the `i`-th move (up, down, left, right, one
/// cell along `y` or `x`): the move's name; `DEATH` and no space when the
/// next cell is off the board; otherwise the threat-map state of that cell,
/// with the free space counted from it exactly when that state is not `DEATH`.
pub proof fn lemma_evaluation_of_move(me: Battlesnake, board: Board, i: int, e: MoveEvaluation)
    requires
        0 <= i < 4,
        evaluable(me, board),
        move_evaluation(me, board, i, e),
    ensures
        ({
            let dx: int = if i == 2 { -1 } else if i == 3 { 1 } else { 0 };
            let dy: int = if i == 0 { 1 } else if i == 1 { -1 } else { 0 };
            let nx = me.head.x + dx;
            let ny = me.head.y + dy;
            let on_board = 0 <= nx < board.width && 0 <= ny < board.height;
            &&& e.direction@ == if i == 0 { "up"@ } else if i == 1 { "down"@ } else if i == 2 { "left"@ } else { "right"@ }
            &&& !on_board ==> e.state == CellState::DEATH && e.space is None
            &&& on_board ==> e.state == threat_at(me, board.snakes@, board.width as int, board.height as int, nx, ny)
            &&& (e.space is None <==> e.state == CellState::DEATH)
            &&& e.space matches Some(m) ==> {
                &&& m.space == crate::move_algos::open_region(
                    crate::move_algos::threat_map(me, board),
                    board.width as int,
                    board.height as int,
                    Coord { x: nx as i32, y: ny as i32 },
                ).len()
                &&& m.length == me.length
                &&& (m.within_length <==> m.space <= me.length)
            }
        }),
{
    lemma_direction_names_distinct();
    let dx: int = if i == 2 { -1 } else if i == 3 { 1 } else { 0 };
    let dy: int = if i == 0 { 1 } else if i == 1 { -1 } else { 0 };
    let n = next_head_for(me.head, i);
    assert(direction_offset(move_name(i)) == (dx, dy)) by {
        if i == 0 {
        } else if i == 1 {
        } else if i == 2 {
        } else {
        }
    }
    assert(n.x == me.head.x + dx && n.y == me.head.y + dy);
    assert(n == Coord { x: (me.head.x + dx) as i32, y: (me.head.y + dy) as i32 });
    if move_state(me, board, i) != CellState::DEATH {
        assert(free_space(me, board, n) <= u32::MAX);
    }
}

/// Assesses the four moves of `me` in the order up, down, left, right. A
/// move off the board or onto a deadly cell is `DEATH`; any other keeps the
/// cell's state from the threat map and carries the inputs of the space
/// score. The scoring steps are each applied to that initial state and the
/// last one, the space check, gives the result, so the food and aggression
/// steps leave no trace in it.
pub fn evaluate(me: &Battlesnake, board: &Board) -> (r: Vec<MoveEvaluation>)
    requires
        evaluable(*me, *board),
    ensures
        r@.len() == 4,
        forall|i: int| 0 <= i < 4 ==> move_evaluation(*me, *board, i, #[trigger] r@[i]),
{
    proof {
        lemma_direction_names_distinct();
    }
    let head = me.head;
    let threat_board = build_threat_board(me, board);
    // Step 1: moves that leave the board
    let left_off = head.x == 0;
    let right_off = !left_off && head.x == board.width - 1;
    let down_off = head.y == 0;
    let up_off = !down_off && head.y == board.height - 1;
    let mut output: Vec<MoveEvaluation> = Vec::new();
    let mut i: usize = 0;
    while i < 4
        invariant
            evaluable(*me, *board),
            head == me.head,
            is_grid(threat_board@, board.width as int, board.height as int),
            forall|x: int, y: int| in_bounds(board.width as int, board.height as int, x, y) ==>
                (#[trigger] threat_board@[y]@[x]) == threat_at(*me, board.snakes@, board.width as int, board.height as int, x, y),
            left_off == (head.x == 0),
            right_off == (head.x == board.width - 1),
            down_off == (head.y == 0),
            up_off == (head.y == board.height - 1),
            direction_names_distinct(),
            i <= 4,
            output@.len() == i,
            forall|k: int| 0 <= k < i ==> move_evaluation(*me, *board, k, #[trigger] output@[k]),
        decreases 4 - i,
    {
        let dir = move_name_of(i);
        let off_board = if i == 0 {
            up_off
        } else if i == 1 {
            down_off
        } else if i == 2 {
            left_off
        } else {
            right_off
        };
        let ghost next = next_head_for(head, i as int);
        assert(off_board == !in_bounds(board.width as int, board.height as int, next.x as int, next.y as int));
        if off_board {
            output.push(MoveEvaluation { direction: dir, state: CellState::DEATH, space: None });
        } else {
            let next_head = head.shift_by_name(dir);
            let init_state = threat_board[next_head.y as usize][next_head.x as usize];
            assert(next_head == next);
            assert(move_state(*me, *board, i as int) == init_state);
            if init_state == CellState::DEATH {
                output.push(MoveEvaluation { direction: dir, state: CellState::DEATH, space: None });
            } else {
                let eval_data = EvalData { me, board, next_head: &next_head };
                let space = space_check(&eval_data, init_state);
                output.push(MoveEvaluation { direction: dir, state: init_state, space });
            }
        }
        i += 1;
    }
    output
}

} // verus!
