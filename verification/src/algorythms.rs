use vstd::prelude::*;

use crate::algorithms::snake_paintable;
use crate::datatypes::{
    at, direction_names_distinct, direction_offset, lemma_direction_names_distinct, middle_part_at,
    move_name, move_name_of, next_head_for, next_to, offset_fits, Battlesnake, Board, Coord,
};
use crate::grid::{in_bounds, is_grid, new_grid, paint, paint_middle, paint_ring};
use crate::move_algos::smaller_rival_heads;
use crate::tools::{distances_fit, min_distance, nearest_distance};

verus! {

/// The classification used by the turn-aware evaluator, which also tells
/// apart the cell of a tail that may not move away this turn.
#[allow(non_camel_case_types)]
#[derive(Clone, Copy, Debug, PartialEq, Eq, Structural)]
pub enum CellState {
    SAFE,
    POTENTIALHEAD,
    POTENTIALTAIL,
    DEATH,
}

/// Some food lies next to the head of `s`.
pub open spec fn about_to_eat(s: Battlesnake, food: Seq<Coord>) -> bool {
    exists|i: int| 0 <= i < food.len() && next_to(s.head, (#[trigger] food[i]).x as int, food[i].y as int)
}

/// Some food lies at the cell the `t`-th move (up, down, left, right) leads
/// to from `head`.
pub open spec fn food_next_by_move(head: Coord, food: Seq<Coord>, t: int) -> bool {
    exists|i: int|
        0 <= i < food.len() && at(
            #[trigger] food[i],
            head.x + direction_offset(move_name(t)).0,
            head.y + direction_offset(move_name(t)).1,
        )
}

/// The `t`-th move from `head` stays within `i32`.
pub open spec fn move_fits(head: Coord, t: int) -> bool {
    offset_fits(head, direction_offset(move_name(t)).0, direction_offset(move_name(t)).1)
}

/// Each move that the food search takes from `head` stays within `i32`: the
/// search tries up, down, left and right in turn and stops at the first
/// cell holding food.
pub open spec fn food_search_fits(head: Coord, food: Seq<Coord>) -> bool {
    &&& move_fits(head, 0)
    &&& !food_next_by_move(head, food, 0) ==> move_fits(head, 1)
    &&& !food_next_by_move(head, food, 0) && !food_next_by_move(head, food, 1) ==> move_fits(head, 2)
    &&& !food_next_by_move(head, food, 0) && !food_next_by_move(head, food, 1) && !food_next_by_move(head, food, 2)
        ==> move_fits(head, 3)
}

/// The state of the tail cell of `s`: free once the game is past its first
/// turns and the snake is not about to eat (so its tail moves on), else
/// possibly still occupied.
pub open spec fn tail_state(s: Battlesnake, food: Seq<Coord>, turn: u32) -> CellState {
    if !about_to_eat(s, food) && turn >= 3 {
        CellState::SAFE
    } else {
        CellState::POTENTIALTAIL
    }
}

/// What the snake `s` paints over the cell `(x, y)` given the state `before`:
/// as the current evaluator does, and then its tail (the part at index
/// `length - 1`) gets `tail_state`.
pub open spec fn painted_by(
    me: Battlesnake,
    s: Battlesnake,
    w: int,
    h: int,
    food: Seq<Coord>,
    turn: u32,
    x: int,
    y: int,
    before: CellState,
) -> CellState {
    if at(s.body@[s.length - 1], x, y) {
        tail_state(s, food, turn)
    } else if middle_part_at(s, x, y) {
        CellState::DEATH
    } else if s.length >= me.length && s.id@ != me.id@ && in_bounds(w, h, x, y) && next_to(s.head, x, y) {
        CellState::POTENTIALHEAD
    } else if s.length >= me.length && at(s.head, x, y) {
        CellState::DEATH
    } else {
        before
    }
}

/// The state of cell `(x, y)` after painting `snakes` in order over a board
/// that starts out all `SAFE`.
pub open spec fn threat_at(
    me: Battlesnake,
    snakes: Seq<Battlesnake>,
    w: int,
    h: int,
    food: Seq<Coord>,
    turn: u32,
    x: int,
    y: int,
) -> CellState
    decreases snakes.len(),
{
    if snakes.len() == 0 {
        CellState::SAFE
    } else {
        painted_by(me, snakes.last(), w, h, food, turn, x, y, threat_at(me, snakes.drop_last(), w, h, food, turn, x, y))
    }
}

/// Besides what the current evaluator needs, the search for food next to the
/// head stays within `i32` and the tail index `length - 1` names a part on
/// the board.
pub open spec fn snake_paintable_with_tail(me: Battlesnake, s: Battlesnake, w: int, h: int, food: Seq<Coord>) -> bool {
    &&& snake_paintable(me, s, w, h)
    &&& food_search_fits(s.head, food)
    &&& 1 <= s.length <= s.body@.len()
    &&& in_bounds(w, h, s.body@[s.length - 1].x as int, s.body@[s.length - 1].y as int)
}

/// Every snake of the board can be painted on it, tail included.
pub open spec fn board_paintable_with_tails(me: Battlesnake, board: Board) -> bool {
    &&& board.width >= 0
    &&& board.height >= 0
    &&& forall|k: int| 0 <= k < board.snakes@.len() ==> snake_paintable_with_tail(me, #[trigger] board.snakes@[k], board.width as int, board.height as int, board.food@)
}

/// A snake is about to eat exactly when food lies at distance one from its
/// head: then the nearest food is at most one away, and food at distance one
/// means it is about to eat.
pub proof fn lemma_about_to_eat_is_food_at_distance_one(s: Battlesnake, food: Seq<Coord>)
    requires
        distances_fit(s.head, food),
    ensures
        about_to_eat(s, food) ==> nearest_distance(s.head, food) <= 1,
        nearest_distance(s.head, food) == 1 ==> about_to_eat(s, food),
{
    crate::tools::lemma_nearest_distance_is_minimum(s.head, food);
    if about_to_eat(s, food) {
        let i = choose|i: int| 0 <= i < food.len() && next_to(s.head, (#[trigger] food[i]).x as int, food[i].y as int);
        crate::tools::lemma_manhattan_basics(s.head, food[i]);
    }
    if nearest_distance(s.head, food) == 1 {
        assert(food.len() > 0);
        let i = choose|i: int| 0 <= i < food.len() && nearest_distance(s.head, food) == crate::tools::manhattan(s.head, #[trigger] food[i]);
        assert(next_to(s.head, food[i].x as int, food[i].y as int));
    }
}

/// The state of the current evaluator's threat map under this evaluator's names.
pub open spec fn as_turn_state(s: crate::datatypes::CellState) -> CellState {
    match s {
        crate::datatypes::CellState::SAFE => CellState::SAFE,
        crate::datatypes::CellState::POTENTIAL_HEAD => CellState::POTENTIALHEAD,
        crate::datatypes::CellState::DEATH => CellState::DEATH,
    }
}

/// No snake's tail (its part at index `length - 1`) lies at `(x, y)`.
pub open spec fn off_tails(snakes: Seq<Battlesnake>, x: int, y: int) -> bool {
    forall|k: int| 0 <= k < snakes.len() ==> !at((#[trigger] snakes[k]).body@[snakes[k].length - 1], x, y)
}

/// Away from the tails, the turn-aware threat map is the current one: tails
/// are the only cells on which the two evaluators disagree.
pub proof fn lemma_threat_maps_agree_off_tails(
    me: Battlesnake,
    snakes: Seq<Battlesnake>,
    w: int,
    h: int,
    food: Seq<Coord>,
    turn: u32,
    x: int,
    y: int,
)
    requires
        off_tails(snakes, x, y),
    ensures
        threat_at(me, snakes, w, h, food, turn, x, y) == as_turn_state(crate::algorithms::threat_at(me, snakes, w, h, x, y)),
    decreases snakes.len(),
{
    if snakes.len() > 0 {
        let init = snakes.drop_last();
        assert(off_tails(init, x, y)) by {
            assert forall|k: int| 0 <= k < init.len() implies !at((#[trigger] init[k]).body@[init[k].length - 1], x, y) by {
                assert(init[k] == snakes[k]);
            }
        }
        assert(!at(snakes.last().body@[snakes.last().length - 1], x, y)) by {
            assert(snakes[snakes.len() - 1] == snakes.last());
        }
        lemma_threat_maps_agree_off_tails(me, init, w, h, food, turn, x, y);
    }
}

/// The heads of the other snakes at least two shorter than `me`.
pub fn get_lowlevel_snakes(me: &Battlesnake, board: &Board) -> (r: Vec<Coord>)
    ensures
        r@ == smaller_rival_heads(*me, board.snakes@, 2),
{
    let mut output: Vec<Coord> = Vec::new();
    let mut k: usize = 0;
    while k < board.snakes.len()
        invariant
            k <= board.snakes@.len(),
            output@ == smaller_rival_heads(*me, board.snakes@.take(k as int), 2),
        decreases board.snakes@.len() - k,
    {
        let snake = &board.snakes[k];
        assert(board.snakes@.take(k as int + 1).drop_last() =~= board.snakes@.take(k as int));
        if snake.id != me.id && (snake.length as i64) <= (me.length as i64) - 2 {
            output.push(snake.head);
        }
        k += 1;
    }
    assert(board.snakes@.take(board.snakes@.len() as int) =~= board.snakes@);
    output
}

/// Whether `cells` holds `c`.
fn holds_coord(cells: &Vec<Coord>, c: Coord) -> (r: bool)
    ensures
        r == exists|i: int| 0 <= i < cells@.len() && #[trigger] cells@[i] == c,
{
    let mut i: usize = 0;
    while i < cells.len()
        invariant
            i <= cells@.len(),
            forall|j: int| 0 <= j < i ==> cells@[j] != c,
        decreases cells@.len() - i,
    {
        if cells[i] == c {
            return true;
        }
        i += 1;
    }
    false
}

/// Whether some food lies next to the head of `snake`.
pub fn is_about_to_eat(snake: &Battlesnake, board: &Board) -> (r: bool)
    requires
        food_search_fits(snake.head, board.food@),
    ensures
        r == about_to_eat(*snake, board.food@),
{
    proof {
        lemma_direction_names_distinct();
    }
    let head = snake.head;
    let mut j: usize = 0;
    while j < 4
        invariant
            head == snake.head,
            food_search_fits(head, board.food@),
            direction_names_distinct(),
            j <= 4,
            forall|u: int| 0 <= u < j ==> !#[trigger] food_next_by_move(head, board.food@, u),
        decreases 4 - j,
    {
        proof {
            if j > 0 {
                assert(!food_next_by_move(head, board.food@, 0));
            }
            if j > 1 {
                assert(!food_next_by_move(head, board.food@, 1));
            }
            if j > 2 {
                assert(!food_next_by_move(head, board.food@, 2));
            }
            assert(move_fits(head, j as int));
        }
        let next = head.shift_by_name(move_name_of(j));
        if holds_coord(&board.food, next) {
            proof {
                let i = choose|i: int| 0 <= i < board.food@.len() && #[trigger] board.food@[i] == next;
                assert(next_to(head, board.food@[i].x as int, board.food@[i].y as int));
            }
            return true;
        }
        proof {
            assert forall|i: int| 0 <= i < board.food@.len() implies !at(
                #[trigger] board.food@[i],
                head.x + direction_offset(move_name(j as int)).0,
                head.y + direction_offset(move_name(j as int)).1,
            ) by {
                if at(board.food@[i], head.x + direction_offset(move_name(j as int)).0, head.y + direction_offset(move_name(j as int)).1) {
                    assert(board.food@[i] == next);
                }
            }
        }
        j += 1;
    }
    proof {
        assert(!food_next_by_move(head, board.food@, 0));
        assert(!food_next_by_move(head, board.food@, 1));
        assert(!food_next_by_move(head, board.food@, 2));
        assert(!food_next_by_move(head, board.food@, 3));
        assert forall|i: int| 0 <= i < board.food@.len() implies !next_to(head, (#[trigger] board.food@[i]).x as int, board.food@[i].y as int) by {
            let f = board.food@[i];
            if next_to(head, f.x as int, f.y as int) {
                if at(f, head.x + 0, head.y + 1) {
                    assert(food_next_by_move(head, board.food@, 0));
                } else if at(f, head.x + 0, head.y - 1) {
                    assert(food_next_by_move(head, board.food@, 1));
                } else if at(f, head.x - 1, head.y + 0) {
                    assert(food_next_by_move(head, board.food@, 2));
                } else {
                    assert(food_next_by_move(head, board.food@, 3));
                }
            }
        }
    }
    false
}

/// Marks, for `me`, each cell of the board as deadly (a body, or the head of
/// a snake at least as long), possibly entered by such a head, a tail that
/// may stay in place, or safe. Tails free up from turn 3 on unless their
/// snake is about to eat.
pub fn build_threat_board(me: &Battlesnake, board: &Board, turn: u32) -> (r: Vec<Vec<CellState>>)
    requires
        board_paintable_with_tails(*me, *board),
    ensures
        is_grid(r@, board.width as int, board.height as int),
        forall|x: int, y: int| in_bounds(board.width as int, board.height as int, x, y) ==>
            (#[trigger] r@[y]@[x]) == threat_at(*me, board.snakes@, board.width as int, board.height as int, board.food@, turn, x, y),
{
    let ghost w = board.width as int;
    let ghost h = board.height as int;
    let ghost snakes = board.snakes@;
    let ghost food = board.food@;
    let mut threat_board = new_grid(board.width as usize, board.height as usize, CellState::SAFE);
    let mut k: usize = 0;
    while k < board.snakes.len()
        invariant
            w == board.width,
            h == board.height,
            snakes == board.snakes@,
            food == board.food@,
            board_paintable_with_tails(*me, *board),
            k <= snakes.len(),
            is_grid(threat_board@, w, h),
            forall|x: int, y: int| in_bounds(w, h, x, y) ==>
                (#[trigger] threat_board@[y]@[x]) == threat_at(*me, snakes.take(k as int), w, h, food, turn, x, y),
        decreases snakes.len() - k,
    {
        let snake = &board.snakes[k];
        assert(snake_paintable_with_tail(*me, *snake, w, h, food));
        // Head
        if snake.length >= me.length {
            paint(&mut threat_board, snake.head.x as usize, snake.head.y as usize, CellState::DEATH);
            if snake.id != me.id {
                paint_ring(&mut threat_board, snake.head, board.width, board.height, CellState::POTENTIALHEAD);
            }
        }
        // Body
        paint_middle(&mut threat_board, &snake.body, board.width, board.height, CellState::DEATH);
        // Tail
        let about_to_eat_now = is_about_to_eat(snake, board);
        let tail = snake.body[(snake.length - 1) as usize];
        if !about_to_eat_now && turn >= 3 {
            paint(&mut threat_board, tail.x as usize, tail.y as usize, CellState::SAFE);
        } else {
            paint(&mut threat_board, tail.x as usize, tail.y as usize, CellState::POTENTIALTAIL);
        }
        proof {
            let taken = snakes.take(k as int + 1);
            assert(taken.drop_last() =~= snakes.take(k as int));
            assert(taken.last() == *snake);
            assert forall|x: int, y: int| in_bounds(w, h, x, y) implies
                (#[trigger] threat_board@[y]@[x]) == threat_at(*me, taken, w, h, food, turn, x, y) by {}
        }
        k += 1;
    }
    assert(snakes.take(snakes.len() as int) =~= snakes);
    threat_board
}

/// The assessment of one move by the turn-aware evaluator: its name, the
/// state of the cell it enters and, for a safe cell, the distance from there
/// to the nearest target.
#[derive(Clone, Copy, Debug)]
pub struct MoveApproach {
    pub direction: &'static str,
    pub state: CellState,
    pub distance: Option<i32>,
}

/// Where `me` heads for: the food when hungry (health at most 30) or when no
/// other snake is at least two shorter, else the heads of those snakes.
pub open spec fn approach_targets(me: Battlesnake, board: Board) -> Seq<Coord> {
    let heads = smaller_rival_heads(me, board.snakes@, 2);
    if me.health <= 30 || heads.len() == 0 {
        board.food@
    } else {
        heads
    }
}

/// The state of the cell that the `i`-th move of `me` enters: deadly off the
/// board, else its state in the turn-aware threat map.
pub open spec fn move_state(me: Battlesnake, board: Board, turn: u32, i: int) -> CellState {
    let n = next_head_for(me.head, i);
    if !in_bounds(board.width as int, board.height as int, n.x as int, n.y as int) {
        CellState::DEATH
    } else {
        threat_at(me, board.snakes@, board.width as int, board.height as int, board.food@, turn, n.x as int, n.y as int)
    }
}

/// What the turn-aware evaluation reports for the `i`-th move of `me`.
pub open spec fn move_approach(me: Battlesnake, board: Board, turn: u32, i: int, a: MoveApproach) -> bool {
    let state = move_state(me, board, turn, i);
    &&& a.direction@ == move_name(i)
    &&& a.state == state
    &&& a.distance == if state == CellState::SAFE {
        Some(nearest_distance(next_head_for(me.head, i), approach_targets(me, board)) as i32)
    } else {
        None
    }
}

/// For a safe move, the reported distance is to the nearest head of a snake
/// at least two shorter when `me` has more than 30 health and such a snake
/// exists, and to the nearest food otherwise (`i32::MAX` when there is none).
pub proof fn lemma_safe_move_distance(me: Battlesnake, board: Board, turn: u32, i: int, a: MoveApproach)
    requires
        move_approach(me, board, turn, i, a),
        a.state == CellState::SAFE,
    ensures
        me.health > 30 && smaller_rival_heads(me, board.snakes@, 2).len() > 0 ==> a.distance == Some(
            nearest_distance(next_head_for(me.head, i), smaller_rival_heads(me, board.snakes@, 2)) as i32,
        ),
        me.health <= 30 || smaller_rival_heads(me, board.snakes@, 2).len() == 0 ==> a.distance == Some(
            nearest_distance(next_head_for(me.head, i), board.food@) as i32,
        ),
{
}

/// The tail cell of the last snake painted is `SAFE` exactly when the game is
/// at turn 3 or later and that snake, whichever it is (`me` included), has no
/// food next to its head; otherwise it is `POTENTIALTAIL`.
pub proof fn lemma_tail_cell_state(
    me: Battlesnake,
    snakes: Seq<Battlesnake>,
    w: int,
    h: int,
    food: Seq<Coord>,
    turn: u32,
    x: int,
    y: int,
)
    requires
        snakes.len() > 0,
        at(snakes.last().body@[snakes.last().length - 1], x, y),
    ensures
        threat_at(me, snakes, w, h, food, turn, x, y) == if turn >= 3 && forall|i: int|
            0 <= i < food.len() ==> !next_to(snakes.last().head, (#[trigger] food[i]).x as int, food[i].y as int) {
            CellState::SAFE
        } else {
            CellState::POTENTIALTAIL
        },
{
}

/// Away from its tail, the last snake painted claims cells as in the current
/// evaluator: middle body parts (indices 1 to `len - 2`) become `DEATH`;
/// otherwise, when it is at least as long as `me`, the board cells one step
/// from its head become `POTENTIALHEAD` if it is not `me`, and its head cell
/// becomes `DEATH`. Every other cell off its tail keeps the earlier state.
pub proof fn lemma_last_snake_paints_off_tail(
    me: Battlesnake,
    snakes: Seq<Battlesnake>,
    w: int,
    h: int,
    food: Seq<Coord>,
    turn: u32,
    x: int,
    y: int,
)
    requires
        snakes.len() > 0,
        !(snakes.last().body@[snakes.last().length - 1].x == x && snakes.last().body@[snakes.last().length - 1].y == y),
    ensures
        ({
            let s = snakes.last();
            let middle = exists|i: int| 1 <= i < s.body@.len() - 1 && (#[trigger] s.body@[i]).x == x && s.body@[i].y == y;
            let long = s.length >= me.length;
            let ring = long && s.id@ != me.id@ && 0 <= x < w && 0 <= y < h
                && vstd::math::abs(x - s.head.x) + vstd::math::abs(y - s.head.y) == 1;
            let head = long && s.head.x == x && s.head.y == y;
            let now = threat_at(me, snakes, w, h, food, turn, x, y);
            &&& middle ==> now == CellState::DEATH
            &&& !middle && ring ==> now == CellState::POTENTIALHEAD
            &&& !middle && head ==> now == CellState::DEATH
            &&& !middle && !ring && !head ==> now == threat_at(me, snakes.drop_last(), w, h, food, turn, x, y)
        }),
{
}

/// What the turn-aware `evaluate` reports for the `i`-th move (up, down,
/// left, right, one cell along `y` or `x`): the move's name; `DEATH` and no
/// distance when the next cell is off the board; otherwise the turn-aware
/// threat-map state of that cell, with a distance exactly when it is `SAFE`.
pub proof fn lemma_approach_of_move(me: Battlesnake, board: Board, turn: u32, i: int, a: MoveApproach)
    requires
        0 <= i < 4,
        in_bounds(board.width as int, board.height as int, me.head.x as int, me.head.y as int),
        move_approach(me, board, turn, i, a),
    ensures
        ({
            let dx: int = if i == 2 { -1 } else if i == 3 { 1 } else { 0 };
            let dy: int = if i == 0 { 1 } else if i == 1 { -1 } else { 0 };
            let nx = me.head.x + dx;
            let ny = me.head.y + dy;
            let on_board = 0 <= nx < board.width && 0 <= ny < board.height;
            &&& a.direction@ == if i == 0 { "up"@ } else if i == 1 { "down"@ } else if i == 2 { "left"@ } else { "right"@ }
            &&& !on_board ==> a.state == CellState::DEATH && a.distance is None
            &&& on_board ==> a.state == threat_at(me, board.snakes@, board.width as int, board.height as int, board.food@, turn, nx, ny)
            &&& (a.distance is Some <==> a.state == CellState::SAFE)
        }),
{
    lemma_direction_names_distinct();
    let dx: int = if i == 2 { -1 } else if i == 3 { 1 } else { 0 };
    let dy: int = if i == 0 { 1 } else if i == 1 { -1 } else { 0 };
    let n = next_head_for(me.head, i);
    assert(direction_offset(move_name(i)) == (dx, dy)) by {
        if i == 0 {
        } else if i == 1 {
        } else if i == 2 {
        } else {
        }
    }
    assert(n.x == me.head.x + dx && n.y == me.head.y + dy);
}

/// The inputs `evaluate` needs: the head and the snakes lie on a board at
/// least two cells wide and high, and the distances it measures fit in `i32`.
pub open spec fn approach_evaluable(me: Battlesnake, board: Board, turn: u32) -> bool {
    &&& board_paintable_with_tails(me, board)
    &&& board.width >= 2
    &&& board.height >= 2
    &&& in_bounds(board.width as int, board.height as int, me.head.x as int, me.head.y as int)
    &&& forall|i: int| 0 <= i < 4 && #[trigger] move_state(me, board, turn, i) == CellState::SAFE ==>
        distances_fit(next_head_for(me.head, i), approach_targets(me, board))
}

/// Assesses the four moves of `me` in the order up, down, left, right: a
/// move off the board or onto a deadly cell is `DEATH`, one onto a cell that
/// a head or a tail may take keeps that state, and one onto a safe cell
/// carries the distance to the nearest target.
pub fn evaluate(me: &Battlesnake, board: &Board, turn: u32) -> (r: Vec<MoveApproach>)
    requires
        approach_evaluable(*me, *board, turn),
    ensures
        r@.len() == 4,
        forall|i: int| 0 <= i < 4 ==> move_approach(*me, *board, turn, i, #[trigger] r@[i]),
{
    proof {
        lemma_direction_names_distinct();
    }
    let head = me.head;
    let threat_board = build_threat_board(me, board, turn);
    let lowlevel_heads = get_lowlevel_snakes(me, board);
    // Step 1: moves that leave the board
    let left_off = head.x == 0;
    let right_off = !left_off && head.x == board.width - 1;
    let down_off = head.y == 0;
    let up_off = !down_off && head.y == board.height - 1;
    let mut output: Vec<MoveApproach> = Vec::new();
    let mut i: usize = 0;
    while i < 4
        invariant
            approach_evaluable(*me, *board, turn),
            head == me.head,
            lowlevel_heads@ == smaller_rival_heads(*me, board.snakes@, 2),
            is_grid(threat_board@, board.width as int, board.height as int),
            forall|x: int, y: int| in_bounds(board.width as int, board.height as int, x, y) ==>
                (#[trigger] threat_board@[y]@[x]) == threat_at(*me, board.snakes@, board.width as int, board.height as int, board.food@, turn, x, y),
            left_off == (head.x == 0),
            right_off == (head.x == board.width - 1),
            down_off == (head.y == 0),
            up_off == (head.y == board.height - 1),
            direction_names_distinct(),
            i <= 4,
            output@.len() == i,
            forall|k: int| 0 <= k < i ==> move_approach(*me, *board, turn, k, #[trigger] output@[k]),
        decreases 4 - i,
    {
        let dir = move_name_of(i);
        let off_board = if i == 0 {
            up_off
        } else if i == 1 {
            down_off
        } else if i == 2 {
            left_off
        } else {
            right_off
        };
        let ghost next = next_head_for(head, i as int);
        assert(off_board == !in_bounds(board.width as int, board.height as int, next.x as int, next.y as int));
        if off_board {
            output.push(MoveApproach { direction: dir, state: CellState::DEATH, distance: None });
        } else {
            let next_head = head.shift_by_name(dir);
            let state = threat_board[next_head.y as usize][next_head.x as usize];
            match state {
                CellState::SAFE => {
                    // Reaching the goal
                    assert(next_head == next);
                    assert(move_state(*me, *board, turn, i as int) == CellState::SAFE);
                    assert(distances_fit(next_head, approach_targets(*me, *board)));
                    let dist = if me.health <= 30 || lowlevel_heads.len() == 0 {
                        min_distance(next_head, board.food.as_slice())
                    } else {
                        min_distance(next_head, lowlevel_heads.as_slice())
                    };
                    output.push(MoveApproach { direction: dir, state, distance: Some(dist) });
                },
                _ => {
                    output.push(MoveApproach { direction: dir, state, distance: None });
                },
            }
        }
        i += 1;
    }
    output
}

} // verus!
