use vstd::prelude::*;
use vstd::string::*;

verus! {

/// A cell of the board. Battlesnake puts the origin in the bottom-left
/// corner, so "up" increases `y`.
#[derive(Clone, Copy, Debug, PartialEq, Eq, Structural)]
pub struct Coord {
    pub x: i32,
    pub y: i32,
}

/// The playing field: its size, the food on it and the snakes in play.
#[derive(Clone, Debug)]
pub struct Board {
    pub height: i32,
    pub width: i32,
    pub food: Vec<Coord>,
    pub snakes: Vec<Battlesnake>,
    pub hazards: Vec<Coord>,
}

/// One snake as the game server describes it; `body[0]` is the head.
#[derive(Clone, Debug)]
pub struct Battlesnake {
    pub id: String,
    pub name: String,
    pub health: i32,
    pub body: Vec<Coord>,
    pub head: Coord,
    pub length: i32,
    pub latency: String,
    pub shout: Option<String>,
}

/// The answer to a move request: the direction taken and what the snake shouts.
#[derive(Clone, Debug)]
pub struct MoveOutput {
    pub movement: String,
    pub shout: String,
}

/// How dangerous a cell is for the next move: free, possibly entered by the
/// head of a snake at least as long, or certain death.
#[allow(non_camel_case_types)]
#[derive(Clone, Copy, Debug, PartialEq, Eq, Structural)]
pub enum CellState {
    SAFE,
    POTENTIAL_HEAD,
    DEATH,
}

impl CellState {
    /// Whether a snake may enter the cell; a cell that a rival head may
    /// reach counts only when `allow_potential_head` is set.
    pub fn is_safe(&self, allow_potential_head: bool) -> (r: bool)
        ensures
            r == (*self == CellState::SAFE || (allow_potential_head && *self
                == CellState::POTENTIAL_HEAD)),
    {
        match self {
            CellState::SAFE => true,
            CellState::POTENTIAL_HEAD => allow_potential_head,
            CellState::DEATH => false,
        }
    }
}

/// The offset `(dx, dy)` that a move name stands for; any name other than the
/// four moves leaves a cell where it is.
pub open spec fn direction_offset(direction: Seq<char>) -> (int, int) {
    if direction == "up"@ {
        (0, 1)
    } else if direction == "down"@ {
        (0, -1)
    } else if direction == "left"@ {
        (-1, 0)
    } else if direction == "right"@ {
        (1, 0)
    } else {
        (0, 0)
    }
}

/// Shifting `c` by `(dx, dy)` stays within `i32`.
pub open spec fn offset_fits(c: Coord, dx: int, dy: int) -> bool {
    &&& i32::MIN <= c.x + dx <= i32::MAX
    &&& i32::MIN <= c.y + dy <= i32::MAX
}

/// The cell `(c.x + dx, c.y + dy)`.
pub open spec fn shifted(c: Coord, dx: int, dy: int) -> Coord {
    Coord { x: (c.x + dx) as i32, y: (c.y + dy) as i32 }
}

/// All four neighbours of `c` fit in `i32`.
pub open spec fn neighbours_fit(c: Coord) -> bool {
    &&& i32::MIN < c.x < i32::MAX
    &&& i32::MIN < c.y < i32::MAX
}

/// The neighbours of `c` in the order up, down, left, right.
pub open spec fn neighbours(c: Coord) -> Seq<Coord> {
    seq![shifted(c, 0, 1), shifted(c, 0, -1), shifted(c, -1, 0), shifted(c, 1, 0)]
}

/// The four move names are pairwise different strings.
pub open spec fn direction_names_distinct() -> bool {
    &&& "up"@ != "down"@
    &&& "up"@ != "left"@
    &&& "up"@ != "right"@
    &&& "down"@ != "left"@
    &&& "down"@ != "right"@
    &&& "left"@ != "right"@
}

/// The four move names are pairwise different strings.
pub proof fn lemma_direction_names_distinct()
    ensures
        direction_names_distinct(),
{
    reveal_strlit("up");
    reveal_strlit("down");
    reveal_strlit("left");
    reveal_strlit("right");
    assert("up"@.len() == 2);
    assert("down"@.len() == 4 && "down"@[0] == 'd');
    assert("left"@.len() == 4 && "left"@[0] == 'l');
    assert("right"@.len() == 5);
}

/// `(x, y)` is one of the four cells next to `c`.
pub open spec fn next_to(c: Coord, x: int, y: int) -> bool {
    ||| x == c.x && (y == c.y + 1 || y == c.y - 1)
    ||| y == c.y && (x == c.x - 1 || x == c.x + 1)
}

/// `c` lies at `(x, y)`.
pub open spec fn at(c: Coord, x: int, y: int) -> bool {
    c.x == x && c.y == y
}

/// One of the parts `body[1..upto]` lies at `(x, y)`.
pub open spec fn part_between(body: Seq<Coord>, upto: int, x: int, y: int) -> bool {
    exists|i: int| 1 <= i < upto && at(#[trigger] body[i], x, y)
}

/// A body part other than the head and the last part lies at `(x, y)`.
pub open spec fn middle_part_at(s: Battlesnake, x: int, y: int) -> bool {
    part_between(s.body@, s.body@.len() - 1, x, y)
}

/// The name of the `i`-th move in the order the evaluators consider them:
/// up, down, left, right.
pub open spec fn move_name(i: int) -> Seq<char> {
    if i == 0 {
        "up"@
    } else if i == 1 {
        "down"@
    } else if i == 2 {
        "left"@
    } else {
        "right"@
    }
}

/// Where the head `head` goes with the `i`-th move.
pub open spec fn next_head_for(head: Coord, i: int) -> Coord {
    shifted(head, direction_offset(move_name(i)).0, direction_offset(move_name(i)).1)
}

/// The name of the `i`-th move (up, down, left, right).
pub fn move_name_of(i: usize) -> (r: &'static str)
    requires
        i < 4,
    ensures
        r@ == move_name(i as int),
{
    if i == 0 {
        "up"
    } else if i == 1 {
        "down"
    } else if i == 2 {
        "left"
    } else {
        "right"
    }
}

/// Moving one way and then the opposite way returns to the starting cell.
pub proof fn lemma_opposite_moves_cancel(c: Coord)
    requires
        neighbours_fit(c),
    ensures
        shifted(shifted(c, direction_offset("up"@).0, direction_offset("up"@).1), direction_offset("down"@).0, direction_offset("down"@).1) == c,
        shifted(shifted(c, direction_offset("down"@).0, direction_offset("down"@).1), direction_offset("up"@).0, direction_offset("up"@).1) == c,
        shifted(shifted(c, direction_offset("left"@).0, direction_offset("left"@).1), direction_offset("right"@).0, direction_offset("right"@).1) == c,
        shifted(shifted(c, direction_offset("right"@).0, direction_offset("right"@).1), direction_offset("left"@).0, direction_offset("left"@).1) == c,
{
    lemma_direction_names_distinct();
}

/// "up" and "down" move one cell along `y` (up increases it), "left" and
/// "right" one cell along `x` (right increases it); any other name stays.
pub proof fn lemma_move_offsets(name: Seq<char>)
    ensures
        direction_offset("up"@) == (0int, 1int),
        direction_offset("down"@) == (0int, -1int),
        direction_offset("left"@) == (-1int, 0int),
        direction_offset("right"@) == (1int, 0int),
        name != "up"@ && name != "down"@ && name != "left"@ && name != "right"@ ==> direction_offset(name) == (0int, 0int),
{
    lemma_direction_names_distinct();
}

/// The `i`-th cell of `surrounded` is where the `i`-th move name leads.
pub proof fn lemma_neighbours_are_moves(c: Coord)
    requires
        neighbours_fit(c),
    ensures
        forall|i: int| 0 <= i < 4 ==> #[trigger] neighbours(c)[i] == next_head_for(c, i),
        forall|i: int| 0 <= i < 4 ==> next_to(c, (#[trigger] neighbours(c)[i]).x as int, neighbours(c)[i].y as int),
{
    lemma_direction_names_distinct();
    assert forall|i: int| 0 <= i < 4 implies #[trigger] neighbours(c)[i] == next_head_for(c, i) by {
        if i == 0 {
        } else if i == 1 {
        } else if i == 2 {
        } else {
        }
    }
}

/// Character-wise equality of two strings.
pub(crate) fn str_equal(a: &str, b: &str) -> (r: bool)
    ensures
        r == (a@ == b@),
{
    let n = a.unicode_len();
    let m = b.unicode_len();
    if n != m {
        return false;
    }
    let mut i: usize = 0;
    while i < n
        invariant
            n == a@.len(),
            m == b@.len(),
            n == m,
            i <= n,
            forall|j: int| 0 <= j < i ==> a@[j] == b@[j],
        decreases n - i,
    {
        if a.get_char(i) != b.get_char(i) {
            return false;
        }
        i += 1;
    }
    assert(a@ =~= b@);
    true
}

impl Coord {
    /// The cell reached by moving in the named direction ("up", "down",
    /// "left" or "right"); any other name gives the cell itself.
    pub fn shift_by_name(&self, direction: &str) -> (r: Coord)
        requires
            offset_fits(*self, direction_offset(direction@).0, direction_offset(direction@).1),
        ensures
            r == shifted(*self, direction_offset(direction@).0, direction_offset(direction@).1),
    {
        if str_equal(direction, "up") {
            self.shift_by_coord(&Coord { x: 0, y: 1 })
        } else if str_equal(direction, "down") {
            self.shift_by_coord(&Coord { x: 0, y: -1 })
        } else if str_equal(direction, "left") {
            self.shift_by_coord(&Coord { x: -1, y: 0 })
        } else if str_equal(direction, "right") {
            self.shift_by_coord(&Coord { x: 1, y: 0 })
        } else {
            *self
        }
    }

    /// The cell at `self + direction`.
    pub fn shift_by_coord(&self, direction: &Coord) -> (r: Coord)
        requires
            offset_fits(*self, direction.x as int, direction.y as int),
        ensures
            r == shifted(*self, direction.x as int, direction.y as int),
    {
        Coord { x: self.x + direction.x, y: self.y + direction.y }
    }

    /// The four neighbours, in the order up, down, left, right.
    pub fn surrounded(&self) -> (r: Vec<Coord>)
        requires
            neighbours_fit(*self),
        ensures
            r@ == neighbours(*self),
    {
        proof {
            lemma_direction_names_distinct();
        }
        let mut v: Vec<Coord> = Vec::new();
        v.push(self.shift_by_name("up"));
        v.push(self.shift_by_name("down"));
        v.push(self.shift_by_name("left"));
        v.push(self.shift_by_name("right"));
        v
    }
}

} // verus!
