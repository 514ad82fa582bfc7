use vstd::prelude::*;

use crate::datatypes::{at, neighbours, next_to, part_between, Coord};

verus! {

/// `(x, y)` lies on a board `w` cells wide and `h` cells high.
pub open spec fn in_bounds(w: int, h: int, x: int, y: int) -> bool {
    0 <= x < w && 0 <= y < h
}

/// `g` has exactly `h` rows of `w` cells each.
pub open spec fn is_grid<T>(g: Seq<Vec<T>>, w: int, h: int) -> bool {
    &&& g.len() == h
    &&& forall|y: int| 0 <= y < h ==> (#[trigger] g[y])@.len() == w
}

/// `g` has at least `h` rows of at least `w` cells each, so that every cell
/// of a `w` by `h` board can be looked up in it.
pub open spec fn covers<T>(g: Seq<Vec<T>>, w: int, h: int) -> bool {
    &&& g.len() >= h
    &&& forall|y: int| 0 <= y < h ==> (#[trigger] g[y])@.len() >= w
}

/// The set of cells of a `w` by `h` board.
pub open spec fn board_cells(w: int, h: int) -> Set<(int, int)> {
    Set::new(|c: (int, int)| in_bounds(w, h, c.0, c.1))
}

/// A `w` by `h` grid with every cell set to `v`.
pub fn new_grid<T: Copy>(w: usize, h: usize, v: T) -> (g: Vec<Vec<T>>)
    ensures
        is_grid(g@, w as int, h as int),
        forall|x: int, y: int| in_bounds(w as int, h as int, x, y) ==> (#[trigger] g@[y]@[x]) == v,
{
    let mut g: Vec<Vec<T>> = Vec::new();
    let mut y: usize = 0;
    while y < h
        invariant
            y <= h,
            is_grid(g@, w as int, y as int),
            forall|xx: int, yy: int| in_bounds(w as int, y as int, xx, yy) ==> (#[trigger] g@[yy]@[xx]) == v,
        decreases h - y,
    {
        let mut row: Vec<T> = Vec::new();
        let mut x: usize = 0;
        while x < w
            invariant
                x <= w,
                row@.len() == x,
                forall|xx: int| 0 <= xx < x ==> (#[trigger] row@[xx]) == v,
            decreases w - x,
        {
            row.push(v);
            x += 1;
        }
        g.push(row);
        y += 1;
    }
    g
}

/// Sets cell `(x, y)` of `g` to `v` and leaves every other cell as it was.
pub fn paint<T>(g: &mut Vec<Vec<T>>, x: usize, y: usize, v: T)
    requires
        y < old(g)@.len(),
        x < old(g)@[y as int]@.len(),
    ensures
        final(g)@.len() == old(g)@.len(),
        forall|yy: int| 0 <= yy < old(g)@.len() ==> (#[trigger] final(g)@[yy])@.len() == old(g)@[yy]@.len(),
        forall|xx: int, yy: int|
            0 <= yy < old(g)@.len() && 0 <= xx < old(g)@[yy]@.len() ==> (#[trigger] final(g)@[yy]@[xx]) == if xx == x && yy == y {
                v
            } else {
                old(g)@[yy]@[xx]
            },
{
    g[y][x] = v;
}

/// Sets to `v` every cell of the board next to `c`; the other cells keep
/// their value.
pub fn paint_ring<T: Copy>(g: &mut Vec<Vec<T>>, c: Coord, w: i32, h: i32, v: T)
    requires
        is_grid(old(g)@, w as int, h as int),
        in_bounds(w as int, h as int, c.x as int, c.y as int),
    ensures
        is_grid(final(g)@, w as int, h as int),
        forall|x: int, y: int| in_bounds(w as int, h as int, x, y) ==>
            (#[trigger] final(g)@[y]@[x]) == if next_to(c, x, y) {
                v
            } else {
                old(g)@[y]@[x]
            },
{
    let ghost before = g@;
    let around = c.surrounded();
    let mut j: usize = 0;
    while j < 4
        invariant
            in_bounds(w as int, h as int, c.x as int, c.y as int),
            around@ == neighbours(c),
            j <= 4,
            is_grid(g@, w as int, h as int),
            is_grid(before, w as int, h as int),
            forall|x: int, y: int| in_bounds(w as int, h as int, x, y) ==>
                (#[trigger] g@[y]@[x]) == if exists|t: int| 0 <= t < j && at(#[trigger] around@[t], x, y) {
                    v
                } else {
                    before[y]@[x]
                },
        decreases 4 - j,
    {
        let s = around[j];
        if s.y >= 0 && s.y < h && s.x >= 0 && s.x < w {
            paint(g, s.x as usize, s.y as usize, v);
        }
        proof {
            assert forall|x: int, y: int| in_bounds(w as int, h as int, x, y) && at(s, x, y) implies
                (exists|t: int| 0 <= t < j + 1 && at(#[trigger] around@[t], x, y)) by {
                assert(at(around@[j as int], x, y));
            }
        }
        j += 1;
    }
    proof {
        assert forall|x: int, y: int| in_bounds(w as int, h as int, x, y) implies
            (exists|t: int| 0 <= t < 4 && at(#[trigger] around@[t], x, y)) == next_to(c, x, y) by {
            if next_to(c, x, y) {
                if at(around@[0], x, y) {
                } else if at(around@[1], x, y) {
                } else if at(around@[2], x, y) {
                } else {
                    assert(at(around@[3], x, y));
                }
            }
        }
    }
}

/// Sets to `v` the cells of the parts `body[1..len - 1]` (all but the first
/// and the last); the other cells keep their value.
pub fn paint_middle<T: Copy>(g: &mut Vec<Vec<T>>, body: &Vec<Coord>, w: i32, h: i32, v: T)
    requires
        is_grid(old(g)@, w as int, h as int),
        body@.len() >= 2,
        forall|i: int| 1 <= i < body@.len() - 1 ==> in_bounds(w as int, h as int, (#[trigger] body@[i]).x as int, body@[i].y as int),
    ensures
        is_grid(final(g)@, w as int, h as int),
        forall|x: int, y: int| in_bounds(w as int, h as int, x, y) ==>
            (#[trigger] final(g)@[y]@[x]) == if part_between(body@, body@.len() - 1, x, y) {
                v
            } else {
                old(g)@[y]@[x]
            },
{
    let ghost before = g@;
    let end = body.len() - 1;
    let mut i: usize = 1;
    while i < end
        invariant
            body@.len() >= 2,
            forall|i: int| 1 <= i < body@.len() - 1 ==> in_bounds(w as int, h as int, (#[trigger] body@[i]).x as int, body@[i].y as int),
            end == body@.len() - 1,
            1 <= i <= end,
            is_grid(g@, w as int, h as int),
            is_grid(before, w as int, h as int),
            forall|x: int, y: int| in_bounds(w as int, h as int, x, y) ==>
                (#[trigger] g@[y]@[x]) == if part_between(body@, i as int, x, y) {
                    v
                } else {
                    before[y]@[x]
                },
        decreases end - i,
    {
        let part = body[i];
        assert(in_bounds(w as int, h as int, body@[i as int].x as int, body@[i as int].y as int));
        paint(g, part.x as usize, part.y as usize, v);
        proof {
            assert forall|x: int, y: int| in_bounds(w as int, h as int, x, y) implies
                part_between(body@, i + 1, x, y) == (part_between(body@, i as int, x, y) || at(part, x, y)) by {
                if at(part, x, y) {
                    assert(at(body@[i as int], x, y));
                }
            }
        }
        i += 1;
    }
}

/// A board `w` by `h` has at most `w * h` cells.
pub proof fn lemma_board_cells_len(w: int, h: int)
    requires
        0 <= w,
        0 <= h,
    ensures
        board_cells(w, h).finite(),
        board_cells(w, h).len() <= w * h,
    decreases h,
{
    if h == 0 {
        assert(board_cells(w, h) =~= Set::empty());
    } else {
        lemma_board_cells_len(w, h - 1);
        let row = Set::new(|c: (int, int)| 0 <= c.0 < w && c.1 == h - 1);
        let f = |x: int| (x, h - 1);
        vstd::set_lib::lemma_int_range(0, w);
        assert(vstd::set_lib::set_int_range(0, w).map(f) =~= row) by {
            assert forall|c: (int, int)| row.contains(c) implies vstd::set_lib::set_int_range(0, w).map(f).contains(c) by {
                assert(vstd::set_lib::set_int_range(0, w).contains(c.0));
                assert(f(c.0) == c);
            }
        }
        assert(vstd::relations::injective_on(f, vstd::set_lib::set_int_range(0, w)));
        vstd::set_lib::lemma_map_size(vstd::set_lib::set_int_range(0, w), row, f);
        assert(board_cells(w, h) =~= board_cells(w, h - 1).union(row));
        vstd::set_lib::lemma_len_union(board_cells(w, h - 1), row);
        assert(w * (h - 1) + w == w * h) by (nonlinear_arith);
    }
}

} // verus!
