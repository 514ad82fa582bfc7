use vstd::prelude::*;
use vstd::string::*;

use crate::datatypes::{str_equal, Coord};

verus! {

/// Manhattan distance between two cells.
pub open spec fn manhattan(a: Coord, b: Coord) -> int {
    (vstd::math::abs(a.x - b.x) + vstd::math::abs(a.y - b.y)) as int
}

/// Every cell of `cells` lies within an `i32` Manhattan distance of `a`.
pub open spec fn distances_fit(a: Coord, cells: Seq<Coord>) -> bool {
    forall|i: int| 0 <= i < cells.len() ==> manhattan(a, #[trigger] cells[i]) <= i32::MAX
}

/// The distance from `a` to the nearest cell of `cells`, starting from
/// `i32::MAX` (the value for no cell at all).
pub open spec fn nearest_distance(a: Coord, cells: Seq<Coord>) -> int
    decreases cells.len(),
{
    if cells.len() == 0 {
        i32::MAX as int
    } else {
        vstd::math::min(nearest_distance(a, cells.drop_last()), manhattan(a, cells.last()))
    }
}

/// Manhattan distance between `a` and `b`.
pub fn distance(a: Coord, b: Coord) -> (r: i32)
    requires
        manhattan(a, b) <= i32::MAX,
    ensures
        r == manhattan(a, b),
{
    let dx: i32 = a.x - b.x;
    let dy: i32 = a.y - b.y;
    let ax: i32 = if dx < 0 { -dx } else { dx };
    let ay: i32 = if dy < 0 { -dy } else { dy };
    ax + ay
}

/// Distance from `a` to the nearest cell of `b`; `i32::MAX` when `b` is empty.
pub fn min_distance(a: Coord, b: &[Coord]) -> (r: i32)
    requires
        distances_fit(a, b@),
    ensures
        r == nearest_distance(a, b@),
{
    let mut best: i32 = i32::MAX;
    let mut i: usize = 0;
    while i < b.len()
        invariant
            i <= b@.len(),
            distances_fit(a, b@),
            best == nearest_distance(a, b@.take(i as int)),
        decreases b@.len() - i,
    {
        assert(b@.take(i as int + 1).drop_last() =~= b@.take(i as int));
        let d = distance(a, b[i]);
        if d < best {
            best = d;
        }
        i += 1;
    }
    assert(b@.take(b@.len() as int) =~= b@);
    best
}

/// The nearest distance is at most the distance to every cell and at most
/// `i32::MAX`; when there is a cell within reach, it is the distance to one
/// of them.
pub proof fn lemma_nearest_distance_is_minimum(a: Coord, cells: Seq<Coord>)
    ensures
        nearest_distance(a, cells) <= i32::MAX,
        cells.len() == 0 ==> nearest_distance(a, cells) == i32::MAX,
        forall|i: int| 0 <= i < cells.len() ==> nearest_distance(a, cells) <= manhattan(a, #[trigger] cells[i]),
        cells.len() > 0 && distances_fit(a, cells) ==> exists|i: int|
            0 <= i < cells.len() && nearest_distance(a, cells) == manhattan(a, #[trigger] cells[i]),
    decreases cells.len(),
{
    if cells.len() > 0 {
        let init = cells.drop_last();
        lemma_nearest_distance_is_minimum(a, init);
        assert forall|i: int| 0 <= i < cells.len() implies nearest_distance(a, cells) <= manhattan(a, #[trigger] cells[i]) by {
            if i < cells.len() - 1 {
                assert(cells[i] == init[i]);
            }
        }
        if distances_fit(a, cells) {
            let last = cells.len() - 1;
            if init.len() > 0 {
                assert(distances_fit(a, init)) by {
                    assert forall|i: int| 0 <= i < init.len() implies manhattan(a, #[trigger] init[i]) <= i32::MAX by {
                        assert(init[i] == cells[i]);
                    }
                }
                let j = choose|j: int| 0 <= j < init.len() && nearest_distance(a, init) == manhattan(a, #[trigger] init[j]);
                assert(init[j] == cells[j]);
                if nearest_distance(a, cells) == manhattan(a, cells[last]) {
                } else {
                    assert(nearest_distance(a, cells) == manhattan(a, cells[j]));
                }
            } else {
                assert(manhattan(a, cells[last]) <= i32::MAX);
                assert(nearest_distance(a, cells) == manhattan(a, cells[last]));
            }
        }
    }
}

/// The distance is symmetric and zero from a cell to itself; a neighbour is
/// at distance one.
pub proof fn lemma_manhattan_basics(a: Coord, b: Coord)
    ensures
        manhattan(a, b) == manhattan(b, a),
        manhattan(a, a) == 0,
        manhattan(a, b) == 0 <==> a == b,
        crate::datatypes::next_to(a, b.x as int, b.y as int) ==> manhattan(a, b) == 1,
{
}

/// The distance grows one by one along a row or a column, and a path that
/// first runs along the row and then along the column is as long as the
/// distance; it never exceeds the length of a detour through a third cell.
pub proof fn lemma_manhattan_along_lines(a: Coord, b: Coord, m: Coord, k: int)
    ensures
        0 <= k && crate::datatypes::offset_fits(a, k, 0) ==> manhattan(a, crate::datatypes::shifted(a, k, 0)) == k,
        0 <= k && crate::datatypes::offset_fits(a, -k, 0) ==> manhattan(a, crate::datatypes::shifted(a, -k, 0)) == k,
        0 <= k && crate::datatypes::offset_fits(a, 0, k) ==> manhattan(a, crate::datatypes::shifted(a, 0, k)) == k,
        0 <= k && crate::datatypes::offset_fits(a, 0, -k) ==> manhattan(a, crate::datatypes::shifted(a, 0, -k)) == k,
        manhattan(a, b) == manhattan(a, Coord { x: b.x, y: a.y }) + manhattan(Coord { x: b.x, y: a.y }, b),
        manhattan(a, b) <= manhattan(a, m) + manhattan(m, b),
{
}

/// Whether the server runs in development or production mode.
#[derive(Clone, Copy, Debug, PartialEq, Eq, Structural)]
pub enum AppMode {
    DEV,
    PROD,
}

/// ASCII lower-casing of a character, as `char::to_ascii_lowercase` does it.
pub open spec fn ascii_lowercase_char(c: char) -> char {
    if 'A' <= c <= 'Z' {
        ((c as u32) + 32) as char
    } else {
        c
    }
}

/// ASCII lower-casing of a string, character by character.
pub open spec fn ascii_lowercase(s: Seq<char>) -> Seq<char> {
    s.map_values(|c: char| ascii_lowercase_char(c))
}

/// The mode a configured name selects, compared without regard to ASCII case.
pub open spec fn app_mode_of(name: Seq<char>) -> Option<AppMode> {
    if ascii_lowercase(name) == "dev"@ {
        Some(AppMode::DEV)
    } else if ascii_lowercase(name) == "prod"@ {
        Some(AppMode::PROD)
    } else {
        None
    }
}

/// Naming a mode ignores ASCII case: a name and its lower-cased form select
/// the same mode.
pub proof fn lemma_app_mode_ignores_case(name: Seq<char>)
    ensures
        app_mode_of(ascii_lowercase(name)) == app_mode_of(name),
{
    assert(ascii_lowercase(ascii_lowercase(name)) =~= ascii_lowercase(name));
}

/// Lower-casing keeps the length, turns each upper-case ASCII letter into the
/// letter 32 code points above it (its lower-case form), keeps every other
/// character, and leaves no upper-case ASCII letter behind.
pub proof fn lemma_ascii_lowercase_letters(s: Seq<char>)
    ensures
        ascii_lowercase(s).len() == s.len(),
        forall|i: int| 0 <= i < s.len() && 'A' <= #[trigger] s[i] <= 'Z' ==> ascii_lowercase(s)[i] as u32 == s[i] as u32 + 32,
        forall|i: int| 0 <= i < s.len() && !('A' <= #[trigger] s[i] <= 'Z') ==> ascii_lowercase(s)[i] == s[i],
        forall|i: int| 0 <= i < s.len() ==> !('A' <= #[trigger] ascii_lowercase(s)[i] <= 'Z'),
{
}

/// A name selects a mode exactly when, character by character, it spells
/// "dev" or "prod" with each letter either as is or as its upper-case form
/// (32 code points below); every other name selects none.
pub proof fn lemma_app_mode_names(name: Seq<char>)
    ensures
        app_mode_of(name) == Some(AppMode::DEV) <==> (name.len() == 3 && forall|i: int|
            0 <= i < 3 ==> #[trigger] name[i] == "dev"@[i] || name[i] as u32 + 32 == "dev"@[i] as u32),
        app_mode_of(name) == Some(AppMode::PROD) <==> (name.len() == 4 && forall|i: int|
            0 <= i < 4 ==> #[trigger] name[i] == "prod"@[i] || name[i] as u32 + 32 == "prod"@[i] as u32),
        app_mode_of(name) is None <==> !(name.len() == 3 && forall|i: int|
            0 <= i < 3 ==> #[trigger] name[i] == "dev"@[i] || name[i] as u32 + 32 == "dev"@[i] as u32) && !(name.len()
            == 4 && forall|i: int| 0 <= i < 4 ==> #[trigger] name[i] == "prod"@[i] || name[i] as u32 + 32 == "prod"@[i] as u32),
{
    reveal_strlit("dev");
    reveal_strlit("prod");
    assert("dev"@.len() == 3 && "dev"@[0] == 'd' && "dev"@[1] == 'e' && "dev"@[2] == 'v');
    assert("prod"@.len() == 4 && "prod"@[0] == 'p' && "prod"@[1] == 'r' && "prod"@[2] == 'o' && "prod"@[3] == 'd');
    let low = ascii_lowercase(name);
    assert forall|i: int| 0 <= i < name.len() implies (low[i] == 'd' <==> (name[i] == 'd' || name[i] as u32 + 32 == 'd' as u32))
        && (low[i] == 'e' <==> (name[i] == 'e' || name[i] as u32 + 32 == 'e' as u32))
        && (low[i] == 'v' <==> (name[i] == 'v' || name[i] as u32 + 32 == 'v' as u32))
        && (low[i] == 'p' <==> (name[i] == 'p' || name[i] as u32 + 32 == 'p' as u32))
        && (low[i] == 'r' <==> (name[i] == 'r' || name[i] as u32 + 32 == 'r' as u32))
        && (low[i] == 'o' <==> (name[i] == 'o' || name[i] as u32 + 32 == 'o' as u32)) by {
        assert(low[i] == ascii_lowercase_char(name[i]));
    }
    if name.len() == 3 && forall|i: int| 0 <= i < 3 ==> #[trigger] name[i] == "dev"@[i] || name[i] as u32 + 32 == "dev"@[i] as u32 {
        assert(low =~= "dev"@);
    }
    if low == "dev"@ {
        assert forall|i: int| 0 <= i < 3 implies #[trigger] name[i] == "dev"@[i] || name[i] as u32 + 32 == "dev"@[i] as u32 by {
            assert(low[i] == "dev"@[i]);
        }
    }
    if name.len() == 4 && forall|i: int| 0 <= i < 4 ==> #[trigger] name[i] == "prod"@[i] || name[i] as u32 + 32 == "prod"@[i] as u32 {
        assert(low =~= "prod"@);
    }
    if low == "prod"@ {
        assert forall|i: int| 0 <= i < 4 implies #[trigger] name[i] == "prod"@[i] || name[i] as u32 + 32 == "prod"@[i] as u32 by {
            assert(low[i] == "prod"@[i]);
        }
    }
}

/// Whether `s`, lower-cased in ASCII, equals `lower`.
fn equals_ascii_lowercased(s: &str, lower: &str) -> (r: bool)
    ensures
        r == (ascii_lowercase(s@) == lower@),
{
    let n = s.unicode_len();
    let m = lower.unicode_len();
    if n != m {
        assert(ascii_lowercase(s@).len() == n);
        return false;
    }
    let mut i: usize = 0;
    while i < n
        invariant
            n == s@.len(),
            m == lower@.len(),
            n == m,
            i <= n,
            forall|j: int| 0 <= j < i ==> ascii_lowercase_char(s@[j]) == lower@[j],
        decreases n - i,
    {
        let c = s.get_char(i);
        let t = lower.get_char(i);
        let lowered_matches = if 'A' <= c && c <= 'Z' {
            (c as u32) + 32 == (t as u32)
        } else {
            c == t
        };
        if !lowered_matches {
            assert(ascii_lowercase(s@)[i as int] == ascii_lowercase_char(c));
            return false;
        }
        i += 1;
    }
    assert(ascii_lowercase(s@) =~= lower@);
    true
}

/// The mode named by a configuration value ("dev" or "prod", in any ASCII
/// case); `None` for any other value.
pub fn app_mode_from_name(name: &str) -> (r: Option<AppMode>)
    ensures
        r == app_mode_of(name@),
{
    if equals_ascii_lowercased(name, "dev") {
        Some(AppMode::DEV)
    } else if equals_ascii_lowercased(name, "prod") {
        Some(AppMode::PROD)
    } else {
        None
    }
}

} // verus!
