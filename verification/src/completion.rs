//! What the count of completions means: it counts the grids that fill the
//! empty cells, so a count of one says that exactly one such grid exists.

use vstd::prelude::*;
use crate::grid::{
    completions, completions_at, completions_with, fills, in_sight, next_cell, occurs_in_sight,
    on_board, place, unique, well_shaped,
};

verus! {

/// A position of the board, or the one that follows the last.
pub open spec fn scan_position(r: int, c: int) -> bool {
    on_board(r, c) || (r == 9 && c == 0)
}

/// `s` fills the empty cells of `g` from `(r, c)` onwards in row-major order:
/// it keeps what `g` holds and the empty cells before `(r, c)`, and each
/// other empty cell holds a digit from 1 to 9 that stands nowhere else in its
/// row, column and box.
pub open spec fn fills_from(g: Seq<Seq<u8>>, s: Seq<Seq<u8>>, r: int, c: int) -> bool {
    &&& well_shaped(s)
    &&& forall|a: int, b: int|
        on_board(a, b) && (g[a][b] != 0 || 9 * a + b < 9 * r + c) ==> #[trigger] s[a][b] == g[a][b]
    &&& forall|a: int, b: int|
        on_board(a, b) && g[a][b] == 0 && 9 * a + b >= 9 * r + c ==> 1 <= #[trigger] s[a][b] <= 9
    &&& forall|a: int, b: int, i: int, j: int|
        on_board(a, b) && on_board(i, j) && in_sight(i, j, a, b) && (i != a || j != b) && g[a][b]
            == 0 && 9 * a + b >= 9 * r + c ==> #[trigger] s[a][b] != #[trigger] s[i][j]
}

/// Cell by cell, what a grid holds after one cell was written.
pub proof fn lemma_place_cells(g: Seq<Seq<u8>>, r: int, c: int, d: u8)
    requires
        well_shaped(g),
        on_board(r, c),
    ensures
        well_shaped(place(g, r, c, d)),
        forall|a: int, b: int|
            on_board(a, b) ==> #[trigger] place(g, r, c, d)[a][b] == (if a == r && b == c {
                d
            } else {
                g[a][b]
            }),
{
}

/// Two well-shaped grids that agree in every cell are one grid.
pub proof fn lemma_same_cells(s: Seq<Seq<u8>>, t: Seq<Seq<u8>>)
    requires
        well_shaped(s),
        well_shaped(t),
        forall|a: int, b: int| on_board(a, b) ==> #[trigger] s[a][b] == t[a][b],
    ensures
        s == t,
{
    assert forall|a: int| 0 <= a < 9 implies #[trigger] s[a] == t[a] by {
        assert forall|b: int| 0 <= b < 9 implies s[a][b] == t[a][b] by {
            assert(on_board(a, b));
        }
        assert(s[a].len() == 9 && t[a].len() == 9);
        assert(s[a] =~= t[a]);
    }
    assert(s =~= t);
}

/// A filled cell is passed over: the grids that fill from it are those that
/// fill from the next position.
pub proof fn lemma_pass_filled_cell(g: Seq<Seq<u8>>, s: Seq<Seq<u8>>, r: int, c: int)
    requires
        well_shaped(g),
        on_board(r, c),
        g[r][c] != 0,
    ensures
        fills_from(g, s, r, c) <==> fills_from(g, s, next_cell(r, c).0, next_cell(r, c).1),
{
    let (nr, nc) = next_cell(r, c);
    assert(9 * nr + nc == 9 * r + c + 1);
    if fills_from(g, s, r, c) {
        assert forall|a: int, b: int|
            on_board(a, b) && (g[a][b] != 0 || 9 * a + b < 9 * nr + nc) implies #[trigger] s[a][b]
            == g[a][b] by {
            if 9 * a + b == 9 * r + c {
                assert(a == r && b == c);
            }
        }
    }
    if fills_from(g, s, nr, nc) {
        assert forall|a: int, b: int|
            on_board(a, b) && g[a][b] == 0 && 9 * a + b >= 9 * r + c implies 1 <= #[trigger] s[a][b]
            <= 9 by {
            if 9 * a + b == 9 * r + c {
                assert(a == r && b == c);
            }
        }
        assert forall|a: int, b: int, i: int, j: int|
            on_board(a, b) && on_board(i, j) && in_sight(i, j, a, b) && (i != a || j != b) && g[a][b]
                == 0 && 9 * a + b >= 9 * r + c implies #[trigger] s[a][b] != #[trigger] s[i][j] by {
            if 9 * a + b == 9 * r + c {
                assert(a == r && b == c);
            }
        }
    }
}

/// A grid that fills from an empty cell holds a legal digit there, and fills
/// from the next position once that digit is placed.
pub proof fn lemma_fill_holds_legal_digit(g: Seq<Seq<u8>>, s: Seq<Seq<u8>>, r: int, c: int)
    requires
        well_shaped(g),
        on_board(r, c),
        g[r][c] == 0,
        fills_from(g, s, r, c),
    ensures
        1 <= s[r][c] <= 9,
        !occurs_in_sight(g, r, c, s[r][c]),
        fills_from(place(g, r, c, s[r][c]), s, next_cell(r, c).0, next_cell(r, c).1),
{
    let d = s[r][c];
    let p = place(g, r, c, d);
    let (nr, nc) = next_cell(r, c);
    assert(9 * nr + nc == 9 * r + c + 1);
    lemma_place_cells(g, r, c, d);
    assert forall|i: int, j: int| on_board(i, j) && in_sight(i, j, r, c) implies #[trigger] g[i][j]
        != d by {
        if i == r && j == c {
        } else if g[i][j] != 0 {
            assert(s[i][j] == g[i][j]);
            assert(s[r][c] != s[i][j]);
        }
    }
    assert forall|a: int, b: int|
        on_board(a, b) && (p[a][b] != 0 || 9 * a + b < 9 * nr + nc) implies #[trigger] s[a][b]
        == p[a][b] by {
        if a == r && b == c {
        } else {
            assert(p[a][b] == g[a][b]);
            if 9 * a + b == 9 * r + c {
                assert(a == r && b == c);
            }
        }
    }
    assert forall|a: int, b: int|
        on_board(a, b) && p[a][b] == 0 && 9 * a + b >= 9 * nr + nc implies 1 <= #[trigger] s[a][b]
        <= 9 by {
        assert(g[a][b] == 0);
    }
    assert forall|a: int, b: int, i: int, j: int|
        on_board(a, b) && on_board(i, j) && in_sight(i, j, a, b) && (i != a || j != b) && p[a][b]
            == 0 && 9 * a + b >= 9 * nr + nc implies #[trigger] s[a][b] != #[trigger] s[i][j] by {
        assert(g[a][b] == 0);
    }
}

/// A grid that fills from the next position, once a legal digit is placed in
/// an empty cell, fills from that cell and holds the digit there.
pub proof fn lemma_fill_after_legal_digit(g: Seq<Seq<u8>>, s: Seq<Seq<u8>>, r: int, c: int, d: u8)
    requires
        well_shaped(g),
        on_board(r, c),
        g[r][c] == 0,
        1 <= d <= 9,
        !occurs_in_sight(g, r, c, d),
        fills_from(place(g, r, c, d), s, next_cell(r, c).0, next_cell(r, c).1),
    ensures
        fills_from(g, s, r, c),
        s[r][c] == d,
{
    let p = place(g, r, c, d);
    let (nr, nc) = next_cell(r, c);
    assert(9 * nr + nc == 9 * r + c + 1);
    lemma_place_cells(g, r, c, d);
    assert(p[r][c] == d);
    assert(s[r][c] == p[r][c]);
    assert forall|a: int, b: int|
        on_board(a, b) && (g[a][b] != 0 || 9 * a + b < 9 * r + c) implies #[trigger] s[a][b]
        == g[a][b] by {
        assert(p[a][b] == g[a][b]);
        assert(s[a][b] == p[a][b]);
    }
    assert forall|a: int, b: int|
        on_board(a, b) && g[a][b] == 0 && 9 * a + b >= 9 * r + c implies 1 <= #[trigger] s[a][b]
        <= 9 by {
        if !(a == r && b == c) {
            assert(p[a][b] == 0);
            assert(9 * a + b != 9 * r + c);
        }
    }
    assert forall|a: int, b: int, i: int, j: int|
        on_board(a, b) && on_board(i, j) && in_sight(i, j, a, b) && (i != a || j != b) && g[a][b]
            == 0 && 9 * a + b >= 9 * r + c implies #[trigger] s[a][b] != #[trigger] s[i][j] by {
        if a == r && b == c {
            assert(p[i][j] == g[i][j]);
            if p[i][j] != 0 {
                assert(s[i][j] == p[i][j]);
                assert(g[i][j] != d);
            } else if 9 * i + j < 9 * nr + nc {
                assert(s[i][j] == p[i][j]);
            } else {
                assert(in_sight(a, b, i, j));
                assert(s[i][j] != s[a][b]);
            }
        } else {
            assert(p[a][b] == 0);
            assert(9 * a + b != 9 * r + c);
        }
    }
}

/// The count over the digits from `from` on is at least the count for any one
/// of them.
pub proof fn lemma_count_includes_digit(g: Seq<Seq<u8>>, r: int, c: int, from: int, d: int)
    requires
        on_board(r, c),
        1 <= from <= d <= 9,
    ensures
        completions_with(g, r, c, from) >= completions_at(g, r, c, d),
    decreases d - from,
{
    if from < d {
        lemma_count_includes_digit(g, r, c, from + 1, d);
    }
}

/// The count over the digits from `from` on is at least the counts for any
/// two of them together.
pub proof fn lemma_count_includes_two_digits(
    g: Seq<Seq<u8>>,
    r: int,
    c: int,
    from: int,
    d1: int,
    d2: int,
)
    requires
        on_board(r, c),
        1 <= from <= d1 < d2 <= 9,
    ensures
        completions_with(g, r, c, from) >= completions_at(g, r, c, d1) + completions_at(g, r, c, d2),
    decreases d1 - from,
{
    if from < d1 {
        lemma_count_includes_two_digits(g, r, c, from + 1, d1, d2);
    } else {
        lemma_count_includes_digit(g, r, c, from + 1, d2);
    }
}

/// A positive count over the digits from `from` on comes from one of them.
pub proof fn lemma_count_has_digit(g: Seq<Seq<u8>>, r: int, c: int, from: int) -> (d: int)
    requires
        on_board(r, c),
        1 <= from,
        completions_with(g, r, c, from) >= 1,
    ensures
        from <= d <= 9,
        completions_at(g, r, c, d) >= 1,
    decreases 10 - from,
{
    if completions_at(g, r, c, from) >= 1 {
        from
    } else {
        lemma_count_has_digit(g, r, c, from + 1)
    }
}

/// A count of two or more over the digits from `from` on comes from one digit
/// that counts twice, or from two that each count.
pub proof fn lemma_count_has_two(g: Seq<Seq<u8>>, r: int, c: int, from: int) -> (d: (int, int))
    requires
        on_board(r, c),
        1 <= from,
        completions_with(g, r, c, from) >= 2,
    ensures
        from <= d.0 <= d.1 <= 9,
        d.0 == d.1 ==> completions_at(g, r, c, d.0) >= 2,
        d.0 != d.1 ==> completions_at(g, r, c, d.0) >= 1 && completions_at(g, r, c, d.1) >= 1,
    decreases 10 - from,
{
    if completions_at(g, r, c, from) >= 2 {
        (from, from)
    } else if completions_at(g, r, c, from) == 1 {
        let d2 = lemma_count_has_digit(g, r, c, from + 1);
        (from, d2)
    } else {
        lemma_count_has_two(g, r, c, from + 1)
    }
}

/// Where the count is not zero, a grid exists that fills the empty cells.
pub proof fn lemma_counted_completion_exists(g: Seq<Seq<u8>>, r: int, c: int) -> (s: Seq<Seq<u8>>)
    requires
        well_shaped(g),
        scan_position(r, c),
        completions(g, r, c) >= 1,
    ensures
        fills_from(g, s, r, c),
    decreases 81 - (9 * r + c),
{
    let (nr, nc) = next_cell(r, c);
    if !on_board(r, c) {
        g
    } else if g[r][c] != 0 {
        let s = lemma_counted_completion_exists(g, nr, nc);
        lemma_pass_filled_cell(g, s, r, c);
        s
    } else {
        let d = lemma_count_has_digit(g, r, c, 1);
        lemma_place_cells(g, r, c, d as u8);
        let s = lemma_counted_completion_exists(place(g, r, c, d as u8), nr, nc);
        lemma_fill_after_legal_digit(g, s, r, c, d as u8);
        s
    }
}

/// A grid that fills the empty cells is counted.
pub proof fn lemma_completion_is_counted(g: Seq<Seq<u8>>, s: Seq<Seq<u8>>, r: int, c: int)
    requires
        well_shaped(g),
        scan_position(r, c),
        fills_from(g, s, r, c),
    ensures
        completions(g, r, c) >= 1,
    decreases 81 - (9 * r + c),
{
    let (nr, nc) = next_cell(r, c);
    if !on_board(r, c) {
    } else if g[r][c] != 0 {
        lemma_pass_filled_cell(g, s, r, c);
        lemma_completion_is_counted(g, s, nr, nc);
    } else {
        let d = s[r][c];
        lemma_fill_holds_legal_digit(g, s, r, c);
        lemma_place_cells(g, r, c, d);
        lemma_completion_is_counted(place(g, r, c, d), s, nr, nc);
        lemma_count_includes_digit(g, r, c, 1, d as int);
    }
}

/// Two different grids that fill the empty cells make a count of at least two.
pub proof fn lemma_two_completions_are_counted(
    g: Seq<Seq<u8>>,
    s: Seq<Seq<u8>>,
    t: Seq<Seq<u8>>,
    r: int,
    c: int,
)
    requires
        well_shaped(g),
        scan_position(r, c),
        fills_from(g, s, r, c),
        fills_from(g, t, r, c),
        s != t,
    ensures
        completions(g, r, c) >= 2,
    decreases 81 - (9 * r + c),
{
    let (nr, nc) = next_cell(r, c);
    if !on_board(r, c) {
        assert forall|a: int, b: int| on_board(a, b) implies #[trigger] s[a][b] == t[a][b] by {
            assert(s[a][b] == g[a][b]);
            assert(t[a][b] == g[a][b]);
        }
        lemma_same_cells(s, t);
    } else if g[r][c] != 0 {
        lemma_pass_filled_cell(g, s, r, c);
        lemma_pass_filled_cell(g, t, r, c);
        lemma_two_completions_are_counted(g, s, t, nr, nc);
    } else {
        let d = s[r][c];
        let e = t[r][c];
        lemma_fill_holds_legal_digit(g, s, r, c);
        lemma_fill_holds_legal_digit(g, t, r, c);
        lemma_place_cells(g, r, c, d);
        lemma_place_cells(g, r, c, e);
        if d == e {
            lemma_two_completions_are_counted(place(g, r, c, d), s, t, nr, nc);
            lemma_count_includes_digit(g, r, c, 1, d as int);
        } else {
            lemma_completion_is_counted(place(g, r, c, d), s, nr, nc);
            lemma_completion_is_counted(place(g, r, c, e), t, nr, nc);
            if d < e {
                lemma_count_includes_two_digits(g, r, c, 1, d as int, e as int);
            } else {
                lemma_count_includes_two_digits(g, r, c, 1, e as int, d as int);
            }
        }
    }
}

/// Where the count is two or more, two different grids fill the empty cells.
pub proof fn lemma_counted_completions_differ(g: Seq<Seq<u8>>, r: int, c: int) -> (st: (
    Seq<Seq<u8>>,
    Seq<Seq<u8>>,
))
    requires
        well_shaped(g),
        scan_position(r, c),
        completions(g, r, c) >= 2,
    ensures
        fills_from(g, st.0, r, c),
        fills_from(g, st.1, r, c),
        st.0 != st.1,
    decreases 81 - (9 * r + c),
{
    let (nr, nc) = next_cell(r, c);
    if !on_board(r, c) {
        (g, g)
    } else if g[r][c] != 0 {
        let st = lemma_counted_completions_differ(g, nr, nc);
        lemma_pass_filled_cell(g, st.0, r, c);
        lemma_pass_filled_cell(g, st.1, r, c);
        st
    } else {
        let d = lemma_count_has_two(g, r, c, 1);
        lemma_place_cells(g, r, c, d.0 as u8);
        lemma_place_cells(g, r, c, d.1 as u8);
        if d.0 == d.1 {
            let st = lemma_counted_completions_differ(place(g, r, c, d.0 as u8), nr, nc);
            lemma_fill_after_legal_digit(g, st.0, r, c, d.0 as u8);
            lemma_fill_after_legal_digit(g, st.1, r, c, d.0 as u8);
            st
        } else {
            let s = lemma_counted_completion_exists(place(g, r, c, d.0 as u8), nr, nc);
            let t = lemma_counted_completion_exists(place(g, r, c, d.1 as u8), nr, nc);
            lemma_fill_after_legal_digit(g, s, r, c, d.0 as u8);
            lemma_fill_after_legal_digit(g, t, r, c, d.1 as u8);
            (s, t)
        }
    }
}

/// To fill a grid is to fill it from the first cell.
pub proof fn lemma_fills_from_the_start(g: Seq<Seq<u8>>, s: Seq<Seq<u8>>)
    ensures
        fills(g, s) <==> fills_from(g, s, 0, 0),
{
}

/// A grid has a completion exactly when its count is not zero.
pub proof fn lemma_solvable_means_counted(g: Seq<Seq<u8>>)
    requires
        well_shaped(g),
    ensures
        completions(g, 0, 0) >= 1 <==> exists|s: Seq<Seq<u8>>| fills(g, s),
{
    if completions(g, 0, 0) >= 1 {
        let s = lemma_counted_completion_exists(g, 0, 0);
        lemma_fills_from_the_start(g, s);
    }
    if exists|s: Seq<Seq<u8>>| fills(g, s) {
        let s = choose|s: Seq<Seq<u8>>| fills(g, s);
        lemma_fills_from_the_start(g, s);
        lemma_completion_is_counted(g, s, 0, 0);
    }
}

/// A count of one means what it says: the grid has a completion, and every
/// completion of the grid is that one.
pub proof fn lemma_unique_means_one_completion(g: Seq<Seq<u8>>)
    requires
        well_shaped(g),
    ensures
        unique(g) <==> exists|s: Seq<Seq<u8>>|
            #[trigger] fills(g, s) && forall|t: Seq<Seq<u8>>| #[trigger] fills(g, t) ==> t == s,
{
    if unique(g) {
        let s = lemma_counted_completion_exists(g, 0, 0);
        lemma_fills_from_the_start(g, s);
        assert forall|t: Seq<Seq<u8>>| #[trigger] fills(g, t) implies t == s by {
            lemma_fills_from_the_start(g, t);
            if t != s {
                lemma_two_completions_are_counted(g, s, t, 0, 0);
            }
        }
    }
    if exists|s: Seq<Seq<u8>>|
        #[trigger] fills(g, s) && forall|t: Seq<Seq<u8>>| #[trigger] fills(g, t) ==> t == s {
        let s = choose|s: Seq<Seq<u8>>|
            #[trigger] fills(g, s) && forall|t: Seq<Seq<u8>>| #[trigger] fills(g, t) ==> t == s;
        lemma_fills_from_the_start(g, s);
        lemma_completion_is_counted(g, s, 0, 0);
        if completions(g, 0, 0) >= 2 {
            let st = lemma_counted_completions_differ(g, 0, 0);
            lemma_fills_from_the_start(g, st.0);
            lemma_fills_from_the_start(g, st.1);
        }
    }
}

} // verus!
