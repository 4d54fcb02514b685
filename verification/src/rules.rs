//! The mathematical model of the puzzle: what one click does to the grid.
//!
//! A grid is the row-major sequence of the nine cell colors (cell `i` sits at
//! row `i / 3`, column `i % 3`). Each rule below is a pure function from the
//! grid before the click to the grid after it; `click` dispatches on the color
//! of the clicked cell.

use vstd::prelude::*;
use crate::color::Color;

verus! {

/// A grid holds exactly nine cells.
pub open spec fn valid_grid(g: Seq<Color>) -> bool {
    g.len() == 9
}

/// The grid with the contents of cells `a` and `b` exchanged.
pub open spec fn swap_cells(g: Seq<Color>, a: int, b: int) -> Seq<Color> {
    g.update(a, g[b]).update(b, g[a])
}

/// Yellow: swap the clicked cell with the cell directly above it; no-op on the
/// top row.
pub open spec fn yellow_rule(g: Seq<Color>, i: int) -> Seq<Color> {
    if i < 3 {
        g
    } else {
        swap_cells(g, i, i - 3)
    }
}

/// Purple: swap the clicked cell with the cell directly below it; no-op on the
/// bottom row.
pub open spec fn purple_rule(g: Seq<Color>, i: int) -> Seq<Color> {
    if i >= 6 {
        g
    } else {
        swap_cells(g, i, i + 3)
    }
}

/// Green: swap the clicked cell with the point-reflected cell
/// (row -> 2 - row, col -> 2 - col, hence index -> 8 - index); the center is
/// its own reflection, so a click there changes nothing.
pub open spec fn green_rule(g: Seq<Color>, i: int) -> Seq<Color> {
    swap_cells(g, i, 8 - i)
}

/// How one cell changes under Red: Black cells become Red, and then — in a
/// separate, later pass — White cells become Black, so a White cell never
/// turns Red.
pub open spec fn red_cell(c: Color) -> Color {
    if c == Color::Black {
        Color::Red
    } else if c == Color::White {
        Color::Black
    } else {
        c
    }
}

/// Red: the global recoloring applied to every cell.
pub open spec fn red_rule(g: Seq<Color>) -> Seq<Color> {
    Seq::new(g.len(), |j: int| red_cell(g[j]))
}

/// Distance between two integers.
pub open spec fn dist(a: int, b: int) -> int {
    if a >= b {
        a - b
    } else {
        b - a
    }
}

/// Cells `i` and `j` are at Manhattan distance at most 1 in the 3x3 grid:
/// orthogonally adjacent, or the same cell.
pub open spec fn near(i: int, j: int) -> bool {
    dist(i / 3, j / 3) + dist(i % 3, j % 3) <= 1
}

/// How one cell near the clicked cell changes under White, where `t` is the
/// clicked cell's color as captured before any change: cells of color `t`
/// turn Grey, Grey cells turn to `t`, every other cell keeps its color.
pub open spec fn white_cell(c: Color, t: Color) -> Color {
    if c == t {
        Color::Grey
    } else if c == Color::Grey {
        t
    } else {
        c
    }
}

/// White: snapshot-then-apply over the clicked cell and its orthogonal
/// neighbors, all compared against the clicked cell's original color.
pub open spec fn white_rule(g: Seq<Color>, i: int) -> Seq<Color> {
    Seq::new(g.len(), |j: int| if near(i, j) { white_cell(g[j], g[i]) } else { g[j] })
}

/// How many orthogonal neighbors of cell `i` hold color `c`.
pub open spec fn nbr_count(g: Seq<Color>, i: int, c: Color) -> int {
    (if i >= 3 && g[i - 3] == c { 1int } else { 0int })
        + (if i < 6 && g[i + 3] == c { 1int } else { 0int })
        + (if i % 3 > 0 && g[i - 1] == c { 1int } else { 0int })
        + (if i % 3 < 2 && g[i + 1] == c { 1int } else { 0int })
}

/// Color `c` holds the strict majority among cell `i`'s orthogonal neighbors:
/// at least one neighbor has it, and every other color occurs strictly less
/// often.
pub open spec fn sole_majority(g: Seq<Color>, i: int, c: Color) -> bool {
    nbr_count(g, i, c) > 0 && (forall|d: Color| d != c ==> nbr_count(g, i, d) < nbr_count(g, i, c))
}

/// Orange: if exactly one color holds the strict majority among the clicked
/// cell's orthogonal neighbors, the clicked cell takes that color; otherwise
/// nothing changes.
pub open spec fn orange_rule(g: Seq<Color>, i: int) -> Seq<Color> {
    if exists|c: Color| sole_majority(g, i, c) {
        g.update(i, choose|c: Color| sole_majority(g, i, c))
    } else {
        g
    }
}

/// Black: rotate the clicked cell's entire row one step to the right,
/// cyclically.
pub open spec fn black_rule(g: Seq<Color>, i: int) -> Seq<Color> {
    let r = 3 * (i / 3);
    g.update(r, g[r + 2]).update(r + 1, g[r]).update(r + 2, g[r + 1])
}

/// The singleton holding the index of cell (r, c), or empty when that
/// position falls outside the grid.
pub open spec fn cell_if_inside(r: int, c: int) -> Seq<usize> {
    if 0 <= r <= 2 && 0 <= c <= 2 {
        seq![(r * 3 + c) as usize]
    } else {
        seq![]
    }
}

/// The in-grid cells surrounding cell `i`, clockwise starting from the
/// northwest neighbor; positions outside the grid are simply absent.
pub open spec fn ring(i: int) -> Seq<usize> {
    let r = i / 3;
    let c = i % 3;
    cell_if_inside(r - 1, c - 1) + cell_if_inside(r - 1, c) + cell_if_inside(r - 1, c + 1)
        + cell_if_inside(r, c + 1) + cell_if_inside(r + 1, c + 1) + cell_if_inside(r + 1, c)
        + cell_if_inside(r + 1, c - 1) + cell_if_inside(r, c - 1)
}

/// The rotation of the first `n` ring positions: position `rg[k]` takes the
/// value the grid held at `rg[k - 1]` (at `rg[last]` for `k == 0`), every read
/// taken from the grid before the click.
pub open spec fn rotate_prefix(g: Seq<Color>, rg: Seq<usize>, n: int) -> Seq<Color>
    decreases n,
{
    if n <= 0 {
        g
    } else {
        let prev = if n == 1 { rg.len() - 1 } else { n - 2 };
        rotate_prefix(g, rg, n - 1).update(rg[n - 1] as int, g[rg[prev] as int])
    }
}

/// Pink: rotate the contents of the surrounding cells clockwise by one
/// position; absent (out-of-grid) positions make the rotation skip across the
/// gap.
pub open spec fn pink_rule(g: Seq<Color>, i: int) -> Seq<Color> {
    if ring(i).len() == 0 {
        g
    } else {
        rotate_prefix(g, ring(i), ring(i).len() as int)
    }
}

/// The rule selected by color `c`, applied at cell `i`. Blue delegates to the
/// rule of the color currently in the center cell, still acting at cell `i`;
/// a Blue center makes a Blue click a no-op, so the delegation never chains.
pub open spec fn rule_for(g: Seq<Color>, c: Color, i: int) -> Seq<Color>
    decreases (if c == Color::Blue { 1int } else { 0int }),
{
    match c {
        Color::Yellow => yellow_rule(g, i),
        Color::Grey => g,
        Color::Red => red_rule(g),
        Color::White => white_rule(g, i),
        Color::Orange => orange_rule(g, i),
        Color::Pink => pink_rule(g, i),
        Color::Purple => purple_rule(g, i),
        Color::Black => black_rule(g, i),
        Color::Green => green_rule(g, i),
        Color::Blue => if g[4] == Color::Blue {
            g
        } else {
            rule_for(g, g[4], i)
        },
    }
}

/// The grid after a click at cell `i`: the rule selected by the clicked
/// cell's color. Opaque so that search proofs treat a click as one abstract
/// step; `lemma_click_is_rule_for` opens it.
#[verifier::opaque]
pub open spec fn click(g: Seq<Color>, i: int) -> Seq<Color> {
    rule_for(g, g[i], i)
}

/// What a click is, stated once for the proofs that need the rule table.
pub proof fn lemma_click_is_rule_for(g: Seq<Color>, i: int)
    ensures
        click(g, i) == rule_for(g, g[i], i),
{
    reveal(click);
}

/// The grid after clicking the cells of `ms` in order.
pub open spec fn apply_moves(g: Seq<Color>, ms: Seq<int>) -> Seq<Color>
    decreases ms.len(),
{
    if ms.len() == 0 {
        g
    } else {
        apply_moves(click(g, ms[0]), ms.drop_first())
    }
}

/// Every move names a cell of the grid.
pub open spec fn valid_moves(ms: Seq<int>) -> bool {
    forall|k: int| 0 <= k < ms.len() ==> 0 <= #[trigger] ms[k] < 9
}

/// Every move of `ms`, replayed in order from `g`, changes the grid: the
/// sequence contains no no-op click.
pub open spec fn progressing_moves(g: Seq<Color>, ms: Seq<int>) -> bool
    decreases ms.len(),
{
    ms.len() == 0 || (click(g, ms[0]) != g && progressing_moves(click(g, ms[0]), ms.drop_first()))
}

/// The four corner cells match the four goal colors pairwise (goal order:
/// top-left, top-right, bottom-left, bottom-right).
pub open spec fn solved(g: Seq<Color>, goal: Seq<Color>) -> bool {
    g[0] == goal[0] && g[2] == goal[1] && g[6] == goal[2] && g[8] == goal[3]
}

/// The sequence of `n` clicks at the same cell.
pub open spec fn repeat_move(i: int, n: nat) -> Seq<int> {
    Seq::new(n, |k: int| i)
}

/// One click on a Grey cell changes nothing.
pub proof fn lemma_grey_click_identity(g: Seq<Color>, i: int)
    requires
        valid_grid(g),
        0 <= i < 9,
        g[i] == Color::Grey,
    ensures
        click(g, i) == g,
{
    reveal(click);
}

/// Clicking a Grey cell any number of times never changes the grid.
pub proof fn lemma_grey_idempotent(g: Seq<Color>, i: int, n: nat)
    requires
        valid_grid(g),
        0 <= i < 9,
        g[i] == Color::Grey,
    ensures
        apply_moves(g, repeat_move(i, n)) == g,
    decreases n,
{
    if n == 0 {
        assert(repeat_move(i, n).len() == 0);
    } else {
        lemma_grey_click_identity(g, i);
        assert(repeat_move(i, n)[0] == i);
        assert(repeat_move(i, n).drop_first() =~= repeat_move(i, (n - 1) as nat));
        lemma_grey_idempotent(g, i, (n - 1) as nat);
    }
}

/// Yellow then Purple undo each other: the Yellow rule at `i` moves the
/// clicked tile up to `i - 3`, and the Purple rule applied there moves it
/// back down, restoring the grid byte for byte. The top row is left out: a
/// Yellow click there is a boundary no-op. (The Purple step is then never a
/// boundary no-op, since `i - 3` cannot lie on the bottom row.)
pub proof fn lemma_yellow_then_purple_undo(g: Seq<Color>, i: int)
    requires
        valid_grid(g),
        3 <= i < 9,
    ensures
        purple_rule(yellow_rule(g, i), i - 3) == g,
{
    assert(purple_rule(yellow_rule(g, i), i - 3) =~= g);
}

/// The mirror round trip: the Purple rule at `i` moves the clicked tile down
/// to `i + 3`, and the Yellow rule applied there moves it back up.
pub proof fn lemma_purple_then_yellow_undo(g: Seq<Color>, i: int)
    requires
        valid_grid(g),
        0 <= i < 6,
    ensures
        yellow_rule(purple_rule(g, i), i + 3) == g,
{
    assert(yellow_rule(purple_rule(g, i), i + 3) =~= g);
}

/// Black applied three times restores the row: each application rotates the
/// clicked cell's three-cell row one step to the right.
pub proof fn lemma_black_three_times(g: Seq<Color>, i: int)
    requires
        valid_grid(g),
        0 <= i < 9,
    ensures
        black_rule(black_rule(black_rule(g, i), i), i) == g,
{
    assert(black_rule(black_rule(black_rule(g, i), i), i) =~= g);
}

/// Green applied twice restores the grid: the second swap of the same pair
/// undoes the first (a center click swaps the center with itself and changes
/// nothing even once).
pub proof fn lemma_green_twice(g: Seq<Color>, i: int)
    requires
        valid_grid(g),
        0 <= i < 9,
    ensures
        green_rule(green_rule(g, i), i) == g,
{
    assert(green_rule(green_rule(g, i), i) =~= g);
}

} // verus!
