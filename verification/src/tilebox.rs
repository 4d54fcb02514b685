//! The executable puzzle state: a 3x3 grid of colors plus the goal colors of
//! the four corners. Every click is proved equal to the rule model in
//! `crate::rules`.

use vstd::prelude::*;
use crate::color::Color;
use crate::rules::{
    valid_grid, yellow_rule, purple_rule, green_rule, red_cell, red_rule, near, white_cell,
    white_rule, nbr_count, sole_majority, orange_rule, black_rule, ring, rotate_prefix, pink_rule,
    rule_for, click, solved,
};

verus! {

broadcast use vstd::array::group_array_axioms;

/// A 3x3 grid of colored tiles, stored row-major, together with the goal
/// corner colors in the order top-left, top-right, bottom-left, bottom-right.
/// A click produces a new value of this type by copy-and-mutate; the goal is
/// fixed for the life of the value.
#[derive(Clone, Copy, Debug, PartialEq, Eq)]
pub struct TileBox {
    data: [Color; 9],
    solution_colors: [Color; 4],
}

/// The sequence of the ten colors, in declaration order.
pub open spec fn color_list() -> Seq<Color> {
    seq![
        Color::Yellow,
        Color::Grey,
        Color::Red,
        Color::White,
        Color::Orange,
        Color::Pink,
        Color::Purple,
        Color::Black,
        Color::Green,
        Color::Blue,
    ]
}

/// Every color occurs in `color_list`.
pub proof fn lemma_color_list_complete()
    ensures
        forall|c: Color| #[trigger] color_list().contains(c),
{
    assert forall|c: Color| #[trigger] color_list().contains(c) by {
        let s = color_list();
        match c {
            Color::Yellow => assert(s[0] == c),
            Color::Grey => assert(s[1] == c),
            Color::Red => assert(s[2] == c),
            Color::White => assert(s[3] == c),
            Color::Orange => assert(s[4] == c),
            Color::Pink => assert(s[5] == c),
            Color::Purple => assert(s[6] == c),
            Color::Black => assert(s[7] == c),
            Color::Green => assert(s[8] == c),
            Color::Blue => assert(s[9] == c),
        }
    }
}

/// Two distinct colors cannot both hold the strict majority among the same
/// cell's neighbors.
pub proof fn lemma_sole_majority_unique(g: Seq<Color>, i: int, a: Color, b: Color)
    requires
        sole_majority(g, i, a),
        sole_majority(g, i, b),
    ensures
        a == b,
{
    if a != b {
        assert(nbr_count(g, i, b) < nbr_count(g, i, a));
        assert(nbr_count(g, i, a) < nbr_count(g, i, b));
    }
}

fn all_colors() -> (r: Vec<Color>)
    ensures
        r@ == color_list(),
{
    let mut v: Vec<Color> = Vec::new();
    v.push(Color::Yellow);
    v.push(Color::Grey);
    v.push(Color::Red);
    v.push(Color::White);
    v.push(Color::Orange);
    v.push(Color::Pink);
    v.push(Color::Purple);
    v.push(Color::Black);
    v.push(Color::Green);
    v.push(Color::Blue);
    proof {
        assert(v@ =~= color_list());
    }
    v
}

impl TileBox {
    /// The nine cell colors, row-major.
    pub closed spec fn grid(self) -> Seq<Color> {
        self.data@
    }

    /// The goal colors of the four corners.
    pub closed spec fn goal(self) -> Seq<Color> {
        self.solution_colors@
    }

    /// A grid always holds exactly nine cells and a goal exactly four colors.
    pub proof fn lemma_well_formed(self)
        ensures
            valid_grid(self.grid()),
            self.goal().len() == 4,
    {
    }

    /// A new box from the given layout (all Grey when omitted) and the goal
    /// corner colors.
    pub fn new(data: Option<[Color; 9]>, solution_colors: [Color; 4]) -> (r: Self)
        ensures
            r.grid() == match data {
                Some(d) => d@,
                None => Seq::new(9, |k: int| Color::Grey),
            },
            r.goal() == solution_colors@,
    {
        let cells = match data {
            Some(d) => d,
            None => [Color::Grey; 9],
        };
        TileBox { data: cells, solution_colors }
    }

    /// The color of cell `k`.
    pub fn cell(&self, k: usize) -> (r: Color)
        requires
            k < 9,
        ensures
            r == self.grid()[k as int],
    {
        self.data[k]
    }

    /// True exactly when the four corners match the goal colors pairwise.
    pub fn is_solved(&self) -> (r: bool)
        ensures
            r == solved(self.grid(), self.goal()),
    {
        self.data[0] == self.solution_colors[0] && self.data[2] == self.solution_colors[1]
            && self.data[6] == self.solution_colors[2] && self.data[8] == self.solution_colors[3]
    }

    /// True exactly when both boxes hold the same grid.
    pub fn same_grid(&self, other: &TileBox) -> (r: bool)
        ensures
            r == (self.grid() == other.grid()),
    {
        let mut k: usize = 0;
        while k < 9
            invariant
                k <= 9,
                forall|j: int| 0 <= j < k ==> self.grid()[j] == other.grid()[j],
            decreases 9 - k,
        {
            if self.data[k] != other.data[k] {
                return false;
            }
            k += 1;
        }
        proof {
            assert(self.grid() =~= other.grid());
        }
        true
    }

    /// Apply the rule selected by the color of the clicked cell. The search
    /// only ever generates indices below nine; any other index would be a
    /// defect in the caller, so it is excluded here.
    pub fn simulate_click(&mut self, index: usize)
        requires
            index < 9,
        ensures
            final(self).grid() == click(old(self).grid(), index as int),
            final(self).goal() == old(self).goal(),
    {
        let clicked_color = self.data[index];
        self.match_click_from_color(clicked_color, index);
        proof {
            crate::rules::lemma_click_is_rule_for(old(self).grid(), index as int);
        }
    }

    fn match_click_from_color(&mut self, color: Color, index: usize)
        requires
            index < 9,
        ensures
            final(self).grid() == rule_for(old(self).grid(), color, index as int),
            final(self).solution_colors == old(self).solution_colors,
        decreases (if color == Color::Blue { 1int } else { 0int }), 1int,
    {
        match color {
            Color::Yellow => self.click_yellow(index),
            Color::Grey => self.click_grey(index),
            Color::Red => self.click_red(index),
            Color::White => self.click_white(index),
            Color::Orange => self.click_orange(index),
            Color::Pink => self.click_pink(index),
            Color::Purple => self.click_purple(index),
            Color::Black => self.click_black(index),
            Color::Green => self.click_green(index),
            Color::Blue => self.click_blue(index),
        }
    }

    /// Yellow moves the clicked tile up, doing nothing on the top row.
    fn click_yellow(&mut self, index: usize)
        requires
            index < 9,
        ensures
            final(self).data@ == yellow_rule(old(self).data@, index as int),
            final(self).solution_colors == old(self).solution_colors,
    {
        let row = index / 3;
        let col = index % 3;
        if row == 0 {
            return;
        }
        let above = (row - 1) * 3 + col;
        let temp = self.data[above];
        self.data[above] = self.data[index];
        self.data[index] = temp;
        proof {
            assert(above as int == index as int - 3);
            assert(self.data@ =~= yellow_rule(old(self).data@, index as int));
        }
    }

    /// Grey does nothing.
    fn click_grey(&mut self, _index: usize)
        ensures
            final(self).data@ == old(self).data@,
            final(self).solution_colors == old(self).solution_colors,
    {
    }

    /// Red recolors globally: Black tiles become Red and, in a later pass,
    /// White tiles become Black.
    fn click_red(&mut self, _index: usize)
        ensures
            final(self).data@ == red_rule(old(self).data@),
            final(self).solution_colors == old(self).solution_colors,
    {
        let mut k: usize = 0;
        while k < 9
            invariant
                k <= 9,
                self.solution_colors == old(self).solution_colors,
                forall|j: int| 0 <= j < k ==> self.data@[j] == red_cell(old(self).data@[j]),
                forall|j: int| k <= j < 9 ==> self.data@[j] == old(self).data@[j],
            decreases 9 - k,
        {
            let c = self.data[k];
            if c == Color::Black {
                self.data[k] = Color::Red;
            } else if c == Color::White {
                self.data[k] = Color::Black;
            }
            k += 1;
        }
        proof {
            assert(self.data@ =~= red_rule(old(self).data@));
        }
    }

    /// White turns the near cells of the clicked cell's original color Grey
    /// and the near Grey cells to that color, from a single snapshot.
    fn click_white(&mut self, index: usize)
        requires
            index < 9,
        ensures
            final(self).data@ == white_rule(old(self).data@, index as int),
            final(self).solution_colors == old(self).solution_colors,
    {
        let row = index / 3;
        let col = index % 3;
        let curr_color = self.data[index];
        let mut k: usize = 0;
        while k < 9
            invariant
                k <= 9,
                index < 9,
                row == index / 3,
                col == index % 3,
                curr_color == old(self).data@[index as int],
                self.solution_colors == old(self).solution_colors,
                forall|j: int| 0 <= j < k ==> self.data@[j] == (if near(index as int, j) {
                    white_cell(old(self).data@[j], curr_color)
                } else {
                    old(self).data@[j]
                }),
                forall|j: int| k <= j < 9 ==> self.data@[j] == old(self).data@[j],
            decreases 9 - k,
        {
            let kr = k / 3;
            let kc = k % 3;
            let dr = if kr >= row { kr - row } else { row - kr };
            let dc = if kc >= col { kc - col } else { col - kc };
            if dr + dc <= 1 {
                assert(near(index as int, k as int));
                if self.data[k] == curr_color {
                    self.data[k] = Color::Grey;
                } else if self.data[k] == Color::Grey {
                    self.data[k] = curr_color;
                }
            } else {
                assert(!near(index as int, k as int));
            }
            k += 1;
        }
        proof {
            assert(self.data@ =~= white_rule(old(self).data@, index as int));
        }
    }

    fn count_nbrs(&self, index: usize, c: Color) -> (r: usize)
        requires
            index < 9,
        ensures
            r as int == nbr_count(self.grid(), index as int, c),
    {
        let mut cnt: usize = 0;
        if index >= 3 && self.data[index - 3] == c {
            cnt += 1;
        }
        if index < 6 && self.data[index + 3] == c {
            cnt += 1;
        }
        if index % 3 > 0 && self.data[index - 1] == c {
            cnt += 1;
        }
        if index % 3 < 2 && self.data[index + 1] == c {
            cnt += 1;
        }
        cnt
    }

    fn is_sole_majority_color(&self, index: usize, c: Color) -> (r: bool)
        requires
            index < 9,
        ensures
            r == sole_majority(self.grid(), index as int, c),
    {
        let cnt = self.count_nbrs(index, c);
        if cnt == 0 {
            return false;
        }
        let colors = all_colors();
        let mut k: usize = 0;
        while k < colors.len()
            invariant
                index < 9,
                colors@ == color_list(),
                k <= colors@.len(),
                cnt as int == nbr_count(self.grid(), index as int, c),
                cnt > 0,
                forall|j: int| 0 <= j < k && color_list()[j] != c
                    ==> nbr_count(self.grid(), index as int, #[trigger] color_list()[j])
                        < cnt as int,
            decreases colors@.len() - k,
        {
            let d = colors[k];
            if d != c {
                if self.count_nbrs(index, d) >= cnt {
                    return false;
                }
            }
            k += 1;
        }
        proof {
            lemma_color_list_complete();
            assert forall|d: Color| d != c implies nbr_count(self.grid(), index as int, d)
                < nbr_count(self.grid(), index as int, c) by {
                assert(color_list().contains(d));
                let j = choose|j: int| 0 <= j < color_list().len() && color_list()[j] == d;
                assert(color_list()[j] == d);
            }
        }
        true
    }

    fn find_sole_majority(&self, index: usize) -> (r: Option<Color>)
        requires
            index < 9,
        ensures
            match r {
                Some(c) => sole_majority(self.grid(), index as int, c),
                None => forall|c: Color| !sole_majority(self.grid(), index as int, c),
            },
    {
        let colors = all_colors();
        let mut k: usize = 0;
        while k < colors.len()
            invariant
                index < 9,
                colors@ == color_list(),
                k <= colors@.len(),
                forall|j: int| 0 <= j < k
                    ==> !sole_majority(self.grid(), index as int, #[trigger] color_list()[j]),
            decreases colors@.len() - k,
        {
            let c = colors[k];
            if self.is_sole_majority_color(index, c) {
                return Some(c);
            }
            k += 1;
        }
        proof {
            lemma_color_list_complete();
            assert forall|c: Color| !sole_majority(self.grid(), index as int, c) by {
                assert(color_list().contains(c));
                let j = choose|j: int| 0 <= j < color_list().len() && color_list()[j] == c;
                assert(color_list()[j] == c);
            }
        }
        None
    }

    /// Orange takes the strict-majority color of the clicked cell's
    /// orthogonal neighbors, when one exists.
    fn click_orange(&mut self, index: usize)
        requires
            index < 9,
        ensures
            final(self).data@ == orange_rule(old(self).data@, index as int),
            final(self).solution_colors == old(self).solution_colors,
    {
        match self.find_sole_majority(index) {
            Some(c) => {
                proof {
                    let picked = choose|d: Color|
                        sole_majority(self.grid(), index as int, d);
                    lemma_sole_majority_unique(self.grid(), index as int, picked, c);
                }
                self.data[index] = c;
                proof {
                    assert(self.data@ =~= orange_rule(old(self).data@, index as int));
                }
            },
            None => {
                proof {
                    assert(self.data@ =~= orange_rule(old(self).data@, index as int));
                }
            },
        }
    }

    fn ring_cells(index: usize) -> (r: Vec<usize>)
        requires
            index < 9,
        ensures
            r@ == ring(index as int),
            forall|j: int| 0 <= j < r@.len() ==> #[trigger] r@[j] < 9,
    {
        let row = index / 3;
        let col = index % 3;
        let mut v: Vec<usize> = Vec::new();
        if row >= 1 && col >= 1 {
            v.push((row - 1) * 3 + (col - 1));
        }
        if row >= 1 {
            v.push((row - 1) * 3 + col);
        }
        if row >= 1 && col <= 1 {
            v.push((row - 1) * 3 + (col + 1));
        }
        if col <= 1 {
            v.push(row * 3 + (col + 1));
        }
        if row <= 1 && col <= 1 {
            v.push((row + 1) * 3 + (col + 1));
        }
        if row <= 1 {
            v.push((row + 1) * 3 + col);
        }
        if row <= 1 && col >= 1 {
            v.push((row + 1) * 3 + (col - 1));
        }
        if col >= 1 {
            v.push(row * 3 + (col - 1));
        }
        proof {
            assert(v@ =~= ring(index as int));
        }
        v
    }

    /// Pink rotates the surrounding tiles clockwise by one position, skipping
    /// positions outside the grid.
    fn click_pink(&mut self, index: usize)
        requires
            index < 9,
        ensures
            final(self).data@ == pink_rule(old(self).data@, index as int),
            final(self).solution_colors == old(self).solution_colors,
    {
        let rv = Self::ring_cells(index);
        if rv.len() == 0 {
            return;
        }
        let orig = self.data;
        let mut k: usize = 0;
        while k < rv.len()
            invariant
                index < 9,
                rv@ == ring(index as int),
                forall|j: int| 0 <= j < rv@.len() ==> #[trigger] rv@[j] < 9,
                rv@.len() > 0,
                k <= rv@.len(),
                orig == old(self).data,
                self.solution_colors == old(self).solution_colors,
                self.data@ == rotate_prefix(orig@, rv@, k as int),
            decreases rv@.len() - k,
        {
            let prev = if k == 0 {
                rv.len() - 1
            } else {
                k - 1
            };
            self.data[rv[k]] = orig[rv[prev]];
            k += 1;
        }
    }

    /// Purple moves the clicked tile down, doing nothing on the bottom row.
    fn click_purple(&mut self, index: usize)
        requires
            index < 9,
        ensures
            final(self).data@ == purple_rule(old(self).data@, index as int),
            final(self).solution_colors == old(self).solution_colors,
    {
        let row = index / 3;
        let col = index % 3;
        if row == 2 {
            return;
        }
        let below = (row + 1) * 3 + col;
        let temp = self.data[below];
        self.data[below] = self.data[index];
        self.data[index] = temp;
        proof {
            assert(below as int == index as int + 3);
            assert(self.data@ =~= purple_rule(old(self).data@, index as int));
        }
    }

    /// Black rotates the clicked cell's row one step to the right, cyclically.
    fn click_black(&mut self, index: usize)
        requires
            index < 9,
        ensures
            final(self).data@ == black_rule(old(self).data@, index as int),
            final(self).solution_colors == old(self).solution_colors,
    {
        let row = index / 3;
        let temp = self.data[row * 3 + 2];
        self.data[row * 3 + 2] = self.data[row * 3 + 1];
        self.data[row * 3 + 1] = self.data[row * 3];
        self.data[row * 3] = temp;
        proof {
            assert(self.data@ =~= black_rule(old(self).data@, index as int));
        }
    }

    /// Green swaps the clicked tile with the point-reflected one; a click on
    /// the center changes nothing.
    fn click_green(&mut self, index: usize)
        requires
            index < 9,
        ensures
            final(self).data@ == green_rule(old(self).data@, index as int),
            final(self).solution_colors == old(self).solution_colors,
    {
        let row = index / 3;
        let col = index % 3;
        let opp = (2 - row) * 3 + (2 - col);
        let temp = self.data[opp];
        self.data[opp] = self.data[index];
        self.data[index] = temp;
        proof {
            assert(opp as int == 8 - index as int);
            assert(self.data@ =~= green_rule(old(self).data@, index as int));
        }
    }

    /// Blue behaves as the color in the center cell, still acting at the
    /// clicked cell; a Blue center makes the click a no-op.
    fn click_blue(&mut self, index: usize)
        requires
            index < 9,
        ensures
            final(self).data@ == rule_for(old(self).data@, Color::Blue, index as int),
            final(self).solution_colors == old(self).solution_colors,
        decreases 1int, 0int,
    {
        if self.data[4] == Color::Blue {
            return;
        }
        let center = self.data[4];
        self.match_click_from_color(center, index);
    }
}

} // verus!
