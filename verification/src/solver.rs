//! The state-space search over the click-transition graph.
//!
//! Strategy A (`solve`) is an exhaustive breadth-first search with a
//! visited-set, so the first solved state it reaches ends a shortest path.
//! Strategy B (`solve_bounded`, `search_partition`) enumerates all move
//! sequences of a fixed length, deepening the length up to a caller-supplied
//! bound; `search_partition` is one first-move share of that enumeration, so
//! a caller may run the nine shares independently.
//!
//! Either way, a click that leaves the grid unchanged is pruned: it can never
//! be part of a shortest path and would make the state graph infinite to
//! walk naively.

use vstd::prelude::*;
use std::collections::HashSet;
use crate::color::Color;
use crate::rules::{click, apply_moves, valid_moves, progressing_moves, solved};
use crate::tilebox::TileBox;

verus! {

broadcast use vstd::std_specs::hash::group_hash_axioms;

/// The externally reported value for internal cell index `i`: the fixed
/// numeric-keypad layout rather than row-major order.
pub open spec fn numpad_of(i: int) -> int {
    if i == 0 {
        7
    } else if i == 1 {
        8
    } else if i == 2 {
        9
    } else if i == 3 {
        4
    } else if i == 4 {
        5
    } else if i == 5 {
        6
    } else if i == 6 {
        1
    } else if i == 7 {
        2
    } else if i == 8 {
        3
    } else {
        0
    }
}

/// The internal cell index behind external keypad value `e`.
pub open spec fn numpad_inv(e: int) -> int {
    if e == 7 {
        0
    } else if e == 8 {
        1
    } else if e == 9 {
        2
    } else if e == 4 {
        3
    } else if e == 5 {
        4
    } else if e == 6 {
        5
    } else if e == 1 {
        6
    } else if e == 2 {
        7
    } else if e == 3 {
        8
    } else {
        9
    }
}

/// The keypad remapping is a bijection: every internal index 0..9 maps to a
/// unique external value in 1..=9, and `numpad_inv` undoes it on both sides.
pub proof fn lemma_numpad_bijective()
    ensures
        forall|i: int| 0 <= i < 9 ==> 1 <= #[trigger] numpad_of(i) <= 9,
        forall|i: int, j: int|
            0 <= i < 9 && 0 <= j < 9 && i != j ==> numpad_of(i) != numpad_of(j),
        forall|i: int| 0 <= i < 9 ==> numpad_inv(#[trigger] numpad_of(i)) == i,
        forall|e: int| 1 <= e <= 9 ==> numpad_of(#[trigger] numpad_inv(e)) == e,
{
}

/// A path of internal cell indices, as mathematical integers.
pub open spec fn moves_of(p: Seq<usize>) -> Seq<int> {
    p.map_values(|u: usize| u as int)
}

proof fn lemma_moves_of_push(p: Seq<usize>, m: usize)
    ensures
        moves_of(p.push(m)) == moves_of(p).push(m as int),
{
    assert(moves_of(p.push(m)) =~= moves_of(p).push(m as int));
}

/// Replaying a path and then one more click is replaying the extended path.
proof fn lemma_apply_moves_push(g: Seq<Color>, ms: Seq<int>, m: int)
    ensures
        apply_moves(g, ms.push(m)) == click(apply_moves(g, ms), m),
    decreases ms.len(),
{
    if ms.len() == 0 {
        assert(ms.push(m)[0] == m);
        assert(ms.push(m).drop_first() =~= Seq::<int>::empty());
        assert(apply_moves(click(g, m), Seq::<int>::empty()) == click(g, m));
        assert(apply_moves(g, Seq::<int>::empty()) == g);
    } else {
        assert(ms.push(m)[0] == ms[0]);
        assert(ms.push(m).drop_first() =~= ms.drop_first().push(m));
        lemma_apply_moves_push(click(g, ms[0]), ms.drop_first(), m);
    }
}

/// A path without no-op clicks stays without them when a further click that
/// changes the grid is appended.
proof fn lemma_progressing_push(g: Seq<Color>, ms: Seq<int>, m: int)
    requires
        progressing_moves(g, ms),
        click(apply_moves(g, ms), m) != apply_moves(g, ms),
    ensures
        progressing_moves(g, ms.push(m)),
    decreases ms.len(),
{
    if ms.len() == 0 {
        assert(ms.push(m)[0] == m);
        assert(ms.push(m).drop_first() =~= Seq::<int>::empty());
        assert(apply_moves(g, Seq::<int>::empty()) == g);
        assert(progressing_moves(click(g, m), Seq::<int>::empty()));
    } else {
        assert(ms.push(m)[0] == ms[0]);
        assert(ms.push(m).drop_first() =~= ms.drop_first().push(m));
        lemma_progressing_push(click(g, ms[0]), ms.drop_first(), m);
    }
}

/// The base-10 digit standing for a color in a grid fingerprint.
pub open spec fn color_code(c: Color) -> int {
    match c {
        Color::Yellow => 0,
        Color::Grey => 1,
        Color::Red => 2,
        Color::White => 3,
        Color::Orange => 4,
        Color::Pink => 5,
        Color::Purple => 6,
        Color::Black => 7,
        Color::Green => 8,
        Color::Blue => 9,
    }
}

/// A numeric fingerprint of a grid: the nine cells as base-10 digits. The
/// breadth-first search keys its visited-set on this value; the goal colors
/// are excluded on purpose.
pub open spec fn grid_code(g: Seq<Color>) -> int {
    color_code(g[0]) + 10 * color_code(g[1]) + 100 * color_code(g[2]) + 1000 * color_code(g[3])
        + 10000 * color_code(g[4]) + 100000 * color_code(g[5]) + 1000000 * color_code(g[6])
        + 10000000 * color_code(g[7]) + 100000000 * color_code(g[8])
}

/// A grid fingerprint is a nine-digit number.
proof fn lemma_grid_code_bounds(g: Seq<Color>)
    requires
        g.len() == 9,
    ensures
        0 <= grid_code(g) < 1000000000,
{
}

/// Two colors with the same digit are the same color.
proof fn lemma_color_code_injective(a: Color, b: Color)
    requires
        color_code(a) == color_code(b),
    ensures
        a == b,
{
}

/// Matching base-10 digits can be peeled off a matching sum one at a time.
proof fn lemma_peel_digit(x: int, y: int, xr: int, yr: int)
    requires
        0 <= x <= 9,
        0 <= y <= 9,
        x + 10 * xr == y + 10 * yr,
    ensures
        x == y,
        xr == yr,
{
}

/// Two grids with the same fingerprint are the same grid, digit by digit.
proof fn lemma_grid_code_injective(a: Seq<Color>, b: Seq<Color>)
    requires
        a.len() == 9,
        b.len() == 9,
        grid_code(a) == grid_code(b),
    ensures
        a == b,
{
    let ra1 = color_code(a[1]) + 10 * color_code(a[2]) + 100 * color_code(a[3]) + 1000
        * color_code(a[4]) + 10000 * color_code(a[5]) + 100000 * color_code(a[6]) + 1000000
        * color_code(a[7]) + 10000000 * color_code(a[8]);
    let rb1 = color_code(b[1]) + 10 * color_code(b[2]) + 100 * color_code(b[3]) + 1000
        * color_code(b[4]) + 10000 * color_code(b[5]) + 100000 * color_code(b[6]) + 1000000
        * color_code(b[7]) + 10000000 * color_code(b[8]);
    lemma_peel_digit(color_code(a[0]), color_code(b[0]), ra1, rb1);
    let ra2 = color_code(a[2]) + 10 * color_code(a[3]) + 100 * color_code(a[4]) + 1000
        * color_code(a[5]) + 10000 * color_code(a[6]) + 100000 * color_code(a[7]) + 1000000
        * color_code(a[8]);
    let rb2 = color_code(b[2]) + 10 * color_code(b[3]) + 100 * color_code(b[4]) + 1000
        * color_code(b[5]) + 10000 * color_code(b[6]) + 100000 * color_code(b[7]) + 1000000
        * color_code(b[8]);
    lemma_peel_digit(color_code(a[1]), color_code(b[1]), ra2, rb2);
    let ra3 = color_code(a[3]) + 10 * color_code(a[4]) + 100 * color_code(a[5]) + 1000
        * color_code(a[6]) + 10000 * color_code(a[7]) + 100000 * color_code(a[8]);
    let rb3 = color_code(b[3]) + 10 * color_code(b[4]) + 100 * color_code(b[5]) + 1000
        * color_code(b[6]) + 10000 * color_code(b[7]) + 100000 * color_code(b[8]);
    lemma_peel_digit(color_code(a[2]), color_code(b[2]), ra3, rb3);
    let ra4 = color_code(a[4]) + 10 * color_code(a[5]) + 100 * color_code(a[6]) + 1000
        * color_code(a[7]) + 10000 * color_code(a[8]);
    let rb4 = color_code(b[4]) + 10 * color_code(b[5]) + 100 * color_code(b[6]) + 1000
        * color_code(b[7]) + 10000 * color_code(b[8]);
    lemma_peel_digit(color_code(a[3]), color_code(b[3]), ra4, rb4);
    let ra5 = color_code(a[5]) + 10 * color_code(a[6]) + 100 * color_code(a[7]) + 1000
        * color_code(a[8]);
    let rb5 = color_code(b[5]) + 10 * color_code(b[6]) + 100 * color_code(b[7]) + 1000
        * color_code(b[8]);
    lemma_peel_digit(color_code(a[4]), color_code(b[4]), ra5, rb5);
    let ra6 = color_code(a[6]) + 10 * color_code(a[7]) + 100 * color_code(a[8]);
    let rb6 = color_code(b[6]) + 10 * color_code(b[7]) + 100 * color_code(b[8]);
    lemma_peel_digit(color_code(a[5]), color_code(b[5]), ra6, rb6);
    let ra7 = color_code(a[7]) + 10 * color_code(a[8]);
    let rb7 = color_code(b[7]) + 10 * color_code(b[8]);
    lemma_peel_digit(color_code(a[6]), color_code(b[6]), ra7, rb7);
    lemma_peel_digit(color_code(a[7]), color_code(b[7]), color_code(a[8]), color_code(b[8]));
    assert forall|k: int| 0 <= k < 9 implies a[k] == b[k] by {
        lemma_color_code_injective(a[k], b[k]);
    }
    assert(a =~= b);
}

/// A set of grids that contains `g` and is closed under every click traps
/// the replay of any move sequence that starts at `g`.
proof fn lemma_closed_set_traps_moves(seen: Set<Seq<Color>>, g: Seq<Color>, ms: Seq<int>)
    requires
        seen.contains(g),
        forall|s: Seq<Color>, i: int|
            seen.contains(s) && 0 <= i < 9 ==> (#[trigger] click(s, i) == s || seen.contains(
                click(s, i),
            )),
        valid_moves(ms),
    ensures
        seen.contains(apply_moves(g, ms)),
    decreases ms.len(),
{
    if ms.len() > 0 {
        assert(0 <= ms[0] < 9);
        let g1 = click(g, ms[0]);
        assert(valid_moves(ms.drop_first())) by {
            assert forall|k: int| 0 <= k < ms.drop_first().len() implies 0
                <= #[trigger] ms.drop_first()[k] < 9 by {
                assert(ms.drop_first()[k] == ms[k + 1]);
            }
        }
        lemma_closed_set_traps_moves(seen, g1, ms.drop_first());
    }
}

fn color_code_value(c: Color) -> (r: u64)
    ensures
        r as int == color_code(c),
{
    match c {
        Color::Yellow => 0,
        Color::Grey => 1,
        Color::Red => 2,
        Color::White => 3,
        Color::Orange => 4,
        Color::Pink => 5,
        Color::Purple => 6,
        Color::Black => 7,
        Color::Green => 8,
        Color::Blue => 9,
    }
}

#[verifier::rlimit(50)]
fn encode_box(b: &TileBox) -> (r: u64)
    ensures
        r as int == grid_code(b.grid()),
{
    let d0 = color_code_value(b.cell(0));
    let d1 = color_code_value(b.cell(1));
    let d2 = color_code_value(b.cell(2));
    let d3 = color_code_value(b.cell(3));
    let d4 = color_code_value(b.cell(4));
    let d5 = color_code_value(b.cell(5));
    let d6 = color_code_value(b.cell(6));
    let d7 = color_code_value(b.cell(7));
    let d8 = color_code_value(b.cell(8));
    d0 + 10 * d1 + 100 * d2 + 1000 * d3 + 10000 * d4 + 100000 * d5 + 1000000 * d6 + 10000000 * d7
        + 100000000 * d8
}

fn copy_path(v: &Vec<usize>) -> (r: Vec<usize>)
    ensures
        r@ == v@,
{
    let mut r: Vec<usize> = Vec::new();
    let mut k: usize = 0;
    while k < v.len()
        invariant
            k <= v@.len(),
            r@ == v@.subrange(0, k as int),
        decreases v@.len() - k,
    {
        r.push(v[k]);
        proof {
            assert(r@ =~= v@.subrange(0, k as int + 1));
        }
        k += 1;
    }
    proof {
        assert(v@.subrange(0, v@.len() as int) =~= v@);
    }
    r
}

fn prepended(first: usize, rest: &Vec<usize>) -> (r: Vec<usize>)
    ensures
        r@ == seq![first] + rest@,
{
    let mut out: Vec<usize> = Vec::new();
    out.push(first);
    let mut t: usize = 0;
    while t < rest.len()
        invariant
            t <= rest@.len(),
            out@ == seq![first] + rest@.subrange(0, t as int),
        decreases rest@.len() - t,
    {
        out.push(rest[t]);
        proof {
            assert(out@ =~= seq![first] + rest@.subrange(0, t as int + 1));
        }
        t += 1;
    }
    proof {
        assert(rest@.subrange(0, rest@.len() as int) =~= rest@);
    }
    out
}

/// One entry of the breadth-first frontier: a reached state and the moves
/// that reached it from the initial state.
struct SearchNode {
    state: TileBox,
    path: Vec<usize>,
}

/// What holds of every frontier entry: its path is in range, replays from
/// the initial grid to its state, and contains no no-op click.
spec fn node_ok(init: Seq<Color>, goal: Seq<Color>, n: SearchNode) -> bool {
    &&& n.state.grid() == apply_moves(init, moves_of(n.path@))
    &&& n.state.goal() == goal
    &&& valid_moves(moves_of(n.path@))
    &&& progressing_moves(init, moves_of(n.path@))
}

/// Finds a click sequence that brings the four corners of a `TileBox` to its
/// goal colors.
pub struct Solver {
    tile_box: TileBox,
}

impl Solver {
    /// The puzzle this solver searches.
    pub closed spec fn puzzle(self) -> TileBox {
        self.tile_box
    }

    pub fn new(tile_box: TileBox) -> (r: Self)
        ensures
            r.puzzle() == tile_box,
    {
        Solver { tile_box }
    }

    /// Strategy A: exhaustive breadth-first search. Returns the clicks in
    /// keypad notation; an empty result means the initial state was already
    /// solved, or — the whole reachable space having been exhausted — that no
    /// click sequence at all solves the puzzle.
    ///
    /// Replaying a non-empty result (after the inverse keypad remapping) from
    /// the initial grid reaches a solved grid, and no click along the way is
    /// a no-op.
    pub fn solve(&mut self) -> (r: Vec<usize>)
        ensures
            final(self).puzzle() == old(self).puzzle(),
            forall|k: int| 0 <= k < r@.len() ==> 1 <= #[trigger] r@[k] <= 9,
            r@.len() > 0 ==> {
                let ms = Seq::new(r@.len(), |k: int| numpad_inv(r@[k] as int));
                valid_moves(ms) && solved(
                    apply_moves(old(self).puzzle().grid(), ms),
                    old(self).puzzle().goal(),
                ) && progressing_moves(old(self).puzzle().grid(), ms)
            },
            solved(old(self).puzzle().grid(), old(self).puzzle().goal()) ==> r@.len() == 0,
            r@.len() == 0 ==> solved(old(self).puzzle().grid(), old(self).puzzle().goal())
                || (forall|ms: Seq<int>|
                valid_moves(ms) ==> !solved(
                    apply_moves(old(self).puzzle().grid(), ms),
                    old(self).puzzle().goal(),
                )),
    {
        match self.bfs() {
            Some(solution) => {
                let ghost sol = solution@;
                let r = Self::map_sol_to_numpad_notation(solution);
                proof {
                    lemma_numpad_bijective();
                    assert forall|k: int| 0 <= k < r@.len() implies 1 <= #[trigger] r@[k]
                        <= 9 by {
                        assert(r@[k] as int == numpad_of(sol[k] as int));
                        assert(moves_of(sol)[k] == sol[k] as int);
                    }
                    let ms = Seq::new(r@.len(), |k: int| numpad_inv(r@[k] as int));
                    assert forall|k: int| 0 <= k < ms.len() implies ms[k] == moves_of(
                        sol,
                    )[k] by {
                        assert(r@[k] as int == numpad_of(sol[k] as int));
                        assert(moves_of(sol)[k] == sol[k] as int);
                    }
                    assert(ms =~= moves_of(sol));
                }
                r
            },
            None => Vec::new(),
        }
    }

    /// Maps internal row-major indices to the keypad notation.
    pub fn map_sol_to_numpad_notation(solution: Vec<usize>) -> (r: Vec<usize>)
        requires
            forall|k: int| 0 <= k < solution@.len() ==> #[trigger] solution@[k] < 9,
        ensures
            r@.len() == solution@.len(),
            forall|k: int|
                0 <= k < r@.len() ==> #[trigger] r@[k] as int == numpad_of(solution@[k] as int),
    {
        let mut r: Vec<usize> = Vec::new();
        let mut k: usize = 0;
        while k < solution.len()
            invariant
                k <= solution@.len(),
                r@.len() == k,
                forall|j: int| 0 <= j < solution@.len() ==> #[trigger] solution@[j] < 9,
                forall|j: int|
                    0 <= j < k ==> #[trigger] r@[j] as int == numpad_of(solution@[j] as int),
            decreases solution@.len() - k,
        {
            let e = Self::numpad_value(solution[k]);
            r.push(e);
            k += 1;
        }
        r
    }

    fn numpad_value(i: usize) -> (r: usize)
        requires
            i < 9,
        ensures
            r as int == numpad_of(i as int),
    {
        if i == 0 {
            7
        } else if i == 1 {
            8
        } else if i == 2 {
            9
        } else if i == 3 {
            4
        } else if i == 4 {
            5
        } else if i == 5 {
            6
        } else if i == 6 {
            1
        } else if i == 7 {
            2
        } else {
            3
        }
    }

    #[verifier::rlimit(100)]
    fn bfs(&self) -> (r: Option<Vec<usize>>)
        ensures
            match r {
                Some(p) => {
                    &&& forall|k: int| 0 <= k < p@.len() ==> #[trigger] p@[k] < 9
                    &&& valid_moves(moves_of(p@))
                    &&& solved(
                        apply_moves(self.tile_box.grid(), moves_of(p@)),
                        self.tile_box.goal(),
                    )
                    &&& progressing_moves(self.tile_box.grid(), moves_of(p@))
                    &&& (solved(self.tile_box.grid(), self.tile_box.goal()) ==> p@.len() == 0)
                },
                None => forall|ms: Seq<int>|
                    valid_moves(ms) ==> !solved(
                        apply_moves(self.tile_box.grid(), ms),
                        self.tile_box.goal(),
                    ),
            },
    {
        let root = self.tile_box;
        let ghost init = root.grid();
        let ghost goal = root.goal();
        proof {
            root.lemma_well_formed();
            lemma_grid_code_bounds(init);
        }
        // The grids reached so far, as mathematical values, and their
        // fingerprints; `visited` is their executable shadow. The two maps
        // witness that every fingerprint names one reached grid and that
        // every reached grid sits somewhere in the queue.
        let ghost mut seen: Set<Seq<Color>> = Set::empty().insert(init);
        let ghost mut vcodes: Set<int> = Set::empty().insert(grid_code(init));
        let ghost mut by_code: Map<int, Seq<Color>> = Map::empty().insert(grid_code(init), init);
        let ghost mut at_index: Map<Seq<Color>, int> = Map::empty().insert(init, 0);
        let mut visited: HashSet<u64> = HashSet::new();
        visited.insert(encode_box(&root));
        let mut queue: Vec<SearchNode> = Vec::new();
        queue.push(SearchNode { state: root, path: Vec::new() });
        proof {
            assert(moves_of(queue@[0].path@) =~= Seq::<int>::empty());
            vstd::set_lib::lemma_int_range(0, 1000000000);
            vstd::set_lib::lemma_len_subset(vcodes, vstd::set_lib::set_int_range(0, 1000000000));
        }
        let mut head: usize = 0;
        // Every enqueued node carries a grid never seen before, so the
        // frontier never outgrows the count of distinct fingerprints.
        while head < queue.len()
            invariant
                init == self.tile_box.grid(),
                goal == self.tile_box.goal(),
                init.len() == 9,
                head <= queue@.len(),
                queue@.len() >= 1,
                queue@[0].path@.len() == 0,
                queue@[0].state.grid() == init,
                forall|k: int| head <= k < queue@.len() ==> node_ok(init, goal, #[trigger] queue@[k]),
                head >= 1 ==> !solved(init, goal),
                seen.finite(),
                vcodes.finite(),
                seen.contains(init),
                forall|s: Seq<Color>| #[trigger] seen.contains(s) ==> s.len() == 9
                    && vcodes.contains(grid_code(s)),
                forall|c: int| #[trigger] vcodes.contains(c) ==> 0 <= c < 1000000000
                    && by_code.contains_key(c) && seen.contains(by_code[c]) && grid_code(
                    by_code[c],
                ) == c,
                forall|c: u64| #[trigger] visited@.contains(c) == vcodes.contains(c as int),
                forall|k: int|
                    0 <= k < queue@.len() ==> seen.contains(#[trigger] queue@[k].state.grid()),
                forall|s: Seq<Color>| #[trigger] seen.contains(s) ==> at_index.contains_key(s)
                    && 0 <= at_index[s] < queue@.len() && queue@[at_index[s]].state.grid() == s,
                forall|k: int, i2: int|
                    0 <= k < head && 0 <= i2 < 9 ==> (#[trigger] click(queue@[k].state.grid(), i2))
                        == queue@[k].state.grid() || seen.contains(
                        click(queue@[k].state.grid(), i2),
                    ),
                forall|k: int| 0 <= k < head ==> !solved(#[trigger] queue@[k].state.grid(), goal),
                queue@.len() <= vcodes.len(),
                vcodes.len() <= 1000000000,
            decreases 1000000001 - head,
        {
            let cur = queue[head].state;
            let path = copy_path(&queue[head].path);
            if cur.is_solved() {
                proof {
                    if head == 0 {
                        assert(moves_of(path@) =~= Seq::<int>::empty());
                    }
                    assert forall|k: int| 0 <= k < path@.len() implies #[trigger] path@[k]
                        < 9 by {
                        assert(moves_of(path@)[k] == path@[k] as int);
                    }
                }
                return Some(path);
            }
            proof {
                if head == 0 {
                    assert(moves_of(path@) =~= Seq::<int>::empty());
                    assert(!solved(init, goal));
                }
            }
            let mut i: usize = 0;
            while i < 9
                invariant
                    i <= 9,
                    init == self.tile_box.grid(),
                    goal == self.tile_box.goal(),
                    init.len() == 9,
                    head < queue@.len(),
                    queue@.len() >= 1,
                    queue@[0].path@.len() == 0,
                    queue@[0].state.grid() == init,
                    forall|k: int|
                        head <= k < queue@.len() ==> node_ok(init, goal, #[trigger] queue@[k]),
                    !solved(init, goal),
                    seen.finite(),
                    vcodes.finite(),
                    seen.contains(init),
                    forall|s: Seq<Color>| #[trigger] seen.contains(s) ==> s.len() == 9
                        && vcodes.contains(grid_code(s)),
                    forall|c: int| #[trigger] vcodes.contains(c) ==> 0 <= c < 1000000000
                        && by_code.contains_key(c) && seen.contains(by_code[c]) && grid_code(
                        by_code[c],
                    ) == c,
                    forall|c: u64| #[trigger] visited@.contains(c) == vcodes.contains(c as int),
                    forall|k: int|
                        0 <= k < queue@.len() ==> seen.contains(#[trigger] queue@[k].state.grid()),
                    forall|s: Seq<Color>| #[trigger] seen.contains(s) ==> at_index.contains_key(s)
                        && 0 <= at_index[s] < queue@.len() && queue@[at_index[s]].state.grid()
                        == s,
                    forall|k: int, i2: int|
                        0 <= k < head && 0 <= i2 < 9 ==> (#[trigger] click(
                            queue@[k].state.grid(),
                            i2,
                        )) == queue@[k].state.grid() || seen.contains(
                            click(queue@[k].state.grid(), i2),
                        ),
                    forall|k: int|
                        0 <= k < head ==> !solved(#[trigger] queue@[k].state.grid(), goal),
                    queue@.len() <= vcodes.len(),
                    vcodes.len() <= 1000000000,
                    queue@[head as int].state == cur,
                    cur.grid() == apply_moves(init, moves_of(path@)),
                    cur.goal() == goal,
                    valid_moves(moves_of(path@)),
                    progressing_moves(init, moves_of(path@)),
                    !solved(cur.grid(), goal),
                    forall|i2: int|
                        0 <= i2 < i ==> (#[trigger] click(cur.grid(), i2)) == cur.grid()
                            || seen.contains(click(cur.grid(), i2)),
                decreases 9 - i,
            {
                let mut new_box = cur;
                new_box.simulate_click(i);
                proof {
                    new_box.lemma_well_formed();
                    lemma_grid_code_bounds(new_box.grid());
                }
                if !new_box.same_grid(&cur) {
                    let code = encode_box(&new_box);
                    if !visited.contains(&code) {
                        visited.insert(code);
                        proof {
                            seen = seen.insert(new_box.grid());
                            vcodes = vcodes.insert(code as int);
                            by_code = by_code.insert(code as int, new_box.grid());
                            at_index = at_index.insert(new_box.grid(), queue@.len() as int);
                            vstd::set_lib::lemma_int_range(0, 1000000000);
                            vstd::set_lib::lemma_len_subset(
                                vcodes,
                                vstd::set_lib::set_int_range(0, 1000000000),
                            );
                        }
                        let mut new_path = copy_path(&path);
                        new_path.push(i);
                        proof {
                            lemma_moves_of_push(path@, i);
                            lemma_apply_moves_push(init, moves_of(path@), i as int);
                            lemma_progressing_push(init, moves_of(path@), i as int);
                            assert(valid_moves(moves_of(new_path@)));
                        }
                        queue.push(SearchNode { state: new_box, path: new_path });
                        proof {
                            assert(queue@[queue@.len() - 1].state.grid() == new_box.grid());
                        }
                    } else {
                        proof {
                            // The fingerprint was seen before, and the
                            // fingerprint pins the grid down: this grid has
                            // been reached already.
                            assert(vcodes.contains(code as int));
                            lemma_grid_code_injective(by_code[code as int], new_box.grid());
                        }
                    }
                }
                i += 1;
            }
            proof {
                assert forall|k: int, i2: int|
                    0 <= k < head + 1 && 0 <= i2 < 9 implies (#[trigger] click(
                    queue@[k].state.grid(),
                    i2,
                )) == queue@[k].state.grid() || seen.contains(
                    click(queue@[k].state.grid(), i2),
                ) by {
                    if k == head {
                        assert(queue@[k].state == cur);
                        assert(click(cur.grid(), i2) == cur.grid() || seen.contains(
                            click(cur.grid(), i2),
                        ));
                    }
                }
                assert forall|k: int| 0 <= k < head + 1 implies !solved(
                    #[trigger] queue@[k].state.grid(),
                    goal,
                ) by {
                    if k == head {
                        assert(queue@[k].state == cur);
                    }
                }
            }
            head += 1;
        }
        proof {
            assert forall|s: Seq<Color>, i2: int|
                seen.contains(s) && 0 <= i2 < 9 implies (#[trigger] click(s, i2)) == s
                || seen.contains(click(s, i2)) by {
                let k = at_index[s];
                assert(click(queue@[k].state.grid(), i2) == queue@[k].state.grid()
                    || seen.contains(click(queue@[k].state.grid(), i2)));
            }
            assert forall|ms: Seq<int>| valid_moves(ms) implies !solved(
                apply_moves(init, ms),
                goal,
            ) by {
                lemma_closed_set_traps_moves(seen, init, ms);
                let s = apply_moves(init, ms);
                let k = at_index[s];
                assert(!solved(queue@[k].state.grid(), goal));
            }
        }
        None
    }

    /// Strategy B, driven sequentially: for each depth from 1 up to
    /// `max_depth`, try the nine first-move shares in ascending order, and
    /// return the first full-depth sequence that solves the puzzle, in keypad
    /// notation. Unlike `solve`, an exhausted bound only means no solution of
    /// length up to `max_depth` exists, not that the puzzle is unsolvable.
    pub fn solve_bounded(&mut self, max_depth: usize) -> (r: Vec<usize>)
        ensures
            final(self).puzzle() == old(self).puzzle(),
            forall|k: int| 0 <= k < r@.len() ==> 1 <= #[trigger] r@[k] <= 9,
            r@.len() > 0 ==> {
                let ms = Seq::new(r@.len(), |k: int| numpad_inv(r@[k] as int));
                r@.len() <= max_depth && valid_moves(ms) && solved(
                    apply_moves(old(self).puzzle().grid(), ms),
                    old(self).puzzle().goal(),
                ) && progressing_moves(old(self).puzzle().grid(), ms)
            },
            r@.len() == 0 ==> forall|ms: Seq<int>|
                valid_moves(ms) && 1 <= ms.len() <= max_depth as int && progressing_moves(
                    old(self).puzzle().grid(),
                    ms,
                ) ==> !solved(
                    #[trigger] apply_moves(old(self).puzzle().grid(), ms),
                    old(self).puzzle().goal(),
                ),
    {
        let mut depth: usize = 1;
        while depth <= max_depth
            invariant
                depth >= 1,
                self.tile_box == old(self).tile_box,
                forall|ms: Seq<int>|
                    valid_moves(ms) && 1 <= ms.len() < depth as int && progressing_moves(
                        self.tile_box.grid(),
                        ms,
                    ) ==> !solved(
                        #[trigger] apply_moves(self.tile_box.grid(), ms),
                        self.tile_box.goal(),
                    ),
            decreases max_depth - depth + 1,
        {
            let mut first: usize = 0;
            while first < 9
                invariant
                    depth >= 1,
                    depth <= max_depth,
                    first <= 9,
                    self.tile_box == old(self).tile_box,
                    forall|ms: Seq<int>|
                        valid_moves(ms) && 1 <= ms.len() < depth as int && progressing_moves(
                            self.tile_box.grid(),
                            ms,
                        ) ==> !solved(
                            #[trigger] apply_moves(self.tile_box.grid(), ms),
                            self.tile_box.goal(),
                        ),
                    forall|ms: Seq<int>|
                        valid_moves(ms) && ms.len() == depth as int && ms[0] < first as int
                            && progressing_moves(self.tile_box.grid(), ms) ==> !solved(
                            #[trigger] apply_moves(self.tile_box.grid(), ms),
                            self.tile_box.goal(),
                        ),
                decreases 9 - first,
            {
                match Self::search_partition(&self.tile_box, first, depth) {
                    Some(p) => {
                        let ghost sol = p@;
                        proof {
                            assert forall|k: int| 0 <= k < sol.len() implies #[trigger] sol[k]
                                < 9 by {
                                assert(moves_of(sol)[k] == sol[k] as int);
                            }
                        }
                        let r = Self::map_sol_to_numpad_notation(p);
                        proof {
                            lemma_numpad_bijective();
                            assert forall|k: int| 0 <= k < r@.len() implies 1 <= #[trigger] r@[k]
                                <= 9 by {
                                assert(r@[k] as int == numpad_of(sol[k] as int));
                            }
                            let ms = Seq::new(r@.len(), |k: int| numpad_inv(r@[k] as int));
                            assert forall|k: int| 0 <= k < ms.len() implies ms[k] == moves_of(
                                sol,
                            )[k] by {
                                assert(r@[k] as int == numpad_of(sol[k] as int));
                                assert(moves_of(sol)[k] == sol[k] as int);
                            }
                            assert(ms =~= moves_of(sol));
                        }
                        return r;
                    },
                    None => {},
                }
                first += 1;
            }
            proof {
                assert forall|ms: Seq<int>|
                    valid_moves(ms) && 1 <= ms.len() < depth as int + 1 && progressing_moves(
                        self.tile_box.grid(),
                        ms,
                    ) implies !solved(
                    #[trigger] apply_moves(self.tile_box.grid(), ms),
                    self.tile_box.goal(),
                ) by {
                    if ms.len() == depth as int {
                        assert(0 <= ms[0] < 9);
                    }
                }
            }
            if depth == max_depth {
                return Vec::new();
            }
            depth += 1;
        }
        Vec::new()
    }

    /// One worker's share of Strategy B: every sequence of exactly `depth`
    /// moves whose first move is `first_move`, in ascending enumeration
    /// order, pruned as soon as a move changes nothing. A found sequence
    /// replays from the given state to a solved grid.
    pub fn search_partition(tile_box: &TileBox, first_move: usize, depth: usize) -> (r: Option<
        Vec<usize>,
    >)
        requires
            first_move < 9,
            depth >= 1,
        ensures
            match r {
                Some(p) => {
                    &&& p@.len() == depth as int
                    &&& p@[0] == first_move
                    &&& valid_moves(moves_of(p@))
                    &&& solved(apply_moves(tile_box.grid(), moves_of(p@)), tile_box.goal())
                    &&& progressing_moves(tile_box.grid(), moves_of(p@))
                },
                None => forall|ms: Seq<int>|
                    valid_moves(ms) && ms.len() == depth as int && ms[0] == first_move as int
                        && progressing_moves(tile_box.grid(), ms) ==> !solved(
                        #[trigger] apply_moves(tile_box.grid(), ms),
                        tile_box.goal(),
                    ),
            },
    {
        let mut nb = *tile_box;
        nb.simulate_click(first_move);
        if nb.same_grid(tile_box) {
            proof {
                assert forall|ms: Seq<int>|
                    valid_moves(ms) && ms.len() == depth as int && ms[0] == first_move as int
                        && progressing_moves(tile_box.grid(), ms) implies !solved(
                    #[trigger] apply_moves(tile_box.grid(), ms),
                    tile_box.goal(),
                ) by {
                    assert(click(tile_box.grid(), first_move as int) == tile_box.grid());
                }
            }
            return None;
        }
        match Self::search_suffix(nb, depth - 1) {
            Some(rest) => {
                let out = prepended(first_move, &rest);
                proof {
                    assert(moves_of(out@)[0] == first_move as int);
                    assert(moves_of(out@).drop_first() =~= moves_of(rest@));
                    assert forall|k: int| 0 <= k < moves_of(out@).len() implies 0
                        <= #[trigger] moves_of(out@)[k] < 9 by {
                        if k > 0 {
                            assert(moves_of(out@).drop_first()[k - 1] == moves_of(out@)[k]);
                            assert(moves_of(rest@)[k - 1] == rest@[k - 1] as int);
                        }
                    }
                }
                Some(out)
            },
            None => {
                proof {
                    assert forall|ms: Seq<int>|
                        valid_moves(ms) && ms.len() == depth as int && ms[0]
                            == first_move as int && progressing_moves(
                            tile_box.grid(),
                            ms,
                        ) implies !solved(
                        #[trigger] apply_moves(tile_box.grid(), ms),
                        tile_box.goal(),
                    ) by {
                        assert(valid_moves(ms.drop_first())) by {
                            assert forall|k: int| 0 <= k < ms.drop_first().len() implies 0
                                <= #[trigger] ms.drop_first()[k] < 9 by {
                                assert(ms.drop_first()[k] == ms[k + 1]);
                            }
                        }
                        assert(ms.drop_first().len() == depth - 1);
                        assert(progressing_moves(nb.grid(), ms.drop_first()));
                        assert(apply_moves(tile_box.grid(), ms) == apply_moves(
                            nb.grid(),
                            ms.drop_first(),
                        ));
                    }
                }
                None
            },
        }
    }

    fn search_suffix(state: TileBox, depth: usize) -> (r: Option<Vec<usize>>)
        ensures
            match r {
                Some(p) => {
                    &&& p@.len() == depth as int
                    &&& valid_moves(moves_of(p@))
                    &&& solved(apply_moves(state.grid(), moves_of(p@)), state.goal())
                    &&& progressing_moves(state.grid(), moves_of(p@))
                },
                None => forall|ms: Seq<int>|
                    valid_moves(ms) && ms.len() == depth as int && progressing_moves(
                        state.grid(),
                        ms,
                    ) ==> !solved(#[trigger] apply_moves(state.grid(), ms), state.goal()),
            },
        decreases depth,
    {
        if depth == 0 {
            if state.is_solved() {
                let out: Vec<usize> = Vec::new();
                proof {
                    assert(moves_of(out@) =~= Seq::<int>::empty());
                }
                return Some(out);
            }
            return None;
        }
        let mut i: usize = 0;
        while i < 9
            invariant
                i <= 9,
                depth >= 1,
                forall|ms: Seq<int>|
                    valid_moves(ms) && ms.len() == depth as int && progressing_moves(
                        state.grid(),
                        ms,
                    ) && ms[0] < i ==> !solved(
                        #[trigger] apply_moves(state.grid(), ms),
                        state.goal(),
                    ),
            decreases 9 - i,
        {
            let mut nb = state;
            nb.simulate_click(i);
            if !nb.same_grid(&state) {
                match Self::search_suffix(nb, depth - 1) {
                    Some(rest) => {
                        let out = prepended(i, &rest);
                        proof {
                            assert(moves_of(out@)[0] == i as int);
                            assert(moves_of(out@).drop_first() =~= moves_of(rest@));
                            assert forall|k: int| 0 <= k < moves_of(out@).len() implies 0
                                <= #[trigger] moves_of(out@)[k] < 9 by {
                                if k > 0 {
                                    assert(moves_of(out@).drop_first()[k - 1] == moves_of(
                                        out@,
                                    )[k]);
                                    assert(moves_of(rest@)[k - 1] == rest@[k - 1] as int);
                                }
                            }
                        }
                        return Some(out);
                    },
                    None => {
                        proof {
                            assert forall|ms: Seq<int>|
                                valid_moves(ms) && ms.len() == depth as int
                                    && progressing_moves(state.grid(), ms) && ms[0]
                                    == i as int implies !solved(
                                #[trigger] apply_moves(state.grid(), ms),
                                state.goal(),
                            ) by {
                                assert(valid_moves(ms.drop_first())) by {
                                    assert forall|k: int|
                                        0 <= k < ms.drop_first().len() implies 0
                                        <= #[trigger] ms.drop_first()[k] < 9 by {
                                        assert(ms.drop_first()[k] == ms[k + 1]);
                                    }
                                }
                                assert(ms.drop_first().len() == depth - 1);
                                assert(progressing_moves(nb.grid(), ms.drop_first()));
                                assert(apply_moves(state.grid(), ms) == apply_moves(
                                    nb.grid(),
                                    ms.drop_first(),
                                ));
                            }
                        }
                    },
                }
            } else {
                proof {
                    assert forall|ms: Seq<int>|
                        valid_moves(ms) && ms.len() == depth as int && progressing_moves(
                            state.grid(),
                            ms,
                        ) && ms[0] == i as int implies !solved(
                        #[trigger] apply_moves(state.grid(), ms),
                        state.goal(),
                    ) by {
                        // A move sequence without no-op clicks cannot start
                        // with this click: it changes nothing.
                        assert(click(state.grid(), i as int) == state.grid());
                    }
                }
            }
            i += 1;
        }
        None
    }
}

} // verus!
