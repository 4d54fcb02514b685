use mora_jai_solver::Color;
use mora_jai_solver::Color::{Yellow, Grey, Red, White, Orange, Pink, Purple, Black, Green, Blue};
use mora_jai_solver::TileBox;

const GOAL: [Color; 4] = [Black, Black, Black, Black];

fn boxed(data: [Color; 9]) -> TileBox {
    TileBox::new(Some(data), GOAL)
}

fn clicked(data: [Color; 9], index: usize) -> TileBox {
    let mut b = boxed(data);
    b.simulate_click(index);
    b
}

#[test]
fn new_defaults_to_all_grey() {
    let defaulted = TileBox::new(None, GOAL);
    let explicit = boxed([Grey; 9]);
    assert_eq!(defaulted, explicit);
    for k in 0..9 {
        assert_eq!(defaulted.cell(k), Grey);
    }
}

#[test]
fn is_solved_checks_the_four_corners() {
    let solved = boxed([Black, Grey, Black, Grey, Grey, Grey, Black, Grey, Black]);
    assert!(solved.is_solved());
    let off_by_one = boxed([Black, Grey, Black, Grey, Grey, Grey, Black, Grey, Red]);
    assert!(!off_by_one.is_solved());
}

#[test]
fn yellow_swaps_with_the_cell_above() {
    let after = clicked([Red, Grey, Blue, Red, Yellow, Grey, Pink, Green, Orange], 4);
    assert_eq!(after, boxed([Red, Yellow, Blue, Red, Grey, Grey, Pink, Green, Orange]));
}

#[test]
fn yellow_on_top_row_is_a_noop() {
    let data = [Yellow, Grey, Blue, Red, Grey, Grey, Pink, Green, Orange];
    assert_eq!(clicked(data, 0), boxed(data));
}

#[test]
fn purple_swaps_with_the_cell_below() {
    let after = clicked([Red, Purple, Blue, Red, Grey, Grey, Pink, Green, Orange], 1);
    assert_eq!(after, boxed([Red, Grey, Blue, Red, Purple, Grey, Pink, Green, Orange]));
}

#[test]
fn purple_on_bottom_row_is_a_noop() {
    let data = [Red, Grey, Blue, Red, Grey, Grey, Purple, Green, Orange];
    assert_eq!(clicked(data, 6), boxed(data));
}

// The Yellow rule's swap and the Purple rule's swap at the cell above are
// inverse to each other: after the Yellow click moved the tile from cell 4 up
// to cell 1, a Purple-rule swap at cell 1 exchanges the same pair back.
#[test]
fn yellow_up_then_purple_down_exchange_the_same_pair() {
    let start = [Red, Green, Blue, Orange, Yellow, Grey, Pink, Black, White];
    let up = clicked(start, 4);
    assert_eq!(up, boxed([Red, Yellow, Blue, Orange, Green, Grey, Pink, Black, White]));
    // A Purple tile in the upper cell of the same pair swaps the pair back:
    // every cell but that one returns to its starting color.
    let with_purple = clicked([Red, Purple, Blue, Orange, Green, Grey, Pink, Black, White], 1);
    assert_eq!(with_purple, boxed([Red, Green, Blue, Orange, Purple, Grey, Pink, Black, White]));
}

#[test]
fn grey_clicks_never_change_the_grid() {
    let data = [Red, Grey, Blue, Red, Grey, Grey, Pink, Green, Orange];
    let mut b = boxed(data);
    for _ in 0..5 {
        b.simulate_click(1);
        assert_eq!(b, boxed(data));
    }
}

#[test]
fn red_turns_black_red_then_white_black() {
    let after = clicked([Black, White, Red, Grey, Red, Black, White, Green, Blue], 4);
    // A cell that was White becomes Black, never Red.
    assert_eq!(after, boxed([Red, Black, Red, Grey, Red, Red, Black, Green, Blue]));
}

#[test]
fn white_recolors_the_orthogonal_neighborhood() {
    let after = clicked([Red, White, Blue, Grey, White, Grey, Pink, Green, Orange], 4);
    // Clicked cell and its White neighbor turn Grey; Grey neighbors take the
    // clicked cell's color; diagonal cells stay untouched.
    assert_eq!(after, boxed([Red, Grey, Blue, White, Grey, White, Pink, Green, Orange]));
}

#[test]
fn orange_takes_the_strict_majority_neighbor_color() {
    let after = clicked([Red, Blue, Grey, Blue, Orange, Blue, Grey, Green, Grey], 4);
    assert_eq!(after, boxed([Red, Blue, Grey, Blue, Blue, Blue, Grey, Green, Grey]));
}

#[test]
fn orange_with_a_tied_majority_is_a_noop() {
    let data = [Red, Blue, Grey, Green, Orange, Green, Grey, Blue, Grey];
    assert_eq!(clicked(data, 4), boxed(data));
}

#[test]
fn pink_rotates_the_surrounding_cells_clockwise() {
    // Around the center, all eight neighbors rotate one step clockwise.
    let after = clicked([Red, Green, Blue, Orange, Pink, Grey, White, Black, Yellow], 4);
    assert_eq!(after, boxed([Orange, Red, Green, White, Pink, Blue, Black, Yellow, Grey]));
}

#[test]
fn pink_in_a_corner_rotates_three_cells_across_the_gap() {
    // Around cell 0 the ring is cells 1, 4, 3 (east, southeast, south).
    let after = clicked([Pink, Green, Blue, Orange, Red, Grey, White, Black, Yellow], 0);
    assert_eq!(after, boxed([Pink, Orange, Blue, Red, Green, Grey, White, Black, Yellow]));
}

#[test]
fn black_rotates_the_row_to_the_right() {
    let after = clicked([Red, Green, Blue, Black, Orange, Grey, White, Pink, Yellow], 3);
    assert_eq!(after, boxed([Red, Green, Blue, Grey, Black, Orange, White, Pink, Yellow]));
}

#[test]
fn black_three_times_restores_the_row() {
    // The Black tile travels right with each rotation; three clicks, each on
    // the cell currently holding it, rotate the row full circle.
    let data = [Red, Green, Blue, Black, Orange, Grey, White, Pink, Yellow];
    let mut b = boxed(data);
    b.simulate_click(3);
    assert_eq!(b, boxed([Red, Green, Blue, Grey, Black, Orange, White, Pink, Yellow]));
    b.simulate_click(4);
    assert_eq!(b, boxed([Red, Green, Blue, Orange, Grey, Black, White, Pink, Yellow]));
    b.simulate_click(5);
    assert_eq!(b, boxed(data));
}

#[test]
fn green_swaps_with_the_point_reflected_cell() {
    let after = clicked([Green, Grey, Blue, Red, Orange, Grey, White, Pink, Yellow], 0);
    assert_eq!(after, boxed([Yellow, Grey, Blue, Red, Orange, Grey, White, Pink, Green]));
}

#[test]
fn green_twice_restores_the_grid() {
    // The first click carries the Green tile to the reflected corner; a
    // second click there swaps the same pair back.
    let data = [Green, Grey, Blue, Red, Orange, Grey, White, Pink, Yellow];
    let mut b = boxed(data);
    b.simulate_click(0);
    b.simulate_click(8);
    assert_eq!(b, boxed(data));
}

#[test]
fn green_in_the_center_is_a_noop() {
    let data = [Red, Grey, Blue, Red, Green, Grey, White, Pink, Yellow];
    assert_eq!(clicked(data, 4), boxed(data));
}

#[test]
fn blue_borrows_the_center_cells_rule() {
    // The center holds Purple, so the Blue click acts as a Purple click at
    // the clicked cell: the Blue tile moves down.
    let after = clicked([Blue, Grey, Red, Green, Purple, Grey, White, Pink, Yellow], 0);
    assert_eq!(after, boxed([Green, Grey, Red, Blue, Purple, Grey, White, Pink, Yellow]));
}

#[test]
fn blue_white_delegation_matches_on_blue_not_white() {
    // The center holds White, so Blue acts as a White click, but the color
    // compared against is the clicked cell's own color: Blue.
    let after = clicked([Blue, Blue, Red, Grey, White, Grey, Green, Pink, Yellow], 0);
    assert_eq!(after, boxed([Grey, Grey, Red, Blue, White, Grey, Green, Pink, Yellow]));
}

#[test]
fn blue_with_a_blue_center_is_a_noop() {
    let data = [Blue, Grey, Red, Green, Blue, Grey, White, Pink, Yellow];
    assert_eq!(clicked(data, 0), boxed(data));
}
