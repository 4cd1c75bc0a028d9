use papergrid::blocks::{row_blocks, same_pattern};
use papergrid::layout::{cell_size, is_rows_size, measure_cell_size, row_weight, SEARCH_LIMIT};
use papergrid::portion::{row_portions_blocks, Portion};
use papergrid::render::{adjust, draw, make_formatters, render_rows};
use papergrid::sums::{checked_sum, sum_of};
use papergrid::table::{
    extent_fits, natural_weight, remove_covered_cells, row_heights, row_patterns, row_weights, rows,
    spans_fit, widest_side_padding,
};
use papergrid::{Cell, CellFormatter, Grid, LayoutError};

fn cells_of(texts: &[&str]) -> Vec<Cell> {
    texts
        .iter()
        .map(|t| {
            let mut cell = Cell::new();
            cell.set_content(t);
            cell
        })
        .collect()
}

#[test]
fn a_portion_is_rounded_down() {
    let half = Portion { part: 1, whole: 2 };
    assert_eq!(half.of(7), 3);
    assert_eq!(half.of(6), 3);
    assert_eq!(Portion { part: 2, whole: 3 }.of(10), 6);
    assert_eq!(Portion { part: 3, whole: 3 }.of(10), 10);
    assert_eq!(Portion { part: 0, whole: 3 }.of(10), 0);
}

#[test]
fn a_portion_of_nothing_is_nothing() {
    assert_eq!(Portion { part: 0, whole: 0 }.of(10), 0);
}

#[test]
fn a_portion_of_the_largest_width_does_not_overflow() {
    let all = Portion { part: usize::MAX, whole: usize::MAX };
    assert_eq!(all.of(usize::MAX), usize::MAX);
}

#[test]
fn sums_are_checked() {
    assert_eq!(checked_sum(&vec![1, 2, 3]), Some(6));
    assert_eq!(checked_sum(&Vec::new()), Some(0));
    assert_eq!(checked_sum(&vec![usize::MAX, 1]), None);
    assert_eq!(checked_sum(&vec![usize::MAX, 0]), Some(usize::MAX));
    assert_eq!(sum_of(&vec![4, 5]), 9);
}

#[test]
fn patterns_are_compared_whole() {
    assert!(same_pattern(&vec![1, 0], &vec![1, 0]));
    assert!(!same_pattern(&vec![1, 0], &vec![0, 1]));
    assert!(!same_pattern(&vec![1, 0], &vec![1, 0, 0]));
    assert!(same_pattern(&Vec::new(), &Vec::new()));
}

#[test]
fn a_row_weighs_its_cells_and_what_stands_between() {
    assert_eq!(row_weight(&vec![3, 3]), 7);
    assert_eq!(row_weight(&vec![5]), 5);
    assert_eq!(row_weight(&vec![1, 2, 3]), 8);
}

#[test]
fn rows_are_grouped_by_their_pattern() {
    let patterns = vec![vec![0, 0], vec![0, 0], vec![1, 0], vec![0, 0], vec![0, 0], vec![0, 0]];
    assert_eq!(row_blocks(&patterns), vec![(0, 2), (2, 3), (3, 6)]);
    assert_eq!(row_blocks(&vec![vec![1, 0]]), vec![(0, 1)]);
    assert_eq!(row_blocks(&vec![vec![0], vec![0]]), vec![(0, 2)]);
    assert_eq!(row_blocks(&vec![vec![0], vec![1], vec![0]]), vec![(0, 1), (1, 2), (2, 3)]);
    assert!(row_blocks(&Vec::new()).is_empty());
}

#[test]
fn rows_of_one_pattern_share_their_portions() {
    let patterns = vec![vec![0, 0], vec![0, 0], vec![1, 0]];
    let weights = vec![vec![4, 9], vec![40, 8], vec![7]];
    let portions = row_portions_blocks(&patterns, &weights);
    let shared = vec![Portion { part: 40, whole: 48 }, Portion { part: 9, whole: 48 }];
    assert_eq!(portions, vec![shared.clone(), shared, vec![Portion { part: 7, whole: 7 }]]);
}

#[test]
fn a_block_ends_where_the_pattern_changes() {
    let patterns = vec![vec![0], vec![1], vec![0], vec![0]];
    let weights = vec![vec![2], vec![3], vec![4], vec![6]];
    let portions = row_portions_blocks(&patterns, &weights);
    assert_eq!(
        portions,
        vec![
            vec![Portion { part: 2, whole: 2 }],
            vec![Portion { part: 3, whole: 3 }],
            vec![Portion { part: 6, whole: 6 }],
            vec![Portion { part: 6, whole: 6 }],
        ]
    );
}

#[test]
fn empty_cells_have_a_portion_of_nothing() {
    let portions = row_portions_blocks(&vec![vec![0, 0]], &vec![vec![0, 0]]);
    assert_eq!(portions, vec![vec![Portion { part: 0, whole: 0 }; 2]]);
}

#[test]
fn sizes_are_shares_and_row_heights() {
    let portions = vec![
        vec![Portion { part: 1, whole: 1 }],
        vec![Portion { part: 1, whole: 2 }, Portion { part: 1, whole: 2 }],
    ];
    let sizes = measure_cell_size(&portions, &vec![1, 2], 7);
    assert_eq!(sizes, vec![vec![(7, 1)], vec![(3, 2), (3, 2)]]);
}

#[test]
fn rows_are_compared_by_their_drawn_cells() {
    assert!(is_rows_size(&vec![vec![(7, 1), (0, 1)], vec![(3, 1), (3, 1)]]));
    assert!(!is_rows_size(&vec![vec![(6, 1), (0, 1)], vec![(3, 1), (3, 1)]]));
    assert!(is_rows_size(&Vec::new()));
    assert!(is_rows_size(&vec![vec![(4, 1)]]));
}

#[test]
fn the_search_takes_the_first_balanced_width() {
    let portions = vec![
        vec![Portion { part: 3, whole: 3 }],
        vec![Portion { part: 3, whole: 6 }, Portion { part: 3, whole: 6 }],
    ];
    let sizes = cell_size(&portions, &vec![1, 1], 6, 2);
    assert_eq!(sizes, Some(vec![vec![(7, 1)], vec![(3, 1), (3, 1)]]));
}

#[test]
fn the_search_may_take_several_steps() {
    let third = Portion { part: 1, whole: 3 };
    let half = Portion { part: 1, whole: 2 };
    let portions =
        vec![vec![Portion { part: 4, whole: 4 }], vec![half, half], vec![third, third, third]];
    let sizes = cell_size(&portions, &vec![1, 1, 1], 4, 3).unwrap();
    assert_eq!(sizes, vec![vec![(5, 1)], vec![(2, 1), (2, 1)], vec![(1, 1), (1, 1), (1, 1)]]);
}

#[test]
fn the_search_gives_up_after_its_limit() {
    let all = Portion { part: 3, whole: 3 };
    let portions = vec![vec![all], vec![all, all]];
    assert_eq!(cell_size(&portions, &vec![1, 1], 3, 2), None);
    assert_eq!(SEARCH_LIMIT, 65536);
}

#[test]
fn the_search_reaches_to_its_limit() {
    let far = SEARCH_LIMIT;
    let portions = vec![
        vec![Portion { part: 1, whole: 1 }],
        vec![Portion { part: 1, whole: far }, Portion { part: 0, whole: far }],
    ];
    assert_eq!(cell_size(&portions, &vec![1, 1], far, 2), None);
    let portions = vec![
        vec![Portion { part: 1, whole: 1 }],
        vec![Portion { part: 1, whole: 1 }, Portion { part: 0, whole: 1 }],
    ];
    assert_eq!(
        cell_size(&portions, &vec![1, 1], 1, 2),
        Some(vec![vec![(1, 1)], vec![(1, 1), (0, 1)]])
    );
}

#[test]
fn a_slice_is_cut_into_rows() {
    let items = [1, 2, 3, 4, 5, 6];
    assert_eq!(rows(&items, 2, 3), vec![&[1, 2, 3][..], &[4, 5, 6][..]]);
    assert_eq!(rows(&items, 3, 2), vec![&[1, 2][..], &[3, 4][..], &[5, 6][..]]);
    assert!(rows(&items[..0], 0, 4).is_empty());
    assert_eq!(rows(&items[..0], 2, 0).len(), 2);
}

#[test]
fn covered_cells_are_left_out() {
    let mut cells = cells_of(&["a", "b", "c", "d", "e"]);
    cells[0].set_row_span(1);
    cells[1].set_row_span(3);
    cells[3].set_row_span(1);
    let table = vec![&cells[..]];
    let kept = remove_covered_cells(&table);
    let texts: Vec<&str> = kept[0].iter().map(|c| c.content()).collect();
    assert_eq!(texts, vec!["a", "c", "d"]);
    assert_eq!(row_patterns(&table), vec![vec![1, 3, 0, 1, 0]]);
}

#[test]
fn a_span_may_reach_the_last_column_and_no_further() {
    assert!(spans_fit(&vec![vec![0, 1, 0], vec![2, 0, 0], vec![0, 0, 0]]));
    assert!(!spans_fit(&vec![vec![0, 0, 1]]));
    assert!(!spans_fit(&vec![vec![0, 0, 0], vec![3, 0, 0]]));
    assert!(spans_fit(&vec![vec![1, 5]]));
    assert!(spans_fit(&Vec::new()));
}

#[test]
fn cells_are_measured_by_their_text() {
    let cells = cells_of(&["ab\ncdef", "", "x\ny\nz"]);
    let row: Vec<&Cell> = cells.iter().collect();
    let table = vec![row];
    assert_eq!(row_weights(&table), vec![vec![4, 0, 1]]);
    assert_eq!(row_heights(&table), vec![3]);
    assert_eq!(natural_weight(&row_weights(&table)), Some(5));
    assert_eq!(natural_weight(&vec![vec![1, 2], vec![5], vec![2, 2]]), Some(5));
    assert_eq!(natural_weight(&vec![vec![usize::MAX, 1]]), None);
    assert_eq!(natural_weight(&Vec::new()), Some(0));
}

#[test]
fn side_padding_is_summed_by_row() {
    let mut cells = cells_of(&["a", "b", "c"]);
    cells[0].set_horizontal_ident(2);
    cells[2].set_horizontal_ident(1);
    let first: Vec<&Cell> = cells[..2].iter().collect();
    let second: Vec<&Cell> = cells[2..].iter().collect();
    assert_eq!(widest_side_padding(&vec![first, second]), Some(4));
    cells[1].set_horizontal_ident(usize::MAX);
    let row: Vec<&Cell> = cells.iter().collect();
    assert_eq!(widest_side_padding(&vec![row]), None);
    cells[1].set_horizontal_ident(usize::MAX / 2);
    let row: Vec<&Cell> = cells.iter().collect();
    assert_eq!(widest_side_padding(&vec![row]), None);
}

#[test]
fn the_extent_is_held_against_the_largest_number() {
    assert!(extent_fits(3, 10, 4));
    assert!(extent_fits(0, usize::MAX, 0));
    assert!(!extent_fits(1, usize::MAX, 0));
    assert!(!extent_fits(2, usize::MAX / 2, 0));
    assert!(!extent_fits(1, 0, usize::MAX));
    assert!(extent_fits(1, 0, usize::MAX - SEARCH_LIMIT - 1));
    assert!(!extent_fits(1, 0, usize::MAX - SEARCH_LIMIT));
}

#[test]
fn formatters_are_made_for_the_cells_with_a_width() {
    let cells = cells_of(&["ab", "", "c"]);
    let row: Vec<&Cell> = cells.iter().collect();
    let table = vec![row.clone(), row];
    let sizes = vec![vec![(2, 1), (0, 1), (1, 1)], vec![(0, 2), (3, 2), (0, 2)]];
    let made = make_formatters(&table, &sizes);
    assert_eq!(made[0].len(), 2);
    assert_eq!(made[0][0].lines(), vec!["+--+", "|ab|", "+--+"]);
    assert_eq!(made[0][1].lines(), vec!["-+", "c|", "-+"]);
    assert_eq!(made[1].len(), 1);
    assert_eq!(made[1][0].lines(), vec!["   |", "   |", "---+"]);
}

#[test]
fn narrow_rows_are_widened_to_the_widest() {
    let cells = cells_of(&["a", "b", "c"]);
    let wide = vec![CellFormatter::new(&cells[0]).weight(9)];
    let narrow =
        vec![CellFormatter::new(&cells[1]).weight(2), CellFormatter::new(&cells[2]).weight(2)];
    let moved = adjust(&vec![wide, narrow]);
    assert_eq!(moved[0][0].given_weight(), 9);
    assert_eq!(moved[1][0].given_weight(), 4);
    assert_eq!(moved[1][1].given_weight(), 4);
}

#[test]
fn what_a_row_lacks_is_divided_with_the_gaps_counted_in() {
    let cells = cells_of(&["a", "b", "c", "d"]);
    let wide = vec![CellFormatter::new(&cells[0]).weight(10)];
    let narrow = vec![
        CellFormatter::new(&cells[1]).weight(2),
        CellFormatter::new(&cells[2]).weight(2),
        CellFormatter::new(&cells[3]).weight(2),
    ];
    let moved = adjust(&vec![wide, narrow]);
    let got: Vec<usize> = moved[1].iter().map(|f| f.given_weight()).collect();
    assert_eq!(got, vec![3, 3, 3]);
}

#[test]
fn padding_counts_for_the_width_of_a_row() {
    let mut cells = cells_of(&["a", "b"]);
    cells[0].set_horizontal_ident(3);
    let padded = vec![CellFormatter::new(&cells[0]).weight(1)];
    let plain = vec![CellFormatter::new(&cells[1]).weight(1)];
    let moved = adjust(&vec![padded, plain]);
    assert_eq!(moved[0][0].given_weight(), 1);
    assert_eq!(moved[1][0].given_weight(), 7);
}

#[test]
fn drawing_joins_rows_below_each_other() {
    let cells = cells_of(&["ab", "c"]);
    let top = vec![CellFormatter::new(&cells[0]).boxed()];
    let bottom = vec![CellFormatter::new(&cells[1]).boxed().weight(2).un_top()];
    assert_eq!(draw(&vec![top, bottom]), Ok("+--+\n|ab|\n+--+\n|c |\n+--+\n".to_string()));
    assert_eq!(draw(&Vec::new()), Ok(String::new()));
}

#[test]
fn drawing_refuses_cells_of_unequal_height() {
    let cells = cells_of(&["a", "b\nc"]);
    let row = vec![CellFormatter::new(&cells[0]), CellFormatter::new(&cells[1])];
    assert_eq!(draw(&vec![row]), Err(LayoutError::Ragged));
}

#[test]
fn rows_are_rendered_from_patterns_and_uncovered_cells() {
    let cells = cells_of(&["0-0", "1-0", "1-1"]);
    let first: Vec<&Cell> = vec![&cells[0]];
    let second: Vec<&Cell> = vec![&cells[1], &cells[2]];
    let out = render_rows(2, &vec![vec![1, 0], vec![0, 0]], &vec![first, second]);
    assert_eq!(out, Ok("+-------+\n|  0-0  |\n+-------+\n|1-0|1-1|\n+---+---+\n".to_string()));
}

#[test]
fn a_grid_without_rows_or_columns_is_empty() {
    assert_eq!(Grid::new(0, 0).render(), Ok(String::new()));
    assert_eq!(Grid::new(0, 3).render(), Ok(String::new()));
    assert_eq!(Grid::new(2, 0).render(), Ok(String::new()));
}

#[test]
fn a_grid_counts_its_rows_and_columns() {
    let grid = Grid::new(3, 2);
    assert_eq!(grid.count_rows(), 3);
    assert_eq!(grid.count_columns(), 2);
}

#[test]
fn a_cell_is_found_by_row_and_column() {
    let mut grid = Grid::new(2, 3);
    grid.cell(1, 2).set_content("x");
    assert_eq!(grid.cell(1, 2).content(), "x");
    for (i, j) in [(0, 0), (0, 1), (0, 2), (1, 0), (1, 1)] {
        assert_eq!(grid.cell(i, j).content(), "");
    }
}

#[test]
fn a_row_without_text_in_its_block_cannot_be_laid_out() {
    assert_eq!(Grid::new(1, 1).render(), Err(LayoutError::EmptyRow));
    let mut grid = Grid::new(2, 2);
    grid.cell(0, 0).set_content("a").set_row_span(1);
    assert_eq!(grid.render(), Err(LayoutError::EmptyRow));
}

#[test]
fn a_row_without_text_takes_the_widths_of_its_block() {
    let mut grid = Grid::new(2, 1);
    grid.cell(0, 0).set_content("a");
    assert_eq!(grid.render(), Ok("+-+\n|a|\n+-+\n+-+\n".to_string()));
}

#[test]
fn a_column_without_text_in_its_block_is_not_drawn() {
    let mut grid = Grid::new(1, 2);
    grid.cell(0, 0).set_content("a");
    assert_eq!(grid.render(), Ok("+-+\n|a|\n+-+\n".to_string()));
}

#[test]
fn a_span_past_the_last_column_is_refused() {
    let mut grid = Grid::new(1, 2);
    grid.cell(0, 0).set_content("a").set_row_span(2);
    grid.cell(0, 1).set_content("b");
    assert_eq!(grid.render(), Err(LayoutError::SpanTooWide));
    grid.cell(0, 0).set_row_span(1);
    assert_eq!(grid.render(), Ok("+-+\n|a|\n+-+\n".to_string()));
}

#[test]
fn the_span_of_a_covered_cell_covers_nothing() {
    let mut grid = Grid::new(1, 2);
    grid.cell(0, 0).set_content("a").set_row_span(1);
    grid.cell(0, 1).set_row_span(7);
    assert_eq!(grid.render(), Ok("+-+\n|a|\n+-+\n".to_string()));
}

#[test]
fn padding_past_the_largest_number_is_refused() {
    let mut grid = Grid::new(1, 1);
    grid.cell(0, 0).set_content("a").set_horizontal_ident(usize::MAX);
    assert_eq!(grid.render(), Err(LayoutError::TooLarge));
    grid.cell(0, 0).set_horizontal_ident(usize::MAX / 2);
    assert_eq!(grid.render(), Err(LayoutError::TooLarge));
}

#[test]
fn rows_that_never_balance_are_refused() {
    let mut grid = Grid::new(3, 2);
    grid.cell(0, 0).set_content("abc").set_row_span(1);
    grid.cell(1, 0).set_content("abc");
    grid.cell(2, 1).set_content("abc");
    assert_eq!(grid.render(), Err(LayoutError::Unbalanced));
}

#[test]
fn unequal_padding_above_and_below_is_refused() {
    let mut grid = Grid::new(1, 2);
    grid.cell(0, 0).set_content("a").set_vertical_ident(1);
    grid.cell(0, 1).set_content("b");
    assert_eq!(grid.render(), Err(LayoutError::Ragged));
}

#[test]
fn equal_padding_above_and_below_is_drawn() {
    let mut grid = Grid::new(1, 2);
    grid.cell(0, 0).set_content("a").set_vertical_ident(1);
    grid.cell(0, 1).set_content("b").set_vertical_ident(1);
    assert_eq!(grid.render(), Ok("+-+-+\n| | |\n|a|b|\n| | |\n+-+-+\n".to_string()));
}

#[test]
fn balancing_may_take_several_steps() {
    let mut grid = Grid::new(3, 3);
    grid.cell(0, 0).set_content("aaaa").set_row_span(2);
    grid.cell(1, 0).set_content("a").set_row_span(1);
    grid.cell(1, 2).set_content("b");
    for j in 0..3 {
        grid.cell(2, j).set_content("c");
    }
    let expected = "+-----+\n|aaaa |\n+-----+\n|a |b |\n+--+--+\n|c|c|c|\n+-+-+-+\n";
    assert_eq!(grid.render(), Ok(expected.to_string()));
}

#[test]
fn alignment_is_kept_in_the_grid() {
    let mut grid = Grid::new(2, 1);
    grid.cell(0, 0).set_content("ab").set_alignment(papergrid::Alignment::Left);
    grid.cell(1, 0).set_content("abcde");
    assert_eq!(grid.render(), Ok("+-----+\n|ab   |\n+-----+\n|abcde|\n+-----+\n".to_string()));
    grid.cell(0, 0).set_alignment(papergrid::Alignment::Right);
    assert_eq!(grid.render(), Ok("+-----+\n|   ab|\n+-----+\n|abcde|\n+-----+\n".to_string()));
    grid.cell(0, 0).set_alignment(papergrid::Alignment::Center);
    assert_eq!(grid.render(), Ok("+-----+\n| ab  |\n+-----+\n|abcde|\n+-----+\n".to_string()));
}

#[test]
fn lines_and_widths_are_counted_in_characters() {
    let mut grid = Grid::new(2, 2);
    grid.cell(0, 0).set_content("x\r\ny");
    grid.cell(0, 1).set_content("h\u{e9}llo");
    grid.cell(1, 0).set_content("1");
    grid.cell(1, 1).set_content("2");
    let expected = "+-+-----+\n|x|h\u{e9}llo|\n|y|     |\n+-+-----+\n|1|  2  |\n+-+-----+\n";
    assert_eq!(grid.render(), Ok(expected.to_string()));
}

fn sample() -> Grid {
    let mut grid = Grid::new(4, 3);
    grid.cell(0, 0).set_content("first line").set_row_span(1);
    grid.cell(0, 2).set_content("e.g.");
    for i in 1..3 {
        for j in 0..3 {
            grid.cell(i, j).set_content("a\nb").set_vertical_ident(1);
        }
    }
    grid.cell(3, 0).set_content("full last line").set_row_span(2);
    grid
}

#[test]
fn every_line_is_as_long_as_every_other() {
    let text = sample().render().unwrap();
    let lengths: Vec<usize> = text.lines().map(|l| l.chars().count()).collect();
    assert!(lengths.iter().all(|&n| n == 19), "{:?}", lengths);
}

#[test]
fn the_lines_are_those_of_the_rows_and_the_border_lines() {
    let text = sample().render().unwrap();
    assert!(text.ends_with('\n'));
    // Heights 1, 2, 2, 1; padding 0, 2, 2, 0; a border line below each of
    // the four rows, and one above the first.
    assert_eq!(text.lines().count(), (1 + 2 + 2 + 1) + (2 + 2) + 4 + 1);
}

#[test]
fn nothing_of_a_covered_cell_shows() {
    let plain = sample();
    let mut other = sample();
    other
        .cell(0, 1)
        .set_content("hidden\ntext")
        .set_corner("#")
        .set_vertical_ident(5)
        .set_horizontal_ident(6)
        .set_alignment(papergrid::Alignment::Right);
    other.cell(3, 1).set_content("hidden");
    other.cell(3, 2).set_content("hidden");
    let text = other.render().unwrap();
    assert_eq!(text, plain.render().unwrap());
    assert!(!text.contains("hidden"));
    assert!(!text.contains('#'));
}

#[test]
fn no_border_is_drawn_twice() {
    let mut grid = Grid::new(2, 2);
    for i in 0..2 {
        for j in 0..2 {
            grid.cell(i, j).set_content("x");
        }
    }
    let text = grid.render().unwrap();
    assert_eq!(text, "+-+-+\n|x|x|\n+-+-+\n|x|x|\n+-+-+\n");
    assert!(!text.contains("||"));
    assert!(!text.contains("++"));
    assert!(!text.contains("+-+-+\n+-+-+"));
}

#[test]
fn a_grid_is_rendered_alike_each_time() {
    let grid = sample();
    let first = grid.render();
    let second = grid.render();
    assert!(first.is_ok());
    assert_eq!(first, second);
}

#[test]
fn what_a_row_lacks_may_not_spread_evenly() {
    let mut grid = Grid::new(2, 3);
    for j in 0..3 {
        grid.cell(0, j).set_content("a");
        grid.cell(1, j).set_content("b");
    }
    grid.cell(0, 0).set_horizontal_ident(1);
    let expected = "+---+-+-+\n| a |a|a|\n+---+-+-+\n|b |b |b |\n+--+--+--+\n";
    assert_eq!(grid.render(), Ok(expected.to_string()));
}

#[test]
fn a_row_whose_first_cell_is_not_drawn_has_no_left_border() {
    let mut grid = Grid::new(2, 2);
    grid.cell(0, 1).set_content("abc");
    grid.cell(1, 0).set_content("abcd").set_row_span(1);
    assert_eq!(grid.render(), Ok("----+\nabc |\n----+\n|abcd|\n+----+\n".to_string()));
}

fn lengths_of(text: &str) -> Vec<usize> {
    text.lines().map(|l| l.chars().count()).collect()
}

#[test]
fn grids_without_side_padding_are_rectangles() {
    let words = ["a", "bb", "ccc\nc", "dddd", "e\ne\ne", "ffffff", "g g", "hh\nhhhhh"];
    let mut seed = 7usize;
    let mut rendered = 0;
    for rows in 1..4 {
        for columns in 1..4 {
            for round in 0..40 {
                let mut grid = Grid::new(rows, columns);
                let mut heights = vec![0; rows];
                for i in 0..rows {
                    // Every third round the first cell of a row spans the next one.
                    let span = if round % 3 == 0 && columns > 1 { 1 } else { 0 };
                    grid.cell(i, 0).set_row_span(span * (i % 2));
                    for j in 0..columns {
                        seed = (seed * 31 + 11) % 1009;
                        let word = words[seed % words.len()];
                        grid.cell(i, j).set_content(word);
                        let covered = j == 1 && span * (i % 2) == 1;
                        if !covered {
                            heights[i] = heights[i].max(word.lines().count());
                        }
                    }
                }
                match grid.render() {
                    Ok(text) => {
                        rendered += 1;
                        let lengths = lengths_of(&text);
                        assert!(lengths.iter().all(|&n| n == lengths[0]), "{}", text);
                        let lines = heights.iter().sum::<usize>() + rows + 1;
                        assert_eq!(lengths.len(), lines, "{}", text);
                        let border: Vec<bool> = text.lines().map(|l| l.contains('+')).collect();
                        assert_eq!(border.iter().filter(|&&b| b).count(), rows + 1, "{}", text);
                        assert!(border.windows(2).all(|pair| !(pair[0] && pair[1])), "{}", text);
                        assert!(!text.contains("||"), "{}", text);
                    }
                    Err(error) => assert_eq!(error, LayoutError::Unbalanced),
                }
            }
        }
    }
    assert!(rendered > 200);
}

#[test]
fn a_grid_whose_first_column_is_empty_is_a_rectangle_without_left_border() {
    let mut grid = Grid::new(2, 2);
    grid.cell(0, 1).set_content("a");
    grid.cell(1, 1).set_content("bc");
    let text = grid.render().unwrap();
    assert_eq!(text, "--+\na |\n--+\nbc|\n--+\n");
    assert!(lengths_of(&text).iter().all(|&n| n == 3));
}

#[test]
fn an_empty_corner_leaves_the_number_of_lines() {
    let mut grid = Grid::new(2, 1);
    grid.cell(0, 0).set_content("a\nb").set_corner("");
    grid.cell(1, 0).set_content("c").set_corner("");
    let text = grid.render().unwrap();
    assert_eq!(text, "-\n|a|\n|b|\n-\n|c|\n-\n");
    assert_eq!(text.lines().count(), (2 + 1) + 2 + 1);
}

#[test]
fn each_side_border_is_drawn_once() {
    let grid = sample();
    let text = grid.render().unwrap();
    let lines: Vec<&str> = text.lines().collect();
    let sides = |line: &str| line.chars().filter(|&c| c == '|').count();
    // The first row has two cells that are not covered, the second and
    // third three each, the last one.
    assert_eq!(sides(lines[1]), 2 + 1);
    for line in &lines[3..7] {
        assert_eq!(sides(line), 3 + 1);
    }
    for line in &lines[8..12] {
        assert_eq!(sides(line), 3 + 1);
    }
    assert_eq!(sides(lines[13]), 1 + 1);
    assert!(!text.contains("||"));
}

#[test]
fn each_border_line_is_drawn_once() {
    let text = sample().render().unwrap();
    let border: Vec<usize> = text
        .lines()
        .enumerate()
        .filter(|(_, line)| line.contains('+'))
        .map(|(at, _)| at)
        .collect();
    assert_eq!(border, vec![0, 2, 7, 12, 14]);
}

#[test]
fn border_lines_follow_each_other_where_a_row_has_no_line() {
    let mut grid = Grid::new(2, 1);
    grid.cell(0, 0).set_content("a");
    let text = grid.render().unwrap();
    assert_eq!(text, "+-+\n|a|\n+-+\n+-+\n");
    assert_eq!(text.lines().filter(|line| line.contains('+')).count(), 2 + 1);
}
