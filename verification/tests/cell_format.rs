use papergrid::{Cell, CellFormatter};

#[test]
fn cell_formating_empty() {
    let mut cell = Cell::new();
    cell.set_content("").set_corner("-");

    let expected = "--\n--";

    assert_eq!(expected, CellFormatter::new(&cell).boxed().format());
}

#[test]
fn cell_formating_single() {
    let mut cell = Cell::new();
    cell.set_content("hello world").set_corner("-");

    let expected = "-------------\n|hello world|\n-------------";

    assert_eq!(expected, CellFormatter::new(&cell).boxed().format());
}

#[test]
fn cell_formating_multiline() {
    let mut cell = Cell::new();
    cell.set_content("hello\nworld").set_corner("-");

    let expected = "-------\n|hello|\n|world|\n-------";

    assert_eq!(expected, CellFormatter::new(&cell).boxed().format());
}

#[test]
fn cell_formating_multilane_forced() {
    let mut cell = Cell::new();
    cell.set_content("hello").set_corner("-");

    let expected = "-------\n|hello|\n|     |\n-------";

    assert_eq!(
        expected,
        CellFormatter::new(&cell).boxed().height(2).format()
    );
}

#[test]
fn empty_cell_formating_with_height_2() {
    let mut cell = Cell::new();
    cell.set_content("").set_corner("-");

    let expected = "--\n||\n||\n--";
    let formated_cell = CellFormatter::new(&cell).boxed().height(2).format();

    assert_eq!(expected, formated_cell);
}

#[test]
fn empty_cell_formating_with_height_1() {
    let mut cell = Cell::new();
    cell.set_content("").set_corner("-");

    let expected = "--\n||\n--";
    let formated_cell = CellFormatter::new(&cell).boxed().height(1).format();

    assert_eq!(expected, formated_cell);
}

#[test]
fn cell_formating_with_height_2() {
    let mut cell = Cell::new();
    cell.set_content("text").set_corner("-");

    let expected = "------\n|text|\n|    |\n------";
    let formated_cell = CellFormatter::new(&cell).boxed().height(2).format();

    assert_eq!(expected, formated_cell);
}

#[test]
fn cell_new_line_formating_with_height_2() {
    let mut cell = Cell::new();
    cell.set_content("\n").set_corner("-");

    let expected = "--\n||\n||\n--";
    let formated_cell = CellFormatter::new(&cell).boxed().height(2).format();

    assert_eq!(expected, formated_cell);
}

#[test]
fn a_new_cell_is_blank() {
    let cell = Cell::new();
    assert_eq!(cell.content(), "");
    assert_eq!(cell.alignment(), papergrid::Alignment::Center);
    assert_eq!(cell.border(), ("-", "-", "|", "|", "+"));
    assert_eq!(cell.ident(), (0, 0, 0, 0));
    assert_eq!(cell.row_span(), 0);
    assert_eq!(cell.height(), 0);
    assert_eq!(cell.weight(), 0);
}

#[test]
fn setters_change_what_they_name() {
    let mut cell = Cell::new();
    cell.set_content("one\nthree")
        .set_corner("*")
        .set_alignment(papergrid::Alignment::Right)
        .set_vertical_ident(2)
        .set_horizontal_ident(3)
        .set_row_span(4);
    assert_eq!(cell.content(), "one\nthree");
    assert_eq!(cell.alignment(), papergrid::Alignment::Right);
    assert_eq!(cell.border(), ("-", "-", "|", "|", "*"));
    assert_eq!(cell.ident(), (2, 2, 3, 3));
    assert_eq!(cell.row_span(), 4);
    assert_eq!(cell.height(), 2);
    assert_eq!(cell.weight(), 5);
}

#[test]
fn weight_counts_characters() {
    let mut cell = Cell::new();
    cell.set_content("h\u{e9}llo\nw\u{f6}");
    assert_eq!(cell.weight(), 5);
}

#[test]
fn a_bare_formatter_draws_the_text_alone() {
    let mut cell = Cell::new();
    cell.set_content("ab\nc");
    assert_eq!(CellFormatter::new(&cell).format(), "ab\nc ");
}

#[test]
fn a_given_width_is_kept() {
    let mut cell = Cell::new();
    cell.set_content("ab");
    assert_eq!(CellFormatter::new(&cell).boxed().weight(5).format(), "+-----+\n| ab  |\n+-----+");
    assert_eq!(CellFormatter::new(&cell).boxed().weight(5).given_weight(), 5);
}

#[test]
fn a_width_under_the_text_cuts_nothing() {
    let mut cell = Cell::new();
    cell.set_content("abcd\nab");
    assert_eq!(CellFormatter::new(&cell).boxed().weight(3).format(), "+---+\n|abcd|\n|ab |\n+---+");
}

#[test]
fn a_height_under_the_text_cuts_nothing() {
    let mut cell = Cell::new();
    cell.set_content("a\nb\nc");
    assert_eq!(CellFormatter::new(&cell).boxed().height(1).format(), "+-+\n|a|\n|b|\n|c|\n+-+");
}

#[test]
fn padding_stands_inside_the_border() {
    let mut cell = Cell::new();
    cell.set_content("ab").set_vertical_ident(1).set_horizontal_ident(2);
    let f = CellFormatter::new(&cell).boxed();
    assert_eq!(f.full_weight(), 4);
    assert_eq!(f.weight(2).full_weight(), 6);
    assert_eq!(
        f.format(),
        "+------+\n|      |\n|  ab  |\n|      |\n+------+"
    );
}

#[test]
fn padding_below_comes_after_the_fill() {
    let mut cell = Cell::new();
    cell.set_content("ab").set_vertical_ident(1);
    assert_eq!(
        CellFormatter::new(&cell).boxed().height(2).lines(),
        vec!["+--+", "|  |", "|ab|", "|  |", "|  |", "+--+"]
    );
}

#[test]
fn each_side_of_the_border_can_be_left_out() {
    let mut cell = Cell::new();
    cell.set_content("ab");
    let boxed = CellFormatter::new(&cell).boxed();
    assert_eq!(boxed.un_left().format(), "+--+\nab|\n+--+");
    assert_eq!(boxed.un_left_connection().format(), "--+\n|ab|\n--+");
    assert_eq!(boxed.un_left().un_left_connection().format(), "--+\nab|\n--+");
    assert_eq!(boxed.un_top().format(), "|ab|\n+--+");
    assert_eq!(boxed.un_bottom().format(), "+--+\n|ab|");
    assert_eq!(boxed.un_top().un_bottom().format(), "|ab|");
}

#[test]
fn the_corner_may_be_long_or_empty() {
    let mut cell = Cell::new();
    cell.set_content("ab").set_corner("<>");
    assert_eq!(CellFormatter::new(&cell).boxed().format(), "<>--<>\n|ab|\n<>--<>");
    cell.set_corner("");
    assert_eq!(CellFormatter::new(&cell).boxed().format(), "--\n|ab|\n--");
}

#[test]
fn alignment_moves_each_line() {
    let mut cell = Cell::new();
    cell.set_content("a\nabcd").set_alignment(papergrid::Alignment::Left);
    assert_eq!(CellFormatter::new(&cell).format(), "a   \nabcd");
    cell.set_alignment(papergrid::Alignment::Right);
    assert_eq!(CellFormatter::new(&cell).format(), "   a\nabcd");
    cell.set_alignment(papergrid::Alignment::Center);
    assert_eq!(CellFormatter::new(&cell).format(), " a  \nabcd");
}
