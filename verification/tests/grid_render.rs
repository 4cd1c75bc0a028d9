use papergrid::Grid;

#[test]
fn render() {
    let mut grid = Grid::new(2, 2);
    grid.cell(0, 0).set_content("0-0");
    grid.cell(0, 1).set_content("0-1");
    grid.cell(1, 0).set_content("1-0");
    grid.cell(1, 1).set_content("1-1");

    let expected = [
        "+---+---+\n",
        "|0-0|0-1|\n",
        "+---+---+\n",
        "|1-0|1-1|\n",
        "+---+---+\n",
    ]
    .concat();

    assert_eq!(expected, grid.render().unwrap());
}

#[test]
fn render_multilane() {
    let mut grid = Grid::new(2, 2);
    grid.cell(0, 0).set_content("left\ncell");
    grid.cell(0, 1).set_content("right one");
    grid.cell(1, 0)
        .set_content("the second column got the beginning here");
    grid.cell(1, 1)
        .set_content("and here\nwe\nsee\na\nlong\nstring");

    let expected = [
        "+----------------------------------------+---------+\n",
        "|                  left                  |right one|\n",
        "|                  cell                  |         |\n",
        "+----------------------------------------+---------+\n",
        "|the second column got the beginning here|and here |\n",
        "|                                        |   we    |\n",
        "|                                        |   see   |\n",
        "|                                        |    a    |\n",
        "|                                        |  long   |\n",
        "|                                        | string  |\n",
        "+----------------------------------------+---------+\n",
    ]
    .concat();

    let g = grid.render().unwrap();
    assert_eq!(expected, g);
}

#[test]
fn render_one_line() {
    let mut grid = Grid::new(1, 1);
    grid.cell(0, 0).set_content("one line");

    let expected = ["+--------+\n", "|one line|\n", "+--------+\n"].concat();

    assert_eq!(expected, grid.render().unwrap());
}

#[test]
fn render_not_quadratic() {
    let mut grid = Grid::new(1, 2);
    grid.cell(0, 0).set_content("hello");
    grid.cell(0, 1).set_content("world");

    let expected = ["+-----+-----+\n", "|hello|world|\n", "+-----+-----+\n"].concat();

    assert_eq!(expected, grid.render().unwrap());
}

#[test]
fn render_empty() {
    let grid = Grid::new(0, 0);

    let expected = "";

    assert_eq!(expected, grid.render().unwrap());
}

#[test]
fn render_empty_cell() {
    let mut grid = Grid::new(2, 2);
    grid.cell(0, 0).set_content("0-0");
    grid.cell(0, 1).set_content("");
    grid.cell(1, 0).set_content("1-0");
    grid.cell(1, 1).set_content("1-1");

    let expected = [
        "+---+---+\n",
        "|0-0|   |\n",
        "+---+---+\n",
        "|1-0|1-1|\n",
        "+---+---+\n",
    ]
    .concat();

    assert_eq!(expected, grid.render().unwrap());
}

#[test]
fn render_row_span() {
    let mut grid = Grid::new(2, 2);
    grid.cell(0, 0).set_content("0-0").set_row_span(1);
    grid.cell(1, 0).set_content("1-0");
    grid.cell(1, 1).set_content("1-1");

    let expected = [
        "+-------+\n",
        "|  0-0  |\n",
        "+-------+\n",
        "|1-0|1-1|\n",
        "+---+---+\n",
    ]
    .concat();

    assert_eq!(expected, grid.render().unwrap());
}

#[test]
fn render_row_span_multilane() {
    let mut grid = Grid::new(4, 3);
    grid.cell(0, 0).set_content("first line").set_row_span(1);
    grid.cell(0, 2).set_content("e.g.");
    grid.cell(1, 0).set_content("0");
    grid.cell(1, 1).set_content("1");
    grid.cell(1, 2).set_content("2");
    grid.cell(2, 0).set_content("0");
    grid.cell(2, 1).set_content("1");
    grid.cell(2, 2).set_content("2");
    grid.cell(3, 0)
        .set_content("full last line")
        .set_row_span(2);

    let expected = [
        "+------------+----+\n",
        "| first line |e.g.|\n",
        "+------------+----+\n",
        "|  0  |  1  |  2  |\n",
        "+-----+-----+-----+\n",
        "|  0  |  1  |  2  |\n",
        "+-----+-----+-----+\n",
        "| full last line  |\n",
        "+-----------------+\n",
    ]
    .concat();

    assert_eq!(expected, grid.render().unwrap());
}

#[test]
fn render_row_span_with_horizontal_ident() {
    let mut grid = Grid::new(3, 2);
    grid.cell(0, 0).set_content("0-0").set_row_span(1);
    grid.cell(1, 0).set_content("1-0").set_horizontal_ident(4);
    grid.cell(1, 1).set_content("1-1");
    grid.cell(2, 0).set_content("2-0");
    grid.cell(2, 1).set_content("2-1");

    let expected = [
        "+---------------+\n",
        "|      0-0      |\n",
        "+---------------+\n",
        "|    1-0    |1-1|\n",
        "+-----------+---+\n",
        "|  2-0  |  2-1  |\n",
        "+-------+-------+\n",
    ]
    .concat();

    assert_eq!(expected, grid.render().unwrap());
}

#[test]
fn render_row_span_with_odd_length() {
    let mut grid = Grid::new(2, 2);
    grid.cell(0, 0).set_content("3   ").set_row_span(1);
    grid.cell(1, 0).set_content("2");
    grid.cell(1, 1).set_content("3");

    let expected = [
        "+-----+\n",
        "|3    |\n",
        "+-----+\n",
        "|2 |3 |\n",
        "+--+--+\n",
    ]
    .concat();

    assert_eq!(expected, grid.render().unwrap());
}
