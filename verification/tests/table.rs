use std::collections::BTreeMap;

use ascii_table::Align::{Center, Left, Right};
use ascii_table::{AsciiTable, Column};

fn row(cells: &[&str]) -> Vec<String> {
    cells.iter().map(|c| c.to_string()).collect()
}

fn cube_config() -> AsciiTable {
    let mut result = AsciiTable::default();
    result.columns.insert(0, Column::with_header("a"));
    result.columns.insert(1, Column::with_header("b"));
    result.columns.insert(2, Column::with_header("c"));
    result
}

#[test]
fn backwards_compatible() {
    AsciiTable {
        max_width: 0,
        default_align: Left,
        columns: BTreeMap::new(),
    };
    Column {
        header: String::new(),
        align: Left,
        max_width: 0,
    };
}

#[test]
fn empty_rows() {
    let config = AsciiTable::default();
    let input: Vec<Vec<String>> = vec![];
    let expected = "┌──┐\n\
                    │  │\n\
                    └──┘\n";

    assert_eq!(expected, config.format(&input));
}

#[test]
fn empty_columns() {
    let config = AsciiTable::default();
    let input: Vec<Vec<String>> = vec![vec![]];
    let expected = "┌──┐\n\
                    │  │\n\
                    └──┘\n";

    assert_eq!(expected, config.format(&input));
}

#[test]
fn cube_with_header() {
    let config = cube_config();
    let input = vec![row(&["1", "2", "3"]), row(&["4", "5", "6"]), row(&["7", "8", "9"])];
    let expected = "┌───┬───┬───┐\n\
                    │ a │ b │ c │\n\
                    ├───┼───┼───┤\n\
                    │ 1 │ 2 │ 3 │\n\
                    │ 4 │ 5 │ 6 │\n\
                    │ 7 │ 8 │ 9 │\n\
                    └───┴───┴───┘\n";

    assert_eq!(expected, config.format(&input));
}

#[test]
fn cube_with_no_header() {
    let config = AsciiTable::default();
    let input = vec![row(&["1", "2", "3"]), row(&["4", "5", "6"]), row(&["7", "8", "9"])];
    let expected = "┌───┬───┬───┐\n\
                    │ 1 │ 2 │ 3 │\n\
                    │ 4 │ 5 │ 6 │\n\
                    │ 7 │ 8 │ 9 │\n\
                    └───┴───┴───┘\n";

    assert_eq!(expected, config.format(&input));
}

#[test]
fn one_cell() {
    let config = AsciiTable::default();
    let input = vec![row(&["1"])];
    let expected = "┌───┐\n\
                    │ 1 │\n\
                    └───┘\n";

    assert_eq!(expected, config.format(&input));
}

#[test]
fn smallest_cell() {
    let config = AsciiTable {
        max_width: 4,
        ..AsciiTable::default()
    };
    let input = vec![row(&["123"])];
    let expected = "┌──┐\n\
                    │  │\n\
                    └──┘\n";

    assert_eq!(expected, config.format(&input));
}

#[test]
fn smallest_cell2() {
    let mut config = AsciiTable::default();
    config.columns.insert(0, Column { max_width: 0, ..Column::default() });
    let input = vec![row(&["123"])];
    let expected = "┌──┐\n\
                    │  │\n\
                    └──┘\n";

    assert_eq!(expected, config.format(&input));
}

#[test]
fn smallest_cube() {
    let config = AsciiTable {
        max_width: 10,
        ..AsciiTable::default()
    };
    let input = vec![row(&["1", "2", "3"]), row(&["4", "5", "6"]), row(&["7", "8", "9"])];
    let expected = "┌──┬──┬──┐\n\
                    │  │  │  │\n\
                    │  │  │  │\n\
                    │  │  │  │\n\
                    └──┴──┴──┘\n";

    assert_eq!(expected, config.format(&input));
}

#[test]
fn smallest_cube2() {
    let mut config = AsciiTable::default();
    config.columns.insert(0, Column { max_width: 0, ..Column::default() });
    config.columns.insert(1, Column { max_width: 0, ..Column::default() });
    config.columns.insert(2, Column { max_width: 0, ..Column::default() });
    let input = vec![row(&["1", "2", "3"]), row(&["4", "5", "6"]), row(&["7", "8", "9"])];
    let expected = "┌──┬──┬──┐\n\
                    │  │  │  │\n\
                    │  │  │  │\n\
                    │  │  │  │\n\
                    └──┴──┴──┘\n";

    assert_eq!(expected, config.format(&input));
}

#[test]
fn show_no_content_for_cell() {
    let config = AsciiTable {
        max_width: 5,
        ..AsciiTable::default()
    };
    let input = vec![row(&["123"])];
    let expected = "┌───┐\n\
                    │ + │\n\
                    └───┘\n";

    assert_eq!(expected, config.format(&input));
}

#[test]
fn show_no_content_for_cell2() {
    let mut config = AsciiTable::default();
    config.columns.insert(0, Column { max_width: 1, ..Column::default() });
    let input = vec![row(&["123"])];
    let expected = "┌───┐\n\
                    │ + │\n\
                    └───┘\n";

    assert_eq!(expected, config.format(&input));
}

#[test]
fn show_one_character_for_cell() {
    let config = AsciiTable {
        max_width: 6,
        ..AsciiTable::default()
    };
    let input = vec![row(&["123"])];
    let expected = "┌────┐\n\
                    │ 1+ │\n\
                    └────┘\n";

    assert_eq!(expected, config.format(&input));
}

#[test]
fn show_one_character_for_cell2() {
    let mut config = AsciiTable::default();
    config.columns.insert(0, Column { max_width: 2, ..Column::default() });
    let input = vec![row(&["123"])];
    let expected = "┌────┐\n\
                    │ 1+ │\n\
                    └────┘\n";

    assert_eq!(expected, config.format(&input));
}

#[test]
fn smallest_cell_with_header() {
    let mut config = AsciiTable {
        max_width: 4,
        ..AsciiTable::default()
    };
    config.columns.insert(0, Column { header: "foo".to_string(), ..Column::default() });
    let input = vec![row(&["123"])];
    let expected = "┌──┐\n\
                    │  │\n\
                    ├──┤\n\
                    │  │\n\
                    └──┘\n";

    assert_eq!(expected, config.format(&input));
}

#[test]
fn smallest_cell_with_header2() {
    let mut config = AsciiTable::default();
    config.columns.insert(
        0,
        Column { header: "foo".to_string(), max_width: 0, ..Column::default() },
    );
    let input = vec![row(&["123"])];
    let expected = "┌──┐\n\
                    │  │\n\
                    ├──┤\n\
                    │  │\n\
                    └──┘\n";

    assert_eq!(expected, config.format(&input));
}

#[test]
fn smallest_cube_with_header() {
    let mut config = AsciiTable {
        max_width: 10,
        ..AsciiTable::default()
    };
    config.columns.insert(0, Column { header: "abc".to_string(), ..Column::default() });
    config.columns.insert(1, Column { header: "def".to_string(), ..Column::default() });
    config.columns.insert(2, Column { header: "ghi".to_string(), ..Column::default() });
    let input = vec![row(&["1", "2", "3"]), row(&["4", "5", "6"]), row(&["7", "8", "9"])];
    let expected = "┌──┬──┬──┐\n\
                    │  │  │  │\n\
                    ├──┼──┼──┤\n\
                    │  │  │  │\n\
                    │  │  │  │\n\
                    │  │  │  │\n\
                    └──┴──┴──┘\n";

    assert_eq!(expected, config.format(&input));
}

#[test]
fn smallest_cube_with_header2() {
    let mut config = AsciiTable::default();
    config.columns.insert(
        0,
        Column { header: "abc".to_string(), max_width: 0, ..Column::default() },
    );
    config.columns.insert(
        1,
        Column { header: "def".to_string(), max_width: 0, ..Column::default() },
    );
    config.columns.insert(
        2,
        Column { header: "ghi".to_string(), max_width: 0, ..Column::default() },
    );
    let input = vec![row(&["1", "2", "3"]), row(&["4", "5", "6"]), row(&["7", "8", "9"])];
    let expected = "┌──┬──┬──┐\n\
                    │  │  │  │\n\
                    ├──┼──┼──┤\n\
                    │  │  │  │\n\
                    │  │  │  │\n\
                    │  │  │  │\n\
                    └──┴──┴──┘\n";

    assert_eq!(expected, config.format(&input));
}

#[test]
fn show_no_content_for_header() {
    let mut config = AsciiTable {
        max_width: 5,
        ..AsciiTable::default()
    };
    config.columns.insert(0, Column { header: "abc".to_string(), ..Column::default() });
    let input = vec![row(&[""])];
    let expected = "┌───┐\n\
                    │ + │\n\
                    ├───┤\n\
                    │   │\n\
                    └───┘\n";

    assert_eq!(expected, config.format(&input));
}

#[test]
fn show_no_content_for_header2() {
    let mut config = AsciiTable::default();
    config.columns.insert(
        0,
        Column { header: "abc".to_string(), max_width: 1, ..Column::default() },
    );
    let input = vec![row(&[""])];
    let expected = "┌───┐\n\
                    │ + │\n\
                    ├───┤\n\
                    │   │\n\
                    └───┘\n";

    assert_eq!(expected, config.format(&input));
}

#[test]
fn show_one_character_for_header() {
    let mut config = AsciiTable {
        max_width: 6,
        ..AsciiTable::default()
    };
    config.columns.insert(0, Column { header: "abc".to_string(), ..Column::default() });
    let input = vec![row(&[""])];
    let expected = "┌────┐\n\
                    │ a+ │\n\
                    ├────┤\n\
                    │    │\n\
                    └────┘\n";

    assert_eq!(expected, config.format(&input));
}

#[test]
fn show_one_character_for_header2() {
    let mut config = AsciiTable::default();
    config.columns.insert(
        0,
        Column { header: "abc".to_string(), max_width: 2, ..Column::default() },
    );
    let input = vec![row(&[""])];
    let expected = "┌────┐\n\
                    │ a+ │\n\
                    ├────┤\n\
                    │    │\n\
                    └────┘\n";

    assert_eq!(expected, config.format(&input));
}

#[test]
fn cube_with_partial_content() {
    let config = cube_config();
    let input = vec![row(&["1", "2", "3"]), row(&["4", "5"]), row(&["7"])];
    let expected = "┌───┬───┬───┐\n\
                    │ a │ b │ c │\n\
                    ├───┼───┼───┤\n\
                    │ 1 │ 2 │ 3 │\n\
                    │ 4 │ 5 │   │\n\
                    │ 7 │   │   │\n\
                    └───┴───┴───┘\n";

    assert_eq!(expected, config.format(&input));
}

#[test]
fn cube_with_partial_content_reversed() {
    let config = cube_config();
    let input = vec![row(&["1"]), row(&["4", "5"]), row(&["7", "8", "9"])];
    let expected = "┌───┬───┬───┐\n\
                    │ a │ b │ c │\n\
                    ├───┼───┼───┤\n\
                    │ 1 │   │   │\n\
                    │ 4 │ 5 │   │\n\
                    │ 7 │ 8 │ 9 │\n\
                    └───┴───┴───┘\n";

    assert_eq!(expected, config.format(&input));
}

#[test]
fn resize_column() {
    let config = cube_config();
    let input = vec![row(&["1"]), row(&["23"]), row(&["456"])];
    let expected = "┌─────┐\n\
                    │ a   │\n\
                    ├─────┤\n\
                    │ 1   │\n\
                    │ 23  │\n\
                    │ 456 │\n\
                    └─────┘\n";

    assert_eq!(expected, config.format(&input));
}

#[test]
fn resize_column_reversed() {
    let config = cube_config();
    let input = vec![row(&["123"]), row(&["45"]), row(&["6"])];
    let expected = "┌─────┐\n\
                    │ a   │\n\
                    ├─────┤\n\
                    │ 123 │\n\
                    │ 45  │\n\
                    │ 6   │\n\
                    └─────┘\n";

    assert_eq!(expected, config.format(&input));
}

#[test]
fn resize_column_via_header() {
    let mut config = AsciiTable::default();
    config.columns.insert(0, Column { header: "foo".to_string(), ..Column::default() });
    let input = vec![row(&["1"]), row(&["2"]), row(&["3"])];
    let expected = "┌─────┐\n\
                    │ foo │\n\
                    ├─────┤\n\
                    │ 1   │\n\
                    │ 2   │\n\
                    │ 3   │\n\
                    └─────┘\n";

    assert_eq!(expected, config.format(&input));
}

#[test]
fn partial_header_at_start() {
    let config = cube_config();
    let input = vec![
        row(&["1", "2", "3", "0"]),
        row(&["4", "5", "6", "0"]),
        row(&["7", "8", "9", "0"]),
    ];
    let expected = "┌───┬───┬───┬───┐\n\
                    │ a │ b │ c │   │\n\
                    ├───┼───┼───┼───┤\n\
                    │ 1 │ 2 │ 3 │ 0 │\n\
                    │ 4 │ 5 │ 6 │ 0 │\n\
                    │ 7 │ 8 │ 9 │ 0 │\n\
                    └───┴───┴───┴───┘\n";

    assert_eq!(expected, config.format(&input));
}

#[test]
fn partial_header_at_end() {
    let mut config = AsciiTable::default();
    config.columns.insert(2, Column { header: String::from("c"), ..Column::default() });

    let input = vec![row(&["1", "2", "3"]), row(&["4", "5", "6"]), row(&["7", "8", "9"])];
    let expected = "┌───┬───┬───┐\n\
                    │   │   │ c │\n\
                    ├───┼───┼───┤\n\
                    │ 1 │ 2 │ 3 │\n\
                    │ 4 │ 5 │ 6 │\n\
                    │ 7 │ 8 │ 9 │\n\
                    └───┴───┴───┘\n";

    assert_eq!(expected, config.format(&input));
}

#[test]
fn ignore_unused_header() {
    let config = cube_config();
    let input = vec![row(&["1"]), row(&["2"]), row(&["3"])];
    let expected = "┌───┐\n\
                    │ a │\n\
                    ├───┤\n\
                    │ 1 │\n\
                    │ 2 │\n\
                    │ 3 │\n\
                    └───┘\n";

    assert_eq!(expected, config.format(&input));
}

#[test]
fn align_right() {
    let mut config = AsciiTable::default();
    config.columns.insert(
        0,
        Column { header: String::from("a"), align: Right, ..Column::default() },
    );

    let input = vec![row(&["1"]), row(&["23"]), row(&["456"])];
    let expected = "┌─────┐\n\
                    │ a   │\n\
                    ├─────┤\n\
                    │   1 │\n\
                    │  23 │\n\
                    │ 456 │\n\
                    └─────┘\n";

    assert_eq!(expected, config.format(&input));
}

#[test]
fn align_center() {
    let mut config = AsciiTable::default();
    config.columns.insert(
        0,
        Column { header: String::from("a"), align: Center, ..Column::default() },
    );

    let input = vec![row(&["1"]), row(&["23"]), row(&["456"]), row(&["7890"]), row(&["12345"])];
    let expected = "┌───────┐\n\
                    │ a     │\n\
                    ├───────┤\n\
                    │   1   │\n\
                    │  23   │\n\
                    │  456  │\n\
                    │ 7890  │\n\
                    │ 12345 │\n\
                    └───────┘\n";

    assert_eq!(expected, config.format(&input));
}

#[test]
fn mixed_types() {
    let config = cube_config();
    let input = vec![row(&["1", "2", "3"]), row(&["4", "5", "6"]), row(&["7", "8", "9"])];
    let expected = "┌───┬───┬───┐\n\
                    │ a │ b │ c │\n\
                    ├───┼───┼───┤\n\
                    │ 1 │ 2 │ 3 │\n\
                    │ 4 │ 5 │ 6 │\n\
                    │ 7 │ 8 │ 9 │\n\
                    └───┴───┴───┘\n";

    assert_eq!(expected, config.format(&input));
}
