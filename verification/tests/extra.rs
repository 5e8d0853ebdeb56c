use std::collections::BTreeMap;

use ascii_table::config::{Align as ConfigAlign, ColumnConfig, TableConfig};
use ascii_table::{Align, AsciiTable, Column};

fn row(cells: &[&str]) -> Vec<String> {
    cells.iter().map(|c| c.to_string()).collect()
}

#[test]
fn shrink_trims_rightmost_widest_first() {
    let config = AsciiTable {
        max_width: 10,
        ..AsciiTable::default()
    };
    let input = vec![row(&["aa", "bb"])];
    let expected = "┌────┬───┐\n\
                    │ aa │ + │\n\
                    └────┴───┘\n";

    assert_eq!(expected, config.format(&input));
}

#[test]
fn shrink_spreads_loss_evenly_from_the_right() {
    let config = AsciiTable {
        max_width: 16,
        ..AsciiTable::default()
    };
    let input = vec![row(&["12345", "12345", "12345"])];
    let expected = "┌────┬────┬────┐\n\
                    │ 1+ │ 1+ │ 1+ │\n\
                    └────┴────┴────┘\n";

    assert_eq!(expected, config.format(&input));
}

#[test]
fn every_line_fits_the_budget() {
    let config = AsciiTable {
        max_width: 16,
        ..AsciiTable::default()
    };
    let input = vec![row(&["12345", "12345", "12345"]), row(&["6", "7", "8"])];
    let out = config.format(&input);
    for line in out.lines() {
        assert_eq!(16, line.chars().count());
        assert!(line.chars().count() <= 16);
    }
}

#[test]
fn repeated_renders_are_identical() {
    let mut config = AsciiTable {
        max_width: 9,
        ..AsciiTable::default()
    };
    config.columns.insert(1, Column::with_header("h"));
    let input = vec![row(&["one", "two"]), row(&["three", "four"])];
    let first = config.format(&input);
    let second = config.format(&input);
    assert_eq!(first, second);
}

#[test]
fn single_empty_cell() {
    let config = AsciiTable::default();
    let input = vec![row(&[""])];
    let expected = "┌──┐\n\
                    │  │\n\
                    └──┘\n";

    assert_eq!(expected, config.format(&input));
}

#[test]
fn output_is_framed_and_terminated() {
    let config = AsciiTable::default();
    let input = vec![row(&["x"])];
    let out = config.format(&input);
    assert!(out.starts_with('┌'));
    assert!(out.ends_with("┘\n"));
}

#[test]
fn unterminated_escape_hides_tail() {
    // An escape run with no closing `m` stays invisible to the end, so only
    // the two characters before it count toward the width.
    let config = AsciiTable::default();
    let input = vec![row(&["ab\u{1b}[0;1"])];
    let expected = "┌────┐\n\
                    │ ab\u{1b}[0;1 │\n\
                    └────┘\n";

    assert_eq!(expected, config.format(&input));
}

#[test]
fn table_config_holds_its_fields() {
    let mut columns = BTreeMap::new();
    columns.insert(0, ColumnConfig::new("name", ConfigAlign::Left));
    let config = TableConfig::new(40, columns.clone());
    assert_eq!(40, config.width);
    assert_eq!(columns, config.columns);
    assert_eq!(80, TableConfig::default().width);
}

#[test]
fn column_config_holds_its_fields() {
    let conf = ColumnConfig::new("age", ConfigAlign::Right);
    assert_eq!("age", conf.header);
    assert_eq!(ConfigAlign::Right, conf.align);
    assert_eq!(ConfigAlign::Left, ConfigAlign::default());
}

#[test]
fn new_table_keeps_its_settings() {
    let config = AsciiTable::new(Align::Center, 25);
    assert_eq!(25, config.max_width);
    assert_eq!(Align::Center, config.default_align);
    let input = vec![row(&["ww"])];
    let expected = "┌────┐\n\
                    │ ww │\n\
                    └────┘\n";
    assert_eq!(expected, config.format(&input));
}
