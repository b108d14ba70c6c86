use kwik::file::csv::{RowData, WriteRow};
use kwik::table::{Align, Cell, Row, Style, Table};

#[test]
fn table_header_is_followed_by_spacer() {
    let mut table = Table::default();

    let header = Row::default().push("Header 1", Align::Center, Style::Bold);

    table.set_header(header);

    let mut stdout = Vec::new();
    table.print(&mut stdout);

    assert_eq!(stdout, b"| \x1B[1mHeader 1\x1B[0m |\n|----------|\n");
}

#[test]
fn table_prints_row() {
    let mut table = Table::default();

    let row = Row::default().push("Row 1", Align::Left, Style::Normal);

    table.add_row(row);

    let mut stdout = Vec::new();
    table.print(&mut stdout);

    assert_eq!(stdout, b"| Row 1 |\n");
}

#[test]
fn table_prints_spacer() {
    let mut table = Table::default();

    let row1 = Row::default().push("Row 1", Align::Left, Style::Normal);
    let row2 = Row::default().push("Row 2", Align::Left, Style::Normal);

    table.add_row(row1);
    table.add_spacer();
    table.add_row(row2);

    let mut stdout = Vec::new();
    table.print(&mut stdout);

    assert_eq!(stdout, b"| Row 1 |\n|-------|\n| Row 2 |\n");
}

#[test]
fn table_centers_header_over_wider_rows() {
    let mut table = Table::default();

    let header = Row::default().push("Header 1", Align::Center, Style::Bold);
    let row = Row::default().push("Longer row 1", Align::Left, Style::Normal);

    table.set_header(header);
    table.add_row(row);

    let mut stdout = Vec::new();
    table.print(&mut stdout);

    assert_eq!(
        stdout,
        b"| \x1B[1m  Header 1  \x1B[0m |\n|--------------|\n| Longer row 1 |\n"
    );
}

#[test]
fn table_max_column_lens() {
    let mut table = Table::default();

    table.add_row(
        Row::default()
            .push("a", Align::Left, Style::Normal)
            .push("bbb", Align::Right, Style::Normal),
    );
    table.add_row(
        Row::default()
            .push("cc", Align::Left, Style::Normal)
            .push("d", Align::Right, Style::Normal),
    );

    assert_eq!(table.max_column_lens(), vec![2, 3]);

    let mut stdout = Vec::new();
    table.print(&mut stdout);
    assert_eq!(stdout, b"| a  | bbb |\n| cc |   d |\n");
}

#[test]
fn cell_sizes_and_layout() {
    let cell = Cell::new("ab".to_string(), Align::Right, Style::Normal);
    assert_eq!(cell.size(), 2);
    assert_eq!(cell.to_sized_string(5), "   ab");

    let cell = Cell::new("ab".to_string(), Align::Center, Style::Normal);
    assert_eq!(cell.to_sized_string(5), " ab  ");

    let cell = Cell::new("ab".to_string(), Align::Left, Style::Bold);
    assert_eq!(cell.to_sized_string(3), "\x1B[1mab \x1B[0m");
}

#[test]
fn row_lengths_and_blank() {
    let row = Row::default();
    assert!(row.is_empty());

    let row = row.push("abc", Align::Left, Style::Normal).blank();
    assert_eq!(row.len(), 2);
    assert_eq!(row.get_column_size(0), 3);
    assert_eq!(row.get_column_size(1), 0);
}

#[test]
fn table_rows_as_csv_fields() {
    let mut table = Table::default();
    assert!(table.header().is_none());
    table.set_header(Row::default().push("h1", Align::Left, Style::Bold).push("h2", Align::Right, Style::Normal));
    table.add_row(Row::default().push("a", Align::Left, Style::Normal).push("b", Align::Center, Style::Normal));

    let mut data = RowData::new();
    table.header().unwrap().as_row(&mut data).unwrap();
    assert_eq!(data.fields(), &vec!["h1".to_string(), "h2".to_string()]);

    assert_eq!(table.rows().len(), 1);
    let mut data = RowData::new();
    table.rows()[0].as_row(&mut data).unwrap();
    assert_eq!(data.get(0).unwrap(), "a");
    assert_eq!(data.get(1).unwrap(), "b");
}

#[test]
fn row_size_counts_borders_values_and_bold_codes() {
    let row = Row::default()
        .push("ab", Align::Left, Style::Bold)
        .push("c", Align::Center, Style::Normal)
        .push("def", Align::Right, Style::Bold);
    assert_eq!(row.size(), 4 + 6 + 3 * 2 + 8 * 2);
    assert_eq!(Row::default().size(), 4);
}
