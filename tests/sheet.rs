use seat_allocator::{assign_students_to_tags, read_student, write_seats_to_excel, SeatError};
use umya_spreadsheet::{Font, Style};

#[test]
fn roster_column_is_read_top_down() {
    let mut book = umya_spreadsheet::new_file();
    let ws = book.get_sheet_by_name_mut("Sheet1").unwrap();
    ws.get_cell_mut("A1").set_value("Alice");
    ws.get_cell_mut("A3").set_value("Bob");
    ws.get_cell_mut("B5").set_value("note");
    let names = read_student(book.get_sheet_by_name("Sheet1").unwrap());
    let expected: Vec<String> = vec!["Alice", "", "Bob", "", ""].into_iter().map(String::from).collect();
    assert_eq!(names, expected);
}

#[test]
fn empty_sheet_has_no_names() {
    let book = umya_spreadsheet::new_file();
    let names = read_student(book.get_sheet_by_name("Sheet1").unwrap());
    assert!(names.is_empty());
}

#[test]
fn written_seats_read_back() {
    let roster = vec!["Ann".to_string(), "Ben".to_string(), "Cid".to_string()];
    let excluded = vec!["A002".to_string()];
    let r = assign_students_to_tags(&roster, 5, &excluded).unwrap();
    let mut book = umya_spreadsheet::new_file();
    let ws = book.get_sheet_by_name_mut("Sheet1").unwrap();
    write_seats_to_excel(ws, &r, &Style::default()).unwrap();
    let ws = book.get_sheet_by_name("Sheet1").unwrap();
    for (label, name) in &r {
        let row: u32 = label[1..].parse().unwrap();
        assert_eq!(ws.get_cell((1u32, row)).unwrap().get_value(), name.as_str());
    }
    assert_eq!(ws.get_cell((1u32, 2u32)).unwrap().get_value(), "");
}

#[test]
fn bad_label_stops_the_write() {
    let pairs = vec![
        ("A001".to_string(), "x".to_string()),
        ("Seat".to_string(), "y".to_string()),
        ("A003".to_string(), "z".to_string()),
    ];
    let mut book = umya_spreadsheet::new_file();
    let ws = book.get_sheet_by_name_mut("Sheet1").unwrap();
    let r = write_seats_to_excel(ws, &pairs, &Style::default());
    match r {
        Err(SeatError::FormatFailure { label }) => assert_eq!(label, "Seat"),
        other => panic!("unexpected {:?}", other),
    }
    let ws = book.get_sheet_by_name("Sheet1").unwrap();
    assert_eq!(ws.get_cell("A1").unwrap().get_value(), "x");
    assert!(ws.get_cell("A3").is_none());
}

#[test]
fn names_are_written_as_given() {
    let pairs = vec![
        ("A001".to_string(), "007".to_string()),
        ("A002".to_string(), "true".to_string()),
        ("A003".to_string(), "1.50".to_string()),
    ];
    let mut book = umya_spreadsheet::new_file();
    let ws = book.get_sheet_by_name_mut("Sheet1").unwrap();
    write_seats_to_excel(ws, &pairs, &Style::default()).unwrap();
    let names = read_student(book.get_sheet_by_name("Sheet1").unwrap());
    let expected: Vec<String> = vec!["007", "true", "1.50"].into_iter().map(String::from).collect();
    assert_eq!(names, expected);
}

#[test]
fn later_pair_for_a_row_wins() {
    let pairs = vec![("A002".to_string(), "x".to_string()), ("B2".to_string(), "y".to_string())];
    let mut book = umya_spreadsheet::new_file();
    let ws = book.get_sheet_by_name_mut("Sheet1").unwrap();
    write_seats_to_excel(ws, &pairs, &Style::default()).unwrap();
    let ws = book.get_sheet_by_name("Sheet1").unwrap();
    assert_eq!(ws.get_cell("A2").unwrap().get_value(), "y");
}

#[test]
fn written_cells_take_the_style_and_others_stay() {
    let mut style = Style::default();
    let mut font = Font::default();
    font.set_bold(true);
    style.set_font(font);
    let mut book = umya_spreadsheet::new_file();
    let ws = book.get_sheet_by_name_mut("Sheet1").unwrap();
    ws.get_cell_mut("B1").set_value("keep");
    ws.get_cell_mut("A4").set_value("old");
    let pairs = vec![("A001".to_string(), "Ann".to_string()), ("A002".to_string(), String::new())];
    write_seats_to_excel(ws, &pairs, &style).unwrap();
    let ws = book.get_sheet_by_name("Sheet1").unwrap();
    assert_eq!(ws.get_cell("A1").unwrap().get_style(), &style);
    assert_eq!(ws.get_cell("A2").unwrap().get_style(), &style);
    assert_eq!(ws.get_cell("B1").unwrap().get_value(), "keep");
    assert_eq!(ws.get_cell("A4").unwrap().get_value(), "old");
    assert_ne!(ws.get_cell("B1").unwrap().get_style(), &style);
}

#[test]
fn order_of_pairs_does_not_change_the_sheet() {
    let pairs = vec![
        ("A001".to_string(), "Ann".to_string()),
        ("A002".to_string(), String::new()),
        ("A003".to_string(), "Ben".to_string()),
    ];
    let mut reversed = pairs.clone();
    reversed.reverse();
    let mut first = umya_spreadsheet::new_file();
    let mut second = umya_spreadsheet::new_file();
    write_seats_to_excel(first.get_sheet_by_name_mut("Sheet1").unwrap(), &pairs, &Style::default()).unwrap();
    write_seats_to_excel(second.get_sheet_by_name_mut("Sheet1").unwrap(), &reversed, &Style::default()).unwrap();
    let a = read_student(first.get_sheet_by_name("Sheet1").unwrap());
    let b = read_student(second.get_sheet_by_name("Sheet1").unwrap());
    assert_eq!(a, b);
    assert_eq!(a, vec!["Ann".to_string(), String::new(), "Ben".to_string()]);
}
