use seat_allocator::{parse_seat_row, seat_label, SeatError};

#[test]
fn labels_are_zero_padded() {
    assert_eq!(seat_label('A', 7), "A007");
    assert_eq!(seat_label('A', 42), "A042");
    assert_eq!(seat_label('P', 120), "P120");
    assert_eq!(seat_label('A', 1000), "A1000");
    assert_eq!(seat_label('A', 0), "A000");
}

#[test]
fn rows_are_read_from_labels() {
    assert_eq!(parse_seat_row("A001").unwrap(), 1);
    assert_eq!(parse_seat_row("A060").unwrap(), 60);
    assert_eq!(parse_seat_row("P+12").unwrap(), 12);
    assert_eq!(parse_seat_row("A4294967295").unwrap(), 4294967295);
}

fn refused(label: &str) {
    match parse_seat_row(label) {
        Err(SeatError::FormatFailure { label: l }) => assert_eq!(l, label),
        other => panic!("{} gave {:?}", label, other),
    }
}

#[test]
fn malformed_labels_are_refused() {
    refused("");
    refused("A");
    refused("A+");
    refused("Axyz");
    refused("A12b");
    refused("A-1");
    refused("A000");
    refused("A4294967296");
}
