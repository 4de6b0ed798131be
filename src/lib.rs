//! Random seating of a class roster over numbered seats.
//!
//! Seats are labelled by a one-character prefix and a zero-padded ordinal (`A001`, `A002`, ...).
//! `allocation` checks that the students fit once the excluded seats are removed, shuffles
//! them and pairs them with the free seats in ascending order; every other seat gets an empty
//! name. `sheet` reads the roster from the first column of a worksheet and writes a seating
//! back into the first column of another, one row per seat ordinal, touching no other cell.
//! `settings` reads the excluded labels out of a settings text. `seating_facts` proves what
//! every seating, and every write of one, guarantees.

mod allocation;
mod error;
mod labels;
mod seating_facts;
mod settings;
mod sheet;

pub use allocation::{
    allocate, allocate_shuffled, assign_students_to_tags, excluded_set, fits, pairs_view, seated,
    seating, unseated, views, SEAT_PREFIX,
};
pub use error::SeatError;
pub use labels::{label_has_row, label_of, lemma_label_injective, lemma_label_row, parse_seat_row, row_of, seat_label};
pub use seating_facts::{
    labels_of, lemma_excluded_seats_stay_empty, lemma_occupants_are_roster,
    lemma_seated_are_first_free, lemma_seating_covers_all_seats, lemma_write_order_irrelevant, lemma_write_then_read,
    lemma_write_touches_only_seat_cells, nonempty_names, occupants_of, universe,
};
pub use settings::{excluded_labels, is_separator, pieces, trimmed};
pub use sheet::{
    cell_styles, cell_texts, column_values, last_row, read_student, seat_cell, styled, text_at,
    write_seats_to_excel, written,
};
