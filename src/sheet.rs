use vstd::prelude::*;

use umya_spreadsheet::{Style, Worksheet};

use crate::allocation::{pairs_view, views};
use crate::error::SeatError;
use crate::labels::{is_format_failure, label_has_row, parse_seat_row, row_of};

verus! {

#[verifier::external_type_specification]
#[verifier::external_body]
pub struct ExWorksheet(Worksheet);

#[verifier::external_type_specification]
#[verifier::external_body]
pub struct ExStyle(Style);

/// The text of each cell that a worksheet holds, by column and row.
pub uninterp spec fn cell_texts(ws: Worksheet) -> Map<(u32, u32), Seq<char>>;

/// The style of each cell that a worksheet holds, by column and row.
pub uninterp spec fn cell_styles(ws: Worksheet) -> Map<(u32, u32), Style>;

/// The highest row number among the cells that a worksheet holds, 0 when it holds none.
pub uninterp spec fn last_row(ws: Worksheet) -> u32;

/// Relies on umya-spreadsheet's `Worksheet::get_highest_column_and_row`: its second half.
#[verifier::external_body]
fn highest_row(ws: &Worksheet) -> (r: u32)
    ensures
        r == last_row(*ws),
{
    ws.get_highest_column_and_row().1
}

/// Relies on umya-spreadsheet's `Worksheet::get_cell` at column 1 of `row`, and on
/// `Cell::get_value` for the text of the cell found.
#[verifier::external_body]
fn cell_text(ws: &Worksheet, row: u32) -> (r: Option<String>)
    ensures
        match r {
            Some(t) => cell_texts(*ws).contains_key((1, row)) && t@ == cell_texts(*ws)[(1, row)],
            None => !cell_texts(*ws).contains_key((1, row)),
        },
{
    match ws.get_cell((1u32, row)) {
        Some(c) => Some(c.get_value().into_owned()),
        None => None,
    }
}

/// Relies on umya-spreadsheet's `Worksheet::get_cell_mut` at column 1 of `row`, which adds the
/// cell if it is missing and touches no other cell, and on `Cell::set_value_string`, which
/// stores the text as it is given.
#[verifier::external_body]
fn set_cell_text(ws: &mut Worksheet, row: u32, text: &str)
    requires
        row >= 1,
    ensures
        cell_texts(*final(ws)) == cell_texts(*old(ws)).insert((1, row), text@),
        cell_styles(*final(ws)).remove((1, row)) == cell_styles(*old(ws)).remove((1, row)),
        cell_styles(*final(ws)).contains_key((1, row)),
        cell_styles(*old(ws)).contains_key((1, row))
            ==> cell_styles(*final(ws))[(1, row)] == cell_styles(*old(ws))[(1, row)],
{
    ws.get_cell_mut((1u32, row)).set_value_string(text);
}

/// Relies on umya-spreadsheet's `Worksheet::get_cell_mut` at column 1 of `row`, a cell that
/// exists, and on `Cell::set_style`, which replaces its style and nothing else.
#[verifier::external_body]
fn set_cell_style(ws: &mut Worksheet, row: u32, style: &Style)
    requires
        row >= 1,
        cell_texts(*old(ws)).contains_key((1, row)),
    ensures
        cell_texts(*final(ws)) == cell_texts(*old(ws)),
        cell_styles(*final(ws)) == cell_styles(*old(ws)).insert((1, row), *style),
{
    ws.get_cell_mut((1u32, row)).set_style(style.clone());
}

/// The text of the first-column cell of `row`; empty when the sheet holds no such cell.
pub open spec fn text_at(m: Map<(u32, u32), Seq<char>>, row: u32) -> Seq<char> {
    if m.contains_key((1, row)) {
        m[(1, row)]
    } else {
        Seq::empty()
    }
}

/// The first-column texts of rows `1..=n`, top to bottom, one per row.
pub open spec fn column_values(m: Map<(u32, u32), Seq<char>>, n: nat) -> Seq<Seq<char>> {
    Seq::new(n, |i: int| text_at(m, (i + 1) as u32))
}

/// The cell that a seating pair is written to: column 1 of the row its label names.
pub open spec fn seat_cell(p: (Seq<char>, Seq<char>)) -> (u32, u32) {
    (1, row_of(p.0) as u32)
}

/// The cell texts after each pair of `a`, in order, put its name into its seat's cell.
pub open spec fn written(m: Map<(u32, u32), Seq<char>>, a: Seq<(Seq<char>, Seq<char>)>) -> Map<(u32, u32), Seq<char>>
    decreases a.len(),
{
    if a.len() == 0 {
        m
    } else {
        written(m, a.drop_last()).insert(seat_cell(a.last()), a.last().1)
    }
}

/// The cell styles after each pair of `a`, in order, gave its seat's cell the style `st`.
pub open spec fn styled(m: Map<(u32, u32), Style>, a: Seq<(Seq<char>, Seq<char>)>, st: Style) -> Map<(u32, u32), Style>
    decreases a.len(),
{
    if a.len() == 0 {
        m
    } else {
        styled(m, a.drop_last(), st).insert(seat_cell(a.last()), st)
    }
}

/// The student names of a roster sheet: the text of the first-column cell of each row, from
/// row 1 down to its highest row; a row without such a cell gives an empty name.
pub fn read_student(sheet: &Worksheet) -> (r: Vec<String>)
    ensures
        views(r@) == column_values(cell_texts(*sheet), last_row(*sheet) as nat),
{
    let max_row = highest_row(sheet);
    let ghost m = cell_texts(*sheet);
    let mut names: Vec<String> = Vec::new();
    let mut row: u32 = 1;
    while row <= max_row
        invariant
            1 <= row,
            row <= max_row + 1,
            m == cell_texts(*sheet),
            max_row == last_row(*sheet),
            views(names@) == column_values(m, (row - 1) as nat),
        decreases max_row + 1 - row,
    {
        let ghost before = views(names@);
        let t = match cell_text(sheet, row) {
            Some(t) => t,
            None => String::new(),
        };
        let ghost tv = t@;
        names.push(t);
        assert(views(names@) =~= before.push(tv));
        assert(column_values(m, row as nat) =~= column_values(m, (row - 1) as nat).push(tv));
        if row == u32::MAX {
            return names;
        }
        row = row + 1;
    }
    names
}

/// Writes each seating pair into the seating sheet: the name, as it is, goes into the
/// first-column cell of the row that the label names, and that cell takes `style`; no other
/// cell changes. Stops at the first label without a row number, with the pairs before it
/// written.
pub fn write_seats_to_excel(sheet: &mut Worksheet, assignments: &[(String, String)], style: &Style)
    -> (r: Result<(), SeatError>)
    ensures
        match r {
            Ok(()) => (forall|j: int| 0 <= j < assignments@.len() ==> label_has_row(#[trigger] assignments@[j].0@))
                && cell_texts(*final(sheet)) == written(cell_texts(*old(sheet)), pairs_view(assignments@))
                && cell_styles(*final(sheet)) == styled(cell_styles(*old(sheet)), pairs_view(assignments@), *style),
            Err(e) => exists|j: int| 0 <= j < assignments@.len()
                && !label_has_row(#[trigger] assignments@[j].0@)
                && is_format_failure(e, assignments@[j].0@)
                && (forall|q: int| 0 <= q < j ==> label_has_row(#[trigger] assignments@[q].0@))
                && cell_texts(*final(sheet)) == written(cell_texts(*old(sheet)), pairs_view(assignments@.subrange(0, j)))
                && cell_styles(*final(sheet)) == styled(cell_styles(*old(sheet)), pairs_view(assignments@.subrange(0, j)), *style),
        },
{
    let ghost t0 = cell_texts(*sheet);
    let ghost s0 = cell_styles(*sheet);
    let mut i: usize = 0;
    while i < assignments.len()
        invariant
            i <= assignments@.len(),
            t0 == cell_texts(*old(sheet)),
            s0 == cell_styles(*old(sheet)),
            forall|q: int| 0 <= q < i ==> label_has_row(#[trigger] assignments@[q].0@),
            cell_texts(*sheet) == written(t0, pairs_view(assignments@.subrange(0, i as int))),
            cell_styles(*sheet) == styled(s0, pairs_view(assignments@.subrange(0, i as int)), *style),
        decreases assignments@.len() - i,
    {
        let seat = &assignments[i].0;
        let name = &assignments[i].1;
        let row = match parse_seat_row(seat.as_str()) {
            Ok(row) => row,
            Err(e) => {
                return Err(e);
            },
        };
        let ghost before = cell_styles(*sheet);
        set_cell_text(sheet, row, name.as_str());
        let ghost middle = cell_styles(*sheet);
        set_cell_style(sheet, row, style);
        proof {
            let k = (1u32, row);
            assert(middle.insert(k, *style) =~= before.insert(k, *style)) by {
                assert forall|x: (u32, u32)| #[trigger] middle.insert(k, *style).contains_key(x) == before.insert(k, *style).contains_key(x) by {
                    if x != k {
                        assert(middle.remove(k).contains_key(x) == before.remove(k).contains_key(x));
                    }
                }
                assert forall|x: (u32, u32)| middle.insert(k, *style).contains_key(x) && x != k
                    implies #[trigger] middle.insert(k, *style)[x] == before.insert(k, *style)[x] by {
                    assert(middle.remove(k)[x] == before.remove(k)[x]);
                }
            }
            let a = pairs_view(assignments@.subrange(0, i + 1));
            assert(a.drop_last() =~= pairs_view(assignments@.subrange(0, i as int)));
            assert(a.last() == (seat@, name@));
            assert(seat_cell(a.last()) == k);
        }
        i = i + 1;
    }
    assert(assignments@.subrange(0, assignments@.len() as int) =~= assignments@);
    Ok(())
}

} // verus!
