//! The text tables of `prettytable`, as the library uses them.

use vstd::prelude::*;
use prettytable::{Cell, Row, Table};

verus! {

/// `prettytable::Table`, carried through verified code as it is.
#[verifier::external_type_specification]
#[verifier::external_body]
pub struct ExTable(Table);

/// A line without the `\r` of a `\r\n` ending.
pub open spec fn strip_cr(line: Seq<char>) -> Seq<char> {
    if line.len() > 0 && line.last() == '\r' {
        line.drop_last()
    } else {
        line
    }
}

/// The lines of `text`, the current line having begun with `cur`: a line
/// ends at each `\n` (dropped, with a `\r` before it); the last line
/// needs no ending, and an ending at the very end starts no empty line.
pub open spec fn split_lines(text: Seq<char>, cur: Seq<char>) -> Seq<Seq<char>>
    decreases text.len(),
{
    if text.len() == 0 {
        if cur.len() == 0 {
            Seq::empty()
        } else {
            seq![cur]
        }
    } else if text[0] == '\n' {
        seq![strip_cr(cur)] + split_lines(text.drop_first(), Seq::empty())
    } else {
        split_lines(text.drop_first(), cur.push(text[0]))
    }
}

/// The content that `Cell::new` keeps of a text: its lines, as `str::lines`
/// gives them.
pub open spec fn cell_lines(text: Seq<char>) -> Seq<Seq<char>> {
    split_lines(text, Seq::empty())
}

/// The rows a table holds, each a list of cells, each cell the lines it
/// keeps.
pub uninterp spec fn table_rows(t: Table) -> Seq<Seq<Seq<Seq<char>>>>;

/// The text that a table with these rows, in the default format, prints.
pub uninterp spec fn table_text(rows: Seq<Seq<Seq<Seq<char>>>>) -> Seq<char>;

/// The cells that a row of texts becomes: each text kept as its lines.
pub open spec fn row_cells(row: Seq<Seq<char>>) -> Seq<Seq<Seq<char>>> {
    row.map_values(|c: Seq<char>| cell_lines(c))
}

/// The rows of cells that rows of texts become.
pub open spec fn table_cells(rows: Seq<Seq<Seq<char>>>) -> Seq<Seq<Seq<Seq<char>>>> {
    rows.map_values(|r: Seq<Seq<char>>| row_cells(r))
}

/// `Table::new`: a table with no row.
#[verifier::external_body]
pub(crate) fn table_new() -> (t: Table)
    ensures
        table_rows(t) == Seq::<Seq<Seq<Seq<char>>>>::empty(),
{
    Table::new()
}

/// `Table::add_row`: appends a row made by `Row::new` of one cell per text,
/// each made by `Cell::new`, which keeps the text's lines.
#[verifier::external_body]
pub(crate) fn table_add_row(t: &mut Table, cells: &Vec<String>)
    ensures
        table_rows(*final(t)) == table_rows(*old(t)).push(cells@.map_values(|c: String| cell_lines(c@))),
{
    t.add_row(Row::new(cells.iter().map(|c| Cell::new(c)).collect()));
}

/// `Table::to_string`, through its `Display`: the table's text, which
/// depends on its rows alone; the contract names it and says nothing more.
#[verifier::external_body]
pub(crate) fn table_to_string(t: &Table) -> (s: String)
    ensures
        s@ == table_text(table_rows(*t)),
{
    t.to_string()
}

} // verus!
