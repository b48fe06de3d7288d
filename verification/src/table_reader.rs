//! Reading the rows and cells of a pipe-delimited table.
use vstd::prelude::*;
use crate::text::{chars_of, split, split_at, texts, trim, trimmed};

verus! {

/// A row of a table, cell by cell.
#[derive(Debug)]
pub struct Row {
    pub cells: Vec<String>,
}

/// A table, row by row.
#[derive(Debug)]
pub struct Table {
    pub rows: Vec<Row>,
}

impl View for Row {
    type V = Seq<Seq<char>>;

    open spec fn view(&self) -> Seq<Seq<char>> {
        self.cells@.map_values(|cell: String| cell@)
    }
}

/// The cells of each row of a sequence of rows.
pub open spec fn rows_view(rows: Seq<Row>) -> Seq<Seq<Seq<char>>> {
    rows.map_values(|row: Row| row@)
}

impl View for Table {
    type V = Seq<Seq<Seq<char>>>;

    open spec fn view(&self) -> Seq<Seq<Seq<char>>> {
        rows_view(self.rows@)
    }
}

/// The cells of one line of text: the texts between one `|` and the next,
/// without the white space around them. What stands before the first `|` and
/// after the last one is no cell. A line without any `|` is no row.
pub open spec fn cells_of(line: Seq<char>) -> Option<Seq<Seq<char>>> {
    let pieces = split(line, '|');
    if pieces.len() < 2 {
        None
    } else {
        Some(Seq::new((pieces.len() - 2) as nat, |i: int| trimmed(pieces[i + 1])))
    }
}

/// The rows of the lines `lines[from..]`.
pub open spec fn rows_from(lines: Seq<Seq<char>>, from: int) -> Seq<Seq<Seq<char>>>
    decreases lines.len() - from,
{
    if 0 <= from < lines.len() {
        match cells_of(lines[from]) {
            Some(cells) => seq![cells] + rows_from(lines, from + 1),
            None => rows_from(lines, from + 1),
        }
    } else {
        Seq::empty()
    }
}

/// The rows of a table text: one for each line that holds a `|`.
pub open spec fn rows_of(contents: Seq<char>) -> Seq<Seq<Seq<char>>> {
    rows_from(split(contents, '\n'), 0)
}

/// The row that `line` writes, if it writes one.
fn row_of(line: &Vec<char>) -> (r: Option<Row>)
    ensures
        match cells_of(line@) {
            Some(cells) => r matches Some(row) && row@ == cells,
            None => r is None,
        },
{
    let pieces = split_at(line, '|');
    if pieces.len() < 2 {
        return None;
    }
    let ghost all = split(line@, '|');
    let mut cells: Vec<String> = Vec::new();
    let mut i: usize = 1;
    while i < pieces.len() - 1
        invariant
            1 <= i <= pieces.len() - 1,
            texts(pieces@) == all,
            cells.len() == i - 1,
            forall|k: int| 0 <= k < cells.len() ==> (#[trigger] cells@[k])@ == trimmed(all[k + 1]),
        decreases pieces.len() - i,
    {
        let cell = trim(&pieces[i]);
        assert(pieces@[i as int]@ == all[i as int]);
        cells.push(cell);
        i += 1;
    }
    let row = Row { cells };
    assert(row@ =~= cells_of(line@)->Some_0);
    Some(row)
}

/// Reads a table: each line that holds a `|` is a row, and its cells are
/// the trimmed texts between one `|` and the next.
pub fn parse(contents: &String) -> (table: Table)
    ensures
        table@ == rows_of(contents@),
{
    let chars = chars_of(contents.as_str());
    let lines = split_at(&chars, '\n');
    let ghost all = split(contents@, '\n');
    let mut rows: Vec<Row> = Vec::new();
    let mut i: usize = 0;
    proof {
        assert(rows_view(rows@) =~= Seq::<Seq<Seq<char>>>::empty());
        assert(Seq::<Seq<Seq<char>>>::empty() + rows_from(all, 0) =~= rows_from(all, 0));
    }
    while i < lines.len()
        invariant
            i <= lines.len(),
            texts(lines@) == all,
            all == split(contents@, '\n'),
            rows_view(rows@) + rows_from(all, i as int) == rows_of(contents@),
        decreases lines.len() - i,
    {
        assert(lines@[i as int]@ == all[i as int]);
        match row_of(&lines[i]) {
            Some(row) => {
                proof {
                    let rest = rows_from(all, i + 1);
                    assert(rows_view(rows@.push(row)) =~= rows_view(rows@).push(row@));
                    assert(rows_view(rows@).push(row@) + rest =~= rows_view(rows@) + (seq![row@]
                        + rest));
                }
                rows.push(row);
            },
            None => {},
        }
        i += 1;
    }
    proof {
        assert(rows_view(rows@) + Seq::<Seq<Seq<char>>>::empty() =~= rows_view(rows@));
    }
    Table { rows }
}

} // verus!
