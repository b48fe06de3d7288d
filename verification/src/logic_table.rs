//! Decision tables: which columns are inputs and which are outputs, and which
//! rows a context matches.
use vstd::prelude::*;
use vstd::hash_map::StringHashMap;
use crate::context::{document, resolve, var_to_operand, Json};
use crate::executor::{evaluation, try_interpret};
use crate::expression::{
    lemma_expression_starts_with_operand, lemma_expression_yields_its_value, Expr,
};
use crate::fault::Fault;
use crate::grammar::tokens_of;
use crate::operand::{Operand, Operator, Term};
use crate::postfix::{binding, postfix_of};
use crate::table_reader::{rows_of, rows_view};
use crate::text::chars_of;
use crate::tokenizer::Tokenizer;

pub use crate::table_reader::Row;

verus! {

/// The input columns and the output columns of a table, each with its name
/// and the name of its declared type.
#[derive(Debug)]
pub struct Definition {
    pub inputs: Vec<(String, String)>,
    pub outputs: Vec<(String, String)>,
}

/// A decision table: its rows, and its columns by role.
#[derive(Debug)]
pub struct Table {
    pub rows: Vec<Row>,
    pub defs: Definition,
}

/// A column by name and declared type.
pub type Column = (Seq<char>, Seq<char>);

/// The names and types of a sequence of columns.
pub open spec fn columns_view(columns: Seq<(String, String)>) -> Seq<Column> {
    columns.map_values(|c: (String, String)| (c.0@, c.1@))
}

/// The row of column names.
pub const HEADER_ROW: usize = 0;

/// The row that marks each column as input or output.
pub const IO_ROW: usize = 1;

/// The row of declared types.
pub const TYPE_ROW: usize = 2;

/// The first row that holds a rule.
pub const LOGIC_START_ROW: usize = 4;

/// The mark of an input column: a cell that begins and ends with `-`.
pub open spec fn marks_input(cell: Seq<char>) -> bool {
    cell.len() >= 1 && cell[0] == '-' && cell[cell.len() - 1] == '-'
}

/// The mark of an output column: a cell that ends in `-:` and is no mark of
/// an input column.
pub open spec fn marks_output(cell: Seq<char>) -> bool {
    !marks_input(cell) && cell.len() >= 2 && cell[cell.len() - 2] == '-' && cell[cell.len() - 1]
        == ':'
}

/// Whether the rows hold a header: a row of names, and below it a row of
/// marks and a row of types that are no shorter.
pub open spec fn has_header(rows: Seq<Seq<Seq<char>>>) -> bool {
    rows.len() > TYPE_ROW && rows[IO_ROW as int].len() >= rows[HEADER_ROW as int].len()
        && rows[TYPE_ROW as int].len() >= rows[HEADER_ROW as int].len()
}

/// The columns among the first `upto` that are inputs (`inputs` set) or
/// outputs, in their order.
pub open spec fn columns_of(rows: Seq<Seq<Seq<char>>>, inputs: bool, upto: int) -> Seq<Column>
    decreases upto,
{
    if upto <= 0 {
        Seq::empty()
    } else {
        let before = columns_of(rows, inputs, upto - 1);
        let mark = rows[IO_ROW as int][upto - 1];
        if (inputs && marks_input(mark)) || (!inputs && marks_output(mark)) {
            before.push((rows[HEADER_ROW as int][upto - 1], rows[TYPE_ROW as int][upto - 1]))
        } else {
            before
        }
    }
}

/// What a cell of the second row marks its column as.
enum Role {
    Input,
    Output,
    Neither,
}

/// What `cell` marks its column as.
fn role_of(cell: &String) -> (r: Role)
    ensures
        r is Input <==> marks_input(cell@),
        r is Output <==> marks_output(cell@),
{
    let chars = chars_of(cell.as_str());
    let n = chars.len();
    if n >= 1 && chars[0] == '-' && chars[n - 1] == '-' {
        Role::Input
    } else if n >= 2 && chars[n - 2] == '-' && chars[n - 1] == ':' {
        Role::Output
    } else {
        Role::Neither
    }
}

/// Reads a decision table, if the text holds its header: the rows as
/// [`crate::table_reader::parse`] reads them, and the input and output
/// columns that the second row marks, each with its name from the first row
/// and its type from the third.
pub fn try_parse(contents: &String) -> (r: Option<Table>)
    ensures
        match r {
            Some(table) => {
                &&& has_header(rows_of(contents@))
                &&& rows_view(table.rows@) == rows_of(contents@)
                &&& columns_view(table.defs.inputs@) == columns_of(
                    rows_of(contents@),
                    true,
                    rows_of(contents@)[HEADER_ROW as int].len() as int,
                )
                &&& columns_view(table.defs.outputs@) == columns_of(
                    rows_of(contents@),
                    false,
                    rows_of(contents@)[HEADER_ROW as int].len() as int,
                )
            },
            None => !has_header(rows_of(contents@)),
        },
{
    let read = crate::table_reader::parse(contents);
    let rows = read.rows;
    let ghost all = rows_of(contents@);
    if rows.len() <= TYPE_ROW {
        return None;
    }
    assert(rows@[HEADER_ROW as int]@ == all[HEADER_ROW as int]);
    assert(rows@[IO_ROW as int]@ == all[IO_ROW as int]);
    assert(rows@[TYPE_ROW as int]@ == all[TYPE_ROW as int]);
    let width = rows[HEADER_ROW].cells.len();
    if rows[IO_ROW].cells.len() < width || rows[TYPE_ROW].cells.len() < width {
        return None;
    }
    let mut inputs: Vec<(String, String)> = Vec::new();
    let mut outputs: Vec<(String, String)> = Vec::new();
    proof {
        assert(columns_view(inputs@) =~= Seq::<Column>::empty());
        assert(columns_view(outputs@) =~= Seq::<Column>::empty());
    }
    let mut col: usize = 0;
    while col < width
        invariant
            col <= width,
            rows_view(rows@) == all,
            rows.len() > TYPE_ROW,
            width == rows@[HEADER_ROW as int].cells.len(),
            rows@[IO_ROW as int].cells.len() >= width,
            rows@[TYPE_ROW as int].cells.len() >= width,
            columns_view(inputs@) == columns_of(all, true, col as int),
            columns_view(outputs@) == columns_of(all, false, col as int),
        decreases width - col,
    {
        assert(all[HEADER_ROW as int][col as int] == rows@[HEADER_ROW as int].cells@[col as int]@);
        assert(all[IO_ROW as int][col as int] == rows@[IO_ROW as int].cells@[col as int]@);
        assert(all[TYPE_ROW as int][col as int] == rows@[TYPE_ROW as int].cells@[col as int]@);
        match role_of(&rows[IO_ROW].cells[col]) {
            Role::Input => {
                let column = (
                    rows[HEADER_ROW].cells[col].clone(),
                    rows[TYPE_ROW].cells[col].clone(),
                );
                assert(columns_view(inputs@.push(column)) =~= columns_view(inputs@).push(
                    (column.0@, column.1@),
                ));
                inputs.push(column);
            },
            Role::Output => {
                let column = (
                    rows[HEADER_ROW].cells[col].clone(),
                    rows[TYPE_ROW].cells[col].clone(),
                );
                assert(columns_view(outputs@.push(column)) =~= columns_view(outputs@).push(
                    (column.0@, column.1@),
                ));
                outputs.push(column);
            },
            Role::Neither => {},
        }
        col += 1;
    }
    Some(Table { rows, defs: Definition { inputs, outputs } })
}

/// Reads a decision table from a text that holds its header.
pub fn parse(contents: &String) -> (table: Table)
    requires
        has_header(rows_of(contents@)),
    ensures
        rows_view(table.rows@) == rows_of(contents@),
        columns_view(table.defs.inputs@) == columns_of(
            rows_of(contents@),
            true,
            rows_of(contents@)[HEADER_ROW as int].len() as int,
        ),
        columns_view(table.defs.outputs@) == columns_of(
            rows_of(contents@),
            false,
            rows_of(contents@)[HEADER_ROW as int].len() as int,
        ),
{
    try_parse(contents).unwrap()
}

/// What a cell, a row or a table comes to.
pub enum Verdict {
    /// The predicate holds.
    Match,
    /// The predicate does not hold.
    NoMatch,
    /// A cell cannot be read as an expression.
    Fault(Fault),
    /// There is nothing to evaluate: a cell is missing from its row, or an
    /// operator in a cell lacks an operand.
    Halt,
}

/// The tokens of the predicate that the cell text `cell` states about
/// `value`. A cell that starts with an operator is the rest of a comparison
/// with `value` on the left; any other cell is compared with `value` for
/// equality.
pub open spec fn predicate(cell: Seq<char>, value: Term) -> Result<Seq<Term>, Fault> {
    match tokens_of(cell) {
        Ok(tokens) => Ok(
            if tokens[0] is Operator {
                seq![value] + tokens
            } else {
                seq![value, Term::Operator(Operator::E)] + tokens
            },
        ),
        Err(fault) => Err(fault),
    }
}

/// Whether the cell `cell` of the input column `name` holds in `doc`: its
/// predicate about the value of `name`, in postfix order, leaves `true` at
/// the bottom of the evaluation stack.
pub open spec fn cell_verdict(cell: Seq<char>, name: Seq<char>, doc: Json) -> Verdict {
    match predicate(cell, resolve(doc, name).operand()) {
        Ok(tokens) => match postfix_of(tokens) {
            Ok(postfix) => match evaluation(postfix, doc) {
                Some(stack) => if stack.len() > 0 && stack[0] == Term::Boolean(true) {
                    Verdict::Match
                } else {
                    Verdict::NoMatch
                },
                None => Verdict::Halt,
            },
            Err(fault) => Verdict::Fault(fault),
        },
        Err(fault) => Verdict::Fault(fault),
    }
}

/// What a cell means. A cell that holds an operator and then an expression
/// holds exactly when the operator makes `true` of the value of its column
/// and the value of the expression. A cell that holds an expression alone
/// holds exactly when the value of its column equals that of the
/// expression. In both, the expression has to bind more tightly than the
/// operator that joins it to the column.
pub proof fn lemma_cell_compares(
    cell: Seq<char>,
    name: Seq<char>,
    doc: Json,
    operator: Option<Operator>,
    e: Expr,
)
    requires
        e.by_binding(),
        match operator {
            Some(op) => tokens_of(cell) == Ok::<Seq<Term>, Fault>(
                seq![Term::Operator(op)] + e.infix(),
            ) && e.strength() > binding(op),
            None => tokens_of(cell) == Ok::<Seq<Term>, Fault>(e.infix()) && e.strength() > binding(
                Operator::E,
            ),
        },
    ensures
        ({
            let op = match operator {
                Some(op) => op,
                None => Operator::E,
            };
            let value = resolve(doc, name).operand();
            cell_verdict(cell, name, doc) == if Term::apply(op, value, e.value(doc))
                == Term::Boolean(true) {
                Verdict::Match
            } else {
                Verdict::NoMatch
            }
        }),
{
    let op = match operator {
        Some(op) => op,
        None => Operator::E,
    };
    let value = resolve(doc, name).operand();
    let whole = Expr::Binary(Box::new(Expr::Leaf(value)), op, Box::new(e));
    let left = Expr::Leaf(value);
    assert(left.by_binding());
    assert(left.strength() >= binding(op));
    assert(whole.by_binding());
    assert(left.infix() == seq![value]);
    assert(whole.infix() == left.infix() + seq![Term::Operator(op)] + e.infix());
    lemma_expression_starts_with_operand(e);
    lemma_expression_yields_its_value(whole, doc);
    let tokens = tokens_of(cell)->Ok_0;
    match operator {
        Some(o) => {
            assert(tokens[0] == Term::Operator(o));
            assert(seq![value] + tokens =~= whole.infix());
        },
        None => {
            assert(tokens[0] == e.infix()[0]);
            assert(seq![value, Term::Operator(Operator::E)] + tokens =~= whole.infix());
        },
    }
    assert(left.value(doc) == value);
    assert(whole.value(doc) == Term::apply(op, value, e.value(doc)));
    assert(predicate(cell, value) == Ok::<Seq<Term>, Fault>(whole.infix()));
    let stack = seq![whole.value(doc)];
    assert(evaluation(whole.postfix(), doc) == Some(stack));
    assert(stack.len() > 0 && stack[0] == whole.value(doc));
}

/// Whether the input cells of `row` from column `col` on all hold, taken
/// from left to right up to the first that does not.
pub open spec fn row_verdict(row: Seq<Seq<char>>, inputs: Seq<Column>, doc: Json, col: int) -> Verdict
    decreases inputs.len() - col,
{
    if 0 <= col < inputs.len() {
        if col >= row.len() {
            Verdict::Halt
        } else {
            match cell_verdict(row[col], inputs[col].0, doc) {
                Verdict::Match => row_verdict(row, inputs, doc, col + 1),
                other => other,
            }
        }
    } else {
        Verdict::Match
    }
}

/// What a matching row gives out: under the name of each of the first
/// `upto` output columns the text of its cell, which stands `offset` cells
/// further right. Of two columns of one name the later one counts.
pub open spec fn output_of(row: Seq<Seq<char>>, offset: int, outputs: Seq<Column>, upto: int) -> Map<
    Seq<char>,
    Term,
>
    decreases upto,
{
    if upto <= 0 {
        Map::empty()
    } else {
        output_of(row, offset, outputs, upto - 1).insert(
            outputs[upto - 1].0,
            Term::Text(row[offset + upto - 1]),
        )
    }
}

/// What running a table comes to.
pub enum Outcome {
    /// What the matching rows give out, in the order of the rows.
    Rows(Seq<Map<Seq<char>, Term>>),
    /// A cell cannot be read as an expression.
    Fault(Fault),
    /// There was nothing to evaluate.
    Halt,
}

impl Outcome {
    /// This outcome, after `first` was given out before it.
    pub open spec fn after(self, first: Map<Seq<char>, Term>) -> Outcome {
        match self {
            Outcome::Rows(rest) => Outcome::Rows(seq![first] + rest),
            other => other,
        }
    }

    /// This outcome, after `firsts` were given out before it.
    pub open spec fn after_all(self, firsts: Seq<Map<Seq<char>, Term>>) -> Outcome {
        match self {
            Outcome::Rows(rest) => Outcome::Rows(firsts + rest),
            other => other,
        }
    }
}

/// What the rows `rows[from..]` come to: each row whose input cells all hold
/// gives out its output cells. The first cell that cannot be read ends the
/// run with its fault.
pub open spec fn run_from(
    rows: Seq<Seq<Seq<char>>>,
    inputs: Seq<Column>,
    outputs: Seq<Column>,
    doc: Json,
    from: int,
) -> Outcome
    decreases rows.len() - from,
{
    if 0 <= from < rows.len() {
        match row_verdict(rows[from], inputs, doc, 0) {
            Verdict::Match => if rows[from].len() < inputs.len() + outputs.len() {
                Outcome::Halt
            } else {
                run_from(rows, inputs, outputs, doc, from + 1).after(
                    output_of(rows[from], inputs.len() as int, outputs, outputs.len() as int),
                )
            },
            Verdict::NoMatch => run_from(rows, inputs, outputs, doc, from + 1),
            Verdict::Fault(fault) => Outcome::Fault(fault),
            Verdict::Halt => Outcome::Halt,
        }
    } else {
        Outcome::Rows(Seq::empty())
    }
}

/// What running a table against `doc` comes to; the rules start below the
/// header.
pub open spec fn run(
    rows: Seq<Seq<Seq<char>>>,
    inputs: Seq<Column>,
    outputs: Seq<Column>,
    doc: Json,
) -> Outcome {
    run_from(rows, inputs, outputs, doc, LOGIC_START_ROW as int)
}

/// The contents of an output row.
pub open spec fn output_view(row: StringHashMap<Operand>) -> Map<Seq<char>, Term> {
    row@.map_values(|o: Operand| o@)
}

/// The contents of a sequence of output rows.
pub open spec fn outputs_view(rows: Seq<StringHashMap<Operand>>) -> Seq<Map<Seq<char>, Term>> {
    rows.map_values(|row: StringHashMap<Operand>| output_view(row))
}

/// A verdict, with the message of a fault in place of the fault.
enum Checked {
    Match,
    NoMatch,
    Failed(String),
    Halt,
}

impl Checked {
    /// Whether this is what `verdict` comes out as.
    spec fn is(self, verdict: Verdict) -> bool {
        match verdict {
            Verdict::Match => self is Match,
            Verdict::NoMatch => self is NoMatch,
            Verdict::Fault(fault) => self matches Checked::Failed(message) && message@
                == fault.text(),
            Verdict::Halt => self is Halt,
        }
    }
}

/// Whether `o` is the boolean `true`.
fn is_true(o: &Operand) -> (b: bool)
    ensures
        b == (o@ == Term::Boolean(true)),
{
    match o {
        Operand::Boolean(b) => *b,
        _ => false,
    }
}

/// Whether the cell `cell` of the input column `name` holds in `context`.
fn check_cell(cell: &String, name: &String, context: &serde_json::Value) -> (r: Checked)
    ensures
        r.is(cell_verdict(cell@, name@, document(*context))),
{
    let value = var_to_operand(name, context);
    let mut parser = Tokenizer::new(cell.as_str());
    match parser.parse() {
        Ok(()) => {},
        Err(message) => {
            return Checked::Failed(message);
        },
    }
    let ghost tokens = parser.tokens();
    if !parser.starts_with_operator() {
        parser.insert_start(Operand::OperatorToken(Operator::E));
    }
    parser.insert_start(value);
    proof {
        assert(seq![value@] + (seq![Term::Operator(Operator::E)] + tokens) =~= seq![
            value@,
            Term::Operator(Operator::E),
        ] + tokens);
    }
    let postfix = match parser.to_postfix() {
        Ok(postfix) => postfix,
        Err(message) => {
            return Checked::Failed(message);
        },
    };
    match try_interpret(&postfix, context) {
        Some(stack) => {
            if stack.len() > 0 && is_true(&stack[0]) {
                Checked::Match
            } else {
                Checked::NoMatch
            }
        },
        None => Checked::Halt,
    }
}

/// Whether the input cells of `row` all hold in `context`.
fn check_row(row: &Row, inputs: &Vec<(String, String)>, context: &serde_json::Value) -> (r: Checked)
    ensures
        r.is(row_verdict(row@, columns_view(inputs@), document(*context), 0)),
{
    let mut col: usize = 0;
    while col < inputs.len()
        invariant
            col <= inputs.len(),
            row_verdict(row@, columns_view(inputs@), document(*context), col as int) == row_verdict(
                row@,
                columns_view(inputs@),
                document(*context),
                0,
            ),
        decreases inputs.len() - col,
    {
        if col >= row.cells.len() {
            return Checked::Halt;
        }
        assert(row@[col as int] == row.cells@[col as int]@);
        assert(columns_view(inputs@)[col as int].0 == inputs@[col as int].0@);
        match check_cell(&row.cells[col], &inputs[col].0, context) {
            Checked::Match => {},
            other => {
                return other;
            },
        }
        col += 1;
    }
    Checked::Match
}

/// What the row `row` gives out, which holds a cell for every column.
fn output_row(row: &Row, offset: usize, outputs: &Vec<(String, String)>) -> (r: StringHashMap<
    Operand,
>)
    requires
        offset + outputs.len() <= row.cells.len(),
    ensures
        output_view(r) == output_of(
            row@,
            offset as int,
            columns_view(outputs@),
            outputs.len() as int,
        ),
{
    let mut result: StringHashMap<Operand> = StringHashMap::new();
    let mut col: usize = 0;
    proof {
        assert(output_view(result) =~= Map::<Seq<char>, Term>::empty());
    }
    while col < outputs.len()
        invariant
            col <= outputs.len(),
            offset + outputs.len() <= row.cells.len(),
            output_view(result) == output_of(
                row@,
                offset as int,
                columns_view(outputs@),
                col as int,
            ),
        decreases outputs.len() - col,
    {
        let key = outputs[col].0.clone();
        let value = Operand::String(row.cells[col + offset].clone());
        proof {
            assert(row@[offset + col] == row.cells@[offset + col]@);
            assert(columns_view(outputs@)[col as int].0 == key@);
            assert(result@.insert(key@, value).map_values(|o: Operand| o@) =~= output_view(
                result,
            ).insert(key@, value@));
        }
        result.insert(key, value);
        col += 1;
    }
    result
}

/// Runs the table against `context`. Each rule row whose input cells all
/// hold gives out its output cells. A cell that cannot be read as an
/// expression ends the run with its message. `None` where there is nothing
/// to evaluate: a row is shorter than its columns, or an operator in a cell
/// lacks an operand.
pub fn try_run_table(table: &Table, context: &serde_json::Value) -> (r: Option<
    Result<Vec<StringHashMap<Operand>>, String>,
>)
    ensures
        match run(
            rows_view(table.rows@),
            columns_view(table.defs.inputs@),
            columns_view(table.defs.outputs@),
            document(*context),
        ) {
            Outcome::Rows(rows) => r matches Some(Ok(given)) && outputs_view(given@) == rows,
            Outcome::Fault(fault) => r matches Some(Err(message)) && message@ == fault.text(),
            Outcome::Halt => r is None,
        },
{
    let ghost rows = rows_view(table.rows@);
    let ghost inputs = columns_view(table.defs.inputs@);
    let ghost outputs = columns_view(table.defs.outputs@);
    let ghost doc = document(*context);
    let mut given: Vec<StringHashMap<Operand>> = Vec::new();
    let mut i: usize = LOGIC_START_ROW;
    proof {
        assert(outputs_view(given@) =~= Seq::<Map<Seq<char>, Term>>::empty());
        lemma_after_nothing(run_from(rows, inputs, outputs, doc, i as int));
    }
    while i < table.rows.len()
        invariant
            LOGIC_START_ROW <= i,
            rows == rows_view(table.rows@),
            inputs == columns_view(table.defs.inputs@),
            outputs == columns_view(table.defs.outputs@),
            doc == document(*context),
            run_from(rows, inputs, outputs, doc, i as int).after_all(outputs_view(given@)) == run(
                rows,
                inputs,
                outputs,
                doc,
            ),
        decreases table.rows.len() - i,
    {
        let row = &table.rows[i];
        assert(rows[i as int] == row@);
        match check_row(row, &table.defs.inputs, context) {
            Checked::Match => {
                let offset = table.defs.inputs.len();
                if row.cells.len() < offset || row.cells.len() - offset < table.defs.outputs.len() {
                    return None;
                }
                let output = output_row(row, offset, &table.defs.outputs);
                proof {
                    lemma_after_one(
                        run_from(rows, inputs, outputs, doc, i + 1),
                        outputs_view(given@),
                        output_view(output),
                    );
                    assert(outputs_view(given@.push(output)) =~= outputs_view(given@).push(
                        output_view(output),
                    ));
                }
                given.push(output);
            },
            Checked::NoMatch => {},
            Checked::Failed(message) => {
                return Some(Err(message));
            },
            Checked::Halt => {
                return None;
            },
        }
        i += 1;
    }
    proof {
        assert(outputs_view(given@) + Seq::<Map<Seq<char>, Term>>::empty() =~= outputs_view(
            given@,
        ));
    }
    Some(Ok(given))
}

/// Nothing given out before leaves an outcome as it is.
proof fn lemma_after_nothing(outcome: Outcome)
    ensures
        outcome.after_all(Seq::empty()) == outcome,
{
    match outcome {
        Outcome::Rows(rest) => {
            assert(Seq::<Map<Seq<char>, Term>>::empty() + rest =~= rest);
        },
        _ => {},
    }
}

/// Giving out `firsts` and then `next` is giving out `firsts` with `next`
/// at their end.
proof fn lemma_after_one(
    outcome: Outcome,
    firsts: Seq<Map<Seq<char>, Term>>,
    next: Map<Seq<char>, Term>,
)
    ensures
        outcome.after(next).after_all(firsts) == outcome.after_all(firsts.push(next)),
{
    match outcome {
        Outcome::Rows(rest) => {
            assert(firsts + (seq![next] + rest) =~= firsts.push(next) + rest);
        },
        _ => {},
    }
}

/// Whether running the table against the document `doc` has something to
/// evaluate at every step: every row holds the cells that are asked of it,
/// and every operator that is met finds its operands.
pub open spec fn runs(table: &Table, doc: Json) -> bool {
    !(run(
        rows_view(table.rows@),
        columns_view(table.defs.inputs@),
        columns_view(table.defs.outputs@),
        doc,
    ) is Halt)
}

/// Runs the table against `context`. Each rule row whose input cells all
/// hold gives out its output cells, in the order of the rows. A cell that
/// cannot be read as an expression ends the run with its message.
pub fn run_table(table: &Table, context: &serde_json::Value) -> (r: Result<
    Vec<StringHashMap<Operand>>,
    String,
>)
    requires
        runs(table, document(*context)),
    ensures
        match run(
            rows_view(table.rows@),
            columns_view(table.defs.inputs@),
            columns_view(table.defs.outputs@),
            document(*context),
        ) {
            Outcome::Rows(rows) => r matches Ok(given) && outputs_view(given@) == rows,
            Outcome::Fault(fault) => r matches Err(message) && message@ == fault.text(),
            Outcome::Halt => false,
        },
{
    try_run_table(table, context).unwrap()
}

} // verus!
