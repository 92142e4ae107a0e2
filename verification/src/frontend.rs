//! The command front end: what a line of input asks for, decided over a
//! plain model of parsed SQL.
//!
//! Parsing SQL text is left to the caller, who hands the statements over in
//! the model below. Only two shapes are executed: a select from the table
//! `users` and an insert of one row of three literals into it.

use vstd::prelude::*;
use vstd::string::*;
use vstd::utf8::encode_utf8;
use crate::cursor::{row_views, rows_from};
use crate::decimal::{parse_decimal, parse_u32};
use crate::error::DbError;
use crate::row::{Row, RowView};
use crate::table::Table;

verus! {

/// A literal value in a statement.
#[derive(Debug)]
pub enum Literal {
    /// A number as it was written, and whether it was marked long.
    Number(String, bool),
    /// A text between single quotes.
    SingleQuotedString(String),
    /// Any other expression.
    Other,
}

/// What a query reads from.
#[derive(Debug)]
pub enum TableFactor {
    /// A table, by the parts of its name.
    Table { name: Vec<String> },
    /// Anything else.
    Other,
}

/// An entry of a `FROM` clause.
#[derive(Debug)]
pub struct TableWithJoins {
    pub relation: TableFactor,
}

/// The body of a query.
#[derive(Debug)]
pub enum SetExpr {
    /// A `SELECT` with its `FROM` clause.
    Select { from: Vec<TableWithJoins> },
    /// A `VALUES` list: rows of expressions.
    Values(Vec<Vec<Literal>>),
    /// Anything else.
    Other,
}

/// A query.
#[derive(Debug)]
pub struct Query {
    pub body: SetExpr,
}

/// A parsed statement.
#[derive(Debug)]
pub enum Statement {
    Query(Query),
    /// An `INSERT` into the named table from a source query.
    Insert { table_name: Vec<String>, source: Query },
    /// Any other statement.
    Other,
}

/// What a line that starts with a dot asks for.
#[derive(Clone, Copy, Debug, PartialEq, Eq, Structural)]
pub enum Command {
    /// `.exit`: close the store and leave.
    Exit,
    /// Any other line.
    Unrecognized,
}

/// What a statement gave.
#[derive(Debug)]
pub enum Outcome {
    /// The rows of a select, in key order.
    Rows(Vec<Row>),
    /// A row was inserted.
    Inserted,
}

/// The name has one part, `users`.
pub open spec fn names_users(name: Seq<String>) -> bool {
    name.len() == 1 && name[0]@ == "users"@
}

/// The statements are a single select from the table `users` alone.
pub open spec fn select_shape(ast: Seq<Statement>) -> bool {
    ast.len() == 1 && (match ast[0] {
        Statement::Query(Query { body: SetExpr::Select { from } }) => from@.len() == 1 && (
        match from@[0].relation {
            TableFactor::Table { name } => names_users(name@),
            TableFactor::Other => false,
        }),
        _ => false,
    })
}

/// The row of three literals: a number that is not marked long and spells
/// a 32-bit id in decimal digits, and two quoted texts.
pub open spec fn row_of(values: Seq<Literal>) -> Option<RowView> {
    if values.len() != 3 {
        None
    } else {
        match (values[0], values[1], values[2]) {
            (
                Literal::Number(digits, false),
                Literal::SingleQuotedString(username),
                Literal::SingleQuotedString(email),
            ) => match parse_decimal(encode_utf8(digits@)) {
                Some(id) => Some(RowView { id, username: username@, email: email@ }),
                None => None,
            },
            _ => None,
        }
    }
}

/// The row that the statements insert: they are a single insert into the
/// table `users` whose source is a list of values, and the row is the first
/// of the list.
pub open spec fn insert_shape(ast: Seq<Statement>) -> Option<RowView> {
    if ast.len() != 1 {
        None
    } else {
        match ast[0] {
            Statement::Insert { table_name, source: Query { body: SetExpr::Values(rows) } } => {
                if names_users(table_name@) && rows@.len() >= 1 {
                    row_of(rows@[0]@)
                } else {
                    None
                }
            },
            _ => None,
        }
    }
}

/// Whether the name has one part, `users`.
fn is_users(name: &Vec<String>) -> (r: bool)
    ensures
        r == names_users(name@),
{
    if name.len() != 1 {
        return false;
    }
    let users: String = String::from_str("users");
    name[0] == users
}

/// Whether the statements are a single select from the table `users`.
pub fn is_select(ast: &[Statement]) -> (r: bool)
    ensures
        r == select_shape(ast@),
{
    if ast.len() != 1 {
        return false;
    }
    match &ast[0] {
        Statement::Query(Query { body: SetExpr::Select { from } }) => {
            if from.len() != 1 {
                return false;
            }
            match &from[0].relation {
                TableFactor::Table { name } => is_users(name),
                TableFactor::Other => false,
            }
        },
        _ => false,
    }
}

/// The row that the statements insert into the table `users`, if they are
/// a single insert of that shape.
pub fn is_insert(ast: &[Statement]) -> (r: Option<Row>)
    ensures
        match insert_shape(ast@) {
            Some(v) => r matches Some(row) && row@ == v,
            None => r is None,
        },
{
    if ast.len() != 1 {
        return None;
    }
    match &ast[0] {
        Statement::Insert { table_name, source: Query { body: SetExpr::Values(rows) } } => {
            if !is_users(table_name) || rows.len() < 1 {
                return None;
            }
            let values: &Vec<Literal> = &rows[0];
            if values.len() != 3 {
                return None;
            }
            match (&values[0], &values[1], &values[2]) {
                (
                    Literal::Number(digits, false),
                    Literal::SingleQuotedString(username),
                    Literal::SingleQuotedString(email),
                ) => {
                    match parse_u32(digits.as_str().as_bytes()) {
                        Some(id) => Some(Row::new(id, username.as_str(), email.as_str())),
                        None => None,
                    }
                },
                _ => None,
            }
        },
        _ => None,
    }
}

/// Whether the line is a command rather than SQL: it starts with a dot.
pub fn is_command(line: &str) -> (r: bool)
    ensures
        r == (line@.len() > 0 && line@[0] == '.'),
{
    line.unicode_len() > 0 && line.get_char(0) == '.'
}

/// What a command line asks for.
pub fn execute_command(line: &str) -> (r: Command)
    ensures
        r == (if line@ == ".exit"@ {
            Command::Exit
        } else {
            Command::Unrecognized
        }),
{
    let exit: String = String::from_str(".exit");
    let given: String = String::from_str(line);
    if given == exit {
        Command::Exit
    } else {
        Command::Unrecognized
    }
}

/// What the statements ask of the table and what the table answers.
pub open spec fn sql_outcome(table: Table, ast: Seq<Statement>) -> Result<
    Option<Seq<RowView>>,
    DbError,
> {
    if select_shape(ast) {
        match table.node(table.root()) {
            None => Err(DbError::DecodeFailure),
            Some(node) => Ok(Some(rows_from(node.cells, 0))),
        }
    } else {
        match insert_shape(ast) {
            Some(row) => match Table::insert_outcome(table.node(table.root()), row) {
                Ok(_) => Ok(None),
                Err(e) => Err(e),
            },
            None => Err(DbError::Unimplemented),
        }
    }
}

/// Executes the statements on the table: a select gives the rows, an
/// insert validates and stores its row, anything else is refused with
/// `Unimplemented`.
pub fn execute_sql(table: &mut Table, ast: &[Statement]) -> (r: Result<Outcome, DbError>)
    requires
        old(table).wf(),
    ensures
        final(table).wf(),
        final(table).pager().image() == old(table).pager().image(),
        forall|n: usize| n != old(table).root() ==> final(table).node(n) == old(table).node(n),
        match sql_outcome(*old(table), ast@) {
            Ok(Some(rows)) => r matches Ok(Outcome::Rows(found)) && row_views(found@) == rows
                && final(table).node(old(table).root()) == old(table).node(old(table).root()),
            Ok(None) => r matches Ok(Outcome::Inserted) && Ok::<_, DbError>(
                final(table).node(old(table).root())->Some_0,
            ) == Table::insert_outcome(
                old(table).node(old(table).root()),
                insert_shape(ast@)->Some_0,
            ) && final(table).node(old(table).root()) is Some,
            Err(e) => r matches Err(f) && f == e && final(table).node(old(table).root()) == old(
                table
            ).node(old(table).root()),
        },
{
    proof {
        table.lemma_wf(0);
    }
    if is_select(ast) {
        match table.rows() {
            Ok(rows) => Ok(Outcome::Rows(rows)),
            Err(e) => Err(e),
        }
    } else {
        match is_insert(ast) {
            Some(row) => {
                match table.insert(row) {
                    Ok(()) => Ok(Outcome::Inserted),
                    Err(e) => Err(e),
                }
            },
            None => Err(DbError::Unimplemented),
        }
    }
}

} // verus!
