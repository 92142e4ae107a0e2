//! The statement grammar of the line front end.
//!
//! A line is read as bytes of UTF-8. Two statements exist:
//!
//! ```text
//! insert <id> '<username>' '<email>'
//! select
//! ```
//!
//! The words are matched as they are written here. The parts of an insert
//! are parted by one or more of space, tab, carriage return and line feed.
//! The id is a run of decimal digits that spells a 32-bit number. The texts
//! stand between single quotes and hold at least one byte and no single
//! quote. What follows a statement on its line is not looked at.

use vstd::prelude::*;
use vstd::slice::{slice_subrange, slice_to_vec};
use vstd::utf8::{decode_utf8, encode_utf8, encode_utf8_decode_utf8, valid_utf8};
use crate::decimal::{parse_decimal, parse_u32};
use crate::error::DbError;
use crate::row::{string_from_utf8, Row, RowView};

verus! {

/// A statement of the grammar.
#[derive(Debug)]
pub enum SQL {
    Insert(Row),
    Select,
}

/// What a statement is.
pub enum SqlView {
    Insert(RowView),
    Select,
}

impl View for SQL {
    type V = SqlView;

    open spec fn view(&self) -> SqlView {
        match self {
            SQL::Insert(row) => SqlView::Insert(row@),
            SQL::Select => SqlView::Select,
        }
    }
}

/// The classes of bytes that the grammar takes runs of.
#[derive(Clone, Copy, Debug, PartialEq, Eq, Structural)]
pub enum Class {
    /// Space, tab, carriage return, line feed.
    Space,
    /// The ten decimal digits.
    Digit,
    /// Every byte but the single quote.
    Plain,
}

/// Whether byte `c` belongs to the class.
pub open spec fn in_class(class: Class, c: u8) -> bool {
    match class {
        Class::Space => c == 32 || c == 9 || c == 13 || c == 10,
        Class::Digit => 48 <= c <= 57,
        Class::Plain => c != 39,
    }
}

/// The length of the longest run of bytes of the class that starts at `at`.
pub open spec fn run(b: Seq<u8>, at: int, class: Class) -> int
    decreases b.len() - at,
{
    if 0 <= at < b.len() && in_class(class, b[at]) {
        1 + run(b, at + 1, class)
    } else {
        0
    }
}

/// The bytes of the word `insert`.
pub open spec fn insert_word() -> Seq<u8> {
    seq![105u8, 110u8, 115u8, 101u8, 114u8, 116u8]
}

/// The bytes of the word `select`.
pub open spec fn select_word() -> Seq<u8> {
    seq![115u8, 101u8, 108u8, 101u8, 99u8, 116u8]
}

/// Whether `b` starts with `word`.
pub open spec fn has_prefix(b: Seq<u8>, word: Seq<u8>) -> bool {
    word.len() <= b.len() && b.subrange(0, word.len() as int) == word
}

/// The quoted text that starts at `at`: its characters and the position
/// after its closing quote.
pub open spec fn quoted(b: Seq<u8>, at: int) -> Option<(Seq<char>, int)> {
    if 0 <= at < b.len() && b[at] == 39 {
        let n = run(b, at + 1, Class::Plain);
        if n >= 1 && at + 1 + n < b.len() && valid_utf8(b.subrange(at + 1, at + 1 + n)) {
            Some((decode_utf8(b.subrange(at + 1, at + 1 + n)), at + n + 2))
        } else {
            None
        }
    } else {
        None
    }
}

/// The row of the insert statement that `b` starts with.
pub open spec fn parse_insert(b: Seq<u8>) -> Option<RowView> {
    if !has_prefix(b, insert_word()) {
        None
    } else {
        let id_at = 6 + run(b, 6, Class::Space);
        let id_end = id_at + run(b, id_at, Class::Digit);
        let username_at = id_end + run(b, id_end, Class::Space);
        if id_at == 6 || id_end == id_at || username_at == id_end {
            None
        } else {
            match (parse_decimal(b.subrange(id_at, id_end)), quoted(b, username_at)) {
                (Some(id), Some((username, username_end))) => {
                    let email_at = username_end + run(b, username_end, Class::Space);
                    if email_at == username_end {
                        None
                    } else {
                        match quoted(b, email_at) {
                            Some((email, _)) => Some(RowView { id, username, email }),
                            None => None,
                        }
                    }
                },
                _ => None,
            }
        }
    }
}

/// The statement that `b` starts with: an insert, or else a select.
pub open spec fn parse_statement(b: Seq<u8>) -> Option<SqlView> {
    match parse_insert(b) {
        Some(row) => Some(SqlView::Insert(row)),
        None => if has_prefix(b, select_word()) {
            Some(SqlView::Select)
        } else {
            None
        },
    }
}

/// A stretch of bytes of the class that ends at the end of the bytes or
/// before a byte of another class is the longest run.
pub proof fn lemma_run(b: Seq<u8>, from: int, to: int, class: Class)
    requires
        0 <= from <= to <= b.len(),
        forall|i: int| from <= i < to ==> in_class(class, #[trigger] b[i]),
        to == b.len() || !in_class(class, b[to]),
    ensures
        run(b, from, class) == to - from,
    decreases to - from,
{
    if from < to {
        lemma_run(b, from + 1, to, class);
    }
}

/// Whether byte `c` belongs to the class.
fn belongs(class: Class, c: u8) -> (r: bool)
    ensures
        r == in_class(class, c),
{
    match class {
        Class::Space => c == 32 || c == 9 || c == 13 || c == 10,
        Class::Digit => 48 <= c && c <= 57,
        Class::Plain => c != 39,
    }
}

/// The position after the longest run of the class that starts at `at`.
fn skip_run(bytes: &[u8], at: usize, class: Class) -> (end: usize)
    requires
        at <= bytes@.len(),
    ensures
        end == at + run(bytes@, at as int, class),
        at <= end <= bytes@.len(),
{
    let n: usize = bytes.len();
    let mut end: usize = at;
    while end < n && belongs(class, bytes[end])
        invariant
            n == bytes@.len(),
            at <= end <= n,
            forall|i: int| at <= i < end ==> in_class(class, #[trigger] bytes@[i]),
        decreases n - end,
    {
        end += 1;
    }
    proof {
        lemma_run(bytes@, at as int, end as int, class);
    }
    end
}

/// Whether the bytes start with the six bytes of `word`.
fn starts_with(bytes: &[u8], word: [u8; 6]) -> (r: bool)
    ensures
        r == has_prefix(bytes@, word@),
{
    if bytes.len() < 6 {
        return false;
    }
    let mut i: usize = 0;
    while i < 6
        invariant
            i <= 6,
            bytes@.len() >= 6,
            word@.len() == 6,
            forall|k: int| 0 <= k < i ==> bytes@[k] == word@[k],
        decreases 6 - i,
    {
        if bytes[i] != word[i] {
            assert(bytes@.subrange(0, 6)[i as int] != word@[i as int]);
            return false;
        }
        i += 1;
    }
    assert(bytes@.subrange(0, 6) =~= word@);
    true
}

/// Reads the quoted text that starts at `at`.
fn take_quoted(bytes: &[u8], at: usize) -> (r: Option<(String, usize)>)
    requires
        at <= bytes@.len(),
    ensures
        match quoted(bytes@, at as int) {
            Some((text, end)) => r matches Some((s, e)) && s@ == text && e == end
                && e <= bytes@.len(),
            None => r is None,
        },
{
    let n: usize = bytes.len();
    if at >= n || bytes[at] != 39 {
        return None;
    }
    let end: usize = skip_run(bytes, at + 1, Class::Plain);
    if end == at + 1 || end >= n {
        return None;
    }
    let body: Vec<u8> = slice_to_vec(slice_subrange(bytes, at + 1, end));
    match string_from_utf8(body) {
        None => None,
        Some(s) => {
            proof {
                encode_utf8_decode_utf8(s@);
            }
            Some((s, end + 1))
        },
    }
}

/// Reads an insert statement.
fn insert(bytes: &[u8]) -> (r: Option<SQL>)
    ensures
        match parse_insert(bytes@) {
            Some(row) => r matches Some(sql) && sql@ == SqlView::Insert(row),
            None => r is None,
        },
{
    let word: [u8; 6] = [105, 110, 115, 101, 114, 116];
    assert(word@ =~= insert_word());
    if !starts_with(bytes, word) {
        return None;
    }
    let id_at: usize = skip_run(bytes, 6, Class::Space);
    if id_at == 6 {
        return None;
    }
    let id_end: usize = skip_run(bytes, id_at, Class::Digit);
    if id_end == id_at {
        return None;
    }
    let username_at: usize = skip_run(bytes, id_end, Class::Space);
    if username_at == id_end {
        return None;
    }
    let id: u32 = match parse_u32(slice_subrange(bytes, id_at, id_end)) {
        Some(id) => id,
        None => {
            return None;
        },
    };
    let (username, username_end) = match take_quoted(bytes, username_at) {
        Some(t) => t,
        None => {
            return None;
        },
    };
    let email_at: usize = skip_run(bytes, username_end, Class::Space);
    if email_at == username_end {
        return None;
    }
    let (email, _) = match take_quoted(bytes, email_at) {
        Some(t) => t,
        None => {
            return None;
        },
    };
    Some(SQL::Insert(Row::new(id, username.as_str(), email.as_str())))
}

/// Reads a select statement.
fn select(bytes: &[u8]) -> (r: Option<SQL>)
    ensures
        has_prefix(bytes@, select_word()) ==> (r matches Some(sql) && sql@ == SqlView::Select),
        !has_prefix(bytes@, select_word()) ==> r is None,
{
    let word: [u8; 6] = [115, 101, 108, 101, 99, 116];
    assert(word@ =~= select_word());
    if starts_with(bytes, word) {
        Some(SQL::Select)
    } else {
        None
    }
}

/// Reads a statement: an insert, or else a select.
fn sql(bytes: &[u8]) -> (r: Option<SQL>)
    ensures
        match parse_statement(bytes@) {
            Some(v) => r matches Some(sql) && sql@ == v,
            None => r is None,
        },
{
    match insert(bytes) {
        Some(statement) => Some(statement),
        None => select(bytes),
    }
}

/// Reads the statement that `line` starts with. A line that starts with no
/// statement of the grammar is refused with `ParseFailure`.
pub fn parse_sql(line: &str) -> (r: Result<SQL, DbError>)
    ensures
        match parse_statement(encode_utf8(line@)) {
            Some(v) => r matches Ok(sql) && sql@ == v,
            None => r matches Err(e) && e == DbError::ParseFailure,
        },
{
    match sql(line.as_bytes()) {
        Some(statement) => Ok(statement),
        None => Err(DbError::ParseFailure),
    }
}

} // verus!
