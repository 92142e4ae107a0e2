//! The fixed-schema record and its byte layout.
//!
//! A row is laid out as the 32-bit id, then each of the two text columns as
//! a 64-bit byte count followed by that many bytes of UTF-8. All integers
//! are little-endian.

use vstd::prelude::*;
use vstd::slice::*;
use vstd::string::*;
use vstd::utf8::*;
use crate::decimal::{decimal_string, decimal_text};
use crate::error::{DbError, Field};
use crate::layout::{
    get_u32, get_u64, lemma_u32_round_trip, lemma_u64_round_trip, put_bytes, put_u32, put_u64,
    u32_bytes, u32_value, u64_bytes, u64_value,
};

verus! {

/// A username holds fewer bytes than this.
pub const USERNAME_SIZE: usize = 32;

/// An email holds fewer bytes than this.
pub const EMAIL_SIZE: usize = 255;

/// One record of the table.
#[derive(Debug)]
pub struct Row {
    id: u32,
    username: String,
    email: String,
}

/// What a row is: its id and the characters of its two text columns.
pub struct RowView {
    pub id: u32,
    pub username: Seq<char>,
    pub email: Seq<char>,
}

impl View for Row {
    type V = RowView;

    closed spec fn view(&self) -> RowView {
        RowView { id: self.id, username: self.username@, email: self.email@ }
    }
}

impl RowView {
    /// Both text columns are within their length bounds.
    pub open spec fn valid(self) -> bool {
        &&& encode_utf8(self.username).len() < USERNAME_SIZE
        &&& encode_utf8(self.email).len() < EMAIL_SIZE
    }

    /// The byte counts of both text columns fit the 64-bit count of the
    /// layout. Every row held in memory is such a row.
    pub open spec fn representable(self) -> bool {
        &&& encode_utf8(self.username).len() <= u64::MAX
        &&& encode_utf8(self.email).len() <= u64::MAX
    }
}

/// The layout of a text column: the byte count, then the bytes.
pub open spec fn text_bytes(text: Seq<char>) -> Seq<u8> {
    u64_bytes(encode_utf8(text).len() as u64) + encode_utf8(text)
}

/// The layout of a row.
pub open spec fn row_bytes(row: RowView) -> Seq<u8> {
    u32_bytes(row.id) + text_bytes(row.username) + text_bytes(row.email)
}

/// How a row is shown: `(id, 'username', 'email')`.
pub open spec fn row_text(row: RowView) -> Seq<char> {
    seq!['('] + decimal_text(row.id as nat) + seq![',', ' ', '\''] + row.username + seq![
        '\'',
        ',',
        ' ',
        '\'',
    ] + row.email + seq!['\'', ')']
}

/// The text column at the start of `b` and the number of bytes it takes, if
/// `b` starts with one.
pub open spec fn parse_text(b: Seq<u8>) -> Option<(Seq<char>, int)> {
    if b.len() < 8 {
        None
    } else {
        let n = u64_value(b.subrange(0, 8)) as int;
        if b.len() - 8 < n {
            None
        } else if !valid_utf8(b.subrange(8, 8 + n)) {
            None
        } else {
            Some((decode_utf8(b.subrange(8, 8 + n)), 8 + n))
        }
    }
}

/// The row at the start of `b`, if `b` starts with one. Bytes after the row
/// do not matter.
pub open spec fn parse_row(b: Seq<u8>) -> Option<RowView> {
    if b.len() < 4 {
        None
    } else {
        match parse_text(b.skip(4)) {
            None => None,
            Some((username, used)) => match parse_text(b.skip(4 + used)) {
                None => None,
                Some((email, _)) => Some(
                    RowView { id: u32_value(b.subrange(0, 4)), username, email },
                ),
            },
        }
    }
}

/// A text column that is written out and followed by anything reads back as
/// itself.
pub proof fn lemma_text_round_trip(text: Seq<char>, rest: Seq<u8>)
    requires
        encode_utf8(text).len() <= u64::MAX,
    ensures
        parse_text(text_bytes(text) + rest) == Some((text, text_bytes(text).len() as int)),
        text_bytes(text).len() == 8 + encode_utf8(text).len(),
{
    let body = encode_utf8(text);
    let b = text_bytes(text) + rest;
    lemma_u64_round_trip(body.len() as u64);
    assert(b.subrange(0, 8) =~= u64_bytes(body.len() as u64));
    assert(b.subrange(8, 8 + body.len() as int) =~= body);
    encode_utf8_valid_utf8(text);
    encode_utf8_decode_utf8(text);
}

/// Round trip: a row that is encoded reads back as itself, whatever bytes
/// follow it.
pub proof fn lemma_row_round_trip(row: RowView, rest: Seq<u8>)
    requires
        row.representable(),
    ensures
        parse_row(row_bytes(row) + rest) == Some(row),
{
    let b = row_bytes(row) + rest;
    let u = text_bytes(row.username);
    let e = text_bytes(row.email);
    lemma_u32_round_trip(row.id);
    lemma_text_round_trip(row.username, e + rest);
    lemma_text_round_trip(row.email, rest);
    assert(b.subrange(0, 4) =~= u32_bytes(row.id));
    assert(b.skip(4) =~= u + (e + rest));
    assert(b.skip(4 + u.len() as int) =~= e + rest);
}

/// The most bytes that the layout of a valid row takes.
pub const ROW_MAX_BYTES: usize = 305;

/// A valid row takes at most `ROW_MAX_BYTES` bytes.
pub proof fn lemma_valid_row_size(row: RowView)
    requires
        row.valid(),
    ensures
        row.representable(),
        row_bytes(row).len() == 20 + encode_utf8(row.username).len() + encode_utf8(
            row.email,
        ).len(),
        row_bytes(row).len() <= ROW_MAX_BYTES,
{
    lemma_u32_round_trip(row.id);
    lemma_text_round_trip(row.username, Seq::empty());
    lemma_text_round_trip(row.email, Seq::empty());
}

/// `String::from_utf8` of std: it gives a string exactly when the bytes are
/// valid UTF-8, and the string then holds those bytes.
#[verifier::external_body]
pub(crate) fn string_from_utf8(bytes: Vec<u8>) -> (text: Option<String>)
    ensures
        text is Some <==> valid_utf8(bytes@),
        text matches Some(s) ==> encode_utf8(s@) == bytes@,
{
    String::from_utf8(bytes).ok()
}

/// Appends the layout of a text column to `out`.
fn put_text(out: &mut Vec<u8>, text: &str)
    ensures
        final(out)@ == old(out)@ + text_bytes(text@),
        encode_utf8(text@).len() <= u64::MAX,
{
    let body: &[u8] = text.as_bytes();
    let n: usize = body.len();
    put_u64(out, n as u64);
    put_bytes(out, body);
    assert(out@ =~= old(out)@ + text_bytes(text@));
}

/// Reads the text column that starts at `at`; gives it with the position
/// after it.
fn take_text(bytes: &[u8], at: usize) -> (r: Option<(String, usize)>)
    requires
        at <= bytes@.len(),
    ensures
        match parse_text(bytes@.skip(at as int)) {
            Some((text, used)) => r matches Some((s, next)) && s@ == text && next == at + used,
            None => r is None,
        },
{
    let len: usize = bytes.len();
    let ghost b = bytes@.skip(at as int);
    if len - at < 8 {
        return None;
    }
    let n: u64 = get_u64(bytes, at);
    assert(b.subrange(0, 8) =~= bytes@.subrange(at as int, at + 8));
    let room: u64 = (len - at - 8) as u64;
    if room < n {
        return None;
    }
    let start: usize = at + 8;
    let end: usize = start + n as usize;
    let body: Vec<u8> = slice_to_vec(slice_subrange(bytes, start, end));
    assert(body@ =~= b.subrange(8, 8 + n));
    match string_from_utf8(body) {
        None => None,
        Some(s) => {
            proof {
                encode_utf8_decode_utf8(s@);
            }
            Some((s, end))
        },
    }
}

impl Row {
    pub fn new(id: u32, username: &str, email: &str) -> (row: Row)
        ensures
            row@ == (RowView { id, username: username@, email: email@ }),
    {
        Row { id, username: username.to_owned(), email: email.to_owned() }
    }

    pub fn id(&self) -> (id: u32)
        ensures
            id == self@.id,
    {
        self.id
    }

    pub fn username(&self) -> (text: &str)
        ensures
            text@ == self@.username,
    {
        self.username.as_str()
    }

    pub fn email(&self) -> (text: &str)
        ensures
            text@ == self@.email,
    {
        self.email.as_str()
    }

    /// Checks the length bounds, the username first.
    pub fn validate(&self) -> (r: Result<(), DbError>)
        ensures
            self@.representable(),
            encode_utf8(self@.username).len() >= USERNAME_SIZE ==> r == Err::<(), DbError>(
                DbError::ValidationFailed { field: Field::Username },
            ),
            encode_utf8(self@.username).len() < USERNAME_SIZE && encode_utf8(self@.email).len()
                >= EMAIL_SIZE ==> r == Err::<(), DbError>(
                DbError::ValidationFailed { field: Field::Email },
            ),
            self@.valid() <==> r is Ok,
    {
        let username_len: usize = self.username.as_str().as_bytes().len();
        let email_len: usize = self.email.as_str().as_bytes().len();
        if username_len >= USERNAME_SIZE {
            return Err(DbError::ValidationFailed { field: Field::Username });
        }
        if email_len >= EMAIL_SIZE {
            return Err(DbError::ValidationFailed { field: Field::Email });
        }
        Ok(())
    }

    /// The row as a front end shows it.
    pub fn render(&self) -> (text: String)
        ensures
            text@ == row_text(self@),
    {
        proof {
            reveal_strlit("(");
            reveal_strlit(", '");
            reveal_strlit("', '");
            reveal_strlit("')");
        }
        let mut text: String = String::from_str("(");
        text.append(decimal_string(self.id).as_str());
        text.append(", '");
        text.append(self.username.as_str());
        text.append("', '");
        text.append(self.email.as_str());
        text.append("')");
        assert(text@ =~= row_text(self@));
        text
    }

    /// The bytes of this row in the layout.
    pub fn encode(&self) -> (bytes: Vec<u8>)
        ensures
            bytes@ == row_bytes(self@),
            self@.representable(),
            parse_row(bytes@) == Some(self@),
    {
        let mut out: Vec<u8> = Vec::new();
        put_u32(&mut out, self.id);
        put_text(&mut out, self.username.as_str());
        put_text(&mut out, self.email.as_str());
        proof {
            assert(out@ =~= row_bytes(self@));
            lemma_row_round_trip(self@, Seq::empty());
            assert(row_bytes(self@) + Seq::<u8>::empty() =~= row_bytes(self@));
        }
        out
    }

    /// Reads the row at the start of `bytes`.
    pub fn decode(bytes: &[u8]) -> (r: Result<Row, DbError>)
        ensures
            match parse_row(bytes@) {
                Some(v) => r matches Ok(row) && row@ == v,
                None => r matches Err(e) && e == DbError::DecodeFailure,
            },
    {
        let len: usize = bytes.len();
        if len < 4 {
            return Err(DbError::DecodeFailure);
        }
        let id: u32 = get_u32(bytes, 0);
        let (username, next) = match take_text(bytes, 4) {
            None => {
                return Err(DbError::DecodeFailure);
            },
            Some(t) => t,
        };
        let (email, _) = match take_text(bytes, next) {
            None => {
                return Err(DbError::DecodeFailure);
            },
            Some(t) => t,
        };
        Ok(Row { id, username, email })
    }
}

} // verus!
