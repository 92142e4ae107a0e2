//! A single-table, page-backed record store.
//!
//! Rows of a fixed three-column schema are kept in key order inside a node
//! that occupies one 4096-byte page of the image of a backing file.
//!
//! The modules go from the bytes upwards: `layout` and `decimal` hold the
//! integers and numerals, `row` the record, `node` the ordered cells of a
//! page, `store` the file image, `pager` the page cache, `table` the
//! facade, `cursor` the walk over the rows, `database` opening and closing.
//! `parser` holds a small statement grammar and `frontend` the decisions of
//! a command front end. `error` holds the failures of all of them.
//!
//! Reading and writing the backing file is left to the caller: `open` takes
//! the image of the file and `close` hands the image back.

pub mod cursor;
pub mod database;
pub mod decimal;
pub mod error;
pub mod frontend;
pub mod layout;
pub mod node;
pub mod pager;
pub mod parser;
pub mod row;
pub mod store;
pub mod table;

