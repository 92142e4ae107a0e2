//! The cursor: a forward-only walk over the cells of a table.
//!
//! A cursor borrows its table for as long as it lives, so no insert can
//! happen under it. A cell that does not decode ends the walk: the cursor
//! stays before it and yields nothing more.

use vstd::prelude::*;
use crate::error::DbError;
use crate::node::{CellView, NodeView};
use crate::row::{lemma_row_round_trip, parse_row, row_bytes, Row, RowView};
use crate::store::MAX_PAGES;
use crate::table::Table;

verus! {

/// The rows that a walk yields from cell `from` on: the rows of the cells in
/// stored order, up to the end or to the first cell that does not decode.
pub open spec fn rows_from(cells: Seq<CellView>, from: int) -> Seq<RowView>
    decreases cells.len() - from,
{
    if from < 0 || from >= cells.len() {
        Seq::empty()
    } else {
        match parse_row(cells[from].value) {
            None => Seq::empty(),
            Some(row) => seq![row] + rows_from(cells, from + 1),
        }
    }
}

/// Cells that hold the layouts of rows yield those rows, in the order of
/// the cells.
pub proof fn lemma_rows_of_cells(cells: Seq<CellView>, rows: Seq<RowView>, from: int)
    requires
        cells.len() == rows.len(),
        0 <= from <= cells.len(),
        forall|i: int|
            0 <= i < cells.len() ==> (#[trigger] rows[i]).representable() && cells[i].value
                == row_bytes(rows[i]),
    ensures
        rows_from(cells, from) == rows.skip(from),
    decreases cells.len() - from,
{
    if from < cells.len() {
        assert(rows[from].representable());
        lemma_row_round_trip(rows[from], Seq::empty());
        assert(row_bytes(rows[from]) + Seq::<u8>::empty() =~= row_bytes(
            rows[from],
        ));
        lemma_rows_of_cells(cells, rows, from + 1);
        assert(seq![rows[from]] + rows.skip(from + 1) =~= rows.skip(from));
    } else {
        assert(rows.skip(from) =~= Seq::<RowView>::empty());
    }
}

/// What one step of a walk over `node` yields at cell `at`.
pub open spec fn step(node: Option<NodeView>, at: int) -> Result<RowView, DbError> {
    match node {
        None => Err(DbError::DecodeFailure),
        Some(node) => if at >= node.cells.len() {
            Err(DbError::Exhausted)
        } else {
            match parse_row(node.cells[at].value) {
                None => Err(DbError::DecodeFailure),
                Some(row) => Ok(row),
            }
        },
    }
}

/// The views of a sequence of rows.
pub open spec fn row_views(rows: Seq<Row>) -> Seq<RowView> {
    Seq::new(rows.len(), |i: int| rows[i]@)
}

/// Decodes the row in cell `cell_num` of page `page_num`.
fn row_at(table: &mut Table, page_num: usize, cell_num: usize) -> (r: Result<Row, DbError>)
    requires
        old(table).wf(),
        page_num <= MAX_PAGES,
    ensures
        final(table).wf(),
        final(table).root() == old(table).root(),
        final(table).pager().image() == old(table).pager().image(),
        forall|n: usize| final(table).node(n) == old(table).node(n),
        match step(old(table).node(page_num), cell_num as int) {
            Ok(v) => r matches Ok(row) && row@ == v && cell_num < usize::MAX,
            Err(e) => r matches Err(f) && f == e,
        },
{
    let node = match table.get_node(page_num) {
        Ok(node) => node,
        Err(e) => {
            return Err(e);
        },
    };
    if cell_num >= node.num_cells() {
        return Err(DbError::Exhausted);
    }
    Row::decode(node.cell(cell_num).value().as_slice())
}

/// A position in the cells of one page of a table.
#[derive(Debug)]
pub struct Cursor<'a> {
    page_num: usize,
    cell_num: usize,
    table: &'a mut Table,
}

impl<'a> Cursor<'a> {
    /// The page that the cursor walks.
    pub closed spec fn page(&self) -> usize {
        self.page_num
    }

    /// The number of cells that lie before the cursor.
    pub closed spec fn position(&self) -> usize {
        self.cell_num
    }

    /// The table as it is now.
    pub closed spec fn table(&self) -> Table {
        *self.table
    }

    /// The node that the cursor walks, as its table sees it.
    pub open spec fn node(&self) -> Option<NodeView> {
        self.table().node(self.page())
    }

    /// The table is well-formed and the page lies within the ceiling.
    pub open spec fn wf(&self) -> bool {
        &&& self.table().wf()
        &&& self.page() <= MAX_PAGES
    }

    /// The cursor `next` compared with `self`: the same page of a table
    /// that sees the same nodes over the same image.
    pub open spec fn same_table(&self, next: &Self) -> bool {
        &&& next.page() == self.page()
        &&& next.table().root() == self.table().root()
        &&& next.table().pager().image() == self.table().pager().image()
        &&& forall|n: usize| next.table().node(n) == self.table().node(n)
    }

    /// A cursor at the first cell of the root page.
    pub fn start(table: &'a mut Table) -> (r: Result<Cursor<'a>, DbError>)
        requires
            old(table).wf(),
        ensures
            r matches Ok(cursor) && cursor.wf() && cursor.page() == old(table).root()
                && cursor.position() == 0 && cursor.table() == *old(table),
    {
        proof {
            table.lemma_wf(0);
        }
        Ok(Cursor { page_num: table.root_page_num(), cell_num: 0, table })
    }

    /// A cursor one past the last cell of the root page.
    pub fn end(table: &'a mut Table) -> (r: Result<Cursor<'a>, DbError>)
        requires
            old(table).wf(),
        ensures
            match old(table).node(old(table).root()) {
                None => r matches Err(e) && e == DbError::DecodeFailure,
                Some(node) => r matches Ok(cursor) && cursor.wf() && cursor.page() == old(
                    table
                ).root() && cursor.position() == node.cells.len() && cursor.node() == Some(node),
            },
    {
        proof {
            table.lemma_wf(0);
        }
        let page_num: usize = table.root_page_num();
        let cell_num: usize = match table.get_node(page_num) {
            Ok(node) => node.num_cells(),
            Err(e) => {
                return Err(e);
            },
        };
        Ok(Cursor { page_num, cell_num, table })
    }

    /// Whether the cursor stands past the last cell.
    pub fn is_end(&mut self) -> (r: Result<bool, DbError>)
        requires
            old(self).wf(),
        ensures
            final(self).wf(),
            old(self).same_table(final(self)),
            final(self).position() == old(self).position(),
            match old(self).node() {
                None => r matches Err(e) && e == DbError::DecodeFailure,
                Some(node) => r matches Ok(b) && b == (old(self).position() >= node.cells.len()),
            },
    {
        match self.table.get_node(self.page_num) {
            Ok(node) => Ok(self.cell_num >= node.num_cells()),
            Err(e) => Err(e),
        }
    }

    /// The bytes of the row at the cursor, to be read and written in place.
    /// The table stays well-formed as long as their number stays as it is.
    pub fn value(&mut self) -> (r: Result<&mut Vec<u8>, DbError>)
        requires
            old(self).wf(),
        ensures
            final(self).position() == old(self).position(),
            final(self).page() == old(self).page(),
            final(self).table().root() == old(self).table().root(),
            final(self).table().pager().image() == old(self).table().pager().image(),
            forall|n: usize|
                n != old(self).page() ==> final(self).table().node(n) == old(self).table().node(n),
            match old(self).node() {
                None => r matches Err(e) && e == DbError::DecodeFailure,
                Some(node) => if old(self).position() >= node.cells.len() {
                    r matches Err(e) && e == DbError::Exhausted
                } else {
                    r matches Ok(value) && value@ == node.cells[old(self).position() as int].value
                        && final(self).node() == Some(
                        NodeView {
                            cells: node.cells.update(
                                old(self).position() as int,
                                CellView {
                                    key: node.cells[old(self).position() as int].key,
                                    value: final(value)@,
                                },
                            ),
                            ..node
                        },
                    ) && (final(value)@.len() == value@.len() ==> final(self).wf())
                },
            },
            r is Err ==> final(self).wf() && final(self).node() == old(self).node(),
    {
        let node = match self.table.get_node(self.page_num) {
            Ok(node) => node,
            Err(e) => {
                return Err(e);
            },
        };
        if self.cell_num >= node.num_cells() {
            return Err(DbError::Exhausted);
        }
        Ok(node.cell_mut(self.cell_num))
    }

    /// Decodes the row at the cursor and moves one cell forward.
    ///
    /// Past the last cell this gives `Exhausted`. At a cell that does not
    /// decode it gives `DecodeFailure`. Either way the cursor stays.
    pub fn advance(&mut self) -> (r: Result<Row, DbError>)
        requires
            old(self).wf(),
        ensures
            final(self).wf(),
            old(self).same_table(final(self)),
            match step(old(self).node(), old(self).position() as int) {
                Ok(v) => r matches Ok(row) && row@ == v && final(self).position() == old(
                    self
                ).position() + 1,
                Err(e) => r matches Err(f) && f == e && final(self).position() == old(
                    self
                ).position(),
            },
    {
        match row_at(self.table, self.page_num, self.cell_num) {
            Ok(row) => {
                self.cell_num = self.cell_num + 1;
                Ok(row)
            },
            Err(e) => Err(e),
        }
    }

    /// The next row of the walk, or `None` when the walk is over.
    pub fn next(&mut self) -> (r: Option<Row>)
        requires
            old(self).wf(),
        ensures
            final(self).wf(),
            old(self).same_table(final(self)),
            match step(old(self).node(), old(self).position() as int) {
                Ok(v) => r matches Some(row) && row@ == v && final(self).position() == old(
                    self
                ).position() + 1,
                Err(_) => r is None && final(self).position() == old(self).position(),
            },
    {
        match self.advance() {
            Ok(row) => Some(row),
            Err(_) => None,
        }
    }
}

} // verus!

verus! {

impl Table {
    /// A cursor at the first row, to be walked with `next`.
    pub fn select(&mut self) -> (r: Result<Cursor<'_>, DbError>)
        requires
            old(self).wf(),
        ensures
            r matches Ok(cursor) && cursor.wf() && cursor.page() == old(self).root()
                && cursor.position() == 0 && cursor.table() == *old(self),
    {
        Cursor::start(self)
    }

    /// The rows of the table in key order: a walk from the first cell to the
    /// end, or to the first cell that does not decode.
    pub fn rows(&mut self) -> (r: Result<Vec<Row>, DbError>)
        requires
            old(self).wf(),
        ensures
            final(self).wf(),
            final(self).root() == old(self).root(),
            final(self).pager().image() == old(self).pager().image(),
            forall|n: usize| final(self).node(n) == old(self).node(n),
            match old(self).node(old(self).root()) {
                None => r matches Err(e) && e == DbError::DecodeFailure,
                Some(node) => r matches Ok(rows) && row_views(rows@) == rows_from(node.cells, 0),
            },
    {
        proof {
            self.lemma_wf(0);
        }
        let ghost table = *self;
        let page_num: usize = self.root_page_num();
        match self.get_node(page_num) {
            Ok(_) => {},
            Err(e) => {
                return Err(e);
            },
        }
        let ghost cells = table.node(page_num)->Some_0.cells;
        let mut rows: Vec<Row> = Vec::new();
        let mut at: usize = 0;
        assert(row_views(rows@) =~= Seq::<RowView>::empty());
        loop
            invariant
                self.wf(),
                page_num <= MAX_PAGES,
                self.root() == table.root(),
                self.pager().image() == table.pager().image(),
                forall|n: usize| self.node(n) == table.node(n),
                table.node(page_num) is Some,
                cells == table.node(page_num)->Some_0.cells,
                row_views(rows@) + rows_from(cells, at as int) == rows_from(cells, 0),
            ensures
                self.wf(),
                self.root() == table.root(),
                self.pager().image() == table.pager().image(),
                forall|n: usize| self.node(n) == table.node(n),
                row_views(rows@) == rows_from(cells, 0),
            decreases cells.len() - at,
        {
            let ghost before = row_views(rows@);
            match row_at(self, page_num, at) {
                Ok(row) => {
                    let ghost v = row@;
                    rows.push(row);
                    proof {
                        assert(row_views(rows@) =~= before.push(v));
                        assert(before.push(v) + rows_from(cells, at + 1) =~= before + (seq![v]
                            + rows_from(cells, at + 1)));
                    }
                    at = at + 1;
                },
                Err(_) => {
                    proof {
                        assert(rows_from(cells, at as int) =~= Seq::<RowView>::empty());
                        assert(before + Seq::<RowView>::empty() =~= before);
                    }
                    break ;
                },
            }
        }
        Ok(rows)
    }
}

} // verus!
