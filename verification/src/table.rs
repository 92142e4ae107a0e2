//! The table: the root node, what it may hold, and the pager beneath it.

use std::collections::hash_map::Entry;
use std::collections::HashMap;
use vstd::prelude::*;
use vstd::utf8::encode_utf8;
use crate::error::{DbError, Field};
use crate::layout::PAGE_SIZE;
use crate::node::{
    has_key, lemma_cells_size, lemma_header_size, lemma_node_round_trip, node_bytes, parse_node,
    well_formed, with_cell, CellView, Node, NodeView,
};
use crate::pager::Pager;
use crate::row::{
    lemma_valid_row_size, row_bytes, Row, RowView, EMAIL_SIZE, ROW_MAX_BYTES, USERNAME_SIZE,
};
use crate::store::{page_at, PageStore, MAX_PAGES};

verus! {

broadcast use vstd::std_specs::hash::group_hash_axioms;

/// The number of rows at which the table is full.
pub const TABLE_MAX_ROWS: usize = 12;

/// The single table of the store.
#[derive(Debug)]
pub struct Table {
    root_page_num: usize,
    pager: Pager,
    nodes: HashMap<usize, Node>,
}

impl Table {
    /// The page that holds the root node.
    pub closed spec fn root(&self) -> usize {
        self.root_page_num
    }

    /// The pager of the table.
    pub closed spec fn pager(&self) -> Pager {
        self.pager
    }

    /// Whether the node of page `page_num` was decoded and is held.
    pub closed spec fn loaded(&self, page_num: usize) -> bool {
        self.nodes@.contains_key(page_num)
    }

    /// The node of a page that is held.
    pub closed spec fn held(&self, page_num: usize) -> NodeView {
        self.nodes@[page_num]@
    }

    /// The node of page `page_num` as the table sees it: the node it holds,
    /// or else what the page decodes to. `None` where the page does not
    /// decode.
    pub open spec fn node(&self, page_num: usize) -> Option<NodeView> {
        if self.loaded(page_num) {
            Some(self.held(page_num))
        } else {
            parse_node(self.pager().content(page_num))
        }
    }

    /// The table after an insert of `row` into a table whose root node is
    /// `root`, and what the insert answers.
    ///
    /// The checks come in this order: the length bounds of the row, the
    /// root node, the row ceiling, the key, the room in the page.
    pub open spec fn insert_outcome(root: Option<NodeView>, row: RowView) -> Result<
        NodeView,
        DbError,
    > {
        if encode_utf8(row.username).len() >= USERNAME_SIZE {
            Err(DbError::ValidationFailed { field: Field::Username })
        } else if encode_utf8(row.email).len() >= EMAIL_SIZE {
            Err(DbError::ValidationFailed { field: Field::Email })
        } else {
            match root {
                None => Err(DbError::DecodeFailure),
                Some(node) => if node.cells.len() >= TABLE_MAX_ROWS {
                    Err(DbError::TableFull)
                } else if has_key(node.cells, row.id) {
                    Err(DbError::DuplicateKey)
                } else if node_bytes(node).len() + 12 + row_bytes(row).len() > PAGE_SIZE {
                    Err(DbError::TableFull)
                } else {
                    Ok(
                        NodeView {
                            cells: with_cell(
                                node.cells,
                                CellView { key: row.id, value: row_bytes(row) },
                            ),
                            ..node
                        },
                    )
                },
            }
        }
    }

    /// Capacity: a node of fewer than `TABLE_MAX_ROWS` cells, none of which
    /// is longer than a valid row, has room for a valid row. So a table
    /// that holds only what was inserted into it is full exactly when it
    /// holds `TABLE_MAX_ROWS` rows.
    pub proof fn lemma_room_for_valid_row(node: NodeView, row: RowView)
        requires
            node.cells.len() < TABLE_MAX_ROWS,
            forall|i: int|
                0 <= i < node.cells.len() ==> (#[trigger] node.cells[i]).value.len()
                    <= ROW_MAX_BYTES,
            row.valid(),
            !has_key(node.cells, row.id),
        ensures
            node_bytes(node).len() + 12 + row_bytes(row).len() <= PAGE_SIZE,
            Self::insert_outcome(Some(node), row) is Ok,
    {
        lemma_valid_row_size(row);
        lemma_cells_size(node.cells, ROW_MAX_BYTES as nat);
        lemma_header_size(node);
        let n = node.cells.len();
        assert(n * (12 + ROW_MAX_BYTES as nat) <= 11 * 317) by (nonlinear_arith)
            requires
                n <= 11,
        ;
    }

    /// The pager is well-formed, the root is page 0, and every node that is
    /// held is well-formed and belongs to a page within the ceiling.
    pub closed spec fn wf(&self) -> bool {
        &&& self.pager.wf()
        &&& self.root_page_num == 0
        &&& forall|n: usize| #[trigger]
            self.nodes@.contains_key(n) ==> n <= MAX_PAGES && self.nodes@[n].wf()
    }

    /// What well-formedness says of the parts of a table.
    pub proof fn lemma_wf(&self, page_num: usize)
        requires
            self.wf(),
        ensures
            self.pager().wf(),
            self.root() == 0,
            self.loaded(page_num) ==> page_num <= MAX_PAGES && well_formed(self.held(page_num)),
    {
    }

    /// A table over `pager` that holds no node yet. Its root is page 0.
    pub fn new(pager: Pager) -> (table: Table)
        requires
            pager.wf(),
        ensures
            table.wf(),
            table.root() == 0,
            table.pager() == pager,
            forall|n: usize| !table.loaded(n),
    {
        Table { root_page_num: 0, pager, nodes: HashMap::new() }
    }

    /// The number of the root page.
    pub fn root_page_num(&self) -> (n: usize)
        ensures
            n == self.root(),
    {
        self.root_page_num
    }

    /// The node of page `page_num`, decoded from its page when it is first
    /// asked for and held from then on.
    pub fn get_node(&mut self, page_num: usize) -> (r: Result<&mut Node, DbError>)
        requires
            old(self).wf(),
        ensures
            page_num > MAX_PAGES ==> (r matches Err(e) && e == DbError::PageOutOfBounds),
            page_num <= MAX_PAGES && old(self).node(page_num) is None ==> (r matches Err(e) && e
                == DbError::DecodeFailure),
            page_num <= MAX_PAGES && old(self).node(page_num) is Some ==> r is Ok,
            final(self).root() == old(self).root(),
            final(self).pager().image() == old(self).pager().image(),
            forall|n: usize|
                n != page_num ==> final(self).loaded(n) == old(self).loaded(n) && final(
                    self
                ).held(n) == old(self).held(n),
            forall|n: usize| final(self).pager().content(n) == old(self).pager().content(n),
            final(self).pager().page_count() == (if page_num <= MAX_PAGES && !old(self).loaded(
                page_num,
            ) && old(self).pager().page_count() < page_num {
                page_num
            } else {
                old(self).pager().page_count()
            }),
            r is Err ==> final(self).wf() && final(self).loaded(page_num) == old(self).loaded(
                page_num,
            ),
            r matches Ok(node) ==> Some(node@) == old(self).node(page_num) && node.wf(),
            r matches Ok(node) ==> final(self).loaded(page_num) && final(self).held(page_num)
                == final(node)@,
            r matches Ok(node) ==> (final(node).wf() ==> final(self).wf()),
    {
        match self.nodes.entry(page_num) {
            Entry::Vacant(e) => {
                let page = match self.pager.get_page(page_num) {
                    Ok(page) => page,
                    Err(err) => {
                        return Err(err);
                    },
                };
                let node = match Node::decode(page.as_slice()) {
                    Ok(node) => node,
                    Err(err) => {
                        return Err(err);
                    },
                };
                Ok(e.insert(node))
            },
            Entry::Occupied(e) => Ok(e.into_mut()),
        }
    }

    /// Lays every node that is held out in its page, in the order of the
    /// page numbers, and has the pager write its pages to the store.
    ///
    /// Afterwards every page of the image decodes to the node that the
    /// table sees for it.
    pub fn flush(&mut self)
        requires
            old(self).wf(),
        ensures
            final(self).wf(),
            final(self).root() == old(self).root(),
            final(self).pager().image().len() >= old(self).pager().image().len(),
            forall|n: usize| final(self).node(n) == old(self).node(n),
            forall|n: usize|
                parse_node(page_at(final(self).pager().image(), n as int)) == old(self).node(n),
            forall|n: usize|
                old(self).loaded(n) ==> page_at(final(self).pager().image(), n as int)
                    == node_bytes(old(self).held(n)) + old(self).pager().content(n).skip(
                    node_bytes(old(self).held(n)).len() as int,
                ),
            forall|n: usize|
                !old(self).loaded(n) ==> page_at(final(self).pager().image(), n as int) == old(
                    self
                ).pager().content(n),
    {
        let mut n: usize = 0;
        while n <= MAX_PAGES
            invariant
                n <= MAX_PAGES + 1,
                self.wf(),
                self.nodes == old(self).nodes,
                self.root_page_num == old(self).root_page_num,
                self.pager.image() == old(self).pager.image(),
                forall|m: usize|
                    #![trigger self.pager.content(m)]
                    m < n && self.nodes@.contains_key(m) ==> self.pager.content(m) == node_bytes(
                        self.nodes@[m]@,
                    ) + old(self).pager.content(m).skip(node_bytes(self.nodes@[m]@).len() as int),
                forall|m: usize|
                    #![trigger self.pager.content(m)]
                    m >= n || !self.nodes@.contains_key(m) ==> self.pager.content(m) == old(
                        self
                    ).pager.content(m),
            decreases MAX_PAGES + 1 - n,
        {
            let ghost before = self.pager;
            match self.nodes.get(&n) {
                Some(node) => {
                    match self.pager.get_page(n) {
                        Ok(page) => {
                            node.write_page(page);
                        },
                        Err(_) => {},
                    }
                },
                None => {},
            }
            assert(forall|m: usize|
                m != n ==> #[trigger] self.pager.content(m) == before.content(m));
            n += 1;
        }
        let ghost before = self.pager;
        self.pager.flush();
        proof {
            assert forall|m: usize| #[trigger]
                self.pager.content(m) == before.content(m) && page_at(
                    self.pager.image(),
                    m as int,
                ) == before.content(m) by {}
            assert forall|m: usize| self.node(m) == old(self).node(m) && parse_node(
                page_at(self.pager().image(), m as int),
            ) == old(self).node(m) by {
                let held = before.content(m);
                assert(self.pager.content(m) == held);
                if self.nodes@.contains_key(m) {
                    lemma_node_round_trip(
                        self.nodes@[m]@,
                        old(self).pager.content(m).skip(node_bytes(self.nodes@[m]@).len() as int),
                    );
                }
            }
            assert forall|m: usize| old(self).loaded(m) implies page_at(
                self.pager().image(),
                m as int,
            ) == node_bytes(old(self).held(m)) + old(self).pager().content(m).skip(
                node_bytes(old(self).held(m)).len() as int,
            ) by {
                let held = before.content(m);
                assert(self.pager.content(m) == held);
            }
            assert forall|m: usize| !old(self).loaded(m) implies page_at(
                self.pager().image(),
                m as int,
            ) == old(self).pager().content(m) by {
                let held = before.content(m);
                assert(self.pager.content(m) == held);
            }
        }
    }

    /// The pager beneath the table.
    pub fn pager_ref(&self) -> (pager: &Pager)
        ensures
            *pager == self.pager(),
    {
        &self.pager
    }

    /// Gives up the table for the store beneath it. Inserts that were not
    /// flushed are lost.
    pub fn into_store(self) -> (store: PageStore)
        ensures
            store@ == self.pager().image(),
    {
        self.pager.into_store()
    }

    /// Stores `row` under its id, at its place in key order.
    ///
    /// A row that is too long, a root page that does not decode, a table
    /// that is full and an id that is present are refused, in this order,
    /// and a refused insert leaves every node as it was.
    pub fn insert(&mut self, row: Row) -> (r: Result<(), DbError>)
        requires
            old(self).wf(),
        ensures
            final(self).wf(),
            final(self).root() == old(self).root(),
            final(self).pager().image() == old(self).pager().image(),
            forall|n: usize|
                n != old(self).root() ==> final(self).node(n) == old(self).node(n),
            match Self::insert_outcome(old(self).node(old(self).root()), row@) {
                Ok(node) => r is Ok && final(self).node(final(self).root()) == Some(node),
                Err(e) => r == Err::<(), DbError>(e) && final(self).node(final(self).root())
                    == old(self).node(old(self).root()),
            },
    {
        match row.validate() {
            Ok(()) => {},
            Err(e) => {
                return Err(e);
            },
        }
        let root: usize = self.root_page_num;
        let node = match self.get_node(root) {
            Ok(node) => node,
            Err(e) => {
                return Err(e);
            },
        };
        if node.num_cells() >= TABLE_MAX_ROWS {
            return Err(DbError::TableFull);
        }
        let key: u32 = row.id();
        match node.insert(key, row) {
            Ok(()) => Ok(()),
            Err(DbError::NodeFull) => Err(DbError::TableFull),
            Err(e) => Err(e),
        }
    }
}

} // verus!
