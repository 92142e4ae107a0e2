//! Opening and closing the store.
//!
//! The caller reads the backing file into a page store before `open` and
//! writes the store that `close` hands back to the file.

use vstd::prelude::*;
use crate::cursor::rows_from;
use crate::layout::PAGE_SIZE;
use crate::node::{
    empty_leaf, lemma_empty_leaf, lemma_node_round_trip, node_bytes, parse_node, Node,
};
use crate::pager::Pager;
use crate::row::RowView;
use crate::store::{lemma_with_page, page_at, with_page, PageStore, MAX_PAGES};
use crate::table::Table;

verus! {

/// The image that a table is opened over: an image without a whole page
/// gets an empty leaf written to page 0, any other image stays as it is.
pub open spec fn bootstrapped(image: Seq<u8>) -> Seq<u8> {
    if image.len() / PAGE_SIZE as nat == 0 {
        with_page(
            image,
            0,
            node_bytes(empty_leaf()) + page_at(image, 0).skip(node_bytes(empty_leaf()).len() as int),
        )
    } else {
        image
    }
}

/// `table` is what `open` makes of `image`: it stands over the bootstrapped
/// image and sees in every page what the page decodes to.
pub open spec fn opened_from(image: Seq<u8>, table: Table) -> bool {
    &&& table.wf()
    &&& table.root() == 0
    &&& table.pager().image() == bootstrapped(image)
    &&& forall|n: usize| table.node(n) == parse_node(page_at(bootstrapped(image), n as int))
}

/// `image` is what `close` makes of `table`: every page of it decodes to
/// the node that the table saw for it.
pub open spec fn saved_as(table: Table, image: Seq<u8>) -> bool {
    &&& image.len() >= table.pager().image().len()
    &&& forall|n: usize| parse_node(page_at(image, n as int)) == table.node(n)
}

/// Empty-file bootstrap: over an image without a whole page the root is an
/// empty leaf, and a walk over it yields no row.
pub proof fn lemma_bootstrap(image: Seq<u8>, table: Table)
    requires
        image.len() < PAGE_SIZE,
        opened_from(image, table),
    ensures
        table.node(table.root()) == Some(empty_leaf()),
        rows_from(table.node(table.root())->Some_0.cells, 0) == Seq::<RowView>::empty(),
{
    lemma_empty_leaf();
    let pad = page_at(image, 0).skip(node_bytes(empty_leaf()).len() as int);
    lemma_with_page(image, 0, node_bytes(empty_leaf()) + pad, 0);
    lemma_node_round_trip(empty_leaf(), pad);
}

/// Persistence: a table that is closed and opened again from the image it
/// was saved as sees the same root node, and a walk yields the same rows in
/// the same order.
pub proof fn lemma_persistence(before: Table, image: Seq<u8>, after: Table)
    requires
        before.wf(),
        before.pager().image().len() >= PAGE_SIZE,
        saved_as(before, image),
        opened_from(image, after),
    ensures
        after.node(after.root()) == before.node(before.root()),
        forall|n: usize| after.node(n) == before.node(n),
        before.node(before.root()) matches Some(node) ==> rows_from(
            after.node(after.root())->Some_0.cells,
            0,
        ) == rows_from(node.cells, 0),
{
    before.lemma_wf(0);
}

/// Opens the table over the image of the backing file. An image without a
/// whole page is given an empty leaf as its root page first.
pub fn open(store: PageStore) -> (table: Table)
    ensures
        opened_from(store@, table),
        table.pager().image().len() >= PAGE_SIZE,
        forall|n: usize| !table.loaded(n),
{
    let mut pager = Pager::new(store);
    if pager.empty() {
        let ghost fresh = pager;
        match pager.get_page(0) {
            Ok(page) => {
                Node::leaf().write_page(page);
            },
            Err(_) => {},
        }
        proof {
            pager.lemma_flushed_first((MAX_PAGES + 1) as nat);
            assert(pager.cached(0) == node_bytes(empty_leaf()) + page_at(store@, 0).skip(
                node_bytes(empty_leaf()).len() as int,
            ));
        }
        pager.flush();
        proof {
            lemma_empty_leaf();
            assert(pager.image() == bootstrapped(store@));
            assert forall|n: usize| #[trigger]
                pager.content(n) == page_at(bootstrapped(store@), n as int) by {}
        }
    }
    Table::new(pager)
}

/// Flushes the table and hands back the store, whose bytes are to be
/// written to the backing file. The table is gone after this.
pub fn close(table: Table) -> (store: PageStore)
    requires
        table.wf(),
    ensures
        saved_as(table, store@),
{
    let mut table = table;
    table.flush();
    table.into_store()
}

} // verus!
