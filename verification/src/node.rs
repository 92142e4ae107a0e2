//! The node: the contents of one page, an ordered collection of cells.
//!
//! A node is laid out in its page as a 32-bit type tag (0 leaf, 1 root,
//! 2 internal), one byte that says whether a parent page follows (0 or 1),
//! the 64-bit parent page number if it does, the 64-bit number of cells, and
//! the cells in key order. A cell is its 32-bit key, the 64-bit byte count
//! of its value, and the value. All integers are little-endian. What follows
//! the last cell in the page is padding. A page of zeros is an empty leaf.
//!
//! A node is never split: an insert that does not fit is refused with
//! `NodeFull`, which is where growth across pages would start.

use vstd::prelude::*;
use vstd::slice::{slice_subrange, slice_to_vec};
use crate::error::DbError;
use crate::layout::{
    get_u32, get_u64, lemma_u32_bytes_of_value, lemma_u32_round_trip, lemma_u64_bytes_of_value,
    lemma_u64_round_trip, lemma_zero_u32, lemma_zero_u64, put_bytes, put_u32, put_u64, u32_bytes,
    u32_value, u64_bytes, u64_value, PAGE_SIZE,
};
use crate::row::{row_bytes, Row};

verus! {

/// The role of a node in the tree.
#[derive(Clone, Copy, Debug, PartialEq, Eq, Structural)]
pub enum Type {
    Root,
    Internal,
    Leaf,
}

/// A stored record: the key and the bytes of the row.
#[derive(Debug)]
pub struct Cell {
    key: u32,
    value: Vec<u8>,
}

/// What a cell is.
pub struct CellView {
    pub key: u32,
    pub value: Seq<u8>,
}

impl View for Cell {
    type V = CellView;

    closed spec fn view(&self) -> CellView {
        CellView { key: self.key, value: self.value@ }
    }
}

/// The contents of one page.
#[derive(Debug)]
pub struct Node {
    ty: Type,
    parent: Option<usize>,
    cells: Vec<Cell>,
}

/// What a node is.
pub struct NodeView {
    pub ty: Type,
    pub parent: Option<usize>,
    pub cells: Seq<CellView>,
}

impl View for Node {
    type V = NodeView;

    closed spec fn view(&self) -> NodeView {
        NodeView {
            ty: self.ty,
            parent: self.parent,
            cells: cell_views(self.cells@),
        }
    }
}

/// The views of a sequence of cells.
pub open spec fn cell_views(cells: Seq<Cell>) -> Seq<CellView> {
    Seq::new(cells.len(), |i: int| cells[i]@)
}

/// The keys of the cells are strictly ascending.
pub open spec fn sorted(cells: Seq<CellView>) -> bool {
    forall|i: int, j: int| 0 <= i < j < cells.len() ==> cells[i].key < cells[j].key
}

/// Some cell has the key.
pub open spec fn has_key(cells: Seq<CellView>, key: u32) -> bool {
    exists|i: int| 0 <= i < cells.len() && cells[i].key == key
}

/// The number of leading cells whose key is below `key`: where a cell with
/// that key belongs among ascending cells.
pub open spec fn position(cells: Seq<CellView>, key: u32) -> int
    decreases cells.len(),
{
    if cells.len() == 0 || cells[0].key >= key {
        0
    } else {
        1 + position(cells.drop_first(), key)
    }
}

/// The cells after an insert of `cell` at its place.
pub open spec fn with_cell(cells: Seq<CellView>, cell: CellView) -> Seq<CellView> {
    cells.insert(position(cells, cell.key), cell)
}

/// An index that parts the cells into those below `key` and those not below
/// it is the position of `key`.
pub proof fn lemma_position(cells: Seq<CellView>, key: u32, idx: int)
    requires
        0 <= idx <= cells.len(),
        forall|i: int| 0 <= i < idx ==> cells[i].key < key,
        forall|i: int| idx <= i < cells.len() ==> cells[i].key >= key,
    ensures
        position(cells, key) == idx,
    decreases cells.len(),
{
    if cells.len() == 0 || cells[0].key >= key {
        if idx > 0 {
            assert(cells[0].key < key);
        }
    } else {
        if idx == 0 {
            assert(cells[0].key >= key);
        }
        let rest = cells.drop_first();
        assert forall|i: int| 0 <= i < idx - 1 implies rest[i].key < key by {
            assert(rest[i] == cells[i + 1]);
        }
        assert forall|i: int| idx - 1 <= i < rest.len() implies rest[i].key >= key by {
            assert(rest[i] == cells[i + 1]);
        }
        lemma_position(rest, key, idx - 1);
    }
}

/// The position lies within the cells, has only smaller keys before it and
/// only keys that are not smaller from it on.
pub proof fn lemma_position_parts(cells: Seq<CellView>, key: u32)
    requires
        sorted(cells),
    ensures
        0 <= position(cells, key) <= cells.len(),
        forall|i: int| 0 <= i < position(cells, key) ==> cells[i].key < key,
        forall|i: int| position(cells, key) <= i < cells.len() ==> cells[i].key >= key,
    decreases cells.len(),
{
    if cells.len() == 0 || cells[0].key >= key {
        assert forall|i: int| 0 <= i < cells.len() implies cells[i].key >= key by {
            if i > 0 {
                assert(cells[0].key < cells[i].key);
            }
        }
    } else {
        let rest = cells.drop_first();
        assert(sorted(rest)) by {
            assert forall|i: int, j: int| 0 <= i < j < rest.len() implies rest[i].key
                < rest[j].key by {
                assert(rest[i] == cells[i + 1] && rest[j] == cells[j + 1]);
            }
        }
        lemma_position_parts(rest, key);
        let p = position(rest, key);
        assert forall|i: int| 0 <= i < p + 1 implies cells[i].key < key by {
            if i > 0 {
                assert(cells[i] == rest[i - 1]);
            }
        }
        assert forall|i: int| p + 1 <= i < cells.len() implies cells[i].key >= key by {
            assert(cells[i] == rest[i - 1]);
        }
    }
}

/// Ordering invariant: a cell with a new key, put at its position among
/// ascending cells, leaves the cells ascending, one more, and holding
/// exactly the old keys and the new one.
pub proof fn lemma_insert_keeps_order(cells: Seq<CellView>, cell: CellView)
    requires
        sorted(cells),
        !has_key(cells, cell.key),
    ensures
        sorted(with_cell(cells, cell)),
        with_cell(cells, cell).len() == cells.len() + 1,
        has_key(with_cell(cells, cell), cell.key),
        forall|k: u32| has_key(cells, k) ==> has_key(with_cell(cells, cell), k),
{
    lemma_position_parts(cells, cell.key);
    let p = position(cells, cell.key);
    let out = with_cell(cells, cell);
    assert forall|i: int| p <= i < cells.len() implies cells[i].key > cell.key by {
        if cells[i].key == cell.key {
            assert(has_key(cells, cell.key));
        }
    }
    assert forall|i: int, j: int| 0 <= i < j < out.len() implies out[i].key < out[j].key by {
        let ki = if i < p { cells[i] } else if i == p { cell } else { cells[i - 1] };
        let kj = if j < p { cells[j] } else if j == p { cell } else { cells[j - 1] };
        assert(out[i] == ki && out[j] == kj);
    }
    assert(out[p] == cell);
    assert forall|k: u32| has_key(cells, k) implies has_key(out, k) by {
        let i = choose|i: int| 0 <= i < cells.len() && cells[i].key == k;
        if i < p {
            assert(out[i] == cells[i]);
        } else {
            assert(out[i + 1] == cells[i]);
        }
    }
}

/// The cells after the inserts `new` were tried one after the other: an
/// insert whose key is present changes nothing.
pub open spec fn after_inserts(cells: Seq<CellView>, new: Seq<CellView>) -> Seq<CellView>
    decreases new.len(),
{
    if new.len() == 0 {
        cells
    } else {
        let before = after_inserts(cells, new.drop_last());
        if has_key(before, new.last().key) {
            before
        } else {
            with_cell(before, new.last())
        }
    }
}

/// Ordering invariant: whatever inserts are tried on ascending cells, and
/// so on the cells of an empty node, the cells ascend afterwards.
pub proof fn lemma_inserts_keep_order(cells: Seq<CellView>, new: Seq<CellView>)
    requires
        sorted(cells),
    ensures
        sorted(after_inserts(cells, new)),
        sorted(after_inserts(Seq::empty(), new)),
    decreases new.len(),
{
    if new.len() > 0 {
        lemma_inserts_keep_order(cells, new.drop_last());
        let before = after_inserts(cells, new.drop_last());
        if !has_key(before, new.last().key) {
            lemma_insert_keeps_order(before, new.last());
        }
        let fresh = after_inserts(Seq::empty(), new.drop_last());
        if !has_key(fresh, new.last().key) {
            lemma_insert_keeps_order(fresh, new.last());
        }
    }
}

/// The tag that stands for a node type in the layout.
pub open spec fn type_tag(ty: Type) -> u32 {
    match ty {
        Type::Leaf => 0,
        Type::Root => 1,
        Type::Internal => 2,
    }
}

/// The layout of the parent reference.
pub open spec fn parent_bytes(parent: Option<usize>) -> Seq<u8> {
    match parent {
        None => seq![0u8],
        Some(page) => seq![1u8] + u64_bytes(page as u64),
    }
}

/// The layout of a cell.
pub open spec fn cell_bytes(cell: CellView) -> Seq<u8> {
    u32_bytes(cell.key) + u64_bytes(cell.value.len() as u64) + cell.value
}

/// The layout of a sequence of cells: one after the other.
pub open spec fn cells_bytes(cells: Seq<CellView>) -> Seq<u8>
    decreases cells.len(),
{
    if cells.len() == 0 {
        Seq::empty()
    } else {
        cell_bytes(cells[0]) + cells_bytes(cells.drop_first())
    }
}

/// The layout of a node, without the padding that follows it in its page.
pub open spec fn node_bytes(node: NodeView) -> Seq<u8> {
    u32_bytes(type_tag(node.ty)) + parent_bytes(node.parent) + u64_bytes(node.cells.len() as u64)
        + cells_bytes(node.cells)
}

/// A node that can be laid out in a page and read back: its cells ascend by
/// key and its layout is no longer than a page.
pub open spec fn well_formed(node: NodeView) -> bool {
    &&& sorted(node.cells)
    &&& node_bytes(node).len() <= PAGE_SIZE
}

/// The node type that a tag stands for.
pub open spec fn parse_type(tag: u32) -> Option<Type> {
    if tag == 0 {
        Some(Type::Leaf)
    } else if tag == 1 {
        Some(Type::Root)
    } else if tag == 2 {
        Some(Type::Internal)
    } else {
        None
    }
}

/// The parent reference at the start of `b` and the number of bytes it
/// takes.
pub open spec fn parse_parent(b: Seq<u8>) -> Option<(Option<usize>, int)> {
    if b.len() < 1 {
        None
    } else if b[0] == 0 {
        Some((None, 1))
    } else if b[0] == 1 && b.len() >= 9 && u64_value(b.subrange(1, 9)) <= usize::MAX {
        Some((Some(u64_value(b.subrange(1, 9)) as usize), 9))
    } else {
        None
    }
}

/// The `count` cells at the start of `b` and the number of bytes they take.
pub open spec fn parse_cells(b: Seq<u8>, count: nat) -> Option<(Seq<CellView>, int)>
    decreases count,
{
    if count == 0 {
        Some((Seq::empty(), 0))
    } else if b.len() < 12 {
        None
    } else {
        let n = u64_value(b.subrange(4, 12)) as int;
        if b.len() - 12 < n {
            None
        } else {
            match parse_cells(b.skip(12 + n), (count - 1) as nat) {
                None => None,
                Some((rest, used)) => Some(
                    (
                        seq![
                            CellView {
                                key: u32_value(b.subrange(0, 4)),
                                value: b.subrange(12, 12 + n),
                            },
                        ] + rest,
                        12 + n + used,
                    ),
                ),
            }
        }
    }
}

/// The node that `b` starts with, if it starts with one whose keys ascend.
/// Bytes after the node do not matter.
pub open spec fn parse_node(b: Seq<u8>) -> Option<NodeView> {
    if b.len() < 4 {
        None
    } else {
        match parse_type(u32_value(b.subrange(0, 4))) {
            None => None,
            Some(ty) => match parse_parent(b.skip(4)) {
                None => None,
                Some((parent, used)) => {
                    let c = b.skip(4 + used);
                    if c.len() < 8 {
                        None
                    } else {
                        match parse_cells(c.skip(8), u64_value(c.subrange(0, 8)) as nat) {
                            None => None,
                            Some((cells, _)) => if sorted(cells) {
                                Some(NodeView { ty, parent, cells })
                            } else {
                                None
                            },
                        }
                    }
                },
            },
        }
    }
}

/// The layout of cells one after the other is the layout of the first ones
/// followed by that of the others.
pub proof fn lemma_cells_bytes_concat(a: Seq<CellView>, b: Seq<CellView>)
    ensures
        cells_bytes(a + b) == cells_bytes(a) + cells_bytes(b),
    decreases a.len(),
{
    if a.len() == 0 {
        assert(a + b =~= b);
        assert(cells_bytes(a) + cells_bytes(b) =~= cells_bytes(b));
    } else {
        lemma_cells_bytes_concat(a.drop_first(), b);
        assert((a + b).drop_first() =~= a.drop_first() + b);
        assert(cells_bytes(a + b) =~= cells_bytes(a) + cells_bytes(b));
    }
}

/// The layout of a single cell, as a sequence of one.
pub proof fn lemma_cells_bytes_one(cell: CellView)
    ensures
        cells_bytes(seq![cell]) == cell_bytes(cell),
        cell_bytes(cell).len() == 12 + cell.value.len(),
{
    let one = seq![cell];
    lemma_u32_round_trip(cell.key);
    lemma_u64_round_trip(cell.value.len() as u64);
    assert(one.drop_first() =~= Seq::<CellView>::empty());
    assert(cells_bytes(one.drop_first()) =~= Seq::<u8>::empty());
    assert(cells_bytes(one) =~= cell_bytes(cell));
}

/// An insert lengthens the layout of a node by the layout of the cell.
pub proof fn lemma_insert_size(node: NodeView, at: int, cell: CellView)
    requires
        0 <= at <= node.cells.len(),
    ensures
        node_bytes(NodeView { cells: node.cells.insert(at, cell), ..node }).len() == node_bytes(
            node,
        ).len() + 12 + cell.value.len(),
{
    let cells = node.cells;
    lemma_u64_round_trip(cells.len() as u64);
    lemma_u64_round_trip(cells.insert(at, cell).len() as u64);
    let head = cells.take(at);
    let tail = cells.skip(at);
    assert(cells =~= head + tail);
    assert(cells.insert(at, cell) =~= head + (seq![cell] + tail));
    lemma_cells_bytes_concat(head, tail);
    lemma_cells_bytes_concat(head, seq![cell] + tail);
    lemma_cells_bytes_concat(seq![cell], tail);
    lemma_cells_bytes_one(cell);
}

/// The first cells of a node take no more bytes than all of them.
pub proof fn lemma_cells_bytes_take(cells: Seq<CellView>, n: int)
    requires
        0 <= n < cells.len(),
    ensures
        cells_bytes(cells.take(n + 1)) == cells_bytes(cells.take(n)) + cell_bytes(cells[n]),
        cells_bytes(cells.take(n + 1)).len() <= cells_bytes(cells).len(),
{
    assert(cells.take(n + 1) =~= cells.take(n) + seq![cells[n]]);
    lemma_cells_bytes_concat(cells.take(n), seq![cells[n]]);
    lemma_cells_bytes_one(cells[n]);
    assert(cells =~= cells.take(n + 1) + cells.skip(n + 1));
    lemma_cells_bytes_concat(cells.take(n + 1), cells.skip(n + 1));
}

/// Cells that are written out and followed by anything read back as
/// themselves.
pub proof fn lemma_cells_round_trip(cells: Seq<CellView>, rest: Seq<u8>)
    requires
        forall|i: int| 0 <= i < cells.len() ==> (#[trigger] cells[i]).value.len() <= u64::MAX,
    ensures
        parse_cells(cells_bytes(cells) + rest, cells.len()) == Some(
            (cells, cells_bytes(cells).len() as int),
        ),
    decreases cells.len(),
{
    if cells.len() == 0 {
    } else {
        let first = cells[0];
        let others = cells.drop_first();
        let b = cells_bytes(cells) + rest;
        let n = first.value.len() as int;
        lemma_u32_round_trip(first.key);
        lemma_u64_round_trip(n as u64);
        assert(b.subrange(0, 4) =~= u32_bytes(first.key));
        assert(b.subrange(4, 12) =~= u64_bytes(n as u64));
        assert(b.subrange(12, 12 + n) =~= first.value);
        assert(b.skip(12 + n) =~= cells_bytes(others) + rest);
        assert forall|i: int| 0 <= i < others.len() implies (#[trigger] others[i]).value.len()
            <= u64::MAX by {
            assert(others[i] == cells[i + 1]);
        }
        lemma_cells_round_trip(others, rest);
        assert(seq![first] + others =~= cells);
        assert(CellView { key: first.key, value: first.value } == first);
    }
}

/// Round trip: a well-formed node that is written out reads back as itself,
/// whatever padding follows it.
pub proof fn lemma_node_round_trip(node: NodeView, rest: Seq<u8>)
    requires
        well_formed(node),
    ensures
        parse_node(node_bytes(node) + rest) == Some(node),
{
    let b = node_bytes(node) + rest;
    let cb = cells_bytes(node.cells);
    let count = node.cells.len();
    let pb = parent_bytes(node.parent);
    lemma_values_bounded(node);
    lemma_u32_round_trip(type_tag(node.ty));
    lemma_u64_round_trip(count as u64);
    assert(b.subrange(0, 4) =~= u32_bytes(type_tag(node.ty)));
    let after_tag = pb + u64_bytes(count as u64) + cb + rest;
    assert(b.skip(4) =~= after_tag);
    match node.parent {
        None => {
            assert(after_tag[0] == 0);
        },
        Some(page) => {
            lemma_u64_round_trip(page as u64);
            assert(after_tag[0] == 1);
            assert(after_tag.subrange(1, 9) =~= u64_bytes(page as u64));
        },
    }
    let c = b.skip(4 + pb.len() as int);
    assert(c =~= u64_bytes(count as u64) + cb + rest);
    assert(c.subrange(0, 8) =~= u64_bytes(count as u64));
    assert(c.skip(8) =~= cb + rest);
    lemma_cells_round_trip(node.cells, rest);
}

/// In a well-formed node the number of cells and the size of every value
/// are at most the size of a page.
pub proof fn lemma_values_bounded(node: NodeView)
    requires
        node_bytes(node).len() <= PAGE_SIZE,
    ensures
        node.cells.len() <= PAGE_SIZE,
        forall|i: int| 0 <= i < node.cells.len() ==> (#[trigger] node.cells[i]).value.len() <= PAGE_SIZE,
{
    lemma_cells_bounded(node.cells);
}

/// Cells take at least twelve bytes each, and each at least its value.
pub proof fn lemma_cells_bounded(cells: Seq<CellView>)
    ensures
        12 * cells.len() <= cells_bytes(cells).len(),
        forall|i: int| 0 <= i < cells.len() ==> (#[trigger] cells[i]).value.len() + 12 <= cells_bytes(cells).len(),
    decreases cells.len(),
{
    if cells.len() > 0 {
        let others = cells.drop_first();
        lemma_cells_bounded(others);
        lemma_cells_bytes_one(cells[0]);
        assert forall|i: int| 0 <= i < cells.len() implies (#[trigger] cells[i]).value.len() + 12
            <= cells_bytes(cells).len() by {
            if i > 0 {
                assert(cells[i] == others[i - 1]);
            }
        }
    }
}

/// What was read as cells is what stands at the start of the bytes.
pub proof fn lemma_cells_prefix(b: Seq<u8>, count: nat)
    requires
        parse_cells(b, count) is Some,
    ensures
        ({
            let (cells, used) = parse_cells(b, count)->Some_0;
            &&& cells.len() == count
            &&& 0 <= used <= b.len()
            &&& cells_bytes(cells) == b.subrange(0, used)
        }),
    decreases count,
{
    if count == 0 {
        assert(cells_bytes(Seq::<CellView>::empty()) =~= b.subrange(0, 0));
    } else {
        let n = u64_value(b.subrange(4, 12)) as int;
        let tail = b.skip(12 + n);
        lemma_cells_prefix(tail, (count - 1) as nat);
        let (rest, used) = parse_cells(tail, (count - 1) as nat)->Some_0;
        let first = CellView { key: u32_value(b.subrange(0, 4)), value: b.subrange(12, 12 + n) };
        let cells = seq![first] + rest;
        lemma_u32_bytes_of_value(b.subrange(0, 4));
        lemma_u64_bytes_of_value(b.subrange(4, 12));
        assert(cell_bytes(first) =~= b.subrange(0, 12 + n));
        assert(cells.drop_first() =~= rest);
        assert(tail.subrange(0, used) =~= b.subrange(12 + n, 12 + n + used));
        assert(cells_bytes(cells) =~= b.subrange(0, 12 + n + used));
    }
}

/// Decoding a node and writing it out again reproduces the bytes it was read
/// from, up to the padding: the layout of the node is the start of those
/// bytes.
pub proof fn lemma_node_prefix(b: Seq<u8>)
    requires
        parse_node(b) is Some,
    ensures
        node_bytes(parse_node(b)->Some_0).len() <= b.len(),
        node_bytes(parse_node(b)->Some_0) == b.subrange(
            0,
            node_bytes(parse_node(b)->Some_0).len() as int,
        ),
        sorted(parse_node(b)->Some_0.cells),
{
    let node = parse_node(b)->Some_0;
    let tag = u32_value(b.subrange(0, 4));
    lemma_u32_bytes_of_value(b.subrange(0, 4));
    let (parent, used) = parse_parent(b.skip(4))->Some_0;
    let c = b.skip(4 + used);
    let count = u64_value(c.subrange(0, 8));
    lemma_u64_bytes_of_value(c.subrange(0, 8));
    lemma_cells_prefix(c.skip(8), count as nat);
    let (cells, cused) = parse_cells(c.skip(8), count as nat)->Some_0;
    assert(type_tag(node.ty) == tag);
    assert(parent_bytes(parent) =~= b.subrange(4, 4 + used)) by {
        let p = b.skip(4);
        match parent {
            None => {
                assert(p[0] == 0);
            },
            Some(page) => {
                lemma_u64_bytes_of_value(p.subrange(1, 9));
                assert(p.subrange(1, 9) =~= b.subrange(5, 13));
            },
        }
    }
    assert(c.subrange(0, 8) =~= b.subrange(4 + used, 12 + used));
    assert(c.skip(8).subrange(0, cused) =~= b.subrange(12 + used, 12 + used + cused));
    assert(node_bytes(node) =~= b.subrange(0, 12 + used + cused));
}

/// The leaf without cells.
pub open spec fn empty_leaf() -> NodeView {
    NodeView { ty: Type::Leaf, parent: None, cells: Seq::empty() }
}

/// The empty leaf takes thirteen bytes and is well-formed.
pub proof fn lemma_empty_leaf()
    ensures
        node_bytes(empty_leaf()).len() == 13,
        well_formed(empty_leaf()),
{
    lemma_u32_round_trip(0);
    lemma_u64_round_trip(0);
}

/// A page that was never written, which holds only zeros, is an empty leaf.
pub proof fn lemma_zero_page(b: Seq<u8>)
    requires
        b.len() >= 13,
        forall|i: int| 0 <= i < b.len() ==> b[i] == 0,
    ensures
        parse_node(b) == Some(empty_leaf()),
{
    lemma_zero_u32(b.subrange(0, 4));
    let c = b.skip(5);
    assert(b.skip(4)[0] == 0);
    lemma_zero_u64(c.subrange(0, 8));
    assert(parse_cells(c.skip(8), 0) == Some((Seq::<CellView>::empty(), 0int)));
    assert(sorted(Seq::<CellView>::empty()));
}

/// A node stays well-formed when the value of one cell is replaced by as
/// many other bytes.
pub proof fn lemma_update_keeps_form(node: NodeView, index: int, value: Seq<u8>)
    requires
        well_formed(node),
        0 <= index < node.cells.len(),
    ensures
        value.len() == node.cells[index].value.len() ==> well_formed(
            NodeView {
                cells: node.cells.update(index, CellView { key: node.cells[index].key, value }),
                ..node
            },
        ),
{
    if value.len() == node.cells[index].value.len() {
        let cells = node.cells;
        let cell = CellView { key: cells[index].key, value };
        let out = cells.update(index, cell);
        let head = cells.take(index);
        let tail = cells.skip(index + 1);
        assert(cells =~= head + (seq![cells[index]] + tail));
        assert(out =~= head + (seq![cell] + tail));
        lemma_cells_bytes_concat(head, seq![cells[index]] + tail);
        lemma_cells_bytes_concat(seq![cells[index]], tail);
        lemma_cells_bytes_concat(head, seq![cell] + tail);
        lemma_cells_bytes_concat(seq![cell], tail);
        lemma_cells_bytes_one(cells[index]);
        lemma_cells_bytes_one(cell);
        lemma_u64_round_trip(cells.len() as u64);
        assert forall|i: int, j: int| 0 <= i < j < out.len() implies out[i].key < out[j].key by {
            assert(out[i].key == cells[i].key && out[j].key == cells[j].key);
        }
    }
}

/// The bytes that stand before the cells in the layout of a node.
pub open spec fn header_bytes(node: NodeView) -> Seq<u8> {
    u32_bytes(type_tag(node.ty)) + parent_bytes(node.parent) + u64_bytes(node.cells.len() as u64)
}

/// The bytes before the cells are at most twenty-one.
pub proof fn lemma_header_size(node: NodeView)
    ensures
        node_bytes(node) == header_bytes(node) + cells_bytes(node.cells),
        13 <= header_bytes(node).len() <= 21,
{
    lemma_u32_round_trip(type_tag(node.ty));
    lemma_u64_round_trip(node.cells.len() as u64);
    match node.parent {
        None => {},
        Some(page) => {
            lemma_u64_round_trip(page as u64);
        },
    }
}

/// Cells whose values take at most `limit` bytes take at most twelve bytes
/// more than that each.
pub proof fn lemma_cells_size(cells: Seq<CellView>, limit: nat)
    requires
        forall|i: int| 0 <= i < cells.len() ==> (#[trigger] cells[i]).value.len() <= limit,
    ensures
        cells_bytes(cells).len() <= cells.len() * (12 + limit),
    decreases cells.len(),
{
    if cells.len() > 0 {
        let others = cells.drop_first();
        assert forall|i: int| 0 <= i < others.len() implies (#[trigger] others[i]).value.len()
            <= limit by {
            assert(others[i] == cells[i + 1]);
        }
        lemma_cells_size(others, limit);
        lemma_cells_bytes_one(cells[0]);
        assert(cells.len() * (12 + limit) == others.len() * (12 + limit) + (12 + limit))
            by (nonlinear_arith)
            requires
                cells.len() == others.len() + 1,
        ;
    }
}

/// Ascending cells stay ascending under one more cell exactly when its key
/// is above the last one.
pub proof fn lemma_sorted_push(cells: Seq<CellView>, cell: CellView)
    ensures
        sorted(cells.push(cell)) <==> sorted(cells) && (cells.len() == 0 || cells.last().key
            < cell.key),
{
    let out = cells.push(cell);
    if sorted(out) {
        assert forall|i: int, j: int| 0 <= i < j < cells.len() implies cells[i].key
            < cells[j].key by {
            assert(out[i] == cells[i] && out[j] == cells[j]);
        }
        if cells.len() > 0 {
            assert(out[cells.len() - 1] == cells.last());
            assert(out[cells.len() as int] == cell);
        }
    }
    if sorted(cells) && (cells.len() == 0 || cells.last().key < cell.key) {
        assert forall|i: int, j: int| 0 <= i < j < out.len() implies out[i].key < out[j].key by {
            if j < cells.len() {
                assert(out[i] == cells[i] && out[j] == cells[j]);
            } else {
                assert(out[j] == cell);
                assert(out[i] == cells[i]);
                if i < cells.len() - 1 {
                    assert(cells[i].key < cells[cells.len() - 1].key);
                }
            }
        }
    }
}

impl Cell {
    pub fn key(&self) -> (key: u32)
        ensures
            key == self@.key,
    {
        self.key
    }

    /// The bytes of the row that the cell holds.
    pub fn value(&self) -> (value: &Vec<u8>)
        ensures
            value@ == self@.value,
    {
        &self.value
    }
}

impl Node {
    /// The node can be laid out in a page and read back.
    pub open spec fn wf(&self) -> bool {
        well_formed(self@)
    }

    /// A leaf without cells.
    pub fn leaf() -> (node: Node)
        ensures
            node@ == empty_leaf(),
            node.wf(),
    {
        let node = Node { ty: Type::Leaf, parent: None, cells: Vec::new() };
        proof {
            assert(node@.cells =~= Seq::<CellView>::empty());
            lemma_u32_round_trip(type_tag(node@.ty));
            lemma_u64_round_trip(0);
        }
        node
    }

    pub fn num_cells(&self) -> (n: usize)
        ensures
            n == self@.cells.len(),
    {
        self.cells.len()
    }

    pub fn ty(&self) -> (ty: Type)
        ensures
            ty == self@.ty,
    {
        self.ty
    }

    pub fn parent(&self) -> (parent: Option<usize>)
        ensures
            parent == self@.parent,
    {
        self.parent
    }

    /// The cell at `index`, counted in key order.
    pub fn cell(&self, index: usize) -> (cell: &Cell)
        requires
            index < self@.cells.len(),
        ensures
            cell@ == self@.cells[index as int],
    {
        &self.cells[index]
    }

    /// The bytes of the row in the cell at `index`, to be read and written
    /// in place. The node stays well-formed as long as their number stays
    /// as it is.
    pub fn cell_mut(&mut self, index: usize) -> (value: &mut Vec<u8>)
        requires
            old(self).wf(),
            index < old(self)@.cells.len(),
        ensures
            value@ == old(self)@.cells[index as int].value,
            final(self)@.ty == old(self)@.ty,
            final(self)@.parent == old(self)@.parent,
            final(self)@.cells == old(self)@.cells.update(
                index as int,
                CellView { key: old(self)@.cells[index as int].key, value: final(value)@ },
            ),
            final(value)@.len() == value@.len() ==> final(self).wf(),
    {
        let value = &mut self.cells[index].value;
        proof {
            lemma_update_keeps_form(old(self)@, index as int, final(value)@);
        }
        value
    }

    /// Where a cell with `key` belongs: a binary search over the keys.
    fn search(&self, key: u32) -> (idx: usize)
        requires
            sorted(self@.cells),
        ensures
            idx == position(self@.cells, key),
            idx <= self@.cells.len(),
            has_key(self@.cells, key) <==> idx < self@.cells.len() && self@.cells[idx as int].key
                == key,
    {
        let mut lo: usize = 0;
        let mut hi: usize = self.cells.len();
        while lo < hi
            invariant
                lo <= hi <= self@.cells.len(),
                self@.cells.len() == self.cells@.len(),
                sorted(self@.cells),
                forall|i: int| 0 <= i < lo ==> self@.cells[i].key < key,
                forall|i: int| hi <= i < self@.cells.len() ==> self@.cells[i].key >= key,
            decreases hi - lo,
        {
            let mid: usize = lo + (hi - lo) / 2;
            if self.cells[mid].key < key {
                assert(self@.cells[mid as int].key < key);
                lo = mid + 1;
            } else {
                assert(self@.cells[mid as int].key >= key);
                hi = mid;
            }
        }
        proof {
            lemma_position(self@.cells, key, lo as int);
            if has_key(self@.cells, key) {
                let i = choose|i: int| 0 <= i < self@.cells.len() && self@.cells[i].key == key;
                if i > lo {
                    assert(self@.cells[lo as int].key < self@.cells[i].key);
                }
            }
        }
        lo
    }

    /// The bytes of the node in the layout, without padding.
    pub fn encode(&self) -> (bytes: Vec<u8>)
        ensures
            bytes@ == node_bytes(self@),
    {
        let mut out: Vec<u8> = Vec::new();
        let tag: u32 = match self.ty {
            Type::Leaf => 0,
            Type::Root => 1,
            Type::Internal => 2,
        };
        put_u32(&mut out, tag);
        match self.parent {
            None => {
                out.push(0);
            },
            Some(page) => {
                out.push(1);
                put_u64(&mut out, page as u64);
            },
        }
        let n: usize = self.cells.len();
        put_u64(&mut out, n as u64);
        assert(out@ =~= header_bytes(self@));
        let mut i: usize = 0;
        while i < n
            invariant
                i <= n,
                n == self.cells@.len(),
                n == self@.cells.len(),
                out@ == header_bytes(self@) + cells_bytes(self@.cells.take(i as int)),
            decreases n - i,
        {
            let ghost before = out@;
            let cell: &Cell = &self.cells[i];
            put_u32(&mut out, cell.key);
            put_u64(&mut out, cell.value.len() as u64);
            put_bytes(&mut out, cell.value.as_slice());
            proof {
                lemma_cells_bytes_take(self@.cells, i as int);
                assert(cell@ == self@.cells[i as int]);
                assert(out@ =~= before + cell_bytes(cell@));
                assert(out@ =~= header_bytes(self@) + cells_bytes(self@.cells.take(i + 1)));
            }
            i += 1;
        }
        proof {
            assert(self@.cells.take(n as int) =~= self@.cells);
        }
        out
    }

    /// Lays the node out at the start of its page. The rest of the page is
    /// padding and keeps what it held.
    pub fn write_page(&self, page: &mut Vec<u8>)
        requires
            self.wf(),
            old(page)@.len() == PAGE_SIZE,
        ensures
            final(page)@.len() == PAGE_SIZE,
            final(page)@ == node_bytes(self@) + old(page)@.skip(node_bytes(self@).len() as int),
            parse_node(final(page)@) == Some(self@),
    {
        let bytes: Vec<u8> = self.encode();
        let n: usize = bytes.len();
        let ghost held = page@;
        let mut i: usize = 0;
        assert(page@ =~= bytes@.take(0) + held.skip(0));
        while i < n
            invariant
                i <= n,
                n == bytes@.len(),
                n <= PAGE_SIZE,
                held.len() == PAGE_SIZE,
                page@.len() == PAGE_SIZE,
                page@ == bytes@.take(i as int) + held.skip(i as int),
            decreases n - i,
        {
            page.set(i, bytes[i]);
            i += 1;
            assert(page@ =~= bytes@.take(i as int) + held.skip(i as int));
        }
        proof {
            assert(bytes@.take(n as int) =~= bytes@);
            lemma_node_round_trip(self@, held.skip(n as int));
        }
    }

    /// Puts a cell for `row` under `key` at its place in key order.
    ///
    /// A key that is present is refused with `DuplicateKey`; a cell that
    /// would make the node longer than a page is refused with `NodeFull`.
    /// A refused insert leaves the node as it was.
    pub fn insert(&mut self, key: u32, row: Row) -> (r: Result<(), DbError>)
        requires
            old(self).wf(),
        ensures
            final(self).wf(),
            has_key(old(self)@.cells, key) ==> r == Err::<(), DbError>(DbError::DuplicateKey),
            !has_key(old(self)@.cells, key) && node_bytes(old(self)@).len() + 12 + row_bytes(
                row@,
            ).len() > PAGE_SIZE ==> r == Err::<(), DbError>(DbError::NodeFull),
            !has_key(old(self)@.cells, key) && node_bytes(old(self)@).len() + 12 + row_bytes(
                row@,
            ).len() <= PAGE_SIZE ==> r is Ok,
            r is Err ==> final(self)@ == old(self)@,
            r is Ok ==> final(self)@ == (NodeView {
                cells: with_cell(old(self)@.cells, CellView { key, value: row_bytes(row@) }),
                ..old(self)@
            }),
    {
        let value: Vec<u8> = row.encode();
        let idx: usize = self.search(key);
        if idx < self.cells.len() && self.cells[idx].key == key {
            return Err(DbError::DuplicateKey);
        }
        let size: usize = self.encode().len();
        if value.len() > PAGE_SIZE - size || PAGE_SIZE - size - value.len() < 12 {
            return Err(DbError::NodeFull);
        }
        let ghost cell = CellView { key, value: value@ };
        self.cells.insert(idx, Cell { key, value });
        proof {
            assert(self@.cells =~= old(self)@.cells.insert(idx as int, cell));
            lemma_insert_keeps_order(old(self)@.cells, cell);
            lemma_insert_size(old(self)@, idx as int, cell);
        }
        Ok(())
    }

    /// Reads the node that `bytes` start with.
    pub fn decode(bytes: &[u8]) -> (r: Result<Node, DbError>)
        ensures
            match parse_node(bytes@) {
                Some(v) => r matches Ok(node) && node@ == v && (bytes@.len() <= PAGE_SIZE
                    ==> node.wf()),
                None => r matches Err(e) && e == DbError::DecodeFailure,
            },
    {
        let len: usize = bytes.len();
        let ghost b = bytes@;
        if len < 4 {
            return Err(DbError::DecodeFailure);
        }
        let tag: u32 = get_u32(bytes, 0);
        let ty: Type = if tag == 0 {
            Type::Leaf
        } else if tag == 1 {
            Type::Root
        } else if tag == 2 {
            Type::Internal
        } else {
            return Err(DbError::DecodeFailure);
        };
        if len < 5 {
            return Err(DbError::DecodeFailure);
        }
        let flag: u8 = bytes[4];
        assert(b.skip(4)[0] == flag);
        let parent: Option<usize>;
        let mut at: usize;
        if flag == 0 {
            parent = None;
            at = 5;
        } else if flag == 1 {
            if len < 13 {
                return Err(DbError::DecodeFailure);
            }
            let page: u64 = get_u64(bytes, 5);
            assert(b.skip(4).subrange(1, 9) =~= b.subrange(5, 13));
            if page > usize::MAX as u64 {
                return Err(DbError::DecodeFailure);
            }
            parent = Some(page as usize);
            at = 13;
        } else {
            return Err(DbError::DecodeFailure);
        }
        assert(parse_parent(b.skip(4)) == Some((parent, at - 4)));
        if len - at < 8 {
            return Err(DbError::DecodeFailure);
        }
        let count: u64 = get_u64(bytes, at);
        assert(b.skip(at as int).subrange(0, 8) =~= b.subrange(at as int, at + 8));
        at = at + 8;
        let ghost start: int = at as int;
        assert(b.skip(start - 8).skip(8) =~= b.skip(start));
        let mut cells: Vec<Cell> = Vec::new();
        let mut ascending: bool = true;
        let mut k: u64 = 0;
        assert(cell_views(cells@) =~= Seq::<CellView>::empty());
        assert(parse_node(b) == (match parse_cells(b.skip(start), count as nat) {
            None => None::<NodeView>,
            Some((all, _)) => if sorted(all) {
                Some(NodeView { ty, parent, cells: all })
            } else {
                None
            },
        }));
        while k < count
            invariant
                k <= count,
                parse_node(b) == (match parse_cells(b.skip(start), count as nat) {
                    None => None::<NodeView>,
                    Some((all, _)) => if sorted(all) {
                        Some(NodeView { ty, parent, cells: all })
                    } else {
                        None
                    },
                }),
                len == b.len(),
                b == bytes@,
                start <= at <= len,
                ascending == sorted(cell_views(cells@)),
                parse_cells(b.skip(start), count as nat) == (match parse_cells(
                    b.skip(at as int),
                    (count - k) as nat,
                ) {
                    None => None::<(Seq<CellView>, int)>,
                    Some((rest, used)) => Some((cell_views(cells@) + rest, at - start + used)),
                }),
            decreases count - k,
        {
            let ghost tail = b.skip(at as int);
            if len - at < 12 {
                return Err(DbError::DecodeFailure);
            }
            let key: u32 = get_u32(bytes, at);
            let n: u64 = get_u64(bytes, at + 4);
            assert(tail.subrange(0, 4) =~= b.subrange(at as int, at + 4));
            assert(tail.subrange(4, 12) =~= b.subrange(at + 4, at + 12));
            let room: u64 = (len - at - 12) as u64;
            if room < n {
                return Err(DbError::DecodeFailure);
            }
            let from: usize = at + 12;
            let to: usize = from + n as usize;
            let value: Vec<u8> = slice_to_vec(slice_subrange(bytes, from, to));
            assert(value@ =~= tail.subrange(12, 12 + n));
            assert(tail.skip(12 + n) =~= b.skip(to as int));
            let ghost before = cell_views(cells@);
            let ghost cell = CellView { key, value: value@ };
            let ghost was = ascending;
            if cells.len() > 0 && cells[cells.len() - 1].key >= key {
                ascending = false;
            }
            proof {
                if before.len() > 0 {
                    assert(before.last() == cells@[cells@.len() - 1]@);
                }
                assert(ascending == (was && (before.len() == 0 || before.last().key < key)));
            }
            cells.push(Cell { key, value });
            proof {
                assert(cell_views(cells@) =~= before.push(cell));
                lemma_sorted_push(before, cell);
                match parse_cells(b.skip(to as int), (count - k - 1) as nat) {
                    None => {},
                    Some((rest, used)) => {
                        assert(before + (seq![cell] + rest) =~= before.push(cell) + rest);
                    },
                }
            }
            at = to;
            k = k + 1;
        }
        if !ascending {
            return Err(DbError::DecodeFailure);
        }
        let node = Node { ty, parent, cells };
        proof {
            assert(cell_views(cells@) + Seq::<CellView>::empty() =~= cell_views(cells@));
            assert(parse_node(b) == Some(node@));
            lemma_node_prefix(b);
        }
        Ok(node)
    }
}

} // verus!
