//! The byte layout of a leaf page, as functions on the page's bytes, and the
//! facts about it that the leaf operations rest on.
//!
//! Byte 0 is the kind of the page (0 leaf, 1 internal), byte 1 the root
//! flag, bytes 2 to 5 the index of the parent page. A leaf goes on with its
//! number of cells (bytes 6 to 9) and the index of the next leaf (bytes 10 to
//! 13). Behind this header the cells follow, each a 4-byte key and a row.

use vstd::prelude::*;
use crate::codec::{decode_row, encode_row};
use crate::datatype::{ScalarView, Schema};
use crate::encoding::{lemma_u32_round_trip, overwrite, u32_bytes, u32_value};

verus! {

pub const PAGE_SIZE: usize = 4096;

pub const NODE_TYPE_OFFSET: usize = 0;

pub const IS_ROOT_OFFSET: usize = 1;

pub const PARENT_POINTER_OFFSET: usize = 2;

pub const COMMON_NODE_HEADER_SIZE: usize = 6;

pub const LEAF_NUM_CELLS_OFFSET: usize = COMMON_NODE_HEADER_SIZE;

pub const LEAF_NEXT_LEAF_OFFSET: usize = 10;

pub const LEAF_HEADER_SIZE: usize = 14;

pub const LEAF_KEY_SIZE: usize = 4;

pub const LEAF_SPACE_FOR_CELLS: usize = PAGE_SIZE - LEAF_HEADER_SIZE;

pub const NODE_TYPE_LEAF: u8 = 0;

pub const NODE_TYPE_INTERNAL: u8 = 1;

/// What the header of a leaf page says.
pub struct LeafHeader {
    pub kind: u8,
    pub is_root: u8,
    pub parent: u32,
    pub num_cells: u32,
    pub next_leaf: u32,
}

/// The header of the leaf page `page`.
pub open spec fn leaf_header(page: Seq<u8>) -> LeafHeader {
    LeafHeader {
        kind: page[0],
        is_root: page[1],
        parent: u32_value(page.subrange(2, 6)),
        num_cells: u32_value(page.subrange(6, 10)),
        next_leaf: u32_value(page.subrange(10, 14)),
    }
}

/// Where cell `index` of a leaf starts, for rows of `value_size` bytes.
pub open spec fn leaf_cell_offset(index: int, value_size: int) -> int {
    14 + index * (4 + value_size)
}

/// How many cells a leaf holds at most, for rows of `value_size` bytes.
pub open spec fn leaf_max_cells(value_size: int) -> int {
    4082int / (4 + value_size)
}

/// The bytes at the place of cell `index`.
pub open spec fn cell_at(page: Seq<u8>, index: int, value_size: int) -> Seq<u8> {
    page.subrange(leaf_cell_offset(index, value_size), leaf_cell_offset(index + 1, value_size))
}

/// The first `n` cells of the page, in order.
pub open spec fn cells_of(page: Seq<u8>, n: int, value_size: int) -> Seq<Seq<u8>> {
    Seq::new(n as nat, |i: int| cell_at(page, i, value_size))
}

/// A cell's bytes: the key, then the row.
pub open spec fn encode_cell(key: u32, schema: &Schema, values: Seq<ScalarView>) -> Seq<u8> {
    u32_bytes(key) + encode_row(schema.types(), values)
}

/// The key of a cell.
pub open spec fn cell_key(cell: Seq<u8>) -> u32 {
    u32_value(cell.subrange(0, 4))
}

/// The values of a cell's row; none where the bytes hold no row of `schema`.
pub open spec fn cell_values(cell: Seq<u8>, schema: &Schema) -> Option<Seq<ScalarView>> {
    decode_row(schema.types(), cell.subrange(4, cell.len() as int))
}

/// The keys of the given cells.
pub open spec fn keys_of(cells: Seq<Seq<u8>>) -> Seq<u32> {
    Seq::new(cells.len(), |i: int| cell_key(cells[i]))
}

/// No key is followed by a smaller one.
pub open spec fn keys_sorted(keys: Seq<u32>) -> bool {
    forall|i: int, j: int| 0 <= i < j < keys.len() ==> keys[i] <= keys[j]
}

/// Every key is followed by larger ones only.
pub open spec fn keys_strictly_sorted(keys: Seq<u32>) -> bool {
    forall|i: int, j: int| 0 <= i < j < keys.len() ==> keys[i] < keys[j]
}

/// The keys before `index` are smaller than `key`, and no key from `index`
/// on is.
pub open spec fn is_insertion_point(keys: Seq<u32>, key: u32, index: int) -> bool {
    &&& 0 <= index <= keys.len()
    &&& forall|i: int| 0 <= i < index ==> keys[i] < key
    &&& forall|i: int| index <= i < keys.len() ==> keys[i] >= key
}

/// How many of `keys` are smaller than `key`. Among sorted keys this is the
/// index at which `key` is inserted: behind the smaller keys and before any
/// equal one.
pub open spec fn keys_below(keys: Seq<u32>, key: u32) -> int
    decreases keys.len(),
{
    if keys.len() == 0 {
        0
    } else {
        keys_below(keys.drop_last(), key) + if keys.last() < key {
            1int
        } else {
            0int
        }
    }
}

/// An insertion point has exactly the smaller keys before it.
pub proof fn lemma_insertion_point(keys: Seq<u32>, key: u32, index: int)
    requires
        is_insertion_point(keys, key, index),
    ensures
        keys_below(keys, key) == index,
    decreases keys.len(),
{
    if keys.len() > 0 {
        let head = keys.drop_last();
        if index == keys.len() {
            lemma_insertion_point(head, key, index - 1);
        } else {
            lemma_insertion_point(head, key, index);
        }
    }
}

/// Among sorted keys the smaller ones come first: the number of them is an
/// insertion point.
pub proof fn lemma_keys_below_is_insertion_point(keys: Seq<u32>, key: u32)
    requires
        keys_sorted(keys),
    ensures
        is_insertion_point(keys, key, keys_below(keys, key)),
    decreases keys.len(),
{
    if keys.len() > 0 {
        let head = keys.drop_last();
        lemma_keys_below_is_insertion_point(head, key);
        let n = keys_below(head, key);
        if keys.last() < key {
            lemma_insertion_point(head, key, head.len() as int);
        } else {
            assert forall|i: int| 0 <= i < n implies keys[i] < key by {
                assert(head[i] == keys[i]);
            }
            assert forall|i: int| n <= i < keys.len() implies keys[i] >= key by {
                if i < keys.len() - 1 {
                    assert(head[i] == keys[i]);
                }
            }
        }
    }
}

/// Putting `key` at its insertion point keeps sorted keys sorted.
pub proof fn lemma_insert_keeps_sorted(keys: Seq<u32>, key: u32)
    requires
        keys_sorted(keys),
    ensures
        keys_sorted(keys.insert(keys_below(keys, key), key)),
{
    lemma_keys_below_is_insertion_point(keys, key);
}

/// Putting a key that is not there at its insertion point keeps keys without
/// repetition so.
pub proof fn lemma_insert_keeps_strictly_sorted(keys: Seq<u32>, key: u32)
    requires
        keys_strictly_sorted(keys),
        !keys.contains(key),
    ensures
        keys_strictly_sorted(keys.insert(keys_below(keys, key), key)),
{
    lemma_keys_below_is_insertion_point(keys, key);
}

/// A leaf holds at least one cell that fits the page, and at most 1020
/// cells.
pub proof fn lemma_max_cells_bounds(value_size: int)
    requires
        0 <= value_size,
        4 + value_size <= 4082,
    ensures
        1 <= leaf_max_cells(value_size) <= 1020,
{
    let d = 4 + value_size;
    vstd::arithmetic::div_mod::lemma_fundamental_div_mod(4082, d);
    vstd::arithmetic::div_mod::lemma_mod_bound(4082, d);
    let q = 4082int / d;
    assert(1 <= q <= 1020) by (nonlinear_arith)
        requires
            4082 == d * q + 4082int % d,
            0 <= 4082int % d < d,
            4 <= d <= 4082,
    ;
}

/// A cell below the capacity of a leaf lies within the page, behind the
/// header.
pub proof fn lemma_cell_in_page(index: int, value_size: int)
    requires
        0 <= value_size,
        0 <= index < leaf_max_cells(value_size),
    ensures
        14 <= leaf_cell_offset(index, value_size),
        leaf_cell_offset(index, value_size) + 4 + value_size == leaf_cell_offset(
            index + 1,
            value_size,
        ),
        leaf_cell_offset(index + 1, value_size) <= 4096,
        4 + value_size <= 4082,
{
    let cs = 4 + value_size;
    assert(index * cs >= 0) by (nonlinear_arith)
        requires
            index >= 0,
            cs > 0,
    ;
    assert((index + 1) * cs == index * cs + cs) by (nonlinear_arith);
    assert((index + 1) * cs <= 4082) by (nonlinear_arith)
        requires
            0 <= index < 4082int / cs,
            cs > 0,
    ;
}

/// Cells do not overlap: a cell ends where the next one starts or earlier.
pub proof fn lemma_cells_apart(i: int, j: int, value_size: int)
    requires
        0 <= value_size,
        0 <= i < j,
    ensures
        leaf_cell_offset(i + 1, value_size) <= leaf_cell_offset(j, value_size),
{
    let cs = 4 + value_size;
    assert((i + 1) * cs <= j * cs) by (nonlinear_arith)
        requires
            i + 1 <= j,
            cs > 0,
    ;
}

/// Writing one cell changes that cell alone: the header and the other cells
/// stay.
pub proof fn lemma_write_cell(a: Seq<u8>, b: Seq<u8>, index: int, value_size: int, cell: Seq<u8>)
    requires
        a.len() == 4096,
        0 <= value_size,
        0 <= index < leaf_max_cells(value_size),
        cell.len() == 4 + value_size,
        b == overwrite(a, leaf_cell_offset(index, value_size), cell),
    ensures
        b.len() == 4096,
        leaf_header(b) == leaf_header(a),
        cell_at(b, index, value_size) == cell,
        forall|k: int|
            0 <= k < leaf_max_cells(value_size) && k != index ==> #[trigger] cell_at(
                b,
                k,
                value_size,
            ) == cell_at(a, k, value_size),
{
    lemma_cell_in_page(index, value_size);
    assert forall|k: int| 0 <= k < leaf_max_cells(value_size) && k != index implies #[trigger] cell_at(
        b,
        k,
        value_size,
    ) == cell_at(a, k, value_size) by {
        lemma_cell_in_page(k, value_size);
        if k < index {
            lemma_cells_apart(k, index, value_size);
        } else {
            lemma_cells_apart(index, k, value_size);
        }
    }
}

/// Writing within the header changes no cell.
pub proof fn lemma_write_header(a: Seq<u8>, b: Seq<u8>, at: int, patch: Seq<u8>, value_size: int)
    requires
        a.len() == 4096,
        0 <= value_size,
        0 <= at,
        at + patch.len() <= 14,
        b == overwrite(a, at, patch),
    ensures
        b.len() == 4096,
        forall|k: int|
            0 <= k < leaf_max_cells(value_size) ==> #[trigger] cell_at(b, k, value_size)
                == cell_at(a, k, value_size),
{
    assert forall|k: int| 0 <= k < leaf_max_cells(value_size) implies #[trigger] cell_at(
        b,
        k,
        value_size,
    ) == cell_at(a, k, value_size) by {
        lemma_cell_in_page(k, value_size);
    }
}

/// Writing one of the three numbers of the header sets that number and
/// leaves the rest of the header.
pub proof fn lemma_write_header_field(a: Seq<u8>, b: Seq<u8>, at: int, x: u32)
    requires
        a.len() == 4096,
        at == 2 || at == 6 || at == 10,
        b == overwrite(a, at, u32_bytes(x)),
    ensures
        leaf_header(b).kind == leaf_header(a).kind,
        leaf_header(b).is_root == leaf_header(a).is_root,
        leaf_header(b).parent == if at == 2 {
            x
        } else {
            leaf_header(a).parent
        },
        leaf_header(b).num_cells == if at == 6 {
            x
        } else {
            leaf_header(a).num_cells
        },
        leaf_header(b).next_leaf == if at == 10 {
            x
        } else {
            leaf_header(a).next_leaf
        },
{
    lemma_u32_round_trip(x);
}

} // verus!
