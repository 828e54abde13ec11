//! The two kinds of page: leaf pages, which hold the rows in cells sorted by
//! key, and internal pages, which route a key to a child page.

use vstd::prelude::*;
use vstd::slice::slice_subrange;
use crate::codec::{decode, encode, lemma_overwrite_append};
use crate::datatype::{ScalarValue, ScalarView, Schema};
use crate::encoding::{
    copy_bytes, lemma_u32_round_trip, lemma_u32_zero, move_bytes, overwrite, read_u32, u32_bytes,
    u32_value, write_u32, zeros,
};
use crate::errors::Error;
use crate::layout::{
    cell_at, cell_key, cell_values, cells_of, encode_cell, is_insertion_point, keys_below,
    keys_of, keys_sorted, leaf_cell_offset, leaf_header, leaf_max_cells, lemma_cell_in_page,
    lemma_cells_apart, lemma_insert_keeps_sorted, lemma_insertion_point, lemma_write_cell,
    lemma_write_header, lemma_write_header_field, LeafHeader, COMMON_NODE_HEADER_SIZE,
    IS_ROOT_OFFSET, LEAF_HEADER_SIZE, LEAF_KEY_SIZE, LEAF_NEXT_LEAF_OFFSET,
    LEAF_NUM_CELLS_OFFSET, LEAF_SPACE_FOR_CELLS, PAGE_SIZE, PARENT_POINTER_OFFSET,
};

verus! {

/// The side of an internal cell's key on which a child hangs.
#[derive(Debug, Clone, Copy, PartialEq, Eq, Structural)]
pub enum Pos {
    Left,
    Right,
}

/// The cells of a leaf once `cell` has gone in: behind the cells with a
/// smaller key, before any cell with the same key.
pub open spec fn with_cell(cells: Seq<Seq<u8>>, cell: Seq<u8>) -> Seq<Seq<u8>> {
    cells.insert(keys_below(keys_of(cells), cell_key(cell)), cell)
}

/// How many of the `max_cells + 1` entries of a split stay in the old page.
pub open spec fn split_left_count(max_cells: int) -> int {
    (max_cells + 1) - (max_cells + 1) / 2
}

/// An encoded cell has the size of a cell, the key that was encoded, and the
/// values that were encoded.
pub proof fn lemma_encode_cell(key: u32, schema: &Schema, values: Seq<ScalarView>)
    requires
        schema.accepts(values),
    ensures
        encode_cell(key, schema, values).len() == 4 + schema.spec_row_size(),
        cell_key(encode_cell(key, schema, values)) == key,
        cell_values(encode_cell(key, schema, values), schema) == Some(values),
{
    let cell = encode_cell(key, schema, values);
    let row = crate::codec::encode_row(schema.types(), values);
    lemma_u32_round_trip(key);
    crate::codec::lemma_row_round_trip(schema.types(), values);
    assert(cell.subrange(4, cell.len() as int) =~= row);
}

/// The keys of cells with one more cell are the keys with one more key.
pub proof fn lemma_keys_of_insert(cells: Seq<Seq<u8>>, at: int, cell: Seq<u8>)
    requires
        0 <= at <= cells.len(),
    ensures
        keys_of(cells.insert(at, cell)) == keys_of(cells).insert(at, cell_key(cell)),
{
}

/// Inserting a cell at its place keeps the keys sorted, and so do the two
/// halves of a split.
pub proof fn lemma_with_cell_sorted(cells: Seq<Seq<u8>>, cell: Seq<u8>, left: int)
    requires
        keys_sorted(keys_of(cells)),
        0 <= left <= cells.len() + 1,
    ensures
        keys_sorted(keys_of(with_cell(cells, cell))),
        keys_sorted(keys_of(with_cell(cells, cell).take(left))),
        keys_sorted(keys_of(with_cell(cells, cell).skip(left))),
{
    let keys = keys_of(cells);
    let key = cell_key(cell);
    crate::layout::lemma_keys_below_is_insertion_point(keys, key);
    lemma_insert_keeps_sorted(keys, key);
    lemma_keys_of_insert(cells, keys_below(keys, key), cell);
    let all = with_cell(cells, cell);
    let k = keys_of(all);
    assert forall|i: int, j: int| 0 <= i < j < keys_of(all.take(left)).len() implies keys_of(
        all.take(left),
    )[i] <= keys_of(all.take(left))[j] by {
        assert(keys_of(all.take(left))[i] == k[i]);
        assert(keys_of(all.take(left))[j] == k[j]);
    }
    assert forall|i: int, j: int| 0 <= i < j < keys_of(all.skip(left)).len() implies keys_of(
        all.skip(left),
    )[i] <= keys_of(all.skip(left))[j] by {
        assert(keys_of(all.skip(left))[i] == k[i + left]);
        assert(keys_of(all.skip(left))[j] == k[j + left]);
    }
}

/// The keys of a leaf after an insert are the keys it had and the key that
/// went in, and no others. So in a leaf that is kept sorted, a search finds
/// every key that was inserted and none that was not: see
/// [`LeafNode::binary_search`].
pub proof fn lemma_with_cell_keys(cells: Seq<Seq<u8>>, cell: Seq<u8>)
    requires
        keys_sorted(keys_of(cells)),
    ensures
        forall|key: u32|
            keys_of(with_cell(cells, cell)).contains(key) <==> (key == cell_key(cell) || keys_of(
                cells,
            ).contains(key)),
{
    let keys = keys_of(cells);
    let at = keys_below(keys, cell_key(cell));
    crate::layout::lemma_keys_below_is_insertion_point(keys, cell_key(cell));
    lemma_keys_of_insert(cells, at, cell);
    let after = keys.insert(at, cell_key(cell));
    assert forall|key: u32| after.contains(key) <==> (key == cell_key(cell) || keys.contains(
        key,
    )) by {
        if after.contains(key) {
            let i = choose|i: int| 0 <= i < after.len() && after[i] == key;
        }
        if key == cell_key(cell) {
            assert(after[at] == key);
        }
        if keys.contains(key) {
            let i = choose|i: int| 0 <= i < keys.len() && keys[i] == key;
            if i < at {
                assert(after[i] == key);
            } else {
                assert(after[i + 1] == key);
            }
        }
    }
}

/// A leaf page.
#[derive(Debug)]
pub struct LeafNode {
    pub bytes: Box<[u8; 4096]>,
}

impl LeafNode {
    /// What the header says.
    pub open spec fn spec_header(&self) -> LeafHeader {
        leaf_header(self.bytes@)
    }

    /// The index of the parent page.
    pub open spec fn spec_parent(&self) -> u32 {
        self.spec_header().parent
    }

    /// The number of cells.
    pub open spec fn spec_num_cells(&self) -> u32 {
        self.spec_header().num_cells
    }

    /// The index of the next leaf.
    pub open spec fn spec_next_leaf(&self) -> u32 {
        self.spec_header().next_leaf
    }

    /// The bytes at the place of cell `index`.
    pub open spec fn spec_cell(&self, index: int, value_size: int) -> Seq<u8> {
        cell_at(self.bytes@, index, value_size)
    }

    /// The key at the place of cell `index`.
    pub open spec fn spec_key(&self, index: int, value_size: int) -> u32 {
        cell_key(self.spec_cell(index, value_size))
    }

    /// The cells that the leaf holds, in order.
    pub open spec fn cells(&self, value_size: int) -> Seq<Seq<u8>> {
        cells_of(self.bytes@, self.spec_num_cells() as int, value_size)
    }

    /// The keys of the cells that the leaf holds, in order.
    pub open spec fn keys(&self, value_size: int) -> Seq<u32> {
        keys_of(self.cells(value_size))
    }

    /// A cell fits the page, and the leaf holds no more cells than fit.
    pub open spec fn well_formed(&self, value_size: int) -> bool {
        &&& 0 <= value_size
        &&& 1 <= leaf_max_cells(value_size)
        &&& self.spec_num_cells() <= leaf_max_cells(value_size)
    }

    /// The cells are in ascending order of their keys.
    pub open spec fn sorted(&self, value_size: int) -> bool {
        keys_sorted(self.keys(value_size))
    }

    /// A leaf of zeros: no cells, parent and next leaf 0, not the root. It is
    /// sorted, and well formed for every row that fits a page.
    pub fn new() -> (leaf: LeafNode)
        ensures
            leaf.bytes@ == zeros(4096),
            leaf.spec_header() == (LeafHeader {
                kind: 0,
                is_root: 0,
                parent: 0,
                num_cells: 0,
                next_leaf: 0,
            }),
            forall|value_size: int| #[trigger] leaf.sorted(value_size),
            forall|value_size: int|
                0 <= value_size && 1 <= leaf_max_cells(value_size) ==> #[trigger] leaf.well_formed(
                    value_size,
                ),
    {
        let leaf = LeafNode { bytes: Box::new([0u8;4096]) };
        proof {
            lemma_u32_zero();
        }
        leaf
    }

    /// The leaf whose page is `bytes`.
    pub fn new_with_bytes(bytes: Box<[u8; 4096]>) -> (leaf: LeafNode)
        ensures
            leaf.bytes == bytes,
    {
        LeafNode { bytes }
    }

    /// The size of a cell: the key and a row of `value_size` bytes.
    pub fn cell_size(&self, value_size: usize) -> (n: usize)
        requires
            value_size + 4 <= usize::MAX,
        ensures
            n == 4 + value_size,
    {
        LEAF_KEY_SIZE + value_size
    }

    /// The number of cells that fit behind the header.
    pub fn max_cells(&self, value_size: usize) -> (n: usize)
        requires
            value_size + 4 <= usize::MAX,
        ensures
            n == leaf_max_cells(value_size as int),
    {
        LEAF_SPACE_FOR_CELLS / self.cell_size(value_size)
    }

    /// The index of the parent page.
    pub fn parent(&self) -> (p: u32)
        ensures
            p == self.spec_parent(),
    {
        read_u32(self.bytes.as_slice(), PARENT_POINTER_OFFSET)
    }

    /// Sets the index of the parent page; the rest of the page stays.
    pub fn set_parent(&mut self, val: u32)
        ensures
            final(self).bytes@ == overwrite(old(self).bytes@, 2, u32_bytes(val)),
            final(self).spec_header() == (LeafHeader { parent: val, ..old(self).spec_header() }),
    {
        let page: &mut [u8; 4096] = &mut *self.bytes;
        write_u32(page, PARENT_POINTER_OFFSET, val);
        proof {
            lemma_write_header_field(old(self).bytes@, self.bytes@, 2, val);
        }
    }

    /// The index of the next leaf.
    pub fn next_leaf(&self) -> (p: u32)
        ensures
            p == self.spec_next_leaf(),
    {
        read_u32(self.bytes.as_slice(), LEAF_NEXT_LEAF_OFFSET)
    }

    /// Sets the index of the next leaf; the rest of the page stays.
    pub fn set_next_leaf(&mut self, val: u32)
        ensures
            final(self).bytes@ == overwrite(old(self).bytes@, 10, u32_bytes(val)),
            final(self).spec_header() == (LeafHeader {
                next_leaf: val,
                ..old(self).spec_header()
            }),
    {
        let page: &mut [u8; 4096] = &mut *self.bytes;
        write_u32(page, LEAF_NEXT_LEAF_OFFSET, val);
        proof {
            lemma_write_header_field(old(self).bytes@, self.bytes@, 10, val);
        }
    }

    /// The number of cells.
    pub fn num_cells(&self) -> (n: u32)
        ensures
            n == self.spec_num_cells(),
    {
        read_u32(self.bytes.as_slice(), LEAF_NUM_CELLS_OFFSET)
    }

    /// Sets the number of cells; the rest of the page stays.
    pub fn set_num_cells(&mut self, value: u32)
        ensures
            final(self).bytes@ == overwrite(old(self).bytes@, 6, u32_bytes(value)),
            final(self).spec_header() == (LeafHeader {
                num_cells: value,
                ..old(self).spec_header()
            }),
    {
        let page: &mut [u8; 4096] = &mut *self.bytes;
        write_u32(page, LEAF_NUM_CELLS_OFFSET, value);
        proof {
            lemma_write_header_field(old(self).bytes@, self.bytes@, 6, value);
        }
    }

    /// The key at the place of cell `index`.
    pub fn key(&self, index: usize, value_size: usize) -> (k: u32)
        requires
            index < leaf_max_cells(value_size as int),
        ensures
            k == self.spec_key(index as int, value_size as int),
    {
        proof {
            lemma_cell_in_page(index as int, value_size as int);
        }
        let offset: usize = LEAF_HEADER_SIZE + index * self.cell_size(value_size);
        assert(self.spec_cell(index as int, value_size as int).subrange(0, 4)
            =~= self.bytes@.subrange(offset as int, offset + 4));
        read_u32(self.bytes.as_slice(), offset)
    }

    /// The key and the values of the cell at place `index`.
    ///
    /// Fails with [`Error::ParseError`] exactly where the bytes of the row
    /// hold no row of `schema`.
    pub fn read_row(&self, index: usize, schema: &Schema) -> (r: Result<
        (u32, Vec<ScalarValue>),
        Error,
    >)
        requires
            index < leaf_max_cells(schema.spec_row_size() as int),
        ensures
            match r {
                Ok((key, values)) => {
                    &&& key == self.spec_key(index as int, schema.spec_row_size() as int)
                    &&& cell_values(
                        self.spec_cell(index as int, schema.spec_row_size() as int),
                        schema,
                    ) == Some(values.deep_view())
                },
                Err(e) => {
                    &&& e == Error::ParseError
                    &&& cell_values(
                        self.spec_cell(index as int, schema.spec_row_size() as int),
                        schema,
                    ) is None
                },
            },
    {
        proof {
            lemma_cell_in_page(index as int, schema.spec_row_size() as int);
        }
        let value_size = schema.row_size();
        let offset = LEAF_HEADER_SIZE + index * self.cell_size(value_size);
        let key = self.key(index, value_size);
        let ghost cell = self.spec_cell(index as int, value_size as int);
        assert(cell.subrange(4, cell.len() as int) =~= self.bytes@.subrange(
            offset + 4,
            offset + 4 + value_size,
        ));
        match decode(self.bytes.as_slice(), offset + LEAF_KEY_SIZE, schema) {
            Ok(values) => Ok((key, values)),
            Err(e) => Err(e),
        }
    }

    /// The bytes at the place of cell `index`, to write to. What is written
    /// there is written to the page, and the rest of the page stays.
    pub fn cell_mut(&mut self, index: usize, value_size: usize) -> (c: &mut [u8])
        requires
            index < leaf_max_cells(value_size as int),
        ensures
            c@ == old(self).spec_cell(index as int, value_size as int),
            final(c)@.len() == c@.len() ==> final(self).bytes@ == overwrite(
                old(self).bytes@,
                leaf_cell_offset(index as int, value_size as int),
                final(c)@,
            ),
    {
        proof {
            lemma_cell_in_page(index as int, value_size as int);
        }
        let cell_size = self.cell_size(value_size);
        let offset = LEAF_HEADER_SIZE + index * cell_size;
        let page: &mut [u8; 4096] = &mut *self.bytes;
        let whole: &mut [u8] = page;
        let ghost before = whole@;
        let (head, tail) = whole.split_at_mut(offset);
        let (cell, rest) = tail.split_at_mut(cell_size);
        assert(final(cell)@.len() == cell@.len() ==> head@ + (final(cell)@ + rest@) =~= overwrite(
            before,
            offset as int,
            final(cell)@,
        ));
        cell
    }

    /// The bytes at the place of cell `index`.
    pub fn cell(&self, index: usize, value_size: usize) -> (c: &[u8])
        requires
            index < leaf_max_cells(value_size as int),
        ensures
            c@ == self.spec_cell(index as int, value_size as int),
    {
        proof {
            lemma_cell_in_page(index as int, value_size as int);
        }
        let cell_size = self.cell_size(value_size);
        let offset = LEAF_HEADER_SIZE + index * cell_size;
        slice_subrange(self.bytes.as_slice(), offset, offset + cell_size)
    }

    /// Copies the cell at place `src` over the one at place `dst`; the rest
    /// of the page stays.
    pub fn copy_within(&mut self, value_size: usize, src: usize, dst: usize)
        requires
            src < leaf_max_cells(value_size as int),
            dst < leaf_max_cells(value_size as int),
        ensures
            final(self).bytes@ == overwrite(
                old(self).bytes@,
                leaf_cell_offset(dst as int, value_size as int),
                old(self).spec_cell(src as int, value_size as int),
            ),
    {
        proof {
            lemma_cell_in_page(src as int, value_size as int);
            lemma_cell_in_page(dst as int, value_size as int);
            if src < dst {
                lemma_cells_apart(src as int, dst as int, value_size as int);
            }
            if dst < src {
                lemma_cells_apart(dst as int, src as int, value_size as int);
            }
        }
        let cell_size = self.cell_size(value_size);
        let offset_src = LEAF_HEADER_SIZE + src * cell_size;
        let offset_dst = LEAF_HEADER_SIZE + dst * cell_size;
        let page: &mut [u8; 4096] = &mut *self.bytes;
        move_bytes(page, offset_src, offset_dst, cell_size);
    }

    /// Writes `cell` at place `index`; the rest of the page stays.
    fn put_cell(&mut self, index: usize, value_size: usize, cell: &[u8])
        requires
            index < leaf_max_cells(value_size as int),
            cell@.len() == 4 + value_size,
        ensures
            final(self).bytes@ == overwrite(
                old(self).bytes@,
                leaf_cell_offset(index as int, value_size as int),
                cell@,
            ),
    {
        proof {
            lemma_cell_in_page(index as int, value_size as int);
        }
        let cell_size = self.cell_size(value_size);
        let offset = LEAF_HEADER_SIZE + index * cell_size;
        let page: &mut [u8; 4096] = &mut *self.bytes;
        copy_bytes(page, offset, cell, 0, cell_size);
    }

    /// Writes the cell of `key` and `values` at place `index`; the rest of
    /// the page stays.
    ///
    /// Values that the schema does not accept are refused with
    /// [`Error::ParseError`], and the page stays as it was.
    pub fn serialize_row(
        &mut self,
        index: usize,
        schema: &Schema,
        key: u32,
        values: &[ScalarValue],
    ) -> (r: Result<(), Error>)
        requires
            index < leaf_max_cells(schema.spec_row_size() as int),
        ensures
            schema.accepts(values.deep_view()) ==> r is Ok && final(self).bytes@ == overwrite(
                old(self).bytes@,
                leaf_cell_offset(index as int, schema.spec_row_size() as int),
                encode_cell(key, schema, values.deep_view()),
            ),
            !schema.accepts(values.deep_view()) ==> r == Err::<(), Error>(Error::ParseError)
                && final(self).bytes@ == old(self).bytes@,
    {
        if !schema.matches(values) {
            return Err(Error::ParseError);
        }
        proof {
            lemma_cell_in_page(index as int, schema.spec_row_size() as int);
            lemma_u32_round_trip(key);
            lemma_overwrite_append(
                old(self).bytes@,
                leaf_cell_offset(index as int, schema.spec_row_size() as int),
                u32_bytes(key),
                crate::codec::encode_row(schema.types(), values.deep_view()),
            );
        }
        let value_size = schema.row_size();
        let offset = LEAF_HEADER_SIZE + index * self.cell_size(value_size);
        let page: &mut [u8; 4096] = &mut *self.bytes;
        write_u32(page, offset, key);
        encode(page, offset + LEAF_KEY_SIZE, schema, values)
    }

    /// Moves the cells at the places from `index` up to `end` one place up
    /// each; the cell at place `index` and the rest of the page stay.
    fn open_gap(&mut self, value_size: usize, index: usize, end: usize)
        requires
            index <= end < leaf_max_cells(value_size as int),
        ensures
            final(self).spec_header() == old(self).spec_header(),
            forall|k: int|
                0 <= k < leaf_max_cells(value_size as int) ==> #[trigger] cell_at(
                    final(self).bytes@,
                    k,
                    value_size as int,
                ) == if index < k <= end {
                    cell_at(old(self).bytes@, k - 1, value_size as int)
                } else {
                    cell_at(old(self).bytes@, k, value_size as int)
                },
    {
        let mut i: usize = end;
        while i > index
            invariant
                index <= i <= end < leaf_max_cells(value_size as int),
                self.spec_header() == old(self).spec_header(),
                forall|k: int|
                    0 <= k < leaf_max_cells(value_size as int) ==> #[trigger] cell_at(
                        self.bytes@,
                        k,
                        value_size as int,
                    ) == if i < k <= end {
                        cell_at(old(self).bytes@, k - 1, value_size as int)
                    } else {
                        cell_at(old(self).bytes@, k, value_size as int)
                    },
            decreases i,
        {
            let ghost before = self.bytes@;
            proof {
                lemma_cell_in_page(i - 1, value_size as int);
            }
            self.copy_within(value_size, i - 1, i);
            proof {
                lemma_write_cell(
                    before,
                    self.bytes@,
                    i as int,
                    value_size as int,
                    cell_at(before, i - 1, value_size as int),
                );
            }
            i -= 1;
        }
    }

    /// The first place whose key is not smaller than `key`, or the number of
    /// cells where every key is smaller. In a sorted leaf this is where a cell
    /// with `key` is inserted.
    pub fn lower_bound(&self, key: u32, value_size: usize) -> (index: usize)
        requires
            self.well_formed(value_size as int),
        ensures
            index <= self.spec_num_cells(),
            index > 0 ==> self.keys(value_size as int)[index - 1] < key,
            index < self.spec_num_cells() ==> self.keys(value_size as int)[index as int] >= key,
            self.sorted(value_size as int) ==> index == keys_below(
                self.keys(value_size as int),
                key,
            ),
    {
        let ghost keys = self.keys(value_size as int);
        let mut left: usize = 0;
        let mut right: usize = self.num_cells() as usize;
        while left < right
            invariant
                left <= right <= self.spec_num_cells(),
                self.well_formed(value_size as int),
                keys == self.keys(value_size as int),
                left > 0 ==> keys[left - 1] < key,
                right < self.spec_num_cells() ==> keys[right as int] >= key,
            decreases right - left,
        {
            let mid = left + (right - left) / 2;
            if self.key(mid, value_size) < key {
                left = mid + 1;
            } else {
                right = mid;
            }
        }
        proof {
            if self.sorted(value_size as int) {
                lemma_insertion_point(keys, key, left as int);
            }
        }
        left
    }

    /// Looks `key` up by bisection: the place of a cell with that key, if the
    /// search meets one. In a sorted leaf it meets one wherever there is one.
    pub fn binary_search(&self, key: u32, value_size: usize) -> (r: Option<usize>)
        requires
            self.well_formed(value_size as int),
        ensures
            r matches Some(index) ==> index < self.spec_num_cells() && self.keys(
                value_size as int,
            )[index as int] == key,
            self.sorted(value_size as int) ==> (r is Some <==> self.keys(
                value_size as int,
            ).contains(key)),
    {
        let ghost keys = self.keys(value_size as int);
        let mut left: usize = 0;
        let mut right: usize = self.num_cells() as usize;
        while left < right
            invariant
                left <= right <= self.spec_num_cells(),
                self.well_formed(value_size as int),
                keys == self.keys(value_size as int),
                keys_sorted(keys) ==> forall|i: int| 0 <= i < left ==> keys[i] < key,
                keys_sorted(keys) ==> forall|i: int| right <= i < keys.len() ==> keys[i] > key,
            decreases right - left,
        {
            let mid = left + (right - left) / 2;
            let found = self.key(mid, value_size);
            if found < key {
                proof {
                    if keys_sorted(keys) {
                        assert forall|i: int| 0 <= i < mid + 1 implies keys[i] < key by {
                            if i < mid {
                                assert(keys[i] <= keys[mid as int]);
                            }
                        }
                    }
                }
                left = mid + 1;
            } else if found == key {
                return Some(mid);
            } else {
                right = mid;
            }
        }
        proof {
            if keys_sorted(keys) {
                assert(!keys.contains(key)) by {
                    if keys.contains(key) {
                    }
                }
            }
        }
        None
    }

    /// Inserts the cell of `key` and `values` into the sorted leaf: behind the
    /// cells with a smaller key and before any cell with the same key.
    ///
    /// Where the leaf has room, the cells from that place on move up by one
    /// and nothing is returned. Where it is full, the cells and the new one
    /// are split: the first [`split_left_count`] of them stay, and the others
    /// go to a new leaf, which is returned with the parent and the next leaf
    /// of this one. Linking the new leaf in is left to the caller.
    ///
    /// Values that the schema does not accept are refused with
    /// [`Error::ParseError`], and the page stays as it was.
    pub fn leaf_node_split_and_insert(
        &mut self,
        key: u32,
        values: Vec<ScalarValue>,
        schema: &Schema,
    ) -> (r: Result<Option<LeafNode>, Error>)
        requires
            old(self).well_formed(schema.spec_row_size() as int),
            old(self).sorted(schema.spec_row_size() as int),
        ensures
            !schema.accepts(values.deep_view()) ==> (r matches Err(Error::ParseError))
                && final(self).bytes@ == old(self).bytes@,
            schema.accepts(values.deep_view()) ==> ({
                let value_size = schema.spec_row_size() as int;
                let max_cells = leaf_max_cells(value_size);
                let left = split_left_count(max_cells);
                let entries = with_cell(
                    old(self).cells(value_size),
                    encode_cell(key, schema, values.deep_view()),
                );
                &&& final(self).sorted(value_size)
                &&& final(self).well_formed(value_size)
                &&& if old(self).spec_num_cells() < max_cells {
                    &&& r matches Ok(None)
                    &&& final(self).cells(value_size) == entries
                    &&& final(self).spec_header() == (LeafHeader {
                        num_cells: (old(self).spec_num_cells() + 1) as u32,
                        ..old(self).spec_header()
                    })
                } else {
                    &&& r matches Ok(Some(right))
                    &&& final(self).cells(value_size) == entries.take(left)
                    &&& final(self).spec_header() == (LeafHeader {
                        num_cells: left as u32,
                        ..old(self).spec_header()
                    })
                    &&& right.cells(value_size) == entries.skip(left)
                    &&& right.spec_header() == (LeafHeader {
                        kind: 0,
                        is_root: 0,
                        parent: old(self).spec_parent(),
                        num_cells: (max_cells + 1 - left) as u32,
                        next_leaf: old(self).spec_next_leaf(),
                    })
                    &&& right.sorted(value_size)
                    &&& right.well_formed(value_size)
                }
            }),
    {
        let row = values.as_slice();
        if !schema.matches(row) {
            return Err(Error::ParseError);
        }
        let ghost vs = schema.spec_row_size() as int;
        let ghost cell = encode_cell(key, schema, row.deep_view());
        let ghost cells = old(self).cells(vs);
        proof {
            lemma_encode_cell(key, schema, row.deep_view());
            lemma_cell_in_page(0, vs);
        }
        let value_size = schema.row_size();
        let max_cells = self.max_cells(value_size);
        let index = self.lower_bound(key, value_size);
        let num_cells = self.num_cells() as usize;
        if num_cells < max_cells {
            proof {
                lemma_with_cell_sorted(cells, cell, 0);
            }
            self.insert_with_room(index, schema, key, row);
            Ok(None)
        } else {
            proof {
                lemma_with_cell_sorted(cells, cell, split_left_count(max_cells as int));
            }
            let new_node = self.insert_with_split(index, schema, key, row);
            Ok(Some(new_node))
        }
    }

    /// Puts the cell of `key` and `row` in at place `index` of a leaf that
    /// has room for it.
    fn insert_with_room(&mut self, index: usize, schema: &Schema, key: u32, row: &[ScalarValue])
        requires
            old(self).well_formed(schema.spec_row_size() as int),
            old(self).spec_num_cells() < leaf_max_cells(schema.spec_row_size() as int),
            index <= old(self).spec_num_cells(),
            schema.accepts(row.deep_view()),
        ensures
            final(self).spec_header() == (LeafHeader {
                num_cells: (old(self).spec_num_cells() + 1) as u32,
                ..old(self).spec_header()
            }),
            final(self).cells(schema.spec_row_size() as int) == old(self).cells(
                schema.spec_row_size() as int,
            ).insert(index as int, encode_cell(key, schema, row.deep_view())),
    {
        let ghost vs = schema.spec_row_size() as int;
        proof {
            lemma_cell_in_page(0, vs);
        }
        let num_cells = self.num_cells() as usize;
        self.insert_at(index, num_cells, schema, key, row);
        let ghost written = self.bytes@;
        self.set_num_cells((num_cells + 1) as u32);
        proof {
            lemma_write_header(written, self.bytes@, 6, u32_bytes((num_cells + 1) as u32), vs);
        }
    }

    /// Splits a full leaf around the cell of `key` and `row`, which goes in
    /// at place `index`: the first [`split_left_count`] cells stay, the
    /// others go to the new leaf that is returned.
    fn insert_with_split(
        &mut self,
        index: usize,
        schema: &Schema,
        key: u32,
        row: &[ScalarValue],
    ) -> (right: LeafNode)
        requires
            old(self).well_formed(schema.spec_row_size() as int),
            old(self).spec_num_cells() == leaf_max_cells(schema.spec_row_size() as int),
            index <= old(self).spec_num_cells(),
            schema.accepts(row.deep_view()),
        ensures
            final(self).spec_header() == (LeafHeader {
                num_cells: split_left_count(old(self).spec_num_cells() as int) as u32,
                ..old(self).spec_header()
            }),
            final(self).cells(schema.spec_row_size() as int) == old(self).cells(
                schema.spec_row_size() as int,
            ).insert(index as int, encode_cell(key, schema, row.deep_view())).take(
                split_left_count(old(self).spec_num_cells() as int),
            ),
            right.spec_header() == (LeafHeader {
                kind: 0,
                is_root: 0,
                parent: old(self).spec_parent(),
                num_cells: (old(self).spec_num_cells() + 1 - split_left_count(
                    old(self).spec_num_cells() as int,
                )) as u32,
                next_leaf: old(self).spec_next_leaf(),
            }),
            right.cells(schema.spec_row_size() as int) == old(self).cells(
                schema.spec_row_size() as int,
            ).insert(index as int, encode_cell(key, schema, row.deep_view())).skip(
                split_left_count(old(self).spec_num_cells() as int),
            ),
    {
        let ghost vs = schema.spec_row_size() as int;
        let ghost cell = encode_cell(key, schema, row.deep_view());
        proof {
            lemma_cell_in_page(0, vs);
        }
        let value_size = schema.row_size();
        let max_cells = self.max_cells(value_size);
        let right_count: usize = (max_cells + 1) / 2;
        let left_count: usize = (max_cells + 1) - right_count;
        let new_node = self.split_right(index, left_count, schema, key, row);
        if index < left_count {
            self.insert_at(index, left_count - 1, schema, key, row);
        }
        let ghost written = self.bytes@;
        self.set_num_cells(left_count as u32);
        proof {
            lemma_write_header(written, self.bytes@, 6, u32_bytes(left_count as u32), vs);
            assert(self.cells(vs) =~= old(self).cells(vs).insert(index as int, cell).take(
                left_count as int,
            ));
        }
        new_node
    }

    /// Makes room at place `index` by moving the cells at the places from
    /// `index` up to `end` one place up each, and writes the cell of `key`
    /// and `row` there.
    fn insert_at(&mut self, index: usize, end: usize, schema: &Schema, key: u32, row: &[ScalarValue])
        requires
            index <= end < leaf_max_cells(schema.spec_row_size() as int),
            schema.accepts(row.deep_view()),
        ensures
            final(self).spec_header() == old(self).spec_header(),
            forall|k: int|
                0 <= k < leaf_max_cells(schema.spec_row_size() as int) ==> #[trigger] cell_at(
                    final(self).bytes@,
                    k,
                    schema.spec_row_size() as int,
                ) == if k == index {
                    encode_cell(key, schema, row.deep_view())
                } else if index < k <= end {
                    cell_at(old(self).bytes@, k - 1, schema.spec_row_size() as int)
                } else {
                    cell_at(old(self).bytes@, k, schema.spec_row_size() as int)
                },
    {
        proof {
            lemma_cell_in_page(index as int, schema.spec_row_size() as int);
            lemma_encode_cell(key, schema, row.deep_view());
        }
        let value_size = schema.row_size();
        self.open_gap(value_size, index, end);
        let ghost gapped = self.bytes@;
        let _ = self.serialize_row(index, schema, key, row);
        proof {
            lemma_write_cell(
                gapped,
                self.bytes@,
                index as int,
                value_size as int,
                encode_cell(key, schema, row.deep_view()),
            );
        }
    }

    /// The new leaf of a split: of the cells of this full leaf with the cell
    /// of `key` and `row` put in at place `index`, the ones from place
    /// `left_count` on.
    fn split_right(
        &self,
        index: usize,
        left_count: usize,
        schema: &Schema,
        key: u32,
        row: &[ScalarValue],
    ) -> (right: LeafNode)
        requires
            self.well_formed(schema.spec_row_size() as int),
            self.spec_num_cells() == leaf_max_cells(schema.spec_row_size() as int),
            schema.accepts(row.deep_view()),
            index <= self.spec_num_cells(),
            1 <= left_count <= self.spec_num_cells(),
        ensures
            right.spec_header() == (LeafHeader {
                kind: 0,
                is_root: 0,
                parent: self.spec_parent(),
                num_cells: (self.spec_num_cells() + 1 - left_count) as u32,
                next_leaf: self.spec_next_leaf(),
            }),
            right.cells(schema.spec_row_size() as int) == self.cells(
                schema.spec_row_size() as int,
            ).insert(index as int, encode_cell(key, schema, row.deep_view())).skip(
                left_count as int,
            ),
    {
        let ghost vs = schema.spec_row_size() as int;
        let ghost cell = encode_cell(key, schema, row.deep_view());
        let ghost entries = self.cells(vs).insert(index as int, cell);
        proof {
            lemma_encode_cell(key, schema, row.deep_view());
            lemma_cell_in_page(0, vs);
        }
        let value_size = schema.row_size();
        let max_cells = self.max_cells(value_size);
        let mut new_node = LeafNode::new();
        new_node.set_parent(self.parent());
        new_node.set_next_leaf(self.next_leaf());
        let mut i: usize = left_count;
        while i <= max_cells
            invariant
                1 <= left_count <= i <= max_cells + 1,
                max_cells == leaf_max_cells(vs),
                max_cells == self.spec_num_cells(),
                vs == schema.spec_row_size(),
                value_size == vs,
                index <= max_cells,
                schema.accepts(row.deep_view()),
                cell == encode_cell(key, schema, row.deep_view()),
                cell.len() == 4 + vs,
                entries == self.cells(vs).insert(index as int, cell),
                new_node.spec_header() == (LeafHeader {
                    kind: 0,
                    is_root: 0,
                    parent: self.spec_parent(),
                    num_cells: 0,
                    next_leaf: self.spec_next_leaf(),
                }),
                forall|t: int|
                    0 <= t < i - left_count ==> #[trigger] cell_at(new_node.bytes@, t, vs)
                        == entries[left_count + t],
            decreases max_cells + 1 - i,
        {
            let place = i - left_count;
            let ghost before = new_node.bytes@;
            proof {
                lemma_cell_in_page(place as int, vs);
                if i > index {
                    lemma_cell_in_page(i - 1, vs);
                } else if i < index {
                    lemma_cell_in_page(i as int, vs);
                }
            }
            if i == index {
                let _ = new_node.serialize_row(place, schema, key, row);
            } else if i > index {
                new_node.put_cell(place, value_size, self.cell(i - 1, value_size));
            } else {
                new_node.put_cell(place, value_size, self.cell(i, value_size));
            }
            proof {
                lemma_write_cell(before, new_node.bytes@, place as int, vs, entries[i as int]);
            }
            i += 1;
        }
        let ghost filled = new_node.bytes@;
        new_node.set_num_cells((max_cells + 1 - left_count) as u32);
        proof {
            lemma_write_header(
                filled,
                new_node.bytes@,
                6,
                u32_bytes((max_cells + 1 - left_count) as u32),
                vs,
            );
        }
        new_node
    }

    /// Tests [`Self::well_formed`].
    pub fn is_well_formed(&self, value_size: usize) -> (b: bool)
        ensures
            b == self.well_formed(value_size as int),
    {
        if value_size > LEAF_SPACE_FOR_CELLS - LEAF_KEY_SIZE {
            assert(leaf_max_cells(value_size as int) < 1) by (nonlinear_arith)
                requires
                    4 + value_size > 4082,
            ;
            return false;
        }
        proof {
            crate::layout::lemma_max_cells_bounds(value_size as int);
        }
        self.num_cells() as usize <= self.max_cells(value_size)
    }

    /// Tests [`Self::sorted`].
    pub fn is_sorted(&self, value_size: usize) -> (b: bool)
        requires
            self.well_formed(value_size as int),
        ensures
            b == self.sorted(value_size as int),
    {
        let ghost keys = self.keys(value_size as int);
        let n = self.num_cells() as usize;
        if n < 2 {
            return true;
        }
        let mut i: usize = 1;
        let mut last = self.key(0, value_size);
        while i < n
            invariant
                1 <= i <= n,
                n == self.spec_num_cells(),
                self.well_formed(value_size as int),
                keys == self.keys(value_size as int),
                last == keys[i - 1],
                forall|a: int, b: int| 0 <= a < b < i ==> keys[a] <= keys[b],
            decreases n - i,
        {
            let next = self.key(i, value_size);
            if next < last {
                assert(keys[i - 1] > keys[i as int]);
                return false;
            }
            last = next;
            i += 1;
        }
        true
    }
}

pub const INTERNAL_NUM_KEYS_OFFSET: usize = COMMON_NODE_HEADER_SIZE;

pub const INTERNAL_RIGHT_CHILD_OFFSET: usize = 10;

pub const INTERNAL_HEADER_SIZE: usize = 14;

pub const INTERNAL_CHILD_SIZE: usize = 4;

pub const INTERNAL_KEY_SIZE: usize = 4;

pub const INTERNAL_CELL_SIZE: usize = INTERNAL_CHILD_SIZE + INTERNAL_KEY_SIZE;

pub const INTERNAL_MAX_CELLS: usize = (PAGE_SIZE - INTERNAL_HEADER_SIZE) / INTERNAL_CELL_SIZE;

/// An internal page: a header, then cells of a child index and a key each.
/// The child of a cell leads to the keys up to the cell's key; the rightmost
/// child leads to the keys above the last cell's key.
#[derive(Debug)]
pub struct InternalNode {
    pub bytes: Box<[u8; 4096]>,
}

impl InternalNode {
    /// The page is marked as the root of the tree.
    pub open spec fn spec_root_node(&self) -> bool {
        self.bytes@[1] != 0
    }

    /// The number of keys.
    pub open spec fn spec_num_keys(&self) -> u32 {
        u32_value(self.bytes@.subrange(6, 10))
    }

    /// The index of the rightmost child.
    pub open spec fn spec_right_most_child(&self) -> u32 {
        u32_value(self.bytes@.subrange(10, 14))
    }

    /// The child index at the place of cell `index`.
    pub open spec fn spec_child(&self, index: int) -> u32 {
        u32_value(self.bytes@.subrange(14 + 8 * index, 14 + 8 * index + 4))
    }

    /// The key at the place of cell `index`.
    pub open spec fn spec_key(&self, index: int) -> u32 {
        u32_value(self.bytes@.subrange(14 + 8 * index + 4, 14 + 8 * index + 8))
    }

    /// Marks the page as the root of the tree; the rest of the page stays.
    pub fn set_root_node(&mut self)
        ensures
            final(self).bytes@ == old(self).bytes@.update(1, 1u8),
            final(self).spec_root_node(),
    {
        self.bytes[IS_ROOT_OFFSET] = 1u8;
    }

    /// Says whether the page is marked as the root of the tree.
    pub fn root_node(&self) -> (b: bool)
        ensures
            b == self.spec_root_node(),
    {
        self.bytes[IS_ROOT_OFFSET] != 0
    }

    /// The number of keys.
    pub fn num_keys(&self) -> (n: u32)
        ensures
            n == self.spec_num_keys(),
    {
        read_u32(self.bytes.as_slice(), INTERNAL_NUM_KEYS_OFFSET)
    }

    /// The number of cells that fit behind the header.
    pub fn max_cells(&self) -> (n: usize)
        ensures
            n == 510,
    {
        INTERNAL_MAX_CELLS
    }

    /// Where the key of cell `index` starts.
    pub fn key_offset(index: usize) -> (at: usize)
        requires
            index < 510,
        ensures
            at == 14 + 8 * index + 4,
    {
        Self::cell_offset(index) + INTERNAL_CHILD_SIZE
    }

    /// Where cell `index` starts.
    pub fn cell_offset(index: usize) -> (at: usize)
        requires
            index < 510,
        ensures
            at == 14 + 8 * index,
    {
        INTERNAL_HEADER_SIZE + index * INTERNAL_CELL_SIZE
    }

    /// The index of the rightmost child.
    pub fn right_most_child(&self) -> (child: u32)
        ensures
            child == self.spec_right_most_child(),
    {
        read_u32(self.bytes.as_slice(), INTERNAL_RIGHT_CHILD_OFFSET)
    }

    /// The key at the place of cell `index`.
    pub fn key(&self, index: usize) -> (k: u32)
        requires
            index < 510,
        ensures
            k == self.spec_key(index as int),
    {
        let offset = Self::key_offset(index);
        read_u32(self.bytes.as_slice(), offset)
    }

    /// The child on the given side of the key of cell `index`: on the left
    /// the child of that cell, on the right the child of the next cell, which
    /// behind the last key is the rightmost child.
    pub fn children(&self, index: usize, pos: Pos) -> (child: u32)
        requires
            child_place(index as int, pos) <= self.spec_num_keys(),
            child_place(index as int, pos) < self.spec_num_keys() ==> child_place(
                index as int,
                pos,
            ) < 510,
        ensures
            child == if child_place(index as int, pos) == self.spec_num_keys() {
                self.spec_right_most_child()
            } else {
                self.spec_child(child_place(index as int, pos))
            },
    {
        let num_keys = self.num_keys();
        let mut place = index;
        if pos == Pos::Right {
            place = place + 1;
        }
        if place == num_keys as usize {
            return self.right_most_child();
        }
        let offset = Self::cell_offset(place);
        read_u32(self.bytes.as_slice(), offset)
    }

    /// The internal page whose bytes are `bytes`.
    pub fn new(bytes: Box<[u8; 4096]>) -> (node: InternalNode)
        ensures
            node.bytes == bytes,
    {
        InternalNode { bytes }
    }
}

/// The cell whose child hangs on side `pos` of the key of cell `index`.
pub open spec fn child_place(index: int, pos: Pos) -> int {
    if pos == Pos::Right {
        index + 1
    } else {
        index
    }
}

} // verus!
