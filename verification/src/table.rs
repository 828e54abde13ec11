//! The pager, which keeps the pages of the table file in memory, and the
//! table, which puts rows into them.
//!
//! The file starts with a region of 4096 bytes for the table header. Behind
//! it the pages follow, 4096 bytes each. The pager works on the content of
//! the file, held as bytes; reading the file into them and writing them back
//! is the caller's part.

use vstd::prelude::*;
use vstd::arithmetic::div_mod::{
    lemma_div_is_ordered, lemma_fundamental_div_mod, lemma_fundamental_div_mod_converse,
};
use crate::datatype::{ScalarValue, ScalarView, Schema};
use crate::encoding::{copy_bytes, lemma_u32_zero, overwrite, zeros};
use crate::errors::Error;
use crate::layout::{
    cell_at, cell_key, cell_values, cells_of, encode_cell, is_insertion_point, keys_of,
    keys_sorted, leaf_header, leaf_max_cells, lemma_insertion_point, lemma_max_cells_bounds,
    NODE_TYPE_INTERNAL, NODE_TYPE_LEAF, NODE_TYPE_OFFSET, PAGE_SIZE,
};
use crate::statement::InsertStatement;
use crate::tree::{lemma_encode_cell, InternalNode, LeafNode};

verus! {

/// The number of pages a table may have, and of slots in the pager's cache.
pub const TABLE_MAX_PAGE: usize = 100;

/// The size of the region at the start of the file that holds the header.
pub const HEADER_SPACE: usize = 4096;

/// A page in memory, of the kind that its first byte said when it was read.
#[derive(Debug)]
pub enum Page {
    Leaf(LeafNode),
    Intermediate(InternalNode),
}

/// What a page is: its kind and its bytes.
pub struct PageView {
    pub leaf: bool,
    pub bytes: Seq<u8>,
}

impl View for Page {
    type V = PageView;

    open spec fn view(&self) -> PageView {
        match self {
            Page::Leaf(x) => PageView { leaf: true, bytes: x.bytes@ },
            Page::Intermediate(x) => PageView { leaf: false, bytes: x.bytes@ },
        }
    }
}

impl Page {
    /// The bytes of the page.
    pub fn bytes(&self) -> (b: &[u8])
        ensures
            b@ == self@.bytes,
    {
        match self {
            Page::Leaf(x) => x.bytes.as_slice(),
            Page::Intermediate(x) => x.bytes.as_slice(),
        }
    }

    /// The bytes of the page, to write to. The page keeps its kind.
    pub fn bytes_mut(&mut self) -> (b: &mut [u8])
        ensures
            b@ == old(self)@.bytes,
            final(self)@.bytes == final(b)@,
            final(self)@.leaf == old(self)@.leaf,
    {
        match self {
            Page::Leaf(x) => {
                let page: &mut [u8; 4096] = &mut *x.bytes;
                page
            },
            Page::Intermediate(x) => {
                let page: &mut [u8; 4096] = &mut *x.bytes;
                page
            },
        }
    }
}

/// Where page `index` starts in the file.
pub open spec fn page_offset(index: int) -> int {
    4096 + index * 4096
}

/// The file reaches to the end of page `index`.
pub open spec fn holds_page(file: Seq<u8>, index: int) -> bool {
    page_offset(index) + 4096 <= file.len()
}

/// The bytes of page `index` in the file.
pub open spec fn stored_page(file: Seq<u8>, index: int) -> Seq<u8> {
    file.subrange(page_offset(index), page_offset(index) + 4096)
}

/// The file cut or, with zeros, lengthened to `len` bytes.
pub open spec fn resized(file: Seq<u8>, len: int) -> Seq<u8> {
    if len <= file.len() {
        file.subrange(0, len)
    } else {
        file + zeros(len - file.len())
    }
}

/// The file with `bytes` written as page `index`; a shorter file is first
/// lengthened with zeros to the end of that page.
pub open spec fn with_page(file: Seq<u8>, index: int, bytes: Seq<u8>) -> Seq<u8> {
    overwrite(
        if holds_page(file, index) {
            file
        } else {
            resized(file, page_offset(index) + 4096)
        },
        page_offset(index),
        bytes,
    )
}

/// A page that was written to the file is in the file.
pub proof fn lemma_with_page_stores(file: Seq<u8>, index: int, bytes: Seq<u8>)
    requires
        0 <= index,
        bytes.len() == 4096,
    ensures
        holds_page(with_page(file, index, bytes), index),
        stored_page(with_page(file, index, bytes), index) == bytes,
{
}

/// Writing one page leaves the other pages of the file.
pub proof fn lemma_with_page_keeps(file: Seq<u8>, index: int, bytes: Seq<u8>, other: int)
    requires
        0 <= index,
        0 <= other,
        other != index,
        bytes.len() == 4096,
        holds_page(file, other),
    ensures
        holds_page(with_page(file, index, bytes), other),
        stored_page(with_page(file, index, bytes), other) == stored_page(file, other),
        with_page(file, index, bytes).subrange(0, 4096) == file.subrange(0, 4096),
{
}

/// The pages of a table file: the content of the file, the number of pages
/// it is known to hold, and the pages that were asked for, kept in one slot
/// each until the pager goes.
#[derive(Debug)]
pub struct Pager {
    pub file: Vec<u8>,
    pub pages: usize,
    pub cache: Vec<Option<Page>>,
}

impl Pager {
    /// The cache has its slots, the pages have a slot each, and no slot
    /// beyond the pages is taken.
    pub open spec fn well_formed(&self) -> bool {
        &&& self.cache@.len() == TABLE_MAX_PAGE
        &&& self.pages <= TABLE_MAX_PAGE
        &&& forall|i: int| self.pages <= i < TABLE_MAX_PAGE ==> self.cache@[i] is None
    }

    /// Tests [`Self::well_formed`].
    pub fn is_well_formed(&self) -> (b: bool)
        ensures
            b == self.well_formed(),
    {
        if self.cache.len() != TABLE_MAX_PAGE || self.pages > TABLE_MAX_PAGE {
            return false;
        }
        let mut i: usize = self.pages;
        while i < TABLE_MAX_PAGE
            invariant
                self.pages <= i <= TABLE_MAX_PAGE,
                self.cache@.len() == TABLE_MAX_PAGE,
                forall|k: int| self.pages <= k < i ==> self.cache@[k] is None,
            decreases TABLE_MAX_PAGE - i,
        {
            if self.cache[i].is_some() {
                return false;
            }
            i += 1;
        }
        true
    }

    /// The file reaches to the end of the last page.
    pub open spec fn covers_pages(&self) -> bool {
        self.file@.len() >= page_offset(self.pages as int)
    }

    /// The page that [`Self::page`] hands out for `index`, if it hands one
    /// out: the cached page; else the page as the file holds it, of the kind
    /// that its first byte says; or, right behind the last page, a new leaf
    /// of zeros.
    pub open spec fn lookup(&self, index: int) -> Option<PageView> {
        if !(0 <= index < TABLE_MAX_PAGE) {
            None
        } else if self.cache@[index] is Some {
            Some(self.cache@[index]->0@)
        } else if index < self.pages {
            let bytes = stored_page(self.file@, index);
            if holds_page(self.file@, index) && bytes[0] <= 1 {
                Some(PageView { leaf: bytes[0] == 0, bytes })
            } else {
                None
            }
        } else if index == self.pages {
            Some(PageView { leaf: true, bytes: zeros(4096) })
        } else {
            None
        }
    }

    /// A pager over the content of a file that holds `pages` pages, with
    /// nothing cached. More pages than the cache has slots are refused with
    /// [`Error::IOError`].
    pub fn new(file: Vec<u8>, pages: u64) -> (r: Result<Pager, Error>)
        ensures
            match r {
                Ok(pager) => {
                    &&& pages <= TABLE_MAX_PAGE
                    &&& pager.well_formed()
                    &&& pager.file@ == file@
                    &&& pager.pages == pages
                    &&& forall|i: int| 0 <= i < TABLE_MAX_PAGE ==> pager.cache@[i] is None
                },
                Err(e) => e == Error::IOError && pages > TABLE_MAX_PAGE,
            },
    {
        if pages > TABLE_MAX_PAGE as u64 {
            return Err(Error::IOError);
        }
        let mut cache: Vec<Option<Page>> = Vec::new();
        let mut i: usize = 0;
        while i < TABLE_MAX_PAGE
            invariant
                i <= TABLE_MAX_PAGE,
                cache@.len() == i,
                forall|k: int| 0 <= k < i ==> cache@[k] is None,
            decreases TABLE_MAX_PAGE - i,
        {
            cache.push(None);
            i += 1;
        }
        Ok(Pager { file, pages: pages as usize, cache })
    }

    /// Adds a page of zeros behind the last page: the file is set to end
    /// with it, and it is cached as a leaf. Hands out its index and the leaf.
    ///
    /// Fails with [`Error::IOError`], and changes nothing, where every slot
    /// of the cache stands for a page already.
    pub fn new_leaf_page(&mut self) -> (r: Result<(u32, &mut LeafNode), Error>)
        requires
            old(self).well_formed(),
        ensures
            final(self).well_formed(),
            match r {
                Ok((index, leaf)) => {
                    &&& old(self).pages < TABLE_MAX_PAGE
                    &&& index == old(self).pages
                    &&& leaf.bytes@ == zeros(4096)
                    &&& final(self).pages == old(self).pages + 1
                    &&& final(self).file@ == resized(old(self).file@, page_offset(index as int) + 4096)
                    &&& final(self).cache@ == old(self).cache@.update(
                        index as int,
                        Some(Page::Leaf(*final(leaf))),
                    )
                },
                Err(e) => {
                    &&& e == Error::IOError
                    &&& old(self).pages == TABLE_MAX_PAGE
                    &&& *final(self) == *old(self)
                },
            },
    {
        let index = self.pages;
        if index >= TABLE_MAX_PAGE {
            return Err(Error::IOError);
        }
        self.file.resize(HEADER_SPACE + (index + 1) * PAGE_SIZE, 0u8);
        self.pages = self.pages + 1;
        self.cache[index] = Some(Page::Leaf(LeafNode::new()));
        match &mut self.cache[index] {
            Some(Page::Leaf(leaf)) => Ok((index as u32, leaf)),
            _ => {
                Err(Error::IOError)
            },
        }
    }

    /// Hands out page `index`: see [`Self::lookup`]. A page that was not in
    /// the cache is there afterwards; a page right behind the last one is
    /// added as [`Self::new_leaf_page`] does it.
    ///
    /// Fails with [`Error::IOError`], and changes nothing, where there is no
    /// such page: the index is beyond the cache or more than one beyond the
    /// pages, the file ends before the end of the page, or the first byte of
    /// the page names no kind.
    pub fn page(&mut self, index: usize) -> (r: Result<&mut Page, Error>)
        requires
            old(self).well_formed(),
        ensures
            final(self).well_formed(),
            match r {
                Ok(page) => {
                    &&& index < TABLE_MAX_PAGE
                    &&& old(self).lookup(index as int) == Some(page@)
                    &&& final(self).cache@ == old(self).cache@.update(
                        index as int,
                        Some(*final(page)),
                    )
                    &&& final(self).pages == if index == old(self).pages {
                        old(self).pages + 1
                    } else {
                        old(self).pages as int
                    }
                    &&& final(self).file@ == if index == old(self).pages {
                        resized(old(self).file@, page_offset(index as int) + 4096)
                    } else {
                        old(self).file@
                    }
                },
                Err(e) => {
                    &&& e == Error::IOError
                    &&& old(self).lookup(index as int) is None
                    &&& *final(self) == *old(self)
                },
            },
    {
        if index >= TABLE_MAX_PAGE || index > self.pages {
            return Err(Error::IOError);
        }
        if index == self.pages {
            match self.new_leaf_page() {
                Ok(_) => {},
                Err(e) => {
                    return Err(e);
                },
            }
        } else if self.cache[index].is_none() {
            let offset = HEADER_SPACE + index * PAGE_SIZE;
            if self.file.len() < offset + PAGE_SIZE {
                return Err(Error::IOError);
            }
            let tag = self.file[offset + NODE_TYPE_OFFSET];
            if tag != NODE_TYPE_LEAF && tag != NODE_TYPE_INTERNAL {
                return Err(Error::IOError);
            }
            let mut bytes: Box<[u8; 4096]> = Box::new([0u8;4096]);
            let buffer: &mut [u8; 4096] = &mut *bytes;
            copy_bytes(buffer, 0, self.file.as_slice(), offset, PAGE_SIZE);
            assert(bytes@ =~= stored_page(self.file@, index as int));
            let page = if tag == NODE_TYPE_LEAF {
                Page::Leaf(LeafNode::new_with_bytes(bytes))
            } else {
                Page::Intermediate(InternalNode::new(bytes))
            };
            self.cache[index] = Some(page);
        }
        match &mut self.cache[index] {
            Some(page) => Ok(page),
            None => {
                Err(Error::IOError)
            },
        }
    }

    /// Writes the cached page `index` to its place in the file; a file that
    /// ends before it is first lengthened with zeros. Where the page is not
    /// cached, nothing happens.
    pub fn flush_page(&mut self, index: usize) -> (r: Result<(), Error>)
        requires
            old(self).well_formed(),
        ensures
            r is Ok,
            final(self).well_formed(),
            final(self).cache == old(self).cache,
            final(self).pages == old(self).pages,
            final(self).file@ == if index < TABLE_MAX_PAGE && old(self).cache@[index as int] is Some {
                with_page(old(self).file@, index as int, old(self).cache@[index as int]->0@.bytes)
            } else {
                old(self).file@
            },
    {
        if index >= TABLE_MAX_PAGE {
            return Ok(());
        }
        match &self.cache[index] {
            Some(page) => {
                let offset = HEADER_SPACE + index * PAGE_SIZE;
                if self.file.len() < offset + PAGE_SIZE {
                    self.file.resize(offset + PAGE_SIZE, 0u8);
                }
                let bytes = page.bytes();
                copy_bytes(self.file.as_mut_slice(), offset, bytes, 0, PAGE_SIZE);
            },
            None => {},
        }
        Ok(())
    }
}

/// A page that was flushed comes back from the file: a pager opened over the
/// file as the flush left it hands out, for that index, a page of the same
/// bytes; and the pages that the file held besides are in it as before.
///
/// This holds of every page whose first byte names a kind. A page whose
/// first byte is 2 or more is written like any other, but no pager hands it
/// out again.
pub proof fn lemma_flushed_page_persists(
    before: &Pager,
    after: &Pager,
    reopened: &Pager,
    index: int,
)
    requires
        before.well_formed(),
        0 <= index < before.pages,
        before.cache@[index] is Some,
        before.cache@[index]->0@.bytes[0] <= 1,
        after.file@ == with_page(before.file@, index, before.cache@[index]->0@.bytes),
        reopened.well_formed(),
        reopened.file@ == after.file@,
        reopened.pages == before.pages,
        forall|i: int| 0 <= i < TABLE_MAX_PAGE ==> reopened.cache@[i] is None,
    ensures
        reopened.lookup(index) matches Some(page) && page.bytes == before.cache@[index]->0@.bytes,
        forall|j: int|
            0 <= j && j != index && holds_page(before.file@, j) ==> holds_page(reopened.file@, j)
                && stored_page(reopened.file@, j) == stored_page(before.file@, j),
{
    let bytes = before.cache@[index]->0@.bytes;
    lemma_with_page_stores(before.file@, index, bytes);
    assert forall|j: int| 0 <= j && j != index && holds_page(before.file@, j) implies holds_page(
        reopened.file@,
        j,
    ) && stored_page(reopened.file@, j) == stored_page(before.file@, j) by {
        lemma_with_page_keeps(before.file@, index, bytes, j);
    }
}

/// The persisted record of a table: its name, its schema and the number of
/// rows it holds.
#[derive(Debug)]
pub struct TableHeader {
    pub name: String,
    pub schema: Schema,
    pub num_rows: usize,
}

/// A table: its header, and the pager over the content of its file.
///
/// Row `i` of the table is the cell at place `i % rows_per_page` of page
/// `i / rows_per_page`, and has `i` as its key. So every page of a table is a
/// leaf, filled in the order of the keys, and a page is full before the next
/// one begins: no leaf of a table ever splits, and no internal page is
/// written. Where the file holds an internal page in the place of a leaf, the
/// table reports it as [`Error::IOError`].
#[derive(Debug)]
pub struct Table {
    pub header: TableHeader,
    pub pages: Pager,
}

/// The number of pages that `rows` rows take, `per_page` to a page.
pub open spec fn pages_for(rows: int, per_page: int) -> int {
    if rows % per_page == 0 {
        rows / per_page
    } else {
        rows / per_page + 1
    }
}

/// Where row number `rows` goes, and that the pages then are one more than
/// the page it goes to.
pub proof fn lemma_row_place(rows: int, per_page: int)
    requires
        0 <= rows,
        1 <= per_page,
    ensures
        0 <= rows / per_page,
        0 <= rows % per_page < per_page,
        rows == (rows / per_page) * per_page + rows % per_page,
        pages_for(rows + 1, per_page) == rows / per_page + 1,
{
    let q = rows / per_page;
    let r = rows % per_page;
    lemma_fundamental_div_mod(rows, per_page);
    vstd::arithmetic::div_mod::lemma_mod_bound(rows, per_page);
    vstd::arithmetic::div_mod::lemma_div_pos_is_pos(rows, per_page);
    if r + 1 < per_page {
        lemma_fundamental_div_mod_converse(rows + 1, per_page, q, r + 1);
    } else {
        assert((q + 1) * per_page + 0 == rows + 1) by (nonlinear_arith)
            requires
                rows == q * per_page + r,
                r + 1 == per_page,
        ;
        lemma_fundamental_div_mod_converse(rows + 1, per_page, q + 1, 0);
    }
}

/// An earlier row lies on an earlier page, or on the same page at an earlier
/// place.
pub proof fn lemma_earlier_row(i: int, rows: int, per_page: int)
    requires
        0 <= i < rows,
        1 <= per_page,
    ensures
        0 <= i / per_page,
        0 <= i % per_page < per_page,
        i / per_page < rows / per_page || (i / per_page == rows / per_page && i % per_page < rows
            % per_page),
{
    lemma_div_is_ordered(i, rows, per_page);
    lemma_fundamental_div_mod(i, per_page);
    lemma_fundamental_div_mod(rows, per_page);
    vstd::arithmetic::div_mod::lemma_mod_bound(i, per_page);
    vstd::arithmetic::div_mod::lemma_div_pos_is_pos(i, per_page);
}

/// A row below the limit of the table lies on one of its pages.
pub proof fn lemma_page_in_table(rows: int, per_page: int, limit: int)
    requires
        0 <= rows < per_page * limit,
        1 <= per_page,
    ensures
        rows / per_page < limit,
{
    lemma_fundamental_div_mod(rows, per_page);
    vstd::arithmetic::div_mod::lemma_mod_bound(rows, per_page);
    let q = rows / per_page;
    assert(q < limit) by (nonlinear_arith)
        requires
            rows == per_page * q + rows % per_page,
            0 <= rows % per_page,
            rows < per_page * limit,
            1 <= per_page,
    ;
}

/// The row at place `slot` of a page: the values of that cell, where the
/// page is a leaf that holds a cell there and the cell holds a row of
/// `schema`.
pub open spec fn leaf_row(page: PageView, slot: int, schema: &Schema) -> Option<Seq<ScalarView>> {
    if page.leaf && slot < leaf_header(page.bytes).num_cells {
        cell_values(cell_at(page.bytes, slot, schema.spec_row_size() as int), schema)
    } else {
        None
    }
}

/// The leaf holds `slot` cells in ascending order of their keys, all of them
/// smaller than `key`: a cell with `key` goes behind them.
pub open spec fn appendable(bytes: Seq<u8>, slot: int, key: int, value_size: int) -> bool {
    &&& leaf_header(bytes).num_cells == slot
    &&& keys_sorted(keys_of(cells_of(bytes, slot, value_size)))
    &&& slot > 0 ==> cell_key(cell_at(bytes, slot - 1, value_size)) < key
}

/// A page of zeros is an empty leaf.
pub proof fn lemma_zero_page(value_size: int, key: int)
    ensures
        leaf_header(zeros(4096)).num_cells == 0,
        appendable(zeros(4096), 0, key, value_size),
{
    lemma_u32_zero();
}

/// Puts the cell of `key` and `values` behind the `slot` cells of the leaf
/// page `index`, and writes the page to the file.
fn append_to_page(
    pages: &mut Pager,
    index: usize,
    slot: usize,
    key: u32,
    schema: &Schema,
    values: Vec<ScalarValue>,
) -> (r: Result<(), Error>)
    requires
        old(pages).well_formed(),
        old(pages).covers_pages(),
        slot < leaf_max_cells(schema.spec_row_size() as int),
        schema.accepts(values.deep_view()),
        index == old(pages).pages ==> slot == 0,
    ensures
        final(pages).well_formed(),
        final(pages).covers_pages(),
        final(pages).file@.subrange(0, 4096) == old(pages).file@.subrange(0, 4096),
        forall|j: int|
            0 <= j < old(pages).pages && j != index ==> final(pages).lookup(j) == old(
                pages,
            ).lookup(j),
        forall|j: int|
            0 <= j < old(pages).pages && j != index ==> #[trigger] stored_page(
                final(pages).file@,
                j,
            ) == stored_page(old(pages).file@, j),
        match r {
            Ok(()) => {
                &&& old(pages).lookup(index as int) matches Some(before)
                &&& before.leaf
                &&& appendable(before.bytes, slot as int, key as int, schema.spec_row_size() as int)
                &&& final(pages).lookup(index as int) matches Some(after)
                &&& after.leaf
                &&& after.bytes.len() == 4096
                &&& leaf_header(after.bytes).num_cells == slot + 1
                &&& cells_of(after.bytes, slot + 1, schema.spec_row_size() as int) == cells_of(
                    before.bytes,
                    slot as int,
                    schema.spec_row_size() as int,
                ).push(encode_cell(key, schema, values.deep_view()))
                &&& final(pages).pages == if index == old(pages).pages {
                    old(pages).pages + 1
                } else {
                    old(pages).pages as int
                }
                &&& holds_page(final(pages).file@, index as int)
                &&& stored_page(final(pages).file@, index as int) == after.bytes
            },
            Err(e) => {
                &&& e == Error::IOError
                &&& !(old(pages).lookup(index as int) matches Some(before) && before.leaf
                    && appendable(
                    before.bytes,
                    slot as int,
                    key as int,
                    schema.spec_row_size() as int,
                ))
                &&& final(pages).file@ == old(pages).file@
                &&& final(pages).pages == old(pages).pages
                &&& final(pages).lookup(index as int) == old(pages).lookup(index as int)
            },
        },
{
    let ghost vs = schema.spec_row_size() as int;
    let ghost vals = values.deep_view();
    proof {
        lemma_zero_page(vs, key as int);
        lemma_encode_cell(key, schema, vals);
        crate::layout::lemma_cell_in_page(slot as int, vs);
    }
    let value_size = schema.row_size();
    match pages.page(index) {
        Err(e) => {
            return Err(e);
        },
        Ok(page) => {
            match page {
                Page::Intermediate(_) => {
                    return Err(Error::IOError);
                },
                Page::Leaf(leaf) => {
                    let ghost before = leaf.bytes@;
                    if leaf.num_cells() as usize != slot {
                        return Err(Error::IOError);
                    }
                    if !leaf.is_sorted(value_size) {
                        return Err(Error::IOError);
                    }
                    if slot > 0 && leaf.key(slot - 1, value_size) >= key {
                        assert(keys_of(cells_of(before, slot as int, vs))[slot - 1] == cell_key(
                            cell_at(before, slot - 1, vs),
                        ));
                        return Err(Error::IOError);
                    }
                    proof {
                        let keys = leaf.keys(vs);
                        assert forall|i: int| 0 <= i < slot implies keys[i] < key by {
                            assert(keys[slot - 1] == cell_key(cell_at(before, slot - 1, vs)));
                        }
                        lemma_insertion_point(keys, key, slot as int);
                        assert(leaf.cells(vs).insert(slot as int, encode_cell(key, schema, vals))
                            =~= leaf.cells(vs).push(encode_cell(key, schema, vals)));
                    }
                    let _ = leaf.leaf_node_split_and_insert(key, values, schema);
                },
            }
        },
    }
    let ghost cached = pages.file@;
    let _ = pages.flush_page(index);
    proof {
        let bytes = pages.cache@[index as int]->0@.bytes;
        lemma_with_page_stores(cached, index as int, bytes);
        assert forall|j: int| 0 <= j < old(pages).pages && j != index implies pages.lookup(j)
            == old(pages).lookup(j) && #[trigger] stored_page(pages.file@, j) == stored_page(
            old(pages).file@,
            j,
        ) by {
            assert(stored_page(cached, j) =~= stored_page(old(pages).file@, j));
            lemma_with_page_keeps(cached, index as int, bytes, j);
        }
    }
    Ok(())
}

/// The leaf holds `count` cells, and their keys count up from `first`.
pub open spec fn holds_rows(bytes: Seq<u8>, first: int, count: int, value_size: int) -> bool {
    &&& leaf_header(bytes).num_cells == count
    &&& forall|i: int|
        0 <= i < count ==> cell_key(#[trigger] cell_at(bytes, i, value_size)) == first + i
}

/// A leaf that holds the rows before row `first + count` and no others can
/// take that row.
pub proof fn lemma_holds_rows_appendable(bytes: Seq<u8>, first: int, count: int, value_size: int)
    requires
        holds_rows(bytes, first, count, value_size),
        0 <= count,
    ensures
        appendable(bytes, count, first + count, value_size),
{
}

impl Table {
    /// The number of bytes of one encoded row.
    pub open spec fn spec_row_size(&self) -> int {
        self.header.schema.spec_row_size() as int
    }

    /// The number of rows that a page holds: as many as a leaf has cells.
    pub open spec fn spec_rows_per_page(&self) -> int {
        leaf_max_cells(self.spec_row_size())
    }

    /// The number of rows that the table holds at most.
    pub open spec fn spec_max_rows(&self) -> int {
        self.spec_rows_per_page() * TABLE_MAX_PAGE
    }

    /// A row fits a page with its key, the pager knows the pages that the
    /// rows take, and the file holds them.
    pub open spec fn well_formed(&self) -> bool {
        &&& self.spec_row_size() + 4 <= 4082
        &&& self.pages.well_formed()
        &&& self.pages.covers_pages()
        &&& self.pages.pages == pages_for(self.header.num_rows as int, self.spec_rows_per_page())
    }

    /// The page on which row `index` lies.
    pub open spec fn page_of(&self, index: int) -> int {
        index / self.spec_rows_per_page()
    }

    /// The place of row `index` on its page.
    pub open spec fn slot_of(&self, index: int) -> int {
        index % self.spec_rows_per_page()
    }

    /// Row `index` as the pages hold it: see [`leaf_row`].
    pub open spec fn row(&self, index: int) -> Option<Seq<ScalarView>> {
        match self.pages.lookup(self.page_of(index)) {
            Some(page) => leaf_row(page, self.slot_of(index), &self.header.schema),
            None => None,
        }
    }

    /// The page of the next row is at hand and is a leaf that holds the rows
    /// before it and no others: see [`appendable`].
    pub open spec fn ready(&self) -> bool {
        let rows = self.header.num_rows as int;
        match self.pages.lookup(self.page_of(rows)) {
            Some(page) => page.leaf && appendable(
                page.bytes,
                self.slot_of(rows),
                rows,
                self.spec_row_size(),
            ),
            None => false,
        }
    }

    /// The number of rows on page `page`, a page of the table.
    pub open spec fn rows_on(&self, page: int) -> int {
        if (page + 1) * self.spec_rows_per_page() <= self.header.num_rows {
            self.spec_rows_per_page()
        } else {
            self.header.num_rows - page * self.spec_rows_per_page()
        }
    }

    /// Page `page` is at hand and is a leaf that holds the rows that lie on
    /// it, each with its index as its key, and no other cells.
    pub open spec fn page_consistent(&self, page: int) -> bool {
        match self.pages.lookup(page) {
            Some(view) => view.leaf && holds_rows(
                view.bytes,
                page * self.spec_rows_per_page(),
                self.rows_on(page),
                self.spec_row_size(),
            ),
            None => false,
        }
    }

    /// Every page of the table is consistent: see [`Self::page_consistent`].
    /// A table without rows is, and [`Self::insert`] keeps a table so.
    pub open spec fn consistent(&self) -> bool {
        forall|page: int| 0 <= page < self.pages.pages ==> #[trigger] self.page_consistent(page)
    }

    /// A consistent table that is not full is ready for the next row.
    pub proof fn lemma_consistent_ready(&self)
        requires
            self.well_formed(),
            self.consistent(),
            self.header.num_rows < self.spec_max_rows(),
        ensures
            self.ready(),
    {
        let rows = self.header.num_rows as int;
        let per_page = self.spec_rows_per_page();
        let page = rows / per_page;
        let slot = rows % per_page;
        lemma_max_cells_bounds(self.spec_row_size());
        lemma_row_place(rows, per_page);
        lemma_page_in_table(rows, per_page, TABLE_MAX_PAGE as int);
        if slot == 0 {
            lemma_zero_page(self.spec_row_size(), rows);
        } else {
            assert(self.page_consistent(page));
            assert((page + 1) * per_page == page * per_page + per_page) by (nonlinear_arith);
            lemma_holds_rows_appendable(
                self.pages.lookup(page)->0.bytes,
                page * per_page,
                slot,
                self.spec_row_size(),
            );
        }
    }

    /// A consistent table stays consistent when the next row goes behind the
    /// cells of its page with its index as its key, and the other pages
    /// stay.
    pub proof fn lemma_append_keeps_consistent(&self, after: &Table, cell: Seq<u8>)
        requires
            self.well_formed(),
            self.consistent(),
            self.ready(),
            self.header.num_rows < self.spec_max_rows(),
            after.header.schema == self.header.schema,
            after.header.num_rows == self.header.num_rows + 1,
            after.pages.pages == self.page_of(self.header.num_rows as int) + 1,
            forall|j: int|
                0 <= j < self.pages.pages && j != self.page_of(self.header.num_rows as int)
                    ==> after.pages.lookup(j) == self.pages.lookup(j),
            cell_key(cell) == self.header.num_rows,
            after.pages.lookup(self.page_of(self.header.num_rows as int)) matches Some(view)
                && view.leaf && leaf_header(view.bytes).num_cells == self.slot_of(
                self.header.num_rows as int,
            ) + 1 && cells_of(
                view.bytes,
                self.slot_of(self.header.num_rows as int) + 1,
                self.spec_row_size(),
            ) == cells_of(
                self.pages.lookup(self.page_of(self.header.num_rows as int))->0.bytes,
                self.slot_of(self.header.num_rows as int),
                self.spec_row_size(),
            ).push(cell),
        ensures
            after.consistent(),
    {
        let rows = self.header.num_rows as int;
        let per_page = self.spec_rows_per_page();
        let vs = self.spec_row_size();
        let page = rows / per_page;
        let slot = rows % per_page;
        lemma_max_cells_bounds(vs);
        lemma_row_place(rows, per_page);
        assert((page + 1) * per_page == page * per_page + per_page) by (nonlinear_arith);
        let after_bytes = after.pages.lookup(page)->0.bytes;
        assert forall|q: int| 0 <= q < after.pages.pages implies #[trigger] after.page_consistent(
            q,
        ) by {
            if q < page {
                assert(self.page_consistent(q));
                assert((q + 1) * per_page <= page * per_page) by (nonlinear_arith)
                    requires
                        q + 1 <= page,
                        per_page >= 1,
                ;
            } else {
                if slot > 0 {
                    assert(self.page_consistent(page));
                }
                assert forall|i: int| 0 <= i < slot + 1 implies cell_key(
                    #[trigger] cell_at(after_bytes, i, vs),
                ) == page * per_page + i by {
                    assert(cells_of(after_bytes, slot + 1, vs)[i] == cell_at(after_bytes, i, vs));
                }
            }
        }
    }

    /// What [`Self::insert`] does to a table and returns: this is the table
    /// before, `after` the table afterwards.
    ///
    /// The name and the schema stay, and so do the header region of the file,
    /// the other pages in the file, and the rows that the table had. A
    /// consistent table stays consistent, and its pages never fail it.
    ///
    /// The row is appended exactly where the table is not full, the schema
    /// accepts the values, and the page of the row is [`Self::ready`]: then
    /// the table has one row more, the new row holds the values, and its page
    /// is in the file as the pager holds it. Else the number of rows and the
    /// file stay, and the error is [`Error::RowLimit`] where the table is
    /// full, else [`Error::ParseError`] where the schema does not accept the
    /// values, else [`Error::IOError`].
    pub open spec fn inserted(
        &self,
        after: &Table,
        values: Seq<ScalarView>,
        r: Result<(), Error>,
    ) -> bool {
        &&& after.header.schema == self.header.schema
        &&& after.header.name == self.header.name
        &&& after.pages.file@.subrange(0, 4096) == self.pages.file@.subrange(0, 4096)
        &&& forall|page: int|
            0 <= page < self.pages.pages && page != self.page_of(self.header.num_rows as int)
                ==> #[trigger] stored_page(after.pages.file@, page) == stored_page(
                self.pages.file@,
                page,
            )
        &&& forall|i: int| 0 <= i < self.header.num_rows ==> after.row(i) == self.row(i)
        &&& self.consistent() ==> after.consistent() && !(r matches Err(Error::IOError))
        &&& match r {
            Ok(()) => {
                &&& self.header.num_rows < self.spec_max_rows()
                &&& self.header.schema.accepts(values)
                &&& self.ready()
                &&& after.header.num_rows == self.header.num_rows + 1
                &&& after.row(self.header.num_rows as int) == Some(values)
                &&& after.stored(self.page_of(self.header.num_rows as int))
            },
            Err(e) => {
                &&& after.header.num_rows == self.header.num_rows
                &&& after.pages.file@ == self.pages.file@
                &&& e == if self.header.num_rows >= self.spec_max_rows() {
                    Error::RowLimit
                } else if !self.header.schema.accepts(values) {
                    Error::ParseError
                } else {
                    Error::IOError
                }
                &&& e == Error::IOError ==> !self.ready()
            },
        }
    }

    /// What [`Self::read`] does to a table and returns: this is the table
    /// before, `after` the table afterwards.
    ///
    /// The header, the file and the rows stay, and a consistent table stays
    /// consistent.
    ///
    /// The values of the row are returned exactly where the table has the
    /// row and holds it: see [`Self::row`]. Else the error is
    /// [`Error::ParseError`] where the table has no such row; else
    /// [`Error::IOError`] where the page of the row is not at hand, or is no
    /// leaf with a cell at the place of the row, which never happens to a
    /// consistent table; else [`Error::ParseError`].
    pub open spec fn was_read(
        &self,
        after: &Table,
        index: int,
        r: Result<Vec<ScalarValue>, Error>,
    ) -> bool {
        &&& after.header == self.header
        &&& after.pages.file@ == self.pages.file@
        &&& forall|i: int| 0 <= i < self.header.num_rows ==> after.row(i) == self.row(i)
        &&& self.consistent() ==> after.consistent() && !(r matches Err(Error::IOError))
        &&& match r {
            Ok(values) => {
                &&& index < self.header.num_rows
                &&& self.row(index) == Some(values.deep_view())
            },
            Err(e) => {
                if index >= self.header.num_rows {
                    e == Error::ParseError
                } else {
                    &&& self.row(index) is None
                    &&& e == match self.pages.lookup(self.page_of(index)) {
                        Some(page) => if page.leaf && self.slot_of(index) < leaf_header(
                            page.bytes,
                        ).num_cells {
                            Error::ParseError
                        } else {
                            Error::IOError
                        },
                        None => Error::IOError,
                    }
                }
            },
        }
    }

    /// The table of `header` over the content `file` of its file, with no
    /// page cached.
    ///
    /// Fails with [`Error::SerializationError`] where the header is of no
    /// use, a row of its schema not fitting a page with its key; and else
    /// with [`Error::IOError`] where the rows take more pages than a table
    /// has, or the file ends before the end of the last page.
    pub fn new(header: TableHeader, file: Vec<u8>) -> (r: Result<Table, Error>)
        ensures
            match r {
                Ok(table) => {
                    &&& table.well_formed()
                    &&& table.header == header
                    &&& table.pages.file@ == file@
                    &&& forall|i: int| 0 <= i < TABLE_MAX_PAGE ==> table.pages.cache@[i] is None
                    &&& header.num_rows == 0 ==> table.consistent()
                },
                Err(e) => if header.schema.spec_row_size() + 4 > 4082 {
                    e == Error::SerializationError
                } else {
                    &&& e == Error::IOError
                    &&& {
                        let pages = pages_for(
                            header.num_rows as int,
                            leaf_max_cells(header.schema.spec_row_size() as int),
                        );
                        pages > TABLE_MAX_PAGE || file@.len() < page_offset(pages)
                    }
                },
            },
    {
        let value_size = match header.schema.checked_row_size(4078) {
            Some(n) => n,
            None => {
                return Err(Error::SerializationError);
            },
        };
        proof {
            lemma_max_cells_bounds(value_size as int);
        }
        let per_page: usize = 4082 / (4 + value_size);
        proof {
            lemma_fundamental_div_mod_converse(0, per_page as int, 0, 0);
        }
        let full = header.num_rows / per_page;
        if full > TABLE_MAX_PAGE {
            return Err(Error::IOError);
        }
        let pages = if header.num_rows % per_page == 0 {
            full
        } else {
            full + 1
        };
        if pages > TABLE_MAX_PAGE || file.len() < HEADER_SPACE + pages * 4096 {
            return Err(Error::IOError);
        }
        match Pager::new(file, pages as u64) {
            Ok(pager) => Ok(Table { header, pages: pager }),
            Err(e) => Err(e),
        }
    }

    /// Appends a row of the given values: its index is the number of rows so
    /// far, it goes behind the cells of its page with that index as its key,
    /// and the page is written to the file. The header in the file is not
    /// touched: see [`Self::flush_table_header`].
    ///
    /// Fails, with the rows, their number and the file as they were,
    /// - with [`Error::RowLimit`] where the table is full;
    /// - else with [`Error::ParseError`] where the schema does not accept the
    ///   values;
    /// - else with [`Error::IOError`] where the page of the row is not
    ///   [`Self::ready`].
    pub fn insert(&mut self, values: InsertStatement) -> (r: Result<(), Error>)
        requires
            old(self).well_formed(),
        ensures
            final(self).well_formed(),
            old(self).inserted(final(self), values.values.deep_view(), r),
    {
        let num_rows = self.header.num_rows;
        let per_page = self.rows_per_page();
        if num_rows >= self.max_rows() {
            return Err(Error::RowLimit);
        }
        let row = values.values.as_slice();
        if !self.header.schema.matches(row) {
            return Err(Error::ParseError);
        }
        proof {
            lemma_row_place(num_rows as int, per_page as int);
            lemma_page_in_table(num_rows as int, per_page as int, TABLE_MAX_PAGE as int);
            lemma_encode_cell(
                num_rows as u32,
                &self.header.schema,
                values.values.deep_view(),
            );
            assert(per_page * 100 <= 102000) by (nonlinear_arith)
                requires
                    per_page <= 1020,
            ;
        }
        let index = num_rows / per_page;
        let slot = num_rows % per_page;
        let ghost vals = values.values.deep_view();
        let ghost cell = encode_cell(num_rows as u32, &self.header.schema, vals);
        match append_to_page(
            &mut self.pages,
            index,
            slot,
            num_rows as u32,
            &self.header.schema,
            values.values,
        ) {
            Err(e) => {
                proof {
                    assert forall|i: int| 0 <= i < num_rows implies self.row(i) == old(self).row(
                        i,
                    ) by {
                        lemma_earlier_row(i, num_rows as int, per_page as int);
                    }
                    if old(self).consistent() {
                        old(self).lemma_consistent_ready();
                    }
                }
                return Err(e);
            },
            Ok(()) => {},
        }
        self.header.num_rows = num_rows + 1;
        proof {
            if old(self).consistent() {
                old(self).lemma_append_keeps_consistent(&*self, cell);
            }
        }
        proof {
            let before = old(self).pages.lookup(index as int)->0;
            let after = self.pages.lookup(index as int)->0;
            let vs = self.spec_row_size();
            crate::layout::lemma_cell_in_page(slot as int, vs);
            assert(cells_of(after.bytes, slot + 1, vs)[slot as int] == cell);
            assert forall|i: int| 0 <= i < num_rows implies self.row(i) == old(self).row(i) by {
                lemma_earlier_row(i, num_rows as int, per_page as int);
                if i / (per_page as int) == index {
                    let k = i % (per_page as int);
                    assert(cells_of(after.bytes, slot + 1, vs)[k] == cells_of(
                        before.bytes,
                        slot as int,
                        vs,
                    )[k]);
                }
            }
        }
        Ok(())
    }

    /// Page `index` is in the file as the pager holds it.
    pub open spec fn stored(&self, index: int) -> bool {
        &&& holds_page(self.pages.file@, index)
        &&& self.pages.lookup(index) matches Some(page)
        &&& stored_page(self.pages.file@, index) == page.bytes
    }

    /// The values of row `index`.
    ///
    /// Fails, with the rows as they were,
    /// - with [`Error::ParseError`] where the table has no such row;
    /// - else with [`Error::IOError`] where the page of the row is not at
    ///   hand, or is no leaf with a cell at the row's place;
    /// - else with [`Error::ParseError`] where the cell holds no row of the
    ///   schema.
    pub fn read(&mut self, index: usize) -> (r: Result<Vec<ScalarValue>, Error>)
        requires
            old(self).well_formed(),
        ensures
            final(self).well_formed(),
            old(self).was_read(final(self), index as int, r),
    {
        if index >= self.header.num_rows {
            return Err(Error::ParseError);
        }
        let per_page = self.rows_per_page();
        proof {
            lemma_earlier_row(index as int, self.header.num_rows as int, per_page as int);
            lemma_row_place(self.header.num_rows as int, per_page as int);
        }
        let place = index / per_page;
        let slot = index % per_page;
        let result = match self.pages.page(place) {
            Err(e) => Err(e),
            Ok(page) => {
                match page {
                    Page::Intermediate(_) => Err(Error::IOError),
                    Page::Leaf(leaf) => {
                        if slot >= leaf.num_cells() as usize {
                            Err(Error::IOError)
                        } else {
                            match leaf.read_row(slot, &self.header.schema) {
                                Ok((_, values)) => Ok(values),
                                Err(e) => Err(e),
                            }
                        }
                    },
                }
            },
        };
        proof {
            assert forall|i: int| 0 <= i < self.header.num_rows implies self.row(i) == old(
                self,
            ).row(i) by {
                lemma_earlier_row(i, self.header.num_rows as int, per_page as int);
            }
            if old(self).consistent() {
                lemma_fundamental_div_mod(index as int, per_page as int);
                assert(index == place * per_page + slot) by (nonlinear_arith)
                    requires
                        index == per_page * (index as int / per_page as int) + (index as int
                            % per_page as int),
                        place == index as int / per_page as int,
                        slot == index as int % per_page as int,
                ;
                assert(old(self).page_consistent(place as int));
                assert forall|q: int| 0 <= q < self.pages.pages implies #[trigger] self.page_consistent(
                    q,
                ) by {
                    assert(old(self).page_consistent(q));
                }
            }
        }
        result
    }

    /// Puts the encoded header into the header region of the file: the
    /// encoding, then zeros up to the end of the region.
    ///
    /// Fails with [`Error::SerializationError`], and changes nothing, exactly
    /// where the encoding is longer than the region.
    pub fn flush_table_header(&mut self, encoded: &[u8]) -> (r: Result<(), Error>)
        requires
            old(self).well_formed(),
        ensures
            final(self).well_formed(),
            final(self).header == old(self).header,
            final(self).pages.cache == old(self).pages.cache,
            final(self).pages.pages == old(self).pages.pages,
            match r {
                Ok(()) => {
                    &&& encoded@.len() <= HEADER_SPACE
                    &&& final(self).pages.file@ == overwrite(
                        old(self).pages.file@,
                        0,
                        header_bytes(encoded@),
                    )
                },
                Err(e) => {
                    &&& e == Error::SerializationError
                    &&& encoded@.len() > HEADER_SPACE
                    &&& final(self).pages.file@ == old(self).pages.file@
                },
            },
    {
        proof {
            vstd::slice::axiom_spec_len(encoded);
        }
        if encoded.len() > HEADER_SPACE {
            return Err(Error::SerializationError);
        }
        let len = encoded.len();
        let file = self.pages.file.as_mut_slice();
        copy_bytes(file, 0, encoded, 0, len);
        crate::encoding::fill_zero(file, len, HEADER_SPACE - len);
        proof {
            assert(self.pages.file@ =~= overwrite(
                old(self).pages.file@,
                0,
                header_bytes(encoded@),
            ));
        }
        Ok(())
    }

    /// Tests [`Self::well_formed`].
    pub fn is_well_formed(&self) -> (b: bool)
        ensures
            b == self.well_formed(),
    {
        let value_size = match self.header.schema.checked_row_size(4078) {
            Some(n) => n,
            None => {
                return false;
            },
        };
        if !self.pages.is_well_formed() {
            return false;
        }
        proof {
            lemma_max_cells_bounds(value_size as int);
        }
        let per_page: usize = 4082 / (4 + value_size);
        let pages = self.pages.pages;
        if self.pages.file.len() < HEADER_SPACE + pages * 4096 {
            return false;
        }
        let full = self.header.num_rows / per_page;
        if self.header.num_rows % per_page == 0 {
            pages == full
        } else {
            full < TABLE_MAX_PAGE && pages == full + 1
        }
    }

    /// The number of rows that a page holds: as many as a leaf has cells.
    pub fn rows_per_page(&self) -> (n: usize)
        requires
            self.spec_row_size() + 4 <= 4082,
        ensures
            n == self.spec_rows_per_page(),
            1 <= n <= 1020,
    {
        proof {
            lemma_max_cells_bounds(self.spec_row_size());
        }
        let row_size = self.header.schema.row_size();
        4082 / (4 + row_size)
    }

    /// The number of rows that the table holds at most.
    pub fn max_rows(&self) -> (n: usize)
        requires
            self.spec_row_size() + 4 <= 4082,
        ensures
            n == self.spec_max_rows(),
    {
        self.rows_per_page() * TABLE_MAX_PAGE
    }

    /// The schema of the rows.
    pub fn schema(&self) -> (schema: &Schema)
        ensures
            schema == &self.header.schema,
    {
        &self.header.schema
    }
}

/// The header region of a file for an encoded header: the encoding, then
/// zeros up to the end of the region.
pub open spec fn header_bytes(encoded: Seq<u8>) -> Seq<u8> {
    encoded + zeros(HEADER_SPACE - encoded.len())
}

/// The header region of a new file: see [`header_bytes`].
///
/// Fails with [`Error::SerializationError`] exactly where the encoding is
/// longer than the region.
pub fn header_region(encoded: &[u8]) -> (r: Result<Vec<u8>, Error>)
    ensures
        match r {
            Ok(region) => encoded@.len() <= HEADER_SPACE && region@ == header_bytes(encoded@),
            Err(e) => e == Error::SerializationError && encoded@.len() > HEADER_SPACE,
        },
{
    proof {
        vstd::slice::axiom_spec_len(encoded);
    }
    if encoded.len() > HEADER_SPACE {
        return Err(Error::SerializationError);
    }
    let mut region: Vec<u8> = Vec::new();
    region.resize(HEADER_SPACE, 0u8);
    copy_bytes(region.as_mut_slice(), 0, encoded, 0, encoded.len());
    Ok(region)
}

} // verus!
