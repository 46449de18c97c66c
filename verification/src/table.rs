//! The table: row count, row addressing, and the two operations.
//!
//! A table owns one [`Pager`] and the logical row count, the single source of
//! truth for where the next row goes and where iteration stops. Rows are
//! packed [`ROWS_PER_PAGE`] to a page; a [`Cursor`] is an ephemeral position
//! in the row sequence.

use crate::pager::{
    apply_write, apply_writes, file_byte, lemma_apply_write_bytes, lemma_apply_writes_len,
    lemma_apply_writes_snoc, writes_extent, writes_nonneg, PageWrite, Pager, PAGE_SIZE,
    TABLE_MAX_PAGES,
};
use crate::row::{spec_deserialize, spec_serialize, fields_fit, Row, RowView, ROW_SIZE};
use crate::tokenizer::{Statement, StatementType};
use vstd::prelude::*;

verus! {

pub const ROWS_PER_PAGE: usize = PAGE_SIZE / ROW_SIZE;

pub const TABLE_MAX_ROWS: usize = ROWS_PER_PAGE * TABLE_MAX_PAGES;

/// The outcome of executing a statement.
#[derive(PartialEq, Eq, Structural)]
pub enum ExecuteResult {
    Success,
    TableFull,
}

/// The page that holds a row.
pub open spec fn row_page(r: int) -> int {
    r / (ROWS_PER_PAGE as int)
}

/// The byte offset of a row inside its page.
pub open spec fn row_offset(r: int) -> int {
    (r % (ROWS_PER_PAGE as int)) * (ROW_SIZE as int)
}

/// The position of a row in the backing file.
pub open spec fn row_addr(r: int) -> int {
    row_page(r) * (PAGE_SIZE as int) + row_offset(r)
}

/// The bytes a file yields for a row, zero-filled past the file's end.
pub open spec fn file_row_bytes(f: Seq<u8>, r: int) -> Seq<u8> {
    Seq::new(ROW_SIZE as nat, |j: int| file_byte(f, row_addr(r) + j))
}

/// A row slot lies inside a valid page: its page index is in range and the
/// slot fits inside the page.
pub proof fn lemma_row_addressing(r: int)
    requires
        0 <= r < TABLE_MAX_ROWS,
    ensures
        0 <= row_page(r) < TABLE_MAX_PAGES,
        0 <= row_offset(r),
        row_offset(r) + ROW_SIZE <= ROWS_PER_PAGE * ROW_SIZE,
        ROWS_PER_PAGE * ROW_SIZE <= PAGE_SIZE,
{
    assert(0 <= r / 14 < 100 && 0 <= r % 14 < 14) by (nonlinear_arith)
        requires
            0 <= r < 1400,
    ;
}

/// Two different rows on the same page occupy disjoint byte ranges.
pub proof fn lemma_distinct_rows_disjoint(r1: int, r2: int)
    requires
        0 <= r1 < TABLE_MAX_ROWS,
        0 <= r2 < TABLE_MAX_ROWS,
        r1 != r2,
        row_page(r1) == row_page(r2),
    ensures
        row_offset(r1) + ROW_SIZE <= row_offset(r2) || row_offset(r2) + ROW_SIZE <= row_offset(r1),
{
    assert(r1 % 14 != r2 % 14) by (nonlinear_arith)
        requires
            0 <= r1 && 0 <= r2 && r1 != r2 && r1 / 14 == r2 / 14,
    ;
    lemma_row_addressing(r1);
    lemma_row_addressing(r2);
}

/// The storage of one schema instance: a pager and the logical row count.
pub struct Table {
    pub pager: Pager,
    pub num_rows: usize,
}

impl Table {
    /// The pager is well formed and the row count within capacity.
    pub open spec fn wf(self) -> bool {
        &&& self.pager.wf()
        &&& self.num_rows <= TABLE_MAX_ROWS
    }

    /// The bytes a row currently shows, through the page cache.
    pub open spec fn row_bytes(self, r: int) -> Seq<u8>
        recommends
            0 <= r < TABLE_MAX_ROWS,
    {
        self.pager.page_view(row_page(r)).subrange(row_offset(r), row_offset(r) + ROW_SIZE)
    }

    /// Open a table on the byte contents of the backing file. The row count
    /// is the file length in whole rows; a trailing partial row is ignored.
    /// Note that the unused bytes at the end of each full page count toward
    /// that division, so a file of fourteen or more full pages derives a few
    /// rows more than were written into it — they read as zero-filled slots.
    pub fn db_open(contents: Vec<u8>) -> (t: Table)
        requires
            contents@.len() as int / (ROW_SIZE as int) <= TABLE_MAX_ROWS,
        ensures
            t.wf(),
            t.num_rows == contents@.len() as int / (ROW_SIZE as int),
            t.pager.disk@ == contents@,
            forall|p: int| !t.pager.is_resident(p),
            forall|r: int|
                0 <= r < TABLE_MAX_ROWS ==> #[trigger] t.row_bytes(r) == file_row_bytes(
                    contents@,
                    r,
                ),
    {
        let num_rows = contents.len() / ROW_SIZE;
        let pager = Pager::pager_open(contents);
        let t = Table { pager, num_rows };
        assert forall|r: int|
            0 <= r < TABLE_MAX_ROWS implies #[trigger] t.row_bytes(r) == file_row_bytes(
            t.pager.disk@,
            r,
        ) by {
            lemma_row_addressing(r);
            assert(t.row_bytes(r) =~= file_row_bytes(t.pager.disk@, r));
        }
        t
    }
}

/// How many bytes of a page closing the table writes back: a whole page for
/// a resident page full of committed rows, the committed prefix for a
/// resident, partly filled last page, nothing for any other page.
pub open spec fn flush_size(t: Table, p: int) -> int {
    let full_pages = t.num_rows as int / (ROWS_PER_PAGE as int);
    let extra_rows = t.num_rows as int % (ROWS_PER_PAGE as int);
    if !t.pager.is_resident(p) {
        0
    } else if p < full_pages {
        PAGE_SIZE as int
    } else if p == full_pages && extra_rows > 0 {
        extra_rows * ROW_SIZE
    } else {
        0
    }
}

/// The writes closing the table produces for pages before `p`, in page
/// order.
pub open spec fn close_writes_up_to(t: Table, p: int) -> Seq<(int, Seq<u8>)>
    decreases p,
{
    if p <= 0 {
        Seq::empty()
    } else {
        let prev = close_writes_up_to(t, p - 1);
        if flush_size(t, p - 1) > 0 {
            prev.push(((p - 1) * PAGE_SIZE, t.pager.page_at(p - 1).take(flush_size(t, p - 1))))
        } else {
            prev
        }
    }
}

/// The writes closing the table produces, in page order.
pub open spec fn close_writes(t: Table) -> Seq<(int, Seq<u8>)> {
    close_writes_up_to(t, TABLE_MAX_PAGES as int)
}

/// The length of the file a table of `n` rows writes when it is closed over
/// an empty file: its full pages, then the committed prefix of the last one.
pub open spec fn closed_file_len(n: int) -> int {
    (n / (ROWS_PER_PAGE as int)) * PAGE_SIZE + (n % (ROWS_PER_PAGE as int)) * ROW_SIZE
}

impl Table {
    /// Flush every resident page that holds committed rows — whole pages
    /// first, then the partly filled last page if any — and empty the cache.
    /// The returned writes are what must reach the backing file.
    pub fn db_close(&mut self) -> (writes: Vec<PageWrite>)
        requires
            old(self).wf(),
        ensures
            final(self).wf(),
            final(self).num_rows == old(self).num_rows,
            final(self).pager.disk@ == old(self).pager.disk@,
            forall|p: int| !final(self).pager.is_resident(p),
            crate::pager::writes_view(writes@) == close_writes(*old(self)),
            ({
                let f = apply_writes(old(self).pager.disk@, close_writes(*old(self)));
                &&& f.len() >= old(self).pager.disk@.len()
                &&& forall|r: int|
                    0 <= r < old(self).num_rows ==> #[trigger] file_row_bytes(f, r) == old(
                        self,
                    ).row_bytes(r)
            }),
    {
        proof {
            lemma_close_preserves_rows(*old(self));
        }
        proof {
            lemma_layout_consts();
        }
        let num_full_pages = self.num_rows / ROWS_PER_PAGE;
        let mut writes: Vec<PageWrite> = Vec::new();
        assert(num_full_pages <= TABLE_MAX_PAGES) by (nonlinear_arith)
            requires
                num_full_pages == self.num_rows as int / 14 && self.num_rows <= 1400,
        ;
        let mut i: usize = 0;
        while i < num_full_pages
            invariant
                i <= num_full_pages,
                num_full_pages == old(self).num_rows as int / (ROWS_PER_PAGE as int),
                num_full_pages <= TABLE_MAX_PAGES,
                self.num_rows == old(self).num_rows,
                self.pager.disk@ == old(self).pager.disk@,
                self.wf(),
                old(self).wf(),
                forall|p: int|
                    i <= p < TABLE_MAX_PAGES ==> self.pager.pages@[p] == #[trigger] old(
                        self,
                    ).pager.pages@[p],
                forall|p: int| 0 <= p < i ==> (#[trigger] self.pager.pages@[p]) is None,
                crate::pager::writes_view(writes@) == close_writes_up_to(*old(self), i as int),
            decreases num_full_pages - i,
        {
            if self.pager.pages[i].is_some() {
                let w = self.pager.flush(i, PAGE_SIZE);
                proof {
                    assert(crate::pager::writes_view(writes@.push(w)) =~= crate::pager::writes_view(
                        writes@,
                    ).push((w.offset as int, w.data@)));
                    assert(flush_size(*old(self), i as int) == PAGE_SIZE);
                    assert(w.data@ == old(self).pager.page_at(i as int).take(
                        flush_size(*old(self), i as int),
                    ));
                }
                writes.push(w);
                self.pager.pages[i] = None;
            } else {
                assert(flush_size(*old(self), i as int) == 0);
            }
            i = i + 1;
        }
        let num_additional_rows = self.num_rows % ROWS_PER_PAGE;
        let ghost after_full = i as int;
        if num_additional_rows > 0 {
            let page_num = num_full_pages;
            assert(num_full_pages < TABLE_MAX_PAGES) by (nonlinear_arith)
                requires
                    num_full_pages == self.num_rows as int / 14 && self.num_rows <= 1400
                        && num_additional_rows == self.num_rows as int % 14
                        && num_additional_rows > 0,
            ;
            if self.pager.pages[page_num].is_some() {
                let w = self.pager.flush(page_num, num_additional_rows * ROW_SIZE);
                proof {
                    assert(crate::pager::writes_view(writes@.push(w)) =~= crate::pager::writes_view(
                        writes@,
                    ).push((w.offset as int, w.data@)));
                    assert(flush_size(*old(self), page_num as int) == num_additional_rows
                        * ROW_SIZE);
                    assert(w.data@ == old(self).pager.page_at(page_num as int).take(
                        flush_size(*old(self), page_num as int),
                    ));
                }
                writes.push(w);
                self.pager.pages[page_num] = None;
            } else {
                assert(flush_size(*old(self), page_num as int) == 0);
            }
            proof {
                assert(crate::pager::writes_view(writes@) == close_writes_up_to(
                    *old(self),
                    after_full + 1,
                ));
                lemma_close_writes_stable(*old(self), after_full + 1, TABLE_MAX_PAGES as int);
            }
        } else {
            proof {
                lemma_close_writes_stable(*old(self), after_full, TABLE_MAX_PAGES as int);
            }
        }
        let mut j: usize = 0;
        while j < TABLE_MAX_PAGES
            invariant
                j <= TABLE_MAX_PAGES,
                self.num_rows == old(self).num_rows,
                self.pager.disk@ == old(self).pager.disk@,
                self.wf(),
                forall|p: int| 0 <= p < j ==> (#[trigger] self.pager.pages@[p]) is None,
            decreases TABLE_MAX_PAGES - j,
        {
            if self.pager.pages[j].is_some() {
                self.pager.pages[j] = None;
            }
            j = j + 1;
        }
        writes
    }
}

/// Past the last page that holds committed rows, closing writes nothing
/// more: the write list no longer grows.
proof fn lemma_close_writes_stable(t: Table, a: int, b: int)
    requires
        t.wf(),
        a <= b,
        t.num_rows as int / (ROWS_PER_PAGE as int) < a || (t.num_rows as int / (ROWS_PER_PAGE
            as int) == a && t.num_rows as int % (ROWS_PER_PAGE as int) == 0),
    ensures
        close_writes_up_to(t, b) == close_writes_up_to(t, a),
    decreases b - a,
{
    if a < b {
        lemma_close_writes_stable(t, a, b - 1);
        assert(flush_size(t, b - 1) == 0);
    }
}

/// An ephemeral position in a table's row sequence.
pub struct Cursor {
    pub row_num: usize,
    pub end_of_table: bool,
}

impl Cursor {
    /// A cursor at the first row; it already stands at the end when the
    /// table is empty.
    pub fn from_start(table: &Table) -> (c: Cursor)
        ensures
            c.row_num == 0,
            c.end_of_table == (table.num_rows == 0),
    {
        Cursor { row_num: 0, end_of_table: table.num_rows == 0 }
    }

    /// A cursor one past the last row: the insertion point.
    pub fn from_end(table: &Table) -> (c: Cursor)
        ensures
            c.row_num == table.num_rows,
            c.end_of_table,
    {
        Cursor { row_num: table.num_rows, end_of_table: true }
    }

    /// The bytes of the row under the cursor, read through the table's page
    /// cache (the page becomes resident).
    pub fn get_value(&self, table: &mut Table) -> (r: Vec<u8>)
        requires
            old(table).wf(),
            self.row_num < TABLE_MAX_ROWS,
        ensures
            final(table).wf(),
            final(table).num_rows == old(table).num_rows,
            final(table).pager.disk@ == old(table).pager.disk@,
            forall|r2: int|
                0 <= r2 < TABLE_MAX_ROWS ==> #[trigger] final(table).row_bytes(r2) == old(
                    table,
                ).row_bytes(r2),
            r@ == old(table).row_bytes(self.row_num as int),
    {
        proof {
            lemma_row_addressing(self.row_num as int);
        }
        let page_num = self.row_num / ROWS_PER_PAGE;
        let offset = (self.row_num % ROWS_PER_PAGE) * ROW_SIZE;
        let r = table.pager.read_at(page_num, offset, ROW_SIZE);
        r
    }

    /// Step to the next row; the end flag rises once the row count is
    /// reached and never falls.
    pub fn advance(&mut self, table: &Table)
        requires
            old(self).row_num < usize::MAX,
        ensures
            final(self).row_num == old(self).row_num + 1,
            final(self).end_of_table == (old(self).end_of_table || old(self).row_num + 1
                >= table.num_rows),
    {
        self.row_num = self.row_num + 1;
        if self.row_num >= table.num_rows {
            self.end_of_table = true;
        }
    }
}

/// What a successful insert does: the new row's slot holds its encoding, the
/// count grows by one, every earlier row keeps its bytes, and the new row's
/// page is resident, as is every page that already was.
pub open spec fn inserted(pre: Table, post: Table, v: RowView) -> bool {
    &&& post.wf()
    &&& post.num_rows == pre.num_rows + 1
    &&& post.pager.disk@ == pre.pager.disk@
    &&& post.row_bytes(pre.num_rows as int) == spec_serialize(v)
    &&& forall|r: int|
        0 <= r < pre.num_rows ==> #[trigger] post.row_bytes(r) == pre.row_bytes(r)
    &&& forall|p: int| pre.pager.is_resident(p) ==> #[trigger] post.pager.is_resident(p)
    &&& post.pager.is_resident(row_page(pre.num_rows as int))
}

/// Insert the statement's row at the end of the table, unless the table is
/// already at capacity, in which case nothing changes.
pub fn execute_insert(table: &mut Table, statement: &Statement) -> (r: ExecuteResult)
    requires
        old(table).wf(),
        fields_fit(statement.row_to_insert@),
    ensures
        if old(table).num_rows >= TABLE_MAX_ROWS {
            r == ExecuteResult::TableFull && *final(table) == *old(table)
        } else {
            r == ExecuteResult::Success && inserted(
                *old(table),
                *final(table),
                statement.row_to_insert@,
            )
        },
{
    if table.num_rows >= TABLE_MAX_ROWS {
        return ExecuteResult::TableFull;
    }
    let serialized_data = statement.row_to_insert.serialize_row();
    let cursor = Cursor::from_end(table);
    proof {
        lemma_row_addressing(cursor.row_num as int);
    }
    let page_num = cursor.row_num / ROWS_PER_PAGE;
    let row_offset_e = (cursor.row_num % ROWS_PER_PAGE) * ROW_SIZE;
    table.pager.get_page_mut(page_num);
    let ghost mid = *table;
    table.pager.write_at(page_num, row_offset_e, &serialized_data);
    table.num_rows = table.num_rows + 1;
    proof {
        let new_row = old(table).num_rows as int;
        assert(table.row_bytes(new_row) =~= serialized_data@);
        assert forall|r: int|
            0 <= r < old(table).num_rows implies #[trigger] table.row_bytes(r) == old(
            table,
        ).row_bytes(r) by {
            lemma_row_addressing(r);
            if row_page(r) == row_page(new_row) {
                lemma_distinct_rows_disjoint(r, new_row);
                assert(table.row_bytes(r) =~= mid.row_bytes(r));
            } else {
                assert(table.row_bytes(r) == mid.row_bytes(r));
            }
            assert(mid.row_bytes(r) == old(table).row_bytes(r));
        }
    }
    ExecuteResult::Success
}

/// Scan the whole table from the start, decoding each row in order. A row
/// whose bytes no longer decode yields `None` in its place; the scan itself
/// always succeeds and changes no row.
pub fn execute_select(table: &mut Table) -> (res: (ExecuteResult, Vec<Option<Row>>))
    requires
        old(table).wf(),
    ensures
        final(table).wf(),
        final(table).num_rows == old(table).num_rows,
        final(table).pager.disk@ == old(table).pager.disk@,
        forall|r: int|
            0 <= r < TABLE_MAX_ROWS ==> #[trigger] final(table).row_bytes(r) == old(
                table,
            ).row_bytes(r),
        res.0 == ExecuteResult::Success,
        res.1@.len() == old(table).num_rows,
        forall|i: int|
            0 <= i < old(table).num_rows ==> ((#[trigger] res.1@[i]) matches Some(row)
                ==> spec_deserialize(old(table).row_bytes(i)) == Some(row@)),
        forall|i: int|
            0 <= i < old(table).num_rows ==> (#[trigger] res.1@[i]) is None ==> spec_deserialize(
                old(table).row_bytes(i),
            ) is None,
{
    let mut cursor = Cursor::from_start(table);
    let mut rows: Vec<Option<Row>> = Vec::new();
    while !cursor.end_of_table
        invariant
            table.wf(),
            table.num_rows == old(table).num_rows,
            table.pager.disk@ == old(table).pager.disk@,
            forall|r: int|
                0 <= r < TABLE_MAX_ROWS ==> #[trigger] table.row_bytes(r) == old(table).row_bytes(
                    r,
                ),
            cursor.row_num == rows@.len(),
            cursor.row_num <= table.num_rows,
            cursor.end_of_table == (cursor.row_num >= table.num_rows),
            forall|i: int|
                0 <= i < rows@.len() ==> ((#[trigger] rows@[i]) matches Some(row)
                    ==> spec_deserialize(old(table).row_bytes(i)) == Some(row@)),
            forall|i: int|
                0 <= i < rows@.len() ==> (#[trigger] rows@[i]) is None ==> spec_deserialize(
                    old(table).row_bytes(i),
                ) is None,
        decreases table.num_rows - cursor.row_num,
    {
        let row_data = cursor.get_value(table);
        let decoded = Row::deserialize_row(row_data.as_slice());
        rows.push(decoded);
        cursor.advance(table);
    }
    (ExecuteResult::Success, rows)
}

/// Execute one prepared statement against the table: an insert appends its
/// row (or reports the table full); a select returns the decoded rows.
pub fn execute_statement(table: &mut Table, statement: &Statement) -> (res: (
    ExecuteResult,
    Vec<Option<Row>>,
))
    requires
        old(table).wf(),
        statement.stype is Insert ==> fields_fit(statement.row_to_insert@),
    ensures
        final(table).wf(),
        match statement.stype {
            StatementType::Insert => {
                &&& res.1@.len() == 0
                &&& if old(table).num_rows >= TABLE_MAX_ROWS {
                    res.0 == ExecuteResult::TableFull && *final(table) == *old(table)
                } else {
                    res.0 == ExecuteResult::Success && inserted(
                        *old(table),
                        *final(table),
                        statement.row_to_insert@,
                    )
                }
            },
            StatementType::Select => {
                &&& final(table).num_rows == old(table).num_rows
                &&& final(table).pager.disk@ == old(table).pager.disk@
                &&& forall|r: int|
                    0 <= r < TABLE_MAX_ROWS ==> #[trigger] final(table).row_bytes(r) == old(
                        table,
                    ).row_bytes(r)
                &&& res.0 == ExecuteResult::Success
                &&& res.1@.len() == old(table).num_rows
                &&& forall|i: int|
                    0 <= i < old(table).num_rows ==> ((#[trigger] res.1@[i]) matches Some(row)
                        ==> spec_deserialize(old(table).row_bytes(i)) == Some(row@))
                &&& forall|i: int|
                    0 <= i < old(table).num_rows ==> (#[trigger] res.1@[i]) is None
                        ==> spec_deserialize(old(table).row_bytes(i)) is None
            },
        },
{
    match statement.stype {
        StatementType::Insert => (execute_insert(table, statement), Vec::new()),
        StatementType::Select => execute_select(table),
    }
}


/// The layout constants, spelled out.
proof fn lemma_layout_consts()
    ensures
        ROW_SIZE == 291,
        ROWS_PER_PAGE == 14,
        TABLE_MAX_ROWS == 1400,
        PAGE_SIZE == 4096,
        TABLE_MAX_PAGES == 100,
{
    vstd::arithmetic::div_mod::lemma_fundamental_div_mod_converse(4096, 291, 14, 22);
}

/// Closing never writes more than one page per flush, and never a negative
/// amount.
proof fn lemma_flush_size_bounds(t: Table, p: int)
    requires
        t.wf(),
    ensures
        0 <= flush_size(t, p) <= PAGE_SIZE,
{
    lemma_layout_consts();
    assert(0 <= t.num_rows as int % 14 < 14) by (nonlinear_arith)
        requires
            t.num_rows >= 0,
    ;
}

/// All close writes sit at non-negative offsets.
proof fn lemma_close_writes_nonneg(t: Table, p: int)
    requires
        0 <= p,
    ensures
        writes_nonneg(close_writes_up_to(t, p)),
    decreases p,
{
    if p > 0 {
        lemma_close_writes_nonneg(t, p - 1);
        let prev = close_writes_up_to(t, p - 1);
        if flush_size(t, p - 1) > 0 {
            let w = ((p - 1) * (PAGE_SIZE as int), t.pager.page_at(p - 1).take(flush_size(t, p - 1)));
            assert forall|i: int| 0 <= i < prev.push(w).len() implies (#[trigger] prev.push(w)[i]).0
                >= 0 by {
                if i < prev.len() {
                    assert(prev.push(w)[i] == prev[i]);
                }
            }
        }
    }
}

/// The file the close writes for pages before `p` produce: inside a flushed
/// prefix it shows the cached page, everywhere else the old file's byte, and
/// it never shrinks.
proof fn lemma_close_apply_prefix(t: Table, p: int)
    requires
        t.wf(),
        0 <= p <= TABLE_MAX_PAGES,
    ensures
        ({
            let f = apply_writes(t.pager.disk@, close_writes_up_to(t, p));
            &&& f.len() >= t.pager.disk@.len()
            &&& forall|a: int|
                0 <= a ==> #[trigger] file_byte(f, a) == (if a / (PAGE_SIZE as int) < p && a % (
                PAGE_SIZE as int) < flush_size(t, a / (PAGE_SIZE as int)) {
                    t.pager.page_at(a / (PAGE_SIZE as int))[a % (PAGE_SIZE as int)]
                } else {
                    file_byte(t.pager.disk@, a)
                })
        }),
    decreases p,
{
    lemma_layout_consts();
    if p == 0 {
        assert(close_writes_up_to(t, 0) == Seq::<(int, Seq<u8>)>::empty());
    } else {
        lemma_close_apply_prefix(t, p - 1);
        lemma_flush_size_bounds(t, p - 1);
        let prev = close_writes_up_to(t, p - 1);
        let fprev = apply_writes(t.pager.disk@, prev);
        let fs = flush_size(t, p - 1);
        let f = apply_writes(t.pager.disk@, close_writes_up_to(t, p));
        if fs > 0 {
            let w = ((p - 1) * (PAGE_SIZE as int), t.pager.page_at(p - 1).take(fs));
            lemma_apply_writes_snoc(t.pager.disk@, prev, w);
            lemma_apply_write_bytes(fprev, w.0, w.1);
            assert(f == apply_write(fprev, w.0, w.1));
            assert forall|a: int|
                0 <= a implies #[trigger] file_byte(f, a) == (if a / (PAGE_SIZE as int) < p && a % (
            PAGE_SIZE as int) < flush_size(t, a / (PAGE_SIZE as int)) {
                t.pager.page_at(a / (PAGE_SIZE as int))[a % (PAGE_SIZE as int)]
            } else {
                file_byte(t.pager.disk@, a)
            }) by {
                let q = a / 4096;
                let r = a % 4096;
                assert(a == 4096 * q + r && 0 <= r < 4096 && q >= 0) by (nonlinear_arith)
                    requires
                        a >= 0 && q == a / 4096 && r == a % 4096,
                ;
                if w.0 <= a < w.0 + fs {
                    assert(q == p - 1 && r == a - (p - 1) * 4096) by (nonlinear_arith)
                        requires
                            a == 4096 * q + r && 0 <= r < 4096 && (p - 1) * 4096 <= a && a < (p - 1)
                                * 4096 + fs && 0 < fs <= 4096,
                    ;
                    assert(r == a - w.0);
                    assert(file_byte(f, a) == w.1[a - w.0]);
                    assert(w.1[r] == t.pager.page_at(p - 1)[r]);
                } else {
                    assert(file_byte(f, a) == file_byte(fprev, a));
                    if q == p - 1 {
                        assert(a >= w.0 + fs);
                        assert(r >= fs);
                    }
                }
            }
        } else {
            assert(close_writes_up_to(t, p) == prev);
            assert forall|a: int|
                0 <= a implies #[trigger] file_byte(f, a) == (if a / (PAGE_SIZE as int) < p && a % (
            PAGE_SIZE as int) < flush_size(t, a / (PAGE_SIZE as int)) {
                t.pager.page_at(a / (PAGE_SIZE as int))[a % (PAGE_SIZE as int)]
            } else {
                file_byte(t.pager.disk@, a)
            }) by {
                let q = a / 4096;
                let r = a % 4096;
                assert(a == 4096 * q + r && 0 <= r < 4096 && q >= 0) by (nonlinear_arith)
                    requires
                        a >= 0 && q == a / 4096 && r == a % 4096,
                ;
            }
        }
    }
}

/// Closing preserves every committed row: the file its writes produce shows
/// each committed row's current bytes, and the file never shrinks.
pub proof fn lemma_close_preserves_rows(t: Table)
    requires
        t.wf(),
    ensures
        ({
            let f = apply_writes(t.pager.disk@, close_writes(t));
            &&& f.len() >= t.pager.disk@.len()
            &&& forall|r: int|
                0 <= r < t.num_rows ==> #[trigger] file_row_bytes(f, r) == t.row_bytes(r)
        }),
{
    lemma_layout_consts();
    lemma_close_apply_prefix(t, TABLE_MAX_PAGES as int);
    let f = apply_writes(t.pager.disk@, close_writes(t));
    let n = t.num_rows as int;
    assert forall|r: int| 0 <= r < n implies #[trigger] file_row_bytes(f, r) == t.row_bytes(r) by {
        lemma_row_addressing(r);
        let p = row_page(r);
        let off = row_offset(r);
        let full = n / 14;
        let extra = n % 14;
        assert(n == 14 * full + extra && 0 <= extra < 14) by (nonlinear_arith)
            requires
                n >= 0 && full == n / 14 && extra == n % 14,
        ;
        assert(r == 14 * p + (r % 14) && 0 <= r % 14 < 14) by (nonlinear_arith)
            requires
                r >= 0 && p == r / 14,
        ;
        assert(p < full || (p == full && r % 14 < extra)) by (nonlinear_arith)
            requires
                0 <= r < n && p == r / 14 && full == n / 14 && extra == n % 14,
        ;
        assert forall|a: int|
            row_addr(r) <= a < row_addr(r) + ROW_SIZE implies #[trigger] file_byte(f, a)
            == t.pager.page_view(p)[a - p * (PAGE_SIZE as int)] by {
            let j = a - row_addr(r);
            assert(a == p * 4096 + (off + j) && 0 <= off + j < 4096);
            assert(a / 4096 == p && a % 4096 == off + j) by (nonlinear_arith)
                requires
                    a == p * 4096 + (off + j) && 0 <= off + j < 4096 && p >= 0,
            ;
            if t.pager.is_resident(p) {
                if p < full {
                    assert(flush_size(t, p) == PAGE_SIZE);
                } else {
                    assert(flush_size(t, p) == extra * 291);
                    assert(off + j < extra * 291);
                }
                assert(file_byte(f, a) == t.pager.page_at(p)[off + j]);
            } else {
                assert(flush_size(t, p) == 0);
                assert(file_byte(f, a) == file_byte(t.pager.disk@, a));
                assert(t.pager.page_view(p)[off + j] == file_byte(t.pager.disk@, p * 4096 + (off
                    + j)));
            }
        }
        assert(file_row_bytes(f, r) =~= t.row_bytes(r));
    }
}

/// Appending one write stretches the extent to its end, if further.
proof fn lemma_writes_extent_snoc(ws: Seq<(int, Seq<u8>)>, w: (int, Seq<u8>))
    ensures
        writes_extent(ws.push(w)) == if writes_extent(ws) >= w.0 + w.1.len() {
            writes_extent(ws)
        } else {
            w.0 + w.1.len() as int
        },
    decreases ws.len(),
{
    if ws.len() == 0 {
        assert(ws.push(w)[0] == w);
        assert(ws.push(w).drop_first() =~= Seq::<(int, Seq<u8>)>::empty());
        assert(writes_extent(ws.push(w).drop_first()) == 0);
        assert(writes_extent(ws) == 0);
    } else {
        assert(ws.push(w)[0] == ws[0]);
        assert(ws.push(w).drop_first() =~= ws.drop_first().push(w));
        lemma_writes_extent_snoc(ws.drop_first(), w);
    }
}

/// When every page with committed rows is resident, the close writes reach
/// exactly the end of the committed data.
proof fn lemma_close_extent(t: Table, p: int)
    requires
        t.wf(),
        0 <= p <= TABLE_MAX_PAGES,
        forall|q: int|
            0 <= q < TABLE_MAX_PAGES && q * (ROWS_PER_PAGE as int) < t.num_rows
                ==> t.pager.is_resident(q),
    ensures
        writes_extent(close_writes_up_to(t, p)) == if p <= t.num_rows as int / (ROWS_PER_PAGE
            as int) {
            p * (PAGE_SIZE as int)
        } else {
            closed_file_len(t.num_rows as int)
        },
    decreases p,
{
    lemma_layout_consts();
    let n = t.num_rows as int;
    let full = n / 14;
    let extra = n % 14;
    assert(n == 14 * full + extra && 0 <= extra < 14 && full >= 0) by (nonlinear_arith)
        requires
            n >= 0 && full == n / 14 && extra == n % 14,
    ;
    if p > 0 {
        lemma_close_extent(t, p - 1);
        lemma_flush_size_bounds(t, p - 1);
        let prev = close_writes_up_to(t, p - 1);
        let fs = flush_size(t, p - 1);
        if p - 1 < full {
            assert((p - 1) * 14 < n) by (nonlinear_arith)
                requires
                    p - 1 < full && full == n / 14 && n >= 0 && p >= 1,
            ;
            assert(t.pager.is_resident(p - 1));
            assert(fs == PAGE_SIZE);
            lemma_writes_extent_snoc(
                prev,
                ((p - 1) * (PAGE_SIZE as int), t.pager.page_at(p - 1).take(fs)),
            );
            assert(t.pager.page_at(p - 1).take(fs).len() == fs);
        } else if p - 1 == full && extra > 0 {
            assert(full * 14 < n);
            assert(t.pager.is_resident(p - 1));
            assert(fs == extra * 291);
            lemma_writes_extent_snoc(
                prev,
                ((p - 1) * (PAGE_SIZE as int), t.pager.page_at(p - 1).take(fs)),
            );
            assert(t.pager.page_at(p - 1).take(fs).len() == fs);
            assert(writes_extent(close_writes_up_to(t, p)) == full * 4096 + extra * 291);
        } else {
            assert(fs == 0);
            assert(close_writes_up_to(t, p) == prev);
        }
    }
}

/// Persistence round trip: close a table that was built over an empty
/// backing file — every page holding committed rows still resident — and the
/// written file reopens to the same row count, with every row showing the
/// same bytes. The derived count stays exact while the slack the full pages
/// leave (the few bytes at each page's end that hold no row) adds up to less
/// than one row.
pub proof fn lemma_persistence_round_trip(t: Table)
    requires
        t.wf(),
        t.pager.disk@.len() == 0,
        forall|q: int|
            0 <= q < TABLE_MAX_PAGES && q * (ROWS_PER_PAGE as int) < t.num_rows
                ==> t.pager.is_resident(q),
        (t.num_rows as int / (ROWS_PER_PAGE as int)) * (PAGE_SIZE - ROWS_PER_PAGE * ROW_SIZE)
            < ROW_SIZE,
    ensures
        ({
            let f = apply_writes(t.pager.disk@, close_writes(t));
            &&& f.len() as int / (ROW_SIZE as int) == t.num_rows
            &&& f.len() as int / (ROW_SIZE as int) <= TABLE_MAX_ROWS
            &&& forall|r: int|
                0 <= r < t.num_rows ==> #[trigger] file_row_bytes(f, r) == t.row_bytes(r)
        }),
{
    lemma_layout_consts();
    lemma_close_preserves_rows(t);
    lemma_close_writes_nonneg(t, TABLE_MAX_PAGES as int);
    lemma_close_extent(t, TABLE_MAX_PAGES as int);
    lemma_apply_writes_len(t.pager.disk@, close_writes(t));
    let f = apply_writes(t.pager.disk@, close_writes(t));
    let n = t.num_rows as int;
    let full = n / 14;
    let extra = n % 14;
    assert(n == 14 * full + extra && 0 <= extra < 14 && full >= 0) by (nonlinear_arith)
        requires
            n >= 0 && full == n / 14 && extra == n % 14,
    ;
    if TABLE_MAX_PAGES <= full {
        assert(full <= 100) by (nonlinear_arith)
            requires
                full == n / 14 && n <= 1400,
        ;
        assert(full == 100 && extra == 0);
        assert(closed_file_len(n) == 100 * 4096);
        assert(f.len() == closed_file_len(n));
    } else {
        assert(f.len() == closed_file_len(n));
    }
    assert(closed_file_len(n) == full * 4096 + extra * 291);
    assert(closed_file_len(n) == n * 291 + full * 22) by (nonlinear_arith)
        requires
            closed_file_len(n) == full * 4096 + extra * 291 && n == 14 * full + extra,
    ;
    assert(0 <= full * 22 < 291);
    vstd::arithmetic::div_mod::lemma_fundamental_div_mod_converse(
        closed_file_len(n),
        291,
        n,
        full * 22,
    );
}

} // verus!
