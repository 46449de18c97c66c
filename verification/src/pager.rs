//! The pager: a cache of fixed-size pages over the byte contents of the
//! backing file.
//!
//! The pager is given the file's bytes when it is opened and never touches
//! the file again. A page becomes resident on first access — read from the
//! file image if the file reaches that far, zero-filled beyond its end — and
//! stays resident until the table evicts it on close. Saving a page produces
//! a [`PageWrite`], the seek-and-write the caller must perform against the
//! real file; [`apply_writes`] is the meaning of such a write list.

use vstd::prelude::*;

verus! {

pub const PAGE_SIZE: usize = 4096;

pub const TABLE_MAX_PAGES: usize = 100;

/// One pending write against the backing file: `data` replaces the bytes at
/// `offset`, extending the file if it ends before `offset + data.len()` and
/// zero-filling any gap in between.
pub struct PageWrite {
    pub offset: usize,
    pub data: Vec<u8>,
}

/// The byte a file yields at a position: its own byte inside the file, zero
/// beyond its end.
pub open spec fn file_byte(f: Seq<u8>, a: int) -> u8 {
    if 0 <= a < f.len() {
        f[a]
    } else {
        0
    }
}

/// A file after one write of `data` at `off`: bytes in the written range come
/// from `data`, the rest keep their old value, with a zero-filled gap if the
/// write starts past the old end.
pub open spec fn apply_write(f: Seq<u8>, off: int, data: Seq<u8>) -> Seq<u8>
    recommends
        off >= 0,
{
    let end = off + data.len();
    let newlen = if f.len() >= end {
        f.len() as int
    } else {
        end
    };
    Seq::new(
        newlen as nat,
        |i: int|
            if off <= i < end {
                data[i - off]
            } else {
                file_byte(f, i)
            },
    )
}

/// The mathematical view of a write list: offset and bytes of each write.
pub open spec fn writes_view(ws: Seq<PageWrite>) -> Seq<(int, Seq<u8>)> {
    ws.map_values(|w: PageWrite| (w.offset as int, w.data@))
}

/// A file after a list of writes, applied first to last.
pub open spec fn apply_writes(f: Seq<u8>, ws: Seq<(int, Seq<u8>)>) -> Seq<u8>
    decreases ws.len(),
{
    if ws.len() == 0 {
        f
    } else {
        apply_writes(apply_write(f, ws[0].0, ws[0].1), ws.drop_first())
    }
}

/// The furthest position any write in the list reaches.
pub open spec fn writes_extent(ws: Seq<(int, Seq<u8>)>) -> int
    decreases ws.len(),
{
    if ws.len() == 0 {
        0
    } else {
        let rest = writes_extent(ws.drop_first());
        let end = ws[0].0 + ws[0].1.len();
        if end >= rest {
            end
        } else {
            rest
        }
    }
}

/// Every write in the list sits at a non-negative offset.
pub open spec fn writes_nonneg(ws: Seq<(int, Seq<u8>)>) -> bool {
    forall|i: int| 0 <= i < ws.len() ==> (#[trigger] ws[i]).0 >= 0
}

/// One write changes exactly its own range: every other position keeps the
/// byte the file yielded before, and the file never shrinks.
pub proof fn lemma_apply_write_bytes(f: Seq<u8>, off: int, data: Seq<u8>)
    requires
        off >= 0,
    ensures
        apply_write(f, off, data).len() >= f.len(),
        apply_write(f, off, data).len() >= off + data.len(),
        apply_write(f, off, data).len() == if f.len() >= off + data.len() {
            f.len() as int
        } else {
            off + data.len()
        },
        forall|a: int|
            #![trigger file_byte(apply_write(f, off, data), a)]
            file_byte(apply_write(f, off, data), a) == if off <= a < off + data.len() {
                data[a - off]
            } else {
                file_byte(f, a)
            },
{
}

/// Appending one write to a list applies it after the rest.
pub proof fn lemma_apply_writes_snoc(f: Seq<u8>, ws: Seq<(int, Seq<u8>)>, w: (int, Seq<u8>))
    ensures
        apply_writes(f, ws.push(w)) == apply_write(apply_writes(f, ws), w.0, w.1),
    decreases ws.len(),
{
    if ws.len() == 0 {
        assert(ws.push(w)[0] == w);
        assert(ws.push(w).drop_first() =~= Seq::<(int, Seq<u8>)>::empty());
        let y = apply_write(f, w.0, w.1);
        assert(apply_writes(y, ws.push(w).drop_first()) == y);
        assert(apply_writes(f, ws.push(w)) == apply_writes(y, ws.push(w).drop_first()));
        assert(apply_writes(f, ws) == f);
    } else {
        let x = apply_write(f, ws[0].0, ws[0].1);
        assert(ws.push(w)[0] == ws[0]);
        assert(ws.push(w).drop_first() =~= ws.drop_first().push(w));
        lemma_apply_writes_snoc(x, ws.drop_first(), w);
        assert(apply_writes(f, ws.push(w)) == apply_writes(x, ws.drop_first().push(w)));
        assert(apply_writes(f, ws) == apply_writes(x, ws.drop_first()));
    }
}

/// The length of a file after a list of writes: the old length, or the
/// furthest position written, whichever is larger.
pub proof fn lemma_apply_writes_len(f: Seq<u8>, ws: Seq<(int, Seq<u8>)>)
    requires
        writes_nonneg(ws),
    ensures
        apply_writes(f, ws).len() == if f.len() >= writes_extent(ws) {
            f.len() as int
        } else {
            writes_extent(ws)
        },
    decreases ws.len(),
{
    if ws.len() == 0 {
    } else {
        lemma_apply_write_bytes(f, ws[0].0, ws[0].1);
        assert(writes_nonneg(ws.drop_first()));
        lemma_apply_writes_len(apply_write(f, ws[0].0, ws[0].1), ws.drop_first());
    }
}

/// The page cache over one file image.
pub struct Pager {
    pub disk: Vec<u8>,
    pub pages: Vec<Option<Vec<u8>>>,
}

impl Pager {
    /// The cache has one slot per possible page, and every resident page is
    /// exactly one page long.
    pub open spec fn wf(self) -> bool {
        &&& self.pages@.len() == TABLE_MAX_PAGES
        &&& forall|p: int|
            0 <= p < TABLE_MAX_PAGES && (#[trigger] self.pages@[p]) is Some
                ==> self.pages@[p]->Some_0@.len() == PAGE_SIZE
    }

    pub open spec fn is_resident(self, p: int) -> bool {
        0 <= p < self.pages@.len() && self.pages@[p] is Some
    }

    /// The bytes of a resident page.
    pub open spec fn page_at(self, p: int) -> Seq<u8>
        recommends
            self.is_resident(p),
    {
        self.pages@[p]->Some_0@
    }

    /// The bytes page `p` holds when first read from the file image:
    /// zero-filled where the file ends early.
    pub open spec fn disk_page(self, p: int) -> Seq<u8> {
        Seq::new(PAGE_SIZE as nat, |j: int| file_byte(self.disk@, p * PAGE_SIZE + j))
    }

    /// The bytes page `p` currently shows: the cached page if resident, the
    /// file image otherwise.
    pub open spec fn page_view(self, p: int) -> Seq<u8> {
        if self.is_resident(p) {
            self.page_at(p)
        } else {
            self.disk_page(p)
        }
    }

    /// Open the pager on the byte contents of the backing file, with an
    /// all-empty cache.
    pub fn pager_open(contents: Vec<u8>) -> (p: Pager)
        ensures
            p.wf(),
            p.disk@ == contents@,
            forall|q: int| !p.is_resident(q),
    {
        let mut pages: Vec<Option<Vec<u8>>> = Vec::new();
        let mut i: usize = 0;
        while i < TABLE_MAX_PAGES
            invariant
                i <= TABLE_MAX_PAGES,
                pages@.len() == i,
                forall|q: int| 0 <= q < i ==> (#[trigger] pages@[q]) is None,
            decreases TABLE_MAX_PAGES - i,
        {
            pages.push(None);
            i = i + 1;
        }
        Pager { disk: contents, pages }
    }

    /// Make a page resident. On first access the page is read from the file
    /// image; what it shows does not change.
    pub fn get_page_mut(&mut self, page_num: usize)
        requires
            old(self).wf(),
            page_num < TABLE_MAX_PAGES,
        ensures
            final(self).wf(),
            final(self).disk@ == old(self).disk@,
            final(self).is_resident(page_num as int),
            forall|p: int|
                #![trigger final(self).page_view(p)]
                final(self).page_view(p) == old(self).page_view(p),
            forall|p: int|
                #![trigger final(self).is_resident(p)]
                final(self).is_resident(p) <==> (old(self).is_resident(p) || p == page_num),
            final(self).page_at(page_num as int) == old(self).page_view(page_num as int),
    {
        if self.pages[page_num].is_none() {
            let ghost base_g: int = page_num * PAGE_SIZE;
            let base: usize = page_num * PAGE_SIZE;
            let mut page: Vec<u8> = Vec::new();
            let mut j: usize = 0;
            while j < PAGE_SIZE
                invariant
                    j <= PAGE_SIZE,
                    page@.len() == j,
                    base == base_g,
                    base_g == page_num * PAGE_SIZE,
                    page_num < TABLE_MAX_PAGES,
                    forall|k: int| 0 <= k < j ==> page@[k] == file_byte(self.disk@, base_g + k),
                decreases PAGE_SIZE - j,
            {
                let idx = base + j;
                let b: u8 = if idx < self.disk.len() {
                    self.disk[idx]
                } else {
                    0
                };
                page.push(b);
                j = j + 1;
            }
            assert(page@ =~= self.disk_page(page_num as int));
            self.pages[page_num] = Some(page);
            assert(self.page_view(page_num as int) =~= old(self).page_view(page_num as int));
            assert forall|p: int|
                #![trigger self.page_view(p)]
                self.page_view(p) == old(self).page_view(p) by {
                assert(self.disk_page(p) =~= old(self).disk_page(p));
                if p != page_num && 0 <= p < TABLE_MAX_PAGES {
                    assert(self.pages@[p] == old(self).pages@[p]);
                }
            }
        }
    }
    /// Read a byte range out of a page, making the page resident first.
    pub fn read_at(&mut self, page_num: usize, offset: usize, len: usize) -> (r: Vec<u8>)
        requires
            old(self).wf(),
            page_num < TABLE_MAX_PAGES,
            offset + len <= PAGE_SIZE,
        ensures
            final(self).wf(),
            final(self).disk@ == old(self).disk@,
            forall|p: int|
                #![trigger final(self).page_view(p)]
                final(self).page_view(p) == old(self).page_view(p),
            forall|p: int|
                #![trigger final(self).is_resident(p)]
                final(self).is_resident(p) <==> (old(self).is_resident(p) || p == page_num),
            r@ == old(self).page_view(page_num as int).subrange(offset as int, offset + len),
    {
        self.get_page_mut(page_num);
        let page: &Vec<u8> = self.pages[page_num].as_ref().unwrap();
        let mut r: Vec<u8> = Vec::new();
        let mut k: usize = 0;
        while k < len
            invariant
                k <= len,
                offset + len <= PAGE_SIZE,
                page@.len() == PAGE_SIZE,
                r@.len() == k,
                forall|i: int| 0 <= i < k ==> r@[i] == page@[offset + i],
            decreases len - k,
        {
            r.push(page[offset + k]);
            k = k + 1;
        }
        assert(r@ =~= self.page_view(page_num as int).subrange(offset as int, offset + len));
        r
    }

    /// Overwrite part of a resident page.
    pub fn write_at(&mut self, page_num: usize, offset: usize, data: &Vec<u8>)
        requires
            old(self).wf(),
            page_num < TABLE_MAX_PAGES,
            old(self).is_resident(page_num as int),
            offset + data@.len() <= PAGE_SIZE,
        ensures
            final(self).wf(),
            final(self).disk@ == old(self).disk@,
            forall|p: int|
                #![trigger final(self).is_resident(p)]
                final(self).is_resident(p) <==> old(self).is_resident(p),
            forall|p: int|
                #![trigger final(self).page_view(p)]
                p != page_num ==> final(self).page_view(p) == old(self).page_view(p),
            final(self).page_view(page_num as int) == old(self).page_view(page_num as int).take(
                offset as int,
            ) + data@ + old(self).page_view(page_num as int).skip(offset + data@.len()),
    {
        let n = data.len();
        let page: &Vec<u8> = self.pages[page_num].as_ref().unwrap();
        let mut newp: Vec<u8> = Vec::new();
        let mut j: usize = 0;
        while j < PAGE_SIZE
            invariant
                j <= PAGE_SIZE,
                n == data@.len(),
                offset + n <= PAGE_SIZE,
                page@.len() == PAGE_SIZE,
                newp@.len() == j,
                forall|i: int|
                    0 <= i < j ==> newp@[i] == if offset <= i < offset + n {
                        data@[i - offset]
                    } else {
                        page@[i]
                    },
            decreases PAGE_SIZE - j,
        {
            let b: u8 = if j >= offset && j < offset + n {
                data[j - offset]
            } else {
                page[j]
            };
            newp.push(b);
            j = j + 1;
        }
        assert(newp@ =~= page@.take(offset as int) + data@ + page@.skip(offset + n));
        self.pages[page_num] = Some(newp);
        assert forall|p: int|
            #![trigger self.page_view(p)]
            p != page_num implies self.page_view(p) == old(self).page_view(p) by {
            assert(self.disk_page(p) =~= old(self).disk_page(p));
            if 0 <= p < TABLE_MAX_PAGES {
                assert(self.pages@[p] == old(self).pages@[p]);
            }
        }
    }

    /// The write that saves the first `size` bytes of a resident page back to
    /// its place in the file.
    pub fn flush(&self, page_num: usize, size: usize) -> (w: PageWrite)
        requires
            self.wf(),
            page_num < TABLE_MAX_PAGES,
            self.is_resident(page_num as int),
            size <= PAGE_SIZE,
        ensures
            w.offset == page_num * PAGE_SIZE,
            w.data@ == self.page_at(page_num as int).take(size as int),
    {
        let page: &Vec<u8> = self.pages[page_num].as_ref().unwrap();
        let mut data: Vec<u8> = Vec::new();
        let mut k: usize = 0;
        while k < size
            invariant
                k <= size,
                size <= PAGE_SIZE,
                page@.len() == PAGE_SIZE,
                data@.len() == k,
                forall|i: int| 0 <= i < k ==> data@[i] == page@[i],
            decreases size - k,
        {
            data.push(page[k]);
            k = k + 1;
        }
        assert(data@ =~= self.page_at(page_num as int).take(size as int));
        PageWrite { offset: page_num * PAGE_SIZE, data }
    }
}

/// Apply a list of writes to a file image, first to last: the in-memory
/// equivalent of seeking to each write's offset and writing its bytes.
pub fn apply_writes_to_file(file: Vec<u8>, writes: &Vec<PageWrite>) -> (r: Vec<u8>)
    requires
        forall|i: int|
            0 <= i < writes@.len() ==> (#[trigger] writes@[i]).offset + writes@[i].data@.len()
                <= usize::MAX,
    ensures
        r@ == apply_writes(file@, writes_view(writes@)),
{
    let mut f = file;
    let mut i: usize = 0;
    while i < writes.len()
        invariant
            i <= writes@.len(),
            forall|k: int|
                0 <= k < writes@.len() ==> (#[trigger] writes@[k]).offset + writes@[k].data@.len()
                    <= usize::MAX,
            f@ == apply_writes(file@, writes_view(writes@).take(i as int)),
        decreases writes@.len() - i,
    {
        let off = writes[i].offset;
        let dlen = writes[i].data.len();
        let ghost pre = f@;
        while f.len() < off
            invariant
                off + dlen <= usize::MAX,
                f@.len() <= off ==> f@ =~= Seq::new(
                    f@.len(),
                    |a: int| file_byte(pre, a),
                ),
                f@.len() >= pre.len(),
                f@.len() > off ==> f@ == pre,
                dlen == writes@[i as int].data@.len(),
                off == writes@[i as int].offset,
                0 <= i < writes@.len(),
            decreases off - f@.len(),
        {
            f.push(0);
        }
        let mut k: usize = 0;
        while k < dlen
            invariant
                k <= dlen,
                off + dlen <= usize::MAX,
                dlen == writes@[i as int].data@.len(),
                off == writes@[i as int].offset,
                0 <= i < writes@.len(),
                f@.len() >= off + k,
                f@.len() >= pre.len(),
                f@.len() == if pre.len() >= off + k {
                    pre.len() as int
                } else {
                    off + k
                },
                forall|a: int|
                    0 <= a < f@.len() ==> f@[a] == (if off <= a < off + k {
                        writes@[i as int].data@[a - off]
                    } else {
                        file_byte(pre, a)
                    }),
            decreases dlen - k,
        {
            let b = writes[i].data[k];
            if off + k < f.len() {
                f[off + k] = b;
            } else {
                f.push(b);
            }
            k = k + 1;
        }
        assert(f@ =~= apply_write(pre, off as int, writes@[i as int].data@));
        proof {
            lemma_apply_writes_snoc(
                file@,
                writes_view(writes@).take(i as int),
                (off as int, writes@[i as int].data@),
            );
            assert(writes_view(writes@).take(i + 1) =~= writes_view(writes@).take(i as int).push(
                (off as int, writes@[i as int].data@),
            ));
        }
        i = i + 1;
    }
    assert(writes_view(writes@).take(writes@.len() as int) =~= writes_view(writes@));
    f
}

} // verus!
