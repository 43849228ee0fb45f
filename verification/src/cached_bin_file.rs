//! A record file that remembers rows it has read.
//!
//! Reads look in the cache first and fill it with what they had to read
//! from the image. Writes move the cached rows along with the rows of the
//! file, so that a cached row stays at the position of its image: up from
//! the position of an insertion, down into the gap that a removal leaves.
//! Where a write fails after it has changed something, the cache is
//! dropped.
use crate::bd_path::BDPath;
use crate::bin_file::{
    encode_rows, image_with, image_without, keep_their_files, lemma_encode_rows_frame,
    lemma_encode_rows_width, lemma_erase_rows_shrinks, lemma_image_with_rows,
    lemma_image_without_rows, lemma_row_count, lemma_row_within, lemma_rows_from_all,
    lemma_rows_from_each, lemma_rows_from_fails, lemma_rows_from_join, models_of, removal_count,
    replay_file_ops, row_at, row_count, rows_from, rows_range, BaseBinFile, BinFile, FileOp,
};
use crate::binary::{binary_lawful, clone_lawful, decode_lawful, encode_lawful, Binary};
use crate::cache::{
    chunk_end, chunk_start, chunks_tell, chunks_tile, lemma_rows_between_full, rows_between,
    run_rows, shifted, span, Cache,
};
use crate::error::DbError;
use crate::plain::stretch;
use crate::side_files::{replay_side_ops, SideFiles, SideOp, SideState};
use vstd::prelude::*;

verus! {

/// What is cached after the rows from `index` on were taken out of the
/// file: `len` of them, or all where `len` is `None`. The rows that were
/// cached for them are forgotten, and the rows after them move down into
/// the gap. A number of rows too large to move by forgets everything.
pub open spec fn evicted<Row>(rows: Map<int, Row>, index: usize, len: Option<usize>) -> Map<
    int,
    Row,
> {
    match len {
        None => rows.remove_keys(span(index, None)),
        Some(n) => if n > isize::MAX {
            Map::empty()
        } else {
            shifted(rows.remove_keys(span(index, len)), index as int, -(n as int))
        },
    }
}

/// Whether every cached position is the position of a row of the image.
pub open spec fn cache_within<Row: Binary>(rows: Map<int, Row>, image: Seq<u8>) -> bool {
    forall|p: int| #[trigger] rows.contains_key(p) ==> 0 <= p < row_count(image, Row::width())
}

/// Whether every cached row is the row that the image holds at its
/// position.
pub open spec fn cache_true<Row: Binary>(
    rows: Map<int, Row>,
    image: Seq<u8>,
    files: Map<u64, Seq<u8>>,
) -> bool {
    forall|p: int| #[trigger]
        rows.contains_key(p) ==> row_at::<Row>(image, files, p) == Ok::<Row::Model, DbError>(
            rows[p].model(),
        )
}

/// After rows were put into the file and the cache has moved with them,
/// the cache lies within the file; and it is still true when it was and the
/// side files that were there are as they were.
pub proof fn lemma_cache_after_insert<Row: Binary>(
    rows: Map<int, Row>,
    image: Seq<u8>,
    files: Map<u64, Seq<u8>>,
    later: Map<u64, Seq<u8>>,
    index: usize,
    bytes: Seq<u8>,
    n: nat,
)
    requires
        binary_lawful::<Row>(),
        Row::width() > 0,
        index <= row_count(image, Row::width()),
        bytes.len() == n * Row::width(),
        cache_within(rows, image),
    ensures
        cache_within(shifted(rows, index as int, n as int), image_with(image, Row::width(), index, bytes)),
        cache_true(rows, image, files) && files.submap_of(later) ==> cache_true(
            shifted(rows, index as int, n as int),
            image_with(image, Row::width(), index, bytes),
            later,
        ),
{
    let w = Row::width();
    let after = image_with(image, w, index, bytes);
    let now = shifted(rows, index as int, n as int);
    lemma_image_with_rows(image, w, index, bytes, n);
    assert forall|p: int| #[trigger] now.contains_key(p) implies 0 <= p < row_count(after, w) && (
    cache_true(rows, image, files) && files.submap_of(later) ==> row_at::<Row>(after, later, p)
        == Ok::<Row::Model, DbError>(now[p].model())) by {
        let q = if p < index && rows.contains_key(p) {
            p
        } else {
            p - n
        };
        assert(rows.contains_key(q));
        assert(now[p] == rows[q]);
        if cache_true(rows, image, files) && files.submap_of(later) {
            lemma_row_within(image, w, q);
            lemma_row_within(after, w, p);
            let piece = stretch(image, w, q);
            assert(stretch(after, w, p) == piece);
            lemma_row_count(image, w);
            crate::bin_file::lemma_row_place(q, w as int, row_count(image, w) as int);
            assert(decode_lawful::<Row>(piece, files, later));
        }
    }
}

/// After rows were taken out of a file of whole rows and the cache has
/// followed, the cache lies within the file, and it is still true when it
/// was.
pub proof fn lemma_cache_after_remove<Row: Binary>(
    rows: Map<int, Row>,
    image: Seq<u8>,
    files: Map<u64, Seq<u8>>,
    index: usize,
    len: Option<usize>,
)
    requires
        Row::width() > 0,
        image.len() % Row::width() == 0,
        removal_count(image, Row::width(), index, len) >= 0,
        index + removal_count(image, Row::width(), index, len) <= row_count(image, Row::width()),
        row_count(image, Row::width()) <= usize::MAX,
        cache_within(rows, image),
    ensures
        cache_within(
            evicted(rows, index, len),
            image_without(
                image,
                Row::width(),
                index,
                removal_count(image, Row::width(), index, len) as nat,
            ),
        ),
        cache_true(rows, image, files) ==> cache_true(
            evicted(rows, index, len),
            image_without(
                image,
                Row::width(),
                index,
                removal_count(image, Row::width(), index, len) as nat,
            ),
            files,
        ),
{
    let w = Row::width();
    let count = removal_count(image, w, index, len) as nat;
    let after = image_without(image, w, index, count);
    let now = evicted(rows, index, len);
    lemma_image_without_rows(image, w, index, count);
    assert forall|p: int| #[trigger] now.contains_key(p) implies 0 <= p < row_count(after, w) && (
    cache_true(rows, image, files) ==> row_at::<Row>(after, files, p) == Ok::<Row::Model, DbError>(
        now[p].model(),
    )) by {
        let q = if p < index {
            p
        } else {
            p + count
        };
        assert(rows.contains_key(q) && now[p] == rows[q]) by {
            match len {
                None => {},
                Some(n) => {
                    if n <= isize::MAX {
                        let kept = rows.remove_keys(span(index, len));
                        if p < index && kept.contains_key(p) {
                        } else {
                            assert(kept.contains_key(p + n));
                            assert(!span(index, len).contains(p + n));
                        }
                    }
                },
            }
        }
        if cache_true(rows, image, files) {
            lemma_row_within(image, w, q);
            lemma_row_within(after, w, p);
            assert(stretch(after, w, p) == stretch(image, w, q));
        }
    }
}

/// Every row that is cached after rows were taken out was cached before,
/// for a position outside the range of those rows.
pub proof fn lemma_evicted_rows<Row>(rows: Map<int, Row>, index: usize, len: Option<usize>)
    ensures
        forall|p: int| #[trigger]
            evicted(rows, index, len).contains_key(p) ==> exists|q: int|
                rows.contains_key(q) && (q < index || (len matches Some(n) && index + n <= q))
                    && evicted(rows, index, len)[p] == rows[q],
{
    let now = evicted(rows, index, len);
    assert forall|p: int| #[trigger] now.contains_key(p) implies exists|q: int|
        rows.contains_key(q) && (q < index || (len matches Some(n) && index + n <= q)) && now[p]
            == rows[q] by {
        match len {
            None => {
                assert(rows.contains_key(p) && p < index && now[p] == rows[p]);
            },
            Some(n) => {
                if n <= isize::MAX {
                    let kept = rows.remove_keys(span(index, len));
                    if p < index && kept.contains_key(p) {
                        assert(rows.contains_key(p) && now[p] == rows[p]);
                    } else {
                        assert(kept.contains_key(p + n));
                        assert(!span(index, len).contains(p + n));
                        assert(rows.contains_key(p + n) && index + n <= p + n && now[p] == rows[p
                            + n]);
                    }
                }
            },
        }
    }
}

/// A cache that is true stays true when side files go that none of the
/// cached rows owns.
pub proof fn lemma_cache_with_fewer_files<Row: Binary>(
    rows: Map<int, Row>,
    image: Seq<u8>,
    files: Map<u64, Seq<u8>>,
    fewer: Map<u64, Seq<u8>>,
)
    requires
        binary_lawful::<Row>(),
        Row::width() > 0,
        cache_within(rows, image),
        cache_true(rows, image, files),
        fewer.submap_of(files),
        forall|p: int| #[trigger]
            rows.contains_key(p) ==> Row::side_ids(rows[p].model()).subset_of(fewer.dom()),
    ensures
        cache_true(rows, image, fewer),
{
    let w = Row::width();
    assert forall|p: int| #[trigger] rows.contains_key(p) implies row_at::<Row>(image, fewer, p)
        == Ok::<Row::Model, DbError>(rows[p].model()) by {
        lemma_row_within(image, w, p);
        lemma_row_count(image, w);
        crate::bin_file::lemma_row_place(p, w as int, row_count(image, w) as int);
        let piece = stretch(image, w, p);
        assert(decode_lawful::<Row>(piece, files, fewer));
        assert forall|id: u64| #[trigger]
            Row::side_ids(rows[p].model()).contains(id) implies fewer.contains_key(id)
            && fewer[id] == files[id] by {
            assert(fewer.dom().contains(id));
        }
    }
}

/// Whether the cache `now` is the cache `first` grown by the positions
/// from `lo` up to, not including, `hi`: these are all cached, and no
/// others but those that were.
#[verifier::opaque]
pub open spec fn grown_by<Row>(first: Map<int, Row>, now: Map<int, Row>, lo: int, hi: int) -> bool {
    &&& forall|p: int| lo <= p < hi ==> now.contains_key(p)
    &&& forall|p: int| #[trigger] now.contains_key(p) ==> first.contains_key(p) || lo <= p < hi
}

/// A cache is itself, grown by nothing.
pub proof fn lemma_grown_start<Row>(first: Map<int, Row>, lo: int)
    ensures
        grown_by(first, first, lo, lo),
{
    reveal(grown_by);
}

/// A cache that has grown by some positions, and then takes in the
/// positions that follow them, has grown by all of them.
pub proof fn lemma_grown_step<Row>(
    first: Map<int, Row>,
    was: Map<int, Row>,
    now: Map<int, Row>,
    lo: int,
    mid: int,
    more: int,
)
    requires
        grown_by(first, was, lo, mid),
        lo <= mid,
        more >= 0,
        forall|p: int| mid <= p < mid + more ==> now.contains_key(p),
        forall|p: int| !(mid <= p < mid + more) ==> now.contains_key(p) == was.contains_key(p),
    ensures
        grown_by(first, now, lo, mid + more),
{
    reveal(grown_by);
    assert forall|p: int| #[trigger] now.contains_key(p) implies first.contains_key(p) || lo <= p
        < mid + more by {
        if !(mid <= p < mid + more) {
            assert(was.contains_key(p));
        }
    }
}

/// What it is for a cache to have grown by some positions.
pub proof fn lemma_grown_is<Row>(first: Map<int, Row>, now: Map<int, Row>, lo: int, hi: int)
    requires
        grown_by(first, now, lo, hi),
    ensures
        forall|p: int| lo <= p < hi ==> now.contains_key(p),
        forall|p: int| #[trigger] now.contains_key(p) ==> first.contains_key(p) || lo <= p < hi,
{
    reveal(grown_by);
}

/// As many side files, and none but those that were there, with the
/// content that they had, are the same side files.
pub proof fn lemma_same_files(before: Map<u64, Seq<u8>>, after: Map<u64, Seq<u8>>)
    requires
        before.dom().finite(),
        after.submap_of(before),
        after.dom().len() == before.dom().len(),
    ensures
        after == before,
{
    assert(after.dom().subset_of(before.dom()));
    vstd::set_lib::lemma_subset_equality(after.dom(), before.dom());
    assert(after =~= before);
}

/// A record file with a cache of rows in front of it.
pub struct CachedBinFile<Row: Binary> {
    bin: BinFile<Row>,
    cache: Cache<Row>,
}

impl<Row: Binary> CachedBinFile<Row> {
    /// The cached rows, by position.
    pub closed spec fn cached(&self) -> Map<int, Row> {
        self.cache@
    }

    /// The record file behind the cache.
    pub closed spec fn inner(&self) -> BinFile<Row> {
        self.bin
    }

    /// What follows from the file being in order: every cached position is
    /// the position of a row of the file, and being faithful is that every
    /// cached row is the row at its position.
    pub proof fn lemma_cached(&self)
        requires
            self.wf(),
        ensures
            self.inner().wf(),
            self.inner().image() == self.image(),
            self.inner().side() == self.side(),
            cache_within(self.cached(), self.image()),
            self.faithful() == cache_true(self.cached(), self.image(), self.side().files),
            self.cached().dom().finite(),
            self.cached().dom().len() <= row_count(self.image(), Row::width()),
    {
        self.lemma_room(Set::empty());
    }

    /// The cache and some positions of the file that are not cached are
    /// together at most as many as the rows of the file.
    proof fn lemma_room(&self, more: Set<int>)
        requires
            self.wf(),
            more.finite(),
            forall|p: int| #[trigger]
                more.contains(p) ==> 0 <= p < row_count(self.bin.image(), Row::width())
                    && !self.cache@.contains_key(p),
        ensures
            self.cache@.dom().finite(),
            self.cache.spec_len() == self.cache@.dom().len(),
            self.cache.spec_len() + more.len() <= row_count(self.bin.image(), Row::width()),
            row_count(self.bin.image(), Row::width()) <= usize::MAX,
    {
        let rows = row_count(self.bin.image(), Row::width()) as int;
        let all = vstd::set_lib::set_int_range(0, rows);
        self.bin.lemma_wf();
        self.cache.lemma_len();
        vstd::set_lib::lemma_int_range(0, rows);
        let both = self.cache@.dom().union(more);
        assert(self.cache@.dom().disjoint(more));
        vstd::set_lib::lemma_set_disjoint_lens(self.cache@.dom(), more);
        assert(both.subset_of(all));
        vstd::set_lib::lemma_len_subset(both, all);
    }

    /// A record file at `path` with the bytes and the side files that were
    /// found there, and an empty cache.
    pub fn open(path: BDPath, bytes: Vec<u8>, dyns: SideFiles) -> (file: Self)
        requires
            binary_lawful::<Row>(),
            0 < Row::width() <= usize::MAX,
            dyns.wf(),
        ensures
            file.wf(),
            file.faithful(),
            file.image() == bytes@,
            file.side() == dyns@,
            file.place() == path,
            file.cached() == Map::<int, Row>::empty(),
    {
        CachedBinFile { bin: BinFile::open(path, bytes, dyns), cache: Cache::new() }
    }

    /// The bytes of the file.
    pub fn bytes(&self) -> (bytes: &Vec<u8>)
        ensures
            bytes@ == self.image(),
    {
        self.bin.bytes()
    }

    /// Gives up the handle and hands out what the file holds: its bytes and
    /// its side files.
    pub fn into_parts(self) -> (parts: (Vec<u8>, SideFiles))
        requires
            self.wf(),
        ensures
            parts.0@ == self.image(),
            parts.1@ == self.side(),
            parts.1.wf(),
    {
        self.bin.into_parts()
    }

    /// The number of side files.
    pub fn nb_dyns(&self) -> (n: usize)
        requires
            self.wf(),
        ensures
            n == self.side().files.dom().len(),
    {
        self.bin.nb_dyns()
    }

    /// Hands over the changes made to the file since the log was last
    /// taken.
    pub fn take_log(&mut self) -> (ops: Vec<FileOp>)
        requires
            old(self).wf(),
        ensures
            final(self).wf(),
            final(self).faithful() == old(self).faithful(),
            final(self).image() == old(self).image(),
            final(self).side() == old(self).side(),
            final(self).place() == old(self).place(),
            final(self).cached() == old(self).cached(),
            ops@ == old(self).inner().pending(),
            final(self).inner().pending() == Seq::<FileOp>::empty(),
            final(self).inner().synced() == old(self).image(),
            replay_file_ops(old(self).inner().synced(), ops@) == old(self).image(),
    {
        self.bin.take_log()
    }

    /// Hands over the changes made to the side files since their log was
    /// last taken.
    pub fn take_side_log(&mut self) -> (ops: Vec<SideOp>)
        requires
            old(self).wf(),
        ensures
            final(self).wf(),
            final(self).faithful() == old(self).faithful(),
            final(self).image() == old(self).image(),
            final(self).side() == old(self).side(),
            final(self).place() == old(self).place(),
            final(self).cached() == old(self).cached(),
            ops@ == old(self).inner().side_files().pending(),
            final(self).inner().pending() == old(self).inner().pending(),
            final(self).inner().synced() == old(self).inner().synced(),
            replay_side_ops(old(self).inner().side_files().synced(), ops@) == old(
                self,
            ).side().files,
    {
        self.bin.take_side_log()
    }

    /// Starts the search for the next fresh side-file identifier at `hint`.
    pub fn reseed(&mut self, hint: u64)
        requires
            old(self).wf(),
        ensures
            final(self).wf(),
            final(self).faithful() == old(self).faithful(),
            final(self).image() == old(self).image(),
            final(self).place() == old(self).place(),
            final(self).cached() == old(self).cached(),
            final(self).side() == (SideState { files: old(self).side().files, hint }),
    {
        self.bin.reseed(hint);
    }

    /// The number of cached rows.
    pub fn cache_len(&self) -> (n: usize)
        requires
            self.wf(),
        ensures
            n == self.cached().dom().len(),
    {
        proof {
            self.cache.lemma_len();
        }
        self.cache.len()
    }

    /// Forgets what `cache` holds for the rows from `index` on and moves
    /// what it holds for the rows after them down.
    fn evict(cache: &mut Cache<Row>, index: usize, len: Option<usize>)
        requires
            old(cache).wf(),
        ensures
            final(cache).wf(),
            final(cache)@ == evicted(old(cache)@, index, len),
    {
        match len {
            None => {
                cache.remove(index, None);
            },
            Some(n) => {
                if n > isize::MAX as usize {
                    cache.clear();
                } else {
                    cache.remove(index, Some(n));
                    cache.move_cache(index, -(n as isize));
                }
            },
        }
    }

    /// Forgets what is cached for the rows from `index` on, `len` of them or
    /// all where `len` is `None`, and moves what is cached for the rows after
    /// them down, as after a removal of those rows from the file.
    pub fn remove_from_cache(&mut self, index: usize, len: Option<usize>)
        requires
            old(self).wf(),
        ensures
            final(self).wf(),
            final(self).inner() == old(self).inner(),
            final(self).image() == old(self).image(),
            final(self).side() == old(self).side(),
            final(self).place() == old(self).place(),
            final(self).cached() == evicted(old(self).cached(), index, len),
    {
        Self::evict(&mut self.cache, index, len);
        proof {
            let before = old(self).cache@;
            assert forall|p: int| #[trigger] self.cache@.contains_key(p) implies 0 <= p
                < row_count(self.bin.image(), Row::width()) by {
                match len {
                    None => {
                        assert(before.contains_key(p));
                    },
                    Some(n) => {
                        if n <= isize::MAX {
                            let kept = before.remove_keys(span(index, len));
                            if p < index && kept.contains_key(p) {
                                assert(before.contains_key(p));
                            } else {
                                assert(kept.contains_key(p + n));
                                assert(before.contains_key(p + n));
                                assert(!span(index, len).contains(p + n));
                            }
                        }
                    },
                }
            }
        }
    }

    /// Forgets everything that is cached.
    pub fn clear_cache(&mut self)
        requires
            old(self).wf(),
        ensures
            final(self).wf(),
            final(self).faithful(),
            final(self).inner() == old(self).inner(),
            final(self).image() == old(self).image(),
            final(self).side() == old(self).side(),
            final(self).place() == old(self).place(),
            final(self).cached() == Map::<int, Row>::empty(),
    {
        self.cache.clear();
    }

    /// Adds the `n` rows from position `from` on, which are all cached, to
    /// `out`.
    fn serve_cached(&self, from: usize, n: usize, out: &mut Vec<Row>)
        requires
            self.wf(),
            n > 0,
            from + n <= row_count(self.bin.image(), Row::width()),
            forall|p: int| from <= p < from + n ==> self.cache@.contains_key(p),
        ensures
            final(out)@.len() == old(out)@.len() + n,
            final(out)@.subrange(0, old(out)@.len() as int) == old(out)@,
            self.faithful() ==> rows_from::<Row>(
                self.bin.image(),
                self.bin.side().files,
                from as int,
                n as nat,
            ) == Ok::<Seq<Row::Model>, DbError>(
                models_of(final(out)@.subrange(old(out)@.len() as int, final(out)@.len() as int)),
            ),
    {
        let ghost image = self.bin.image();
        let ghost files = self.bin.side().files;
        let ghost w = Row::width();
        let ghost held = out@;
        proof {
            self.bin.lemma_wf();
        }
        let found = self.cache.gets(from, Some(n));
        let mut rows = match found {
            Some(rows) => rows,
            None => Vec::new(),
        };
        proof {
            lemma_rows_between_full(self.cache@, from as int, from + n);
            let source = rows_between(self.cache@, from as int, from + n);
            if self.faithful() {
                assert forall|i: int| 0 <= i < n implies Row::decode(
                    #[trigger] stretch(image, w, from + i),
                    files,
                ) == Ok::<Row::Model, DbError>(models_of(rows@)[i]) by {
                    assert(self.cache@.contains_key(from + i));
                    assert(source[i] == self.cache@[from + i]);
                    assert(cloned(source[i], rows@[i]));
                    assert(clone_lawful(source[i], rows@[i]));
                    lemma_row_within(image, w, from + i);
                }
                lemma_rows_from_all::<Row>(image, files, from as int, n as nat, models_of(rows@));
            }
            assert((held + rows@).subrange(held.len() as int, (held + rows@).len() as int)
                =~= rows@);
            assert((held + rows@).subrange(0, held.len() as int) =~= held);
        }
        out.append(&mut rows);
    }

    /// Adds the `n` rows from position `from` on, none of which is cached,
    /// to `out`: they are read from the image and cached.
    fn serve_fresh(&mut self, from: usize, n: usize, out: &mut Vec<Row>) -> (r: Result<(), DbError>)
        requires
            old(self).wf(),
            n > 0,
            from + n <= row_count(old(self).bin.image(), Row::width()),
            forall|p: int| from <= p < from + n ==> !old(self).cache@.contains_key(p),
        ensures
            final(self).wf(),
            final(self).bin == old(self).bin,
            final(self).bin.image() == old(self).bin.image(),
            final(self).bin.side() == old(self).bin.side(),
            final(self).bin.place() == old(self).bin.place(),
            final(self).faithful() == old(self).faithful(),
            forall|p: int|
                !(from <= p < from + n) ==> final(self).cache@.contains_key(p) == old(self).cache@.contains_key(p),
            old(self).cache@.submap_of(final(self).cache@),
            match r {
                Ok(_) => {
                    &&& forall|p: int| from <= p < from + n ==> final(self).cache@.contains_key(p)
                    &&& final(out)@.len() == old(out)@.len() + n
                    &&& final(out)@.subrange(0, old(out)@.len() as int) == old(out)@
                    &&& rows_from::<Row>(
                        old(self).bin.image(),
                        old(self).bin.side().files,
                        from as int,
                        n as nat,
                    ) == Ok::<Seq<Row::Model>, DbError>(
                        models_of(
                            final(out)@.subrange(old(out)@.len() as int, final(out)@.len() as int),
                        ),
                    )
                },
                Err(e) => {
                    &&& final(self).cache@ == old(self).cache@
                    &&& final(out)@ == old(out)@
                    &&& rows_from::<Row>(
                        old(self).bin.image(),
                        old(self).bin.side().files,
                        from as int,
                        n as nat,
                    ) == Err::<Seq<Row::Model>, DbError>(e)
                },
            },
    {
        let ghost image = self.bin.image();
        let ghost files = self.bin.side().files;
        let ghost w = Row::width();
        let ghost held = out@;
        proof {
            self.bin.lemma_wf();
            lemma_row_count(image, w);
            assert((from + n) * w <= row_count(image, w) * w) by (nonlinear_arith)
                requires
                    from + n <= row_count(image, w),
                    w > 0,
            ;
        }
        let mut rows = match self.bin.gets(from, Some(n)) {
            Ok(rows) => rows,
            Err(e) => {
                return Err(e);
            },
        };
        let copy = rows.clone();
        proof {
            let more = Set::new(|p: int| from <= p < from + n);
            assert(more =~= vstd::set_lib::set_int_range(from as int, from + n));
            vstd::set_lib::lemma_int_range(from as int, from + n);
            self.lemma_room(more);
            lemma_rows_from_each::<Row>(image, files, from as int, n as nat);
            assert(models_of(rows@).len() == n);
        }
        let ghost before = self.cache@;
        self.cache.inserts(from, copy);
        proof {
            assert forall|p: int| #[trigger] self.cache@.contains_key(p) implies 0 <= p < row_count(
                image,
                w,
            ) && (old(self).faithful() ==> row_at::<Row>(image, files, p) == Ok::<
                Row::Model,
                DbError,
            >(self.cache@[p].model())) by {
                if from <= p < from + n {
                    assert(run_rows(from as int, copy@).contains_key(p));
                    assert(self.cache@[p] == copy@[p - from]);
                    assert(cloned(rows@[p - from], copy@[p - from]));
                    assert(clone_lawful(rows@[p - from], copy@[p - from]));
                    assert(models_of(rows@)[p - from] == rows@[p - from].model());
                    lemma_row_within(image, w, p);
                    assert(stretch(image, w, from + (p - from)) == stretch(image, w, p));
                } else {
                    assert(!run_rows(from as int, copy@).contains_key(p));
                    assert(before.contains_key(p));
                }
            }
            assert forall|p: int| #[trigger] before.contains_key(p) implies self.cache@.contains_key(
                p,
            ) && self.cache@[p] == before[p] by {
                assert(!run_rows(from as int, copy@).contains_key(p));
            }
            assert forall|p: int| !(from <= p < from + n) implies self.cache@.contains_key(p)
                == before.contains_key(p) by {
                assert(!run_rows(from as int, copy@).contains_key(p));
            }
            if self.faithful() {
                assert forall|p: int| #[trigger] before.contains_key(p) implies row_at::<Row>(
                    image,
                    files,
                    p,
                ) == Ok::<Row::Model, DbError>(before[p].model()) by {
                    assert(!run_rows(from as int, copy@).contains_key(p));
                    assert(self.cache@.contains_key(p));
                }
            }
            assert((held + rows@).subrange(held.len() as int, (held + rows@).len() as int)
                =~= rows@);
            assert((held + rows@).subrange(0, held.len() as int) =~= held);
        }
        out.append(&mut rows);
        Ok(())
    }
}

impl<Row: Binary> BaseBinFile<Row> for CachedBinFile<Row> {
    closed spec fn wf(&self) -> bool {
        &&& self.bin.wf()
        &&& self.cache.wf()
        &&& cache_within(self.cache@, self.bin.image())
    }

    closed spec fn image(&self) -> Seq<u8> {
        self.bin.image()
    }

    closed spec fn side(&self) -> SideState {
        self.bin.side()
    }

    closed spec fn place(&self) -> BDPath {
        self.bin.place()
    }

    /// What the cache holds.
    open spec fn remembered(&self) -> Map<int, Row> {
        self.cached()
    }

    /// Every cached row is the row that the image holds at its position.
    closed spec fn faithful(&self) -> bool {
        cache_true(self.cache@, self.bin.image(), self.bin.side().files)
    }

    proof fn lemma_wf(&self) {
        self.bin.lemma_wf();
    }

    proof fn lemma_remembered(&self) {
    }

    /// The cache is empty.
    fn new(path: BDPath) -> (r: Result<Self, DbError>)
        ensures
            r.unwrap().cached() == Map::<int, Row>::empty(),
    {
        match BinFile::new(path) {
            Ok(bin) => Ok(CachedBinFile { bin, cache: Cache::new() }),
            Err(e) => Err(e),
        }
    }

    fn path(&self) -> (p: &BDPath) {
        self.bin.path()
    }

    /// A row that had to be read from the image is cached; nothing else
    /// changes in the cache.
    fn get(&mut self, index: usize) -> (r: Result<Row, DbError>)
        ensures
            final(self).inner() == old(self).inner(),
            old(self).cached().contains_key(index as int) || r is Err ==> final(self).cached()
                == old(self).cached(),
            !old(self).cached().contains_key(index as int) ==> match r {
                Ok(row) => exists|copy: Row|
                    cloned(row, copy) && #[trigger] old(self).cached().insert(index as int, copy)
                        == final(self).cached(),
                Err(_) => true,
            },
    {
        proof {
            self.bin.lemma_wf();
        }
        match self.cache.get(index) {
            Some(row) => {
                proof {
                    assert(clone_lawful(self.cache@[index as int], row));
                }
                Ok(row)
            },
            None => {
                match self.bin.get(index) {
                    Ok(data) => {
                        let copy = data.clone();
                        proof {
                            assert(clone_lawful(data, copy));
                            lemma_row_within(self.bin.image(), Row::width(), index as int);
                            let more = Set::<int>::empty().insert(index as int);
                            self.lemma_room(more);
                        }
                        let ghost before = self.cache@;
                        self.cache.insert(index, copy);
                        proof {
                            if self.faithful() {
                                assert forall|p: int| #[trigger] before.contains_key(p)
                                    implies row_at::<Row>(
                                    self.bin.image(),
                                    self.bin.side().files,
                                    p,
                                ) == Ok::<Row::Model, DbError>(before[p].model()) by {
                                    assert(self.cache@.contains_key(p));
                                }
                            }
                        }
                        Ok(data)
                    },
                    Err(e) => Err(e),
                }
            },
        }
    }

    /// The rows that had to be read from the image are cached; nothing
    /// that was cached is lost, and the file behind the cache stays as it
    /// is. No rows are cached afterwards but those that were and rows of
    /// the range, and after a read that succeeds the rows of the range are
    /// all cached.
    #[verifier::rlimit(60)]
    fn gets(&mut self, index: usize, len: Option<usize>) -> (r: Result<Vec<Row>, DbError>)
        ensures
            final(self).inner() == old(self).inner(),
            forall|p: int| #[trigger]
                final(self).cached().contains_key(p) ==> old(self).cached().contains_key(p)
                    || span(index, len).contains(p),
            r is Ok ==> forall|p: int|
                #![trigger final(self).cached().contains_key(p)]
                index <= p < index + r.unwrap()@.len() ==> final(self).cached().contains_key(p),
    {
        proof {
            self.bin.lemma_wf();
        }
        let count: usize = match self.bin.range_count(index, len) {
            Ok(count) => count,
            Err(e) => {
                return Err(e);
            },
        };
        let mut out: Vec<Row> = Vec::new();
        let chunks = self.cache.chunks();
        let ghost first = self.cache@;
        let ghost image = self.bin.image();
        let ghost files = self.bin.side().files;
        let n: usize = chunks.len();
        let mut i: usize = 0;
        let mut done: usize = 0;
        proof {
            assert(models_of(out@) =~= Seq::<Row::Model>::empty());
            lemma_grown_start(first, index as int);
        }
        while done < count
            invariant
                self.wf(),
                self.bin == old(self).bin,
                image == self.bin.image(),
                image == old(self).bin.image(),
                files == self.bin.side().files,
                self.bin.side() == old(self).bin.side(),
                self.bin.place() == old(self).bin.place(),
                rows_range::<Row>(image, files, index, len) == rows_from::<Row>(
                    image,
                    files,
                    index as int,
                    count as nat,
                ),
                old(self).faithful() == self.faithful(),
                n == chunks@.len(),
                chunks_tile(chunks@),
                chunks_tell(chunks@, first),
                i < n,
                chunk_start(chunks@[i as int]) <= index + done,
                index + count <= row_count(image, Row::width()),
                row_count(image, Row::width()) <= usize::MAX,
                done <= count,
                out@.len() == done,
                forall|p: int|
                    index + done <= p ==> self.cache@.contains_key(p) == first.contains_key(p),
                first == old(self).cache@,
                first.submap_of(self.cache@),
                grown_by(first, self.cache@, index as int, index + done),
                len matches Some(n) ==> count <= n,
                old(self).faithful() ==> rows_from::<Row>(image, files, index as int, done as nat)
                    == Ok::<Seq<Row::Model>, DbError>(models_of(out@)),
            decreases count - done,
        {
            let next: usize = index + done;
            while *chunks[i].1.end() < next
                invariant
                    n == chunks@.len(),
                    chunks_tile(chunks@),
                    i < n,
                    chunk_start(chunks@[i as int]) <= next,
                decreases n - i,
            {
                proof {
                    if i + 1 == n {
                        assert(chunks@.last() == chunks@[i as int]);
                    }
                    assert(chunk_end(chunks@[i as int]) + 1 == chunk_start(chunks@[i + 1]));
                }
                i = i + 1;
            }
            let in_cache: bool = chunks[i].0;
            let hi: usize = *chunks[i].1.end();
            let to: usize = if hi > index + (count - 1) {
                index + (count - 1)
            } else {
                hi
            };
            let take: usize = to - next + 1;
            let ghost held = out@;
            let ghost was = self.cache@;
            proof {
                assert forall|p: int| next <= p < next + take implies self.cache@.contains_key(p)
                    == in_cache by {
                    assert(first.contains_key(p) == chunks@[i as int].0);
                }
            }
            if in_cache {
                self.serve_cached(next, take, &mut out);
            } else {
                match self.serve_fresh(next, take, &mut out) {
                    Ok(_) => {},
                    Err(e) => {
                        proof {
                            if old(self).faithful() {
                                lemma_rows_from_join::<Row>(
                                    image,
                                    files,
                                    index as int,
                                    done as nat,
                                    take as nat,
                                );
                                lemma_rows_from_fails::<Row>(
                                    image,
                                    files,
                                    index as int,
                                    (done + take) as nat,
                                    count as nat,
                                );
                            }
                            lemma_grown_is(first, self.cache@, index as int, index + done);
                        }
                        return Err(e);
                    },
                }
            }
            proof {
                if old(self).faithful() {
                    lemma_rows_from_join::<Row>(
                        image,
                        files,
                        index as int,
                        done as nat,
                        take as nat,
                    );
                    let fresh = out@.subrange(held.len() as int, out@.len() as int);
                    assert(out@ =~= held + fresh);
                    assert(models_of(out@) =~= models_of(held) + models_of(fresh));
                }
                lemma_grown_step(first, was, self.cache@, index as int, next as int, take as int);
            }
            done = done + take;
        }
        proof {
            lemma_grown_is(first, self.cache@, index as int, index + done);
        }
        Ok(out)
    }

    fn is_empty(&self) -> (r: Result<bool, DbError>) {
        self.bin.is_empty()
    }

    fn len(&self) -> (r: Result<usize, DbError>) {
        self.bin.len()
    }

    /// The cached rows from position `index` on move up by one with the
    /// rows of the file. Where the file cannot take the row, the cache is
    /// dropped, unless the position was out of bounds.
    fn insert(&mut self, index: usize, data: &mut Row) -> (r: Result<(), DbError>)
        ensures
            final(self).cached() == if r is Ok {
                shifted(old(self).cached(), index as int, 1)
            } else if index > row_count(old(self).image(), Row::width()) {
                old(self).cached()
            } else {
                Map::<int, Row>::empty()
            },
    {
        let ghost image = self.bin.image();
        let ghost store = self.bin.side();
        let ghost before = self.cache@;
        let ghost m = data.model();
        proof {
            self.bin.lemma_wf();
        }
        let rows: usize = match self.bin.len() {
            Ok(rows) => rows,
            Err(e) => {
                return Err(e);
            },
        };
        if index > rows {
            return Err(DbError::OutOfBounds);
        }
        self.cache.move_cache(index, 1);
        match self.bin.insert(index, data) {
            Ok(_) => {
                proof {
                    let e = Row::encode(m, store);
                    assert(encode_lawful::<Row>(m, store));
                    let bytes = e.result.unwrap();
                    assert(bytes.len() == 1 * Row::width()) by (nonlinear_arith)
                        requires
                            bytes.len() == Row::width(),
                    ;
                    if Row::side_ids(m).disjoint(store.files.dom()) {
                        assert(store.files.submap_of(e.store.files)) by {
                            assert forall|id: u64| #[trigger]
                                store.files.dom().contains(id) implies e.store.files.dom().contains(
                                id,
                            ) && store.files[id] == e.store.files[id] by {
                                assert(!Row::side_ids(m).contains(id));
                            }
                        }
                    }
                    lemma_cache_after_insert::<Row>(
                        before,
                        image,
                        store.files,
                        e.store.files,
                        index,
                        bytes,
                        1,
                    );
                }
                Ok(())
            },
            Err(e) => {
                self.cache.clear();
                Err(e)
            },
        }
    }

    /// The cached rows from position `index` on move up with the rows of
    /// the file. Where the file cannot take the rows, or there are too many
    /// of them to move the cache by, the cache is dropped, unless the position
    /// was out of bounds.
    fn inserts(&mut self, index: usize, datas: &mut Vec<Row>) -> (r: Result<(), DbError>)
        ensures
            final(self).cached() == if index > row_count(old(self).image(), Row::width()) {
                old(self).cached()
            } else if r is Ok && old(datas)@.len() <= isize::MAX && old(datas)@.len() + row_count(
                old(self).image(),
                Row::width(),
            ) <= usize::MAX {
                shifted(old(self).cached(), index as int, old(datas)@.len() as int)
            } else {
                Map::<int, Row>::empty()
            },
    {
        let ghost image = self.bin.image();
        let ghost store = self.bin.side();
        let ghost before = self.cache@;
        let ghost models = models_of(datas@);
        proof {
            self.bin.lemma_wf();
        }
        let rows: usize = match self.bin.len() {
            Ok(rows) => rows,
            Err(e) => {
                return Err(e);
            },
        };
        if index > rows {
            return Err(DbError::OutOfBounds);
        }
        let n: usize = datas.len();
        let movable: bool = n <= isize::MAX as usize && n <= usize::MAX - rows;
        if movable {
            self.cache.move_cache(index, n as isize);
        } else {
            self.cache.clear();
        }
        match self.bin.inserts(index, datas) {
            Ok(_) => {
                proof {
                    if movable {
                        let e = encode_rows::<Row>(models, store);
                        lemma_encode_rows_width::<Row>(models, store);
                        if forall|i: int|
                            0 <= i < old(datas)@.len() ==> Row::side_ids(
                                #[trigger] old(datas)@[i].model(),
                            ).disjoint(store.files.dom()) {
                            assert forall|i: int| 0 <= i < models.len() implies Row::side_ids(
                                #[trigger] models[i],
                            ).disjoint(store.files.dom()) by {
                                assert(models[i] == old(datas)@[i].model());
                            }
                            lemma_encode_rows_frame::<Row>(models, store);
                        }
                        lemma_cache_after_insert::<Row>(
                            before,
                            image,
                            store.files,
                            e.store.files,
                            index,
                            e.result.unwrap(),
                            n as nat,
                        );
                    }
                }
                Ok(())
            },
            Err(e) => {
                self.cache.clear();
                Err(e)
            },
        }
    }

    /// The cache follows the file: the rows that went are forgotten and the
    /// rows after them move down into the gap. Where the removal failed
    /// after side files had gone, the whole cache is dropped; where it
    /// failed and nothing changed, the cache stays.
    fn remove(&mut self, index: usize, len: Option<usize>) -> (r: Result<(), DbError>)
        ensures
            final(self).cached() == if r is Ok {
                evicted(old(self).cached(), index, len)
            } else if final(self).side().files.dom().len() != old(self).side().files.dom().len() {
                Map::<int, Row>::empty()
            } else {
                old(self).cached()
            },
    {
        let ghost image = self.bin.image();
        let ghost store = self.bin.side();
        let ghost before = self.cache@;
        proof {
            self.bin.lemma_wf();
        }
        let files_before: usize = self.bin.nb_dyns();
        let outcome = self.bin.remove(index, len);
        proof {
            self.bin.lemma_wf();
            let w = Row::width();
            if image.len() % w == 0 && removal_count(image, w, index, len) >= 0 && index
                + removal_count(image, w, index, len) <= row_count(image, w) {
                let count = removal_count(image, w, index, len) as nat;
                match rows_from::<Row>(image, store.files, index as int, count) {
                    Ok(rows) => {
                        lemma_erase_rows_shrinks::<Row>(rows, store.files);
                    },
                    Err(e) => {},
                }
            }
        }
        match outcome {
            Ok(_) => {
                Self::evict(&mut self.cache, index, len);
                proof {
                    lemma_cache_after_remove::<Row>(before, image, store.files, index, len);
                    if old(self).faithful() && keep_their_files(
                        before,
                        index,
                        len,
                        self.bin.side().files,
                    ) {
                        lemma_evicted_rows(before, index, len);
                        lemma_cache_with_fewer_files(
                            self.cache@,
                            self.bin.image(),
                            store.files,
                            self.bin.side().files,
                        );
                    }
                }
                Ok(())
            },
            Err(e) => {
                let files_after: usize = self.bin.nb_dyns();
                if files_after != files_before {
                    self.cache.clear();
                } else {
                    proof {
                        lemma_same_files(store.files, self.bin.side().files);
                    }
                }
                Err(e)
            },
        }
    }

    /// The cache is dropped.
    fn clear(&mut self) -> (r: Result<(), DbError>)
        ensures
            final(self).cached() == Map::<int, Row>::empty(),
    {
        self.cache.clear();
        self.bin.clear()
    }
}

} // verus!
