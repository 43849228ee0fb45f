//! The sorted index: a search by bisection in a record file whose rows are
//! in the order of their keys.
//!
//! The search looks at the row in the middle of what is left and goes on in
//! the half where the key must be. When it meets a row with the key it
//! walks to both sides as far as the rows have that key and returns them
//! all, with the position of the first. When nothing is left it returns the
//! position where a row with the key would have to go.
use crate::bd_path::BDPath;
use crate::bin_file::{
    encode_rows, lemma_row_count, lemma_row_within, lemma_rows_from_each, models_of, row_at,
    row_count, rows_from, rows_range, BaseBinFile, BinFile, EncodedRows,
};
use crate::cached_bin_file::CachedBinFile;
use crate::binary::{error_of, Binary};
use crate::error::DbError;
use crate::index_laws::{
    compares_with_entries, index_sorted, kept_for, law_index_follows_insert,
    law_index_follows_remove, mirrors,
};
use crate::order::{rank_lawful, Order, Ranked};
use crate::plain::{
    all_exact, image_lawful, images, lemma_images_len, parse_lawful, parses, plain_lawful, stretch,
    Plain,
};
use crate::side_files::SideState;
use std::marker::PhantomData;
use vstd::prelude::*;
use vstd::string::StringExecFns;

verus! {

/// What a search in a sorted index found.
#[derive(Debug)]
pub enum IndexGet<Row> {
    /// The rows with the key, in the order of the file, and the position of
    /// the first of them.
    Found(usize, Vec<Row>),
    /// No row has the key; a row with it would go to this position.
    NotFound(usize),
    /// The rows or the key break a rule of the index; the text says which.
    InternalError(String),
    /// A row could not be read.
    Failed(DbError),
}

/// The text of the error for a row and a key that cannot be compared.
pub open spec fn incomparable_text() -> Seq<char> {
    "cmp error"@
}

/// How the rows of a record file are compared with a key.
///
/// The function of the model says what the comparison promises; a
/// comparison that leaves it as it is promises nothing.
pub trait Probe<Row: Binary, K: Ranked> {
    /// How a row stands to a key; `None` where the two cannot be compared.
    open spec fn verdict(row: Row::Model, key: K) -> Option<Order> {
        arbitrary()
    }

    /// Compares a row with a key.
    fn judge(row: &Row, key: &K) -> (o: Option<Order>)
        ensures
            o == Self::verdict(row.model(), *key),
    ;
}

/// How the row at position `i` stands to the key; `None` where the row
/// cannot be read or cannot be compared.
pub open spec fn verdict_at<Row: Binary, K: Ranked, P: Probe<Row, K>>(
    image: Seq<u8>,
    files: Map<u64, Seq<u8>>,
    i: int,
    key: K,
) -> Option<Order> {
    match row_at::<Row>(image, files, i) {
        Ok(m) => P::verdict(m, key),
        Err(_) => None,
    }
}

/// The place of a comparison in the order of a sorted file: rows before the
/// key come first, then rows with the key, then rows after it.
pub open spec fn level(v: Option<Order>) -> int {
    match v {
        Some(Order::Less) => 0,
        Some(Order::Equal) => 1,
        Some(Order::Greater) => 2,
        None => 3,
    }
}

/// Whether the file is in order for the key: every row can be read and
/// compared, the rows before the key come first, then the rows with the key,
/// then the rows after it.
pub open spec fn ordered_for<Row: Binary, K: Ranked, P: Probe<Row, K>>(
    image: Seq<u8>,
    files: Map<u64, Seq<u8>>,
    key: K,
) -> bool {
    &&& forall|i: int|
        0 <= i < row_count(image, Row::width()) ==> #[trigger] level(
            verdict_at::<Row, K, P>(image, files, i, key),
        ) < 3
    &&& forall|i: int, j: int|
        0 <= i <= j < row_count(image, Row::width()) ==> #[trigger] level(
            verdict_at::<Row, K, P>(image, files, i, key),
        ) <= #[trigger] level(verdict_at::<Row, K, P>(image, files, j, key))
}

/// Whether all rows from position `lo` up to, not including, `hi` stand
/// to the key at level `l`.
pub open spec fn all_at<Row: Binary, K: Ranked, P: Probe<Row, K>>(
    image: Seq<u8>,
    files: Map<u64, Seq<u8>>,
    key: K,
    lo: int,
    hi: int,
    l: int,
) -> bool {
    forall|i: int|
        lo <= i < hi ==> #[trigger] level(verdict_at::<Row, K, P>(image, files, i, key)) == l
}

/// Whether `rows` are the rows of the file from position `start` on.
pub open spec fn run_matches<Row: Binary>(
    image: Seq<u8>,
    files: Map<u64, Seq<u8>>,
    start: int,
    rows: Seq<Row>,
) -> bool {
    forall|i: int|
        0 <= i < rows.len() ==> #[trigger] row_at::<Row>(image, files, start + i) == Ok::<
            Row::Model,
            DbError,
        >(rows[i].model())
}

/// Whether a search result is the right one for a file that is in order
/// for the key: all rows with the key and the position of the first, or, if
/// there is none, the number of rows before the key.
pub open spec fn found_right<Row: Binary, K: Ranked, P: Probe<Row, K>>(
    image: Seq<u8>,
    files: Map<u64, Seq<u8>>,
    key: K,
    r: IndexGet<Row>,
) -> bool {
    let n = row_count(image, Row::width()) as int;
    match r {
        IndexGet::Found(start, rows) => {
            &&& rows@.len() > 0
            &&& start + rows@.len() <= n
            &&& all_at::<Row, K, P>(image, files, key, 0, start as int, 0)
            &&& all_at::<Row, K, P>(image, files, key, start as int, start + rows@.len(), 1)
            &&& all_at::<Row, K, P>(image, files, key, start + rows@.len(), n, 2)
            &&& run_matches(image, files, start as int, rows@)
        },
        IndexGet::NotFound(at) => {
            &&& at <= n
            &&& all_at::<Row, K, P>(image, files, key, 0, at as int, 0)
            &&& all_at::<Row, K, P>(image, files, key, at as int, n, 2)
        },
        IndexGet::InternalError(_) => false,
        IndexGet::Failed(_) => false,
    }
}

/// Whether a search result is one that the file can give, whatever the
/// order of its rows: rows that were found have the key, an error of
/// reading is the error of a row, and an error of comparing comes from a
/// row that cannot be compared with the key.
pub open spec fn found_sound<Row: Binary, K: Ranked, P: Probe<Row, K>>(
    image: Seq<u8>,
    files: Map<u64, Seq<u8>>,
    key: K,
    r: IndexGet<Row>,
) -> bool {
    let n = row_count(image, Row::width()) as int;
    match r {
        IndexGet::Found(start, rows) => {
            &&& rows@.len() > 0
            &&& start + rows@.len() <= n
            &&& all_at::<Row, K, P>(image, files, key, start as int, start + rows@.len(), 1)
            &&& run_matches(image, files, start as int, rows@)
        },
        IndexGet::NotFound(at) => at <= n,
        IndexGet::InternalError(text) => text@ == incomparable_text() && exists|i: int|
            0 <= i < n && #[trigger] level(verdict_at::<Row, K, P>(image, files, i, key)) == 3
                && row_at::<Row>(image, files, i) is Ok,
        IndexGet::Failed(e) => exists|i: int|
            0 <= i < n && #[trigger] row_at::<Row>(image, files, i) == Err::<Row::Model, DbError>(
                e,
            ),
    }
}

/// Why a walk along the rows with the key stopped early.
enum Stop {
    /// A row could not be read.
    Unread(DbError),
}

/// The sorted index over a record file `F` of rows `Row`, searched by keys
/// `K` that `P` compares with the rows.
pub struct IdAsIndexFile<K: Ranked, Row: Binary, F: BaseBinFile<Row>, P: Probe<Row, K>> {
    row: PhantomData<(K, Row, F, P)>,
}

impl<K: Ranked, Row: Binary, F: BaseBinFile<Row>, P: Probe<Row, K>> IdAsIndexFile<K, Row, F, P> {
    /// The index.
    pub fn new() -> (r: Result<Self, DbError>)
        ensures
            r is Ok,
    {
        Ok(Self { row: PhantomData })
    }

    /// Searches the file for the rows with the key `find`.
    pub fn indx(&self, bin: &mut F, find: &K) -> (r: IndexGet<Row>)
        requires
            old(bin).wf(),
        ensures
            final(bin).wf(),
            final(bin).image() == old(bin).image(),
            final(bin).side() == old(bin).side(),
            final(bin).place() == old(bin).place(),
            final(bin).faithful() == old(bin).faithful(),
            old(bin).remembered().submap_of(final(bin).remembered()),
            old(bin).faithful() ==> found_sound::<Row, K, P>(
                old(bin).image(),
                old(bin).side().files,
                *find,
                r,
            ),
            old(bin).faithful() && ordered_for::<Row, K, P>(
                old(bin).image(),
                old(bin).side().files,
                *find,
            ) ==> found_right::<Row, K, P>(old(bin).image(), old(bin).side().files, *find, r),
    {
        match bin.len() {
            Ok(len) => {
                if len == 0 {
                    IndexGet::NotFound(0)
                } else {
                    self.bin_search(bin, 0, len - 1, find)
                }
            },
            Err(e) => {
                proof {
                    assert(false);
                }
                IndexGet::Failed(e)
            },
        }
    }

    /// Reads the row at position `idx`, which the file has, and compares it
    /// with the key.
    fn look(bin: &mut F, idx: usize, find: &K) -> (r: Result<Option<Order>, DbError>)
        requires
            old(bin).wf(),
            idx < row_count(old(bin).image(), Row::width()),
        ensures
            final(bin).wf(),
            final(bin).image() == old(bin).image(),
            final(bin).side() == old(bin).side(),
            final(bin).place() == old(bin).place(),
            final(bin).faithful() == old(bin).faithful(),
            old(bin).remembered().submap_of(final(bin).remembered()),
            old(bin).faithful() ==> match r {
                Ok(o) => row_at::<Row>(old(bin).image(), old(bin).side().files, idx as int) is Ok
                    && o == verdict_at::<Row, K, P>(
                    old(bin).image(),
                    old(bin).side().files,
                    idx as int,
                    *find,
                ),
                Err(e) => row_at::<Row>(old(bin).image(), old(bin).side().files, idx as int)
                    == Err::<Row::Model, DbError>(e),
            },
    {
        match bin.get(idx) {
            Ok(row) => Ok(P::judge(&row, find)),
            Err(e) => Err(e),
        }
    }

    /// Bisects the rows from position `from` to position `to`.
    fn bin_search(&self, bin: &mut F, from: usize, to: usize, find: &K) -> (r: IndexGet<Row>)
        requires
            old(bin).wf(),
            from == 0,
            to + 1 == row_count(old(bin).image(), Row::width()),
        ensures
            final(bin).wf(),
            final(bin).image() == old(bin).image(),
            final(bin).side() == old(bin).side(),
            final(bin).place() == old(bin).place(),
            final(bin).faithful() == old(bin).faithful(),
            old(bin).remembered().submap_of(final(bin).remembered()),
            old(bin).faithful() ==> found_sound::<Row, K, P>(
                old(bin).image(),
                old(bin).side().files,
                *find,
                r,
            ),
            old(bin).faithful() && ordered_for::<Row, K, P>(
                old(bin).image(),
                old(bin).side().files,
                *find,
            ) ==> found_right::<Row, K, P>(old(bin).image(), old(bin).side().files, *find, r),
    {
        let ghost image = bin.image();
        let ghost files = bin.side().files;
        let ghost n = row_count(image, Row::width()) as int;
        let ghost right = old(bin).faithful() && ordered_for::<Row, K, P>(image, files, *find);
        let mut from: usize = from;
        let mut to: usize = to;
        proof {
            bin.lemma_wf();
        }
        loop
            invariant
                bin.wf(),
                n <= usize::MAX,
                bin.image() == image,
                bin.side() == old(bin).side(),
                bin.side().files == files,
                bin.place() == old(bin).place(),
                bin.faithful() == old(bin).faithful(),
                old(bin).remembered().submap_of(bin.remembered()),
                image == old(bin).image(),
                files == old(bin).side().files,
                n == row_count(image, Row::width()),
                right == (old(bin).faithful() && ordered_for::<Row, K, P>(image, files, *find)),
                from <= to < n,
                right ==> all_at::<Row, K, P>(image, files, *find, 0, from as int, 0),
                right ==> all_at::<Row, K, P>(image, files, *find, to + 1, n, 2),
            decreases to - from,
        {
            broadcast use vstd::map_lib::lemma_submap_of_trans;

            let idx: usize = (to - from) / 2 + from;
            let seen = match Self::look(bin, idx, find) {
                Ok(seen) => seen,
                Err(e) => {
                    proof {
                        if old(bin).faithful() {
                            assert(row_at::<Row>(image, files, idx as int) is Err);
                            if right {
                                assert(level(verdict_at::<Row, K, P>(image, files, idx as int, *find))
                                    < 3);
                            }
                        }
                    }
                    return IndexGet::Failed(e);
                },
            };
            proof {
                if right {
                    assert(level(verdict_at::<Row, K, P>(image, files, idx as int, *find)) < 3);
                }
            }
            match seen {
                Some(Order::Equal) => {
                    return self.gather(bin, idx, find);
                },
                Some(Order::Greater) => {
                    proof {
                        if right {
                            assert forall|i: int| idx <= i < n implies #[trigger] level(
                                verdict_at::<Row, K, P>(image, files, i, *find),
                            ) == 2 by {
                                assert(level(verdict_at::<Row, K, P>(image, files, idx as int, *find))
                                    <= level(verdict_at::<Row, K, P>(image, files, i, *find)));
                            }
                        }
                    }
                    if idx == from {
                        return IndexGet::NotFound(idx);
                    }
                    to = idx - 1;
                },
                Some(Order::Less) => {
                    proof {
                        if right {
                            assert forall|i: int| 0 <= i < idx + 1 implies #[trigger] level(
                                verdict_at::<Row, K, P>(image, files, i, *find),
                            ) == 0 by {
                                assert(level(verdict_at::<Row, K, P>(image, files, i, *find))
                                    <= level(
                                    verdict_at::<Row, K, P>(image, files, idx as int, *find),
                                ));
                            }
                        }
                    }
                    if idx == to {
                        return IndexGet::NotFound(idx + 1);
                    }
                    from = idx + 1;
                },
                None => {
                    proof {
                        reveal_strlit("cmp error");
                        if old(bin).faithful() {
                            assert(level(verdict_at::<Row, K, P>(image, files, idx as int, *find))
                                == 3);
                        }
                    }
                    return IndexGet::InternalError(String::from_str("cmp error"));
                },
            }
        }
    }

    /// Gathers the rows with the key around position `idx`, whose row has
    /// the key.
    fn gather(&self, bin: &mut F, idx: usize, find: &K) -> (r: IndexGet<Row>)
        requires
            old(bin).wf(),
            idx < row_count(old(bin).image(), Row::width()),
            old(bin).faithful() ==> verdict_at::<Row, K, P>(
                old(bin).image(),
                old(bin).side().files,
                idx as int,
                *find,
            ) == Some(Order::Equal),
        ensures
            final(bin).wf(),
            final(bin).image() == old(bin).image(),
            final(bin).side() == old(bin).side(),
            final(bin).place() == old(bin).place(),
            final(bin).faithful() == old(bin).faithful(),
            old(bin).remembered().submap_of(final(bin).remembered()),
            old(bin).faithful() ==> found_sound::<Row, K, P>(
                old(bin).image(),
                old(bin).side().files,
                *find,
                r,
            ),
            old(bin).faithful() && ordered_for::<Row, K, P>(
                old(bin).image(),
                old(bin).side().files,
                *find,
            ) ==> found_right::<Row, K, P>(old(bin).image(), old(bin).side().files, *find, r),
    {
        broadcast use vstd::map_lib::lemma_submap_of_trans;

        let ghost image = bin.image();
        let ghost files = bin.side().files;
        let ghost n = row_count(image, Row::width()) as int;
        let start: usize = match self.expand_min(bin, idx, find) {
            Ok(start) => start,
            Err(Stop::Unread(e)) => {
                proof {
                    if old(bin).faithful() {
                        lemma_unread::<Row, K, P>(image, files, *find, e);
                    }
                }
                return IndexGet::Failed(e);
            },
        };
        let end: usize = match self.expand_max(bin, idx, find) {
            Ok(end) => end,
            Err(Stop::Unread(e)) => {
                proof {
                    if old(bin).faithful() {
                        lemma_unread::<Row, K, P>(image, files, *find, e);
                    }
                }
                return IndexGet::Failed(e);
            },
        };
        proof {
            bin.lemma_wf();
            lemma_row_count(image, Row::width());
            assert((end + 1) * Row::width() <= n * Row::width()) by (nonlinear_arith)
                requires
                    end + 1 <= n,
                    Row::width() > 0,
            ;
        }
        match bin.gets(start, Some(end - start + 1)) {
            Ok(rows) => {
                proof {
                    if old(bin).faithful() {
                        lemma_rows_from_each::<Row>(
                            image,
                            files,
                            start as int,
                            (end - start + 1) as nat,
                        );
                        assert forall|i: int| 0 <= i < rows@.len() implies #[trigger] row_at::<Row>(
                            image,
                            files,
                            start + i,
                        ) == Ok::<Row::Model, DbError>(rows@[i].model()) by {
                            lemma_row_within(image, Row::width(), start + i);
                            assert(crate::bin_file::models_of(rows@)[i] == rows@[i].model());
                            assert(Row::decode(
                                crate::plain::stretch(image, Row::width(), start + i),
                                files,
                            ) == Ok::<Row::Model, DbError>(
                                rows_from::<Row>(
                                    image,
                                    files,
                                    start as int,
                                    (end - start + 1) as nat,
                                ).unwrap()[i],
                            ));
                        }
                        assert(rows@.len() == end - start + 1) by {
                            assert(crate::bin_file::models_of(rows@).len() == rows@.len());
                        }
                        assert(all_at::<Row, K, P>(image, files, *find, start as int, end + 1, 1));
                        if ordered_for::<Row, K, P>(image, files, *find) {
                            assert forall|i: int| 0 <= i < start implies #[trigger] level(
                                verdict_at::<Row, K, P>(image, files, i, *find),
                            ) == 0 by {
                                assert(level(verdict_at::<Row, K, P>(image, files, i, *find))
                                    <= level(
                                    verdict_at::<Row, K, P>(image, files, start - 1, *find),
                                ));
                                assert(level(verdict_at::<Row, K, P>(image, files, start - 1, *find))
                                    <= level(
                                    verdict_at::<Row, K, P>(image, files, start as int, *find),
                                ));
                            }
                            assert forall|i: int| end + 1 <= i < n implies #[trigger] level(
                                verdict_at::<Row, K, P>(image, files, i, *find),
                            ) == 2 by {
                                assert(level(verdict_at::<Row, K, P>(image, files, end + 1, *find))
                                    <= level(verdict_at::<Row, K, P>(image, files, i, *find)));
                                assert(level(verdict_at::<Row, K, P>(image, files, end as int, *find))
                                    <= level(
                                    verdict_at::<Row, K, P>(image, files, end + 1, *find),
                                ));
                                assert(level(verdict_at::<Row, K, P>(image, files, i, *find)) < 3);
                            }
                        }
                    }
                }
                IndexGet::Found(start, rows)
            },
            Err(e) => {
                proof {
                    if old(bin).faithful() {
                        lemma_rows_from_culprit::<Row>(
                            image,
                            files,
                            start as int,
                            (end - start + 1) as nat,
                        );
                        lemma_unread::<Row, K, P>(image, files, *find, e);
                    }
                }
                IndexGet::Failed(e)
            },
        }
    }

    /// Walks from position `idx` towards the start of the file as far as
    /// the rows have the key; returns the position of the first of them.
    fn expand_min(&self, bin: &mut F, idx: usize, find: &K) -> (r: Result<usize, Stop>)
        requires
            old(bin).wf(),
            idx < row_count(old(bin).image(), Row::width()),
            old(bin).faithful() ==> verdict_at::<Row, K, P>(
                old(bin).image(),
                old(bin).side().files,
                idx as int,
                *find,
            ) == Some(Order::Equal),
        ensures
            final(bin).wf(),
            final(bin).image() == old(bin).image(),
            final(bin).side() == old(bin).side(),
            final(bin).place() == old(bin).place(),
            final(bin).faithful() == old(bin).faithful(),
            old(bin).remembered().submap_of(final(bin).remembered()),
            old(bin).faithful() ==> match r {
                Ok(start) => {
                    &&& start <= idx
                    &&& all_at::<Row, K, P>(
                        old(bin).image(),
                        old(bin).side().files,
                        *find,
                        start as int,
                        idx + 1,
                        1,
                    )
                    &&& start > 0 ==> level(
                        verdict_at::<Row, K, P>(
                            old(bin).image(),
                            old(bin).side().files,
                            start - 1,
                            *find,
                        ),
                    ) != 1
                },
                Err(Stop::Unread(e)) => exists|i: int|
                    0 <= i < row_count(old(bin).image(), Row::width()) && #[trigger] row_at::<Row>(
                        old(bin).image(),
                        old(bin).side().files,
                        i,
                    ) == Err::<Row::Model, DbError>(e),
            },
            !old(bin).faithful() ==> r is Ok ==> r->Ok_0 <= idx,
    {
        let ghost image = bin.image();
        let ghost files = bin.side().files;
        let mut at: usize = idx;
        while at > 0
            invariant
                bin.wf(),
                bin.image() == image,
                bin.side() == old(bin).side(),
                bin.side().files == files,
                bin.place() == old(bin).place(),
                bin.faithful() == old(bin).faithful(),
                old(bin).remembered().submap_of(bin.remembered()),
                image == old(bin).image(),
                files == old(bin).side().files,
                at <= idx < row_count(image, Row::width()),
                old(bin).faithful() ==> all_at::<Row, K, P>(image, files, *find, at as int, idx + 1, 1),
            decreases at,
        {
            broadcast use vstd::map_lib::lemma_submap_of_trans;

            match Self::look(bin, at - 1, find) {
                Ok(seen) => {
                    match seen {
                        Some(Order::Equal) => {},
                        _ => {
                            return Ok(at);
                        },
                    }
                },
                Err(e) => {
                    return Err(Stop::Unread(e));
                },
            }
            at = at - 1;
        }
        Ok(at)
    }

    /// Walks from position `idx` towards the end of the file as far as the
    /// rows have the key; returns the position of the last of them.
    fn expand_max(&self, bin: &mut F, idx: usize, find: &K) -> (r: Result<usize, Stop>)
        requires
            old(bin).wf(),
            idx < row_count(old(bin).image(), Row::width()),
            old(bin).faithful() ==> verdict_at::<Row, K, P>(
                old(bin).image(),
                old(bin).side().files,
                idx as int,
                *find,
            ) == Some(Order::Equal),
        ensures
            final(bin).wf(),
            final(bin).image() == old(bin).image(),
            final(bin).side() == old(bin).side(),
            final(bin).place() == old(bin).place(),
            final(bin).faithful() == old(bin).faithful(),
            old(bin).remembered().submap_of(final(bin).remembered()),
            r is Ok ==> idx <= r->Ok_0 < row_count(old(bin).image(), Row::width()),
            old(bin).faithful() ==> match r {
                Ok(end) => {
                    &&& all_at::<Row, K, P>(
                        old(bin).image(),
                        old(bin).side().files,
                        *find,
                        idx as int,
                        end + 1,
                        1,
                    )
                    &&& end + 1 < row_count(old(bin).image(), Row::width()) ==> level(
                        verdict_at::<Row, K, P>(
                            old(bin).image(),
                            old(bin).side().files,
                            end + 1,
                            *find,
                        ),
                    ) != 1
                },
                Err(Stop::Unread(e)) => exists|i: int|
                    0 <= i < row_count(old(bin).image(), Row::width()) && #[trigger] row_at::<Row>(
                        old(bin).image(),
                        old(bin).side().files,
                        i,
                    ) == Err::<Row::Model, DbError>(e),
            },
    {
        broadcast use vstd::map_lib::lemma_submap_of_trans;

        let ghost image = bin.image();
        let ghost files = bin.side().files;
        let max: usize = match bin.len() {
            Ok(max) => max,
            Err(e) => {
                return Err(Stop::Unread(e));
            },
        };
        let mut at: usize = idx;
        while at + 1 < max
            invariant
                bin.wf(),
                bin.image() == image,
                bin.side() == old(bin).side(),
                bin.side().files == files,
                bin.place() == old(bin).place(),
                bin.faithful() == old(bin).faithful(),
                old(bin).remembered().submap_of(bin.remembered()),
                image == old(bin).image(),
                files == old(bin).side().files,
                max == row_count(image, Row::width()),
                idx <= at < max,
                old(bin).faithful() ==> all_at::<Row, K, P>(image, files, *find, idx as int, at + 1, 1),
            decreases max - at,
        {
            broadcast use vstd::map_lib::lemma_submap_of_trans;

            match Self::look(bin, at + 1, find) {
                Ok(seen) => {
                    match seen {
                        Some(Order::Equal) => {},
                        _ => {
                            return Ok(at);
                        },
                    }
                },
                Err(e) => {
                    return Err(Stop::Unread(e));
                },
            }
            at = at + 1;
        }
        Ok(at)
    }
}

/// A file with a row that cannot be read is not in order for any key.
pub proof fn lemma_unread<Row: Binary, K: Ranked, P: Probe<Row, K>>(
    image: Seq<u8>,
    files: Map<u64, Seq<u8>>,
    key: K,
    e: DbError,
)
    requires
        exists|i: int|
            0 <= i < row_count(image, Row::width()) && #[trigger] row_at::<Row>(image, files, i)
                == Err::<Row::Model, DbError>(e),
    ensures
        !ordered_for::<Row, K, P>(image, files, key),
{
    let i = choose|i: int|
        0 <= i < row_count(image, Row::width()) && #[trigger] row_at::<Row>(image, files, i)
            == Err::<Row::Model, DbError>(e);
    assert(level(verdict_at::<Row, K, P>(image, files, i, key)) == 3);
}

/// When rows cannot be read together, one of them cannot be read.
pub proof fn lemma_rows_from_culprit<Row: Binary>(
    image: Seq<u8>,
    files: Map<u64, Seq<u8>>,
    from: int,
    count: nat,
)
    requires
        Row::width() > 0,
        0 <= from,
        from + count <= row_count(image, Row::width()),
        rows_from::<Row>(image, files, from, count) is Err,
    ensures
        exists|i: int|
            0 <= i < row_count(image, Row::width()) && #[trigger] row_at::<Row>(image, files, i)
                == Err::<Row::Model, DbError>(
                rows_from::<Row>(image, files, from, count)->Err_0,
            ),
    decreases count,
{
    if count > 0 {
        if rows_from::<Row>(image, files, from, (count - 1) as nat) is Err {
            lemma_rows_from_culprit::<Row>(image, files, from, (count - 1) as nat);
        } else {
            let i = from + count - 1;
            lemma_row_within(image, Row::width(), i);
            assert(row_at::<Row>(image, files, i) == Err::<Row::Model, DbError>(
                rows_from::<Row>(image, files, from, count)->Err_0,
            ));
        }
    }
}

/// An entry of a secondary index: the value of the indexed column of a
/// row, and the position of the row in the main file.
#[derive(Debug)]
pub struct IndexRow<ColType: Ranked> {
    pub data: ColType,
    pub index: usize,
}

impl<ColType: Ranked> Clone for IndexRow<ColType> {
    fn clone(&self) -> (twin: Self)
        ensures
            twin == *self,
    {
        IndexRow { data: self.data, index: self.index }
    }
}

impl<ColType: Ranked> Copy for IndexRow<ColType> {

}

impl<ColType: Ranked> Plain for IndexRow<ColType> {
    open spec fn plain_width() -> nat {
        ColType::plain_width() + 8
    }

    /// The image of the value, then the position, eight bytes.
    open spec fn image(&self) -> Seq<u8> {
        self.data.image() + self.index.image()
    }

    open spec fn parse(data: Seq<u8>) -> Self {
        IndexRow {
            data: ColType::parse(data.subrange(0, ColType::plain_width() as int)),
            index: usize::parse(
                data.subrange(ColType::plain_width() as int, (ColType::plain_width() + 8) as int),
            ),
        }
    }

    open spec fn exact(&self) -> bool {
        self.data.exact()
    }

    fn plain_size() -> (n: usize) {
        ColType::plain_size() + 8
    }

    fn room(size: usize) -> (b: bool) {
        if ColType::room(size) {
            8 <= size - ColType::plain_size()
        } else {
            false
        }
    }

    fn to_image(&self) -> (out: Vec<u8>) {
        let mut out = self.data.to_image();
        let mut rest = self.index.to_image();
        out.append(&mut rest);
        out
    }

    fn from_image(data: &[u8]) -> (v: Self) {
        let size: usize = data.len();
        let w: usize = ColType::plain_size();
        let value = ColType::from_image(data);
        let rest = vstd::slice::slice_subrange(data, w, w + 8);
        let index = usize::from_image(rest);
        proof {
            let whole = data@.subrange(0, Self::plain_width() as int);
            assert(data@.subrange(0, w as int) =~= whole.subrange(0, w as int));
            assert(rest@.subrange(0, 8) =~= whole.subrange(w as int, w + 8));
        }
        IndexRow { data: value, index }
    }
}

/// The promises of a plain field hold of an index entry with a lawful
/// value.
pub proof fn lemma_plain_index_row<ColType: Ranked>()
    requires
        plain_lawful::<ColType>(),
    ensures
        plain_lawful::<IndexRow<ColType>>(),
{
    crate::plain::lemma_plain_usize();
    assert forall|v: IndexRow<ColType>| #[trigger] image_lawful(v) by {
        assert(image_lawful(v.data));
        assert(image_lawful(v.index));
        let w = ColType::plain_width() as int;
        assert(v.image().subrange(0, w) =~= v.data.image());
        assert(v.image().subrange(w, w + 8) =~= v.index.image());
    }
    assert forall|data: Seq<u8>| #[trigger] parse_lawful::<IndexRow<ColType>>(data) by {
        if data.len() == ColType::plain_width() + 8 {
            assert(parse_lawful::<ColType>(data.subrange(0, ColType::plain_width() as int)));
        }
    }
}

/// The comparison of an index entry with a key: by the value of the entry.
pub struct ByData;

impl<ColType: Ranked> Probe<IndexRow<ColType>, ColType> for ByData {
    open spec fn verdict(row: IndexRow<ColType>, key: ColType) -> Option<Order> {
        ColType::rank(row.data, key)
    }

    fn judge(row: &IndexRow<ColType>, key: &ColType) -> (o: Option<Order>) {
        row.data.compare(key)
    }
}

/// A column of a row that an index is kept for.
///
/// The function of the model says what the column promises; a column that
/// leaves it as it is promises nothing.
pub trait Column<Row: Binary> {
    /// The type of the values of the column.
    type Key: Ranked;

    /// The value of the column in a row.
    open spec fn project(m: Row::Model) -> Self::Key {
        arbitrary()
    }

    /// The value of the column in a row.
    fn extract(row: &Row) -> (key: &Self::Key)
        ensures
            *key == Self::project(row.model()),
    ;
}

/// The entries after a row was put into the main file at `position`: the
/// entries of the rows from there on point one further.
pub open spec fn bumped<K: Ranked>(entries: Seq<IndexRow<K>>, position: usize) -> Seq<IndexRow<K>> {
    Seq::new(
        entries.len(),
        |i: int|
            if entries[i].index < position {
                entries[i]
            } else {
                IndexRow { data: entries[i].data, index: (entries[i].index + 1) as usize }
            },
    )
}

/// Whether an entry comes after the entry with `key` for the row at
/// `position`: its value is after the key, or equal to it with a position
/// further on.
pub open spec fn comes_after<K: Ranked>(entry: IndexRow<K>, key: K, position: usize) -> bool {
    K::rank(entry.data, key) == Some(Order::Greater) || (K::rank(entry.data, key) == Some(
        Order::Equal,
    ) && entry.index > position)
}

/// The place for the entry with `key` for the row at `position`: before
/// the first entry that comes after it.
pub open spec fn slot<K: Ranked>(entries: Seq<IndexRow<K>>, key: K, position: usize) -> int
    decreases entries.len(),
{
    if entries.len() == 0 {
        0
    } else if comes_after(entries[0], key, position) {
        0
    } else {
        1 + slot(entries.drop_first(), key, position)
    }
}

/// The entries after the row at `position` was taken out of the main
/// file: its entry is gone, and the entries of the rows after it point one
/// back.
pub open spec fn lowered<K: Ranked>(entries: Seq<IndexRow<K>>, position: usize) -> Seq<IndexRow<K>>
    decreases entries.len(),
{
    if entries.len() == 0 {
        Seq::empty()
    } else {
        let front = lowered(entries.drop_last(), position);
        let e = entries.last();
        if e.index < position {
            front.push(e)
        } else if e.index == position {
            front
        } else {
            front.push(IndexRow { data: e.data, index: (e.index - 1) as usize })
        }
    }
}

/// Whether an entry stands in the way of a new row with `key` in a column
/// whose values must differ: its value is the key, or cannot be compared
/// with it.
pub open spec fn clashes<K: Ranked>(entry: IndexRow<K>, key: K) -> bool {
    K::rank(entry.data, key) == Some(Order::Equal) || K::rank(entry.data, key) is None
}

/// What a table asks of the index of one of its columns, or of all its
/// indexes together.
pub trait UnspecifiedIndex<Row: Binary>: Sized {
    /// What an index holds.
    type Held;

    /// The index is in order.
    spec fn wf(&self) -> bool;

    /// What the index holds.
    spec fn held(&self) -> Self::Held;

    /// Whether a row can be put into the table without breaking a rule on
    /// the values of the column: `None` if it cannot.
    spec fn allows(held: Self::Held, m: Row::Model) -> Result<Option<()>, DbError>;

    /// What the index holds after a row was put into the main file at
    /// position `index`, and the error if the index could not follow.
    spec fn with_row(held: Self::Held, index: usize, m: Row::Model) -> (Option<DbError>, Self::Held);

    /// What the index holds after the row at position `index` was taken
    /// out of the main file, and the error if the index could not follow.
    spec fn without_row(held: Self::Held, index: usize) -> (Option<DbError>, Self::Held);

    /// What the index holds after all rows were taken out.
    spec fn emptied(held: Self::Held) -> (Option<DbError>, Self::Held);

    /// Whether the index remembers no row of its file: each read goes to
    /// the file.
    spec fn nothing_cached(&self) -> bool;

    /// Tells whether `row` can be put into the table without breaking a
    /// rule on the values of the column: `None` if it cannot.
    fn check_unique(&mut self, row: &Row) -> (r: Result<Option<()>, DbError>)
        requires
            old(self).wf(),
        ensures
            final(self).wf(),
            final(self).held() == old(self).held(),
            r == Self::allows(old(self).held(), row.model()),
    ;

    /// Follows the main file after `row` was put in at position `index`.
    fn insert(&mut self, index: usize, row: &Row) -> (r: Result<(), DbError>)
        requires
            old(self).wf(),
        ensures
            final(self).wf(),
            error_of(r) == Self::with_row(old(self).held(), index, row.model()).0,
            final(self).held() == Self::with_row(old(self).held(), index, row.model()).1,
    ;

    /// Follows the main file after the row at position `index` was taken
    /// out.
    fn remove(&mut self, index: usize) -> (r: Result<(), DbError>)
        requires
            old(self).wf(),
        ensures
            final(self).wf(),
            error_of(r) == Self::without_row(old(self).held(), index).0,
            final(self).held() == Self::without_row(old(self).held(), index).1,
    ;

    /// Forgets all rows.
    fn clear(&mut self) -> (r: Result<(), DbError>)
        requires
            old(self).wf(),
        ensures
            final(self).wf(),
            error_of(r) == Self::emptied(old(self).held()).0,
            final(self).held() == Self::emptied(old(self).held()).1,
    ;

    /// Drops what the index has cached of its file. What it holds stays.
    fn clear_cache(&mut self)
        requires
            old(self).wf(),
        ensures
            final(self).wf(),
            final(self).held() == old(self).held(),
            final(self).nothing_cached(),
    ;
}

/// What the index of one column holds: its entries, or the error that
/// reading them gives, and whether the values of the column must differ from
/// row to row.
pub struct ColumnHeld<K: Ranked> {
    pub entries: Result<Seq<IndexRow<K>>, DbError>,
    pub unique: bool,
}

/// Why the entries cannot follow a new row with `key`: the first entry that
/// points to the last position that can be, or that cannot be compared with
/// the key.
pub open spec fn first_fault<K: Ranked>(entries: Seq<IndexRow<K>>, key: K) -> Option<DbError>
    decreases entries.len(),
{
    if entries.len() == 0 {
        None
    } else if entries[0].index == usize::MAX {
        Some(DbError::ConsistencyViolation)
    } else if K::rank(entries[0].data, key) is None {
        Some(DbError::ComparatorFailure)
    } else {
        first_fault(entries.drop_first(), key)
    }
}

/// What `check_unique` answers for the index of one column.
pub open spec fn column_allows<K: Ranked>(held: ColumnHeld<K>, key: K) -> Result<Option<()>, DbError> {
    if !held.unique {
        Ok(Some(()))
    } else {
        match held.entries {
            Ok(entries) => Ok(
                if exists|i: int| 0 <= i < entries.len() && clashes(#[trigger] entries[i], key) {
                    None
                } else {
                    Some(())
                },
            ),
            Err(e) => Err(e),
        }
    }
}

/// What the index of one column holds after a row with `key` was put into
/// the main file at position `index`.
pub open spec fn column_with_row<K: Ranked>(held: ColumnHeld<K>, index: usize, key: K) -> (
    Option<DbError>,
    ColumnHeld<K>,
) {
    match held.entries {
        Err(e) => (Some(e), held),
        Ok(entries) => match first_fault(entries, key) {
            Some(e) => (Some(e), held),
            None => (
                None,
                ColumnHeld {
                    entries: Ok(
                        stored(
                            bumped(entries, index).insert(
                                slot(bumped(entries, index), key, index),
                                IndexRow { data: key, index },
                            ),
                        ),
                    ),
                    unique: held.unique,
                },
            ),
        },
    }
}

/// What the index of one column holds after the row at position `index`
/// was taken out of the main file.
pub open spec fn column_without_row<K: Ranked>(held: ColumnHeld<K>, index: usize) -> (
    Option<DbError>,
    ColumnHeld<K>,
) {
    match held.entries {
        Err(e) => (Some(e), held),
        Ok(entries) => (
            None,
            ColumnHeld { entries: Ok(stored(lowered(entries, index))), unique: held.unique },
        ),
    }
}

/// The index of one column: a file of entries in the order of their
/// values, and among equal values in the order of the positions.
pub struct SpecificIndexFile<Col: Column<Row>, Row: Binary, F: BaseBinFile<IndexRow<Col::Key>>> {
    bin: F,
    index: IdAsIndexFile<Col::Key, IndexRow<Col::Key>, F, ByData>,
    check_unique: bool,
    row: PhantomData<(Col, Row)>,
}

/// The index of a column whose file is read from its image each time.
pub type IndexFile<Col, Row> = SpecificIndexFile<
    Col,
    Row,
    BinFile<IndexRow<<Col as Column<Row>>::Key>>,
>;

/// The index of a column whose file remembers entries it has read.
pub type CachedIndexFile<Col, Row> = SpecificIndexFile<
    Col,
    Row,
    CachedBinFile<IndexRow<<Col as Column<Row>>::Key>>,
>;

impl<Col: Column<Row>, Row: Binary, F: BaseBinFile<IndexRow<Col::Key>>> SpecificIndexFile<
    Col,
    Row,
    F,
> {
    /// The file of the entries.
    pub closed spec fn file(&self) -> F {
        self.bin
    }

    /// Whether the values of the column must differ from row to row.
    pub closed spec fn unique(&self) -> bool {
        self.check_unique
    }

    /// The file of the entries is in order and knows its rows, and the
    /// values of the column are lawful plain fields.
    pub closed spec fn wf(&self) -> bool {
        &&& self.bin.wf()
        &&& self.bin.faithful()
        &&& plain_lawful::<Col::Key>()
    }

    /// The entries, in the order of the file.
    pub open spec fn entries(&self) -> Result<Seq<IndexRow<Col::Key>>, DbError> {
        rows_range::<IndexRow<Col::Key>>(self.file().image(), self.file().side().files, 0, None)
    }

    /// What the index holds.
    pub open spec fn column_held(&self) -> ColumnHeld<Col::Key> {
        ColumnHeld { entries: self.entries(), unique: self.unique() }
    }

    /// What follows from the index being in order: the file of its entries
    /// is in order and knows its rows, the values of the column are lawful
    /// plain fields, and the entries are told by their images, so that they
    /// are read back as they were written.
    pub proof fn lemma_wf(&self)
        requires
            self.wf(),
        ensures
            self.file().wf(),
            self.file().faithful(),
            plain_lawful::<Col::Key>(),
            self.entries() is Ok ==> all_exact(self.entries().unwrap()) && stored(
                self.entries().unwrap(),
            ) == self.entries().unwrap(),
    {
        if self.entries() is Ok {
            lemma_read_entries_exact::<Col::Key>(self.file().image(), self.file().side().files);
            lemma_stored(self.entries().unwrap());
        }
    }

    /// The index of a column, with its file at `path`, empty.
    pub fn new(path: BDPath, check_unique: bool) -> (r: Result<Self, DbError>)
        requires
            plain_lawful::<Col::Key>(),
            Col::Key::plain_width() + 8 <= usize::MAX,
        ensures
            r is Ok,
            r.unwrap().wf(),
            r.unwrap().unique() == check_unique,
            r.unwrap().file().place() == path,
            r.unwrap().entries() == Ok::<Seq<IndexRow<Col::Key>>, DbError>(Seq::empty()),
    {
        proof {
            lemma_plain_index_row::<Col::Key>();
            crate::binary::lemma_plain_binary::<IndexRow<Col::Key>>();
        }
        let bin = match F::new(path) {
            Ok(bin) => bin,
            Err(e) => {
                return Err(e);
            },
        };
        let index = match IdAsIndexFile::new() {
            Ok(index) => index,
            Err(e) => {
                return Err(e);
            },
        };
        proof {
            assert(rows_range::<IndexRow<Col::Key>>(bin.image(), bin.side().files, 0, None) == Ok::<
                Seq<IndexRow<Col::Key>>,
                DbError,
            >(Seq::empty()));
        }
        Ok(SpecificIndexFile { bin, index, check_unique, row: PhantomData })
    }

    /// The index of a column over a file of entries that was opened
    /// elsewhere.
    pub fn open(bin: F, check_unique: bool) -> (r: Result<Self, DbError>)
        requires
            bin.wf(),
            bin.faithful(),
            plain_lawful::<Col::Key>(),
        ensures
            r is Ok,
            r.unwrap().wf(),
            r.unwrap().unique() == check_unique,
            r.unwrap().file() == bin,
    {
        match IdAsIndexFile::new() {
            Ok(index) => Ok(SpecificIndexFile { bin, index, check_unique, row: PhantomData }),
            Err(e) => Err(e),
        }
    }

    /// The file of the entries, to take its logs.
    pub fn bin_mut(&mut self) -> (bin: &mut F)
        ensures
            *bin == old(self).file(),
            final(self).file() == *final(bin),
            final(self).unique() == old(self).unique(),
    {
        &mut self.bin
    }

    /// Searches the index for the entries with the value `find`.
    pub fn indx(&mut self, find: &Col::Key) -> (r: IndexGet<IndexRow<Col::Key>>)
        requires
            old(self).wf(),
        ensures
            final(self).wf(),
            final(self).unique() == old(self).unique(),
            final(self).file().image() == old(self).file().image(),
            final(self).file().side() == old(self).file().side(),
            final(self).file().place() == old(self).file().place(),
            found_sound::<IndexRow<Col::Key>, Col::Key, ByData>(
                old(self).file().image(),
                old(self).file().side().files,
                *find,
                r,
            ),
            ordered_for::<IndexRow<Col::Key>, Col::Key, ByData>(
                old(self).file().image(),
                old(self).file().side().files,
                *find,
            ) ==> found_right::<IndexRow<Col::Key>, Col::Key, ByData>(
                old(self).file().image(),
                old(self).file().side().files,
                *find,
                r,
            ),
    {
        self.index.indx(&mut self.bin, find)
    }

    /// Tells whether `row` can be put into the table: `None` if the values
    /// of the column must differ and an entry has the value of `row`, or a
    /// value that cannot be compared with it.
    pub fn base_check_unique(&mut self, row: &Row) -> (r: Result<Option<()>, DbError>)
        requires
            old(self).wf(),
        ensures
            final(self).wf(),
            final(self).unique() == old(self).unique(),
            final(self).file().image() == old(self).file().image(),
            final(self).file().side() == old(self).file().side(),
            final(self).file().place() == old(self).file().place(),
            r == column_allows(old(self).column_held(), Col::project(row.model())),
    {
        if !self.check_unique {
            return Ok(Some(()));
        }
        let key = Col::extract(row);
        let entries = match self.bin.gets(0, None) {
            Ok(entries) => entries,
            Err(e) => {
                return Err(e);
            },
        };
        proof {
            assert(models_of(entries@) =~= entries@);
            assert(old(self).entries() == Ok::<Seq<IndexRow<Col::Key>>, DbError>(entries@));
        }
        let clash = any_clash(&entries, key);
        proof {
            let listed = old(self).entries().unwrap();
            assert(listed == entries@);
            assert(clash == exists|i: int|
                0 <= i < listed.len() && clashes(#[trigger] listed[i], Col::project(row.model())));
        }
        if clash {
            Ok(None)
        } else {
            Ok(Some(()))
        }
    }

    /// Writes the file of the entries anew.
    fn rewrite(&mut self, entries: Vec<IndexRow<Col::Key>>) -> (r: Result<(), DbError>)
        requires
            old(self).wf(),
        ensures
            final(self).wf(),
            final(self).unique() == old(self).unique(),
            final(self).file().place() == old(self).file().place(),
            r is Ok,
            final(self).entries() == Ok::<Seq<IndexRow<Col::Key>>, DbError>(stored(entries@)),
    {
        let mut entries = entries;
        let ghost wanted = entries@;
        let ghost w = IndexRow::<Col::Key>::plain_width();
        proof {
            self.bin.lemma_wf();
            lemma_plain_index_row::<Col::Key>();
        }
        match self.bin.clear() {
            Ok(_) => {},
            Err(e) => {
                return Err(e);
            },
        }
        let ghost store = self.bin.side();
        proof {
            self.bin.lemma_wf();
            lemma_plain_rows::<IndexRow<Col::Key>>(wanted, store);
            assert(models_of(entries@) =~= wanted);
            lemma_row_count(Seq::<u8>::empty(), w);
        }
        match self.bin.inserts(0, &mut entries) {
            Ok(_) => {
                proof {
                    let image = self.bin.image();
                    let files = self.bin.side().files;
                    assert(image =~= images(wanted));
                    lemma_images_len(wanted);
                    vstd::arithmetic::div_mod::lemma_fundamental_div_mod_converse(
                        image.len() as int,
                        w as int,
                        wanted.len() as int,
                        0,
                    );
                    assert(image.len() - 0 * w == image.len());
                    assert forall|i: int| 0 <= i < wanted.len() implies IndexRow::<
                        Col::Key,
                    >::decode(#[trigger] stretch(image, w, 0 + i), files) == Ok::<
                        IndexRow<Col::Key>,
                        DbError,
                    >(stored(wanted)[i]) by {}
                    crate::bin_file::lemma_rows_from_all::<IndexRow<Col::Key>>(
                        image,
                        files,
                        0,
                        wanted.len(),
                        stored(wanted),
                    );
                }
                Ok(())
            },
            Err(e) => Err(e),
        }
    }

    /// Follows the main file after `row` was put in at position `index`:
    /// the entries of the rows from there on point one further, and the
    /// entry of the new row goes to its place in the order. Where the
    /// entries were as an index keeps them for the rows of the main file,
    /// and the value of the row is told by its image and can be compared
    /// with the values of all entries, this does not fail, and the entries
    /// are as an index keeps them for one row more, and are the entries of
    /// the rows of the main file if they were.
    pub fn base_insert(&mut self, index: usize, row: &Row) -> (r: Result<(), DbError>)
        requires
            old(self).wf(),
        ensures
            final(self).wf(),
            final(self).unique() == old(self).unique(),
            final(self).file().place() == old(self).file().place(),
            error_of(r) == column_with_row(
                old(self).column_held(),
                index,
                Col::project(row.model()),
            ).0,
            final(self).column_held() == column_with_row(
                old(self).column_held(),
                index,
                Col::project(row.model()),
            ).1,
            forall|n: nat|
                rank_lawful::<Col::Key>() && old(self).entries() is Ok && #[trigger] index_sorted(
                    old(self).entries().unwrap(),
                    n,
                ) && index <= n < usize::MAX && Col::project(row.model()).exact()
                    && compares_with_entries(old(self).column_held(), Col::project(row.model()))
                    ==> {
                    let moved = bumped(old(self).entries().unwrap(), index);
                    let key = Col::project(row.model());
                    &&& r is Ok
                    &&& final(self).entries() == Ok::<Seq<IndexRow<Col::Key>>, DbError>(
                        moved.insert(slot(moved, key, index), IndexRow { data: key, index }),
                    )
                    &&& kept_for(final(self).column_held(), (n + 1) as nat)
                },
            forall|keys: Seq<Col::Key>|
                rank_lawful::<Col::Key>() && kept_for(old(self).column_held(), keys.len())
                    && #[trigger] mirrors(old(self).entries().unwrap(), keys) && index
                    <= keys.len() < usize::MAX && Col::project(row.model()).exact()
                    && compares_with_entries(old(self).column_held(), Col::project(row.model()))
                    ==> mirrors(
                    final(self).entries().unwrap(),
                    keys.insert(index as int, Col::project(row.model())),
                ),
    {
        let r = self.follow_insert(index, row);
        proof {
            let held = old(self).column_held();
            let key = Col::project(row.model());
            assert forall|n: nat|
                rank_lawful::<Col::Key>() && held.entries is Ok && #[trigger] index_sorted(
                    held.entries.unwrap(),
                    n,
                ) && index <= n < usize::MAX && key.exact() && compares_with_entries(
                    held,
                    key,
                ) implies {
                let moved = bumped(held.entries.unwrap(), index);
                &&& r is Ok
                &&& self.entries() == Ok::<Seq<IndexRow<Col::Key>>, DbError>(
                    moved.insert(slot(moved, key, index), IndexRow { data: key, index }),
                )
                &&& kept_for(self.column_held(), (n + 1) as nat)
            } by {
                old(self).lemma_wf();
                law_index_follows_insert(held, index, key, Seq::new(n, |i: int| key));
            }
            assert forall|keys: Seq<Col::Key>|
                rank_lawful::<Col::Key>() && kept_for(held, keys.len()) && #[trigger] mirrors(
                    held.entries.unwrap(),
                    keys,
                ) && index <= keys.len() < usize::MAX && key.exact() && compares_with_entries(
                    held,
                    key,
                ) implies mirrors(self.entries().unwrap(), keys.insert(index as int, key)) by {
                old(self).lemma_wf();
                law_index_follows_insert(held, index, key, keys);
            }
        }
        r
    }

    /// Does what `base_insert` does.
    fn follow_insert(&mut self, index: usize, row: &Row) -> (r: Result<(), DbError>)
        requires
            old(self).wf(),
        ensures
            final(self).wf(),
            final(self).unique() == old(self).unique(),
            final(self).file().place() == old(self).file().place(),
            error_of(r) == column_with_row(
                old(self).column_held(),
                index,
                Col::project(row.model()),
            ).0,
            final(self).column_held() == column_with_row(
                old(self).column_held(),
                index,
                Col::project(row.model()),
            ).1,
    {
        let key = Col::extract(row);
        let mut entries = match self.bin.gets(0, None) {
            Ok(entries) => entries,
            Err(e) => {
                return Err(e);
            },
        };
        proof {
            assert(models_of(entries@) =~= entries@);
        }
        match bump_all(&mut entries, key, index) {
            Ok(_) => {},
            Err(e) => {
                return Err(e);
            },
        }
        let at: usize = find_slot(&entries, key, index);
        entries.insert(at, IndexRow { data: *key, index });
        self.rewrite(entries)
    }

    /// Follows the main file after the row at position `index` was taken
    /// out: its entry goes, and the entries of the rows after it point one
    /// back. Where the entries were as an index keeps them for the rows of
    /// the main file, this does not fail, and the entries are as an index
    /// keeps them for one row fewer, and are the entries of the rows of the
    /// main file if they were.
    pub fn base_remove(&mut self, index: usize) -> (r: Result<(), DbError>)
        requires
            old(self).wf(),
        ensures
            final(self).wf(),
            final(self).unique() == old(self).unique(),
            final(self).file().place() == old(self).file().place(),
            error_of(r) == column_without_row(old(self).column_held(), index).0,
            final(self).column_held() == column_without_row(old(self).column_held(), index).1,
            forall|n: nat|
                rank_lawful::<Col::Key>() && old(self).entries() is Ok && #[trigger] index_sorted(
                    old(self).entries().unwrap(),
                    n,
                ) && index < n <= usize::MAX ==> {
                    &&& r is Ok
                    &&& final(self).entries() == Ok::<Seq<IndexRow<Col::Key>>, DbError>(
                        lowered(old(self).entries().unwrap(), index),
                    )
                    &&& kept_for(final(self).column_held(), (n - 1) as nat)
                },
            forall|keys: Seq<Col::Key>|
                rank_lawful::<Col::Key>() && kept_for(old(self).column_held(), keys.len())
                    && #[trigger] mirrors(old(self).entries().unwrap(), keys) && index
                    < keys.len() <= usize::MAX ==> mirrors(
                    final(self).entries().unwrap(),
                    keys.remove(index as int),
                ),
    {
        let r = self.follow_remove(index);
        proof {
            let held = old(self).column_held();
            assert forall|n: nat|
                rank_lawful::<Col::Key>() && held.entries is Ok && #[trigger] index_sorted(
                    held.entries.unwrap(),
                    n,
                ) && index < n <= usize::MAX implies {
                &&& r is Ok
                &&& self.entries() == Ok::<Seq<IndexRow<Col::Key>>, DbError>(
                    lowered(held.entries.unwrap(), index),
                )
                &&& kept_for(self.column_held(), (n - 1) as nat)
            } by {
                old(self).lemma_wf();
                law_index_follows_remove(
                    held,
                    index,
                    Seq::new(n, |i: int| held.entries.unwrap()[0].data),
                );
            }
            assert forall|keys: Seq<Col::Key>|
                rank_lawful::<Col::Key>() && kept_for(held, keys.len()) && #[trigger] mirrors(
                    held.entries.unwrap(),
                    keys,
                ) && index < keys.len() <= usize::MAX implies mirrors(
                self.entries().unwrap(),
                keys.remove(index as int),
            ) by {
                old(self).lemma_wf();
                law_index_follows_remove(held, index, keys);
            }
        }
        r
    }

    /// Does what `base_remove` does.
    fn follow_remove(&mut self, index: usize) -> (r: Result<(), DbError>)
        requires
            old(self).wf(),
        ensures
            final(self).wf(),
            final(self).unique() == old(self).unique(),
            final(self).file().place() == old(self).file().place(),
            error_of(r) == column_without_row(old(self).column_held(), index).0,
            final(self).column_held() == column_without_row(old(self).column_held(), index).1,
    {
        let entries = match self.bin.gets(0, None) {
            Ok(entries) => entries,
            Err(e) => {
                return Err(e);
            },
        };
        proof {
            assert(models_of(entries@) =~= entries@);
        }
        let kept = lower_all(&entries, index);
        self.rewrite(kept)
    }

    /// Forgets all rows.
    pub fn base_clear(&mut self) -> (r: Result<(), DbError>)
        requires
            old(self).wf(),
        ensures
            final(self).wf(),
            final(self).unique() == old(self).unique(),
            final(self).file().place() == old(self).file().place(),
            r is Ok,
            final(self).entries() == Ok::<Seq<IndexRow<Col::Key>>, DbError>(Seq::empty()),
    {
        match self.bin.clear() {
            Ok(_) => {
                proof {
                    self.bin.lemma_wf();
                    lemma_row_count(Seq::<u8>::empty(), IndexRow::<Col::Key>::plain_width());
                    assert(rows_range::<IndexRow<Col::Key>>(
                        self.bin.image(),
                        self.bin.side().files,
                        0,
                        None,
                    ) == Ok::<Seq<IndexRow<Col::Key>>, DbError>(Seq::empty()));
                }
                Ok(())
            },
            Err(e) => Err(e),
        }
    }
}

/// Tells whether an entry comes after the entry with `key` for the row at
/// `position`.
fn after<K: Ranked>(entry: &IndexRow<K>, key: &K, position: usize) -> (b: bool)
    ensures
        b == comes_after(*entry, *key, position),
{
    match entry.data.compare(key) {
        Some(Order::Greater) => true,
        Some(Order::Equal) => entry.index > position,
        _ => false,
    }
}

/// Tells whether an entry stands in the way of a new row with `key`.
pub fn any_clash<K: Ranked>(entries: &Vec<IndexRow<K>>, key: &K) -> (b: bool)
    ensures
        b == exists|i: int| 0 <= i < entries@.len() && clashes(#[trigger] entries@[i], *key),
{
    let n: usize = entries.len();
    let mut i: usize = 0;
    while i < n
        invariant
            n == entries@.len(),
            i <= n,
            forall|j: int| 0 <= j < i ==> !clashes(#[trigger] entries@[j], *key),
        decreases n - i,
    {
        match entries[i].data.compare(key) {
            None => {
                proof {
                    assert(clashes(entries@[i as int], *key));
                }
                return true;
            },
            Some(Order::Equal) => {
                proof {
                    assert(clashes(entries@[i as int], *key));
                }
                return true;
            },
            Some(_) => {},
        }
        i = i + 1;
    }
    false
}

/// Makes the entries of the rows from `position` on point one further.
/// Fails, and leaves an unknown part of the entries changed, where an entry
/// cannot be compared with `key` or points to the last position that can be.
pub fn bump_all<K: Ranked>(entries: &mut Vec<IndexRow<K>>, key: &K, position: usize) -> (r: Result<
    (),
    DbError,
>)
    ensures
        final(entries)@.len() == old(entries)@.len(),
        error_of(r) == first_fault(old(entries)@, *key),
        r is Ok ==> final(entries)@ == bumped(old(entries)@, position),
{
    let ghost first = entries@;
    let n: usize = entries.len();
    let mut i: usize = 0;
    proof {
        assert(first.subrange(0, n as int) =~= first);
    }
    while i < n
        invariant
            n == entries@.len(),
            n == first.len(),
            first == old(entries)@,
            i <= n,
            first_fault(first, *key) == first_fault(first.subrange(i as int, n as int), *key),
            forall|j: int| 0 <= j < i ==> entries@[j] == bumped(first, position)[j],
            forall|j: int| i <= j < n ==> entries@[j] == first[j],
        decreases n - i,
    {
        let entry = entries[i];
        proof {
            assert(entry == old(entries)@[i as int]);
            let rest = first.subrange(i as int, n as int);
            assert(rest[0] == first[i as int]);
            assert(rest.drop_first() =~= first.subrange(i + 1, n as int));
        }
        if entry.index == usize::MAX {
            return Err(DbError::ConsistencyViolation);
        }
        match entry.data.compare(key) {
            None => {
                return Err(DbError::ComparatorFailure);
            },
            Some(_) => {},
        }
        if entry.index >= position {
            entries[i] = IndexRow { data: entry.data, index: entry.index + 1 };
        }
        i = i + 1;
    }
    proof {
        assert(entries@ =~= bumped(first, position));
    }
    Ok(())
}

/// The place for the entry with `key` for the row at `position`.
pub fn find_slot<K: Ranked>(entries: &Vec<IndexRow<K>>, key: &K, position: usize) -> (at: usize)
    ensures
        at == slot(entries@, *key, position),
        at <= entries@.len(),
{
    let n: usize = entries.len();
    let mut at: usize = 0;
    proof {
        assert(entries@.subrange(0, n as int) =~= entries@);
    }
    while at < n && !after(&entries[at], key, position)
        invariant
            n == entries@.len(),
            at <= n,
            slot(entries@, *key, position) == at + slot(
                entries@.subrange(at as int, n as int),
                *key,
                position,
            ),
        decreases n - at,
    {
        proof {
            let rest = entries@.subrange(at as int, n as int);
            assert(rest[0] == entries@[at as int]);
            assert(rest.drop_first() =~= entries@.subrange(at + 1, n as int));
        }
        at = at + 1;
    }
    proof {
        let rest = entries@.subrange(at as int, n as int);
        if at < n {
            assert(rest[0] == entries@[at as int]);
        }
    }
    at
}

/// The entries without the entry of the row at `position`, and with the
/// entries of the rows after it pointing one back.
pub fn lower_all<K: Ranked>(entries: &Vec<IndexRow<K>>, position: usize) -> (kept: Vec<IndexRow<K>>)
    ensures
        kept@ == lowered(entries@, position),
{
    let n: usize = entries.len();
    let mut kept: Vec<IndexRow<K>> = Vec::new();
    let mut i: usize = 0;
    proof {
        assert(entries@.subrange(0, 0) =~= Seq::<IndexRow<K>>::empty());
    }
    while i < n
        invariant
            n == entries@.len(),
            i <= n,
            kept@ == lowered(entries@.subrange(0, i as int), position),
        decreases n - i,
    {
        let entry = entries[i];
        proof {
            assert(entries@.subrange(0, i + 1).drop_last() =~= entries@.subrange(0, i as int));
            assert(entries@.subrange(0, i + 1).last() == entries@[i as int]);
        }
        if entry.index < position {
            kept.push(entry);
        } else if entry.index > position {
            kept.push(IndexRow { data: entry.data, index: entry.index - 1 });
        }
        i = i + 1;
    }
    proof {
        assert(entries@.subrange(0, n as int) =~= entries@);
    }
    kept
}

/// The entries as they are read back after they were written: each read
/// from its image.
pub open spec fn stored<K: Ranked>(entries: Seq<IndexRow<K>>) -> Seq<IndexRow<K>> {
    parses::<IndexRow<K>>(images(entries), entries.len())
}

/// Entries whose values are told by their images are read back as they
/// were written.
pub proof fn lemma_stored<K: Ranked>(entries: Seq<IndexRow<K>>)
    requires
        plain_lawful::<K>(),
        forall|i: int| 0 <= i < entries.len() ==> (#[trigger] entries[i]).data.exact(),
    ensures
        stored(entries) == entries,
{
    lemma_plain_index_row::<K>();
    crate::plain::lemma_parses_images(entries);
}

/// The entries that are read from a file of entries are told by their
/// images.
pub proof fn lemma_read_entries_exact<K: Ranked>(image: Seq<u8>, files: Map<u64, Seq<u8>>)
    requires
        plain_lawful::<K>(),
        rows_range::<IndexRow<K>>(image, files, 0, None) is Ok,
    ensures
        all_exact(rows_range::<IndexRow<K>>(image, files, 0, None).unwrap()),
{
    lemma_plain_index_row::<K>();
    let w = IndexRow::<K>::plain_width();
    let entries = rows_range::<IndexRow<K>>(image, files, 0, None).unwrap();
    let count = ((image.len() - 0 * w) / (w as int)) as nat;
    lemma_row_count(image, w);
    assert(entries == rows_from::<IndexRow<K>>(image, files, 0, count).unwrap());
    lemma_rows_from_each::<IndexRow<K>>(image, files, 0, count);
    assert forall|k: int| 0 <= k < entries.len() implies (#[trigger] entries[k]).exact() by {
        lemma_row_within(image, w, k);
        let piece = stretch(image, w, 0 + k);
        assert(count == row_count(image, w));
        assert((k + 1) * w == k * w + w) by (nonlinear_arith);
        assert(piece.len() == w);
        assert(<IndexRow<K> as Binary>::decode(piece, files) == Ok::<IndexRow<K>, DbError>(
            entries[k],
        ));
        assert(parse_lawful::<IndexRow<K>>(piece));
    }
}

/// Encoding plain rows gives their images and leaves the rows and the side
/// files as they are.
pub proof fn lemma_plain_rows<T: Plain>(rows: Seq<T>, store: SideState)
    ensures
        encode_rows::<T>(rows, store) == (EncodedRows {
            result: Ok(images(rows)),
            values: rows,
            store,
        }),
    decreases rows.len(),
{
    if rows.len() > 0 {
        lemma_plain_rows::<T>(rows.drop_last(), store);
        assert(rows.drop_last().push(rows.last()) =~= rows);
    } else {
        assert(encode_rows::<T>(rows, store).values =~= rows);
    }
}

impl<Col: Column<Row>, Row: Binary> UnspecifiedIndex<Row> for SpecificIndexFile<
    Col,
    Row,
    BinFile<IndexRow<Col::Key>>,
> {
    type Held = ColumnHeld<Col::Key>;

    open spec fn wf(&self) -> bool {
        SpecificIndexFile::wf(self)
    }

    open spec fn held(&self) -> ColumnHeld<Col::Key> {
        self.column_held()
    }

    open spec fn allows(held: ColumnHeld<Col::Key>, m: Row::Model) -> Result<Option<()>, DbError> {
        column_allows(held, Col::project(m))
    }

    open spec fn with_row(held: ColumnHeld<Col::Key>, index: usize, m: Row::Model) -> (
        Option<DbError>,
        ColumnHeld<Col::Key>,
    ) {
        column_with_row(held, index, Col::project(m))
    }

    open spec fn without_row(held: ColumnHeld<Col::Key>, index: usize) -> (
        Option<DbError>,
        ColumnHeld<Col::Key>,
    ) {
        column_without_row(held, index)
    }

    open spec fn emptied(held: ColumnHeld<Col::Key>) -> (Option<DbError>, ColumnHeld<Col::Key>) {
        (None, ColumnHeld { entries: Ok(Seq::empty()), unique: held.unique })
    }

    open spec fn nothing_cached(&self) -> bool {
        self.file().remembered() == Map::<int, IndexRow<Col::Key>>::empty()
    }

    fn check_unique(&mut self, row: &Row) -> (r: Result<Option<()>, DbError>) {
        self.base_check_unique(row)
    }

    fn insert(&mut self, index: usize, row: &Row) -> (r: Result<(), DbError>) {
        self.base_insert(index, row)
    }

    fn remove(&mut self, index: usize) -> (r: Result<(), DbError>) {
        self.base_remove(index)
    }

    fn clear(&mut self) -> (r: Result<(), DbError>) {
        self.base_clear()
    }

    /// The file has no cache: nothing changes.
    fn clear_cache(&mut self)
        ensures
            *final(self) == *old(self),
    {
    }
}

impl<Col: Column<Row>, Row: Binary> UnspecifiedIndex<Row> for SpecificIndexFile<
    Col,
    Row,
    CachedBinFile<IndexRow<Col::Key>>,
> {
    type Held = ColumnHeld<Col::Key>;

    open spec fn wf(&self) -> bool {
        SpecificIndexFile::wf(self)
    }

    open spec fn held(&self) -> ColumnHeld<Col::Key> {
        self.column_held()
    }

    open spec fn allows(held: ColumnHeld<Col::Key>, m: Row::Model) -> Result<Option<()>, DbError> {
        column_allows(held, Col::project(m))
    }

    open spec fn with_row(held: ColumnHeld<Col::Key>, index: usize, m: Row::Model) -> (
        Option<DbError>,
        ColumnHeld<Col::Key>,
    ) {
        column_with_row(held, index, Col::project(m))
    }

    open spec fn without_row(held: ColumnHeld<Col::Key>, index: usize) -> (
        Option<DbError>,
        ColumnHeld<Col::Key>,
    ) {
        column_without_row(held, index)
    }

    open spec fn emptied(held: ColumnHeld<Col::Key>) -> (Option<DbError>, ColumnHeld<Col::Key>) {
        (None, ColumnHeld { entries: Ok(Seq::empty()), unique: held.unique })
    }

    open spec fn nothing_cached(&self) -> bool {
        self.file().remembered() == Map::<int, IndexRow<Col::Key>>::empty()
    }

    fn check_unique(&mut self, row: &Row) -> (r: Result<Option<()>, DbError>) {
        self.base_check_unique(row)
    }

    fn insert(&mut self, index: usize, row: &Row) -> (r: Result<(), DbError>) {
        self.base_insert(index, row)
    }

    fn remove(&mut self, index: usize) -> (r: Result<(), DbError>) {
        self.base_remove(index)
    }

    fn clear(&mut self) -> (r: Result<(), DbError>) {
        self.base_clear()
    }

    /// The cache of the file is emptied; the file stays.
    fn clear_cache(&mut self)
        ensures
            final(self).file().inner() == old(self).file().inner(),
            final(self).file().image() == old(self).file().image(),
            final(self).file().side() == old(self).file().side(),
            final(self).file().place() == old(self).file().place(),
    {
        self.bin.clear_cache();
    }
}

/// The indexes of a table that has none.
pub struct NoIndex;

impl<Row: Binary> UnspecifiedIndex<Row> for NoIndex {
    type Held = ();

    open spec fn wf(&self) -> bool {
        true
    }

    open spec fn held(&self) -> () {
        ()
    }

    /// Every row is allowed.
    open spec fn allows(held: (), m: Row::Model) -> Result<Option<()>, DbError> {
        Ok(Some(()))
    }

    open spec fn with_row(held: (), index: usize, m: Row::Model) -> (Option<DbError>, ()) {
        (None, ())
    }

    open spec fn without_row(held: (), index: usize) -> (Option<DbError>, ()) {
        (None, ())
    }

    open spec fn emptied(held: ()) -> (Option<DbError>, ()) {
        (None, ())
    }

    open spec fn nothing_cached(&self) -> bool {
        true
    }

    fn check_unique(&mut self, row: &Row) -> (r: Result<Option<()>, DbError>) {
        Ok(Some(()))
    }

    fn insert(&mut self, index: usize, row: &Row) -> (r: Result<(), DbError>) {
        Ok(())
    }

    fn remove(&mut self, index: usize) -> (r: Result<(), DbError>) {
        Ok(())
    }

    fn clear(&mut self) -> (r: Result<(), DbError>) {
        Ok(())
    }

    fn clear_cache(&mut self) {
    }
}

/// Two indexes, or two sets of indexes, of one table.
pub struct Both<A, B> {
    pub first: A,
    pub second: B,
}

impl<Row: Binary, A: UnspecifiedIndex<Row>, B: UnspecifiedIndex<Row>> UnspecifiedIndex<Row> for Both<
    A,
    B,
> {
    type Held = (A::Held, B::Held);

    open spec fn wf(&self) -> bool {
        self.first.wf() && self.second.wf()
    }

    open spec fn held(&self) -> (A::Held, B::Held) {
        (self.first.held(), self.second.held())
    }

    /// The row must pass the first, then the second.
    open spec fn allows(held: (A::Held, B::Held), m: Row::Model) -> Result<Option<()>, DbError> {
        match A::allows(held.0, m) {
            Ok(Some(_)) => B::allows(held.1, m),
            Ok(None) => Ok(None),
            Err(e) => Err(e),
        }
    }

    /// The first follows, then the second, unless the first failed.
    open spec fn with_row(held: (A::Held, B::Held), index: usize, m: Row::Model) -> (
        Option<DbError>,
        (A::Held, B::Held),
    ) {
        let first = A::with_row(held.0, index, m);
        if first.0 is Some {
            (first.0, (first.1, held.1))
        } else {
            let second = B::with_row(held.1, index, m);
            (second.0, (first.1, second.1))
        }
    }

    open spec fn without_row(held: (A::Held, B::Held), index: usize) -> (
        Option<DbError>,
        (A::Held, B::Held),
    ) {
        let first = A::without_row(held.0, index);
        if first.0 is Some {
            (first.0, (first.1, held.1))
        } else {
            let second = B::without_row(held.1, index);
            (second.0, (first.1, second.1))
        }
    }

    open spec fn emptied(held: (A::Held, B::Held)) -> (Option<DbError>, (A::Held, B::Held)) {
        let first = A::emptied(held.0);
        if first.0 is Some {
            (first.0, (first.1, held.1))
        } else {
            let second = B::emptied(held.1);
            (second.0, (first.1, second.1))
        }
    }

    open spec fn nothing_cached(&self) -> bool {
        self.first.nothing_cached() && self.second.nothing_cached()
    }

    /// The row must pass both.
    fn check_unique(&mut self, row: &Row) -> (r: Result<Option<()>, DbError>) {
        match self.first.check_unique(row) {
            Ok(Some(_)) => self.second.check_unique(row),
            Ok(None) => Ok(None),
            Err(e) => Err(e),
        }
    }

    fn insert(&mut self, index: usize, row: &Row) -> (r: Result<(), DbError>) {
        match self.first.insert(index, row) {
            Ok(_) => self.second.insert(index, row),
            Err(e) => Err(e),
        }
    }

    fn remove(&mut self, index: usize) -> (r: Result<(), DbError>) {
        match self.first.remove(index) {
            Ok(_) => self.second.remove(index),
            Err(e) => Err(e),
        }
    }

    fn clear(&mut self) -> (r: Result<(), DbError>) {
        match self.first.clear() {
            Ok(_) => self.second.clear(),
            Err(e) => Err(e),
        }
    }

    fn clear_cache(&mut self) {
        self.first.clear_cache();
        self.second.clear_cache();
    }
}

} // verus!
