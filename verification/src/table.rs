//! The table: a main record file kept in the order of the primary keys of
//! its rows, searched by bisection, with the indexes of its other columns
//! kept in step.
use crate::bd_path::BDPath;
use crate::bin_file::{
    keep_their_files,
    image_with, removed, row_at, row_count, rows_match, rows_range, BaseBinFile, BinFile,
};
use crate::binary::{binary_lawful, error_of, Binary};
use crate::cached_bin_file::{cache_true, cache_within, evicted, CachedBinFile};
use crate::error::DbError;
use crate::index_file::{
    all_at, found_right, found_sound, level, ordered_for, verdict_at, ByData, Column,
    IdAsIndexFile, IndexGet, IndexRow, Probe, SpecificIndexFile, UnspecifiedIndex,
};
use crate::order::{Order, Ranked};
use crate::laws::{owned_apart, table_sorted};
use crate::side_files::SideState;
use crate::table_laws::{
    all_in_key_order, fits, law_get_all_is_sorted, law_get_in_sorted_table,
    law_insert_puts_right, law_remove_takes_right, put_right, right_row, searchable,
    taken_right,
};
use vstd::prelude::*;
use vstd::string::StringExecFns;

verus! {

/// A row of a table: a record with a primary key.
///
/// The functions of the model say what the type promises: which key a row
/// has, and what its indexes hold when they are opened. A type that leaves
/// them as they are promises only that opening the indexes goes by the path
/// alone.
pub trait Table: Binary {
    /// The type of the primary key.
    type ID: Ranked;

    /// The type of the indexes of the other columns.
    type Indexes: UnspecifiedIndex<Self>;

    /// The primary key of a row.
    open spec fn id_of(m: Self::Model) -> Self::ID {
        arbitrary()
    }

    /// The primary key of the row.
    fn id(&self) -> (id: &Self::ID)
        ensures
            *id == Self::id_of(self.model()),
    ;

    /// Compares the primary key of the row with another key.
    fn id_cmp(&self, other: &Self::ID) -> (o: Option<Order>)
        ensures
            o == Self::ID::rank(Self::id_of(self.model()), *other),
    {
        self.id().compare(other)
    }

    /// What the indexes of the table hold when they were opened in the
    /// directory `path`, or the error of opening them: the path decides.
    open spec fn opened(path: Seq<char>) -> Result<
        <Self::Indexes as UnspecifiedIndex<Self>>::Held,
        DbError,
    > {
        arbitrary()
    }

    /// Opens the indexes of the table in directory `path`.
    fn get_indexes(path: String) -> (r: Result<Self::Indexes, DbError>)
        ensures
            match Self::opened(path@) {
                Ok(held) => r is Ok && r.unwrap().wf() && r.unwrap().held() == held,
                Err(e) => r is Err && r->Err_0 == e,
            },
    ;
}

/// The comparison of a row with a key: by the primary key of the row.
pub struct ById;

impl<Row: Table> Probe<Row, Row::ID> for ById {
    open spec fn verdict(row: Row::Model, key: Row::ID) -> Option<Order> {
        Row::ID::rank(Row::id_of(row), key)
    }

    fn judge(row: &Row, key: &Row::ID) -> (o: Option<Order>) {
        row.id_cmp(key)
    }
}

/// What a search by primary key found.
#[derive(Debug)]
pub enum TableGet<T> {
    /// The row with the key.
    Found(T),
    /// No row has the key.
    NotFound,
    /// The stored rows break a rule of the table; the text says which.
    InternalError(String),
    /// A row could not be read.
    Failed(DbError),
}

/// The text of the error for a search that found no row where it had found
/// the key.
pub open spec fn empty_text() -> Seq<char> {
    "index returned an empty array"@
}

/// The text of the error for several rows with one primary key.
pub open spec fn multiple_text() -> Seq<char> {
    "multiple with the same id"@
}

/// Whether `rows` are the rows of the main file at the positions that the
/// entries `hits` point to, in the order of the entries.
pub open spec fn rows_of_hits<Row: Binary, K: Ranked>(
    image: Seq<u8>,
    files: Map<u64, Seq<u8>>,
    hits: Seq<IndexRow<K>>,
    rows: Seq<Row>,
) -> bool {
    rows.len() == hits.len() && forall|i: int|
        0 <= i < hits.len() ==> row_at::<Row>(image, files, (#[trigger] hits[i]).index as int)
            == Ok::<Row::Model, DbError>(rows[i].model())
}

/// Whether `e` is the error of the first of the entries `hits` whose row
/// cannot be read.
pub open spec fn hit_fails<Row: Binary, K: Ranked>(
    image: Seq<u8>,
    files: Map<u64, Seq<u8>>,
    hits: Seq<IndexRow<K>>,
    e: DbError,
) -> bool {
    exists|i: int|
        {
            &&& 0 <= i < hits.len()
            &&& row_at::<Row>(image, files, (#[trigger] hits[i]).index as int) == Err::<
                Row::Model,
                DbError,
            >(e)
            &&& forall|j: int|
                0 <= j < i ==> row_at::<Row>(image, files, (#[trigger] hits[j]).index as int) is Ok
        }
}

/// What a search by the value of a column makes of a search in the index
/// of the column: the rows that the entries found point to, in the order
/// of the entries, or the error of the first of them that cannot be read.
pub open spec fn column_get_of<Row: Binary, K: Ranked>(
    image: Seq<u8>,
    files: Map<u64, Seq<u8>>,
    found: IndexGet<IndexRow<K>>,
    r: TableGet<Vec<Row>>,
) -> bool {
    match found {
        IndexGet::Found(_, hits) => match r {
            TableGet::Found(rows) => rows_of_hits(image, files, hits@, rows@),
            TableGet::Failed(e) => hit_fails::<Row, K>(image, files, hits@, e),
            _ => false,
        },
        IndexGet::NotFound(_) => r is NotFound,
        IndexGet::InternalError(text) => r matches TableGet::InternalError(t) && t@ == text@,
        IndexGet::Failed(e) => r matches TableGet::Failed(x) && x == e,
    }
}

/// What a search by the value of a column whose values differ from row to
/// row makes of a search in the index of the column: the row that the one
/// entry found points to, no row where no entry was found, and an error
/// where several were.
pub open spec fn unique_get_of<Row: Binary, K: Ranked>(
    image: Seq<u8>,
    files: Map<u64, Seq<u8>>,
    found: IndexGet<IndexRow<K>>,
    r: TableGet<Option<Row>>,
) -> bool {
    match found {
        IndexGet::Found(_, hits) => if hits@.len() == 0 {
            r matches TableGet::Found(None)
        } else if hits@.len() == 1 {
            match r {
                TableGet::Found(Some(row)) => row_at::<Row>(image, files, hits@[0].index as int)
                    == Ok::<Row::Model, DbError>(row.model()),
                TableGet::Failed(e) => row_at::<Row>(image, files, hits@[0].index as int)
                    == Err::<Row::Model, DbError>(e),
                _ => false,
            }
        } else {
            r matches TableGet::InternalError(text) && text@ == multiple_text()
        },
        IndexGet::NotFound(_) => r is NotFound,
        IndexGet::InternalError(text) => r matches TableGet::InternalError(t) && t@ == text@,
        IndexGet::Failed(e) => r matches TableGet::Failed(x) && x == e,
    }
}

/// The text of the error for a row that is not there to be forgotten.
pub open spec fn missing_text() -> Seq<char> {
    "remove not found"@
}

/// What forgetting the row with a primary key does to the cache of the
/// main file, given what the search for the key found and what was cached
/// when the search was over. One row has the key: what is cached at its
/// position goes, and what is cached after it moves one down. No row has
/// it, or several have, or the search failed: that is an error, and the
/// cache stays as the search left it.
pub open spec fn forget_follows<Row: Binary>(
    found: IndexGet<Row>,
    searched: Map<int, Row>,
    after: Map<int, Row>,
    r: TableGet<()>,
) -> bool {
    match found {
        IndexGet::Found(at, rows) => if rows@.len() == 1 {
            r is Found && after == evicted(searched, at, Some(1usize))
        } else if rows@.len() == 0 {
            r matches TableGet::InternalError(text) && text@ == empty_text() && after == searched
        } else {
            r matches TableGet::InternalError(text) && text@ == multiple_text() && after
                == searched
        },
        IndexGet::NotFound(_) => r matches TableGet::InternalError(text) && text@
            == missing_text() && after == searched,
        IndexGet::InternalError(text) => r matches TableGet::InternalError(t) && t@ == text@
            && after == searched,
        IndexGet::Failed(e) => r matches TableGet::Failed(x) && x == e && after == searched,
    }
}

/// What a search by primary key makes of a search in the sorted index: one
/// row found is the row; several are an error.
pub open spec fn table_get_of<Row: Binary>(found: IndexGet<Row>, r: TableGet<Row>) -> bool {
    match found {
        IndexGet::Found(_, rows) => if rows@.len() == 1 {
            r matches TableGet::Found(row) && cloned(rows@[0], row)
        } else if rows@.len() == 0 {
            r matches TableGet::InternalError(text) && text@ == empty_text()
        } else {
            r matches TableGet::InternalError(text) && text@ == multiple_text()
        },
        IndexGet::NotFound(_) => r is NotFound,
        IndexGet::InternalError(text) => r matches TableGet::InternalError(t) && t@ == text@,
        IndexGet::Failed(e) => r matches TableGet::Failed(x) && x == e,
    }
}

/// Whether the result of a search by primary key is the right one for a
/// main file that is in order for the key: the one row with the key, or
/// that there is none, or that there are several.
pub open spec fn table_get_right<Row: Table>(
    image: Seq<u8>,
    files: Map<u64, Seq<u8>>,
    key: Row::ID,
    r: TableGet<Row>,
) -> bool {
    let n = row_count(image, Row::width()) as int;
    match r {
        TableGet::Found(row) => exists|p: int|
            {
                &&& 0 <= p < n
                &&& #[trigger] row_at::<Row>(image, files, p) == Ok::<Row::Model, DbError>(
                    row.model(),
                )
                &&& all_at::<Row, Row::ID, ById>(image, files, key, 0, p, 0)
                &&& Row::ID::rank(Row::id_of(row.model()), key) == Some(Order::Equal)
                &&& all_at::<Row, Row::ID, ById>(image, files, key, p + 1, n, 2)
            },
        TableGet::NotFound => forall|p: int|
            0 <= p < n ==> #[trigger] level(
                verdict_at::<Row, Row::ID, ById>(image, files, p, key),
            ) != 1,
        TableGet::InternalError(text) => text@ == multiple_text() && exists|p: int|
            0 <= p < n - 1 && #[trigger] level(
                verdict_at::<Row, Row::ID, ById>(image, files, p, key),
            ) == 1 && level(verdict_at::<Row, Row::ID, ById>(image, files, p + 1, key)) == 1,
        TableGet::Failed(_) => false,
    }
}

/// A table: the main record file `F` of its rows `Row`, searched by
/// primary key, and the indexes of its other columns.
pub struct SpecificTableFile<Row: Table, F: BaseBinFile<Row>> {
    bin: F,
    id_index: IdAsIndexFile<Row::ID, Row, F, ById>,
    other_index: Row::Indexes,
}

/// A table that reads its main file from the image each time.
pub type TableFile<Row> = SpecificTableFile<Row, BinFile<Row>>;

/// A table that remembers rows it has read.
pub type CachedTableFile<Row> = SpecificTableFile<Row, CachedBinFile<Row>>;

/// Whether an attempt to put in a row left the table and the row as they
/// were.
pub open spec fn insert_leaves<Row: Table, F: BaseBinFile<Row>>(
    before: SpecificTableFile<Row, F>,
    after: SpecificTableFile<Row, F>,
    m: Row::Model,
    m2: Row::Model,
) -> bool {
    &&& after.rows_file().image() == before.rows_file().image()
    &&& after.rows_file().side() == before.rows_file().side()
    &&& after.indexes().held() == before.indexes().held()
    &&& m2 == m
}

/// What putting in a row that the indexes allow does, given what the
/// search for its primary key found. A row with the key is there: nothing
/// changes and the answer is `false`. The search failed: nothing changes.
/// No row has the key: the row is encoded, which writes its side files; its
/// image is put into the main file at the place that the search gave; the
/// indexes follow; the answer is `true`, or the error of the indexes.
pub open spec fn insert_follows<Row: Table, F: BaseBinFile<Row>>(
    found: IndexGet<Row>,
    before: SpecificTableFile<Row, F>,
    after: SpecificTableFile<Row, F>,
    m: Row::Model,
    m2: Row::Model,
    r: Result<bool, DbError>,
) -> bool {
    match found {
        IndexGet::Found(_, _) => r == Ok::<bool, DbError>(false) && insert_leaves(
            before,
            after,
            m,
            m2,
        ),
        IndexGet::InternalError(_) => r == Err::<bool, DbError>(DbError::ComparatorFailure)
            && insert_leaves(before, after, m, m2),
        IndexGet::Failed(e) => r == Err::<bool, DbError>(e) && insert_leaves(before, after, m, m2),
        IndexGet::NotFound(at) => {
            let e = Row::encode(m, before.rows_file().side());
            &&& after.rows_file().side() == e.store
            &&& m2 == e.value
            &&& match e.result {
                Err(x) => {
                    &&& r == Err::<bool, DbError>(x)
                    &&& after.rows_file().image() == before.rows_file().image()
                    &&& after.indexes().held() == before.indexes().held()
                },
                Ok(bytes) => {
                    let ix = Row::Indexes::with_row(before.indexes().held(), at, e.value);
                    &&& after.rows_file().image() == image_with(
                        before.rows_file().image(),
                        Row::width(),
                        at,
                        bytes,
                    )
                    &&& after.indexes().held() == ix.1
                    &&& r == match ix.0 {
                        Some(x) => Err::<bool, DbError>(x),
                        None => Ok::<bool, DbError>(true),
                    }
                },
            }
        },
    }
}

/// Whether every row of the main file but the one at position `at` has all
/// its side files among `after`.
pub open spec fn others_keep_files<Row: Binary>(
    image: Seq<u8>,
    files: Map<u64, Seq<u8>>,
    at: usize,
    after: Map<u64, Seq<u8>>,
) -> bool {
    forall|p: int|
        0 <= p < row_count(image, Row::width()) && p != at ==> match #[trigger] row_at::<Row>(
            image,
            files,
            p,
        ) {
            Ok(m) => Row::side_ids(m).subset_of(after.dom()),
            Err(_) => true,
        }
}

/// What taking out the row with a primary key does, given what the search
/// for the key found. One row has the key: the indexes follow, then the row
/// is taken out of the main file with its side files. No row has it, or
/// several have, or the search failed: that is an error and nothing changes.
/// The main file still knows its rows afterwards, unless a row that stays
/// owned a side file that went with the row that was taken out.
pub open spec fn remove_follows<Row: Table, F: BaseBinFile<Row>>(
    found: IndexGet<Row>,
    before: SpecificTableFile<Row, F>,
    after: SpecificTableFile<Row, F>,
    r: Result<(), DbError>,
) -> bool {
    let same = after.rows_file().image() == before.rows_file().image() && after.rows_file().side()
        == before.rows_file().side() && after.indexes().held() == before.indexes().held()
        && after.rows_file().faithful();
    match found {
        IndexGet::Found(at, rows) => if rows@.len() != 1 {
            error_of(r) == Some(DbError::ConsistencyViolation) && same
        } else {
            let ix = Row::Indexes::without_row(before.indexes().held(), at);
            &&& after.indexes().held() == ix.1
            &&& after.rows_file().side().hint == before.rows_file().side().hint
            &&& if ix.0 is Some {
                &&& error_of(r) == ix.0
                &&& after.rows_file().image() == before.rows_file().image()
                &&& after.rows_file().side() == before.rows_file().side()
                &&& after.rows_file().faithful()
            } else {
                let gone = removed::<Row>(
                    before.rows_file().image(),
                    before.rows_file().side().files,
                    at,
                    Some(1usize),
                );
                &&& error_of(r) == gone.0
                &&& after.rows_file().image() == gone.1
                &&& after.rows_file().side().files == gone.2
                &&& gone.0 is Some || others_keep_files::<Row>(
                    before.rows_file().image(),
                    before.rows_file().side().files,
                    at,
                    gone.2,
                ) ==> after.rows_file().faithful()
            }
        },
        IndexGet::NotFound(_) => error_of(r) == Some(DbError::NotFound) && same,
        IndexGet::InternalError(_) => error_of(r) == Some(DbError::ComparatorFailure) && same,
        IndexGet::Failed(e) => error_of(r) == Some(e) && same,
    }
}

impl<Row: Table, F: BaseBinFile<Row>> SpecificTableFile<Row, F> {
    /// The main record file.
    pub closed spec fn rows_file(&self) -> F {
        self.bin
    }

    /// The indexes of the other columns.
    pub closed spec fn indexes(&self) -> Row::Indexes {
        self.other_index
    }

    /// The main file is in order and knows its rows, and the indexes are in
    /// order.
    pub open spec fn wf(&self) -> bool {
        self.rows_file().wf() && self.rows_file().faithful() && self.indexes().wf()
    }

    /// Opens the table in directory `path`, with an empty main file and
    /// the indexes that the row type opens there. Fails where the indexes
    /// cannot be opened, with their error.
    pub fn new(path: String) -> (r: Result<Self, DbError>)
        requires
            binary_lawful::<Row>(),
            0 < Row::width() <= usize::MAX,
        ensures
            match Row::opened(path@) {
                Ok(held) => {
                    &&& r is Ok
                    &&& r.unwrap().wf()
                    &&& r.unwrap().indexes().held() == held
                    &&& r.unwrap().rows_file().image() == Seq::<u8>::empty()
                    &&& r.unwrap().rows_file().side() == (SideState { files: Map::empty(), hint: 1 })
                    &&& r.unwrap().rows_file().remembered() == Map::<int, Row>::empty()
                    &&& r.unwrap().rows_file().place().dir_path == path
                    &&& r.unwrap().rows_file().place().spec_is_main()
                },
                Err(e) => r is Err && r->Err_0 == e,
            },
    {
        let place = BDPath::new_main(path.clone());
        let other_index = match Row::get_indexes(path) {
            Ok(indexes) => indexes,
            Err(e) => {
                return Err(e);
            },
        };
        let bin = match F::new(place) {
            Ok(bin) => bin,
            Err(e) => {
                return Err(e);
            },
        };
        let id_index = match IdAsIndexFile::new() {
            Ok(index) => index,
            Err(e) => {
                return Err(e);
            },
        };
        Ok(SpecificTableFile { bin, id_index, other_index })
    }

    /// A table over a main file and indexes that were opened elsewhere.
    pub fn open(bin: F, other_index: Row::Indexes) -> (r: Result<Self, DbError>)
        requires
            bin.wf(),
            bin.faithful(),
            other_index.wf(),
        ensures
            r is Ok,
            r.unwrap().wf(),
            r.unwrap().rows_file() == bin,
            r.unwrap().indexes() == other_index,
    {
        match IdAsIndexFile::new() {
            Ok(id_index) => Ok(SpecificTableFile { bin, id_index, other_index }),
            Err(e) => Err(e),
        }
    }

    /// Gives up the table and hands out its main record file and its
    /// indexes.
    pub fn into_parts(self) -> (parts: (F, Row::Indexes))
        ensures
            parts.0 == self.rows_file(),
            parts.1 == self.indexes(),
    {
        (self.bin, self.other_index)
    }

    /// The main record file.
    pub fn bin(&self) -> (bin: &F)
        ensures
            *bin == self.rows_file(),
    {
        &self.bin
    }

    /// The main record file, to take its logs.
    pub fn bin_mut(&mut self) -> (bin: &mut F)
        ensures
            *bin == old(self).rows_file(),
            final(self).rows_file() == *final(bin),
            final(self).indexes() == old(self).indexes(),
    {
        &mut self.bin
    }

    /// The indexes of the other columns.
    pub fn indexes_mut(&mut self) -> (indexes: &mut Row::Indexes)
        ensures
            *indexes == old(self).indexes(),
            final(self).indexes() == *final(indexes),
            final(self).rows_file() == old(self).rows_file(),
    {
        &mut self.other_index
    }

    /// The row at position `index` of the main file.
    pub fn get_by_index(&mut self, index: usize) -> (r: Result<Row, DbError>)
        requires
            old(self).wf(),
        ensures
            final(self).wf(),
            final(self).indexes() == old(self).indexes(),
            final(self).rows_file().image() == old(self).rows_file().image(),
            final(self).rows_file().side() == old(self).rows_file().side(),
            final(self).rows_file().place() == old(self).rows_file().place(),
            crate::bin_file::row_matches(
                r,
                row_at::<Row>(old(self).rows_file().image(), old(self).rows_file().side().files, index as int),
            ),
    {
        self.bin.get(index)
    }

    /// Searches the main file for the row with the primary key `id`. In a
    /// table whose main file is as the table keeps it the answer is the
    /// right one: the row with the key, or that there is none.
    pub fn get_by_id(&mut self, id: &Row::ID) -> (r: TableGet<Row>)
        requires
            old(self).wf(),
        ensures
            final(self).wf(),
            final(self).indexes() == old(self).indexes(),
            final(self).rows_file().image() == old(self).rows_file().image(),
            final(self).rows_file().side() == old(self).rows_file().side(),
            final(self).rows_file().place() == old(self).rows_file().place(),
            searchable::<Row>(
                old(self).rows_file().image(),
                old(self).rows_file().side().files,
                *id,
            ) ==> right_row::<Row>(
                old(self).rows_file().image(),
                old(self).rows_file().side().files,
                *id,
                r,
            ),
            exists|found: IndexGet<Row>|
                {
                    &&& #[trigger] table_get_of(found, r)
                    &&& found_sound::<Row, Row::ID, ById>(
                        old(self).rows_file().image(),
                        old(self).rows_file().side().files,
                        *id,
                        found,
                    )
                    &&& ordered_for::<Row, Row::ID, ById>(
                        old(self).rows_file().image(),
                        old(self).rows_file().side().files,
                        *id,
                    ) ==> found_right::<Row, Row::ID, ById>(
                        old(self).rows_file().image(),
                        old(self).rows_file().side().files,
                        *id,
                        found,
                    )
                },
    {
        let found = self.id_index.indx(&mut self.bin, id);
        let r = match &found {
            IndexGet::Found(_, rows) => {
                if rows.len() == 1 {
                    TableGet::Found(rows[0].clone())
                } else if rows.len() == 0 {
                    TableGet::InternalError(String::from_str("index returned an empty array"))
                } else {
                    TableGet::InternalError(String::from_str("multiple with the same id"))
                }
            },
            IndexGet::NotFound(_) => TableGet::NotFound,
            IndexGet::InternalError(text) => TableGet::InternalError(text.clone()),
            IndexGet::Failed(e) => TableGet::Failed(*e),
        };
        proof {
            assert(table_get_of(found, r));
            if searchable::<Row>(
                old(self).rows_file().image(),
                old(self).rows_file().side().files,
                *id,
            ) {
                law_get_in_sorted_table::<Row>(
                    old(self).rows_file().image(),
                    old(self).rows_file().side().files,
                    *id,
                    found,
                    r,
                );
            }
        }
        r
    }

    /// All rows, in the order of the main file, which is the order of
    /// their primary keys where the main file is as the table keeps it.
    pub fn get_all(&mut self) -> (r: Result<Vec<Row>, DbError>)
        requires
            old(self).wf(),
        ensures
            final(self).wf(),
            final(self).indexes() == old(self).indexes(),
            final(self).rows_file().image() == old(self).rows_file().image(),
            final(self).rows_file().side() == old(self).rows_file().side(),
            final(self).rows_file().place() == old(self).rows_file().place(),
            rows_match(
                r,
                rows_range::<Row>(old(self).rows_file().image(), old(self).rows_file().side().files, 0, None),
            ),
            table_sorted::<Row>(old(self).rows_file().image(), old(self).rows_file().side().files)
                ==> r is Ok && all_in_key_order::<Row>(
                old(self).rows_file().image(),
                old(self).rows_file().side().files,
                r.unwrap()@,
            ),
    {
        let r = self.bin.gets(0, None);
        proof {
            old(self).rows_file().lemma_wf();
            if table_sorted::<Row>(
                old(self).rows_file().image(),
                old(self).rows_file().side().files,
            ) {
                law_get_all_is_sorted::<Row>(
                    old(self).rows_file().image(),
                    old(self).rows_file().side().files,
                    r,
                );
            }
        }
        r
    }

    /// Whether the table has no row.
    pub fn is_empty(&self) -> (r: Result<bool, DbError>)
        requires
            self.wf(),
        ensures
            r == Ok::<bool, DbError>(row_count(self.rows_file().image(), Row::width()) == 0),
    {
        self.bin.is_empty()
    }

    /// The number of rows.
    pub fn len(&self) -> (r: Result<usize, DbError>)
        requires
            self.wf(),
        ensures
            r == Ok::<usize, DbError>(row_count(self.rows_file().image(), Row::width()) as usize),
            row_count(self.rows_file().image(), Row::width()) <= usize::MAX,
    {
        self.bin.len()
    }

    /// The rows at the positions that the entries of an index point to,
    /// in the order of the entries, or the error of the first of them that
    /// cannot be read.
    pub fn rows_at<K: Ranked>(&mut self, hits: &Vec<IndexRow<K>>) -> (r: Result<Vec<Row>, DbError>)
        requires
            old(self).wf(),
        ensures
            final(self).wf(),
            final(self).indexes() == old(self).indexes(),
            final(self).rows_file().image() == old(self).rows_file().image(),
            final(self).rows_file().side() == old(self).rows_file().side(),
            final(self).rows_file().place() == old(self).rows_file().place(),
            match r {
                Ok(rows) => rows_of_hits(
                    old(self).rows_file().image(),
                    old(self).rows_file().side().files,
                    hits@,
                    rows@,
                ),
                Err(e) => hit_fails::<Row, K>(
                    old(self).rows_file().image(),
                    old(self).rows_file().side().files,
                    hits@,
                    e,
                ),
            },
    {
        let n: usize = hits.len();
        let mut out: Vec<Row> = Vec::new();
        let mut i: usize = 0;
        while i < n
            invariant
                self.wf(),
                self.indexes() == old(self).indexes(),
                self.rows_file().image() == old(self).rows_file().image(),
                self.rows_file().side() == old(self).rows_file().side(),
                self.rows_file().place() == old(self).rows_file().place(),
                n == hits@.len(),
                i <= n,
                out@.len() == i,
                forall|j: int|
                    0 <= j < i ==> row_at::<Row>(
                        old(self).rows_file().image(),
                        old(self).rows_file().side().files,
                        (#[trigger] hits@[j]).index as int,
                    ) == Ok::<Row::Model, DbError>(out@[j].model()),
            decreases n - i,
        {
            match self.bin.get(hits[i].index) {
                Ok(row) => {
                    out.push(row);
                },
                Err(e) => {
                    return Err(e);
                },
            }
            i = i + 1;
        }
        Ok(out)
    }

    /// The rows that a search in the index of a column found: for each
    /// entry the row of the main file at its position.
    pub fn rows_of<K: Ranked>(&mut self, found: IndexGet<IndexRow<K>>) -> (r: TableGet<Vec<Row>>)
        requires
            old(self).wf(),
        ensures
            final(self).wf(),
            final(self).indexes() == old(self).indexes(),
            final(self).rows_file().image() == old(self).rows_file().image(),
            final(self).rows_file().side() == old(self).rows_file().side(),
            final(self).rows_file().place() == old(self).rows_file().place(),
            column_get_of(
                old(self).rows_file().image(),
                old(self).rows_file().side().files,
                found,
                r,
            ),
    {
        match found {
            IndexGet::Found(_, hits) => match self.rows_at(&hits) {
                Ok(rows) => TableGet::Found(rows),
                Err(e) => TableGet::Failed(e),
            },
            IndexGet::NotFound(_) => TableGet::NotFound,
            IndexGet::InternalError(text) => TableGet::InternalError(text),
            IndexGet::Failed(e) => TableGet::Failed(e),
        }
    }

    /// The row that a search in the index of a column found whose values
    /// differ from row to row.
    pub fn row_of<K: Ranked>(&mut self, found: IndexGet<IndexRow<K>>) -> (r: TableGet<Option<Row>>)
        requires
            old(self).wf(),
        ensures
            final(self).wf(),
            final(self).indexes() == old(self).indexes(),
            final(self).rows_file().image() == old(self).rows_file().image(),
            final(self).rows_file().side() == old(self).rows_file().side(),
            final(self).rows_file().place() == old(self).rows_file().place(),
            unique_get_of(
                old(self).rows_file().image(),
                old(self).rows_file().side().files,
                found,
                r,
            ),
    {
        match found {
            IndexGet::Found(_, hits) => {
                if hits.len() == 0 {
                    TableGet::Found(None)
                } else if hits.len() == 1 {
                    match self.get_by_index(hits[0].index) {
                        Ok(row) => TableGet::Found(Some(row)),
                        Err(e) => TableGet::Failed(e),
                    }
                } else {
                    TableGet::InternalError(String::from_str("multiple with the same id"))
                }
            },
            IndexGet::NotFound(_) => TableGet::NotFound,
            IndexGet::InternalError(text) => TableGet::InternalError(text),
            IndexGet::Failed(e) => TableGet::Failed(e),
        }
    }

    /// Searches the table for the rows whose column `Col` has the value
    /// `key`, through the index of that column.
    pub fn get_by_column<Col: Column<Row>, G: BaseBinFile<IndexRow<Col::Key>>>(
        &mut self,
        index: &mut SpecificIndexFile<Col, Row, G>,
        key: &Col::Key,
    ) -> (r: TableGet<Vec<Row>>)
        requires
            old(self).wf(),
            old(index).wf(),
        ensures
            final(self).wf(),
            final(self).indexes() == old(self).indexes(),
            final(self).rows_file().image() == old(self).rows_file().image(),
            final(self).rows_file().side() == old(self).rows_file().side(),
            final(self).rows_file().place() == old(self).rows_file().place(),
            final(index).wf(),
            final(index).unique() == old(index).unique(),
            final(index).file().image() == old(index).file().image(),
            final(index).file().side() == old(index).file().side(),
            final(index).file().place() == old(index).file().place(),
            exists|found: IndexGet<IndexRow<Col::Key>>|
                {
                    &&& #[trigger] column_get_of(
                        old(self).rows_file().image(),
                        old(self).rows_file().side().files,
                        found,
                        r,
                    )
                    &&& found_sound::<IndexRow<Col::Key>, Col::Key, ByData>(
                        old(index).file().image(),
                        old(index).file().side().files,
                        *key,
                        found,
                    )
                    &&& ordered_for::<IndexRow<Col::Key>, Col::Key, ByData>(
                        old(index).file().image(),
                        old(index).file().side().files,
                        *key,
                    ) ==> found_right::<IndexRow<Col::Key>, Col::Key, ByData>(
                        old(index).file().image(),
                        old(index).file().side().files,
                        *key,
                        found,
                    )
                },
    {
        let found = index.indx(key);
        let ghost seen = found;
        let r = self.rows_of(found);
        proof {
            assert(column_get_of(
                old(self).rows_file().image(),
                old(self).rows_file().side().files,
                seen,
                r,
            ));
        }
        r
    }

    /// Searches the table for the row whose column `Col` has the value
    /// `key`, through the index of that column, whose values differ from
    /// row to row.
    pub fn get_by_unique_column<Col: Column<Row>, G: BaseBinFile<IndexRow<Col::Key>>>(
        &mut self,
        index: &mut SpecificIndexFile<Col, Row, G>,
        key: &Col::Key,
    ) -> (r: TableGet<Option<Row>>)
        requires
            old(self).wf(),
            old(index).wf(),
        ensures
            final(self).wf(),
            final(self).indexes() == old(self).indexes(),
            final(self).rows_file().image() == old(self).rows_file().image(),
            final(self).rows_file().side() == old(self).rows_file().side(),
            final(self).rows_file().place() == old(self).rows_file().place(),
            final(index).wf(),
            final(index).unique() == old(index).unique(),
            final(index).file().image() == old(index).file().image(),
            final(index).file().side() == old(index).file().side(),
            final(index).file().place() == old(index).file().place(),
            exists|found: IndexGet<IndexRow<Col::Key>>|
                {
                    &&& #[trigger] unique_get_of(
                        old(self).rows_file().image(),
                        old(self).rows_file().side().files,
                        found,
                        r,
                    )
                    &&& found_sound::<IndexRow<Col::Key>, Col::Key, ByData>(
                        old(index).file().image(),
                        old(index).file().side().files,
                        *key,
                        found,
                    )
                    &&& ordered_for::<IndexRow<Col::Key>, Col::Key, ByData>(
                        old(index).file().image(),
                        old(index).file().side().files,
                        *key,
                    ) ==> found_right::<IndexRow<Col::Key>, Col::Key, ByData>(
                        old(index).file().image(),
                        old(index).file().side().files,
                        *key,
                        found,
                    )
                },
    {
        let found = index.indx(key);
        let ghost seen = found;
        let r = self.row_of(found);
        proof {
            assert(unique_get_of(
                old(self).rows_file().image(),
                old(self).rows_file().side().files,
                seen,
                r,
            ));
        }
        r
    }

    /// Puts `data` into the table, at its place in the order of the
    /// primary keys. Returns `false`, and changes nothing, where a rule on
    /// the values of a column forbids the row or a row with its primary key
    /// is there already. Where the answer is `true` for a row that fits the
    /// table, the main file is as the table keeps it afterwards, with the
    /// row where a search for its key finds it.
    pub fn insert(&mut self, data: &mut Row) -> (r: Result<bool, DbError>)
        requires
            old(self).wf(),
        ensures
            final(self).rows_file().wf(),
            final(self).indexes().wf(),
            fits::<Row>(old(self).rows_file().image(), old(self).rows_file().side(), old(data).model())
                && r == Ok::<bool, DbError>(true) ==> put_right::<Row>(
                old(self).rows_file().image(),
                old(self).rows_file().side().files,
                final(self).rows_file().image(),
                final(self).rows_file().side().files,
                final(data).model(),
                Row::id_of(old(data).model()),
            ),
            final(self).rows_file().place() == old(self).rows_file().place(),
            Row::side_ids(old(data).model()).disjoint(old(self).rows_file().side().files.dom())
                ==> final(self).wf(),
            old(self).rows_file().image().len() % Row::width() == 0 ==> final(self).rows_file().image().len() % Row::width() == 0,
            match Row::Indexes::allows(old(self).indexes().held(), old(data).model()) {
                Err(e) => r == Err::<bool, DbError>(e) && insert_leaves(
                    *old(self),
                    *final(self),
                    old(data).model(),
                    final(data).model(),
                ),
                Ok(None) => r == Ok::<bool, DbError>(false) && insert_leaves(
                    *old(self),
                    *final(self),
                    old(data).model(),
                    final(data).model(),
                ),
                Ok(Some(_)) => exists|found: IndexGet<Row>|
                    {
                        &&& #[trigger] found_sound::<Row, Row::ID, ById>(
                            old(self).rows_file().image(),
                            old(self).rows_file().side().files,
                            Row::id_of(old(data).model()),
                            found,
                        )
                        &&& ordered_for::<Row, Row::ID, ById>(
                            old(self).rows_file().image(),
                            old(self).rows_file().side().files,
                            Row::id_of(old(data).model()),
                        ) ==> found_right::<Row, Row::ID, ById>(
                            old(self).rows_file().image(),
                            old(self).rows_file().side().files,
                            Row::id_of(old(data).model()),
                            found,
                        )
                        &&& insert_follows(
                            found,
                            *old(self),
                            *final(self),
                            old(data).model(),
                            final(data).model(),
                            r,
                        )
                    },
            },
    {
        match self.other_index.check_unique(data) {
            Ok(Some(_)) => {},
            Ok(None) => {
                return Ok(false);
            },
            Err(e) => {
                return Err(e);
            },
        }
        let found = self.id_index.indx(&mut self.bin, data.id());
        let ghost seen = found;
        let index: usize = match found {
            IndexGet::Found(_, _) => {
                return Ok(false);
            },
            IndexGet::NotFound(at) => at,
            IndexGet::InternalError(_) => {
                return Err(DbError::ComparatorFailure);
            },
            IndexGet::Failed(e) => {
                return Err(e);
            },
        };
        match self.bin.insert(index, data) {
            Ok(_) => {},
            Err(e) => {
                return Err(e);
            },
        }
        match self.other_index.insert(index, data) {
            Ok(_) => {},
            Err(e) => {
                return Err(e);
            },
        }
        proof {
            if fits::<Row>(
                old(self).rows_file().image(),
                old(self).rows_file().side(),
                old(data).model(),
            ) {
                law_insert_puts_right(*old(self), *self, old(data).model(), data.model(), seen);
            }
        }
        Ok(true)
    }

    /// Takes the row with the primary key `id` out of the table, with its
    /// side files and its entries in the indexes. Where that succeeds in a
    /// table whose main file is as the table keeps it and in which no two
    /// rows own the same side file, the main file is as the table keeps it
    /// afterwards, without a row with the key, and still knows its rows.
    pub fn remove(&mut self, id: &Row::ID) -> (r: Result<(), DbError>)
        requires
            old(self).wf(),
        ensures
            final(self).rows_file().wf(),
            final(self).indexes().wf(),
            searchable::<Row>(
                old(self).rows_file().image(),
                old(self).rows_file().side().files,
                *id,
            ) && owned_apart::<Row>(
                old(self).rows_file().image(),
                old(self).rows_file().side().files,
            ) && r is Ok ==> final(self).wf() && taken_right::<Row>(
                old(self).rows_file().image(),
                old(self).rows_file().side().files,
                final(self).rows_file().image(),
                final(self).rows_file().side().files,
                *id,
            ),
            final(self).rows_file().place() == old(self).rows_file().place(),
            old(self).rows_file().image().len() % Row::width() == 0 ==> final(self).rows_file().image().len() % Row::width() == 0,
            exists|found: IndexGet<Row>|
                {
                    &&& #[trigger] found_sound::<Row, Row::ID, ById>(
                        old(self).rows_file().image(),
                        old(self).rows_file().side().files,
                        *id,
                        found,
                    )
                    &&& ordered_for::<Row, Row::ID, ById>(
                        old(self).rows_file().image(),
                        old(self).rows_file().side().files,
                        *id,
                    ) ==> found_right::<Row, Row::ID, ById>(
                        old(self).rows_file().image(),
                        old(self).rows_file().side().files,
                        *id,
                        found,
                    )
                    &&& remove_follows(found, *old(self), *final(self), r)
                },
    {
        let found = self.id_index.indx(&mut self.bin, id);
        let index: usize = match found {
            IndexGet::Found(index, rows) => {
                if rows.len() == 0 {
                    return Err(DbError::ConsistencyViolation);
                } else if rows.len() > 1 {
                    return Err(DbError::ConsistencyViolation);
                }
                index
            },
            IndexGet::NotFound(_) => {
                return Err(DbError::NotFound);
            },
            IndexGet::InternalError(_) => {
                return Err(DbError::ComparatorFailure);
            },
            IndexGet::Failed(e) => {
                return Err(e);
            },
        };
        match self.other_index.remove(index) {
            Ok(_) => {},
            Err(e) => {
                return Err(e);
            },
        }
        let ghost mid = self.bin;
        let r = match self.bin.remove(index, Some(1)) {
            Ok(_) => Ok(()),
            Err(e) => Err(e),
        };
        proof {
            mid.lemma_remembered();
            if others_keep_files::<Row>(
                mid.image(),
                mid.side().files,
                index,
                self.bin.side().files,
            ) {
                assert forall|p: int| #[trigger]
                    mid.remembered().contains_key(p) && (p < index || index + 1
                        <= p) implies Row::side_ids(mid.remembered()[p].model()).subset_of(
                    self.bin.side().files.dom(),
                ) by {
                    assert(row_at::<Row>(mid.image(), mid.side().files, p) == Ok::<
                        Row::Model,
                        DbError,
                    >(mid.remembered()[p].model()));
                }
                assert(keep_their_files(
                    mid.remembered(),
                    index,
                    Some(1usize),
                    self.bin.side().files,
                ));
            }
            assert(remove_follows(found, *old(self), *self, r));
            if searchable::<Row>(
                old(self).rows_file().image(),
                old(self).rows_file().side().files,
                *id,
            ) && owned_apart::<Row>(
                old(self).rows_file().image(),
                old(self).rows_file().side().files,
            ) && r is Ok {
                law_remove_takes_right(*old(self), *self, *id, found);
            }
        }
        r
    }

    /// Takes all rows out of the table, with their side files and their
    /// entries in the indexes.
    pub fn clear(&mut self) -> (r: Result<(), DbError>)
        requires
            old(self).wf(),
        ensures
            final(self).wf(),
            final(self).rows_file().place() == old(self).rows_file().place(),
            final(self).rows_file().image() == Seq::<u8>::empty(),
            final(self).rows_file().side().files == if old(self).rows_file().place().spec_is_main() {
                Map::<u64, Seq<u8>>::empty()
            } else {
                old(self).rows_file().side().files
            },
            error_of(r) == Row::Indexes::emptied(old(self).indexes().held()).0,
            final(self).indexes().held() == Row::Indexes::emptied(old(self).indexes().held()).1,
    {
        match self.bin.clear() {
            Ok(_) => {},
            Err(e) => {
                return Err(e);
            },
        }
        self.other_index.clear()
    }
}

impl<Row: Table> SpecificTableFile<Row, CachedBinFile<Row>> {
    /// Makes the cache of the main file forget the row with the primary key
    /// `id`, as after a removal of that row: the search for the key may add
    /// rows that it reads to the cache; then, where one row has the key,
    /// what is cached at its position goes and what is cached after it
    /// moves one down. The file and the indexes stay as they are.
    pub fn remove_from_cache(&mut self, id: &Row::ID) -> (r: TableGet<()>)
        requires
            old(self).wf(),
        ensures
            final(self).rows_file().wf(),
            final(self).indexes() == old(self).indexes(),
            final(self).rows_file().image() == old(self).rows_file().image(),
            final(self).rows_file().side() == old(self).rows_file().side(),
            final(self).rows_file().place() == old(self).rows_file().place(),
            !(r is Found) ==> final(self).wf(),
            exists|found: IndexGet<Row>, searched: Map<int, Row>|
                {
                    &&& #[trigger] forget_follows(
                        found,
                        searched,
                        final(self).rows_file().cached(),
                        r,
                    )
                    &&& old(self).rows_file().cached().submap_of(searched)
                    &&& cache_within(searched, old(self).rows_file().image())
                    &&& cache_true(
                        searched,
                        old(self).rows_file().image(),
                        old(self).rows_file().side().files,
                    )
                    &&& found_sound::<Row, Row::ID, ById>(
                        old(self).rows_file().image(),
                        old(self).rows_file().side().files,
                        *id,
                        found,
                    )
                    &&& ordered_for::<Row, Row::ID, ById>(
                        old(self).rows_file().image(),
                        old(self).rows_file().side().files,
                        *id,
                    ) ==> found_right::<Row, Row::ID, ById>(
                        old(self).rows_file().image(),
                        old(self).rows_file().side().files,
                        *id,
                        found,
                    )
                },
    {
        proof {
            old(self).bin.lemma_cached();
        }
        let found = self.id_index.indx(&mut self.bin, id);
        let ghost seen = found;
        let ghost searched = self.bin.cached();
        proof {
            self.bin.lemma_cached();
            assert(old(self).rows_file().cached().submap_of(searched));
            assert(cache_within(searched, old(self).rows_file().image()));
            assert(cache_true(
                searched,
                old(self).rows_file().image(),
                old(self).rows_file().side().files,
            ));
            assert(found_sound::<Row, Row::ID, ById>(
                old(self).rows_file().image(),
                old(self).rows_file().side().files,
                *id,
                seen,
            ));
            assert(ordered_for::<Row, Row::ID, ById>(
                old(self).rows_file().image(),
                old(self).rows_file().side().files,
                *id,
            ) ==> found_right::<Row, Row::ID, ById>(
                old(self).rows_file().image(),
                old(self).rows_file().side().files,
                *id,
                seen,
            ));
        }
        let index: usize = match found {
            IndexGet::Found(index, rows) => {
                if rows.len() == 0 {
                    let r = TableGet::InternalError(
                        String::from_str("index returned an empty array"),
                    );
                    proof {
                        assert(forget_follows(seen, searched, self.rows_file().cached(), r));
                    }
                    return r;
                } else if rows.len() > 1 {
                    let r = TableGet::InternalError(String::from_str("multiple with the same id"));
                    proof {
                        assert(forget_follows(seen, searched, self.rows_file().cached(), r));
                    }
                    return r;
                }
                index
            },
            IndexGet::NotFound(_) => {
                let r = TableGet::InternalError(String::from_str("remove not found"));
                proof {
                    assert(forget_follows(seen, searched, self.rows_file().cached(), r));
                }
                return r;
            },
            IndexGet::InternalError(text) => {
                let r = TableGet::InternalError(text);
                proof {
                    assert(forget_follows(seen, searched, self.rows_file().cached(), r));
                }
                return r;
            },
            IndexGet::Failed(e) => {
                let r = TableGet::Failed(e);
                proof {
                    assert(forget_follows(seen, searched, self.rows_file().cached(), r));
                }
                return r;
            },
        };
        self.bin.remove_from_cache(index, Some(1));
        let r = TableGet::Found(());
        proof {
            assert(forget_follows(seen, searched, self.rows_file().cached(), r));
        }
        r
    }
}

} // verus!
