//! The record file: rows of one fixed width, one after the other.
//!
//! The file is held as its image, the bytes that it has, together with the
//! directory of side files that the rows refer to. Every change is also
//! logged as a disk operation, so that the file on disk can follow: a row
//! put at the end is appended; rows put elsewhere are spliced in through a
//! temporary file that is renamed over the file; a removal rewrites the
//! file; clearing truncates it.
use crate::bd_path::BDPath;
use crate::binary::{binary_lawful, encode_lawful, erase_lawful, error_of, Binary};
use crate::error::DbError;
use crate::plain::stretch;
use crate::side_files::{SideFiles, SideState};
use std::marker::PhantomData;
use vstd::prelude::*;
use vstd::slice::slice_subrange;

verus! {

/// The number of whole rows of width `w` in an image.
pub open spec fn row_count(image: Seq<u8>, w: nat) -> nat {
    image.len() / w
}

/// The row at position `k` of an image, if the image reaches that far.
pub open spec fn row_at<Row: Binary>(image: Seq<u8>, files: Map<u64, Seq<u8>>, k: int) -> Result<
    Row::Model,
    DbError,
> {
    if (k + 1) * Row::width() > image.len() {
        Err(DbError::OutOfBounds)
    } else {
        Row::decode(stretch(image, Row::width(), k), files)
    }
}

/// The `count` rows from position `from` on, or the error of the first of
/// them that cannot be decoded.
pub open spec fn rows_from<Row: Binary>(
    image: Seq<u8>,
    files: Map<u64, Seq<u8>>,
    from: int,
    count: nat,
) -> Result<Seq<Row::Model>, DbError>
    decreases count,
{
    if count == 0 {
        Ok(Seq::empty())
    } else {
        match rows_from::<Row>(image, files, from, (count - 1) as nat) {
            Err(e) => Err(e),
            Ok(rows) => match Row::decode(stretch(image, Row::width(), from + count - 1), files) {
                Ok(m) => Ok(rows.push(m)),
                Err(e) => Err(e),
            },
        }
    }
}

/// The rows from position `index` on: `len` of them, or all to the end of
/// the image where `len` is `None`. A range that reaches past the end is out
/// of bounds. Reading to the end of an image that does not end with a whole
/// row is refused: the image is corrupt.
pub open spec fn rows_range<Row: Binary>(
    image: Seq<u8>,
    files: Map<u64, Seq<u8>>,
    index: usize,
    len: Option<usize>,
) -> Result<Seq<Row::Model>, DbError> {
    let w = Row::width();
    match len {
        Some(n) => if (index + n) * w > image.len() {
            Err(DbError::OutOfBounds)
        } else {
            rows_from::<Row>(image, files, index as int, n as nat)
        },
        None => if index * w > image.len() {
            Err(DbError::OutOfBounds)
        } else if (image.len() - index * w) % (w as int) != 0 {
            Err(DbError::Corrupt)
        } else {
            rows_from::<Row>(
                image,
                files,
                index as int,
                ((image.len() - index * w) / (w as int)) as nat,
            )
        },
    }
}

/// The values that some rows stand for.
pub open spec fn models_of<Row: Binary>(rows: Seq<Row>) -> Seq<Row::Model> {
    Seq::new(rows.len(), |i: int| rows[i].model())
}

/// Whether a row that was read is what the image holds.
pub open spec fn row_matches<Row: Binary>(
    r: Result<Row, DbError>,
    expect: Result<Row::Model, DbError>,
) -> bool {
    match r {
        Ok(row) => expect == Ok::<Row::Model, DbError>(row.model()),
        Err(e) => expect == Err::<Row::Model, DbError>(e),
    }
}

/// Whether rows that were read are what the image holds.
pub open spec fn rows_match<Row: Binary>(
    r: Result<Vec<Row>, DbError>,
    expect: Result<Seq<Row::Model>, DbError>,
) -> bool {
    match r {
        Ok(rows) => expect == Ok::<Seq<Row::Model>, DbError>(models_of(rows@)),
        Err(e) => expect == Err::<Seq<Row::Model>, DbError>(e),
    }
}

/// What encoding some rows, one after the other, gives.
pub struct EncodedRows<M> {
    /// The images of all rows, or the error of the first that failed.
    pub result: Result<Seq<u8>, DbError>,
    /// The rows afterwards; those after the one that failed are untouched.
    pub values: Seq<M>,
    /// The directory of side files afterwards.
    pub store: SideState,
}

/// Encodes rows in order; stops at the first that fails.
pub open spec fn encode_rows<Row: Binary>(rows: Seq<Row::Model>, store: SideState) -> EncodedRows<
    Row::Model,
>
    decreases rows.len(),
{
    if rows.len() == 0 {
        EncodedRows { result: Ok(Seq::empty()), values: Seq::empty(), store }
    } else {
        let before = encode_rows::<Row>(rows.drop_last(), store);
        match before.result {
            Err(e) => EncodedRows {
                result: Err(e),
                values: before.values.push(rows.last()),
                store: before.store,
            },
            Ok(bytes) => {
                let e = Row::encode(rows.last(), before.store);
                EncodedRows {
                    result: match e.result {
                        Ok(image) => Ok(bytes + image),
                        Err(x) => Err(x),
                    },
                    values: before.values.push(e.value),
                    store: e.store,
                }
            },
        }
    }
}

/// What deleting some rows, one after the other, gives.
pub struct ErasedRows {
    /// The error of the first row that could not be deleted, if there is
    /// one.
    pub failure: Option<DbError>,
    /// The side files afterwards.
    pub files: Map<u64, Seq<u8>>,
}

/// Deletes rows in order; stops at the first that fails.
pub open spec fn erase_rows<Row: Binary>(
    rows: Seq<Row::Model>,
    files: Map<u64, Seq<u8>>,
) -> ErasedRows
    decreases rows.len(),
{
    if rows.len() == 0 {
        ErasedRows { failure: None, files }
    } else {
        let before = erase_rows::<Row>(rows.drop_last(), files);
        match before.failure {
            Some(e) => before,
            None => {
                let x = Row::erase(rows.last(), before.files);
                ErasedRows { failure: x.failure, files: x.files }
            },
        }
    }
}

/// The image after `bytes` were put in at row position `index`. At the
/// position after the last row the bytes are appended.
pub open spec fn image_with(image: Seq<u8>, w: nat, index: usize, bytes: Seq<u8>) -> Seq<u8> {
    if index == row_count(image, w) {
        image + bytes
    } else {
        image.subrange(0, index * w) + bytes + image.subrange(index * w, image.len() as int)
    }
}

/// The image after the `count` rows from position `index` on were taken
/// out.
pub open spec fn image_without(image: Seq<u8>, w: nat, index: usize, count: nat) -> Seq<u8> {
    image.subrange(0, index * w) + image.subrange((index + count) * w, image.len() as int)
}

/// The number of rows that a removal takes out: `len`, or all from `index`
/// on where `len` is `None`.
pub open spec fn removal_count(image: Seq<u8>, w: nat, index: usize, len: Option<usize>) -> int {
    match len {
        Some(n) => n as int,
        None => row_count(image, w) - index,
    }
}

/// Whether the rows remembered for the positions outside the range from
/// `index` on, `len` of them or all where `len` is `None`, have all their
/// side files among `files`.
pub open spec fn keep_their_files<Row: Binary>(
    rows: Map<int, Row>,
    index: usize,
    len: Option<usize>,
    files: Map<u64, Seq<u8>>,
) -> bool {
    forall|p: int| #[trigger]
        rows.contains_key(p) && (p < index || (len matches Some(n) && index + n <= p))
            ==> Row::side_ids(rows[p].model()).subset_of(files.dom())
}

/// What taking rows out of a record file gives: the error, if it fails,
/// the bytes of the file afterwards and the side files afterwards. A file
/// that does not end with a whole row is corrupt; rows that the file does
/// not have are out of bounds. The rows are read first, then deleted one
/// after the other; only when all are deleted are they taken out of the
/// file.
pub open spec fn removed<Row: Binary>(
    image: Seq<u8>,
    files: Map<u64, Seq<u8>>,
    index: usize,
    len: Option<usize>,
) -> (Option<DbError>, Seq<u8>, Map<u64, Seq<u8>>) {
    let w = Row::width();
    let count = removal_count(image, w, index, len);
    if image.len() % w != 0 {
        (Some(DbError::Corrupt), image, files)
    } else if count < 0 || index + count > row_count(image, w) {
        (Some(DbError::OutOfBounds), image, files)
    } else {
        match rows_from::<Row>(image, files, index as int, count as nat) {
            Err(e) => (Some(e), image, files),
            Ok(rows) => {
                let x = erase_rows::<Row>(rows, files);
                (
                    x.failure,
                    if x.failure is None {
                        image_without(image, w, index, count as nat)
                    } else {
                        image
                    },
                    x.files,
                )
            },
        }
    }
}

/// One change to a record file on disk.
#[derive(Debug, PartialEq, Eq)]
pub enum FileOp {
    /// Create the directories of the table and an empty file.
    Create,
    /// Open the file for appending only and write `bytes` at its end.
    Append { bytes: Vec<u8> },
    /// Copy the first `at` bytes of the file to a temporary file beside it,
    /// write `bytes`, copy the rest, then rename the temporary file over the
    /// file.
    Splice { at: usize, bytes: Vec<u8> },
    /// Write the file anew with `bytes`.
    Rewrite { bytes: Vec<u8> },
    /// Cut the file down to no bytes.
    Truncate,
}

/// Whether a logged change is the one for rows with the image `bytes` put
/// in at byte `at`: an append where they were put at the end of the file, a
/// splice through a temporary file where they were put before other rows.
pub open spec fn wrote_rows(op: FileOp, at_end: bool, at: int, bytes: Seq<u8>) -> bool {
    match op {
        FileOp::Append { bytes: written } => at_end && written@ == bytes,
        FileOp::Splice { at: place, bytes: written } => !at_end && place == at && written@
            == bytes,
        _ => false,
    }
}

/// The content of the file after one logged change.
pub open spec fn apply_file_op(file: Seq<u8>, op: FileOp) -> Seq<u8> {
    match op {
        FileOp::Create => Seq::empty(),
        FileOp::Append { bytes } => file + bytes@,
        FileOp::Splice { at, bytes } => if at <= file.len() {
            file.subrange(0, at as int) + bytes@ + file.subrange(at as int, file.len() as int)
        } else {
            file
        },
        FileOp::Rewrite { bytes } => bytes@,
        FileOp::Truncate => Seq::empty(),
    }
}

/// The content of the file after the logged changes, applied in order.
pub open spec fn replay_file_ops(file: Seq<u8>, ops: Seq<FileOp>) -> Seq<u8>
    decreases ops.len(),
{
    if ops.len() == 0 {
        file
    } else {
        apply_file_op(replay_file_ops(file, ops.drop_last()), ops.last())
    }
}

/// What a record file can do, whether it reads through a cache or not.
pub trait BaseBinFile<Row: Binary>: Sized {
    /// The file is in order: its row type is lawful and has a width that
    /// is not zero, and its parts fit each other.
    spec fn wf(&self) -> bool;

    /// The bytes of the file.
    spec fn image(&self) -> Seq<u8>;

    /// The side files of the rows.
    spec fn side(&self) -> SideState;

    /// Where the file lives.
    spec fn place(&self) -> BDPath;

    /// The rows that the handle remembers, by position: what a cache in
    /// front of the file holds, and nothing where there is none.
    spec fn remembered(&self) -> Map<int, Row>;

    /// Whether every row that the handle remembers is the row that the
    /// image holds at its position.
    spec fn faithful(&self) -> bool;

    /// What follows from the file being in order.
    proof fn lemma_wf(&self)
        requires
            self.wf(),
        ensures
            binary_lawful::<Row>(),
            0 < Row::width() <= usize::MAX,
            self.side().wf(),
            self.image().len() <= usize::MAX,
            row_count(self.image(), Row::width()) <= usize::MAX,
    ;

    /// What is remembered is remembered for positions of rows of the file,
    /// and a faithful handle remembers for each the row that the image
    /// holds there.
    proof fn lemma_remembered(&self)
        requires
            self.wf(),
        ensures
            forall|p: int| #[trigger]
                self.remembered().contains_key(p) ==> 0 <= p < row_count(
                    self.image(),
                    Row::width(),
                ),
            self.faithful() ==> forall|p: int| #[trigger]
                self.remembered().contains_key(p) ==> row_at::<Row>(
                    self.image(),
                    self.side().files,
                    p,
                ) == Ok::<Row::Model, DbError>(self.remembered()[p].model()),
    ;

    /// A new, empty record file at `path`.
    fn new(path: BDPath) -> (r: Result<Self, DbError>)
        requires
            binary_lawful::<Row>(),
            0 < Row::width() <= usize::MAX,
        ensures
            r is Ok,
            r.unwrap().wf(),
            r.unwrap().faithful(),
            r.unwrap().image() == Seq::<u8>::empty(),
            r.unwrap().side() == (SideState { files: Map::empty(), hint: 1 }),
            r.unwrap().place() == path,
            r.unwrap().remembered() == Map::<int, Row>::empty(),
    ;

    /// Where the file lives.
    fn path(&self) -> (p: &BDPath)
        ensures
            *p == self.place(),
    ;

    /// The row at position `index`.
    fn get(&mut self, index: usize) -> (r: Result<Row, DbError>)
        requires
            old(self).wf(),
        ensures
            final(self).wf(),
            final(self).image() == old(self).image(),
            final(self).side() == old(self).side(),
            final(self).place() == old(self).place(),
            final(self).faithful() == old(self).faithful(),
            old(self).remembered().submap_of(final(self).remembered()),
            old(self).faithful() ==> row_matches(
                r,
                row_at::<Row>(old(self).image(), old(self).side().files, index as int),
            ),
    ;

    /// The rows from position `index` on: `len` of them, or all to the end
    /// where `len` is `None`.
    fn gets(&mut self, index: usize, len: Option<usize>) -> (r: Result<Vec<Row>, DbError>)
        requires
            old(self).wf(),
        ensures
            final(self).wf(),
            final(self).image() == old(self).image(),
            final(self).side() == old(self).side(),
            final(self).place() == old(self).place(),
            final(self).faithful() == old(self).faithful(),
            old(self).remembered().submap_of(final(self).remembered()),
            old(self).faithful() ==> rows_match(
                r,
                rows_range::<Row>(old(self).image(), old(self).side().files, index, len),
            ),
    ;

    /// Whether the file has no whole row.
    fn is_empty(&self) -> (r: Result<bool, DbError>)
        requires
            self.wf(),
        ensures
            r == Ok::<bool, DbError>(row_count(self.image(), Row::width()) == 0),
    ;

    /// The number of whole rows.
    fn len(&self) -> (r: Result<usize, DbError>)
        requires
            self.wf(),
        ensures
            r == Ok::<usize, DbError>(row_count(self.image(), Row::width()) as usize),
            row_count(self.image(), Row::width()) <= usize::MAX,
    ;

    /// Puts `data` in at position `index`; the rows from there on move up
    /// by one. The row is encoded first: its dynamic fields adopt their
    /// identifiers and the side files are written.
    fn insert(&mut self, index: usize, data: &mut Row) -> (r: Result<(), DbError>)
        requires
            old(self).wf(),
        ensures
            final(self).wf(),
            final(self).place() == old(self).place(),
            old(self).image().len() % Row::width() == 0 ==> final(self).image().len()
                % Row::width() == 0,
            ({
                let w = Row::width();
                let before = old(self).image();
                let e = Row::encode(old(data).model(), old(self).side());
                if index > row_count(before, w) {
                    &&& r == Err::<(), DbError>(DbError::OutOfBounds)
                    &&& final(self).image() == before
                    &&& final(self).side() == old(self).side()
                    &&& final(data).model() == old(data).model()
                    &&& final(self).faithful() == old(self).faithful()
                } else {
                    &&& final(self).side() == e.store
                    &&& final(data).model() == e.value
                    &&& match e.result {
                        Ok(bytes) => r is Ok && final(self).image() == image_with(
                            before,
                            w,
                            index,
                            bytes,
                        ),
                        Err(x) => r == Err::<(), DbError>(x) && final(self).image() == before,
                    }
                    &&& old(self).faithful() && Row::side_ids(old(data).model()).disjoint(
                        old(self).side().files.dom(),
                    ) ==> final(self).faithful()
                }
            }),
    ;

    /// Puts the rows `datas` in at position `index`, in their order; the
    /// rows from there on move up.
    fn inserts(&mut self, index: usize, datas: &mut Vec<Row>) -> (r: Result<(), DbError>)
        requires
            old(self).wf(),
        ensures
            final(self).wf(),
            final(self).place() == old(self).place(),
            final(datas)@.len() == old(datas)@.len(),
            old(self).image().len() % Row::width() == 0 ==> final(self).image().len()
                % Row::width() == 0,
            ({
                let w = Row::width();
                let before = old(self).image();
                let e = encode_rows::<Row>(models_of(old(datas)@), old(self).side());
                if index > row_count(before, w) {
                    &&& r == Err::<(), DbError>(DbError::OutOfBounds)
                    &&& final(self).image() == before
                    &&& final(self).side() == old(self).side()
                    &&& models_of(final(datas)@) == models_of(old(datas)@)
                    &&& final(self).faithful() == old(self).faithful()
                } else {
                    &&& final(self).side() == e.store
                    &&& models_of(final(datas)@) == e.values
                    &&& match e.result {
                        Ok(bytes) => r is Ok && final(self).image() == image_with(
                            before,
                            w,
                            index,
                            bytes,
                        ),
                        Err(x) => r == Err::<(), DbError>(x) && final(self).image() == before,
                    }
                    &&& old(self).faithful() && (forall|i: int|
                        0 <= i < old(datas)@.len() ==> Row::side_ids(
                            #[trigger] old(datas)@[i].model(),
                        ).disjoint(old(self).side().files.dom())) ==> final(self).faithful()
                }
            }),
    ;

    /// Takes out the rows from position `index` on: `len` of them, or all to
    /// the end where `len` is `None`. The rows are decoded and deleted
    /// first, so that their side files go with them. What the handle
    /// remembers of the rows that stay is still right afterwards, unless one
    /// of them owned a side file that went with a row that was taken out.
    fn remove(&mut self, index: usize, len: Option<usize>) -> (r: Result<(), DbError>)
        requires
            old(self).wf(),
        ensures
            final(self).wf(),
            final(self).place() == old(self).place(),
            final(self).side().hint == old(self).side().hint,
            old(self).faithful() && (r is Err || keep_their_files(
                old(self).remembered(),
                index,
                len,
                final(self).side().files,
            )) ==> final(self).faithful(),
            old(self).image().len() % Row::width() == 0 ==> final(self).image().len()
                % Row::width() == 0,
            error_of(r) == removed::<Row>(old(self).image(), old(self).side().files, index, len).0,
            final(self).image() == removed::<Row>(
                old(self).image(),
                old(self).side().files,
                index,
                len,
            ).1,
            final(self).side().files == removed::<Row>(
                old(self).image(),
                old(self).side().files,
                index,
                len,
            ).2,
    ;

    /// Takes out all rows. Where the file is the main record file of a
    /// table, all side files go too.
    fn clear(&mut self) -> (r: Result<(), DbError>)
        requires
            old(self).wf(),
        ensures
            r is Ok,
            final(self).wf(),
            final(self).faithful(),
            final(self).place() == old(self).place(),
            final(self).image() == Seq::<u8>::empty(),
            final(self).side().hint == old(self).side().hint,
            final(self).side().files == if old(self).place().spec_is_main() {
                Map::<u64, Seq<u8>>::empty()
            } else {
                old(self).side().files
            },
    ;
}

/// Reading one row more is reading the rows before it and then that row.
pub proof fn lemma_rows_from_step<Row: Binary>(
    image: Seq<u8>,
    files: Map<u64, Seq<u8>>,
    from: int,
    count: nat,
)
    ensures
        rows_from::<Row>(image, files, from, count + 1) == match rows_from::<Row>(
            image,
            files,
            from,
            count,
        ) {
            Err(e) => Err::<Seq<Row::Model>, DbError>(e),
            Ok(rows) => match Row::decode(stretch(image, Row::width(), from + count), files) {
                Ok(m) => Ok::<Seq<Row::Model>, DbError>(rows.push(m)),
                Err(e) => Err::<Seq<Row::Model>, DbError>(e),
            },
        },
{
}

/// The whole rows of an image fit into it.
pub proof fn lemma_row_count(image: Seq<u8>, w: nat)
    requires
        w > 0,
    ensures
        row_count(image, w) * w <= image.len(),
        row_count(image, w) <= image.len(),
        image.len() < (row_count(image, w) + 1) * w,
        image.len() % w == 0 ==> row_count(image, w) * w == image.len(),
{
    let rows = row_count(image, w);
    vstd::arithmetic::div_mod::lemma_fundamental_div_mod(image.len() as int, w as int);
    assert(w * (image.len() / w) == rows * w) by (nonlinear_arith)
        requires
            rows == image.len() / w,
    ;
    assert(rows <= rows * w) by (nonlinear_arith)
        requires
            w >= 1,
            rows >= 0,
    ;
    assert((rows + 1) * w == rows * w + w) by (nonlinear_arith);
}

/// A position whose row lies within the image is the position of a whole
/// row.
pub proof fn lemma_row_within(image: Seq<u8>, w: nat, k: int)
    requires
        w > 0,
        0 <= k,
    ensures
        ((k + 1) * w <= image.len()) == (k < row_count(image, w)),
{
    lemma_row_count(image, w);
    let rows = row_count(image, w) as int;
    if k < rows {
        assert((k + 1) * w <= rows * w) by (nonlinear_arith)
            requires
                k + 1 <= rows,
                w > 0,
        ;
    } else {
        assert((k + 1) * w >= (rows + 1) * w) by (nonlinear_arith)
            requires
                k >= rows,
                w > 0,
        ;
    }
}

/// The place of row `k` in an image of rows of width `w`.
pub proof fn lemma_row_place(k: int, w: int, rows: int)
    requires
        0 <= k < rows,
        0 < w,
    ensures
        0 <= k * w,
        k * w + w <= rows * w,
        (k + 1) * w == k * w + w,
{
    assert(0 <= k * w && k * w + w <= rows * w && (k + 1) * w == k * w + w) by (nonlinear_arith)
        requires
            0 <= k < rows,
            0 < w,
    ;
}

/// A record file that is read from its image each time.
pub struct BinFile<Row: Binary> {
    path: BDPath,
    bytes: Vec<u8>,
    dyns: SideFiles,
    log: Vec<FileOp>,
    base: Ghost<Seq<u8>>,
    row: PhantomData<Row>,
}

impl<Row: Binary> BinFile<Row> {
    /// The changes made to the file since the log was last taken.
    pub closed spec fn pending(&self) -> Seq<FileOp> {
        self.log@
    }

    /// The bytes of the file as they were when the log was last taken.
    pub closed spec fn synced(&self) -> Seq<u8> {
        self.base@
    }

    /// The directory of side files, with its own log.
    pub closed spec fn side_files(&self) -> SideFiles {
        self.dyns
    }

    /// The logged changes lead from the bytes as they were when the log was
    /// last taken to the bytes as they are.
    pub proof fn lemma_log(&self)
        requires
            self.wf(),
        ensures
            replay_file_ops(self.synced(), self.pending()) == self.image(),
            self.side_files().wf(),
            self.side_files()@ == self.side(),
    {
    }

    /// A record file at `path` with the bytes and the side files that were
    /// found there.
    pub fn open(path: BDPath, bytes: Vec<u8>, dyns: SideFiles) -> (file: Self)
        requires
            binary_lawful::<Row>(),
            0 < Row::width() <= usize::MAX,
            dyns.wf(),
        ensures
            file.wf(),
            file.faithful(),
            file.image() == bytes@,
            file.side() == dyns@,
            file.place() == path,
            file.pending() == Seq::<FileOp>::empty(),
            file.synced() == bytes@,
    {
        proof {
            dyns.lemma_wf();
        }
        BinFile {
            path,
            base: Ghost(bytes@),
            bytes,
            dyns,
            log: Vec::new(),
            row: PhantomData,
        }
    }

    /// A new record file at `path` that holds the rows `default`.
    pub fn new_default(path: BDPath, default: &mut Vec<Row>) -> (r: Result<Self, DbError>)
        requires
            binary_lawful::<Row>(),
            0 < Row::width() <= usize::MAX,
        ensures
            final(default)@.len() == old(default)@.len(),
            ({
                let e = encode_rows::<Row>(
                    models_of(old(default)@),
                    SideState { files: Map::empty(), hint: 1 },
                );
                &&& models_of(final(default)@) == e.values
                &&& match e.result {
                    Ok(bytes) => r is Ok && r.unwrap().wf() && r.unwrap().image() == bytes
                        && r.unwrap().side() == e.store && r.unwrap().place() == path,
                    Err(x) => r is Err && r->Err_0 == x,
                }
            }),
    {
        let mut file = match Self::new(path) {
            Ok(file) => file,
            Err(e) => {
                return Err(e);
            },
        };
        proof {
            lemma_row_count(Seq::<u8>::empty(), Row::width());
            assert(file.side() == (SideState { files: Map::empty(), hint: 1 }));
        }
        match file.inserts(0, default) {
            Ok(_) => {
                proof {
                    let e = encode_rows::<Row>(
                        models_of(old(default)@),
                        SideState { files: Map::empty(), hint: 1 },
                    );
                    assert(Seq::<u8>::empty() + e.result.unwrap() =~= e.result.unwrap());
                }
                Ok(file)
            },
            Err(e) => Err(e),
        }
    }

    /// The bytes of the file.
    pub fn bytes(&self) -> (bytes: &Vec<u8>)
        ensures
            bytes@ == self.image(),
    {
        &self.bytes
    }

    /// Gives up the handle and hands out what the file holds: its bytes and
    /// its side files.
    pub fn into_parts(self) -> (parts: (Vec<u8>, SideFiles))
        requires
            self.wf(),
        ensures
            parts.0@ == self.image(),
            parts.1@ == self.side(),
            parts.1.wf(),
    {
        (self.bytes, self.dyns)
    }

    /// The number of side files.
    pub fn nb_dyns(&self) -> (n: usize)
        requires
            self.wf(),
        ensures
            n == self.side().files.dom().len(),
    {
        self.dyns.len()
    }

    /// Starts the search for the next fresh side-file identifier at `hint`.
    pub fn reseed(&mut self, hint: u64)
        requires
            old(self).wf(),
        ensures
            final(self).wf(),
            final(self).faithful() == old(self).faithful(),
            final(self).image() == old(self).image(),
            final(self).place() == old(self).place(),
            final(self).side() == (SideState { files: old(self).side().files, hint }),
            final(self).pending() == old(self).pending(),
            final(self).synced() == old(self).synced(),
    {
        self.dyns.reseed(hint);
    }

    /// Hands over the changes made to the file since the log was last
    /// taken, for the caller to carry out on disk, and starts a new log.
    pub fn take_log(&mut self) -> (ops: Vec<FileOp>)
        requires
            old(self).wf(),
        ensures
            final(self).wf(),
            final(self).image() == old(self).image(),
            final(self).side() == old(self).side(),
            final(self).place() == old(self).place(),
            ops@ == old(self).pending(),
            final(self).pending() == Seq::<FileOp>::empty(),
            final(self).synced() == old(self).image(),
            replay_file_ops(old(self).synced(), ops@) == old(self).image(),
    {
        let mut ops: Vec<FileOp> = Vec::new();
        std::mem::swap(&mut self.log, &mut ops);
        self.base = Ghost(self.bytes@);
        ops
    }

    /// Hands over the changes made to the side files since their log was
    /// last taken.
    pub fn take_side_log(&mut self) -> (ops: Vec<crate::side_files::SideOp>)
        requires
            old(self).wf(),
        ensures
            final(self).wf(),
            final(self).image() == old(self).image(),
            final(self).side() == old(self).side(),
            final(self).place() == old(self).place(),
            final(self).pending() == old(self).pending(),
            final(self).synced() == old(self).synced(),
            ops@ == old(self).side_files().pending(),
            crate::side_files::replay_side_ops(old(self).side_files().synced(), ops@) == old(
                self,
            ).side().files,
    {
        self.dyns.take_log()
    }

    /// Writes a change to the log.
    fn note(&mut self, op: FileOp)
        requires
            replay_file_ops(old(self).base@, old(self).log@.push(op)) == old(self).bytes@,
        ensures
            final(self).log@ == old(self).log@.push(op),
            final(self).base == old(self).base,
            final(self).bytes == old(self).bytes,
            final(self).dyns == old(self).dyns,
            final(self).path == old(self).path,
            replay_file_ops(final(self).base@, final(self).log@) == final(self).bytes@,
    {
        self.log.push(op);
    }

    /// The number of rows that a read from position `index` on covers:
    /// `len` of them, or all to the end where `len` is `None`; or why the
    /// read is refused.
    pub fn range_count(&self, index: usize, len: Option<usize>) -> (r: Result<usize, DbError>)
        requires
            self.wf(),
        ensures
            match r {
                Ok(count) => {
                    &&& index + count <= row_count(self.image(), Row::width())
                    &&& (index + count) * Row::width() <= self.image().len()
                    &&& len is Some ==> count == len.unwrap()
                    &&& len is None ==> index + count == row_count(self.image(), Row::width())
                    &&& rows_range::<Row>(self.image(), self.side().files, index, len)
                        == rows_from::<Row>(
                        self.image(),
                        self.side().files,
                        index as int,
                        count as nat,
                    )
                },
                Err(e) => rows_range::<Row>(self.image(), self.side().files, index, len) == Err::<
                    Seq<Row::Model>,
                    DbError,
                >(e),
            },
    {
        let w: usize = Row::bin_size();
        let size: usize = self.bytes.len();
        let rows: usize = size / w;
        proof {
            vstd::arithmetic::div_mod::lemma_fundamental_div_mod(size as int, w as int);
            assert(w * (size / w) == (size / w) * w) by (nonlinear_arith);
        }
        match len {
            Some(n) => {
                if index > rows || n > rows - index {
                    proof {
                        assert((index + n) * w >= (rows + 1) * w) by (nonlinear_arith)
                            requires
                                index + n >= rows + 1,
                                w > 0,
                        ;
                        assert((rows + 1) * w == rows * w + w) by (nonlinear_arith);
                    }
                    return Err(DbError::OutOfBounds);
                }
                proof {
                    assert((index + n) * w <= rows * w) by (nonlinear_arith)
                        requires
                            index + n <= rows,
                            w > 0,
                    ;
                }
                Ok(n)
            },
            None => {
                if index > rows {
                    proof {
                        assert(index * w >= (rows + 1) * w) by (nonlinear_arith)
                            requires
                                index >= rows + 1,
                                w > 0,
                        ;
                        assert((rows + 1) * w == rows * w + w) by (nonlinear_arith);
                    }
                    return Err(DbError::OutOfBounds);
                }
                proof {
                    assert(index * w <= rows * w) by (nonlinear_arith)
                        requires
                            index <= rows,
                            w > 0,
                    ;
                    assert((rows - index) * w == rows * w - index * w) by (nonlinear_arith);
                    let rest = size - index * w;
                    assert(rest == (rows - index) * w + size % w);
                    vstd::arithmetic::div_mod::lemma_fundamental_div_mod_converse(
                        rest,
                        w as int,
                        rows - index,
                        (size % w) as int,
                    );
                }
                if size % w != 0 {
                    return Err(DbError::Corrupt);
                }
                Ok(rows - index)
            },
        }
    }

    /// Where row `index` lies in the file, if the file reaches that far.
    fn row_bounds(&self, index: usize) -> (r: Option<(usize, usize)>)
        requires
            0 < Row::width() <= usize::MAX,
        ensures
            match r {
                Some((start, end)) => start == index * Row::width() && end == start
                    + Row::width() && end == (index + 1) * Row::width() && end
                    <= self.bytes@.len(),
                None => (index + 1) * Row::width() > self.bytes@.len(),
            },
    {
        let w: usize = Row::bin_size();
        let size: usize = self.bytes.len();
        let rows: usize = size / w;
        proof {
            vstd::arithmetic::div_mod::lemma_fundamental_div_mod(size as int, w as int);
            assert(w * (size / w) == (size / w) * w) by (nonlinear_arith);
        }
        if index < rows {
            proof {
                lemma_row_place(index as int, w as int, rows as int);
            }
            Some((index * w, index * w + w))
        } else {
            proof {
                assert((index + 1) * w >= (rows + 1) * w) by (nonlinear_arith)
                    requires
                        index >= rows,
                        w > 0,
                ;
                assert((rows + 1) * w == rows * w + w) by (nonlinear_arith);
            }
            None
        }
    }
}

impl<Row: Binary> BaseBinFile<Row> for BinFile<Row> {
    closed spec fn wf(&self) -> bool {
        &&& self.dyns.wf()
        &&& binary_lawful::<Row>()
        &&& 0 < Row::width() <= usize::MAX
        &&& replay_file_ops(self.base@, self.log@) == self.bytes@
    }

    closed spec fn image(&self) -> Seq<u8> {
        self.bytes@
    }

    closed spec fn side(&self) -> SideState {
        self.dyns@
    }

    closed spec fn place(&self) -> BDPath {
        self.path
    }

    /// A file that is read from its image each time remembers no row.
    open spec fn remembered(&self) -> Map<int, Row> {
        Map::empty()
    }

    open spec fn faithful(&self) -> bool {
        true
    }

    proof fn lemma_wf(&self) {
        self.dyns.lemma_wf();
        lemma_row_count(self.bytes@, Row::width());
        assert(self.bytes.len() == self.bytes@.len());
    }

    proof fn lemma_remembered(&self) {
    }

    /// The log says that the directories and the file are to be created.
    fn new(path: BDPath) -> (r: Result<Self, DbError>)
        ensures
            r.unwrap().pending() == Seq::<FileOp>::empty().push(FileOp::Create),
            r.unwrap().synced() == Seq::<u8>::empty(),
    {
        let mut log: Vec<FileOp> = Vec::new();
        log.push(FileOp::Create);
        let file = BinFile {
            path,
            bytes: Vec::new(),
            dyns: SideFiles::new(1),
            log,
            base: Ghost(Seq::empty()),
            row: PhantomData,
        };
        proof {
            assert(file.log@.drop_last() =~= Seq::<FileOp>::empty());
            assert(replay_file_ops(file.base@, file.log@) =~= file.bytes@);
        }
        Ok(file)
    }

    fn path(&self) -> (p: &BDPath) {
        &self.path
    }

    /// Reading changes nothing: not the file, not its side files, not the
    /// logs.
    fn get(&mut self, index: usize) -> (r: Result<Row, DbError>)
        ensures
            *final(self) == *old(self),
    {
        match self.row_bounds(index) {
            None => Err(DbError::OutOfBounds),
            Some((start, end)) => {
                let piece = slice_subrange(self.bytes.as_slice(), start, end);
                proof {
                    assert(piece@.subrange(0, Row::width() as int) =~= stretch(
                        self.bytes@,
                        Row::width(),
                        index as int,
                    ));
                }
                Row::from_bin(piece, &self.dyns)
            },
        }
    }

    /// Reading changes nothing: not the file, not its side files, not the
    /// logs.
    fn gets(&mut self, index: usize, len: Option<usize>) -> (r: Result<Vec<Row>, DbError>)
        ensures
            *final(self) == *old(self),
    {
        match self.range_count(index, len) {
            Ok(count) => self.read_rows(index, count),
            Err(e) => Err(e),
        }
    }

    fn is_empty(&self) -> (r: Result<bool, DbError>) {
        Ok(self.bytes.len() / Row::bin_size() == 0)
    }

    fn len(&self) -> (r: Result<usize, DbError>) {
        Ok(self.bytes.len() / Row::bin_size())
    }

    /// The log says how the row got into the file: appended where it was
    /// put after the last row, spliced in through a temporary file where it
    /// was put before another.
    fn insert(&mut self, index: usize, data: &mut Row) -> (r: Result<(), DbError>)
        ensures
            r is Ok ==> {
                &&& final(self).pending().len() == old(self).pending().len() + 1
                &&& final(self).pending().drop_last() == old(self).pending()
                &&& wrote_rows(
                    final(self).pending().last(),
                    index == row_count(old(self).image(), Row::width()),
                    index * Row::width(),
                    Row::encode(old(data).model(), old(self).side()).result.unwrap(),
                )
            },
            r is Err ==> final(self).pending() == old(self).pending(),
            final(self).synced() == old(self).synced(),
    {
        let w: usize = Row::bin_size();
        let size: usize = self.bytes.len();
        let rows: usize = size / w;
        if index > rows {
            return Err(DbError::OutOfBounds);
        }
        proof {
            self.dyns.lemma_wf();
            assert(encode_lawful::<Row>(data.model(), self.dyns@));
        }
        let image = match data.as_bin(&mut self.dyns) {
            Ok(image) => image,
            Err(e) => {
                return Err(e);
            },
        };
        proof {
            if self.bytes@.len() % (w as nat) == 0 {
                assert(image@.len() == 1 * w) by (nonlinear_arith)
                    requires
                        image@.len() == w,
                ;
                crate::laws::law_insert_keeps_rows_whole(self.bytes@, w as nat, index, image@, 1);
            }
        }
        self.put_in(index, image);
        Ok(())
    }

    /// The log says how the rows got into the file: appended where they
    /// were put after the last row, spliced in through a temporary file where
    /// they were put before another.
    fn inserts(&mut self, index: usize, datas: &mut Vec<Row>) -> (r: Result<(), DbError>)
        ensures
            r is Ok ==> {
                &&& final(self).pending().len() == old(self).pending().len() + 1
                &&& final(self).pending().drop_last() == old(self).pending()
                &&& wrote_rows(
                    final(self).pending().last(),
                    index == row_count(old(self).image(), Row::width()),
                    index * Row::width(),
                    encode_rows::<Row>(models_of(old(datas)@), old(self).side()).result.unwrap(),
                )
            },
            r is Err ==> final(self).pending() == old(self).pending(),
            final(self).synced() == old(self).synced(),
    {
        let w: usize = Row::bin_size();
        let size: usize = self.bytes.len();
        let rows: usize = size / w;
        if index > rows {
            return Err(DbError::OutOfBounds);
        }
        let ghost first = models_of(datas@);
        let ghost store = self.dyns@;
        let n: usize = datas.len();
        let mut image: Vec<u8> = Vec::new();
        let mut k: usize = 0;
        proof {
            assert(first.subrange(0, 0) =~= Seq::<Row::Model>::empty());
            assert(models_of(datas@).subrange(0, 0) =~= Seq::<Row::Model>::empty());
        }
        while k < n
            invariant
                n == datas@.len(),
                n == old(datas)@.len(),
                first == models_of(old(datas)@),
                store == old(self).dyns@,
                first.len() == n,
                k <= n,
                index <= row_count(old(self).bytes@, Row::width()),
                0 < Row::width() <= usize::MAX,
                replay_file_ops(self.base@, self.log@) == self.bytes@,
                self.dyns.wf(),
                self.dyns.synced() == old(self).dyns.synced(),
                self.bytes == old(self).bytes,
                self.log == old(self).log,
                self.base == old(self).base,
                self.path == old(self).path,
                binary_lawful::<Row>(),
                w == Row::width(),
                image@.len() == k * w,
                forall|i: int| k <= i < n ==> (#[trigger] datas@[i]).model() == first[i],
                encode_rows::<Row>(first.subrange(0, k as int), store) == (EncodedRows {
                    result: Ok(image@),
                    values: models_of(datas@).subrange(0, k as int),
                    store: self.dyns@,
                }),
            decreases n - k,
        {
            let ghost before = datas@;
            proof {
                self.dyns.lemma_wf();
                assert(encode_lawful::<Row>(datas@[k as int].model(), self.dyns@));
                assert(first.subrange(0, k + 1).drop_last() =~= first.subrange(0, k as int));
                assert(first.subrange(0, k + 1).last() == first[k as int]);
            }
            let outcome = datas[k].as_bin(&mut self.dyns);
            proof {
                assert(models_of(datas@).subrange(0, k + 1) =~= models_of(before).subrange(
                    0,
                    k as int,
                ).push(datas@[k as int].model()));
                assert forall|i: int| k + 1 <= i < n implies (#[trigger] datas@[i]).model()
                    == first[i] by {
                    assert(datas@[i] == before[i]);
                }
            }
            match outcome {
                Ok(mut piece) => {
                    proof {
                        assert((k + 1) * w == k * w + w) by (nonlinear_arith);
                    }
                    image.append(&mut piece);
                },
                Err(e) => {
                    proof {
                        lemma_encode_rows_fails::<Row>(first, store, (k + 1) as nat);
                        assert(models_of(datas@) =~= encode_rows::<Row>(first, store).values) by {
                            let values = encode_rows::<Row>(first, store).values;
                            assert forall|i: int| 0 <= i < n implies models_of(datas@)[i]
                                == values[i] by {
                                if i <= k {
                                    assert(models_of(datas@).subrange(0, k + 1)[i] == models_of(
                                        datas@,
                                    )[i]);
                                }
                            }
                        }
                    }
                    return Err(e);
                },
            }
            k = k + 1;
        }
        proof {
            assert(first.subrange(0, n as int) =~= first);
            assert(models_of(datas@).subrange(0, n as int) =~= models_of(datas@));
            if self.bytes@.len() % (w as nat) == 0 {
                crate::laws::law_insert_keeps_rows_whole(
                    self.bytes@,
                    w as nat,
                    index,
                    image@,
                    n as nat,
                );
            }
        }
        self.put_in(index, image);
        Ok(())
    }

    /// The log says that the file was written anew.
    fn remove(&mut self, index: usize, len: Option<usize>) -> (r: Result<(), DbError>)
        ensures
            r is Ok ==> {
                &&& final(self).pending().len() == old(self).pending().len() + 1
                &&& final(self).pending().drop_last() == old(self).pending()
                &&& final(self).pending().last() matches FileOp::Rewrite { bytes } && bytes@
                    == final(self).image()
            },
            r is Err ==> final(self).pending() == old(self).pending(),
            final(self).synced() == old(self).synced(),
    {
        let w: usize = Row::bin_size();
        let size: usize = self.bytes.len();
        if size % w != 0 {
            return Err(DbError::Corrupt);
        }
        let rows: usize = size / w;
        if index > rows {
            return Err(DbError::OutOfBounds);
        }
        let count: usize = match len {
            Some(n) => n,
            None => rows - index,
        };
        if count > rows - index {
            return Err(DbError::OutOfBounds);
        }
        proof {
            vstd::arithmetic::div_mod::lemma_fundamental_div_mod(size as int, w as int);
            assert(w * (size / w) == (size / w) * w) by (nonlinear_arith);
            assert((index + count) * w <= rows * w) by (nonlinear_arith)
                requires
                    index + count <= rows,
                    w > 0,
            ;
            assert(index * w <= (index + count) * w) by (nonlinear_arith)
                requires
                    count >= 0,
                    index >= 0,
                    w > 0,
            ;
        }
        let doomed = match self.read_rows(index, count) {
            Ok(rows) => rows,
            Err(e) => {
                return Err(e);
            },
        };
        let ghost files = self.dyns@.files;
        let ghost models = models_of(doomed@);
        let mut k: usize = 0;
        proof {
            assert(models.subrange(0, 0) =~= Seq::<Row::Model>::empty());
        }
        while k < count
            invariant
                count == doomed@.len(),
                models == models_of(doomed@),
                files == old(self).dyns@.files,
                rows_from::<Row>(old(self).bytes@, files, index as int, count as nat) == Ok::<
                    Seq<Row::Model>,
                    DbError,
                >(models),
                old(self).bytes@.len() % Row::width() == 0,
                index + count <= row_count(old(self).bytes@, Row::width()),
                removal_count(old(self).bytes@, Row::width(), index, len) == count,
                k <= count,
                0 < Row::width() <= usize::MAX,
                binary_lawful::<Row>(),
                replay_file_ops(self.base@, self.log@) == self.bytes@,
                self.dyns.wf(),
                self.dyns.synced() == old(self).dyns.synced(),
                self.dyns@.hint == old(self).dyns@.hint,
                self.bytes == old(self).bytes,
                self.log == old(self).log,
                self.base == old(self).base,
                self.path == old(self).path,
                erase_rows::<Row>(models.subrange(0, k as int), files).failure is None,
                erase_rows::<Row>(models.subrange(0, k as int), files).files == self.dyns@.files,
            decreases count - k,
        {
            proof {
                assert(models.subrange(0, k + 1).drop_last() =~= models.subrange(0, k as int));
                assert(models.subrange(0, k + 1).last() == doomed@[k as int].model());
            }
            match doomed[k].delete(&mut self.dyns) {
                Ok(_) => {},
                Err(e) => {
                    proof {
                        lemma_erase_rows_fails::<Row>(models, files, (k + 1) as nat);
                    }
                    return Err(e);
                },
            }
            k = k + 1;
        }
        proof {
            assert(models.subrange(0, count as int) =~= models);
        }
        let mut tail = self.bytes.split_off((index + count) * w);
        self.bytes.truncate(index * w);
        self.bytes.append(&mut tail);
        let copy = vstd::slice::slice_to_vec(self.bytes.as_slice());
        proof {
            crate::laws::law_remove_keeps_rows_whole(
                old(self).bytes@,
                w as nat,
                index,
                count as nat,
            );
            assert(self.bytes@ =~= image_without(old(self).bytes@, w as nat, index, count as nat));
            assert(self.log@.push(FileOp::Rewrite { bytes: copy }).drop_last() =~= self.log@);
        }
        self.note(FileOp::Rewrite { bytes: copy });
        Ok(())
    }

    /// The log says that the file was cut down to no bytes.
    fn clear(&mut self) -> (r: Result<(), DbError>)
        ensures
            final(self).pending().len() == old(self).pending().len() + 1,
            final(self).pending().drop_last() == old(self).pending(),
            final(self).pending().last() is Truncate,
            final(self).synced() == old(self).synced(),
    {
        self.bytes.clear();
        if self.path.is_main() {
            self.dyns.clear();
        }
        proof {
            assert(self.log@.push(FileOp::Truncate).drop_last() =~= self.log@);
        }
        self.note(FileOp::Truncate);
        Ok(())
    }
}

impl<Row: Binary> BinFile<Row> {
    /// Puts the image of one or more rows in at position `index`, which is
    /// at most the number of rows.
    fn put_in(&mut self, index: usize, image: Vec<u8>)
        requires
            0 < Row::width() <= usize::MAX,
            index <= row_count(old(self).bytes@, Row::width()),
            replay_file_ops(old(self).base@, old(self).log@) == old(self).bytes@,
        ensures
            final(self).bytes@ == image_with(old(self).bytes@, Row::width(), index, image@),
            final(self).dyns == old(self).dyns,
            final(self).path == old(self).path,
            final(self).base == old(self).base,
            replay_file_ops(final(self).base@, final(self).log@) == final(self).bytes@,
            final(self).log@.len() == old(self).log@.len() + 1,
            final(self).log@.drop_last() == old(self).log@,
            wrote_rows(
                final(self).log@.last(),
                index == row_count(old(self).bytes@, Row::width()),
                index * Row::width(),
                image@,
            ),
    {
        let w: usize = Row::bin_size();
        let size: usize = self.bytes.len();
        let rows: usize = size / w;
        let mut copy = vstd::slice::slice_to_vec(image.as_slice());
        proof {
            vstd::arithmetic::div_mod::lemma_fundamental_div_mod(size as int, w as int);
            assert(w * (size / w) == (size / w) * w) by (nonlinear_arith);
        }
        if index == rows {
            self.bytes.append(&mut copy);
            proof {
                assert(self.log@.push(FileOp::Append { bytes: image }).drop_last() =~= self.log@);
            }
            self.note(FileOp::Append { bytes: image });
        } else {
            proof {
                lemma_row_place(index as int, w as int, rows as int);
            }
            let at: usize = index * w;
            let mut tail = self.bytes.split_off(at);
            self.bytes.append(&mut copy);
            self.bytes.append(&mut tail);
            proof {
                assert(self.bytes@ =~= image_with(old(self).bytes@, w as nat, index, image@));
                assert(self.log@.push(FileOp::Splice { at, bytes: image }).drop_last()
                    =~= self.log@);
            }
            self.note(FileOp::Splice { at, bytes: image });
        }
    }

    /// Decodes the `count` rows from position `index` on, which the file
    /// has.
    fn read_rows(&self, index: usize, count: usize) -> (r: Result<Vec<Row>, DbError>)
        requires
            self.dyns.wf(),
            0 < Row::width() <= usize::MAX,
            (index + count) * Row::width() <= self.bytes@.len(),
        ensures
            rows_match(
                r,
                rows_from::<Row>(self.bytes@, self.dyns@.files, index as int, count as nat),
            ),
            r is Ok ==> r.unwrap()@.len() == count,
    {
        let w: usize = Row::bin_size();
        let size: usize = self.bytes.len();
        let mut out: Vec<Row> = Vec::new();
        let mut k: usize = 0;
        proof {
            assert(index + count <= (index + count) * w) by (nonlinear_arith)
                requires
                    w >= 1,
                    index + count >= 0,
            ;
            assert(models_of(out@) =~= Seq::<Row::Model>::empty());
        }
        while k < count
            invariant
                w == Row::width(),
                w > 0,
                (index + count) * w <= self.bytes@.len(),
                self.bytes@.len() == size,
                index + count <= size,
                k <= count,
                out@.len() == k,
                self.dyns.wf(),
                rows_from::<Row>(self.bytes@, self.dyns@.files, index as int, k as nat) == Ok::<
                    Seq<Row::Model>,
                    DbError,
                >(models_of(out@)),
            decreases count - k,
        {
            proof {
                lemma_row_place(index + k, w as int, index + count);
                lemma_rows_from_step::<Row>(self.bytes@, self.dyns@.files, index as int, k as nat);
            }
            let start: usize = (index + k) * w;
            let piece = slice_subrange(self.bytes.as_slice(), start, start + w);
            proof {
                assert(piece@.subrange(0, w as int) =~= stretch(self.bytes@, w as nat, index + k));
            }
            match Row::from_bin(piece, &self.dyns) {
                Ok(row) => {
                    proof {
                        assert(models_of(out@).push(row.model()) =~= models_of(out@.push(row)));
                    }
                    out.push(row);
                },
                Err(e) => {
                    proof {
                        lemma_rows_from_fails::<Row>(
                            self.bytes@,
                            self.dyns@.files,
                            index as int,
                            (k + 1) as nat,
                            count as nat,
                        );
                    }
                    return Err(e);
                },
            }
            k = k + 1;
        }
        Ok(out)
    }
}

/// Once a row cannot be decoded, reading further rows fails the same way.
pub proof fn lemma_rows_from_fails<Row: Binary>(
    image: Seq<u8>,
    files: Map<u64, Seq<u8>>,
    from: int,
    failed: nat,
    count: nat,
)
    requires
        failed <= count,
        rows_from::<Row>(image, files, from, failed) is Err,
    ensures
        rows_from::<Row>(image, files, from, count) == rows_from::<Row>(image, files, from, failed),
    decreases count - failed,
{
    if failed < count {
        lemma_rows_from_fails::<Row>(image, files, from, failed, (count - 1) as nat);
    }
}

/// Once a row cannot be encoded, the rows after it are left alone.
pub proof fn lemma_encode_rows_fails<Row: Binary>(
    rows: Seq<Row::Model>,
    store: SideState,
    failed: nat,
)
    requires
        failed <= rows.len(),
        encode_rows::<Row>(rows.subrange(0, failed as int), store).result is Err,
    ensures
        ({
            let part = encode_rows::<Row>(rows.subrange(0, failed as int), store);
            let all = encode_rows::<Row>(rows, store);
            &&& all.result == part.result
            &&& all.store == part.store
            &&& all.values.len() == rows.len()
            &&& forall|i: int| 0 <= i < failed ==> all.values[i] == part.values[i]
            &&& forall|i: int| failed <= i < rows.len() ==> all.values[i] == rows[i]
        }),
    decreases rows.len() - failed,
{
    lemma_encode_rows_len::<Row>(rows.subrange(0, failed as int), store);
    lemma_encode_rows_len::<Row>(rows, store);
    if failed < rows.len() {
        let front = rows.drop_last();
        assert(front.subrange(0, failed as int) =~= rows.subrange(0, failed as int));
        lemma_encode_rows_fails::<Row>(front, store, failed);
        lemma_encode_rows_len::<Row>(front, store);
        let part = encode_rows::<Row>(rows.subrange(0, failed as int), store);
        let most = encode_rows::<Row>(front, store);
        let all = encode_rows::<Row>(rows, store);
        assert(most.result is Err);
        assert(all.values == most.values.push(rows.last()));
        assert forall|i: int| 0 <= i < failed implies all.values[i] == part.values[i] by {
            assert(all.values[i] == most.values[i]);
        }
        assert forall|i: int| failed <= i < rows.len() implies all.values[i] == rows[i] by {
            if i < rows.len() - 1 {
                assert(all.values[i] == most.values[i]);
                assert(front[i] == rows[i]);
            }
        }
    } else {
        assert(rows.subrange(0, failed as int) =~= rows);
    }
}

/// Encoding rows gives as many rows back.
pub proof fn lemma_encode_rows_len<Row: Binary>(rows: Seq<Row::Model>, store: SideState)
    ensures
        encode_rows::<Row>(rows, store).values.len() == rows.len(),
    decreases rows.len(),
{
    if rows.len() > 0 {
        lemma_encode_rows_len::<Row>(rows.drop_last(), store);
    }
}

/// Once a row cannot be deleted, the rows after it are left alone.
pub proof fn lemma_erase_rows_fails<Row: Binary>(
    rows: Seq<Row::Model>,
    files: Map<u64, Seq<u8>>,
    failed: nat,
)
    requires
        failed <= rows.len(),
        erase_rows::<Row>(rows.subrange(0, failed as int), files).failure is Some,
    ensures
        erase_rows::<Row>(rows, files) == erase_rows::<Row>(rows.subrange(0, failed as int), files),
    decreases rows.len() - failed,
{
    if failed < rows.len() {
        assert(rows.drop_last().subrange(0, failed as int) =~= rows.subrange(0, failed as int));
        lemma_erase_rows_fails::<Row>(rows.drop_last(), files, failed);
    } else {
        assert(rows.subrange(0, failed as int) =~= rows);
    }
}

/// Reading rows in two goes is reading them in one.
pub proof fn lemma_rows_from_join<Row: Binary>(
    image: Seq<u8>,
    files: Map<u64, Seq<u8>>,
    from: int,
    first: nat,
    second: nat,
)
    ensures
        rows_from::<Row>(image, files, from, first + second) == match rows_from::<Row>(
            image,
            files,
            from,
            first,
        ) {
            Err(e) => Err::<Seq<Row::Model>, DbError>(e),
            Ok(rows) => match rows_from::<Row>(image, files, from + first, second) {
                Ok(more) => Ok::<Seq<Row::Model>, DbError>(rows + more),
                Err(e) => Err::<Seq<Row::Model>, DbError>(e),
            },
        },
    decreases second,
{
    if second == 0 {
        match rows_from::<Row>(image, files, from, first) {
            Ok(rows) => {
                assert(rows + Seq::<Row::Model>::empty() =~= rows);
            },
            Err(e) => {},
        }
    } else {
        lemma_rows_from_join::<Row>(image, files, from, first, (second - 1) as nat);
        match rows_from::<Row>(image, files, from, first) {
            Ok(rows) => {
                match rows_from::<Row>(image, files, from + first, (second - 1) as nat) {
                    Ok(more) => {
                        match Row::decode(
                            stretch(image, Row::width(), from + first + second - 1),
                            files,
                        ) {
                            Ok(m) => {
                                assert((rows + more).push(m) =~= rows + more.push(m));
                            },
                            Err(e) => {},
                        }
                    },
                    Err(e) => {},
                }
            },
            Err(e) => {},
        }
    }
}

/// The rows that were read are as many as were asked for, and each is the
/// row at its position.
pub proof fn lemma_rows_from_each<Row: Binary>(
    image: Seq<u8>,
    files: Map<u64, Seq<u8>>,
    from: int,
    count: nat,
)
    requires
        rows_from::<Row>(image, files, from, count) is Ok,
    ensures
        rows_from::<Row>(image, files, from, count).unwrap().len() == count,
        forall|i: int|
            0 <= i < count ==> Row::decode(
                #[trigger] stretch(image, Row::width(), from + i),
                files,
            ) == Ok::<Row::Model, DbError>(rows_from::<Row>(image, files, from, count).unwrap()[i]),
    decreases count,
{
    if count > 0 {
        lemma_rows_from_each::<Row>(image, files, from, (count - 1) as nat);
    }
}

/// Rows that can each be decoded can be read together.
pub proof fn lemma_rows_from_all<Row: Binary>(
    image: Seq<u8>,
    files: Map<u64, Seq<u8>>,
    from: int,
    count: nat,
    rows: Seq<Row::Model>,
)
    requires
        rows.len() == count,
        forall|i: int|
            0 <= i < count ==> Row::decode(
                #[trigger] stretch(image, Row::width(), from + i),
                files,
            ) == Ok::<Row::Model, DbError>(rows[i]),
    ensures
        rows_from::<Row>(image, files, from, count) == Ok::<Seq<Row::Model>, DbError>(rows),
    decreases count,
{
    if count > 0 {
        lemma_rows_from_all::<Row>(image, files, from, (count - 1) as nat, rows.drop_last());
        assert(rows.drop_last().push(rows.last()) =~= rows);
    } else {
        assert(rows =~= Seq::<Row::Model>::empty());
    }
}

/// Where the rows lie after some were put in. The rows before the place
/// stay; in a file of whole rows the new ones follow, and after them the
/// rows that were there, moved up.
pub proof fn lemma_image_with_rows(image: Seq<u8>, w: nat, index: usize, bytes: Seq<u8>, n: nat)
    requires
        w > 0,
        index <= row_count(image, w),
        bytes.len() == n * w,
    ensures
        image_with(image, w, index, bytes).len() == image.len() + n * w,
        row_count(image_with(image, w, index, bytes), w) == row_count(image, w) + n,
        forall|k: int|
            0 <= k < index ==> #[trigger] stretch(image_with(image, w, index, bytes), w, k)
                == stretch(image, w, k),
        image.len() % w == 0 ==> forall|k: int|
            index <= k < index + n ==> #[trigger] stretch(image_with(image, w, index, bytes), w, k)
                == stretch(bytes, w, k - index),
        forall|k: int|
            index + n <= k < row_count(image, w) + n ==> #[trigger] stretch(
                image_with(image, w, index, bytes),
                w,
                k,
            ) == stretch(image, w, k - n),
{
    let after = image_with(image, w, index, bytes);
    let rows = row_count(image, w);
    vstd::arithmetic::div_mod::lemma_fundamental_div_mod(image.len() as int, w as int);
    assert(w * (image.len() / w) == rows * w) by (nonlinear_arith)
        requires
            rows == image.len() / w,
    ;
    assert(index * w <= rows * w) by (nonlinear_arith)
        requires
            index <= rows,
            w > 0,
    ;
    assert(after.len() == image.len() + n * w);
    assert(image.len() + n * w == (rows + n) * w + image.len() % w) by (nonlinear_arith)
        requires
            image.len() == rows * w + image.len() % w,
    ;
    vstd::arithmetic::div_mod::lemma_fundamental_div_mod_converse(
        (image.len() + n * w) as int,
        w as int,
        (rows + n) as int,
        (image.len() % w) as int,
    );
    assert forall|k: int| 0 <= k < index implies #[trigger] stretch(after, w, k) == stretch(
        image,
        w,
        k,
    ) by {
        lemma_row_place(k, w as int, index as int);
        assert(stretch(after, w, k) =~= stretch(image, w, k));
    }
    if image.len() % w == 0 {
        assert forall|k: int| index <= k < index + n implies #[trigger] stretch(after, w, k)
            == stretch(bytes, w, k - index) by {
            lemma_row_place(k - index, w as int, n as int);
            assert(k * w == index * w + (k - index) * w) by (nonlinear_arith);
            assert(stretch(after, w, k) =~= stretch(bytes, w, k - index));
        }
    }
    assert forall|k: int| index + n <= k < rows + n implies #[trigger] stretch(after, w, k)
        == stretch(image, w, k - n) by {
        lemma_row_place(k - n, w as int, rows as int);
        assert(k * w == (k - n) * w + n * w) by (nonlinear_arith);
        assert((k - n) * w >= index * w) by (nonlinear_arith)
            requires
                k - n >= index,
                w > 0,
        ;
        assert(stretch(after, w, k) =~= stretch(image, w, k - n));
    }
}

/// Where the rows lie after some were taken out of a file of whole rows.
/// The rows before the place stay; the rows after those that went move
/// down.
pub proof fn lemma_image_without_rows(image: Seq<u8>, w: nat, index: usize, n: nat)
    requires
        w > 0,
        image.len() % w == 0,
        index + n <= row_count(image, w),
    ensures
        image_without(image, w, index, n).len() + n * w == image.len(),
        image_without(image, w, index, n).len() % w == 0,
        row_count(image_without(image, w, index, n), w) + n == row_count(image, w),
        forall|k: int|
            0 <= k < index ==> #[trigger] stretch(image_without(image, w, index, n), w, k)
                == stretch(image, w, k),
        forall|k: int|
            index <= k < row_count(image, w) - n ==> #[trigger] stretch(
                image_without(image, w, index, n),
                w,
                k,
            ) == stretch(image, w, k + n),
{
    let after = image_without(image, w, index, n);
    let rows = row_count(image, w);
    vstd::arithmetic::div_mod::lemma_fundamental_div_mod(image.len() as int, w as int);
    assert(w * (image.len() / w) == rows * w) by (nonlinear_arith)
        requires
            rows == image.len() / w,
    ;
    assert(index * w <= (index + n) * w <= rows * w && (index + n) * w == index * w + n * w) by (nonlinear_arith)
        requires
            index + n <= rows,
            0 <= index,
            0 <= n,
            w > 0,
    ;
    assert(after.len() == (rows - n) * w) by (nonlinear_arith)
        requires
            after.len() == index * w + (rows * w - (index + n) * w),
    ;
    vstd::arithmetic::div_mod::lemma_fundamental_div_mod_converse(
        after.len() as int,
        w as int,
        rows - n,
        0,
    );
    assert forall|k: int| 0 <= k < index implies #[trigger] stretch(after, w, k) == stretch(
        image,
        w,
        k,
    ) by {
        lemma_row_place(k, w as int, index as int);
        assert(stretch(after, w, k) =~= stretch(image, w, k));
    }
    assert forall|k: int| index <= k < rows - n implies #[trigger] stretch(after, w, k) == stretch(
        image,
        w,
        k + n,
    ) by {
        lemma_row_place(k + n, w as int, rows as int);
        assert((k + n) * w == k * w + n * w) by (nonlinear_arith);
        assert(k * w >= index * w) by (nonlinear_arith)
            requires
                k >= index,
                w > 0,
        ;
        assert(stretch(after, w, k) =~= stretch(image, w, k + n));
    }
}

/// Encoding rows leaves the directory well-formed, and the images of all
/// rows have the width of one each.
pub proof fn lemma_encode_rows_width<Row: Binary>(rows: Seq<Row::Model>, store: SideState)
    requires
        binary_lawful::<Row>(),
        store.wf(),
    ensures
        encode_rows::<Row>(rows, store).store.wf(),
        encode_rows::<Row>(rows, store).result is Ok ==> encode_rows::<Row>(
            rows,
            store,
        ).result.unwrap().len() == rows.len() * Row::width(),
    decreases rows.len(),
{
    if rows.len() > 0 {
        lemma_encode_rows_width::<Row>(rows.drop_last(), store);
        let before = encode_rows::<Row>(rows.drop_last(), store);
        if before.result is Ok {
            assert(encode_lawful::<Row>(rows.last(), before.store));
            assert((rows.len() - 1) * Row::width() + Row::width() == rows.len() * Row::width())
                by (nonlinear_arith);
        }
    }
}

/// What encoding rows does to the side files, when none of the rows
/// owns a file that is there: the files that are there stay as they are, and
/// the images of all rows have the width of one each.
pub proof fn lemma_encode_rows_frame<Row: Binary>(rows: Seq<Row::Model>, store: SideState)
    requires
        binary_lawful::<Row>(),
        store.wf(),
        forall|i: int|
            0 <= i < rows.len() ==> Row::side_ids(#[trigger] rows[i]).disjoint(store.files.dom()),
    ensures
        encode_rows::<Row>(rows, store).store.wf(),
        store.files.submap_of(encode_rows::<Row>(rows, store).store.files),
        encode_rows::<Row>(rows, store).result is Ok ==> encode_rows::<Row>(
            rows,
            store,
        ).result.unwrap().len() == rows.len() * Row::width(),
    decreases rows.len(),
{
    if rows.len() > 0 {
        let front = rows.drop_last();
        assert forall|i: int| 0 <= i < front.len() implies Row::side_ids(
            #[trigger] front[i],
        ).disjoint(store.files.dom()) by {
            assert(front[i] == rows[i]);
        }
        lemma_encode_rows_frame::<Row>(front, store);
        let before = encode_rows::<Row>(front, store);
        if before.result is Ok {
            assert(encode_lawful::<Row>(rows.last(), before.store));
            let e = Row::encode(rows.last(), before.store);
            assert(Row::side_ids(rows.last()).disjoint(store.files.dom()));
            assert forall|id: u64| #[trigger] store.files.dom().contains(id) implies e.store.files.dom().contains(
                id,
            ) && store.files[id] == e.store.files[id] by {
                assert(before.store.files.dom().contains(id));
                assert(!Row::side_ids(rows.last()).contains(id));
            }
            assert((rows.len() - 1) * Row::width() + Row::width() == rows.len() * Row::width())
                by (nonlinear_arith);
        }
    }
}

/// Deleting rows only removes side files.
pub proof fn lemma_erase_rows_shrinks<Row: Binary>(rows: Seq<Row::Model>, files: Map<u64, Seq<u8>>)
    requires
        binary_lawful::<Row>(),
    ensures
        erase_rows::<Row>(rows, files).files.submap_of(files),
    decreases rows.len(),
{
    if rows.len() > 0 {
        lemma_erase_rows_shrinks::<Row>(rows.drop_last(), files);
        let before = erase_rows::<Row>(rows.drop_last(), files);
        assert(erase_lawful::<Row>(rows.last(), before.files));
        let after = erase_rows::<Row>(rows, files).files;
        assert forall|id: u64| #[trigger] after.dom().contains(id) implies files.dom().contains(id)
            && after[id] == files[id] by {
            assert(before.files.dom().contains(id));
        }
    }
}

} // verus!
