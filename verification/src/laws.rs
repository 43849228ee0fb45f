//! What holds of the engine as a whole, proved from the contracts of its
//! parts.
use crate::bin_file::{
    erase_rows, image_with, image_without, lemma_image_with_rows, lemma_image_without_rows,
    lemma_row_count, lemma_row_within, row_at, row_count, rows_from, rows_range,
};
use crate::binary::{binary_lawful, decode_lawful, encode_lawful, erase_lawful, Binary};
use crate::error::DbError;
use crate::index_file::{found_right, level, ordered_for, verdict_at, IndexGet};
use crate::order::{chain_lawful, rank_lawful, turn_lawful, Order, Ranked};
use crate::plain::{plain_lawful, stretch};
use crate::record::Fields;
use crate::side_files::SideState;
use crate::table::{others_keep_files, table_get_of, ById, Table, TableGet};
use vstd::prelude::*;

verus! {

/// A file of whole rows is still one after rows were put in: the size of
/// the file stays a multiple of the width of a row.
pub proof fn law_insert_keeps_rows_whole(image: Seq<u8>, w: nat, index: usize, bytes: Seq<u8>, n: nat)
    requires
        w > 0,
        image.len() % w == 0,
        index <= row_count(image, w),
        bytes.len() == n * w,
    ensures
        image_with(image, w, index, bytes).len() % w == 0,
        row_count(image_with(image, w, index, bytes), w) == row_count(image, w) + n,
{
    lemma_image_with_rows(image, w, index, bytes, n);
    lemma_row_count(image, w);
    let after = image_with(image, w, index, bytes);
    assert(after.len() == (row_count(image, w) + n) * w) by (nonlinear_arith)
        requires
            after.len() == image.len() + n * w,
            row_count(image, w) * w == image.len(),
    ;
    vstd::arithmetic::div_mod::lemma_fundamental_div_mod_converse(
        after.len() as int,
        w as int,
        (row_count(image, w) + n) as int,
        0,
    );
}

/// A file of whole rows is still one after rows were taken out.
pub proof fn law_remove_keeps_rows_whole(image: Seq<u8>, w: nat, index: usize, n: nat)
    requires
        w > 0,
        image.len() % w == 0,
        index + n <= row_count(image, w),
    ensures
        image_without(image, w, index, n).len() % w == 0,
        row_count(image_without(image, w, index, n), w) + n == row_count(image, w),
{
    lemma_image_without_rows(image, w, index, n);
}

/// The side files of every row that can be read exist.
pub proof fn law_live_rows_have_their_files<Row: Binary>(
    image: Seq<u8>,
    files: Map<u64, Seq<u8>>,
    p: int,
)
    requires
        binary_lawful::<Row>(),
        Row::width() > 0,
        0 <= p,
        row_at::<Row>(image, files, p) is Ok,
    ensures
        Row::side_ids(row_at::<Row>(image, files, p).unwrap()).subset_of(files.dom()),
{
    lemma_row_within(image, Row::width(), p);
    lemma_row_count(image, Row::width());
    crate::bin_file::lemma_row_place(p, Row::width() as int, row_count(image, Row::width()) as int);
    assert(decode_lawful::<Row>(stretch(image, Row::width(), p), files, files));
}

/// A value that owns no side file yet, and that can be told from what is
/// stored for it, is read back from what encoding it has written.
pub proof fn law_round_trip<T: Binary>(m: T::Model, store: SideState)
    requires
        binary_lawful::<T>(),
        store.wf(),
        T::storable(m),
        T::side_ids(m) == Set::<u64>::empty(),
        T::encode(m, store).result is Ok,
    ensures
        T::decode(T::encode(m, store).result.unwrap(), T::encode(m, store).store.files) == Ok::<
            T::Model,
            DbError,
        >(T::encode(m, store).value),
{
    assert(encode_lawful::<T>(m, store));
}

/// Reading from the position after the last row to the end of a file of
/// whole rows gives no rows, and no error.
pub proof fn law_read_at_end_is_empty<Row: Binary>(image: Seq<u8>, files: Map<u64, Seq<u8>>)
    requires
        Row::width() > 0,
        image.len() % Row::width() == 0,
        row_count(image, Row::width()) <= usize::MAX,
    ensures
        rows_range::<Row>(image, files, row_count(image, Row::width()) as usize, None) == Ok::<
            Seq<Row::Model>,
            DbError,
        >(Seq::empty()),
{
    lemma_row_count(image, Row::width());
}

/// There is no row at the position after the last.
pub proof fn law_get_at_end_is_out_of_bounds<Row: Binary>(image: Seq<u8>, files: Map<u64, Seq<u8>>)
    requires
        Row::width() > 0,
    ensures
        row_at::<Row>(image, files, row_count(image, Row::width()) as int) == Err::<
            Row::Model,
            DbError,
        >(DbError::OutOfBounds),
{
    lemma_row_within(image, Row::width(), row_count(image, Row::width()) as int);
}

/// Taking out the last row of a file of whole rows makes the file shorter
/// by the width of one row, and removes the side files of that row and no
/// others.
pub proof fn law_remove_last_row<Row: Binary>(image: Seq<u8>, files: Map<u64, Seq<u8>>)
    requires
        binary_lawful::<Row>(),
        Row::width() > 0,
        image.len() % Row::width() == 0,
        0 < row_count(image, Row::width()) <= usize::MAX,
        row_at::<Row>(image, files, row_count(image, Row::width()) - 1) is Ok,
        erase_rows::<Row>(
            Seq::empty().push(
                row_at::<Row>(image, files, row_count(image, Row::width()) - 1).unwrap(),
            ),
            files,
        ).failure is None,
    ensures
        ({
            let last = (row_count(image, Row::width()) - 1) as usize;
            let row = row_at::<Row>(image, files, last as int).unwrap();
            &&& rows_from::<Row>(image, files, last as int, 1) == Ok::<Seq<Row::Model>, DbError>(
                Seq::empty().push(row),
            )
            &&& image_without(image, Row::width(), last, 1).len() + Row::width() == image.len()
            &&& image_without(image, Row::width(), last, 1) == image.subrange(
                0,
                image.len() - Row::width(),
            )
            &&& erase_rows::<Row>(Seq::empty().push(row), files).files == files.remove_keys(
                Row::side_ids(row),
            )
            &&& Row::side_ids(row).subset_of(files.dom())
        }),
{
    let w = Row::width();
    let last = (row_count(image, w) - 1) as usize;
    let row = row_at::<Row>(image, files, last as int).unwrap();
    lemma_row_count(image, w);
    lemma_row_within(image, w, last as int);
    lemma_image_without_rows(image, w, last, 1);
    assert(rows_from::<Row>(image, files, last as int, 0) == Ok::<Seq<Row::Model>, DbError>(
        Seq::empty(),
    ));
    let one = Seq::<Row::Model>::empty().push(row);
    assert(last * w + w == image.len()) by (nonlinear_arith)
        requires
            (last + 1) * w == image.len(),
    ;
    assert(image_without(image, w, last, 1) =~= image.subrange(0, image.len() - w)) by {
        assert((last + 1) * w == image.len()) by (nonlinear_arith)
            requires
                last * w + w == image.len(),
        ;
    }
    assert(one.drop_last() =~= Seq::<Row::Model>::empty());
    assert(one.last() == row);
    assert(erase_rows::<Row>(Seq::<Row::Model>::empty(), files).failure is None);
    assert(erase_rows::<Row>(Seq::<Row::Model>::empty(), files).files == files);
    assert(erase_lawful::<Row>(row, files));
    let x = Row::erase(row, files);
    assert(erase_rows::<Row>(one, files).files == x.files);
    assert(x.failure is None);
    assert(x.files =~= files.remove_keys(Row::side_ids(row)));
}

/// The primary key of the row at position `i`.
pub open spec fn id_at<Row: Table>(image: Seq<u8>, files: Map<u64, Seq<u8>>, i: int) -> Row::ID {
    Row::id_of(row_at::<Row>(image, files, i).unwrap())
}

/// Whether the main file of a table is as the table keeps it: a file of
/// whole rows that can all be read, each with a primary key before the keys
/// of all rows after it.
pub open spec fn table_sorted<Row: Table>(image: Seq<u8>, files: Map<u64, Seq<u8>>) -> bool {
    &&& image.len() % Row::width() == 0
    &&& forall|i: int|
        0 <= i < row_count(image, Row::width()) ==> #[trigger] row_at::<Row>(image, files, i) is Ok
    &&& forall|i: int, j: int|
        0 <= i < j < row_count(image, Row::width()) ==> Row::ID::rank(
            #[trigger] id_at::<Row>(image, files, i),
            #[trigger] id_at::<Row>(image, files, j),
        ) == Some(Order::Less)
}

/// A main file that is as the table keeps it is in order for every key
/// that can be compared with the keys of all its rows: the search by
/// bisection finds what is there.
pub proof fn law_sorted_table_is_searchable<Row: Table>(
    image: Seq<u8>,
    files: Map<u64, Seq<u8>>,
    key: Row::ID,
)
    requires
        rank_lawful::<Row::ID>(),
        table_sorted::<Row>(image, files),
        forall|i: int|
            0 <= i < row_count(image, Row::width()) ==> Row::ID::rank(
                #[trigger] id_at::<Row>(image, files, i),
                key,
            ) is Some,
    ensures
        ordered_for::<Row, Row::ID, ById>(image, files, key),
{
    let n = row_count(image, Row::width()) as int;
    assert forall|i: int| 0 <= i < n implies #[trigger] level(
        verdict_at::<Row, Row::ID, ById>(image, files, i, key),
    ) < 3 by {
        assert(row_at::<Row>(image, files, i) is Ok);
        assert(Row::ID::rank(id_at::<Row>(image, files, i), key) is Some);
    }
    assert forall|i: int, j: int| 0 <= i <= j < n implies #[trigger] level(
        verdict_at::<Row, Row::ID, ById>(image, files, i, key),
    ) <= #[trigger] level(verdict_at::<Row, Row::ID, ById>(image, files, j, key)) by {
        let a = id_at::<Row>(image, files, i);
        let b = id_at::<Row>(image, files, j);
        assert(row_at::<Row>(image, files, i) is Ok);
        assert(row_at::<Row>(image, files, j) is Ok);
        assert(Row::ID::rank(a, key) is Some);
        assert(Row::ID::rank(b, key) is Some);
        if i < j {
            assert(Row::ID::rank(a, b) == Some(Order::Less));
            assert(turn_lawful(a, b));
            assert(turn_lawful(a, key));
            assert(turn_lawful(key, a));
            assert(chain_lawful(a, b, key));
            assert(chain_lawful(b, key, a));
        }
    }
}

/// What putting a new row into a table at the place that the search gave
/// does to the main file: the file stays as the table keeps it, the new row
/// stands at that place and is read back as it is after encoding, and the
/// rows that were there are read as before, those from that place on one
/// position further.
pub proof fn law_insert_keeps_table_sorted<Row: Table>(
    image: Seq<u8>,
    store: SideState,
    m: Row::Model,
    at: usize,
)
    requires
        binary_lawful::<Row>(),
        rank_lawful::<Row::ID>(),
        Row::width() > 0,
        store.wf(),
        table_sorted::<Row>(image, store.files),
        found_right::<Row, Row::ID, ById>(image, store.files, Row::id_of(m), IndexGet::NotFound(at)),
        Row::storable(m),
        Row::side_ids(m) == Set::<u64>::empty(),
        Row::encode(m, store).result is Ok,
        Row::id_of(Row::encode(m, store).value) == Row::id_of(m),
    ensures
        ({
            let e = Row::encode(m, store);
            let after = image_with(image, Row::width(), at, e.result.unwrap());
            let n = row_count(image, Row::width()) as int;
            &&& table_sorted::<Row>(after, e.store.files)
            &&& row_count(after, Row::width()) == n + 1
            &&& row_at::<Row>(after, e.store.files, at as int) == Ok::<Row::Model, DbError>(e.value)
            &&& forall|i: int|
                0 <= i < at ==> #[trigger] row_at::<Row>(after, e.store.files, i) == row_at::<Row>(
                    image,
                    store.files,
                    i,
                )
            &&& forall|i: int|
                at < i <= n ==> #[trigger] row_at::<Row>(after, e.store.files, i) == row_at::<Row>(
                    image,
                    store.files,
                    i - 1,
                )
        }),
{
    let w = Row::width();
    let e = Row::encode(m, store);
    let bytes = e.result.unwrap();
    let after = image_with(image, w, at, bytes);
    let files = store.files;
    let later = e.store.files;
    let n = row_count(image, w) as int;
    let key = Row::id_of(m);
    assert(encode_lawful::<Row>(m, store));
    assert(bytes.len() == 1 * w) by (nonlinear_arith)
        requires
            bytes.len() == w,
    ;
    lemma_image_with_rows(image, w, at, bytes, 1);
    law_insert_keeps_rows_whole(image, w, at, bytes, 1);
    lemma_row_count(image, w);
    lemma_row_count(after, w);
    assert(files.submap_of(later)) by {
        assert forall|id: u64| #[trigger] files.dom().contains(id) implies later.dom().contains(id)
            && files[id] == later[id] by {
            assert(!Row::side_ids(m).contains(id));
        }
    }
    assert forall|i: int| 0 <= i < at implies #[trigger] row_at::<Row>(after, later, i) == row_at::<
        Row,
    >(image, files, i) by {
        lemma_row_within(image, w, i);
        lemma_row_within(after, w, i);
        crate::bin_file::lemma_row_place(i, w as int, n);
        assert(row_at::<Row>(image, files, i) is Ok);
        assert(stretch(after, w, i) == stretch(image, w, i));
        assert(decode_lawful::<Row>(stretch(image, w, i), files, later));
    }
    assert forall|i: int| at < i <= n implies #[trigger] row_at::<Row>(after, later, i) == row_at::<
        Row,
    >(image, files, i - 1) by {
        lemma_row_within(image, w, i - 1);
        lemma_row_within(after, w, i);
        crate::bin_file::lemma_row_place(i - 1, w as int, n);
        assert(row_at::<Row>(image, files, i - 1) is Ok);
        assert(stretch(after, w, i) == stretch(image, w, i - 1));
        assert(decode_lawful::<Row>(stretch(image, w, i - 1), files, later));
    }
    assert(row_at::<Row>(after, later, at as int) == Ok::<Row::Model, DbError>(e.value)) by {
        lemma_row_within(after, w, at as int);
        assert(stretch(after, w, at as int) == stretch(bytes, w, at - at));
        assert(stretch(bytes, w, 0) =~= bytes);
    }
    assert forall|i: int| 0 <= i < n + 1 implies #[trigger] row_at::<Row>(after, later, i) is Ok by {
        if i < at {
            assert(row_at::<Row>(image, files, i) is Ok);
        } else if i > at {
            assert(row_at::<Row>(image, files, i - 1) is Ok);
        }
    }
    assert forall|i: int, j: int| 0 <= i < j < n + 1 implies Row::ID::rank(
        #[trigger] id_at::<Row>(after, later, i),
        #[trigger] id_at::<Row>(after, later, j),
    ) == Some(Order::Less) by {
        let a = if i < at {
            i
        } else {
            i - 1
        };
        let b = if j < at {
            j
        } else {
            j - 1
        };
        if i != at && j != at {
            assert(row_at::<Row>(after, later, i) == row_at::<Row>(image, files, a));
            assert(row_at::<Row>(after, later, j) == row_at::<Row>(image, files, b));
            assert(Row::ID::rank(id_at::<Row>(image, files, a), id_at::<Row>(image, files, b))
                == Some(Order::Less));
        } else if j == at {
            assert(row_at::<Row>(after, later, i) == row_at::<Row>(image, files, i));
            assert(level(verdict_at::<Row, Row::ID, ById>(image, files, i, key)) == 0);
            assert(row_at::<Row>(image, files, i) is Ok);
        } else {
            assert(row_at::<Row>(after, later, j) == row_at::<Row>(image, files, j - 1));
            assert(level(verdict_at::<Row, Row::ID, ById>(image, files, j - 1, key)) == 2);
            assert(row_at::<Row>(image, files, j - 1) is Ok);
            assert(turn_lawful(id_at::<Row>(image, files, j - 1), key));
        }
    }
}

/// After a row was put into a table, a search for its primary key finds
/// it: the row as it is after encoding, with the identifiers that its
/// dynamic fields have adopted.
pub proof fn law_inserted_row_is_found<Row: Table>(
    image: Seq<u8>,
    store: SideState,
    m: Row::Model,
    at: usize,
    found: IndexGet<Row>,
    r: TableGet<Row>,
)
    requires
        binary_lawful::<Row>(),
        rank_lawful::<Row::ID>(),
        Row::width() > 0,
        store.wf(),
        table_sorted::<Row>(image, store.files),
        found_right::<Row, Row::ID, ById>(image, store.files, Row::id_of(m), IndexGet::NotFound(at)),
        Row::storable(m),
        Row::side_ids(m) == Set::<u64>::empty(),
        Row::encode(m, store).result is Ok,
        Row::id_of(Row::encode(m, store).value) == Row::id_of(m),
        Row::ID::rank(Row::id_of(m), Row::id_of(m)) is Some,
        ordered_for::<Row, Row::ID, ById>(
            image_with(image, Row::width(), at, Row::encode(m, store).result.unwrap()),
            Row::encode(m, store).store.files,
            Row::id_of(m),
        ) ==> found_right::<Row, Row::ID, ById>(
            image_with(image, Row::width(), at, Row::encode(m, store).result.unwrap()),
            Row::encode(m, store).store.files,
            Row::id_of(m),
            found,
        ),
        table_get_of(found, r),
    ensures
        r matches TableGet::Found(row) && row.model() == Row::encode(m, store).value,
{
    let w = Row::width();
    let e = Row::encode(m, store);
    let after = image_with(image, w, at, e.result.unwrap());
    let later = e.store.files;
    let key = Row::id_of(m);
    let n = row_count(image, w) as int;
    law_insert_keeps_table_sorted::<Row>(image, store, m, at);
    assert(turn_lawful(key, key));
    assert forall|i: int| 0 <= i < n + 1 implies Row::ID::rank(
        #[trigger] id_at::<Row>(after, later, i),
        key,
    ) is Some by {
        if i < at {
            assert(row_at::<Row>(after, later, i) == row_at::<Row>(image, store.files, i));
            assert(level(verdict_at::<Row, Row::ID, ById>(image, store.files, i, key)) == 0);
            assert(row_at::<Row>(image, store.files, i) is Ok);
        } else if i > at {
            assert(row_at::<Row>(after, later, i) == row_at::<Row>(image, store.files, i - 1));
            assert(level(verdict_at::<Row, Row::ID, ById>(image, store.files, i - 1, key)) == 2);
            assert(row_at::<Row>(image, store.files, i - 1) is Ok);
        }
    }
    law_sorted_table_is_searchable::<Row>(after, later, key);
    assert(level(verdict_at::<Row, Row::ID, ById>(after, later, at as int, key)) == 1);
    match found {
        IndexGet::Found(start, rows) => {
            assert(start == at) by {
                if start < at {
                    assert(level(verdict_at::<Row, Row::ID, ById>(after, later, start as int, key))
                        == 1);
                    assert(level(verdict_at::<Row, Row::ID, ById>(after, later, start as int, key))
                        <= level(verdict_at::<Row, Row::ID, ById>(after, later, at - 1, key)));
                    assert(Row::ID::rank(id_at::<Row>(after, later, start as int), id_at::<Row>(after, later, at as int)) == Some(Order::Less));
                    assert(chain_lawful(id_at::<Row>(after, later, start as int), key, key));
                    assert(turn_lawful(id_at::<Row>(after, later, start as int), key));
                } else if start > at {
                    assert(level(verdict_at::<Row, Row::ID, ById>(after, later, at as int, key))
                        == 0);
                }
            }
            assert(rows@.len() == 1) by {
                if rows@.len() > 1 {
                    assert(level(verdict_at::<Row, Row::ID, ById>(after, later, at + 1, key)) == 1);
                    assert(Row::ID::rank(
                        id_at::<Row>(after, later, at as int),
                        id_at::<Row>(after, later, at + 1),
                    ) == Some(Order::Less));
                    assert(chain_lawful(id_at::<Row>(after, later, at + 1), key, key));
                    assert(turn_lawful(id_at::<Row>(after, later, at + 1), key));
                }
            }
            assert(row_at::<Row>(after, later, start + 0) == Ok::<Row::Model, DbError>(
                rows@[0].model(),
            ));
            let row = r->Found_0;
            assert(crate::binary::clone_lawful(rows@[0], row));
        },
        IndexGet::NotFound(p) => {
            if at < p {
                assert(level(verdict_at::<Row, Row::ID, ById>(after, later, at as int, key)) == 0);
            } else {
                assert(level(verdict_at::<Row, Row::ID, ById>(after, later, at as int, key)) == 2);
            }
        },
        IndexGet::InternalError(_) => {},
        IndexGet::Failed(_) => {},
    }
}

/// The rows of a main file that is as the table keeps it can be read
/// together, and come out in the order of their primary keys.
pub proof fn law_rows_come_out_sorted<Row: Table>(image: Seq<u8>, files: Map<u64, Seq<u8>>)
    requires
        Row::width() > 0,
        table_sorted::<Row>(image, files),
    ensures
        rows_range::<Row>(image, files, 0, None) is Ok,
        rows_range::<Row>(image, files, 0, None).unwrap().len() == row_count(image, Row::width()),
        forall|i: int, j: int|
            0 <= i < j < row_count(image, Row::width()) ==> Row::ID::rank(
                Row::id_of(#[trigger] rows_range::<Row>(image, files, 0, None).unwrap()[i]),
                Row::id_of(#[trigger] rows_range::<Row>(image, files, 0, None).unwrap()[j]),
            ) == Some(Order::Less),
{
    let w = Row::width();
    let n = row_count(image, w);
    lemma_row_count(image, w);
    assert(image.len() - 0 * w == image.len());
    let rows = Seq::new(n, |i: int| row_at::<Row>(image, files, i).unwrap());
    assert forall|i: int| 0 <= i < n implies Row::decode(
        #[trigger] stretch(image, w, 0 + i),
        files,
    ) == Ok::<Row::Model, DbError>(rows[i]) by {
        lemma_row_within(image, w, i);
        assert(row_at::<Row>(image, files, i) is Ok);
    }
    crate::bin_file::lemma_rows_from_all::<Row>(image, files, 0, n, rows);
    assert forall|i: int, j: int| 0 <= i < j < n implies Row::ID::rank(
        Row::id_of(#[trigger] rows[i]),
        Row::id_of(#[trigger] rows[j]),
    ) == Some(Order::Less) by {
        assert(Row::ID::rank(id_at::<Row>(image, files, i), id_at::<Row>(image, files, j)) == Some(
            Order::Less,
        ));
    }
}

/// Whether no two rows of the main file own the same side file.
pub open spec fn owned_apart<Row: Table>(image: Seq<u8>, files: Map<u64, Seq<u8>>) -> bool {
    forall|i: int, j: int|
        0 <= i < row_count(image, Row::width()) && 0 <= j < row_count(image, Row::width()) && i
            != j ==> Row::side_ids(#[trigger] row_at::<Row>(image, files, i).unwrap()).disjoint(
            Row::side_ids(#[trigger] row_at::<Row>(image, files, j).unwrap()),
        )
}

/// Whether the side files are exactly those that the rows of the main file
/// own: there are as many side files as the rows have dynamic fields.
pub open spec fn files_owned<Row: Table>(image: Seq<u8>, files: Map<u64, Seq<u8>>) -> bool {
    forall|id: u64|
        #[trigger] files.dom().contains(id) <==> exists|i: int|
            0 <= i < row_count(image, Row::width()) && Row::side_ids(
                #[trigger] row_at::<Row>(image, files, i).unwrap(),
            ).contains(id)
}

/// What taking a row out of a table does, where no two rows own the same
/// side file: the main file stays as the table keeps it, the rows that stay
/// are read as before, those after the row that went one position back; a
/// search for the primary key of the row that went finds nothing; and the
/// side files that go are those of that row, so that the side files are
/// still exactly those that the rows own, if they were.
pub proof fn law_remove_keeps_table_sorted<Row: Table>(
    image: Seq<u8>,
    files: Map<u64, Seq<u8>>,
    at: usize,
)
    requires
        binary_lawful::<Row>(),
        rank_lawful::<Row::ID>(),
        Row::width() > 0,
        table_sorted::<Row>(image, files),
        owned_apart::<Row>(image, files),
        at < row_count(image, Row::width()),
        Row::erase(row_at::<Row>(image, files, at as int).unwrap(), files).failure is None,
    ensures
        ({
            let gone = row_at::<Row>(image, files, at as int).unwrap();
            let later = Row::erase(gone, files).files;
            let after = image_without(image, Row::width(), at, 1);
            let n = row_count(image, Row::width()) as int;
            let key = Row::id_of(gone);
            &&& later == files.remove_keys(Row::side_ids(gone))
            &&& row_count(after, Row::width()) == n - 1
            &&& table_sorted::<Row>(after, later)
            &&& owned_apart::<Row>(after, later)
            &&& files_owned::<Row>(image, files) ==> files_owned::<Row>(after, later)
            &&& forall|i: int|
                0 <= i < at ==> #[trigger] row_at::<Row>(after, later, i) == row_at::<Row>(
                    image,
                    files,
                    i,
                )
            &&& forall|i: int|
                at <= i < n - 1 ==> #[trigger] row_at::<Row>(after, later, i) == row_at::<Row>(
                    image,
                    files,
                    i + 1,
                )
            &&& ordered_for::<Row, Row::ID, ById>(after, later, key)
            &&& found_right::<Row, Row::ID, ById>(after, later, key, IndexGet::NotFound(at))
        }),
{
    let w = Row::width();
    let gone = row_at::<Row>(image, files, at as int).unwrap();
    let later = Row::erase(gone, files).files;
    let after = image_without(image, w, at, 1);
    let n = row_count(image, w) as int;
    let key = Row::id_of(gone);
    lemma_image_without_rows(image, w, at, 1);
    lemma_row_count(image, w);
    lemma_row_count(after, w);
    assert(erase_lawful::<Row>(gone, files));
    assert(later =~= files.remove_keys(Row::side_ids(gone)));
    assert(row_at::<Row>(image, files, at as int) is Ok);
    assert forall|i: int| 0 <= i < n - 1 implies #[trigger] row_at::<Row>(after, later, i) == row_at::<
        Row,
    >(image, files, if i < at {
        i
    } else {
        i + 1
    }) by {
        let q = if i < at {
            i
        } else {
            i + 1
        };
        lemma_row_within(image, w, q);
        lemma_row_within(after, w, i);
        crate::bin_file::lemma_row_place(q, w as int, n);
        assert(row_at::<Row>(image, files, q) is Ok);
        assert(stretch(after, w, i) == stretch(image, w, q));
        let piece = stretch(image, w, q);
        assert(decode_lawful::<Row>(piece, files, files));
        assert(Row::side_ids(row_at::<Row>(image, files, q).unwrap()).disjoint(
            Row::side_ids(row_at::<Row>(image, files, at as int).unwrap()),
        ));
        assert(decode_lawful::<Row>(piece, files, later));
    }
    assert forall|i: int| 0 <= i < at implies #[trigger] row_at::<Row>(after, later, i) == row_at::<
        Row,
    >(image, files, i) by {}
    assert forall|i: int| at <= i < n - 1 implies #[trigger] row_at::<Row>(after, later, i)
        == row_at::<Row>(image, files, i + 1) by {}
    assert forall|i: int| 0 <= i < n - 1 implies #[trigger] row_at::<Row>(after, later, i) is Ok by {
        let q = if i < at {
            i
        } else {
            i + 1
        };
        assert(row_at::<Row>(image, files, q) is Ok);
    }
    assert forall|i: int, j: int| 0 <= i < j < n - 1 implies Row::ID::rank(
        #[trigger] id_at::<Row>(after, later, i),
        #[trigger] id_at::<Row>(after, later, j),
    ) == Some(Order::Less) by {
        let a = if i < at {
            i
        } else {
            i + 1
        };
        let b = if j < at {
            j
        } else {
            j + 1
        };
        assert(row_at::<Row>(after, later, i) == row_at::<Row>(image, files, a));
        assert(row_at::<Row>(after, later, j) == row_at::<Row>(image, files, b));
        assert(Row::ID::rank(id_at::<Row>(image, files, a), id_at::<Row>(image, files, b))
            == Some(Order::Less));
    }
    assert forall|i: int, j: int|
        0 <= i < n - 1 && 0 <= j < n - 1 && i != j implies Row::side_ids(
        #[trigger] row_at::<Row>(after, later, i).unwrap(),
    ).disjoint(Row::side_ids(#[trigger] row_at::<Row>(after, later, j).unwrap())) by {
        let a = if i < at {
            i
        } else {
            i + 1
        };
        let b = if j < at {
            j
        } else {
            j + 1
        };
        assert(row_at::<Row>(after, later, i) == row_at::<Row>(image, files, a));
        assert(row_at::<Row>(after, later, j) == row_at::<Row>(image, files, b));
        assert(Row::side_ids(row_at::<Row>(image, files, a).unwrap()).disjoint(
            Row::side_ids(row_at::<Row>(image, files, b).unwrap()),
        ));
    }
    if files_owned::<Row>(image, files) {
        assert forall|id: u64| #[trigger] later.dom().contains(id) <==> exists|i: int|
            0 <= i < n - 1 && Row::side_ids(
                #[trigger] row_at::<Row>(after, later, i).unwrap(),
            ).contains(id) by {
            if later.dom().contains(id) {
                assert(files.dom().contains(id));
                let q = choose|q: int|
                    0 <= q < n && Row::side_ids(
                        #[trigger] row_at::<Row>(image, files, q).unwrap(),
                    ).contains(id);
                assert(q != at);
                let i = if q < at {
                    q
                } else {
                    q - 1
                };
                assert(row_at::<Row>(after, later, i) == row_at::<Row>(image, files, q));
            }
            if exists|i: int|
                0 <= i < n - 1 && Row::side_ids(
                    #[trigger] row_at::<Row>(after, later, i).unwrap(),
                ).contains(id) {
                let i = choose|i: int|
                    0 <= i < n - 1 && Row::side_ids(
                        #[trigger] row_at::<Row>(after, later, i).unwrap(),
                    ).contains(id);
                let q = if i < at {
                    i
                } else {
                    i + 1
                };
                assert(row_at::<Row>(after, later, i) == row_at::<Row>(image, files, q));
                assert(Row::side_ids(row_at::<Row>(image, files, q).unwrap()).disjoint(
                    Row::side_ids(row_at::<Row>(image, files, at as int).unwrap()),
                ));
                assert(Row::side_ids(row_at::<Row>(image, files, q).unwrap()).contains(id));
                assert(files.dom().contains(id));
            }
        }
    }
    assert forall|i: int| 0 <= i < n - 1 implies #[trigger] level(
        verdict_at::<Row, Row::ID, ById>(after, later, i, key),
    ) == if i < at {
        0int
    } else {
        2int
    } by {
        if i < at {
            assert(row_at::<Row>(after, later, i) == row_at::<Row>(image, files, i));
            assert(Row::ID::rank(id_at::<Row>(image, files, i), id_at::<Row>(image, files, at as int))
                == Some(Order::Less));
        } else {
            assert(row_at::<Row>(after, later, i) == row_at::<Row>(image, files, i + 1));
            assert(Row::ID::rank(
                id_at::<Row>(image, files, at as int),
                id_at::<Row>(image, files, i + 1),
            ) == Some(Order::Less));
            assert(turn_lawful(id_at::<Row>(image, files, at as int), id_at::<Row>(image, files, i + 1)));
        }
    }
}

/// Where no two rows of the main file own the same side file, the rows
/// that stay when a row is taken out keep their side files, so that a main
/// file with a cache still knows its rows afterwards.
pub proof fn law_rows_that_stay_keep_their_files<Row: Table>(
    image: Seq<u8>,
    files: Map<u64, Seq<u8>>,
    at: usize,
)
    requires
        binary_lawful::<Row>(),
        Row::width() > 0,
        owned_apart::<Row>(image, files),
        at < row_count(image, Row::width()),
        row_at::<Row>(image, files, at as int) is Ok,
    ensures
        others_keep_files::<Row>(
            image,
            files,
            at,
            Row::erase(row_at::<Row>(image, files, at as int).unwrap(), files).files,
        ),
{
    let w = Row::width();
    let n = row_count(image, w) as int;
    let gone = row_at::<Row>(image, files, at as int).unwrap();
    let later = Row::erase(gone, files).files;
    lemma_row_count(image, w);
    assert(erase_lawful::<Row>(gone, files));
    assert forall|p: int| 0 <= p < n && p != at implies match #[trigger] row_at::<Row>(
        image,
        files,
        p,
    ) {
        Ok(m) => Row::side_ids(m).subset_of(later.dom()),
        Err(_) => true,
    } by {
        if row_at::<Row>(image, files, p) is Ok {
            let m = row_at::<Row>(image, files, p).unwrap();
            lemma_row_within(image, w, p);
            crate::bin_file::lemma_row_place(p, w as int, n);
            assert(decode_lawful::<Row>(stretch(image, w, p), files, files));
            assert(Row::side_ids(row_at::<Row>(image, files, p).unwrap()).disjoint(
                Row::side_ids(row_at::<Row>(image, files, at as int).unwrap()),
            ));
            assert forall|id: u64| Row::side_ids(m).contains(id) implies later.dom().contains(
                id,
            ) by {
                assert(files.dom().contains(id));
                assert(!Row::side_ids(gone).contains(id));
            }
        }
    }
}

/// After a row was taken out of a table where no two rows own the same side
/// file, a search for its primary key finds nothing.
pub proof fn law_removed_row_is_not_found<Row: Table>(
    image: Seq<u8>,
    files: Map<u64, Seq<u8>>,
    at: usize,
    found: IndexGet<Row>,
    r: TableGet<Row>,
)
    requires
        binary_lawful::<Row>(),
        rank_lawful::<Row::ID>(),
        Row::width() > 0,
        table_sorted::<Row>(image, files),
        owned_apart::<Row>(image, files),
        at < row_count(image, Row::width()),
        Row::erase(row_at::<Row>(image, files, at as int).unwrap(), files).failure is None,
        ordered_for::<Row, Row::ID, ById>(
            image_without(image, Row::width(), at, 1),
            Row::erase(row_at::<Row>(image, files, at as int).unwrap(), files).files,
            id_at::<Row>(image, files, at as int),
        ) ==> found_right::<Row, Row::ID, ById>(
            image_without(image, Row::width(), at, 1),
            Row::erase(row_at::<Row>(image, files, at as int).unwrap(), files).files,
            id_at::<Row>(image, files, at as int),
            found,
        ),
        table_get_of(found, r),
    ensures
        r is NotFound,
{
    law_remove_keeps_table_sorted::<Row>(image, files, at);
    let gone = row_at::<Row>(image, files, at as int).unwrap();
    let later = Row::erase(gone, files).files;
    let after = image_without(image, Row::width(), at, 1);
    let key = Row::id_of(gone);
    match found {
        IndexGet::Found(start, rows) => {
            if start < at {
                assert(level(verdict_at::<Row, Row::ID, ById>(after, later, start as int, key))
                    == 0);
            } else {
                assert(level(verdict_at::<Row, Row::ID, ById>(after, later, start as int, key))
                    == 2);
            }
        },
        _ => {},
    }
}

/// After a record whose first field is its key was put into a table, a
/// search for the key finds the record, as it is after encoding.
pub proof fn law_inserted_record_is_found<K: Ranked, B: Binary>(
    image: Seq<u8>,
    store: SideState,
    m: (K, B::Model),
    at: usize,
    found: IndexGet<Fields<K, B>>,
    r: TableGet<Fields<K, B>>,
)
    requires
        plain_lawful::<K>(),
        rank_lawful::<K>(),
        binary_lawful::<B>(),
        K::plain_width() + B::width() > 0,
        store.wf(),
        table_sorted::<Fields<K, B>>(image, store.files),
        found_right::<Fields<K, B>, K, ById>(image, store.files, m.0, IndexGet::NotFound(at)),
        m.0.exact(),
        B::storable(m.1),
        B::side_ids(m.1) == Set::<u64>::empty(),
        <Fields<K, B>>::encode(m, store).result is Ok,
        K::rank(m.0, m.0) is Some,
        ordered_for::<Fields<K, B>, K, ById>(
            image_with(
                image,
                <Fields<K, B>>::width(),
                at,
                <Fields<K, B>>::encode(m, store).result.unwrap(),
            ),
            <Fields<K, B>>::encode(m, store).store.files,
            m.0,
        ) ==> found_right::<Fields<K, B>, K, ById>(
            image_with(
                image,
                <Fields<K, B>>::width(),
                at,
                <Fields<K, B>>::encode(m, store).result.unwrap(),
            ),
            <Fields<K, B>>::encode(m, store).store.files,
            m.0,
            found,
        ),
        table_get_of(found, r),
    ensures
        r matches TableGet::Found(row) && row.model() == <Fields<K, B>>::encode(m, store).value,
{
    crate::binary::lemma_plain_binary::<K>();
    crate::record::lemma_fields_binary::<K, B>();
    crate::record::lemma_key_stays::<K, B>(m, store);
    assert(<Fields<K, B>>::side_ids(m) =~= Set::<u64>::empty());
    law_inserted_row_is_found::<Fields<K, B>>(image, store, m, at, found, r);
}

/// Putting a row that owns no side file yet into a table keeps the side
/// files apart: no two rows own the same side file afterwards, if none did
/// before; and the side files are still exactly those that the rows own, if
/// they were.
pub proof fn law_insert_keeps_files_owned<Row: Table>(
    image: Seq<u8>,
    store: SideState,
    m: Row::Model,
    at: usize,
)
    requires
        binary_lawful::<Row>(),
        rank_lawful::<Row::ID>(),
        Row::width() > 0,
        store.wf(),
        table_sorted::<Row>(image, store.files),
        found_right::<Row, Row::ID, ById>(image, store.files, Row::id_of(m), IndexGet::NotFound(at)),
        Row::storable(m),
        Row::side_ids(m) == Set::<u64>::empty(),
        Row::encode(m, store).result is Ok,
        Row::id_of(Row::encode(m, store).value) == Row::id_of(m),
    ensures
        ({
            let e = Row::encode(m, store);
            let after = image_with(image, Row::width(), at, e.result.unwrap());
            &&& e.store.files.dom() == store.files.dom().union(Row::side_ids(e.value))
            &&& Row::side_ids(e.value).disjoint(store.files.dom())
            &&& owned_apart::<Row>(image, store.files) ==> owned_apart::<Row>(after, e.store.files)
            &&& files_owned::<Row>(image, store.files) ==> files_owned::<Row>(after, e.store.files)
        }),
{
    let w = Row::width();
    let e = Row::encode(m, store);
    let after = image_with(image, w, at, e.result.unwrap());
    let files = store.files;
    let later = e.store.files;
    let n = row_count(image, w) as int;
    law_insert_keeps_table_sorted::<Row>(image, store, m, at);
    assert(encode_lawful::<Row>(m, store));
    assert(later.dom() =~= files.dom().union(Row::side_ids(e.value)));
    let place = |i: int|
        if i < at {
            i
        } else {
            i - 1
        };
    assert forall|i: int| 0 <= i < n + 1 && i != at implies #[trigger] row_at::<Row>(
        after,
        later,
        i,
    ) == row_at::<Row>(image, files, place(i)) && Row::side_ids(
        row_at::<Row>(after, later, i).unwrap(),
    ).subset_of(files.dom()) by {
        law_live_rows_have_their_files::<Row>(image, files, place(i));
    }
    if owned_apart::<Row>(image, files) {
        assert forall|i: int, j: int| 0 <= i < n + 1 && 0 <= j < n + 1 && i != j implies Row::side_ids(
            #[trigger] row_at::<Row>(after, later, i).unwrap(),
        ).disjoint(Row::side_ids(#[trigger] row_at::<Row>(after, later, j).unwrap())) by {
            if i != at && j != at {
                assert(row_at::<Row>(after, later, i) == row_at::<Row>(image, files, place(i)));
                assert(row_at::<Row>(after, later, j) == row_at::<Row>(image, files, place(j)));
                assert(Row::side_ids(row_at::<Row>(image, files, place(i)).unwrap()).disjoint(
                    Row::side_ids(row_at::<Row>(image, files, place(j)).unwrap()),
                ));
            } else if i == at {
                assert(row_at::<Row>(after, later, j) == row_at::<Row>(image, files, place(j)));
            } else {
                assert(row_at::<Row>(after, later, i) == row_at::<Row>(image, files, place(i)));
            }
        }
    }
    if files_owned::<Row>(image, files) {
        assert forall|id: u64| #[trigger] later.dom().contains(id) <==> exists|i: int|
            0 <= i < n + 1 && Row::side_ids(
                #[trigger] row_at::<Row>(after, later, i).unwrap(),
            ).contains(id) by {
            if later.dom().contains(id) {
                if files.dom().contains(id) {
                    let q = choose|q: int|
                        0 <= q < n && Row::side_ids(
                            #[trigger] row_at::<Row>(image, files, q).unwrap(),
                        ).contains(id);
                    let i = if q < at {
                        q
                    } else {
                        q + 1
                    };
                    assert(row_at::<Row>(after, later, i) == row_at::<Row>(image, files, place(i)));
                } else {
                    assert(Row::side_ids(row_at::<Row>(after, later, at as int).unwrap()).contains(
                        id,
                    ));
                }
            }
            if exists|i: int|
                0 <= i < n + 1 && Row::side_ids(
                    #[trigger] row_at::<Row>(after, later, i).unwrap(),
                ).contains(id) {
                let i = choose|i: int|
                    0 <= i < n + 1 && Row::side_ids(
                        #[trigger] row_at::<Row>(after, later, i).unwrap(),
                    ).contains(id);
                if i != at {
                    assert(row_at::<Row>(after, later, i) == row_at::<Row>(image, files, place(i)));
                    assert(Row::side_ids(row_at::<Row>(after, later, i).unwrap()).subset_of(
                        files.dom(),
                    ));
                }
            }
        }
    }
}

} // verus!
