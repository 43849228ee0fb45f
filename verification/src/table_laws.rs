//! What holds of a table from one call to the next.
//!
//! Each law here takes what the functions of a table state of their
//! results, in the terms in which they state it, and says what follows for
//! the next call: a row that was put in is found, a row that was taken out
//! is not, the rows come out in the order of their keys.
use crate::bin_file::{
    erase_rows, image_without, lemma_row_count, lemma_row_within, models_of, removed, row_at,
    row_count, rows_from, rows_match, rows_range, BaseBinFile,
};
use crate::binary::{binary_lawful, erase_lawful, Binary};
use crate::error::DbError;
use crate::index_file::{found_right, level, ordered_for, verdict_at, IndexGet};
use crate::laws::{
    files_owned, id_at, law_insert_keeps_files_owned, law_insert_keeps_table_sorted,
    law_remove_keeps_table_sorted, law_rows_come_out_sorted,
    law_rows_that_stay_keep_their_files, law_sorted_table_is_searchable, owned_apart,
    table_sorted,
};
use crate::order::{chain_lawful, rank_lawful, turn_lawful, Order, Ranked};
use crate::table::{
    insert_follows, others_keep_files, remove_follows, table_get_of, ById, SpecificTableFile,
    Table, TableGet,
};
use crate::side_files::SideState;
use vstd::prelude::*;

verus! {

/// Whether the key can be compared with the primary keys of all rows of
/// the main file.
pub open spec fn compares_with_all<Row: Table>(
    image: Seq<u8>,
    files: Map<u64, Seq<u8>>,
    key: Row::ID,
) -> bool {
    forall|i: int|
        0 <= i < row_count(image, Row::width()) ==> Row::ID::rank(
            #[trigger] id_at::<Row>(image, files, i),
            key,
        ) is Some
}

/// Whether a table is one in which a search for `key` must give the right
/// answer: the order of the keys is lawful, the main file is as the table
/// keeps it, and the key can be compared with the keys of all rows.
pub open spec fn searchable<Row: Table>(image: Seq<u8>, files: Map<u64, Seq<u8>>, key: Row::ID) -> bool {
    &&& binary_lawful::<Row>()
    &&& rank_lawful::<Row::ID>()
    &&& table_sorted::<Row>(image, files)
    &&& compares_with_all::<Row>(image, files, key)
}

/// Whether `r` is the right answer of a search by primary key: the row
/// with the key, wherever a row has it, and that there is none where no row
/// has it.
pub open spec fn right_row<Row: Table>(
    image: Seq<u8>,
    files: Map<u64, Seq<u8>>,
    key: Row::ID,
    r: TableGet<Row>,
) -> bool {
    &&& forall|p: int|
        0 <= p < row_count(image, Row::width()) && #[trigger] level(
            verdict_at::<Row, Row::ID, ById>(image, files, p, key),
        ) == 1 ==> (r matches TableGet::Found(row) && row_at::<Row>(image, files, p) == Ok::<
            Row::Model,
            DbError,
        >(row.model()))
    &&& (forall|p: int|
        0 <= p < row_count(image, Row::width()) ==> #[trigger] level(
            verdict_at::<Row, Row::ID, ById>(image, files, p, key),
        ) != 1) ==> r is NotFound
}

/// In a table whose main file is as the table keeps it, a search by
/// primary key gives the right answer: what `get_by_id` makes of what the
/// sorted index found is the row with the key, or that there is none.
pub proof fn law_get_in_sorted_table<Row: Table>(
    image: Seq<u8>,
    files: Map<u64, Seq<u8>>,
    key: Row::ID,
    found: IndexGet<Row>,
    r: TableGet<Row>,
)
    requires
        searchable::<Row>(image, files, key),
        ordered_for::<Row, Row::ID, ById>(image, files, key) ==> found_right::<Row, Row::ID, ById>(
            image,
            files,
            key,
            found,
        ),
        table_get_of(found, r),
    ensures
        right_row::<Row>(image, files, key, r),
{
    let n = row_count(image, Row::width()) as int;
    law_sorted_table_is_searchable::<Row>(image, files, key);
    match found {
        IndexGet::Found(start, rows) => {
            assert(level(verdict_at::<Row, Row::ID, ById>(image, files, start as int, key)) == 1);
            if rows@.len() > 1 {
                assert(level(verdict_at::<Row, Row::ID, ById>(image, files, start + 1, key)) == 1);
                let x = id_at::<Row>(image, files, start as int);
                let y = id_at::<Row>(image, files, start + 1);
                assert(Row::ID::rank(x, y) == Some(Order::Less));
                assert(turn_lawful(y, key));
                assert(chain_lawful(x, key, y));
            }
            assert(row_at::<Row>(image, files, start + 0) == Ok::<Row::Model, DbError>(
                rows@[0].model(),
            ));
            let row = r->Found_0;
            assert(crate::binary::clone_lawful(rows@[0], row));
            assert forall|p: int|
                0 <= p < n && #[trigger] level(
                    verdict_at::<Row, Row::ID, ById>(image, files, p, key),
                ) == 1 implies p == start by {
                if p < start {
                    assert(level(verdict_at::<Row, Row::ID, ById>(image, files, p, key)) == 0);
                } else if p > start {
                    assert(level(verdict_at::<Row, Row::ID, ById>(image, files, p, key)) == 2);
                }
            }
        },
        IndexGet::NotFound(at) => {
            assert forall|p: int| 0 <= p < n implies #[trigger] level(
                verdict_at::<Row, Row::ID, ById>(image, files, p, key),
            ) != 1 by {
                if p < at {
                    assert(level(verdict_at::<Row, Row::ID, ById>(image, files, p, key)) == 0);
                } else {
                    assert(level(verdict_at::<Row, Row::ID, ById>(image, files, p, key)) == 2);
                }
            }
        },
        _ => {},
    }
}

/// Whether a row is one that a table takes as the laws of the table ask:
/// a search for its key must give the right answer, the key can be compared
/// with itself, and the row owns no side file yet, is told by what is stored
/// for it, and keeps its key when it is encoded.
pub open spec fn fits<Row: Table>(image: Seq<u8>, store: SideState, m: Row::Model) -> bool {
    &&& searchable::<Row>(image, store.files, Row::id_of(m))
    &&& Row::ID::rank(Row::id_of(m), Row::id_of(m)) is Some
    &&& Row::storable(m)
    &&& Row::side_ids(m) == Set::<u64>::empty()
    &&& Row::id_of(Row::encode(m, store).value) == Row::id_of(m)
}

/// Whether the main file `after` with the side files `later` is what a
/// table has after the row `stored` with the primary key `key` was put into
/// the main file `image` with the side files `files`: still as the table
/// keeps it, one row longer, with the side files of before and those of the
/// row, and with the row where a search for its key finds it.
pub open spec fn put_right<Row: Table>(
    image: Seq<u8>,
    files: Map<u64, Seq<u8>>,
    after: Seq<u8>,
    later: Map<u64, Seq<u8>>,
    stored: Row::Model,
    key: Row::ID,
) -> bool {
    &&& Row::id_of(stored) == key
    &&& table_sorted::<Row>(after, later)
    &&& compares_with_all::<Row>(after, later, key)
    &&& row_count(after, Row::width()) == row_count(image, Row::width()) + 1
    &&& later.dom() == files.dom().union(Row::side_ids(stored))
    &&& Row::side_ids(stored).disjoint(files.dom())
    &&& owned_apart::<Row>(image, files) ==> owned_apart::<Row>(after, later)
    &&& files_owned::<Row>(image, files) ==> files_owned::<Row>(after, later)
    &&& exists|at: int|
        0 <= at < row_count(after, Row::width()) && #[trigger] level(
            verdict_at::<Row, Row::ID, ById>(after, later, at, key),
        ) == 1 && row_at::<Row>(after, later, at) == Ok::<Row::Model, DbError>(stored)
}

/// What `insert` leaves where it has answered `true` for a row that fits
/// the table: the table with the row put in the right way.
pub proof fn law_insert_puts_right<Row: Table, F: BaseBinFile<Row>>(
    before: SpecificTableFile<Row, F>,
    after: SpecificTableFile<Row, F>,
    m: Row::Model,
    stored: Row::Model,
    found: IndexGet<Row>,
)
    requires
        before.wf(),
        fits::<Row>(before.rows_file().image(), before.rows_file().side(), m),
        ordered_for::<Row, Row::ID, ById>(
            before.rows_file().image(),
            before.rows_file().side().files,
            Row::id_of(m),
        ) ==> found_right::<Row, Row::ID, ById>(
            before.rows_file().image(),
            before.rows_file().side().files,
            Row::id_of(m),
            found,
        ),
        insert_follows(found, before, after, m, stored, Ok::<bool, DbError>(true)),
    ensures
        put_right::<Row>(
            before.rows_file().image(),
            before.rows_file().side().files,
            after.rows_file().image(),
            after.rows_file().side().files,
            stored,
            Row::id_of(m),
        ),
{
    let image = before.rows_file().image();
    let store = before.rows_file().side();
    let key = Row::id_of(m);
    let w = Row::width();
    let n = row_count(image, w) as int;
    before.rows_file().lemma_wf();
    law_sorted_table_is_searchable::<Row>(image, store.files, key);
    match found {
        IndexGet::NotFound(at) => {
            let rest = after.rows_file().image();
            let later = after.rows_file().side().files;
            law_insert_keeps_table_sorted::<Row>(image, store, m, at);
            law_insert_keeps_files_owned::<Row>(image, store, m, at);
            assert(turn_lawful(key, key));
            assert(level(verdict_at::<Row, Row::ID, ById>(rest, later, at as int, key)) == 1);
            assert forall|i: int| 0 <= i < row_count(rest, w) implies Row::ID::rank(
                #[trigger] id_at::<Row>(rest, later, i),
                key,
            ) is Some by {
                if i < at {
                    assert(row_at::<Row>(rest, later, i) == row_at::<Row>(image, store.files, i));
                    assert(Row::ID::rank(id_at::<Row>(image, store.files, i), key) is Some);
                } else if i > at {
                    assert(row_at::<Row>(rest, later, i) == row_at::<Row>(
                        image,
                        store.files,
                        i - 1,
                    ));
                    assert(Row::ID::rank(id_at::<Row>(image, store.files, i - 1), key) is Some);
                }
            }
        },
        _ => {},
    }
}

/// After `insert` has answered `true` for a row that fits the table,
/// `get_by_id` finds the row by its primary key: the row as it is after
/// encoding, with the identifiers that its dynamic fields have adopted.
pub proof fn law_insert_then_get<Row: Table, F: BaseBinFile<Row>>(
    before: SpecificTableFile<Row, F>,
    after: SpecificTableFile<Row, F>,
    m: Row::Model,
    stored: Row::Model,
    found: IndexGet<Row>,
    again: IndexGet<Row>,
    got: TableGet<Row>,
)
    requires
        before.wf(),
        fits::<Row>(before.rows_file().image(), before.rows_file().side(), m),
        ordered_for::<Row, Row::ID, ById>(
            before.rows_file().image(),
            before.rows_file().side().files,
            Row::id_of(m),
        ) ==> found_right::<Row, Row::ID, ById>(
            before.rows_file().image(),
            before.rows_file().side().files,
            Row::id_of(m),
            found,
        ),
        insert_follows(found, before, after, m, stored, Ok::<bool, DbError>(true)),
        table_get_of(again, got),
        ordered_for::<Row, Row::ID, ById>(
            after.rows_file().image(),
            after.rows_file().side().files,
            Row::id_of(m),
        ) ==> found_right::<Row, Row::ID, ById>(
            after.rows_file().image(),
            after.rows_file().side().files,
            Row::id_of(m),
            again,
        ),
    ensures
        got matches TableGet::Found(row) && row.model() == stored,
{
    law_insert_puts_right(before, after, m, stored, found);
    law_get_in_sorted_table::<Row>(
        after.rows_file().image(),
        after.rows_file().side().files,
        Row::id_of(m),
        again,
        got,
    );
}

/// Taking one row out of a file of whole rows: the row is deleted, and
/// where that succeeds its image is taken out.
pub proof fn lemma_removed_one<Row: Binary>(image: Seq<u8>, files: Map<u64, Seq<u8>>, at: usize)
    requires
        Row::width() > 0,
        image.len() % Row::width() == 0,
        at < row_count(image, Row::width()),
        row_at::<Row>(image, files, at as int) is Ok,
    ensures
        ({
            let x = Row::erase(row_at::<Row>(image, files, at as int).unwrap(), files);
            removed::<Row>(image, files, at, Some(1usize)) == (
                x.failure,
                if x.failure is None {
                    image_without(image, Row::width(), at, 1)
                } else {
                    image
                },
                x.files,
            )
        }),
{
    let w = Row::width();
    let row = row_at::<Row>(image, files, at as int).unwrap();
    lemma_row_count(image, w);
    lemma_row_within(image, w, at as int);
    assert(rows_from::<Row>(image, files, at as int, 0) == Ok::<Seq<Row::Model>, DbError>(
        Seq::empty(),
    ));
    let one = Seq::<Row::Model>::empty().push(row);
    assert(rows_from::<Row>(image, files, at as int, 1) == Ok::<Seq<Row::Model>, DbError>(one));
    assert(one.drop_last() =~= Seq::<Row::Model>::empty());
    assert(one.last() == row);
    assert(erase_rows::<Row>(Seq::<Row::Model>::empty(), files).failure is None);
    assert(erase_rows::<Row>(Seq::<Row::Model>::empty(), files).files == files);
    let x = Row::erase(row, files);
    assert(erase_rows::<Row>(one, files).files == x.files);
    assert(erase_rows::<Row>(one, files).failure == x.failure);
}

/// Taking side files out of a directory that has them all leaves as many
/// fewer as were taken out.
pub proof fn lemma_count_after_removal(files: Map<u64, Seq<u8>>, ids: Set<u64>)
    requires
        files.dom().finite(),
        ids.subset_of(files.dom()),
    ensures
        ids.finite(),
        files.remove_keys(ids).dom().finite(),
        files.remove_keys(ids).dom().len() + ids.len() == files.dom().len(),
{
    vstd::set_lib::lemma_len_subset(ids, files.dom());
    assert(files.remove_keys(ids).dom() =~= files.dom().difference(ids));
    assert(files.dom().intersect(ids) =~= ids);
    vstd::set_lib::lemma_set_difference_len(files.dom(), ids);
}

/// Whether the main file `after` with the side files `later` is what a
/// table has after the row with the primary key `key` was taken out of the
/// main file `image` with the side files `files`: still as the table keeps
/// it, one row shorter, without a row with the key, and with the side files
/// of before but those of the row that went, as many fewer as that row
/// owned.
pub open spec fn taken_right<Row: Table>(
    image: Seq<u8>,
    files: Map<u64, Seq<u8>>,
    after: Seq<u8>,
    later: Map<u64, Seq<u8>>,
    key: Row::ID,
) -> bool {
    &&& table_sorted::<Row>(after, later)
    &&& owned_apart::<Row>(after, later)
    &&& files_owned::<Row>(image, files) ==> files_owned::<Row>(after, later)
    &&& compares_with_all::<Row>(after, later, key)
    &&& row_count(after, Row::width()) + 1 == row_count(image, Row::width())
    &&& forall|p: int|
        0 <= p < row_count(after, Row::width()) ==> #[trigger] level(
            verdict_at::<Row, Row::ID, ById>(after, later, p, key),
        ) != 1
    &&& exists|at: int|
        {
            &&& 0 <= at < row_count(image, Row::width())
            &&& #[trigger] level(verdict_at::<Row, Row::ID, ById>(image, files, at, key)) == 1
            &&& later == files.remove_keys(Row::side_ids(row_at::<Row>(image, files, at).unwrap()))
            &&& later.dom().len() + Row::side_ids(row_at::<Row>(image, files, at).unwrap()).len()
                == files.dom().len()
        }
}

/// What `remove` leaves where it has succeeded in a table in which no two
/// rows own the same side file: the table with the row taken out the right
/// way, and a main file that still knows its rows.
pub proof fn law_remove_takes_right<Row: Table, F: BaseBinFile<Row>>(
    before: SpecificTableFile<Row, F>,
    after: SpecificTableFile<Row, F>,
    id: Row::ID,
    found: IndexGet<Row>,
)
    requires
        before.wf(),
        searchable::<Row>(before.rows_file().image(), before.rows_file().side().files, id),
        owned_apart::<Row>(before.rows_file().image(), before.rows_file().side().files),
        ordered_for::<Row, Row::ID, ById>(
            before.rows_file().image(),
            before.rows_file().side().files,
            id,
        ) ==> found_right::<Row, Row::ID, ById>(
            before.rows_file().image(),
            before.rows_file().side().files,
            id,
            found,
        ),
        remove_follows(found, before, after, Ok::<(), DbError>(())),
    ensures
        taken_right::<Row>(
            before.rows_file().image(),
            before.rows_file().side().files,
            after.rows_file().image(),
            after.rows_file().side().files,
            id,
        ),
        after.rows_file().faithful(),
{
    let image = before.rows_file().image();
    let files = before.rows_file().side().files;
    let w = Row::width();
    let n = row_count(image, w) as int;
    before.rows_file().lemma_wf();
    law_sorted_table_is_searchable::<Row>(image, files, id);
    match found {
        IndexGet::Found(at, rows) => {
            assert(level(verdict_at::<Row, Row::ID, ById>(image, files, at as int, id)) == 1);
            let gone = row_at::<Row>(image, files, at as int).unwrap();
            lemma_removed_one::<Row>(image, files, at);
            law_rows_that_stay_keep_their_files::<Row>(image, files, at);
            law_remove_keeps_table_sorted::<Row>(image, files, at);
            assert(erase_lawful::<Row>(gone, files));
            lemma_count_after_removal(files, Row::side_ids(gone));
            let later = after.rows_file().side().files;
            let rest = after.rows_file().image();
            assert forall|i: int| 0 <= i < row_count(rest, w) implies Row::ID::rank(
                #[trigger] id_at::<Row>(rest, later, i),
                id,
            ) is Some && Row::ID::rank(id_at::<Row>(rest, later, i), id) != Some(
                Order::Equal,
            ) by {
                let q = if i < at {
                    i
                } else {
                    i + 1
                };
                assert(row_at::<Row>(rest, later, i) == row_at::<Row>(image, files, q));
                let x = id_at::<Row>(image, files, q);
                let y = id_at::<Row>(image, files, at as int);
                assert(Row::ID::rank(x, id) is Some);
                assert(turn_lawful(y, id));
                assert(chain_lawful(x, id, y));
                assert(turn_lawful(x, y));
                if q < at {
                    assert(Row::ID::rank(x, y) == Some(Order::Less));
                } else {
                    assert(Row::ID::rank(y, x) == Some(Order::Less));
                }
            }
            assert forall|p: int| 0 <= p < row_count(rest, w) implies #[trigger] level(
                verdict_at::<Row, Row::ID, ById>(rest, later, p, id),
            ) != 1 by {
                assert(row_at::<Row>(rest, later, p) is Ok);
                assert(Row::ID::rank(id_at::<Row>(rest, later, p), id) != Some(Order::Equal));
            }
        },
        _ => {},
    }
}

/// After `remove` has succeeded in a table in which no two rows own the
/// same side file, `get_by_id` finds no row with the primary key.
pub proof fn law_remove_then_get<Row: Table, F: BaseBinFile<Row>>(
    before: SpecificTableFile<Row, F>,
    after: SpecificTableFile<Row, F>,
    id: Row::ID,
    found: IndexGet<Row>,
    again: IndexGet<Row>,
    got: TableGet<Row>,
)
    requires
        before.wf(),
        searchable::<Row>(before.rows_file().image(), before.rows_file().side().files, id),
        owned_apart::<Row>(before.rows_file().image(), before.rows_file().side().files),
        ordered_for::<Row, Row::ID, ById>(
            before.rows_file().image(),
            before.rows_file().side().files,
            id,
        ) ==> found_right::<Row, Row::ID, ById>(
            before.rows_file().image(),
            before.rows_file().side().files,
            id,
            found,
        ),
        remove_follows(found, before, after, Ok::<(), DbError>(())),
        table_get_of(again, got),
        ordered_for::<Row, Row::ID, ById>(
            after.rows_file().image(),
            after.rows_file().side().files,
            id,
        ) ==> found_right::<Row, Row::ID, ById>(
            after.rows_file().image(),
            after.rows_file().side().files,
            id,
            again,
        ),
    ensures
        got is NotFound,
{
    law_remove_takes_right(before, after, id, found);
    law_get_in_sorted_table::<Row>(
        after.rows_file().image(),
        after.rows_file().side().files,
        id,
        again,
        got,
    );
}

/// Whether `rows` are all the rows of the main file, in the order of the
/// file, which is the order of their primary keys.
pub open spec fn all_in_key_order<Row: Table>(
    image: Seq<u8>,
    files: Map<u64, Seq<u8>>,
    rows: Seq<Row>,
) -> bool {
    &&& rows.len() == row_count(image, Row::width())
    &&& forall|i: int|
        0 <= i < rows.len() ==> row_at::<Row>(image, files, i) == Ok::<Row::Model, DbError>(
            (#[trigger] rows[i]).model(),
        )
    &&& forall|i: int, j: int|
        0 <= i < j < rows.len() ==> Row::ID::rank(
            Row::id_of((#[trigger] rows[i]).model()),
            Row::id_of((#[trigger] rows[j]).model()),
        ) == Some(Order::Less)
}

/// What `get_all` gives for a table whose main file is as the table keeps
/// it: all its rows, in the order of their primary keys.
pub proof fn law_get_all_is_sorted<Row: Table>(
    image: Seq<u8>,
    files: Map<u64, Seq<u8>>,
    r: Result<Vec<Row>, DbError>,
)
    requires
        Row::width() > 0,
        table_sorted::<Row>(image, files),
        rows_match(r, rows_range::<Row>(image, files, 0, None)),
    ensures
        r is Ok,
        all_in_key_order::<Row>(image, files, r.unwrap()@),
{
    law_rows_come_out_sorted::<Row>(image, files);
    let w = Row::width();
    let rows = r.unwrap()@;
    let models = rows_range::<Row>(image, files, 0, None).unwrap();
    lemma_row_count(image, w);
    assert(models == models_of(rows));
    assert(models == rows_from::<Row>(image, files, 0, row_count(image, w)).unwrap());
    crate::bin_file::lemma_rows_from_each::<Row>(image, files, 0, row_count(image, w));
    assert forall|i: int| 0 <= i < rows.len() implies row_at::<Row>(image, files, i) == Ok::<
        Row::Model,
        DbError,
    >((#[trigger] rows[i]).model()) by {
        lemma_row_within(image, w, i);
        assert(models[i] == rows[i].model());
        assert(crate::plain::stretch(image, w, 0 + i) == crate::plain::stretch(image, w, i));
    }
    assert forall|i: int, j: int| 0 <= i < j < rows.len() implies Row::ID::rank(
        Row::id_of((#[trigger] rows[i]).model()),
        Row::id_of((#[trigger] rows[j]).model()),
    ) == Some(Order::Less) by {
        assert(models[i] == rows[i].model());
        assert(models[j] == rows[j].model());
    }
}

} // verus!
