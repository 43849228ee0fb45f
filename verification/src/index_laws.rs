//! What holds of the entries of a secondary index as the table changes.
//!
//! The entries stand in the order of their values, and among equal values
//! in the order of the positions of their rows; no two point to the same
//! row. For a given main file there is only one such list of entries, so
//! that the index of a table that was cleared and filled again is the index
//! of a new table with the same rows.
use crate::error::DbError;
use crate::binary::Binary;
use crate::index_file::{
    bumped, column_with_row, column_without_row, comes_after, first_fault, lemma_stored, lowered,
    slot, CachedIndexFile, Column, ColumnHeld, IndexFile, IndexRow, UnspecifiedIndex,
};
use crate::plain::{all_exact, plain_lawful, Plain};
use crate::order::{chain_lawful, rank_lawful, turn_lawful, Order, Ranked};
use vstd::prelude::*;

verus! {

/// Whether entry `a` stands before entry `b`: its value is before the
/// value of `b`, or equal to it with a position before that of `b`.
pub open spec fn entry_before<K: Ranked>(a: IndexRow<K>, b: IndexRow<K>) -> bool {
    K::rank(a.data, b.data) == Some(Order::Less) || (K::rank(a.data, b.data) == Some(Order::Equal)
        && a.index < b.index)
}

/// Whether the entries are as an index keeps them for a main file of `n`
/// rows: in order, each pointing to a row of the file, no two to the same.
pub open spec fn index_sorted<K: Ranked>(entries: Seq<IndexRow<K>>, n: nat) -> bool {
    &&& forall|i: int, j: int|
        0 <= i < j < entries.len() ==> entry_before(#[trigger] entries[i], #[trigger] entries[j])
    &&& forall|i: int, j: int|
        0 <= i < j < entries.len() ==> (#[trigger] entries[i]).index != (
        #[trigger] entries[j]).index
    &&& forall|i: int| 0 <= i < entries.len() ==> (#[trigger] entries[i]).index < n
}

/// Whether the index of a column holds entries as an index keeps them for
/// a main file of `n` rows.
pub open spec fn kept_for<K: Ranked>(held: ColumnHeld<K>, n: nat) -> bool {
    held.entries is Ok && index_sorted(held.entries.unwrap(), n)
}

/// Whether the value `key` can be compared with the values of all entries.
pub open spec fn compares_with_entries<K: Ranked>(held: ColumnHeld<K>, key: K) -> bool {
    held.entries is Ok ==> forall|i: int|
        0 <= i < held.entries.unwrap().len() ==> K::rank(
            (#[trigger] held.entries.unwrap()[i]).data,
            key,
        ) is Some
}

/// Whether the entries are those of the rows of a main file whose indexed
/// column has the values `keys`, row by row: one entry for each row.
pub open spec fn mirrors<K: Ranked>(entries: Seq<IndexRow<K>>, keys: Seq<K>) -> bool {
    &&& entries.len() == keys.len()
    &&& forall|p: int|
        0 <= p < keys.len() ==> entries.contains(
            IndexRow { data: #[trigger] keys[p], index: p as usize },
        )
}

/// An entry that stands before a second, which stands before a third,
/// stands before the third.
pub proof fn lemma_before_chain<K: Ranked>(a: IndexRow<K>, b: IndexRow<K>, c: IndexRow<K>)
    requires
        rank_lawful::<K>(),
        entry_before(a, b),
        entry_before(b, c),
    ensures
        entry_before(a, c),
{
    assert(chain_lawful(a.data, b.data, c.data));
    assert(chain_lawful(b.data, c.data, a.data));
    assert(turn_lawful(a.data, b.data));
    assert(turn_lawful(b.data, a.data));
    assert(turn_lawful(c.data, a.data));
    assert(turn_lawful(a.data, c.data));
}

/// No entry stands before itself, and of two entries at most one stands
/// before the other.
pub proof fn lemma_before_one_way<K: Ranked>(a: IndexRow<K>, b: IndexRow<K>)
    requires
        rank_lawful::<K>(),
    ensures
        !(entry_before(a, b) && entry_before(b, a)),
{
    assert(turn_lawful(a.data, b.data));
}

/// The place that `slot` gives is before the first entry that comes after
/// the new one.
pub proof fn lemma_slot<K: Ranked>(entries: Seq<IndexRow<K>>, key: K, position: usize)
    ensures
        0 <= slot(entries, key, position) <= entries.len(),
        forall|i: int|
            0 <= i < slot(entries, key, position) ==> !comes_after(
                #[trigger] entries[i],
                key,
                position,
            ),
        slot(entries, key, position) < entries.len() ==> comes_after(
            entries[slot(entries, key, position)],
            key,
            position,
        ),
    decreases entries.len(),
{
    if entries.len() > 0 && !comes_after(entries[0], key, position) {
        let rest = entries.drop_first();
        lemma_slot(rest, key, position);
        assert forall|i: int| 0 <= i < slot(entries, key, position) implies !comes_after(
            #[trigger] entries[i],
            key,
            position,
        ) by {
            if i > 0 {
                assert(entries[i] == rest[i - 1]);
            }
        }
        if slot(entries, key, position) < entries.len() {
            assert(entries[slot(entries, key, position)] == rest[slot(rest, key, position)]);
        }
    }
}

/// After a row was put into the main file and its entry into the index,
/// the entries are still as an index keeps them, and are those of the rows
/// of the main file if they were.
pub proof fn law_insert_keeps_index_sorted<K: Ranked>(
    entries: Seq<IndexRow<K>>,
    keys: Seq<K>,
    key: K,
    position: usize,
)
    requires
        rank_lawful::<K>(),
        index_sorted(entries, keys.len()),
        position <= keys.len() < usize::MAX,
        forall|i: int| 0 <= i < entries.len() ==> K::rank((#[trigger] entries[i]).data, key) is Some,
    ensures
        ({
            let moved = bumped(entries, position);
            let after = moved.insert(slot(moved, key, position), IndexRow { data: key, index: position });
            &&& index_sorted(after, keys.len() + 1)
            &&& mirrors(entries, keys) ==> mirrors(after, keys.insert(position as int, key))
        }),
{
    let n = keys.len();
    let moved = bumped(entries, position);
    let s = slot(moved, key, position);
    let new = IndexRow { data: key, index: position };
    let after = moved.insert(s, new);
    lemma_slot(moved, key, position);
    assert forall|i: int, j: int| 0 <= i < j < moved.len() implies entry_before(
        #[trigger] moved[i],
        #[trigger] moved[j],
    ) && moved[i].index != moved[j].index by {
        assert(entry_before(entries[i], entries[j]));
        assert(entries[i].index != entries[j].index);
    }
    assert forall|i: int| 0 <= i < moved.len() implies (#[trigger] moved[i]).index != position
        && moved[i].index < n + 1 && K::rank(moved[i].data, key) is Some by {
        assert(entries[i].index < n);
        assert(K::rank(entries[i].data, key) is Some);
    }
    assert forall|i: int| 0 <= i < s implies entry_before(#[trigger] moved[i], new) by {
        assert(!comes_after(moved[i], key, position));
        assert(moved[i].index != position);
        assert(K::rank(moved[i].data, key) is Some);
        match K::rank(moved[i].data, key) {
            Some(Order::Less) => {},
            Some(Order::Equal) => {
                assert(moved[i].index < position);
            },
            Some(Order::Greater) => {},
            None => {},
        }
    }
    assert forall|j: int| s <= j < moved.len() implies entry_before(new, #[trigger] moved[j]) by {
        assert(comes_after(moved[s], key, position));
        assert(turn_lawful(moved[s].data, key));
        assert(entry_before(new, moved[s]));
        if s < j {
            assert(entry_before(moved[s], moved[j]));
            lemma_before_chain(new, moved[s], moved[j]);
        }
    }
    assert forall|i: int, j: int| 0 <= i < j < after.len() implies entry_before(
        #[trigger] after[i],
        #[trigger] after[j],
    ) && after[i].index != after[j].index by {
        if j < s {
            assert(after[i] == moved[i] && after[j] == moved[j]);
        } else if j == s {
            assert(after[i] == moved[i]);
        } else if i < s {
            assert(after[i] == moved[i] && after[j] == moved[j - 1]);
        } else if i == s {
            assert(after[j] == moved[j - 1]);
        } else {
            assert(after[i] == moved[i - 1] && after[j] == moved[j - 1]);
        }
    }
    assert forall|i: int| 0 <= i < after.len() implies (#[trigger] after[i]).index < n + 1 by {
        if i < s {
            assert(after[i] == moved[i]);
        } else if i > s {
            assert(after[i] == moved[i - 1]);
        }
    }
    if mirrors(entries, keys) {
        let later = keys.insert(position as int, key);
        assert forall|p: int| 0 <= p < later.len() implies after.contains(
            IndexRow { data: #[trigger] later[p], index: p as usize },
        ) by {
            if p == position {
                assert(after[s] == new);
            } else {
                let q = if p < position {
                    p
                } else {
                    p - 1
                };
                let old_entry = IndexRow { data: keys[q], index: q as usize };
                assert(entries.contains(old_entry));
                let i = choose|i: int| 0 <= i < entries.len() && entries[i] == old_entry;
                assert(moved[i] == IndexRow { data: later[p], index: p as usize });
                if i < s {
                    assert(after[i] == moved[i]);
                } else {
                    assert(after[i + 1] == moved[i]);
                }
            }
        }
    }
}

/// Every entry that is left after a row was taken out is an entry that was
/// there, pointing one row back where it pointed past the row that went;
/// and every entry that was there, but that of the row that went, is left.
pub proof fn lemma_lowered<K: Ranked>(entries: Seq<IndexRow<K>>, position: usize)
    ensures
        lowered(entries, position).len() <= entries.len(),
        forall|k: int|
            0 <= k < lowered(entries, position).len() ==> exists|i: int|
                0 <= i < entries.len() && entries[i].index != position && k <= i && #[trigger] lowered(
                    entries,
                    position,
                )[k] == dropped(#[trigger] entries[i], position),
        forall|i: int|
            0 <= i < entries.len() && entries[i].index != position ==> lowered(
                entries,
                position,
            ).contains(dropped(#[trigger] entries[i], position)),
        forall|a: int, b: int|
            0 <= a < b < lowered(entries, position).len() ==> exists|i: int, j: int|
                0 <= i < j < entries.len() && entries[i].index != position && entries[j].index
                    != position && #[trigger] lowered(entries, position)[a] == dropped(
                    entries[i],
                    position,
                ) && #[trigger] lowered(entries, position)[b] == dropped(entries[j], position),
    decreases entries.len(),
{
    let out = lowered(entries, position);
    if entries.len() > 0 {
        let front = entries.drop_last();
        let last = entries.last();
        let before = lowered(front, position);
        lemma_lowered(front, position);
        assert forall|k: int| 0 <= k < out.len() implies exists|i: int|
            0 <= i < entries.len() && entries[i].index != position && k <= i && #[trigger] out[k]
                == dropped(#[trigger] entries[i], position) by {
            if k < before.len() {
                assert(out[k] == before[k]);
                let i = choose|i: int|
                    0 <= i < front.len() && front[i].index != position && k <= i && before[k]
                        == dropped(#[trigger] front[i], position);
                assert(front[i] == entries[i]);
            } else {
                assert(out[k] == dropped(entries[entries.len() - 1], position));
            }
        }
        assert forall|i: int| 0 <= i < entries.len() && entries[i].index != position
            implies out.contains(dropped(#[trigger] entries[i], position)) by {
            if i < front.len() {
                assert(front[i] == entries[i]);
                assert(before.contains(dropped(front[i], position)));
                let k = choose|k: int|
                    0 <= k < before.len() && before[k] == dropped(front[i], position);
                assert(out[k] == before[k]);
            } else {
                assert(out[out.len() - 1] == dropped(last, position));
            }
        }
        assert forall|a: int, b: int| 0 <= a < b < out.len() implies exists|i: int, j: int|
            0 <= i < j < entries.len() && entries[i].index != position && entries[j].index
                != position && #[trigger] out[a] == dropped(entries[i], position)
                && #[trigger] out[b] == dropped(entries[j], position) by {
            if b < before.len() {
                assert(out[a] == before[a] && out[b] == before[b]);
                let (i, j) = choose|i: int, j: int|
                    0 <= i < j < front.len() && front[i].index != position && front[j].index
                        != position && before[a] == dropped(front[i], position) && before[b]
                        == dropped(front[j], position);
                assert(front[i] == entries[i] && front[j] == entries[j]);
            } else {
                assert(out[a] == before[a]);
                let i = choose|i: int|
                    0 <= i < front.len() && front[i].index != position && a <= i && before[a]
                        == dropped(#[trigger] front[i], position);
                assert(front[i] == entries[i]);
                let j = entries.len() - 1;
                assert(out[b] == dropped(entries[j], position));
            }
        }
    }
}

/// An entry after the row at `position` was taken out of the main file:
/// it points one row back where it pointed past that row.
pub open spec fn dropped<K: Ranked>(entry: IndexRow<K>, position: usize) -> IndexRow<K> {
    if entry.index < position {
        entry
    } else {
        IndexRow { data: entry.data, index: (entry.index - 1) as usize }
    }
}

/// After a row was taken out of the main file and its entry out of the
/// index, the entries are still as an index keeps them, and are those of the
/// rows of the main file if they were.
pub proof fn law_remove_keeps_index_sorted<K: Ranked>(
    entries: Seq<IndexRow<K>>,
    keys: Seq<K>,
    position: usize,
)
    requires
        rank_lawful::<K>(),
        index_sorted(entries, keys.len()),
        position < keys.len() <= usize::MAX,
    ensures
        index_sorted(lowered(entries, position), (keys.len() - 1) as nat),
        mirrors(entries, keys) ==> mirrors(lowered(entries, position), keys.remove(position as int)),
{
    let out = lowered(entries, position);
    let n = keys.len();
    lemma_lowered(entries, position);
    assert forall|a: int, b: int| 0 <= a < b < out.len() implies entry_before(
        #[trigger] out[a],
        #[trigger] out[b],
    ) && out[a].index != out[b].index by {
        let (i, j) = choose|i: int, j: int|
            0 <= i < j < entries.len() && entries[i].index != position && entries[j].index
                != position && out[a] == dropped(entries[i], position) && out[b] == dropped(
                entries[j],
                position,
            );
        assert(entry_before(entries[i], entries[j]));
        assert(entries[i].index != entries[j].index);
    }
    assert forall|k: int| 0 <= k < out.len() implies (#[trigger] out[k]).index < n - 1 by {
        let i = choose|i: int|
            0 <= i < entries.len() && entries[i].index != position && k <= i && out[k] == dropped(
                #[trigger] entries[i],
                position,
            );
        assert(entries[i].index < n);
    }
    if mirrors(entries, keys) {
        let later = keys.remove(position as int);
        assert(later.len() == keys.len() - 1);
        let gone = IndexRow { data: keys[position as int], index: position };
        assert(entries.contains(gone));
        let g = choose|g: int| 0 <= g < entries.len() && entries[g] == gone;
        assert forall|p: int| 0 <= p < later.len() implies out.contains(
            IndexRow { data: #[trigger] later[p], index: p as usize },
        ) by {
            let q = if p < position {
                p
            } else {
                p + 1
            };
            let old_entry = IndexRow { data: keys[q], index: q as usize };
            assert(entries.contains(old_entry));
            let i = choose|i: int| 0 <= i < entries.len() && entries[i] == old_entry;
            assert(later[p] == keys[q]);
            assert(entries[i].index == q);
            assert(dropped(entries[i], position) == IndexRow { data: later[p], index: p as usize });
        }
        lemma_one_less(entries, position, g);
    }
}

/// Where exactly one entry points to the row at `position`, one entry
/// less is left after that row was taken out.
pub proof fn lemma_one_less<K: Ranked>(entries: Seq<IndexRow<K>>, position: usize, g: int)
    requires
        0 <= g < entries.len(),
        entries[g].index == position,
        forall|i: int| 0 <= i < entries.len() && i != g ==> (#[trigger] entries[i]).index != position,
    ensures
        lowered(entries, position).len() + 1 == entries.len(),
    decreases entries.len(),
{
    let front = entries.drop_last();
    if g == entries.len() - 1 {
        lemma_none_less(front, position);
    } else {
        assert forall|i: int| 0 <= i < front.len() && i != g implies (#[trigger] front[i]).index
            != position by {
            assert(front[i] == entries[i]);
        }
        assert(front[g] == entries[g]);
        lemma_one_less(front, position, g);
        assert(entries.last() == entries[entries.len() - 1]);
    }
}

/// Where no entry points to the row at `position`, all entries are left
/// after that row was taken out.
pub proof fn lemma_none_less<K: Ranked>(entries: Seq<IndexRow<K>>, position: usize)
    requires
        forall|i: int| 0 <= i < entries.len() ==> (#[trigger] entries[i]).index != position,
    ensures
        lowered(entries, position).len() == entries.len(),
    decreases entries.len(),
{
    if entries.len() > 0 {
        let front = entries.drop_last();
        assert forall|i: int| 0 <= i < front.len() implies (#[trigger] front[i]).index
            != position by {
            assert(front[i] == entries[i]);
        }
        lemma_none_less(front, position);
        assert(entries.last() == entries[entries.len() - 1]);
    }
}

/// The entries can follow a new row whose value can be compared with the
/// values of all of them, unless one of them points to the last position
/// that can be.
pub proof fn lemma_no_fault<K: Ranked>(entries: Seq<IndexRow<K>>, key: K)
    requires
        forall|i: int| 0 <= i < entries.len() ==> K::rank((#[trigger] entries[i]).data, key) is Some,
        forall|i: int| 0 <= i < entries.len() ==> (#[trigger] entries[i]).index < usize::MAX,
    ensures
        first_fault(entries, key) is None,
    decreases entries.len(),
{
    if entries.len() > 0 {
        let rest = entries.drop_first();
        assert forall|i: int| 0 <= i < rest.len() implies K::rank((#[trigger] rest[i]).data, key)
            is Some && rest[i].index < usize::MAX by {
            assert(rest[i] == entries[i + 1]);
        }
        lemma_no_fault(rest, key);
    }
}

/// What the index of a column holds after `insert` has followed a new row
/// of the main file: where the entries were as an index keeps them for the
/// `n` rows of the main file, all told by their images, and the value of the
/// new row is told by its image and can be compared with the values of all
/// entries, the index does not fail; it holds the old entries, those of
/// the rows from `position` on pointing one further, and the entry of the
/// new row at its place; and these are as an index keeps them for the rows
/// of the main file, one more than before, are told by their images, and
/// are the entries of the rows of the main file if the old ones were. The
/// values of the column are `keys`, row by row.
pub proof fn law_index_follows_insert<K: Ranked>(
    held: ColumnHeld<K>,
    position: usize,
    key: K,
    keys: Seq<K>,
)
    requires
        plain_lawful::<K>(),
        rank_lawful::<K>(),
        held.entries is Ok,
        all_exact(held.entries.unwrap()),
        index_sorted(held.entries.unwrap(), keys.len()),
        position <= keys.len() < usize::MAX,
        key.exact(),
        forall|i: int|
            0 <= i < held.entries.unwrap().len() ==> K::rank(
                (#[trigger] held.entries.unwrap()[i]).data,
                key,
            ) is Some,
    ensures
        ({
            let entries = held.entries.unwrap();
            let moved = bumped(entries, position);
            let after = moved.insert(
                slot(moved, key, position),
                IndexRow { data: key, index: position },
            );
            &&& column_with_row(held, position, key) == (
                None::<DbError>,
                ColumnHeld { entries: Ok(after), unique: held.unique },
            )
            &&& after.len() == entries.len() + 1
            &&& index_sorted(after, keys.len() + 1)
            &&& all_exact(after)
            &&& mirrors(entries, keys) ==> mirrors(after, keys.insert(position as int, key))
        }),
{
    let entries = held.entries.unwrap();
    let moved = bumped(entries, position);
    let s = slot(moved, key, position);
    let after = moved.insert(s, IndexRow { data: key, index: position });
    lemma_no_fault(entries, key);
    lemma_slot(moved, key, position);
    law_insert_keeps_index_sorted(entries, keys, key, position);
    assert forall|i: int| 0 <= i < after.len() implies (#[trigger] after[i]).data.exact() by {
        if i < s {
            assert(after[i] == moved[i]);
            assert(entries[i].exact());
        } else if i > s {
            assert(after[i] == moved[i - 1]);
            assert(entries[i - 1].exact());
        }
    }
    lemma_stored(after);
}

/// What the index of a column holds after `remove` has followed the taking
/// out of the row at `position` of the main file: where the entries were as
/// an index keeps them for the `n` rows of the main file, all told by their
/// images, the index does not fail; it holds the old entries without the one
/// of that row, those of the rows after it pointing one back; and these are
/// as an index keeps them for the rows of the main file, one fewer than
/// before, are told by their images, and are the entries of the rows of the
/// main file if the old ones were. The values of the column are `keys`, row
/// by row.
pub proof fn law_index_follows_remove<K: Ranked>(
    held: ColumnHeld<K>,
    position: usize,
    keys: Seq<K>,
)
    requires
        plain_lawful::<K>(),
        rank_lawful::<K>(),
        held.entries is Ok,
        all_exact(held.entries.unwrap()),
        index_sorted(held.entries.unwrap(), keys.len()),
        position < keys.len() <= usize::MAX,
    ensures
        ({
            let after = lowered(held.entries.unwrap(), position);
            &&& column_without_row(held, position) == (
                None::<DbError>,
                ColumnHeld { entries: Ok(after), unique: held.unique },
            )
            &&& index_sorted(after, (keys.len() - 1) as nat)
            &&& all_exact(after)
            &&& mirrors(held.entries.unwrap(), keys) ==> mirrors(
                after,
                keys.remove(position as int),
            )
        }),
{
    let entries = held.entries.unwrap();
    let after = lowered(entries, position);
    law_remove_keeps_index_sorted(entries, keys, position);
    lemma_lowered(entries, position);
    assert forall|k: int| 0 <= k < after.len() implies (#[trigger] after[k]).data.exact() by {
        let i = choose|i: int|
            0 <= i < entries.len() && entries[i].index != position && k <= i && after[k]
                == dropped(entries[i], position);
        assert(entries[i].exact());
    }
    lemma_stored(after);
}

/// What the index of a column holds after `clear`: what a new index holds,
/// no entry, which is as an index keeps the entries of a main file without
/// rows. Clearing does not fail.
pub proof fn law_cleared_index_is_new<Col: Column<Row>, Row: Binary>(held: ColumnHeld<Col::Key>)
    ensures
        <IndexFile<Col, Row> as UnspecifiedIndex<Row>>::emptied(held) == (
            None::<DbError>,
            ColumnHeld::<Col::Key> { entries: Ok(Seq::empty()), unique: held.unique },
        ),
        <CachedIndexFile<Col, Row> as UnspecifiedIndex<Row>>::emptied(held) == (
            None::<DbError>,
            ColumnHeld::<Col::Key> { entries: Ok(Seq::empty()), unique: held.unique },
        ),
        index_sorted(Seq::<IndexRow<Col::Key>>::empty(), 0),
        all_exact(Seq::<IndexRow<Col::Key>>::empty()),
        mirrors(Seq::<IndexRow<Col::Key>>::empty(), Seq::<Col::Key>::empty()),
{
}

/// The entries of an index depend on the rows of the main file alone: two
/// lists of entries that are both as an index keeps them, and are both the
/// entries of the rows of one main file, are the same list. So an index
/// that was cleared and filled again holds what a new index holds that was
/// filled with the same rows.
pub proof fn law_index_mirrors_rows<K: Ranked>(a: Seq<IndexRow<K>>, b: Seq<IndexRow<K>>, keys: Seq<K>)
    requires
        rank_lawful::<K>(),
        index_sorted(a, keys.len()),
        index_sorted(b, keys.len()),
        mirrors(a, keys),
        mirrors(b, keys),
    ensures
        a == b,
{
    lemma_mirror_entries(a, keys);
    lemma_mirror_entries(b, keys);
    assert forall|x: IndexRow<K>| a.contains(x) <==> b.contains(x) by {
        if a.contains(x) {
            let i = choose|i: int| 0 <= i < a.len() && a[i] == x;
            assert(x == IndexRow { data: keys[a[i].index as int], index: a[i].index });
        }
        if b.contains(x) {
            let i = choose|i: int| 0 <= i < b.len() && b[i] == x;
            assert(x == IndexRow { data: keys[b[i].index as int], index: b[i].index });
        }
    }
    law_index_is_determined(a, b, keys.len());
}

/// Each entry of an index that holds the entries of the rows of a main
/// file is the entry of the row that it points to.
pub proof fn lemma_mirror_entries<K: Ranked>(entries: Seq<IndexRow<K>>, keys: Seq<K>)
    requires
        index_sorted(entries, keys.len()),
        mirrors(entries, keys),
    ensures
        forall|i: int|
            0 <= i < entries.len() ==> (#[trigger] entries[i]) == (IndexRow {
                data: keys[entries[i].index as int],
                index: entries[i].index,
            }),
{
    assert forall|i: int| 0 <= i < entries.len() implies (#[trigger] entries[i]) == (IndexRow {
        data: keys[entries[i].index as int],
        index: entries[i].index,
    }) by {
        let q = entries[i].index as int;
        let twin = IndexRow { data: keys[q], index: q as usize };
        assert(entries.contains(twin));
        let j = choose|j: int| 0 <= j < entries.len() && entries[j] == twin;
        if i < j {
            assert(entries[i].index != entries[j].index);
        } else if j < i {
            assert(entries[j].index != entries[i].index);
        }
    }
}

/// There is only one way to keep given entries as an index keeps them: two
/// lists of entries that are both in order and hold the same entries are the
/// same list. So the index of a table depends on the rows of the table
/// alone, not on how they got there.
pub proof fn law_index_is_determined<K: Ranked>(a: Seq<IndexRow<K>>, b: Seq<IndexRow<K>>, n: nat)
    requires
        rank_lawful::<K>(),
        index_sorted(a, n),
        index_sorted(b, n),
        forall|x: IndexRow<K>| a.contains(x) <==> b.contains(x),
    ensures
        a == b,
    decreases a.len(),
{
    if a.len() == 0 {
        if b.len() > 0 {
            assert(b.contains(b[0]));
        }
        assert(a =~= b);
    } else if b.len() == 0 {
        assert(a.contains(a[0]));
    } else {
        let x = a.last();
        let y = b.last();
        assert(a.contains(x)) by {
            assert(a[a.len() - 1] == x);
        }
        assert(b.contains(y)) by {
            assert(b[b.len() - 1] == y);
        }
        let i = choose|i: int| 0 <= i < b.len() && b[i] == x;
        let j = choose|j: int| 0 <= j < a.len() && a[j] == y;
        assert(x == y) by {
            if x != y {
                assert(i < b.len() - 1);
                assert(entry_before(b[i], b[b.len() - 1]));
                assert(j < a.len() - 1);
                assert(entry_before(a[j], a[a.len() - 1]));
                lemma_before_one_way(x, y);
            }
        }
        let front_a = a.drop_last();
        let front_b = b.drop_last();
        assert forall|z: IndexRow<K>| front_a.contains(z) <==> front_b.contains(z) by {
            if front_a.contains(z) {
                let k = choose|k: int| 0 <= k < front_a.len() && front_a[k] == z;
                assert(a[k] == z);
                assert(entry_before(a[k], a[a.len() - 1]));
                lemma_before_one_way(z, x);
                assert(a.contains(z));
                let k2 = choose|k2: int| 0 <= k2 < b.len() && b[k2] == z;
                assert(z != y);
                assert(front_b[k2] == z);
            }
            if front_b.contains(z) {
                let k = choose|k: int| 0 <= k < front_b.len() && front_b[k] == z;
                assert(b[k] == z);
                assert(entry_before(b[k], b[b.len() - 1]));
                lemma_before_one_way(z, y);
                assert(b.contains(z));
                let k2 = choose|k2: int| 0 <= k2 < a.len() && a[k2] == z;
                assert(z != x);
                assert(front_a[k2] == z);
            }
        }
        assert(index_sorted(front_a, n)) by {
            assert forall|p: int, q: int| 0 <= p < q < front_a.len() implies entry_before(
                #[trigger] front_a[p],
                #[trigger] front_a[q],
            ) && front_a[p].index != front_a[q].index by {
                assert(front_a[p] == a[p] && front_a[q] == a[q]);
            }
            assert forall|p: int| 0 <= p < front_a.len() implies (#[trigger] front_a[p]).index
                < n by {
                assert(front_a[p] == a[p]);
            }
        }
        assert(index_sorted(front_b, n)) by {
            assert forall|p: int, q: int| 0 <= p < q < front_b.len() implies entry_before(
                #[trigger] front_b[p],
                #[trigger] front_b[q],
            ) && front_b[p].index != front_b[q].index by {
                assert(front_b[p] == b[p] && front_b[q] == b[q]);
            }
            assert forall|p: int| 0 <= p < front_b.len() implies (#[trigger] front_b[p]).index
                < n by {
                assert(front_b[p] == b[p]);
            }
        }
        law_index_is_determined(front_a, front_b, n);
        assert(a =~= front_a.push(x));
        assert(b =~= front_b.push(y));
    }
}

} // verus!
