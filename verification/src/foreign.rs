//! References from a row of one table to a row of another.
//!
//! A foreign field holds the primary key of the row that it refers to, and
//! is stored as that key. Nothing sees to it that the row exists: a
//! reference may dangle.
use crate::bin_file::BaseBinFile;
use crate::index_file::{found_right, found_sound, ordered_for, IndexGet};
use crate::order::{chain_lawful, rank_lawful, turn_lawful, Order, Ranked};
use crate::plain::{copy_lawful, image_lawful, parse_lawful, plain_lawful, Plain};
use crate::table::{table_get_of, ById, SpecificTableFile, Table, TableGet};
use crate::table_laws::{right_row, searchable};
use vstd::prelude::*;
use vstd::std_specs::cmp::PartialEqSpec;

verus! {

/// A reference to the row of another table with the primary key `id`.
#[derive(Debug)]
pub struct Foreign<Row: Table> {
    id: Row::ID,
}

impl<Row: Table> Clone for Foreign<Row> {
    fn clone(&self) -> (twin: Self)
        ensures
            twin == *self,
    {
        Foreign { id: self.id }
    }
}

impl<Row: Table> Copy for Foreign<Row> {

}

impl<Row: Table> Foreign<Row> {
    /// The primary key that the reference holds.
    pub closed spec fn key(&self) -> Row::ID {
        self.id
    }

    /// A reference to the row with the primary key `id`.
    pub fn new(id: Row::ID) -> (f: Self)
        ensures
            f.key() == id,
    {
        Foreign { id }
    }

    /// The primary key that the reference holds.
    pub fn id(&self) -> (id: &Row::ID)
        ensures
            *id == self.key(),
    {
        &self.id
    }

    /// Looks the row up in its table. In a table whose main file is as the
    /// table keeps it the answer is the right one: the row with the key, or
    /// that there is none.
    pub fn data<F: BaseBinFile<Row>>(&self, table: &mut SpecificTableFile<Row, F>) -> (r: TableGet<
        Row,
    >)
        requires
            old(table).wf(),
        ensures
            final(table).wf(),
            final(table).indexes() == old(table).indexes(),
            final(table).rows_file().image() == old(table).rows_file().image(),
            final(table).rows_file().side() == old(table).rows_file().side(),
            final(table).rows_file().place() == old(table).rows_file().place(),
            searchable::<Row>(
                old(table).rows_file().image(),
                old(table).rows_file().side().files,
                self.key(),
            ) ==> right_row::<Row>(
                old(table).rows_file().image(),
                old(table).rows_file().side().files,
                self.key(),
                r,
            ),
            exists|found: IndexGet<Row>|
                {
                    &&& #[trigger] table_get_of(found, r)
                    &&& found_sound::<Row, Row::ID, ById>(
                        old(table).rows_file().image(),
                        old(table).rows_file().side().files,
                        self.key(),
                        found,
                    )
                    &&& ordered_for::<Row, Row::ID, ById>(
                        old(table).rows_file().image(),
                        old(table).rows_file().side().files,
                        self.key(),
                    ) ==> found_right::<Row, Row::ID, ById>(
                        old(table).rows_file().image(),
                        old(table).rows_file().side().files,
                        self.key(),
                        found,
                    )
                },
    {
        table.get_by_id(&self.id)
    }
}

/// Two references are equal when their keys are.
impl<Row: Table> PartialEq for Foreign<Row> where Row::ID: PartialEq {
    fn eq(&self, other: &Self) -> (b: bool) {
        self.id == other.id
    }
}

impl<Row: Table> vstd::std_specs::cmp::PartialEqSpecImpl for Foreign<Row> where Row::ID: PartialEq {
    open spec fn obeys_eq_spec() -> bool {
        <Row::ID as PartialEqSpec>::obeys_eq_spec()
    }

    open spec fn eq_spec(&self, other: &Self) -> bool {
        self.key().eq_spec(&other.key())
    }
}

/// A reference is stored as the key that it holds.
impl<Row: Table> Plain for Foreign<Row> {
    open spec fn plain_width() -> nat {
        Row::ID::plain_width()
    }

    open spec fn image(&self) -> Seq<u8> {
        self.key().image()
    }

    closed spec fn parse(data: Seq<u8>) -> Self {
        Foreign { id: Row::ID::parse(data) }
    }

    open spec fn exact(&self) -> bool {
        self.key().exact()
    }

    fn plain_size() -> (n: usize) {
        Row::ID::plain_size()
    }

    fn room(size: usize) -> (b: bool) {
        Row::ID::room(size)
    }

    fn to_image(&self) -> (out: Vec<u8>) {
        self.id.to_image()
    }

    fn from_image(data: &[u8]) -> (v: Self) {
        Foreign { id: Row::ID::from_image(data) }
    }
}

/// What is read from an image as a reference holds the key that is read
/// from the image.
pub proof fn lemma_foreign_parse<Row: Table>(data: Seq<u8>)
    ensures
        Foreign::<Row>::parse(data).key() == Row::ID::parse(data),
{
}

/// The promises of a plain field hold of a reference with a lawful key.
pub proof fn lemma_plain_foreign<Row: Table>()
    requires
        plain_lawful::<Row::ID>(),
    ensures
        plain_lawful::<Foreign<Row>>(),
{
    assert forall|v: Foreign<Row>| #[trigger] image_lawful(v) by {
        assert(image_lawful(v.id));
    }
    assert forall|data: Seq<u8>| #[trigger] parse_lawful::<Foreign<Row>>(data) by {
        assert(parse_lawful::<Row::ID>(data));
    }
    assert forall|a: Foreign<Row>, b: Foreign<Row>| #[trigger] copy_lawful(a, b) by {}
}

/// References compare as the keys that they hold.
impl<Row: Table> Ranked for Foreign<Row> {
    open spec fn rank(a: Self, b: Self) -> Option<Order> {
        Row::ID::rank(a.key(), b.key())
    }

    fn compare(&self, other: &Self) -> (o: Option<Order>) {
        self.id.compare(&other.id)
    }
}

/// The order of references with a lawful key is lawful.
pub proof fn lemma_ranked_foreign<Row: Table>()
    requires
        rank_lawful::<Row::ID>(),
    ensures
        rank_lawful::<Foreign<Row>>(),
{
    assert forall|a: Foreign<Row>, b: Foreign<Row>| #[trigger] turn_lawful(a, b) by {
        assert(turn_lawful(a.id, b.id));
    }
    assert forall|a: Foreign<Row>, b: Foreign<Row>, c: Foreign<Row>| #[trigger]
        chain_lawful(a, b, c) by {
        assert(chain_lawful(a.id, b.id, c.id));
    }
}

} // verus!
