use vstd::prelude::*;

use crate::geometry::Position;

verus! {

/// A position-tagged record of one world.
#[derive(Clone, Debug, PartialEq, Eq)]
pub struct Record {
    pub world_name: String,
    pub position: Position,
    pub uuid: u128,
    pub data: Vec<u8>,
    pub flex: Option<Vec<u8>>,
}

/// One row of a shard table: the record's columns, keyed by region identity.
#[derive(Clone, Debug, PartialEq, Eq)]
pub struct Row {
    pub region_id: i32,
    pub position: Position,
    pub uuid: u128,
    pub data: Vec<u8>,
    pub flex: Option<Vec<u8>>,
}

pub open spec fn bytes_view(b: Option<Vec<u8>>) -> Option<Seq<u8>> {
    match b {
        Some(v) => Some(v@),
        None => None,
    }
}

/// The mathematical form of a [`Record`].
pub type RecordModel = (Seq<char>, Position, u128, Seq<u8>, Option<Seq<u8>>);

/// The mathematical form of a [`Row`].
pub type RowModel = (int, Position, u128, Seq<u8>, Option<Seq<u8>>);

impl Record {
    pub open spec fn model(&self) -> RecordModel {
        (self.world_name@, self.position, self.uuid, self.data@, bytes_view(self.flex))
    }
}

impl Row {
    pub open spec fn model(&self) -> RowModel {
        (self.region_id as int, self.position, self.uuid, self.data@, bytes_view(self.flex))
    }
}

/// The row that stores record `r` under region identity `id`.
pub open spec fn row_model(r: RecordModel, id: int) -> RowModel {
    (id, r.1, r.2, r.3, r.4)
}

/// The record that row `w` of world `world` reads back as.
pub open spec fn record_model(w: RowModel, world: Seq<char>) -> RecordModel {
    (world, w.1, w.2, w.3, w.4)
}

/// Builds the row that stores `record` under region identity `region_id`.
pub fn row_of(record: Record, region_id: i32) -> (r: Row)
    ensures
        r.model() == row_model(record.model(), region_id as int),
{
    Row {
        region_id,
        position: record.position,
        uuid: record.uuid,
        data: record.data,
        flex: record.flex,
    }
}

/// Builds the record that `row` of world `world_name` stands for.
pub fn record_of(row: Row, world_name: &str) -> (r: Record)
    ensures
        r.model() == record_model(row.model(), world_name@),
{
    Record {
        world_name: world_name.to_owned(),
        position: row.position,
        uuid: row.uuid,
        data: row.data,
        flex: row.flex,
    }
}

/// A record stored under any region identity reads back, from its own world,
/// equal on every field.
pub proof fn lemma_row_round_trip(r: RecordModel, id: int)
    ensures
        record_model(row_model(r, id), r.0) == r,
{
}

} // verus!
