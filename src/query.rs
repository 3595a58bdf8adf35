use vstd::prelude::*;

use crate::insert::{rows_model, DatabaseError, StoreError};
use crate::record::{record_model, record_of, row_model, Record, RecordModel, Row, RowModel};

verus! {

pub open spec fn records_model(records: Seq<Record>) -> Seq<RecordModel> {
    records.map_values(|r: Record| r.model())
}

/// The records that rows `rows` of world `world` read back as.
pub open spec fn records_of_rows(rows: Seq<RowModel>, world: Seq<char>) -> Seq<RecordModel> {
    rows.map_values(|w: RowModel| record_model(w, world))
}

/// Turns the rows read from one region's shard into records of world
/// `world_name`, keeping their order.
pub fn records_from_rows(rows: Vec<Row>, world_name: &str) -> (r: Vec<Record>)
    ensures
        records_model(r@) == records_of_rows(rows_model(rows@), world_name@),
{
    let ghost input = rows@;
    let mut rows = rows;
    let mut reversed: Vec<Row> = Vec::new();
    while rows.len() > 0
        invariant
            rows@ + reversed@.reverse() == input,
        decreases rows.len(),
    {
        let ghost before = rows@;
        let ghost rev_before = reversed@;
        let w = rows.pop().unwrap();
        reversed.push(w);
        proof {
            assert(reversed@.reverse() =~= seq![w] + rev_before.reverse());
            assert(before =~= rows@.push(w));
            assert(rows@ + reversed@.reverse() =~= before + rev_before.reverse());
        }
    }
    assert(reversed@.reverse() =~= input);
    let mut out: Vec<Record> = Vec::new();
    while reversed.len() > 0
        invariant
            input.len() == out@.len() + reversed@.len(),
            forall|i: int| 0 <= i < reversed@.len() ==> reversed@[i] == input[input.len() - 1 - i],
            forall|i: int|
                0 <= i < out@.len() ==> (#[trigger] out@[i]).model() == record_model(input[i].model(), world_name@),
        decreases reversed.len(),
    {
        let w = reversed.pop().unwrap();
        proof {
            assert(w == input[out@.len() as int]);
        }
        out.push(record_of(w, world_name));
    }
    assert(records_model(out@) =~= records_of_rows(rows_model(input), world_name@));
    out
}

/// The result of reading one region's shard: its records, or the store's
/// failure. A missing shard table is an error too, never an empty result.
pub fn records_from_read(read: Result<Vec<Row>, StoreError>, world_name: &str) -> (r: Result<
    Vec<Record>,
    DatabaseError,
>)
    ensures
        match read {
            Ok(rows) => r matches Ok(recs) && records_model(recs@) == records_of_rows(
                rows_model(rows@),
                world_name@,
            ),
            Err(e) => r == Err::<Vec<Record>, DatabaseError>(DatabaseError::PostgresError(e)),
        },
{
    match read {
        Ok(rows) => Ok(records_from_rows(rows, world_name)),
        Err(e) => Err(DatabaseError::PostgresError(e)),
    }
}

/// Records of world `world` stored as rows under one region identity read
/// back as exactly those records, in the order they were stored.
pub proof fn lemma_region_round_trip(recs: Seq<RecordModel>, world: Seq<char>, id: int)
    requires
        forall|i: int| 0 <= i < recs.len() ==> (#[trigger] recs[i]).0 == world,
    ensures
        records_of_rows(recs.map_values(|r: RecordModel| row_model(r, id)), world) == recs,
{
    assert(records_of_rows(recs.map_values(|r: RecordModel| row_model(r, id)), world) =~= recs);
}

} // verus!
