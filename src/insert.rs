use vstd::prelude::*;

use crate::record::{row_model, row_of, Record, RecordModel, Row, RowModel};
use crate::resolver::ShardIds;

verus! {

/// The longest world name accepted; it keeps shard table names within the
/// store's identifier limit.
pub const MAX_WORLD_NAME_LEN: usize = 40;

/// A character allowed in a world name: a lower-case ASCII letter, a digit or
/// an underscore.
pub open spec fn world_name_char(c: char) -> bool {
    ('a' <= c && c <= 'z') || ('0' <= c && c <= '9') || c == '_'
}

/// A world name that may stand in a shard table's name.
pub open spec fn valid_world_name(s: Seq<char>) -> bool {
    &&& 0 < s.len() <= MAX_WORLD_NAME_LEN
    &&& forall|i: int| 0 <= i < s.len() ==> world_name_char(#[trigger] s[i])
}

/// How the backing store answered a statement that failed.
#[derive(Clone, Debug, PartialEq, Eq)]
pub enum StoreError {
    /// The target table does not exist.
    RelationMissing,
    /// The table or index to create exists already.
    RelationExists,
    /// Any other failure, with the store's message.
    Other(String),
}

/// A failure to persist or read records.
#[derive(Clone, Debug, PartialEq, Eq)]
pub enum DatabaseError {
    /// The record's world name is not a valid world name.
    InvalidWorldName(String),
    /// The backing store failed.
    PostgresError(StoreError),
}

/// Checks that `name` is a valid world name and returns it.
pub fn sanitize_world_name(name: &str) -> (r: Result<String, DatabaseError>)
    ensures
        valid_world_name(name@) <==> r is Ok,
        r matches Ok(s) ==> s@ == name@,
        r matches Err(e) ==> e matches DatabaseError::InvalidWorldName(n) && n@ == name@,
{
    let n = name.unicode_len();
    let mut ok = n > 0 && n <= MAX_WORLD_NAME_LEN;
    let mut i: usize = 0;
    while ok && i < n
        invariant
            n as int == name@.len(),
            i <= n,
            ok ==> forall|j: int| 0 <= j < i ==> world_name_char(#[trigger] name@[j]),
            ok ==> 0 < n <= MAX_WORLD_NAME_LEN,
            !ok ==> !valid_world_name(name@),
        decreases n - i,
    {
        let c = name.get_char(i);
        if !(('a' <= c && c <= 'z') || ('0' <= c && c <= '9') || c == '_') {
            ok = false;
        }
        i = i + 1;
    }
    if ok {
        Ok(name.to_owned())
    } else {
        Err(DatabaseError::InvalidWorldName(name.to_owned()))
    }
}

/// Where the create-on-miss protocol of one group of rows stands. The
/// statement to issue next is the group's insert (`Insert`, `Retry`), the
/// shard table's creation (`CreateTable`) or its index's (`CreateIndex`).
#[derive(Clone, Debug, PartialEq, Eq)]
pub enum GroupStep {
    Insert,
    CreateTable,
    CreateIndex,
    Retry,
    Done,
    Failed(StoreError),
}

impl GroupStep {
    pub open spec fn is_final(&self) -> bool {
        self matches GroupStep::Done || self matches GroupStep::Failed(_)
    }
}

/// The step after `step` once its statement answered `outcome`.
pub open spec fn step_after(step: GroupStep, outcome: Result<(), StoreError>) -> GroupStep {
    match step {
        GroupStep::Insert => match outcome {
            Ok(()) => GroupStep::Done,
            Err(StoreError::RelationMissing) => GroupStep::CreateTable,
            Err(e) => GroupStep::Failed(e),
        },
        GroupStep::CreateTable => match outcome {
            Ok(()) | Err(StoreError::RelationExists) => GroupStep::CreateIndex,
            Err(e) => GroupStep::Failed(e),
        },
        GroupStep::CreateIndex => match outcome {
            Ok(()) | Err(StoreError::RelationExists) => GroupStep::Retry,
            Err(e) => GroupStep::Failed(e),
        },
        GroupStep::Retry => match outcome {
            Ok(()) => GroupStep::Done,
            Err(e) => GroupStep::Failed(e),
        },
        _ => step,
    }
}

/// Decides the next step of a group's protocol from the answer to the
/// current step's statement: a missing table is created, then indexed, then
/// the insert is retried once; any other failure ends the group.
pub fn next_step(step: GroupStep, outcome: Result<(), StoreError>) -> (r: GroupStep)
    requires
        !step.is_final(),
    ensures
        r == step_after(step, outcome),
{
    match step {
        GroupStep::Insert => match outcome {
            Ok(()) => GroupStep::Done,
            Err(StoreError::RelationMissing) => GroupStep::CreateTable,
            Err(e) => GroupStep::Failed(e),
        },
        GroupStep::CreateTable => match outcome {
            Ok(()) => GroupStep::CreateIndex,
            Err(StoreError::RelationExists) => GroupStep::CreateIndex,
            Err(e) => GroupStep::Failed(e),
        },
        GroupStep::CreateIndex => match outcome {
            Ok(()) => GroupStep::Retry,
            Err(StoreError::RelationExists) => GroupStep::Retry,
            Err(e) => GroupStep::Failed(e),
        },
        GroupStep::Retry => match outcome {
            Ok(()) => GroupStep::Done,
            Err(e) => GroupStep::Failed(e),
        },
        GroupStep::Done => GroupStep::Done,
        GroupStep::Failed(e) => GroupStep::Failed(e),
    }
}

/// The failure that a finished group reports, if any.
pub fn group_failure(step: GroupStep) -> (r: Option<DatabaseError>)
    requires
        step.is_final(),
    ensures
        step matches GroupStep::Done ==> r is None,
        step matches GroupStep::Failed(e) ==> r == Some(DatabaseError::PostgresError(e)),
{
    match step {
        GroupStep::Failed(e) => Some(DatabaseError::PostgresError(e)),
        _ => None,
    }
}

/// The rows bound for one shard table: those of world `world_name` whose
/// region identity falls in table `table_suffix`.
#[derive(Debug)]
pub struct Group {
    pub world_name: String,
    pub table_suffix: i32,
    pub rows: Vec<Row>,
}

/// The mathematical form of a [`Group`].
pub type GroupModel = (Seq<char>, int, Seq<RowModel>);

pub open spec fn rows_model(rows: Seq<Row>) -> Seq<RowModel> {
    rows.map_values(|w: Row| w.model())
}

pub open spec fn groups_model(groups: Seq<Group>) -> Seq<GroupModel> {
    groups.map_values(|g: Group| g.model())
}

impl Group {
    pub open spec fn model(&self) -> GroupModel {
        (self.world_name@, self.table_suffix as int, rows_model(self.rows@))
    }
}

/// The groups after adding row `w` for table `(world, suffix)`: it joins the
/// group of that table, or starts a new one at the end.
pub open spec fn after_add(gs: Seq<GroupModel>, world: Seq<char>, suffix: int, w: RowModel) -> Seq<
    GroupModel,
> {
    if exists|i: int| 0 <= i < gs.len() && gs[i].0 == world && gs[i].1 == suffix {
        let i = choose|i: int| 0 <= i < gs.len() && gs[i].0 == world && gs[i].1 == suffix;
        gs.update(i, (world, suffix, gs[i].2.push(w)))
    } else {
        gs.push((world, suffix, seq![w]))
    }
}

/// No two groups are bound for the same table.
pub open spec fn tables_unique(gs: Seq<GroupModel>) -> bool {
    forall|i: int, j: int|
        0 <= i < gs.len() && 0 <= j < gs.len() && i != j ==> (gs[i].0, gs[i].1) != (gs[j].0, gs[j].1)
}

/// Records of one batch, grouped by destination table, and the failures met
/// so far.
#[derive(Debug)]
pub struct Batch {
    groups: Vec<Group>,
    failures: Vec<DatabaseError>,
}

impl Batch {
    pub closed spec fn groups(&self) -> Seq<GroupModel> {
        groups_model(self.groups@)
    }

    pub closed spec fn failures(&self) -> Seq<DatabaseError> {
        self.failures@
    }

    pub closed spec fn wf(&self) -> bool {
        tables_unique(self.groups())
    }

    /// An empty batch.
    pub fn new() -> (r: Batch)
        ensures
            r.wf(),
            r.groups() == Seq::<GroupModel>::empty(),
            r.failures() == Seq::<DatabaseError>::empty(),
    {
        let r = Batch { groups: Vec::new(), failures: Vec::new() };
        assert(r.groups() =~= Seq::<GroupModel>::empty());
        r
    }

    /// Adds `row` to the group of table `(world_name, table_suffix)`.
    pub fn add_row(&mut self, world_name: &str, table_suffix: i32, row: Row)
        requires
            old(self).wf(),
        ensures
            final(self).wf(),
            final(self).groups() == after_add(
                old(self).groups(),
                world_name@,
                table_suffix as int,
                row.model(),
            ),
            final(self).failures() == old(self).failures(),
    {
        let ghost gs = self.groups();
        let ghost m = row.model();
        let w = world_name.to_owned();
        let mut i: usize = 0;
        while i < self.groups.len()
            invariant
                i <= self.groups@.len(),
                w@ == world_name@,
                tables_unique(gs),
                gs == old(self).groups(),
                m == row.model(),
                self.failures@ == old(self).failures@,
                gs == groups_model(self.groups@),
                forall|j: int| 0 <= j < i ==> !(gs[j].0 == world_name@ && gs[j].1 == table_suffix as int),
            decreases self.groups.len() - i,
        {
            if self.groups[i].table_suffix == table_suffix && self.groups[i].world_name == w {
                assert(gs[i as int].0 == world_name@ && gs[i as int].1 == table_suffix as int);
                let mut g = self.groups.remove(i);
                let ghost rows0 = g.rows@;
                g.rows.push(row);
                self.groups.insert(i, g);
                proof {
                    assert(g.rows@ == rows0.push(row));
                    assert(rows_model(g.rows@)[rows0.len() as int] == g.rows@[rows0.len() as int].model());
                    assert(rows_model(g.rows@) =~= rows_model(rows0).push(m));
                    assert(0 <= i < gs.len() && gs[i as int].0 == world_name@ && gs[i as int].1 == table_suffix as int);
                    let c = choose|c: int| 0 <= c < gs.len() && gs[c].0 == world_name@ && gs[c].1 == table_suffix as int;
                    assert(c == i);
                    assert(self.groups() =~= gs.update(i as int, (world_name@, table_suffix as int, gs[i as int].2.push(m))));
                    assert(after_add(gs, world_name@, table_suffix as int, m) == gs.update(
                        c,
                        (world_name@, table_suffix as int, gs[c].2.push(m)),
                    ));
                }
                return;
            }
            i = i + 1;
        }
        let mut rows: Vec<Row> = Vec::new();
        rows.push(row);
        let g = Group { world_name: w, table_suffix, rows };
        self.groups.push(g);
        proof {
            assert(rows_model(g.rows@) =~= seq![m]);
            assert(self.groups() =~= gs.push((world_name@, table_suffix as int, seq![m])));
        }
    }

    /// Adds `record`, of the validated world `world_name`, under the shard
    /// identities `ids` that its position resolved to.
    pub fn add_record(&mut self, world_name: &str, ids: ShardIds, record: Record)
        requires
            old(self).wf(),
        ensures
            final(self).wf(),
            final(self).groups() == after_add(
                old(self).groups(),
                world_name@,
                ids.table_suffix as int,
                row_model(record.model(), ids.region_id as int),
            ),
            final(self).failures() == old(self).failures(),
    {
        let row = row_of(record, ids.region_id);
        self.add_row(world_name, ids.table_suffix, row);
    }

    /// Notes a failure of the batch.
    pub fn record_failure(&mut self, error: DatabaseError)
        ensures
            final(self).groups() == old(self).groups(),
            final(self).failures() == old(self).failures().push(error),
            old(self).wf() ==> final(self).wf(),
    {
        self.failures.push(error);
        assert(self.groups() =~= old(self).groups());
    }

    /// The groups, one per destination table, and the failures so far.
    pub fn into_parts(self) -> (r: (Vec<Group>, Vec<DatabaseError>))
        ensures
            groups_model(r.0@) == self.groups(),
            r.1@ == self.failures(),
    {
        (self.groups, self.failures)
    }
}

/// The groups after adding rows `ws`, in order, all for table `(world, suffix)`.
pub open spec fn add_all(gs: Seq<GroupModel>, world: Seq<char>, suffix: int, ws: Seq<RowModel>) -> Seq<
    GroupModel,
>
    decreases ws.len(),
{
    if ws.len() == 0 {
        gs
    } else {
        after_add(add_all(gs, world, suffix, ws.drop_last()), world, suffix, ws.last())
    }
}

/// Rows that all go to one table, added to an empty batch, form a single
/// group that holds every one of them, in the order they were added.
pub proof fn lemma_one_table_one_group(world: Seq<char>, suffix: int, ws: Seq<RowModel>)
    requires
        ws.len() > 0,
    ensures
        add_all(Seq::<GroupModel>::empty(), world, suffix, ws) == seq![(world, suffix, ws)],
    decreases ws.len(),
{
    let e = Seq::<GroupModel>::empty();
    assert(add_all(e, world, suffix, ws) == after_add(
        add_all(e, world, suffix, ws.drop_last()),
        world,
        suffix,
        ws.last(),
    ));
    if ws.len() == 1 {
        assert(ws.drop_last() =~= Seq::<RowModel>::empty());
        assert(add_all(e, world, suffix, ws.drop_last()) == e);
        assert(after_add(e, world, suffix, ws.last()) == e.push((world, suffix, seq![ws.last()])));
        assert(seq![ws.last()] =~= ws);
        assert(e.push((world, suffix, seq![ws.last()])) =~= seq![(world, suffix, ws)]);
    } else {
        lemma_one_table_one_group(world, suffix, ws.drop_last());
        let prev = seq![(world, suffix, ws.drop_last())];
        assert(prev[0].0 == world && prev[0].1 == suffix);
        let c = choose|i: int| 0 <= i < prev.len() && prev[i].0 == world && prev[i].1 == suffix;
        assert(c == 0);
        assert(ws.drop_last().push(ws.last()) =~= ws);
        assert(prev.update(0, (world, suffix, prev[0].2.push(ws.last()))) =~= seq![(world, suffix, ws)]);
        assert(after_add(prev, world, suffix, ws.last()) == prev.update(
            c,
            (world, suffix, prev[c].2.push(ws.last())),
        ));
    }
}

/// The first insert into a shard that does not exist yet creates its table,
/// then its index, retries and succeeds, with nothing left for the caller to
/// handle; an insert into an existing shard finishes at once without any
/// creation.
pub proof fn lemma_first_insert_creates_shard()
    ensures
        step_after(GroupStep::Insert, Err(StoreError::RelationMissing)) == GroupStep::CreateTable,
        step_after(GroupStep::CreateTable, Ok(())) == GroupStep::CreateIndex,
        step_after(GroupStep::CreateIndex, Ok(())) == GroupStep::Retry,
        step_after(GroupStep::Retry, Ok(())) == GroupStep::Done,
        step_after(GroupStep::Insert, Ok(())) == GroupStep::Done,
{
}

/// Table creation only ever follows the first insert, and no step leads back
/// to it: each group creates its table at most once and retries at most once.
pub proof fn lemma_creation_at_most_once(step: GroupStep, outcome: Result<(), StoreError>)
    requires
        !step.is_final(),
    ensures
        step_after(step, outcome) != GroupStep::Insert,
        step_after(step, outcome) == GroupStep::CreateTable ==> step == GroupStep::Insert,
        step_after(step, outcome) == GroupStep::Retry ==> step == GroupStep::CreateIndex,
        step == GroupStep::Retry ==> step_after(step, outcome).is_final(),
{
}

/// A table or index that another writer created first does not fail the
/// group.
pub proof fn lemma_existing_relation_tolerated()
    ensures
        step_after(GroupStep::CreateTable, Err(StoreError::RelationExists)) == GroupStep::CreateIndex,
        step_after(GroupStep::CreateIndex, Err(StoreError::RelationExists)) == GroupStep::Retry,
{
}

} // verus!
