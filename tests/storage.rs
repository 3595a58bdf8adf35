use std::collections::HashMap;

use spatial_store::geometry::{floor_div_i64, world_region, Position, WorldRegion};
use spatial_store::insert::{
    group_failure, next_step, sanitize_world_name, Batch, DatabaseError, GroupStep, StoreError,
};
use spatial_store::query::records_from_read;
use spatial_store::record::{Record, Row};
use spatial_store::resolver::{Lookup, RegionResolver, ShardIds};

/// An in-memory registry and shard store.
#[derive(Default)]
struct Store {
    registry: HashMap<(String, i64, i64, i64), i32>,
    registry_lookups: usize,
    tables: HashMap<(String, i32), Vec<Row>>,
    indexes: Vec<(String, i32)>,
    tables_created: usize,
    statements: Vec<String>,
}

impl Store {
    fn find_or_create(&mut self, region: &WorldRegion) -> i32 {
        self.registry_lookups += 1;
        let next = self.registry.len() as i32 + 1;
        *self
            .registry
            .entry((region.world_name.clone(), region.region_x, region.region_y, region.region_z))
            .or_insert(next)
    }

    fn run(&mut self, step: &GroupStep, world: &str, suffix: i32, rows: &[Row]) -> Result<(), StoreError> {
        let key = (world.to_string(), suffix);
        match step {
            GroupStep::Insert | GroupStep::Retry => {
                self.statements.push(format!("insert {world} {suffix}"));
                match self.tables.get_mut(&key) {
                    Some(table) => {
                        table.extend(rows.iter().cloned());
                        Ok(())
                    }
                    None => Err(StoreError::RelationMissing),
                }
            }
            GroupStep::CreateTable => {
                self.statements.push(format!("create table {world} {suffix}"));
                if self.tables.contains_key(&key) {
                    return Err(StoreError::RelationExists);
                }
                self.tables_created += 1;
                self.tables.insert(key, Vec::new());
                Ok(())
            }
            GroupStep::CreateIndex => {
                self.statements.push(format!("create index {world} {suffix}"));
                self.indexes.push(key);
                Ok(())
            }
            _ => unreachable!(),
        }
    }

    fn read(&self, world: &str, ids: ShardIds) -> Result<Vec<Row>, StoreError> {
        match self.tables.get(&(world.to_string(), ids.table_suffix)) {
            None => Err(StoreError::RelationMissing),
            Some(rows) => Ok(rows.iter().filter(|r| r.region_id == ids.region_id).cloned().collect()),
        }
    }
}

fn resolve(resolver: &mut RegionResolver, store: &mut Store, world: &str, p: Position) -> ShardIds {
    match resolver.lookup_cached(world, p) {
        Lookup::Cached(ids) => ids,
        Lookup::Needed(region) => {
            let id = store.find_or_create(&region);
            resolver.record_region_id(&region, id)
        }
    }
}

fn insert_many(resolver: &mut RegionResolver, store: &mut Store, records: Vec<Record>) -> Vec<DatabaseError> {
    let mut batch = Batch::new();
    for record in records {
        let world = match sanitize_world_name(&record.world_name) {
            Ok(w) => w,
            Err(e) => {
                batch.record_failure(e);
                continue;
            }
        };
        let ids = resolve(resolver, store, &world, record.position);
        batch.add_record(&world, ids, record);
    }
    let (groups, mut failures) = batch.into_parts();
    for group in groups {
        let mut step = GroupStep::Insert;
        while !matches!(step, GroupStep::Done | GroupStep::Failed(_)) {
            let outcome = store.run(&step, &group.world_name, group.table_suffix, &group.rows);
            step = next_step(step, outcome);
        }
        if let Some(e) = group_failure(step) {
            failures.push(e);
        }
    }
    failures
}

fn query(resolver: &mut RegionResolver, store: &mut Store, world: &str, p: Position) -> Result<Vec<Record>, DatabaseError> {
    let ids = resolve(resolver, store, world, p);
    records_from_read(store.read(world, ids), world)
}

fn pos(x: i64, y: i64, z: i64) -> Position {
    Position { x, y, z }
}

fn record(world: &str, p: Position, uuid: u128, data: &[u8], flex: Option<&[u8]>) -> Record {
    Record {
        world_name: world.to_string(),
        position: p,
        uuid,
        data: data.to_vec(),
        flex: flex.map(|f| f.to_vec()),
    }
}

#[test]
fn floor_division_values() {
    assert_eq!(floor_div_i64(7, 2), 3);
    assert_eq!(floor_div_i64(-7, 2), -4);
    assert_eq!(floor_div_i64(-8, 2), -4);
    assert_eq!(floor_div_i64(0, 5), 0);
    assert_eq!(floor_div_i64(i64::MIN, 1), i64::MIN);
}

#[test]
fn world_region_divides_each_axis() {
    let r = world_region("earth", pos(130, -1, 64), 64, 16, 32);
    assert_eq!(r.world_name, "earth");
    assert_eq!((r.region_x, r.region_y, r.region_z), (2, -1, 2));
}

#[test]
fn same_region_same_ids() {
    let mut resolver = RegionResolver::new(16, 16, 16, 4, 8);
    let mut store = Store::default();
    resolve(&mut resolver, &mut store, "earth", pos(100, 100, 100));
    let a = resolve(&mut resolver, &mut store, "earth", pos(0, 1, 2));
    let b = resolve(&mut resolver, &mut store, "earth", pos(15, 15, 15));
    assert_eq!(a, b);
    let c = resolve(&mut resolver, &mut store, "earth", pos(16, 15, 15));
    assert_ne!(a.region_id, c.region_id);
}

#[test]
fn resolve_twice_is_identical() {
    let mut resolver = RegionResolver::new(10, 10, 10, 3, 0);
    let mut store = Store::default();
    for i in 0..7 {
        resolve(&mut resolver, &mut store, "earth", pos(i * 10, 0, 0));
    }
    let cold = resolve(&mut resolver, &mut store, "earth", pos(65, 0, 0));
    assert_eq!(store.registry_lookups, 7);
    let warm = resolve(&mut resolver, &mut store, "earth", pos(65, 0, 0));
    assert_eq!(store.registry_lookups, 7);
    assert_eq!(cold, warm);
    assert_eq!(cold, ShardIds { table_suffix: 2, region_id: 7 });
}

#[test]
fn lru_evicts_least_recently_used_region() {
    let mut resolver = RegionResolver::new(10, 10, 10, 100, 2);
    let mut store = Store::default();
    let a = resolve(&mut resolver, &mut store, "earth", pos(0, 0, 0));
    resolve(&mut resolver, &mut store, "earth", pos(10, 0, 0));
    resolve(&mut resolver, &mut store, "earth", pos(20, 0, 0));
    assert_eq!(store.registry_lookups, 3);
    assert!(matches!(resolver.lookup_cached("earth", pos(0, 0, 0)), Lookup::Needed(_)));
    let again = resolve(&mut resolver, &mut store, "earth", pos(0, 0, 0));
    assert_eq!(store.registry_lookups, 4);
    assert_eq!(a, again);
    // the most recent region is still cached
    assert!(matches!(resolver.lookup_cached("earth", pos(20, 0, 0)), Lookup::Cached(_)));
}

#[test]
fn regions_differ_by_world() {
    let mut resolver = RegionResolver::new(10, 10, 10, 100, 4);
    let mut store = Store::default();
    let a = resolve(&mut resolver, &mut store, "earth", pos(0, 0, 0));
    let b = resolve(&mut resolver, &mut store, "mars", pos(0, 0, 0));
    assert_ne!(a.region_id, b.region_id);
}

#[test]
fn resolver_keeps_configuration() {
    let resolver = RegionResolver::new(1, 2, 3, 4, 5);
    assert_eq!(
        (resolver.region_x_size(), resolver.region_y_size(), resolver.region_z_size(), resolver.table_size()),
        (1, 2, 3, 4)
    );
}

#[test]
fn sanitize_world_name_rules() {
    assert_eq!(sanitize_world_name("earth_2"), Ok("earth_2".to_string()));
    assert_eq!(sanitize_world_name(""), Err(DatabaseError::InvalidWorldName(String::new())));
    assert_eq!(
        sanitize_world_name("Earth"),
        Err(DatabaseError::InvalidWorldName("Earth".to_string()))
    );
    assert!(sanitize_world_name("a; drop table x").is_err());
    assert!(sanitize_world_name(&"a".repeat(40)).is_ok());
    assert!(sanitize_world_name(&"a".repeat(41)).is_err());
}

#[test]
fn protocol_steps() {
    assert_eq!(next_step(GroupStep::Insert, Ok(())), GroupStep::Done);
    assert_eq!(next_step(GroupStep::Insert, Err(StoreError::RelationMissing)), GroupStep::CreateTable);
    let other = StoreError::Other("disk full".to_string());
    assert_eq!(next_step(GroupStep::Insert, Err(other.clone())), GroupStep::Failed(other.clone()));
    assert_eq!(next_step(GroupStep::CreateTable, Err(StoreError::RelationExists)), GroupStep::CreateIndex);
    assert_eq!(next_step(GroupStep::CreateIndex, Err(StoreError::RelationExists)), GroupStep::Retry);
    assert_eq!(
        next_step(GroupStep::Retry, Err(StoreError::RelationMissing)),
        GroupStep::Failed(StoreError::RelationMissing)
    );
    assert_eq!(group_failure(GroupStep::Done), None);
    assert_eq!(
        group_failure(GroupStep::Failed(other.clone())),
        Some(DatabaseError::PostgresError(other))
    );
}

#[test]
fn first_insert_creates_shard_once() {
    let mut resolver = RegionResolver::new(16, 16, 16, 10, 16);
    let mut store = Store::default();
    let failures = insert_many(&mut resolver, &mut store, vec![record("earth", pos(1, 1, 1), 1, b"a", None)]);
    assert!(failures.is_empty());
    assert_eq!(store.tables_created, 1);
    assert_eq!(
        store.statements,
        vec!["insert earth 0", "create table earth 0", "create index earth 0", "insert earth 0"]
    );
    let failures = insert_many(&mut resolver, &mut store, vec![record("earth", pos(2, 2, 2), 2, b"b", None)]);
    assert!(failures.is_empty());
    assert_eq!(store.tables_created, 1);
    assert_eq!(store.statements.len(), 5);
    assert_eq!(query(&mut resolver, &mut store, "earth", pos(0, 0, 0)).unwrap().len(), 2);
}

#[test]
fn three_records_one_invalid_world() {
    let mut resolver = RegionResolver::new(16, 16, 16, 10, 16);
    let mut store = Store::default();
    let records = vec![
        record("earth", pos(1, 1, 1), 1, b"one", None),
        record("Bad World", pos(1, 1, 1), 2, b"two", None),
        record("earth", pos(40, 1, 1), 3, b"three", Some(b"x")),
    ];
    let failures = insert_many(&mut resolver, &mut store, records.clone());
    assert_eq!(failures, vec![DatabaseError::InvalidWorldName("Bad World".to_string())]);
    assert_eq!(query(&mut resolver, &mut store, "earth", pos(1, 1, 1)).unwrap(), vec![records[0].clone()]);
    assert_eq!(query(&mut resolver, &mut store, "earth", pos(40, 1, 1)).unwrap(), vec![records[2].clone()]);
}

#[test]
fn insert_then_query_region_round_trip() {
    let mut resolver = RegionResolver::new(100, 100, 100, 5, 4);
    let mut store = Store::default();
    let records: Vec<Record> = (0..5)
        .map(|i| record("earth", pos(i * 7, i, 3 * i), 100 + i as u128, &[i as u8; 3], if i % 2 == 0 { Some(&[9u8][..]) } else { None }))
        .collect();
    let failures = insert_many(&mut resolver, &mut store, records.clone());
    assert!(failures.is_empty());
    let mut back = query(&mut resolver, &mut store, "earth", pos(50, 50, 50)).unwrap();
    back.sort_by_key(|r| r.uuid);
    assert_eq!(back, records);
}

#[test]
fn batch_groups_rows_by_table() {
    let mut batch = Batch::new();
    let ids_a = ShardIds { table_suffix: 0, region_id: 1 };
    let ids_b = ShardIds { table_suffix: 1, region_id: 12 };
    batch.add_record("earth", ids_a, record("earth", pos(0, 0, 0), 1, b"", None));
    batch.add_record("earth", ids_b, record("earth", pos(0, 0, 0), 2, b"", None));
    batch.add_record("earth", ids_a, record("earth", pos(0, 0, 0), 3, b"", None));
    batch.add_record("mars", ids_a, record("mars", pos(0, 0, 0), 4, b"", None));
    let (groups, failures) = batch.into_parts();
    assert!(failures.is_empty());
    let shape: Vec<(String, i32, Vec<u128>)> = groups
        .iter()
        .map(|g| (g.world_name.clone(), g.table_suffix, g.rows.iter().map(|r| r.uuid).collect()))
        .collect();
    assert_eq!(
        shape,
        vec![
            ("earth".to_string(), 0, vec![1, 3]),
            ("earth".to_string(), 1, vec![2]),
            ("mars".to_string(), 0, vec![4]),
        ]
    );
    assert_eq!(groups[0].rows[1].region_id, 1);
}

#[test]
fn query_of_region_without_table_is_error() {
    let mut resolver = RegionResolver::new(16, 16, 16, 10, 16);
    let mut store = Store::default();
    let result = query(&mut resolver, &mut store, "earth", pos(0, 0, 0));
    assert_eq!(result, Err(DatabaseError::PostgresError(StoreError::RelationMissing)));
}

#[test]
fn failed_group_is_reported_once() {
    let mut step = GroupStep::Insert;
    step = next_step(step, Err(StoreError::RelationMissing));
    step = next_step(step, Err(StoreError::Other("permission denied".to_string())));
    assert_eq!(
        group_failure(step),
        Some(DatabaseError::PostgresError(StoreError::Other("permission denied".to_string())))
    );
}
