use vstd::prelude::*;

use crate::geometry::{cube_area, cube_of, CubeArea, CubeKey, Position};

verus! {

/// The subscribers of one cube.
#[derive(Clone, Debug)]
pub struct Cell {
    pub area: CubeArea,
    pub peers: Vec<u128>,
}

/// The subscription index of one world: for each populated cube, the set of
/// peer identities subscribed to it.
#[derive(Debug)]
pub struct AreaMap {
    cube_size: u16,
    world_name: String,
    cells: Vec<Cell>,
}

/// No two cells of `cells` hold the same cube.
pub open spec fn unique_keys(cells: Seq<Cell>) -> bool {
    forall|i: int, j: int|
        0 <= i < cells.len() && 0 <= j < cells.len() && i != j ==> #[trigger] cells[i].area.key()
            != #[trigger] cells[j].area.key()
}

pub open spec fn has_cell(cells: Seq<Cell>, k: CubeKey) -> bool {
    exists|i: int| 0 <= i < cells.len() && #[trigger] cells[i].area.key() == k
}

pub open spec fn cell_at(cells: Seq<Cell>, k: CubeKey) -> int {
    choose|i: int| 0 <= i < cells.len() && #[trigger] cells[i].area.key() == k
}

/// The index that a sequence of cells stands for.
pub open spec fn view_of(cells: Seq<Cell>) -> Map<CubeKey, Set<u128>> {
    Map::new(|k: CubeKey| has_cell(cells, k), |k: CubeKey| cells[cell_at(cells, k)].peers@.to_set())
}

/// `u` is subscribed to cube `k` of index `m`.
pub open spec fn subscribed(m: Map<CubeKey, Set<u128>>, k: CubeKey, u: u128) -> bool {
    m.contains_key(k) && m[k].contains(u)
}

/// The index after subscribing `u` to cube `k`.
pub open spec fn after_subscribe(m: Map<CubeKey, Set<u128>>, k: CubeKey, u: u128) -> Map<
    CubeKey,
    Set<u128>,
> {
    m.insert(k, if m.contains_key(k) { m[k].insert(u) } else { set![u] })
}

/// The index after unsubscribing `u` from cube `k`: a cube left without
/// subscribers is dropped.
pub open spec fn after_unsubscribe(m: Map<CubeKey, Set<u128>>, k: CubeKey, u: u128) -> Map<
    CubeKey,
    Set<u128>,
> {
    if !m.contains_key(k) {
        m
    } else if m[k].remove(u) == Set::<u128>::empty() {
        m.remove(k)
    } else {
        m.insert(k, m[k].remove(u))
    }
}

/// The index after removing `u` from every cube; cubes left empty stay.
pub open spec fn after_remove_peer(m: Map<CubeKey, Set<u128>>, u: u128) -> Map<CubeKey, Set<u128>> {
    Map::new(|k: CubeKey| m.contains_key(k), |k: CubeKey| m[k].remove(u))
}

/// After subscribing `u` at position `p`, `u` is subscribed at every position
/// `q` of the same cube, and its membership at any position `o` of another cube
/// is what it was before (so false on an index where it had none).
pub proof fn lemma_subscribe_covers_cube(
    m: Map<CubeKey, Set<u128>>,
    size: int,
    u: u128,
    p: Position,
    q: Position,
    o: Position,
)
    requires
        size > 0,
        cube_of(q, size) == cube_of(p, size),
        cube_of(o, size) != cube_of(p, size),
    ensures
        subscribed(after_subscribe(m, cube_of(p, size), u), cube_of(q, size), u),
        subscribed(after_subscribe(m, cube_of(p, size), u), cube_of(o, size), u) == subscribed(
            m,
            cube_of(o, size),
            u,
        ),
{
}

/// After unsubscribing `u` at position `p`, `u` is no longer subscribed at any
/// position `q` of that cube; where `u` was the cube's last member, the cube
/// has no entry left at all.
pub proof fn lemma_unsubscribe_clears(
    m: Map<CubeKey, Set<u128>>,
    size: int,
    u: u128,
    p: Position,
    q: Position,
)
    requires
        size > 0,
        cube_of(q, size) == cube_of(p, size),
    ensures
        !subscribed(after_unsubscribe(m, cube_of(p, size), u), cube_of(q, size), u),
        m.contains_key(cube_of(p, size)) && m[cube_of(p, size)].subset_of(set![u]) ==> !after_unsubscribe(
            m,
            cube_of(p, size),
            u,
        ).contains_key(cube_of(q, size)),
{
    let k = cube_of(p, size);
    if m.contains_key(k) && m[k].subset_of(set![u]) {
        assert(m[k].remove(u) =~= Set::<u128>::empty());
    }
}

/// After `remove_peer`, `u` is subscribed to no cube at all.
pub proof fn lemma_remove_peer_clears(m: Map<CubeKey, Set<u128>>, u: u128, k: CubeKey)
    ensures
        !subscribed(after_remove_peer(m, u), k, u),
{
}

proof fn lemma_view_of(cells: Seq<Cell>)
    requires
        unique_keys(cells),
    ensures
        forall|i: int|
            0 <= i < cells.len() ==> view_of(cells).contains_key(#[trigger] cells[i].area.key())
                && view_of(cells)[cells[i].area.key()] == cells[i].peers@.to_set(),
        forall|k: CubeKey|
            #[trigger] view_of(cells).contains_key(k) ==> exists|i: int|
                0 <= i < cells.len() && #[trigger] cells[i].area.key() == k,
{
    assert forall|i: int| 0 <= i < cells.len() implies view_of(cells).contains_key(
        #[trigger] cells[i].area.key(),
    ) && view_of(cells)[cells[i].area.key()] == cells[i].peers@.to_set() by {
        let k = cells[i].area.key();
        assert(has_cell(cells, k));
        let j = cell_at(cells, k);
        assert(0 <= j < cells.len() && cells[j].area.key() == k);
        assert(j == i);
    }
}

proof fn lemma_push_contains(s: Seq<u128>, v: u128)
    ensures
        forall|x: u128| #[trigger] s.push(v).contains(x) <==> (s.contains(x) || x == v),
{
    assert forall|x: u128| #[trigger] s.push(v).contains(x) <==> (s.contains(x) || x == v) by {
        if s.contains(x) {
            let j = choose|j: int| 0 <= j < s.len() && s[j] == x;
            assert(s.push(v)[j] == x);
        }
        if x == v {
            assert(s.push(v)[s.len() as int] == x);
        }
        if s.push(v).contains(x) && x != v {
            let j = choose|j: int| 0 <= j < s.push(v).len() && s.push(v)[j] == x;
            assert(s[j] == x);
        }
    }
}

proof fn lemma_set_cell(before: Seq<Cell>, after: Seq<Cell>, i: int)
    requires
        unique_keys(before),
        0 <= i < before.len(),
        after.len() == before.len(),
        after[i].area.key() == before[i].area.key(),
        forall|j: int| 0 <= j < before.len() && j != i ==> after[j] == before[j],
    ensures
        unique_keys(after),
        view_of(after) == view_of(before).insert(before[i].area.key(), after[i].peers@.to_set()),
{
    let k = before[i].area.key();
    assert forall|a: int, b: int|
        0 <= a < after.len() && 0 <= b < after.len() && a != b implies #[trigger] after[a].area.key()
            != #[trigger] after[b].area.key() by {
        assert(before[a].area.key() == after[a].area.key());
        assert(before[b].area.key() == after[b].area.key());
    }
    lemma_view_of(before);
    lemma_view_of(after);
    let target = view_of(before).insert(k, after[i].peers@.to_set());
    assert forall|kk: CubeKey| #[trigger] view_of(after).contains_key(kk) implies target.contains_key(kk)
        && view_of(after)[kk] == target[kk] by {
        let j = choose|j: int| 0 <= j < after.len() && #[trigger] after[j].area.key() == kk;
        if j != i {
            assert(after[j] == before[j]);
        }
    }
    assert forall|kk: CubeKey| #[trigger] target.contains_key(kk) implies view_of(after).contains_key(kk) by {
        if kk != k {
            let j = choose|j: int| 0 <= j < before.len() && #[trigger] before[j].area.key() == kk;
            assert(after[j].area.key() == before[j].area.key());
        } else {
            assert(after[i].area.key() == kk);
        }
    }
    assert(view_of(after) =~= target);
}

proof fn lemma_remove_cell(before: Seq<Cell>, i: int)
    requires
        unique_keys(before),
        0 <= i < before.len(),
    ensures
        unique_keys(before.remove(i)),
        view_of(before.remove(i)) == view_of(before).remove(before[i].area.key()),
{
    let after = before.remove(i);
    let k = before[i].area.key();
    assert forall|a: int, b: int|
        0 <= a < after.len() && 0 <= b < after.len() && a != b implies #[trigger] after[a].area.key()
            != #[trigger] after[b].area.key() by {
        let a2 = if a < i { a } else { a + 1 };
        let b2 = if b < i { b } else { b + 1 };
        assert(after[a] == before[a2] && after[b] == before[b2]);
    }
    lemma_view_of(before);
    lemma_view_of(after);
    let target = view_of(before).remove(k);
    assert forall|kk: CubeKey| #[trigger] view_of(after).contains_key(kk) implies target.contains_key(kk)
        && view_of(after)[kk] == target[kk] by {
        let j = choose|j: int| 0 <= j < after.len() && #[trigger] after[j].area.key() == kk;
        let j2 = if j < i { j } else { j + 1 };
        assert(after[j] == before[j2]);
    }
    assert forall|kk: CubeKey| #[trigger] target.contains_key(kk) implies view_of(after).contains_key(kk) by {
        let j = choose|j: int| 0 <= j < before.len() && #[trigger] before[j].area.key() == kk;
        assert(j != i);
        let j2 = if j < i { j } else { j - 1 };
        assert(after[j2] == before[j]);
    }
    assert(view_of(after) =~= target);
}

/// Copies `peers` without `u`, and tells whether `u` was there.
fn without_peer(peers: &Vec<u128>, u: u128) -> (r: (Vec<u128>, bool))
    requires
        peers@.no_duplicates(),
    ensures
        r.0@.no_duplicates(),
        r.0@.to_set() == peers@.to_set().remove(u),
        r.1 == peers@.contains(u),
        (r.0@.len() == 0) == (peers@.to_set().remove(u) == Set::<u128>::empty()),
{
    let mut out: Vec<u128> = Vec::new();
    let mut found = false;
    let mut i: usize = 0;
    while i < peers.len()
        invariant
            i <= peers.len(),
            peers@.no_duplicates(),
            out@.no_duplicates(),
            forall|x: u128| out@.contains(x) <==> (peers@.subrange(0, i as int).contains(x) && x != u),
            found == peers@.subrange(0, i as int).contains(u),
        decreases peers.len() - i,
    {
        let p = peers[i];
        proof {
            assert(peers@.subrange(0, i as int + 1) =~= peers@.subrange(0, i as int).push(p));
            assert(!peers@.subrange(0, i as int).contains(p)) by {
                if peers@.subrange(0, i as int).contains(p) {
                    let j = choose|j: int| 0 <= j < i && peers@.subrange(0, i as int)[j] == p;
                    assert(peers@[j] == peers@[i as int]);
                }
            }
        }
        let ghost prev = out@;
        let ghost seen = peers@.subrange(0, i as int);
        if p == u {
            found = true;
        } else {
            out.push(p);
            proof {
                lemma_push_contains(prev, p);
                assert(out@ == prev.push(p));
                assert(!prev.contains(p));
                assert forall|a: int, b: int|
                    0 <= a < out@.len() && 0 <= b < out@.len() && a != b implies out@[a] != out@[b] by {
                    if a == prev.len() {
                        assert(prev.contains(out@[b]));
                    } else if b == prev.len() {
                        assert(prev.contains(out@[a]));
                    }
                }
            }
        }
        proof {
            lemma_push_contains(seen, p);
            assert(peers@.subrange(0, i as int + 1) == seen.push(p));
        }
        i = i + 1;
    }
    proof {
        assert(peers@.subrange(0, peers.len() as int) =~= peers@);
        assert(out@.to_set() =~= peers@.to_set().remove(u));
        if out@.len() > 0 {
            assert(out@.to_set().contains(out@[0]));
        } else {
            assert(out@.to_set() =~= Set::<u128>::empty());
        }
    }
    (out, found)
}

fn contains_peer(peers: &Vec<u128>, u: u128) -> (r: bool)
    ensures
        r == peers@.contains(u),
{
    let mut i: usize = 0;
    while i < peers.len()
        invariant
            i <= peers.len(),
            forall|j: int| 0 <= j < i ==> peers@[j] != u,
        decreases peers.len() - i,
    {
        if peers[i] == u {
            return true;
        }
        i = i + 1;
    }
    false
}

impl AreaMap {
    /// The index as a map from cube to subscriber set.
    pub closed spec fn view(&self) -> Map<CubeKey, Set<u128>> {
        view_of(self.cells@)
    }

    pub closed spec fn cube_size_spec(&self) -> int {
        self.cube_size as int
    }

    pub closed spec fn world_name_spec(&self) -> Seq<char> {
        self.world_name@
    }

    /// Cube keys are unique, each subscriber list has no repeats, and the cube
    /// size is positive.
    pub closed spec fn wf(&self) -> bool {
        &&& self.cube_size > 0
        &&& unique_keys(self.cells@)
        &&& forall|i: int| 0 <= i < self.cells@.len() ==> (#[trigger] self.cells@[i]).peers@.no_duplicates()
    }

    /// An empty index of the world `world_name`, with cubes of edge `cube_size`.
    pub fn new(cube_size: u16, world_name: String) -> (r: AreaMap)
        requires
            cube_size > 0,
        ensures
            r.wf(),
            r.view() == Map::<CubeKey, Set<u128>>::empty(),
            r.cube_size_spec() == cube_size as int,
            r.world_name_spec() == world_name@,
    {
        let r = AreaMap { cube_size, world_name, cells: Vec::new() };
        assert(r.view() =~= Map::<CubeKey, Set<u128>>::empty());
        r
    }

    pub fn cube_size(&self) -> (r: u16)
        ensures
            r as int == self.cube_size_spec(),
    {
        self.cube_size
    }

    pub fn world_name(&self) -> (r: &str)
        ensures
            r@ == self.world_name_spec(),
    {
        self.world_name.as_str()
    }

    fn find(&self, area: CubeArea) -> (r: Option<usize>)
        requires
            self.wf(),
        ensures
            match r {
                Some(i) => i < self.cells@.len() && self.cells@[i as int].area.key() == area.key(),
                None => !self.view().contains_key(area.key()),
            },
    {
        proof {
            lemma_view_of(self.cells@);
        }
        let mut i: usize = 0;
        while i < self.cells.len()
            invariant
                i <= self.cells@.len(),
                forall|j: int| 0 <= j < i ==> (#[trigger] self.cells@[j]).area.key() != area.key(),
            decreases self.cells.len() - i,
        {
            if self.cells[i].area == area {
                return Some(i);
            }
            i = i + 1;
        }
        None
    }

    /// Tells whether peer `uuid` is subscribed to the cube that holds `position`.
    pub fn is_peer_subscribed(&self, uuid: u128, position: Position) -> (r: bool)
        requires
            self.wf(),
        ensures
            r == subscribed(self.view(), cube_of(position, self.cube_size_spec()), uuid),
    {
        let area = cube_area(position, self.cube_size);
        proof {
            lemma_view_of(self.cells@);
        }
        match self.find(area) {
            None => false,
            Some(i) => contains_peer(&self.cells[i].peers, uuid),
        }
    }

    /// The peers subscribed to the cube that holds `position`, each once; none
    /// where the cube has no entry.
    pub fn get_subscribed_peers(&self, position: Position) -> (r: Vec<u128>)
        requires
            self.wf(),
        ensures
            r@.no_duplicates(),
            ({
                let k = cube_of(position, self.cube_size_spec());
                if self.view().contains_key(k) {
                    r@.to_set() == self.view()[k]
                } else {
                    r@.len() == 0
                }
            }),
    {
        let area = cube_area(position, self.cube_size);
        proof {
            lemma_view_of(self.cells@);
        }
        match self.find(area) {
            None => Vec::new(),
            Some(i) => {
                let peers = &self.cells[i].peers;
                let mut out: Vec<u128> = Vec::new();
                let mut j: usize = 0;
                while j < peers.len()
                    invariant
                        j <= peers@.len(),
                        out@ == peers@.subrange(0, j as int),
                    decreases peers.len() - j,
                {
                    out.push(peers[j]);
                    proof {
                        assert(out@ =~= peers@.subrange(0, j as int + 1));
                    }
                    j = j + 1;
                }
                proof {
                    assert(out@ =~= peers@);
                }
                out
            },
        }
    }

    /// Subscribes peer `uuid` to the cube that holds `position`; tells whether
    /// the membership is new.
    pub fn add_subscription(&mut self, uuid: u128, position: Position) -> (r: bool)
        requires
            old(self).wf(),
        ensures
            final(self).wf(),
            final(self).cube_size_spec() == old(self).cube_size_spec(),
            final(self).world_name_spec() == old(self).world_name_spec(),
            ({
                let k = cube_of(position, old(self).cube_size_spec());
                &&& r == !subscribed(old(self).view(), k, uuid)
                &&& final(self).view() == after_subscribe(old(self).view(), k, uuid)
            }),
    {
        let area = cube_area(position, self.cube_size);
        let ghost k = area.key();
        let ghost before = self.cells@;
        proof {
            lemma_view_of(before);
        }
        match self.find(area) {
            None => {
                let mut peers: Vec<u128> = Vec::new();
                peers.push(uuid);
                proof {
                    assert(peers@ =~= seq![uuid]);
                    lemma_push_contains(Seq::<u128>::empty(), uuid);
                    assert(Seq::<u128>::empty().push(uuid) == seq![uuid]);
                }
                self.cells.push(Cell { area, peers });
                proof {
                    let after = self.cells@;
                    assert(after == before.push(after[before.len() as int]));
                    assert(unique_keys(after)) by {
                        assert forall|a: int, b: int|
                            0 <= a < after.len() && 0 <= b < after.len() && a != b implies #[trigger] after[a].area.key()
                                != #[trigger] after[b].area.key() by {
                            if a == before.len() {
                                assert(before[b] == after[b]);
                            } else if b == before.len() {
                                assert(before[a] == after[a]);
                            } else {
                                assert(before[a] == after[a] && before[b] == after[b]);
                            }
                        }
                    }
                    lemma_view_of(after);
                    assert(after[before.len() as int].peers@.to_set() =~= set![uuid]);
                    assert(self.view() =~= after_subscribe(view_of(before), k, uuid)) by {
                        assert forall|kk: CubeKey| #[trigger] self.view().contains_key(kk)
                            implies after_subscribe(view_of(before), k, uuid).contains_key(kk)
                            && self.view()[kk] == after_subscribe(view_of(before), k, uuid)[kk] by {
                            let j = choose|j: int| 0 <= j < after.len() && #[trigger] after[j].area.key() == kk;
                            if j < before.len() {
                                assert(after[j] == before[j]);
                            }
                        }
                        assert forall|kk: CubeKey| #[trigger] after_subscribe(view_of(before), k, uuid).contains_key(kk)
                            implies self.view().contains_key(kk) by {
                            if kk != k {
                                let j = choose|j: int| 0 <= j < before.len() && #[trigger] before[j].area.key() == kk;
                                assert(after[j] == before[j]);
                            } else {
                                assert(after[before.len() as int].area.key() == kk);
                            }
                        }
                    }
                }
                true
            },
            Some(i) => {
                if contains_peer(&self.cells[i].peers, uuid) {
                    proof {
                        assert(view_of(before)[k].insert(uuid) =~= view_of(before)[k]);
                        assert(self.view() =~= after_subscribe(view_of(before), k, uuid));
                    }
                    false
                } else {
                    let mut peers = self.cells[i].peers.clone();
                    let ghost prev = peers@;
                    peers.push(uuid);
                    proof {
                        lemma_push_contains(prev, uuid);
                        assert(peers@.no_duplicates()) by {
                            assert forall|a: int, b: int|
                                0 <= a < peers@.len() && 0 <= b < peers@.len() && a != b implies peers@[a] != peers@[b] by {
                                if a == prev.len() {
                                    assert(prev.contains(peers@[b]));
                                } else if b == prev.len() {
                                    assert(prev.contains(peers@[a]));
                                }
                            }
                        }
                    }
                    self.cells.set(i, Cell { area, peers });
                    proof {
                        let after = self.cells@;
                        assert(unique_keys(after)) by {
                            assert forall|a: int, b: int|
                                0 <= a < after.len() && 0 <= b < after.len() && a != b implies #[trigger] after[a].area.key()
                                    != #[trigger] after[b].area.key() by {
                                assert(before[a].area.key() == after[a].area.key());
                                assert(before[b].area.key() == after[b].area.key());
                            }
                        }
                        lemma_view_of(after);
                        assert(after[i as int].peers@.to_set() =~= view_of(before)[k].insert(uuid));
                        assert(self.view() =~= after_subscribe(view_of(before), k, uuid)) by {
                            assert forall|kk: CubeKey| #[trigger] self.view().contains_key(kk)
                                implies after_subscribe(view_of(before), k, uuid).contains_key(kk)
                                && self.view()[kk] == after_subscribe(view_of(before), k, uuid)[kk] by {
                                let j = choose|j: int| 0 <= j < after.len() && #[trigger] after[j].area.key() == kk;
                                if j != i {
                                    assert(after[j] == before[j]);
                                }
                            }
                            assert forall|kk: CubeKey| #[trigger] after_subscribe(view_of(before), k, uuid).contains_key(kk)
                                implies self.view().contains_key(kk) by {
                                if kk != k {
                                    let j = choose|j: int| 0 <= j < before.len() && #[trigger] before[j].area.key() == kk;
                                    assert(after[j].area.key() == before[j].area.key());
                                } else {
                                    assert(after[i as int].area.key() == kk);
                                }
                            }
                        }
                    }
                    true
                }
            },
        }
    }

    /// Unsubscribes peer `uuid` from the cube that holds `position`; tells
    /// whether a membership was removed. A cube left without subscribers is
    /// dropped from the index.
    pub fn remove_subscription(&mut self, uuid: u128, position: Position) -> (r: bool)
        requires
            old(self).wf(),
        ensures
            final(self).wf(),
            final(self).cube_size_spec() == old(self).cube_size_spec(),
            final(self).world_name_spec() == old(self).world_name_spec(),
            ({
                let k = cube_of(position, old(self).cube_size_spec());
                &&& r == subscribed(old(self).view(), k, uuid)
                &&& final(self).view() == after_unsubscribe(old(self).view(), k, uuid)
            }),
    {
        let area = cube_area(position, self.cube_size);
        let ghost k = area.key();
        let ghost before = self.cells@;
        proof {
            lemma_view_of(before);
        }
        match self.find(area) {
            None => false,
            Some(i) => {
                let (peers, removed) = without_peer(&self.cells[i].peers, uuid);
                if peers.len() == 0 {
                    self.cells.remove(i);
                    proof {
                        lemma_remove_cell(before, i as int);
                    }
                } else {
                    self.cells.set(i, Cell { area, peers });
                    proof {
                        lemma_set_cell(before, self.cells@, i as int);
                    }
                }
                proof {
                    let after = self.cells@;
                    assert forall|j: int| 0 <= j < after.len() implies (#[trigger] after[j]).peers@.no_duplicates() by {
                        if peers@.len() == 0 {
                            let j2 = if j < i { j } else { j + 1 };
                            assert(after[j] == before[j2]);
                        } else if j != i {
                            assert(after[j] == before[j]);
                        }
                    }
                }
                removed
            },
        }
    }

    /// Removes peer `uuid` from every cube of the index; tells whether it was
    /// subscribed anywhere. Cubes left without subscribers stay in the index.
    pub fn remove_peer(&mut self, uuid: u128) -> (r: bool)
        requires
            old(self).wf(),
        ensures
            final(self).wf(),
            final(self).cube_size_spec() == old(self).cube_size_spec(),
            final(self).world_name_spec() == old(self).world_name_spec(),
            r == exists|k: CubeKey| subscribed(old(self).view(), k, uuid),
            final(self).view() == after_remove_peer(old(self).view(), uuid),
    {
        let ghost before = self.cells@;
        proof {
            lemma_view_of(before);
        }
        let mut removed = false;
        let mut i: usize = 0;
        while i < self.cells.len()
            invariant
                self.cube_size == old(self).cube_size,
                self.world_name == old(self).world_name,
                self.cube_size > 0,
                unique_keys(before),
                forall|j: int| 0 <= j < before.len() ==> (#[trigger] before[j]).peers@.no_duplicates(),
                self.cells@.len() == before.len(),
                i <= before.len(),
                forall|j: int|
                    0 <= j < i ==> (#[trigger] self.cells@[j]).area == before[j].area
                        && self.cells@[j].peers@.no_duplicates()
                        && self.cells@[j].peers@.to_set() == before[j].peers@.to_set().remove(uuid),
                forall|j: int| i <= j < before.len() ==> #[trigger] self.cells@[j] == before[j],
                removed == exists|j: int| 0 <= j < i && (#[trigger] before[j]).peers@.contains(uuid),
            decreases before.len() - i,
        {
            let (peers, found) = without_peer(&self.cells[i].peers, uuid);
            let area = self.cells[i].area;
            self.cells.set(i, Cell { area, peers });
            if found {
                removed = true;
            }
            proof {
                if removed {
                    if !found {
                        let j = choose|j: int| 0 <= j < i && (#[trigger] before[j]).peers@.contains(uuid);
                        assert(0 <= j < i + 1 && before[j].peers@.contains(uuid));
                    }
                } else {
                    assert forall|j: int| 0 <= j < i + 1 implies !(#[trigger] before[j]).peers@.contains(uuid) by {
                        if j < i {
                        }
                    }
                }
            }
            i = i + 1;
        }
        proof {
            let after = self.cells@;
            assert(unique_keys(after)) by {
                assert forall|a: int, b: int|
                    0 <= a < after.len() && 0 <= b < after.len() && a != b implies #[trigger] after[a].area.key()
                        != #[trigger] after[b].area.key() by {
                    assert(before[a].area.key() == after[a].area.key());
                    assert(before[b].area.key() == after[b].area.key());
                }
            }
            lemma_view_of(after);
            let target = after_remove_peer(view_of(before), uuid);
            assert forall|kk: CubeKey| #[trigger] view_of(after).contains_key(kk) implies target.contains_key(kk)
                && view_of(after)[kk] == target[kk] by {
                let j = choose|j: int| 0 <= j < after.len() && #[trigger] after[j].area.key() == kk;
                assert(before[j].area.key() == kk);
            }
            assert forall|kk: CubeKey| #[trigger] target.contains_key(kk) implies view_of(after).contains_key(kk) by {
                let j = choose|j: int| 0 <= j < before.len() && #[trigger] before[j].area.key() == kk;
                assert(after[j].area.key() == kk);
            }
            assert(view_of(after) =~= target);
            if removed {
                let j = choose|j: int| 0 <= j < before.len() && (#[trigger] before[j]).peers@.contains(uuid);
                assert(subscribed(view_of(before), before[j].area.key(), uuid));
                assert(old(self).view() == view_of(before));
                assert(exists|k: CubeKey| subscribed(old(self).view(), k, uuid));
            } else {
                assert(old(self).view() == view_of(before));
                assert forall|kk: CubeKey| !subscribed(view_of(before), kk, uuid) by {
                    if view_of(before).contains_key(kk) {
                        let j = choose|j: int| 0 <= j < before.len() && #[trigger] before[j].area.key() == kk;
                        assert(!before[j].peers@.contains(uuid));
                    }
                }
            }
        }
        removed
    }
}

/// Handles a subscribe message from peer `sender`: it subscribes to the cube
/// that holds `position`. A message without a position is ignored. Tells
/// whether a new membership was made.
pub fn handle_area_subscribe(map: &mut AreaMap, sender: u128, position: Option<Position>) -> (r: bool)
    requires
        old(map).wf(),
    ensures
        final(map).wf(),
        final(map).cube_size_spec() == old(map).cube_size_spec(),
        final(map).world_name_spec() == old(map).world_name_spec(),
        match position {
            None => !r && final(map).view() == old(map).view(),
            Some(p) => {
                let k = cube_of(p, old(map).cube_size_spec());
                &&& r == !subscribed(old(map).view(), k, sender)
                &&& final(map).view() == after_subscribe(old(map).view(), k, sender)
            },
        },
{
    match position {
        None => false,
        Some(p) => map.add_subscription(sender, p),
    }
}

} // verus!
