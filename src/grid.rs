use vstd::prelude::*;
use crate::hex::Coord;
use crate::tile::TileType;

verus! {

broadcast use vstd::set::group_set_axioms;

/// A finite map from cells to tile classifications, kept as a list of entries with distinct
/// keys.
pub struct TileMap {
    entries: Vec<(Coord, TileType)>,
    model: Ghost<Map<Coord, TileType>>,
}

impl View for TileMap {
    type V = Map<Coord, TileType>;

    closed spec fn view(&self) -> Map<Coord, TileType> {
        self.model@
    }
}

/// The number of cells of `m` classified as `t`.
pub open spec fn count_of(m: Map<Coord, TileType>, t: TileType) -> int {
    Set::new(|k: Coord| m.contains_key(k) && m[k] == t).len() as int
}

/// Counts of each classification over the grid, and their total.
#[derive(Clone, Copy, Debug, PartialEq, Eq, Structural)]
pub struct TileStats {
    pub grass: usize,
    pub building: usize,
    pub road: usize,
    pub forest: usize,
    pub water: usize,
    pub total: usize,
}

/// The keys among the first `i` entries that are classified as `t`.
spec fn prefix_keys_with(e: Seq<(Coord, TileType)>, i: int, t: TileType) -> Set<Coord> {
    Set::new(|k: Coord| exists|j: int| 0 <= j < i && e[j].0 == k && e[j].1 == t)
}

impl TileMap {
    pub closed spec fn wf(&self) -> bool {
        let e = self.entries@;
        let m = self.model@;
        &&& forall|i: int, j: int| 0 <= i < e.len() && 0 <= j < e.len() && i != j ==> #[trigger] e[i].0 != #[trigger] e[j].0
        &&& forall|i: int| 0 <= i < e.len() ==> m.contains_key(#[trigger] e[i].0) && m[e[i].0] == e[i].1
        &&& forall|k: Coord| #[trigger] m.contains_key(k) ==> exists|i: int| 0 <= i < e.len() && e[i].0 == k
    }

    pub fn new() -> (m: TileMap)
        ensures
            m.wf(),
            m@ == Map::<Coord, TileType>::empty(),
    {
        TileMap { entries: Vec::new(), model: Ghost(Map::empty()) }
    }

    fn find(&self, k: Coord) -> (r: Option<usize>)
        requires
            self.wf(),
        ensures
            match r {
                Some(i) => i < self.entries@.len() && self.entries@[i as int].0 == k,
                None => !self@.contains_key(k),
            },
    {
        let mut i: usize = 0;
        while i < self.entries.len()
            invariant
                0 <= i <= self.entries@.len(),
                forall|j: int| 0 <= j < i ==> self.entries@[j].0 != k,
            decreases self.entries@.len() - i,
        {
            if self.entries[i].0.0 == k.0 && self.entries[i].0.1 == k.1 {
                return Some(i);
            }
            i = i + 1;
        }
        None
    }

    /// The classification of `k`, if any.
    pub fn get(&self, k: Coord) -> (r: Option<TileType>)
        requires
            self.wf(),
        ensures
            r == (if self@.contains_key(k) {
                Some(self@[k])
            } else {
                None
            }),
    {
        match self.find(k) {
            Some(i) => Some(self.entries[i].1),
            None => None,
        }
    }

    /// Sets the classification of `k`, replacing any earlier one.
    pub fn insert(&mut self, k: Coord, t: TileType)
        requires
            old(self).wf(),
        ensures
            final(self).wf(),
            final(self)@ == old(self)@.insert(k, t),
    {
        let ghost m = self.model@.insert(k, t);
        match self.find(k) {
            Some(i) => {
                self.entries.set(i, (k, t));
                self.model = Ghost(m);
                proof {
                    let e = self.entries@;
                    assert forall|j: int| 0 <= j < e.len() implies m.contains_key(#[trigger] e[j].0) && m[e[j].0] == e[j].1 by {
                        if j != i {
                            assert(e[j].0 != k);
                        }
                    }
                    assert forall|x: Coord| #[trigger] m.contains_key(x) implies exists|j: int| 0 <= j < e.len() && e[j].0 == x by {
                        if x == k {
                            assert(e[i as int].0 == x);
                        } else {
                            let j = choose|j: int| 0 <= j < old(self).entries@.len() && old(self).entries@[j].0 == x;
                            assert(e[j].0 == x);
                        }
                    }
                }
            },
            None => {
                let ghost n = self.entries@.len();
                self.entries.push((k, t));
                self.model = Ghost(m);
                proof {
                    let e = self.entries@;
                    assert forall|j: int| 0 <= j < e.len() implies m.contains_key(#[trigger] e[j].0) && m[e[j].0] == e[j].1 by {
                        if j < n {
                            assert(e[j] == old(self).entries@[j]);
                            assert(old(self)@.contains_key(e[j].0));
                        }
                    }
                    assert forall|x: Coord| #[trigger] m.contains_key(x) implies exists|j: int| 0 <= j < e.len() && e[j].0 == x by {
                        if x == k {
                            assert(e[n as int].0 == x);
                        } else {
                            let j = choose|j: int| 0 <= j < old(self).entries@.len() && old(self).entries@[j].0 == x;
                            assert(e[j].0 == x);
                        }
                    }
                    assert forall|a: int, b: int| 0 <= a < e.len() && 0 <= b < e.len() && a != b implies #[trigger] e[a].0 != #[trigger] e[b].0 by {
                        if a == n {
                            assert(old(self)@.contains_key(e[b].0));
                        } else if b == n {
                            assert(old(self)@.contains_key(e[a].0));
                        }
                    }
                }
            },
        }
    }

    /// Removes every entry.
    pub fn clear(&mut self)
        ensures
            final(self).wf(),
            final(self)@ == Map::<Coord, TileType>::empty(),
    {
        self.entries.clear();
        self.model = Ghost(Map::empty());
    }

    /// Copies every entry of `other` into `self`, replacing earlier classifications.
    pub fn insert_all(&mut self, other: &TileMap)
        requires
            old(self).wf(),
            other.wf(),
        ensures
            final(self).wf(),
            final(self)@ == old(self)@.union_prefer_right(other@),
    {
        let ghost m0 = self@;
        let ghost oe = other.entries@;
        let mut i: usize = 0;
        while i < other.entries.len()
            invariant
                0 <= i <= oe.len(),
                other.wf(),
                oe == other.entries@,
                self.wf(),
                self@ == m0.union_prefer_right(other@.restrict(Set::new(|k: Coord| exists|j: int| 0 <= j < i && oe[j].0 == k))),
            decreases oe.len() - i,
        {
            let (k, t) = other.entries[i];
            self.insert(k, t);
            proof {
                let s_old = Set::new(|x: Coord| exists|j: int| 0 <= j < i && oe[j].0 == x);
                let s_new = Set::new(|x: Coord| exists|j: int| 0 <= j < i + 1 && oe[j].0 == x);
                assert(other@.contains_key(oe[i as int].0));
                assert forall|x: Coord| s_new.contains(x) <==> (s_old.contains(x) || x == k) by {
                    if s_new.contains(x) {
                        let j = choose|j: int| 0 <= j < i + 1 && oe[j].0 == x;
                        if j < i {
                            assert(s_old.contains(x));
                        }
                    }
                    if x == k {
                        assert(oe[i as int].0 == x);
                    }
                }
                assert(self@ =~= m0.union_prefer_right(other@.restrict(s_new)));
            }
            i = i + 1;
        }
        proof {
            let s = Set::new(|k: Coord| exists|j: int| 0 <= j < i && oe[j].0 == k);
            assert(other@.restrict(s) =~= other@);
        }
    }

    /// The number of entries of each classification, and of all entries.
    pub fn counts(&self) -> (st: TileStats)
        requires
            self.wf(),
        ensures
            st.grass == count_of(self@, TileType::Grass),
            st.building == count_of(self@, TileType::Building),
            st.road == count_of(self@, TileType::Road),
            st.forest == count_of(self@, TileType::Forest),
            st.water == count_of(self@, TileType::Water),
            st.total == st.grass + st.building + st.road + st.forest + st.water,
            st.total == self@.dom().len(),
    {
        let ghost e = self.entries@;
        let mut c: (usize, usize, usize, usize, usize) = (0, 0, 0, 0, 0);
        let mut i: usize = 0;
        proof {
            assert forall|t: TileType| #[trigger] prefix_keys_with(e, 0, t) == Set::<Coord>::empty() by {
                assert(prefix_keys_with(e, 0, t) =~= Set::<Coord>::empty());
            }
        }
        while i < self.entries.len()
            invariant
                0 <= i <= e.len(),
                e == self.entries@,
                self.wf(),
                c.0 + c.1 + c.2 + c.3 + c.4 == i,
                forall|t: TileType|
                    #![trigger prefix_keys_with(e, i as int, t)]
                    prefix_keys_with(e, i as int, t).finite() && prefix_keys_with(e, i as int, t).len()
                        == pick(c, t),
            decreases e.len() - i,
        {
            let (k, t) = self.entries[i];
            proof {
                assert forall|u: TileType|
                    #![trigger prefix_keys_with(e, i + 1, u)]
                    prefix_keys_with(e, i + 1, u).finite() && prefix_keys_with(e, i + 1, u).len()
                        == (if u == t { pick(c, u) + 1 } else { pick(c, u) }) by {
                    assert(prefix_keys_with(e, i as int, u).finite());
                    let s_old = prefix_keys_with(e, i as int, u);
                    let s_new = prefix_keys_with(e, i + 1, u);
                    if u == t {
                        assert(!s_old.contains(k)) by {
                            if s_old.contains(k) {
                                let j = choose|j: int| 0 <= j < i && e[j].0 == k && e[j].1 == u;
                                assert(e[j].0 != e[i as int].0);
                            }
                        }
                        assert forall|x: Coord| s_new.contains(x) <==> s_old.insert(k).contains(x) by {
                            if s_new.contains(x) {
                                let j = choose|j: int| 0 <= j < i + 1 && e[j].0 == x && e[j].1 == u;
                                if j < i {
                                    assert(s_old.contains(x));
                                }
                            }
                            if x == k {
                                assert(e[i as int].0 == x && e[i as int].1 == u);
                            }
                        }
                        assert(s_new =~= s_old.insert(k));
                    } else {
                        assert forall|x: Coord| s_new.contains(x) <==> s_old.contains(x) by {
                            if s_new.contains(x) {
                                let j = choose|j: int| 0 <= j < i + 1 && e[j].0 == x && e[j].1 == u;
                                if j < i {
                                    assert(s_old.contains(x));
                                }
                            }
                        }
                        assert(s_new =~= s_old);
                    }
                }
            }
            match t {
                TileType::Grass => c.0 = c.0 + 1,
                TileType::Building => c.1 = c.1 + 1,
                TileType::Road => c.2 = c.2 + 1,
                TileType::Forest => c.3 = c.3 + 1,
                TileType::Water => c.4 = c.4 + 1,
            }
            i = i + 1;
        }
        proof {
            assert forall|t: TileType|
                #[trigger] prefix_keys_with(e, i as int, t)
                    == Set::new(|k: Coord| self@.contains_key(k) && self@[k] == t) by {
                let a = prefix_keys_with(e, i as int, t);
                let b = Set::new(|k: Coord| self@.contains_key(k) && self@[k] == t);
                assert forall|k: Coord| a.contains(k) <==> b.contains(k) by {
                    if a.contains(k) {
                        let j = choose|j: int| 0 <= j < i && e[j].0 == k && e[j].1 == t;
                        assert(self@.contains_key(e[j].0));
                    }
                    if b.contains(k) {
                        let j = choose|j: int| 0 <= j < e.len() && e[j].0 == k;
                        assert(self@[e[j].0] == e[j].1);
                    }
                }
                assert(a =~= b);
            }
            let keys = Seq::new(e.len(), |j: int| e[j].0);
            assert(keys.no_duplicates());
            keys.unique_seq_to_set();
            assert forall|k: Coord| keys.to_set().contains(k) <==> self@.dom().contains(k) by {
                if self@.contains_key(k) {
                    let j = choose|j: int| 0 <= j < e.len() && e[j].0 == k;
                    assert(keys[j] == k);
                }
            }
            assert(keys.to_set() =~= self@.dom());
            assert(prefix_keys_with(e, i as int, TileType::Grass).len() == c.0);
            assert(prefix_keys_with(e, i as int, TileType::Building).len() == c.1);
            assert(prefix_keys_with(e, i as int, TileType::Road).len() == c.2);
            assert(prefix_keys_with(e, i as int, TileType::Forest).len() == c.3);
            assert(prefix_keys_with(e, i as int, TileType::Water).len() == c.4);
        }
        TileStats { grass: c.0, building: c.1, road: c.2, forest: c.3, water: c.4, total: i }
    }
}

/// The component of a five-way count that belongs to `t`.
spec fn pick(c: (usize, usize, usize, usize, usize), t: TileType) -> int {
    match t {
        TileType::Grass => c.0 as int,
        TileType::Building => c.1 as int,
        TileType::Road => c.2 as int,
        TileType::Forest => c.3 as int,
        TileType::Water => c.4 as int,
    }
}

/// The layout grid and the pre-constraints that persist across layouts. Its view is the pair
/// (grid, pre-constraints).
pub struct GridState {
    grid: TileMap,
    pre_constraints: TileMap,
}

impl View for GridState {
    type V = (Map<Coord, TileType>, Map<Coord, TileType>);

    closed spec fn view(&self) -> (Map<Coord, TileType>, Map<Coord, TileType>) {
        (self.grid@, self.pre_constraints@)
    }
}

/// Layout generation: the grid becomes exactly the pre-constraints.
pub open spec fn layout_step(v: (Map<Coord, TileType>, Map<Coord, TileType>)) -> (
    Map<Coord, TileType>,
    Map<Coord, TileType>,
) {
    (v.1, v.1)
}

/// Clearing the layout: the grid empties and the pre-constraints stay.
pub open spec fn clear_step(v: (Map<Coord, TileType>, Map<Coord, TileType>)) -> (
    Map<Coord, TileType>,
    Map<Coord, TileType>,
) {
    (Map::empty(), v.1)
}

impl GridState {
    pub closed spec fn wf(&self) -> bool {
        self.grid.wf() && self.pre_constraints.wf()
    }

    /// An empty grid with no pre-constraints.
    pub fn new() -> (st: GridState)
        ensures
            st.wf(),
            st@ == (Map::<Coord, TileType>::empty(), Map::<Coord, TileType>::empty()),
    {
        GridState { grid: TileMap::new(), pre_constraints: TileMap::new() }
    }

    /// Empties the grid; the pre-constraints stay.
    pub fn clear(&mut self)
        requires
            old(self).wf(),
        ensures
            final(self).wf(),
            final(self)@ == clear_step(old(self)@),
    {
        self.grid.clear();
    }

    /// Records a pre-constraint at `(q, r)`, replacing any earlier one there.
    pub fn set_pre_constraint(&mut self, q: i32, r: i32, tile_type: TileType) -> (ok: bool)
        requires
            old(self).wf(),
        ensures
            ok,
            final(self).wf(),
            final(self)@ == (old(self)@.0, old(self)@.1.insert((q, r), tile_type)),
    {
        self.pre_constraints.insert((q, r), tile_type);
        true
    }

    /// Removes every pre-constraint; the grid stays.
    pub fn clear_pre_constraints(&mut self)
        requires
            old(self).wf(),
        ensures
            final(self).wf(),
            final(self)@ == (old(self)@.0, Map::<Coord, TileType>::empty()),
    {
        self.pre_constraints.clear();
    }

    /// The classification of the grid cell `(q, r)`, if it has one.
    pub fn get_tile(&self, q: i32, r: i32) -> (t: Option<TileType>)
        requires
            self.wf(),
        ensures
            t == (if self@.0.contains_key((q, r)) {
                Some(self@.0[(q, r)])
            } else {
                None
            }),
    {
        self.grid.get((q, r))
    }

    /// Rebuilds the grid from the pre-constraints alone.
    pub fn generate_layout(&mut self)
        requires
            old(self).wf(),
        ensures
            final(self).wf(),
            final(self)@ == layout_step(old(self)@),
    {
        self.grid.clear();
        self.grid.insert_all(&self.pre_constraints);
        proof {
            assert(Map::<Coord, TileType>::empty().union_prefer_right(self.pre_constraints@) =~= self.pre_constraints@);
        }
    }

    /// Per-classification counts over the grid and their total.
    pub fn stats(&self) -> (st: TileStats)
        requires
            self.wf(),
        ensures
            st.grass == count_of(self@.0, TileType::Grass),
            st.building == count_of(self@.0, TileType::Building),
            st.road == count_of(self@.0, TileType::Road),
            st.forest == count_of(self@.0, TileType::Forest),
            st.water == count_of(self@.0, TileType::Water),
            st.total == st.grass + st.building + st.road + st.forest + st.water,
            st.total == self@.0.dom().len(),
    {
        self.grid.counts()
    }
}

/// Generating the layout twice gives the same grid as once, and clearing the grid and
/// generating again reproduces it.
pub proof fn lemma_layout_idempotent(v: (Map<Coord, TileType>, Map<Coord, TileType>))
    ensures
        layout_step(layout_step(v)) == layout_step(v),
        layout_step(clear_step(layout_step(v))) == layout_step(v),
        clear_step(v).1 == v.1,
{
}

/// Clears the grid and fills it from the pre-constraints.
pub fn generate_layout(state: &mut GridState)
    requires
        old(state).wf(),
    ensures
        final(state).wf(),
        final(state)@ == layout_step(old(state)@),
{
    state.clear();
    state.generate_layout();
}

/// The wire code of the grid tile at `(q, r)`, or -1 when the cell is unset.
pub fn get_tile_at(state: &GridState, q: i32, r: i32) -> (code: i32)
    requires
        state.wf(),
    ensures
        code == (if state@.0.contains_key((q, r)) {
            state@.0[(q, r)].code_spec()
        } else {
            -1
        }),
{
    match state.get_tile(q, r) {
        Some(t) => t.code(),
        None => -1,
    }
}

/// Empties the grid; the pre-constraints stay.
pub fn clear_layout(state: &mut GridState)
    requires
        old(state).wf(),
    ensures
        final(state).wf(),
        final(state)@ == clear_step(old(state)@),
{
    state.clear();
}

/// Records a pre-constraint given by its wire code; a code outside `0..=4` is rejected with
/// `false` and changes nothing.
pub fn set_pre_constraint(state: &mut GridState, q: i32, r: i32, tile_type: i32) -> (ok: bool)
    requires
        old(state).wf(),
    ensures
        final(state).wf(),
        ok == (0 <= tile_type <= 4),
        ok ==> exists|t: TileType|
            t.code_spec() == tile_type && final(state)@ == (old(state)@.0, old(state)@.1.insert(
                (q, r),
                t,
            )),
        !ok ==> final(state)@ == old(state)@,
{
    match TileType::from_code(tile_type) {
        Some(t) => state.set_pre_constraint(q, r, t),
        None => false,
    }
}

/// Removes every pre-constraint.
pub fn clear_pre_constraints(state: &mut GridState)
    requires
        old(state).wf(),
    ensures
        final(state).wf(),
        final(state)@ == (old(state)@.0, Map::<Coord, TileType>::empty()),
{
    state.clear_pre_constraints();
}

/// Per-classification counts over the grid and their total.
pub fn get_stats(state: &GridState) -> (st: TileStats)
    requires
        state.wf(),
    ensures
        st.grass == count_of(state@.0, TileType::Grass),
        st.building == count_of(state@.0, TileType::Building),
        st.road == count_of(state@.0, TileType::Road),
        st.forest == count_of(state@.0, TileType::Forest),
        st.water == count_of(state@.0, TileType::Water),
        st.total == st.grass + st.building + st.road + st.forest + st.water,
        st.total == state@.0.dom().len(),
{
    state.stats()
}

/// The build string the host compares to detect a stale module.
pub fn get_wasm_version() -> (v: String)
    ensures
        v@ == "1.0.0-20250102-0912"@,
{
    "1.0.0-20250102-0912".to_owned()
}

} // verus!
