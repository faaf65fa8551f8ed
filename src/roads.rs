use vstd::prelude::*;
use crate::hex::{Coord, dist, hex_distance, coord_lt, strictly_sorted, insert_sorted};
use crate::pathfind::{
    is_walk, walk_between, reachable, no_dups, hex_astar, lemma_reachable_refl,
    lemma_reachable_symmetric, lemma_reachable_transitive, lemma_reachable_mono,
};
use crate::connectivity::all_reachable_from_first;

verus! {

/// The cells of `terrain` that are not occupied.
pub open spec fn effective(terrain: Seq<Coord>, occupied: Seq<Coord>) -> Set<Coord> {
    Set::new(|c: Coord| terrain.contains(c) && !occupied.contains(c))
}

/// Seed `i` is the first seed on the effective terrain `et`.
pub open spec fn is_first_valid(seeds: Seq<Coord>, et: Set<Coord>, i: int) -> bool {
    &&& 0 <= i < seeds.len()
    &&& et.contains(seeds[i])
    &&& forall|j: int| 0 <= j < i ==> !et.contains(#[trigger] seeds[j])
}

/// What the growing-tree builder guarantees of its output `res`: sorted distinct cells of the
/// effective terrain, empty when no seed lies on it; otherwise the first such seed is the root,
/// every output cell is reachable from it within the output, every seed reachable from it over
/// the terrain is included, and short of the target size the root's whole terrain component is.
pub open spec fn road_network_ok(
    seeds: Seq<Coord>,
    terrain: Seq<Coord>,
    occupied: Seq<Coord>,
    target_count: int,
    res: Seq<Coord>,
) -> bool {
    let et = effective(terrain, occupied);
    &&& strictly_sorted(res)
    &&& forall|c: Coord| #[trigger] res.contains(c) ==> et.contains(c)
    &&& (forall|j: int| 0 <= j < seeds.len() ==> !et.contains(#[trigger] seeds[j])) ==> res.len() == 0
    &&& forall|r0: int|
        #[trigger] is_first_valid(seeds, et, r0) ==> {
            let root = seeds[r0];
            &&& res.contains(root)
            &&& forall|c: Coord| #[trigger] res.contains(c) ==> reachable(res.to_set(), root, c)
            &&& forall|j: int|
                0 <= j < seeds.len() && et.contains(seeds[j]) && #[trigger] reachable(et, root, seeds[j])
                    ==> res.contains(seeds[j])
            &&& res.len() < target_count ==> forall|c: Coord|
                et.contains(c) && #[trigger] reachable(et, root, c) ==> res.contains(c)
        }
}

fn contains_cell(v: &Vec<Coord>, c: Coord) -> (b: bool)
    ensures
        b == v@.contains(c),
{
    let mut i: usize = 0;
    while i < v.len()
        invariant
            0 <= i <= v@.len(),
            forall|j: int| 0 <= j < i ==> v@[j] != c,
        decreases v@.len() - i,
    {
        if v[i].0 == c.0 && v[i].1 == c.1 {
            assert(v@[i as int] == c);
            return true;
        }
        i = i + 1;
    }
    false
}

fn add_cell(v: &mut Vec<Coord>, c: Coord)
    requires
        no_dups(old(v)@),
    ensures
        no_dups(final(v)@),
        forall|x: Coord| final(v)@.contains(x) <==> (old(v)@.contains(x) || x == c),
{
    if !contains_cell(v, c) {
        let ghost before = v@;
        v.push(c);
        proof {
            assert forall|x: Coord| v@.contains(x) <==> (before.contains(x) || x == c) by {
                if before.contains(x) {
                    let j = choose|j: int| 0 <= j < before.len() && before[j] == x;
                    assert(v@[j] == x);
                }
                if x == c {
                    assert(v@[before.len() as int] == x);
                }
            }
        }
    }
}

fn remove_cell(v: &mut Vec<Coord>, c: Coord)
    ensures
        forall|x: Coord| final(v)@.contains(x) <==> (old(v)@.contains(x) && x != c),
        final(v)@.len() <= old(v)@.len(),
        old(v)@.contains(c) ==> final(v)@.len() < old(v)@.len(),
{
    let mut kept: Vec<Coord> = Vec::new();
    let mut i: usize = 0;
    while i < v.len()
        invariant
            0 <= i <= v@.len(),
            v@ == old(v)@,
            kept@.len() <= i,
            (exists|j: int| 0 <= j < i && v@[j] == c) ==> kept@.len() < i,
            forall|x: Coord|
                kept@.contains(x) <==> (x != c && exists|j: int| 0 <= j < i && #[trigger] v@[j] == x),
        decreases v@.len() - i,
    {
        let x = v[i];
        let ghost before = kept@;
        if !(x.0 == c.0 && x.1 == c.1) {
            kept.push(x);
        }
        proof {
            assert forall|y: Coord|
                kept@.contains(y) <==> (y != c && exists|j: int| 0 <= j < i + 1 && #[trigger] v@[j] == y) by {
                if before.contains(y) {
                    let j = choose|j: int| 0 <= j < before.len() && before[j] == y;
                    assert(kept@[j] == y);
                }
                if kept@.contains(y) {
                    let j = choose|j: int| 0 <= j < kept@.len() && kept@[j] == y;
                    if j < before.len() {
                        assert(before[j] == y);
                    }
                }
                if y != c && exists|j: int| 0 <= j < i + 1 && #[trigger] v@[j] == y {
                    let j = choose|j: int| 0 <= j < i + 1 && #[trigger] v@[j] == y;
                    if j == i {
                        assert(kept@[kept@.len() - 1] == y);
                    } else {
                        assert(before.contains(y));
                    }
                }
            }
            if exists|j: int| 0 <= j < i + 1 && v@[j] == c {
                let j = choose|j: int| 0 <= j < i + 1 && v@[j] == c;
                if j < i {
                    assert(exists|j: int| 0 <= j < i && v@[j] == c);
                }
            }
        }
        i = i + 1;
    }
    proof {
        assert forall|x: Coord| kept@.contains(x) <==> (v@.contains(x) && x != c) by {
            if v@.contains(x) {
                let j = choose|j: int| 0 <= j < v@.len() && v@[j] == x;
                assert(v@[j] == x);
            }
        }
        if v@.contains(c) {
            let j = choose|j: int| 0 <= j < v@.len() && v@[j] == c;
            assert(v@[j] == c);
        }
    }
    *v = kept;
}

/// The cells of `terrain` that are not in `occupied`, each once.
fn effective_cells(terrain: &Vec<Coord>, occupied: &Vec<Coord>) -> (v: Vec<Coord>)
    ensures
        no_dups(v@),
        v@.to_set() == effective(terrain@, occupied@),
{
    let mut v: Vec<Coord> = Vec::new();
    let mut i: usize = 0;
    while i < terrain.len()
        invariant
            0 <= i <= terrain@.len(),
            no_dups(v@),
            forall|x: Coord|
                v@.contains(x) <==> (!occupied@.contains(x) && exists|j: int|
                    0 <= j < i && #[trigger] terrain@[j] == x),
        decreases terrain@.len() - i,
    {
        let c = terrain[i];
        let ghost before = v@;
        if !contains_cell(occupied, c) {
            add_cell(&mut v, c);
        }
        proof {
            assert forall|x: Coord|
                v@.contains(x) <==> (!occupied@.contains(x) && exists|j: int|
                    0 <= j < i + 1 && #[trigger] terrain@[j] == x) by {
                if exists|j: int| 0 <= j < i + 1 && #[trigger] terrain@[j] == x {
                    let j = choose|j: int| 0 <= j < i + 1 && #[trigger] terrain@[j] == x;
                    if j < i {
                        assert(exists|j: int| 0 <= j < i && #[trigger] terrain@[j] == x);
                    }
                }
                if before.contains(x) {
                    let j = choose|j: int| 0 <= j < i && #[trigger] terrain@[j] == x;
                    assert(terrain@[j] == x);
                }
                if x == c {
                    assert(terrain@[i as int] == x);
                }
            }
        }
        i = i + 1;
    }
    proof {
        assert forall|x: Coord| v@.to_set().contains(x) <==> effective(terrain@, occupied@).contains(x) by {
            if terrain@.contains(x) {
                let j = choose|j: int| 0 <= j < terrain@.len() && terrain@[j] == x;
                assert(terrain@[j] == x);
            }
        }
        assert(v@.to_set() =~= effective(terrain@, occupied@));
    }
    v
}

/// The first cell of `set` nearest to `point` by hex distance, with that distance; `None` for
/// an empty set.
pub fn find_nearest_in_set(point: Coord, set: &Vec<Coord>) -> (r: Option<(Coord, i64)>)
    ensures
        match r {
            None => set@.len() == 0,
            Some((m, d)) => {
                &&& set@.contains(m)
                &&& d == dist(point, m)
                &&& forall|c: Coord| #[trigger] set@.contains(c) ==> d <= dist(point, c)
                &&& exists|i: int|
                    0 <= i < set@.len() && set@[i] == m && forall|j: int|
                        0 <= j < i ==> dist(point, #[trigger] set@[j]) > d
            },
        },
{
    if set.len() == 0 {
        return None;
    }
    let mut bi: usize = 0;
    let mut bd = hex_distance(point.0, point.1, set[0].0, set[0].1);
    let mut j: usize = 1;
    while j < set.len()
        invariant
            0 <= bi < j <= set@.len(),
            bd == dist(point, set@[bi as int]),
            forall|k: int| 0 <= k < j ==> bd <= dist(point, #[trigger] set@[k]),
            forall|k: int| 0 <= k < bi ==> dist(point, #[trigger] set@[k]) > bd,
        decreases set@.len() - j,
    {
        let dj = hex_distance(point.0, point.1, set[j].0, set[j].1);
        if dj < bd {
            bi = j;
            bd = dj;
        }
        j = j + 1;
    }
    proof {
        assert forall|c: Coord| #[trigger] set@.contains(c) implies bd <= dist(point, c) by {
            let k = choose|k: int| 0 <= k < set@.len() && set@[k] == c;
            assert(bd <= dist(point, set@[k]));
        }
        assert(set@[bi as int] == set@[bi as int]);
    }
    Some((set[bi], bd))
}

/// The unconnected cell and connected cell at the least hex distance, the first such pair in
/// scan order; `None` when either list is empty.
fn closest_pair(unconnected: &Vec<Coord>, connected: &Vec<Coord>) -> (r: Option<(Coord, Coord)>)
    ensures
        match r {
            None => unconnected@.len() == 0 || connected@.len() == 0,
            Some((u, m)) => {
                &&& unconnected@.contains(u)
                &&& connected@.contains(m)
                &&& forall|u2: Coord, c: Coord|
                    #[trigger] unconnected@.contains(u2) && #[trigger] connected@.contains(c)
                        ==> dist(u, m) <= dist(u2, c)
            },
        },
{
    let mut best: Option<(Coord, Coord, i64)> = None;
    let mut i: usize = 0;
    while i < unconnected.len()
        invariant
            0 <= i <= unconnected@.len(),
            i > 0 && connected@.len() > 0 ==> best is Some,
            connected@.len() == 0 ==> best is None,
            match best {
                None => true,
                Some((u, m, d)) => {
                    &&& unconnected@.contains(u)
                    &&& connected@.contains(m)
                    &&& d == dist(u, m)
                    &&& forall|k: int, c: Coord|
                        0 <= k < i && #[trigger] connected@.contains(c) ==> d <= dist(#[trigger] unconnected@[k], c)
                },
            },
        decreases unconnected@.len() - i,
    {
        let p = unconnected[i];
        proof {
            assert(unconnected@.contains(unconnected@[i as int]));
        }
        match find_nearest_in_set(p, connected) {
            None => {},
            Some((m, d)) => {
                let replace = match best {
                    None => true,
                    Some((_, _, bd)) => d < bd,
                };
                if replace {
                    best = Some((p, m, d));
                }
            },
        }
        i = i + 1;
    }
    match best {
        None => None,
        Some((u, m, _)) => {
            proof {
                assert forall|u2: Coord, c: Coord|
                    #[trigger] unconnected@.contains(u2) && #[trigger] connected@.contains(c)
                        implies dist(u, m) <= dist(u2, c) by {
                    let k = choose|k: int| 0 <= k < unconnected@.len() && unconnected@[k] == u2;
                    assert(dist(u, m) <= dist(unconnected@[k], c));
                }
            }
            Some((u, m))
        },
    }
}

/// Adds the cells of `path`, a walk over `et` from a connected cell, to the connected group
/// and takes them out of the unconnected pool.
fn absorb_path(
    connected: &mut Vec<Coord>,
    unconnected: &mut Vec<Coord>,
    path: &Vec<Coord>,
    Ghost(et): Ghost<Set<Coord>>,
    Ghost(root): Ghost<Coord>,
)
    requires
        no_dups(old(connected)@),
        is_walk(path@, et),
        old(connected)@.contains(path@[0]),
        forall|c: Coord| #[trigger] old(connected)@.contains(c) ==> et.contains(c),
        forall|c: Coord| #[trigger] old(connected)@.contains(c) ==> reachable(old(connected)@.to_set(), root, c),
    ensures
        no_dups(final(connected)@),
        forall|x: Coord| #[trigger] final(connected)@.contains(x) <==> (old(connected)@.contains(x) || path@.contains(x)),
        forall|x: Coord| #[trigger] final(unconnected)@.contains(x) <==> (old(unconnected)@.contains(x) && !path@.contains(x)),
        final(unconnected)@.len() <= old(unconnected)@.len(),
        old(unconnected)@.contains(path@.last()) ==> final(unconnected)@.len() < old(unconnected)@.len(),
        forall|c: Coord| #[trigger] final(connected)@.contains(c) ==> et.contains(c),
        forall|c: Coord| #[trigger] final(connected)@.contains(c) ==> reachable(final(connected)@.to_set(), root, c),
{
    let ghost c0 = connected@;
    let ghost u0 = unconnected@;
    let mut i: usize = 0;
    while i < path.len()
        invariant
            0 <= i <= path@.len(),
            no_dups(connected@),
            forall|x: Coord| #[trigger] connected@.contains(x) <==> (c0.contains(x) || exists|j: int|
                0 <= j < i && path@[j] == x),
            forall|x: Coord| #[trigger] unconnected@.contains(x) <==> (u0.contains(x) && !exists|j: int|
                0 <= j < i && path@[j] == x),
            unconnected@.len() <= u0.len(),
            (exists|j: int| 0 <= j < i && u0.contains(#[trigger] path@[j])) ==> unconnected@.len() < u0.len(),
        decreases path@.len() - i,
    {
        let c = path[i];
        let ghost cb = connected@;
        let ghost ub = unconnected@;
        add_cell(connected, c);
        remove_cell(unconnected, c);
        proof {
            assert forall|x: Coord| #[trigger] connected@.contains(x) <==> (c0.contains(x) || exists|j: int|
                0 <= j < i + 1 && path@[j] == x) by {
                if exists|j: int| 0 <= j < i + 1 && path@[j] == x {
                    let j = choose|j: int| 0 <= j < i + 1 && path@[j] == x;
                    if j < i {
                        assert(cb.contains(x));
                    }
                }
            }
            assert forall|x: Coord| #[trigger] unconnected@.contains(x) <==> (u0.contains(x) && !exists|j: int|
                0 <= j < i + 1 && path@[j] == x) by {
                if exists|j: int| 0 <= j < i + 1 && path@[j] == x {
                    let j = choose|j: int| 0 <= j < i + 1 && path@[j] == x;
                    if j < i {
                        assert(!ub.contains(x));
                    }
                }
            }
            if exists|j: int| 0 <= j < i + 1 && u0.contains(#[trigger] path@[j]) {
                if u0.contains(c) && !ub.contains(c) {
                    let j = choose|j: int| 0 <= j < i && path@[j] == c;
                    assert(u0.contains(path@[j]));
                } else if !u0.contains(c) {
                    let j = choose|j: int| 0 <= j < i + 1 && u0.contains(#[trigger] path@[j]);
                    assert(j != i);
                }
            }
        }
        i = i + 1;
    }
    proof {
        if u0.contains(path@.last()) {
            assert(u0.contains(path@[path@.len() - 1]));
        }
        let t2 = connected@.to_set();
        assert forall|x: Coord| #[trigger] connected@.contains(x) <==> (c0.contains(x) || path@.contains(x)) by {
            if path@.contains(x) {
                let j = choose|j: int| 0 <= j < path@.len() && path@[j] == x;
                assert(exists|j: int| 0 <= j < i && path@[j] == x);
            }
        }
        assert forall|x: Coord| #[trigger] unconnected@.contains(x) <==> (u0.contains(x) && !path@.contains(x)) by {
            if path@.contains(x) {
                let j = choose|j: int| 0 <= j < path@.len() && path@[j] == x;
                assert(exists|j: int| 0 <= j < i && path@[j] == x);
            }
        }
        assert(c0.to_set().subset_of(t2)) by {
            assert forall|x: Coord| c0.to_set().contains(x) implies t2.contains(x) by {
                assert(connected@.contains(x));
            }
        }
        lemma_reachable_mono(c0.to_set(), t2, root, path@[0]);
        assert forall|c: Coord| #[trigger] connected@.contains(c) implies et.contains(c) && reachable(t2, root, c) by {
            if c0.contains(c) {
                lemma_reachable_mono(c0.to_set(), t2, root, c);
            } else {
                let j = choose|j: int| 0 <= j < path@.len() && path@[j] == c;
                assert(et.contains(path@[j]));
                let pre = path@.take(j + 1);
                assert forall|k: int| 0 <= k < pre.len() implies t2.contains(#[trigger] pre[k]) by {
                    assert(pre[k] == path@[k]);
                    assert(path@.contains(path@[k]));
                    assert(connected@.contains(path@[k]));
                }
                assert forall|k: int| 0 <= k < pre.len() - 1 implies crate::hex::adjacent(#[trigger] pre[k], pre[k + 1]) by {
                    assert(pre[k] == path@[k]);
                    assert(pre[k + 1] == path@[k + 1]);
                }
                assert(pre[0] == path@[0]);
                assert(walk_between(pre, t2, path@[0], c));
                lemma_reachable_transitive(t2, root, path@[0], c);
            }
        }
    }
}

/// The cells of `v`, sorted by `(q, r)`.
fn sorted_cells(v: &Vec<Coord>) -> (res: Vec<Coord>)
    ensures
        strictly_sorted(res@),
        forall|x: Coord| #[trigger] res@.contains(x) <==> v@.contains(x),
{
    let mut res: Vec<Coord> = Vec::new();
    let mut i: usize = 0;
    while i < v.len()
        invariant
            0 <= i <= v@.len(),
            strictly_sorted(res@),
            forall|x: Coord| #[trigger] res@.contains(x) <==> exists|j: int| 0 <= j < i && v@[j] == x,
        decreases v@.len() - i,
    {
        let ghost before = res@;
        insert_sorted(&mut res, v[i]);
        proof {
            assert forall|x: Coord| #[trigger] res@.contains(x) <==> exists|j: int| 0 <= j < i + 1 && v@[j] == x by {
                if exists|j: int| 0 <= j < i + 1 && v@[j] == x {
                    let j = choose|j: int| 0 <= j < i + 1 && v@[j] == x;
                    if j < i {
                        assert(before.contains(x));
                    }
                }
            }
        }
        i = i + 1;
    }
    proof {
        assert forall|x: Coord| #[trigger] res@.contains(x) <==> v@.contains(x) by {
            if v@.contains(x) {
                let j = choose|j: int| 0 <= j < v@.len() && v@[j] == x;
                assert(exists|j: int| 0 <= j < i && v@[j] == x);
            }
        }
    }
    res
}

/// Two lists without repeats that hold the same cells have the same length.
proof fn lemma_same_cells_same_len(a: Seq<Coord>, b: Seq<Coord>)
    requires
        no_dups(a),
        no_dups(b),
        forall|x: Coord| #[trigger] a.contains(x) <==> b.contains(x),
    ensures
        a.len() == b.len(),
{
    assert(a.no_duplicates());
    assert(b.no_duplicates());
    a.unique_seq_to_set();
    b.unique_seq_to_set();
    assert(a.to_set() =~= b.to_set());
}

/// The state shared by both phases of the builder: the connected group lies on the terrain
/// without repeats; once it is non-empty it holds the root and reaches every member from it;
/// every terrain cell is connected, unconnected, or out of the root's reach.
spec fn grow_inv(
    et: Set<Coord>,
    connected: Seq<Coord>,
    unconnected: Seq<Coord>,
    has_root: bool,
    root: Coord,
) -> bool {
    &&& no_dups(connected)
    &&& forall|c: Coord| #[trigger] connected.contains(c) ==> et.contains(c)
    &&& forall|c: Coord| #[trigger] unconnected.contains(c) ==> et.contains(c)
    &&& (connected.len() == 0 <==> !has_root)
    &&& has_root ==> connected.contains(root)
    &&& has_root ==> forall|c: Coord| #[trigger] connected.contains(c) ==> reachable(connected.to_set(), root, c)
    &&& forall|c: Coord|
        #[trigger] et.contains(c) ==> connected.contains(c) || unconnected.contains(c) || (has_root
            && !reachable(et, root, c))
}

/// When no walk leads from a connected cell to `x`, none leads from the root either.
proof fn lemma_unreachable_from_root(et: Set<Coord>, connected: Seq<Coord>, root: Coord, m: Coord, x: Coord)
    requires
        forall|c: Coord| #[trigger] connected.contains(c) ==> et.contains(c),
        connected.contains(m),
        reachable(connected.to_set(), root, m),
        !reachable(et, m, x),
    ensures
        !reachable(et, root, x),
{
    assert(connected.to_set().subset_of(et));
    lemma_reachable_mono(connected.to_set(), et, root, m);
    if reachable(et, root, x) {
        lemma_reachable_symmetric(et, root, m);
        lemma_reachable_transitive(et, m, root, x);
    }
}

/// One step of the growth phase: joins the unconnected cell nearest to the group, or gives it
/// up when no walk reaches it. Reports `true` when the group is empty and nothing can be done.
fn grow_step(
    connected: &mut Vec<Coord>,
    unconnected: &mut Vec<Coord>,
    valid: &Vec<Coord>,
    Ghost(et): Ghost<Set<Coord>>,
    Ghost(has_root): Ghost<bool>,
    Ghost(root): Ghost<Coord>,
) -> (stuck: bool)
    requires
        valid@.to_set() == et,
        grow_inv(et, old(connected)@, old(unconnected)@, has_root, root),
        old(unconnected)@.len() > 0,
    ensures
        grow_inv(et, final(connected)@, final(unconnected)@, has_root, root),
        forall|x: Coord| #[trigger] old(connected)@.contains(x) ==> final(connected)@.contains(x),
        final(unconnected)@.len() <= old(unconnected)@.len(),
        stuck ==> final(connected)@.len() == 0,
        !stuck ==> final(unconnected)@.len() < old(unconnected)@.len(),
{
    let ghost c_before = connected@;
    let ghost u_before = unconnected@;
    match closest_pair(unconnected, connected) {
        None => {
            true
        },
        Some((u, m)) => {
            match hex_astar(m.0, m.1, u.0, u.1, valid) {
                Some(path) => {
                    proof {
                        assert(walk_between(path@, et, m, u));
                    }
                    absorb_path(connected, unconnected, &path, Ghost(et), Ghost(root));
                    proof {
                        assert forall|c: Coord| #[trigger] et.contains(c) implies connected@.contains(c) || unconnected@.contains(c) || (has_root
                            && !reachable(et, root, c)) by {
                            if c_before.contains(c) {
                                assert(connected@.contains(c));
                            }
                            if u_before.contains(c) && !unconnected@.contains(c) {
                                assert(path@.contains(c));
                            }
                        }
                    }
                    false
                },
                None => {
                    remove_cell(unconnected, u);
                    proof {
                        lemma_unreachable_from_root(et, connected@, root, m, u);
                        assert forall|c: Coord| #[trigger] et.contains(c) implies connected@.contains(c) || unconnected@.contains(c) || (has_root
                            && !reachable(et, root, c)) by {
                            if c == u {
                            } else if u_before.contains(c) {
                                assert(unconnected@.contains(c));
                            }
                        }
                    }
                    false
                },
            }
        },
    }
}

/// Builds a connected road network: first the seeds are joined to the group grown from the
/// first seed on the terrain, each along a shortest walk from its nearest connected cell; then,
/// while the group is smaller than `target_count`, the unconnected terrain cell nearest to the
/// group is joined the same way (or given up when unreachable). The result is sorted by `(q, r)`.
pub fn generate_road_network_growing_tree(
    seeds: &Vec<Coord>,
    terrain: &Vec<Coord>,
    occupied: &Vec<Coord>,
    target_count: i32,
) -> (res: Vec<Coord>)
    ensures
        road_network_ok(seeds@, terrain@, occupied@, target_count as int, res@),
{
    let ghost et = effective(terrain@, occupied@);
    let valid = effective_cells(terrain, occupied);
    let mut connected: Vec<Coord> = Vec::new();
    let mut unconnected: Vec<Coord> = effective_cells(terrain, occupied);
    let ghost mut has_root = false;
    let ghost mut root: Coord = (0, 0);
    let ghost mut r0: int = 0;
    proof {
        assert forall|c: Coord| #[trigger] et.contains(c) implies connected@.contains(c) || unconnected@.contains(c) || (has_root
            && !reachable(et, root, c)) by {
            assert(unconnected@.to_set().contains(c));
        }
        assert forall|c: Coord| #[trigger] unconnected@.contains(c) implies et.contains(c) by {
            assert(unconnected@.to_set().contains(c));
        }
    }
    // Phase 1: join the seeds.
    let mut si: usize = 0;
    while si < seeds.len()
        invariant
            0 <= si <= seeds@.len(),
            valid@.to_set() == et,
            et == effective(terrain@, occupied@),
            grow_inv(et, connected@, unconnected@, has_root, root),
            !has_root ==> forall|j: int| 0 <= j < si ==> !et.contains(#[trigger] seeds@[j]),
            has_root ==> is_first_valid(seeds@, et, r0) && r0 < si && root == seeds@[r0],
            has_root ==> forall|j: int|
                0 <= j < si && et.contains(seeds@[j]) && #[trigger] reachable(et, root, seeds@[j])
                    ==> connected@.contains(seeds@[j]),
        decreases seeds@.len() - si,
    {
        let seed = seeds[si];
        let ghost c_before = connected@;
        if !contains_cell(&valid, seed) {
            proof {
                assert(!et.contains(seed)) by {
                    if et.contains(seed) {
                        assert(valid@.to_set().contains(seed));
                    }
                }
            }
        } else if connected.len() == 0 {
            add_cell(&mut connected, seed);
            remove_cell(&mut unconnected, seed);
            proof {
                assert(et.contains(seed)) by {
                    assert(valid@.to_set().contains(seed));
                }
                has_root = true;
                root = seed;
                r0 = si as int;
                assert(connected@ =~= seq![seed]) by {
                    assert(connected@.contains(seed));
                    assert forall|x: Coord| connected@.contains(x) implies x == seed by {}
                    if connected@.len() > 1 {
                        assert(connected@.contains(connected@[0]));
                        assert(connected@.contains(connected@[1]));
                    }
                    assert(connected@.contains(connected@[0]));
                }
                assert(connected@.to_set().contains(seed));
                lemma_reachable_refl(connected@.to_set(), seed);
                assert forall|c: Coord| #[trigger] connected@.contains(c) implies reachable(connected@.to_set(), root, c) by {
                    assert(c == seed);
                }
                assert forall|c: Coord| #[trigger] et.contains(c) implies connected@.contains(c) || unconnected@.contains(c) || (has_root
                    && !reachable(et, root, c)) by {
                    assert(c_before.len() == 0);
                    assert(!c_before.contains(c));
                }
                assert forall|j: int|
                    0 <= j < si + 1 && et.contains(seeds@[j]) && #[trigger] reachable(et, root, seeds@[j])
                        implies connected@.contains(seeds@[j]) by {
                    if j < si {
                        assert(!et.contains(seeds@[j]));
                    }
                }
            }
        } else {
            proof {
                assert(et.contains(seed)) by {
                    assert(valid@.to_set().contains(seed));
                }
            }
            match find_nearest_in_set(seed, &connected) {
                None => {},
                Some((m, _)) => {
                    match hex_astar(m.0, m.1, seed.0, seed.1, &valid) {
                        Some(path) => {
                            let ghost u_before = unconnected@;
                            proof {
                                assert(walk_between(path@, et, m, seed));
                            }
                            absorb_path(&mut connected, &mut unconnected, &path, Ghost(et), Ghost(root));
                            proof {
                                assert(path@.contains(path@[path@.len() - 1]));
                                assert(connected@.contains(seed));
                                assert forall|c: Coord| #[trigger] et.contains(c) implies connected@.contains(c) || unconnected@.contains(c) || (has_root
                                    && !reachable(et, root, c)) by {
                                    if c_before.contains(c) {
                                        assert(connected@.contains(c));
                                    }
                                    if u_before.contains(c) && !unconnected@.contains(c) {
                                        assert(path@.contains(c));
                                    }
                                }
                                assert forall|j: int|
                                    0 <= j < si + 1 && et.contains(seeds@[j]) && #[trigger] reachable(et, root, seeds@[j])
                                        implies connected@.contains(seeds@[j]) by {
                                    if j < si {
                                        assert(c_before.contains(seeds@[j]));
                                    }
                                }
                            }
                        },
                        None => {
                            proof {
                                lemma_unreachable_from_root(et, connected@, root, m, seed);
                                assert forall|j: int|
                                    0 <= j < si + 1 && et.contains(seeds@[j]) && #[trigger] reachable(et, root, seeds@[j])
                                        implies connected@.contains(seeds@[j]) by {
                                    if j == si {
                                        assert(!reachable(et, root, seed));
                                    }
                                }
                            }
                        },
                    }
                },
            }
        }
        si = si + 1;
    }
    // Phase 2: grow towards the target size.
    let mut stuck = false;
    while !stuck && target_count > 0 && connected.len() < target_count as usize && unconnected.len() > 0
        invariant
            valid@.to_set() == et,
            et == effective(terrain@, occupied@),
            grow_inv(et, connected@, unconnected@, has_root, root),
            stuck ==> connected@.len() == 0,
            !has_root ==> forall|j: int| 0 <= j < seeds@.len() ==> !et.contains(#[trigger] seeds@[j]),
            has_root ==> is_first_valid(seeds@, et, r0) && root == seeds@[r0],
            has_root ==> forall|j: int|
                0 <= j < seeds@.len() && et.contains(seeds@[j]) && #[trigger] reachable(et, root, seeds@[j])
                    ==> connected@.contains(seeds@[j]),
        decreases unconnected@.len(), if stuck { 0int } else { 1int },
    {
        let ghost c_before = connected@;
        stuck = grow_step(&mut connected, &mut unconnected, &valid, Ghost(et), Ghost(has_root), Ghost(root));
        proof {
            assert forall|j: int|
                0 <= j < seeds@.len() && et.contains(seeds@[j]) && #[trigger] reachable(et, root, seeds@[j])
                    implies connected@.contains(seeds@[j]) by {
                if has_root {
                    assert(c_before.contains(seeds@[j]));
                }
            }
        }
    }
    let res = sorted_cells(&connected);
    proof {
        assert(res@.no_duplicates()) by {
            assert forall|i: int, j: int| 0 <= i < res@.len() && 0 <= j < res@.len() && i != j implies res@[i] != res@[j] by {
                if i < j {
                    assert(coord_lt(res@[i], res@[j]));
                } else {
                    assert(coord_lt(res@[j], res@[i]));
                }
            }
        }
        lemma_same_cells_same_len(res@, connected@);
        assert(res@.to_set() =~= connected@.to_set());
        if has_root {
            assert forall|r1: int| #[trigger] is_first_valid(seeds@, et, r1) implies r1 == r0 by {
                if r1 < r0 {
                    assert(!et.contains(seeds@[r1]));
                } else if r0 < r1 {
                    assert(!et.contains(seeds@[r0]));
                }
            }
            assert(res@.contains(root));
            if res@.len() < target_count {
                assert(!(target_count > 0 && connected@.len() < target_count) || unconnected@.len() == 0 || stuck);
                assert forall|c: Coord| et.contains(c) && #[trigger] reachable(et, root, c) implies res@.contains(c) by {
                    assert(connected@.contains(c) || unconnected@.contains(c));
                }
            }
        } else {
            assert forall|r1: int| !#[trigger] is_first_valid(seeds@, et, r1) by {
                if 0 <= r1 < seeds@.len() {
                    assert(!et.contains(seeds@[r1]));
                }
            }
        }
    }
    res
}

/// The network built is accepted by the connectivity check: every road cell reaches every
/// other over road cells.
pub proof fn lemma_network_connected(
    seeds: Seq<Coord>,
    terrain: Seq<Coord>,
    occupied: Seq<Coord>,
    target_count: int,
    res: Seq<Coord>,
)
    requires
        road_network_ok(seeds, terrain, occupied, target_count, res),
    ensures
        all_reachable_from_first(res),
{
    let et = effective(terrain, occupied);
    if res.len() > 1 {
        if forall|j: int| 0 <= j < seeds.len() ==> !et.contains(#[trigger] seeds[j]) {
        } else {
            let j0 = choose|j: int| 0 <= j < seeds.len() && et.contains(#[trigger] seeds[j]);
            let r0 = lemma_first_valid(seeds, et, j0);
            let root = seeds[r0];
            let t = res.to_set();
            assert(res.contains(res[0]));
            assert(reachable(t, root, res[0]));
            lemma_reachable_symmetric(t, root, res[0]);
            assert forall|i: int| 0 <= i < res.len() implies #[trigger] reachable(t, res[0], res[i]) by {
                assert(res.contains(res[i]));
                lemma_reachable_transitive(t, res[0], root, res[i]);
            }
        }
    }
}

/// Some seed is the first on the terrain whenever any seed is on it.
proof fn lemma_first_valid(seeds: Seq<Coord>, et: Set<Coord>, j: int) -> (r0: int)
    requires
        0 <= j < seeds.len(),
        et.contains(seeds[j]),
    ensures
        is_first_valid(seeds, et, r0),
    decreases j,
{
    if exists|k: int| 0 <= k < j && et.contains(#[trigger] seeds[k]) {
        let k = choose|k: int| 0 <= k < j && et.contains(#[trigger] seeds[k]);
        lemma_first_valid(seeds, et, k)
    } else {
        j
    }
}

} // verus!
