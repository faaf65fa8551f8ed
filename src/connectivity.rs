use vstd::prelude::*;
use crate::hex::{Coord, adjacent};
use crate::pathfind::{is_walk, walk_between, shortest_walk, reachable, hex_astar_path, lemma_reachable_refl, lemma_reachable_symmetric, lemma_reachable_transitive};

verus! {

/// Every road cell can be reached from the first one over road cells alone (trivially so for
/// zero or one cell).
pub open spec fn all_reachable_from_first(roads: Seq<Coord>) -> bool {
    roads.len() <= 1 || forall|i: int| 0 <= i < roads.len() ==> #[trigger] reachable(roads.to_set(), roads[0], roads[i])
}

/// Whether the road cells form one connected group, checked by pathfinding from the first
/// cell to every other over the road cells themselves.
pub fn validate_road_connectivity(roads: &Vec<Coord>) -> (ok: bool)
    ensures
        ok == all_reachable_from_first(roads@),
{
    if roads.len() <= 1 {
        return true;
    }
    let ghost t = roads@.to_set();
    let source = roads[0];
    proof {
        assert(t.contains(roads@[0]));
        lemma_reachable_refl(t, roads@[0]);
    }
    let mut i: usize = 1;
    while i < roads.len()
        invariant
            1 <= i <= roads@.len(),
            t == roads@.to_set(),
            source == roads@[0],
            forall|j: int| 0 <= j < i ==> #[trigger] reachable(t, roads@[0], roads@[j]),
        decreases roads@.len() - i,
    {
        let target = roads[i];
        match hex_astar_path(source.0, source.1, target.0, target.1, roads) {
            Some(_) => {
                proof {
                    let p = choose|p: Seq<Coord>|
                        #[trigger] shortest_walk(p, t, source, target) && p.len() >= 1;
                    assert(walk_between(p, t, source, target));
                }
            },
            None => {
                return false;
            },
        }
        i = i + 1;
    }
    true
}

/// Reaching every cell from the first one is enough: then every cell reaches every other.
pub proof fn lemma_connected_all_pairs(roads: Seq<Coord>, i: int, j: int)
    requires
        all_reachable_from_first(roads),
        0 <= i < roads.len(),
        0 <= j < roads.len(),
    ensures
        reachable(roads.to_set(), roads[i], roads[j]),
{
    let t = roads.to_set();
    if roads.len() <= 1 {
        assert(t.contains(roads[0]));
        lemma_reachable_refl(t, roads[0]);
    } else {
        assert(reachable(t, roads[0], roads[i]));
        assert(reachable(t, roads[0], roads[j]));
        lemma_reachable_symmetric(t, roads[0], roads[i]);
        lemma_reachable_transitive(t, roads[i], roads[0], roads[j]);
    }
}

/// A walk over the two cells `{a, b}` from `a` to `b` must step from `a` straight to `b`.
proof fn lemma_two_cell_walk(w: Seq<Coord>, a: Coord, b: Coord) -> (i: int)
    requires
        is_walk(w, set![a, b]),
        w[0] == a,
        w.last() == b,
        a != b,
    ensures
        0 <= i < w.len() - 1,
        w[i] == a,
        w[i + 1] == b,
    decreases w.len(),
{
    assert(set![a, b].contains(w[1]));
    assert(adjacent(w[0], w[1]));
    if w[1] == b {
        0
    } else {
        let rest = w.drop_first();
        assert forall|k: int| 0 <= k < rest.len() implies set![a, b].contains(#[trigger] rest[k]) by {
            assert(rest[k] == w[k + 1]);
        }
        assert forall|k: int| 0 <= k < rest.len() - 1 implies adjacent(#[trigger] rest[k], rest[k + 1]) by {
            assert(rest[k] == w[k + 1]);
            assert(rest[k + 1] == w[k + 2]);
        }
        let j = lemma_two_cell_walk(rest, a, b);
        j + 1
    }
}

/// Two distinct road cells that are not neighbours do not form a connected road set.
pub proof fn lemma_separate_cells_disconnected(a: Coord, b: Coord)
    requires
        a != b,
        !adjacent(a, b),
    ensures
        !all_reachable_from_first(seq![a, b]),
{
    let roads = seq![a, b];
    let t = roads.to_set();
    assert(t =~= set![a, b]) by {
        assert(roads[0] == a && roads[1] == b);
        assert forall|x: Coord| t.contains(x) <==> set![a, b].contains(x) by {
            if x == a {
                assert(roads.contains(roads[0]));
            }
            if x == b {
                assert(roads.contains(roads[1]));
            }
        }
    }
    if reachable(t, roads[0], roads[1]) {
        let w = choose|w: Seq<Coord>| #[trigger] walk_between(w, t, a, b);
        let i = lemma_two_cell_walk(w, a, b);
        assert(adjacent(w[i], w[i + 1]));
    }
}

} // verus!
