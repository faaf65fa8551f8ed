use vstd::prelude::*;
use crate::hex::{Coord, adjacent, dist, axial_offset, neighbor, hex_distance, lemma_step_bound};

verus! {

// ---------------------------------------------------------------------------------------------
// Walks over a set of traversable cells
/// `p` is a non-empty sequence of traversable cells, each adjacent to the next.
pub open spec fn is_walk(p: Seq<Coord>, t: Set<Coord>) -> bool {
    &&& p.len() >= 1
    &&& forall|i: int| 0 <= i < p.len() ==> t.contains(#[trigger] p[i])
    &&& forall|i: int| 0 <= i < p.len() - 1 ==> adjacent(#[trigger] p[i], p[i + 1])
}

pub open spec fn walk_between(p: Seq<Coord>, t: Set<Coord>, a: Coord, b: Coord) -> bool {
    is_walk(p, t) && p[0] == a && p.last() == b
}

/// Some walk over `t` leads from `a` to `b`.
pub open spec fn reachable(t: Set<Coord>, a: Coord, b: Coord) -> bool {
    exists|p: Seq<Coord>| #[trigger] walk_between(p, t, a, b)
}

/// `p` is a walk from `a` to `b` over `t` with no more cells than any other such walk.
pub open spec fn shortest_walk(p: Seq<Coord>, t: Set<Coord>, a: Coord, b: Coord) -> bool {
    &&& walk_between(p, t, a, b)
    &&& forall|w: Seq<Coord>| #[trigger] walk_between(w, t, a, b) ==> p.len() <= w.len()
}

/// Index of the axial offset that leads from `a` to `b` (6 when they are not adjacent).
pub open spec fn dir_index(a: Coord, b: Coord) -> int {
    if b.0 == a.0 + 1 && b.1 == a.1 {
        0
    } else if b.0 == a.0 - 1 && b.1 == a.1 {
        1
    } else if b.0 == a.0 && b.1 == a.1 + 1 {
        2
    } else if b.0 == a.0 && b.1 == a.1 - 1 {
        3
    } else if b.0 == a.0 + 1 && b.1 == a.1 - 1 {
        4
    } else if b.0 == a.0 - 1 && b.1 == a.1 + 1 {
        5
    } else {
        6
    }
}

pub open spec fn no_dups(cs: Seq<Coord>) -> bool {
    forall|i: int, j: int|
        0 <= i < cs.len() && 0 <= j < cs.len() && i != j ==> #[trigger] cs[i] != #[trigger] cs[j]
}

// ---------------------------------------------------------------------------------------------
// Search state
/// A frontier entry: a cell index, the cost with which it was reached, and its heuristic.
#[derive(Clone, Copy, Debug)]
struct Entry {
    idx: usize,
    g: usize,
    h: u64,
}

spec fn ent_f(e: Entry) -> int {
    e.g + e.h
}

spec fn count_true(s: Seq<bool>) -> int
    decreases s.len(),
{
    if s.len() == 0 {
        0
    } else {
        count_true(s.drop_last()) + if s.last() {
            1int
        } else {
            0int
        }
    }
}

proof fn lemma_count_bounds(s: Seq<bool>)
    ensures
        0 <= count_true(s) <= s.len(),
    decreases s.len(),
{
    if s.len() > 0 {
        lemma_count_bounds(s.drop_last());
    }
}

proof fn lemma_count_all_false(n: nat)
    ensures
        count_true(Seq::new(n, |i: int| false)) == 0,
    decreases n,
{
    if n > 0 {
        assert(Seq::new(n, |i: int| false).drop_last() =~= Seq::new((n - 1) as nat, |i: int| false));
        lemma_count_all_false((n - 1) as nat);
    }
}

proof fn lemma_count_set(s: Seq<bool>, i: int)
    requires
        0 <= i < s.len(),
        !s[i],
    ensures
        count_true(s.update(i, true)) == count_true(s) + 1,
    decreases s.len(),
{
    let s2 = s.update(i, true);
    if i == s.len() - 1 {
        assert(s2.drop_last() =~= s.drop_last());
    } else {
        assert(s2.drop_last() =~= s.drop_last().update(i, true));
        lemma_count_set(s.drop_last(), i);
    }
}

spec fn parent_ok(
    cs: Seq<Coord>,
    closed: Seq<bool>,
    best: Seq<Option<usize>>,
    parent: Seq<usize>,
    i: int,
) -> bool {
    let p = parent[i] as int;
    &&& 0 <= p < cs.len()
    &&& closed[p]
    &&& adjacent(cs[p], cs[i])
    &&& best[p] is Some
    &&& best[i]->0 == best[p]->0 + 1
}

spec fn entry_ok(cs: Seq<Coord>, gl: int, best: Seq<Option<usize>>, e: Entry) -> bool {
    &&& e.idx < cs.len()
    &&& best[e.idx as int] is Some
    &&& best[e.idx as int]->0 <= e.g
    &&& e.h == dist(cs[e.idx as int], cs[gl])
}

/// The invariant of the search. `pending` is the cell being expanded (or -1), and the
/// neighbours of it in directions below `dirs` have been relaxed.
spec fn search_inv(
    cs: Seq<Coord>,
    s: int,
    gl: int,
    closed: Seq<bool>,
    best: Seq<Option<usize>>,
    parent: Seq<usize>,
    open: Seq<Entry>,
    n_closed: int,
    pending: int,
    dirs: int,
) -> bool {
    let n = cs.len();
    let t = cs.to_set();
    &&& no_dups(cs)
    &&& 0 <= s < n
    &&& 0 <= gl < n
    &&& s != gl
    &&& closed.len() == n
    &&& best.len() == n
    &&& parent.len() == n
    &&& best[s] == Some(0usize)
    &&& !closed[gl]
    &&& count_true(closed) == n_closed
    &&& forall|i: int| 0 <= i < n && i != s && #[trigger] best[i] is Some ==> parent_ok(cs, closed, best, parent, i)
    &&& forall|i: int| 0 <= i < n && #[trigger] best[i] is Some ==> best[i]->0 <= n_closed
    &&& forall|i: int| 0 <= i < n && #[trigger] closed[i] ==> best[i] is Some
    &&& forall|i: int, w: Seq<Coord>|
        0 <= i < n && #[trigger] closed[i] && #[trigger] walk_between(w, t, cs[s], cs[i])
            ==> best[i]->0 + 1 <= w.len()
    &&& forall|c: int, v: int|
        0 <= c < n && 0 <= v < n && c != pending && #[trigger] closed[c] && !closed[v]
            && #[trigger] adjacent(cs[c], cs[v]) ==> best[v] is Some && best[v]->0 <= best[c]->0 + 1
    &&& pending >= 0 ==> {
        &&& 0 <= pending < n
        &&& closed[pending]
        &&& forall|v: int|
            0 <= v < n && !closed[v] && #[trigger] dir_index(cs[pending], cs[v]) < dirs
                ==> best[v] is Some && best[v]->0 <= best[pending]->0 + 1
    }
    &&& forall|v: int|
        0 <= v < n && !closed[v] && #[trigger] best[v] is Some ==> exists|k: int|
            0 <= k < open.len() && (#[trigger] open[k]).idx == v && open[k].g == best[v]->0
    &&& forall|k: int| 0 <= k < open.len() ==> entry_ok(cs, gl, best, #[trigger] open[k])
}

proof fn lemma_index_of(cs: Seq<Coord>, x: Coord) -> (i: int)
    requires
        cs.to_set().contains(x),
    ensures
        0 <= i < cs.len(),
        cs[i] == x,
{
    choose|i: int| 0 <= i < cs.len() && cs[i] == x
}

/// Every walk from the start to a cell that is not closed passes a frontier entry whose
/// estimate is at most the walk's length plus the heuristic at its end.
proof fn lemma_frontier_bound(
    cs: Seq<Coord>,
    s: int,
    gl: int,
    closed: Seq<bool>,
    best: Seq<Option<usize>>,
    parent: Seq<usize>,
    open: Seq<Entry>,
    n_closed: int,
    w: Seq<Coord>,
) -> (k: int)
    requires
        search_inv(cs, s, gl, closed, best, parent, open, n_closed, -1, 0),
        is_walk(w, cs.to_set()),
        w[0] == cs[s],
        forall|i: int| 0 <= i < cs.len() && cs[i] == w.last() ==> !closed[i],
    ensures
        0 <= k < open.len(),
        ent_f(open[k]) <= w.len() - 1 + dist(w.last(), cs[gl]),
    decreases w.len(),
{
    let t = cs.to_set();
    let last = w.last();
    assert(t.contains(w[w.len() - 1]));
    let li = lemma_index_of(cs, last);
    assert(!closed[li]);
    if w.len() == 1 {
        assert(li == s);
        assert(best[s] is Some);
        let k = choose|k: int| 0 <= k < open.len() && (#[trigger] open[k]).idx == s && open[k].g == best[s]->0;
        assert(entry_ok(cs, gl, best, open[k]));
        k
    } else {
        let w2 = w.drop_last();
        let prev = w[w.len() - 2];
        assert(t.contains(w[w.len() - 2]));
        assert(adjacent(w[w.len() - 2], w[w.len() - 1]));
        let pi = lemma_index_of(cs, prev);
        assert(is_walk(w2, t)) by {
            assert forall|i: int| 0 <= i < w2.len() implies t.contains(#[trigger] w2[i]) by {
                assert(w2[i] == w[i]);
            }
            assert forall|i: int| 0 <= i < w2.len() - 1 implies adjacent(#[trigger] w2[i], w2[i + 1]) by {
                assert(w2[i] == w[i]);
                assert(w2[i + 1] == w[i + 1]);
            }
        }
        assert(w2.last() == prev);
        lemma_step_bound(prev, last, cs[gl]);
        if !closed[pi] {
            assert forall|i: int| 0 <= i < cs.len() && cs[i] == w2.last() implies !closed[i] by {
                assert(i == pi);
            }
            let k = lemma_frontier_bound(cs, s, gl, closed, best, parent, open, n_closed, w2);
            k
        } else {
            assert(walk_between(w2, t, cs[s], cs[pi]));
            assert(best[pi]->0 + 1 <= w2.len());
            assert(adjacent(cs[pi], cs[li]));
            assert(best[li] is Some && best[li]->0 <= best[pi]->0 + 1);
            let k = choose|k: int| 0 <= k < open.len() && (#[trigger] open[k]).idx == li && open[k].g == best[li]->0;
            assert(entry_ok(cs, gl, best, open[k]));
            k
        }
    }
}

// ---------------------------------------------------------------------------------------------
// Executable search
fn index_of(cells: &Vec<Coord>, c: Coord) -> (r: Option<usize>)
    ensures
        match r {
            Some(i) => i < cells@.len() && cells@[i as int] == c,
            None => !cells@.contains(c),
        },
{
    let mut i: usize = 0;
    while i < cells.len()
        invariant
            0 <= i <= cells@.len(),
            forall|j: int| 0 <= j < i ==> cells@[j] != c,
        decreases cells@.len() - i,
    {
        if cells[i].0 == c.0 && cells[i].1 == c.1 {
            return Some(i);
        }
        i = i + 1;
    }
    None
}

/// The distinct cells of `terrain`, in order of first appearance.
fn dedup_cells(terrain: &Vec<Coord>) -> (cells: Vec<Coord>)
    ensures
        no_dups(cells@),
        cells@.to_set() == terrain@.to_set(),
{
    let mut cells: Vec<Coord> = Vec::new();
    let mut i: usize = 0;
    while i < terrain.len()
        invariant
            0 <= i <= terrain@.len(),
            no_dups(cells@),
            forall|c: Coord|
                cells@.contains(c) <==> exists|j: int| 0 <= j < i && #[trigger] terrain@[j] == c,
        decreases terrain@.len() - i,
    {
        let c = terrain[i];
        let ghost before = cells@;
        match index_of(&cells, c) {
            Some(_) => {},
            None => {
                cells.push(c);
            },
        }
        proof {
            assert forall|x: Coord|
                cells@.contains(x) <==> exists|j: int| 0 <= j < i + 1 && #[trigger] terrain@[j] == x by {
                if before.contains(x) {
                    let j = choose|j: int| 0 <= j < before.len() && before[j] == x;
                    assert(cells@[j] == x);
                }
                if x == c {
                    assert(terrain@[i as int] == x);
                    if cells@.len() > before.len() {
                        assert(cells@[before.len() as int] == x);
                    }
                }
                if cells@.contains(x) {
                    let j = choose|j: int| 0 <= j < cells@.len() && cells@[j] == x;
                    if j < before.len() {
                        assert(before[j] == x);
                    }
                }
                if exists|j: int| 0 <= j < i + 1 && #[trigger] terrain@[j] == x {
                    let j = choose|j: int| 0 <= j < i + 1 && #[trigger] terrain@[j] == x;
                    if j < i {
                        assert(before.contains(x));
                    }
                }
            }
        }
        i = i + 1;
    }
    proof {
        assert forall|x: Coord| cells@.to_set().contains(x) <==> terrain@.to_set().contains(x) by {
            if terrain@.contains(x) {
                let j = choose|j: int| 0 <= j < terrain@.len() && terrain@[j] == x;
            }
        }
        assert(cells@.to_set() =~= terrain@.to_set());
    }
    cells
}

/// Index of the entry with the least `g + h`, ties going to the least `h`.
fn pick_min(open: &Vec<Entry>) -> (m: usize)
    requires
        open@.len() > 0,
    ensures
        m < open@.len(),
        forall|k: int|
            0 <= k < open@.len() ==> ent_f(open@[m as int]) <= ent_f(#[trigger] open@[k]),
        forall|k: int|
            0 <= k < open@.len() && ent_f(open@[m as int]) == ent_f(#[trigger] open@[k]) ==> open@[m as int].h
                <= open@[k].h,
{
    let mut m: usize = 0;
    let mut i: usize = 1;
    while i < open.len()
        invariant
            0 <= m < i <= open@.len(),
            forall|k: int| 0 <= k < i ==> ent_f(open@[m as int]) <= ent_f(#[trigger] open@[k]),
            forall|k: int|
                0 <= k < i && ent_f(open@[m as int]) == ent_f(#[trigger] open@[k]) ==> open@[m as int].h
                    <= open@[k].h,
        decreases open@.len() - i,
    {
        let fi: u128 = open[i].g as u128 + open[i].h as u128;
        let fm: u128 = open[m].g as u128 + open[m].h as u128;
        if fi < fm || (fi == fm && open[i].h < open[m].h) {
            m = i;
        }
        i = i + 1;
    }
    m
}

/// Follows parent links from the goal back to the start.
#[verifier::loop_isolation(false)]
fn reconstruct(
    cells: &Vec<Coord>,
    s: usize,
    gl: usize,
    best: &Vec<Option<usize>>,
    parent: &Vec<usize>,
) -> (path: Vec<Coord>)
    requires
        s < cells@.len(),
        gl < cells@.len(),
        best@.len() == cells@.len(),
        parent@.len() == cells@.len(),
        best@[s as int] == Some(0usize),
        best@[gl as int] is Some,
        forall|i: int|
            0 <= i < cells@.len() && i != s && #[trigger] best@[i] is Some ==> {
                let p = parent@[i] as int;
                &&& 0 <= p < cells@.len()
                &&& adjacent(cells@[p], cells@[i])
                &&& best@[p] is Some
                &&& best@[i]->0 == best@[p]->0 + 1
            },
    ensures
        walk_between(path@, cells@.to_set(), cells@[s as int], cells@[gl as int]),
        path@.len() == best@[gl as int]->0 + 1,
{
    let ghost t = cells@.to_set();
    let mut rev: Vec<Coord> = Vec::new();
    let mut cur: usize = gl;
    while cur != s
        invariant
            cur < cells@.len(),
            best@[cur as int] is Some,
            rev@.len() + best@[cur as int]->0 == best@[gl as int]->0,
            forall|i: int| 0 <= i < rev@.len() ==> t.contains(#[trigger] rev@[i]),
            forall|i: int| 0 <= i < rev@.len() - 1 ==> adjacent(#[trigger] rev@[i + 1], rev@[i]),
            rev@.len() > 0 ==> rev@[0] == cells@[gl as int] && adjacent(
                cells@[cur as int],
                rev@.last(),
            ),
            rev@.len() == 0 ==> cur == gl,
        decreases best@[cur as int]->0,
    {
        assert(cells@.contains(cells@[cur as int]));
        assert(best@[cur as int] is Some);
        rev.push(cells[cur]);
        cur = parent[cur];
    }
    assert(cells@.contains(cells@[s as int]));
    rev.push(cells[s]);
    let ghost len = rev@.len();
    let mut path: Vec<Coord> = Vec::new();
    let mut i: usize = rev.len();
    while i > 0
        invariant
            0 <= i <= len,
            len == rev@.len(),
            path@.len() == len - i,
            forall|j: int| 0 <= j < path@.len() ==> #[trigger] path@[j] == rev@[len - 1 - j],
        decreases i,
    {
        i = i - 1;
        path.push(rev[i]);
    }
    proof {
        assert forall|j: int| 0 <= j < path@.len() implies t.contains(#[trigger] path@[j]) by {
            assert(path@[j] == rev@[len - 1 - j]);
        }
        assert forall|j: int| 0 <= j < path@.len() - 1 implies adjacent(
            #[trigger] path@[j],
            path@[j + 1],
        ) by {
            assert(path@[j] == rev@[len - 1 - j]);
            assert(path@[j + 1] == rev@[len - 1 - (j + 1)]);
            assert(adjacent(rev@[(len - 2 - j) + 1], rev@[len - 2 - j]));
        }
        assert(path@[0] == rev@[len - 1]);
        assert(path@.last() == rev@[0]);
    }
    path
}

/// Relaxes the six neighbours of the cell `u` that has just been closed with cost `bu`.
fn relax_neighbors(
    cells: &Vec<Coord>,
    goal: Coord,
    u: usize,
    bu: usize,
    closed: &Vec<bool>,
    best: &mut Vec<Option<usize>>,
    parent: &mut Vec<usize>,
    open: &mut Vec<Entry>,
    Ghost(s): Ghost<int>,
    Ghost(gl): Ghost<int>,
    n_closed: usize,
)
    requires
        0 <= gl < cells@.len(),
        goal == cells@[gl],
        u < cells@.len(),
        u != gl,
        old(best)@[u as int] == Some(bu),
        bu < n_closed <= cells@.len(),
        search_inv(cells@, s, gl, closed@, old(best)@, old(parent)@, old(open)@, n_closed as int, u as int, 0),
    ensures
        search_inv(cells@, s, gl, closed@, final(best)@, final(parent)@, final(open)@, n_closed as int, u as int, 6),
        final(open)@.len() <= old(open)@.len() + 6,
{
    let ghost cs = cells@;
    let ghost t = cells@.to_set();
    let ghost closed0 = closed@;
    let n = cells.len();
    let cu = cells[u];
    let ghost open_len0 = open@.len();
    let mut d: usize = 0;
    while d < 6
        invariant
            0 <= d <= 6,
            n == cells@.len(),
            cs == cells@,
            t == cs.to_set(),
            goal == cs[gl],
            u < n,
            u != gl,
            cu == cs[u as int],
            best@[u as int] == Some(bu),
            bu < n_closed <= n,
            open@.len() <= open_len0 + d,
            closed@ == closed0,
            search_inv(cs, s, gl, closed@, best@, parent@, open@, n_closed as int, u as int, d as int),
        decreases 6 - d,
    {
        let ghost best0 = best@;
        let ghost parent0 = parent@;
        let ghost open0 = open@;
        if let Some(nc) = neighbor(cu.0, cu.1, d) {
            if let Some(v) = index_of(cells, nc) {
                if !closed[v] {
                    let tg: usize = bu + 1;
                    let better = match best[v] {
                        None => true,
                        Some(b) => tg < b,
                    };
                    if better {
                        let h = hex_distance(nc.0, nc.1, goal.0, goal.1);
                        best.set(v, Some(tg));
                        parent.set(v, u);
                        open.push(Entry { idx: v, g: tg, h: h as u64 });
                        proof {
                            assert(dir_index(cu, nc) == d);
                            assert(adjacent(cs[u as int], cs[v as int]));
                            assert(v != u);
                            assert forall|i: int| 0 <= i < n && i != s && #[trigger] best@[i] is Some implies parent_ok(cs, closed@, best@, parent@, i) by {
                                if i != v {
                                    assert(parent_ok(cs, closed@, best0, parent0, i));
                                }
                            }
                            assert forall|v2: int|
                                0 <= v2 < n && !closed@[v2] && #[trigger] best@[v2] is Some implies exists|k: int|
                                    0 <= k < open@.len() && (#[trigger] open@[k]).idx == v2 && open@[k].g == best@[v2]->0 by {
                                if v2 == v {
                                    assert(open@[open@.len() - 1].idx == v);
                                } else {
                                    let k = choose|k: int|
                                        0 <= k < open0.len() && (#[trigger] open0[k]).idx == v2 && open0[k].g == best0[v2]->0;
                                    assert(open@[k] == open0[k]);
                                }
                            }
                            assert forall|k: int| 0 <= k < open@.len() implies entry_ok(cs, gl, best@, #[trigger] open@[k]) by {
                                if k < open0.len() {
                                    assert(open@[k] == open0[k]);
                                    assert(entry_ok(cs, gl, best0, open0[k]));
                                }
                            }
                            assert forall|i: int, w: Seq<Coord>|
                                0 <= i < n && #[trigger] closed@[i] && #[trigger] walk_between(w, t, cs[s], cs[i])
                                    implies best@[i]->0 + 1 <= w.len() by {
                                assert(i != v);
                            }
                            assert forall|v2: int|
                                0 <= v2 < n && !closed@[v2] && #[trigger] dir_index(cs[u as int], cs[v2]) < d + 1
                                    implies best@[v2] is Some && best@[v2]->0 <= best@[u as int]->0 + 1 by {
                                if dir_index(cs[u as int], cs[v2]) == d {
                                    assert(cs[v2] == nc);
                                    assert(v2 == v);
                                }
                            }
                        }
                    } else {
                        proof {
                            assert(dir_index(cu, nc) == d);
                            assert forall|v2: int|
                                0 <= v2 < n && !closed@[v2] && #[trigger] dir_index(cs[u as int], cs[v2]) < d + 1
                                    implies best@[v2] is Some && best@[v2]->0 <= best@[u as int]->0 + 1 by {
                                if dir_index(cs[u as int], cs[v2]) == d {
                                    assert(cs[v2] == nc);
                                    assert(v2 == v);
                                }
                            }
                        }
                    }
                } else {
                    proof {
                        assert(dir_index(cu, nc) == d);
                        assert forall|v2: int|
                            0 <= v2 < n && !closed@[v2] && #[trigger] dir_index(cs[u as int], cs[v2]) < d + 1
                                implies best@[v2] is Some && best@[v2]->0 <= best@[u as int]->0 + 1 by {
                            if dir_index(cs[u as int], cs[v2]) == d {
                                assert(cs[v2] == nc);
                                assert(v2 == v);
                            }
                        }
                    }
                }
            } else {
                proof {
                    assert forall|v2: int|
                        0 <= v2 < n && !closed@[v2] && #[trigger] dir_index(cs[u as int], cs[v2]) < d + 1
                            implies best@[v2] is Some && best@[v2]->0 <= best@[u as int]->0 + 1 by {
                        if dir_index(cs[u as int], cs[v2]) == d {
                            assert(cs[v2] == nc);
                            assert(cells@.contains(cs[v2]));
                        }
                    }
                }
            }
        } else {
            proof {
                assert forall|v2: int|
                    0 <= v2 < n && !closed@[v2] && #[trigger] dir_index(cs[u as int], cs[v2]) < d + 1
                        implies best@[v2] is Some && best@[v2]->0 <= best@[u as int]->0 + 1 by {
                    if dir_index(cs[u as int], cs[v2]) == d {
                        assert(cs[v2].0 == cu.0 + axial_offset(d as int).0);
                    }
                }
            }
        }
        d = d + 1;
    }
}

/// A* from `cells[s]` to `cells[gl]` over the distinct cells `cells`.
fn search(cells: &Vec<Coord>, s: usize, gl: usize) -> (res: Option<Vec<Coord>>)
    requires
        no_dups(cells@),
        s < cells@.len(),
        gl < cells@.len(),
        s != gl,
    ensures
        match res {
            Some(p) => shortest_walk(p@, cells@.to_set(), cells@[s as int], cells@[gl as int]),
            None => !reachable(cells@.to_set(), cells@[s as int], cells@[gl as int]),
        },
{
    let ghost cs = cells@;
    let ghost t = cells@.to_set();
    let n = cells.len();
    let goal = cells[gl];
    let mut closed: Vec<bool> = Vec::new();
    let mut best: Vec<Option<usize>> = Vec::new();
    let mut parent: Vec<usize> = Vec::new();
    let mut i: usize = 0;
    while i < n
        invariant
            0 <= i <= n,
            n == cells@.len(),
            closed@ == Seq::new(i as nat, |j: int| false),
            best@ == Seq::new(i as nat, |j: int| None::<usize>),
            parent@.len() == i,
        decreases n - i,
    {
        closed.push(false);
        best.push(None);
        parent.push(s);
        i = i + 1;
    }
    best.set(s, Some(0));
    let h0 = hex_distance(cells[s].0, cells[s].1, goal.0, goal.1);
    let mut open: Vec<Entry> = vec![Entry { idx: s, g: 0, h: h0 as u64 }];
    let mut n_closed: usize = 0;
    proof {
        lemma_count_all_false(n as nat);
        assert(open@[0].idx == s);
    }
    while open.len() > 0
        invariant
            n == cells@.len(),
            cs == cells@,
            t == cs.to_set(),
            goal == cs[gl as int],
            search_inv(cs, s as int, gl as int, closed@, best@, parent@, open@, n_closed as int, -1, 0),
        decreases 7 * (n - n_closed) + open@.len(),
    {
        proof {
            lemma_count_bounds(closed@);
        }
        let m = pick_min(&open);
        let ghost old_open = open@;
        let e = open.remove(m);
        proof {
            assert(entry_ok(cs, gl as int, best@, old_open[m as int]));
            assert forall|v: int|
                0 <= v < n && !closed@[v] && v != e.idx && #[trigger] best@[v] is Some implies exists|k: int|
                    0 <= k < open@.len() && (#[trigger] open@[k]).idx == v && open@[k].g == best@[v]->0 by {
                let k = choose|k: int|
                    0 <= k < old_open.len() && (#[trigger] old_open[k]).idx == v && old_open[k].g == best@[v]->0;
                if k < m {
                    assert(open@[k] == old_open[k]);
                } else {
                    assert(open@[k - 1] == old_open[k]);
                }
            }
            assert forall|k: int| 0 <= k < open@.len() implies entry_ok(cs, gl as int, best@, #[trigger] open@[k]) by {
                if k < m {
                    assert(open@[k] == old_open[k]);
                } else {
                    assert(open@[k] == old_open[k + 1]);
                }
            }
        }
        if closed[e.idx] {
            continue;
        }
        let u = e.idx;
        proof {
            assert forall|w: Seq<Coord>| #[trigger] walk_between(w, t, cs[s as int], cs[u as int]) implies best@[u as int]->0 + 1 <= w.len() by {
                assert forall|i: int| 0 <= i < cs.len() && cs[i] == w.last() implies !closed@[i] by {
                    assert(i == u);
                }
                let k = lemma_frontier_bound(cs, s as int, gl as int, closed@, best@, parent@, old_open, n_closed as int, w);
                assert(ent_f(old_open[m as int]) <= ent_f(old_open[k]));
            }
            lemma_count_set(closed@, u as int);
            lemma_count_bounds(closed@.update(u as int, true));
        }
        let ghost closed_before = closed@;
        closed.set(u, true);
        n_closed = n_closed + 1;
        if u == gl {
            let path = reconstruct(cells, s, gl, &best, &parent);
            proof {
                assert forall|w: Seq<Coord>| #[trigger] walk_between(w, t, cs[s as int], cs[gl as int]) implies path@.len() <= w.len() by {
                    assert(closed_before[u as int] == false);
                }
            }
            return Some(path);
        }
        proof {
            assert forall|i: int, w: Seq<Coord>|
                0 <= i < n && #[trigger] closed@[i] && #[trigger] walk_between(w, t, cs[s as int], cs[i])
                    implies best@[i]->0 + 1 <= w.len() by {
                if i != u {
                    assert(closed_before[i]);
                }
            }
            assert forall|i: int| 0 <= i < n && i != s && #[trigger] best@[i] is Some implies parent_ok(cs, closed@, best@, parent@, i) by {
                assert(parent_ok(cs, closed_before, best@, parent@, i));
            }
            assert forall|v: int|
                0 <= v < n && !closed@[v] && #[trigger] best@[v] is Some implies exists|k: int|
                    0 <= k < open@.len() && (#[trigger] open@[k]).idx == v && open@[k].g == best@[v]->0 by {
                assert(v != u);
            }
            assert(search_inv(cs, s as int, gl as int, closed@, best@, parent@, open@, n_closed as int, u as int, 0));
        }
        let bu: usize = match best[u] {
            Some(b) => b,
            None => 0,
        };
        relax_neighbors(cells, goal, u, bu, &closed, &mut best, &mut parent, &mut open, Ghost(s as int), Ghost(gl as int), n_closed);
        proof {
            assert forall|c: int, v: int|
                0 <= c < n && 0 <= v < n && c != -1 && #[trigger] closed@[c] && !closed@[v]
                    && #[trigger] adjacent(cs[c], cs[v]) implies best@[v] is Some && best@[v]->0 <= best@[c]->0 + 1 by {
                if c == u {
                    assert(dir_index(cs[u as int], cs[v]) < 6);
                }
            }
        }
    }
    proof {
        assert forall|w: Seq<Coord>| !#[trigger] walk_between(w, t, cs[s as int], cs[gl as int]) by {
            if walk_between(w, t, cs[s as int], cs[gl as int]) {
                assert forall|i: int| 0 <= i < cs.len() && cs[i] == w.last() implies !closed@[i] by {
                    assert(i == gl);
                }
                let k = lemma_frontier_bound(cs, s as int, gl as int, closed@, best@, parent@, open@, n_closed as int, w);
            }
        }
    }
    None
}

// ---------------------------------------------------------------------------------------------
// Public pathfinding
/// A shortest walk over `terrain` from `(start_q, start_r)` to `(goal_q, goal_r)`, both ends
/// included; `None` when there is none (in particular when either end is not on the terrain).
pub fn hex_astar(
    start_q: i32,
    start_r: i32,
    goal_q: i32,
    goal_r: i32,
    terrain: &Vec<Coord>,
) -> (res: Option<Vec<Coord>>)
    ensures
        match res {
            Some(p) => shortest_walk(p@, terrain@.to_set(), (start_q, start_r), (goal_q, goal_r)),
            None => !reachable(terrain@.to_set(), (start_q, start_r), (goal_q, goal_r)),
        },
{
    let ghost t = terrain@.to_set();
    let cells = dedup_cells(terrain);
    let s = match index_of(&cells, (start_q, start_r)) {
        Some(i) => i,
        None => {
            proof {
                assert forall|w: Seq<Coord>| !#[trigger] walk_between(w, t, (start_q, start_r), (goal_q, goal_r)) by {
                    if walk_between(w, t, (start_q, start_r), (goal_q, goal_r)) {
                        assert(t.contains(w[0]));
                        assert(cells@.to_set().contains(w[0]));
                    }
                }
            }
            return None;
        },
    };
    let g = match index_of(&cells, (goal_q, goal_r)) {
        Some(i) => i,
        None => {
            proof {
                assert forall|w: Seq<Coord>| !#[trigger] walk_between(w, t, (start_q, start_r), (goal_q, goal_r)) by {
                    if walk_between(w, t, (start_q, start_r), (goal_q, goal_r)) {
                        assert(t.contains(w[w.len() - 1]));
                        assert(cells@.to_set().contains(w[w.len() - 1]));
                    }
                }
            }
            return None;
        },
    };
    if s == g {
        let p = vec![(start_q, start_r)];
        proof {
            assert(cells@.contains(cells@[s as int]));
            assert(walk_between(p@, t, (start_q, start_r), (goal_q, goal_r)));
        }
        return Some(p);
    }
    search(&cells, s, g)
}

/// The number of steps of a shortest walk over `terrain` between the two cells, or `None` when
/// no walk joins them.
pub fn hex_astar_path(
    start_q: i32,
    start_r: i32,
    goal_q: i32,
    goal_r: i32,
    terrain: &Vec<Coord>,
) -> (res: Option<usize>)
    ensures
        match res {
            Some(d) => exists|p: Seq<Coord>|
                #[trigger] shortest_walk(p, terrain@.to_set(), (start_q, start_r), (goal_q, goal_r))
                    && p.len() == d + 1,
            None => !reachable(terrain@.to_set(), (start_q, start_r), (goal_q, goal_r)),
        },
{
    match hex_astar(start_q, start_r, goal_q, goal_r, terrain) {
        Some(p) => {
            let d = p.len() - 1;
            proof {
                assert(shortest_walk(p@, terrain@.to_set(), (start_q, start_r), (goal_q, goal_r)));
            }
            Some(d)
        },
        None => None,
    }
}

/// The cells of a shortest walk between two road cells, without the start; `None` when no walk
/// joins them or the two cells are the same.
pub fn build_path_between_roads(
    start_q: i32,
    start_r: i32,
    end_q: i32,
    end_r: i32,
    terrain: &Vec<Coord>,
) -> (res: Option<Vec<Coord>>)
    ensures
        match res {
            Some(p) => exists|w: Seq<Coord>|
                #[trigger] shortest_walk(w, terrain@.to_set(), (start_q, start_r), (end_q, end_r))
                    && w.len() >= 2 && p@ == w.drop_first(),
            None => !reachable(terrain@.to_set(), (start_q, start_r), (end_q, end_r)) || (start_q
                == end_q && start_r == end_r),
        },
{
    match hex_astar(start_q, start_r, end_q, end_r, terrain) {
        Some(p) => {
            if p.len() < 2 {
                proof {
                    assert(p@[0] == p@.last());
                }
                return None;
            }
            let mut rest: Vec<Coord> = Vec::new();
            let mut i: usize = 1;
            while i < p.len()
                invariant
                    1 <= i <= p@.len(),
                    rest@ == p@.subrange(1, i as int),
                decreases p@.len() - i,
            {
                rest.push(p[i]);
                proof {
                    assert(rest@ =~= p@.subrange(1, i + 1));
                }
                i = i + 1;
            }
            proof {
                assert(rest@ =~= p@.drop_first());
                assert(shortest_walk(p@, terrain@.to_set(), (start_q, start_r), (end_q, end_r)));
            }
            Some(rest)
        },
        None => None,
    }
}

/// With either end off the terrain there is no walk; from a terrain cell to itself the shortest
/// walk is that cell alone; a shortest walk has one cell more than its number of steps.
pub proof fn lemma_pathfinder_cases(t: Set<Coord>, a: Coord, b: Coord, p: Seq<Coord>)
    ensures
        !t.contains(a) || !t.contains(b) ==> !reachable(t, a, b),
        t.contains(a) ==> shortest_walk(seq![a], t, a, a),
        shortest_walk(p, t, a, a) ==> p == seq![a],
{
    if !t.contains(a) || !t.contains(b) {
        assert forall|w: Seq<Coord>| !#[trigger] walk_between(w, t, a, b) by {
            if walk_between(w, t, a, b) {
                assert(t.contains(w[0]));
                assert(t.contains(w[w.len() - 1]));
            }
        }
    }
    if t.contains(a) {
        assert(walk_between(seq![a], t, a, a));
    }
    if shortest_walk(p, t, a, a) {
        assert(walk_between(seq![a], t, a, a)) by {
            assert(t.contains(p[0]));
        }
        assert(p =~= seq![a]);
    }
}

// ---------------------------------------------------------------------------------------------
// Facts about walks
/// A walk stays a walk over any larger set of cells.
pub proof fn lemma_walk_mono(p: Seq<Coord>, t: Set<Coord>, t2: Set<Coord>)
    requires
        is_walk(p, t),
        t.subset_of(t2),
    ensures
        is_walk(p, t2),
{
    assert forall|i: int| 0 <= i < p.len() implies t2.contains(#[trigger] p[i]) by {
        assert(t.contains(p[i]));
    }
}

/// A walk read backwards is a walk.
pub proof fn lemma_walk_reverse(p: Seq<Coord>, t: Set<Coord>) -> (r: Seq<Coord>)
    requires
        is_walk(p, t),
    ensures
        is_walk(r, t),
        r.len() == p.len(),
        r[0] == p.last(),
        r.last() == p[0],
{
    let n = p.len();
    let r = Seq::new(n, |i: int| p[n - 1 - i]);
    assert forall|i: int| 0 <= i < r.len() implies t.contains(#[trigger] r[i]) by {
        assert(t.contains(p[n - 1 - i]));
    }
    assert forall|i: int| 0 <= i < r.len() - 1 implies adjacent(#[trigger] r[i], r[i + 1]) by {
        assert(adjacent(p[n - 2 - i], p[(n - 2 - i) + 1]));
        crate::hex::lemma_adjacent_dist(p[n - 2 - i], p[n - 1 - i]);
    }
    r
}

/// Two walks that meet end to start join into one walk.
pub proof fn lemma_walk_concat(p: Seq<Coord>, q: Seq<Coord>, t: Set<Coord>) -> (r: Seq<Coord>)
    requires
        is_walk(p, t),
        is_walk(q, t),
        p.last() == q[0],
    ensures
        is_walk(r, t),
        r[0] == p[0],
        r.last() == q.last(),
        r == p + q.drop_first(),
{
    let r = p + q.drop_first();
    assert forall|i: int| 0 <= i < r.len() implies t.contains(#[trigger] r[i]) by {
        if i < p.len() {
            assert(r[i] == p[i]);
        } else {
            assert(r[i] == q[i - p.len() + 1]);
        }
    }
    assert forall|i: int| 0 <= i < r.len() - 1 implies adjacent(#[trigger] r[i], r[i + 1]) by {
        if i < p.len() - 1 {
            assert(r[i] == p[i]);
            assert(r[i + 1] == p[i + 1]);
        } else if i == p.len() - 1 {
            assert(r[i] == q[0]);
            assert(r[i + 1] == q[1]);
        } else {
            assert(r[i] == q[i - p.len() + 1]);
            assert(r[i + 1] == q[i - p.len() + 2]);
        }
    }
    if q.len() == 1 {
        assert(r.last() == p.last());
    } else {
        assert(r.last() == q[q.len() - 1]);
    }
    r
}

/// Reachability is symmetric.
pub proof fn lemma_reachable_symmetric(t: Set<Coord>, a: Coord, b: Coord)
    requires
        reachable(t, a, b),
    ensures
        reachable(t, b, a),
{
    let p = choose|p: Seq<Coord>| #[trigger] walk_between(p, t, a, b);
    let r = lemma_walk_reverse(p, t);
    assert(walk_between(r, t, b, a));
}

/// Reachability is transitive.
pub proof fn lemma_reachable_transitive(t: Set<Coord>, a: Coord, b: Coord, c: Coord)
    requires
        reachable(t, a, b),
        reachable(t, b, c),
    ensures
        reachable(t, a, c),
{
    let p = choose|p: Seq<Coord>| #[trigger] walk_between(p, t, a, b);
    let q = choose|q: Seq<Coord>| #[trigger] walk_between(q, t, b, c);
    let r = lemma_walk_concat(p, q, t);
    assert(walk_between(r, t, a, c));
}

/// Reachability over a set carries over to any larger set.
pub proof fn lemma_reachable_mono(t: Set<Coord>, t2: Set<Coord>, a: Coord, b: Coord)
    requires
        reachable(t, a, b),
        t.subset_of(t2),
    ensures
        reachable(t2, a, b),
{
    let p = choose|p: Seq<Coord>| #[trigger] walk_between(p, t, a, b);
    lemma_walk_mono(p, t, t2);
    assert(walk_between(p, t2, a, b));
}

/// Every traversable cell reaches itself.
pub proof fn lemma_reachable_refl(t: Set<Coord>, a: Coord)
    requires
        t.contains(a),
    ensures
        reachable(t, a, a),
{
    assert(walk_between(seq![a], t, a, a));
}

/// All shortest walks between two cells have the same number of cells, so the step count of
/// one is the cell count of any other, less one.
pub proof fn lemma_shortest_walks_agree(t: Set<Coord>, a: Coord, b: Coord, p: Seq<Coord>, w: Seq<Coord>)
    requires
        shortest_walk(p, t, a, b),
        shortest_walk(w, t, a, b),
    ensures
        p.len() == w.len(),
{
    assert(walk_between(w, t, a, b));
    assert(walk_between(p, t, a, b));
}

} // verus!
