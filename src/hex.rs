use vstd::prelude::*;
use vstd::arithmetic::div_mod::lemma_fundamental_div_mod_converse;

verus! {

/// An axial hex coordinate `(q, r)`.
pub type Coord = (i32, i32);

pub open spec fn abs(x: int) -> int {
    if x < 0 {
        -x
    } else {
        x
    }
}

pub open spec fn max3(a: int, b: int, c: int) -> int {
    if a >= b && a >= c {
        a
    } else if b >= c {
        b
    } else {
        c
    }
}

/// Hex distance between two axial cells: `(|dq| + |dr| + |ds|) / 2` with `s = -q - r`.
pub open spec fn dist(a: Coord, b: Coord) -> int {
    let sa = -a.0 - a.1;
    let sb = -b.0 - b.1;
    (abs(a.0 - b.0) + abs(a.1 - b.1) + abs(sa - sb)) / 2
}

/// The six axial neighbour offsets, in the order in which neighbours are listed.
pub open spec fn axial_offset(d: int) -> (int, int) {
    if d == 0 {
        (1, 0)
    } else if d == 1 {
        (-1, 0)
    } else if d == 2 {
        (0, 1)
    } else if d == 3 {
        (0, -1)
    } else if d == 4 {
        (1, -1)
    } else {
        (-1, 1)
    }
}

/// `b` is one of the six cells that share an edge with `a`.
pub open spec fn adjacent(a: Coord, b: Coord) -> bool {
    let dq = b.0 - a.0;
    let dr = b.1 - a.1;
    (dq == 1 && dr == 0) || (dq == -1 && dr == 0) || (dq == 0 && dr == 1) || (dq == 0 && dr
        == -1) || (dq == 1 && dr == -1) || (dq == -1 && dr == 1)
}

/// Lexicographic order on `(q, r)`.
pub open spec fn coord_lt(a: Coord, b: Coord) -> bool {
    a.0 < b.0 || (a.0 == b.0 && a.1 < b.1)
}

pub open spec fn strictly_sorted(s: Seq<Coord>) -> bool {
    forall|i: int, j: int| 0 <= i < j < s.len() ==> coord_lt(#[trigger] s[i], #[trigger] s[j])
}

/// A cube coordinate; a valid one has `q + r + s == 0` and axial part within `i32`.
#[derive(Clone, Copy, Debug, PartialEq, Eq, Structural)]
pub struct CubeCoord {
    pub q: i64,
    pub r: i64,
    pub s: i64,
}

impl CubeCoord {
    pub open spec fn wf(self) -> bool {
        &&& self.q + self.r + self.s == 0
        &&& i32::MIN <= self.q <= i32::MAX
        &&& i32::MIN <= self.r <= i32::MAX
    }

    pub open spec fn axial(self) -> Coord {
        (self.q as i32, self.r as i32)
    }
}

pub open spec fn cube_of(c: Coord) -> CubeCoord {
    CubeCoord { q: c.0 as i64, r: c.1 as i64, s: (-c.0 - c.1) as i64 }
}

/// Cube distance: `max(|dq|, |dr|, |ds|)`.
pub open spec fn cube_dist(a: CubeCoord, b: CubeCoord) -> int {
    max3(abs(a.q - b.q), abs(a.r - b.r), abs(a.s - b.s))
}

/// Hex distance between two axial coordinates.
pub fn hex_distance(q1: i32, r1: i32, q2: i32, r2: i32) -> (d: i64)
    ensures
        d == dist((q1, r1), (q2, r2)),
        d >= 0,
{
    let s1: i64 = -(q1 as i64) - (r1 as i64);
    let s2: i64 = -(q2 as i64) - (r2 as i64);
    let dq: i64 = q1 as i64 - q2 as i64;
    let dr: i64 = r1 as i64 - r2 as i64;
    let ds: i64 = s1 - s2;
    let aq: i64 = if dq < 0 { -dq } else { dq };
    let ar: i64 = if dr < 0 { -dr } else { dr };
    let a_s: i64 = if ds < 0 { -ds } else { ds };
    (aq + ar + a_s) / 2
}

/// Converts an axial coordinate to its cube form.
pub fn axial_to_cube(q: i32, r: i32) -> (c: CubeCoord)
    ensures
        c == cube_of((q, r)),
        c.wf(),
{
    CubeCoord { q: q as i64, r: r as i64, s: -(q as i64) - (r as i64) }
}

/// Cube distance between two valid cube coordinates.
pub fn cube_distance(a: CubeCoord, b: CubeCoord) -> (d: i64)
    requires
        a.wf(),
        b.wf(),
    ensures
        d == cube_dist(a, b),
{
    let dq: i64 = a.q - b.q;
    let dr: i64 = a.r - b.r;
    let ds: i64 = a.s - b.s;
    let aq: i64 = if dq < 0 { -dq } else { dq };
    let ar: i64 = if dr < 0 { -dr } else { dr };
    let a_s: i64 = if ds < 0 { -ds } else { ds };
    if aq >= ar && aq >= a_s {
        aq
    } else if ar >= a_s {
        ar
    } else {
        a_s
    }
}

/// The neighbour of `(q, r)` in direction `d`, or `None` where it lies outside the `i32` range
/// (no such cell can be named, so none can be traversable).
pub fn neighbor(q: i32, r: i32, d: usize) -> (n: Option<Coord>)
    requires
        d < 6,
    ensures
        match n {
            Some(c) => c.0 == q + axial_offset(d as int).0 && c.1 == r + axial_offset(d as int).1,
            None => !(i32::MIN <= q + axial_offset(d as int).0 <= i32::MAX && i32::MIN <= r
                + axial_offset(d as int).1 <= i32::MAX),
        },
{
    let (dq, dr): (i32, i32) = if d == 0 {
        (1, 0)
    } else if d == 1 {
        (-1, 0)
    } else if d == 2 {
        (0, 1)
    } else if d == 3 {
        (0, -1)
    } else if d == 4 {
        (1, -1)
    } else {
        (-1, 1)
    };
    let nq = q.checked_add(dq);
    let nr = r.checked_add(dr);
    match (nq, nr) {
        (Some(a), Some(b)) => Some((a, b)),
        _ => None,
    }
}

/// All six neighbours of `(q, r)`, in the canonical order.
pub fn get_hex_neighbors(q: i32, r: i32) -> (v: Vec<Coord>)
    requires
        i32::MIN < q < i32::MAX,
        i32::MIN < r < i32::MAX,
    ensures
        v@.len() == 6,
        forall|d: int|
            0 <= d < 6 ==> (#[trigger] v@[d]).0 == q + axial_offset(d).0 && v@[d].1 == r
                + axial_offset(d).1,
{
    vec![(q + 1, r), (q - 1, r), (q, r + 1), (q, r - 1), (q + 1, r - 1), (q - 1, r + 1)]
}

// ---------------------------------------------------------------------------------------------
// Distance laws
/// The distance from a cell to itself is zero, and only to itself.
pub proof fn lemma_distance_zero(a: Coord, b: Coord)
    ensures
        dist(a, a) == 0,
        dist(a, b) == 0 <==> a == b,
        dist(a, b) >= 0,
{
}

/// Hex distance is symmetric and agrees with the cube distance of the cube forms.
pub proof fn lemma_distance_symmetric(a: Coord, b: Coord)
    ensures
        dist(a, b) == dist(b, a),
        dist(a, b) == cube_dist(cube_of(a), cube_of(b)),
{
}

/// Hex distance obeys the triangle inequality.
pub proof fn lemma_triangle(a: Coord, b: Coord, c: Coord)
    ensures
        dist(a, c) <= dist(a, b) + dist(b, c),
{
    lemma_distance_symmetric(a, c);
    lemma_distance_symmetric(a, b);
    lemma_distance_symmetric(b, c);
}

/// Adjacent cells are exactly the cells at distance one.
pub proof fn lemma_adjacent_dist(a: Coord, b: Coord)
    ensures
        adjacent(a, b) <==> dist(a, b) == 1,
        adjacent(a, b) <==> adjacent(b, a),
{
}

/// A step to an adjacent cell changes the distance to any target by at most one.
pub proof fn lemma_step_bound(a: Coord, b: Coord, goal: Coord)
    requires
        adjacent(a, b),
    ensures
        dist(a, goal) <= dist(b, goal) + 1,
{
    lemma_adjacent_dist(a, b);
    lemma_triangle(a, b, goal);
}

// ---------------------------------------------------------------------------------------------
// Rings
/// The cube direction `d` used to walk a ring.
pub open spec fn cube_dir(d: int) -> (int, int, int) {
    if d == 0 {
        (1, 0, -1)
    } else if d == 1 {
        (1, -1, 0)
    } else if d == 2 {
        (0, -1, 1)
    } else if d == 3 {
        (-1, 0, 1)
    } else if d == 4 {
        (-1, 1, 0)
    } else {
        (0, 1, -1)
    }
}

/// Offset from the centre of the `j`-th cell on side `side` of the ring of radius `k`: the walk
/// starts `k` steps away in direction 4 and follows directions 0 to 5, `k` steps each.
pub open spec fn ring_offset(k: int, side: int, j: int) -> (int, int, int) {
    if side == 0 {
        (-k + j, k, -j)
    } else if side == 1 {
        (j, k - j, -k)
    } else if side == 2 {
        (k, -j, -k + j)
    } else if side == 3 {
        (k - j, -k, j)
    } else if side == 4 {
        (-j, -k + j, k)
    } else {
        (-k, j, k - j)
    }
}

pub open spec fn cube_plus(c: CubeCoord, o: (int, int, int)) -> CubeCoord {
    CubeCoord { q: (c.q + o.0) as i64, r: (c.r + o.1) as i64, s: (c.s + o.2) as i64 }
}

/// The ring of radius `k` around `center`, in walking order.
pub open spec fn ring_spec(center: CubeCoord, k: int) -> Seq<CubeCoord> {
    if k == 0 {
        seq![center]
    } else {
        Seq::new((6 * k) as nat, |i: int| cube_plus(center, ring_offset(k, i / k, i % k)))
    }
}

/// Every cell within `k` of `center` has its axial part within `i32`.
pub open spec fn fits(center: CubeCoord, k: int) -> bool {
    &&& i32::MIN <= center.q - k
    &&& center.q + k <= i32::MAX
    &&& i32::MIN <= center.r - k
    &&& center.r + k <= i32::MAX
}

fn cube_add(a: CubeCoord, b: CubeCoord) -> (c: CubeCoord)
    requires
        i64::MIN <= a.q + b.q <= i64::MAX,
        i64::MIN <= a.r + b.r <= i64::MAX,
        i64::MIN <= a.s + b.s <= i64::MAX,
    ensures
        c == cube_plus(a, (b.q as int, b.r as int, b.s as int)),
{
    CubeCoord { q: a.q + b.q, r: a.r + b.r, s: a.s + b.s }
}

fn cube_direction(d: usize) -> (c: CubeCoord)
    requires
        d < 6,
    ensures
        (c.q as int, c.r as int, c.s as int) == cube_dir(d as int),
{
    if d == 0 {
        CubeCoord { q: 1, r: 0, s: -1 }
    } else if d == 1 {
        CubeCoord { q: 1, r: -1, s: 0 }
    } else if d == 2 {
        CubeCoord { q: 0, r: -1, s: 1 }
    } else if d == 3 {
        CubeCoord { q: -1, r: 0, s: 1 }
    } else if d == 4 {
        CubeCoord { q: -1, r: 1, s: 0 }
    } else {
        CubeCoord { q: 0, r: 1, s: -1 }
    }
}

fn cube_scale(c: CubeCoord, factor: i32) -> (res: CubeCoord)
    requires
        -1 <= c.q <= 1,
        -1 <= c.r <= 1,
        -1 <= c.s <= 1,
    ensures
        res.q == c.q * factor,
        res.r == c.r * factor,
        res.s == c.s * factor,
{
    assert(-(i32::MAX as int) - 1 <= c.q * factor <= i32::MAX + 1) by (nonlinear_arith)
        requires
            -1 <= c.q <= 1,
            i32::MIN <= factor <= i32::MAX,
    ;
    assert(-(i32::MAX as int) - 1 <= c.r * factor <= i32::MAX + 1) by (nonlinear_arith)
        requires
            -1 <= c.r <= 1,
            i32::MIN <= factor <= i32::MAX,
    ;
    assert(-(i32::MAX as int) - 1 <= c.s * factor <= i32::MAX + 1) by (nonlinear_arith)
        requires
            -1 <= c.s <= 1,
            i32::MIN <= factor <= i32::MAX,
    ;
    CubeCoord { q: c.q * factor as i64, r: c.r * factor as i64, s: c.s * factor as i64 }
}

/// The cells at exact distance `radius` from `center`, in the canonical walking order.
pub fn cube_ring(center: CubeCoord, radius: i32) -> (res: Vec<CubeCoord>)
    requires
        center.wf(),
        radius >= 0,
        fits(center, radius as int),
    ensures
        res@ == ring_spec(center, radius as int),
{
    if radius == 0 {
        return vec![center];
    }
    let ghost k = radius as int;
    let mut results: Vec<CubeCoord> = Vec::new();
    let mut current = cube_add(center, cube_scale(cube_direction(4), radius));
    let mut i: usize = 0;
    while i < 6
        invariant
            0 <= i <= 6,
            k == radius > 0,
            center.wf(),
            fits(center, k),
            results@.len() == i * k,
            i < 6 ==> current == cube_plus(center, ring_offset(k, i as int, 0)),
            forall|m: int|
                0 <= m < results@.len() ==> #[trigger] results@[m] == cube_plus(
                    center,
                    ring_offset(k, m / k, m % k),
                ),
        decreases 6 - i,
    {
        let mut j: i32 = 0;
        while j < radius
            invariant
                0 <= i < 6,
                0 <= j <= radius,
                k == radius > 0,
                center.wf(),
                fits(center, k),
                results@.len() == i * k + j,
                current == cube_plus(center, ring_offset(k, i as int, j as int)),
                forall|m: int|
                    0 <= m < results@.len() ==> #[trigger] results@[m] == cube_plus(
                        center,
                        ring_offset(k, m / k, m % k),
                    ),
            decreases radius - j,
        {
            proof {
                lemma_fundamental_div_mod_converse(i * k + j, k, i as int, j as int);
            }
            results.push(current);
            let dir = cube_direction(i);
            current = cube_add(current, dir);
            j = j + 1;
        }
        proof {
            assert((i + 1) * k == i * k + k) by (nonlinear_arith);
        }
        i = i + 1;
    }
    proof {
        assert(results@ =~= ring_spec(center, k));
    }
    results
}

/// The ring of radius zero is the centre alone; a ring of radius `k >= 1` has `6k` cells, each
/// at distance exactly `k` from the centre.
pub proof fn lemma_ring_shape(center: CubeCoord, k: int)
    requires
        center.wf(),
        k >= 0,
        fits(center, k),
    ensures
        ring_spec(center, 0) == seq![center],
        k >= 1 ==> ring_spec(center, k).len() == 6 * k,
        forall|i: int|
            0 <= i < ring_spec(center, k).len() ==> {
                let c = #[trigger] ring_spec(center, k)[i];
                &&& c.wf()
                &&& cube_dist(center, c) == k
                &&& dist(center.axial(), c.axial()) == k
            },
{
    assert forall|i: int| 0 <= i < ring_spec(center, k).len() implies {
        let c = #[trigger] ring_spec(center, k)[i];
        &&& c.wf()
        &&& cube_dist(center, c) == k
        &&& dist(center.axial(), c.axial()) == k
    } by {
        if k > 0 {
            let side = i / k;
            let j = i % k;
            assert(0 <= j < k) by {
                vstd::arithmetic::div_mod::lemma_mod_pos_bound(i, k);
            }
            assert(0 <= side < 6) by {
                vstd::arithmetic::div_mod::lemma_fundamental_div_mod(i, k);
                assert(0 <= side < 6) by (nonlinear_arith)
                    requires
                        i == k * side + j,
                        0 <= j < k,
                        0 <= i < 6 * k,
                ;
            }
        }
    }
}

/// Every cell at distance `k >= 1` from the centre lies on the ring of radius `k`.
pub proof fn lemma_ring_complete(center: CubeCoord, k: int, c: Coord) -> (i: int)
    requires
        center.wf(),
        k >= 1,
        fits(center, k),
        dist(center.axial(), c) == k,
    ensures
        0 <= i < ring_spec(center, k).len(),
        ring_spec(center, k)[i].axial() == c,
{
    let dq = c.0 - center.q;
    let dr = c.1 - center.r;
    let ds = -dq - dr;
    lemma_distance_symmetric(center.axial(), c);
    let (side, j) = if dr == k && dq < 0 {
        (0int, dq + k)
    } else if ds == -k && dr > 0 {
        (1int, dq)
    } else if dq == k && ds < 0 {
        (2int, -dr)
    } else if dr == -k && dq > 0 {
        (3int, ds)
    } else if ds == k && dr < 0 {
        (4int, -dq)
    } else {
        (5int, dr)
    };
    assert(0 <= j < k);
    assert(ring_offset(k, side, j).0 == dq && ring_offset(k, side, j).1 == dr);
    let i = side * k + j;
    assert(0 <= i < 6 * k) by (nonlinear_arith)
        requires
            0 <= side < 6,
            0 <= j < k,
            i == side * k + j,
    ;
    lemma_fundamental_div_mod_converse(i, k, side, j);
    i
}

// ---------------------------------------------------------------------------------------------
// Disks
/// `c` lies on one of the rings of radius `0..=max_layer` around `center`.
pub open spec fn in_disk(center: CubeCoord, max_layer: int, c: Coord) -> bool {
    exists|k: int, i: int|
        0 <= k <= max_layer && 0 <= i < ring_spec(center, k).len() && (#[trigger] ring_spec(
            center,
            k,
        )[i]).axial() == c
}

/// The disk of radius `max_layer` holds exactly the cells within that distance of the centre.
pub proof fn lemma_in_disk_iff(center: CubeCoord, max_layer: int, c: Coord)
    requires
        center.wf(),
        max_layer < 0 || fits(center, max_layer),
    ensures
        in_disk(center, max_layer, c) <==> dist(center.axial(), c) <= max_layer,
{
    if in_disk(center, max_layer, c) {
        let (k, i) = choose|k: int, i: int|
            0 <= k <= max_layer && 0 <= i < ring_spec(center, k).len() && (#[trigger] ring_spec(
                center,
                k,
            )[i]).axial() == c;
        lemma_ring_shape(center, k);
    }
    if dist(center.axial(), c) <= max_layer {
        let k = dist(center.axial(), c);
        lemma_distance_zero(center.axial(), c);
        if k == 0 {
            assert(ring_spec(center, 0)[0].axial() == c);
        } else {
            let i = lemma_ring_complete(center, k, c);
            assert(ring_spec(center, k)[i].axial() == c);
        }
    }
}

/// Inserts `c` into a strictly sorted list unless it is already there.
pub fn insert_sorted(v: &mut Vec<Coord>, c: Coord)
    requires
        strictly_sorted(old(v)@),
    ensures
        strictly_sorted(final(v)@),
        forall|x: Coord| final(v)@.contains(x) <==> (old(v)@.contains(x) || x == c),
{
    let mut p: usize = 0;
    while p < v.len() && (v[p].0 < c.0 || (v[p].0 == c.0 && v[p].1 < c.1))
        invariant
            0 <= p <= v@.len(),
            v@ == old(v)@,
            strictly_sorted(v@),
            forall|i: int| 0 <= i < p ==> coord_lt(#[trigger] v@[i], c),
        decreases v@.len() - p,
    {
        p = p + 1;
    }
    if p < v.len() && v[p].0 == c.0 && v[p].1 == c.1 {
        assert(v@[p as int] == c);
        return;
    }
    let ghost before = v@;
    v.insert(p, c);
    proof {
        assert forall|i: int, j: int| 0 <= i < j < v@.len() implies coord_lt(
            #[trigger] v@[i],
            #[trigger] v@[j],
        ) by {
            if j < p {
            } else if j == p {
            } else if i < p {
                assert(coord_lt(before[i], c));
                assert(coord_lt(c, before[p as int]));
            } else if i == p {
                assert(coord_lt(c, before[p as int]));
            } else {
            }
        }
        assert(before == old(v)@);
        assert forall|x: Coord| #[trigger] v@.contains(x) <==> (old(v)@.contains(x) || x == c) by {
            if before.contains(x) {
                let i = choose|i: int| 0 <= i < before.len() && before[i] == x;
                if i < p {
                    assert(v@[i] == x);
                } else {
                    assert(v@[i + 1] == x);
                }
            }
            if v@.contains(x) {
                let i = choose|i: int| 0 <= i < v@.len() && v@[i] == x;
                if i < p {
                    assert(before[i] == x);
                } else if i > p {
                    assert(before[i - 1] == x);
                }
            }
            if x == c {
                assert(v@[p as int] == c);
            }
        }
    }
}

/// All cells within `max_layer` rings of the centre, each once, sorted by `(q, r)`.
/// A negative `max_layer` gives no cells.
pub fn generate_hex_grid(max_layer: i32, center_q: i32, center_r: i32) -> (grid: Vec<Coord>)
    requires
        max_layer < 0 || fits(cube_of((center_q, center_r)), max_layer as int),
    ensures
        strictly_sorted(grid@),
        forall|c: Coord|
            grid@.contains(c) <==> in_disk(cube_of((center_q, center_r)), max_layer as int, c),
        forall|c: Coord| #[trigger] grid@.contains(c) <==> dist((center_q, center_r), c) <= max_layer,
{
    let grid = hex_grid_rings(max_layer, center_q, center_r);
    proof {
        assert forall|c: Coord| #[trigger] grid@.contains(c) <==> dist((center_q, center_r), c) <= max_layer by {
            lemma_in_disk_iff(cube_of((center_q, center_r)), max_layer as int, c);
        }
    }
    grid
}

/// The rings of radius `0..=max_layer` merged into one sorted list without repeats.
fn hex_grid_rings(max_layer: i32, center_q: i32, center_r: i32) -> (grid: Vec<Coord>)
    requires
        max_layer < 0 || fits(cube_of((center_q, center_r)), max_layer as int),
    ensures
        strictly_sorted(grid@),
        forall|c: Coord|
            grid@.contains(c) <==> in_disk(cube_of((center_q, center_r)), max_layer as int, c),
{
    let center = axial_to_cube(center_q, center_r);
    let mut grid: Vec<Coord> = Vec::new();
    if max_layer < 0 {
        return grid;
    }
    let mut layer: i64 = 0;
    while layer <= max_layer as i64
        invariant
            0 <= layer <= max_layer + 1,
            center == cube_of((center_q, center_r)),
            center.wf(),
            fits(center, max_layer as int),
            strictly_sorted(grid@),
            forall|c: Coord| grid@.contains(c) <==> in_disk(center, layer - 1, c),
        decreases max_layer + 1 - layer,
    {
        let ring = cube_ring(center, layer as i32);
        proof {
            lemma_ring_shape(center, layer as int);
        }
        let mut i: usize = 0;
        while i < ring.len()
            invariant
                0 <= layer <= max_layer,
                0 <= i <= ring@.len(),
                ring@ == ring_spec(center, layer as int),
                center.wf(),
                fits(center, max_layer as int),
                strictly_sorted(grid@),
                forall|m: int|
                    0 <= m < ring@.len() ==> (#[trigger] ring@[m]).wf() && i32::MIN <= ring@[m].q
                        <= i32::MAX && i32::MIN <= ring@[m].r <= i32::MAX,
                forall|c: Coord|
                    grid@.contains(c) <==> (in_disk(center, layer - 1, c) || exists|m: int|
                        0 <= m < i && (#[trigger] ring@[m]).axial() == c),
            decreases ring@.len() - i,
        {
            let cell = ring[i];
            insert_sorted(&mut grid, (cell.q as i32, cell.r as i32));
            proof {
                assert(ring@[i as int].axial() == (cell.q as i32, cell.r as i32));
                assert forall|c: Coord|
                    grid@.contains(c) <==> (in_disk(center, layer - 1, c) || exists|m: int|
                        0 <= m < i + 1 && (#[trigger] ring@[m]).axial() == c) by {
                    if exists|m: int| 0 <= m < i + 1 && (#[trigger] ring@[m]).axial() == c {
                        let m = choose|m: int| 0 <= m < i + 1 && (#[trigger] ring@[m]).axial() == c;
                        if m < i {
                        }
                    }
                }
            }
            i = i + 1;
        }
        proof {
            assert forall|c: Coord| grid@.contains(c) <==> in_disk(center, layer as int, c) by {
                if in_disk(center, layer as int, c) {
                    let (k, m) = choose|k: int, m: int|
                        0 <= k <= layer && 0 <= m < ring_spec(center, k).len() && (
                        #[trigger] ring_spec(center, k)[m]).axial() == c;
                    if k < layer {
                        assert(in_disk(center, layer - 1, c));
                    } else {
                        assert(ring@[m].axial() == c);
                    }
                }
                if in_disk(center, layer - 1, c) {
                    let (k, m) = choose|k: int, m: int|
                        0 <= k <= layer - 1 && 0 <= m < ring_spec(center, k).len() && (
                        #[trigger] ring_spec(center, k)[m]).axial() == c;
                    assert(0 <= k <= layer && 0 <= m < ring_spec(center, k).len() && ring_spec(
                        center,
                        k,
                    )[m].axial() == c);
                }
                if exists|m: int| 0 <= m < ring@.len() && (#[trigger] ring@[m]).axial() == c {
                    let m = choose|m: int| 0 <= m < ring@.len() && (#[trigger] ring@[m]).axial() == c;
                    assert(ring_spec(center, layer as int)[m].axial() == c);
                }
            }
        }
        layer = layer + 1;
    }
    grid
}

} // verus!
