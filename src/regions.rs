use vstd::prelude::*;
use crate::hex::{Coord, dist, fits, cube_of, strictly_sorted, generate_hex_grid, hex_distance};
use crate::tile::TileType;

verus! {

/// An anchor of a region: a cell and the classification that spreads from it.
#[derive(Clone, Copy, Debug, PartialEq, Eq, Structural)]
pub struct VoronoiSeed {
    pub q: i32,
    pub r: i32,
    pub tile_type: TileType,
}

/// One classified cell of the output.
#[derive(Clone, Copy, Debug, PartialEq, Eq, Structural)]
pub struct RegionCell {
    pub q: i32,
    pub r: i32,
    pub tile_type: TileType,
}

pub open spec fn clamp0(x: int) -> int {
    if x > 0 {
        x
    } else {
        0
    }
}

/// The disk index chosen for the `i`-th seed of a kind when `counter` seeds have been placed
/// so far including this one.
pub open spec fn seed_index(counter: int, i: int, n: int) -> int {
    (counter * 7919 + i * 997) % n
}

/// `count` seeds of kind `tile`, numbered on from `before` seeds already placed.
pub open spec fn seed_block(disk: Seq<Coord>, before: int, count: int, tile: TileType) -> Seq<
    VoronoiSeed,
> {
    Seq::new(
        clamp0(count) as nat,
        |i: int|
            {
                let c = disk[seed_index(before + i + 1, i, disk.len() as int)];
                VoronoiSeed { q: c.0, r: c.1, tile_type: tile }
            },
    )
}

/// The seeds for a non-empty disk: forest, then water, then grass; one grass seed on the first
/// cell when no count is positive.
pub open spec fn seeds_spec(disk: Seq<Coord>, forest: int, water: int, grass: int) -> Seq<
    VoronoiSeed,
> {
    let f = clamp0(forest);
    let w = clamp0(water);
    let raw = seed_block(disk, 0, forest, TileType::Forest) + seed_block(
        disk,
        f,
        water,
        TileType::Water,
    ) + seed_block(disk, f + w, grass, TileType::Grass);
    if raw.len() == 0 {
        seq![VoronoiSeed { q: disk[0].0, r: disk[0].1, tile_type: TileType::Grass }]
    } else {
        raw
    }
}

pub open spec fn seed_dist(s: VoronoiSeed, c: Coord) -> int {
    dist(c, (s.q, s.r))
}

/// Seed `i` is nearest to `c`, and no earlier seed is as near.
pub open spec fn is_first_nearest(seeds: Seq<VoronoiSeed>, c: Coord, i: int) -> bool {
    &&& 0 <= i < seeds.len()
    &&& forall|j: int| 0 <= j < seeds.len() ==> seed_dist(seeds[i], c) <= seed_dist(#[trigger] seeds[j], c)
    &&& forall|j: int| 0 <= j < i ==> seed_dist(#[trigger] seeds[j], c) > seed_dist(seeds[i], c)
}

/// `res` lists the cells of `disk` in order, each with the classification of its first nearest
/// seed.
pub open spec fn classified(disk: Seq<Coord>, seeds: Seq<VoronoiSeed>, res: Seq<RegionCell>) -> bool {
    &&& res.len() == disk.len()
    &&& forall|k: int|
        0 <= k < disk.len() ==> {
            &&& (#[trigger] res[k]).q == disk[k].0
            &&& res[k].r == disk[k].1
            &&& exists|i: int| is_first_nearest(seeds, disk[k], i) && res[k].tile_type == seeds[i].tile_type
        }
}

/// The region assignment of `disk` for the given seed counts; an empty disk gives the single
/// default cell `(0, 0)` as grass.
pub open spec fn regions_of(disk: Seq<Coord>, forest: int, water: int, grass: int, res: Seq<RegionCell>) -> bool {
    if disk.len() == 0 {
        res == seq![RegionCell { q: 0, r: 0, tile_type: TileType::Grass }]
    } else {
        classified(disk, seeds_spec(disk, forest, water, grass), res)
    }
}

/// Appends `count` seeds of kind `tile` after `before` seeds.
fn push_seed_block(
    disk: &Vec<Coord>,
    seeds: &mut Vec<VoronoiSeed>,
    before: u64,
    count: i32,
    tile: TileType,
) -> (placed: u64)
    requires
        disk@.len() > 0,
        before <= 2 * (i32::MAX as int),
    ensures
        final(seeds)@ == old(seeds)@ + seed_block(disk@, before as int, count as int, tile),
        placed == clamp0(count as int),
{
    let n_us: usize = disk.len();
    let n = n_us as u64;
    let total: u64 = if count > 0 {
        count as u64
    } else {
        0
    };
    let ghost start = seeds@;
    let mut i: u64 = 0;
    while i < total
        invariant
            0 <= i <= total,
            total == clamp0(count as int),
            total <= i32::MAX,
            n == disk@.len() > 0,
            n_us == n,
            before <= 2 * (i32::MAX as int),
            seeds@ == start + seed_block(disk@, before as int, count as int, tile).take(i as int),
        decreases total - i,
    {
        let counter: u64 = before + i + 1;
        assert(counter * 7919 <= 3 * (i32::MAX as int) * 7919) by (nonlinear_arith)
            requires
                counter <= 3 * (i32::MAX as int),
        ;
        assert(i * 997 <= (i32::MAX as int) * 997) by (nonlinear_arith)
            requires
                i <= i32::MAX as int,
        ;
        let index = (counter * 7919 + i * 997) % n;
        assert(index == seed_index(before + i + 1, i as int, n as int));
        let idx: usize = index as usize;
        assert(idx == index);
        let c = disk[idx];
        seeds.push(VoronoiSeed { q: c.0, r: c.1, tile_type: tile });
        proof {
            assert(seeds@ =~= start + seed_block(disk@, before as int, count as int, tile).take(i + 1));
        }
        i = i + 1;
    }
    proof {
        assert(seed_block(disk@, before as int, count as int, tile).take(i as int) =~= seed_block(
            disk@,
            before as int,
            count as int,
            tile,
        ));
    }
    total
}

/// The seeds of a non-empty disk for the given counts (negative counts count as zero).
pub fn generate_seeds(disk: &Vec<Coord>, forest_seeds: i32, water_seeds: i32, grass_seeds: i32) -> (seeds: Vec<VoronoiSeed>)
    requires
        disk@.len() > 0,
    ensures
        seeds@ == seeds_spec(disk@, forest_seeds as int, water_seeds as int, grass_seeds as int),
{
    let mut seeds: Vec<VoronoiSeed> = Vec::new();
    let f = push_seed_block(disk, &mut seeds, 0, forest_seeds, TileType::Forest);
    let w = push_seed_block(disk, &mut seeds, f, water_seeds, TileType::Water);
    let _g = push_seed_block(disk, &mut seeds, f + w, grass_seeds, TileType::Grass);
    proof {
        assert(seeds@ =~= seed_block(disk@, 0, forest_seeds as int, TileType::Forest) + seed_block(
            disk@,
            clamp0(forest_seeds as int),
            water_seeds as int,
            TileType::Water,
        ) + seed_block(
            disk@,
            clamp0(forest_seeds as int) + clamp0(water_seeds as int),
            grass_seeds as int,
            TileType::Grass,
        ));
    }
    if seeds.len() == 0 {
        seeds.push(VoronoiSeed { q: disk[0].0, r: disk[0].1, tile_type: TileType::Grass });
        proof {
            assert(seeds@ =~= seq![VoronoiSeed { q: disk@[0].0, r: disk@[0].1, tile_type: TileType::Grass }]);
        }
    }
    seeds
}

/// Index of the first seed nearest to `(q, r)`.
pub fn nearest_seed(seeds: &Vec<VoronoiSeed>, q: i32, r: i32) -> (i: usize)
    requires
        seeds@.len() > 0,
    ensures
        is_first_nearest(seeds@, (q, r), i as int),
{
    let mut bi: usize = 0;
    let mut bd = hex_distance(q, r, seeds[0].q, seeds[0].r);
    let mut j: usize = 1;
    while j < seeds.len()
        invariant
            0 <= bi < j <= seeds@.len(),
            bd == seed_dist(seeds@[bi as int], (q, r)),
            forall|k: int| 0 <= k < j ==> bd <= seed_dist(#[trigger] seeds@[k], (q, r)),
            forall|k: int| 0 <= k < bi ==> seed_dist(#[trigger] seeds@[k], (q, r)) > bd,
        decreases seeds@.len() - j,
    {
        let dj = hex_distance(q, r, seeds[j].q, seeds[j].r);
        if dj < bd {
            bi = j;
            bd = dj;
        }
        j = j + 1;
    }
    bi
}

/// Classifies every cell of `disk` by its first nearest seed; an empty disk gives the single
/// default grass cell at `(0, 0)`.
pub fn assign_regions(disk: &Vec<Coord>, forest_seeds: i32, water_seeds: i32, grass_seeds: i32) -> (res: Vec<RegionCell>)
    ensures
        regions_of(disk@, forest_seeds as int, water_seeds as int, grass_seeds as int, res@),
{
    if disk.len() == 0 {
        let mut only: Vec<RegionCell> = Vec::new();
        only.push(RegionCell { q: 0, r: 0, tile_type: TileType::Grass });
        proof {
            assert(only@ =~= seq![RegionCell { q: 0, r: 0, tile_type: TileType::Grass }]);
        }
        return only;
    }
    let seeds = generate_seeds(disk, forest_seeds, water_seeds, grass_seeds);
    let ghost sd = seeds_spec(disk@, forest_seeds as int, water_seeds as int, grass_seeds as int);
    proof {
        assert(sd.len() > 0);
    }
    let mut res: Vec<RegionCell> = Vec::new();
    let mut k: usize = 0;
    while k < disk.len()
        invariant
            0 <= k <= disk@.len(),
            seeds@ == sd,
            sd.len() > 0,
            res@.len() == k,
            forall|m: int|
                0 <= m < k ==> {
                    &&& (#[trigger] res@[m]).q == disk@[m].0
                    &&& res@[m].r == disk@[m].1
                    &&& exists|i: int| is_first_nearest(sd, disk@[m], i) && res@[m].tile_type == sd[i].tile_type
                },
        decreases disk@.len() - k,
    {
        let c = disk[k];
        let i = nearest_seed(&seeds, c.0, c.1);
        res.push(RegionCell { q: c.0, r: c.1, tile_type: seeds[i].tile_type });
        proof {
            assert(res@[k as int].tile_type == sd[i as int].tile_type);
        }
        k = k + 1;
    }
    res
}

/// Voronoi regions over the disk of `max_layer` rings around `(center_q, center_r)`: every cell
/// within that distance, sorted by `(q, r)`, with the classification of its first nearest seed.
/// Never empty.
pub fn generate_voronoi_regions(
    max_layer: i32,
    center_q: i32,
    center_r: i32,
    forest_seeds: i32,
    water_seeds: i32,
    grass_seeds: i32,
) -> (res: Vec<RegionCell>)
    requires
        max_layer < 0 || fits(cube_of((center_q, center_r)), max_layer as int),
    ensures
        res@.len() > 0,
        exists|disk: Seq<Coord>|
            {
                &&& strictly_sorted(disk)
                &&& forall|c: Coord| #[trigger] disk.contains(c) <==> dist((center_q, center_r), c) <= max_layer
                &&& regions_of(disk, forest_seeds as int, water_seeds as int, grass_seeds as int, res@)
            },
{
    let disk = generate_hex_grid(max_layer, center_q, center_r);
    let res = assign_regions(&disk, forest_seeds, water_seeds, grass_seeds);
    proof {
        assert(disk@.len() > 0 ==> res@.len() > 0);
    }
    res
}

} // verus!
