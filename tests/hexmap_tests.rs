use hexmap::connectivity::validate_road_connectivity;
use hexmap::grid::{
    clear_layout, clear_pre_constraints, generate_layout, get_stats, get_tile_at, get_wasm_version,
    set_pre_constraint, GridState, TileMap,
};
use hexmap::hex::{
    axial_to_cube, cube_distance, cube_ring, generate_hex_grid, get_hex_neighbors, hex_distance,
    insert_sorted, neighbor, CubeCoord,
};
use hexmap::pathfind::{build_path_between_roads, hex_astar, hex_astar_path};
use hexmap::regions::{assign_regions, generate_seeds, generate_voronoi_regions, nearest_seed, RegionCell, VoronoiSeed};
use hexmap::roads::{find_nearest_in_set, generate_road_network_growing_tree};
use hexmap::tile::TileType;
use hexmap::wire::{encode_coord_list, encode_region_list, parse_valid_terrain_json};
use std::collections::{HashSet, VecDeque};

type Coord = (i32, i32);

fn cell(q: i32, r: i32, tile_type: TileType) -> RegionCell {
    RegionCell { q, r, tile_type }
}

/// Breadth-first shortest step count over `terrain`, for cross-checking the pathfinder.
fn bfs_steps(start: Coord, goal: Coord, terrain: &[Coord]) -> Option<usize> {
    let set: HashSet<Coord> = terrain.iter().copied().collect();
    if !set.contains(&start) || !set.contains(&goal) {
        return None;
    }
    let mut seen: HashSet<Coord> = HashSet::new();
    let mut queue: VecDeque<(Coord, usize)> = VecDeque::new();
    seen.insert(start);
    queue.push_back((start, 0));
    while let Some((c, d)) = queue.pop_front() {
        if c == goal {
            return Some(d);
        }
        for (dq, dr) in [(1, 0), (-1, 0), (0, 1), (0, -1), (1, -1), (-1, 1)] {
            let n = (c.0 + dq, c.1 + dr);
            if set.contains(&n) && seen.insert(n) {
                queue.push_back((n, d + 1));
            }
        }
    }
    None
}

fn is_adjacent(a: Coord, b: Coord) -> bool {
    let d = (b.0 - a.0, b.1 - a.1);
    [(1, 0), (-1, 0), (0, 1), (0, -1), (1, -1), (-1, 1)].contains(&d)
}

fn disk(radius: i32) -> Vec<Coord> {
    generate_hex_grid(radius, 0, 0)
}

// ---------------------------------------------------------------------------------------------
// Coordinates

#[test]
fn hex_distance_to_self_is_zero() {
    for &(q, r) in &[(0, 0), (3, -7), (-12, 5), (i32::MAX, i32::MIN), (i32::MIN, i32::MIN)] {
        assert_eq!(hex_distance(q, r, q, r), 0);
    }
}

#[test]
fn hex_distance_is_symmetric_and_matches_cube_distance() {
    let pairs = [((0, 0), (2, -1)), ((0, 0), (3, 3)), ((-4, 2), (5, -6)), ((1, 1), (1, -3))];
    for &((q1, r1), (q2, r2)) in &pairs {
        let d = hex_distance(q1, r1, q2, r2);
        assert_eq!(d, hex_distance(q2, r2, q1, r1));
        assert_eq!(d, cube_distance(axial_to_cube(q1, r1), axial_to_cube(q2, r2)));
    }
    assert_eq!(hex_distance(0, 0, 2, -1), 2);
    assert_eq!(hex_distance(0, 0, 3, 3), 6);
    assert_eq!(hex_distance(-4, 2, 5, -6), 9);
}

#[test]
fn hex_distance_at_extremes() {
    assert_eq!(hex_distance(i32::MIN, 0, i32::MAX, 0), u32::MAX as i64);
}

#[test]
fn adjacent_cells_are_at_distance_one() {
    for n in get_hex_neighbors(4, -2) {
        assert_eq!(hex_distance(4, -2, n.0, n.1), 1);
    }
}

#[test]
fn axial_to_cube_sums_to_zero() {
    let c = axial_to_cube(3, -5);
    assert_eq!(c, CubeCoord { q: 3, r: -5, s: 2 });
    assert_eq!(c.q + c.r + c.s, 0);
}

#[test]
fn neighbors_in_canonical_order() {
    assert_eq!(get_hex_neighbors(2, 3), vec![(3, 3), (1, 3), (2, 4), (2, 2), (3, 2), (1, 4)]);
}

#[test]
fn neighbor_outside_i32_is_none() {
    assert_eq!(neighbor(i32::MAX, 0, 0), None);
    assert_eq!(neighbor(i32::MAX, 0, 1), Some((i32::MAX - 1, 0)));
    assert_eq!(neighbor(0, i32::MIN, 3), None);
    assert_eq!(neighbor(5, 5, 4), Some((6, 4)));
}

#[test]
fn ring_of_radius_zero_is_center() {
    let c = axial_to_cube(4, -1);
    assert_eq!(cube_ring(c, 0), vec![c]);
}

#[test]
fn ring_sizes_and_distances() {
    let c = axial_to_cube(2, 5);
    for k in 1..6 {
        let ring = cube_ring(c, k);
        assert_eq!(ring.len(), 6 * k as usize);
        for cell in &ring {
            assert_eq!(cell.q + cell.r + cell.s, 0);
            assert_eq!(cube_distance(c, *cell), k as i64);
            assert_eq!(hex_distance(2, 5, cell.q as i32, cell.r as i32), k as i64);
        }
        let distinct: HashSet<(i64, i64)> = ring.iter().map(|x| (x.q, x.r)).collect();
        assert_eq!(distinct.len(), ring.len());
    }
}

#[test]
fn ring_walk_order() {
    let ring = cube_ring(axial_to_cube(0, 0), 1);
    let cells: Vec<(i64, i64, i64)> = ring.iter().map(|c| (c.q, c.r, c.s)).collect();
    assert_eq!(cells, vec![(-1, 1, 0), (0, 1, -1), (1, 0, -1), (1, -1, 0), (0, -1, 1), (-1, 0, 1)]);
}

#[test]
fn disk_is_sorted_and_complete() {
    assert_eq!(disk(1), vec![(-1, 0), (-1, 1), (0, -1), (0, 0), (0, 1), (1, -1), (1, 0)]);
    let d = generate_hex_grid(3, 5, -2);
    assert_eq!(d.len(), 37);
    for w in d.windows(2) {
        assert!(w[0] < w[1]);
    }
    for c in &d {
        assert!(hex_distance(5, -2, c.0, c.1) <= 3);
    }
}

#[test]
fn disk_of_radius_zero_and_negative() {
    assert_eq!(generate_hex_grid(0, 7, 8), vec![(7, 8)]);
    assert!(generate_hex_grid(-1, 0, 0).is_empty());
}

#[test]
fn insert_sorted_keeps_order_and_skips_duplicates() {
    let mut v: Vec<Coord> = Vec::new();
    for c in [(2, 0), (0, 5), (2, -1), (0, 5), (-3, 9)] {
        insert_sorted(&mut v, c);
    }
    assert_eq!(v, vec![(-3, 9), (0, 5), (2, -1), (2, 0)]);
}

// ---------------------------------------------------------------------------------------------
// Pathfinding

#[test]
fn straight_line_path() {
    let terrain = vec![(0, 0), (1, 0), (2, 0)];
    assert_eq!(hex_astar_path(0, 0, 2, 0, &terrain), Some(2));
    assert_eq!(hex_astar(0, 0, 2, 0, &terrain), Some(vec![(0, 0), (1, 0), (2, 0)]));
}

#[test]
fn disconnected_cells_have_no_path() {
    let terrain = vec![(0, 0), (5, 5)];
    assert_eq!(hex_astar(0, 0, 5, 5, &terrain), None);
    assert_eq!(hex_astar_path(0, 0, 5, 5, &terrain), None);
}

#[test]
fn endpoint_off_terrain_has_no_path() {
    let terrain = vec![(0, 0), (1, 0), (2, 0)];
    assert_eq!(hex_astar(0, 0, 3, 0, &terrain), None);
    assert_eq!(hex_astar(-1, 0, 2, 0, &terrain), None);
    assert_eq!(hex_astar(9, 9, 9, 9, &terrain), None);
}

#[test]
fn start_equal_goal_is_single_cell() {
    let terrain = vec![(4, 4)];
    assert_eq!(hex_astar(4, 4, 4, 4, &terrain), Some(vec![(4, 4)]));
    assert_eq!(hex_astar_path(4, 4, 4, 4, &terrain), Some(0));
}

#[test]
fn path_detours_around_a_wall() {
    // A radius-3 disk with a wall at q == 0 except for the cell (0, 3).
    let terrain: Vec<Coord> = disk(3).into_iter().filter(|c| c.0 != 0 || c.1 == 3).collect();
    let path = hex_astar(-2, 0, 2, 0, &terrain).expect("a path exists");
    assert_eq!(path.first(), Some(&(-2, 0)));
    assert_eq!(path.last(), Some(&(2, 0)));
    assert!(path.contains(&(0, 3)));
    for w in path.windows(2) {
        assert!(is_adjacent(w[0], w[1]));
    }
    for c in &path {
        assert!(terrain.contains(c));
    }
    let steps = bfs_steps((-2, 0), (2, 0), &terrain).unwrap();
    assert_eq!(path.len(), steps + 1);
    assert_eq!(hex_astar_path(-2, 0, 2, 0, &terrain), Some(steps));
}

#[test]
fn path_lengths_match_breadth_first_search() {
    let terrain: Vec<Coord> =
        disk(3).into_iter().filter(|&(q, r)| !((q == 1 && r <= 1) || (q == -1 && r >= -1 && r < 3))).collect();
    for &a in &terrain {
        for &b in &terrain {
            let expected = bfs_steps(a, b, &terrain);
            assert_eq!(hex_astar_path(a.0, a.1, b.0, b.1, &terrain), expected);
            match hex_astar(a.0, a.1, b.0, b.1, &terrain) {
                Some(p) => assert_eq!(Some(p.len() - 1), expected),
                None => assert_eq!(expected, None),
            }
        }
    }
}

#[test]
fn duplicate_terrain_entries_are_harmless() {
    let terrain = vec![(0, 0), (1, 0), (0, 0), (2, 0), (1, 0)];
    assert_eq!(hex_astar(0, 0, 2, 0, &terrain), Some(vec![(0, 0), (1, 0), (2, 0)]));
}

#[test]
fn path_between_roads_excludes_start() {
    let terrain = vec![(0, 0), (1, 0), (2, 0)];
    assert_eq!(build_path_between_roads(0, 0, 2, 0, &terrain), Some(vec![(1, 0), (2, 0)]));
    assert_eq!(build_path_between_roads(0, 0, 0, 0, &terrain), None);
    assert_eq!(build_path_between_roads(0, 0, 5, 5, &terrain), None);
}

// ---------------------------------------------------------------------------------------------
// Connectivity

#[test]
fn empty_and_single_road_sets_are_connected() {
    assert!(validate_road_connectivity(&vec![]));
    assert!(validate_road_connectivity(&vec![(7, -3)]));
}

#[test]
fn unreachable_roads_are_not_connected() {
    assert!(!validate_road_connectivity(&vec![(0, 0), (5, 5)]));
    assert!(!validate_road_connectivity(&vec![(0, 0), (1, 0), (3, 0)]));
}

#[test]
fn chain_of_roads_is_connected() {
    assert!(validate_road_connectivity(&vec![(0, 0), (1, 0), (2, -1), (2, -2), (3, -2)]));
    assert!(validate_road_connectivity(&disk(2)));
}

// ---------------------------------------------------------------------------------------------
// Regions

#[test]
fn single_cell_disk_with_one_grass_seed() {
    assert_eq!(generate_voronoi_regions(0, 0, 0, 0, 0, 1), vec![cell(0, 0, TileType::Grass)]);
}

#[test]
fn negative_radius_gives_default_cell() {
    assert_eq!(generate_voronoi_regions(-1, 4, 4, 2, 2, 2), vec![cell(0, 0, TileType::Grass)]);
    assert_eq!(assign_regions(&vec![], 1, 1, 1), vec![cell(0, 0, TileType::Grass)]);
}

#[test]
fn seed_placement_follows_index_formula() {
    let d = disk(1);
    // (1 * 7919 + 0) % 7 == 2 and (2 * 7919 + 0) % 7 == 4.
    assert_eq!(
        generate_seeds(&d, 1, 0, 1),
        vec![
            VoronoiSeed { q: 0, r: -1, tile_type: TileType::Forest },
            VoronoiSeed { q: 0, r: 1, tile_type: TileType::Grass },
        ]
    );
    // Water seeds: counters 1 and 2 with i = 0 and 1: 7919 % 7 == 2, (15838 + 997) % 7 == 0.
    assert_eq!(
        generate_seeds(&d, 0, 2, 0),
        vec![
            VoronoiSeed { q: 0, r: -1, tile_type: TileType::Water },
            VoronoiSeed { q: -1, r: 0, tile_type: TileType::Water },
        ]
    );
}

#[test]
fn no_positive_count_forces_one_grass_seed() {
    let d = disk(1);
    assert_eq!(generate_seeds(&d, -3, 0, -1), vec![VoronoiSeed { q: -1, r: 0, tile_type: TileType::Grass }]);
    let out = generate_voronoi_regions(1, 0, 0, 0, -2, 0);
    assert_eq!(out.len(), 7);
    assert!(out.iter().all(|c| c.tile_type == TileType::Grass));
}

#[test]
fn cells_take_nearest_seed_with_ties_to_the_first() {
    let out = generate_voronoi_regions(1, 0, 0, 1, 0, 1);
    assert_eq!(
        out,
        vec![
            cell(-1, 0, TileType::Forest),
            cell(-1, 1, TileType::Grass),
            cell(0, -1, TileType::Forest),
            cell(0, 0, TileType::Forest),
            cell(0, 1, TileType::Grass),
            cell(1, -1, TileType::Forest),
            cell(1, 0, TileType::Grass),
        ]
    );
}

#[test]
fn nearest_seed_prefers_earlier_on_ties() {
    let seeds = vec![
        VoronoiSeed { q: 0, r: -1, tile_type: TileType::Forest },
        VoronoiSeed { q: 0, r: 1, tile_type: TileType::Grass },
        VoronoiSeed { q: 5, r: 5, tile_type: TileType::Water },
    ];
    assert_eq!(nearest_seed(&seeds, 0, 0), 0);
    assert_eq!(nearest_seed(&seeds, 0, 2), 1);
    assert_eq!(nearest_seed(&seeds, 5, 4), 2);
}

#[test]
fn regions_repeat_for_same_inputs() {
    let a = generate_voronoi_regions(4, 1, -1, 3, 2, 4);
    let b = generate_voronoi_regions(4, 1, -1, 3, 2, 4);
    assert_eq!(a, b);
    assert_eq!(a.len(), 61);
}

// ---------------------------------------------------------------------------------------------
// Road network

#[test]
fn two_seeds_in_small_disk_are_joined() {
    let terrain = disk(1);
    let seeds = vec![(-1, 0), (1, 0)];
    assert_eq!(hex_distance(-1, 0, 1, 0), 2);
    let roads = generate_road_network_growing_tree(&seeds, &terrain, &vec![], seeds.len() as i32);
    assert!(roads.len() >= seeds.len());
    assert!(roads.contains(&(-1, 0)) && roads.contains(&(1, 0)));
    assert!(validate_road_connectivity(&roads));
    for w in roads.windows(2) {
        assert!(w[0] < w[1]);
    }
}

#[test]
fn no_seed_on_terrain_gives_no_roads() {
    let terrain = disk(1);
    assert!(generate_road_network_growing_tree(&vec![(9, 9)], &terrain, &vec![], 5).is_empty());
    assert!(generate_road_network_growing_tree(&vec![], &terrain, &vec![], 5).is_empty());
    assert!(generate_road_network_growing_tree(&vec![(0, 0)], &terrain, &vec![(0, 0)], 5).is_empty());
}

#[test]
fn network_grows_to_target() {
    let terrain = disk(3);
    let roads = generate_road_network_growing_tree(&vec![(0, 0)], &terrain, &vec![], 10);
    assert!(roads.len() >= 10);
    assert!(roads.contains(&(0, 0)));
    assert!(validate_road_connectivity(&roads));
    for c in &roads {
        assert!(terrain.contains(c));
    }
}

#[test]
fn network_stops_at_component_when_target_unreachable() {
    let terrain = vec![(0, 0), (1, 0), (2, 0), (7, 7)];
    let roads = generate_road_network_growing_tree(&vec![(0, 0)], &terrain, &vec![], 10);
    assert_eq!(roads, vec![(0, 0), (1, 0), (2, 0)]);
}

#[test]
fn occupied_cells_are_avoided() {
    let terrain = disk(2);
    let occupied = vec![(0, 0), (1, -1)];
    let seeds = vec![(-1, 0), (1, 0)];
    let roads = generate_road_network_growing_tree(&seeds, &terrain, &occupied, 2);
    assert!(roads.contains(&(-1, 0)) && roads.contains(&(1, 0)));
    assert!(!roads.contains(&(0, 0)) && !roads.contains(&(1, -1)));
    assert!(validate_road_connectivity(&roads));
}

#[test]
fn unreachable_seed_is_skipped() {
    let terrain = vec![(0, 0), (1, 0), (5, 5)];
    let roads = generate_road_network_growing_tree(&vec![(0, 0), (5, 5)], &terrain, &vec![], 0);
    assert_eq!(roads, vec![(0, 0)]);
}

#[test]
fn first_seed_off_terrain_lets_next_be_root() {
    let terrain = vec![(0, 0), (1, 0), (2, 0)];
    let roads = generate_road_network_growing_tree(&vec![(9, 9), (2, 0), (0, 0)], &terrain, &vec![], 0);
    assert_eq!(roads, vec![(0, 0), (1, 0), (2, 0)]);
}

#[test]
fn nearest_in_set_takes_first_minimum() {
    assert_eq!(find_nearest_in_set((0, 0), &vec![]), None);
    assert_eq!(find_nearest_in_set((0, 0), &vec![(3, 0), (0, 2), (2, 0)]), Some(((0, 2), 2)));
}

// ---------------------------------------------------------------------------------------------
// Grid state

#[test]
fn layout_is_idempotent_and_survives_clear() {
    let mut st = GridState::new();
    assert!(set_pre_constraint(&mut st, 0, 0, 2));
    assert!(set_pre_constraint(&mut st, 1, -1, 4));
    assert!(set_pre_constraint(&mut st, -3, 2, 1));
    generate_layout(&mut st);
    let first: Vec<i32> = [(0, 0), (1, -1), (-3, 2), (5, 5)].iter().map(|&(q, r)| get_tile_at(&st, q, r)).collect();
    assert_eq!(first, vec![2, 4, 1, -1]);
    generate_layout(&mut st);
    let second: Vec<i32> = [(0, 0), (1, -1), (-3, 2), (5, 5)].iter().map(|&(q, r)| get_tile_at(&st, q, r)).collect();
    assert_eq!(first, second);
    clear_layout(&mut st);
    assert_eq!(get_tile_at(&st, 0, 0), -1);
    assert_eq!(get_stats(&st).total, 0);
    generate_layout(&mut st);
    let third: Vec<i32> = [(0, 0), (1, -1), (-3, 2), (5, 5)].iter().map(|&(q, r)| get_tile_at(&st, q, r)).collect();
    assert_eq!(first, third);
}

#[test]
fn unknown_tile_code_is_rejected() {
    let mut st = GridState::new();
    assert!(!set_pre_constraint(&mut st, 0, 0, 5));
    assert!(!set_pre_constraint(&mut st, 0, 0, -1));
    generate_layout(&mut st);
    assert_eq!(get_tile_at(&st, 0, 0), -1);
    assert_eq!(get_stats(&st).total, 0);
}

#[test]
fn later_pre_constraint_replaces_earlier() {
    let mut st = GridState::new();
    assert!(set_pre_constraint(&mut st, 2, 2, 0));
    assert!(set_pre_constraint(&mut st, 2, 2, 3));
    generate_layout(&mut st);
    assert_eq!(get_tile_at(&st, 2, 2), 3);
    assert_eq!(get_stats(&st).total, 1);
}

#[test]
fn clearing_pre_constraints_keeps_grid_until_next_layout() {
    let mut st = GridState::new();
    assert!(set_pre_constraint(&mut st, 0, 0, 1));
    generate_layout(&mut st);
    clear_pre_constraints(&mut st);
    assert_eq!(get_tile_at(&st, 0, 0), 1);
    generate_layout(&mut st);
    assert_eq!(get_tile_at(&st, 0, 0), -1);
}

#[test]
fn stats_count_each_type() {
    let mut st = GridState::new();
    let codes = [0, 0, 0, 1, 2, 2, 3, 4, 4, 4, 4];
    for (i, &code) in codes.iter().enumerate() {
        assert!(set_pre_constraint(&mut st, i as i32, -(i as i32), code));
    }
    generate_layout(&mut st);
    let s = get_stats(&st);
    assert_eq!((s.grass, s.building, s.road, s.forest, s.water, s.total), (3, 1, 2, 1, 4, 11));
}

#[test]
fn grid_state_methods() {
    let mut st = GridState::new();
    assert!(st.set_pre_constraint(1, 2, TileType::Forest));
    assert_eq!(st.get_tile(1, 2), None);
    st.generate_layout();
    assert_eq!(st.get_tile(1, 2), Some(TileType::Forest));
    st.clear();
    assert_eq!(st.get_tile(1, 2), None);
    st.clear_pre_constraints();
    st.generate_layout();
    assert_eq!(st.stats().total, 0);
}

#[test]
fn tile_map_basics() {
    let mut m = TileMap::new();
    m.insert((0, 0), TileType::Road);
    m.insert((1, 0), TileType::Road);
    m.insert((0, 0), TileType::Water);
    assert_eq!(m.get((0, 0)), Some(TileType::Water));
    assert_eq!(m.get((2, 0)), None);
    let s = m.counts();
    assert_eq!((s.road, s.water, s.total), (1, 1, 2));
    let mut other = TileMap::new();
    other.insert((1, 0), TileType::Grass);
    m.insert_all(&other);
    assert_eq!(m.get((1, 0)), Some(TileType::Grass));
    m.clear();
    assert_eq!(m.counts().total, 0);
}

#[test]
fn tile_codes_round_trip() {
    let all = [TileType::Grass, TileType::Building, TileType::Road, TileType::Forest, TileType::Water];
    for (i, t) in all.iter().enumerate() {
        assert_eq!(t.code(), i as i32);
        assert_eq!(TileType::from_code(i as i32), Some(*t));
    }
    assert_eq!(TileType::from_code(5), None);
    assert_eq!(TileType::from_code(-1), None);
}

#[test]
fn version_string() {
    assert_eq!(get_wasm_version(), "1.0.0-20250102-0912");
}

// ---------------------------------------------------------------------------------------------
// Wire format


fn parse(s: &str) -> Vec<Coord> {
    parse_valid_terrain_json(s.as_bytes())
}

#[test]
fn parses_plain_coordinate_list() {
    assert_eq!(parse(r#"[{"q":0,"r":0},{"q":1,"r":-2},{"q":-15,"r":300}]"#), vec![(0, 0), (1, -2), (-15, 300)]);
}

#[test]
fn parse_tolerates_whitespace_and_extra_fields() {
    let text = "  [ {\"q\": 3, \"tileType\":4, \"r\":\t-1} ,\n {\"r\" : 2, \"q\" : 7, \"x\": 9} ]  ";
    assert_eq!(parse(text), vec![(3, -1), (7, 2)]);
}

#[test]
fn parse_drops_records_missing_a_field() {
    assert_eq!(parse(r#"[{"q":1},{"q":2,"r":3},{"r":4},{"q":"a","r":5}]"#), vec![(2, 3)]);
}

#[test]
fn parse_of_empty_null_and_garbage_is_empty() {
    assert!(parse("").is_empty());
    assert!(parse("[]").is_empty());
    assert!(parse("null").is_empty());
    assert!(parse("not json at all").is_empty());
}

#[test]
fn parse_drops_numbers_outside_i32() {
    assert_eq!(parse(r#"[{"q":2147483648,"r":0},{"q":-2147483648,"r":2147483647}]"#), vec![(i32::MIN, i32::MAX)]);
    assert_eq!(parse(r#"[{"q":-,"r":1}]"#), vec![]);
}

#[test]
fn encodes_coordinate_list() {
    assert_eq!(encode_coord_list(&vec![]), b"[]".to_vec());
    assert_eq!(encode_coord_list(&vec![(0, 0), (12, -7)]), br#"[{"q":0,"r":0},{"q":12,"r":-7}]"#.to_vec());
    assert_eq!(
        encode_coord_list(&vec![(i32::MIN, i32::MAX)]),
        br#"[{"q":-2147483648,"r":2147483647}]"#.to_vec()
    );
}

#[test]
fn encodes_region_list() {
    let cells = vec![cell(0, 0, TileType::Grass), cell(-1, 3, TileType::Water)];
    assert_eq!(encode_region_list(&cells), br#"[{"q":0,"r":0,"tileType":0},{"q":-1,"r":3,"tileType":4}]"#.to_vec());
}

#[test]
fn encoded_list_parses_back() {
    let cells: Vec<Coord> = vec![(0, 0), (5, -5), (-123, 456), (i32::MAX, i32::MIN)];
    assert_eq!(parse_valid_terrain_json(&encode_coord_list(&cells)), cells);
}
