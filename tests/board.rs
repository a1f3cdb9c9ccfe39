use std::collections::HashMap;

use village_map::coord::{distance_squared, king_moves, rook_moves, Coord};
use village_map::selection::{selection_edges, SelectedUnit};
use village_map::spread::UNVISITED;
use village_map::tile_map::{Overwritten, TileMap};
use village_map::village_map::{Passage, Terrain, VillageMap};

fn c(x: i32, y: i32) -> Coord {
    Coord::new(x, y)
}

fn open_board(w: i32, h: i32) -> VillageMap {
    VillageMap::new(c(w, h))
}

#[test]
fn set_reports_each_kind_of_eviction() {
    let mut m = TileMap::new(c(10, 10));
    assert_eq!(m.set(c(1, 1), 7), Overwritten::Neither);
    assert_eq!(m.set(c(1, 1), 7), Overwritten::Pair(c(1, 1), 7));
    assert_eq!(m.set(c(1, 1), 8), Overwritten::Left(c(1, 1), 7));
    assert_eq!(m.set(c(2, 2), 8), Overwritten::Right(c(1, 1), 8));
    assert_eq!(m.set(c(3, 3), 9), Overwritten::Neither);
    assert_eq!(
        m.set(c(2, 2), 9),
        Overwritten::Both((c(2, 2), 8), (c(3, 3), 9))
    );
    assert_eq!(m.get(c(2, 2)), Some(9));
    assert_eq!(m.locate(8), None);
    assert_eq!(m.get(c(3, 3)), None);
}

#[test]
fn bijection_holds_after_mixed_updates() {
    let mut m = TileMap::new(c(5, 5));
    m.set(c(0, 0), 1);
    m.set(c(1, 0), 2);
    m.set(c(2, 0), 3);
    m.set(c(1, 0), 1);
    assert_eq!(m.remove(c(2, 0)), Some(3));
    assert_eq!(m.remove(c(2, 0)), None);
    m.set(c(4, 4), 5);
    assert_eq!(m.remove_entity(5), Some(c(4, 4)));
    assert_eq!(m.remove_entity(5), None);
    let mut positions = m.positions();
    positions.sort_by_key(|p| (p.x, p.y));
    assert_eq!(positions, vec![c(1, 0)]);
    for p in positions {
        let o = m.get(p).unwrap();
        assert_eq!(m.locate(o), Some(p));
        assert_eq!(m.get(m.locate(o).unwrap()), Some(o));
    }
    assert!(m.is_occupied(c(1, 0)));
    assert!(!m.is_occupied(c(0, 0)));
}

#[test]
fn bounds_and_size() {
    let m = TileMap::new(c(4, 3));
    assert_eq!(m.size(), c(4, 3));
    let b = m.bounds();
    assert_eq!(b.min, c(0, 0));
    assert_eq!(b.max, c(3, 2));
    assert!(b.contains(c(3, 2)));
    assert!(!b.contains(c(4, 2)));
}

#[test]
fn neighbours_skip_cells_off_the_board() {
    let m = TileMap::new(c(10, 10));
    assert_eq!(m.get_neighbouring_positions_rook(c(0, 0)), vec![c(1, 0), c(0, 1)]);
    assert_eq!(
        m.get_neighbouring_positions_king(c(0, 0)),
        vec![c(1, 0), c(1, 1), c(0, 1)]
    );
    assert_eq!(
        m.get_neighbouring_positions_rook(c(5, 5)),
        vec![c(5, 4), c(6, 5), c(5, 6), c(4, 5)]
    );
    assert_eq!(m.get_neighbouring_positions_king(c(5, 5)).len(), 8);
    assert_eq!(m.get_neighbouring_positions_rook(c(i32::MAX, 0)), vec![]);
}

#[test]
fn moves_and_distances() {
    assert_eq!(rook_moves(), vec![c(0, -1), c(1, 0), c(0, 1), c(-1, 0)]);
    assert_eq!(king_moves().len(), 8);
    assert_eq!(distance_squared(c(0, 0), c(3, 4)), 25);
    assert_eq!(
        distance_squared(c(i32::MIN, i32::MIN), c(i32::MAX, i32::MAX)),
        2 * (u32::MAX as u128) * (u32::MAX as u128)
    );
}

#[test]
fn out_of_bounds_checks() {
    let map = open_board(10, 8);
    assert_eq!(map.isize(), c(10, 8));
    assert!(!map.is_out_of_bounds(c(0, 0)));
    assert!(!map.is_out_of_bounds(c(9, 7)));
    assert!(map.is_out_of_bounds(c(10, 0)));
    assert!(map.is_out_of_bounds(c(0, 8)));
    assert!(map.is_out_of_bounds(c(-1, 3)));
}

#[test]
fn open_grid_pathfind() {
    let map = open_board(10, 10);
    let kinds = HashMap::new();
    let (path, cost) = map
        .pathfind(&c(0, 0), &c(3, 0), &rook_moves(), false, &kinds)
        .unwrap();
    assert_eq!(cost, 3);
    assert_eq!(path, vec![c(0, 0), c(1, 0), c(2, 0), c(3, 0)]);
}

#[test]
fn pathfind_to_start_is_a_single_cell() {
    let map = open_board(10, 10);
    let kinds = HashMap::new();
    let (path, cost) = map
        .pathfind(&c(4, 4), &c(4, 4), &rook_moves(), false, &kinds)
        .unwrap();
    assert_eq!(cost, 0);
    assert_eq!(path, vec![c(4, 4)]);
}

#[test]
fn pathfind_goes_round_an_obstacle() {
    let mut map = open_board(10, 10);
    map.object.set(c(1, 0), 50);
    let kinds = HashMap::new();
    let (path, cost) = map
        .pathfind(&c(0, 0), &c(2, 0), &rook_moves(), false, &kinds)
        .unwrap();
    assert_eq!(cost, 4);
    assert_eq!(path.len(), 5);
    assert!(!path.contains(&c(1, 0)));
}

#[test]
fn blocked_target() {
    let mut map = open_board(10, 10);
    map.object.set(c(5, 4), 1);
    map.object.set(c(6, 5), 2);
    map.object.set(c(5, 6), 3);
    map.object.set(c(4, 5), 4);
    let kinds = HashMap::new();
    assert_eq!(map.pathfind(&c(0, 0), &c(5, 5), &rook_moves(), false, &kinds), None);
    assert_eq!(map.pathfind(&c(0, 0), &c(5, 5), &rook_moves(), true, &kinds), None);
}

#[test]
fn airborne_bypass() {
    let mut map = open_board(3, 1);
    map.terrain.set(c(0, 0), 10);
    map.terrain.set(c(1, 0), 11);
    map.terrain.set(c(2, 0), 12);
    let mut kinds = HashMap::new();
    kinds.insert(10, Terrain::Grass);
    kinds.insert(11, Terrain::Water);
    kinds.insert(12, Terrain::Gravel);
    assert_eq!(map.pathfind(&c(0, 0), &c(2, 0), &rook_moves(), false, &kinds), None);
    let (path, cost) = map
        .pathfind(&c(0, 0), &c(2, 0), &rook_moves(), true, &kinds)
        .unwrap();
    assert_eq!(cost, 2);
    assert_eq!(path, vec![c(0, 0), c(1, 0), c(2, 0)]);
}

#[test]
fn water_forces_a_detour_on_the_ground() {
    let mut map = open_board(3, 2);
    map.terrain.set(c(1, 0), 11);
    let mut kinds = HashMap::new();
    kinds.insert(11, Terrain::Water);
    let (path, cost) = map
        .pathfind(&c(0, 0), &c(2, 0), &rook_moves(), false, &kinds)
        .unwrap();
    assert_eq!(cost, 4);
    assert!(!path.contains(&c(1, 0)));
    let (_, cost) = map
        .pathfind(&c(0, 0), &c(2, 0), &rook_moves(), true, &kinds)
        .unwrap();
    assert_eq!(cost, 2);
}

#[test]
fn unmarked_cells_and_unknown_kinds_are_passable() {
    let mut map = open_board(3, 1);
    map.terrain.set(c(1, 0), 99);
    let kinds = HashMap::new();
    assert_eq!(map.terrain_kind(&kinds, c(1, 0)), None);
    assert!(map
        .pathfind(&c(0, 0), &c(2, 0), &rook_moves(), false, &kinds)
        .is_some());
}

#[test]
fn flood_bound() {
    let map = open_board(10, 10);
    let kinds = HashMap::new();
    let tiles = map.flood(c(5, 5), 2, &rook_moves(), false, &kinds);
    assert_eq!(tiles.len(), 13);
    for t in &tiles {
        assert!(!map.is_out_of_bounds(*t));
        assert!((t.x - 5).abs() + (t.y - 5).abs() <= 2);
    }
    let mut sorted = tiles.clone();
    sorted.sort_by_key(|p| (p.x, p.y));
    sorted.dedup();
    assert_eq!(sorted.len(), 13);
}

#[test]
fn flood_with_zero_budget_is_the_start() {
    let map = open_board(10, 10);
    let kinds = HashMap::new();
    assert_eq!(map.flood(c(3, 3), 0, &rook_moves(), false, &kinds), vec![c(3, 3)]);
}

#[test]
fn flood_stops_at_obstacles_and_the_edge() {
    let mut map = open_board(10, 10);
    map.object.set(c(1, 0), 1);
    let kinds = HashMap::new();
    let mut tiles = map.flood(c(0, 0), 1, &king_moves(), false, &kinds);
    tiles.sort_by_key(|p| (p.x, p.y));
    assert_eq!(tiles, vec![c(0, 0), c(0, 1), c(1, 1)]);
}

#[test]
fn flood_with_the_largest_budget_covers_the_board() {
    let map = open_board(4, 4);
    let kinds = HashMap::new();
    assert_eq!(map.flood(c(0, 0), u32::MAX, &rook_moves(), false, &kinds).len(), 16);
}

#[test]
fn heat_map_single_source() {
    let mut map = open_board(10, 10);
    map.object.set(c(0, 0), 1);
    map.generate_heat_map();
    assert_eq!(map.heat_map.len(), 100);
    for y in 0..10 {
        for x in 0..10 {
            assert_eq!(map.heat_map[(x + y * 10) as usize], (x + y) as u32);
        }
    }
}

#[test]
fn heat_map_no_occupants() {
    let mut map = open_board(7, 3);
    map.generate_heat_map();
    assert_eq!(map.heat_map, vec![0u32; 21]);
}

#[test]
fn heat_map_several_sources_ignore_obstacles() {
    let mut map = open_board(10, 10);
    map.object.set(c(2, 2), 1);
    map.object.set(c(1, 4), 2);
    map.object.set(c(4, 5), 3);
    map.generate_heat_map();
    let expected: Vec<u32> = vec![
        4, 3, 2, 3, 4, 5, 6, 7, 8, 9, //
        3, 2, 1, 2, 3, 4, 5, 6, 7, 8, //
        2, 1, 0, 1, 2, 3, 4, 5, 6, 7, //
        2, 1, 1, 2, 2, 3, 4, 5, 6, 7, //
        1, 0, 1, 2, 1, 2, 3, 4, 5, 6, //
        2, 1, 2, 1, 0, 1, 2, 3, 4, 5, //
        3, 2, 3, 2, 1, 2, 3, 4, 5, 6, //
        4, 3, 4, 3, 2, 3, 4, 5, 6, 7, //
        5, 4, 5, 4, 3, 4, 5, 6, 7, 8, //
        6, 5, 6, 5, 4, 5, 6, 7, 8, 9, //
    ];
    assert_eq!(map.heat_map, expected);
}

#[test]
fn spread_marks_cells_out_of_reach() {
    let map = open_board(5, 1);
    let kinds = HashMap::new();
    let (dist, found) = map.spread(&kinds, &rook_moves(), Passage::Unrestricted, &vec![c(0, 0)], 2);
    assert_eq!(dist, vec![0, 1, 2, UNVISITED, UNVISITED]);
    assert_eq!(found, vec![c(0, 0), c(1, 0), c(2, 0)]);
}

#[test]
fn sort_by_distance_is_stable() {
    let mut tiles = vec![c(0, 3), c(1, 0), c(0, 1), c(2, 2), c(-1, 0)];
    VillageMap::sort_tiles_by_distance(&mut tiles, c(0, 0));
    assert_eq!(tiles, vec![c(1, 0), c(0, 1), c(-1, 0), c(2, 2), c(0, 3)]);
}

#[test]
fn sort_by_heat_is_stable() {
    let mut map = open_board(5, 1);
    map.object.set(c(0, 0), 1);
    map.generate_heat_map();
    let mut tiles = vec![c(3, 0), c(1, 0), c(4, 0), c(0, 0), c(2, 0)];
    map.sort_tiles_by_heat(&mut tiles);
    assert_eq!(tiles, vec![c(0, 0), c(1, 0), c(2, 0), c(3, 0), c(4, 0)]);

    map.heat_map = vec![1, 0, 1, 0, 1];
    let mut tiles = vec![c(4, 0), c(3, 0), c(0, 0), c(1, 0), c(2, 0)];
    map.sort_tiles_by_heat(&mut tiles);
    assert_eq!(tiles, vec![c(3, 0), c(1, 0), c(4, 0), c(0, 0), c(2, 0)]);
}

#[test]
fn best_tile_tie_break() {
    let mut map = open_board(10, 10);
    map.object.set(c(8, 8), 1);
    map.generate_heat_map();
    let kinds = HashMap::new();
    assert_eq!(
        map.get_best_tile(c(5, 5), 2, &rook_moves(), false, &kinds),
        Some(c(6, 6))
    );
}

#[test]
fn best_tile_prefers_lower_heat_over_distance() {
    let mut map = open_board(10, 10);
    map.object.set(c(9, 5), 1);
    map.generate_heat_map();
    let kinds = HashMap::new();
    assert_eq!(
        map.get_best_tile(c(5, 5), 3, &rook_moves(), false, &kinds),
        Some(c(8, 5))
    );
    assert_eq!(
        map.get_best_tile(c(5, 5), 0, &rook_moves(), false, &kinds),
        Some(c(5, 5))
    );
}

#[test]
fn selected_unit_set() {
    let mut s = SelectedUnit::default();
    assert_eq!(s.entity, None);
    s.set(42);
    assert_eq!(s.entity, Some(42));
}

#[test]
fn selection_edges_face_unselected_neighbours() {
    let selected = vec![c(1, 1), c(1, 0), c(2, 1)];
    assert_eq!(selection_edges(&selected, c(1, 1)), vec![false, false, true, true]);
    assert_eq!(selection_edges(&selected, c(2, 1)), vec![true, true, true, false]);
    assert_eq!(selection_edges(&vec![], c(i32::MAX, i32::MIN)), vec![true, true, true, true]);
}

#[test]
fn new_board_is_empty_and_heat_map_keeps_the_deployment_zone() {
    let mut map = open_board(4, 4);
    assert!(map.deployment_zone.is_empty());
    assert!(map.heat_map.is_empty());
    map.deployment_zone.insert(c(1, 2));
    map.object.set(c(0, 0), 3);
    map.generate_heat_map();
    assert_eq!(map.deployment_zone.len(), 1);
    assert!(map.deployment_zone.contains(&c(1, 2)));
    assert_eq!(map.object.get(c(0, 0)), Some(3));
}
