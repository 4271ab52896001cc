use std::collections::HashMap;
use wang_tiles::grid::Grid;
use wang_tiles::solver::{generate_tiling, palette, tile_records, SerTile, WangTiler};
use wang_tiles::spiral::TilePos;
use wang_tiles::tiles::{Color, Tile};

fn tile(top: Color, bottom: Color, left: Color, right: Color) -> Tile {
    Tile { top, bottom, left, right }
}

fn records_for(size: i32) -> Vec<SerTile> {
    let grid = generate_tiling(size);
    tile_records(&grid)
}

fn as_coord_map(records: &[SerTile]) -> HashMap<(i32, i32), SerTile> {
    let mut map = HashMap::new();
    for r in records {
        let previous = map.insert((r.x, r.y), *r);
        assert!(previous.is_none(), "two records share a coordinate");
    }
    map
}

#[test]
fn empty_tiling_for_size_zero() {
    let records = records_for(0);
    assert_eq!(records.len(), 0);
}

#[test]
fn single_cell_tiling_uses_first_palette_entry() {
    let records = records_for(1);
    assert_eq!(records.len(), 1);
    let r = records[0];
    assert_eq!((r.x, r.y), (0, 0));
    let first = palette()[0];
    assert_eq!(r.top, first.top);
    assert_eq!(r.bottom, first.bottom);
    assert_eq!(r.left, first.left);
    assert_eq!(r.right, first.right);
    assert_eq!(first, tile(Color::R, Color::R, Color::G, Color::R));
}

#[test]
fn same_size_yields_identical_mapping() {
    let first = records_for(2);
    let second = records_for(2);
    assert_eq!(first, second);
}

#[test]
fn negative_size_behaves_like_its_magnitude() {
    assert_eq!(records_for(-2), records_for(2));
    assert_eq!(records_for(-1), records_for(1));
}

#[test]
fn coverage_is_exactly_the_open_square() {
    let records = records_for(3);
    assert_eq!(records.len(), 25);
    let map = as_coord_map(&records);
    for x in -4..=4i32 {
        for y in -4..=4i32 {
            let inside = x.abs() < 3 && y.abs() < 3;
            assert_eq!(map.contains_key(&(x, y)), inside, "coverage wrong at ({x}, {y})");
        }
    }
}

#[test]
fn adjacent_records_share_edge_colors() {
    let records = records_for(3);
    let map = as_coord_map(&records);
    for (&(x, y), r) in &map {
        if let Some(right) = map.get(&(x + 1, y)) {
            assert_eq!(r.right, right.left, "horizontal mismatch at ({x}, {y})");
        }
        if let Some(above) = map.get(&(x, y + 1)) {
            assert_eq!(r.top, above.bottom, "vertical mismatch at ({x}, {y})");
        }
    }
}

#[test]
fn compatible_with_no_neighbors_accepts_anything() {
    let t = tile(Color::R, Color::G, Color::B, Color::W);
    assert!(t.compatible_with(None, None, None, None));
}

#[test]
fn compatible_with_checks_each_direction() {
    let t = tile(Color::R, Color::G, Color::B, Color::W);
    let above = tile(Color::W, Color::R, Color::G, Color::G);
    let below = tile(Color::G, Color::W, Color::B, Color::B);
    let left = tile(Color::W, Color::W, Color::R, Color::B);
    let right = tile(Color::R, Color::B, Color::W, Color::R);
    assert!(t.compatible_with(Some(&above), Some(&below), Some(&left), Some(&right)));
    let bad_above = tile(Color::W, Color::B, Color::G, Color::G);
    assert!(!t.compatible_with(Some(&bad_above), None, None, None));
    let bad_below = tile(Color::R, Color::W, Color::B, Color::B);
    assert!(!t.compatible_with(None, Some(&bad_below), None, None));
    let bad_left = tile(Color::W, Color::W, Color::R, Color::G);
    assert!(!t.compatible_with(None, None, Some(&bad_left), None));
    let bad_right = tile(Color::G, Color::B, Color::B, Color::R);
    assert!(!t.compatible_with(None, None, None, Some(&bad_right)));
}

#[test]
fn next_tiles_keeps_palette_order_of_compatible_tiles() {
    let pal = palette();
    let tiler = WangTiler::new(pal.clone(), 5);
    let mut grid = Grid::new();
    grid.insert(0, 0, pal[0]);
    let candidates = tiler.next_tiles(1, 0, &grid);
    assert_eq!(candidates, vec![pal[7], pal[8], pal[9]]);
}

#[test]
fn next_tiles_without_neighbors_returns_whole_palette() {
    let pal = palette();
    let tiler = WangTiler::new(pal.clone(), 5);
    let grid = Grid::new();
    let candidates = tiler.next_tiles(0, 0, &grid);
    assert_eq!(candidates, pal);
}

#[test]
fn grid_insert_get_remove_roundtrip() {
    let mut grid = Grid::new();
    let t = tile(Color::R, Color::G, Color::B, Color::W);
    assert!(grid.get(2, -3).is_none());
    grid.insert(2, -3, t);
    assert_eq!(grid.get(2, -3), Some(t));
    assert!(grid.get(-3, 2).is_none());
    grid.remove(2, -3);
    assert!(grid.get(2, -3).is_none());
    assert_eq!(grid.entries.len(), 0);
}

#[test]
fn incompatible_single_tile_palette_fails_and_restores() {
    let only = tile(Color::R, Color::G, Color::B, Color::W);
    let tiler = WangTiler::new(vec![only], 2);
    let mut grid = Grid::new();
    let ok = tiler.generate(TilePos::new(), &mut grid);
    assert!(!ok);
    assert_eq!(grid.entries.len(), 0);
}

#[test]
fn self_compatible_single_tile_fills_the_square() {
    let only = tile(Color::R, Color::R, Color::G, Color::G);
    let tiler = WangTiler::new(vec![only], 2);
    let mut grid = Grid::new();
    let ok = tiler.generate(TilePos::new(), &mut grid);
    assert!(ok);
    let records = tile_records(&grid);
    assert_eq!(records.len(), 9);
    for r in &records {
        assert_eq!(tile(r.top, r.bottom, r.left, r.right), only);
    }
}

#[test]
fn color_names_match_the_rendered_palette() {
    assert_eq!(Color::R.name(), "red");
    assert_eq!(Color::G.name(), "green");
    assert_eq!(Color::B.name(), "blue");
    assert_eq!(Color::W.name(), "white");
}

#[test]
fn tile_label_lists_all_four_edges() {
    let t = tile(Color::R, Color::G, Color::B, Color::W);
    assert_eq!(t.label(), "[t:red b:green l:blue r:white]");
}

#[test]
fn tile_records_follow_assignment_order() {
    let mut grid = Grid::new();
    let a = tile(Color::R, Color::R, Color::G, Color::G);
    let b = tile(Color::B, Color::B, Color::W, Color::W);
    grid.insert(0, 0, a);
    grid.insert(5, -7, b);
    let records = tile_records(&grid);
    assert_eq!(records.len(), 2);
    assert_eq!((records[0].x, records[0].y), (0, 0));
    assert_eq!((records[1].x, records[1].y), (5, -7));
    assert_eq!(records[1].top, Color::B);
    assert_eq!(records[1].left, Color::W);
}
