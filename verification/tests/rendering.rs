use vector_race::cache::RenderCache;
use vector_race::raster::{cell_range, render, texture_size};
use vector_race::trace::{trace, LoopSet};
use vector_race::{Cell, GameMap, Tile};

fn pixel(buffer: &[u8], width: u32, x: u32, y: u32) -> [u8; 4] {
    let offset = (y as usize) * (width as usize) * 4 + (x as usize) * 4;
    [
        buffer[offset],
        buffer[offset + 1],
        buffer[offset + 2],
        buffer[offset + 3],
    ]
}

#[test]
fn empty_loop_set_renders_background_only() {
    // any bounding box over an empty loop set is filled with background
    let loops = LoopSet { entries: Vec::new() };
    let buffer = render(&loops, Cell(0, 0), Cell(1, 1));
    assert_eq!(buffer.len(), 256 * 256 * 4);
    assert!(buffer.iter().all(|&b| b == 255));
}

#[test]
fn single_cell_render_colors_inside_and_leaves_outside() {
    let mut map = GameMap::empty();
    map.set_tile(Cell(0, 0), Tile::Dirt);
    let loops = trace(&map).unwrap();
    let buffer = render(&loops, Cell(0, 0), Cell(0, 0));
    assert_eq!(buffer.len(), 128 * 128 * 4);
    // the cell centre lies inside: Dirt is red, stored B, G, R, A; the
    // banding term is zero there (the sine approximation's negative
    // half-wave clamps to nothing)
    assert_eq!(pixel(&buffer, 128, 64, 64), [0, 0, 255, 255]);
    // the cell corner lies outside the diamond of edge midpoints
    assert_eq!(pixel(&buffer, 128, 0, 0), [255, 255, 255, 255]);
    // a quarter cell in from the left edge at mid-height: the signed
    // distance is -45 units, whose banding term is 62
    assert_eq!(pixel(&buffer, 128, 32, 64), [0, 62, 255, 255]);
}

#[test]
fn rerendering_the_same_loops_is_identical() {
    let mut map = GameMap::empty();
    map.set_tile(Cell(0, 0), Tile::Dirt);
    map.set_tile(Cell(1, 0), Tile::Ice);
    let loops = trace(&map).unwrap();
    let first = render(&loops, Cell(0, 0), Cell(1, 0));
    let second = render(&loops, Cell(0, 0), Cell(1, 0));
    assert_eq!(first, second);
}

#[test]
fn texture_size_counts_cells() {
    assert_eq!(texture_size(Cell(0, 0), Cell(0, 0)), (128, 128));
    assert_eq!(texture_size(Cell(-1, -2), Cell(1, 0)), (384, 384));
}

#[test]
fn cell_range_is_smallest_covering_box() {
    let mut map = GameMap::empty();
    // nothing populated: the origin cell's box
    assert_eq!(cell_range(&map), (Cell(0, 0), Cell(0, 0)));
    // a single populated cell away from the origin bounds only itself
    map.set_tile(Cell(3, -2), Tile::Wall);
    assert_eq!(cell_range(&map), (Cell(3, -2), Cell(3, -2)));
    map.set_tile(Cell(-1, 5), Tile::Road);
    assert_eq!(cell_range(&map), (Cell(-1, -2), Cell(3, 5)));
}

#[test]
fn off_origin_cell_renders_its_own_box() {
    // the rendered buffer covers the populated cells alone, wherever they
    // lie; the lone cell fills one cell's worth of pixels
    let mut map = GameMap::empty();
    map.set_tile(Cell(5, 5), Tile::Dirt);
    let mut cache = RenderCache::new(map);
    cache.ensure_fresh().unwrap();
    let (buffer, bounds) = cache.buffer().unwrap();
    assert_eq!(*bounds, (Cell(5, 5), Cell(5, 5)));
    assert_eq!(buffer.len(), 128 * 128 * 4);
    // the cell centre is inside its traced loop and painted Dirt red
    assert_eq!(pixel(buffer, 128, 64, 64), [0, 0, 255, 255]);
    // the buffer corner is outside the diamond of edge midpoints
    assert_eq!(pixel(buffer, 128, 0, 0), [255, 255, 255, 255]);
}

#[test]
fn cache_invalidates_on_change_only() {
    let mut cache = RenderCache::new(GameMap::empty());
    assert!(cache.buffer().is_none());
    cache.ensure_fresh().unwrap();
    assert!(cache.buffer().is_some());

    // an actual change drops the buffer
    assert!(cache.set_tile(Cell(0, 0), Tile::Dirt));
    assert!(cache.buffer().is_none());
    cache.ensure_fresh().unwrap();
    assert!(cache.buffer().is_some());

    // rewriting the same value keeps it
    assert!(!cache.set_tile(Cell(0, 0), Tile::Dirt));
    assert!(cache.buffer().is_some());

    // writing a different value drops it again
    assert!(cache.set_tile(Cell(0, 0), Tile::Ice));
    assert!(cache.buffer().is_none());
}

#[test]
fn cache_render_is_idempotent() {
    let mut map = GameMap::empty();
    map.set_tile(Cell(0, 0), Tile::Dirt);
    let mut cache = RenderCache::new(map);
    cache.ensure_fresh().unwrap();
    let first = cache.buffer().unwrap().0.clone();
    // a second pass with nothing changed reuses the buffer untouched
    cache.ensure_fresh().unwrap();
    let second = cache.buffer().unwrap().0.clone();
    assert_eq!(first, second);
    // even after an explicit invalidation the rebuilt buffer is identical
    cache.invalidate();
    assert!(cache.buffer().is_none());
    cache.ensure_fresh().unwrap();
    let third = cache.buffer().unwrap().0.clone();
    assert_eq!(first, third);
}

#[test]
fn cache_background_only_grid() {
    let mut cache = RenderCache::new(GameMap::empty());
    cache.ensure_fresh().unwrap();
    let (buffer, bounds) = cache.buffer().unwrap();
    assert_eq!(*bounds, (Cell(0, 0), Cell(0, 0)));
    assert_eq!(buffer.len(), 128 * 128 * 4);
    assert!(buffer.iter().all(|&b| b == 255));
}
