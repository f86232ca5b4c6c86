use vector_race::map::Color;
use vector_race::mouse::{Mouse, MouseButton};
use vector_race::{Cell, Directions, GameMap, Side, Tile};

#[test]
fn read_tile_known_characters() {
    assert_eq!(Tile::read_tile(" ").unwrap(), Tile::Empty);
    assert_eq!(Tile::read_tile("W").unwrap(), Tile::Wall);
    assert_eq!(Tile::read_tile("R").unwrap(), Tile::Road);
    assert_eq!(Tile::read_tile("G").unwrap(), Tile::Gravel);
    assert_eq!(Tile::read_tile("D").unwrap(), Tile::Dirt);
    assert_eq!(Tile::read_tile("I").unwrap(), Tile::Ice);
}

#[test]
fn read_tile_errors() {
    assert_eq!(Tile::read_tile("").unwrap_err(), "nul character");
    assert_eq!(Tile::read_tile("X").unwrap_err(), "unknown character X");
    assert_eq!(Tile::read_tile("DD").unwrap_err(), "too many characters");
}

#[test]
fn tile_colors() {
    assert_eq!(Tile::Empty.tile_color(), Color { r: 255, g: 255, b: 255 });
    assert_eq!(Tile::Road.tile_color(), Color { r: 128, g: 128, b: 128 });
    assert_eq!(Tile::Wall.tile_color(), Color { r: 0, g: 0, b: 0 });
    assert_eq!(Tile::Gravel.tile_color(), Color { r: 100, g: 100, b: 100 });
    assert_eq!(Tile::Dirt.tile_color(), Color { r: 255, g: 0, b: 0 });
    assert_eq!(Tile::Ice.tile_color(), Color { r: 0, g: 0, b: 255 });
}

#[test]
fn set_and_get_tiles() {
    let mut map = GameMap::empty();
    assert_eq!(map.get_tile(Cell(0, 0)), Tile::Empty);
    // a new cell always counts as changed, a rewrite of the same value never
    assert!(map.set_tile(Cell(0, 0), Tile::Dirt));
    assert!(!map.set_tile(Cell(0, 0), Tile::Dirt));
    assert!(map.set_tile(Cell(0, 0), Tile::Wall));
    assert_eq!(map.get_tile(Cell(0, 0)), Tile::Wall);
    assert_eq!(map.get_tile(Cell(1, 0)), Tile::Empty);
    // setting an unset cell to the default value still counts as a change
    assert!(map.set_tile(Cell(5, 5), Tile::Empty));
    assert_eq!(map.get_tile(Cell(5, 5)), Tile::Empty);
}

#[test]
fn iter_tiles_lists_set_cells() {
    let mut map = GameMap::empty();
    map.set_tile(Cell(1, 2), Tile::Road);
    map.set_tile(Cell(-3, 4), Tile::Ice);
    let tiles = map.iter_tiles();
    assert_eq!(tiles.len(), 2);
    assert!(tiles.contains(&((1, 2), Tile::Road)));
    assert!(tiles.contains(&((-3, 4), Tile::Ice)));
}

#[test]
fn side_turns_and_offsets() {
    assert_eq!(Side::Up.dir(), (0, -1));
    assert_eq!(Side::Right.dir(), (1, 0));
    assert_eq!(Side::Down.dir(), (0, 1));
    assert_eq!(Side::Left.dir(), (-1, 0));
    for side in Side::iter() {
        assert_eq!(Side::from_dir(side.dir()).unwrap(), side);
        assert_eq!(side.turn_right().turn_left(), side);
        assert_eq!(
            side.turn_right().turn_right().turn_right().turn_right(),
            side
        );
    }
    assert!(Side::from_dir((1, 1)).is_err());
    assert!(Side::from_dir((0, 0)).is_err());
    assert_eq!(
        Side::iter_dir().to_vec(),
        vec![(0, -1), (1, 0), (0, 1), (-1, 0)]
    );
}

#[test]
fn directions_turns_and_offsets() {
    for dir in Directions::iter() {
        assert_eq!(Directions::from_dir(dir.dir()).unwrap(), dir);
        assert_eq!(dir.turn_right().turn_left(), dir);
    }
    let mut eighth = Directions::Up;
    for _ in 0..8 {
        eighth = eighth.turn_right();
    }
    assert_eq!(eighth, Directions::Up);
    assert!(Directions::from_dir((2, 0)).is_err());
    assert!(Directions::from_dir((0, 0)).is_err());
    assert_eq!(Directions::iter_dir().len(), 8);
}

#[test]
fn mouse_tracks_movement_and_clicks() {
    let mut mouse = Mouse::new();
    assert!(mouse.move_to((10, 20)).is_none());
    // movement reports the vector from the previous position
    assert_eq!(mouse.move_to((4, 25)), Some((6, -5)));

    mouse.click(MouseButton::Left, (100, 50));
    assert_eq!(mouse.get_click(), Some((MouseButton::Left, (100, 50))));
    // releasing another button changes nothing
    assert!(mouse.click_up(MouseButton::Right, (100, 50)).is_none());
    assert!(mouse.get_click().is_some());
    // releasing the held button reports the drag vector and clears it
    assert_eq!(mouse.click_up(MouseButton::Left, (90, 60)), Some((10, -10)));
    assert!(mouse.get_click().is_none());

    mouse.reset();
    assert!(mouse.position.is_none());
    assert!(mouse.clicked.is_none());
}
