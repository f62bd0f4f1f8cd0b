use pixelprint::blueprint::{Container, Direction, FORMAT_VERSION};
use pixelprint::grid::{build_grids, GridError};

fn empty_grid(width: usize, height: usize) -> Vec<Vec<&'static str>> {
    vec![vec![""; width]; height]
}

#[test]
fn sequential_ids_skip_empty_cells() {
    let mut entities = empty_grid(3, 2);
    entities[0][0] = "stone-wall";
    entities[0][2] = "pipe";
    entities[1][1] = "gate";
    let c = Container::build(entities, empty_grid(3, 2));
    let es = &c.blueprint.entities;
    assert_eq!(es.len(), 3);
    assert_eq!(es[0].entity_number, 1);
    assert_eq!(es[1].entity_number, 2);
    assert_eq!(es[2].entity_number, 3);
    assert_eq!(es[0].name, "stone-wall");
    assert_eq!(es[1].name, "pipe");
    assert_eq!(es[2].name, "gate");
}

#[test]
fn coordinate_convention_centers_entities_only() {
    // object at cell (column 2, row 3) is anchored at (2.5, 3.5); a tile at
    // the same cell at its integer origin (2, 3). Positions are stored in
    // half-cell units.
    let mut entities = empty_grid(3, 4);
    entities[3][2] = "stone-wall";
    let mut tiles = empty_grid(3, 4);
    tiles[3][2] = "concrete";
    let c = Container::build(entities, tiles);
    assert_eq!(c.blueprint.entities.len(), 1);
    assert_eq!(c.blueprint.entities[0].position.x2, 5);
    assert_eq!(c.blueprint.entities[0].position.y2, 7);
    assert_eq!(c.blueprint.tiles.len(), 1);
    assert_eq!(c.blueprint.tiles[0].position.x2, 4);
    assert_eq!(c.blueprint.tiles[0].position.y2, 6);
}

#[test]
fn rotation_rule_applies_to_underground_connector_at_odd_rows() {
    let mut entities = empty_grid(1, 3);
    entities[0][0] = "pipe-to-ground";
    entities[1][0] = "pipe-to-ground";
    entities[2][0] = "stone-wall";
    let c = Container::build(entities, empty_grid(1, 3));
    assert_eq!(c.blueprint.entities[0].direction, Direction::North);
    assert!(c.blueprint.entities[0].direction.should_skip());
    assert_eq!(c.blueprint.entities[1].direction, Direction::South);
    assert!(!c.blueprint.entities[1].direction.should_skip());
    assert_eq!(c.blueprint.entities[2].direction, Direction::North);
}

#[test]
fn fixed_metadata_is_attached() {
    let c = Container::build(empty_grid(1, 1), empty_grid(1, 1));
    assert_eq!(c.blueprint.item, "blueprint");
    assert_eq!(c.blueprint.label, "Generated Blueprint");
    assert_eq!(c.blueprint.version, FORMAT_VERSION);
    assert_eq!(c.blueprint.version, 281479275413505);
    assert_eq!(c.blueprint.icons.len(), 1);
    assert_eq!(c.blueprint.icons[0].signal.name, "stone-wall");
    assert_eq!(c.blueprint.icons[0].index, 1);
}

#[test]
fn zero_area_buffer_is_rejected() {
    assert!(matches!(build_grids(0, 5, &Vec::new()), Err(GridError::EmptyInput)));
    assert!(matches!(build_grids(5, 0, &Vec::new()), Err(GridError::EmptyInput)));
}

#[test]
fn grids_are_filled_by_category() {
    // stone-path (82, 81, 74) is a ground entry, stone-wall (206, 219, 206)
    // an object entry, and a transparent pixel feeds neither grid.
    let pixels = vec![(82, 81, 74, 255), (0, 0, 0, 0), (206, 219, 206, 255)];
    let (objects, ground) = build_grids(3, 1, &pixels).unwrap();
    assert_eq!(objects, vec![vec!["", "", "stone-wall"]]);
    assert_eq!(ground, vec![vec!["stone-path", "", ""]]);
}
