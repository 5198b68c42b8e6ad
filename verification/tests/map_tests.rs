use gridmap::game::{populate_grid, render_grid, GridEntity, GridSpace, MapError};
use gridmap::grid::Grid;
use gridmap::grid1::Grid1;

#[test]
fn parse_round_trip() {
    let text = "x.x\n...\nx.x";
    let grid: Grid1<GridSpace> = populate_grid(text).unwrap();

    assert_eq!(grid.width(), 3);
    assert_eq!(grid.height(), 3);
    for y in 0..3 {
        for x in 0..3 {
            let wall = (x == 0 || x == 2) && (y == 0 || y == 2);
            assert_eq!(
                matches!(grid.get(x, y).entity, GridEntity::Wall),
                wall,
                "cell ({}, {})",
                x,
                y
            );
        }
    }

    let rendered = render_grid(&grid);
    assert_eq!(String::from_utf8(rendered).unwrap(), "X . X \n. . . \nX . X \n");
}

#[test]
fn mismatched_row_is_rejected() {
    let r: Result<Grid1<GridSpace>, MapError> = populate_grid("xx\nx");
    let e = r.err().unwrap();
    assert_eq!(e.line, 2);
    assert_eq!(e.expected, 2);
    assert_eq!(e.actual, 1);
}

#[test]
fn rows_are_trimmed_before_use() {
    let text = "  x. \n\t.x  ";
    let grid: Grid1<GridSpace> = populate_grid(text).unwrap();
    assert_eq!(grid.width(), 2);
    assert_eq!(grid.height(), 2);
    assert!(matches!(grid.get(0, 0).entity, GridEntity::Wall));
    assert!(matches!(grid.get(1, 0).entity, GridEntity::Empty));
    assert!(matches!(grid.get(0, 1).entity, GridEntity::Empty));
    assert!(matches!(grid.get(1, 1).entity, GridEntity::Wall));
}

#[test]
fn unknown_characters_are_empty() {
    let grid: Grid1<GridSpace> = populate_grid("ax.").unwrap();
    assert_eq!(grid.width(), 3);
    assert_eq!(grid.height(), 1);
    assert!(matches!(grid.get(0, 0).entity, GridEntity::Empty));
    assert!(matches!(grid.get(1, 0).entity, GridEntity::Wall));
    assert!(matches!(grid.get(2, 0).entity, GridEntity::Empty));
}

#[test]
fn empty_text_is_one_empty_row() {
    let grid: Grid1<GridSpace> = populate_grid("").unwrap();
    assert_eq!(grid.width(), 0);
    assert_eq!(grid.height(), 1);
    assert_eq!(String::from_utf8(render_grid(&grid)).unwrap(), "\n");
}

#[test]
fn trailing_newline_means_an_empty_last_row() {
    let r: Result<Grid1<GridSpace>, MapError> = populate_grid("x\n");
    let e = r.err().unwrap();
    assert_eq!(e.line, 2);
    assert_eq!(e.expected, 1);
    assert_eq!(e.actual, 0);
}

#[test]
fn default_space_is_empty() {
    let sp = GridSpace::default();
    assert!(matches!(sp.entity, GridEntity::Empty));
    let wall = GridSpace::wall();
    assert!(matches!(wall.entity, GridEntity::Wall));
}
