use card_raytracer::scene::{Cell, Scene, COLUMNS, FIRST_ROW_DEPTH, MAX_ROWS};
use itertools::Itertools;

fn picture(scene: &Scene) -> Vec<String> {
    let mut lines = Vec::new();
    for row in (0..scene.row_count()).rev() {
        let mut line = String::new();
        for column in (0..COLUMNS).rev() {
            line.push(if scene.occupied(row, column) { '1' } else { '0' });
        }
        lines.push(line);
    }
    lines
}

#[test]
fn standard_scene_draws_its_logo() {
    let scene = Scene::standard();
    assert_eq!(scene.row_count(), 6);
    assert_eq!(
        picture(&scene),
        vec![
            "0000001011100001110",
            "0000001110110011011",
            "0000001100000001000",
            "0000001100000000110",
            "0110001100000011011",
            "0110001100000001110",
        ]
    );
}

#[test]
fn standard_scene_has_thirty_eight_spheres() {
    let cells = Scene::standard().sphere_cells();
    assert_eq!(cells.len(), 38);
}

#[test]
fn sphere_cells_follow_the_scan_column_by_column() {
    let cells = Scene::standard().sphere_cells();
    let first: Vec<(u32, u32)> = cells.iter().take(7).map(|c| (c.column, c.row)).collect();
    assert_eq!(first, vec![(0, 1), (0, 4), (1, 0), (1, 1), (1, 2), (1, 4), (1, 5)]);
    let last = cells[cells.len() - 1];
    assert_eq!(last, Cell { column: 17, row: 1 });
    for pair in cells.windows(2) {
        assert!((pair[0].column, pair[0].row) < (pair[1].column, pair[1].row));
    }
}

#[test]
fn sphere_cells_are_exactly_the_occupied_cells() {
    let scene = Scene::standard();
    let cells = scene.sphere_cells();
    for column in 0..COLUMNS {
        for row in 0..scene.row_count() {
            let listed = cells.contains(&Cell { column, row });
            assert_eq!(listed, scene.occupied(row, column));
        }
    }
}

#[test]
fn nothing_is_occupied_outside_the_grid() {
    let scene = Scene::standard();
    assert!(scene.occupied(0, 1));
    assert!(!scene.occupied(0, 0));
    assert!(!scene.occupied(6, 1));
    assert!(!scene.occupied(0, COLUMNS));
    assert!(!scene.occupied(0, 32));
    assert!(!scene.occupied(u32::MAX, u32::MAX));
}

#[test]
fn bits_beyond_the_last_column_hold_no_sphere() {
    let scene = Scene::from_rows(vec![u32::MAX]).unwrap();
    let cells = scene.sphere_cells();
    assert_eq!(cells.len(), COLUMNS as usize);
    for (k, cell) in cells.iter().enumerate() {
        assert_eq!(*cell, Cell { column: k as u32, row: 0 });
    }
    assert!(scene.occupied(0, 18));
    assert!(!scene.occupied(0, 19));
}

#[test]
fn nine_row_scene_lists_forty_nine_spheres() {
    let rows = vec![247570, 280596, 280600, 249748, 18578, 18577, 231184, 16, 16];
    let scene = Scene::from_rows(rows).unwrap();
    assert_eq!(scene.row_count(), 9);
    let cells = scene.sphere_cells();
    assert_eq!(cells.len(), 49);
    assert_eq!(cells[0], Cell { column: 0, row: 5 });
    assert_eq!(cells[1], Cell { column: 1, row: 0 });
    assert_eq!(cells[48], Cell { column: 18, row: 2 });
}

#[test]
fn empty_scene_has_no_spheres() {
    let scene = Scene::from_rows(Vec::new()).unwrap();
    assert_eq!(scene.row_count(), 0);
    assert!(scene.sphere_cells().is_empty());
    assert!(!scene.occupied(0, 0));
}

#[test]
fn blank_rows_have_no_spheres() {
    let scene = Scene::from_rows(vec![0, 0, 0]).unwrap();
    assert!(scene.sphere_cells().is_empty());
}

#[test]
fn single_sphere_is_found_where_its_bit_is() {
    let scene = Scene::from_rows(vec![0, 0, 1 << 7]).unwrap();
    assert_eq!(scene.sphere_cells(), vec![Cell { column: 7, row: 2 }]);
}

#[test]
fn centre_lies_on_the_plane_behind_the_first_row() {
    assert_eq!(FIRST_ROW_DEPTH, 4);
    assert_eq!(Cell { column: 0, row: 0 }.center(), (0, 0, 4));
    assert_eq!(Cell { column: 17, row: 5 }.center(), (17, 0, 9));
    assert_eq!(
        Cell { column: u32::MAX, row: u32::MAX }.center(),
        (4294967295, 0, 4294967299)
    );
}

#[test]
fn row_limit_is_the_range_of_a_row_number() {
    assert_eq!(MAX_ROWS as u64, u32::MAX as u64);
}

#[test]
fn sphere_cells_follow_the_product_of_columns_and_rows() {
    let grids = vec![
        vec![202766, 202779, 6150, 6152, 7579, 5902],
        vec![247570, 280596, 280600, 249748, 18578, 18577, 231184, 16, 16],
        vec![u32::MAX, 0, 0x55555555, 0xAAAAAAAA],
        vec![1],
        vec![],
    ];
    for rows in grids {
        let expected: Vec<Cell> = (0..19u32)
            .cartesian_product(0..rows.len())
            .filter(|&(k, j)| rows[j] & (1 << k) > 0)
            .map(|(k, j)| Cell { column: k, row: j as u32 })
            .collect();
        let scene = Scene::from_rows(rows).unwrap();
        assert_eq!(scene.sphere_cells(), expected);
    }
}
