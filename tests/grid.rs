use fences::grid::Grid;

#[test]
fn rotation_works() {
    let grid = Grid {
        data: vec![0, 1, 2, 3],
        rows: 2,
        cols: 2,
    };
    let r_grid = grid.rotate();

    assert_eq!(2, r_grid.get(0, 0));
    assert_eq!(0, r_grid.get(0, 1));
    assert_eq!(3, r_grid.get(1, 0));
    assert_eq!(1, r_grid.get(1, 1));
}

#[test]
fn rotation_works1() {
    let grid = Grid {
        data: vec![0, 1],
        rows: 1,
        cols: 2,
    };
    let r_grid = grid.rotate();

    println!("{r_grid:?}");

    assert_eq!(0, r_grid.get(0, 0));
    assert_eq!(1, r_grid.get(1, 0));
}

#[test]
fn rotate_non_square_shape() {
    let grid = Grid {
        data: vec![1, 2, 3, 4, 5, 6],
        rows: 2,
        cols: 3,
    };
    let r = grid.rotate();
    assert_eq!(r.size(), (3, 2));
    assert_eq!(r.data, vec![4, 1, 5, 2, 6, 3]);
}

#[test]
fn from_vec_checks_shape() {
    assert!(Grid::from_vec(vec![1, 2, 3], 2, 2).is_none());
    let g = Grid::from_vec(vec![1, 2, 3, 4, 5, 6], 3, 2).unwrap();
    assert_eq!(g.get(2, 1), 6);
    assert_eq!(g.subgrid_iter((1, 0), (2, 2)), vec![3, 4, 5, 6]);
}

#[test]
fn set_changes_one_cell() {
    let mut g = Grid::filled(2, 2, 0u8);
    g.set(1, 0, 7);
    assert_eq!(g.data, vec![0, 0, 7, 0]);
}

#[test]
fn window_is_clipped_to_the_grid() {
    let g = Grid::from_vec(vec![1, 2, 3, 4, 5, 6], 2, 3).unwrap();
    assert_eq!(g.subgrid_iter((1, 1), (5, 5)), vec![5, 6]);
    assert_eq!(g.subgrid_iter((0, 2), (2, 4)), vec![3, 6]);
    assert_eq!(g.subgrid_iter((2, 0), (1, 1)), Vec::<i32>::new());
}
