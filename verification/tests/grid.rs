use tipe_project::geometry::vecs::VecN;
use tipe_project::graphs::grid::Grid;
use tipe_project::graphs::traits::{Graph, IterableGraph};

#[test]
fn grid_new_sizes() {
    let g = Grid::new([3, 4]);
    assert_eq!(g.sizes, [3, 4]);
    assert_eq!(g.size, 12);
    let h = Grid::new([2, 0, 5]);
    assert_eq!(h.size, 0);
    let e: Grid<0> = Grid::new([]);
    assert_eq!(e.size, 1);
}

#[test]
fn grid_coordinates_and_index() {
    let g = Grid::new([3, 4]);
    assert_eq!(g.ith_coord(7, 0), 1);
    assert_eq!(g.ith_coord(7, 1), 2);
    assert_eq!(g.coords(7), VecN([1, 2]));
    assert_eq!(g.index(VecN([1, 2])), 7);
    for v in 0..12 {
        assert_eq!(g.index(g.coords(v)), v);
    }
}

#[test]
fn grid_neighbors_down_then_up() {
    let g = Grid::new([3, 4]);
    assert_eq!(g.neighbors(7), vec![6, 4, 8, 10]);
    assert_eq!(g.neighbors(0), vec![1, 3]);
    assert_eq!(g.neighbors(11), vec![10, 8]);
    assert_eq!(g.iter(), (0..12).collect::<Vec<usize>>());
}

#[test]
fn grid_iter_cube_first_axis_fastest() {
    let g = Grid::new([3, 4]);
    assert_eq!(g.iter_cube(VecN([0, 1]), VecN([1, 2])), vec![3, 4, 6, 7]);
    assert_eq!(g.iter_cube(VecN([2, 3]), VecN([2, 3])), vec![11]);
    assert_eq!(g.iter_cube(VecN([0, 0]), VecN([2, 3])), (0..12).collect::<Vec<usize>>());
}

#[test]
fn grid_iter_cube_three_axes() {
    let g = Grid::new([2, 2, 2]);
    assert_eq!(g.iter_cube(VecN([1, 0, 0]), VecN([1, 1, 1])), vec![1, 3, 5, 7]);
}

#[test]
fn grid_coords_of_index_round_trip() {
    let g = Grid::new([3, 4, 2]);
    for x in 0..3 {
        for y in 0..4 {
            for z in 0..2 {
                let c = VecN([x, y, z]);
                assert_eq!(g.coords(g.index(c)), c);
            }
        }
    }
}

#[test]
fn grid_neighbors_differ_by_one_step() {
    let g = Grid::new([3, 4, 2]);
    for v in 0..g.size {
        let cv = g.coords(v);
        let ns = g.neighbors(v);
        let mut expected = 0;
        for i in 0..3 {
            if cv.0[i] != 0 {
                expected += 1;
            }
            if cv.0[i] + 1 != g.sizes[i] {
                expected += 1;
            }
        }
        assert_eq!(ns.len(), expected);
        for n in ns {
            let cn = g.coords(n);
            let diff: usize = (0..3).map(|i| cv.0[i].abs_diff(cn.0[i])).sum();
            assert_eq!(diff, 1);
        }
    }
}
