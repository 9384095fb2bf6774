use tipe_project::geometry::polygon_map_generator::{
    merge_square_cells, random_merge_draws, random_square_merges, square_map_outlines,
};

#[test]
fn merge_cells_opens_sides_between_groups_only() {
    let draws = vec![(0, 1), (0, 1), (0, 0), (1, 2), (3, 3), (2, 0)];
    let open = merge_square_cells(2, &draws);
    assert_eq!(
        open,
        vec![
            [false, true, false, false],
            [false, false, true, true],
            [false, true, false, false],
            [true, false, false, true],
        ]
    );
}

#[test]
fn merge_cells_without_draws_keeps_all_sides_closed() {
    let open = merge_square_cells(3, &Vec::new());
    assert_eq!(open.len(), 9);
    assert!(open.iter().all(|c| *c == [false; 4]));
}

#[test]
fn merge_cells_open_sides_face_each_other() {
    let draws: Vec<(usize, usize)> = (0..64).map(|k| ((k * 7) % 16, (k * 3) % 4)).collect();
    let open = merge_square_cells(4, &draws);
    let mut opened = 0;
    for c in 0..16usize {
        for d in 0..4usize {
            if open[c][d] {
                opened += 1;
                let m = match d {
                    0 => c - 4,
                    1 => c + 1,
                    2 => c + 4,
                    _ => c - 1,
                };
                assert!(open[m][(d + 2) % 4]);
            }
        }
    }
    assert!(opened / 2 <= 15);
}

#[test]
fn outlines_of_a_single_cell() {
    let open = vec![[false; 4]];
    let r = square_map_outlines(1, &open);
    assert_eq!(r, vec![vec![(0, 0), (0, 1), (0, 2), (0, 3)]]);
}

#[test]
fn outlines_go_round_merged_cells() {
    let open = merge_square_cells(2, &vec![(0, 1)]);
    let r = square_map_outlines(2, &open);
    assert_eq!(
        r,
        vec![
            vec![(0, 0), (0, 1), (1, 0), (1, 1), (1, 2), (1, 3), (0, 2), (0, 3)],
            vec![(2, 0), (2, 1), (2, 2), (2, 3)],
            vec![(3, 0), (3, 1), (3, 2), (3, 3)],
        ]
    );
}

#[test]
fn outlines_of_an_empty_grid() {
    let r = square_map_outlines(0, &Vec::new());
    assert!(r.is_empty());
}

#[test]
fn outlines_visit_each_corner_once() {
    let draws: Vec<(usize, usize)> = (0..64).map(|k| ((k * 5) % 16, (k * 3) % 4)).collect();
    let open = merge_square_cells(4, &draws);
    let r = square_map_outlines(4, &open);
    let mut seen = vec![[0usize; 4]; 16];
    for outline in &r {
        assert_eq!(outline[0].1, 0);
        for &(c, d) in outline {
            seen[c][d] += 1;
        }
    }
    assert!(seen.iter().all(|s| *s == [1; 4]));
    let starts: Vec<usize> = r.iter().map(|o| o[0].0).collect();
    let mut sorted = starts.clone();
    sorted.sort();
    assert_eq!(starts, sorted);
}

#[test]
fn merge_cells_with_every_draw_leaves_a_spanning_tree() {
    let mut draws = Vec::new();
    for c in 0..9usize {
        for d in 0..4usize {
            draws.push((c, d));
        }
    }
    let open = merge_square_cells(3, &draws);
    let opened: usize = open.iter().map(|c| c.iter().filter(|b| **b).count()).sum();
    assert_eq!(opened, 2 * (9 - 1));
    let r = square_map_outlines(3, &open);
    assert_eq!(r.len(), 1);
    assert_eq!(r[0].len(), 36);
}

#[test]
fn random_merge_draws_stay_in_the_grid() {
    let draws = random_merge_draws(3, 25);
    assert_eq!(draws.len(), 25);
    assert!(draws.iter().all(|&(c, d)| c < 9 && d < 4));
    assert!(random_merge_draws(0, 0).is_empty());
}

#[test]
fn random_square_merges_open_facing_sides() {
    let open = random_square_merges(4, 60);
    assert_eq!(open.len(), 16);
    let mut opened = 0;
    for c in 0..16usize {
        for d in 0..4usize {
            if open[c][d] {
                opened += 1;
                let m = match d {
                    0 => c - 4,
                    1 => c + 1,
                    2 => c + 4,
                    _ => c - 1,
                };
                assert!(open[m][(d + 2) % 4]);
            }
        }
    }
    assert!(opened / 2 <= 15);
    assert!(random_square_merges(0, 0).is_empty());
}
