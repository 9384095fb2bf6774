use tipe_project::graphs::grid::Grid;
use tipe_project::graphs::search::dijkstra_with;
use tipe_project::graphs::structs::{LinkGraph, MapGraph};

fn weighted_graph() -> MapGraph {
    // 0 -> 1 (cost 1), 1 -> 3 (cost 1), 0 -> 2 (cost 5), 2 -> 3 (cost 1), 0 -> 3 (cost 10)
    let mut g = MapGraph::new();
    g.add_new_link(0, 1);
    g.add_new_link(0, 2);
    g.add_new_link(0, 3);
    g.add_new_link(1, 3);
    g.add_new_link(2, 3);
    g.set_neighbors(3, vec![]);
    g
}

fn cost(a: usize, b: usize) -> u64 {
    match (a, b) {
        (0, 1) => 1,
        (1, 3) => 1,
        (0, 2) => 5,
        (2, 3) => 1,
        (0, 3) => 10,
        _ => 100,
    }
}

#[test]
fn dijkstra_finds_the_cheapest_path() {
    let g = weighted_graph();
    let r = dijkstra_with(&g, 0, |v: usize| v == 3, cost, |_a: usize, _b: usize| false);
    assert_eq!(r, Some((vec![0, 1, 3], 2)));
}

#[test]
fn dijkstra_start_is_an_end() {
    let g = weighted_graph();
    let r = dijkstra_with(&g, 0, |v: usize| v == 0, cost, |_a: usize, _b: usize| false);
    assert_eq!(r, Some((vec![0], 0)));
}

#[test]
fn dijkstra_unreachable_end() {
    let g = weighted_graph();
    let r = dijkstra_with(&g, 1, |v: usize| v == 2, cost, |_a: usize, _b: usize| false);
    assert_eq!(r, None);
}

#[test]
fn dijkstra_with_shortcuts_skips_vertices() {
    let mut g = LinkGraph::new();
    g.add_new_link(0, 1);
    g.add_new_link(1, 2);
    g.add_new_link(2, 3);
    let unit = |_a: usize, _b: usize| 1u64;
    let r = dijkstra_with(&g, 0, |v: usize| v == 3, unit, |_a: usize, _b: usize| false);
    assert_eq!(r, Some((vec![0, 1, 2, 3], 3)));
    let r = dijkstra_with(&g, 0, |v: usize| v == 3, unit, |_a: usize, _b: usize| true);
    assert_eq!(r, Some((vec![0, 3], 1)));
}

#[test]
fn dijkstra_on_a_grid() {
    let g = Grid::new([4, 3]);
    let unit = |_a: usize, _b: usize| 1u64;
    let r = dijkstra_with(&g, 0, |v: usize| v == 11, unit, |_a: usize, _b: usize| false);
    let (path, c) = r.unwrap();
    assert_eq!(c, 5);
    assert_eq!(path.len(), 6);
    assert_eq!(path[0], 0);
    assert_eq!(path[5], 11);
}

#[test]
fn dijkstra_costs_stop_at_the_maximum() {
    let mut g = LinkGraph::new();
    g.add_new_link(0, 1);
    g.add_new_link(1, 2);
    let big = |_a: usize, _b: usize| u64::MAX;
    let r = dijkstra_with(&g, 0, |v: usize| v == 2, big, |_a: usize, _b: usize| false);
    assert_eq!(r, Some((vec![0, 1, 2], u64::MAX)));
}

#[test]
fn dijkstra_two_cheap_links_beat_one_dear_link() {
    let mut g = LinkGraph::new();
    g.add_new_link(0, 1);
    g.add_new_link(0, 2);
    g.add_new_link(2, 1);
    let w = |a: usize, b: usize| if (a, b) == (0, 1) { 5u64 } else { 1 };
    let r = dijkstra_with(&g, 0, |v: usize| v == 1, w, |_a: usize, _b: usize| false);
    assert_eq!(r, Some((vec![0, 2, 1], 2)));
}
