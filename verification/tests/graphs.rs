use tipe_project::graphs::structs::{CachedFuncGraph, FuncGraph, LinkGraph, MapGraph, SubGraph};
use tipe_project::graphs::traits::{Graph, IterableGraph};

fn sorted(mut v: Vec<usize>) -> Vec<usize> {
    v.sort();
    v
}

#[test]
fn link_graph_add_new_link_grows_and_repeats() {
    let mut g = LinkGraph::new();
    g.add_new_link(0, 3);
    assert_eq!(g.iter(), vec![0, 1, 2, 3]);
    assert_eq!(g.neighbors(0), vec![3]);
    assert_eq!(g.neighbors(3), Vec::<usize>::new());
    g.add_new_link(0, 3);
    assert_eq!(g.neighbors(0), vec![3, 3]);
    g.add_new_link(5, 1);
    assert_eq!(g.iter().len(), 6);
    assert_eq!(g.neighbors(5), vec![1]);
}

#[test]
fn link_graph_add_link_once() {
    let mut g = LinkGraph::default();
    g.add_link(1, 2);
    g.add_link(1, 2);
    g.add_link(1, 0);
    assert_eq!(g.neighbors(1), vec![2, 0]);
    assert_eq!(g.iter(), vec![0, 1, 2]);
}

#[test]
fn link_graph_remove_link_removes_every_copy() {
    let mut g = LinkGraph::new();
    g.add_new_link(0, 1);
    g.add_new_link(0, 2);
    g.add_new_link(0, 1);
    g.add_new_link(0, 3);
    g.remove_link(0, 1);
    assert_eq!(sorted(g.neighbors(0)), vec![2, 3]);
    g.remove_link(7, 1);
    assert_eq!(g.iter().len(), 4);
    g.remove_link(0, 9);
    assert_eq!(sorted(g.neighbors(0)), vec![2, 3]);
}

#[test]
fn map_graph_links() {
    let mut g = MapGraph::new();
    g.add_new_link(10, 20);
    g.add_new_link(10, 20);
    assert_eq!(g.neighbors(10), vec![20, 20]);
    assert_eq!(g.iter(), vec![10]);
    g.add_link(10, 30);
    g.add_link(10, 30);
    assert_eq!(g.neighbors(10), vec![20, 20, 30]);
    g.remove_link(10, 20);
    assert_eq!(g.neighbors(10), vec![30]);
    g.remove_link(40, 1);
    assert_eq!(g.neighbors(40), Vec::<usize>::new());
    assert_eq!(sorted(g.iter()), vec![10, 40]);
}

#[test]
fn map_graph_set_neighbors_and_from_fn() {
    let mut g = MapGraph::default();
    g.set_neighbors(4, vec![1, 2]);
    assert_eq!(g.neighbors(4), vec![1, 2]);
    g.set_neighbors(4, vec![]);
    assert_eq!(g.neighbors(4), Vec::<usize>::new());
    assert_eq!(g.iter(), vec![4]);
    let h = MapGraph::from_fn(vec![0, 1, 2], |v: usize| vec![v + 1, v + 2]);
    assert_eq!(sorted(h.iter()), vec![0, 1, 2]);
    assert_eq!(h.neighbors(1), vec![2, 3]);
}

#[test]
fn func_graph_asks_the_function() {
    let g = FuncGraph::new(|v: usize| if v < 3 { vec![v + 1] } else { vec![] });
    assert_eq!(g.neighbors(0), vec![1]);
    assert_eq!(g.neighbors(3), Vec::<usize>::new());
}

#[test]
fn cached_func_graph_keeps_answers() {
    let calls = std::cell::Cell::new(0usize);
    let g = CachedFuncGraph::new(|v: usize| {
        calls.set(calls.get() + 1);
        vec![2 * v, 2 * v + 1]
    });
    assert_eq!(g.neighbors(3), vec![6, 7]);
    assert_eq!(g.neighbors(3), vec![6, 7]);
    assert_eq!(calls.get(), 1);
    assert_eq!(g.neighbors(0), vec![0, 1]);
    assert_eq!(g.neighbors(3), vec![6, 7]);
    assert_eq!(calls.get(), 2);
}

#[test]
fn subgraph_filters_links() {
    let mut g = LinkGraph::new();
    g.add_new_link(0, 1);
    g.add_new_link(0, 2);
    g.add_new_link(0, 3);
    let s = g.clone().subgraph(|a: usize, b: usize| b != a + 2);
    assert_eq!(s.neighbors(0), vec![1, 3]);
    assert_eq!(s.iter(), vec![0, 1, 2, 3]);
    let t = SubGraph::new(g, |_a: usize, _b: usize| false);
    assert_eq!(t.neighbors(0), Vec::<usize>::new());
}

#[test]
fn range_is_a_path_graph() {
    let r = 2..5usize;
    assert_eq!(r.neighbors(2), vec![3]);
    assert_eq!(r.neighbors(4), Vec::<usize>::new());
    assert_eq!(IterableGraph::iter(&r), vec![2, 3, 4]);
    let e = 5..2usize;
    assert_eq!(IterableGraph::iter(&e), Vec::<usize>::new());
}

#[test]
fn remove_link_order_is_the_swap_remove_scan() {
    let mut g = LinkGraph::new();
    for e in [1, 5, 2, 5, 3] {
        g.add_new_link(0, e);
    }
    g.remove_link(0, 5);
    assert_eq!(g.neighbors(0), vec![1, 3, 2]);
    let mut h = LinkGraph::new();
    for e in [1, 2, 3] {
        h.add_new_link(0, e);
    }
    h.add_new_link(0, 9);
    h.remove_link(0, 9);
    assert_eq!(h.neighbors(0), vec![1, 2, 3]);
    let mut m = MapGraph::new();
    for e in [4, 7, 4, 8] {
        m.add_new_link(2, e);
    }
    m.remove_link(2, 4);
    assert_eq!(m.neighbors(2), vec![8, 7]);
}

#[test]
fn iter_lists_vertices_in_increasing_order() {
    let mut g = LinkGraph::new();
    g.add_new_link(4, 0);
    assert_eq!(g.iter(), vec![0, 1, 2, 3, 4]);
}

#[test]
fn map_graph_from_fn_keeps_the_last_answer() {
    let calls = std::cell::Cell::new(0usize);
    let g = MapGraph::from_fn(vec![1, 2, 1], |_v: usize| {
        calls.set(calls.get() + 1);
        vec![calls.get()]
    });
    assert_eq!(calls.get(), 3);
    assert_eq!(g.neighbors(1), vec![3]);
    assert_eq!(g.neighbors(2), vec![2]);
}
