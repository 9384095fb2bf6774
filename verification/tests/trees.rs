use tipe_project::graphs::traits::{Graph, IterableGraph};
use tipe_project::graphs::trees::{ParentTree, Tree};

fn sorted(mut v: Vec<usize>) -> Vec<usize> {
    v.sort();
    v
}

#[test]
fn parent_tree_paths() {
    let mut t = ParentTree::new();
    t.set_parent(1, 0);
    t.set_parent(2, 1);
    t.set_parent(3, 1);
    assert_eq!(t.get_parent(2), Some(1));
    assert_eq!(t.get_parent(0), None);
    assert_eq!(t.nb_links(), 3);
    assert_eq!(t.path_to(2), vec![0, 1]);
    assert_eq!(t.path_to(0), Vec::<usize>::new());
    assert_eq!(t.neighbors(3), vec![1]);
    assert_eq!(t.neighbors(0), Vec::<usize>::new());
    assert_eq!(sorted(t.iter()), vec![1, 2, 3]);
    t.set_parent(3, 2);
    assert_eq!(t.path_to(3), vec![0, 1, 2]);
    assert_eq!(t.nb_links(), 3);
}

#[test]
fn tree_parents_and_children() {
    let mut t = Tree::new();
    t.set_parent(1, 0);
    t.set_parent(2, 0);
    t.set_parent(3, 1);
    assert_eq!(t.get_children(0), &[1, 2]);
    assert_eq!(t.get_children(1), &[3]);
    assert_eq!(t.get_children(9), &[] as &[usize]);
    assert_eq!(t.get_parent(3), Some(1));
    assert_eq!(t.get_parent(0), None);
    assert_eq!(t.get_parent(9), None);
    assert_eq!(t.nb_links(), 4);
    assert_eq!(t.path_to(3), vec![0, 1]);
    assert_eq!(t.neighbors(3), vec![1]);
    assert_eq!(t.neighbors(0), Vec::<usize>::new());
    assert_eq!(sorted(t.iter()), vec![0, 1, 2, 3]);
}

#[test]
fn tree_reparenting_moves_the_child() {
    let mut t = Tree::new();
    t.set_parent(1, 0);
    t.set_parent(2, 0);
    t.set_parent(1, 2);
    assert_eq!(t.get_children(0), &[2]);
    assert_eq!(t.get_children(2), &[1]);
    assert_eq!(t.get_parent(1), Some(2));
    assert_eq!(t.path_to(1), vec![0, 2]);
    t.set_parent(1, 2);
    assert_eq!(t.get_children(2), &[1]);
}

#[test]
fn parent_tree_count_after_set_parent() {
    let mut t = ParentTree::new();
    t.set_parent(1, 0);
    let n = t.nb_links();
    t.set_parent(1, 2);
    assert_eq!(t.nb_links(), n);
    t.set_parent(3, 2);
    assert_eq!(t.nb_links(), n + 1);
}
