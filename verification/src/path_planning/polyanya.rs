use vstd::prelude::*;

verus! {

/// How the search orders the intervals it expands.
#[derive(Clone, Copy, Debug, PartialEq, Eq)]
pub enum PolyanyaMode {
    DijkstraExhaustive,
    Dijkstra,
    AStar,
}

/// The two ends of an edge, smaller first.
pub fn sort(edge: [usize; 2]) -> (r: [usize; 2])
    ensures
        r@ == if edge[0] < edge[1] {
            seq![edge[0], edge[1]]
        } else {
            seq![edge[1], edge[0]]
        },
{
    let a = edge[0];
    let b = edge[1];
    if a < b {
        [a, b]
    } else {
        [b, a]
    }
}

} // verus!
