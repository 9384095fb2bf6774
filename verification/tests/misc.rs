use tipe_project::framework::constraint::FitnessAdd;
use tipe_project::framework::GaSettings;
use tipe_project::geometry::traits::Zero;
use tipe_project::geometry::workspace::{EuclidianDistance, ManathannDistance, TchebychevDistance};
use tipe_project::parallel::structs::GpuPolyBounds;
use tipe_project::path_planning::graphs_heuristics::{ContinueUntil, ExecutionManager, SampleNTimes};
use tipe_project::path_planning::polyanya::{sort, PolyanyaMode};

#[test]
fn sort_orders_an_edge() {
    assert_eq!(sort([3, 1]), [1, 3]);
    assert_eq!(sort([1, 3]), [1, 3]);
    assert_eq!(sort([2, 2]), [2, 2]);
}

#[test]
fn sample_n_times_stops_after_n() {
    let m = SampleNTimes(3);
    assert!(!m.must_stop(0));
    assert!(!m.must_stop(3));
    assert!(m.must_stop(4));
}

#[test]
fn continue_until_past_deadline_stops() {
    let now = std::time::Instant::now();
    let past = now.checked_sub(std::time::Duration::from_secs(1)).unwrap_or(now);
    if past < now {
        assert!(ContinueUntil(past).must_stop(0));
    }
    let future = std::time::Instant::now() + std::time::Duration::from_secs(3600);
    assert!(!ContinueUntil(future).must_stop(1000));
}

#[test]
fn plain_values() {
    let s = GaSettings { nb_generations: 10, population_size: 20, drain_size: 5 };
    assert_eq!(s.population_size - s.drain_size, 15);
    let f = FitnessAdd(1u8, 2u8);
    assert_eq!(f.0 + f.1, 3);
    let b = GpuPolyBounds { nb_segs: 1, nb_pts: 2, nb_edges_estimated: 3, _pad: 0 };
    assert_eq!(b.nb_pts, 2);
    assert_eq!(<usize as Zero>::ZERO, 0);
    assert!(PolyanyaMode::AStar != PolyanyaMode::Dijkstra);
    let _ = (EuclidianDistance, ManathannDistance, TchebychevDistance);
}
