use arrow_cpm::edge::{Cost, Edge, Moment};
use arrow_cpm::graph::{Graph, SchedulingError};

/// The diamond network: A(3) before B(2) and C(4), both before D(1).
fn diamond() -> Graph {
    let mut g = Graph::new();
    g.add_activity(1, 3).unwrap();
    g.add_activity(2, 2).unwrap();
    g.add_activity(3, 4).unwrap();
    g.add_activity(4, 1).unwrap();
    g.link(1, 2).unwrap();
    g.link(1, 3).unwrap();
    g.link(2, 4).unwrap();
    g.link(3, 4).unwrap();
    g
}

#[test]
fn test1() {
    let edge1 = Edge::new(2);
    let edge2 = Edge::new(2);
    assert_eq!(edge1.cost, Cost::Duration(2));
    assert_eq!(edge2.cost, Cost::Duration(2));
    let mut g = Graph::new();
    g.add_activity(1, 2).unwrap();
    g.add_activity(2, 2).unwrap();
    g.link(1, 2).unwrap();
    assert_eq!(g.activity(0).next.len(), 1);
    assert_eq!(g.activity(1).prev.len(), 1);
}

#[test]
fn edge_set_es_derives_ef() {
    let mut e = Edge::new(5);
    e.set_es(3);
    assert_eq!(e.es, Moment::Moment(3));
    assert_eq!(e.ef, Moment::Moment(8));
}

#[test]
fn edge_set_lf_derives_ls() {
    let mut e = Edge::new(5);
    e.set_lf(9);
    assert_eq!(e.lf, Moment::Moment(9));
    assert_eq!(e.ls, Moment::Moment(4));
}

#[test]
fn edge_unknown_cost_keeps_derived_fields() {
    let mut e = Edge::new(5);
    e.cost = Cost::Unknown;
    e.set_es(3);
    assert_eq!(e.es, Moment::Moment(3));
    assert_eq!(e.ef, Moment::Unknown);
    e.set_lf(9);
    assert_eq!(e.lf, Moment::Moment(9));
    assert_eq!(e.ls, Moment::Unknown);
}

#[test]
fn forward_pass_diamond() {
    let mut g = diamond();
    g.run_forward().unwrap();
    assert_eq!(g.activity(0).es, Moment::Moment(0));
    assert_eq!(g.activity(0).ef, Moment::Moment(3));
    assert_eq!(g.activity(1).es, Moment::Moment(3));
    assert_eq!(g.activity(1).ef, Moment::Moment(5));
    assert_eq!(g.activity(2).es, Moment::Moment(3));
    assert_eq!(g.activity(2).ef, Moment::Moment(7));
    assert_eq!(g.activity(3).es, Moment::Moment(7));
    assert_eq!(g.activity(3).ef, Moment::Moment(8));
}

#[test]
fn backward_pass_diamond() {
    let mut g = diamond();
    g.run_forward().unwrap();
    g.run_backward(None).unwrap();
    assert_eq!(g.project_duration(), 8);
    assert_eq!(g.activity(3).lf, Moment::Moment(8));
    assert_eq!(g.activity(3).ls, Moment::Moment(7));
    assert_eq!(g.activity(2).lf, Moment::Moment(7));
    assert_eq!(g.activity(2).ls, Moment::Moment(3));
    assert_eq!(g.activity(1).lf, Moment::Moment(7));
    assert_eq!(g.activity(1).ls, Moment::Moment(5));
    assert_eq!(g.activity(0).lf, Moment::Moment(3));
    assert_eq!(g.activity(0).ls, Moment::Moment(0));
}

#[test]
fn floats_and_critical_path_diamond() {
    let mut g = diamond();
    g.run_forward().unwrap();
    g.run_backward(None).unwrap();
    assert_eq!(g.floats(0), (0, 0));
    assert_eq!(g.floats(1), (2, 2));
    assert_eq!(g.floats(2), (0, 0));
    assert_eq!(g.floats(3), (0, 0));
    assert!(g.is_critical(0));
    assert!(!g.is_critical(1));
    assert!(g.is_critical(2));
    assert!(g.is_critical(3));
    assert_eq!(g.critical_path_ids(), vec![1u64, 3, 4]);
}

#[test]
fn schedule_report_diamond() {
    let mut g = diamond();
    g.run_forward().unwrap();
    g.run_backward(None).unwrap();
    let report = g.schedule();
    assert_eq!(report.len(), 4);
    let b = report[1];
    assert_eq!(b.id, 2);
    assert_eq!((b.es, b.ef, b.ls, b.lf), (3, 5, 5, 7));
    assert_eq!((b.tf, b.ff), (2, 2));
    assert!(!b.is_critical);
    let c = report[2];
    assert_eq!(c.id, 3);
    assert_eq!((c.es, c.ef, c.ls, c.lf), (3, 7, 3, 7));
    assert!(c.is_critical);
}

#[test]
fn derived_fields_and_float_bounds_hold() {
    let mut g = diamond();
    g.run_forward().unwrap();
    g.run_backward(None).unwrap();
    let durations = [3usize, 2, 4, 1];
    let report = g.schedule();
    for (entry, dur) in report.iter().zip(durations.iter()) {
        assert_eq!(entry.ef - entry.es, *dur);
        assert_eq!(entry.lf - entry.ls, *dur);
        assert!(entry.tf >= entry.ff);
        assert_eq!(entry.is_critical, entry.tf == 0);
    }
}

#[test]
fn cycle_rejection_leaves_graph_unchanged() {
    let mut g = diamond();
    g.run_forward().unwrap();
    g.run_backward(None).unwrap();
    assert_eq!(g.link(4, 1), Err(SchedulingError::CycleDetected));
    // the failed link changed nothing: schedule still intact
    assert!(g.is_backward_done());
    assert_eq!(g.project_duration(), 8);
    assert_eq!(g.activity(0).es, Moment::Moment(0));
    assert_eq!(g.activity(3).lf, Moment::Moment(8));
    assert_eq!(g.activity(3).next.len(), 0);
}

#[test]
fn self_loop_rejected() {
    let mut g = diamond();
    assert_eq!(g.link(1, 1), Err(SchedulingError::CycleDetected));
}

#[test]
fn repeated_link_is_noop() {
    let mut g = diamond();
    g.link(1, 2).unwrap();
    assert_eq!(g.activity(0).next.len(), 2);
    assert_eq!(g.activity(1).prev.len(), 1);
}

#[test]
fn backward_rerun_same_finish_is_identical() {
    let mut g = diamond();
    g.run_forward().unwrap();
    g.run_backward(None).unwrap();
    let before = g.schedule();
    g.run_backward(Some(8)).unwrap();
    let middle = g.schedule();
    g.run_backward(None).unwrap();
    let after = g.schedule();
    assert_eq!(before, middle);
    assert_eq!(before, after);
}

#[test]
fn supplied_finish_shifts_floats() {
    let mut g = diamond();
    g.run_forward().unwrap();
    g.run_backward(Some(10)).unwrap();
    assert_eq!(g.project_duration(), 10);
    assert_eq!(g.activity(3).lf, Moment::Moment(10));
    assert_eq!(g.activity(3).ls, Moment::Moment(9));
    assert_eq!(g.floats(3), (2, 2));
    assert_eq!(g.floats(1), (4, 2));
    assert_eq!(g.critical_path_ids(), Vec::<u64>::new());
}

#[test]
fn too_small_finish_is_negative_float() {
    let mut g = diamond();
    g.run_forward().unwrap();
    assert_eq!(g.run_backward(Some(7)), Err(SchedulingError::NegativeFloat));
    assert!(!g.is_backward_done());
    assert!(g.is_forward_done());
    assert_eq!(g.activity(3).lf, Moment::Unknown);
    // the forward results survive and a feasible finish still succeeds
    g.run_backward(Some(8)).unwrap();
    assert_eq!(g.project_duration(), 8);
}

#[test]
fn duplicate_id_rejected() {
    let mut g = Graph::new();
    g.add_activity(7, 1).unwrap();
    assert_eq!(g.add_activity(7, 2), Err(SchedulingError::DuplicateId));
    assert_eq!(g.len(), 1);
}

#[test]
fn unknown_activity_rejected() {
    let mut g = Graph::new();
    g.add_activity(1, 1).unwrap();
    assert_eq!(g.link(1, 9), Err(SchedulingError::UnknownActivity));
    assert_eq!(g.link(9, 1), Err(SchedulingError::UnknownActivity));
}

#[test]
fn backward_before_forward_rejected() {
    let mut g = diamond();
    assert_eq!(g.run_backward(None), Err(SchedulingError::ForwardPassNotRun));
}

#[test]
fn single_activity_is_critical() {
    let mut g = Graph::new();
    g.add_activity(1, 5).unwrap();
    g.run_forward().unwrap();
    g.run_backward(None).unwrap();
    assert_eq!(g.activity(0).es, Moment::Moment(0));
    assert_eq!(g.activity(0).ef, Moment::Moment(5));
    assert_eq!(g.project_duration(), 5);
    assert_eq!(g.floats(0), (0, 0));
    assert!(g.is_critical(0));
}

#[test]
fn empty_network_schedules() {
    let mut g = Graph::new();
    g.run_forward().unwrap();
    g.run_backward(None).unwrap();
    assert_eq!(g.project_duration(), 0);
    assert_eq!(g.schedule().len(), 0);
    assert_eq!(g.critical_path_ids(), Vec::<u64>::new());
}

#[test]
fn mutation_after_passes_forgets_schedule() {
    let mut g = diamond();
    g.run_forward().unwrap();
    g.run_backward(None).unwrap();
    g.add_activity(5, 2).unwrap();
    assert!(!g.is_forward_done());
    assert!(!g.is_backward_done());
    assert_eq!(g.activity(0).es, Moment::Unknown);
    g.link(4, 5).unwrap();
    g.run_forward().unwrap();
    g.run_backward(None).unwrap();
    assert_eq!(g.project_duration(), 10);
}

#[test]
fn zero_duration_activities_schedule() {
    let mut g = Graph::new();
    g.add_activity(1, 0).unwrap();
    g.add_activity(2, 0).unwrap();
    g.link(1, 2).unwrap();
    g.run_forward().unwrap();
    g.run_backward(None).unwrap();
    assert_eq!(g.project_duration(), 0);
    assert_eq!(g.floats(0), (0, 0));
    assert_eq!(g.floats(1), (0, 0));
    assert_eq!(g.critical_path_ids(), vec![1u64, 2]);
}

#[test]
fn two_independent_chains() {
    // two parallel chains of different length: only the longer one is
    // critical under the default finish
    let mut g = Graph::new();
    g.add_activity(1, 1).unwrap();
    g.add_activity(2, 5).unwrap();
    g.run_forward().unwrap();
    g.run_backward(None).unwrap();
    assert_eq!(g.project_duration(), 5);
    assert_eq!(g.floats(0), (4, 4));
    assert_eq!(g.floats(1), (0, 0));
    assert_eq!(g.critical_path_ids(), vec![2u64]);
}
