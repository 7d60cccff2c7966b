use arrow_cpm::builder::{build_graph, ActivityRecord};
use arrow_cpm::edge::Moment;
use arrow_cpm::graph::SchedulingError;

fn record(id: u64, duration: usize, preds: &[u64]) -> ActivityRecord {
    let mut predecessor_ids: Vec<u64> = Vec::new();
    for p in preds {
        predecessor_ids.push(*p);
    }
    ActivityRecord { id, duration, predecessor_ids }
}

#[test]
fn build_diamond_and_schedule() {
    let records = vec![
        record(1, 3, &[]),
        record(2, 2, &[1]),
        record(3, 4, &[1]),
        record(4, 1, &[2, 3]),
    ];
    let mut g = build_graph(&records).unwrap();
    g.run_forward().unwrap();
    g.run_backward(None).unwrap();
    assert_eq!(g.project_duration(), 8);
    assert_eq!(g.activity(0).es, Moment::Moment(0));
    assert_eq!(g.activity(3).es, Moment::Moment(7));
    assert_eq!(g.activity(3).ef, Moment::Moment(8));
    assert_eq!(g.critical_path_ids(), vec![1u64, 3, 4]);
}

#[test]
fn build_allows_forward_references() {
    // a record may name a predecessor that is defined later in the list
    let records = vec![record(1, 2, &[2]), record(2, 3, &[])];
    let mut g = build_graph(&records).unwrap();
    g.run_forward().unwrap();
    g.run_backward(None).unwrap();
    assert_eq!(g.activity(0).es, Moment::Moment(3));
    assert_eq!(g.project_duration(), 5);
}

#[test]
fn build_rejects_duplicate_ids() {
    let records = vec![record(1, 2, &[]), record(1, 3, &[])];
    assert!(matches!(build_graph(&records), Err(SchedulingError::DuplicateId)));
}

#[test]
fn build_rejects_unknown_predecessor() {
    let records = vec![record(1, 2, &[]), record(2, 3, &[9])];
    assert!(matches!(build_graph(&records), Err(SchedulingError::UnknownActivity)));
}

#[test]
fn build_rejects_cycle() {
    let records = vec![record(1, 2, &[2]), record(2, 3, &[1])];
    assert!(matches!(build_graph(&records), Err(SchedulingError::CycleDetected)));
}

#[test]
fn build_ignores_repeated_predecessor_entries() {
    let records = vec![record(1, 2, &[]), record(2, 3, &[1, 1])];
    let g = build_graph(&records).unwrap();
    assert_eq!(g.activity(1).prev.len(), 1);
    assert_eq!(g.activity(0).next.len(), 1);
}
