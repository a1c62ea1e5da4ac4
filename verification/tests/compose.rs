use dataflux_rust::compose::{
    compose_needed, composed_object_name, demux_start, demux_step, initial_batches,
    next_compose_level, order_by_start, plan_compose_level, ComposedBatch, DemuxAction,
    MAX_COMPOSE_BATCH,
};

#[test]
fn composition_needs_objects_and_depth() {
    assert!(compose_needed(2, 5));
    assert!(!compose_needed(0, 5));
    assert!(!compose_needed(2, 0));
}

#[test]
fn composite_names() {
    assert_eq!(composed_object_name(2, 13), "composed_d2_b13");
    assert_eq!(composed_object_name(10, 0), "composed_d10_b0");
}

#[test]
fn level_groups_batches_in_order() {
    let objects: Vec<String> = (0..70).map(|i| format!("obj_{}", i)).collect();
    let batches = initial_batches(&objects);
    assert_eq!(batches.len(), 70);
    assert_eq!((batches[5].start_idx, batches[5].end_idx), (5, 6));
    let tasks = plan_compose_level(&batches, 1);
    assert_eq!(tasks.len(), 3);
    assert_eq!(tasks[0].sources.len(), MAX_COMPOSE_BATCH);
    assert_eq!(tasks[2].sources.len(), 6);
    assert_eq!(tasks[1].destination, "composed_d1_b1");
    assert_eq!(tasks[1].sources[0], "obj_32");
    assert_eq!((tasks[2].start_idx, tasks[2].end_idx), (64, 70));
    // The composites follow one another and cover every object.
    assert_eq!(tasks[0].start_idx, 0);
    assert_eq!(tasks[0].end_idx, tasks[1].start_idx);
    assert_eq!(tasks[1].end_idx, tasks[2].start_idx);
}

#[test]
fn level_outputs_are_put_back_in_order() {
    let done = vec![
        ComposedBatch { name: "c".to_string(), start_idx: 64, end_idx: 70 },
        ComposedBatch { name: "a".to_string(), start_idx: 0, end_idx: 32 },
        ComposedBatch { name: "b".to_string(), start_idx: 32, end_idx: 64 },
    ];
    let ordered = order_by_start(done);
    let names: Vec<&str> = ordered.iter().map(|b| b.name.as_str()).collect();
    assert_eq!(names, vec!["a", "b", "c"]);
}

#[test]
fn equal_starts_keep_their_order() {
    let done = vec![
        ComposedBatch { name: "late".to_string(), start_idx: 5, end_idx: 6 },
        ComposedBatch { name: "first".to_string(), start_idx: 2, end_idx: 3 },
        ComposedBatch { name: "second".to_string(), start_idx: 2, end_idx: 4 },
        ComposedBatch { name: "early".to_string(), start_idx: 0, end_idx: 1 },
        ComposedBatch { name: "third".to_string(), start_idx: 2, end_idx: 5 },
    ];
    let ordered = order_by_start(done);
    let names: Vec<&str> = ordered.iter().map(|b| b.name.as_str()).collect();
    assert_eq!(names, vec!["early", "first", "second", "third", "late"]);
}

#[test]
fn levels_run_until_one_object_or_the_depth() {
    let objects: Vec<String> = (0..40).map(|i| format!("o{}", i)).collect();
    let batches = initial_batches(&objects);
    let level = next_compose_level(&batches, 1, 3).expect("forty objects need a level");
    assert_eq!(level.len(), 2);
    assert_eq!(level[1].destination, "composed_d1_b1");
    assert!(next_compose_level(&batches, 4, 3).is_none());
    let single = vec![ComposedBatch { name: "all".to_string(), start_idx: 0, end_idx: 40 }];
    assert!(next_compose_level(&single, 2, 3).is_none());
}

#[test]
fn download_is_cut_by_object_sizes() {
    let sizes = vec![3i64, 0, 2];
    let mut state = demux_start(0);
    let mut left = 10usize;
    let mut actions = Vec::new();
    while left > 0 {
        let action = demux_step(&mut state, &sizes, 3, left);
        actions.push(action);
        match action {
            DemuxAction::Overflow => break,
            DemuxAction::Write { len, .. } => left -= len,
        }
    }
    assert_eq!(
        actions,
        vec![
            DemuxAction::Write { file_idx: 0, open_file: true, len: 3, close_file: true },
            DemuxAction::Write { file_idx: 1, open_file: true, len: 0, close_file: true },
            DemuxAction::Write { file_idx: 2, open_file: true, len: 2, close_file: true },
            DemuxAction::Overflow,
        ]
    );
    assert_eq!(left, 5);
}

#[test]
fn a_file_may_span_chunks() {
    let sizes = vec![5i64];
    let mut state = demux_start(0);
    let first = demux_step(&mut state, &sizes, 1, 2);
    assert_eq!(first, DemuxAction::Write { file_idx: 0, open_file: true, len: 2, close_file: false });
    let second = demux_step(&mut state, &sizes, 1, 4);
    assert_eq!(second, DemuxAction::Write { file_idx: 0, open_file: false, len: 3, close_file: true });
}
