use topdown::scheduler::{
    generate_event_list, make_chunks, optimize_event_groups, CollectBy, EventScheduler,
};

fn names(items: &[&str]) -> Vec<String> {
    items.iter().map(|s| s.to_string()).collect()
}

#[test]
fn test_collect_by_none() {
    let groups = vec![vec![
        vec!["A".into(), "B".into()],
        vec!["B".into(), "C".into()],
    ]];
    let scheduler = EventScheduler::new(groups, CollectBy::Event, 6).unwrap();
    // Each event is its own group
    assert_eq!(scheduler.optimized_event_groups.len(), 3);
}

#[test]
fn test_collect_by_metric() {
    let groups = vec![vec![
        vec!["A".into(), "B".into()],
        vec!["B".into(), "C".into()],
    ]];
    let scheduler = EventScheduler::new(groups, CollectBy::Metric, 6).unwrap();
    assert_eq!(scheduler.optimized_event_groups.len(), 2);
}

#[test]
fn test_collect_by_group() {
    let groups = vec![vec![
        vec!["A".into(), "B".into()],
        vec!["B".into(), "C".into()],
    ]];
    let scheduler = EventScheduler::new(groups, CollectBy::Group, 6).unwrap();
    // All events merged into one group: [A, B, C]
    assert_eq!(scheduler.optimized_event_groups.len(), 1);
    assert_eq!(scheduler.optimized_event_groups[0].len(), 3);
}

#[test]
fn test_chunking() {
    let groups = vec![
        vec!["A".into(), "B".into()],
        vec!["C".into(), "D".into()],
        vec!["E".into(), "F".into()],
    ];
    let chunks = make_chunks(&groups, 4);
    // First chunk: A,B,C,D (4 events), second chunk: E,F (2 events)
    assert_eq!(chunks.len(), 2);
}

#[test]
fn test_optimize_removes_subsets() {
    let groups = vec![
        vec!["A".into(), "B".into()],
        vec!["A".into(), "B".into(), "C".into()],
    ];
    let optimized = optimize_event_groups(groups);
    assert_eq!(optimized.len(), 1);
    assert_eq!(optimized[0], vec!["A", "B", "C"]);
}

#[test]
fn test_group_too_large() {
    let groups = vec![vec![vec![
        "A".into(),
        "B".into(),
        "C".into(),
        "D".into(),
    ]]];
    let result = EventScheduler::new(groups, CollectBy::Group, 2);
    assert!(result.is_err());
}

#[test]
fn strategies_have_names_in_any_case() {
    assert_eq!(CollectBy::from_str("none"), Some(CollectBy::Event));
    assert_eq!(CollectBy::from_str("Metric"), Some(CollectBy::Metric));
    assert_eq!(CollectBy::from_str("GROUP"), Some(CollectBy::Group));
    assert_eq!(CollectBy::from_str("metrics"), None);
    assert_eq!(CollectBy::from_lowercase("Metric"), None);
    for by in [CollectBy::Event, CollectBy::Metric, CollectBy::Group] {
        assert_eq!(CollectBy::from_str(&by.name()), Some(by));
    }
}

#[test]
fn event_lists_follow_the_strategy() {
    let groups = vec![
        vec![names(&["C", "A", "A"]), names(&[]), names(&["B"])],
        vec![names(&[])],
    ];
    assert_eq!(
        generate_event_list(&groups, CollectBy::Event),
        vec![names(&["A"]), names(&["B"]), names(&["C"])]
    );
    assert_eq!(
        generate_event_list(&groups, CollectBy::Metric),
        vec![names(&["A", "C"]), names(&["B"])]
    );
    assert_eq!(generate_event_list(&groups, CollectBy::Group), vec![names(&["A", "B", "C"])]);
}

#[test]
fn merging_drops_duplicates_and_subsets_and_sorts() {
    let merged = optimize_event_groups(vec![
        names(&["D", "C"]),
        names(&["B", "A", "B"]),
        names(&["C", "D"]),
        names(&["A"]),
        names(&[]),
    ]);
    assert_eq!(merged, vec![names(&["A", "B"]), names(&["C", "D"])]);
    assert_eq!(optimize_event_groups(vec![names(&[])]), vec![names(&[])]);
}

#[test]
fn the_first_group_that_does_not_fit_is_reported() {
    let groups = vec![vec![names(&["B", "C", "D"]), names(&["A", "E", "F", "G"])]];
    let e = EventScheduler::new(groups, CollectBy::Metric, 2).unwrap_err();
    assert_eq!(e.required, 4);
    assert_eq!(e.available, 2);
    assert_eq!(e.event_names, names(&["A", "E", "F", "G"]));
    assert_eq!(
        e.message(),
        "event group requires 4 unique events but only 2 PMU counters available"
    );
}

#[test]
fn shared_events_count_once_in_a_round() {
    let groups = vec![names(&["A", "B"]), names(&["A", "C"]), names(&["D"])];
    let chunks = make_chunks(&groups, 3);
    assert_eq!(
        chunks,
        vec![vec![names(&["A", "B"]), names(&["A", "C"])], vec![names(&["D"])]]
    );
    assert!(make_chunks(&vec![], 3).is_empty());
    // A group that does not fit by itself still gets its round.
    assert_eq!(make_chunks(&groups, 0).len(), 3);
}

#[test]
fn rounds_fit_the_counters_and_lose_nothing() {
    let groups = vec![vec![
        names(&["A", "B"]),
        names(&["C", "D", "E"]),
        names(&["B", "E"]),
        names(&["F"]),
    ]];
    let scheduler = EventScheduler::new(groups, CollectBy::Metric, 3).unwrap();
    let rounds = scheduler.get_event_group_chunks(true);
    let mut seen: Vec<Vec<String>> = Vec::new();
    for round in &rounds {
        let mut events: Vec<String> = round.concat();
        events.sort();
        events.dedup();
        assert!(!round.is_empty());
        assert!(events.len() <= 3);
        seen.extend(round.iter().cloned());
    }
    assert_eq!(seen, scheduler.optimized_event_groups);
    assert_eq!(
        scheduler.get_event_group_chunks(false),
        vec![scheduler.optimized_event_groups.clone()]
    );
}

#[test]
fn without_multiplexing_all_events_must_fit_together() {
    let groups = vec![vec![names(&["A", "B"]), names(&["C", "D"])]];
    let scheduler = EventScheduler::new(groups.clone(), CollectBy::Metric, 3).unwrap();
    assert_eq!(scheduler.plan_rounds(true).unwrap().len(), 2);
    let e = scheduler.plan_rounds(false).unwrap_err();
    assert_eq!(e.required, 4);
    assert_eq!(e.available, 3);
    assert_eq!(e.event_names, names(&["A", "B", "C", "D"]));
    let scheduler = EventScheduler::new(groups, CollectBy::Metric, 4).unwrap();
    assert_eq!(scheduler.plan_rounds(false).unwrap().len(), 1);
    assert_eq!(scheduler.plan_rounds(false).unwrap(), scheduler.plan_rounds(true).unwrap());
}

#[test]
fn without_groups_there_is_no_round() {
    for groups in [Vec::new(), vec![Vec::new()], vec![vec![names(&[])]]] {
        for by in [CollectBy::Event, CollectBy::Metric, CollectBy::Group] {
            let scheduler = EventScheduler::new(groups.clone(), by, 4).unwrap();
            assert!(scheduler.plan_rounds(true).unwrap().is_empty());
            assert!(scheduler.plan_rounds(false).unwrap().is_empty());
        }
    }
}

#[test]
fn order_and_repeats_do_not_bear_on_a_schedule() {
    let groups = vec![
        vec![names(&["B", "A"]), names(&["C", "D", "E"])],
        vec![names(&["F"]), names(&["A", "F"])],
    ];
    let turned = vec![
        vec![names(&["F", "A", "F"]), names(&["F"]), names(&["A", "F"])],
        vec![names(&["E", "D", "C"]), names(&["A", "B", "A"]), names(&["C", "D", "E"])],
        vec![names(&["F"]), names(&["A", "F"])],
    ];
    for by in [CollectBy::Event, CollectBy::Metric, CollectBy::Group] {
        let a = EventScheduler::new(groups.clone(), by, 6).unwrap();
        let b = EventScheduler::new(turned.clone(), by, 6).unwrap();
        assert_eq!(a.optimized_event_groups, b.optimized_event_groups);
        assert_eq!(a.get_event_group_chunks(true), b.get_event_group_chunks(true));
        let a = EventScheduler::new(groups.clone(), by, 0).unwrap_err();
        let b = EventScheduler::new(turned.clone(), by, 0).unwrap_err();
        assert_eq!(a.event_names, b.event_names);
        assert_eq!(a.message(), b.message());
    }
}

/// How many different events groups have.
fn events_of(groups: &[Vec<String>]) -> usize {
    let mut events = groups.concat();
    events.sort();
    events.dedup();
    events.len()
}

#[test]
fn no_way_to_cut_the_groups_needs_fewer_rounds() {
    let groups = vec![
        names(&["A", "B"]),
        names(&["B", "C"]),
        names(&["D"]),
        names(&["A", "D"]),
        names(&["E", "F", "G"]),
        names(&["G"]),
    ];
    for max_events in 3..8 {
        let rounds = make_chunks(&groups, max_events).len();
        for cuts in 0u32..1 << (groups.len() - 1) {
            let mut runs: Vec<Vec<Vec<String>>> = vec![vec![groups[0].clone()]];
            for (i, group) in groups.iter().enumerate().skip(1) {
                if cuts & (1 << (i - 1)) != 0 {
                    runs.push(Vec::new());
                }
                runs.last_mut().unwrap().push(group.clone());
            }
            if runs.iter().all(|run| events_of(run) <= max_events) {
                assert!(rounds <= runs.len());
            }
        }
    }
    assert_eq!(make_chunks(&groups, 4).len(), 2);
}
