use topdown::cli::Cli;
use topdown::cpu::{
    build_capture_groups, choose_spec, compute_interval_metrics, compute_metric, compute_metrics,
    event_tuples, formula_warnings, list_cores, load_spec, metric_fault, parse_core_list,
    parse_cores, parse_stages, plan_capture, resolve_events, resolve_metrics_dir, split_groups,
    stages_from_lowercase, Base, CoreError, DirCandidate, FileRead, LoadError, Machine, MappingRead,
    MetricsDir, PlanError, SpecFile,
};
use topdown::database::{GroupLike, TelemetryDatabase};
use topdown::formula::{Arithmetic, BinaryOp};
use topdown::name_map::NameMap;
use topdown::results::EventResults;
use topdown::spec;
use topdown::spec::{CpuMapping, Parsed, SpecError, TelemetrySpecification};
use topdown::workload::TimestampedSnapshot;

fn names(items: &[&str]) -> Vec<String> {
    items.iter().map(|s| s.to_string()).collect()
}

fn cli() -> Cli {
    Cli {
        core: None,
        system_wide: false,
        pid: None,
        interval: None,
        collect_by: "metric".to_string(),
        metric_group: Vec::new(),
        node: None,
        stages: "all".to_string(),
        list_cores: false,
        list_groups: false,
        list_metrics: false,
        list_events: false,
        dump_events: false,
        no_multiplex: false,
        descriptions: false,
        command: Vec::new(),
    }
}

fn metric(formula: &str, events: &[&str]) -> spec::Metric {
    spec::Metric {
        title: String::new(),
        formula: formula.to_string(),
        description: String::new(),
        units: "count".to_string(),
        events: names(events),
        sample_events: Vec::new(),
    }
}

fn group(title: &str, metrics: &[&str]) -> spec::MetricGroup {
    spec::MetricGroup {
        title: title.to_string(),
        description: String::new(),
        metrics: names(metrics),
    }
}

fn small_spec() -> TelemetrySpecification {
    let mut events = NameMap::new();
    for (name, code) in [("A", "0x1"), ("B", "0x2"), ("C", "0x3")] {
        events.insert(
            name.to_string(),
            spec::Event {
                code: code.to_string(),
                title: String::new(),
                description: String::new(),
                architecture_defined: false,
                product_defined: false,
                accesses: Vec::new(),
            },
        );
    }
    let mut metrics = NameMap::new();
    metrics.insert("ratio".to_string(), metric("A / B", &["A", "B"]));
    metrics.insert("twice".to_string(), metric("2 * C", &["C"]));
    metrics.insert("broken".to_string(), metric("A +", &["A"]));
    let mut groups = NameMap::new();
    groups.insert("One".to_string(), group("Group one", &["ratio"]));
    groups.insert("Two".to_string(), group("Group two", &["twice", "broken"]));
    groups.insert("Three".to_string(), group("Group three", &["twice"]));
    TelemetrySpecification {
        document: NameMap::new(),
        product_configuration: spec::ProductConfiguration {
            product_name: "P".to_string(),
            part_num: String::new(),
            implementer: String::new(),
            major_revision: 0,
            minor_revision: 0,
            num_slots: 8,
            num_bus_slots: 0,
            architecture: String::new(),
            pmu_architecture: String::new(),
        },
        events,
        metrics,
        groups: spec::Groups { function: NameMap::new(), metrics: groups },
        methodologies: spec::Methodologies {
            topdown_methodology: spec::TopdownMethodology {
                title: String::new(),
                description: String::new(),
                metric_grouping: spec::MetricGrouping {
                    stage_1: names(&["One"]),
                    stage_2: names(&["Two"]),
                },
                decision_tree: spec::DecisionTree {
                    root_nodes: names(&["ratio"]),
                    metrics: vec![spec::TopdownMethodologyNode {
                        name: "ratio".to_string(),
                        group: "One".to_string(),
                        next_items: names(&["Three", "twice", "Two"]),
                        sample_events: Vec::new(),
                    }],
                },
            },
        },
    }
}

fn small_db() -> TelemetryDatabase {
    TelemetryDatabase::from_spec(&small_spec())
}

#[test]
fn core_lists_have_ranges_and_single_cores() {
    assert_eq!(parse_core_list("0").unwrap(), vec![0]);
    assert_eq!(parse_core_list("0-3").unwrap(), vec![0, 1, 2, 3]);
    assert_eq!(parse_core_list("4, 2,0 ,2").unwrap(), vec![0, 2, 4]);
    assert_eq!(parse_core_list("2 - 4,3-5,1").unwrap(), vec![1, 2, 3, 4, 5]);
    assert_eq!(parse_core_list("3-1").unwrap(), Vec::<i32>::new());
    assert_eq!(
        parse_core_list("2147483646-2147483647").unwrap(),
        vec![2147483646, 2147483647]
    );
}

#[test]
fn core_lists_are_refused() {
    for s in ["", "a", "1,", "0x1", "2147483648"] {
        let error = parse_core_list(s).unwrap_err();
        assert!(matches!(error, CoreError::Number(_)), "{s}");
        assert_eq!(error.message(), "Invalid core number");
    }
    for s in ["-1", "1-", "a-b", "1-2-3"] {
        let error = parse_core_list(s).unwrap_err();
        assert!(matches!(error, CoreError::Range(_)), "{s}");
        assert_eq!(error.message(), "Invalid core range");
    }
}

#[test]
fn all_online_cores_are_monitored_by_default() {
    let mut cli = cli();
    assert_eq!(parse_cores(&cli, 3).unwrap(), vec![0, 1, 2]);
    assert_eq!(parse_cores(&cli, 0).unwrap(), Vec::<i32>::new());
    cli.core = Some("7".to_string());
    assert_eq!(parse_cores(&cli, 3).unwrap(), vec![7]);
    cli.core = Some("x".to_string());
    assert!(parse_cores(&cli, 3).is_err());
}

#[test]
fn cores_are_listed() {
    let lines = list_cores(&vec![0x410fd4f0, 0]);
    assert_eq!(
        lines,
        names(&[
            "Detected 2 CPU core(s):",
            "  Core   0: MIDR=0x410fd4f0  ID=0x41d4f  implementer=0x41 part=0xd4f",
            "  Core   1: MIDR=0x00000000  ID=0x0000  implementer=0x00 part=0x000",
        ])
    );
}

#[test]
fn stages_are_named_in_any_case() {
    assert_eq!(parse_stages("1").unwrap(), vec![1]);
    assert_eq!(parse_stages("2").unwrap(), vec![2]);
    for s in ["all", "ALL", "1,2", "2,1", "Combined"] {
        assert_eq!(parse_stages(s).unwrap(), vec![1, 2]);
    }
    assert_eq!(
        parse_stages("Three").unwrap_err().message(),
        "Invalid --stages value: 'Three'. Use 1, 2, all, or combined."
    );
    assert_eq!(stages_from_lowercase("ALL"), None);
}

fn group_names(groups: &Vec<GroupLike>) -> Vec<String> {
    groups.iter().map(|g| g.group_name().to_string()).collect()
}

#[test]
fn groups_are_chosen_by_name_node_or_stage() {
    let db = small_db();
    let none = Vec::new();
    let chosen = build_capture_groups(&db, &names(&["Two", "one"]), Some("x"), &vec![]).unwrap();
    assert_eq!(group_names(&chosen), names(&["Two", "one"]));
    let error = build_capture_groups(&db, &names(&["One", "Four"]), None, &vec![]).unwrap_err();
    assert_eq!(error.message(), "Unknown metric group: 'Four'");
    let chosen = build_capture_groups(&db, &none, Some("RATIO"), &vec![]).unwrap();
    assert_eq!(group_names(&chosen), names(&["One", "Three", "Two"]));
    let error = build_capture_groups(&db, &none, Some("twice"), &vec![]).unwrap_err();
    assert_eq!(error.message(), "Unknown topdown node: 'twice'");
    let chosen = build_capture_groups(&db, &none, None, &vec![2, 1]).unwrap();
    assert_eq!(group_names(&chosen), names(&["One", "Two"]));
    let chosen = build_capture_groups(&db, &none, None, &vec![2]).unwrap();
    assert_eq!(group_names(&chosen), names(&["Two"]));
    assert!(build_capture_groups(&db, &none, None, &vec![]).unwrap().is_empty());
}

#[test]
fn metric_groups_are_separated_by_commas() {
    assert_eq!(
        split_groups(&names(&["One,Two", "Three"])),
        names(&["One", "Two", "Three"])
    );
    assert!(split_groups(&Vec::new()).is_empty());
}

#[test]
fn groups_lead_to_events_with_codes() {
    let db = small_db();
    let groups = vec![GroupLike::Full("One".to_string()), GroupLike::Full("Two".to_string())];
    assert_eq!(
        event_tuples(&db, &groups),
        vec![vec![names(&["A", "B"])], vec![names(&["A"]), names(&["C"])]]
    );
    let configs = resolve_events(&db, &vec![names(&["B", "X", "A"]), names(&["C"])]);
    assert_eq!(configs.len(), 2);
    assert_eq!(configs[0].len(), 2);
    assert_eq!((configs[0][0].name.as_str(), configs[0][0].code), ("B", 2));
    assert_eq!((configs[1][0].name.as_str(), configs[1][0].code), ("C", 3));
}

fn plan_names(cli: &Cli, counters: usize) -> Vec<Vec<Vec<String>>> {
    let plan = plan_capture(&small_db(), cli, counters).unwrap();
    plan.rounds
        .iter()
        .map(|round| {
            round.iter().map(|g| g.iter().map(|e| e.name.clone()).collect()).collect()
        })
        .collect()
}

#[test]
fn captures_are_planned_within_the_counters() {
    let mut cli = cli();
    assert_eq!(plan_names(&cli, 3), vec![vec![names(&["A", "B"]), names(&["C"])]]);
    assert_eq!(plan_names(&cli, 2), vec![vec![names(&["A", "B"])], vec![names(&["C"])]]);
    cli.collect_by = "no such strategy".to_string();
    assert_eq!(plan_names(&cli, 2).len(), 2);
    cli.collect_by = "none".to_string();
    assert_eq!(
        plan_names(&cli, 1),
        vec![vec![names(&["A"])], vec![names(&["B"])], vec![names(&["C"])]]
    );
    cli.collect_by = "GROUP".to_string();
    assert_eq!(plan_names(&cli, 8), vec![vec![names(&["A", "B"]), names(&["A", "C"])]]);
    cli.metric_group = names(&["Three,One"]);
    assert_eq!(plan_names(&cli, 8), vec![vec![names(&["A", "B"]), names(&["C"])]]);
}

#[test]
fn without_events_nothing_is_captured() {
    let mut spec = small_spec();
    spec.groups.metrics.insert("Bare".to_string(), group("Group without metrics", &[]));
    let db = TelemetryDatabase::from_spec(&spec);
    let mut cli = cli();
    cli.metric_group = names(&["Bare"]);
    for no_multiplex in [false, true] {
        cli.no_multiplex = no_multiplex;
        let plan = plan_capture(&db, &cli, 8).unwrap();
        assert_eq!(plan.groups.len(), 1);
        assert!(plan.rounds.is_empty());
    }
}

#[test]
fn plans_fail() {
    let db = small_db();
    let mut cli = cli();
    match plan_capture(&db, &cli, 1) {
        Err(PlanError::Schedule(e)) => {
            assert_eq!((e.required, e.available), (2, 1));
            assert_eq!(e.event_names, names(&["A", "B"]));
        }
        other => panic!("{other:?}"),
    }
    cli.no_multiplex = true;
    match plan_capture(&db, &cli, 2) {
        Err(PlanError::Schedule(e)) => {
            assert_eq!((e.required, e.available), (3, 2));
            assert_eq!(e.event_names, names(&["A", "B", "C"]));
            assert_eq!(PlanError::Schedule(e).message(), "Failed to schedule events");
        }
        other => panic!("{other:?}"),
    }
    assert_eq!(plan_names(&cli, 3).len(), 1);
    cli.stages = "x".to_string();
    assert!(matches!(plan_capture(&db, &cli, 8), Err(PlanError::Stages(_))));
    cli.stages = "1".to_string();
    cli.node = Some("x".to_string());
    assert!(matches!(plan_capture(&db, &cli, 8), Err(PlanError::UnknownNode(_))));
    cli.metric_group = names(&["x"]);
    assert!(matches!(plan_capture(&db, &cli, 8), Err(PlanError::UnknownGroup(_))));
}

#[test]
fn metrics_are_computed_where_all_events_have_values() {
    let db = small_db();
    let arithmetic = Arithmetic {
        literal: |text: &str| text.parse::<f64>().unwrap(),
        negate: |v: f64| -v,
        binary: |op: BinaryOp, a: f64, b: f64| match op {
            BinaryOp::Add => a + b,
            BinaryOp::Subtract => a - b,
            BinaryOp::Multiply => a * b,
            _ => a / b,
        },
        is_zero: |v: f64| v == 0.0,
        to_integer: |v: f64| v as i64,
        from_integer: |n: i64| n as f64,
        undefined: f64::NAN,
    };
    let is_undefined = |v: f64| v.is_nan();
    let groups = vec![
        GroupLike::Full("One".to_string()),
        GroupLike::Full("Two".to_string()),
        GroupLike::Full("missing".to_string()),
    ];
    let mut results = EventResults::new();
    results.insert(names(&["A", "B"]), vec![Some(6.0), Some(4.0)]);
    results.insert(names(&["A"]), vec![Some(8.0)]);
    results.insert(names(&["C"]), vec![None]);
    let computed = compute_metrics(&db, &groups, &results, &arithmetic, &is_undefined);
    assert_eq!(computed.len(), 3);
    assert_eq!(computed[0].group_name, "One");
    assert_eq!(computed[0].group_title, "Group one");
    assert_eq!(computed[0].stage, 1);
    assert_eq!(computed[0].metrics.len(), 1);
    assert_eq!(computed[0].metrics[0].metric_name, "ratio");
    assert_eq!(computed[0].metrics[0].units, "count");
    // Of the two values of A the last one counts.
    assert_eq!(computed[0].metrics[0].value, Some(2.0));
    assert_eq!(computed[1].stage, 2);
    assert_eq!(computed[1].metrics[0].metric_name, "broken");
    assert_eq!(computed[1].metrics[0].value, None);
    assert_eq!(computed[1].metrics[1].metric_name, "twice");
    assert_eq!(computed[1].metrics[1].value, None);
    assert_eq!(computed[2].group_title, "missing");
    assert_eq!(computed[2].stage, 2);
    assert!(computed[2].metrics.is_empty());

    // A division by zero has no value.
    let mut values = NameMap::new();
    values.insert("A".to_string(), 1.0);
    values.insert("B".to_string(), 0.0);
    let ratio = db.find_metric("ratio").unwrap();
    assert_eq!(compute_metric(ratio, &values, &arithmetic, &is_undefined), None);

    let mut later = EventResults::new();
    later.insert(names(&["C"]), vec![Some(1.5)]);
    let snapshots = vec![
        TimestampedSnapshot { timestamp: 0.5, results },
        TimestampedSnapshot { timestamp: 1.0, results: later },
    ];
    let computed = compute_interval_metrics(&db, &groups, &snapshots, &arithmetic, &is_undefined);
    assert_eq!(computed.len(), 2);
    assert_eq!(computed[0].timestamp, 0.5);
    assert_eq!(computed[0].groups[0].metrics[0].value, Some(2.0));
    assert_eq!(computed[1].timestamp, 1.0);
    assert_eq!(computed[1].groups[0].metrics[0].value, None);
    assert_eq!(computed[1].groups[1].metrics[1].value, Some(3.0));
}

#[test]
fn formulas_that_cannot_be_read_are_warned_of() {
    let db = small_db();
    let groups = vec![
        GroupLike::Full("One".to_string()),
        GroupLike::Full("Two".to_string()),
        GroupLike::Full("missing".to_string()),
    ];
    let mut results = EventResults::new();
    results.insert(names(&["C"]), vec![Some(1.0)]);
    // Without a value for its event the formula is not read.
    assert!(formula_warnings(&db, &groups, &results).is_empty());
    results.insert(names(&["A", "B"]), vec![Some(6.0), Some(4.0)]);
    assert_eq!(
        formula_warnings(&db, &groups, &results),
        names(&["Formula error for metric 'broken': unexpected end of expression"])
    );
    let mut values = NameMap::new();
    values.insert("A".to_string(), 1.0);
    let fault = metric_fault(db.find_metric("broken").unwrap(), &values).unwrap();
    assert_eq!(fault.message(), "unexpected end of expression");
    assert!(metric_fault(db.find_metric("ratio").unwrap(), &values).is_none());
    values.insert("B".to_string(), 0.0);
    assert!(metric_fault(db.find_metric("ratio").unwrap(), &values).is_none());
}

#[test]
fn directories_are_tried_in_order() {
    let found = resolve_metrics_dir(true, &|c: &DirCandidate| c.path == "metrics").unwrap();
    assert_eq!((found.base, found.path.as_str()), (Base::Executable, "metrics"));
    let found = resolve_metrics_dir(false, &|c: &DirCandidate| c.path == "metrics").unwrap();
    assert_eq!((found.base, found.path.as_str()), (Base::Current, "metrics"));
    let found = resolve_metrics_dir(true, &|_: &DirCandidate| true).unwrap();
    assert_eq!((found.base, found.path.as_str()), (Base::Executable, "data/pmu/cpu"));
    let found = resolve_metrics_dir(true, &|c: &DirCandidate| c.base == Base::Current).unwrap();
    assert_eq!((found.base, found.path.as_str()), (Base::Current, "data/pmu/cpu"));
    assert!(resolve_metrics_dir(true, &|_: &DirCandidate| false).is_none());
}

fn mapping(entries: &[(&str, &str)]) -> NameMap<CpuMapping> {
    let mut map = NameMap::new();
    for (key, name) in entries {
        map.insert(key.to_string(), CpuMapping { name: name.to_string() });
    }
    map
}

#[test]
fn a_specification_is_chosen_by_register_or_id() {
    let both = mapping(&[("0x41d4f", "by_id"), ("0x410fd4f0", "by_midr")]);
    assert_eq!(choose_spec(&both, 0x410fd4f0), Some("by_midr.json".to_string()));
    assert_eq!(choose_spec(&both, 0x411fd4f1), Some("by_id.json".to_string()));
    assert_eq!(choose_spec(&both, 0x410fd400), None);
}

fn machine_load(
    cli: &Cli,
    spec_given: bool,
    dir_given: bool,
    midr: Result<u64, String>,
    found: bool,
    read: fn(&MetricsDir) -> MappingRead,
    spec: fn() -> Parsed<TelemetrySpecification>,
) -> Result<TelemetrySpecification, LoadError> {
    let machine = Machine {
        read_midr: |core: i32| {
            assert_eq!(core, if cli.core.is_some() { 2 } else { 0 });
            midr.clone()
        },
        has_mapping: |_: &DirCandidate| found,
        read_mapping: |dir: &MetricsDir| read(dir),
        read_spec: |file: &SpecFile| FileRead {
            path: match file {
                SpecFile::Given => "given.json".to_string(),
                SpecFile::InDir(MetricsDir::Given, name) => format!("dir/{name}"),
                SpecFile::InDir(MetricsDir::Found(dir), name) => format!("{}/{name}", dir.path),
            },
            parsed: spec(),
        },
    };
    load_spec(cli, spec_given, dir_given, true, &machine)
}

fn v2_mapping(_: &MetricsDir) -> MappingRead {
    MappingRead::Present(FileRead {
        path: "mapping.json".to_string(),
        parsed: Parsed::Value(mapping(&[("0x41d4f", "v2")])),
    })
}

fn no_mapping(_: &MetricsDir) -> MappingRead {
    MappingRead::Absent("there".to_string())
}

fn bad_mapping(_: &MetricsDir) -> MappingRead {
    MappingRead::Present(FileRead {
        path: "mapping.json".to_string(),
        parsed: Parsed::Malformed("odd".to_string()),
    })
}

fn good_spec() -> Parsed<TelemetrySpecification> {
    Parsed::Value(small_spec())
}

fn gone_spec() -> Parsed<TelemetrySpecification> {
    Parsed::Unreadable("gone".to_string())
}

fn invalid_spec() -> Parsed<TelemetrySpecification> {
    let mut spec = small_spec();
    spec.methodologies.topdown_methodology.decision_tree.root_nodes = names(&["nothing"]);
    Parsed::Value(spec)
}

#[test]
fn specifications_are_loaded() {
    let v2 = Ok(0x410fd4f0);
    let mut cli = cli();
    let spec = machine_load(&cli, true, false, Err("x".to_string()), false, no_mapping, good_spec);
    assert_eq!(spec.unwrap().product_configuration.product_name, "P");
    assert!(machine_load(&cli, false, false, v2.clone(), true, v2_mapping, good_spec).is_ok());
    assert!(machine_load(&cli, false, true, v2.clone(), false, v2_mapping, good_spec).is_ok());
    cli.core = Some("2-3".to_string());
    assert!(machine_load(&cli, false, true, v2, false, v2_mapping, good_spec).is_ok());
}

#[test]
fn loading_fails_with_a_reason() {
    let v2 = || Ok(0x410fd4f0);
    let mut cli = cli();
    let message = |cli: &Cli, midr, dir_given, found, read, spec| {
        machine_load(cli, false, dir_given, midr, found, read, spec).unwrap_err().message()
    };
    assert_eq!(
        message(&cli, Err("x".to_string()), true, false, v2_mapping, good_spec),
        "Failed to read CPU MIDR. Specify --cpu <file.json> manually."
    );
    assert_eq!(
        message(&cli, v2(), false, false, v2_mapping, good_spec),
        "Cannot find metrics directory. Use --metrics-dir to specify."
    );
    assert_eq!(
        message(&cli, v2(), true, false, no_mapping, good_spec),
        "No mapping.json found in there. Use --metrics-dir or --cpu to specify."
    );
    assert_eq!(
        message(&cli, v2(), true, false, bad_mapping, good_spec),
        "invalid JSON in mapping.json: odd"
    );
    assert_eq!(
        message(&cli, Ok(0x12), true, false, v2_mapping, good_spec),
        "No telemetry spec found for CPU (MIDR=0x00000012, ID=0x1). \
         Use --cpu <file.json> to specify manually."
    );
    assert_eq!(
        message(&cli, v2(), true, false, v2_mapping, gone_spec),
        "failed to read file dir/v2.json: gone"
    );
    assert_eq!(
        message(&cli, v2(), false, true, v2_mapping, invalid_spec),
        "validation error: Decision tree root_node references undefined metric: 'nothing'"
    );
    cli.core = Some("x".to_string());
    assert_eq!(message(&cli, v2(), true, false, v2_mapping, good_spec), "Invalid core number");
    let error = machine_load(&cli, true, false, v2(), false, no_mapping, gone_spec).unwrap_err();
    assert!(matches!(error, LoadError::Spec(SpecError::Io { .. })));
}
