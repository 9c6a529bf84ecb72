use topdown::database::{
    normalize_str, parse_hex_code, strip_separators, Event, Group, GroupLike, GroupView, Metric,
    TelemetryDatabase,
};
use topdown::formula::{evaluate, Arithmetic, BinaryOp};
use topdown::name_map::NameMap;
use topdown::scheduler::{CollectBy, EventScheduler};
use topdown::spec;
use topdown::spec::{Parsed, TelemetrySpecification};

fn names(items: &[&str]) -> Vec<String> {
    items.iter().map(|s| s.to_string()).collect()
}

fn spec_event(code: &str, title: &str) -> spec::Event {
    spec::Event {
        code: code.to_string(),
        title: title.to_string(),
        description: format!("{title} description"),
        architecture_defined: true,
        product_defined: false,
        accesses: names(&["PMU"]),
    }
}

fn spec_metric(title: &str, formula: &str, units: &str, events: &[&str]) -> spec::Metric {
    spec::Metric {
        title: title.to_string(),
        formula: formula.to_string(),
        description: String::new(),
        units: units.to_string(),
        events: names(events),
        sample_events: Vec::new(),
    }
}

fn spec_group(title: &str, metrics: &[&str]) -> spec::MetricGroup {
    spec::MetricGroup {
        title: title.to_string(),
        description: format!("{title} group"),
        metrics: names(metrics),
    }
}

fn node(name: &str, group: &str, next_items: &[&str]) -> spec::TopdownMethodologyNode {
    spec::TopdownMethodologyNode {
        name: name.to_string(),
        group: group.to_string(),
        next_items: names(next_items),
        sample_events: Vec::new(),
    }
}

/// A specification of the shape of that of the Neoverse V2.
fn neoverse_v2_spec() -> TelemetrySpecification {
    let mut events = NameMap::new();
    for (name, code) in [
        ("CPU_CYCLES", "0x0011"),
        ("INST_RETIRED", "0x0008"),
        ("OP_RETIRED", "0x003a"),
        ("OP_SPEC", "0x003b"),
        ("STALL_SLOT_BACKEND", "0x003d"),
        ("STALL_SLOT_FRONTEND", "0x003e"),
        ("STALL_SLOT", "0x003f"),
        ("BR_MIS_PRED", "0x0010"),
        ("L1D_CACHE", "0x0004"),
        ("L1D_CACHE_REFILL", "0x0003"),
    ] {
        events.insert(name.to_string(), spec_event(code, name));
    }
    for i in 0..50 {
        events.insert(format!("EXTRA_{i}"), spec_event(&format!("0x{:04x}", 0x4000 + i), "Extra"));
    }

    let mut metrics = NameMap::new();
    metrics.insert(
        "backend_bound".to_string(),
        spec_metric(
            "Backend Bound",
            "(100 * ((STALL_SLOT_BACKEND / (CPU_CYCLES * 8)) - ((BR_MIS_PRED * 3) / CPU_CYCLES)))",
            "percent of slots",
            &["STALL_SLOT_BACKEND", "CPU_CYCLES", "BR_MIS_PRED"],
        ),
    );
    metrics.insert(
        "frontend_bound".to_string(),
        spec_metric(
            "Frontend Bound",
            "100 * (STALL_SLOT_FRONTEND / (CPU_CYCLES * 8))",
            "percent of slots",
            &["STALL_SLOT_FRONTEND", "CPU_CYCLES"],
        ),
    );
    metrics.insert(
        "retiring".to_string(),
        spec_metric(
            "Retiring",
            "100 * (OP_RETIRED / OP_SPEC) * (1 - (STALL_SLOT / (CPU_CYCLES * 8)))",
            "percent of slots",
            &["OP_RETIRED", "OP_SPEC", "STALL_SLOT", "CPU_CYCLES"],
        ),
    );
    metrics.insert(
        "ipc".to_string(),
        spec_metric("IPC", "INST_RETIRED / CPU_CYCLES", "per cycle", &["INST_RETIRED", "CPU_CYCLES"]),
    );
    for i in 0..20 {
        let event = format!("EXTRA_{i}");
        metrics.insert(
            format!("extra_{i}"),
            spec_metric("Extra", &event, "count", &[event.as_str()]),
        );
    }

    let mut groups = NameMap::new();
    groups.insert(
        "Topdown_L1".to_string(),
        spec_group("Topdown Level 1", &["retiring", "backend_bound", "frontend_bound"]),
    );
    groups.insert("General".to_string(), spec_group("General", &["ipc"]));
    for i in 0..5 {
        let metric = format!("extra_{i}");
        groups.insert(format!("Extra_{i}"), spec_group("Extra", &[metric.as_str()]));
    }
    let mut function = NameMap::new();
    function.insert(
        "General".to_string(),
        spec::FunctionGroup {
            title: "General".to_string(),
            description: String::new(),
            events: names(&["CPU_CYCLES"]),
        },
    );

    TelemetrySpecification {
        document: NameMap::new(),
        product_configuration: spec::ProductConfiguration {
            product_name: "Neoverse V2".to_string(),
            part_num: "0xd4f".to_string(),
            implementer: "0x41".to_string(),
            major_revision: 0,
            minor_revision: 0,
            num_slots: 8,
            num_bus_slots: 0,
            architecture: "armv9.0".to_string(),
            pmu_architecture: "pmu_v3".to_string(),
        },
        events,
        metrics,
        groups: spec::Groups { function, metrics: groups },
        methodologies: spec::Methodologies {
            topdown_methodology: spec::TopdownMethodology {
                title: "Topdown".to_string(),
                description: "Two stages".to_string(),
                metric_grouping: spec::MetricGrouping {
                    stage_1: names(&["Topdown_L1"]),
                    stage_2: names(&["General", "Extra_0"]),
                },
                decision_tree: spec::DecisionTree {
                    root_nodes: names(&["backend_bound", "frontend_bound"]),
                    metrics: vec![
                        node("backend_bound", "Topdown_L1", &["General", "ipc", "Extra_1"]),
                        node("frontend_bound", "Topdown_L1", &[]),
                    ],
                },
            },
        },
    }
}

fn load_neoverse_v2() -> (TelemetrySpecification, TelemetryDatabase) {
    let spec = TelemetrySpecification::load_from_file(
        "neoverse_v2_r0p0_pmu.json",
        Parsed::Value(neoverse_v2_spec()),
    )
    .unwrap();
    let db = TelemetryDatabase::from_spec(&spec);
    (spec, db)
}

#[test]
fn test_parse_hex_code() {
    assert_eq!(parse_hex_code("0x0011"), 0x11);
    assert_eq!(parse_hex_code("0xd4f"), 0xd4f);
    assert_eq!(parse_hex_code("0x0000"), 0);
}

#[test]
fn test_normalize_str() {
    assert_eq!(normalize_str("Topdown_Backend"), "topdownbackend");
    assert_eq!(normalize_str("backend-bound"), "backendbound");
}

#[test]
fn test_event_perf_name() {
    let ev = Event {
        name: "CPU_CYCLES".into(),
        title: "Cycle".into(),
        description: String::new(),
        code: 0x11,
    };
    assert_eq!(ev.perf_name(), "r11");
}

#[test]
fn test_load_neoverse_v2_spec() {
    let (spec, db) = load_neoverse_v2();

    assert_eq!(spec.product_configuration.product_name, "Neoverse V2");
    assert_eq!(spec.product_configuration.part_num, "0xd4f");
    assert_eq!(spec.product_configuration.num_slots, 8);
    assert!(spec.events.len() > 50);
    assert!(spec.metrics.len() > 20);
    assert!(spec.groups.metrics.len() > 5);

    assert_eq!(db.product_name, "Neoverse V2");
    assert_eq!(db.num_slots, 8);
    assert_eq!(db.events.len(), spec.events.len());
    assert_eq!(db.metrics.len(), spec.metrics.len());
}

#[test]
fn test_database_lookups() {
    let (_, db) = load_neoverse_v2();

    // Test event lookup
    let ev = db.events.get("CPU_CYCLES").unwrap();
    assert_eq!(ev.code, 0x11);
    assert_eq!(ev.perf_name(), "r11");

    // Test case-insensitive group lookup
    assert!(db.find_group("Topdown_L1").is_some());
    assert!(db.find_group("topdown_l1").is_some());
    assert!(db.find_group("TOPDOWNL1").is_some());

    // Test case-insensitive metric lookup
    assert!(db.find_metric("backend_bound").is_some());

    // Test topdown structure
    assert!(!db.topdown.stage_1_group_names.is_empty());
    assert!(!db.topdown.stage_2_group_names.is_empty());
    assert!(!db.topdown.root_metric_names.is_empty());
}

#[test]
fn test_formula_with_real_metrics() {
    let (_, db) = load_neoverse_v2();

    if let Some(m) = db.metrics.get("backend_bound") {
        let mut vars = NameMap::new();
        for ev_name in &m.event_names {
            vars.insert(ev_name.clone(), 100.0);
        }
        let arithmetic = Arithmetic {
            literal: |text: &str| text.parse::<f64>().unwrap(),
            negate: |v: f64| -v,
            binary: |op: BinaryOp, a: f64, b: f64| match op {
                BinaryOp::Add => a + b,
                BinaryOp::Subtract => a - b,
                BinaryOp::Multiply => a * b,
                _ => a / b,
            },
            is_zero: |v: f64| v == 0.0,
            to_integer: |v: f64| v as i64,
            from_integer: |n: i64| n as f64,
            undefined: f64::NAN,
        };
        let result = evaluate(&m.formula, &vars, &arithmetic);
        assert!(result.is_ok(), "Formula evaluation failed: {:?}", result);
    }
}

#[test]
fn test_event_scheduler_with_real_data() {
    let (_, db) = load_neoverse_v2();

    let groups: Vec<Vec<Vec<String>>> = db
        .topdown
        .stage_1_group_names
        .iter()
        .filter_map(|gn| db.groups.get(gn))
        .map(|g| {
            g.metric_names
                .iter()
                .filter_map(|mn| db.metrics.get(mn))
                .map(|m| m.event_names.clone())
                .collect()
        })
        .collect();

    let scheduler = EventScheduler::new(groups, CollectBy::Metric, db.num_slots).unwrap();

    assert!(!scheduler.optimized_event_groups.is_empty());
    let chunks = scheduler.get_event_group_chunks(true);
    assert!(!chunks.is_empty());

    for chunk in &chunks {
        let total: std::collections::HashSet<&String> =
            chunk.iter().flat_map(|g| g.iter()).collect();
        assert!(
            total.len() <= db.num_slots,
            "Chunk has {} events but max is {}",
            total.len(),
            db.num_slots
        );
    }
}

#[test]
fn hex_codes_that_cannot_be_read_are_zero() {
    assert_eq!(parse_hex_code("0X1f"), 0x1f);
    assert_eq!(parse_hex_code("ff"), 0xff);
    assert_eq!(parse_hex_code("+ff"), 0xff);
    assert_eq!(parse_hex_code(""), 0);
    assert_eq!(parse_hex_code("0x"), 0);
    assert_eq!(parse_hex_code("0xg"), 0);
    assert_eq!(parse_hex_code("-1"), 0);
    assert_eq!(parse_hex_code("0x0x1"), 0);
    assert_eq!(parse_hex_code("0xffffffffffffffff"), u64::MAX);
    assert_eq!(parse_hex_code("0x10000000000000000"), 0);
    for n in [0, 1, 0x11, 0xd4f, u64::MAX] {
        assert_eq!(parse_hex_code(&format!("0x{n:x}")), n);
    }
}

#[test]
fn hex_codes_are_read_however_they_are_written() {
    for n in [0u64, 7, 0x1f, 0xd4f, 0xabcdef, u64::MAX] {
        for digits in [format!("{n:x}"), format!("{n:X}"), format!("{n:024x}"), format!("000{n:X}")] {
            assert_eq!(parse_hex_code(&digits), n);
            assert_eq!(parse_hex_code(&format!("0x{digits}")), n);
            assert_eq!(parse_hex_code(&format!("0X{digits}")), n);
        }
    }
    assert_eq!(parse_hex_code("0xdEaD"), 0xdead);
    for text in ["+", "0x+", "++1", "1 ", "0x 1", "1_0", "ä", "0x-1", "00x1"] {
        assert_eq!(parse_hex_code(text), 0);
    }
}

#[test]
fn names_are_looked_up_without_case_and_separators() {
    assert_eq!(normalize_str("TOP_down-L1"), "topdownl1");
    assert_eq!(normalize_str("ÄÖ_ü"), "äöü");
    assert_eq!(strip_separators("A_-b"), "Ab");
    let (_, db) = load_neoverse_v2();
    assert_eq!(db.find_metric("Back-End_BOUND").unwrap().name, "backend_bound");
    assert_eq!(db.find_group("t_o-pdownl1").unwrap().name, "Topdown_L1");
    assert_eq!(db.topdown.find_node("BACKENDBOUND").unwrap().group_name, "Topdown_L1");
    assert!(db.find_metric("backend").is_none());
    assert!(db.find_group("").is_none());
    assert!(db.topdown.find_node("ipc").is_none());
}

#[test]
fn names_in_the_database_are_sorted() {
    let (_, db) = load_neoverse_v2();
    assert_eq!(
        db.metrics.get("backend_bound").unwrap().event_names,
        names(&["BR_MIS_PRED", "CPU_CYCLES", "STALL_SLOT_BACKEND"])
    );
    assert_eq!(
        db.groups.get("Topdown_L1").unwrap().metric_names,
        names(&["backend_bound", "frontend_bound", "retiring"])
    );
}

#[test]
fn groups_and_metrics_have_stages() {
    let (_, db) = load_neoverse_v2();
    assert_eq!(db.topdown.get_stage_for_group("Topdown_L1"), 1);
    assert_eq!(db.topdown.get_stage_for_group("General"), 2);
    assert_eq!(db.topdown.get_stage_for_group("Extra_4"), 2);
    assert_eq!(db.topdown.get_stage_for_group("nothing"), 2);
    assert_eq!(db.get_metric_stage("retiring"), 1);
    assert_eq!(db.get_metric_stage("ipc"), 2);
    assert_eq!(db.get_metric_stage("nothing"), 2);
}

#[test]
fn group_choices_lead_to_metrics_and_events() {
    let (_, db) = load_neoverse_v2();
    let full = GroupLike::Full("Topdown_L1".to_string());
    assert_eq!(full.group_name(), "Topdown_L1");
    assert_eq!(
        full.metric_names(&db),
        names(&["backend_bound", "frontend_bound", "retiring"])
    );
    let view = GroupLike::View(GroupView {
        group_name: "Topdown_L1".to_string(),
        metric_names: names(&["frontend_bound", "backend_bound", "missing"]),
    });
    assert_eq!(view.group_name(), "Topdown_L1");
    assert_eq!(view.metric_names(&db).len(), 3);
    assert_eq!(
        view.all_event_names(&db),
        names(&["BR_MIS_PRED", "CPU_CYCLES", "STALL_SLOT_BACKEND", "STALL_SLOT_FRONTEND"])
    );
    let unknown = GroupLike::Full("missing".to_string());
    assert!(unknown.metric_names(&db).is_empty());
    assert!(unknown.all_event_names(&db).is_empty());
}

fn hash_of<T: std::hash::Hash>(value: &T) -> u64 {
    let mut hasher = std::collections::hash_map::DefaultHasher::new();
    value.hash(&mut hasher);
    std::hash::Hasher::finish(&hasher)
}

#[test]
fn events_metrics_and_groups_compare() {
    let event = |name: &str, code: u64| Event {
        name: name.to_string(),
        title: String::new(),
        description: String::new(),
        code,
    };
    assert!(event("A", 1) == event("A", 1));
    assert!(event("A", 1) != event("A", 2));
    assert!(event("A", 2) < event("B", 1));
    assert!(event("B", 1) > event("A", 2));

    let metric = |name: &str, title: &str| Metric {
        name: name.to_string(),
        title: title.to_string(),
        description: String::new(),
        units: String::new(),
        formula: String::new(),
        event_names: Vec::new(),
        sample_event_names: Vec::new(),
    };
    assert!(metric("A", "x") == metric("A", "y"));
    assert!(metric("A", "x") < metric("B", "x"));

    let group = |name: &str, title: &str| Group {
        name: name.to_string(),
        title: title.to_string(),
        description: String::new(),
        metric_names: Vec::new(),
    };
    assert!(group("A", "x") == group("A", "y"));
    assert!(group("A", "x") < group("AA", "x"));

    assert_eq!(hash_of(&metric("A", "x")), hash_of(&metric("A", "y")));
    assert_ne!(hash_of(&metric("A", "x")), hash_of(&metric("B", "x")));
    assert_eq!(hash_of(&group("A", "x")), hash_of(&group("A", "y")));
    assert_ne!(hash_of(&group("A", "x")), hash_of(&group("B", "x")));
    assert_eq!(hash_of(&group("A", "x")), hash_of(&"A".to_string()));
}

#[test]
fn copies_have_the_same_entries() {
    let (spec, db) = load_neoverse_v2();
    let copy = spec.clone();
    assert_eq!(copy.events.len(), spec.events.len());
    for i in 0..spec.events.len() {
        assert_eq!(copy.events.name_at(i), spec.events.name_at(i));
        assert_eq!(copy.events.value_at(i).code, spec.events.value_at(i).code);
    }
    assert_eq!(copy.groups.clone().metrics.len(), spec.groups.metrics.len());
    let topdown = db.topdown.clone();
    for i in 0..db.groups.len() {
        let name = db.groups.name_at(i);
        assert_eq!(
            topdown.get_stage_for_group(name),
            db.topdown.get_stage_for_group(name)
        );
    }
}

#[test]
fn every_name_in_the_database_of_a_valid_specification_resolves() {
    let (_, db) = load_neoverse_v2();
    for i in 0..db.metrics.len() {
        for event in &db.metrics.value_at(i).event_names {
            assert!(db.events.contains_key(event));
        }
    }
    for i in 0..db.groups.len() {
        for metric in &db.groups.value_at(i).metric_names {
            assert!(db.metrics.contains_key(metric));
        }
    }
    for i in 0..db.topdown.nodes.len() {
        let node = db.topdown.nodes.value_at(i);
        assert!(db.groups.contains_key(&node.group_name));
        for item in &node.next_items {
            assert!(db.metrics.contains_key(item) || db.groups.contains_key(item));
        }
    }
}
