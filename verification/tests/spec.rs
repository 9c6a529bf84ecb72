use topdown::name_map::NameMap;
use topdown::number::IntError;
use topdown::spec::{
    load_cpu_mapping, string_or_int, CpuMapping, DecisionTree, Event, FunctionGroup, Groups, Metric,
    MetricGroup, MetricGrouping, Methodologies, Parsed, ProductConfiguration, SpecError, StringOrInt,
    TelemetrySpecification, TopdownMethodology, TopdownMethodologyNode,
};

fn names(items: &[&str]) -> Vec<String> {
    items.iter().map(|s| s.to_string()).collect()
}

fn text(value: &serde_json::Value, key: &str) -> String {
    value.get(key).and_then(|v| v.as_str()).unwrap().to_string()
}

fn revision(value: &serde_json::Value, key: &str) -> i64 {
    let raw = match value.get(key).unwrap() {
        serde_json::Value::String(s) => StringOrInt::Text(s.clone()),
        other => match other.as_i64() {
            Some(n) => StringOrInt::Signed(n),
            None => StringOrInt::Unsigned(other.as_u64().unwrap()),
        },
    };
    string_or_int(&raw).unwrap()
}

#[test]
fn test_hex_str_parsing() {
    let json = r#"{"product_name":"Test","part_num":"0xd4f","implementer":"0x41","major_revision":"0","minor_revision":"0","num_slots":8,"num_bus_slots":0,"architecture":"armv9.0","pmu_architecture":"pmu_v3"}"#;
    let value: serde_json::Value = serde_json::from_str(json).unwrap();
    let pc = ProductConfiguration {
        product_name: text(&value, "product_name"),
        part_num: text(&value, "part_num"),
        implementer: text(&value, "implementer"),
        major_revision: revision(&value, "major_revision"),
        minor_revision: revision(&value, "minor_revision"),
        num_slots: value.get("num_slots").and_then(|v| v.as_u64()).unwrap() as usize,
        num_bus_slots: value.get("num_bus_slots").and_then(|v| v.as_u64()).unwrap() as usize,
        architecture: text(&value, "architecture"),
        pmu_architecture: text(&value, "pmu_architecture"),
    };
    assert_eq!(pc.part_num, "0xd4f");
    assert_eq!(pc.major_revision, 0);
}

#[test]
fn revisions_are_numbers_or_strings() {
    assert_eq!(string_or_int(&StringOrInt::Signed(-3)), Ok(-3));
    assert_eq!(string_or_int(&StringOrInt::Unsigned(7)), Ok(7));
    assert_eq!(string_or_int(&StringOrInt::Unsigned(u64::MAX)), Ok(-1));
    assert_eq!(string_or_int(&StringOrInt::Text("12".to_string())), Ok(12));
    assert_eq!(string_or_int(&StringOrInt::Text("-12".to_string())), Ok(-12));
    assert_eq!(string_or_int(&StringOrInt::Text(String::new())), Err(IntError::Empty));
    assert_eq!(string_or_int(&StringOrInt::Text("1 ".to_string())), Err(IntError::InvalidDigit));
    assert_eq!(
        string_or_int(&StringOrInt::Text("9223372036854775808".to_string())),
        Err(IntError::PosOverflow)
    );
    assert_eq!(
        string_or_int(&StringOrInt::Text("-9223372036854775809".to_string())),
        Err(IntError::NegOverflow)
    );
}

/// A small specification in which all names resolve.
fn small_spec() -> TelemetrySpecification {
    let mut events = NameMap::new();
    for name in ["E1", "E2"] {
        events.insert(
            name.to_string(),
            Event {
                code: "0x1".to_string(),
                title: String::new(),
                description: String::new(),
                architecture_defined: false,
                product_defined: false,
                accesses: Vec::new(),
            },
        );
    }
    let mut metrics = NameMap::new();
    for name in ["m1", "m2"] {
        metrics.insert(
            name.to_string(),
            Metric {
                title: String::new(),
                formula: "E1".to_string(),
                description: String::new(),
                units: String::new(),
                events: names(&["E1"]),
                sample_events: names(&["E2"]),
            },
        );
    }
    let mut function = NameMap::new();
    function.insert(
        "F".to_string(),
        FunctionGroup {
            title: String::new(),
            description: String::new(),
            events: names(&["E1", "E2"]),
        },
    );
    let mut groups = NameMap::new();
    groups.insert("G1".to_string(), group(&["m1"]));
    groups.insert("G2".to_string(), group(&["m2"]));
    TelemetrySpecification {
        document: NameMap::new(),
        product_configuration: ProductConfiguration {
            product_name: "P".to_string(),
            part_num: String::new(),
            implementer: String::new(),
            major_revision: 0,
            minor_revision: 0,
            num_slots: 8,
            num_bus_slots: 0,
            architecture: String::new(),
            pmu_architecture: String::new(),
        },
        events,
        metrics,
        groups: Groups { function, metrics: groups },
        methodologies: Methodologies {
            topdown_methodology: TopdownMethodology {
                title: String::new(),
                description: String::new(),
                metric_grouping: MetricGrouping { stage_1: names(&["G1"]), stage_2: names(&["G2"]) },
                decision_tree: DecisionTree {
                    root_nodes: names(&["m1"]),
                    metrics: vec![node("m1", "G1", &["m2", "G2"])],
                },
            },
        },
    }
}

fn group(metrics: &[&str]) -> MetricGroup {
    MetricGroup {
        title: String::new(),
        description: String::new(),
        metrics: names(metrics),
    }
}

fn node(name: &str, group: &str, next_items: &[&str]) -> TopdownMethodologyNode {
    TopdownMethodologyNode {
        name: name.to_string(),
        group: group.to_string(),
        next_items: names(next_items),
        sample_events: Vec::new(),
    }
}

fn complaint(spec: &TelemetrySpecification) -> String {
    match spec.validate() {
        Err(SpecError::Validation(message)) => message,
        other => panic!("{other:?}"),
    }
}

#[test]
fn a_specification_whose_names_resolve_is_valid() {
    assert!(small_spec().validate().is_ok());
}

#[test]
fn all_undefined_events_of_metrics_are_named() {
    let mut spec = small_spec();
    spec.metrics.insert(
        "m2".to_string(),
        Metric {
            title: String::new(),
            formula: String::new(),
            description: String::new(),
            units: String::new(),
            events: names(&["E1", "X"]),
            sample_events: names(&["Y", "Z"]),
        },
    );
    assert_eq!(
        complaint(&spec),
        "Metric 'm2' references undefined event: 'X'; \
         Metric 'm2' references undefined sample_event: 'Y'; \
         Metric 'm2' references undefined sample_event: 'Z'"
    );
    assert_eq!(
        spec.validate().unwrap_err().message(),
        format!("validation error: {}", complaint(&spec))
    );
}

#[test]
fn the_first_undefined_event_of_a_function_group_is_named() {
    let mut spec = small_spec();
    spec.groups.function.insert(
        "F".to_string(),
        FunctionGroup {
            title: String::new(),
            description: String::new(),
            events: names(&["E1", "X", "Y"]),
        },
    );
    assert_eq!(complaint(&spec), "Function group 'F' references undefined event: 'X'");
}

#[test]
fn the_first_undefined_metric_of_a_group_is_named() {
    let mut spec = small_spec();
    spec.groups.metrics.insert("G2".to_string(), group(&["m2", "x", "y"]));
    assert_eq!(complaint(&spec), "Metric group 'G2' references undefined metric: 'x'");
}

#[test]
fn all_faults_of_the_stages_are_named() {
    let mut spec = small_spec();
    let grouping = &mut spec.methodologies.topdown_methodology.metric_grouping;
    grouping.stage_1 = names(&["G1", "X"]);
    grouping.stage_2 = names(&["Y", "G1"]);
    assert_eq!(
        complaint(&spec),
        "stage_1 references undefined metric group: 'X'; \
         stage_2 references undefined metric group: 'Y'; \
         Group 'G1' appears in both stage_1 and stage_2"
    );
}

#[test]
fn the_first_undefined_root_is_named() {
    let mut spec = small_spec();
    spec.methodologies.topdown_methodology.decision_tree.root_nodes = names(&["m1", "x", "y"]);
    assert_eq!(complaint(&spec), "Decision tree root_node references undefined metric: 'x'");
}

#[test]
fn all_faults_of_the_nodes_are_named() {
    let mut spec = small_spec();
    spec.methodologies.topdown_methodology.decision_tree.metrics = vec![
        node("x", "X", &["m1", "G1", "nothing"]),
        node("m1", "G2", &[]),
    ];
    assert_eq!(
        complaint(&spec),
        "Decision tree node 'x' is not defined in metrics; \
         Decision tree node 'x' has group 'X' not defined in groups.metrics; \
         Decision tree node 'x' has next_item 'nothing' which is neither a metric nor a metric group; \
         Decision tree node 'm1' is not listed in its group 'G2' metrics"
    );
}

#[test]
fn the_first_check_that_finds_a_fault_decides() {
    let mut spec = small_spec();
    spec.groups.metrics.insert("G2".to_string(), group(&["x"]));
    spec.methodologies.topdown_methodology.decision_tree.root_nodes = names(&["y"]);
    assert_eq!(complaint(&spec), "Metric group 'G2' references undefined metric: 'x'");
}

#[test]
fn loading_reports_what_went_wrong() {
    assert!(TelemetrySpecification::load_from_file("p", Parsed::Value(small_spec())).is_ok());
    let e = TelemetrySpecification::load_from_file("p", Parsed::Unreadable("gone".to_string()))
        .unwrap_err();
    assert_eq!(e.message(), "failed to read file p: gone");
    let e = TelemetrySpecification::load_from_file("p", Parsed::Malformed("odd".to_string()))
        .unwrap_err();
    assert_eq!(e.message(), "invalid JSON in p: odd");
    let e =
        TelemetrySpecification::load_from_str(Parsed::Malformed("odd".to_string())).unwrap_err();
    assert_eq!(e.message(), "invalid JSON in <string>: odd");
    let mut spec = small_spec();
    spec.methodologies.topdown_methodology.decision_tree.root_nodes = names(&["y"]);
    assert!(TelemetrySpecification::load_from_str(Parsed::Value(spec)).is_err());
}

#[test]
fn mappings_are_loaded_as_they_are() {
    let mut mapping = NameMap::new();
    mapping.insert("0x41d4f".to_string(), CpuMapping { name: "neoverse_v2".to_string() });
    let loaded = load_cpu_mapping("m", Parsed::Value(mapping)).unwrap();
    assert_eq!(loaded.get("0x41d4f").unwrap().name, "neoverse_v2");
    let e = load_cpu_mapping("m", Parsed::Unreadable("gone".to_string())).unwrap_err();
    assert_eq!(e.message(), "failed to read file m: gone");
}
