use topdown::cpu::{ComputedGroup, ComputedMetric, TimestampedComputedGroups};
use topdown::database::TelemetryDatabase;
use topdown::name_map::NameMap;
use topdown::output::{
    adjust_unit, check_groups, check_intervals, check_units, dump_events, dump_interval_events,
    dump_table, event_lines, events_csv, events_table, format_csv_value, format_value, group_table,
    groups_table, interval_event_names, interval_events_csv, interval_metrics_csv, interval_table, is_percent,
    list_events, list_groups, list_metrics, metric_value_cell, metrics_csv, render_interval_metrics,
    render_metrics, snapshots_table, NumberText,
};
use topdown::results::EventResults;
use topdown::spec;
use topdown::table::{draw, plain_cell, plain_cells, texts, CellStyle, TableText};
use topdown::workload::TimestampedSnapshot;

fn names(items: &[&str]) -> Vec<String> {
    items.iter().map(|s| s.to_string()).collect()
}

fn records(items: &[&[&str]]) -> Vec<Vec<String>> {
    items.iter().map(|r| names(r)).collect()
}

fn number(v: f64) -> NumberText {
    NumberText {
        fixed2: format!("{v:.2}"),
        fixed3: format!("{v:.3}"),
        whole: format!("{v:.0}"),
        plain: format!("{v}"),
        above_fifty: v > 50.0,
    }
}

fn computed_metric(name: &str, value: Option<f64>, units: &str) -> ComputedMetric<NumberText> {
    ComputedMetric {
        metric_name: name.to_string(),
        value: value.map(number),
        units: units.to_string(),
    }
}

fn small_db() -> TelemetryDatabase {
    let mut events = NameMap::new();
    for (name, code) in [("B", "0x12345"), ("A", "0x1")] {
        events.insert(
            name.to_string(),
            spec::Event {
                code: code.to_string(),
                title: format!("Event {name}"),
                description: format!("About {name}"),
                architecture_defined: false,
                product_defined: false,
                accesses: Vec::new(),
            },
        );
    }
    let mut metrics = NameMap::new();
    for name in ["m2", "m1"] {
        metrics.insert(
            name.to_string(),
            spec::Metric {
                title: format!("Metric {name}"),
                formula: "A".to_string(),
                description: String::new(),
                units: "count".to_string(),
                events: names(&["A"]),
                sample_events: Vec::new(),
            },
        );
    }
    let mut groups = NameMap::new();
    for (name, members) in [("G2", vec!["m2"]), ("G1", vec!["m2", "m1"])] {
        groups.insert(
            name.to_string(),
            spec::MetricGroup {
                title: format!("Title {name}"),
                description: format!("About {name}"),
                metrics: names(&members),
            },
        );
    }
    TelemetryDatabase::from_spec(&spec::TelemetrySpecification {
        document: NameMap::new(),
        product_configuration: spec::ProductConfiguration {
            product_name: "P".to_string(),
            part_num: String::new(),
            implementer: String::new(),
            major_revision: 0,
            minor_revision: 0,
            num_slots: 8,
            num_bus_slots: 0,
            architecture: String::new(),
            pmu_architecture: String::new(),
        },
        events,
        metrics,
        groups: spec::Groups { function: NameMap::new(), metrics: groups },
        methodologies: spec::Methodologies {
            topdown_methodology: spec::TopdownMethodology {
                title: String::new(),
                description: String::new(),
                metric_grouping: spec::MetricGrouping {
                    stage_1: names(&["G1"]),
                    stage_2: names(&["G2"]),
                },
                decision_tree: spec::DecisionTree { root_nodes: Vec::new(), metrics: Vec::new() },
            },
        },
    })
}

fn cells(row: &Vec<topdown::table::CellText>) -> Vec<&str> {
    row.iter().map(|c| c.text.as_str()).collect()
}

#[test]
fn tables_have_round_corners() {
    let table = TableText {
        header: texts("Event", "Code", "Title"),
        rows: vec![
            plain_cells(&names(&["A", "0x0001", "first"])),
            vec![plain_cell("BB"), plain_cell("0x0002"), plain_cell("")],
        ],
    };
    assert_eq!(
        draw(&table),
        "╭───────┬────────┬───────╮\n\
         │ Event ┆ Code   ┆ Title │\n\
         ╞═══════╪════════╪═══════╡\n\
         │ A     ┆ 0x0001 ┆ first │\n\
         ├╌╌╌╌╌╌╌┼╌╌╌╌╌╌╌╌┼╌╌╌╌╌╌╌┤\n\
         │ BB    ┆ 0x0002 ┆       │\n\
         ╰───────┴────────┴───────╯"
    );
}

#[test]
fn percentages_are_told_by_their_units() {
    for units in ["percent", "PerCent of slots", "percentage"] {
        assert!(is_percent(units));
        assert_eq!(adjust_unit(units), "%");
    }
    for units in ["", "per", "count", "slots percent", "äöü", "percen"] {
        assert!(!is_percent(units));
        assert_eq!(adjust_unit(units), units);
    }
    assert!(check_units("percent"));
    assert!(check_units("ä"));
    assert!(check_units("aäöü"));
    assert!(!check_units("äöüß"));
    assert!(!check_units("abcdefä"));
}

#[test]
fn values_are_shown_with_decimals() {
    assert_eq!(format_value(&Some(number(12.3456)), "percent"), "12.35");
    assert_eq!(format_value(&Some(number(12.3456)), "count"), "12.346");
    assert_eq!(format_value(&None, "percent"), "n/a");
    assert_eq!(format_csv_value(&Some(number(0.5))), "0.5");
    assert_eq!(format_csv_value(&None), "");
}

#[test]
fn values_have_styles() {
    let cell = metric_value_cell(&computed_metric("m", Some(50.5), "percent"));
    assert_eq!((cell.text.as_str(), cell.style), ("50.50", CellStyle::RedBold));
    let cell = metric_value_cell(&computed_metric("m", Some(50.0), "percent"));
    assert_eq!((cell.text.as_str(), cell.style), ("50.00", CellStyle::Plain));
    let cell = metric_value_cell(&computed_metric("m", Some(99.0), "count"));
    assert_eq!((cell.text.as_str(), cell.style), ("99.000", CellStyle::Plain));
    let cell = metric_value_cell(&computed_metric("m", None, "percent"));
    assert_eq!((cell.text.as_str(), cell.style), ("n/a", CellStyle::DarkGrey));
}

#[test]
fn events_are_listed_by_name() {
    let db = small_db();
    let table = events_table(&db, true);
    assert_eq!(table.header, names(&["Event", "Code", "Title", "Description"]));
    assert_eq!(cells(&table.rows[0]), ["A", "0x0001", "Event A", "About A"]);
    assert_eq!(cells(&table.rows[1]), ["B", "0x12345", "Event B", "About B"]);
    let lines = list_events(&db, false);
    assert_eq!(
        lines,
        names(&[
            "╭───────┬─────────┬─────────╮\n\
             │ Event ┆ Code    ┆ Title   │\n\
             ╞═══════╪═════════╪═════════╡\n\
             │ A     ┆ 0x0001  ┆ Event A │\n\
             ├╌╌╌╌╌╌╌┼╌╌╌╌╌╌╌╌╌┼╌╌╌╌╌╌╌╌╌┤\n\
             │ B     ┆ 0x12345 ┆ Event B │\n\
             ╰───────┴─────────┴─────────╯",
            "\nTotal: 2 events",
        ])
    );
}

#[test]
fn groups_are_listed_by_name() {
    let db = small_db();
    let table = groups_table(&db, true);
    assert_eq!(table.header, names(&["Group", "Stage", "Metrics", "Description"]));
    assert_eq!(cells(&table.rows[0]), ["G1", "1", "2", "About G1"]);
    assert_eq!(cells(&table.rows[1]), ["G2", "2", "1", "About G2"]);
    let lines = list_groups(&db, false);
    assert_eq!(
        lines,
        names(&["╭───────┬───────┬─────────╮\n\
                 │ Group ┆ Stage ┆ Metrics │\n\
                 ╞═══════╪═══════╪═════════╡\n\
                 │ G1    ┆ 1     ┆ 2       │\n\
                 ├╌╌╌╌╌╌╌┼╌╌╌╌╌╌╌┼╌╌╌╌╌╌╌╌╌┤\n\
                 │ G2    ┆ 2     ┆ 1       │\n\
                 ╰───────┴───────┴─────────╯"])
    );
}

#[test]
fn metrics_are_listed_by_stage() {
    let db = small_db();
    assert_eq!(
        list_metrics(&db, true),
        names(&[
            "=== Stage 1 (Topdown) ===\n",
            "  Title G1 (G1)",
            "    - m1 [count]  — Metric m1",
            "    - m2 [count]  — Metric m2",
            "",
            "=== Stage 2 (Micro-architecture) ===\n",
            "  Title G2 (G2)",
            "    - m2 [count]  — Metric m2",
            "",
            "Total: 2 metrics",
        ])
    );
    assert_eq!(list_metrics(&db, false)[2], "    - m1 [count]");
}

fn computed() -> Vec<ComputedGroup<NumberText>> {
    vec![
        ComputedGroup {
            group_name: "G1".to_string(),
            group_title: "Title G1".to_string(),
            stage: 1,
            metrics: vec![
                computed_metric("m1", Some(12.5), "percent"),
                computed_metric("other", Some(2.0), "count"),
            ],
        },
        ComputedGroup {
            group_name: "G2".to_string(),
            group_title: "Title G2".to_string(),
            stage: 2,
            metrics: vec![computed_metric("m2", None, "percent")],
        },
    ]
}

#[test]
fn computed_groups_are_shown() {
    let db = small_db();
    let computed = computed();
    assert!(check_groups(&computed));
    let table = group_table(&db, &computed[0], true);
    assert_eq!(table.header, names(&["Metric", "Value", "Unit", "Description"]));
    assert_eq!(cells(&table.rows[0]), ["m1", "12.50", "%", "Metric m1"]);
    assert_eq!(cells(&table.rows[1]), ["other", "2.000", "count", ""]);
    let lines = render_metrics(&computed, &db, false);
    assert_eq!(lines.len(), 6);
    assert_eq!(lines[0], "");
    assert_eq!(lines[1], "── Title G1 (Stage 1) ──");
    assert_eq!(
        lines[2],
        "╭────────┬───────┬───────╮\n\
         │ Metric ┆ Value ┆ Unit  │\n\
         ╞════════╪═══════╪═══════╡\n\
         │ m1     ┆ 12.50 ┆ %     │\n\
         ├╌╌╌╌╌╌╌╌┼╌╌╌╌╌╌╌┼╌╌╌╌╌╌╌┤\n\
         │ other  ┆ 2.000 ┆ count │\n\
         ╰────────┴───────┴───────╯"
    );
    assert_eq!(lines[4], "── Title G2 (Stage 2) ──");
    assert!(lines[5].contains("n/a"));
}

#[test]
fn units_that_cannot_be_cut_are_found() {
    let mut computed = computed();
    computed[1].metrics[0].units = "abcdefä".to_string();
    assert!(!check_groups(&computed));
    let intervals = vec![TimestampedComputedGroups { timestamp: number(1.0), groups: computed }];
    assert!(!check_intervals(&intervals));
    assert!(check_intervals(&Vec::new()));
}

#[test]
fn metrics_are_written_as_csv() {
    let computed = computed();
    assert_eq!(
        metrics_csv(&computed),
        records(&[
            &["group", "stage", "metric", "value", "units"],
            &["G1", "1", "m1", "12.5", "percent"],
            &["G1", "1", "other", "2", "count"],
            &["G2", "2", "m2", "", "percent"],
        ])
    );
    let intervals = vec![TimestampedComputedGroups { timestamp: number(0.25), groups: computed }];
    assert_eq!(
        interval_metrics_csv(&intervals).unwrap(),
        records(&[
            &["timestamp", "group", "stage", "metric", "value", "units"],
            &["0.250", "G1", "1", "m1", "12.5", "percent"],
            &["0.250", "G1", "1", "other", "2", "count"],
            &["0.250", "G2", "2", "m2", "", "percent"],
        ])
    );
    assert!(interval_metrics_csv(&Vec::new()).is_none());
}

#[test]
fn computed_groups_are_shown_over_intervals() {
    let mut shorter = computed();
    shorter.truncate(1);
    let intervals = vec![
        TimestampedComputedGroups { timestamp: number(1.0), groups: computed() },
        TimestampedComputedGroups { timestamp: number(2.0), groups: shorter },
    ];
    assert!(check_intervals(&intervals));
    let table = interval_table(&intervals, 0);
    assert_eq!(table.header, names(&["Timestamp (s)", "m1 (%)", "other (count)"]));
    assert_eq!(cells(&table.rows[0]), ["1.000", "12.50", "2.000"]);
    assert_eq!(cells(&table.rows[1]), ["2.000", "12.50", "2.000"]);
    assert_eq!(interval_table(&intervals, 1).rows.len(), 1);
    let lines = render_interval_metrics(&intervals);
    assert_eq!(lines.len(), 6);
    assert_eq!(lines[1], "── Title G1 (Stage 1) ──");
    assert!(lines[2].contains("Timestamp (s)"));
    assert_eq!(
        render_interval_metrics(&Vec::new()),
        names(&["No interval data collected."])
    );
}

fn small_results() -> EventResults<NumberText> {
    let mut results = EventResults::new();
    results.insert(names(&["B", "X"]), vec![Some(number(1234.6)), None]);
    results.insert(names(&["A", "B"]), vec![Some(number(7.0)), Some(number(1.0))]);
    results
}

#[test]
fn events_are_shown_by_name() {
    let db = small_db();
    let results = small_results();
    let lines = event_lines(&results, &db);
    let order: Vec<&str> = lines.iter().map(|l| l.0.as_str()).collect();
    assert_eq!(order, ["A", "B", "B", "X"]);
    let table = dump_table(&lines);
    assert_eq!(table.header, names(&["Event", "Code", "Value"]));
    assert_eq!(cells(&table.rows[1]), ["B", "0x12345", "1235"]);
    assert_eq!(cells(&table.rows[2]), ["B", "0x12345", "1"]);
    assert_eq!(cells(&table.rows[3]), ["X", "0x0000", "n/a"]);
    assert_eq!(dump_events(&results, &db), vec![draw(&table)]);
    assert_eq!(
        events_csv(&results, &db),
        records(&[
            &["event", "code", "value"],
            &["A", "0x0001", "7"],
            &["B", "0x12345", "1234.6"],
            &["B", "0x12345", "1"],
            &["X", "0x0000", ""],
        ])
    );
}

#[test]
fn events_are_shown_over_intervals() {
    let mut later = EventResults::new();
    later.insert(names(&["C"]), vec![Some(number(0.5))]);
    let snapshots = vec![
        TimestampedSnapshot { timestamp: number(0.1), results: small_results() },
        TimestampedSnapshot { timestamp: number(0.2), results: later },
    ];
    assert_eq!(interval_event_names(&snapshots), names(&["A", "B", "C", "X"]));
    let (table, csv) = snapshots_table(&snapshots);
    assert_eq!(table.header, names(&["Timestamp (s)", "A", "B", "C", "X"]));
    assert_eq!(cells(&table.rows[0]), ["0.100", "7", "1", "n/a", "n/a"]);
    assert_eq!(cells(&table.rows[1]), ["0.200", "n/a", "n/a", "0", "n/a"]);
    assert_eq!(
        csv,
        records(&[
            &["timestamp", "A", "B", "C", "X"],
            &["0.100", "7", "1", "", ""],
            &["0.200", "", "", "0.5", ""],
        ])
    );
    assert_eq!(interval_events_csv(&snapshots), Some(csv));
    assert!(interval_events_csv(&Vec::new()).is_none());
    assert_eq!(dump_interval_events(&snapshots), vec![draw(&table)]);
    assert_eq!(dump_interval_events(&Vec::new()), names(&["No interval data collected."]));
}
