//! Telemetry specifications: what a CPU's events, metrics and groups are.
//!
//! The types follow the JSON files that describe a CPU. A specification is of
//! use once all names in it lead somewhere, which `validate` makes sure of.
use vstd::prelude::*;
use vstd::string::*;

use crate::name_map::{
    has_name, law_value_found, lemma_value_at, names_distinct, value_of, NameMap,
};
use crate::number::{integer_of, is_figure, law_integers, read_i64, reckoned, IntError};
use crate::scheduler::lemma_flatten_has;
use crate::text::{contains_text, join, joined, to_chars};

verus! {

// ─── Model ───────────────────────────────────────────────────────────────────

/// The product that a specification describes.
#[derive(Debug, Clone)]
pub struct ProductConfiguration {
    pub product_name: String,
    pub part_num: String,
    pub implementer: String,
    pub major_revision: i64,
    pub minor_revision: i64,
    pub num_slots: usize,
    pub num_bus_slots: usize,
    pub architecture: String,
    pub pmu_architecture: String,
}

/// A hardware event.
#[derive(Debug, Clone)]
pub struct Event {
    pub code: String,
    pub title: String,
    pub description: String,
    pub architecture_defined: bool,
    pub product_defined: bool,
    pub accesses: Vec<String>,
}

/// A value that a formula computes from events.
#[derive(Debug, Clone)]
pub struct Metric {
    pub title: String,
    pub formula: String,
    pub description: String,
    pub units: String,
    pub events: Vec<String>,
    pub sample_events: Vec<String>,
}

/// Events that belong to one function of the CPU.
#[derive(Debug, Clone)]
pub struct FunctionGroup {
    pub title: String,
    pub description: String,
    pub events: Vec<String>,
}

/// Metrics that are shown together.
#[derive(Debug, Clone)]
pub struct MetricGroup {
    pub title: String,
    pub description: String,
    pub metrics: Vec<String>,
}

/// A node of the decision tree.
#[derive(Debug, Clone)]
pub struct TopdownMethodologyNode {
    pub name: String,
    pub group: String,
    pub next_items: Vec<String>,
    pub sample_events: Vec<String>,
}

/// The metric groups of the two stages.
#[derive(Debug, Clone)]
pub struct MetricGrouping {
    pub stage_1: Vec<String>,
    pub stage_2: Vec<String>,
}

/// Where to look next, given what a metric says.
#[derive(Debug, Clone)]
pub struct DecisionTree {
    pub root_nodes: Vec<String>,
    pub metrics: Vec<TopdownMethodologyNode>,
}

/// The topdown methodology.
#[derive(Debug, Clone)]
pub struct TopdownMethodology {
    pub title: String,
    pub description: String,
    pub metric_grouping: MetricGrouping,
    pub decision_tree: DecisionTree,
}

/// Groups of events and groups of metrics.
#[derive(Debug, Clone)]
pub struct Groups {
    pub function: NameMap<FunctionGroup>,
    pub metrics: NameMap<MetricGroup>,
}

/// The methodologies of a specification.
#[derive(Debug, Clone)]
pub struct Methodologies {
    pub topdown_methodology: TopdownMethodology,
}

/// A telemetry specification. The values of `document` are JSON texts.
#[derive(Debug, Clone)]
pub struct TelemetrySpecification {
    pub document: NameMap<String>,
    pub product_configuration: ProductConfiguration,
    pub events: NameMap<Event>,
    pub metrics: NameMap<Metric>,
    pub groups: Groups,
    pub methodologies: Methodologies,
}

/// The specification file of a CPU.
#[derive(Debug, Clone)]
pub struct CpuMapping {
    pub name: String,
}

// ─── Errors ──────────────────────────────────────────────────────────────────

/// Why there is no specification.
#[derive(Debug)]
pub enum SpecError {
    /// The file could not be read.
    Io { path: String, source: String },
    /// The file is not the JSON of a specification.
    Json { path: String, source: String },
    /// Names in the specification lead nowhere.
    Validation(String),
}

impl SpecError {
    /// What the error says.
    pub open spec fn text(self) -> Seq<char> {
        match self {
            SpecError::Io { path, source } => "failed to read file "@ + path@ + ": "@ + source@,
            SpecError::Json { path, source } => "invalid JSON in "@ + path@ + ": "@ + source@,
            SpecError::Validation(message) => "validation error: "@ + message@,
        }
    }

    /// The error as a message.
    pub fn message(&self) -> (out: String)
        ensures
            out@ == self.text(),
    {
        let mut out = String::new();
        match self {
            SpecError::Io { path, source } => {
                out.append("failed to read file ");
                out.append(path.as_str());
                out.append(": ");
                out.append(source.as_str());
            },
            SpecError::Json { path, source } => {
                out.append("invalid JSON in ");
                out.append(path.as_str());
                out.append(": ");
                out.append(source.as_str());
            },
            SpecError::Validation(message) => {
                out.append("validation error: ");
                out.append(message.as_str());
            },
        }
        assert(out@ =~= self.text());
        out
    }
}

// ─── Revision numbers ────────────────────────────────────────────────────────

/// A revision number as JSON writes it: a number or a string.
#[derive(Debug)]
pub enum StringOrInt {
    Signed(i64),
    Unsigned(u64),
    Text(String),
}

/// The revision number that JSON writes. An unsigned number counts modulo the
/// width; a string must be a decimal number.
pub fn string_or_int(value: &StringOrInt) -> (out: Result<i64, IntError>)
    ensures
        match value {
            StringOrInt::Signed(v) => out == Ok::<i64, IntError>(*v),
            StringOrInt::Unsigned(v) => out == Ok::<i64, IntError>(*v as i64),
            StringOrInt::Text(s) => match out {
                Ok(v) => integer_of(s@, 10, i64::MIN as int, i64::MAX as int) == Ok::<
                    int,
                    IntError,
                >(v as int),
                Err(e) => integer_of(s@, 10, i64::MIN as int, i64::MAX as int) == Err::<
                    int,
                    IntError,
                >(e),
            },
        },
{
    match value {
        StringOrInt::Signed(v) => Ok(*v),
        StringOrInt::Unsigned(v) => Ok(
            #[verifier::truncate]
            (*v as i64),
        ),
        StringOrInt::Text(s) => read_i64(&to_chars(s.as_str())),
    }
}

// ─── Validation ──────────────────────────────────────────────────────────────

/// One message for each name that no entry has.
pub open spec fn undefined<V>(
    names: Seq<Seq<char>>,
    entries: Seq<(Seq<char>, V)>,
    prefix: Seq<char>,
) -> Seq<Seq<char>> {
    names.filter(|name: Seq<char>| !has_name(entries, name)).map_values(
        |name: Seq<char>| prefix + name + "'"@,
    )
}

/// Adds a message for each name that no entry has.
fn add_undefined<V>(
    faults: Vec<String>,
    names: &Vec<String>,
    entries: &NameMap<V>,
    prefix: &String,
) -> (out: Vec<String>)
    ensures
        out.deep_view() == faults.deep_view() + undefined(names.deep_view(), entries@, prefix@),
{
    let ghost before = faults.deep_view();
    let ghost all = names.deep_view();
    let ghost missing = |name: Seq<char>| !has_name(entries@, name);
    let ghost say = |name: Seq<char>| prefix@ + name + "'"@;
    let mut out = faults;
    proof {
        reveal(Seq::filter);
        assert(all.take(0) =~= Seq::empty());
        assert(before + all.take(0).filter(missing).map_values(say) =~= before);
    }
    for i in 0..names.len()
        invariant
            all == names.deep_view(),
            missing == (|name: Seq<char>| !has_name(entries@, name)),
            say == (|name: Seq<char>| prefix@ + name + "'"@),
            out.deep_view() == before + all.take(i as int).filter(missing).map_values(say),
    {
        let ghost so_far = out.deep_view();
        let ghost name = all[i as int];
        proof {
            assert(all.take(i + 1) =~= all.take(i as int).push(name));
            all.take(i as int).lemma_filter_push(name, missing);
        }
        if !entries.contains_key(names[i].as_str()) {
            let mut fault = prefix.clone();
            fault.append(names[i].as_str());
            fault.append("'");
            out.push(fault);
            proof {
                assert(fault@ =~= say(name));
                assert(out.deep_view() =~= so_far.push(say(name)));
                assert(all.take(i as int).filter(missing).push(name).map_values(say)
                    =~= all.take(i as int).filter(missing).map_values(say).push(say(name)));
            }
        }
    }
    assert(all.take(all.len() as int) =~= all);
    out
}

/// A text with a name between two parts.
fn around(before: &str, name: &str, after: &str) -> (out: String)
    ensures
        out@ == before@ + name@ + after@,
{
    let mut out = before.to_owned();
    out.append(name);
    out.append(after);
    out
}

/// What is wrong with the events of a metric.
pub open spec fn metric_faults(
    entry: (Seq<char>, Metric),
    events: Seq<(Seq<char>, Event)>,
) -> Seq<Seq<char>> {
    let (name, metric) = entry;
    undefined(
        metric.events.deep_view(),
        events,
        "Metric '"@ + name + "' references undefined event: '"@,
    ) + undefined(
        metric.sample_events.deep_view(),
        events,
        "Metric '"@ + name + "' references undefined sample_event: '"@,
    )
}

/// What is wrong with the events of a function group.
pub open spec fn function_group_faults(
    entry: (Seq<char>, FunctionGroup),
    events: Seq<(Seq<char>, Event)>,
) -> Seq<Seq<char>> {
    undefined(
        entry.1.events.deep_view(),
        events,
        "Function group '"@ + entry.0 + "' references undefined event: '"@,
    )
}

/// What is wrong with the metrics of a metric group.
pub open spec fn metric_group_faults(
    entry: (Seq<char>, MetricGroup),
    metrics: Seq<(Seq<char>, Metric)>,
) -> Seq<Seq<char>> {
    undefined(
        entry.1.metrics.deep_view(),
        metrics,
        "Metric group '"@ + entry.0 + "' references undefined metric: '"@,
    )
}

/// One message for each group of the second stage that is in the first too.
pub open spec fn repeated_stage_faults(stage_1: Seq<Seq<char>>, stage_2: Seq<Seq<char>>) -> Seq<
    Seq<char>,
> {
    stage_2.filter(|name: Seq<char>| stage_1.contains(name)).map_values(
        |name: Seq<char>| "Group '"@ + name + "' appears in both stage_1 and stage_2"@,
    )
}

/// What is wrong with the groups of the stages.
pub open spec fn grouping_faults(
    grouping: MetricGrouping,
    groups: Seq<(Seq<char>, MetricGroup)>,
) -> Seq<Seq<char>> {
    undefined(
        grouping.stage_1.deep_view(),
        groups,
        "stage_1 references undefined metric group: '"@,
    ) + undefined(
        grouping.stage_2.deep_view(),
        groups,
        "stage_2 references undefined metric group: '"@,
    ) + repeated_stage_faults(grouping.stage_1.deep_view(), grouping.stage_2.deep_view())
}

/// What is wrong with the metric of a node.
pub open spec fn node_metric_faults(
    node: TopdownMethodologyNode,
    metrics: Seq<(Seq<char>, Metric)>,
) -> Seq<Seq<char>> {
    if has_name(metrics, node.name@) {
        Seq::empty()
    } else {
        seq!["Decision tree node '"@ + node.name@ + "' is not defined in metrics"@]
    }
}

/// What is wrong with the group of a node.
pub open spec fn node_group_faults(
    node: TopdownMethodologyNode,
    groups: Seq<(Seq<char>, MetricGroup)>,
) -> Seq<Seq<char>> {
    match value_of(groups, node.group@) {
        None => seq![
            "Decision tree node '"@ + node.name@ + "' has group '"@ + node.group@
                + "' not defined in groups.metrics"@,
        ],
        Some(group) => if group.metrics.deep_view().contains(node.name@) {
            Seq::empty()
        } else {
            seq![
                "Decision tree node '"@ + node.name@ + "' is not listed in its group '"@
                    + node.group@ + "' metrics"@,
            ]
        },
    }
}

/// One message for each next item of a node that is neither a metric nor a
/// metric group.
pub open spec fn node_item_faults(
    node: TopdownMethodologyNode,
    metrics: Seq<(Seq<char>, Metric)>,
    groups: Seq<(Seq<char>, MetricGroup)>,
) -> Seq<Seq<char>> {
    node.next_items.deep_view().filter(
        |item: Seq<char>| !has_name(metrics, item) && !has_name(groups, item),
    ).map_values(
        |item: Seq<char>|
            "Decision tree node '"@ + node.name@ + "' has next_item '"@ + item
                + "' which is neither a metric nor a metric group"@,
    )
}

/// What is wrong with a node of the decision tree.
pub open spec fn node_faults(
    node: TopdownMethodologyNode,
    metrics: Seq<(Seq<char>, Metric)>,
    groups: Seq<(Seq<char>, MetricGroup)>,
) -> Seq<Seq<char>> {
    node_metric_faults(node, metrics) + node_group_faults(node, groups) + node_item_faults(
        node,
        metrics,
        groups,
    )
}

/// All faults as one message, if there are any.
pub open spec fn all_faults(faults: Seq<Seq<char>>) -> Option<Seq<char>> {
    if faults.len() == 0 {
        None
    } else {
        Some(joined(faults, "; "@))
    }
}

/// The first fault, if there is one.
pub open spec fn first_fault(faults: Seq<Seq<char>>) -> Option<Seq<char>> {
    if faults.len() == 0 {
        None
    } else {
        Some(faults[0])
    }
}

fn report_all(faults: Vec<String>) -> (out: Result<(), SpecError>)
    ensures
        answers(out, all_faults(faults.deep_view())),
{
    if faults.len() == 0 {
        Ok(())
    } else {
        Err(SpecError::Validation(join(&faults, "; ")))
    }
}

fn report_first(faults: Vec<String>) -> (out: Result<(), SpecError>)
    ensures
        answers(out, first_fault(faults.deep_view())),
{
    if faults.len() == 0 {
        Ok(())
    } else {
        Err(SpecError::Validation(faults[0].clone()))
    }
}

/// Whether the outcome of a check is that message, or success without one.
pub open spec fn answers(out: Result<(), SpecError>, fault: Option<Seq<char>>) -> bool {
    match fault {
        None => out is Ok,
        Some(message) => out matches Err(SpecError::Validation(m)) && m@ == message,
    }
}

impl TelemetrySpecification {
    /// What is wrong with the events of the metrics.
    pub open spec fn metrics_events_fault(&self) -> Option<Seq<char>> {
        all_faults(
            self.metrics@.flat_map(|e: (Seq<char>, Metric)| metric_faults(e, self.events@)),
        )
    }

    /// What is wrong with the events of the function groups.
    pub open spec fn function_groups_fault(&self) -> Option<Seq<char>> {
        first_fault(
            self.groups.function@.flat_map(
                |e: (Seq<char>, FunctionGroup)| function_group_faults(e, self.events@),
            ),
        )
    }

    /// What is wrong with the metrics of the metric groups.
    pub open spec fn metric_groups_fault(&self) -> Option<Seq<char>> {
        first_fault(
            self.groups.metrics@.flat_map(
                |e: (Seq<char>, MetricGroup)| metric_group_faults(e, self.metrics@),
            ),
        )
    }

    /// What is wrong with the groups of the stages.
    pub open spec fn grouping_fault(&self) -> Option<Seq<char>> {
        all_faults(
            grouping_faults(
                self.methodologies.topdown_methodology.metric_grouping,
                self.groups.metrics@,
            ),
        )
    }

    /// What is wrong with the root nodes.
    pub open spec fn root_nodes_fault(&self) -> Option<Seq<char>> {
        first_fault(
            undefined(
                self.methodologies.topdown_methodology.decision_tree.root_nodes.deep_view(),
                self.metrics@,
                "Decision tree root_node references undefined metric: '"@,
            ),
        )
    }

    /// What is wrong with the nodes of the decision tree.
    pub open spec fn nodes_fault(&self) -> Option<Seq<char>> {
        all_faults(
            self.methodologies.topdown_methodology.decision_tree.metrics@.flat_map(
                |node: TopdownMethodologyNode|
                    node_faults(node, self.metrics@, self.groups.metrics@),
            ),
        )
    }

    /// What is wrong with a specification: what the first check that finds
    /// something says.
    pub open spec fn fault(&self) -> Option<Seq<char>> {
        if self.metrics_events_fault() is Some {
            self.metrics_events_fault()
        } else if self.function_groups_fault() is Some {
            self.function_groups_fault()
        } else if self.metric_groups_fault() is Some {
            self.metric_groups_fault()
        } else if self.grouping_fault() is Some {
            self.grouping_fault()
        } else if self.root_nodes_fault() is Some {
            self.root_nodes_fault()
        } else {
            self.nodes_fault()
        }
    }

    /// Checks that all names in the specification lead somewhere.
    pub fn validate(&self) -> (out: Result<(), SpecError>)
        ensures
            answers(out, self.fault()),
    {
        if let Err(e) = self.validate_metrics_events() {
            return Err(e);
        }
        if let Err(e) = self.validate_function_groups_events() {
            return Err(e);
        }
        if let Err(e) = self.validate_metric_groups_metrics() {
            return Err(e);
        }
        if let Err(e) = self.validate_metric_grouping() {
            return Err(e);
        }
        if let Err(e) = self.validate_decision_tree_root_nodes() {
            return Err(e);
        }
        self.validate_decision_tree_metrics()
    }

    fn validate_metrics_events(&self) -> (out: Result<(), SpecError>)
        ensures
            answers(out, self.metrics_events_fault()),
    {
        let ghost all = self.metrics@;
        let ghost check = |e: (Seq<char>, Metric)| metric_faults(e, self.events@);
        let mut faults: Vec<String> = Vec::new();
        assert(all.take(0) =~= Seq::empty());
        assert(faults.deep_view() =~= all.take(0).flat_map(check));
        let n = self.metrics.len();
        for i in 0..n
            invariant
                n == all.len(),
                all == self.metrics@,
                check == (|e: (Seq<char>, Metric)| metric_faults(e, self.events@)),
                faults.deep_view() == all.take(i as int).flat_map(check),
        {
            let ghost so_far = faults.deep_view();
            let name = self.metrics.name_at(i);
            let metric = self.metrics.value_at(i);
            proof {
                all.lemma_flat_map_take_append(check, i as int);
                assert(all[i as int] == (name@, *metric));
            }
            let prefix = around("Metric '", name.as_str(), "' references undefined event: '");
            faults = add_undefined(faults, &metric.events, &self.events, &prefix);
            let prefix = around(
                "Metric '",
                name.as_str(),
                "' references undefined sample_event: '",
            );
            faults = add_undefined(faults, &metric.sample_events, &self.events, &prefix);
            assert(faults.deep_view() =~= so_far + check(all[i as int]));
        }
        assert(all.take(all.len() as int) =~= all);
        report_all(faults)
    }

    fn validate_function_groups_events(&self) -> (out: Result<(), SpecError>)
        ensures
            answers(out, self.function_groups_fault()),
    {
        let ghost all = self.groups.function@;
        let ghost check = |e: (Seq<char>, FunctionGroup)| function_group_faults(e, self.events@);
        let mut faults: Vec<String> = Vec::new();
        assert(all.take(0) =~= Seq::empty());
        assert(faults.deep_view() =~= all.take(0).flat_map(check));
        let n = self.groups.function.len();
        for i in 0..n
            invariant
                n == all.len(),
                all == self.groups.function@,
                check == (|e: (Seq<char>, FunctionGroup)| function_group_faults(e, self.events@)),
                faults.deep_view() == all.take(i as int).flat_map(check),
        {
            let name = self.groups.function.name_at(i);
            let group = self.groups.function.value_at(i);
            proof {
                all.lemma_flat_map_take_append(check, i as int);
                assert(all[i as int] == (name@, *group));
            }
            let prefix = around(
                "Function group '",
                name.as_str(),
                "' references undefined event: '",
            );
            faults = add_undefined(faults, &group.events, &self.events, &prefix);
        }
        assert(all.take(all.len() as int) =~= all);
        report_first(faults)
    }

    fn validate_metric_groups_metrics(&self) -> (out: Result<(), SpecError>)
        ensures
            answers(out, self.metric_groups_fault()),
    {
        let ghost all = self.groups.metrics@;
        let ghost check = |e: (Seq<char>, MetricGroup)| metric_group_faults(e, self.metrics@);
        let mut faults: Vec<String> = Vec::new();
        assert(all.take(0) =~= Seq::empty());
        assert(faults.deep_view() =~= all.take(0).flat_map(check));
        let n = self.groups.metrics.len();
        for i in 0..n
            invariant
                n == all.len(),
                all == self.groups.metrics@,
                check == (|e: (Seq<char>, MetricGroup)| metric_group_faults(e, self.metrics@)),
                faults.deep_view() == all.take(i as int).flat_map(check),
        {
            let name = self.groups.metrics.name_at(i);
            let group = self.groups.metrics.value_at(i);
            proof {
                all.lemma_flat_map_take_append(check, i as int);
                assert(all[i as int] == (name@, *group));
            }
            let prefix = around(
                "Metric group '",
                name.as_str(),
                "' references undefined metric: '",
            );
            faults = add_undefined(faults, &group.metrics, &self.metrics, &prefix);
        }
        assert(all.take(all.len() as int) =~= all);
        report_first(faults)
    }

    fn validate_metric_grouping(&self) -> (out: Result<(), SpecError>)
        ensures
            answers(out, self.grouping_fault()),
    {
        let grouping = &self.methodologies.topdown_methodology.metric_grouping;
        let groups = &self.groups.metrics;
        let mut faults: Vec<String> = Vec::new();
        let prefix = "stage_1 references undefined metric group: '".to_owned();
        faults = add_undefined(faults, &grouping.stage_1, groups, &prefix);
        let prefix = "stage_2 references undefined metric group: '".to_owned();
        faults = add_undefined(faults, &grouping.stage_2, groups, &prefix);
        let ghost before = faults.deep_view();
        let ghost stage_1 = grouping.stage_1.deep_view();
        let ghost all = grouping.stage_2.deep_view();
        let ghost repeated = |name: Seq<char>| stage_1.contains(name);
        let ghost say = |name: Seq<char>|
            "Group '"@ + name + "' appears in both stage_1 and stage_2"@;
        proof {
            reveal(Seq::filter);
            assert(all.take(0) =~= Seq::empty());
            assert(before + all.take(0).filter(repeated).map_values(say) =~= before);
        }
        for i in 0..grouping.stage_2.len()
            invariant
                stage_1 == grouping.stage_1.deep_view(),
                all == grouping.stage_2.deep_view(),
                repeated == (|name: Seq<char>| stage_1.contains(name)),
                say == (|name: Seq<char>|
                    "Group '"@ + name + "' appears in both stage_1 and stage_2"@),
                faults.deep_view() == before + all.take(i as int).filter(repeated).map_values(say),
        {
            let ghost so_far = faults.deep_view();
            let ghost name = all[i as int];
            proof {
                assert(all.take(i + 1) =~= all.take(i as int).push(name));
                all.take(i as int).lemma_filter_push(name, repeated);
            }
            if contains_text(&grouping.stage_1, grouping.stage_2[i].as_str()) {
                let fault = around(
                    "Group '",
                    grouping.stage_2[i].as_str(),
                    "' appears in both stage_1 and stage_2",
                );
                faults.push(fault);
                proof {
                    assert(faults.deep_view() =~= so_far.push(say(name)));
                    assert(all.take(i as int).filter(repeated).push(name).map_values(say)
                        =~= all.take(i as int).filter(repeated).map_values(say).push(say(name)));
                }
            }
        }
        assert(all.take(all.len() as int) =~= all);
        assert(faults.deep_view() =~= grouping_faults(*grouping, groups@));
        report_all(faults)
    }

    fn validate_decision_tree_root_nodes(&self) -> (out: Result<(), SpecError>)
        ensures
            answers(out, self.root_nodes_fault()),
    {
        let faults: Vec<String> = Vec::new();
        let prefix = "Decision tree root_node references undefined metric: '".to_owned();
        let roots = &self.methodologies.topdown_methodology.decision_tree.root_nodes;
        let out = add_undefined(faults, roots, &self.metrics, &prefix);
        assert(out.deep_view() =~= undefined(roots.deep_view(), self.metrics@, prefix@));
        report_first(out)
    }

    fn validate_decision_tree_metrics(&self) -> (out: Result<(), SpecError>)
        ensures
            answers(out, self.nodes_fault()),
    {
        let nodes = &self.methodologies.topdown_methodology.decision_tree.metrics;
        let ghost all = nodes@;
        let ghost check = |node: TopdownMethodologyNode|
            node_faults(node, self.metrics@, self.groups.metrics@);
        let mut faults: Vec<String> = Vec::new();
        assert(all.take(0) =~= Seq::empty());
        assert(faults.deep_view() =~= all.take(0).flat_map(check));
        for i in 0..nodes.len()
            invariant
                all == nodes@,
                check == (|node: TopdownMethodologyNode|
                    node_faults(node, self.metrics@, self.groups.metrics@)),
                faults.deep_view() == all.take(i as int).flat_map(check),
        {
            proof {
                all.lemma_flat_map_take_append(check, i as int);
            }
            faults = self.add_node_faults(faults, &nodes[i]);
        }
        assert(all.take(all.len() as int) =~= all);
        report_all(faults)
    }

    fn add_node_faults(&self, faults: Vec<String>, node: &TopdownMethodologyNode) -> (out: Vec<
        String,
    >)
        ensures
            out.deep_view() == faults.deep_view() + node_faults(
                *node,
                self.metrics@,
                self.groups.metrics@,
            ),
    {
        let ghost before = faults.deep_view();
        let ghost metrics = self.metrics@;
        let ghost groups = self.groups.metrics@;
        let mut out = faults;
        if !self.metrics.contains_key(node.name.as_str()) {
            out.push(
                around("Decision tree node '", node.name.as_str(), "' is not defined in metrics"),
            );
        }
        assert(out.deep_view() =~= before + node_metric_faults(*node, metrics));
        let ghost first = out.deep_view();
        match self.groups.metrics.get(node.group.as_str()) {
            None => {
                let mut fault = around(
                    "Decision tree node '",
                    node.name.as_str(),
                    "' has group '",
                );
                fault.append(node.group.as_str());
                fault.append("' not defined in groups.metrics");
                out.push(fault);
            },
            Some(group) => {
                if !contains_text(&group.metrics, node.name.as_str()) {
                    let mut fault = around(
                        "Decision tree node '",
                        node.name.as_str(),
                        "' is not listed in its group '",
                    );
                    fault.append(node.group.as_str());
                    fault.append("' metrics");
                    out.push(fault);
                }
            },
        }
        assert(out.deep_view() =~= first + node_group_faults(*node, groups));
        let ghost second = out.deep_view();
        let ghost all = node.next_items.deep_view();
        let ghost missing = |item: Seq<char>| !has_name(metrics, item) && !has_name(groups, item);
        let ghost say = |item: Seq<char>|
            "Decision tree node '"@ + node.name@ + "' has next_item '"@ + item
                + "' which is neither a metric nor a metric group"@;
        proof {
            reveal(Seq::filter);
            assert(all.take(0) =~= Seq::empty());
            assert(second + all.take(0).filter(missing).map_values(say) =~= second);
        }
        for i in 0..node.next_items.len()
            invariant
                all == node.next_items.deep_view(),
                metrics == self.metrics@,
                groups == self.groups.metrics@,
                missing == (|item: Seq<char>| !has_name(metrics, item) && !has_name(groups, item)),
                say == (|item: Seq<char>|
                    "Decision tree node '"@ + node.name@ + "' has next_item '"@ + item
                        + "' which is neither a metric nor a metric group"@),
                out.deep_view() == second + all.take(i as int).filter(missing).map_values(say),
        {
            let ghost so_far = out.deep_view();
            let ghost item = all[i as int];
            proof {
                assert(all.take(i + 1) =~= all.take(i as int).push(item));
                all.take(i as int).lemma_filter_push(item, missing);
            }
            let name = node.next_items[i].as_str();
            if !self.metrics.contains_key(name) && !self.groups.metrics.contains_key(name) {
                let mut fault = around(
                    "Decision tree node '",
                    node.name.as_str(),
                    "' has next_item '",
                );
                fault.append(name);
                fault.append("' which is neither a metric nor a metric group");
                out.push(fault);
                proof {
                    assert(fault@ =~= say(item));
                    assert(out.deep_view() =~= so_far.push(say(item)));
                    assert(all.take(i as int).filter(missing).push(item).map_values(say)
                        =~= all.take(i as int).filter(missing).map_values(say).push(say(item)));
                }
            }
        }
        assert(all.take(all.len() as int) =~= all);
        assert(out.deep_view() =~= before + node_faults(*node, metrics, groups));
        out
    }
}

// ─── Loading ─────────────────────────────────────────────────────────────────

/// What came of reading a JSON file.
#[derive(Debug)]
pub enum Parsed<T> {
    /// The file could not be read, for the reason given.
    Unreadable(String),
    /// The file is not JSON of the wanted form, for the reason given.
    Malformed(String),
    /// The value that the file holds.
    Value(T),
}

/// Whether the outcome is what was read, or the error that tells why not.
pub open spec fn loads<T>(out: Result<T, SpecError>, path: Seq<char>, parsed: Parsed<T>) -> bool {
    match parsed {
        Parsed::Unreadable(reason) => out matches Err(SpecError::Io { path: p, source }) && p@
            == path && source@ == reason@,
        Parsed::Malformed(reason) => out matches Err(SpecError::Json { path: p, source }) && p@
            == path && source@ == reason@,
        Parsed::Value(value) => out == Ok::<T, SpecError>(value),
    }
}

fn load<T>(path: &str, parsed: Parsed<T>) -> (out: Result<T, SpecError>)
    ensures
        loads(out, path@, parsed),
{
    match parsed {
        Parsed::Unreadable(source) => Err(SpecError::Io { path: path.to_owned(), source }),
        Parsed::Malformed(source) => Err(SpecError::Json { path: path.to_owned(), source }),
        Parsed::Value(value) => Ok(value),
    }
}

/// The mapping from CPU ids to specification files, given what came of reading
/// its file.
pub fn load_cpu_mapping(path: &str, parsed: Parsed<NameMap<CpuMapping>>) -> (out: Result<
    NameMap<CpuMapping>,
    SpecError,
>)
    ensures
        loads(out, path@, parsed),
{
    load(path, parsed)
}

impl TelemetrySpecification {
    /// A specification that is valid, given what came of reading its file.
    pub fn load_from_file(path: &str, parsed: Parsed<Self>) -> (out: Result<Self, SpecError>)
        ensures
            match parsed {
                Parsed::Value(spec) => match spec.fault() {
                    None => out == Ok::<Self, SpecError>(spec),
                    Some(message) => out matches Err(SpecError::Validation(m)) && m@ == message,
                },
                _ => loads(out, path@, parsed),
            },
    {
        match load(path, parsed) {
            Ok(spec) => match spec.validate() {
                Ok(()) => Ok(spec),
                Err(e) => Err(e),
            },
            Err(e) => Err(e),
        }
    }

    /// A specification that is valid, given what came of reading a JSON string.
    pub fn load_from_str(parsed: Parsed<Self>) -> (out: Result<Self, SpecError>)
        ensures
            match parsed {
                Parsed::Value(spec) => match spec.fault() {
                    None => out == Ok::<Self, SpecError>(spec),
                    Some(message) => out matches Err(SpecError::Validation(m)) && m@ == message,
                },
                _ => loads(out, "<string>"@, parsed),
            },
    {
        Self::load_from_file("<string>", parsed)
    }
}

// ─── What a valid specification promises ─────────────────────────────────────

/// Whether every name is that of an entry.
pub open spec fn names_resolve<V>(names: Seq<Seq<char>>, entries: Seq<(Seq<char>, V)>) -> bool {
    forall|k: int| 0 <= k < names.len() ==> has_name(entries, #[trigger] names[k])
}

/// Whether a node's metric exists, its group exists and lists the metric, and
/// its next items are metrics or metric groups.
pub open spec fn node_resolves(
    node: TopdownMethodologyNode,
    metrics: Seq<(Seq<char>, Metric)>,
    groups: Seq<(Seq<char>, MetricGroup)>,
) -> bool {
    &&& has_name(metrics, node.name@)
    &&& value_of(groups, node.group@) matches Some(group)
    &&& group.metrics.deep_view().contains(node.name@)
    &&& forall|k: int|
        0 <= k < node.next_items.deep_view().len() ==> has_name(
            metrics,
            #[trigger] node.next_items.deep_view()[k],
        ) || has_name(groups, node.next_items.deep_view()[k])
}

impl TelemetrySpecification {
    /// Whether all names in the specification lead somewhere, and no metric
    /// group is in both stages.
    pub open spec fn resolves(&self) -> bool {
        let td = self.methodologies.topdown_methodology;
        let stage_1 = td.metric_grouping.stage_1.deep_view();
        let stage_2 = td.metric_grouping.stage_2.deep_view();
        let nodes = td.decision_tree.metrics@;
        &&& forall|i: int|
            0 <= i < self.metrics@.len() ==> names_resolve(
                (#[trigger] self.metrics@[i]).1.events.deep_view(),
                self.events@,
            ) && names_resolve(self.metrics@[i].1.sample_events.deep_view(), self.events@)
        &&& forall|i: int|
            0 <= i < self.groups.function@.len() ==> names_resolve(
                (#[trigger] self.groups.function@[i]).1.events.deep_view(),
                self.events@,
            )
        &&& forall|i: int|
            0 <= i < self.groups.metrics@.len() ==> names_resolve(
                (#[trigger] self.groups.metrics@[i]).1.metrics.deep_view(),
                self.metrics@,
            )
        &&& names_resolve(stage_1, self.groups.metrics@)
        &&& names_resolve(stage_2, self.groups.metrics@)
        &&& forall|k: int| 0 <= k < stage_2.len() ==> !stage_1.contains(#[trigger] stage_2[k])
        &&& names_resolve(td.decision_tree.root_nodes.deep_view(), self.metrics@)
        &&& forall|i: int|
            0 <= i < nodes.len() ==> node_resolves(
                #[trigger] nodes[i],
                self.metrics@,
                self.groups.metrics@,
            )
    }
}

proof fn lemma_filter_empty<A>(s: Seq<A>, p: spec_fn(A) -> bool)
    ensures
        s.filter(p).len() == 0 <==> forall|i: int| 0 <= i < s.len() ==> !p(#[trigger] s[i]),
{
    if forall|i: int| 0 <= i < s.len() ==> !p(#[trigger] s[i]) {
        s.lemma_all_neg_filter_empty(p);
    } else {
        let i = choose|i: int| 0 <= i < s.len() && p(#[trigger] s[i]);
        s.lemma_filter_contains(p, i);
    }
}

proof fn lemma_flat_map_empty<A, B>(s: Seq<A>, f: spec_fn(A) -> Seq<B>)
    ensures
        s.flat_map(f).len() == 0 <==> forall|i: int|
            0 <= i < s.len() ==> f(#[trigger] s[i]).len() == 0,
    decreases s.len(),
{
    if s.len() > 0 {
        let front = s.drop_last();
        lemma_flat_map_empty(front, f);
        front.lemma_flat_map_push(f, s.last());
        assert(front.push(s.last()) =~= s);
        assert(forall|i: int| 0 <= i < front.len() ==> front[i] == s[i]);
        if s.flat_map(f).len() == 0 {
            assert forall|i: int| 0 <= i < s.len() implies f(#[trigger] s[i]).len() == 0 by {
                if i < front.len() {
                    assert(f(front[i]).len() == 0);
                }
            }
        } else if forall|i: int| 0 <= i < s.len() ==> f(#[trigger] s[i]).len() == 0 {
            assert forall|i: int| 0 <= i < front.len() implies f(#[trigger] front[i]).len()
                == 0 by {
                assert(f(s[i]).len() == 0);
            }
        }
    }
}

proof fn lemma_undefined<V>(
    names: Seq<Seq<char>>,
    entries: Seq<(Seq<char>, V)>,
    prefix: Seq<char>,
)
    ensures
        undefined(names, entries, prefix).len() == 0 <==> names_resolve(names, entries),
{
    lemma_filter_empty(names, |name: Seq<char>| !has_name(entries, name));
}

proof fn lemma_node_faults(
    node: TopdownMethodologyNode,
    metrics: Seq<(Seq<char>, Metric)>,
    groups: Seq<(Seq<char>, MetricGroup)>,
)
    ensures
        node_faults(node, metrics, groups).len() == 0 <==> node_resolves(node, metrics, groups),
{
    let items = node.next_items.deep_view();
    let missing = |item: Seq<char>| !has_name(metrics, item) && !has_name(groups, item);
    lemma_filter_empty(items, missing);
    assert(forall|k: int|
        0 <= k < items.len() ==> missing(#[trigger] items[k]) == !(has_name(metrics, items[k])
            || has_name(groups, items[k])));
}

/// Validation finds nothing wrong exactly when all names in the specification
/// lead somewhere and no metric group is in both stages.
pub proof fn law_valid_resolves(spec: TelemetrySpecification)
    ensures
        spec.fault() is None <==> spec.resolves(),
{
    let td = spec.methodologies.topdown_methodology;
    let stage_1 = td.metric_grouping.stage_1.deep_view();
    let stage_2 = td.metric_grouping.stage_2.deep_view();
    let metric_check = |e: (Seq<char>, Metric)| metric_faults(e, spec.events@);
    lemma_flat_map_empty(spec.metrics@, metric_check);
    assert forall|i: int| 0 <= i < spec.metrics@.len() implies (metric_check(
        #[trigger] spec.metrics@[i],
    ).len() == 0 <==> names_resolve(spec.metrics@[i].1.events.deep_view(), spec.events@)
        && names_resolve(spec.metrics@[i].1.sample_events.deep_view(), spec.events@)) by {
        let (name, metric) = spec.metrics@[i];
        lemma_undefined(
            metric.events.deep_view(),
            spec.events@,
            "Metric '"@ + name + "' references undefined event: '"@,
        );
        lemma_undefined(
            metric.sample_events.deep_view(),
            spec.events@,
            "Metric '"@ + name + "' references undefined sample_event: '"@,
        );
    }
    let function_check = |e: (Seq<char>, FunctionGroup)| function_group_faults(e, spec.events@);
    lemma_flat_map_empty(spec.groups.function@, function_check);
    assert forall|i: int| 0 <= i < spec.groups.function@.len() implies (function_check(
        #[trigger] spec.groups.function@[i],
    ).len() == 0 <==> names_resolve(
        spec.groups.function@[i].1.events.deep_view(),
        spec.events@,
    )) by {
        let (name, group) = spec.groups.function@[i];
        lemma_undefined(
            group.events.deep_view(),
            spec.events@,
            "Function group '"@ + name + "' references undefined event: '"@,
        );
    }
    let group_check = |e: (Seq<char>, MetricGroup)| metric_group_faults(e, spec.metrics@);
    lemma_flat_map_empty(spec.groups.metrics@, group_check);
    assert forall|i: int| 0 <= i < spec.groups.metrics@.len() implies (group_check(
        #[trigger] spec.groups.metrics@[i],
    ).len() == 0 <==> names_resolve(
        spec.groups.metrics@[i].1.metrics.deep_view(),
        spec.metrics@,
    )) by {
        let (name, group) = spec.groups.metrics@[i];
        lemma_undefined(
            group.metrics.deep_view(),
            spec.metrics@,
            "Metric group '"@ + name + "' references undefined metric: '"@,
        );
    }
    lemma_undefined(
        stage_1,
        spec.groups.metrics@,
        "stage_1 references undefined metric group: '"@,
    );
    lemma_undefined(
        stage_2,
        spec.groups.metrics@,
        "stage_2 references undefined metric group: '"@,
    );
    let repeated = |name: Seq<char>| stage_1.contains(name);
    lemma_filter_empty(stage_2, repeated);
    assert(forall|k: int|
        0 <= k < stage_2.len() ==> repeated(#[trigger] stage_2[k]) == stage_1.contains(stage_2[k]));
    lemma_undefined(
        td.decision_tree.root_nodes.deep_view(),
        spec.metrics@,
        "Decision tree root_node references undefined metric: '"@,
    );
    let node_check = |node: TopdownMethodologyNode|
        node_faults(node, spec.metrics@, spec.groups.metrics@);
    let nodes = td.decision_tree.metrics@;
    lemma_flat_map_empty(nodes, node_check);
    assert forall|i: int| 0 <= i < nodes.len() implies (node_check(#[trigger] nodes[i]).len() == 0
        <==> node_resolves(nodes[i], spec.metrics@, spec.groups.metrics@)) by {
        lemma_node_faults(nodes[i], spec.metrics@, spec.groups.metrics@);
    }
}

// ─── What is found wrong, and what is not ────────────────────────────────────

/// Whether one of the entries has a name.
pub open spec fn leads<V>(name: Seq<char>, entries: Seq<(Seq<char>, V)>) -> bool {
    exists|i: int| 0 <= i < entries.len() && name == (#[trigger] entries[i]).0
}

/// Whether the events of all metrics exist.
pub open spec fn metrics_sound(spec: TelemetrySpecification) -> bool {
    forall|i: int, k: int|
        #![trigger spec.metrics@[i].1.events@[k]]
        #![trigger spec.metrics@[i].1.sample_events@[k]]
        0 <= i < spec.metrics@.len() ==> (0 <= k < spec.metrics@[i].1.events.len() ==> leads(
            spec.metrics@[i].1.events@[k]@,
            spec.events@,
        )) && (0 <= k < spec.metrics@[i].1.sample_events.len() ==> leads(
            spec.metrics@[i].1.sample_events@[k]@,
            spec.events@,
        ))
}

/// Whether the events of all function groups exist.
pub open spec fn functions_sound(spec: TelemetrySpecification) -> bool {
    forall|i: int, k: int|
        0 <= i < spec.groups.function@.len() && 0 <= k < spec.groups.function@[i].1.events.len()
            ==> leads((#[trigger] spec.groups.function@[i].1.events@[k])@, spec.events@)
}

/// Whether the metrics of all metric groups exist.
pub open spec fn groups_sound(spec: TelemetrySpecification) -> bool {
    forall|i: int, k: int|
        0 <= i < spec.groups.metrics@.len() && 0 <= k < spec.groups.metrics@[i].1.metrics.len()
            ==> leads((#[trigger] spec.groups.metrics@[i].1.metrics@[k])@, spec.metrics@)
}

/// Whether the groups of both stages exist and no group is in both.
pub open spec fn stages_sound(spec: TelemetrySpecification) -> bool {
    let grouping = spec.methodologies.topdown_methodology.metric_grouping;
    &&& forall|k: int|
        0 <= k < grouping.stage_1.len() ==> leads(
            (#[trigger] grouping.stage_1@[k])@,
            spec.groups.metrics@,
        )
    &&& forall|k: int|
        0 <= k < grouping.stage_2.len() ==> leads(
            (#[trigger] grouping.stage_2@[k])@,
            spec.groups.metrics@,
        )
    &&& forall|j: int, k: int|
        0 <= j < grouping.stage_1.len() && 0 <= k < grouping.stage_2.len() ==> (
        #[trigger] grouping.stage_1@[j])@ != (#[trigger] grouping.stage_2@[k])@
}

/// Whether the metrics of all roots exist.
pub open spec fn roots_sound(spec: TelemetrySpecification) -> bool {
    let roots = spec.methodologies.topdown_methodology.decision_tree.root_nodes;
    forall|k: int| 0 <= k < roots.len() ==> leads((#[trigger] roots@[k])@, spec.metrics@)
}

/// Whether a node has a metric, a group that lists it, and next items that
/// exist.
pub open spec fn node_sound(spec: TelemetrySpecification, node: TopdownMethodologyNode) -> bool {
    &&& leads(node.name@, spec.metrics@)
    &&& exists|g: int|
        0 <= g < spec.groups.metrics@.len() && (#[trigger] spec.groups.metrics@[g]).0
            == node.group@ && spec.groups.metrics@[g].1.metrics.deep_view().contains(node.name@)
    &&& forall|k: int|
        0 <= k < node.next_items.len() ==> leads((#[trigger] node.next_items@[k])@, spec.metrics@)
            || leads(node.next_items@[k]@, spec.groups.metrics@)
}

/// Whether every node of the decision tree has a metric, a group that lists it,
/// and next items that exist.
pub open spec fn nodes_sound(spec: TelemetrySpecification) -> bool {
    let nodes = spec.methodologies.topdown_methodology.decision_tree.metrics;
    forall|i: int| 0 <= i < nodes.len() ==> node_sound(spec, #[trigger] nodes@[i])
}

proof fn lemma_leads<V>(name: Seq<char>, entries: Seq<(Seq<char>, V)>)
    ensures
        leads(name, entries) == has_name(entries, name),
{
    if has_name(entries, name) {
        let i = choose|i: int| 0 <= i < entries.len() && (#[trigger] entries[i]).0 == name;
        assert(name == entries[i].0);
    }
}

proof fn lemma_names_lead<V>(names: Vec<String>, entries: Seq<(Seq<char>, V)>)
    ensures
        names_resolve(names.deep_view(), entries) <==> forall|k: int|
            0 <= k < names.len() ==> leads((#[trigger] names@[k])@, entries),
{
    let deep = names.deep_view();
    assert(deep.len() == names.len());
    if names_resolve(deep, entries) {
        assert forall|k: int| 0 <= k < names.len() implies leads(
            (#[trigger] names@[k])@,
            entries,
        ) by {
            lemma_leads(names@[k]@, entries);
            assert(has_name(entries, deep[k]));
        }
    } else {
        let k = choose|k: int| 0 <= k < deep.len() && !has_name(entries, #[trigger] deep[k]);
        lemma_leads(names@[k]@, entries);
    }
}

proof fn lemma_metrics_sound(spec: TelemetrySpecification)
    ensures
        spec.metrics_events_fault() is None <==> metrics_sound(spec),
{
    let check = |e: (Seq<char>, Metric)| metric_faults(e, spec.events@);
    lemma_flat_map_empty(spec.metrics@, check);
    assert forall|i: int| 0 <= i < spec.metrics@.len() implies (check(
        #[trigger] spec.metrics@[i],
    ).len() == 0 <==> (forall|k: int|
        0 <= k < spec.metrics@[i].1.events.len() ==> leads(
            (#[trigger] spec.metrics@[i].1.events@[k])@,
            spec.events@,
        )) && (forall|k: int|
        0 <= k < spec.metrics@[i].1.sample_events.len() ==> leads(
            (#[trigger] spec.metrics@[i].1.sample_events@[k])@,
            spec.events@,
        ))) by {
        let (name, metric) = spec.metrics@[i];
        lemma_undefined(
            metric.events.deep_view(),
            spec.events@,
            "Metric '"@ + name + "' references undefined event: '"@,
        );
        lemma_undefined(
            metric.sample_events.deep_view(),
            spec.events@,
            "Metric '"@ + name + "' references undefined sample_event: '"@,
        );
        lemma_names_lead(metric.events, spec.events@);
        lemma_names_lead(metric.sample_events, spec.events@);
    }
    if metrics_sound(spec) {
        assert forall|i: int| 0 <= i < spec.metrics@.len() implies check(
            #[trigger] spec.metrics@[i],
        ).len() == 0 by {
            assert forall|k: int| 0 <= k < spec.metrics@[i].1.events.len() implies leads(
                (#[trigger] spec.metrics@[i].1.events@[k])@,
                spec.events@,
            ) by {}
            assert forall|k: int| 0 <= k < spec.metrics@[i].1.sample_events.len() implies leads(
                (#[trigger] spec.metrics@[i].1.sample_events@[k])@,
                spec.events@,
            ) by {}
        }
    }
    if spec.metrics_events_fault() is None {
        assert forall|i: int, k: int|
            #![trigger spec.metrics@[i].1.events@[k]]
            #![trigger spec.metrics@[i].1.sample_events@[k]]
            0 <= i < spec.metrics@.len() implies (0 <= k < spec.metrics@[i].1.events.len()
            ==> leads(spec.metrics@[i].1.events@[k]@, spec.events@)) && (0 <= k
            < spec.metrics@[i].1.sample_events.len() ==> leads(
            spec.metrics@[i].1.sample_events@[k]@,
            spec.events@,
        )) by {
            assert(check(spec.metrics@[i]).len() == 0);
        }
    }
}

proof fn lemma_functions_sound(spec: TelemetrySpecification)
    ensures
        spec.function_groups_fault() is None <==> functions_sound(spec),
{
    let check = |e: (Seq<char>, FunctionGroup)| function_group_faults(e, spec.events@);
    lemma_flat_map_empty(spec.groups.function@, check);
    assert forall|i: int| 0 <= i < spec.groups.function@.len() implies (check(
        #[trigger] spec.groups.function@[i],
    ).len() == 0 <==> (forall|k: int|
        0 <= k < spec.groups.function@[i].1.events.len() ==> leads(
            (#[trigger] spec.groups.function@[i].1.events@[k])@,
            spec.events@,
        ))) by {
        let (name, group) = spec.groups.function@[i];
        lemma_undefined(
            group.events.deep_view(),
            spec.events@,
            "Function group '"@ + name + "' references undefined event: '"@,
        );
        lemma_names_lead(group.events, spec.events@);
    }
    if functions_sound(spec) {
        assert forall|i: int| 0 <= i < spec.groups.function@.len() implies check(
            #[trigger] spec.groups.function@[i],
        ).len() == 0 by {
            assert forall|k: int| 0 <= k < spec.groups.function@[i].1.events.len() implies leads(
                (#[trigger] spec.groups.function@[i].1.events@[k])@,
                spec.events@,
            ) by {}
        }
    }
    if spec.function_groups_fault() is None {
        assert forall|i: int, k: int|
            0 <= i < spec.groups.function@.len() && 0 <= k
                < spec.groups.function@[i].1.events.len() implies leads(
            (#[trigger] spec.groups.function@[i].1.events@[k])@,
            spec.events@,
        ) by {
            assert(check(spec.groups.function@[i]).len() == 0);
        }
    }
}

proof fn lemma_groups_sound(spec: TelemetrySpecification)
    ensures
        spec.metric_groups_fault() is None <==> groups_sound(spec),
{
    let check = |e: (Seq<char>, MetricGroup)| metric_group_faults(e, spec.metrics@);
    lemma_flat_map_empty(spec.groups.metrics@, check);
    assert forall|i: int| 0 <= i < spec.groups.metrics@.len() implies (check(
        #[trigger] spec.groups.metrics@[i],
    ).len() == 0 <==> (forall|k: int|
        0 <= k < spec.groups.metrics@[i].1.metrics.len() ==> leads(
            (#[trigger] spec.groups.metrics@[i].1.metrics@[k])@,
            spec.metrics@,
        ))) by {
        let (name, group) = spec.groups.metrics@[i];
        lemma_undefined(
            group.metrics.deep_view(),
            spec.metrics@,
            "Metric group '"@ + name + "' references undefined metric: '"@,
        );
        lemma_names_lead(group.metrics, spec.metrics@);
    }
    if groups_sound(spec) {
        assert forall|i: int| 0 <= i < spec.groups.metrics@.len() implies check(
            #[trigger] spec.groups.metrics@[i],
        ).len() == 0 by {
            assert forall|k: int| 0 <= k < spec.groups.metrics@[i].1.metrics.len() implies leads(
                (#[trigger] spec.groups.metrics@[i].1.metrics@[k])@,
                spec.metrics@,
            ) by {}
        }
    }
    if spec.metric_groups_fault() is None {
        assert forall|i: int, k: int|
            0 <= i < spec.groups.metrics@.len() && 0 <= k
                < spec.groups.metrics@[i].1.metrics.len() implies leads(
            (#[trigger] spec.groups.metrics@[i].1.metrics@[k])@,
            spec.metrics@,
        ) by {
            assert(check(spec.groups.metrics@[i]).len() == 0);
        }
    }
}

proof fn lemma_stages_sound(spec: TelemetrySpecification)
    ensures
        spec.grouping_fault() is None <==> stages_sound(spec),
{
    let grouping = spec.methodologies.topdown_methodology.metric_grouping;
    let groups = spec.groups.metrics@;
    let (first, second) = (grouping.stage_1.deep_view(), grouping.stage_2.deep_view());
    lemma_undefined(first, groups, "stage_1 references undefined metric group: '"@);
    lemma_undefined(second, groups, "stage_2 references undefined metric group: '"@);
    lemma_names_lead(grouping.stage_1, groups);
    lemma_names_lead(grouping.stage_2, groups);
    let repeated = |name: Seq<char>| first.contains(name);
    lemma_filter_empty(second, repeated);
    if spec.grouping_fault() is None {
        assert forall|j: int, k: int|
            0 <= j < grouping.stage_1.len() && 0 <= k < grouping.stage_2.len() implies (
        #[trigger] grouping.stage_1@[j])@ != (#[trigger] grouping.stage_2@[k])@ by {
            assert(!repeated(second[k]));
            assert(first[j] == grouping.stage_1@[j]@);
        }
    }
    if stages_sound(spec) {
        assert forall|k: int| 0 <= k < second.len() implies !repeated(#[trigger] second[k]) by {
            if first.contains(second[k]) {
                let j = first.index_of(second[k]);
                assert(grouping.stage_1@[j]@ != grouping.stage_2@[k]@);
            }
        }
    }
}

proof fn lemma_node_sound(spec: TelemetrySpecification, node: TopdownMethodologyNode)
    requires
        names_distinct(spec.groups.metrics@),
    ensures
        node_resolves(node, spec.metrics@, spec.groups.metrics@) <==> node_sound(spec, node),
{
    let groups = spec.groups.metrics@;
    let items = node.next_items.deep_view();
    assert(items.len() == node.next_items.len());
    lemma_leads(node.name@, spec.metrics@);
    assert forall|k: int| 0 <= k < items.len() implies (has_name(spec.metrics@, #[trigger] items[k])
        || has_name(groups, items[k]) <==> leads(node.next_items@[k]@, spec.metrics@) || leads(
        node.next_items@[k]@,
        groups,
    )) by {
        lemma_leads(node.next_items@[k]@, spec.metrics@);
        lemma_leads(node.next_items@[k]@, groups);
    }
    if node_resolves(node, spec.metrics@, groups) {
        let g = law_value_found(groups, node.group@);
        assert(groups[g].0 == node.group@);
        assert forall|k: int| 0 <= k < node.next_items.len() implies leads(
            (#[trigger] node.next_items@[k])@,
            spec.metrics@,
        ) || leads(node.next_items@[k]@, groups) by {
            assert(has_name(spec.metrics@, items[k]) || has_name(groups, items[k]));
        }
    }
    if node_sound(spec, node) {
        let g = choose|g: int|
            0 <= g < groups.len() && (#[trigger] groups[g]).0 == node.group@
                && groups[g].1.metrics.deep_view().contains(node.name@);
        lemma_value_at(groups, g);
        assert forall|k: int| 0 <= k < items.len() implies has_name(
            spec.metrics@,
            #[trigger] items[k],
        ) || has_name(groups, items[k]) by {
            assert(leads(node.next_items@[k]@, spec.metrics@) || leads(
                node.next_items@[k]@,
                groups,
            ));
        }
    }
}

proof fn lemma_nodes_sound(spec: TelemetrySpecification)
    requires
        names_distinct(spec.groups.metrics@),
    ensures
        spec.nodes_fault() is None <==> nodes_sound(spec),
{
    let nodes = spec.methodologies.topdown_methodology.decision_tree.metrics@;
    let check = |node: TopdownMethodologyNode|
        node_faults(node, spec.metrics@, spec.groups.metrics@);
    lemma_flat_map_empty(nodes, check);
    assert forall|i: int| 0 <= i < nodes.len() implies (check(#[trigger] nodes[i]).len() == 0
        <==> node_sound(spec, nodes[i])) by {
        lemma_node_faults(nodes[i], spec.metrics@, spec.groups.metrics@);
        lemma_node_sound(spec, nodes[i]);
    }
}

proof fn lemma_roots_sound(spec: TelemetrySpecification)
    ensures
        spec.root_nodes_fault() is None <==> roots_sound(spec),
{
    let roots = spec.methodologies.topdown_methodology.decision_tree.root_nodes;
    lemma_undefined(
        roots.deep_view(),
        spec.metrics@,
        "Decision tree root_node references undefined metric: '"@,
    );
    lemma_names_lead(roots, spec.metrics@);
}

/// A specification is valid if everything that it names exists, no metric group
/// is in both stages, and each node's group lists the node's metric; else it is
/// refused.
pub proof fn law_validated(spec: &TelemetrySpecification, out: Result<(), SpecError>)
    requires
        call_ensures(TelemetrySpecification::validate, (spec,), out),
        names_distinct(spec.groups.metrics@),
    ensures
        out is Ok <==> metrics_sound(*spec) && functions_sound(*spec) && groups_sound(*spec)
            && stages_sound(*spec) && roots_sound(*spec) && nodes_sound(*spec),
        out is Err ==> out->Err_0 is Validation,
{
    lemma_metrics_sound(*spec);
    lemma_functions_sound(*spec);
    lemma_groups_sound(*spec);
    lemma_stages_sound(*spec);
    lemma_roots_sound(*spec);
    lemma_nodes_sound(*spec);
}

/// Whether a text stands somewhere in another.
pub open spec fn has_part(s: Seq<char>, part: Seq<char>) -> bool {
    exists|a: Seq<char>, b: Seq<char>| s == #[trigger] (a + part + b)
}

proof fn lemma_joined_part(parts: Seq<Seq<char>>, sep: Seq<char>, i: int)
    requires
        0 <= i < parts.len(),
    ensures
        has_part(joined(parts, sep), parts[i]),
        i + 1 < parts.len() ==> has_part(joined(parts, sep), parts[i] + sep + parts[i + 1]),
    decreases parts.len(),
{
    let none = Seq::<char>::empty();
    let all = joined(parts, sep);
    if parts.len() == 1 {
        assert(all =~= none + parts[i] + none);
    } else {
        let front = parts.drop_last();
        let last = parts.last();
        let before = joined(front, sep);
        if i == parts.len() - 1 {
            assert(all =~= (before + sep) + last + none);
        } else {
            lemma_joined_part(front, sep, i);
            let (a, b) = choose|a: Seq<char>, b: Seq<char>|
                before == #[trigger] (a + front[i] + b);
            assert(all =~= a + parts[i] + (b + sep + last));
            if i + 1 < front.len() {
                let two = parts[i] + sep + parts[i + 1];
                let (c, d) = choose|c: Seq<char>, d: Seq<char>| before == #[trigger] (c + two + d);
                assert(all =~= c + two + (d + sep + last));
            } else {
                lemma_joined_end(front, sep);
                let start = choose|start: Seq<char>| before == #[trigger] (start + front.last());
                assert(all =~= start + (parts[i] + sep + parts[i + 1]) + none);
            }
        }
    }
}

proof fn lemma_joined_end(parts: Seq<Seq<char>>, sep: Seq<char>)
    requires
        parts.len() > 0,
    ensures
        exists|start: Seq<char>| joined(parts, sep) == #[trigger] (start + parts.last()),
{
    if parts.len() == 1 {
        assert(joined(parts, sep) =~= Seq::<char>::empty() + parts.last());
    } else {
        assert(joined(parts, sep) =~= (joined(parts.drop_last(), sep) + sep) + parts.last());
    }
}

proof fn lemma_undefined_has<V>(
    names: Vec<String>,
    entries: Seq<(Seq<char>, V)>,
    prefix: Seq<char>,
    k: int,
)
    requires
        0 <= k < names.len(),
        !leads(names@[k]@, entries),
    ensures
        undefined(names.deep_view(), entries, prefix).contains(prefix + names@[k]@ + "'"@),
{
    let deep = names.deep_view();
    let missing = |name: Seq<char>| !has_name(entries, name);
    let say = |name: Seq<char>| prefix + name + "'"@;
    lemma_leads(names@[k]@, entries);
    assert(deep[k] == names@[k]@);
    deep.lemma_filter_contains(missing, k);
    let kept = deep.filter(missing);
    let j = kept.index_of(deep[k]);
    assert(kept.map_values(say)[j] == say(deep[k]));
}

/// Of what the metrics name all that does not exist is reported, whatever else
/// is wrong.
pub proof fn law_metric_events_reported(
    spec: &TelemetrySpecification,
    out: Result<(), SpecError>,
    i: int,
    k: int,
)
    requires
        call_ensures(TelemetrySpecification::validate, (spec,), out),
        0 <= i < spec.metrics@.len(),
    ensures
        0 <= k < spec.metrics@[i].1.events.len() && !leads(
            spec.metrics@[i].1.events@[k]@,
            spec.events@,
        ) ==> (out matches Err(SpecError::Validation(m)) && has_part(
            m@,
            "Metric '"@ + spec.metrics@[i].0 + "' references undefined event: '"@
                + spec.metrics@[i].1.events@[k]@ + "'"@,
        )),
        0 <= k < spec.metrics@[i].1.sample_events.len() && !leads(
            spec.metrics@[i].1.sample_events@[k]@,
            spec.events@,
        ) ==> (out matches Err(SpecError::Validation(m)) && has_part(
            m@,
            "Metric '"@ + spec.metrics@[i].0 + "' references undefined sample_event: '"@
                + spec.metrics@[i].1.sample_events@[k]@ + "'"@,
        )),
{
    let check = |e: (Seq<char>, Metric)| metric_faults(e, spec.events@);
    let parts = spec.metrics@.map_values(check);
    let faults = spec.metrics@.flat_map(check);
    let (name, metric) = spec.metrics@[i];
    let first = undefined(
        metric.events.deep_view(),
        spec.events@,
        "Metric '"@ + name + "' references undefined event: '"@,
    );
    let second = undefined(
        metric.sample_events.deep_view(),
        spec.events@,
        "Metric '"@ + name + "' references undefined sample_event: '"@,
    );
    assert(parts[i] == first + second);
    if 0 <= k < metric.events.len() && !leads(metric.events@[k]@, spec.events@) {
        let text = "Metric '"@ + name + "' references undefined event: '"@ + metric.events@[k]@
            + "'"@;
        lemma_undefined_has(
            metric.events,
            spec.events@,
            "Metric '"@ + name + "' references undefined event: '"@,
            k,
        );
        vstd::seq_lib::lemma_seq_concat_contains_all_elements(first, second, text);
        lemma_flatten_has(parts, i, text);
        lemma_joined_part(faults, "; "@, faults.index_of(text));
    }
    if 0 <= k < metric.sample_events.len() && !leads(metric.sample_events@[k]@, spec.events@) {
        let text = "Metric '"@ + name + "' references undefined sample_event: '"@
            + metric.sample_events@[k]@ + "'"@;
        lemma_undefined_has(
            metric.sample_events,
            spec.events@,
            "Metric '"@ + name + "' references undefined sample_event: '"@,
            k,
        );
        vstd::seq_lib::lemma_seq_concat_contains_all_elements(first, second, text);
        lemma_flatten_has(parts, i, text);
        lemma_joined_part(faults, "; "@, faults.index_of(text));
    }
}

proof fn lemma_first_undefined<V>(
    names: Vec<String>,
    entries: Seq<(Seq<char>, V)>,
    prefix: Seq<char>,
    k: int,
)
    requires
        0 <= k < names.len(),
        !leads(names@[k]@, entries),
        forall|j: int| 0 <= j < k ==> leads((#[trigger] names@[j])@, entries),
    ensures
        undefined(names.deep_view(), entries, prefix).len() > 0,
        undefined(names.deep_view(), entries, prefix)[0] == prefix + names@[k]@ + "'"@,
{
    let deep = names.deep_view();
    let missing = |name: Seq<char>| !has_name(entries, name);
    lemma_leads(names@[k]@, entries);
    let front = deep.take(k);
    assert forall|j: int| 0 <= j < front.len() implies !missing(#[trigger] front[j]) by {
        lemma_leads(names@[j]@, entries);
        assert(leads(names@[j]@, entries));
    }
    lemma_filter_empty(front, missing);
    let rest = deep.skip(k);
    assert(deep =~= front + rest);
    Seq::filter_distributes_over_add(front, rest, missing);
    let tail = rest.drop_first();
    assert(rest =~= seq![deep[k]] + tail);
    Seq::filter_distributes_over_add(seq![deep[k]], tail, missing);
    assert(Seq::<Seq<char>>::empty().push(deep[k]) =~= seq![deep[k]]);
    reveal(Seq::filter);
    Seq::<Seq<char>>::empty().lemma_filter_push(deep[k], missing);
    assert(deep.filter(missing)[0] == deep[k]);
}

proof fn lemma_flat_first<A, B>(s: Seq<A>, f: spec_fn(A) -> Seq<B>, i: int)
    requires
        0 <= i < s.len(),
        f(s[i]).len() > 0,
        forall|j: int| 0 <= j < i ==> f(#[trigger] s[j]).len() == 0,
    ensures
        s.flat_map(f).len() > 0,
        s.flat_map(f)[0] == f(s[i])[0],
    decreases i,
{
    let rest = s.drop_first();
    assert(s.map_values(f).drop_first() =~= rest.map_values(f));
    assert(s.flat_map(f) == f(s[0]) + rest.flat_map(f));
    if i > 0 {
        assert(f(s[0]).len() == 0);
        assert forall|j: int| 0 <= j < i - 1 implies f(#[trigger] rest[j]).len() == 0 by {
            assert(f(s[j + 1]).len() == 0);
        }
        assert(rest[i - 1] == s[i]);
        lemma_flat_first(rest, f, i - 1);
    }
}

/// Where the metrics are in order, the first event of a function group that does
/// not exist is reported.
pub proof fn law_function_events_reported(
    spec: &TelemetrySpecification,
    out: Result<(), SpecError>,
    i: int,
    k: int,
)
    requires
        call_ensures(TelemetrySpecification::validate, (spec,), out),
        metrics_sound(*spec),
        0 <= i < spec.groups.function@.len(),
        0 <= k < spec.groups.function@[i].1.events.len(),
        !leads(spec.groups.function@[i].1.events@[k]@, spec.events@),
        forall|h: int, j: int|
            0 <= h <= i && 0 <= j < spec.groups.function@[h].1.events.len() && (h < i || j < k)
                ==> leads((#[trigger] spec.groups.function@[h].1.events@[j])@, spec.events@),
    ensures
        out matches Err(SpecError::Validation(m)) && m@ == "Function group '"@
            + spec.groups.function@[i].0 + "' references undefined event: '"@
            + spec.groups.function@[i].1.events@[k]@ + "'"@,
{
    lemma_metrics_sound(*spec);
    let all = spec.groups.function@;
    let check = |e: (Seq<char>, FunctionGroup)| function_group_faults(e, spec.events@);
    assert forall|h: int| 0 <= h < i implies check(#[trigger] all[h]).len() == 0 by {
        let (name, group) = all[h];
        lemma_undefined(
            group.events.deep_view(),
            spec.events@,
            "Function group '"@ + name + "' references undefined event: '"@,
        );
        lemma_names_lead(group.events, spec.events@);
        assert forall|j: int| 0 <= j < group.events.len() implies leads(
            (#[trigger] group.events@[j])@,
            spec.events@,
        ) by {
            assert(leads(all[h].1.events@[j]@, spec.events@));
        }
    }
    let (name, group) = all[i];
    assert forall|j: int| 0 <= j < k implies leads(
        (#[trigger] group.events@[j])@,
        spec.events@,
    ) by {
        assert(leads(all[i].1.events@[j]@, spec.events@));
    }
    lemma_first_undefined(
        group.events,
        spec.events@,
        "Function group '"@ + name + "' references undefined event: '"@,
        k,
    );
    lemma_flat_first(all, check, i);
}

/// Where the events are in order, the first metric of a metric group that does
/// not exist is reported.
pub proof fn law_group_metrics_reported(
    spec: &TelemetrySpecification,
    out: Result<(), SpecError>,
    i: int,
    k: int,
)
    requires
        call_ensures(TelemetrySpecification::validate, (spec,), out),
        metrics_sound(*spec),
        functions_sound(*spec),
        0 <= i < spec.groups.metrics@.len(),
        0 <= k < spec.groups.metrics@[i].1.metrics.len(),
        !leads(spec.groups.metrics@[i].1.metrics@[k]@, spec.metrics@),
        forall|h: int, j: int|
            0 <= h <= i && 0 <= j < spec.groups.metrics@[h].1.metrics.len() && (h < i || j < k)
                ==> leads((#[trigger] spec.groups.metrics@[h].1.metrics@[j])@, spec.metrics@),
    ensures
        out matches Err(SpecError::Validation(m)) && m@ == "Metric group '"@
            + spec.groups.metrics@[i].0 + "' references undefined metric: '"@
            + spec.groups.metrics@[i].1.metrics@[k]@ + "'"@,
{
    lemma_metrics_sound(*spec);
    lemma_functions_sound(*spec);
    let all = spec.groups.metrics@;
    let check = |e: (Seq<char>, MetricGroup)| metric_group_faults(e, spec.metrics@);
    assert forall|h: int| 0 <= h < i implies check(#[trigger] all[h]).len() == 0 by {
        let (name, group) = all[h];
        lemma_undefined(
            group.metrics.deep_view(),
            spec.metrics@,
            "Metric group '"@ + name + "' references undefined metric: '"@,
        );
        lemma_names_lead(group.metrics, spec.metrics@);
        assert forall|j: int| 0 <= j < group.metrics.len() implies leads(
            (#[trigger] group.metrics@[j])@,
            spec.metrics@,
        ) by {
            assert(leads(all[h].1.metrics@[j]@, spec.metrics@));
        }
    }
    let (name, group) = all[i];
    assert forall|j: int| 0 <= j < k implies leads(
        (#[trigger] group.metrics@[j])@,
        spec.metrics@,
    ) by {
        assert(leads(all[i].1.metrics@[j]@, spec.metrics@));
    }
    lemma_first_undefined(
        group.metrics,
        spec.metrics@,
        "Metric group '"@ + name + "' references undefined metric: '"@,
        k,
    );
    lemma_flat_first(all, check, i);
}

/// Where events and metrics are in order, every group of a stage that does not
/// exist and every group that is in both stages is reported.
pub proof fn law_stages_reported(
    spec: &TelemetrySpecification,
    out: Result<(), SpecError>,
    grouping: MetricGrouping,
    k: int,
)
    requires
        call_ensures(TelemetrySpecification::validate, (spec,), out),
        metrics_sound(*spec),
        functions_sound(*spec),
        groups_sound(*spec),
        grouping == spec.methodologies.topdown_methodology.metric_grouping,
    ensures
        0 <= k < grouping.stage_1.len() && !leads(grouping.stage_1@[k]@, spec.groups.metrics@)
            ==> (out matches Err(SpecError::Validation(m)) && has_part(
            m@,
            "stage_1 references undefined metric group: '"@ + grouping.stage_1@[k]@ + "'"@,
        )),
        0 <= k < grouping.stage_2.len() && !leads(grouping.stage_2@[k]@, spec.groups.metrics@)
            ==> (out matches Err(SpecError::Validation(m)) && has_part(
            m@,
            "stage_2 references undefined metric group: '"@ + grouping.stage_2@[k]@ + "'"@,
        )),
        0 <= k < grouping.stage_2.len() && grouping.stage_1.deep_view().contains(
            grouping.stage_2@[k]@,
        ) ==> (out matches Err(SpecError::Validation(m)) && has_part(
            m@,
            "Group '"@ + grouping.stage_2@[k]@ + "' appears in both stage_1 and stage_2"@,
        )),
{
    lemma_metrics_sound(*spec);
    lemma_functions_sound(*spec);
    lemma_groups_sound(*spec);
    let groups = spec.groups.metrics@;
    let (first, second) = (grouping.stage_1.deep_view(), grouping.stage_2.deep_view());
    let a = undefined(first, groups, "stage_1 references undefined metric group: '"@);
    let b = undefined(second, groups, "stage_2 references undefined metric group: '"@);
    let c = repeated_stage_faults(first, second);
    let faults = a + b + c;
    assert(faults == grouping_faults(grouping, groups));
    if 0 <= k < grouping.stage_1.len() && !leads(grouping.stage_1@[k]@, groups) {
        let text = "stage_1 references undefined metric group: '"@ + grouping.stage_1@[k]@ + "'"@;
        lemma_undefined_has(
            grouping.stage_1,
            groups,
            "stage_1 references undefined metric group: '"@,
            k,
        );
        let j = a.index_of(text);
        assert(faults[j] == text);
        lemma_joined_part(faults, "; "@, j);
    }
    if 0 <= k < grouping.stage_2.len() && !leads(grouping.stage_2@[k]@, groups) {
        let text = "stage_2 references undefined metric group: '"@ + grouping.stage_2@[k]@ + "'"@;
        lemma_undefined_has(
            grouping.stage_2,
            groups,
            "stage_2 references undefined metric group: '"@,
            k,
        );
        let j = b.index_of(text);
        assert(faults[a.len() + j] == text);
        lemma_joined_part(faults, "; "@, a.len() + j);
    }
    if 0 <= k < grouping.stage_2.len() && first.contains(grouping.stage_2@[k]@) {
        let repeated = |name: Seq<char>| first.contains(name);
        let say = |name: Seq<char>| "Group '"@ + name + "' appears in both stage_1 and stage_2"@;
        assert(second[k] == grouping.stage_2@[k]@);
        second.lemma_filter_contains(repeated, k);
        let kept = second.filter(repeated);
        let j = kept.index_of(second[k]);
        assert(c == kept.map_values(say));
        assert(c[j] == say(second[k]));
        assert(faults[a.len() + b.len() + j] == say(second[k]));
        lemma_joined_part(faults, "; "@, a.len() + b.len() + j);
    }
}

/// Where all that comes before is in order, the first root that is no metric is
/// reported.
pub proof fn law_roots_reported(
    spec: &TelemetrySpecification,
    out: Result<(), SpecError>,
    roots: Vec<String>,
    k: int,
)
    requires
        call_ensures(TelemetrySpecification::validate, (spec,), out),
        metrics_sound(*spec),
        functions_sound(*spec),
        groups_sound(*spec),
        stages_sound(*spec),
        roots == spec.methodologies.topdown_methodology.decision_tree.root_nodes,
        0 <= k < roots.len(),
        !leads(roots@[k]@, spec.metrics@),
        forall|j: int| 0 <= j < k ==> leads((#[trigger] roots@[j])@, spec.metrics@),
    ensures
        out matches Err(SpecError::Validation(m)) && m@
            == "Decision tree root_node references undefined metric: '"@ + roots@[k]@ + "'"@,
{
    lemma_metrics_sound(*spec);
    lemma_functions_sound(*spec);
    lemma_groups_sound(*spec);
    lemma_stages_sound(*spec);
    lemma_first_undefined(
        roots,
        spec.metrics@,
        "Decision tree root_node references undefined metric: '"@,
        k,
    );
}

/// Where all else is in order, everything that is wrong with a node is reported.
pub proof fn law_nodes_reported(
    spec: &TelemetrySpecification,
    out: Result<(), SpecError>,
    nodes: Vec<TopdownMethodologyNode>,
    i: int,
    k: int,
)
    requires
        call_ensures(TelemetrySpecification::validate, (spec,), out),
        metrics_sound(*spec),
        functions_sound(*spec),
        groups_sound(*spec),
        stages_sound(*spec),
        roots_sound(*spec),
        nodes == spec.methodologies.topdown_methodology.decision_tree.metrics,
        0 <= i < nodes.len(),
    ensures
        !leads(nodes@[i].name@, spec.metrics@) ==> (out matches Err(SpecError::Validation(m))
            && has_part(
            m@,
            "Decision tree node '"@ + nodes@[i].name@ + "' is not defined in metrics"@,
        )),
        !leads(nodes@[i].group@, spec.groups.metrics@) ==> (out matches Err(
            SpecError::Validation(m),
        ) && has_part(
            m@,
            "Decision tree node '"@ + nodes@[i].name@ + "' has group '"@ + nodes@[i].group@
                + "' not defined in groups.metrics"@,
        )),
        (value_of(spec.groups.metrics@, nodes@[i].group@) matches Some(group)
            && !group.metrics.deep_view().contains(nodes@[i].name@)) ==> (out matches Err(
            SpecError::Validation(m),
        ) && has_part(
            m@,
            "Decision tree node '"@ + nodes@[i].name@ + "' is not listed in its group '"@
                + nodes@[i].group@ + "' metrics"@,
        )),
        0 <= k < nodes@[i].next_items.len() && !leads(nodes@[i].next_items@[k]@, spec.metrics@)
            && !leads(nodes@[i].next_items@[k]@, spec.groups.metrics@) ==> (out matches Err(
            SpecError::Validation(m),
        ) && has_part(
            m@,
            "Decision tree node '"@ + nodes@[i].name@ + "' has next_item '"@
                + nodes@[i].next_items@[k]@ + "' which is neither a metric nor a metric group"@,
        )),
{
    lemma_metrics_sound(*spec);
    lemma_functions_sound(*spec);
    lemma_groups_sound(*spec);
    lemma_stages_sound(*spec);
    lemma_roots_sound(*spec);
    let node = nodes@[i];
    let (metrics, groups) = (spec.metrics@, spec.groups.metrics@);
    let a = node_metric_faults(node, metrics);
    let b = node_group_faults(node, groups);
    let c = node_item_faults(node, metrics, groups);
    lemma_leads(node.name@, metrics);
    lemma_leads(node.group@, groups);
    if !leads(node.name@, metrics) {
        lemma_node_reported(*spec, i, 0);
        assert((a + b + c)[0] == a[0]);
    }
    if b.len() > 0 {
        assert((a + b + c)[a.len() as int] == b[0]);
        lemma_node_reported(*spec, i, a.len() as int);
    }
    if 0 <= k < node.next_items.len() && !leads(node.next_items@[k]@, metrics) && !leads(
        node.next_items@[k]@,
        groups,
    ) {
        lemma_leads(node.next_items@[k]@, metrics);
        lemma_leads(node.next_items@[k]@, groups);
        let items = node.next_items.deep_view();
        let missing = |item: Seq<char>| !has_name(metrics, item) && !has_name(groups, item);
        let say = |item: Seq<char>|
            "Decision tree node '"@ + node.name@ + "' has next_item '"@ + item
                + "' which is neither a metric nor a metric group"@;
        assert(items[k] == node.next_items@[k]@);
        items.lemma_filter_contains(missing, k);
        let kept = items.filter(missing);
        let j = kept.index_of(items[k]);
        assert(c == kept.map_values(say));
        assert(c[j] == say(items[k]));
        assert((a + b + c)[a.len() + b.len() + j] == c[j]);
        lemma_node_reported(*spec, i, a.len() + b.len() + j);
    }
}

proof fn lemma_node_reported(spec: TelemetrySpecification, i: int, j: int)
    requires
        0 <= i < spec.methodologies.topdown_methodology.decision_tree.metrics.len(),
        0 <= j < node_faults(
            spec.methodologies.topdown_methodology.decision_tree.metrics@[i],
            spec.metrics@,
            spec.groups.metrics@,
        ).len(),
    ensures
        spec.nodes_fault() matches Some(message) && has_part(
            message,
            node_faults(
                spec.methodologies.topdown_methodology.decision_tree.metrics@[i],
                spec.metrics@,
                spec.groups.metrics@,
            )[j],
        ),
{
    let nodes = spec.methodologies.topdown_methodology.decision_tree.metrics@;
    let check = |node: TopdownMethodologyNode|
        node_faults(node, spec.metrics@, spec.groups.metrics@);
    let parts = nodes.map_values(check);
    let faults = nodes.flat_map(check);
    let text = check(nodes[i])[j];
    assert(parts[i].contains(text));
    lemma_flatten_has(parts, i, text);
    lemma_joined_part(faults, "; "@, faults.index_of(text));
}

/// What is loaded is what was read, if it is valid; else the error tells the
/// path and the reason, or is what validation says.
pub proof fn law_loaded(
    path: &str,
    parsed: Parsed<TelemetrySpecification>,
    out: Result<TelemetrySpecification, SpecError>,
    valid: Result<(), SpecError>,
)
    requires
        call_ensures(TelemetrySpecification::load_from_file, (path, parsed), out),
        parsed matches Parsed::Value(spec) ==> call_ensures(
            TelemetrySpecification::validate,
            (&spec,),
            valid,
        ),
    ensures
        match parsed {
            Parsed::Unreadable(reason) => out matches Err(SpecError::Io { path: p, source }) && p@
                == path@ && source@ == reason@,
            Parsed::Malformed(reason) => out matches Err(SpecError::Json { path: p, source }) && p@
                == path@ && source@ == reason@,
            Parsed::Value(spec) => match valid {
                Ok(_) => out == Ok::<TelemetrySpecification, SpecError>(spec),
                Err(SpecError::Validation(said)) => out matches Err(SpecError::Validation(m))
                    && m@ == said@,
                Err(_) => false,
            },
        },
{
}

/// A specification from a string is loaded as from a file of the name
/// `<string>`.
pub proof fn law_loaded_from_str(
    parsed: Parsed<TelemetrySpecification>,
    out: Result<TelemetrySpecification, SpecError>,
    path: &str,
    same: Result<TelemetrySpecification, SpecError>,
)
    requires
        call_ensures(TelemetrySpecification::load_from_str, (parsed,), out),
        call_ensures(TelemetrySpecification::load_from_file, (path, parsed), same),
        path@ == seq!['<', 's', 't', 'r', 'i', 'n', 'g', '>'],
    ensures
        out is Ok == same is Ok,
        out is Ok ==> out->Ok_0 == same->Ok_0,
        out matches Err(e) ==> (same matches Err(f) && e.text() == f.text()),
{
    reveal_strlit("<string>");
    assert("<string>"@ =~= path@);
}

/// A mapping is what was read, or the error tells the path and the reason.
pub proof fn law_mapping_loaded(
    path: &str,
    parsed: Parsed<NameMap<CpuMapping>>,
    out: Result<NameMap<CpuMapping>, SpecError>,
)
    requires
        call_ensures(load_cpu_mapping, (path, parsed), out),
    ensures
        match parsed {
            Parsed::Unreadable(reason) => out matches Err(SpecError::Io { path: p, source }) && p@
                == path@ && source@ == reason@,
            Parsed::Malformed(reason) => out matches Err(SpecError::Json { path: p, source }) && p@
                == path@ && source@ == reason@,
            Parsed::Value(mapping) => out matches Ok(same) && same@ == mapping@,
        },
{
}

/// A revision is the number that is written, as a number or with decimal
/// digits; an unsigned number that is too large wraps to the negative numbers.
pub proof fn law_revision(
    value: &StringOrInt,
    out: Result<i64, IntError>,
    sign: Seq<char>,
    digits: Seq<char>,
)
    requires
        call_ensures(string_or_int, (value,), out),
    ensures
        value matches StringOrInt::Signed(v) ==> out == Ok::<i64, IntError>(*v),
        value matches StringOrInt::Unsigned(v) ==> (out matches Ok(n) && n == if *v
            < 0x8000_0000_0000_0000 {
            *v as int
        } else {
            *v - 0x1_0000_0000_0000_0000
        }),
        value matches StringOrInt::Text(s) ==> (s@ == sign + digits && digits.len() > 0 && (
        forall|i: int| 0 <= i < digits.len() ==> is_figure(#[trigger] digits[i], 10)) ==> {
            let n = reckoned(digits, 10);
            &&& (sign.len() == 0 || sign == seq!['+']) && n <= i64::MAX ==> (out matches Ok(v) && v
                == n)
            &&& (sign.len() == 0 || sign == seq!['+']) && n > i64::MAX ==> out == Err::<
                i64,
                IntError,
            >(IntError::PosOverflow)
            &&& sign == seq!['-'] && -n >= i64::MIN ==> (out matches Ok(v) && v == -n)
            &&& sign == seq!['-'] && -n < i64::MIN ==> out == Err::<i64, IntError>(
                IntError::NegOverflow,
            )
        }),
{
    if let StringOrInt::Unsigned(v) = value {
        let v = *v;
        assert(v < 0x8000_0000_0000_0000 ==> (v as i64) == v) by (bit_vector);
        assert(v >= 0x8000_0000_0000_0000 ==> (v as i64) == v - 0x1_0000_0000_0000_0000)
            by (bit_vector);
    }
    if let StringOrInt::Text(s) = value {
        if s@ == sign + digits && digits.len() > 0 && (forall|i: int|
            0 <= i < digits.len() ==> is_figure(#[trigger] digits[i], 10)) {
            law_integers(digits, 10, i64::MIN as int, i64::MAX as int);
            if sign.len() == 0 {
                assert(s@ =~= digits);
            }
        }
    }
}

/// What the errors of specifications say: the path and the reason, or what
/// validation found.
pub proof fn law_messages(e: &SpecError, out: String)
    requires
        call_ensures(SpecError::message, (e,), out),
    ensures
        e matches SpecError::Io { path, source } ==> out@ == "failed to read file "@ + path@
            + ": "@ + source@,
        e matches SpecError::Json { path, source } ==> out@ == "invalid JSON in "@ + path@ + ": "@
            + source@,
        e matches SpecError::Validation(said) ==> out@ == "validation error: "@ + said@,
{
}

proof fn lemma_joined_start(parts: Seq<Seq<char>>, sep: Seq<char>)
    requires
        parts.len() > 0,
    ensures
        exists|end: Seq<char>| joined(parts, sep) == #[trigger] (parts[0] + end),
    decreases parts.len(),
{
    if parts.len() == 1 {
        assert(joined(parts, sep) =~= parts[0] + Seq::<char>::empty());
    } else {
        let front = parts.drop_last();
        lemma_joined_start(front, sep);
        let end = choose|end: Seq<char>| joined(front, sep) == #[trigger] (front[0] + end);
        assert(joined(parts, sep) =~= parts[0] + (end + sep + parts.last()));
    }
}

/// What is wrong with the metrics is said from the first event that does not
/// exist on.
pub proof fn law_first_metric_event(
    spec: &TelemetrySpecification,
    out: Result<(), SpecError>,
    i: int,
    k: int,
)
    requires
        call_ensures(TelemetrySpecification::validate, (spec,), out),
        0 <= i < spec.metrics@.len(),
        0 <= k < spec.metrics@[i].1.events.len(),
        !leads(spec.metrics@[i].1.events@[k]@, spec.events@),
        forall|h: int, j: int|
            0 <= h <= i && 0 <= j < spec.metrics@[h].1.events.len() && (h < i || j < k) ==> leads(
                (#[trigger] spec.metrics@[h].1.events@[j])@,
                spec.events@,
            ),
        forall|h: int, j: int|
            0 <= h < i && 0 <= j < spec.metrics@[h].1.sample_events.len() ==> leads(
                (#[trigger] spec.metrics@[h].1.sample_events@[j])@,
                spec.events@,
            ),
    ensures
        out matches Err(SpecError::Validation(m)) && exists|end: Seq<char>|
            m@ == #[trigger] ("Metric '"@ + spec.metrics@[i].0
                + "' references undefined event: '"@ + spec.metrics@[i].1.events@[k]@ + "'"@ + end),
{
    let all = spec.metrics@;
    let check = |e: (Seq<char>, Metric)| metric_faults(e, spec.events@);
    assert forall|h: int| 0 <= h < i implies check(#[trigger] all[h]).len() == 0 by {
        let (name, metric) = all[h];
        lemma_undefined(
            metric.events.deep_view(),
            spec.events@,
            "Metric '"@ + name + "' references undefined event: '"@,
        );
        lemma_undefined(
            metric.sample_events.deep_view(),
            spec.events@,
            "Metric '"@ + name + "' references undefined sample_event: '"@,
        );
        lemma_names_lead(metric.events, spec.events@);
        lemma_names_lead(metric.sample_events, spec.events@);
        assert forall|j: int| 0 <= j < metric.events.len() implies leads(
            (#[trigger] metric.events@[j])@,
            spec.events@,
        ) by {
            assert(leads(all[h].1.events@[j]@, spec.events@));
        }
        assert forall|j: int| 0 <= j < metric.sample_events.len() implies leads(
            (#[trigger] metric.sample_events@[j])@,
            spec.events@,
        ) by {
            assert(leads(all[h].1.sample_events@[j]@, spec.events@));
        }
    }
    let (name, metric) = all[i];
    assert forall|j: int| 0 <= j < k implies leads(
        (#[trigger] metric.events@[j])@,
        spec.events@,
    ) by {
        assert(leads(all[i].1.events@[j]@, spec.events@));
    }
    lemma_first_undefined(
        metric.events,
        spec.events@,
        "Metric '"@ + name + "' references undefined event: '"@,
        k,
    );
    lemma_flat_first(all, check, i);
    let faults = all.flat_map(check);
    lemma_joined_start(faults, "; "@);
}

/// Two events of a metric that do not exist are reported one after the other if
/// they stand so, with `; ` between.
pub proof fn law_faults_separated(
    spec: &TelemetrySpecification,
    out: Result<(), SpecError>,
    i: int,
    k: int,
    before: Seq<char>,
)
    requires
        call_ensures(TelemetrySpecification::validate, (spec,), out),
        0 <= i < spec.metrics@.len(),
        0 <= k,
        k + 1 < spec.metrics@[i].1.events.len(),
        !leads(spec.metrics@[i].1.events@[k]@, spec.events@),
        !leads(spec.metrics@[i].1.events@[k + 1]@, spec.events@),
        before == "Metric '"@ + spec.metrics@[i].0 + "' references undefined event: '"@,
    ensures
        out matches Err(SpecError::Validation(m)) && has_part(
            m@,
            before + spec.metrics@[i].1.events@[k]@ + "'"@ + seq![';', ' '] + (before
                + spec.metrics@[i].1.events@[k + 1]@ + "'"@),
        ),
{
    reveal_strlit("; ");
    assert("; "@ =~= seq![';', ' ']);
    let check = |e: (Seq<char>, Metric)| metric_faults(e, spec.events@);
    let parts = spec.metrics@.map_values(check);
    let faults = spec.metrics@.flat_map(check);
    let metric = spec.metrics@[i].1;
    let names = metric.events.deep_view();
    let missing = |name: Seq<char>| !has_name(spec.events@, name);
    let say = |name: Seq<char>| before + name + "'"@;
    lemma_leads(metric.events@[k]@, spec.events@);
    lemma_leads(metric.events@[k + 1]@, spec.events@);
    assert(names[k] == metric.events@[k]@ && names[k + 1] == metric.events@[k + 1]@);
    let front = names.take(k);
    let back = names.skip(k + 2);
    assert(names =~= front + (seq![names[k], names[k + 1]] + back));
    Seq::filter_distributes_over_add(front, seq![names[k], names[k + 1]] + back, missing);
    Seq::filter_distributes_over_add(seq![names[k], names[k + 1]], back, missing);
    reveal(Seq::filter);
    let none = Seq::<Seq<char>>::empty();
    none.lemma_filter_push(names[k], missing);
    none.push(names[k]).lemma_filter_push(names[k + 1], missing);
    assert(none.push(names[k]).push(names[k + 1]) =~= seq![names[k], names[k + 1]]);
    let at = front.filter(missing).len() as int;
    let first = undefined(names, spec.events@, before);
    assert(first == names.filter(missing).map_values(say));
    assert(first[at] == say(names[k]) && first[at + 1] == say(names[k + 1]));
    assert(parts[i] == metric_faults(spec.metrics@[i], spec.events@));
    assert(parts[i][at] == first[at] && parts[i][at + 1] == first[at + 1]);
    let place = lemma_flatten_place(parts, i);
    assert(faults[place + at] == first[at] && faults[place + at + 1] == first[at + 1]);
    lemma_joined_part(faults, "; "@, place + at);
}

/// A part stands whole in what parts give one after another.
proof fn lemma_flatten_place<A>(parts: Seq<Seq<A>>, i: int) -> (place: int)
    requires
        0 <= i < parts.len(),
    ensures
        0 <= place,
        place + parts[i].len() <= parts.flatten().len(),
        forall|k: int| 0 <= k < parts[i].len() ==> parts.flatten()[place + k] == #[trigger] parts[i][k],
    decreases i,
{
    let rest = parts.drop_first();
    assert(parts.flatten() == parts[0] + rest.flatten());
    if i == 0 {
        0
    } else {
        let place = lemma_flatten_place(rest, i - 1);
        assert(rest[i - 1] == parts[i]);
        assert forall|k: int| 0 <= k < parts[i].len() implies parts.flatten()[parts[0].len() + place
            + k] == #[trigger] parts[i][k] by {
            assert(rest.flatten()[place + k] == rest[i - 1][k]);
        }
        parts[0].len() + place
    }
}

} // verus!
