//! The options of the command line.
use vstd::prelude::*;

verus! {

/// The options of the command line, as far as decisions hang on them.
#[derive(Debug, Clone)]
pub struct Cli {
    /// CPU cores to monitor, such as `0`, `0-3` or `0,2,4`.
    pub core: Option<String>,
    /// Whether to capture on all cores, without a workload.
    pub system_wide: bool,
    /// Processes to monitor, separated by commas.
    pub pid: Option<String>,
    /// The sampling interval in milliseconds.
    pub interval: Option<u64>,
    /// How events are grouped for collection: none, metric, or group.
    pub collect_by: String,
    /// Metric groups to capture, separated by commas.
    pub metric_group: Vec<String>,
    /// The node of the decision tree to start from.
    pub node: Option<String>,
    /// The stages: 1, 2, all, or combined.
    pub stages: String,
    /// Whether to list the CPU cores and exit.
    pub list_cores: bool,
    /// Whether to list the metric groups and exit.
    pub list_groups: bool,
    /// Whether to list the metrics and exit.
    pub list_metrics: bool,
    /// Whether to list the events and exit.
    pub list_events: bool,
    /// Whether to show raw event counts instead of metrics.
    pub dump_events: bool,
    /// Whether to fail rather than capture in several rounds.
    pub no_multiplex: bool,
    /// Whether to show descriptions.
    pub descriptions: bool,
    /// The command to run and profile.
    pub command: Vec<String>,
}

/// What the program is asked to do.
#[derive(Debug, Clone, Copy, PartialEq, Eq, Structural)]
pub enum RunMode {
    ListCores,
    ListEvents,
    ListMetrics,
    ListGroups,
    Capture,
}

impl Cli {
    /// What the program is asked to do: the first of the lists that is asked
    /// for, or else to capture.
    pub open spec fn asked(&self) -> RunMode {
        if self.list_cores {
            RunMode::ListCores
        } else if self.list_events {
            RunMode::ListEvents
        } else if self.list_metrics {
            RunMode::ListMetrics
        } else if self.list_groups {
            RunMode::ListGroups
        } else {
            RunMode::Capture
        }
    }

    /// What the program is asked to do.
    pub fn run_mode(&self) -> (mode: RunMode)
        ensures
            mode == self.asked(),
    {
        if self.list_cores {
            RunMode::ListCores
        } else if self.list_events {
            RunMode::ListEvents
        } else if self.list_metrics {
            RunMode::ListMetrics
        } else if self.list_groups {
            RunMode::ListGroups
        } else {
            RunMode::Capture
        }
    }
}

/// A list of the cores is shown if it is asked for; without it a list of the
/// events, without that one of the metrics, and without that one of the groups;
/// a capture is made if no list is asked for.
pub proof fn law_run_mode(cli: &Cli, mode: RunMode)
    requires
        call_ensures(Cli::run_mode, (cli,), mode),
    ensures
        mode is ListCores <==> cli.list_cores,
        mode is ListEvents <==> cli.list_events && !cli.list_cores,
        mode is ListMetrics <==> cli.list_metrics && !cli.list_events && !cli.list_cores,
        mode is ListGroups <==> cli.list_groups && !cli.list_metrics && !cli.list_events
            && !cli.list_cores,
        mode is Capture <==> !(cli.list_cores || cli.list_events || cli.list_metrics
            || cli.list_groups),
{
}

} // verus!
