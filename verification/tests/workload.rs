use topdown::cli::Cli;
use topdown::results::EventResults;
use topdown::workload::{
    Action, Capture, CaptureError, CaptureResult, Event, Phase, WorkloadError, WorkloadMode,
};

fn names(items: &[&str]) -> Vec<String> {
    items.iter().map(|s| s.to_string()).collect()
}

fn cli() -> Cli {
    Cli {
        core: None,
        system_wide: false,
        pid: None,
        interval: None,
        collect_by: "metric".to_string(),
        metric_group: Vec::new(),
        node: None,
        stages: "all".to_string(),
        list_cores: false,
        list_groups: false,
        list_metrics: false,
        list_events: false,
        dump_events: false,
        no_multiplex: false,
        descriptions: false,
        command: Vec::new(),
    }
}

#[test]
fn a_command_comes_before_processes_and_the_system() {
    let mut cli = cli();
    cli.system_wide = true;
    assert!(matches!(WorkloadMode::from_cli(&cli), Ok(WorkloadMode::SystemWide)));
    cli.pid = Some("12, 34".to_string());
    match WorkloadMode::from_cli(&cli).unwrap() {
        WorkloadMode::Pid(pids) => assert_eq!(pids, vec![12, 34]),
        other => panic!("{other:?}"),
    }
    cli.command = names(&["ls", "-l"]);
    match WorkloadMode::from_cli(&cli).unwrap() {
        WorkloadMode::Command(words) => assert_eq!(words, names(&["ls", "-l"])),
        other => panic!("{other:?}"),
    }
}

#[test]
fn a_workload_must_be_named() {
    let mut cli = cli();
    let error = WorkloadMode::from_cli(&cli).unwrap_err();
    assert_eq!(error, WorkloadError::Unspecified);
    assert_eq!(error.message(), "Specify a command, --pid, or --system-wide (-a)");
    for pids in ["", "1,", "x", "1,2147483648"] {
        cli.pid = Some(pids.to_string());
        let error = WorkloadMode::from_cli(&cli).unwrap_err();
        assert!(matches!(error, WorkloadError::Pid(_)));
        assert_eq!(error.message(), "Invalid PID format");
    }
}

fn reading(value: f64) -> Event<f64> {
    let mut results = EventResults::new();
    results.insert(names(&["A"]), vec![Some(value)]);
    Event::Results { timestamp: value / 10.0, results }
}

fn value_of(results: &EventResults<f64>) -> f64 {
    results.get(&names(&["A"])).unwrap()[0].unwrap()
}

/// Answers the actions of a capture one after another.
fn run(mode: WorkloadMode, interval: Option<u64>, course: Vec<(Action, Event<f64>)>) -> Capture<f64> {
    let mut capture = Capture::start(mode, interval);
    for (action, event) in course {
        assert_eq!(capture.action(), action);
        capture.advance(event);
    }
    capture
}

fn command() -> WorkloadMode {
    WorkloadMode::Command(names(&["sleep", "1"]))
}

#[test]
fn a_command_is_counted_until_it_ends() {
    let capture = run(
        command(),
        None,
        vec![
            (Action::Open(None), Event::Done),
            (Action::Spawn, Event::Done),
            (Action::Enable, Event::Done),
            (Action::WaitChild, Event::Done),
            (Action::Disable, Event::Done),
            (Action::Read, reading(5.0)),
        ],
    );
    assert_eq!(capture.action(), Action::Stop);
    assert_eq!(capture.phase, Phase::Finished);
    match capture.outcome().unwrap().unwrap() {
        CaptureResult::Aggregated(results) => assert_eq!(value_of(&results), 5.0),
        other => panic!("{other:?}"),
    }
}

#[test]
fn a_command_is_read_in_intervals_until_it_ends() {
    let capture = run(
        command(),
        Some(250),
        vec![
            (Action::Open(None), Event::Done),
            (Action::Spawn, Event::Done),
            (Action::Enable, Event::Done),
            (Action::Sleep(250), Event::Done),
            (Action::PollChild, Event::Is(true)),
            (Action::ReadAndReset, reading(1.0)),
            (Action::Sleep(250), Event::Done),
            (Action::PollChild, Event::Is(false)),
            (Action::Read, reading(2.0)),
            (Action::Disable, Event::Done),
        ],
    );
    match capture.outcome().unwrap().unwrap() {
        CaptureResult::Intervals(snapshots) => {
            assert_eq!(snapshots.len(), 2);
            assert_eq!(snapshots[0].timestamp, 0.1);
            assert_eq!(value_of(&snapshots[1].results), 2.0);
        }
        other => panic!("{other:?}"),
    }
}

#[test]
fn processes_are_checked_and_counted_until_all_end() {
    let capture = run(
        WorkloadMode::Pid(vec![7, 8]),
        None,
        vec![
            (Action::CheckPid(7), Event::Is(true)),
            (Action::CheckPid(8), Event::Is(true)),
            (Action::Open(Some(7)), Event::Done),
            (Action::Open(Some(8)), Event::Done),
            (Action::Enable, Event::Done),
            (Action::PollPids, Event::Alive(vec![true, true])),
            (Action::Sleep(100), Event::Done),
            (Action::PollPids, Event::Alive(vec![false, true])),
            (Action::Sleep(100), Event::Done),
            (Action::PollPids, Event::Alive(vec![false])),
            (Action::Disable, Event::Done),
            (Action::Read, reading(3.0)),
        ],
    );
    assert!(capture.remaining.is_empty());
    assert!(matches!(capture.outcome(), Some(Ok(CaptureResult::Aggregated(_)))));
}

#[test]
fn processes_are_read_in_intervals_until_all_end() {
    let capture = run(
        WorkloadMode::Pid(vec![7]),
        Some(10),
        vec![
            (Action::CheckPid(7), Event::Is(true)),
            (Action::Open(Some(7)), Event::Done),
            (Action::Enable, Event::Done),
            (Action::Sleep(10), Event::Done),
            (Action::ReadAndReset, reading(1.0)),
            (Action::PollPids, Event::Alive(vec![true])),
            (Action::Sleep(10), Event::Done),
            (Action::ReadAndReset, reading(2.0)),
            (Action::PollPids, Event::Alive(vec![false])),
            (Action::Disable, Event::Done),
        ],
    );
    match capture.outcome() {
        Some(Ok(CaptureResult::Intervals(snapshots))) => assert_eq!(snapshots.len(), 2),
        other => panic!("{other:?}"),
    }
}

#[test]
fn the_system_is_counted_until_an_interrupt() {
    let capture = run(
        WorkloadMode::SystemWide,
        None,
        vec![
            (Action::Open(None), Event::Done),
            (Action::CatchInterrupt, Event::Done),
            (Action::Enable, Event::Done),
            (Action::PollInterrupt, Event::Is(true)),
            (Action::Sleep(100), Event::Done),
            (Action::PollInterrupt, Event::Is(false)),
            (Action::Disable, Event::Done),
            (Action::Read, reading(9.0)),
        ],
    );
    assert!(matches!(capture.outcome(), Some(Ok(CaptureResult::Aggregated(_)))));
}

#[test]
fn an_interval_that_is_interrupted_is_not_read() {
    let capture = run(
        WorkloadMode::SystemWide,
        Some(50),
        vec![
            (Action::Open(None), Event::Done),
            (Action::CatchInterrupt, Event::Done),
            (Action::Enable, Event::Done),
            (Action::PollInterrupt, Event::Is(true)),
            (Action::Sleep(50), Event::Done),
            (Action::PollInterrupt, Event::Is(true)),
            (Action::ReadAndReset, reading(1.0)),
            (Action::PollInterrupt, Event::Is(true)),
            (Action::Sleep(50), Event::Done),
            (Action::PollInterrupt, Event::Is(false)),
            (Action::Disable, Event::Done),
        ],
    );
    match capture.outcome() {
        Some(Ok(CaptureResult::Intervals(snapshots))) => assert_eq!(snapshots.len(), 1),
        other => panic!("{other:?}"),
    }
}

fn error_of(capture: Capture<f64>) -> CaptureError {
    assert_eq!(capture.action(), Action::Stop);
    capture.outcome().unwrap().unwrap_err()
}

#[test]
fn failures_tell_what_went_wrong() {
    let failed = || Event::Failed("broken".to_string());
    let error = error_of(run(WorkloadMode::Command(Vec::new()), None, Vec::new()));
    assert_eq!(error.message(), "Empty command");
    let error = error_of(run(
        WorkloadMode::Pid(vec![1, -5]),
        None,
        vec![
            (Action::CheckPid(1), Event::Is(true)),
            (Action::CheckPid(-5), Event::Is(false)),
        ],
    ));
    assert_eq!(error.message(), "PID -5 does not exist");
    let error = error_of(run(command(), None, vec![(Action::Open(None), failed())]));
    assert_eq!(error.message(), "broken");
    let error = error_of(run(
        command(),
        None,
        vec![(Action::Open(None), Event::Done), (Action::Spawn, failed())],
    ));
    assert_eq!(error.message(), "Failed to spawn: sleep");
    let error = error_of(run(
        command(),
        None,
        vec![
            (Action::Open(None), Event::Done),
            (Action::Spawn, Event::Done),
            (Action::Enable, Event::Done),
            (Action::WaitChild, failed()),
        ],
    ));
    assert_eq!(error.message(), "Failed to wait for child process");
    let error = error_of(run(
        command(),
        Some(1),
        vec![
            (Action::Open(None), Event::Done),
            (Action::Spawn, Event::Done),
            (Action::Enable, Event::Done),
            (Action::Sleep(1), Event::Done),
            (Action::PollChild, failed()),
            (Action::Disable, Event::Done),
        ],
    ));
    assert_eq!(error.message(), "Failed to check child status");
}

#[test]
fn a_capture_that_has_ended_stays_as_it_is() {
    let mut capture = run(command(), None, vec![(Action::Open(None), Event::Failed("x".to_string()))]);
    for event in [
        Event::Done,
        Event::Is(true),
        Event::Is(false),
        Event::Failed("y".to_string()),
        reading(1.0),
    ] {
        capture.advance(event);
        assert_eq!(capture.phase, Phase::Failed);
    }
    assert_eq!(error_of(capture).message(), "x");
}

#[test]
fn a_capture_under_way_has_no_outcome() {
    let capture: Capture<f64> = Capture::start(command(), None);
    assert!(capture.outcome().is_none());
}

#[test]
fn counters_of_every_process_are_open_before_they_count() {
    let pids = vec![30, 10, 20];
    let mut capture: Capture<f64> = Capture::start(WorkloadMode::Pid(pids.clone()), None);
    let mut opened = Vec::new();
    while capture.action() != Action::Enable {
        let event = match capture.action() {
            Action::CheckPid(_) => Event::Is(true),
            Action::Open(pid) => {
                opened.push(pid.unwrap());
                Event::Done
            }
            other => panic!("{other:?}"),
        };
        capture.advance(event);
    }
    assert_eq!(opened, pids);
}

#[test]
fn a_process_that_is_named_twice_is_opened_once() {
    let capture = run(
        WorkloadMode::Pid(vec![7, 8, 7]),
        None,
        vec![
            (Action::CheckPid(7), Event::Is(true)),
            (Action::CheckPid(8), Event::Is(true)),
            (Action::Open(Some(7)), Event::Done),
            (Action::Open(Some(8)), Event::Done),
            (Action::Enable, Event::Done),
            (Action::PollPids, Event::Alive(vec![false, false])),
            (Action::Disable, Event::Done),
            (Action::Read, reading(3.0)),
        ],
    );
    assert_eq!(capture.processes, vec![7, 8]);
    assert!(matches!(capture.outcome(), Some(Ok(CaptureResult::Aggregated(_)))));
}

#[test]
fn a_process_that_cannot_be_opened_ends_the_capture() {
    let error = error_of(run(
        WorkloadMode::Pid(vec![7, 8]),
        None,
        vec![
            (Action::CheckPid(7), Event::Is(true)),
            (Action::CheckPid(8), Event::Is(true)),
            (Action::Open(Some(7)), Event::Done),
            (Action::Open(Some(8)), Event::Failed("No such process".to_string())),
        ],
    ));
    assert_eq!(error.message(), "No such process");
}

#[test]
fn an_answer_to_something_else_changes_nothing() {
    let mut capture = run(
        WorkloadMode::Pid(vec![7]),
        None,
        vec![
            (Action::CheckPid(7), Event::Is(true)),
            (Action::Open(Some(7)), Event::Done),
            (Action::Enable, Event::Done),
        ],
    );
    capture.advance(Event::Is(false));
    assert_eq!(capture.phase, Phase::Poll);
    assert_eq!(capture.remaining, vec![7]);
    let mut capture: Capture<f64> = Capture::start(WorkloadMode::Pid(vec![7]), None);
    capture.advance(Event::Alive(vec![false]));
    assert_eq!(capture.phase, Phase::CheckPid(0));
    assert_eq!(capture.remaining, vec![7]);
}

#[test]
fn a_command_that_ends_at_once_has_one_interval() {
    let capture = run(
        command(),
        Some(5),
        vec![
            (Action::Open(None), Event::Done),
            (Action::Spawn, Event::Done),
            (Action::Enable, Event::Done),
            (Action::Sleep(5), Event::Done),
            (Action::PollChild, Event::Is(false)),
            (Action::Read, reading(4.0)),
            (Action::Disable, Event::Done),
        ],
    );
    match capture.outcome() {
        Some(Ok(CaptureResult::Intervals(snapshots))) => {
            assert_eq!(snapshots.len(), 1);
            let copy = snapshots[0].clone();
            assert_eq!(value_of(&copy.results), 4.0);
        }
        other => panic!("{other:?}"),
    }
}
