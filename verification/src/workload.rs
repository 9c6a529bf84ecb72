//! What runs while the counters count: a command, processes that are there
//! already, or the whole system.
use vstd::prelude::*;
use vstd::string::*;

use crate::cli::Cli;
use crate::cpu::small_integer;
use crate::number::{
    is_figure, law_numeral, law_signed_round_trip, numeral, read_i32, signed_text,
    to_signed_decimal, IntError,
};
use crate::results::EventResults;
use crate::text::{
    copy_texts, glued, law_split, law_trimmed, split, split_on, to_chars, trim, trimmed,
    white_space,
};

verus! {

// ─── Mode ────────────────────────────────────────────────────────────────────

/// What is captured.
#[derive(Debug, Clone)]
pub enum WorkloadMode {
    /// A command, with its arguments.
    Command(Vec<String>),
    /// Processes.
    Pid(Vec<i32>),
    /// The whole system.
    SystemWide,
}

/// Why it is not clear what to capture.
#[derive(Debug, Clone, Copy, PartialEq, Eq, Structural)]
pub enum WorkloadError {
    /// A process id is no number.
    Pid(IntError),
    /// Nothing is asked for.
    Unspecified,
}

impl WorkloadError {
    /// What the error says.
    pub open spec fn text(self) -> Seq<char> {
        match self {
            WorkloadError::Pid(_) => "Invalid PID format"@,
            WorkloadError::Unspecified => "Specify a command, --pid, or --system-wide (-a)"@,
        }
    }

    /// The error as a message.
    pub fn message(&self) -> (out: String)
        ensures
            out@ == self.text(),
    {
        match self {
            WorkloadError::Pid(_) => "Invalid PID format".to_owned(),
            WorkloadError::Unspecified => "Specify a command, --pid, or --system-wide (-a)".to_owned(),
        }
    }
}

/// The process ids that parts of a list write, or what is wrong with the first
/// part that writes none.
pub open spec fn parts_pids(parts: Seq<Seq<char>>) -> Result<Seq<i32>, IntError>
    decreases parts.len(),
{
    if parts.len() == 0 {
        Ok(Seq::empty())
    } else {
        match parts_pids(parts.drop_last()) {
            Err(e) => Err(e),
            Ok(front) => match small_integer(trimmed(parts.last())) {
                Err(e) => Err(e),
                Ok(pid) => Ok(front.push(pid as i32)),
            },
        }
    }
}

/// The process ids that a list writes, separated by commas.
pub open spec fn pid_list(s: Seq<char>) -> Result<Seq<i32>, IntError> {
    parts_pids(split_on(s, ','))
}

proof fn lemma_first_pid_error(parts: Seq<Seq<char>>, i: int, e: IntError)
    requires
        0 <= i < parts.len(),
        parts_pids(parts.take(i)) is Ok,
        small_integer(trimmed(parts[i])) == Err::<int, IntError>(e),
    ensures
        parts_pids(parts) == Err::<Seq<i32>, IntError>(e),
    decreases parts.len() - i,
{
    if i == parts.len() - 1 {
        assert(parts.drop_last() =~= parts.take(i));
    } else {
        let front = parts.drop_last();
        assert(front.take(i) =~= parts.take(i));
        assert(front[i] == parts[i]);
        lemma_first_pid_error(front, i, e);
    }
}

/// Reads a list of process ids.
fn parse_pids(s: &str) -> (out: Result<Vec<i32>, IntError>)
    ensures
        match out {
            Ok(pids) => pid_list(s@) == Ok::<Seq<i32>, IntError>(pids@) && pids.len() > 0,
            Err(e) => pid_list(s@) == Err::<Seq<i32>, IntError>(e),
        },
{
    let parts = split(&to_chars(s), ',');
    let ghost all = parts.deep_view();
    let mut pids: Vec<i32> = Vec::new();
    assert(all.take(0) =~= Seq::empty());
    assert(pids@ =~= Seq::empty());
    for i in 0..parts.len()
        invariant
            all == parts.deep_view(),
            all == split_on(s@, ','),
            pids.len() == i,
            parts_pids(all.take(i as int)) == Ok::<Seq<i32>, IntError>(pids@),
    {
        proof {
            assert(all.take(i + 1).drop_last() =~= all.take(i as int));
            assert(parts@[i as int]@ =~= all[i as int]);
        }
        match read_i32(&trim(&parts[i])) {
            Ok(pid) => {
                pids.push(pid);
            },
            Err(e) => {
                proof {
                    lemma_first_pid_error(all, i as int, e);
                }
                return Err(e);
            },
        }
    }
    assert(all.take(all.len() as int) =~= all);
    Ok(pids)
}

/// Whether an outcome is what the command line asks to capture: its command if
/// there is one, else the processes if there are any, else the whole system.
pub open spec fn workload_asked(cli: Cli, out: Result<WorkloadMode, WorkloadError>) -> bool {
    if cli.command.deep_view().len() > 0 {
        out matches Ok(WorkloadMode::Command(command)) && command.deep_view()
            == cli.command.deep_view()
    } else {
        match cli.pid {
            Some(s) => match pid_list(s@) {
                Ok(pids) => out matches Ok(WorkloadMode::Pid(v)) && v@ == pids,
                Err(e) => out == Err::<WorkloadMode, WorkloadError>(WorkloadError::Pid(e)),
            },
            None => if cli.system_wide {
                out == Ok::<WorkloadMode, WorkloadError>(WorkloadMode::SystemWide)
            } else {
                out == Err::<WorkloadMode, WorkloadError>(WorkloadError::Unspecified)
            },
        }
    }
}

/// Whether there is something to capture: a command has a program, and a list
/// of processes a process.
pub open spec fn workload_named(mode: WorkloadMode) -> bool {
    match mode {
        WorkloadMode::Command(command) => command.len() > 0,
        WorkloadMode::Pid(pids) => pids.len() > 0,
        WorkloadMode::SystemWide => true,
    }
}

impl WorkloadMode {
    /// What the command line asks to capture.
    pub fn from_cli(cli: &Cli) -> (out: Result<Self, WorkloadError>)
        ensures
            workload_asked(*cli, out),
            out matches Ok(mode) ==> workload_named(mode),
    {
        if cli.command.len() > 0 {
            let command = copy_texts(&cli.command);
            assert(command.deep_view().len() == command.len());
            return Ok(WorkloadMode::Command(command));
        }
        if let Some(s) = &cli.pid {
            return match parse_pids(s.as_str()) {
                Ok(pids) => Ok(WorkloadMode::Pid(pids)),
                Err(e) => Err(WorkloadError::Pid(e)),
            };
        }
        if cli.system_wide {
            return Ok(WorkloadMode::SystemWide);
        }
        Err(WorkloadError::Unspecified)
    }
}

// ─── Results ─────────────────────────────────────────────────────────────────

/// The values of the counters at one time.
#[derive(Debug, Clone)]
pub struct TimestampedSnapshot<T> {
    /// Seconds since the capture started.
    pub timestamp: T,
    /// The values of this interval.
    pub results: EventResults<T>,
}

/// What a capture gives.
#[derive(Debug)]
pub enum CaptureResult<T> {
    /// The values over the whole time.
    Aggregated(EventResults<T>),
    /// The values of each interval.
    Intervals(Vec<TimestampedSnapshot<T>>),
}

/// Why a capture failed.
#[derive(Debug)]
pub enum CaptureError {
    /// There is no command to run.
    EmptyCommand,
    /// There is no such process.
    NoSuchPid(i32),
    /// The command cannot be started, for the reason given.
    Spawn { command: String, reason: String },
    /// The end of the command cannot be waited for, for the reason given.
    Wait(String),
    /// It cannot be seen whether the command still runs, for the reason given.
    Poll(String),
    /// The counters fail, for the reason given.
    Counters(String),
}

impl CaptureError {
    /// What the error says.
    pub open spec fn text(self) -> Seq<char> {
        match self {
            CaptureError::EmptyCommand => "Empty command"@,
            CaptureError::NoSuchPid(pid) => "PID "@ + signed_text(pid as int) + " does not exist"@,
            CaptureError::Spawn { command, reason } => "Failed to spawn: "@ + command@,
            CaptureError::Wait(_) => "Failed to wait for child process"@,
            CaptureError::Poll(_) => "Failed to check child status"@,
            CaptureError::Counters(reason) => reason@,
        }
    }

    /// The error as a message.
    pub fn message(&self) -> (out: String)
        ensures
            out@ == self.text(),
    {
        match self {
            CaptureError::EmptyCommand => "Empty command".to_owned(),
            CaptureError::NoSuchPid(pid) => {
                let mut out = "PID ".to_owned();
                out.append(to_signed_decimal(*pid).as_str());
                out.append(" does not exist");
                out
            },
            CaptureError::Spawn { command, reason } => {
                let mut out = "Failed to spawn: ".to_owned();
                out.append(command.as_str());
                out
            },
            CaptureError::Wait(_) => "Failed to wait for child process".to_owned(),
            CaptureError::Poll(_) => "Failed to check child status".to_owned(),
            CaptureError::Counters(reason) => reason.clone(),
        }
    }
}

// ─── Course of a capture ─────────────────────────────────────────────────────

/// What is being done in a capture.
#[derive(Debug, Clone, Copy, PartialEq, Eq, Structural)]
pub enum Phase {
    /// Seeing whether the process of that place in the list exists.
    CheckPid(usize),
    /// Opening the counters of the cores, disabled.
    Open,
    /// Opening the counters of the process of that place in the list, disabled.
    OpenPid(usize),
    /// Starting the command.
    Spawn,
    /// Catching interrupts.
    CatchInterrupt,
    /// Enabling the counters.
    Enable,
    /// Sleeping.
    Pause,
    /// Seeing whether the workload still runs.
    Poll,
    /// Seeing whether the workload still runs after a sleep.
    PollRested,
    /// Reading and resetting the counters at the end of an interval.
    Collect,
    /// Reading the counters at the end of the last interval.
    FinalCollect,
    /// Waiting for the end of the command.
    Wait,
    /// Disabling the counters.
    Disable,
    /// Disabling the counters because of an error.
    DisableAfterError,
    /// Reading the counters after they are disabled.
    Read,
    /// The capture is over.
    Finished,
    /// The capture has failed.
    Failed,
}

/// What is captured, without the particulars.
#[derive(Debug, Clone, Copy, PartialEq, Eq, Structural)]
pub enum Kind {
    Command,
    Pid,
    SystemWide,
}

/// What came of an action, without the particulars.
#[derive(Debug, Clone, Copy, PartialEq, Eq, Structural)]
pub enum Answer {
    /// It is done.
    Done,
    /// It failed.
    Failed,
    /// The process exists, or the workload still runs.
    Yes,
    /// The process does not exist, or the workload does not run any more.
    No,
    /// The counters were read.
    Results,
    /// That is no answer to the action.
    Unfit,
}

/// The phase in which a capture starts.
pub open spec fn first_phase(kind: Kind) -> Phase {
    match kind {
        Kind::Pid => Phase::CheckPid(0),
        _ => Phase::Open,
    }
}

/// The phase that follows when an action is done.
pub open spec fn phase_when_done(kind: Kind, interval: bool, pids: nat, phase: Phase) -> Phase {
    match phase {
        Phase::Open => if kind == Kind::Command {
            Phase::Spawn
        } else {
            Phase::CatchInterrupt
        },
        Phase::OpenPid(i) => if i + 1 < pids {
            Phase::OpenPid((i + 1) as usize)
        } else {
            Phase::Enable
        },
        Phase::Spawn | Phase::CatchInterrupt => Phase::Enable,
        Phase::Enable => if interval {
            if kind == Kind::SystemWide {
                Phase::Poll
            } else {
                Phase::Pause
            }
        } else if kind == Kind::Command {
            Phase::Wait
        } else {
            Phase::Poll
        },
        Phase::Pause => if interval && kind == Kind::Pid {
            Phase::Collect
        } else if interval && kind == Kind::SystemWide {
            Phase::PollRested
        } else {
            Phase::Poll
        },
        Phase::Wait => Phase::Disable,
        Phase::Disable => if interval {
            Phase::Finished
        } else {
            Phase::Read
        },
        Phase::DisableAfterError => Phase::Failed,
        _ => phase,
    }
}

/// The phase that follows when the process exists or the workload still runs.
pub open spec fn phase_when_yes(kind: Kind, interval: bool, pids: nat, phase: Phase) -> Phase {
    match phase {
        Phase::CheckPid(i) => if i + 1 < pids {
            Phase::CheckPid((i + 1) as usize)
        } else {
            Phase::OpenPid(0)
        },
        Phase::Poll => if interval && kind == Kind::Command {
            Phase::Collect
        } else {
            Phase::Pause
        },
        Phase::PollRested => Phase::Collect,
        _ => phase,
    }
}

/// The phase that follows when the process does not exist or the workload does
/// not run any more.
pub open spec fn phase_when_no(kind: Kind, interval: bool, phase: Phase) -> Phase {
    match phase {
        Phase::CheckPid(_) => Phase::Failed,
        Phase::Poll => if interval && kind == Kind::Command {
            Phase::FinalCollect
        } else {
            Phase::Disable
        },
        Phase::PollRested => Phase::Disable,
        _ => phase,
    }
}

/// The phase that follows when the counters were read.
pub open spec fn phase_when_read(kind: Kind, phase: Phase) -> Phase {
    match phase {
        Phase::Collect => if kind == Kind::Command {
            Phase::Pause
        } else {
            Phase::Poll
        },
        Phase::FinalCollect => Phase::Disable,
        Phase::Read => Phase::Finished,
        _ => phase,
    }
}

/// The phase that follows when an action failed.
pub open spec fn phase_when_failed(kind: Kind, phase: Phase) -> Phase {
    match phase {
        Phase::Finished => Phase::Finished,
        Phase::Poll => if kind == Kind::Command {
            Phase::DisableAfterError
        } else {
            Phase::Failed
        },
        _ => Phase::Failed,
    }
}

/// The phase that follows an answer. An answer that does not fit the phase
/// changes nothing.
pub open spec fn next_phase(
    kind: Kind,
    interval: bool,
    pids: nat,
    phase: Phase,
    answer: Answer,
) -> Phase {
    match answer {
        Answer::Done => phase_when_done(kind, interval, pids, phase),
        Answer::Yes => phase_when_yes(kind, interval, pids, phase),
        Answer::No => phase_when_no(kind, interval, phase),
        Answer::Results => phase_when_read(kind, phase),
        Answer::Failed => phase_when_failed(kind, phase),
        Answer::Unfit => phase,
    }
}

fn follow(kind: Kind, interval: bool, pids: usize, phase: Phase, answer: Answer) -> (next: Phase)
    ensures
        next == next_phase(kind, interval, pids as nat, phase, answer),
{
    match answer {
        Answer::Done => match phase {
            Phase::Open => if kind == Kind::Command {
                Phase::Spawn
            } else {
                Phase::CatchInterrupt
            },
            Phase::OpenPid(i) => if i < pids && i + 1 < pids {
                Phase::OpenPid(i + 1)
            } else {
                Phase::Enable
            },
            Phase::Spawn | Phase::CatchInterrupt => Phase::Enable,
            Phase::Enable => if interval {
                if kind == Kind::SystemWide {
                    Phase::Poll
                } else {
                    Phase::Pause
                }
            } else if kind == Kind::Command {
                Phase::Wait
            } else {
                Phase::Poll
            },
            Phase::Pause => if interval && kind == Kind::Pid {
                Phase::Collect
            } else if interval && kind == Kind::SystemWide {
                Phase::PollRested
            } else {
                Phase::Poll
            },
            Phase::Wait => Phase::Disable,
            Phase::Disable => if interval {
                Phase::Finished
            } else {
                Phase::Read
            },
            Phase::DisableAfterError => Phase::Failed,
            _ => phase,
        },
        Answer::Yes => match phase {
            Phase::CheckPid(i) => if i < pids && i + 1 < pids {
                Phase::CheckPid(i + 1)
            } else {
                Phase::OpenPid(0)
            },
            Phase::Poll => if interval && kind == Kind::Command {
                Phase::Collect
            } else {
                Phase::Pause
            },
            Phase::PollRested => Phase::Collect,
            _ => phase,
        },
        Answer::No => match phase {
            Phase::CheckPid(_) => Phase::Failed,
            Phase::Poll => if interval && kind == Kind::Command {
                Phase::FinalCollect
            } else {
                Phase::Disable
            },
            Phase::PollRested => Phase::Disable,
            _ => phase,
        },
        Answer::Results => match phase {
            Phase::Collect => if kind == Kind::Command {
                Phase::Pause
            } else {
                Phase::Poll
            },
            Phase::FinalCollect => Phase::Disable,
            Phase::Read => Phase::Finished,
            _ => phase,
        },
        Answer::Failed => match phase {
            Phase::Finished => Phase::Finished,
            Phase::Poll => if kind == Kind::Command {
                Phase::DisableAfterError
            } else {
                Phase::Failed
            },
            _ => Phase::Failed,
        },
        Answer::Unfit => phase,
    }
}

/// A capture under way.
#[derive(Debug)]
pub struct Capture<T> {
    pub mode: WorkloadMode,
    /// The length of an interval in milliseconds, if there are intervals.
    pub interval: Option<u64>,
    pub phase: Phase,
    /// The processes that are captured, each once.
    pub processes: Vec<i32>,
    /// The processes that still run.
    pub remaining: Vec<i32>,
    /// The values of the intervals so far.
    pub snapshots: Vec<TimestampedSnapshot<T>>,
    /// The values over the whole time.
    pub total: Option<EventResults<T>>,
    pub error: Option<CaptureError>,
}

/// What to do next in a capture.
#[derive(Debug, Clone, Copy, PartialEq, Eq, Structural)]
pub enum Action {
    /// See whether a process exists.
    CheckPid(i32),
    /// Open the counters of a process, besides those that are open, or the
    /// counters of the cores.
    Open(Option<i32>),
    /// Start the command.
    Spawn,
    /// Catch interrupts.
    CatchInterrupt,
    /// Reset and enable the counters.
    Enable,
    /// Sleep that many milliseconds.
    Sleep(u64),
    /// See whether the command still runs.
    PollChild,
    /// See which of the remaining processes still exist.
    PollPids,
    /// See whether there was no interrupt yet.
    PollInterrupt,
    /// Read and reset the counters.
    ReadAndReset,
    /// Read the counters.
    Read,
    /// Wait for the end of the command.
    WaitChild,
    /// Disable the counters.
    Disable,
    /// Nothing, the capture has ended.
    Stop,
}

/// What came of an action.
#[derive(Debug)]
pub enum Event<T> {
    /// It is done.
    Done,
    /// It failed, for the reason given.
    Failed(String),
    /// Whether the process exists, or the workload still runs.
    Is(bool),
    /// Which of the remaining processes still exist.
    Alive(Vec<bool>),
    /// The values of the counters.
    Results { timestamp: T, results: EventResults<T> },
}

/// How long to sleep, in milliseconds, between two looks at a workload.
pub const POLL_MILLIS: u64 = 100;

impl WorkloadMode {
    /// What is captured, without the particulars.
    pub open spec fn kind_of(&self) -> Kind {
        match self {
            WorkloadMode::Command(_) => Kind::Command,
            WorkloadMode::Pid(_) => Kind::Pid,
            WorkloadMode::SystemWide => Kind::SystemWide,
        }
    }

    /// The processes that are captured.
    pub open spec fn pids(&self) -> Seq<i32> {
        match self {
            WorkloadMode::Pid(pids) => pids@,
            _ => Seq::empty(),
        }
    }

    fn kind(&self) -> (kind: Kind)
        ensures
            kind == self.kind_of(),
    {
        match self {
            WorkloadMode::Command(_) => Kind::Command,
            WorkloadMode::Pid(_) => Kind::Pid,
            WorkloadMode::SystemWide => Kind::SystemWide,
        }
    }

}

/// A list without what occurs in it before.
pub open spec fn each_once(pids: Seq<i32>) -> Seq<i32>
    decreases pids.len(),
{
    if pids.len() == 0 {
        Seq::empty()
    } else {
        let front = each_once(pids.drop_last());
        if front.contains(pids.last()) {
            front
        } else {
            front.push(pids.last())
        }
    }
}

/// A list without repeats has the same elements, each in one place; where there
/// are no repeats nothing is dropped.
pub proof fn law_each_once(pids: Seq<i32>)
    ensures
        each_once(pids).no_duplicates(),
        forall|pid: i32| #[trigger] each_once(pids).contains(pid) <==> pids.contains(pid),
        pids.len() > 0 ==> each_once(pids).len() > 0,
        pids.no_duplicates() ==> each_once(pids) == pids,
    decreases pids.len(),
{
    if pids.len() > 0 {
        let rest = pids.drop_last();
        let front = each_once(rest);
        law_each_once(rest);
        if pids.no_duplicates() {
            assert(rest.no_duplicates()) by {
                assert forall|i: int, j: int|
                    0 <= i < rest.len() && 0 <= j < rest.len() && i != j implies rest[i]
                    != rest[j] by {
                    assert(pids[i] != pids[j]);
                }
            }
            assert forall|i: int| 0 <= i < rest.len() implies #[trigger] rest[i] != pids.last() by {
                assert(pids[i] != pids[pids.len() - 1]);
            }
            assert(rest.push(pids.last()) =~= pids);
        }
        assert forall|pid: i32| #[trigger] each_once(pids).contains(pid) <==> pids.contains(
            pid,
        ) by {
            if pids.contains(pid) {
                let i = pids.index_of(pid);
                if i < rest.len() {
                    assert(rest[i] == pid);
                    assert(rest.contains(pid));
                    assert(front.contains(pid));
                    let j = front.index_of(pid);
                    assert(each_once(pids)[j] == pid);
                } else if !front.contains(pid) {
                    assert(each_once(pids)[front.len() as int] == pid);
                }
            }
            if each_once(pids).contains(pid) {
                let j = each_once(pids).index_of(pid);
                if j < front.len() {
                    assert(front[j] == pid);
                    assert(front.contains(pid));
                    let i = rest.index_of(pid);
                    assert(pids[i] == pid);
                } else {
                    assert(pids[pids.len() - 1] == pid);
                }
            }
        }
        assert(each_once(pids).contains(pids.last())) by {
            assert(pids[pids.len() - 1] == pids.last());
            assert(pids.contains(pids.last()));
        }
    }
}

fn has_pid(pids: &Vec<i32>, pid: i32) -> (b: bool)
    ensures
        b == pids@.contains(pid),
{
    for i in 0..pids.len()
        invariant
            forall|k: int| 0 <= k < i ==> #[trigger] pids@[k] != pid,
    {
        if pids[i] == pid {
            return true;
        }
    }
    false
}

fn drop_repeats(pids: &Vec<i32>) -> (out: Vec<i32>)
    ensures
        out@ == each_once(pids@),
{
    let mut out: Vec<i32> = Vec::new();
    assert(pids@.take(0) =~= Seq::empty());
    for i in 0..pids.len()
        invariant
            out@ == each_once(pids@.take(i as int)),
    {
        assert(pids@.take(i + 1).drop_last() =~= pids@.take(i as int));
        if !has_pid(&out, pids[i]) {
            out.push(pids[i]);
        }
    }
    assert(pids@.take(pids.len() as int) =~= pids@);
    out
}

/// The processes that still exist.
pub open spec fn kept(remaining: Seq<i32>, alive: Seq<bool>) -> Seq<i32>
    decreases remaining.len(),
{
    if remaining.len() == 0 {
        Seq::empty()
    } else {
        let front = kept(remaining.drop_last(), alive);
        let last = remaining.len() - 1;
        if last < alive.len() && alive[last] {
            front.push(remaining.last())
        } else {
            front
        }
    }
}

fn keep_alive(remaining: &Vec<i32>, alive: &Vec<bool>) -> (out: Vec<i32>)
    ensures
        out@ == kept(remaining@, alive@),
{
    let mut out: Vec<i32> = Vec::new();
    assert(remaining@.take(0) =~= Seq::empty());
    for i in 0..remaining.len()
        invariant
            out@ == kept(remaining@.take(i as int), alive@),
    {
        assert(remaining@.take(i + 1).drop_last() =~= remaining@.take(i as int));
        if i < alive.len() && alive[i] {
            out.push(remaining[i]);
        }
    }
    assert(remaining@.take(remaining.len() as int) =~= remaining@);
    out
}

/// Whether an error tells that an action of a capture failed for a reason.
pub open spec fn tells_failure(
    mode: WorkloadMode,
    phase: Phase,
    reason: Seq<char>,
    e: CaptureError,
) -> bool {
    match phase {
        Phase::Spawn => e matches CaptureError::Spawn { command, reason: r } && r@ == reason && (
        mode matches WorkloadMode::Command(words) ==> words.len() > 0 ==> command@
            == words.deep_view()[0]),
        Phase::Wait => e matches CaptureError::Wait(r) && r@ == reason,
        Phase::Poll | Phase::PollRested => e matches CaptureError::Poll(r) && r@ == reason,
        _ => e matches CaptureError::Counters(r) && r@ == reason,
    }
}

fn failure(mode: &WorkloadMode, phase: Phase, reason: String) -> (e: CaptureError)
    ensures
        tells_failure(*mode, phase, reason@, e),
{
    match phase {
        Phase::Spawn => {
            let mut command = String::new();
            if let WorkloadMode::Command(words) = mode {
                if words.len() > 0 {
                    command = words[0].clone();
                }
            }
            CaptureError::Spawn { command, reason }
        },
        Phase::Wait => CaptureError::Wait(reason),
        Phase::Poll | Phase::PollRested => CaptureError::Poll(reason),
        _ => CaptureError::Counters(reason),
    }
}

impl<T> Capture<T> {
    /// Whether the parts of a capture agree.
    pub open spec fn wf(&self) -> bool {
        let kind = self.mode.kind_of();
        &&& kind == Kind::Pid ==> self.processes@.len() > 0
        &&& self.processes@ == each_once(self.mode.pids())
        &&& match self.phase {
            Phase::CheckPid(i) => i < self.processes@.len(),
            Phase::OpenPid(i) => i < self.processes@.len(),
            Phase::Open => kind != Kind::Pid,
            Phase::Wait => kind == Kind::Command && self.interval is None,
            Phase::FinalCollect => kind == Kind::Command && self.interval is Some,
            Phase::PollRested => kind == Kind::SystemWide && self.interval is Some,
            Phase::Read => self.interval is None,
            Phase::Finished => self.interval is None ==> self.total is Some,
            Phase::Failed | Phase::DisableAfterError => self.error is Some,
            _ => true,
        }
        &&& kind == Kind::Pid && self.workload_over() ==> self.remaining@.len() == 0
        &&& kind == Kind::Command && self.interval is Some && self.workload_over()
            ==> self.snapshots@.len() > 0
    }

    /// Whether the workload has ended and all intervals are read.
    pub open spec fn workload_over(&self) -> bool {
        self.phase == Phase::Disable || done_counting(self.phase)
    }

    /// Whether an event answers what is asked of a capture: of processes, which
    /// of them exist; of everything else, yes or no.
    pub open spec fn fits(&self, event: Event<T>) -> bool {
        match event {
            Event::Is(_) => self.phase is CheckPid || self.mode.kind_of() != Kind::Pid,
            Event::Alive(_) => self.phase == Phase::Poll && self.mode.kind_of() == Kind::Pid,
            _ => true,
        }
    }

    /// The answer that an event gives.
    pub open spec fn answer_of(&self, event: Event<T>) -> Answer {
        if !self.fits(event) {
            Answer::Unfit
        } else {
            match event {
                Event::Done => Answer::Done,
                Event::Failed(_) => Answer::Failed,
                Event::Is(b) => if b {
                    Answer::Yes
                } else {
                    Answer::No
                },
                Event::Alive(alive) => if kept(self.remaining@, alive@).len() > 0 {
                    Answer::Yes
                } else {
                    Answer::No
                },
                Event::Results { .. } => Answer::Results,
            }
        }
    }

    /// Whether a capture is at its start. A command without words has failed at
    /// once.
    pub open spec fn started(&self) -> bool {
        &&& self.wf()
        &&& self.remaining@ == self.processes@
        &&& self.snapshots@ == Seq::<TimestampedSnapshot<T>>::empty()
        &&& self.total is None
        &&& if self.mode matches WorkloadMode::Command(words) && words.len() == 0 {
            self.phase == Phase::Failed && self.error == Some(CaptureError::EmptyCommand)
        } else {
            self.phase == first_phase(self.mode.kind_of()) && self.error is None
        }
    }

    /// What to do in the phase of a capture.
    pub open spec fn action_of(&self) -> Action {
        match self.phase {
            Phase::CheckPid(i) => Action::CheckPid(self.processes@[i as int]),
            Phase::Open => Action::Open(None),
            Phase::OpenPid(i) => Action::Open(Some(self.processes@[i as int])),
            Phase::Spawn => Action::Spawn,
            Phase::CatchInterrupt => Action::CatchInterrupt,
            Phase::Enable => Action::Enable,
            Phase::Pause => Action::Sleep(
                match self.interval {
                    Some(millis) => millis,
                    None => POLL_MILLIS,
                },
            ),
            Phase::Poll | Phase::PollRested => match self.mode.kind_of() {
                Kind::Command => Action::PollChild,
                Kind::Pid => Action::PollPids,
                Kind::SystemWide => Action::PollInterrupt,
            },
            Phase::Collect => Action::ReadAndReset,
            Phase::FinalCollect | Phase::Read => Action::Read,
            Phase::Wait => Action::WaitChild,
            Phase::Disable | Phase::DisableAfterError => Action::Disable,
            Phase::Finished | Phase::Failed => Action::Stop,
        }
    }

    /// A capture at its start. A command without words has failed at once.
    pub fn start(mode: WorkloadMode, interval: Option<u64>) -> (out: Self)
        requires
            mode matches WorkloadMode::Pid(pids) ==> pids.len() > 0,
        ensures
            out.started(),
            out.mode == mode,
            out.interval == interval,
            mode.pids().no_duplicates() ==> out.processes@ == mode.pids(),
    {
        let mut processes: Vec<i32> = Vec::new();
        let mut remaining: Vec<i32> = Vec::new();
        let mut phase = Phase::Open;
        let mut error: Option<CaptureError> = None;
        match &mode {
            WorkloadMode::Command(words) => {
                if words.len() == 0 {
                    phase = Phase::Failed;
                    error = Some(CaptureError::EmptyCommand);
                }
            },
            WorkloadMode::Pid(pids) => {
                phase = Phase::CheckPid(0);
                processes = drop_repeats(pids);
                remaining = drop_repeats(pids);
                proof {
                    law_each_once(pids@);
                }
            },
            WorkloadMode::SystemWide => {},
        }
        Capture {
            mode,
            interval,
            phase,
            processes,
            remaining,
            snapshots: Vec::new(),
            total: None,
            error,
        }
    }

    /// What to do next.
    pub fn action(&self) -> (action: Action)
        requires
            self.wf(),
        ensures
            action == self.action_of(),
    {
        match self.phase {
            Phase::CheckPid(i) => Action::CheckPid(self.processes[i]),
            Phase::Open => Action::Open(None),
            Phase::OpenPid(i) => Action::Open(Some(self.processes[i])),
            Phase::Spawn => Action::Spawn,
            Phase::CatchInterrupt => Action::CatchInterrupt,
            Phase::Enable => Action::Enable,
            Phase::Pause => match self.interval {
                Some(millis) => Action::Sleep(millis),
                None => Action::Sleep(POLL_MILLIS),
            },
            Phase::Poll | Phase::PollRested => match self.mode.kind() {
                Kind::Command => Action::PollChild,
                Kind::Pid => Action::PollPids,
                Kind::SystemWide => Action::PollInterrupt,
            },
            Phase::Collect => Action::ReadAndReset,
            Phase::FinalCollect | Phase::Read => Action::Read,
            Phase::Wait => Action::WaitChild,
            Phase::Disable | Phase::DisableAfterError => Action::Disable,
            Phase::Finished | Phase::Failed => Action::Stop,
        }
    }

    /// Whether a capture is what another becomes by an event.
    pub open spec fn advanced(&self, event: Event<T>, after: Self) -> bool {
        &&& after.mode == self.mode
        &&& after.interval == self.interval
        &&& after.processes == self.processes
        &&& after.phase == next_phase(
            self.mode.kind_of(),
            self.interval is Some,
            self.processes@.len(),
            self.phase,
            self.answer_of(event),
        )
        &&& after.remaining@ == match event {
            Event::Alive(alive) => if self.fits(event) {
                kept(self.remaining@, alive@)
            } else {
                self.remaining@
            },
            _ => self.remaining@,
        }
        &&& after.snapshots@ == match event {
            Event::Results { timestamp, results } => if self.phase == Phase::Collect || self.phase
                == Phase::FinalCollect {
                self.snapshots@.push(TimestampedSnapshot { timestamp, results })
            } else {
                self.snapshots@
            },
            _ => self.snapshots@,
        }
        &&& after.total == match event {
            Event::Results { timestamp, results } => if self.phase == Phase::Read {
                Some(results)
            } else {
                self.total
            },
            _ => self.total,
        }
        &&& match event {
            Event::Failed(reason) => if self.phase == Phase::Finished || self.phase
                == Phase::Failed {
                after.error == self.error
            } else {
                after.error matches Some(e) && tells_failure(self.mode, self.phase, reason@, e)
            },
            _ => if self.phase is CheckPid && self.answer_of(event) == Answer::No {
                after.error == Some(
                    CaptureError::NoSuchPid(self.processes@[self.phase->CheckPid_0 as int]),
                )
            } else {
                after.error == self.error
            },
        }
    }

    /// Goes on by what came of the action.
    pub fn advance(&mut self, event: Event<T>)
        requires
            old(self).wf(),
        ensures
            final(self).wf(),
            old(self).advanced(event, *final(self)),
    {
        let phase = self.phase;
        let kind = self.mode.kind();
        let at_check = matches!(phase, Phase::CheckPid(_));
        let answer = match event {
            Event::Done => Answer::Done,
            Event::Is(b) => if !at_check && kind == Kind::Pid {
                Answer::Unfit
            } else if b {
                Answer::Yes
            } else {
                Answer::No
            },
            Event::Failed(reason) => {
                if phase != Phase::Finished && phase != Phase::Failed {
                    self.error = Some(failure(&self.mode, phase, reason));
                }
                Answer::Failed
            },
            Event::Alive(alive) => if phase != Phase::Poll || kind != Kind::Pid {
                Answer::Unfit
            } else {
                self.remaining = keep_alive(&self.remaining, &alive);
                if self.remaining.len() > 0 {
                    Answer::Yes
                } else {
                    Answer::No
                }
            },
            Event::Results { timestamp, results } => {
                if phase == Phase::Collect || phase == Phase::FinalCollect {
                    self.snapshots.push(TimestampedSnapshot { timestamp, results });
                } else if phase == Phase::Read {
                    self.total = Some(results);
                }
                Answer::Results
            },
        };
        if let Phase::CheckPid(i) = phase {
            if answer == Answer::No {
                self.error = Some(CaptureError::NoSuchPid(self.processes[i]));
            }
        }
        self.phase = follow(
            kind,
            self.interval.is_some(),
            self.processes.len(),
            phase,
            answer,
        );
    }

    /// What the capture gave, once it has ended.
    pub fn outcome(self) -> (out: Option<Result<CaptureResult<T>, CaptureError>>)
        requires
            self.wf(),
        ensures
            match self.phase {
                Phase::Finished => out == Some(
                    Ok::<CaptureResult<T>, CaptureError>(
                        if self.interval is Some {
                            CaptureResult::Intervals(self.snapshots)
                        } else {
                            CaptureResult::Aggregated(self.total->0)
                        },
                    ),
                ) && (self.mode.kind_of() == Kind::Command && self.interval is Some
                    ==> self.snapshots@.len() > 0),
                Phase::Failed => out == Some(
                    Err::<CaptureResult<T>, CaptureError>(self.error->0),
                ),
                _ => out is None,
            },
    {
        match self.phase {
            Phase::Finished => if self.interval.is_some() {
                Some(Ok(CaptureResult::Intervals(self.snapshots)))
            } else {
                Some(Ok(CaptureResult::Aggregated(self.total.unwrap())))
            },
            Phase::Failed => Some(Err(self.error.unwrap())),
            _ => None,
        }
    }
}

// ─── What holds of every capture ─────────────────────────────────────────────

/// The phases before the counters are enabled.
pub open spec fn not_yet_counting(phase: Phase) -> bool {
    match phase {
        Phase::CheckPid(_)
        | Phase::Open
        | Phase::OpenPid(_)
        | Phase::Spawn
        | Phase::CatchInterrupt
        | Phase::Enable => true,
        _ => false,
    }
}

/// The phases after the counters are disabled.
pub open spec fn done_counting(phase: Phase) -> bool {
    phase == Phase::Read || phase == Phase::Finished
}

/// The phase after some answers, from the start on.
pub open spec fn phase_after(kind: Kind, interval: bool, pids: nat, answers: Seq<Answer>) -> Phase
    decreases answers.len(),
{
    if answers.len() == 0 {
        first_phase(kind)
    } else {
        next_phase(
            kind,
            interval,
            pids,
            phase_after(kind, interval, pids, answers.drop_last()),
            answers.last(),
        )
    }
}

/// Whether an action of a phase got an answer in the course of a capture.
#[verifier::opaque]
pub open spec fn happened(
    kind: Kind,
    interval: bool,
    pids: nat,
    answers: Seq<Answer>,
    phase: Phase,
    answer: Answer,
) -> bool {
    exists|k: int|
        0 <= k < answers.len() && #[trigger] answers[k] == answer && phase_after(
            kind,
            interval,
            pids,
            answers.take(k),
        ) == phase
}

proof fn lemma_happened_before(
    kind: Kind,
    interval: bool,
    pids: nat,
    answers: Seq<Answer>,
    phase: Phase,
    answer: Answer,
)
    requires
        answers.len() > 0,
        happened(kind, interval, pids, answers.drop_last(), phase, answer),
    ensures
        happened(kind, interval, pids, answers, phase, answer),
{
    reveal(happened);
    let front = answers.drop_last();
    let k = choose|k: int|
        0 <= k < front.len() && #[trigger] front[k] == answer && phase_after(
            kind,
            interval,
            pids,
            front.take(k),
        ) == phase;
    assert(front.take(k) =~= answers.take(k));
    assert(answers[k] == answer);
}

proof fn lemma_just_happened(
    kind: Kind,
    interval: bool,
    pids: nat,
    answers: Seq<Answer>,
)
    requires
        answers.len() > 0,
    ensures
        happened(
            kind,
            interval,
            pids,
            answers,
            phase_after(kind, interval, pids, answers.drop_last()),
            answers.last(),
        ),
{
    reveal(happened);
    let k = answers.len() - 1;
    assert(answers.take(k) =~= answers.drop_last());
    assert(answers[k] == answers.last());
}

/// In every course of a capture the counters are read only after they were
/// enabled, they are read for the last time or the capture is over only after
/// they were disabled, and a capture that is over has enabled them too.
pub proof fn law_counters(kind: Kind, interval: bool, pids: nat, answers: Seq<Answer>)
    ensures
        ({
            let phase = phase_after(kind, interval, pids, answers);
            &&& !not_yet_counting(phase) && phase != Phase::Failed ==> happened(
                kind,
                interval,
                pids,
                answers,
                Phase::Enable,
                Answer::Done,
            )
            &&& done_counting(phase) ==> happened(
                kind,
                interval,
                pids,
                answers,
                Phase::Disable,
                Answer::Done,
            )
        }),
    decreases answers.len(),
{
    if answers.len() > 0 {
        let front = answers.drop_last();
        let before = phase_after(kind, interval, pids, front);
        law_counters(kind, interval, pids, front);
        lemma_just_happened(kind, interval, pids, answers);
        if happened(kind, interval, pids, front, Phase::Enable, Answer::Done) {
            lemma_happened_before(kind, interval, pids, answers, Phase::Enable, Answer::Done);
        }
        if happened(kind, interval, pids, front, Phase::Disable, Answer::Done) {
            lemma_happened_before(kind, interval, pids, answers, Phase::Disable, Answer::Done);
        }
    }
}

/// Whether the course of a capture has seen the end of the workload: the
/// command was waited for, or a look said that nothing runs any more.
pub open spec fn workload_ended(kind: Kind, interval: bool, pids: nat, answers: Seq<Answer>) -> bool {
    ||| happened(kind, interval, pids, answers, Phase::Wait, Answer::Done)
    ||| happened(kind, interval, pids, answers, Phase::Poll, Answer::No)
    ||| happened(kind, interval, pids, answers, Phase::PollRested, Answer::No)
}

/// A capture is over only after its workload has ended.
pub proof fn law_workload_ends(kind: Kind, interval: bool, pids: nat, answers: Seq<Answer>)
    ensures
        ({
            let phase = phase_after(kind, interval, pids, answers);
            phase == Phase::FinalCollect || phase == Phase::Disable || done_counting(phase)
                ==> workload_ended(kind, interval, pids, answers)
        }),
    decreases answers.len(),
{
    if answers.len() > 0 {
        let front = answers.drop_last();
        law_workload_ends(kind, interval, pids, front);
        lemma_just_happened(kind, interval, pids, answers);
        if happened(kind, interval, pids, front, Phase::Wait, Answer::Done) {
            lemma_happened_before(kind, interval, pids, answers, Phase::Wait, Answer::Done);
        }
        if happened(kind, interval, pids, front, Phase::Poll, Answer::No) {
            lemma_happened_before(kind, interval, pids, answers, Phase::Poll, Answer::No);
        }
        if happened(kind, interval, pids, front, Phase::PollRested, Answer::No) {
            lemma_happened_before(kind, interval, pids, answers, Phase::PollRested, Answer::No);
        }
    }
}

/// A capture of processes opens the counters only after each of them was seen
/// to exist: it looks at one after another.
pub proof fn law_pids_checked(interval: bool, pids: nat, answers: Seq<Answer>, i: usize)
    requires
        i < pids,
        pids <= usize::MAX,
    ensures
        ({
            let phase = phase_after(Kind::Pid, interval, pids, answers);
            &&& phase matches Phase::CheckPid(k) ==> k < pids
            &&& (match phase {
                Phase::CheckPid(k) => i < k,
                Phase::Failed => false,
                _ => true,
            }) ==> happened(Kind::Pid, interval, pids, answers, Phase::CheckPid(i), Answer::Yes)
        }),
    decreases answers.len(),
{
    if answers.len() > 0 {
        let front = answers.drop_last();
        law_pids_checked(interval, pids, front, i);
        lemma_just_happened(Kind::Pid, interval, pids, answers);
        if happened(Kind::Pid, interval, pids, front, Phase::CheckPid(i), Answer::Yes) {
            lemma_happened_before(
                Kind::Pid,
                interval,
                pids,
                answers,
                Phase::CheckPid(i),
                Answer::Yes,
            );
        }
    }
}

/// A capture of processes enables the counters only after those of each process
/// were opened: it opens one after another.
pub proof fn law_pids_opened(interval: bool, pids: nat, answers: Seq<Answer>, i: usize)
    requires
        i < pids,
        pids <= usize::MAX,
    ensures
        ({
            let phase = phase_after(Kind::Pid, interval, pids, answers);
            &&& phase matches Phase::OpenPid(k) ==> k < pids
            &&& (match phase {
                Phase::CheckPid(_) | Phase::Failed => false,
                Phase::OpenPid(k) => i < k,
                _ => true,
            }) ==> happened(Kind::Pid, interval, pids, answers, Phase::OpenPid(i), Answer::Done)
        }),
    decreases answers.len(),
{
    if answers.len() > 0 {
        let front = answers.drop_last();
        law_pids_opened(interval, pids, front, i);
        lemma_just_happened(Kind::Pid, interval, pids, answers);
        if happened(Kind::Pid, interval, pids, front, Phase::OpenPid(i), Answer::Done) {
            lemma_happened_before(
                Kind::Pid,
                interval,
                pids,
                answers,
                Phase::OpenPid(i),
                Answer::Done,
            );
        }
    }
}

/// A capture that has ended stays as it is.
pub proof fn law_ended_stays(kind: Kind, interval: bool, pids: nat, phase: Phase, answer: Answer)
    requires
        phase == Phase::Finished || phase == Phase::Failed,
    ensures
        next_phase(kind, interval, pids, phase, answer) == phase,
{
}

// ─── Whole captures ──────────────────────────────────────────────────────────

/// Whether these are the states of a capture from its start on, and the events
/// that led from each to the next.
pub open spec fn is_course<T>(states: Seq<Capture<T>>, events: Seq<Event<T>>) -> bool {
    &&& states.len() == events.len() + 1
    &&& states[0].started()
    &&& forall|k: int|
        0 <= k < events.len() ==> states[k].advanced(#[trigger] events[k], states[k + 1])
}

/// The parts of a capture agree in every state, and what is captured stays the
/// same.
pub proof fn law_course<T>(states: Seq<Capture<T>>, events: Seq<Event<T>>, m: int)
    requires
        is_course(states, events),
        0 <= m < states.len(),
    ensures
        states[m].wf(),
        states[m].mode == states[0].mode,
        states[m].interval == states[0].interval,
        states[m].processes == states[0].processes,
    decreases m,
{
    if m > 0 {
        law_course(states, events, m - 1);
        let (before, event) = (states[m - 1], events[m - 1]);
        assert(before.advanced(event, states[m - 1 + 1]));
    }
}

/// Whether the counters of a process are opened in a state.
pub open spec fn opens<T>(state: Capture<T>, event: Event<T>, pid: i32) -> bool {
    state.action_of() == Action::Open(Some(pid)) && event == Event::<T>::Done
}

/// Whether the counters of a process were opened before a state.
pub open spec fn opened_before<T>(
    states: Seq<Capture<T>>,
    events: Seq<Event<T>>,
    m: int,
    pid: i32,
) -> bool {
    exists|k: int| 0 <= k < m && #[trigger] opens(states[k], events[k], pid)
}

proof fn lemma_process_opened<T>(states: Seq<Capture<T>>, events: Seq<Event<T>>, m: int, i: int)
    requires
        is_course(states, events),
        0 <= m < states.len(),
        states[0].mode.kind_of() == Kind::Pid,
        0 <= i < states[0].processes@.len(),
        match states[m].phase {
            Phase::CheckPid(_) | Phase::Failed => false,
            Phase::OpenPid(k) => i < k,
            _ => true,
        },
    ensures
        opened_before(states, events, m, states[0].processes@[i]),
    decreases m,
{
    law_course(states, events, m);
    if m > 0 {
        let pid = states[0].processes@[i];
        let (before, event) = (states[m - 1], events[m - 1]);
        law_course(states, events, m - 1);
        assert(before.advanced(event, states[m - 1 + 1]));
        if before.phase == Phase::OpenPid(i as usize) {
            assert(opens(states[m - 1], events[m - 1], pid));
        } else {
            lemma_process_opened(states, events, m - 1, i);
            let k = choose|k: int| 0 <= k < m - 1 && #[trigger] opens(states[k], events[k], pid);
            assert(opens(states[k], events[k], pid));
        }
    }
}

/// When a capture of processes enables the counters, and ever after unless it
/// fails, it has opened those of every process.
pub proof fn law_every_process_opened<T>(
    states: Seq<Capture<T>>,
    events: Seq<Event<T>>,
    m: int,
    pid: i32,
)
    requires
        is_course(states, events),
        0 <= m < states.len(),
        states[0].mode.pids().contains(pid),
        match states[m].phase {
            Phase::CheckPid(_) | Phase::OpenPid(_) | Phase::Failed => false,
            _ => true,
        },
    ensures
        opened_before(states, events, m, pid),
{
    law_course(states, events, 0);
    law_each_once(states[0].mode.pids());
    assert(states[0].processes@.contains(pid));
    lemma_process_opened(states, events, m, states[0].processes@.index_of(pid));
}

proof fn lemma_opening_goes_on<T>(
    states: Seq<Capture<T>>,
    events: Seq<Event<T>>,
    k: int,
    m: int,
    pid: i32,
)
    requires
        is_course(states, events),
        0 <= k < m < states.len(),
        opens(states[k], events[k], pid),
    ensures
        match states[m].phase {
            Phase::CheckPid(_) | Phase::Open => false,
            Phase::OpenPid(j) => states[k].phase->OpenPid_0 < j,
            _ => true,
        },
    decreases m,
{
    law_course(states, events, k);
    law_course(states, events, m - 1);
    let (before, event) = (states[m - 1], events[m - 1]);
    assert(before.advanced(event, states[m - 1 + 1]));
    assert(before.processes.len() <= usize::MAX);
    if k < m - 1 {
        lemma_opening_goes_on(states, events, k, m - 1, pid);
    }
}

/// No process is opened twice, however often it is named.
pub proof fn law_process_opened_once<T>(
    states: Seq<Capture<T>>,
    events: Seq<Event<T>>,
    k: int,
    m: int,
    pid: i32,
)
    requires
        is_course(states, events),
        0 <= k < m < events.len(),
        opens(states[k], events[k], pid),
    ensures
        !opens(states[m], events[m], pid),
{
    law_course(states, events, k);
    law_course(states, events, m);
    law_each_once(states[0].mode.pids());
    lemma_opening_goes_on(states, events, k, m, pid);
}

/// Whether a look at the processes that are left does not see a process.
pub open spec fn seen_gone<T>(state: Capture<T>, event: Event<T>, pid: i32) -> bool {
    &&& state.action_of() == Action::PollPids
    &&& event matches Event::Alive(alive)
    &&& exists|j: int|
        0 <= j < state.remaining@.len() && #[trigger] state.remaining@[j] == pid && !(j < alive.len()
            && alive@[j])
}

/// Whether a process was seen to be gone before a state.
pub open spec fn gone_before<T>(
    states: Seq<Capture<T>>,
    events: Seq<Event<T>>,
    m: int,
    pid: i32,
) -> bool {
    exists|k: int| 0 <= k < m && #[trigger] seen_gone(states[k], events[k], pid)
}

proof fn lemma_kept(remaining: Seq<i32>, alive: Seq<bool>, j: int)
    requires
        0 <= j < remaining.len(),
        j < alive.len() && alive[j],
    ensures
        kept(remaining, alive).contains(remaining[j]),
    decreases remaining.len(),
{
    let front = kept(remaining.drop_last(), alive);
    let last = remaining.len() - 1;
    if j < last {
        lemma_kept(remaining.drop_last(), alive, j);
        let i = front.index_of(remaining[j]);
        assert(kept(remaining, alive)[i] == remaining[j]);
    } else {
        assert(front.push(remaining.last())[front.len() as int] == remaining[j]);
    }
}

proof fn lemma_left_or_gone<T>(states: Seq<Capture<T>>, events: Seq<Event<T>>, m: int, pid: i32)
    requires
        is_course(states, events),
        0 <= m < states.len(),
        states[0].mode.pids().contains(pid),
    ensures
        states[m].remaining@.contains(pid) || gone_before(states, events, m, pid),
    decreases m,
{
    if m == 0 {
        law_each_once(states[0].mode.pids());
    } else {
        lemma_left_or_gone(states, events, m - 1, pid);
        let (before, event) = (states[m - 1], events[m - 1]);
        assert(before.advanced(event, states[m - 1 + 1]));
        if gone_before(states, events, m - 1, pid) {
            let k = choose|k: int| 0 <= k < m - 1 && #[trigger] seen_gone(states[k], events[k], pid);
            assert(seen_gone(states[k], events[k], pid));
        } else if before.fits(event) {
            if let Event::Alive(alive) = event {
                let j = before.remaining@.index_of(pid);
                if j < alive.len() && alive@[j] {
                    lemma_kept(before.remaining@, alive@, j);
                } else {
                    assert(before.remaining@[j] == pid);
                    assert(seen_gone(states[m - 1], events[m - 1], pid));
                }
            }
        }
    }
}

/// A capture of processes is over only after each of them was seen to be gone.
pub proof fn law_every_process_gone<T>(
    states: Seq<Capture<T>>,
    events: Seq<Event<T>>,
    m: int,
    pid: i32,
)
    requires
        is_course(states, events),
        0 <= m < states.len(),
        states[0].mode.pids().contains(pid),
        states[m].workload_over(),
    ensures
        gone_before(states, events, m, pid),
{
    law_course(states, events, m);
    lemma_left_or_gone(states, events, m, pid);
}

/// A capture of a command in intervals that is over has a snapshot.
pub proof fn law_command_has_snapshot<T>(states: Seq<Capture<T>>, events: Seq<Event<T>>, m: int)
    requires
        is_course(states, events),
        0 <= m < states.len(),
        states[0].mode.kind_of() == Kind::Command,
        states[0].interval is Some,
        states[m].phase == Phase::Finished,
    ensures
        states[m].snapshots@.len() > 0,
{
    law_course(states, events, m);
}

// ─── What follows on what ────────────────────────────────────────────────────

/// A command is captured by opening the counters, starting it, enabling the
/// counters, waiting for its end, disabling the counters and reading them.
pub proof fn law_command_captured<T>(
    s: Capture<T>,
    a: Action,
    event: Event<T>,
    t: Capture<T>,
    b: Action,
)
    requires
        s.wf(),
        s.mode is Command,
        s.interval is None,
        s.error is None,
        s.advanced(event, t),
        call_ensures(Capture::<T>::action, (&s,), a),
        call_ensures(Capture::<T>::action, (&t,), b),
    ensures
        a is Open && event is Done && s.phase is Open ==> b is Spawn,
        a is Spawn && event is Done ==> b is Enable,
        a is Enable && event is Done ==> b is WaitChild,
        a is WaitChild && event is Done ==> b is Disable,
        a is Disable && event is Done && s.phase is Disable ==> b is Read,
        a is Read && event is Results ==> b is Stop && t.phase is Finished,
        a is Stop ==> b is Stop && t.phase == s.phase,
{
}

/// A command is captured in intervals by sleeping for one, looking whether it
/// still runs, and reading and resetting the counters if it does; when it does
/// not, they are read for the last time and disabled.
pub proof fn law_command_in_intervals<T>(
    s: Capture<T>,
    millis: u64,
    a: Action,
    event: Event<T>,
    t: Capture<T>,
    b: Action,
)
    requires
        s.wf(),
        s.mode is Command,
        s.interval == Some(millis),
        s.error is None,
        s.advanced(event, t),
        call_ensures(Capture::<T>::action, (&s,), a),
        call_ensures(Capture::<T>::action, (&t,), b),
    ensures
        a is Open && event is Done && s.phase is Open ==> b is Spawn,
        a is Spawn && event is Done ==> b is Enable,
        a is Enable && event is Done ==> b == Action::Sleep(millis),
        a is Sleep && event is Done ==> b is PollChild,
        a is PollChild && event == Event::<T>::Is(true) ==> b is ReadAndReset,
        a is ReadAndReset && event is Results ==> b == Action::Sleep(millis),
        a is PollChild && event == Event::<T>::Is(false) ==> b is Read,
        a is Read && event is Results && s.phase is FinalCollect ==> b is Disable,
        a is Disable && event is Done && s.phase is Disable ==> b is Stop && t.phase is Finished,
{
}

/// Processes are captured by looking whether each exists, opening the counters
/// of each, enabling them, and looking which are left, ten times a second, until
/// none is; then the counters are disabled and read.
pub proof fn law_processes_captured<T>(
    s: Capture<T>,
    a: Action,
    event: Event<T>,
    t: Capture<T>,
    b: Action,
    n: int,
)
    requires
        s.wf(),
        s.mode is Pid,
        s.error is None,
        s.advanced(event, t),
        n == s.processes.len(),
        call_ensures(Capture::<T>::action, (&s,), a),
        call_ensures(Capture::<T>::action, (&t,), b),
    ensures
        s.phase matches Phase::CheckPid(i) ==> a == Action::CheckPid(s.processes@[i as int]) && (
        event == Event::<T>::Is(true) ==> b == if i + 1 < n {
            Action::CheckPid(s.processes@[i + 1])
        } else {
            Action::Open(Some(s.processes@[0]))
        }),
        s.phase matches Phase::OpenPid(i) ==> a == Action::Open(Some(s.processes@[i as int])) && (
        event is Done ==> b == if i + 1 < n {
            Action::Open(Some(s.processes@[i + 1]))
        } else {
            Action::Enable
        }),
        s.interval is None && a is Enable && event is Done ==> b is PollPids,
        s.interval is None && a is Sleep && event is Done ==> b is PollPids,
        s.interval is None && a is Disable && event is Done && s.phase is Disable ==> b is Read,
        s.interval is None && a is Read && event is Results && s.phase is Read ==> b is Stop
            && t.phase is Finished,
        s.interval matches Some(millis) ==> (a is Enable && event is Done ==> b == Action::Sleep(
            millis,
        )),
        s.interval is Some && a is Sleep && event is Done ==> b is ReadAndReset,
        s.interval is Some && a is ReadAndReset && event is Results ==> b is PollPids,
        s.interval is Some && a is Disable && event is Done && s.phase is Disable ==> b is Stop
            && t.phase is Finished,
{
}

/// When one of the processes that are left still exists, there is another sleep,
/// for an interval or a tenth of a second; when none does, the counters are
/// disabled. Those that exist are left.
pub proof fn law_processes_left<T>(
    s: Capture<T>,
    a: Action,
    alive: Vec<bool>,
    t: Capture<T>,
    b: Action,
)
    requires
        s.wf(),
        s.mode is Pid,
        s.phase is Poll,
        s.advanced(Event::Alive(alive), t),
        alive.len() == s.remaining.len(),
        call_ensures(Capture::<T>::action, (&s,), a),
        call_ensures(Capture::<T>::action, (&t,), b),
    ensures
        a is PollPids,
        alive@.contains(true) ==> b == Action::Sleep(
            match s.interval {
                Some(millis) => millis,
                None => 100,
            },
        ),
        !alive@.contains(true) ==> b is Disable && t.remaining.len() == 0,
        forall|k: int|
            0 <= k < alive.len() && #[trigger] alive@[k] ==> t.remaining@.contains(s.remaining@[k]),
{
    let (remaining, seen) = (s.remaining@, alive@);
    if seen.contains(true) {
        let k = seen.index_of(true);
        lemma_kept(remaining, seen, k);
    } else {
        lemma_none_kept(remaining, seen);
    }
    assert forall|k: int| 0 <= k < alive.len() && #[trigger] alive@[k] implies t.remaining@.contains(
        s.remaining@[k],
    ) by {
        lemma_kept(remaining, seen, k);
    }
}

proof fn lemma_none_kept(remaining: Seq<i32>, alive: Seq<bool>)
    requires
        !alive.contains(true),
    ensures
        kept(remaining, alive).len() == 0,
    decreases remaining.len(),
{
    if remaining.len() > 0 {
        lemma_none_kept(remaining.drop_last(), alive);
        let last = remaining.len() - 1;
        if last < alive.len() {
            assert(alive.contains(alive[last]));
        }
    }
}

/// Of processes that are looked at, those stay that still exist, in their order.
pub proof fn law_kept(front: Seq<i32>, seen: Seq<bool>, pid: i32, more: Seq<bool>)
    requires
        seen.len() == front.len(),
    ensures
        kept(Seq::empty(), seen) == Seq::<i32>::empty(),
        kept(front.push(pid), seen.push(true) + more) == kept(front, seen).push(pid),
        kept(front.push(pid), seen.push(false) + more) == kept(front, seen),
        kept(front.push(pid), seen) == kept(front, seen),
{
    assert(front.push(pid).drop_last() =~= front);
    lemma_kept_prefix(front, seen, seen.push(true) + more);
    lemma_kept_prefix(front, seen, seen.push(false) + more);
}

proof fn lemma_kept_prefix(front: Seq<i32>, a: Seq<bool>, b: Seq<bool>)
    requires
        a.len() >= front.len(),
        b.len() >= front.len(),
        forall|i: int| 0 <= i < front.len() ==> a[i] == b[i],
    ensures
        kept(front, a) == kept(front, b),
    decreases front.len(),
{
    if front.len() > 0 {
        lemma_kept_prefix(front.drop_last(), a, b);
        let last = front.len() - 1;
        assert(a[last] == b[last]);
    }
}

/// Without repeats processes stand in the order in which they are named first:
/// what is named later does not change what stands before.
pub proof fn law_each_once_in_order(front: Seq<i32>, back: Seq<i32>)
    ensures
        each_once(front).is_prefix_of(each_once(front + back)),
    decreases back.len(),
{
    if back.len() > 0 {
        law_each_once_in_order(front, back.drop_last());
        let all = front + back;
        assert(all.drop_last() =~= front + back.drop_last());
    } else {
        assert(front + back =~= front);
    }
}

/// The whole system is captured by opening the counters, catching interrupts,
/// enabling the counters, and looking for an interrupt, ten times a second;
/// after one the counters are disabled and read.
pub proof fn law_system_captured<T>(
    s: Capture<T>,
    a: Action,
    event: Event<T>,
    t: Capture<T>,
    b: Action,
)
    requires
        s.wf(),
        s.mode is SystemWide,
        s.interval is None,
        s.error is None,
        s.advanced(event, t),
        call_ensures(Capture::<T>::action, (&s,), a),
        call_ensures(Capture::<T>::action, (&t,), b),
    ensures
        a is Open && event is Done && s.phase is Open ==> b is CatchInterrupt,
        a is CatchInterrupt && event is Done ==> b is Enable,
        a is Enable && event is Done ==> b is PollInterrupt,
        a is PollInterrupt && event == Event::<T>::Is(true) ==> b == Action::Sleep(100),
        a is Sleep && event is Done ==> b is PollInterrupt,
        a is PollInterrupt && event == Event::<T>::Is(false) ==> b is Disable,
        a is Disable && event is Done && s.phase is Disable ==> b is Read,
        a is Read && event is Results ==> b is Stop && t.phase is Finished,
{
}

/// The whole system is captured in intervals by looking for an interrupt before
/// and after a sleep for one, and reading and resetting the counters if there is
/// none; after an interrupt they are disabled.
pub proof fn law_system_in_intervals<T>(
    s: Capture<T>,
    millis: u64,
    a: Action,
    event: Event<T>,
    t: Capture<T>,
    b: Action,
)
    requires
        s.wf(),
        s.mode is SystemWide,
        s.interval == Some(millis),
        s.error is None,
        s.advanced(event, t),
        call_ensures(Capture::<T>::action, (&s,), a),
        call_ensures(Capture::<T>::action, (&t,), b),
    ensures
        a is Open && event is Done && s.phase is Open ==> b is CatchInterrupt,
        a is CatchInterrupt && event is Done ==> b is Enable,
        a is Enable && event is Done ==> b is PollInterrupt && t.phase is Poll,
        s.phase is Poll && event == Event::<T>::Is(true) ==> b == Action::Sleep(millis),
        a is Sleep && event is Done ==> b is PollInterrupt && t.phase is PollRested,
        s.phase is PollRested && event == Event::<T>::Is(true) ==> b is ReadAndReset,
        a is ReadAndReset && event is Results ==> b is PollInterrupt && t.phase is Poll,
        a is PollInterrupt && event == Event::<T>::Is(false) ==> b is Disable,
        a is Disable && event is Done && s.phase is Disable ==> b is Stop && t.phase is Finished,
{
}

/// An action that fails ends the capture with an error that tells the reason;
/// where it cannot be seen whether a command still runs, the counters are
/// disabled first. A process that does not exist ends it too.
pub proof fn law_failures<T>(
    s: Capture<T>,
    a: Action,
    reason: String,
    event: Event<T>,
    t: Capture<T>,
    b: Action,
)
    requires
        s.wf(),
        event == Event::<T>::Failed(reason) || event == Event::<T>::Is(false) || event is Done,
        s.advanced(event, t),
        call_ensures(Capture::<T>::action, (&s,), a),
        call_ensures(Capture::<T>::action, (&t,), b),
    ensures
        event is Failed && !(a is Stop) ==> (t.error matches Some(e) && match a {
            Action::Spawn => e matches CaptureError::Spawn { command, reason: r } && r@ == reason@
                && (s.mode matches WorkloadMode::Command(words) ==> words.len() > 0 ==> command@
                == words@[0]@),
            Action::WaitChild => e matches CaptureError::Wait(r) && r@ == reason@,
            Action::PollChild | Action::PollPids | Action::PollInterrupt => e matches CaptureError::Poll(
                r,
            ) && r@ == reason@,
            _ => e matches CaptureError::Counters(r) && r@ == reason@,
        }),
        event is Failed && !(a is Stop) && !(a is PollChild) ==> b is Stop && t.phase is Failed,
        event is Failed && a is PollChild ==> b is Disable && t.phase is DisableAfterError,
        s.phase is DisableAfterError && event is Done ==> b is Stop && t.phase is Failed && t.error
            == s.error,
        a matches Action::CheckPid(pid) ==> (event == Event::<T>::Is(false) ==> b is Stop
            && t.phase is Failed && t.error == Some(CaptureError::NoSuchPid(pid))),
        a is Stop ==> b is Stop && t.phase == s.phase && t.error == s.error,
{
}

/// What is read at the end of an interval is added as a snapshot, and what is
/// read after the counters are disabled is the total; nothing else changes them.
pub proof fn law_what_is_kept<T>(s: Capture<T>, event: Event<T>, t: Capture<T>, a: Action)
    requires
        s.wf(),
        s.advanced(event, t),
        call_ensures(Capture::<T>::action, (&s,), a),
    ensures
        t.mode == s.mode && t.interval == s.interval && t.processes == s.processes,
        event matches Event::Results { timestamp, results } ==> {
            &&& a is ReadAndReset || (a is Read && s.interval is Some) ==> t.snapshots.len()
                == s.snapshots.len() + 1 && t.snapshots@.last().timestamp == timestamp
                && t.snapshots@.last().results == results && t.snapshots@.drop_last()
                == s.snapshots@ && t.total == s.total
            &&& a is Read && s.interval is None ==> t.total == Some(results) && t.snapshots@
                == s.snapshots@
            &&& !(a is Read) && !(a is ReadAndReset) ==> t.total == s.total && t.snapshots@
                == s.snapshots@
        },
        !(event is Results) ==> t.total == s.total && t.snapshots@ == s.snapshots@,
        !(event is Alive) ==> t.remaining@ == s.remaining@,
{
    assert(s.snapshots@.push(t.snapshots@.last()).drop_last() =~= s.snapshots@);
}

/// A capture starts with looking whether the first process exists or else with
/// opening the counters of the cores, with nothing captured yet; one of a
/// command without words has failed.
pub proof fn law_started<T>(mode: WorkloadMode, interval: Option<u64>, s: Capture<T>, a: Action)
    requires
        call_ensures(Capture::<T>::start, (mode, interval), s),
        call_ensures(Capture::<T>::action, (&s,), a),
        mode matches WorkloadMode::Pid(pids) ==> pids.len() > 0,
    ensures
        s.wf(),
        s.mode == mode && s.interval == interval,
        s.snapshots.len() == 0 && s.total is None,
        match mode {
            WorkloadMode::Command(words) => if words.len() == 0 {
                a is Stop && s.phase is Failed && s.error == Some(CaptureError::EmptyCommand)
            } else {
                a == Action::Open(None) && s.error is None
            },
            WorkloadMode::Pid(pids) => a == Action::CheckPid(pids@[0]) && s.error is None
                && s.remaining@ == s.processes@ && s.processes@.no_duplicates() && forall|pid: i32|
                #[trigger] s.processes@.contains(pid) <==> pids@.contains(pid),
            WorkloadMode::SystemWide => a == Action::Open(None) && s.error is None,
        },
{
    if let WorkloadMode::Pid(pids) = mode {
        law_each_once(pids@);
        let first = pids@.take(1);
        let rest = pids@.skip(1);
        assert(pids@ =~= first + rest);
        law_each_once_in_order(first, rest);
        assert(first.drop_last() =~= Seq::empty());
        assert(each_once(first) =~= seq![pids@[0]]) by {
            assert(each_once(first.drop_last()) =~= Seq::empty());
        }
        assert(each_once(pids@).subrange(0, 1) =~= each_once(first));
        assert(each_once(pids@).subrange(0, 1)[0] == pids@[0]);
    }
}

/// A capture that is over gives its snapshots if it was made in intervals, and
/// else its total; one that has failed gives its error, and one under way
/// nothing.
pub proof fn law_outcome<T>(s: Capture<T>, out: Option<Result<CaptureResult<T>, CaptureError>>)
    requires
        s.wf(),
        call_ensures(Capture::<T>::outcome, (s,), out),
    ensures
        s.phase is Finished && s.interval is Some ==> (out matches Some(Ok(got)) && (
        got matches CaptureResult::Intervals(snapshots) && snapshots@ == s.snapshots@)),
        s.phase is Finished && s.interval is None ==> (out matches Some(Ok(got)) && (
        got matches CaptureResult::Aggregated(results) && s.total == Some(results))),
        s.phase is Failed ==> (out matches Some(Err(e)) && s.error == Some(e)),
        !(s.phase is Finished) && !(s.phase is Failed) ==> out is None,
{
}

// ─── What is captured ────────────────────────────────────────────────────────

/// A command is captured if there is one, else the processes that are listed,
/// else the whole system if that is asked for; that nothing is asked for is
/// reported.
pub proof fn law_workload(cli: &Cli, out: Result<WorkloadMode, WorkloadError>)
    requires
        call_ensures(WorkloadMode::from_cli, (cli,), out),
    ensures
        cli.command.len() > 0 ==> (out matches Ok(WorkloadMode::Command(words)) && words.len()
            == cli.command.len() && forall|i: int|
            0 <= i < words.len() ==> (#[trigger] words@[i])@ == cli.command@[i]@),
        cli.command.len() == 0 && cli.pid is Some ==> (out matches Ok(mode) ==> mode is Pid) && (
        out matches Err(e) ==> e is Pid),
        cli.command.len() == 0 && cli.pid is None && cli.system_wide ==> (out matches Ok(mode)
            && mode is SystemWide),
        cli.command.len() == 0 && cli.pid is None && !cli.system_wide ==> (out matches Err(e)
            && e is Unspecified),
{
    assert(cli.command.deep_view().len() == cli.command.len());
    if cli.command.len() > 0 {
        let words = out->Ok_0->Command_0;
        assert(words.deep_view().len() == words.len());
        assert forall|i: int| 0 <= i < words.len() implies (#[trigger] words@[i])@
            == cli.command@[i]@ by {
            assert(words.deep_view()[i] == words@[i]@);
            assert(cli.command.deep_view()[i] == cli.command@[i]@);
        }
    }
}

/// Processes are listed by their numbers between commas, with white space or
/// not around each, and are captured in that order.
pub proof fn law_processes_listed(
    cli: &Cli,
    out: Result<WorkloadMode, WorkloadError>,
    pids: Seq<i32>,
    left: Seq<Seq<char>>,
    right: Seq<Seq<char>>,
)
    requires
        call_ensures(WorkloadMode::from_cli, (cli,), out),
        cli.command.len() == 0,
        pids.len() > 0,
        left.len() == pids.len(),
        right.len() == pids.len(),
        forall|i: int, k: int|
            0 <= i < pids.len() && 0 <= k < left[i].len() ==> white_space(#[trigger] left[i][k]),
        forall|i: int, k: int|
            0 <= i < pids.len() && 0 <= k < right[i].len() ==> white_space(#[trigger] right[i][k]),
        cli.pid matches Some(s) && s@ == glued(
            Seq::new(
                pids.len(),
                |i: int| left[i] + signed_text(pids[i] as int) + right[i],
            ),
            ',',
        ),
    ensures
        out matches Ok(WorkloadMode::Pid(v)) && v@ == pids,
{
    let parts = Seq::new(
        pids.len(),
        |i: int| left[i] + signed_text(pids[i] as int) + right[i],
    );
    assert(cli.command.deep_view().len() == 0);
    assert forall|i: int| 0 <= i < parts.len() implies !(#[trigger] parts[i]).contains(',')
        && trimmed(parts[i]) == signed_text(pids[i] as int) by {
        let text = signed_text(pids[i] as int);
        lemma_number_plain(pids[i]);
        assert forall|k: int| 0 <= k < left[i].len() implies white_space(
            #[trigger] left[i][k],
        ) by {}
        law_trimmed(left[i], text, right[i]);
        if parts[i].contains(',') {
            let k = parts[i].index_of(',');
            if k < left[i].len() {
                assert(white_space(left[i][k]));
            } else if k < left[i].len() + text.len() {
                assert(text[k - left[i].len()] == ',');
            } else {
                assert(white_space(right[i][k - left[i].len() - text.len()]));
            }
        }
    }
    law_split(parts, ',');
    lemma_pids_read(parts, pids);
}

proof fn lemma_number_plain(n: i32)
    ensures
        signed_text(n as int).len() > 0,
        forall|i: int|
            0 <= i < signed_text(n as int).len() ==> !white_space(
                #[trigger] signed_text(n as int)[i],
            ) && signed_text(n as int)[i] != ',',
{
    let m = if n < 0 {
        -(n as int)
    } else {
        n as int
    } as nat;
    law_numeral(m, 10);
    let text = signed_text(n as int);
    assert forall|i: int| 0 <= i < text.len() implies !white_space(#[trigger] text[i]) && text[i]
        != ',' by {
        if n < 0 {
            if i > 0 {
                assert(is_figure(numeral(m, 10)[i - 1], 10));
                assert(text[i] == numeral(m, 10)[i - 1]);
            }
        } else {
            assert(is_figure(numeral(m, 10)[i], 10));
        }
    }
}

proof fn lemma_pids_read(parts: Seq<Seq<char>>, pids: Seq<i32>)
    requires
        parts.len() == pids.len(),
        forall|i: int|
            0 <= i < parts.len() ==> trimmed(#[trigger] parts[i]) == signed_text(pids[i] as int),
    ensures
        parts_pids(parts) == Ok::<Seq<i32>, IntError>(pids),
    decreases parts.len(),
{
    if parts.len() > 0 {
        let front = parts.drop_last();
        assert forall|i: int| 0 <= i < front.len() implies trimmed(#[trigger] front[i])
            == signed_text(pids.drop_last()[i] as int) by {
            assert(front[i] == parts[i]);
        }
        lemma_pids_read(front, pids.drop_last());
        assert(trimmed(parts[parts.len() - 1]) == signed_text(pids.last() as int));
        law_signed_round_trip(pids.last());
        assert(pids =~= pids.drop_last().push(pids.last()));
    } else {
        assert(pids =~= Seq::empty());
    }
}

/// A list in which something else stands than numbers is refused, for what is
/// wrong with the first part that is none.
pub proof fn law_no_processes(
    cli: &Cli,
    out: Result<WorkloadMode, WorkloadError>,
    parts: Seq<Seq<char>>,
    k: int,
)
    requires
        call_ensures(WorkloadMode::from_cli, (cli,), out),
        cli.command.len() == 0,
        0 <= k < parts.len(),
        forall|i: int| 0 <= i < parts.len() ==> !(#[trigger] parts[i]).contains(','),
        cli.pid matches Some(s) && s@ == glued(parts, ','),
        forall|i: int| 0 <= i < k ==> small_integer(trimmed(#[trigger] parts[i])) is Ok,
        small_integer(trimmed(parts[k])) is Err,
    ensures
        out matches Err(WorkloadError::Pid(e)) && small_integer(trimmed(parts[k])) == Err::<
            int,
            IntError,
        >(e),
{
    assert(cli.command.deep_view().len() == 0);
    law_split(parts, ',');
    let front = parts.take(k);
    assert forall|i: int| 0 <= i < front.len() implies small_integer(
        trimmed(#[trigger] front[i]),
    ) is Ok by {
        assert(front[i] == parts[i]);
    }
    lemma_numbers_read(front);
    lemma_first_pid_error(parts, k, small_integer(trimmed(parts[k]))->Err_0);
}

proof fn lemma_numbers_read(parts: Seq<Seq<char>>)
    requires
        forall|i: int| 0 <= i < parts.len() ==> small_integer(trimmed(#[trigger] parts[i])) is Ok,
    ensures
        parts_pids(parts) is Ok,
    decreases parts.len(),
{
    if parts.len() > 0 {
        let front = parts.drop_last();
        assert forall|i: int| 0 <= i < front.len() implies small_integer(
            trimmed(#[trigger] front[i]),
        ) is Ok by {
            assert(front[i] == parts[i]);
        }
        lemma_numbers_read(front);
        assert(small_integer(trimmed(parts[parts.len() - 1])) is Ok);
    }
}

/// What does not answer an action changes nothing.
pub proof fn law_unfit_answers<T>(s: Capture<T>, a: Action, event: Event<T>, t: Capture<T>)
    requires
        s.wf(),
        s.advanced(event, t),
        call_ensures(Capture::<T>::action, (&s,), a),
    ensures
        event is Done && (a is CheckPid || a is PollChild || a is PollPids || a is PollInterrupt
            || a is ReadAndReset || a is Read || a is Stop) ==> t.phase == s.phase && t.error
            == s.error,
        event is Is && !(a is CheckPid || a is PollChild || a is PollInterrupt) ==> t.phase
            == s.phase && t.error == s.error,
        event is Alive && !(a is PollPids) ==> t.phase == s.phase && t.remaining@ == s.remaining@
            && t.error == s.error,
        event is Results && !(a is ReadAndReset || a is Read) ==> t.phase == s.phase && t.error
            == s.error,
{
}

/// What the errors of workloads and captures say.
pub proof fn law_messages(workload: &WorkloadError, a: String, capture: &CaptureError, b: String)
    requires
        call_ensures(WorkloadError::message, (workload,), a),
        call_ensures(CaptureError::message, (capture,), b),
    ensures
        workload is Pid ==> a@ == "Invalid PID format"@,
        workload is Unspecified ==> a@ == "Specify a command, --pid, or --system-wide (-a)"@,
        capture is EmptyCommand ==> b@ == "Empty command"@,
        capture matches CaptureError::NoSuchPid(pid) ==> b@ == "PID "@ + signed_text(*pid as int)
            + " does not exist"@,
        capture matches CaptureError::Spawn { command, reason } ==> b@ == "Failed to spawn: "@
            + command@,
        capture is Wait ==> b@ == "Failed to wait for child process"@,
        capture is Poll ==> b@ == "Failed to check child status"@,
        capture matches CaptureError::Counters(reason) ==> b@ == reason@,
{
}

} // verus!
