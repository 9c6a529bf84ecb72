//! Choosing the cores, the specification and the groups to capture, and
//! computing metrics from what was captured.
use vstd::prelude::*;
use vstd::string::*;
use vstd::utf8::is_ascii_chars;

use crate::cli::Cli;
use crate::database::{
    looked_up, GroupChoice, GroupLike, Metric, TelemetryDatabase, TopdownMethodology, TopdownNode,
};
use crate::formula::{
    arithmetic_total, comes_to, defined_names, evaluate, fault_text, formula_of, is_sign,
    law_formula_read, lemma_worth, parse, tokens_of, worth, Arithmetic, BinaryOp, Expr, Fault,
    FormulaError, Lexeme, Syntax, Tree,
};
use crate::name_map::{
    gathered, has_name, law_gathered, law_gathered_in_order, law_value_found, lemma_place_of,
    lemma_value_at, names_distinct, value_of, NameMap,
};
use crate::number::{
    decimal_text, hex_field, hex_text, integer_of, is_figure, law_numeral, law_signed_round_trip,
    numeral, pad, padded, read_i32, signed_text, to_decimal, to_hex, to_hex_field, write_number,
    IntError,
};
use crate::order::{ascending, law_sorted_distinct, sort_distinct, sorted_distinct, Ranked};
use crate::perf::{
    cpu_id_from_midr, implementer_from_midr, implementer_of, lemma_map_flatten, part_from_midr,
    part_of, EventConfig,
};
use crate::results::{known_values, EventResults};
use crate::scheduler::{
    covers, event_count, kept_together, law_schedule, lemma_flatten_has, lemma_flatten_part,
    one_round, reports, rounds_of, schedule_of, strategy_named, CollectBy, EventScheduler,
    GroupScheduleError, Names,
};
use crate::spec::{
    load_cpu_mapping, loads, CpuMapping, Parsed, SpecError, TelemetrySpecification,
};
use crate::text::{
    ascii_lowered, copy_texts, find_char, first_of, from_chars, glued, law_first_of, law_split,
    law_trimmed, lowercase_of, same_text, slice_chars, split, split_on, to_chars, to_lowercase,
    trim, trimmed, white_space,
};
use crate::workload::TimestampedSnapshot;

verus! {

// ─── Cores ───────────────────────────────────────────────────────────────────

/// Why a list of cores cannot be read.
#[derive(Debug, Clone, Copy, PartialEq, Eq, Structural)]
pub enum CoreError {
    /// An end of a range is no number.
    Range(IntError),
    /// A core is no number.
    Number(IntError),
}

impl CoreError {
    /// What the error says.
    pub open spec fn text(self) -> Seq<char> {
        match self {
            CoreError::Range(_) => "Invalid core range"@,
            CoreError::Number(_) => "Invalid core number"@,
        }
    }

    /// The error as a message.
    pub fn message(&self) -> (out: String)
        ensures
            out@ == self.text(),
    {
        match self {
            CoreError::Range(_) => "Invalid core range".to_owned(),
            CoreError::Number(_) => "Invalid core number".to_owned(),
        }
    }
}

/// The decimal number of 32 bits that a text writes.
pub open spec fn small_integer(s: Seq<char>) -> Result<int, IntError> {
    integer_of(s, 10, i32::MIN as int, i32::MAX as int)
}

/// The cores from one to another, both of them in.
pub open spec fn core_range(start: int, end: int) -> Seq<i32> {
    if start <= end {
        Seq::new((end - start + 1) as nat, |k: int| (start + k) as i32)
    } else {
        Seq::empty()
    }
}

/// The cores that one part of a list names: a range with `-`, or one core.
pub open spec fn part_cores(part: Seq<char>) -> Result<Seq<i32>, CoreError> {
    let p = trimmed(part);
    let at = first_of(p, '-') as int;
    if at < p.len() {
        match small_integer(trimmed(p.take(at))) {
            Err(e) => Err(CoreError::Range(e)),
            Ok(start) => match small_integer(trimmed(p.skip(at + 1))) {
                Err(e) => Err(CoreError::Range(e)),
                Ok(end) => Ok(core_range(start, end)),
            },
        }
    } else {
        match small_integer(p) {
            Err(e) => Err(CoreError::Number(e)),
            Ok(core) => Ok(seq![core as i32]),
        }
    }
}

/// The cores that the parts of a list name, one after another, or what is wrong
/// with the first part that names none.
pub open spec fn parts_cores(parts: Seq<Seq<char>>) -> Result<Seq<i32>, CoreError>
    decreases parts.len(),
{
    if parts.len() == 0 {
        Ok(Seq::empty())
    } else {
        match parts_cores(parts.drop_last()) {
            Err(e) => Err(e),
            Ok(front) => match part_cores(parts.last()) {
                Err(e) => Err(e),
                Ok(cores) => Ok(front + cores),
            },
        }
    }
}

/// The cores that a list names, in ascending order.
pub open spec fn core_list(s: Seq<char>) -> Result<Seq<i32>, CoreError> {
    match parts_cores(split_on(s, ',')) {
        Err(e) => Err(e),
        Ok(cores) => Ok(sorted_distinct::<i32>(cores)),
    }
}

/// Whether an outcome is that list of cores, or that error.
pub open spec fn lists_cores(
    out: Result<Vec<i32>, CoreError>,
    cores: Result<Seq<i32>, CoreError>,
) -> bool {
    match out {
        Ok(v) => cores == Ok::<Seq<i32>, CoreError>(v@),
        Err(e) => cores == Err::<Seq<i32>, CoreError>(e),
    }
}

fn parse_part(part: &Vec<char>) -> (out: Result<Vec<i32>, CoreError>)
    ensures
        lists_cores(out, part_cores(part@)),
{
    let p = trim(part);
    let at = find_char(&p, '-');
    let mut cores: Vec<i32> = Vec::new();
    if at < p.len() {
        let front = slice_chars(&p, 0, at);
        let back = slice_chars(&p, at + 1, p.len());
        assert(front@ =~= p@.take(at as int));
        assert(back@ =~= p@.skip(at + 1));
        let start: i32 = match read_i32(&trim(&front)) {
            Ok(v) => v,
            Err(e) => {
                return Err(CoreError::Range(e));
            },
        };
        let end: i32 = match read_i32(&trim(&back)) {
            Ok(v) => v,
            Err(e) => {
                return Err(CoreError::Range(e));
            },
        };
        if start <= end {
            let ghost all = core_range(start as int, end as int);
            let mut i: i32 = start;
            assert(all.take(0) =~= cores@);
            while i < end
                invariant
                    start <= i <= end,
                    all == core_range(start as int, end as int),
                    cores@ == all.take(i - start),
                decreases end - i,
            {
                cores.push(i);
                assert(all.take(i - start + 1) =~= all.take(i - start).push(i));
                i += 1;
            }
            cores.push(i);
            assert(all =~= all.take(i - start).push(i));
        } else {
            assert(cores@ =~= core_range(start as int, end as int));
        }
    } else {
        match read_i32(&p) {
            Ok(v) => {
                cores.push(v);
                assert(cores@ =~= seq![v]);
            },
            Err(e) => {
                return Err(CoreError::Number(e));
            },
        }
    }
    Ok(cores)
}

/// Reads a list of cores, such as `0-3,8`.
pub fn parse_core_list(s: &str) -> (out: Result<Vec<i32>, CoreError>)
    ensures
        lists_cores(out, core_list(s@)),
{
    let parts = split(&to_chars(s), ',');
    let ghost all = parts.deep_view();
    let mut cores: Vec<i32> = Vec::new();
    assert(all.take(0) =~= Seq::empty());
    assert(cores@ =~= Seq::empty());
    for i in 0..parts.len()
        invariant
            all == parts.deep_view(),
            all == split_on(s@, ','),
            parts_cores(all.take(i as int)) == Ok::<Seq<i32>, CoreError>(cores@),
    {
        proof {
            assert(all.take(i + 1).drop_last() =~= all.take(i as int));
            assert(parts@[i as int]@ =~= all[i as int]);
        }
        match parse_part(&parts[i]) {
            Ok(more) => {
                let ghost before = cores@;
                for k in 0..more.len()
                    invariant
                        cores@ == before + more@.take(k as int),
                {
                    cores.push(more[k]);
                    assert(more@.take(k + 1) =~= more@.take(k as int).push(more@[k as int]));
                }
                assert(more@.take(more.len() as int) =~= more@);
            },
            Err(e) => {
                proof {
                    lemma_first_error(all, i as int, e);
                }
                return Err(e);
            },
        }
    }
    assert(all.take(all.len() as int) =~= all);
    assert(cores.deep_view() =~= cores@);
    let sorted = sort_distinct(cores);
    assert(sorted.deep_view() =~= sorted@);
    Ok(sorted)
}

/// What is wrong with a part is wrong with the list.
proof fn lemma_first_error(parts: Seq<Seq<char>>, i: int, e: CoreError)
    requires
        0 <= i < parts.len(),
        parts_cores(parts.take(i)) is Ok,
        part_cores(parts[i]) == Err::<Seq<i32>, CoreError>(e),
    ensures
        parts_cores(parts) == Err::<Seq<i32>, CoreError>(e),
    decreases parts.len() - i,
{
    if i == parts.len() - 1 {
        assert(parts.drop_last() =~= parts.take(i));
    } else {
        let front = parts.drop_last();
        assert(front.take(i) =~= parts.take(i));
        assert(front[i] == parts[i]);
        lemma_first_error(front, i, e);
    }
}

/// The cores to monitor: those that are named, or all that are online.
pub fn parse_cores(cli: &Cli, online: usize) -> (out: Result<Vec<i32>, CoreError>)
    ensures
        match cli.core {
            Some(s) => lists_cores(out, core_list(s@)),
            None => out matches Ok(cores) && cores@ == core_range(0, (online as i32) - 1),
        },
{
    if let Some(s) = &cli.core {
        return parse_core_list(s.as_str());
    }
    let n: i32 = #[verifier::truncate]
    (online as i32);
    let mut cores: Vec<i32> = Vec::new();
    let mut i: i32 = 0;
    let ghost all = core_range(0, n - 1);
    assert(all.take(0) =~= cores@);
    while i < n
        invariant
            0 <= i,
            i <= n || n < 0,
            n < 0 ==> i == 0,
            all == core_range(0, n - 1),
            cores@ == all.take(i as int),
        decreases n - i,
    {
        cores.push(i);
        assert(all.take(i + 1) =~= all.take(i as int).push(i));
        i += 1;
    }
    assert(all.take(i as int) =~= all);
    Ok(cores)
}

/// Whether a part of a list names a core.
pub open spec fn part_names(part: Seq<char>, core: i32) -> bool {
    part_cores(part) matches Ok(cores) && cores.contains(core)
}

/// Whether one of the parts of a list names a core.
pub open spec fn list_names(parts: Seq<Seq<char>>, core: i32) -> bool {
    exists|k: int| 0 <= k < parts.len() && part_names(#[trigger] parts[k], core)
}

proof fn lemma_parts_cores(parts: Seq<Seq<char>>, core: i32)
    ensures
        parts_cores(parts) matches Ok(cores) ==> (cores.contains(core) <==> list_names(
            parts,
            core,
        )),
    decreases parts.len(),
{
    if parts.len() > 0 && parts_cores(parts) is Ok {
        let rest = parts.drop_last();
        lemma_parts_cores(rest, core);
        let front = parts_cores(rest)->Ok_0;
        let last = part_cores(parts.last())->Ok_0;
        vstd::seq_lib::lemma_seq_concat_contains_all_elements(front, last, core);
        if list_names(parts, core) {
            let k = choose|k: int| 0 <= k < parts.len() && part_names(#[trigger] parts[k], core);
            if k < rest.len() {
                assert(part_names(rest[k], core));
            }
        }
        if list_names(rest, core) {
            let k = choose|k: int| 0 <= k < rest.len() && part_names(#[trigger] rest[k], core);
            assert(part_names(parts[k], core));
        }
        if last.contains(core) {
            assert(part_names(parts[parts.len() - 1], core));
        }
    }
}

/// A list of cores that can be read gives exactly the cores that its parts
/// name, in ascending order and each once.
pub proof fn law_core_list(s: Seq<char>, core: i32)
    ensures
        core_list(s) matches Ok(cores) ==> ascending::<i32>(cores) && (cores.contains(core)
            <==> list_names(split_on(s, ','), core)),
{
    if let Ok(cores) = parts_cores(split_on(s, ',')) {
        lemma_parts_cores(split_on(s, ','), core);
        law_sorted_distinct::<i32>(cores);
        assert(sorted_distinct::<i32>(cores).contains(core) <==> cores.contains(core));
    }
}

/// What is shown of the cores: a headline, and a line for each core with what
/// its identification register says.
pub open spec fn core_lines(midrs: Seq<u64>) -> Seq<Seq<char>> {
    seq!["Detected "@ + decimal_text(midrs.len()) + " CPU core(s):"@] + Seq::new(
        midrs.len(),
        |i: int| core_line(i as nat, midrs[i]),
    )
}

/// The line of a core.
pub open spec fn core_line(i: nat, midr: u64) -> Seq<char> {
    "  Core "@ + padded(decimal_text(i), 3, ' ') + ": MIDR=0x"@ + hex_field(midr, 8) + "  ID=0x"@
        + hex_field((implementer_of(midr) * 0x1000 + part_of(midr)) as u64, 4)
        + "  implementer=0x"@ + hex_field(implementer_of(midr), 2) + " part=0x"@ + hex_field(
        part_of(midr),
        3,
    )
}

fn write_core_line(i: usize, midr: u64) -> (out: String)
    ensures
        out@ == core_line(i as nat, midr),
{
    let mut out = "  Core ".to_owned();
    out.append(from_chars(&pad(&write_number(i as u64, 10), 3, ' ')).as_str());
    out.append(": MIDR=0x");
    out.append(to_hex_field(midr, 8).as_str());
    out.append("  ID=0x");
    out.append(to_hex_field(cpu_id_from_midr(midr), 4).as_str());
    out.append("  implementer=0x");
    out.append(to_hex_field(implementer_from_midr(midr), 2).as_str());
    out.append(" part=0x");
    out.append(to_hex_field(part_from_midr(midr), 3).as_str());
    out
}

/// What is shown of the cores, given the identification register of each.
pub fn list_cores(midrs: &Vec<u64>) -> (lines: Vec<String>)
    ensures
        lines.deep_view() == core_lines(midrs@),
{
    let mut lines: Vec<String> = Vec::new();
    let mut head = "Detected ".to_owned();
    head.append(to_decimal(midrs.len() as u64).as_str());
    head.append(" CPU core(s):");
    lines.push(head);
    assert(lines.deep_view() =~= core_lines(midrs@).take(1));
    for i in 0..midrs.len()
        invariant
            lines.deep_view() == core_lines(midrs@).take(i + 1),
    {
        let ghost before = lines.deep_view();
        lines.push(write_core_line(i, midrs[i]));
        assert(lines.deep_view() =~= before.push(core_line(i as nat, midrs@[i as int])));
        assert(core_lines(midrs@).take(i + 2) =~= before.push(core_lines(midrs@)[i + 1]));
    }
    assert(core_lines(midrs@).take(midrs.len() + 1) =~= core_lines(midrs@));
    lines
}

// ─── Groups to capture ───────────────────────────────────────────────────────

/// The stages that a text in lower case asks for.
pub open spec fn stages_named(s: Seq<char>) -> Option<Seq<usize>> {
    if s == "1"@ {
        Some(seq![1usize])
    } else if s == "2"@ {
        Some(seq![2usize])
    } else if s == "all"@ || s == "1,2"@ || s == "2,1"@ || s == "combined"@ {
        Some(seq![1usize, 2usize])
    } else {
        None
    }
}

/// The stages that a text in lower case asks for.
pub fn stages_from_lowercase(s: &str) -> (out: Option<Vec<usize>>)
    ensures
        match out {
            Some(stages) => stages_named(s@) == Some(stages@),
            None => stages_named(s@) is None,
        },
{
    if same_text(s, "1") {
        let stages: Vec<usize> = vec![1];
        assert(stages@ =~= seq![1usize]);
        Some(stages)
    } else if same_text(s, "2") {
        let stages: Vec<usize> = vec![2];
        assert(stages@ =~= seq![2usize]);
        Some(stages)
    } else if same_text(s, "all") || same_text(s, "1,2") || same_text(s, "2,1") || same_text(
        s,
        "combined",
    ) {
        let stages: Vec<usize> = vec![1, 2];
        assert(stages@ =~= seq![1usize, 2usize]);
        Some(stages)
    } else {
        None
    }
}

/// Why there is nothing to capture.
#[derive(Debug)]
pub enum PlanError {
    /// The text does not name stages.
    Stages(String),
    /// There is no metric group of that name.
    UnknownGroup(String),
    /// There is no topdown node of that name.
    UnknownNode(String),
    /// The events do not fit the counters.
    Schedule(GroupScheduleError),
}

impl PlanError {
    /// What the error says.
    pub open spec fn text(self) -> Seq<char> {
        match self {
            PlanError::Stages(s) => "Invalid --stages value: '"@ + s@
                + "'. Use 1, 2, all, or combined."@,
            PlanError::UnknownGroup(name) => "Unknown metric group: '"@ + name@ + "'"@,
            PlanError::UnknownNode(name) => "Unknown topdown node: '"@ + name@ + "'"@,
            PlanError::Schedule(_) => "Failed to schedule events"@,
        }
    }

    /// The error as a message.
    pub fn message(&self) -> (out: String)
        ensures
            out@ == self.text(),
    {
        let mut out = String::new();
        match self {
            PlanError::Stages(s) => {
                out.append("Invalid --stages value: '");
                out.append(s.as_str());
                out.append("'. Use 1, 2, all, or combined.");
            },
            PlanError::UnknownGroup(name) => {
                out.append("Unknown metric group: '");
                out.append(name.as_str());
                out.append("'");
            },
            PlanError::UnknownNode(name) => {
                out.append("Unknown topdown node: '");
                out.append(name.as_str());
                out.append("'");
            },
            PlanError::Schedule(_) => {
                out.append("Failed to schedule events");
            },
        }
        assert(out@ =~= self.text());
        out
    }
}

/// The stages that a text asks for, in any case.
pub fn parse_stages(s: &str) -> (out: Result<Vec<usize>, PlanError>)
    ensures
        match stages_named(lowercase_of(s@)) {
            Some(stages) => out matches Ok(v) && v@ == stages,
            None => out matches Err(PlanError::Stages(text)) && text@ == s@,
        },
        is_ascii_chars(s@) ==> lowercase_of(s@) == ascii_lowered(s@),
{
    let lowered = to_lowercase(s);
    match stages_from_lowercase(lowered.as_str()) {
        Some(stages) => Ok(stages),
        None => Err(PlanError::Stages(s.to_owned())),
    }
}

/// Whether a group is found under a name.
pub open spec fn group_exists(db: TelemetryDatabase, name: Seq<char>) -> bool {
    looked_up(db.group_normalized.deep_view(), db.groups@, name) is Some
}

/// Whole groups, by their names.
pub open spec fn whole_groups(names: Seq<Seq<char>>) -> Seq<GroupChoice> {
    names.map_values(|name: Seq<char>| GroupChoice::Full(name))
}

/// Whether these are the groups that are asked for by name, or the error names
/// the first that does not exist.
pub open spec fn groups_by_name(
    db: TelemetryDatabase,
    names: Seq<Seq<char>>,
    out: Result<Vec<GroupLike>, PlanError>,
) -> bool {
    match out {
        Ok(groups) => groups.deep_view() == whole_groups(names) && forall|i: int|
            0 <= i < names.len() ==> group_exists(db, #[trigger] names[i]),
        Err(PlanError::UnknownGroup(name)) => first_unknown(db, names, name@),
        Err(_) => false,
    }
}

/// Whether a name is the first of which there is no group.
pub open spec fn first_unknown(
    db: TelemetryDatabase,
    names: Seq<Seq<char>>,
    name: Seq<char>,
) -> bool {
    exists|i: int|
        0 <= i < names.len() && #[trigger] names[i] == name && !group_exists(db, name) && forall|j:
            int|
            0 <= j < i ==> group_exists(db, #[trigger] names[j])
}

/// The groups of a node: its own, and those among its next items.
pub open spec fn node_groups(
    db: TelemetryDatabase,
    group_name: Seq<char>,
    next_items: Seq<Seq<char>>,
) -> Seq<GroupChoice> {
    seq![GroupChoice::Full(group_name)] + whole_groups(
        next_items.filter(|item: Seq<char>| has_name(db.groups@, item)),
    )
}

/// The groups of the stages that are asked for, those of the first stage first.
pub open spec fn stage_groups(db: TelemetryDatabase, stages: Seq<usize>) -> Seq<GroupChoice> {
    let first = if stages.contains(1) {
        whole_groups(db.topdown.stage_1_group_names.deep_view())
    } else {
        Seq::empty()
    };
    let second = if stages.contains(2) {
        whole_groups(db.topdown.stage_2_group_names.deep_view())
    } else {
        Seq::empty()
    };
    first + second
}

/// Whether an outcome is what is asked for: the named groups if there are any,
/// else the groups of the node if there is one, else those of the stages.
pub open spec fn captures(
    db: TelemetryDatabase,
    metric_groups: Seq<Seq<char>>,
    node: Option<Seq<char>>,
    stages: Seq<usize>,
    out: Result<Vec<GroupLike>, PlanError>,
) -> bool {
    if metric_groups.len() > 0 {
        groups_by_name(db, metric_groups, out)
    } else {
        match node {
            Some(name) => match looked_up(
                db.topdown.node_normalized.deep_view(),
                db.topdown.nodes@,
                name,
            ) {
                Some(found) => out matches Ok(groups) && groups.deep_view() == node_groups(
                    db,
                    found.group_name@,
                    found.next_items.deep_view(),
                ),
                None => out matches Err(PlanError::UnknownNode(n)) && n@ == name,
            },
            None => out matches Ok(groups) && groups.deep_view() == stage_groups(db, stages),
        }
    }
}

/// Adds whole groups.
fn add_groups(groups: Vec<GroupLike>, names: &Vec<String>) -> (out: Vec<GroupLike>)
    ensures
        out.deep_view() == groups.deep_view() + whole_groups(names.deep_view()),
{
    let ghost before = groups.deep_view();
    let ghost all = names.deep_view();
    let mut out = groups;
    assert(before + whole_groups(all.take(0)) =~= before);
    for i in 0..names.len()
        invariant
            all == names.deep_view(),
            out.deep_view() == before + whole_groups(all.take(i as int)),
    {
        let ghost so_far = out.deep_view();
        out.push(GroupLike::Full(names[i].clone()));
        assert(out.deep_view() =~= so_far.push(GroupChoice::Full(all[i as int])));
        assert(whole_groups(all.take(i + 1)) =~= whole_groups(all.take(i as int)).push(
            GroupChoice::Full(all[i as int]),
        ));
    }
    assert(all.take(all.len() as int) =~= all);
    out
}

fn has_stage(stages: &Vec<usize>, stage: usize) -> (b: bool)
    ensures
        b == stages@.contains(stage),
{
    for i in 0..stages.len()
        invariant
            forall|k: int| 0 <= k < i ==> stages@[k] != stage,
    {
        if stages[i] == stage {
            assert(stages@[i as int] == stage);
            return true;
        }
    }
    false
}

/// The groups to capture.
pub fn build_capture_groups(
    db: &TelemetryDatabase,
    metric_groups: &Vec<String>,
    node: Option<&str>,
    stages: &Vec<usize>,
) -> (out: Result<Vec<GroupLike>, PlanError>)
    ensures
        captures(
            *db,
            metric_groups.deep_view(),
            match node {
                Some(name) => Some(name@),
                None => None,
            },
            stages@,
            out,
        ),
{
    if metric_groups.len() > 0 {
        let ghost names = metric_groups.deep_view();
        for i in 0..metric_groups.len()
            invariant
                names == metric_groups.deep_view(),
                names.len() > 0,
                forall|k: int| 0 <= k < i ==> group_exists(*db, #[trigger] names[k]),
        {
            if db.find_group(metric_groups[i].as_str()).is_none() {
                let name = metric_groups[i].clone();
                assert(first_unknown(*db, names, name@)) by {
                    assert(names[i as int] == name@);
                }
                return Err(PlanError::UnknownGroup(name));
            }
            assert(group_exists(*db, names[i as int]));
        }
        let none: Vec<GroupLike> = Vec::new();
        let groups = add_groups(none, metric_groups);
        assert(groups.deep_view() =~= whole_groups(names));
        return Ok(groups);
    }
    if let Some(node_name) = node {
        match db.topdown.find_node(node_name) {
            Some(found) => {
                let mut groups: Vec<GroupLike> = Vec::new();
                groups.push(GroupLike::Full(found.group_name.clone()));
                let ghost first = seq![GroupChoice::Full(found.group_name@)];
                let ghost all = found.next_items.deep_view();
                let ghost keep = |item: Seq<char>| has_name(db.groups@, item);
                proof {
                    reveal(Seq::filter);
                    assert(all.take(0) =~= Seq::empty());
                    assert(groups.deep_view() =~= first + whole_groups(all.take(0).filter(keep)));
                }
                for i in 0..found.next_items.len()
                    invariant
                        all == found.next_items.deep_view(),
                        keep == (|item: Seq<char>| has_name(db.groups@, item)),
                        groups.deep_view() == first + whole_groups(
                            all.take(i as int).filter(keep),
                        ),
                {
                    let ghost so_far = groups.deep_view();
                    let ghost item = all[i as int];
                    proof {
                        assert(all.take(i + 1) =~= all.take(i as int).push(item));
                        all.take(i as int).lemma_filter_push(item, keep);
                    }
                    if db.groups.contains_key(found.next_items[i].as_str()) {
                        groups.push(GroupLike::Full(found.next_items[i].clone()));
                        proof {
                            assert(groups.deep_view() =~= so_far.push(GroupChoice::Full(item)));
                            assert(whole_groups(all.take(i as int).filter(keep).push(item))
                                =~= whole_groups(all.take(i as int).filter(keep)).push(
                                GroupChoice::Full(item),
                            ));
                        }
                    }
                }
                assert(all.take(all.len() as int) =~= all);
                return Ok(groups);
            },
            None => {
                return Err(PlanError::UnknownNode(node_name.to_owned()));
            },
        }
    }
    let mut groups: Vec<GroupLike> = Vec::new();
    assert(groups.deep_view() =~= Seq::empty());
    if has_stage(stages, 1) {
        groups = add_groups(groups, &db.topdown.stage_1_group_names);
    }
    if has_stage(stages, 2) {
        groups = add_groups(groups, &db.topdown.stage_2_group_names);
    }
    assert(groups.deep_view() =~= stage_groups(*db, stages@));
    Ok(groups)
}

// ─── Events to capture ───────────────────────────────────────────────────────

/// The events of each metric that exists.
pub open spec fn metric_tuples(db: TelemetryDatabase, names: Seq<Seq<char>>) -> Seq<Names> {
    names.filter_map(
        |name: Seq<char>|
            match value_of(db.metrics@, name) {
                Some(metric) => Some(metric.event_names.deep_view()),
                None => None,
            },
    )
}

/// For each group, the events of each of its metrics.
pub open spec fn event_tuples_of(db: TelemetryDatabase, groups: Seq<GroupChoice>) -> Seq<
    Seq<Names>,
> {
    groups.map_values(|group: GroupChoice| metric_tuples(db, group.metrics(db.groups@)))
}

fn group_tuples(db: &TelemetryDatabase, group: &GroupLike) -> (out: Vec<Vec<String>>)
    ensures
        out.deep_view() == metric_tuples(*db, group.deep_view().metrics(db.groups@)),
{
    let names = group.metric_names(db);
    let ghost all = names.deep_view();
    let ghost f = |name: Seq<char>|
        match value_of(db.metrics@, name) {
            Some(metric) => Some(metric.event_names.deep_view()),
            None => None,
        };
    let mut out: Vec<Vec<String>> = Vec::new();
    assert(all.take(0) =~= Seq::empty());
    assert(out.deep_view() =~= all.take(0).filter_map(f));
    for i in 0..names.len()
        invariant
            all == names.deep_view(),
            f == (|name: Seq<char>|
                match value_of(db.metrics@, name) {
                    Some(metric) => Some(metric.event_names.deep_view()),
                    None => None,
                }),
            out.deep_view() == all.take(i as int).filter_map(f),
    {
        let ghost before = out.deep_view();
        proof {
            all.lemma_filter_map_take_succ(f, i as int);
        }
        if let Some(metric) = db.metrics.get(names[i].as_str()) {
            out.push(copy_texts(&metric.event_names));
            assert(out.deep_view() =~= before + seq![metric.event_names.deep_view()]);
        } else {
            assert(out.deep_view() =~= before + Seq::empty());
        }
    }
    assert(all.take(all.len() as int) =~= all);
    out
}

/// For each group, the events of each of its metrics.
pub fn event_tuples(db: &TelemetryDatabase, groups: &Vec<GroupLike>) -> (out: Vec<
    Vec<Vec<String>>,
>)
    ensures
        out.deep_view() == event_tuples_of(*db, groups.deep_view()),
{
    let ghost all = groups.deep_view();
    let mut out: Vec<Vec<Vec<String>>> = Vec::new();
    assert(out.deep_view() =~= event_tuples_of(*db, all.take(0)));
    for i in 0..groups.len()
        invariant
            all == groups.deep_view(),
            out.deep_view() == event_tuples_of(*db, all.take(i as int)),
    {
        let ghost before = out.deep_view();
        let tuples = group_tuples(db, &groups[i]);
        let ghost v = tuples.deep_view();
        out.push(tuples);
        assert(out.deep_view() =~= before.push(v));
        assert(event_tuples_of(*db, all.take(i + 1)) =~= before.push(v));
    }
    assert(all.take(all.len() as int) =~= all);
    out
}

/// The name and the code of an event that exists.
pub open spec fn config_of(db: TelemetryDatabase, name: Seq<char>) -> Option<(Seq<char>, u64)> {
    match value_of(db.events@, name) {
        Some(event) => Some((event.name@, event.code)),
        None => None,
    }
}

/// The events of a group that exist, with their codes.
pub open spec fn configs_of(db: TelemetryDatabase, names: Names) -> Seq<(Seq<char>, u64)> {
    names.filter_map(|name: Seq<char>| config_of(db, name))
}

/// The events of each group of a round, with their codes.
pub open spec fn round_configs(db: TelemetryDatabase, round: Seq<Names>) -> Seq<
    Seq<(Seq<char>, u64)>,
> {
    round.map_values(|names: Names| configs_of(db, names))
}

fn group_configs(db: &TelemetryDatabase, names: &Vec<String>) -> (out: Vec<EventConfig>)
    ensures
        out.deep_view() == configs_of(*db, names.deep_view()),
{
    let ghost all = names.deep_view();
    let ghost f = |name: Seq<char>| config_of(*db, name);
    let mut out: Vec<EventConfig> = Vec::new();
    assert(all.take(0) =~= Seq::empty());
    assert(out.deep_view() =~= all.take(0).filter_map(f));
    for i in 0..names.len()
        invariant
            all == names.deep_view(),
            f == (|name: Seq<char>| config_of(*db, name)),
            out.deep_view() == all.take(i as int).filter_map(f),
    {
        let ghost before = out.deep_view();
        proof {
            all.lemma_filter_map_take_succ(f, i as int);
        }
        if let Some(event) = db.events.get(names[i].as_str()) {
            out.push(EventConfig { name: event.name.clone(), code: event.code });
            assert(out.deep_view() =~= before + seq![(event.name@, event.code)]);
        } else {
            assert(out.deep_view() =~= before + Seq::empty());
        }
    }
    assert(all.take(all.len() as int) =~= all);
    out
}

/// The events of each group of a round, with their codes.
pub fn resolve_events(db: &TelemetryDatabase, round: &Vec<Vec<String>>) -> (out: Vec<
    Vec<EventConfig>,
>)
    ensures
        out.deep_view() == round_configs(*db, round.deep_view()),
{
    let ghost all = round.deep_view();
    let mut out: Vec<Vec<EventConfig>> = Vec::new();
    assert(out.deep_view() =~= round_configs(*db, all.take(0)));
    for i in 0..round.len()
        invariant
            all == round.deep_view(),
            out.deep_view() == round_configs(*db, all.take(i as int)),
    {
        let ghost before = out.deep_view();
        let configs = group_configs(db, &round[i]);
        let ghost v = configs.deep_view();
        out.push(configs);
        assert(out.deep_view() =~= before.push(v));
        assert(round_configs(*db, all.take(i + 1)) =~= before.push(v));
    }
    assert(all.take(all.len() as int) =~= all);
    out
}

// ─── Plan ────────────────────────────────────────────────────────────────────

/// What to capture: the groups that are asked for, and rounds of event groups.
#[derive(Debug)]
pub struct CapturePlan {
    pub groups: Vec<GroupLike>,
    pub rounds: Vec<Vec<Vec<EventConfig>>>,
}

/// The strategy that is asked for; that of metrics if the name means none.
pub open spec fn strategy_asked(cli: Cli) -> CollectBy {
    match strategy_named(lowercase_of(cli.collect_by@)) {
        Some(by) => by,
        None => CollectBy::Metric,
    }
}

/// The rounds of a schedule: as many as the counters need, or all in one.
pub open spec fn planned_rounds(merged: Seq<Names>, max_events: nat, multiplex: bool) -> Seq<
    Seq<Names>,
> {
    if multiplex {
        rounds_of(merged, max_events)
    } else {
        one_round(merged)
    }
}

/// Whether an outcome is the plan for groups: their events scheduled and
/// resolved, or the error that they do not fit the counters, a group by itself
/// or, without multiplexing, all groups together.
pub open spec fn plans(
    db: TelemetryDatabase,
    groups: Seq<GroupChoice>,
    by: CollectBy,
    max_events: nat,
    multiplex: bool,
    out: Result<CapturePlan, PlanError>,
) -> bool {
    match schedule_of(event_tuples_of(db, groups), by, max_events) {
        Err(names) => out matches Err(PlanError::Schedule(e)) && reports(e, names, max_events),
        Ok(merged) => if !multiplex && event_count(merged) > max_events {
            out matches Err(PlanError::Schedule(e)) && reports(
                e,
                sorted_distinct::<String>(merged.flatten()),
                max_events,
            )
        } else {
            out matches Ok(plan) && plan.groups.deep_view() == groups && plan.rounds.deep_view()
                == planned_rounds(merged, max_events, multiplex).map_values(
                |round: Seq<Names>| round_configs(db, round),
            )
        },
    }
}

/// The metric groups that the command line names, separated by commas.
pub open spec fn groups_named(values: Seq<Seq<char>>) -> Seq<Seq<char>> {
    values.flat_map(|value: Seq<char>| split_on(value, ','))
}

/// The metric groups that the command line names, separated by commas.
pub fn split_groups(values: &Vec<String>) -> (out: Vec<String>)
    ensures
        out.deep_view() == groups_named(values.deep_view()),
{
    let ghost all = values.deep_view();
    let ghost f = |value: Seq<char>| split_on(value, ',');
    let mut out: Vec<String> = Vec::new();
    assert(all.take(0) =~= Seq::empty());
    assert(out.deep_view() =~= all.take(0).flat_map(f));
    for i in 0..values.len()
        invariant
            all == values.deep_view(),
            f == (|value: Seq<char>| split_on(value, ',')),
            out.deep_view() == all.take(i as int).flat_map(f),
    {
        let ghost before = out.deep_view();
        let parts = split(&to_chars(values[i].as_str()), ',');
        let ghost more = parts.deep_view();
        assert(before + more.take(0) =~= before);
        for k in 0..parts.len()
            invariant
                more == parts.deep_view(),
                out.deep_view() == before + more.take(k as int),
        {
            let ghost longer = out.deep_view();
            assert(parts@[k as int]@ =~= more[k as int]);
            out.push(from_chars(&parts[k]));
            assert(out.deep_view() =~= longer.push(more[k as int]));
            assert(more.take(k + 1) =~= more.take(k as int).push(more[k as int]));
        }
        proof {
            assert(more.take(more.len() as int) =~= more);
            all.lemma_flat_map_take_append(f, i as int);
        }
    }
    assert(all.take(all.len() as int) =~= all);
    out
}

/// The groups that the command line asks for, or the error that they do not
/// exist.
pub open spec fn asked_groups(
    db: TelemetryDatabase,
    cli: Cli,
    stages: Seq<usize>,
    chosen: Result<Vec<GroupLike>, PlanError>,
) -> bool {
    captures(
        db,
        groups_named(cli.metric_group.deep_view()),
        match cli.node {
            Some(name) => Some(name@),
            None => None,
        },
        stages,
        chosen,
    )
}

/// Whether an outcome follows from the groups that were chosen.
pub open spec fn plan_follows(
    db: TelemetryDatabase,
    cli: Cli,
    chosen: Result<Vec<GroupLike>, PlanError>,
    max_events: nat,
    out: Result<CapturePlan, PlanError>,
) -> bool {
    match chosen {
        Err(e) => out == Err::<CapturePlan, PlanError>(e),
        Ok(groups) => plans(
            db,
            groups.deep_view(),
            strategy_asked(cli),
            max_events,
            !cli.no_multiplex,
            out,
        ),
    }
}

/// Whether there is a choice of groups that an outcome follows from.
pub open spec fn plan_for_stages(
    db: TelemetryDatabase,
    cli: Cli,
    stages: Seq<usize>,
    max_events: nat,
    out: Result<CapturePlan, PlanError>,
) -> bool {
    exists|chosen: Result<Vec<GroupLike>, PlanError>| #[trigger]
        asked_groups(db, cli, stages, chosen) && plan_follows(db, cli, chosen, max_events, out)
}

/// What to capture, given the number of counters.
pub fn plan_capture(db: &TelemetryDatabase, cli: &Cli, max_events: usize) -> (out: Result<
    CapturePlan,
    PlanError,
>)
    ensures
        match stages_named(lowercase_of(cli.stages@)) {
            None => out matches Err(PlanError::Stages(s)) && s@ == cli.stages@,
            Some(stages) => plan_for_stages(*db, *cli, stages, max_events as nat, out),
        },
        is_ascii_chars(cli.stages@) ==> lowercase_of(cli.stages@) == ascii_lowered(cli.stages@),
        is_ascii_chars(cli.collect_by@) ==> strategy_asked(*cli) == match strategy_named(
            ascii_lowered(cli.collect_by@),
        ) {
            Some(by) => by,
            None => CollectBy::Metric,
        },
{
    let by = match CollectBy::from_str(cli.collect_by.as_str()) {
        Some(by) => by,
        None => CollectBy::Metric,
    };
    let stages = match parse_stages(cli.stages.as_str()) {
        Ok(stages) => stages,
        Err(e) => {
            return Err(e);
        },
    };
    let node = match &cli.node {
        Some(name) => Some(name.as_str()),
        None => None,
    };
    let chosen = build_capture_groups(db, &split_groups(&cli.metric_group), node, &stages);
    assert(asked_groups(*db, *cli, stages@, chosen));
    let groups = match chosen {
        Ok(groups) => groups,
        Err(e) => {
            return Err(e);
        },
    };
    let scheduler = match EventScheduler::new(event_tuples(db, &groups), by, max_events) {
        Ok(scheduler) => scheduler,
        Err(e) => {
            return Err(PlanError::Schedule(e));
        },
    };
    let names = match scheduler.plan_rounds(!cli.no_multiplex) {
        Ok(names) => names,
        Err(e) => {
            return Err(PlanError::Schedule(e));
        },
    };
    let ghost all = names.deep_view();
    let ghost f = |round: Seq<Names>| round_configs(*db, round);
    let mut rounds: Vec<Vec<Vec<EventConfig>>> = Vec::new();
    assert(rounds.deep_view() =~= all.take(0).map_values(f));
    for i in 0..names.len()
        invariant
            all == names.deep_view(),
            f == (|round: Seq<Names>| round_configs(*db, round)),
            rounds.deep_view() == all.take(i as int).map_values(f),
    {
        let ghost before = rounds.deep_view();
        let round = resolve_events(db, &names[i]);
        let ghost v = round.deep_view();
        rounds.push(round);
        assert(rounds.deep_view() =~= before.push(v));
        assert(all.take(i + 1).map_values(f) =~= before.push(f(all[i as int])));
    }
    assert(all.take(all.len() as int) =~= all);
    Ok(CapturePlan { groups, rounds })
}

/// Whether an event is captured in one of the rounds.
pub open spec fn captured(rounds: Seq<Seq<Seq<(Seq<char>, u64)>>>, config: (Seq<char>, u64)) -> bool {
    exists|r: int, k: int|
        0 <= r < rounds.len() && 0 <= k < rounds[r].len() && #[trigger] rounds[r][k].contains(
            config,
        )
}

proof fn lemma_filter_map_has<A, B>(s: Seq<A>, f: spec_fn(A) -> Option<B>, i: int)
    requires
        0 <= i < s.len(),
        f(s[i]) is Some,
    ensures
        s.filter_map(f).contains(f(s[i])->0),
    decreases s.len(),
{
    let front = s.drop_last();
    let last = match f(s.last()) {
        Some(b) => seq![b],
        None => Seq::empty(),
    };
    assert(s.filter_map(f) =~= front.filter_map(f) + last);
    vstd::seq_lib::lemma_seq_concat_contains_all_elements(
        front.filter_map(f),
        last,
        f(s[i])->0,
    );
    if i < front.len() {
        assert(front[i] == s[i]);
        lemma_filter_map_has(front, f, i);
    } else {
        assert(last[0] == f(s[i])->0);
    }
}

/// A round has at most as many events, by name and code, as it has names.
proof fn lemma_round_fits(db: TelemetryDatabase, round: Seq<Names>)
    ensures
        round_configs(db, round).flatten().to_set().len() <= event_count(round),
{
    let configs = round_configs(db, round);
    let names = round.flatten().to_set();
    let f = |name: Seq<char>| config_of(db, name);
    let g = |name: Seq<char>| f(name)->0;
    vstd::seq_lib::seq_to_set_is_finite(round.flatten());
    vstd::set_lib::lemma_map_size_bound(names, names.map(g), g);
    assert(configs.flatten().to_set().subset_of(names.map(g))) by {
        assert forall|config: (Seq<char>, u64)| #[trigger]
            configs.flatten().to_set().contains(config) implies names.map(g).contains(config) by {
            let k = lemma_flatten_part(configs, config);
            assert(configs[k] == round[k].filter_map(f));
            round[k].lemma_filter_map_contains(f, config);
            let name = choose|name: Seq<char>|
                #[trigger] round[k].contains(name) && f(name) == Some(config);
            lemma_flatten_has(round, k, name);
            assert(names.contains(name));
            assert(g(name) == config);
        }
    }
    vstd::set_lib::lemma_len_subset(configs.flatten().to_set(), names.map(g));
}

/// A plan keeps within the counters: no round has more events than there are
/// counters.
pub proof fn law_plan_fits(
    db: TelemetryDatabase,
    groups: Seq<GroupChoice>,
    by: CollectBy,
    max_events: nat,
    multiplex: bool,
    plan: CapturePlan,
    r: int,
)
    requires
        plans(db, groups, by, max_events, multiplex, Ok(plan)),
        0 <= r < plan.rounds.deep_view().len(),
    ensures
        plan.rounds.deep_view()[r].flatten().to_set().len() <= max_events,
{
    let tuples = event_tuples_of(db, groups);
    let merged = schedule_of(tuples, by, max_events)->Ok_0;
    law_schedule(tuples, by, max_events);
    let rounds = planned_rounds(merged, max_events, multiplex);
    lemma_round_fits(db, rounds[r]);
}

/// A plan leaves nothing out: every event that exists, of every metric that
/// exists in one of the groups, is captured.
pub proof fn law_plan_covers(
    db: TelemetryDatabase,
    groups: Seq<GroupChoice>,
    by: CollectBy,
    max_events: nat,
    multiplex: bool,
    plan: CapturePlan,
    g: int,
    metric: Seq<char>,
    name: Seq<char>,
)
    requires
        plans(db, groups, by, max_events, multiplex, Ok(plan)),
        0 <= g < groups.len(),
        groups[g].metrics(db.groups@).contains(metric),
        value_of(db.metrics@, metric) matches Some(m) && m.event_names.deep_view().contains(name),
        config_of(db, name) is Some,
    ensures
        captured(plan.rounds.deep_view(), config_of(db, name)->0),
{
    let tuples = event_tuples_of(db, groups);
    let merged = schedule_of(tuples, by, max_events)->Ok_0;
    law_schedule(tuples, by, max_events);
    let rounds = planned_rounds(merged, max_events, multiplex);
    let metrics = groups[g].metrics(db.groups@);
    let tuple_of = |name: Seq<char>|
        match value_of(db.metrics@, name) {
            Some(metric) => Some(metric.event_names.deep_view()),
            None => None,
        };
    assert(tuples[g] == metrics.filter_map(tuple_of));
    let events = tuple_of(metric)->0;
    lemma_filter_map_has(metrics, tuple_of, metrics.index_of(metric));
    let m = tuples[g].index_of(events);
    assert(tuples[g][m] == events);
    let k = events.index_of(name);
    assert(kept_together(merged, seq![tuples[g][m][k]]));
    let cover = choose|cover: Names| merged.contains(cover) && #[trigger] covers(cover, seq![name]);
    assert(cover.contains(seq![name][0]));
    if !multiplex {
        assert(rounds[0].contains(cover));
    }
    let r = if multiplex {
        lemma_flatten_part(rounds, cover)
    } else {
        0
    };
    let c = rounds[r].index_of(cover);
    let f = |name: Seq<char>| config_of(db, name);
    lemma_filter_map_has(cover, f, cover.index_of(name));
    assert(plan.rounds.deep_view()[r] == round_configs(db, rounds[r]));
    assert(plan.rounds.deep_view()[r][c] == cover.filter_map(f));
    assert(plan.rounds.deep_view()[r][c].contains(config_of(db, name)->0));
}

// ─── Metrics ─────────────────────────────────────────────────────────────────

/// The value of a metric; there is none where events are missing or the
/// formula has no value.
#[derive(Debug, Clone)]
pub struct ComputedMetric<T> {
    pub metric_name: String,
    pub value: Option<T>,
    pub units: String,
}

/// The values of the metrics of a group.
#[derive(Debug, Clone)]
pub struct ComputedGroup<T> {
    pub group_name: String,
    pub group_title: String,
    pub stage: usize,
    pub metrics: Vec<ComputedMetric<T>>,
}

/// The events of a metric that have a value, with their values.
pub open spec fn metric_vars<T>(event_names: Names, values: Seq<(Seq<char>, T)>) -> Seq<
    (Seq<char>, T),
> {
    gathered(
        event_names.filter_map(
            |name: Seq<char>|
                match value_of(values, name) {
                    Some(v) => Some((name, v)),
                    None => None,
                },
        ),
    )
}

/// Whether a value is what a number is taken for: nothing, if it is undefined.
pub open spec fn judged<T, U: Fn(T) -> bool>(is_undefined: U, v: T, value: Option<T>) -> bool {
    ||| call_ensures(is_undefined, (v,), true) && value is None
    ||| call_ensures(is_undefined, (v,), false) && value == Some(v)
}

/// Whether a value is what an expression comes to.
pub open spec fn evaluates<
    T,
    L: Fn(&str) -> T,
    N: Fn(T) -> T,
    B: Fn(BinaryOp, T, T) -> T,
    Z: Fn(T) -> bool,
    I: Fn(T) -> i64,
    W: Fn(i64) -> T,
    U: Fn(T) -> bool,
>(
    tree: Tree,
    vars: Seq<(Seq<char>, T)>,
    arithmetic: Arithmetic<T, L, N, B, Z, I, W>,
    is_undefined: U,
    value: Option<T>,
) -> bool {
    exists|v: T|
        comes_to(tree, vars, arithmetic, v) && #[trigger] judged(is_undefined, v, value)
}

/// Whether a value is that of a metric: what its formula comes to, if each of
/// its events has a value and the formula can be read, and else nothing.
pub open spec fn metric_value<
    T,
    L: Fn(&str) -> T,
    N: Fn(T) -> T,
    B: Fn(BinaryOp, T, T) -> T,
    Z: Fn(T) -> bool,
    I: Fn(T) -> i64,
    W: Fn(i64) -> T,
    U: Fn(T) -> bool,
>(
    metric: Metric,
    values: Seq<(Seq<char>, T)>,
    arithmetic: Arithmetic<T, L, N, B, Z, I, W>,
    is_undefined: U,
    value: Option<T>,
) -> bool {
    let vars = metric_vars(metric.event_names.deep_view(), values);
    if vars.len() != metric.event_names.deep_view().len() {
        value is None
    } else {
        match formula_of(metric.formula@, defined_names(vars)) {
            Err(_) => value is None,
            Ok(tree) => evaluates(tree, vars, arithmetic, is_undefined, value),
        }
    }
}

/// The metrics of a group that exist.
pub open spec fn known_metrics(db: TelemetryDatabase, group: GroupChoice) -> Seq<Seq<char>> {
    group.metrics(db.groups@).filter(|name: Seq<char>| has_name(db.metrics@, name))
}

/// Whether a computed metric is that of a name.
pub open spec fn metric_computed<
    T,
    L: Fn(&str) -> T,
    N: Fn(T) -> T,
    B: Fn(BinaryOp, T, T) -> T,
    Z: Fn(T) -> bool,
    I: Fn(T) -> i64,
    W: Fn(i64) -> T,
    U: Fn(T) -> bool,
>(
    db: TelemetryDatabase,
    name: Seq<char>,
    values: Seq<(Seq<char>, T)>,
    arithmetic: Arithmetic<T, L, N, B, Z, I, W>,
    is_undefined: U,
    computed: ComputedMetric<T>,
) -> bool {
    let metric = value_of(db.metrics@, name)->0;
    &&& computed.metric_name@ == metric.name@
    &&& computed.units@ == metric.units@
    &&& metric_value(metric, values, arithmetic, is_undefined, computed.value)
}

/// Whether a computed group has the name, the title and the stage of a group.
/// One that does not exist has its name for a title, and stage 2.
pub open spec fn group_described<T>(
    db: TelemetryDatabase,
    name: Seq<char>,
    computed: ComputedGroup<T>,
) -> bool {
    &&& computed.group_name@ == name
    &&& match value_of(db.groups@, name) {
        Some(group) => computed.group_title@ == group.title@ && computed.stage
            == db.topdown.stage_of(name),
        None => computed.group_title@ == name && computed.stage == 2,
    }
}

/// Whether a computed group is that of a group: described as it is, with the
/// value of each of its metrics that exists.
pub open spec fn group_computed<
    T,
    L: Fn(&str) -> T,
    N: Fn(T) -> T,
    B: Fn(BinaryOp, T, T) -> T,
    Z: Fn(T) -> bool,
    I: Fn(T) -> i64,
    W: Fn(i64) -> T,
    U: Fn(T) -> bool,
>(
    db: TelemetryDatabase,
    group: GroupChoice,
    values: Seq<(Seq<char>, T)>,
    arithmetic: Arithmetic<T, L, N, B, Z, I, W>,
    is_undefined: U,
    computed: ComputedGroup<T>,
) -> bool {
    &&& group_described(db, group.name(), computed)
    &&& computed.metrics.len() == known_metrics(db, group).len()
    &&& forall|k: int|
        0 <= k < computed.metrics.len() ==> metric_computed(
            db,
            known_metrics(db, group)[k],
            values,
            arithmetic,
            is_undefined,
            #[trigger] computed.metrics@[k],
        )
}

/// Whether computed groups are those of groups, one for each.
pub open spec fn groups_computed<
    T,
    L: Fn(&str) -> T,
    N: Fn(T) -> T,
    B: Fn(BinaryOp, T, T) -> T,
    Z: Fn(T) -> bool,
    I: Fn(T) -> i64,
    W: Fn(i64) -> T,
    U: Fn(T) -> bool,
>(
    db: TelemetryDatabase,
    groups: Seq<GroupChoice>,
    values: Seq<(Seq<char>, T)>,
    arithmetic: Arithmetic<T, L, N, B, Z, I, W>,
    is_undefined: U,
    computed: Seq<ComputedGroup<T>>,
) -> bool {
    &&& computed.len() == groups.len()
    &&& forall|i: int|
        0 <= i < computed.len() ==> group_computed(
            db,
            groups[i],
            values,
            arithmetic,
            is_undefined,
            #[trigger] computed[i],
        )
}

/// The events of a metric that have a value, with their values.
fn collect_vars<T: Copy>(event_names: &Vec<String>, values: &NameMap<T>) -> (vars: NameMap<T>)
    ensures
        vars@ == metric_vars(event_names.deep_view(), values@),
{
    let ghost all = event_names.deep_view();
    let ghost f = |name: Seq<char>|
        match value_of(values@, name) {
            Some(v) => Some((name, v)),
            None => None,
        };
    let mut vars: NameMap<T> = NameMap::new();
    assert(all.take(0) =~= Seq::empty());
    assert(all.take(0).filter_map(f) =~= Seq::empty());
    for i in 0..event_names.len()
        invariant
            all == event_names.deep_view(),
            f == (|name: Seq<char>|
                match value_of(values@, name) {
                    Some(v) => Some((name, v)),
                    None => None,
                }),
            vars@ == gathered(all.take(i as int).filter_map(f)),
    {
        let ghost before = all.take(i as int).filter_map(f);
        proof {
            all.lemma_filter_map_take_succ(f, i as int);
        }
        match values.get(event_names[i].as_str()) {
            Some(v) => {
                let value = *v;
                vars.insert(event_names[i].clone(), value);
                proof {
                    let longer = before + seq![(all[i as int], value)];
                    assert(longer.drop_last() =~= before);
                    assert(longer.last() == (all[i as int], value));
                }
            },
            None => {
                assert(before + Seq::empty() =~= before);
            },
        }
    }
    assert(all.take(all.len() as int) =~= all);
    vars
}

/// The value of a metric, given the values of events.
pub fn compute_metric<
    T: Copy,
    L: Fn(&str) -> T,
    N: Fn(T) -> T,
    B: Fn(BinaryOp, T, T) -> T,
    Z: Fn(T) -> bool,
    I: Fn(T) -> i64,
    W: Fn(i64) -> T,
    U: Fn(T) -> bool,
>(
    metric: &Metric,
    values: &NameMap<T>,
    arithmetic: &Arithmetic<T, L, N, B, Z, I, W>,
    is_undefined: &U,
) -> (value: Option<T>)
    requires
        arithmetic_total(*arithmetic),
        forall|v: T| call_requires(*is_undefined, (v,)),
    ensures
        metric_value(*metric, values@, *arithmetic, *is_undefined, value),
{
    let vars = collect_vars(&metric.event_names, values);
    if vars.len() != metric.event_names.len() {
        return None;
    }
    match evaluate(metric.formula.as_str(), &vars, arithmetic) {
        Ok(v) => {
            let undefined = is_undefined(v);
            let value = if undefined {
                None
            } else {
                Some(v)
            };
            assert(judged(*is_undefined, v, value));
            value
        },
        Err(_) => None,
    }
}

fn compute_group<
    T: Copy,
    L: Fn(&str) -> T,
    N: Fn(T) -> T,
    B: Fn(BinaryOp, T, T) -> T,
    Z: Fn(T) -> bool,
    I: Fn(T) -> i64,
    W: Fn(i64) -> T,
    U: Fn(T) -> bool,
>(
    db: &TelemetryDatabase,
    group: &GroupLike,
    values: &NameMap<T>,
    arithmetic: &Arithmetic<T, L, N, B, Z, I, W>,
    is_undefined: &U,
) -> (computed: ComputedGroup<T>)
    requires
        arithmetic_total(*arithmetic),
        forall|v: T| call_requires(*is_undefined, (v,)),
    ensures
        group_computed(*db, group.deep_view(), values@, *arithmetic, *is_undefined, computed),
{
    let name = group.group_name();
    let (group_title, stage): (String, usize) = match db.groups.get(name) {
        Some(g) => (g.title.clone(), db.topdown.get_stage_for_group(name)),
        None => (name.to_owned(), 2),
    };
    let names = group.metric_names(db);
    let ghost all = names.deep_view();
    let ghost keep = |name: Seq<char>| has_name(db.metrics@, name);
    let mut metrics: Vec<ComputedMetric<T>> = Vec::new();
    proof {
        reveal(Seq::filter);
        assert(all.take(0) =~= Seq::empty());
    }
    for i in 0..names.len()
        invariant
            all == names.deep_view(),
            keep == (|name: Seq<char>| has_name(db.metrics@, name)),
            arithmetic_total(*arithmetic),
            forall|v: T| call_requires(*is_undefined, (v,)),
            metrics.len() == all.take(i as int).filter(keep).len(),
            forall|k: int|
                0 <= k < metrics.len() ==> metric_computed(
                    *db,
                    all.take(i as int).filter(keep)[k],
                    values@,
                    *arithmetic,
                    *is_undefined,
                    #[trigger] metrics@[k],
                ),
    {
        let ghost before = metrics@;
        let ghost known = all.take(i as int).filter(keep);
        proof {
            assert(all.take(i + 1) =~= all.take(i as int).push(all[i as int]));
            all.take(i as int).lemma_filter_push(all[i as int], keep);
        }
        if let Some(metric) = db.metrics.get(names[i].as_str()) {
            let value = compute_metric(metric, values, arithmetic, is_undefined);
            let computed = ComputedMetric {
                metric_name: metric.name.clone(),
                value,
                units: metric.units.clone(),
            };
            metrics.push(computed);
            assert forall|k: int| 0 <= k < metrics.len() implies metric_computed(
                *db,
                known.push(all[i as int])[k],
                values@,
                *arithmetic,
                *is_undefined,
                #[trigger] metrics@[k],
            ) by {
                if k < before.len() {
                    assert(metrics@[k] == before[k]);
                }
            }
        }
    }
    assert(all.take(all.len() as int) =~= all);
    ComputedGroup { group_name: name.to_owned(), group_title, stage, metrics }
}

/// The values of the metrics of all groups, given the results of a capture. Of
/// an event that several groups captured the last value counts.
pub fn compute_metrics<
    T: Copy,
    L: Fn(&str) -> T,
    N: Fn(T) -> T,
    B: Fn(BinaryOp, T, T) -> T,
    Z: Fn(T) -> bool,
    I: Fn(T) -> i64,
    W: Fn(i64) -> T,
    U: Fn(T) -> bool,
>(
    db: &TelemetryDatabase,
    capture_groups: &Vec<GroupLike>,
    event_results: &EventResults<T>,
    arithmetic: &Arithmetic<T, L, N, B, Z, I, W>,
    is_undefined: &U,
) -> (out: Vec<ComputedGroup<T>>)
    requires
        arithmetic_total(*arithmetic),
        forall|v: T| call_requires(*is_undefined, (v,)),
    ensures
        groups_computed(
            *db,
            capture_groups.deep_view(),
            known_values(event_results@),
            *arithmetic,
            *is_undefined,
            out@,
        ),
{
    let values = event_results.event_values();
    let mut out: Vec<ComputedGroup<T>> = Vec::new();
    for i in 0..capture_groups.len()
        invariant
            arithmetic_total(*arithmetic),
            forall|v: T| call_requires(*is_undefined, (v,)),
            values@ == known_values(event_results@),
            out.len() == i,
            forall|k: int|
                0 <= k < out.len() ==> group_computed(
                    *db,
                    capture_groups.deep_view()[k],
                    known_values(event_results@),
                    *arithmetic,
                    *is_undefined,
                    #[trigger] out@[k],
                ),
    {
        let computed = compute_group(db, &capture_groups[i], &values, arithmetic, is_undefined);
        out.push(computed);
    }
    out
}

/// What is wrong with the formula of a metric whose events all have a value.
pub open spec fn metric_fault_of<T>(metric: Metric, values: Seq<(Seq<char>, T)>) -> Option<Fault> {
    let vars = metric_vars(metric.event_names.deep_view(), values);
    if vars.len() != metric.event_names.deep_view().len() {
        None
    } else {
        match formula_of(metric.formula@, defined_names(vars)) {
            Err(fault) => Some(fault),
            Ok(_) => None,
        }
    }
}

/// What is wrong with the formula of a metric whose events all have a value.
pub fn metric_fault<T: Copy>(metric: &Metric, values: &NameMap<T>) -> (out: Option<FormulaError>)
    ensures
        match metric_fault_of(*metric, values@) {
            Some(fault) => out matches Some(e) && e.deep_view() == fault,
            None => out is None,
        },
{
    let vars = collect_vars(&metric.event_names, values);
    if vars.len() != metric.event_names.len() {
        return None;
    }
    match parse(metric.formula.as_str(), &vars) {
        Ok(_) => None,
        Err(e) => Some(e),
    }
}

/// The warning about the formula of a metric, if it exists and there is one.
pub open spec fn metric_warning<T>(
    db: TelemetryDatabase,
    name: Seq<char>,
    values: Seq<(Seq<char>, T)>,
) -> Option<Seq<char>> {
    match value_of(db.metrics@, name) {
        Some(metric) => match metric_fault_of(metric, values) {
            Some(fault) => Some(
                "Formula error for metric '"@ + metric.name@ + "': "@ + fault_text(fault),
            ),
            None => None,
        },
        None => None,
    }
}

/// The warnings about the formulas of a group.
pub open spec fn group_warnings<T>(
    db: TelemetryDatabase,
    group: GroupChoice,
    values: Seq<(Seq<char>, T)>,
) -> Seq<Seq<char>> {
    group.metrics(db.groups@).filter_map(|name: Seq<char>| metric_warning(db, name, values))
}

fn add_warnings<T: Copy>(
    warnings: Vec<String>,
    db: &TelemetryDatabase,
    group: &GroupLike,
    values: &NameMap<T>,
) -> (out: Vec<String>)
    ensures
        out.deep_view() == warnings.deep_view() + group_warnings(
            *db,
            group.deep_view(),
            values@,
        ),
{
    let names = group.metric_names(db);
    let ghost all = names.deep_view();
    let ghost first = warnings.deep_view();
    let ghost f = |name: Seq<char>| metric_warning(*db, name, values@);
    let mut out = warnings;
    assert(all.take(0) =~= Seq::empty());
    assert(out.deep_view() =~= first + all.take(0).filter_map(f));
    for i in 0..names.len()
        invariant
            all == names.deep_view(),
            f == (|name: Seq<char>| metric_warning(*db, name, values@)),
            out.deep_view() == first + all.take(i as int).filter_map(f),
    {
        let ghost before = out.deep_view();
        proof {
            all.lemma_filter_map_take_succ(f, i as int);
        }
        if let Some(metric) = db.metrics.get(names[i].as_str()) {
            if let Some(e) = metric_fault(metric, values) {
                let mut warning = "Formula error for metric '".to_owned();
                warning.append(metric.name.as_str());
                warning.append("': ");
                warning.append(e.message().as_str());
                assert(f(all[i as int]) == Some(warning@));
                out.push(warning);
                assert(out.deep_view() =~= before.push(warning@));
            }
        }
        assert(out.deep_view() =~= first + all.take(i + 1).filter_map(f));
    }
    assert(all.take(all.len() as int) =~= all);
    out
}

/// The warnings about formulas that cannot be read, when the metrics of groups
/// are computed from the results of a capture.
pub fn formula_warnings<T: Copy>(
    db: &TelemetryDatabase,
    capture_groups: &Vec<GroupLike>,
    event_results: &EventResults<T>,
) -> (out: Vec<String>)
    ensures
        out.deep_view() == capture_groups.deep_view().flat_map(
            |group: GroupChoice| group_warnings(*db, group, known_values(event_results@)),
        ),
{
    let values = event_results.event_values();
    let ghost all = capture_groups.deep_view();
    let ghost f = |group: GroupChoice| group_warnings(*db, group, known_values(event_results@));
    let mut out: Vec<String> = Vec::new();
    assert(all.take(0) =~= Seq::empty());
    assert(out.deep_view() =~= all.take(0).flat_map(f));
    for i in 0..capture_groups.len()
        invariant
            all == capture_groups.deep_view(),
            f == (|group: GroupChoice| group_warnings(*db, group, known_values(event_results@))),
            values@ == known_values(event_results@),
            out.deep_view() == all.take(i as int).flat_map(f),
    {
        proof {
            all.lemma_flat_map_take_append(f, i as int);
        }
        out = add_warnings(out, db, &capture_groups[i], &values);
    }
    assert(all.take(all.len() as int) =~= all);
    out
}

/// The values of the metrics of all groups at one time.
#[derive(Debug)]
pub struct TimestampedComputedGroups<T> {
    /// Seconds since the capture started.
    pub timestamp: T,
    pub groups: Vec<ComputedGroup<T>>,
}

/// The values of the metrics of all groups for each interval.
pub fn compute_interval_metrics<
    T: Copy,
    L: Fn(&str) -> T,
    N: Fn(T) -> T,
    B: Fn(BinaryOp, T, T) -> T,
    Z: Fn(T) -> bool,
    I: Fn(T) -> i64,
    W: Fn(i64) -> T,
    U: Fn(T) -> bool,
>(
    db: &TelemetryDatabase,
    capture_groups: &Vec<GroupLike>,
    snapshots: &Vec<TimestampedSnapshot<T>>,
    arithmetic: &Arithmetic<T, L, N, B, Z, I, W>,
    is_undefined: &U,
) -> (out: Vec<TimestampedComputedGroups<T>>)
    requires
        arithmetic_total(*arithmetic),
        forall|v: T| call_requires(*is_undefined, (v,)),
    ensures
        out.len() == snapshots.len(),
        forall|i: int|
            0 <= i < out.len() ==> (#[trigger] out@[i]).timestamp == snapshots@[i].timestamp
                && groups_computed(
                *db,
                capture_groups.deep_view(),
                known_values(snapshots@[i].results@),
                *arithmetic,
                *is_undefined,
                out@[i].groups@,
            ),
{
    let mut out: Vec<TimestampedComputedGroups<T>> = Vec::new();
    for i in 0..snapshots.len()
        invariant
            arithmetic_total(*arithmetic),
            forall|v: T| call_requires(*is_undefined, (v,)),
            out.len() == i,
            forall|k: int|
                0 <= k < out.len() ==> (#[trigger] out@[k]).timestamp == snapshots@[k].timestamp
                    && groups_computed(
                    *db,
                    capture_groups.deep_view(),
                    known_values(snapshots@[k].results@),
                    *arithmetic,
                    *is_undefined,
                    out@[k].groups@,
                ),
    {
        let snapshot = &snapshots[i];
        let groups = compute_metrics(
            db,
            capture_groups,
            &snapshot.results,
            arithmetic,
            is_undefined,
        );
        out.push(TimestampedComputedGroups { timestamp: snapshot.timestamp, groups });
    }
    out
}

// ─── Specification ───────────────────────────────────────────────────────────

/// Where a relative path starts.
#[derive(Debug, Clone, Copy, PartialEq, Eq, Structural)]
pub enum Base {
    /// The directory of the executable.
    Executable,
    /// The current directory.
    Current,
}

/// A directory that may hold specifications.
#[derive(Debug)]
pub struct DirCandidate {
    pub base: Base,
    pub path: String,
}

impl DeepView for DirCandidate {
    type V = (Base, Seq<char>);

    open spec fn deep_view(&self) -> (Base, Seq<char>) {
        (self.base, self.path@)
    }
}

/// The directory that holds specifications: the one that is given, or one that
/// was found.
#[derive(Debug)]
pub enum MetricsDir {
    Given,
    Found(DirCandidate),
}

/// The file of a specification: the one that is given, or one of a directory.
#[derive(Debug)]
pub enum SpecFile {
    Given,
    InDir(MetricsDir, String),
}

/// A file, by the path to show, and what came of reading it.
#[derive(Debug)]
pub struct FileRead<T> {
    pub path: String,
    pub parsed: Parsed<T>,
}

/// What came of reading the mapping from CPU ids to specifications.
#[derive(Debug)]
pub enum MappingRead {
    /// The directory, by the path to show, holds none.
    Absent(String),
    Present(FileRead<NameMap<CpuMapping>>),
}

/// Why there is no specification.
#[derive(Debug)]
pub enum LoadError {
    /// The list of cores cannot be read.
    Core(CoreError),
    /// The identification register of the core cannot be read, for the reason
    /// given.
    Midr(String),
    /// No directory holds specifications.
    NoMetricsDir,
    /// The directory has no mapping.
    NoMapping(String),
    /// The mapping cannot be read.
    Mapping(SpecError),
    /// The mapping does not know the CPU.
    NoSpec { midr: u64, cpu_id: u64 },
    /// The specification cannot be read or is not valid.
    Spec(SpecError),
}

impl LoadError {
    /// What the error says.
    pub open spec fn text(self) -> Seq<char> {
        match self {
            LoadError::Core(e) => e.text(),
            LoadError::Midr(
                _,
            ) => "Failed to read CPU MIDR. Specify --cpu <file.json> manually."@,
            LoadError::NoMetricsDir => "Cannot find metrics directory. Use --metrics-dir to specify."@,
            LoadError::NoMapping(dir) => "No mapping.json found in "@ + dir@
                + ". Use --metrics-dir or --cpu to specify."@,
            LoadError::Mapping(e) => e.text(),
            LoadError::NoSpec { midr, cpu_id } => "No telemetry spec found for CPU (MIDR=0x"@
                + hex_field(midr, 8) + ", ID=0x"@ + hex_text(cpu_id)
                + "). Use --cpu <file.json> to specify manually."@,
            LoadError::Spec(e) => e.text(),
        }
    }

    /// The error as a message.
    pub fn message(&self) -> (out: String)
        ensures
            out@ == self.text(),
    {
        match self {
            LoadError::Core(e) => e.message(),
            LoadError::Midr(
                _,
            ) => "Failed to read CPU MIDR. Specify --cpu <file.json> manually.".to_owned(),
            LoadError::NoMetricsDir => "Cannot find metrics directory. Use --metrics-dir to specify.".to_owned(),
            LoadError::NoMapping(dir) => {
                let mut out = "No mapping.json found in ".to_owned();
                out.append(dir.as_str());
                out.append(". Use --metrics-dir or --cpu to specify.");
                out
            },
            LoadError::Mapping(e) => e.message(),
            LoadError::NoSpec { midr, cpu_id } => {
                let mut out = "No telemetry spec found for CPU (MIDR=0x".to_owned();
                out.append(to_hex_field(*midr, 8).as_str());
                out.append(", ID=0x");
                out.append(to_hex(*cpu_id).as_str());
                out.append("). Use --cpu <file.json> to specify manually.");
                out
            },
            LoadError::Spec(e) => e.message(),
        }
    }
}

/// The directories that may hold specifications, in the order in which they are
/// tried.
pub open spec fn dir_candidates(exe_known: bool) -> Seq<(Base, Seq<char>)> {
    (if exe_known {
        seq![
            (Base::Executable, "data/pmu/cpu"@),
            (Base::Executable, "../data/pmu/cpu"@),
            (Base::Executable, "metrics"@),
        ]
    } else {
        Seq::empty()
    }) + seq![(Base::Current, "data/pmu/cpu"@), (Base::Current, "metrics"@)]
}

fn list_candidates(exe_known: bool) -> (out: Vec<DirCandidate>)
    ensures
        out.deep_view() == dir_candidates(exe_known),
{
    let mut out: Vec<DirCandidate> = Vec::new();
    if exe_known {
        out.push(DirCandidate { base: Base::Executable, path: "data/pmu/cpu".to_owned() });
        out.push(DirCandidate { base: Base::Executable, path: "../data/pmu/cpu".to_owned() });
        out.push(DirCandidate { base: Base::Executable, path: "metrics".to_owned() });
    }
    out.push(DirCandidate { base: Base::Current, path: "data/pmu/cpu".to_owned() });
    out.push(DirCandidate { base: Base::Current, path: "metrics".to_owned() });
    assert(out.deep_view() =~= dir_candidates(exe_known));
    out
}

/// Whether it can be said of a directory that it holds a mapping, or not.
pub open spec fn said_of<H: Fn(&DirCandidate) -> bool>(
    has_mapping: H,
    dir: (Base, Seq<char>),
    holds: bool,
) -> bool {
    exists|c: DirCandidate|
        c.deep_view() == dir && #[trigger] call_ensures(has_mapping, (&c,), holds)
}

/// Whether a directory is the first of the candidates that holds a mapping.
pub open spec fn first_with_mapping<H: Fn(&DirCandidate) -> bool>(
    has_mapping: H,
    candidates: Seq<(Base, Seq<char>)>,
    dir: (Base, Seq<char>),
) -> bool {
    exists|i: int|
        0 <= i < candidates.len() && #[trigger] candidates[i] == dir && said_of(
            has_mapping,
            dir,
            true,
        ) && forall|j: int| 0 <= j < i ==> said_of(has_mapping, #[trigger] candidates[j], false)
}

/// Whether a directory is the first candidate that holds a mapping, or none
/// does.
pub open spec fn dir_found<H: Fn(&DirCandidate) -> bool>(
    has_mapping: H,
    exe_known: bool,
    found: Option<DirCandidate>,
) -> bool {
    match found {
        Some(dir) => first_with_mapping(has_mapping, dir_candidates(exe_known), dir.deep_view()),
        None => forall|i: int|
            0 <= i < dir_candidates(exe_known).len() ==> said_of(
                has_mapping,
                #[trigger] dir_candidates(exe_known)[i],
                false,
            ),
    }
}

/// The first directory that holds a mapping.
pub fn resolve_metrics_dir<H: Fn(&DirCandidate) -> bool>(
    exe_known: bool,
    has_mapping: &H,
) -> (found: Option<DirCandidate>)
    requires
        forall|c: DirCandidate| call_requires(*has_mapping, (&c,)),
    ensures
        dir_found(*has_mapping, exe_known, found),
{
    let mut rest = list_candidates(exe_known);
    let ghost all = dir_candidates(exe_known);
    assert(all.skip(0) =~= all);
    while rest.len() > 0
        invariant
            forall|c: DirCandidate| call_requires(*has_mapping, (&c,)),
            all == dir_candidates(exe_known),
            rest.len() <= all.len(),
            rest.deep_view() == all.skip(all.len() - rest.len()),
            forall|j: int|
                0 <= j < all.len() - rest.len() ==> said_of(
                    *has_mapping,
                    #[trigger] all[j],
                    false,
                ),
        decreases rest.len(),
    {
        let ghost done = all.len() - rest.len();
        let ghost before = rest.deep_view();
        let candidate = rest.remove(0);
        proof {
            assert(before[0] == candidate.deep_view());
            assert(all[done] == candidate.deep_view());
            assert(rest.deep_view() =~= before.remove(0));
            assert(rest.deep_view() =~= all.skip(done + 1));
        }
        let holds = has_mapping(&candidate);
        assert(said_of(*has_mapping, candidate.deep_view(), holds));
        if holds {
            assert(first_with_mapping(*has_mapping, all, candidate.deep_view()));
            return Some(candidate);
        }
    }
    None
}

/// The name of the specification of a CPU: that of its identification register,
/// or else that of its id.
pub open spec fn spec_name_for(mapping: Seq<(Seq<char>, CpuMapping)>, midr: u64) -> Option<
    Seq<char>,
> {
    match value_of(mapping, "0x"@ + hex_text(midr)) {
        Some(m) => Some(m.name@),
        None => match value_of(
            mapping,
            "0x"@ + hex_text((implementer_of(midr) * 0x1000 + part_of(midr)) as u64),
        ) {
            Some(m) => Some(m.name@),
            None => None,
        },
    }
}

fn hex_key(n: u64) -> (out: String)
    ensures
        out@ == "0x"@ + hex_text(n),
{
    let mut out = "0x".to_owned();
    out.append(to_hex(n).as_str());
    out
}

/// The file of the specification of a CPU.
pub fn choose_spec(mapping: &NameMap<CpuMapping>, midr: u64) -> (out: Option<String>)
    ensures
        match spec_name_for(mapping@, midr) {
            Some(name) => out matches Some(file) && file@ == name + ".json"@,
            None => out is None,
        },
{
    let found = match mapping.get(hex_key(midr).as_str()) {
        Some(m) => Some(m),
        None => mapping.get(hex_key(cpu_id_from_midr(midr)).as_str()),
    };
    match found {
        Some(m) => {
            let mut file = m.name.clone();
            file.append(".json");
            Some(file)
        },
        None => None,
    }
}

/// How the files of the machine are reached.
pub struct Machine<M, H, R, S> {
    /// The identification register of a core, or why it cannot be read.
    pub read_midr: M,
    /// Whether a directory holds a mapping.
    pub has_mapping: H,
    /// The mapping of a directory.
    pub read_mapping: R,
    /// A specification.
    pub read_spec: S,
}

/// Whether the machine has an answer to everything.
pub open spec fn machine_total<
    M: Fn(i32) -> Result<u64, String>,
    H: Fn(&DirCandidate) -> bool,
    R: Fn(&MetricsDir) -> MappingRead,
    S: Fn(&SpecFile) -> FileRead<TelemetrySpecification>,
>(machine: Machine<M, H, R, S>) -> bool {
    &&& forall|core: i32| call_requires(machine.read_midr, (core,))
    &&& forall|c: DirCandidate| call_requires(machine.has_mapping, (&c,))
    &&& forall|d: MetricsDir| call_requires(machine.read_mapping, (&d,))
    &&& forall|f: SpecFile| call_requires(machine.read_spec, (&f,))
}

/// Whether an outcome is what a file holds, if it is a valid specification, or
/// why it is none.
pub open spec fn file_loads(
    read: FileRead<TelemetrySpecification>,
    out: Result<TelemetrySpecification, LoadError>,
) -> bool {
    match read.parsed {
        Parsed::Value(spec) => match spec.fault() {
            None => out == Ok::<TelemetrySpecification, LoadError>(spec),
            Some(message) => out matches Err(LoadError::Spec(SpecError::Validation(m))) && m@
                == message,
        },
        _ => out matches Err(LoadError::Spec(e)) && loads(
            Err::<TelemetrySpecification, SpecError>(e),
            read.path@,
            read.parsed,
        ),
    }
}

/// Whether an outcome is that of loading a file.
pub open spec fn spec_loads<S: Fn(&SpecFile) -> FileRead<TelemetrySpecification>>(
    read_spec: S,
    file: SpecFile,
    out: Result<TelemetrySpecification, LoadError>,
) -> bool {
    exists|read: FileRead<TelemetrySpecification>| #[trigger]
        call_ensures(read_spec, (&file,), read) && file_loads(read, out)
}

/// Whether a file is that of a name in a directory.
pub open spec fn is_file_of(file: SpecFile, dir: MetricsDir, name: Seq<char>) -> bool {
    file matches SpecFile::InDir(d, n) && d == dir && n@ == name + ".json"@
}

/// Whether an outcome is that of loading the specification of a name.
pub open spec fn named_spec_loads<S: Fn(&SpecFile) -> FileRead<TelemetrySpecification>>(
    read_spec: S,
    dir: MetricsDir,
    name: Seq<char>,
    out: Result<TelemetrySpecification, LoadError>,
) -> bool {
    exists|file: SpecFile| #[trigger] is_file_of(file, dir, name) && spec_loads(read_spec, file, out)
}

/// Whether an outcome follows from what came of reading the mapping.
pub open spec fn mapping_leads<S: Fn(&SpecFile) -> FileRead<TelemetrySpecification>>(
    read_spec: S,
    dir: MetricsDir,
    midr: u64,
    read: MappingRead,
    out: Result<TelemetrySpecification, LoadError>,
) -> bool {
    match read {
        MappingRead::Absent(shown) => out matches Err(LoadError::NoMapping(d)) && d@ == shown@,
        MappingRead::Present(file) => match file.parsed {
            Parsed::Value(mapping) => match spec_name_for(mapping@, midr) {
                Some(name) => named_spec_loads(read_spec, dir, name, out),
                None => out matches Err(LoadError::NoSpec { midr: m, cpu_id }) && m == midr
                    && cpu_id == implementer_of(midr) * 0x1000 + part_of(midr),
            },
            _ => out matches Err(LoadError::Mapping(e)) && loads(
                Err::<NameMap<CpuMapping>, SpecError>(e),
                file.path@,
                file.parsed,
            ),
        },
    }
}

/// Whether an outcome is that of looking in a directory.
pub open spec fn dir_leads<
    R: Fn(&MetricsDir) -> MappingRead,
    S: Fn(&SpecFile) -> FileRead<TelemetrySpecification>,
>(
    read_mapping: R,
    read_spec: S,
    dir: MetricsDir,
    midr: u64,
    out: Result<TelemetrySpecification, LoadError>,
) -> bool {
    exists|read: MappingRead| #[trigger]
        call_ensures(read_mapping, (&dir,), read) && mapping_leads(read_spec, dir, midr, read, out)
}

/// Whether an outcome follows from the directory that was found.
pub open spec fn found_leads<
    R: Fn(&MetricsDir) -> MappingRead,
    S: Fn(&SpecFile) -> FileRead<TelemetrySpecification>,
>(
    read_mapping: R,
    read_spec: S,
    found: Option<DirCandidate>,
    midr: u64,
    out: Result<TelemetrySpecification, LoadError>,
) -> bool {
    match found {
        Some(dir) => dir_leads(read_mapping, read_spec, MetricsDir::Found(dir), midr, out),
        None => out matches Err(LoadError::NoMetricsDir),
    }
}

/// Whether an outcome is that of looking for the specification of a CPU, in
/// the directory that is given or else in the first that holds a mapping.
pub open spec fn midr_leads<
    M: Fn(i32) -> Result<u64, String>,
    H: Fn(&DirCandidate) -> bool,
    R: Fn(&MetricsDir) -> MappingRead,
    S: Fn(&SpecFile) -> FileRead<TelemetrySpecification>,
>(
    machine: Machine<M, H, R, S>,
    dir_given: bool,
    exe_known: bool,
    midr: u64,
    out: Result<TelemetrySpecification, LoadError>,
) -> bool {
    if dir_given {
        dir_leads(machine.read_mapping, machine.read_spec, MetricsDir::Given, midr, out)
    } else {
        exists|found: Option<DirCandidate>| #[trigger]
            dir_found(machine.has_mapping, exe_known, found) && found_leads(
                machine.read_mapping,
                machine.read_spec,
                found,
                midr,
                out,
            )
    }
}

/// Whether an outcome follows from what came of reading the identification
/// register.
pub open spec fn read_leads<
    M: Fn(i32) -> Result<u64, String>,
    H: Fn(&DirCandidate) -> bool,
    R: Fn(&MetricsDir) -> MappingRead,
    S: Fn(&SpecFile) -> FileRead<TelemetrySpecification>,
>(
    machine: Machine<M, H, R, S>,
    dir_given: bool,
    exe_known: bool,
    read: Result<u64, String>,
    out: Result<TelemetrySpecification, LoadError>,
) -> bool {
    match read {
        Ok(midr) => midr_leads(machine, dir_given, exe_known, midr, out),
        Err(reason) => out == Err::<TelemetrySpecification, LoadError>(LoadError::Midr(reason)),
    }
}

/// Whether an outcome is that of detecting the CPU by one of its cores.
pub open spec fn core_leads<
    M: Fn(i32) -> Result<u64, String>,
    H: Fn(&DirCandidate) -> bool,
    R: Fn(&MetricsDir) -> MappingRead,
    S: Fn(&SpecFile) -> FileRead<TelemetrySpecification>,
>(
    machine: Machine<M, H, R, S>,
    dir_given: bool,
    exe_known: bool,
    core: i32,
    out: Result<TelemetrySpecification, LoadError>,
) -> bool {
    exists|read: Result<u64, String>| #[trigger]
        call_ensures(machine.read_midr, (core,), read) && read_leads(
            machine,
            dir_given,
            exe_known,
            read,
            out,
        )
}

/// The core by which the CPU is detected: the first of those that are named,
/// or core 0.
pub open spec fn detection_core(core: Option<Seq<char>>) -> Result<i32, CoreError> {
    match core {
        None => Ok(0i32),
        Some(s) => match core_list(s) {
            Err(e) => Err(e),
            Ok(cores) => Ok(
                if cores.len() > 0 {
                    cores[0]
                } else {
                    0i32
                },
            ),
        },
    }
}

/// The specification that is given, or else that of the CPU, which is detected.
pub fn load_spec<
    M: Fn(i32) -> Result<u64, String>,
    H: Fn(&DirCandidate) -> bool,
    R: Fn(&MetricsDir) -> MappingRead,
    S: Fn(&SpecFile) -> FileRead<TelemetrySpecification>,
>(
    cli: &Cli,
    spec_given: bool,
    dir_given: bool,
    exe_known: bool,
    machine: &Machine<M, H, R, S>,
) -> (out: Result<TelemetrySpecification, LoadError>)
    requires
        machine_total(*machine),
    ensures
        if spec_given {
            spec_loads(machine.read_spec, SpecFile::Given, out)
        } else {
            match detection_core(
                match cli.core {
                    Some(s) => Some(s@),
                    None => None,
                },
            ) {
                Err(e) => out matches Err(LoadError::Core(error)) && error == e,
                Ok(core) => core_leads(*machine, dir_given, exe_known, core, out),
            }
        },
{
    if spec_given {
        return load_file(SpecFile::Given, machine);
    }
    let core: i32 = match &cli.core {
        None => 0,
        Some(s) => match parse_core_list(s.as_str()) {
            Ok(cores) => if cores.len() > 0 {
                cores[0]
            } else {
                0
            },
            Err(e) => {
                return Err(LoadError::Core(e));
            },
        },
    };
    let read = (machine.read_midr)(core);
    assert(call_ensures(machine.read_midr, (core,), read));
    let midr = match read {
        Ok(midr) => midr,
        Err(reason) => {
            return Err(LoadError::Midr(reason));
        },
    };
    let dir = if dir_given {
        MetricsDir::Given
    } else {
        let found = resolve_metrics_dir(exe_known, &machine.has_mapping);
        assert(dir_found(machine.has_mapping, exe_known, found));
        match found {
            Some(candidate) => MetricsDir::Found(candidate),
            None => {
                return Err(LoadError::NoMetricsDir);
            },
        }
    };
    let out = load_detected(dir, midr, machine);
    assert(dir_leads(machine.read_mapping, machine.read_spec, dir, midr, out));
    out
}

/// Loads a file.
fn load_file<
    M: Fn(i32) -> Result<u64, String>,
    H: Fn(&DirCandidate) -> bool,
    R: Fn(&MetricsDir) -> MappingRead,
    S: Fn(&SpecFile) -> FileRead<TelemetrySpecification>,
>(file: SpecFile, machine: &Machine<M, H, R, S>) -> (out: Result<
    TelemetrySpecification,
    LoadError,
>)
    requires
        machine_total(*machine),
    ensures
        spec_loads(machine.read_spec, file, out),
{
    let read = (machine.read_spec)(&file);
    assert(call_ensures(machine.read_spec, (&file,), read));
    let path = read.path;
    match TelemetrySpecification::load_from_file(path.as_str(), read.parsed) {
        Ok(spec) => Ok(spec),
        Err(e) => Err(LoadError::Spec(e)),
    }
}

/// Loads the specification of a CPU from a directory.
fn load_detected<
    M: Fn(i32) -> Result<u64, String>,
    H: Fn(&DirCandidate) -> bool,
    R: Fn(&MetricsDir) -> MappingRead,
    S: Fn(&SpecFile) -> FileRead<TelemetrySpecification>,
>(dir: MetricsDir, midr: u64, machine: &Machine<M, H, R, S>) -> (out: Result<
    TelemetrySpecification,
    LoadError,
>)
    requires
        machine_total(*machine),
    ensures
        dir_leads(machine.read_mapping, machine.read_spec, dir, midr, out),
{
    let read = (machine.read_mapping)(&dir);
    assert(call_ensures(machine.read_mapping, (&dir,), read));
    let file = match read {
        MappingRead::Absent(shown) => {
            return Err(LoadError::NoMapping(shown));
        },
        MappingRead::Present(file) => file,
    };
    let path = file.path;
    let mapping = match load_cpu_mapping(path.as_str(), file.parsed) {
        Ok(mapping) => mapping,
        Err(e) => {
            return Err(LoadError::Mapping(e));
        },
    };
    match choose_spec(&mapping, midr) {
        Some(name) => {
            let spec_file = SpecFile::InDir(dir, name);
            assert(is_file_of(spec_file, dir, spec_name_for(mapping@, midr)->0));
            load_file(spec_file, machine)
        },
        None => Err(LoadError::NoSpec { midr, cpu_id: cpu_id_from_midr(midr) }),
    }
}

// ─── Which events are captured ───────────────────────────────────────────────

/// Filtering and mapping at once keeps what has an image, in its order.
pub(crate) proof fn lemma_filter_map<A, B>(
    s: Seq<A>,
    f: spec_fn(A) -> Option<B>,
    keep: spec_fn(A) -> bool,
)
    requires
        forall|a: A| #[trigger] keep(a) == (f(a) is Some),
    ensures
        s.filter_map(f).len() == s.filter(keep).len(),
        forall|k: int|
            0 <= k < s.filter(keep).len() ==> f(#[trigger] s.filter(keep)[k]) == Some(
                s.filter_map(f)[k],
            ),
    decreases s.len(),
{
    reveal(Seq::filter);
    if s.len() > 0 {
        let front = s.drop_last();
        let last = match f(s.last()) {
            Some(b) => seq![b],
            None => Seq::empty(),
        };
        lemma_filter_map(front, f, keep);
        assert(s.filter_map(f) =~= front.filter_map(f) + last);
        assert(s =~= front.push(s.last()));
        front.lemma_filter_push(s.last(), keep);
        assert(keep(s.last()) == (f(s.last()) is Some));
        assert forall|k: int| 0 <= k < s.filter(keep).len() implies f(
            #[trigger] s.filter(keep)[k],
        ) == Some(s.filter_map(f)[k]) by {
            if k < front.filter(keep).len() {
                assert(s.filter(keep)[k] == front.filter(keep)[k]);
            }
        }
    }
}

/// Of the events of a group those that the database has are resolved, in their
/// order, and each has the name and the code that the database has for it.
pub proof fn law_events_resolved(
    db: &TelemetryDatabase,
    round: &Vec<Vec<String>>,
    out: Vec<Vec<EventConfig>>,
    kept: Names,
    g: int,
    k: int,
    i: int,
)
    requires
        call_ensures(resolve_events, (db, round), out),
        names_distinct(db.events@),
        0 <= g < round.len(),
        kept == round.deep_view()[g].filter(
            |name: Seq<char>|
                exists|j: int| 0 <= j < db.events@.len() && (#[trigger] db.events@[j]).0 == name,
        ),
        0 <= k < kept.len(),
        0 <= i < db.events@.len(),
        db.events@[i].0 == kept[k],
    ensures
        out.len() == round.len(),
        out@[g].len() == kept.len(),
        out@[g]@[k].name@ == db.events@[i].1.name@,
        out@[g]@[k].code == db.events@[i].1.code,
{
    lemma_configs(*db, round.deep_view()[g], kept);
    let deep = out.deep_view();
    assert(deep.len() == out.len());
    assert(deep[g] == configs_of(*db, round.deep_view()[g]));
    assert(deep[g] == out@[g].deep_view());
    assert(deep[g].len() == out@[g].len());
    assert(deep[g][k] == out@[g]@[k].deep_view());
    lemma_value_at(db.events@, i);
}

proof fn lemma_configs(db: TelemetryDatabase, names: Names, kept: Names)
    requires
        kept == names.filter(
            |name: Seq<char>|
                exists|j: int| 0 <= j < db.events@.len() && (#[trigger] db.events@[j]).0 == name,
        ),
    ensures
        configs_of(db, names).len() == kept.len(),
        forall|k: int|
            0 <= k < kept.len() ==> config_of(db, #[trigger] kept[k]) == Some(
                configs_of(db, names)[k],
            ),
{
    let keep = |name: Seq<char>|
        exists|j: int| 0 <= j < db.events@.len() && (#[trigger] db.events@[j]).0 == name;
    let f = |name: Seq<char>| config_of(db, name);
    assert forall|name: Seq<char>| #[trigger] keep(name) == (f(name) is Some) by {
        assert(keep(name) == has_name(db.events@, name));
    }
    lemma_filter_map(names, f, keep);
}

/// An event that is planned is an event of the database, with its name and its
/// code.
pub proof fn law_planned_codes(
    db: &TelemetryDatabase,
    cli: &Cli,
    max_events: usize,
    out: Result<CapturePlan, PlanError>,
    r: int,
    g: int,
    k: int,
)
    requires
        call_ensures(plan_capture, (db, cli, max_events), out),
        out matches Ok(plan) && 0 <= r < plan.rounds.len() && 0 <= g < plan.rounds@[r].len() && 0
            <= k < plan.rounds@[r]@[g].len(),
    ensures
        exists|i: int|
            0 <= i < db.events@.len() && (#[trigger] db.events@[i]).1.name@
                == out->Ok_0.rounds@[r]@[g]@[k].name@ && db.events@[i].1.code
                == out->Ok_0.rounds@[r]@[g]@[k].code,
{
    let plan = out->Ok_0;
    let stages = stages_named(lowercase_of(cli.stages@))->0;
    let chosen = choose|chosen: Result<Vec<GroupLike>, PlanError>| #[trigger]
        asked_groups(*db, *cli, stages, chosen) && plan_follows(
            *db,
            *cli,
            chosen,
            max_events as nat,
            out,
        );
    let groups = chosen->Ok_0.deep_view();
    let merged = schedule_of(
        event_tuples_of(*db, groups),
        strategy_asked(*cli),
        max_events as nat,
    )->Ok_0;
    let rounds = planned_rounds(merged, max_events as nat, !cli.no_multiplex);
    let deep = plan.rounds.deep_view();
    assert(deep.len() == plan.rounds.len());
    assert(deep.len() == rounds.len());
    assert(deep[r] == round_configs(*db, rounds[r]));
    assert(deep[r] == plan.rounds@[r].deep_view());
    assert(deep[r][g] == configs_of(*db, rounds[r][g]));
    assert(deep[r][g] == plan.rounds@[r]@[g].deep_view());
    assert(deep[r][g][k] == plan.rounds@[r]@[g]@[k].deep_view());
    let f = |name: Seq<char>| config_of(*db, name);
    let config = deep[r][g][k];
    assert(deep[r][g].contains(config));
    rounds[r][g].lemma_filter_map_contains(f, config);
    let name = choose|name: Seq<char>| #[trigger] rounds[r][g].contains(name) && f(name) == Some(config);
    let i = law_value_found(db.events@, name);
    assert(db.events@[i].1.code == config.1);
}

/// Every event of every metric of a group that is asked for is planned, with
/// the name and the code that the database has for it.
pub proof fn law_planned_events(
    db: &TelemetryDatabase,
    cli: &Cli,
    max_events: usize,
    out: Result<CapturePlan, PlanError>,
    g: int,
    names: Vec<String>,
    n: int,
    m: int,
    e: int,
    i: int,
)
    requires
        call_ensures(plan_capture, (db, cli, max_events), out),
        out is Ok,
        names_distinct(db.metrics@),
        names_distinct(db.events@),
        0 <= g < out->Ok_0.groups.len(),
        call_ensures(GroupLike::metric_names, (&out->Ok_0.groups@[g], db), names),
        0 <= n < names.len(),
        0 <= m < db.metrics@.len(),
        db.metrics@[m].0 == names@[n]@,
        0 <= e < db.metrics@[m].1.event_names.len(),
        0 <= i < db.events@.len(),
        db.events@[i].0 == db.metrics@[m].1.event_names@[e]@,
    ensures
        exists|r: int, h: int, k: int|
            0 <= r < out->Ok_0.rounds.len() && 0 <= h < out->Ok_0.rounds@[r].len() && 0 <= k
                < out->Ok_0.rounds@[r]@[h].len() && (
            #[trigger] out->Ok_0.rounds@[r]@[h]@[k]).name@ == db.events@[i].1.name@
                && out->Ok_0.rounds@[r]@[h]@[k].code == db.events@[i].1.code,
{
    let plan = out->Ok_0;
    let stages = stages_named(lowercase_of(cli.stages@))->0;
    let chosen = choose|chosen: Result<Vec<GroupLike>, PlanError>| #[trigger]
        asked_groups(*db, *cli, stages, chosen) && plan_follows(
            *db,
            *cli,
            chosen,
            max_events as nat,
            out,
        );
    let groups = chosen->Ok_0.deep_view();
    let metric = names.deep_view()[n];
    let name = db.metrics@[m].1.event_names.deep_view()[e];
    assert(plan.groups.deep_view() == groups);
    assert(groups[g] == plan.groups@[g].deep_view());
    lemma_value_at(db.metrics@, m);
    lemma_value_at(db.events@, i);
    assert(names.deep_view().contains(metric));
    assert(db.metrics@[m].1.event_names.deep_view().contains(name));
    law_plan_covers(
        *db,
        groups,
        strategy_asked(*cli),
        max_events as nat,
        !cli.no_multiplex,
        plan,
        g,
        metric,
        name,
    );
    let config = config_of(*db, name)->0;
    let deep = plan.rounds.deep_view();
    let (r, h) = choose|r: int, h: int|
        0 <= r < deep.len() && 0 <= h < deep[r].len() && #[trigger] deep[r][h].contains(config);
    let k = deep[r][h].index_of(config);
    assert(deep[r][h] == plan.rounds@[r]@[h].deep_view());
    assert(deep[r][h][k] == plan.rounds@[r]@[h]@[k].deep_view());
}

/// What is planned keeps within the counters: no round has more different
/// events than there are counters.
pub proof fn law_planned_rounds(
    db: &TelemetryDatabase,
    cli: &Cli,
    max_events: usize,
    out: Result<CapturePlan, PlanError>,
    r: int,
)
    requires
        call_ensures(plan_capture, (db, cli, max_events), out),
        out is Ok,
        0 <= r < out->Ok_0.rounds.len(),
    ensures
        out->Ok_0.rounds.deep_view()[r].flatten().to_set().len() <= max_events,
        cli.no_multiplex ==> out->Ok_0.rounds.len() <= 1,
{
    let stages = stages_named(lowercase_of(cli.stages@))->0;
    let chosen = choose|chosen: Result<Vec<GroupLike>, PlanError>| #[trigger]
        asked_groups(*db, *cli, stages, chosen) && plan_follows(
            *db,
            *cli,
            chosen,
            max_events as nat,
            out,
        );
    let groups = chosen->Ok_0.deep_view();
    assert(out->Ok_0.rounds.deep_view().len() == out->Ok_0.rounds.len());
    law_plan_fits(
        *db,
        groups,
        strategy_asked(*cli),
        max_events as nat,
        !cli.no_multiplex,
        out->Ok_0,
        r,
    );
}

// ─── Which groups are captured ───────────────────────────────────────────────

/// The groups that are asked for by name are captured, whole and in order, if
/// all of them exist.
pub proof fn law_named_groups(
    db: &TelemetryDatabase,
    metric_groups: &Vec<String>,
    node: Option<&str>,
    stages: &Vec<usize>,
    out: Result<Vec<GroupLike>, PlanError>,
)
    requires
        call_ensures(build_capture_groups, (db, metric_groups, node, stages), out),
        metric_groups.len() > 0,
    ensures
        (forall|i: int|
            0 <= i < metric_groups.len() ==> looked_up(
                db.group_normalized.deep_view(),
                db.groups@,
                (#[trigger] metric_groups@[i])@,
            ) is Some) ==> (out matches Ok(groups) && groups.len() == metric_groups.len()
            && forall|i: int|
            0 <= i < groups.len() ==> ((#[trigger] groups@[i]) matches GroupLike::Full(name)
                && name@ == metric_groups@[i]@)),
        forall|i: int|
            0 <= i < metric_groups.len() && looked_up(
                db.group_normalized.deep_view(),
                db.groups@,
                (#[trigger] metric_groups@[i])@,
            ) is None && (forall|j: int|
                0 <= j < i ==> looked_up(
                    db.group_normalized.deep_view(),
                    db.groups@,
                    (#[trigger] metric_groups@[j])@,
                ) is Some) ==> (out matches Err(PlanError::UnknownGroup(name)) && name@
                == metric_groups@[i]@),
{
    let names = metric_groups.deep_view();
    assert(names.len() == metric_groups.len());
    assert(forall|i: int|
        0 <= i < names.len() ==> #[trigger] names[i] == (#[trigger] metric_groups@[i])@);
    match out {
        Ok(groups) => {
            let deep = groups.deep_view();
            assert(deep.len() == groups.len());
            assert forall|i: int| 0 <= i < groups.len() implies ((
            #[trigger] groups@[i]) matches GroupLike::Full(name) && name@
                == metric_groups@[i]@) by {
                assert(deep[i] == groups@[i].deep_view());
                assert(deep[i] == GroupChoice::Full(names[i]));
            }
            assert forall|i: int| 0 <= i < metric_groups.len() implies looked_up(
                db.group_normalized.deep_view(),
                db.groups@,
                (#[trigger] metric_groups@[i])@,
            ) is Some by {
                assert(group_exists(*db, names[i]));
            }
        },
        Err(PlanError::UnknownGroup(name)) => {
            let k = choose|k: int|
                0 <= k < names.len() && #[trigger] names[k] == name@ && !group_exists(*db, name@)
                    && forall|j: int| 0 <= j < k ==> group_exists(*db, #[trigger] names[j]);
            assert(looked_up(
                db.group_normalized.deep_view(),
                db.groups@,
                metric_groups@[k]@,
            ) is None);
            assert forall|i: int|
                0 <= i < metric_groups.len() && looked_up(
                    db.group_normalized.deep_view(),
                    db.groups@,
                    (#[trigger] metric_groups@[i])@,
                ) is None && (forall|j: int|
                    0 <= j < i ==> looked_up(
                        db.group_normalized.deep_view(),
                        db.groups@,
                        (#[trigger] metric_groups@[j])@,
                    ) is Some) implies name@ == metric_groups@[i]@ by {
                if i < k {
                    assert(group_exists(*db, names[i]));
                }
            }
        },
        Err(_) => {},
    }
}

/// Without named groups, a node has its own group captured, and behind it those
/// of its next items that are groups, in their order.
pub proof fn law_node_groups(
    db: &TelemetryDatabase,
    metric_groups: &Vec<String>,
    name: &str,
    stages: &Vec<usize>,
    out: Result<Vec<GroupLike>, PlanError>,
    found: Option<&TopdownNode>,
    further: Seq<Seq<char>>,
)
    requires
        call_ensures(build_capture_groups, (db, metric_groups, Some(name), stages), out),
        call_ensures(TopdownMethodology::find_node, (&db.topdown, name), found),
        metric_groups.len() == 0,
        found matches Some(node) ==> further == node.next_items.deep_view().filter(
            |item: Seq<char>|
                exists|j: int| 0 <= j < db.groups@.len() && (#[trigger] db.groups@[j]).0 == item,
        ),
    ensures
        found matches Some(node) ==> (out matches Ok(groups) && groups.len() == 1 + further.len()
            && (groups@[0] matches GroupLike::Full(n) && n@ == node.group_name@) && forall|i: int|
            1 <= i < groups.len() ==> ((#[trigger] groups@[i]) matches GroupLike::Full(n) && n@
                == further[i - 1])),
        found is None ==> (out matches Err(PlanError::UnknownNode(n)) && n@ == name@),
{
    if let Some(node) = found {
        let groups = out->Ok_0;
        let items = node.next_items.deep_view();
        let keep = |item: Seq<char>| has_name(db.groups@, item);
        let also = |item: Seq<char>|
            exists|j: int| 0 <= j < db.groups@.len() && (#[trigger] db.groups@[j]).0 == item;
        assert(keep =~= also) by {
            assert forall|item: Seq<char>| keep(item) == #[trigger] also(item) by {}
        }
        let deep = groups.deep_view();
        assert(deep == seq![GroupChoice::Full(node.group_name@)] + whole_groups(further));
        assert(deep.len() == groups.len());
        assert(deep[0] == groups@[0].deep_view());
        assert forall|i: int| 1 <= i < groups.len() implies ((
        #[trigger] groups@[i]) matches GroupLike::Full(n) && n@ == further[i - 1]) by {
            assert(deep[i] == groups@[i].deep_view());
            assert(deep[i] == whole_groups(further)[i - 1]);
        }
    }
}

/// Without named groups and without a node, the groups of the stages that are
/// asked for are captured, in their order and those of the first stage first.
pub proof fn law_stage_groups(
    db: &TelemetryDatabase,
    metric_groups: &Vec<String>,
    stages: &Vec<usize>,
    out: Result<Vec<GroupLike>, PlanError>,
    first: Names,
    second: Names,
    i: int,
)
    requires
        call_ensures(build_capture_groups, (db, metric_groups, None::<&str>, stages), out),
        metric_groups.len() == 0,
        first == if stages@.contains(1) {
            db.topdown.stage_1_group_names.deep_view()
        } else {
            Seq::empty()
        },
        second == if stages@.contains(2) {
            db.topdown.stage_2_group_names.deep_view()
        } else {
            Seq::empty()
        },
    ensures
        out matches Ok(groups) && groups.len() == first.len() + second.len() && (0 <= i
            < groups.len() ==> (groups@[i] matches GroupLike::Full(n) && n@ == (first + second)[i])),
{
    let groups = out->Ok_0;
    let deep = groups.deep_view();
    assert(deep.len() == groups.len());
    assert(deep =~= whole_groups(first + second));
    if 0 <= i < groups.len() {
        assert(deep[i] == groups@[i].deep_view());
    }
}

/// The texts that ask for stages, and the stages that they ask for; any other
/// ASCII text is refused.
pub proof fn law_stages_asked(s: &str, out: Result<Vec<usize>, PlanError>, small: Seq<char>)
    requires
        call_ensures(parse_stages, (s,), out),
        is_ascii_chars(s@),
        small == ascii_lowered(s@),
    ensures
        small == seq!['1'] ==> (out matches Ok(stages) && stages@ == seq![1usize]),
        small == seq!['2'] ==> (out matches Ok(stages) && stages@ == seq![2usize]),
        small == seq!['1', ',', '2'] || small == seq!['2', ',', '1'] || small == seq!['a', 'l', 'l']
            || small == seq!['c', 'o', 'm', 'b', 'i', 'n', 'e', 'd'] ==> (out matches Ok(stages)
            && stages@ == seq![1usize, 2usize]),
        out is Ok ==> small == seq!['1'] || small == seq!['2'] || small == seq!['1', ',', '2']
            || small == seq!['2', ',', '1'] || small == seq!['a', 'l', 'l'] || small == seq![
            'c',
            'o',
            'm',
            'b',
            'i',
            'n',
            'e',
            'd',
        ],
        out matches Err(e) ==> (e matches PlanError::Stages(text) && text@ == s@),
{
    reveal_strlit("1");
    reveal_strlit("2");
    reveal_strlit("all");
    reveal_strlit("1,2");
    reveal_strlit("2,1");
    reveal_strlit("combined");
    assert("1"@ =~= seq!['1']);
    assert("2"@ =~= seq!['2']);
    assert("all"@ =~= seq!['a', 'l', 'l']);
    assert("1,2"@ =~= seq!['1', ',', '2']);
    assert("2,1"@ =~= seq!['2', ',', '1']);
    assert("combined"@ =~= seq!['c', 'o', 'm', 'b', 'i', 'n', 'e', 'd']);
    assert(seq!['1', ',', '2'].len() == 3);
    assert(seq!['2', ',', '1'].len() == 3);
    assert(seq!['a', 'l', 'l'].len() == 3);
    assert(seq!['c', 'o', 'm', 'b', 'i', 'n', 'e', 'd'].len() == 8);
    assert(seq!['1'][0] != seq!['2'][0]);
}

/// What is planned are the groups that are asked for: a call for the groups and
/// a call for the plan agree, in what they give and in what they refuse.
pub proof fn law_planned_groups(
    db: &TelemetryDatabase,
    cli: &Cli,
    max_events: usize,
    out: Result<CapturePlan, PlanError>,
    split: Vec<String>,
    stages: Vec<usize>,
    node: Option<&str>,
    chosen: Result<Vec<GroupLike>, PlanError>,
)
    requires
        call_ensures(plan_capture, (db, cli, max_events), out),
        call_ensures(split_groups, (&cli.metric_group,), split),
        stages_named(lowercase_of(cli.stages@)) == Some(stages@),
        match node {
            Some(name) => cli.node matches Some(asked) && asked@ == name@,
            None => cli.node is None,
        },
        call_ensures(build_capture_groups, (db, &split, node, &stages), chosen),
    ensures
        out matches Ok(plan) ==> (chosen matches Ok(groups) && plan.groups.deep_view()
            == groups.deep_view()),
        chosen matches Err(refused) ==> (out matches Err(e) && match refused {
            PlanError::UnknownGroup(name) => e matches PlanError::UnknownGroup(n) && n@ == name@,
            PlanError::UnknownNode(name) => e matches PlanError::UnknownNode(n) && n@ == name@,
            _ => true,
        }),
        chosen is Ok && out is Err ==> out->Err_0 is Schedule,
{
    let same = choose|same: Result<Vec<GroupLike>, PlanError>| #[trigger]
        asked_groups(*db, *cli, stages@, same) && plan_follows(
            *db,
            *cli,
            same,
            max_events as nat,
            out,
        );
    let names = split.deep_view();
    if names.len() > 0 {
        match (same, chosen) {
            (Err(PlanError::UnknownGroup(a)), Err(PlanError::UnknownGroup(b))) => {
                lemma_first_unknown(*db, names, a@, b@);
            },
            (Ok(_), Err(PlanError::UnknownGroup(b))) => {
                lemma_first_unknown(*db, names, b@, b@);
            },
            (Err(PlanError::UnknownGroup(a)), Ok(_)) => {
                lemma_first_unknown(*db, names, a@, a@);
            },
            _ => {},
        }
    }
}

/// The first unknown name is the only one, and exists where one is reported.
proof fn lemma_first_unknown(
    db: TelemetryDatabase,
    names: Seq<Seq<char>>,
    a: Seq<char>,
    b: Seq<char>,
)
    requires
        first_unknown(db, names, a),
        first_unknown(db, names, b),
    ensures
        a == b,
        exists|i: int| 0 <= i < names.len() && !group_exists(db, #[trigger] names[i]),
{
    let i = choose|i: int|
        0 <= i < names.len() && #[trigger] names[i] == a && !group_exists(db, a) && forall|j: int|
            0 <= j < i ==> group_exists(db, #[trigger] names[j]);
    let k = choose|k: int|
        0 <= k < names.len() && #[trigger] names[k] == b && !group_exists(db, b) && forall|j: int|
            0 <= j < k ==> group_exists(db, #[trigger] names[j]);
    if i < k {
        assert(group_exists(db, names[i]));
    } else if k < i {
        assert(group_exists(db, names[k]));
    }
}

/// The metric groups that the command line names are the parts of its values
/// between commas, one value after another.
pub proof fn law_groups_split(values: &Vec<String>, out: Vec<String>, parts: Seq<Seq<Seq<char>>>)
    requires
        call_ensures(split_groups, (values,), out),
        parts.len() == values.len(),
        forall|i: int|
            0 <= i < parts.len() ==> (#[trigger] parts[i]).len() > 0 && values@[i]@ == glued(
                parts[i],
                ',',
            ) && forall|k: int|
                0 <= k < parts[i].len() ==> !(#[trigger] parts[i][k]).contains(','),
    ensures
        out.deep_view() == parts.flatten(),
{
    let all = values.deep_view();
    let f = |value: Seq<char>| split_on(value, ',');
    assert(all.map_values(f) =~= parts) by {
        assert forall|i: int| 0 <= i < parts.len() implies all.map_values(f)[i] == parts[i] by {
            assert(parts[i].len() > 0);
            assert(all[i] == values@[i]@);
            law_split(parts[i], ',');
        }
    }
}

/// For each group, and for each of its metrics that exists, the events of the
/// metric are to be collected.
pub proof fn law_event_tuples(
    db: &TelemetryDatabase,
    groups: &Vec<GroupLike>,
    out: Vec<Vec<Vec<String>>>,
    g: int,
    names: Vec<String>,
    kept: Names,
    k: int,
    i: int,
)
    requires
        call_ensures(event_tuples, (db, groups), out),
        names_distinct(db.metrics@),
        0 <= g < groups.len(),
        call_ensures(GroupLike::metric_names, (&groups@[g], db), names),
        kept == names.deep_view().filter(
            |name: Seq<char>|
                exists|j: int| 0 <= j < db.metrics@.len() && (#[trigger] db.metrics@[j]).0 == name,
        ),
        0 <= k < kept.len(),
        0 <= i < db.metrics@.len(),
        db.metrics@[i].0 == kept[k],
    ensures
        out.len() == groups.len(),
        out@[g].len() == kept.len(),
        out@[g]@[k].deep_view() == db.metrics@[i].1.event_names.deep_view(),
{
    let f = |name: Seq<char>|
        match value_of(db.metrics@, name) {
            Some(metric) => Some(metric.event_names.deep_view()),
            None => None,
        };
    let keep = |name: Seq<char>|
        exists|j: int| 0 <= j < db.metrics@.len() && (#[trigger] db.metrics@[j]).0 == name;
    assert forall|name: Seq<char>| #[trigger] keep(name) == (f(name) is Some) by {
        assert(keep(name) == has_name(db.metrics@, name));
    }
    lemma_filter_map(names.deep_view(), f, keep);
    let deep = out.deep_view();
    assert(deep.len() == out.len());
    assert(groups.deep_view()[g] == groups@[g].deep_view());
    assert(deep[g] == names.deep_view().filter_map(f));
    assert(deep[g] == out@[g].deep_view());
    assert(deep[g][k] == out@[g]@[k].deep_view());
    lemma_value_at(db.metrics@, i);
}

// ─── Which cores are monitored ───────────────────────────────────────────────

/// Two numbers with `-` between them, white space or not around each, stand for
/// all cores from the first to the second.
pub proof fn law_core_range(
    a: Seq<char>,
    start: i32,
    b: Seq<char>,
    c: Seq<char>,
    end: i32,
    d: Seq<char>,
    k: int,
)
    requires
        start >= 0,
        forall|i: int| 0 <= i < a.len() ==> white_space(#[trigger] a[i]),
        forall|i: int| 0 <= i < b.len() ==> white_space(#[trigger] b[i]),
        forall|i: int| 0 <= i < c.len() ==> white_space(#[trigger] c[i]),
        forall|i: int| 0 <= i < d.len() ==> white_space(#[trigger] d[i]),
    ensures
        part_cores(
            a + (signed_text(start as int) + b + seq!['-'] + (c + signed_text(end as int))) + d,
        ) matches Ok(cores) && cores.len() == (if start <= end {
            end - start + 1
        } else {
            0
        }) && (0 <= k < cores.len() ==> cores[k] == start + k),
{
    let (x, y) = (signed_text(start as int), signed_text(end as int));
    lemma_bare_number(start);
    lemma_bare_number(end);
    let front = x + b;
    let back = c + y;
    let core = front + seq!['-'] + back;
    assert(core[0] == x[0]);
    assert(core.last() == y.last());
    law_trimmed(a, core, d);
    assert(!front.contains('-')) by {
        if front.contains('-') {
            let i = front.index_of('-');
            if i < x.len() {
                assert(x[i] != '-');
            } else {
                assert(white_space(b[i - x.len()]));
            }
        }
    }
    law_first_of(front, '-', back);
    assert(core.take(front.len() as int) =~= front);
    assert(core.skip(front.len() as int + 1) =~= back);
    law_trimmed(Seq::empty(), x, b);
    assert(Seq::empty() + x + b =~= front);
    law_trimmed(c, y, Seq::empty());
    assert(c + y + Seq::empty() =~= back);
    law_signed_round_trip(start);
    law_signed_round_trip(end);
}

/// The text of a number has no white space, and a `-` only in front.
proof fn lemma_bare_number(n: i32)
    ensures
        signed_text(n as int).len() > 0,
        forall|i: int|
            0 <= i < signed_text(n as int).len() ==> !white_space(
                #[trigger] signed_text(n as int)[i],
            ) && (n >= 0 ==> signed_text(n as int)[i] != '-'),
{
    let m = if n < 0 {
        -(n as int)
    } else {
        n as int
    } as nat;
    law_numeral(m, 10);
    let text = signed_text(n as int);
    assert forall|i: int| 0 <= i < text.len() implies !white_space(#[trigger] text[i]) && (n >= 0
        ==> text[i] != '-') by {
        if n < 0 {
            if i > 0 {
                assert(is_figure(numeral(m, 10)[i - 1], 10));
                assert(text[i] == numeral(m, 10)[i - 1]);
            }
        } else {
            assert(is_figure(numeral(m, 10)[i], 10));
        }
    }
}

/// A number by itself stands for that core.
pub proof fn law_single_core(a: Seq<char>, core: i32, b: Seq<char>)
    requires
        core >= 0,
        forall|i: int| 0 <= i < a.len() ==> white_space(#[trigger] a[i]),
        forall|i: int| 0 <= i < b.len() ==> white_space(#[trigger] b[i]),
    ensures
        part_cores(a + signed_text(core as int) + b) == Ok::<Seq<i32>, CoreError>(seq![core]),
{
    let x = signed_text(core as int);
    lemma_bare_number(core);
    law_trimmed(a, x, b);
    assert(!x.contains('-'));
    law_first_of(x, '-', Seq::empty());
    law_signed_round_trip(core);
}

/// A part with a `-` in it can fail as a range, and one without as a number,
/// for the reason that an end of it or all of it is no number.
pub proof fn law_core_faults(text: Seq<char>, front: Seq<char>, back: Seq<char>)
    requires
        text.len() > 0 ==> !white_space(text[0]) && !white_space(text.last()),
        !text.contains('-'),
        !front.contains('-'),
        front.len() > 0 ==> !white_space(front[0]) && !white_space(front.last()),
        back.len() > 0 ==> !white_space(back[0]) && !white_space(back.last()),
    ensures
        small_integer(text) matches Err(e) ==> part_cores(text) == Err::<Seq<i32>, CoreError>(
            CoreError::Number(e),
        ),
        small_integer(front) matches Err(e) ==> part_cores(front + seq!['-'] + back) == Err::<
            Seq<i32>,
            CoreError,
        >(CoreError::Range(e)),
        small_integer(front) is Ok ==> (small_integer(back) matches Err(e) ==> part_cores(
            front + seq!['-'] + back,
        ) == Err::<Seq<i32>, CoreError>(CoreError::Range(e))),
{
    let none = Seq::<char>::empty();
    law_trimmed(none, text, none);
    assert(none + text + none =~= text);
    law_first_of(text, '-', none);
    let core = front + seq!['-'] + back;
    law_trimmed(none, core, none);
    assert(none + core + none =~= core);
    law_first_of(front, '-', back);
    assert(core.take(front.len() as int) =~= front);
    assert(core.skip(front.len() as int + 1) =~= back);
    law_trimmed(none, front, none);
    assert(none + front + none =~= front);
    law_trimmed(none, back, none);
    assert(none + back + none =~= back);
}

/// A list of cores gives all cores that the parts between its commas stand for,
/// in ascending order and each once; a part that stands for none is reported,
/// the first of them.
pub proof fn law_cores_listed(
    s: &str,
    out: Result<Vec<i32>, CoreError>,
    parts: Seq<Seq<char>>,
    core: i32,
    k: int,
)
    requires
        call_ensures(parse_core_list, (s,), out),
        parts.len() > 0,
        forall|i: int| 0 <= i < parts.len() ==> !(#[trigger] parts[i]).contains(','),
        s@ == glued(parts, ','),
    ensures
        (forall|i: int| 0 <= i < parts.len() ==> part_cores(#[trigger] parts[i]) is Ok) ==> (
        out matches Ok(cores) && (forall|i: int, j: int|
            0 <= i < j < cores.len() ==> cores@[i] < cores@[j]) && (cores@.contains(core)
            <==> exists|i: int|
            0 <= i < parts.len() && (part_cores(#[trigger] parts[i]) matches Ok(named)
                && named.contains(core)))),
        0 <= k < parts.len() && part_cores(parts[k]) is Err && (forall|i: int|
            0 <= i < k ==> part_cores(#[trigger] parts[i]) is Ok) ==> (out matches Err(e)
            && part_cores(parts[k]) == Err::<Seq<i32>, CoreError>(e)),
{
    law_split(parts, ',');
    if forall|i: int| 0 <= i < parts.len() ==> part_cores(#[trigger] parts[i]) is Ok {
        lemma_parts_read(parts);
        law_core_list(s@, core);
        let cores = out->Ok_0;
        assert forall|i: int, j: int| 0 <= i < j < cores.len() implies cores@[i] < cores@[j] by {
            assert(i32::rank(cores@[i], cores@[j]));
        }
        if exists|i: int|
            0 <= i < parts.len() && (part_cores(#[trigger] parts[i]) matches Ok(named)
                && named.contains(core)) {
            let i = choose|i: int|
                0 <= i < parts.len() && (part_cores(#[trigger] parts[i]) matches Ok(named)
                    && named.contains(core));
            assert(part_names(parts[i], core));
        }
    }
    if 0 <= k < parts.len() && part_cores(parts[k]) is Err && (forall|i: int|
        0 <= i < k ==> part_cores(#[trigger] parts[i]) is Ok) {
        let front = parts.take(k);
        assert forall|i: int| 0 <= i < front.len() implies part_cores(#[trigger] front[i]) is Ok by {
            assert(front[i] == parts[i]);
        }
        lemma_parts_read(front);
        lemma_first_error(parts, k, part_cores(parts[k])->Err_0);
    }
}

proof fn lemma_parts_read(parts: Seq<Seq<char>>)
    requires
        forall|i: int| 0 <= i < parts.len() ==> part_cores(#[trigger] parts[i]) is Ok,
    ensures
        parts_cores(parts) is Ok,
    decreases parts.len(),
{
    if parts.len() > 0 {
        let front = parts.drop_last();
        assert forall|i: int| 0 <= i < front.len() implies part_cores(#[trigger] front[i]) is Ok by {
            assert(front[i] == parts[i]);
        }
        lemma_parts_read(front);
        assert(part_cores(parts[parts.len() - 1]) is Ok);
    }
}

/// Without a list all cores that are online are monitored; with one it is what
/// reading the list gives.
pub proof fn law_cores_monitored(
    cli: &Cli,
    online: usize,
    out: Result<Vec<i32>, CoreError>,
    list: &str,
    listed: Result<Vec<i32>, CoreError>,
    i: int,
)
    requires
        call_ensures(parse_cores, (cli, online), out),
        cli.core matches Some(s) ==> s@ == list@,
        call_ensures(parse_core_list, (list,), listed),
        online <= i32::MAX,
    ensures
        cli.core is None ==> (out matches Ok(cores) && cores.len() == online && (0 <= i
            < cores.len() ==> cores@[i] == i)),
        cli.core is Some ==> match listed {
            Ok(cores) => out matches Ok(same) && same@ == cores@,
            Err(e) => out == Err::<Vec<i32>, CoreError>(e),
        },
{
}

// ─── What metrics come to ────────────────────────────────────────────────────

/// Whether each of different names has a value, and these are the names with
/// their values, in order.
pub open spec fn valued<T>(names: Names, values: Seq<(Seq<char>, T)>, vars: Seq<(Seq<char>, T)>) -> bool {
    &&& vars.len() == names.len()
    &&& names_distinct(vars)
    &&& forall|k: int|
        0 <= k < vars.len() ==> (#[trigger] vars[k]).0 == names[k] && value_of(values, names[k])
            == Some(vars[k].1)
}

proof fn lemma_all_mapped<A, B>(s: Seq<A>, f: spec_fn(A) -> Option<B>, out: Seq<B>)
    requires
        out.len() == s.len(),
        forall|i: int| 0 <= i < s.len() ==> f(#[trigger] s[i]) == Some(out[i]),
    ensures
        s.filter_map(f) == out,
    decreases s.len(),
{
    if s.len() > 0 {
        let front = s.drop_last();
        assert forall|i: int| 0 <= i < front.len() implies f(#[trigger] front[i]) == Some(
            out.drop_last()[i],
        ) by {
            assert(front[i] == s[i]);
        }
        lemma_all_mapped(front, f, out.drop_last());
        assert(f(s[s.len() - 1]) == Some(out.last()));
        assert(s.filter_map(f) =~= front.filter_map(f) + seq![out.last()]);
        assert(out =~= out.drop_last() + seq![out.last()]);
    } else {
        assert(s.filter_map(f) =~= out);
    }
}

proof fn lemma_fewer_mapped<A, B>(s: Seq<A>, f: spec_fn(A) -> Option<B>, i: int)
    ensures
        s.filter_map(f).len() <= s.len(),
        0 <= i < s.len() && f(s[i]) is None ==> s.filter_map(f).len() < s.len(),
    decreases s.len(),
{
    if s.len() > 0 {
        let front = s.drop_last();
        let last = match f(s.last()) {
            Some(b) => seq![b],
            None => Seq::empty(),
        };
        lemma_fewer_mapped(front, f, i);
        assert(s.filter_map(f) =~= front.filter_map(f) + last);
        if 0 <= i < front.len() {
            assert(front[i] == s[i]);
        }
    }
}

proof fn lemma_gathered_len<K, V>(pairs: Seq<(K, V)>)
    ensures
        gathered(pairs).len() <= pairs.len(),
    decreases pairs.len(),
{
    if pairs.len() > 0 {
        lemma_gathered_len(pairs.drop_last());
        lemma_place_of(gathered(pairs.drop_last()), pairs.last().0);
    }
}

proof fn lemma_vars<T>(
    names: Names,
    values: Seq<(Seq<char>, T)>,
    vars: Seq<(Seq<char>, T)>,
    k: int,
)
    ensures
        valued(names, values, vars) ==> metric_vars(names, values) == vars,
        0 <= k < names.len() && value_of(values, names[k]) is None ==> metric_vars(
            names,
            values,
        ).len() < names.len(),
{
    let f = |name: Seq<char>|
        match value_of(values, name) {
            Some(v) => Some((name, v)),
            None => None,
        };
    if valued(names, values, vars) {
        assert forall|i: int| 0 <= i < names.len() implies f(#[trigger] names[i]) == Some(
            vars[i],
        ) by {
            assert(vars[i].0 == names[i]);
        }
        lemma_all_mapped(names, f, vars);
        law_gathered_in_order(vars);
    }
    lemma_fewer_mapped(names, f, k);
    lemma_gathered_len(names.filter_map(f));
}

/// A metric has no value if one of its events has none or if its formula cannot
/// be cut into tokens; else its value is what the formula is worth with the
/// values of its events, and nothing if that is undefined.
pub proof fn law_metric_value<
    T: Copy,
    L: Fn(&str) -> T,
    N: Fn(T) -> T,
    B: Fn(BinaryOp, T, T) -> T,
    Z: Fn(T) -> bool,
    I: Fn(T) -> i64,
    W: Fn(i64) -> T,
    U: Fn(T) -> bool,
>(
    metric: &Metric,
    values: &NameMap<T>,
    arithmetic: &Arithmetic<T, L, N, B, Z, I, W>,
    is_undefined: &U,
    value: Option<T>,
    k: int,
    vars: Seq<(Seq<char>, T)>,
    s: Syntax,
    rest: Seq<Lexeme>,
)
    requires
        call_ensures(
            compute_metric::<T, L, N, B, Z, I, W, U>,
            (metric, values, arithmetic, is_undefined),
            value,
        ),
        valued(metric.event_names.deep_view(), values@, vars) ==> s.proper(
            metric.event_names.deep_view().to_set(),
        ),
        rest.len() == 0 || !is_sign(rest[0]),
    ensures
        0 <= k < metric.event_names.len() && value_of(values@, metric.event_names@[k]@) is None
            ==> value is None,
        valued(metric.event_names.deep_view(), values@, vars) && tokens_of(metric.formula@)
            == Ok::<Seq<Lexeme>, Fault>(s.tokens() + rest) ==> exists|v: T| #[trigger]
            worth(s, vars, *arithmetic, v) && ((call_ensures(*is_undefined, (v,), true)
                && value is None) || (call_ensures(*is_undefined, (v,), false) && value == Some(
                v,
            ))),
        valued(metric.event_names.deep_view(), values@, vars) && tokens_of(metric.formula@) is Err
            ==> value is None,
{
    lemma_metric_value(*metric, values@, *arithmetic, *is_undefined, value, k, vars, s, rest);
}

proof fn lemma_metric_value<
    T: Copy,
    L: Fn(&str) -> T,
    N: Fn(T) -> T,
    B: Fn(BinaryOp, T, T) -> T,
    Z: Fn(T) -> bool,
    I: Fn(T) -> i64,
    W: Fn(i64) -> T,
    U: Fn(T) -> bool,
>(
    metric: Metric,
    values: Seq<(Seq<char>, T)>,
    arithmetic: Arithmetic<T, L, N, B, Z, I, W>,
    is_undefined: U,
    value: Option<T>,
    k: int,
    vars: Seq<(Seq<char>, T)>,
    s: Syntax,
    rest: Seq<Lexeme>,
)
    requires
        metric_value(metric, values, arithmetic, is_undefined, value),
        valued(metric.event_names.deep_view(), values, vars) ==> s.proper(
            metric.event_names.deep_view().to_set(),
        ),
        rest.len() == 0 || !is_sign(rest[0]),
    ensures
        0 <= k < metric.event_names.len() && value_of(values, metric.event_names@[k]@) is None
            ==> value is None,
        valued(metric.event_names.deep_view(), values, vars) && tokens_of(metric.formula@)
            == Ok::<Seq<Lexeme>, Fault>(s.tokens() + rest) ==> exists|v: T| #[trigger]
            worth(s, vars, arithmetic, v) && ((call_ensures(is_undefined, (v,), true)
                && value is None) || (call_ensures(is_undefined, (v,), false) && value == Some(v))),
        valued(metric.event_names.deep_view(), values, vars) && tokens_of(metric.formula@) is Err
            ==> value is None,
{
    let names = metric.event_names.deep_view();
    assert(names.len() == metric.event_names.len());
    lemma_vars(names, values, vars, k);
    if valued(names, values, vars) {
        let defined = names.to_set();
        assert(defined =~= defined_names(vars)) by {
            assert forall|name: Seq<char>| defined.contains(name) == #[trigger] defined_names(
                vars,
            ).contains(name) by {
                if names.contains(name) {
                    let i = names.index_of(name);
                    assert(vars[i].0 == name);
                }
                if has_name(vars, name) {
                    let i = choose|i: int| 0 <= i < vars.len() && (#[trigger] vars[i]).0 == name;
                    assert(names[i] == name);
                }
            }
        }
        if tokens_of(metric.formula@) == Ok::<Seq<Lexeme>, Fault>(s.tokens() + rest) {
            law_formula_read(s, rest, defined);
            let v = choose|v: T|
                comes_to(s.tree(), vars, arithmetic, v) && #[trigger] judged(
                    is_undefined,
                    v,
                    value,
                );
            lemma_worth(s, vars, arithmetic, v);
        }
    }
}

/// A metric whose formula reading refuses has no value.
pub proof fn law_unreadable_metric<
    T: Copy,
    L: Fn(&str) -> T,
    N: Fn(T) -> T,
    B: Fn(BinaryOp, T, T) -> T,
    Z: Fn(T) -> bool,
    I: Fn(T) -> i64,
    W: Fn(i64) -> T,
    U: Fn(T) -> bool,
>(
    metric: &Metric,
    values: &NameMap<T>,
    arithmetic: &Arithmetic<T, L, N, B, Z, I, W>,
    is_undefined: &U,
    value: Option<T>,
    vars: &NameMap<T>,
    formula: &str,
    read: Result<Expr, FormulaError>,
    fault: Option<FormulaError>,
)
    requires
        call_ensures(
            compute_metric::<T, L, N, B, Z, I, W, U>,
            (metric, values, arithmetic, is_undefined),
            value,
        ),
        call_ensures(metric_fault::<T>, (metric, values), fault),
        valued(metric.event_names.deep_view(), values@, vars@),
        formula@ == metric.formula@,
        call_ensures(parse::<T>, (formula, vars), read),
    ensures
        read matches Err(e) ==> value is None && (fault matches Some(f) && f.deep_view()
            == e.deep_view()),
        read is Ok ==> fault is None,
{
    lemma_vars(metric.event_names.deep_view(), values@, vars@, 0);
}

/// A metric one of whose events has no value is not complained about.
pub proof fn law_no_fault<T: Copy>(
    metric: &Metric,
    values: &NameMap<T>,
    fault: Option<FormulaError>,
    k: int,
)
    requires
        call_ensures(metric_fault::<T>, (metric, values), fault),
        0 <= k < metric.event_names.len(),
        value_of(values@, metric.event_names@[k]@) is None,
    ensures
        fault is None,
{
    let names = metric.event_names.deep_view();
    assert(names[k] == metric.event_names@[k]@);
    lemma_vars(names, values@, Seq::empty(), k);
}

/// Each group is computed under its name, with the title that the database has
/// for it and its stage, or with its name for a title and stage 2 where the
/// database has none; of its metrics those that exist are computed, in their
/// order, each with its name and units.
pub proof fn law_groups_computed<
    T: Copy,
    L: Fn(&str) -> T,
    N: Fn(T) -> T,
    B: Fn(BinaryOp, T, T) -> T,
    Z: Fn(T) -> bool,
    I: Fn(T) -> i64,
    W: Fn(i64) -> T,
    U: Fn(T) -> bool,
>(
    db: &TelemetryDatabase,
    groups: &Vec<GroupLike>,
    results: &EventResults<T>,
    arithmetic: &Arithmetic<T, L, N, B, Z, I, W>,
    is_undefined: &U,
    out: Vec<ComputedGroup<T>>,
    g: int,
    shown: &str,
    names: Vec<String>,
    kept: Names,
    k: int,
    i: int,
)
    requires
        call_ensures(
            compute_metrics::<T, L, N, B, Z, I, W, U>,
            (db, groups, results, arithmetic, is_undefined),
            out,
        ),
        names_distinct(db.metrics@),
        0 <= g < groups.len(),
        call_ensures(GroupLike::group_name, (&groups@[g],), shown),
        call_ensures(GroupLike::metric_names, (&groups@[g], db), names),
        kept == names.deep_view().filter(
            |name: Seq<char>|
                exists|j: int| 0 <= j < db.metrics@.len() && (#[trigger] db.metrics@[j]).0 == name,
        ),
        0 <= k < kept.len(),
        0 <= i < db.metrics@.len(),
        db.metrics@[i].0 == kept[k],
    ensures
        out.len() == groups.len(),
        out@[g].group_name@ == shown@,
        match value_of(db.groups@, shown@) {
            Some(group) => out@[g].group_title@ == group.title@ && out@[g].stage == match value_of(
                db.topdown.stage_for_group@,
                shown@,
            ) {
                Some(stage) => stage as int,
                None => 2,
            },
            None => out@[g].group_title@ == shown@ && out@[g].stage == 2,
        },
        out@[g].metrics.len() == kept.len(),
        out@[g].metrics@[k].metric_name@ == db.metrics@[i].1.name@,
        out@[g].metrics@[k].units@ == db.metrics@[i].1.units@,
{
    lemma_group_computed(
        *db,
        groups.deep_view()[g],
        known_values(results@),
        *arithmetic,
        *is_undefined,
        out@[g],
        names.deep_view(),
        kept,
        k,
        i,
    );
}

proof fn lemma_group_computed<
    T: Copy,
    L: Fn(&str) -> T,
    N: Fn(T) -> T,
    B: Fn(BinaryOp, T, T) -> T,
    Z: Fn(T) -> bool,
    I: Fn(T) -> i64,
    W: Fn(i64) -> T,
    U: Fn(T) -> bool,
>(
    db: TelemetryDatabase,
    group: GroupChoice,
    values: Seq<(Seq<char>, T)>,
    arithmetic: Arithmetic<T, L, N, B, Z, I, W>,
    is_undefined: U,
    computed: ComputedGroup<T>,
    names: Names,
    kept: Names,
    k: int,
    i: int,
)
    requires
        group_computed(db, group, values, arithmetic, is_undefined, computed),
        names_distinct(db.metrics@),
        names == group.metrics(db.groups@),
        kept == names.filter(
            |name: Seq<char>|
                exists|j: int| 0 <= j < db.metrics@.len() && (#[trigger] db.metrics@[j]).0 == name,
        ),
        0 <= k < kept.len(),
        0 <= i < db.metrics@.len(),
        db.metrics@[i].0 == kept[k],
    ensures
        computed.metrics.len() == kept.len(),
        metric_computed(db, kept[k], values, arithmetic, is_undefined, computed.metrics@[k]),
        value_of(db.metrics@, kept[k]) == Some(db.metrics@[i].1),
{
    let keep = |name: Seq<char>| has_name(db.metrics@, name);
    let also = |name: Seq<char>|
        exists|j: int| 0 <= j < db.metrics@.len() && (#[trigger] db.metrics@[j]).0 == name;
    assert(keep =~= also) by {
        assert forall|name: Seq<char>| keep(name) == #[trigger] also(name) by {}
    }
    lemma_value_at(db.metrics@, i);
}

/// The metrics of a group are computed from the values of the events that were
/// captured: as `law_metric_value` says of one metric by itself.
pub proof fn law_values_computed<
    T: Copy,
    L: Fn(&str) -> T,
    N: Fn(T) -> T,
    B: Fn(BinaryOp, T, T) -> T,
    Z: Fn(T) -> bool,
    I: Fn(T) -> i64,
    W: Fn(i64) -> T,
    U: Fn(T) -> bool,
>(
    db: &TelemetryDatabase,
    groups: &Vec<GroupLike>,
    results: &EventResults<T>,
    values: NameMap<T>,
    arithmetic: &Arithmetic<T, L, N, B, Z, I, W>,
    is_undefined: &U,
    out: Vec<ComputedGroup<T>>,
    g: int,
    names: Vec<String>,
    kept: Names,
    k: int,
    i: int,
    e: int,
    vars: Seq<(Seq<char>, T)>,
    s: Syntax,
    rest: Seq<Lexeme>,
)
    requires
        call_ensures(
            compute_metrics::<T, L, N, B, Z, I, W, U>,
            (db, groups, results, arithmetic, is_undefined),
            out,
        ),
        call_ensures(EventResults::<T>::event_values, (results,), values),
        names_distinct(db.metrics@),
        0 <= g < groups.len(),
        call_ensures(GroupLike::metric_names, (&groups@[g], db), names),
        kept == names.deep_view().filter(
            |name: Seq<char>|
                exists|j: int| 0 <= j < db.metrics@.len() && (#[trigger] db.metrics@[j]).0 == name,
        ),
        0 <= k < kept.len(),
        0 <= i < db.metrics@.len(),
        db.metrics@[i].0 == kept[k],
        valued(db.metrics@[i].1.event_names.deep_view(), values@, vars) ==> s.proper(
            db.metrics@[i].1.event_names.deep_view().to_set(),
        ),
        rest.len() == 0 || !is_sign(rest[0]),
    ensures
        0 <= e < db.metrics@[i].1.event_names.len() && value_of(
            values@,
            db.metrics@[i].1.event_names@[e]@,
        ) is None ==> out@[g].metrics@[k].value is None,
        valued(db.metrics@[i].1.event_names.deep_view(), values@, vars) && tokens_of(
            db.metrics@[i].1.formula@,
        ) == Ok::<Seq<Lexeme>, Fault>(s.tokens() + rest) ==> exists|v: T| #[trigger]
            worth(s, vars, *arithmetic, v) && ((call_ensures(*is_undefined, (v,), true)
                && out@[g].metrics@[k].value is None) || (call_ensures(*is_undefined, (v,), false)
                && out@[g].metrics@[k].value == Some(v))),
{
    lemma_group_computed(
        *db,
        groups.deep_view()[g],
        values@,
        *arithmetic,
        *is_undefined,
        out@[g],
        names.deep_view(),
        kept,
        k,
        i,
    );
    lemma_metric_value(
        db.metrics@[i].1,
        values@,
        *arithmetic,
        *is_undefined,
        out@[g].metrics@[k].value,
        e,
        vars,
        s,
        rest,
    );
}

/// The metrics of an interval are those of its own results, at its own time, in
/// the order of the intervals.
pub proof fn law_intervals_computed<
    T: Copy,
    L: Fn(&str) -> T,
    N: Fn(T) -> T,
    B: Fn(BinaryOp, T, T) -> T,
    Z: Fn(T) -> bool,
    I: Fn(T) -> i64,
    W: Fn(i64) -> T,
    U: Fn(T) -> bool,
>(
    db: &TelemetryDatabase,
    groups: &Vec<GroupLike>,
    snapshots: &Vec<TimestampedSnapshot<T>>,
    values: NameMap<T>,
    arithmetic: &Arithmetic<T, L, N, B, Z, I, W>,
    is_undefined: &U,
    out: Vec<TimestampedComputedGroups<T>>,
    n: int,
    g: int,
    names: Vec<String>,
    kept: Names,
    k: int,
    i: int,
    e: int,
    vars: Seq<(Seq<char>, T)>,
    s: Syntax,
    rest: Seq<Lexeme>,
)
    requires
        call_ensures(
            compute_interval_metrics::<T, L, N, B, Z, I, W, U>,
            (db, groups, snapshots, arithmetic, is_undefined),
            out,
        ),
        0 <= n < snapshots.len(),
        call_ensures(EventResults::<T>::event_values, (&snapshots@[n].results,), values),
        names_distinct(db.metrics@),
        0 <= g < groups.len(),
        call_ensures(GroupLike::metric_names, (&groups@[g], db), names),
        kept == names.deep_view().filter(
            |name: Seq<char>|
                exists|j: int| 0 <= j < db.metrics@.len() && (#[trigger] db.metrics@[j]).0 == name,
        ),
        0 <= k < kept.len(),
        0 <= i < db.metrics@.len(),
        db.metrics@[i].0 == kept[k],
        valued(db.metrics@[i].1.event_names.deep_view(), values@, vars) ==> s.proper(
            db.metrics@[i].1.event_names.deep_view().to_set(),
        ),
        rest.len() == 0 || !is_sign(rest[0]),
    ensures
        out.len() == snapshots.len(),
        out@[n].timestamp == snapshots@[n].timestamp,
        out@[n].groups.len() == groups.len(),
        out@[n].groups@[g].group_name@ == groups@[g].deep_view().name(),
        out@[n].groups@[g].metrics.len() == kept.len(),
        out@[n].groups@[g].metrics@[k].metric_name@ == db.metrics@[i].1.name@,
        0 <= e < db.metrics@[i].1.event_names.len() && value_of(
            values@,
            db.metrics@[i].1.event_names@[e]@,
        ) is None ==> out@[n].groups@[g].metrics@[k].value is None,
        valued(db.metrics@[i].1.event_names.deep_view(), values@, vars) && tokens_of(
            db.metrics@[i].1.formula@,
        ) == Ok::<Seq<Lexeme>, Fault>(s.tokens() + rest) ==> exists|v: T| #[trigger]
            worth(s, vars, *arithmetic, v) && ((call_ensures(*is_undefined, (v,), true)
                && out@[n].groups@[g].metrics@[k].value is None) || (call_ensures(
                *is_undefined,
                (v,),
                false,
            ) && out@[n].groups@[g].metrics@[k].value == Some(v))),
{
    assert(out@[n].timestamp == snapshots@[n].timestamp);
    lemma_group_computed(
        *db,
        groups.deep_view()[g],
        values@,
        *arithmetic,
        *is_undefined,
        out@[n].groups@[g],
        names.deep_view(),
        kept,
        k,
        i,
    );
    lemma_metric_value(
        db.metrics@[i].1,
        values@,
        *arithmetic,
        *is_undefined,
        out@[n].groups@[g].metrics@[k].value,
        e,
        vars,
        s,
        rest,
    );
}

/// A warning comes for each metric whose events all have a value and whose
/// formula cannot be read, in the order of the groups and of their metrics, and
/// says the name of the metric and what is wrong.
pub proof fn law_warnings<T: Copy>(
    db: &TelemetryDatabase,
    groups: &Vec<GroupLike>,
    results: &EventResults<T>,
    out: Vec<String>,
    values: NameMap<T>,
    faulty: spec_fn(Seq<char>) -> bool,
    parts: Seq<Names>,
    j: int,
    i: int,
    fault: FormulaError,
    said: String,
)
    requires
        call_ensures(formula_warnings::<T>, (db, groups, results), out),
        call_ensures(EventResults::<T>::event_values, (results,), values),
        names_distinct(db.metrics@),
        faulty == (|name: Seq<char>|
            value_of(db.metrics@, name) matches Some(metric) && metric_fault_of(metric, values@) is Some),
        parts.len() == groups.len(),
        forall|g: int|
            0 <= g < parts.len() ==> #[trigger] parts[g] == groups@[g].deep_view().metrics(
                db.groups@,
            ).filter(faulty),
        0 <= j < parts.flatten().len(),
        0 <= i < db.metrics@.len(),
        db.metrics@[i].0 == parts.flatten()[j],
        call_ensures(metric_fault::<T>, (&db.metrics@[i].1, &values), Some(fault)),
        call_ensures(FormulaError::message, (&fault,), said),
    ensures
        out.len() == parts.flatten().len(),
        out@[j]@ == "Formula error for metric '"@ + db.metrics@[i].1.name@ + "': "@ + said@,
{
    let all = groups.deep_view();
    let f = |name: Seq<char>| metric_warning(*db, name, values@);
    let text = |name: Seq<char>| f(name)->0;
    let warn = |group: GroupChoice| group_warnings(*db, group, known_values(results@));
    let whole = |part: Names| part.map_values(text);
    assert forall|name: Seq<char>| #[trigger] faulty(name) == (f(name) is Some) by {}
    assert(all.map_values(warn) =~= parts.map_values(whole)) by {
        assert forall|g: int| 0 <= g < parts.len() implies all.map_values(warn)[g]
            == parts.map_values(whole)[g] by {
            let names = all[g].metrics(db.groups@);
            assert(all[g] == groups@[g].deep_view());
            assert(parts[g] == names.filter(faulty));
            lemma_filter_map(names, f, faulty);
            assert(names.filter_map(f) =~= parts[g].map_values(text)) by {
                assert forall|k: int| 0 <= k < parts[g].len() implies names.filter_map(f)[k]
                    == parts[g].map_values(text)[k] by {
                    assert(f(names.filter(faulty)[k]) == Some(names.filter_map(f)[k]));
                }
            }
            assert(group_warnings(*db, all[g], values@) == names.filter_map(f));
        }
    }
    lemma_map_flatten(parts, text);
    assert(out.deep_view() == parts.flatten().map_values(text));
    assert(out.deep_view()[j] == out@[j]@);
    lemma_value_at(db.metrics@, i);
}

// ─── Which specification is loaded ───────────────────────────────────────────

/// The specification of a CPU is the one that the mapping has for its register,
/// written in hexadecimal, or else the one that it has for its implementer and
/// part; the file has the name and `.json` behind it.
pub proof fn law_spec_chosen(
    mapping: &NameMap<CpuMapping>,
    midr: u64,
    out: Option<String>,
    id: u64,
    i: int,
)
    requires
        call_ensures(choose_spec, (mapping, midr), out),
        names_distinct(mapping@),
        id == implementer_of(midr) * 0x1000 + part_of(midr),
    ensures
        0 <= i < mapping@.len() && mapping@[i].0 == seq!['0', 'x'] + hex_text(midr) ==> (
        out matches Some(file) && file@ == mapping@[i].1.name@ + seq!['.', 'j', 's', 'o', 'n']),
        0 <= i < mapping@.len() && mapping@[i].0 == seq!['0', 'x'] + hex_text(id) && (forall|j: int|
            0 <= j < mapping@.len() ==> (#[trigger] mapping@[j]).0 != seq!['0', 'x'] + hex_text(
                midr,
            )) ==> (out matches Some(file) && file@ == mapping@[i].1.name@ + seq![
            '.',
            'j',
            's',
            'o',
            'n',
        ]),
        (forall|j: int|
            0 <= j < mapping@.len() ==> (#[trigger] mapping@[j]).0 != seq!['0', 'x'] + hex_text(
                midr,
            ) && mapping@[j].0 != seq!['0', 'x'] + hex_text(id)) ==> out is None,
{
    reveal_strlit("0x");
    reveal_strlit(".json");
    assert("0x"@ =~= seq!['0', 'x']);
    assert(".json"@ =~= seq!['.', 'j', 's', 'o', 'n']);
    if 0 <= i < mapping@.len() {
        lemma_value_at(mapping@, i);
    }
}

/// The directories that may hold specifications are tried in their order: next
/// to the executable `data/pmu/cpu`, `../data/pmu/cpu` and `metrics`, if it is
/// known where that is, and then `data/pmu/cpu` and `metrics` in the current
/// directory.
pub proof fn law_dir_found<H: Fn(&DirCandidate) -> bool>(
    exe_known: bool,
    has_mapping: &H,
    found: Option<DirCandidate>,
    holds: spec_fn(Base, Seq<char>) -> bool,
)
    requires
        call_ensures(resolve_metrics_dir::<H>, (exe_known, has_mapping), found),
        forall|c: DirCandidate, b: bool| #[trigger]
            call_ensures(*has_mapping, (&c,), b) ==> b == holds(c.base, c.path@),
    ensures
        match found {
            Some(dir) => holds(dir.base, dir.path@),
            None => !holds(Base::Current, "data/pmu/cpu"@) && !holds(Base::Current, "metrics"@) && (
            exe_known ==> !holds(Base::Executable, "data/pmu/cpu"@) && !holds(
                Base::Executable,
                "../data/pmu/cpu"@,
            ) && !holds(Base::Executable, "metrics"@)),
        },
        exe_known && holds(Base::Executable, "data/pmu/cpu"@) ==> (found matches Some(dir)
            && dir.base is Executable && dir.path@ == "data/pmu/cpu"@),
        exe_known && !holds(Base::Executable, "data/pmu/cpu"@) && holds(
            Base::Executable,
            "../data/pmu/cpu"@,
        ) ==> (found matches Some(dir) && dir.base is Executable && dir.path@
            == "../data/pmu/cpu"@),
        exe_known && !holds(Base::Executable, "data/pmu/cpu"@) && !holds(
            Base::Executable,
            "../data/pmu/cpu"@,
        ) && holds(Base::Executable, "metrics"@) ==> (found matches Some(dir)
            && dir.base is Executable && dir.path@ == "metrics"@),
        (exe_known ==> !holds(Base::Executable, "data/pmu/cpu"@) && !holds(
            Base::Executable,
            "../data/pmu/cpu"@,
        ) && !holds(Base::Executable, "metrics"@)) ==> {
            &&& holds(Base::Current, "data/pmu/cpu"@) ==> (found matches Some(dir)
                && dir.base is Current && dir.path@ == "data/pmu/cpu"@)
            &&& !holds(Base::Current, "data/pmu/cpu"@) && holds(Base::Current, "metrics"@) ==> (
            found matches Some(dir) && dir.base is Current && dir.path@ == "metrics"@)
        },
{
    let all = dir_candidates(exe_known);
    let n: int = if exe_known {
        3
    } else {
        0
    };
    assert(all.len() == n + 2);
    assert(all[n] == (Base::Current, "data/pmu/cpu"@));
    assert(all[n + 1] == (Base::Current, "metrics"@));
    if exe_known {
        assert(all[0] == (Base::Executable, "data/pmu/cpu"@));
        assert(all[1] == (Base::Executable, "../data/pmu/cpu"@));
        assert(all[2] == (Base::Executable, "metrics"@));
    }
    assert forall|k: int, b: bool|
        0 <= k < all.len() && #[trigger] said_of(*has_mapping, all[k], b) implies b == holds(
        all[k].0,
        all[k].1,
    ) by {
        let c = choose|c: DirCandidate|
            c.deep_view() == all[k] && #[trigger] call_ensures(*has_mapping, (&c,), b);
        assert(b == holds(c.base, c.path@));
    }
    match found {
        Some(dir) => {
            let i = choose|i: int|
                0 <= i < all.len() && #[trigger] all[i] == dir.deep_view() && said_of(
                    *has_mapping,
                    dir.deep_view(),
                    true,
                ) && forall|j: int| 0 <= j < i ==> said_of(*has_mapping, #[trigger] all[j], false);
            assert(said_of(*has_mapping, all[i], true));
            assert(i > 0 ==> said_of(*has_mapping, all[0], false));
            assert(i > 1 ==> said_of(*has_mapping, all[1], false));
            assert(i > 2 ==> said_of(*has_mapping, all[2], false));
            assert(i > 3 ==> said_of(*has_mapping, all[3], false));
        },
        None => {
            assert(said_of(*has_mapping, all[n], false));
            assert(said_of(*has_mapping, all[n + 1], false));
            assert(exe_known ==> said_of(*has_mapping, all[0], false));
            assert(exe_known ==> said_of(*has_mapping, all[1], false));
            assert(exe_known ==> said_of(*has_mapping, all[2], false));
        },
    }
}

/// A specification that is given is loaded, and nothing else is looked at.
pub proof fn law_given_spec<
    M: Fn(i32) -> Result<u64, String>,
    H: Fn(&DirCandidate) -> bool,
    R: Fn(&MetricsDir) -> MappingRead,
    S: Fn(&SpecFile) -> FileRead<TelemetrySpecification>,
>(
    cli: &Cli,
    dir_given: bool,
    exe_known: bool,
    machine: &Machine<M, H, R, S>,
    out: Result<TelemetrySpecification, LoadError>,
    read: FileRead<TelemetrySpecification>,
    path: &str,
    loaded: Result<TelemetrySpecification, SpecError>,
)
    requires
        call_ensures(load_spec::<M, H, R, S>, (cli, true, dir_given, exe_known, machine), out),
        forall|r: FileRead<TelemetrySpecification>| #[trigger]
            call_ensures(machine.read_spec, (&SpecFile::Given,), r) ==> r == read,
        path@ == read.path@,
        call_ensures(TelemetrySpecification::load_from_file, (path, read.parsed), loaded),
    ensures
        match loaded {
            Ok(spec) => out == Ok::<TelemetrySpecification, LoadError>(spec),
            Err(e) => out matches Err(LoadError::Spec(said)) && said.text() == e.text(),
        },
{
}

/// The core by which a CPU is detected is the lowest one of the list, or core 0
/// where there is no list or an empty one.
pub open spec fn detects_by(
    cli: Cli,
    list: &str,
    listed: Result<Vec<i32>, CoreError>,
    core: i32,
) -> bool {
    match cli.core {
        None => core == 0,
        Some(s) => s@ == list@ && call_ensures(parse_core_list, (list,), listed) && match listed {
            Ok(cores) => core == if cores.len() == 0 {
                0
            } else {
                cores@[0]
            },
            Err(_) => false,
        },
    }
}

/// Without a given specification the CPU is detected by its register, which is
/// read of the lowest core that is listed; a list or a register that cannot be
/// read is reported.
pub proof fn law_detected<
    M: Fn(i32) -> Result<u64, String>,
    H: Fn(&DirCandidate) -> bool,
    R: Fn(&MetricsDir) -> MappingRead,
    S: Fn(&SpecFile) -> FileRead<TelemetrySpecification>,
>(
    cli: &Cli,
    dir_given: bool,
    exe_known: bool,
    machine: &Machine<M, H, R, S>,
    out: Result<TelemetrySpecification, LoadError>,
    list: &str,
    listed: Result<Vec<i32>, CoreError>,
    core: i32,
    reason: String,
)
    requires
        call_ensures(load_spec::<M, H, R, S>, (cli, false, dir_given, exe_known, machine), out),
    ensures
        detects_by(*cli, list, listed, core) && (forall|r: Result<u64, String>| #[trigger]
            call_ensures(machine.read_midr, (core,), r) ==> r == Err::<u64, String>(reason)) ==> (
        out matches Err(LoadError::Midr(said)) && said@ == reason@),
        (cli.core matches Some(s) && s@ == list@) && call_ensures(parse_core_list, (list,), listed)
            ==> (listed matches Err(e) ==> (out matches Err(LoadError::Core(said)) && said == e)),
{
}

/// Whether an outcome tells what was found in a file: a valid specification, or
/// why there is none.
pub open spec fn ends_as(
    found: FileRead<TelemetrySpecification>,
    out: Result<TelemetrySpecification, LoadError>,
) -> bool {
    match found.parsed {
        Parsed::Value(spec) => if spec.fault() is Some {
            out matches Err(LoadError::Spec(SpecError::Validation(said))) && Some(said@)
                == spec.fault()
        } else {
            out == Ok::<TelemetrySpecification, LoadError>(spec)
        },
        Parsed::Unreadable(reason) => out matches Err(
            LoadError::Spec(SpecError::Io { path, source }),
        ) && path@ == found.path@ && source@ == reason@,
        Parsed::Malformed(reason) => out matches Err(
            LoadError::Spec(SpecError::Json { path, source }),
        ) && path@ == found.path@ && source@ == reason@,
    }
}

/// A CPU that was detected is looked up in the mapping of the directory that is
/// given, or else of the first one that has a mapping; that there is no such
/// directory, no mapping, none that can be read, or none that knows the CPU, is
/// reported.
pub proof fn law_looked_up<
    M: Fn(i32) -> Result<u64, String>,
    H: Fn(&DirCandidate) -> bool,
    R: Fn(&MetricsDir) -> MappingRead,
    S: Fn(&SpecFile) -> FileRead<TelemetrySpecification>,
>(
    cli: &Cli,
    dir_given: bool,
    exe_known: bool,
    machine: &Machine<M, H, R, S>,
    out: Result<TelemetrySpecification, LoadError>,
    list: &str,
    listed: Result<Vec<i32>, CoreError>,
    core: i32,
    midr: u64,
    dir: MetricsDir,
    read: MappingRead,
)
    requires
        call_ensures(load_spec::<M, H, R, S>, (cli, false, dir_given, exe_known, machine), out),
        detects_by(*cli, list, listed, core),
        forall|r: Result<u64, String>| #[trigger]
            call_ensures(machine.read_midr, (core,), r) ==> r == Ok::<u64, String>(midr),
        dir_given ==> dir is Given,
        !dir_given ==> (dir matches MetricsDir::Found(c) && forall|f: Option<DirCandidate>|
            #[trigger] dir_found(machine.has_mapping, exe_known, f) ==> f == Some(c)),
        forall|r: MappingRead| #[trigger]
            call_ensures(machine.read_mapping, (&dir,), r) ==> r == read,
    ensures
        read matches MappingRead::Absent(shown) ==> (out matches Err(LoadError::NoMapping(d))
            && d@ == shown@),
        read matches MappingRead::Present(file) ==> match file.parsed {
            Parsed::Unreadable(reason) => out matches Err(
                LoadError::Mapping(SpecError::Io { path, source }),
            ) && path@ == file.path@ && source@ == reason@,
            Parsed::Malformed(reason) => out matches Err(
                LoadError::Mapping(SpecError::Json { path, source }),
            ) && path@ == file.path@ && source@ == reason@,
            Parsed::Value(mapping) => match spec_name_for(mapping@, midr) {
                None => out matches Err(LoadError::NoSpec { midr: m, cpu_id }) && m == midr
                    && cpu_id == implementer_of(midr) * 0x1000 + part_of(midr),
                Some(name) => exists|file_name: String, found: FileRead<TelemetrySpecification>|
                    file_name@ == name + seq!['.', 'j', 's', 'o', 'n'] && #[trigger] call_ensures(
                        machine.read_spec,
                        (&SpecFile::InDir(dir, file_name),),
                        found,
                    ) && ends_as(found, out),
            },
        },
{
    reveal_strlit(".json");
    assert(".json"@ =~= seq!['.', 'j', 's', 'o', 'n']);
    assert(midr_leads(*machine, dir_given, exe_known, midr, out));
    if !dir_given {
        let found = choose|found: Option<DirCandidate>| #[trigger]
            dir_found(machine.has_mapping, exe_known, found) && found_leads(
                machine.read_mapping,
                machine.read_spec,
                found,
                midr,
                out,
            );
        assert(found == Some(dir->Found_0));
    }
    assert(dir_leads(machine.read_mapping, machine.read_spec, dir, midr, out));
    assert(mapping_leads(machine.read_spec, dir, midr, read, out));
    if let MappingRead::Present(file) = read {
        if let Parsed::Value(mapping) = file.parsed {
            if let Some(name) = spec_name_for(mapping@, midr) {
                let chosen = choose|chosen: SpecFile| #[trigger]
                    is_file_of(chosen, dir, name) && spec_loads(machine.read_spec, chosen, out);
                let found = choose|found: FileRead<TelemetrySpecification>| #[trigger]
                    call_ensures(machine.read_spec, (&chosen,), found) && file_loads(found, out);
                let file_name = chosen->InDir_1;
                assert(chosen == SpecFile::InDir(dir, file_name));
                assert(call_ensures(
                    machine.read_spec,
                    (&SpecFile::InDir(dir, file_name),),
                    found,
                ));
            }
        }
    }
}

/// That no directory holds a mapping is reported.
pub proof fn law_no_dir<
    M: Fn(i32) -> Result<u64, String>,
    H: Fn(&DirCandidate) -> bool,
    R: Fn(&MetricsDir) -> MappingRead,
    S: Fn(&SpecFile) -> FileRead<TelemetrySpecification>,
>(
    cli: &Cli,
    exe_known: bool,
    machine: &Machine<M, H, R, S>,
    out: Result<TelemetrySpecification, LoadError>,
    list: &str,
    listed: Result<Vec<i32>, CoreError>,
    core: i32,
    midr: u64,
)
    requires
        call_ensures(load_spec::<M, H, R, S>, (cli, false, false, exe_known, machine), out),
        detects_by(*cli, list, listed, core),
        forall|r: Result<u64, String>| #[trigger]
            call_ensures(machine.read_midr, (core,), r) ==> r == Ok::<u64, String>(midr),
        forall|c: DirCandidate, b: bool| #[trigger]
            call_ensures(machine.has_mapping, (&c,), b) ==> !b,
    ensures
        out matches Err(LoadError::NoMetricsDir),
{
    let found = choose|found: Option<DirCandidate>| #[trigger]
        dir_found(machine.has_mapping, exe_known, found) && found_leads(
            machine.read_mapping,
            machine.read_spec,
            found,
            midr,
            out,
        );
    if let Some(dir) = found {
        assert(said_of(machine.has_mapping, dir.deep_view(), true));
        let c = choose|c: DirCandidate|
            c.deep_view() == dir.deep_view() && #[trigger] call_ensures(
                machine.has_mapping,
                (&c,),
                true,
            );
        assert(false);
    }
}

// ─── What is shown of cores ──────────────────────────────────────────────────

/// Of each core there is a line, behind a headline: it says the core's number,
/// its register in eight digits or more, its id, its implementer and its part.
pub proof fn law_core_lines(midrs: &Vec<u64>, lines: Vec<String>, i: int)
    requires
        call_ensures(list_cores, (midrs,), lines),
        0 <= i < midrs.len(),
    ensures
        lines.len() == 1 + midrs.len(),
        lines@[0]@ == "Detected "@ + decimal_text(midrs.len() as nat) + " CPU core(s):"@,
        lines@[i + 1]@ == "  Core "@ + padded(decimal_text(i as nat), 3, ' ') + ": MIDR=0x"@
            + padded(hex_text(midrs@[i]), 8, '0') + "  ID=0x"@ + padded(
            hex_text((implementer_of(midrs@[i]) * 0x1000 + part_of(midrs@[i])) as u64),
            4,
            '0',
        ) + "  implementer=0x"@ + padded(hex_text(implementer_of(midrs@[i])), 2, '0')
            + " part=0x"@ + padded(hex_text(part_of(midrs@[i])), 3, '0'),
{
    let deep = lines.deep_view();
    assert(deep.len() == lines.len());
    assert(deep[0] == lines@[0]@);
    assert(deep[i + 1] == lines@[i + 1]@);
}

/// A plan is what its steps give one after another: the events of the groups,
/// scheduled by the strategy that is asked for, or by metrics if the name means
/// none, cut into rounds with or without multiplexing, and resolved.
pub proof fn law_plan_composed(
    db: &TelemetryDatabase,
    cli: &Cli,
    max_events: usize,
    plan: CapturePlan,
    tuples: Vec<Vec<Vec<String>>>,
    name: &str,
    asked: Option<CollectBy>,
    scheduled: Result<EventScheduler, GroupScheduleError>,
    rounds: Result<Vec<Vec<Vec<String>>>, GroupScheduleError>,
    r: int,
    resolved: Vec<Vec<EventConfig>>,
)
    requires
        call_ensures(plan_capture, (db, cli, max_events), Ok(plan)),
        call_ensures(event_tuples, (db, &plan.groups), tuples),
        name@ == cli.collect_by@,
        call_ensures(CollectBy::from_str, (name,), asked),
        call_ensures(
            EventScheduler::new,
            (
                tuples,
                match asked {
                    Some(by) => by,
                    None => CollectBy::Metric,
                },
                max_events,
            ),
            scheduled,
        ),
        scheduled matches Ok(scheduler) ==> call_ensures(
            EventScheduler::plan_rounds,
            (&scheduler, !cli.no_multiplex),
            rounds,
        ),
        rounds matches Ok(names) ==> 0 <= r < names.len() && call_ensures(
            resolve_events,
            (db, &names@[r]),
            resolved,
        ),
    ensures
        scheduled is Ok,
        rounds is Ok,
        plan.rounds.len() == rounds->Ok_0.len(),
        plan.rounds.deep_view()[r] == resolved.deep_view(),
{
    let stages = stages_named(lowercase_of(cli.stages@))->0;
    let out = Ok::<CapturePlan, PlanError>(plan);
    let chosen = choose|chosen: Result<Vec<GroupLike>, PlanError>| #[trigger]
        asked_groups(*db, *cli, stages, chosen) && plan_follows(
            *db,
            *cli,
            chosen,
            max_events as nat,
            out,
        );
    let by = match asked {
        Some(by) => by,
        None => CollectBy::Metric,
    };
    assert(by == strategy_asked(*cli));
    let groups = chosen->Ok_0.deep_view();
    assert(plan.groups.deep_view() == groups);
    let tuples_of = event_tuples_of(*db, groups);
    assert(tuples.deep_view() == tuples_of);
    let merged = schedule_of(tuples_of, by, max_events as nat)->Ok_0;
    let scheduler = scheduled->Ok_0;
    assert(scheduler.optimized_event_groups.deep_view() == merged);
    let planned = planned_rounds(merged, max_events as nat, !cli.no_multiplex);
    let names = rounds->Ok_0;
    assert(names.deep_view() == planned);
    let deep = plan.rounds.deep_view();
    assert(deep.len() == plan.rounds.len());
    assert(names.deep_view().len() == names.len());
    assert(deep.len() == planned.len());
    assert(names.deep_view()[r] == names@[r].deep_view());
    assert(deep[r] == round_configs(*db, planned[r]));
}

/// A plan is refused for its schedule exactly if scheduling or cutting into
/// rounds is, and for the same reason.
pub proof fn law_plan_refused(
    db: &TelemetryDatabase,
    cli: &Cli,
    max_events: usize,
    e: GroupScheduleError,
    split: Vec<String>,
    stages: Vec<usize>,
    node: Option<&str>,
    groups: Vec<GroupLike>,
    tuples: Vec<Vec<Vec<String>>>,
    name: &str,
    asked: Option<CollectBy>,
    scheduled: Result<EventScheduler, GroupScheduleError>,
    rounds: Result<Vec<Vec<Vec<String>>>, GroupScheduleError>,
)
    requires
        call_ensures(plan_capture, (db, cli, max_events), Err(PlanError::Schedule(e))),
        call_ensures(split_groups, (&cli.metric_group,), split),
        stages_named(lowercase_of(cli.stages@)) == Some(stages@),
        match node {
            Some(n) => cli.node matches Some(m) && m@ == n@,
            None => cli.node is None,
        },
        call_ensures(build_capture_groups, (db, &split, node, &stages), Ok(groups)),
        call_ensures(event_tuples, (db, &groups), tuples),
        name@ == cli.collect_by@,
        call_ensures(CollectBy::from_str, (name,), asked),
        call_ensures(
            EventScheduler::new,
            (
                tuples,
                match asked {
                    Some(by) => by,
                    None => CollectBy::Metric,
                },
                max_events,
            ),
            scheduled,
        ),
        scheduled matches Ok(scheduler) ==> call_ensures(
            EventScheduler::plan_rounds,
            (&scheduler, !cli.no_multiplex),
            rounds,
        ),
    ensures
        match scheduled {
            Err(f) => e.required == f.required && e.available == f.available
                && e.event_names.deep_view() == f.event_names.deep_view(),
            Ok(_) => rounds matches Err(f) && e.required == f.required && e.available
                == f.available && e.event_names.deep_view() == f.event_names.deep_view(),
        },
{
    let out = Err::<CapturePlan, PlanError>(PlanError::Schedule(e));
    let same = choose|same: Result<Vec<GroupLike>, PlanError>| #[trigger]
        asked_groups(*db, *cli, stages@, same) && plan_follows(
            *db,
            *cli,
            same,
            max_events as nat,
            out,
        );
    let by = match asked {
        Some(by) => by,
        None => CollectBy::Metric,
    };
    assert(by == strategy_asked(*cli));
    let names = split.deep_view();
    if names.len() > 0 {
        if let Err(PlanError::UnknownGroup(a)) = same {
            lemma_first_unknown(*db, names, a@, a@);
        }
    }
    assert(same is Ok);
    assert(same->Ok_0.deep_view() == groups.deep_view());
    assert(tuples.deep_view() == event_tuples_of(*db, groups.deep_view()));
}

/// A metric that names an event twice has no value.
pub proof fn law_repeated_event<
    T: Copy,
    L: Fn(&str) -> T,
    N: Fn(T) -> T,
    B: Fn(BinaryOp, T, T) -> T,
    Z: Fn(T) -> bool,
    I: Fn(T) -> i64,
    W: Fn(i64) -> T,
    U: Fn(T) -> bool,
>(
    metric: &Metric,
    values: &NameMap<T>,
    arithmetic: &Arithmetic<T, L, N, B, Z, I, W>,
    is_undefined: &U,
    value: Option<T>,
    i: int,
    j: int,
)
    requires
        call_ensures(
            compute_metric::<T, L, N, B, Z, I, W, U>,
            (metric, values, arithmetic, is_undefined),
            value,
        ),
        0 <= i < j < metric.event_names.len(),
        metric.event_names@[i]@ == metric.event_names@[j]@,
    ensures
        value is None,
{
    let names = metric.event_names.deep_view();
    let f = |name: Seq<char>|
        match value_of(values@, name) {
            Some(v) => Some((name, v)),
            None => None,
        };
    assert(names[i] == names[j]);
    if forall|k: int| 0 <= k < names.len() ==> f(#[trigger] names[k]) is Some {
        let pairs = Seq::new(names.len(), |k: int| f(names[k])->0);
        lemma_all_mapped(names, f, pairs);
        assert(pairs[i].0 == pairs[j].0);
        lemma_gathered_fewer(pairs, i, j);
    } else {
        let k = choose|k: int| 0 <= k < names.len() && f(#[trigger] names[k]) is None;
        lemma_fewer_mapped(names, f, k);
        lemma_gathered_len(names.filter_map(f));
    }
}

proof fn lemma_gathered_fewer<K, V>(pairs: Seq<(K, V)>, i: int, j: int)
    requires
        0 <= i < j < pairs.len(),
        pairs[i].0 == pairs[j].0,
    ensures
        gathered(pairs).len() < pairs.len(),
    decreases pairs.len(),
{
    let front = pairs.drop_last();
    let last = pairs.last();
    lemma_gathered_len(front);
    lemma_place_of(gathered(front), last.0);
    if j < front.len() {
        assert(front[i] == pairs[i] && front[j] == pairs[j]);
        lemma_gathered_fewer(front, i, j);
    } else {
        law_gathered(front, last.0);
        assert(front[i].0 == last.0);
        assert(has_name(front, last.0));
    }
}

/// What the errors of cores, plans and loading say.
pub proof fn law_messages(
    core: &CoreError,
    a: String,
    plan: &PlanError,
    b: String,
    load: &LoadError,
    c: String,
    inner: &SpecError,
    said: String,
)
    requires
        call_ensures(CoreError::message, (core,), a),
        call_ensures(PlanError::message, (plan,), b),
        call_ensures(LoadError::message, (load,), c),
        call_ensures(SpecError::message, (inner,), said),
    ensures
        core is Range ==> a@ == "Invalid core range"@,
        core is Number ==> a@ == "Invalid core number"@,
        plan matches PlanError::Stages(s) ==> b@ == "Invalid --stages value: '"@ + s@
            + "'. Use 1, 2, all, or combined."@,
        plan matches PlanError::UnknownGroup(name) ==> b@ == "Unknown metric group: '"@ + name@
            + "'"@,
        plan matches PlanError::UnknownNode(name) ==> b@ == "Unknown topdown node: '"@ + name@
            + "'"@,
        plan is Schedule ==> b@ == "Failed to schedule events"@,
        load matches LoadError::Core(e) ==> (*e == *core ==> c@ == a@),
        load is Midr ==> c@ == "Failed to read CPU MIDR. Specify --cpu <file.json> manually."@,
        load is NoMetricsDir ==> c@
            == "Cannot find metrics directory. Use --metrics-dir to specify."@,
        load matches LoadError::NoMapping(dir) ==> c@ == "No mapping.json found in "@ + dir@
            + ". Use --metrics-dir or --cpu to specify."@,
        load matches LoadError::NoSpec { midr, cpu_id } ==> c@
            == "No telemetry spec found for CPU (MIDR=0x"@ + padded(hex_text(*midr), 8, '0')
            + ", ID=0x"@ + hex_text(*cpu_id) + "). Use --cpu <file.json> to specify manually."@,
        load matches LoadError::Mapping(e) ==> (*e == *inner ==> c@ == said@),
        load matches LoadError::Spec(e) ==> (*e == *inner ==> c@ == said@),
{
}

/// A plan for stages that nobody can ask for is refused with their text.
pub proof fn law_plan_stages(
    db: &TelemetryDatabase,
    cli: &Cli,
    max_events: usize,
    out: Result<CapturePlan, PlanError>,
    text: &str,
    stages: Result<Vec<usize>, PlanError>,
)
    requires
        call_ensures(plan_capture, (db, cli, max_events), out),
        text@ == cli.stages@,
        call_ensures(parse_stages, (text,), stages),
    ensures
        stages is Err ==> (out matches Err(PlanError::Stages(s)) && s@ == cli.stages@),
        stages is Ok ==> !(out matches Err(PlanError::Stages(_))),
{
    if let Ok(found) = stages {
        let chosen = choose|chosen: Result<Vec<GroupLike>, PlanError>| #[trigger]
            asked_groups(*db, *cli, found@, chosen) && plan_follows(
                *db,
                *cli,
                chosen,
                max_events as nat,
                out,
            );
        assert(asked_groups(*db, *cli, found@, chosen));
    }
}

/// The texts that ask for stages, and the stages that they ask for, of any text.
/// A text is read as its small letters are.
pub proof fn law_stages_of_text(
    s: &str,
    out: Option<Vec<usize>>,
    lowered: &str,
    same: Option<Vec<usize>>,
    read: Result<Vec<usize>, PlanError>,
)
    requires
        call_ensures(stages_from_lowercase, (s,), out),
        lowered@ == lowercase_of(s@),
        call_ensures(stages_from_lowercase, (lowered,), same),
        call_ensures(parse_stages, (s,), read),
    ensures
        s@ == seq!['1'] ==> (out matches Some(stages) && stages@ == seq![1usize]),
        s@ == seq!['2'] ==> (out matches Some(stages) && stages@ == seq![2usize]),
        s@ == seq!['1', ',', '2'] || s@ == seq!['2', ',', '1'] || s@ == seq!['a', 'l', 'l'] || s@
            == seq!['c', 'o', 'm', 'b', 'i', 'n', 'e', 'd'] ==> (out matches Some(stages)
            && stages@ == seq![1usize, 2usize]),
        out is Some ==> s@ == seq!['1'] || s@ == seq!['2'] || s@ == seq!['1', ',', '2'] || s@
            == seq!['2', ',', '1'] || s@ == seq!['a', 'l', 'l'] || s@ == seq![
            'c',
            'o',
            'm',
            'b',
            'i',
            'n',
            'e',
            'd',
        ],
        match read {
            Ok(stages) => same matches Some(expected) && stages@ == expected@,
            Err(e) => same is None && (e matches PlanError::Stages(text) && text@ == s@),
        },
{
    reveal_strlit("1");
    reveal_strlit("2");
    reveal_strlit("all");
    reveal_strlit("1,2");
    reveal_strlit("2,1");
    reveal_strlit("combined");
    assert("1"@ =~= seq!['1']);
    assert("2"@ =~= seq!['2']);
    assert("all"@ =~= seq!['a', 'l', 'l']);
    assert("1,2"@ =~= seq!['1', ',', '2']);
    assert("2,1"@ =~= seq!['2', ',', '1']);
    assert("combined"@ =~= seq!['c', 'o', 'm', 'b', 'i', 'n', 'e', 'd']);
    assert(seq!['1', ',', '2'].len() == 3);
    assert(seq!['2', ',', '1'].len() == 3);
    assert(seq!['a', 'l', 'l'].len() == 3);
    assert(seq!['c', 'o', 'm', 'b', 'i', 'n', 'e', 'd'].len() == 8);
    assert(seq!['1'][0] != seq!['2'][0]);
}

} // verus!
