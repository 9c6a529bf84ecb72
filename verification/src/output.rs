//! What is shown on the terminal and written to CSV files.
use vstd::prelude::*;
use vstd::string::*;
use vstd::utf8::{encode_utf8, is_char_boundary};

use crate::cpu::{lemma_filter_map, ComputedGroup, ComputedMetric, TimestampedComputedGroups};
use crate::database::{Event, Group, Metric, TelemetryDatabase, TopdownMethodology};
use crate::name_map::{has_name, value_of};
use crate::number::{
    decimal_text, hex_field, hex_text, numeral, padded, to_decimal, to_hex_field,
};
use crate::order::{
    ascending, by_name, law_by_name, law_sorted_distinct, sort_by_name, sort_distinct,
    sorted_distinct, Ranked,
};
use crate::perf::lemma_map_flatten;
use crate::results::{
    all_pairs, by_event, lemma_pair_place, lemma_place_found, pairs_of, reported, EventResults,
};
use crate::scheduler::{lemma_flatten_has, lemma_flatten_part, Names};
use crate::table::{
    all_plain, draw, drawn, draws, plain_cell, plain_cells, plain_row, texts, CellStyle, CellText,
    RowInfo, TableInfo, TableText,
};
use crate::text::{
    ascii_lowered, copy_texts, same_chars, slice_chars, small_letter, to_chars, to_small_letter,
};
use crate::workload::TimestampedSnapshot;

verus! {

// ─── Numbers ─────────────────────────────────────────────────────────────────

/// A number in the forms in which it is shown.
#[derive(Debug, Clone)]
pub struct NumberText {
    /// With two decimals.
    pub fixed2: String,
    /// With three decimals.
    pub fixed3: String,
    /// Without decimals.
    pub whole: String,
    /// With as many decimals as it needs.
    pub plain: String,
    /// Whether the number is above fifty.
    pub above_fifty: bool,
}

/// What a `NumberText` stands for.
#[verifier::ext_equal]
pub struct NumberInfo {
    pub fixed2: Seq<char>,
    pub fixed3: Seq<char>,
    pub whole: Seq<char>,
    pub plain: Seq<char>,
    pub above_fifty: bool,
}

impl DeepView for NumberText {
    type V = NumberInfo;

    open spec fn deep_view(&self) -> NumberInfo {
        NumberInfo {
            fixed2: self.fixed2@,
            fixed3: self.fixed3@,
            whole: self.whole@,
            plain: self.plain@,
            above_fifty: self.above_fifty,
        }
    }
}

/// Whether units can be cut after seven bytes, if they have as many.
pub open spec fn units_cut(units: Seq<char>) -> bool {
    encode_utf8(units).len() >= 7 ==> is_char_boundary(encode_utf8(units), 7)
}

/// Whether units can be cut after seven bytes, if they have as many.
pub fn check_units(units: &str) -> (b: bool)
    ensures
        b == units_cut(units@),
{
    units.as_bytes().len() < 7 || units.is_char_boundary(7)
}

/// Whether units start with `percent`, in any case.
pub open spec fn percent_units(units: Seq<char>) -> bool {
    units.len() >= 7 && ascii_lowered(units.take(7)) == "percent"@
}

/// Whether units start with `percent`, in any case.
pub fn is_percent(units: &str) -> (b: bool)
    requires
        units_cut(units@),
    ensures
        b == percent_units(units@),
{
    let chars = to_chars(units);
    if chars.len() < 7 {
        return false;
    }
    let front = slice_chars(&chars, 0, 7);
    assert(front@ =~= units@.take(7));
    let mut lowered: Vec<char> = Vec::new();
    for i in 0..front.len()
        invariant
            lowered@ =~= ascii_lowered(front@.take(i as int)),
    {
        lowered.push(to_small_letter(front[i]));
    }
    assert(front@.take(front.len() as int) =~= front@);
    same_chars(&lowered, &to_chars("percent"))
}

/// A value as it is shown: with two decimals if it is a percentage, else with
/// three.
pub open spec fn value_text(value: Option<NumberInfo>, units: Seq<char>) -> Seq<char> {
    match value {
        None => "n/a"@,
        Some(v) => if percent_units(units) {
            v.fixed2
        } else {
            v.fixed3
        },
    }
}

/// A value as it is shown.
pub fn format_value(val: &Option<NumberText>, units: &str) -> (out: String)
    requires
        units_cut(units@),
    ensures
        out@ == value_text(val.deep_view(), units@),
{
    match val {
        None => "n/a".to_owned(),
        Some(v) => if is_percent(units) {
            v.fixed2.clone()
        } else {
            v.fixed3.clone()
        },
    }
}

/// Units as they are shown: `%` for percentages.
pub open spec fn unit_text(units: Seq<char>) -> Seq<char> {
    if percent_units(units) {
        "%"@
    } else {
        units
    }
}

/// Units as they are shown.
pub fn adjust_unit(units: &str) -> (out: String)
    requires
        units_cut(units@),
    ensures
        out@ == unit_text(units@),
{
    if is_percent(units) {
        "%".to_owned()
    } else {
        units.to_owned()
    }
}

/// A value in a CSV file; nothing if there is none.
pub open spec fn csv_text(value: Option<NumberInfo>) -> Seq<char> {
    match value {
        Some(v) => v.plain,
        None => Seq::empty(),
    }
}

/// A value in a CSV file.
pub fn format_csv_value(val: &Option<NumberText>) -> (out: String)
    ensures
        out@ == csv_text(val.deep_view()),
{
    match val {
        Some(v) => v.plain.clone(),
        None => String::new(),
    }
}

/// The style of a value: red and bold for a percentage above fifty, grey where
/// there is no value.
pub open spec fn value_style(value: Option<NumberInfo>, units: Seq<char>) -> CellStyle {
    match value {
        None => CellStyle::DarkGrey,
        Some(v) => if percent_units(units) && v.above_fifty {
            CellStyle::RedBold
        } else {
            CellStyle::Plain
        },
    }
}

/// The cell of a computed metric.
pub open spec fn value_cell(cm: ComputedMetric<NumberText>) -> (Seq<char>, CellStyle) {
    (value_text(cm.value.deep_view(), cm.units@), value_style(cm.value.deep_view(), cm.units@))
}

/// The cell of a computed metric.
pub fn metric_value_cell(cm: &ComputedMetric<NumberText>) -> (cell: CellText)
    requires
        units_cut(cm.units@),
    ensures
        cell.deep_view() == value_cell(*cm),
{
    let text = format_value(&cm.value, cm.units.as_str());
    let is_pct = is_percent(cm.units.as_str());
    let style = match &cm.value {
        None => CellStyle::DarkGrey,
        Some(v) => if is_pct && v.above_fifty {
            CellStyle::RedBold
        } else {
            CellStyle::Plain
        },
    };
    CellText { text, style }
}

// ─── Listings ────────────────────────────────────────────────────────────────

/// A list with one more text if it is wanted.
pub open spec fn with_extra(items: Seq<Seq<char>>, wanted: bool, extra: Seq<char>) -> Seq<
    Seq<char>,
> {
    if wanted {
        items.push(extra)
    } else {
        items
    }
}

fn add_extra(items: Vec<String>, wanted: bool, extra: &str) -> (out: Vec<String>)
    ensures
        out.deep_view() == with_extra(items.deep_view(), wanted, extra@),
{
    let ghost before = items.deep_view();
    let mut out = items;
    if wanted {
        out.push(extra.to_owned());
        assert(out.deep_view() =~= before.push(extra@));
    }
    out
}

/// A code with at least four hexadecimal digits.
pub open spec fn code_text(code: u64) -> Seq<char> {
    "0x"@ + hex_field(code, 4)
}

fn write_code(code: u64) -> (out: String)
    ensures
        out@ == code_text(code),
{
    let mut out = "0x".to_owned();
    out.append(to_hex_field(code, 4).as_str());
    out
}

/// The rows of entries.
pub open spec fn rows_of(entries: Seq<(Seq<char>, RowInfo)>) -> Seq<RowInfo> {
    entries.map_values(|e: (Seq<char>, RowInfo)| e.1)
}

fn take_rows(entries: Vec<(String, Vec<CellText>)>) -> (rows: Vec<Vec<CellText>>)
    ensures
        rows.deep_view() == rows_of(entries.deep_view()),
{
    let ghost all = entries.deep_view();
    let mut rest = entries;
    let mut rows: Vec<Vec<CellText>> = Vec::new();
    assert(rows.deep_view() =~= rows_of(all.take(0)));
    assert(all.skip(0) =~= all);
    while rest.len() > 0
        invariant
            rest.len() <= all.len(),
            rest.deep_view() == all.skip(all.len() - rest.len()),
            rows.deep_view() == rows_of(all.take(all.len() - rest.len())),
        decreases rest.len(),
    {
        let ghost done = all.len() - rest.len();
        let ghost before = rest.deep_view();
        let ghost so_far = rows.deep_view();
        let (name, row) = rest.remove(0);
        let ghost v = row.deep_view();
        proof {
            assert(before[0] == (name@, v));
            assert(all[done] == (name@, v));
            assert(rest.deep_view() =~= before.remove(0));
            assert(rest.deep_view() =~= all.skip(done + 1));
        }
        rows.push(row);
        assert(rows.deep_view() =~= so_far.push(v));
        assert(rows_of(all.take(done + 1)) =~= so_far.push(v));
    }
    assert(all.take(all.len() as int) =~= all);
    rows
}

/// The row of an event, under its name.
pub open spec fn event_row(event: Event, descriptions: bool) -> (Seq<char>, RowInfo) {
    (
        event.name@,
        plain_row(
            with_extra(
                seq![event.name@, code_text(event.code), event.title@],
                descriptions,
                event.description@,
            ),
        ),
    )
}

/// The table of all events, by name.
pub open spec fn events_table_of(db: TelemetryDatabase, descriptions: bool) -> TableInfo {
    TableInfo {
        header: with_extra(seq!["Event"@, "Code"@, "Title"@], descriptions, "Description"@),
        rows: rows_of(
            by_name(
                db.events@.map_values(
                    |e: (Seq<char>, Event)| event_row(e.1, descriptions),
                ),
            ),
        ),
    }
}

/// The table of all events, by name.
pub fn events_table(db: &TelemetryDatabase, descriptions: bool) -> (table: TableText)
    ensures
        table.deep_view() == events_table_of(*db, descriptions),
{
    let ghost all = db.events@;
    let ghost f = |e: (Seq<char>, Event)| event_row(e.1, descriptions);
    let mut entries: Vec<(String, Vec<CellText>)> = Vec::new();
    assert(entries.deep_view() =~= all.take(0).map_values(f));
    let n = db.events.len();
    for i in 0..n
        invariant
            n == all.len(),
            all == db.events@,
            f == (|e: (Seq<char>, Event)| event_row(e.1, descriptions)),
            entries.deep_view() == all.take(i as int).map_values(f),
    {
        let ghost before = entries.deep_view();
        let event = db.events.value_at(i);
        let code = write_code(event.code);
        let cells = add_extra(
            texts(event.name.as_str(), code.as_str(), event.title.as_str()),
            descriptions,
            event.description.as_str(),
        );
        let row = plain_cells(&cells);
        let ghost v = row.deep_view();
        entries.push((event.name.clone(), row));
        assert(entries.deep_view() =~= before.push((event.name@, v)));
        assert(all.take(i + 1).map_values(f) =~= before.push(f(all[i as int])));
    }
    assert(all.take(all.len() as int) =~= all);
    let header = add_extra(texts("Event", "Code", "Title"), descriptions, "Description");
    TableText { header, rows: take_rows(sort_by_name(entries)) }
}

/// The row of a group, under its name.
pub open spec fn group_row(
    entry: (Seq<char>, Group),
    topdown: TopdownMethodology,
    descriptions: bool,
) -> (Seq<char>, RowInfo) {
    let (name, group) = entry;
    (
        name,
        plain_row(
            with_extra(
                seq![
                    name,
                    decimal_text(topdown.stage_of(name) as nat),
                    decimal_text(group.metric_names.deep_view().len()),
                ],
                descriptions,
                group.description@,
            ),
        ),
    )
}

/// The table of all groups, by name.
pub open spec fn groups_table_of(db: TelemetryDatabase, descriptions: bool) -> TableInfo {
    TableInfo {
        header: with_extra(seq!["Group"@, "Stage"@, "Metrics"@], descriptions, "Description"@),
        rows: rows_of(
            by_name(
                db.groups@.map_values(
                    |e: (Seq<char>, Group)| group_row(e, db.topdown, descriptions),
                ),
            ),
        ),
    }
}

/// The table of all groups, by name.
pub fn groups_table(db: &TelemetryDatabase, descriptions: bool) -> (table: TableText)
    ensures
        table.deep_view() == groups_table_of(*db, descriptions),
{
    let ghost all = db.groups@;
    let ghost f = |e: (Seq<char>, Group)| group_row(e, db.topdown, descriptions);
    let mut entries: Vec<(String, Vec<CellText>)> = Vec::new();
    assert(entries.deep_view() =~= all.take(0).map_values(f));
    let n = db.groups.len();
    for i in 0..n
        invariant
            n == all.len(),
            all == db.groups@,
            f == (|e: (Seq<char>, Group)| group_row(e, db.topdown, descriptions)),
            entries.deep_view() == all.take(i as int).map_values(f),
    {
        let ghost before = entries.deep_view();
        let name = db.groups.name_at(i);
        let group = db.groups.value_at(i);
        let stage = to_decimal(db.topdown.get_stage_for_group(name.as_str()) as u64);
        let count = to_decimal(group.metric_names.len() as u64);
        let cells = add_extra(
            texts(name.as_str(), stage.as_str(), count.as_str()),
            descriptions,
            group.description.as_str(),
        );
        let row = plain_cells(&cells);
        let ghost v = row.deep_view();
        entries.push((name.clone(), row));
        assert(all[i as int] == (name@, *group));
        assert(entries.deep_view() =~= before.push((name@, v)));
        assert(all.take(i + 1).map_values(f) =~= before.push(f(all[i as int])));
    }
    assert(all.take(all.len() as int) =~= all);
    let header = add_extra(texts("Group", "Stage", "Metrics"), descriptions, "Description");
    TableText { header, rows: take_rows(sort_by_name(entries)) }
}

/// Entries with plain rows have plain rows in any order.
proof fn lemma_plain_by_name(entries: Seq<(Seq<char>, RowInfo)>)
    requires
        all_plain(rows_of(entries)),
    ensures
        all_plain(rows_of(by_name(entries))),
{
    crate::order::law_by_name(entries);
    let sorted = by_name(entries);
    let rows = rows_of(sorted);
    broadcast use vstd::seq_lib::group_to_multiset_ensures;

    assert forall|r: int, c: int| 0 <= r < rows.len() && 0 <= c < rows[r].len() implies (
    #[trigger] rows[r][c]).1 == CellStyle::Plain by {
        assert(sorted.contains(sorted[r]));
        assert(sorted.to_multiset().count(sorted[r]) > 0);
        assert(entries.contains(sorted[r]));
        let k = entries.index_of(sorted[r]);
        assert(rows_of(entries)[k][c].1 == CellStyle::Plain);
    }
}

/// What is shown of the events: their table, and how many there are.
pub fn list_events(db: &TelemetryDatabase, descriptions: bool) -> (lines: Vec<String>)
    ensures
        lines.deep_view() == seq![
            drawn(events_table_of(*db, descriptions)),
            "\nTotal: "@ + decimal_text(db.events@.len()) + " events"@,
        ],
{
    let table = events_table(db, descriptions);
    proof {
        let f = |e: (Seq<char>, Event)| event_row(e.1, descriptions);
        lemma_plain_by_name(db.events@.map_values(f));
    }
    let mut lines: Vec<String> = Vec::new();
    lines.push(draw(&table));
    let mut total = "\nTotal: ".to_owned();
    total.append(to_decimal(db.events.len() as u64).as_str());
    total.append(" events");
    lines.push(total);
    assert(lines.deep_view() =~= seq![lines@[0]@, lines@[1]@]);
    lines
}

/// What is shown of the groups: their table.
pub fn list_groups(db: &TelemetryDatabase, descriptions: bool) -> (lines: Vec<String>)
    ensures
        lines.deep_view() == seq![drawn(groups_table_of(*db, descriptions))],
{
    let table = groups_table(db, descriptions);
    proof {
        let f = |e: (Seq<char>, Group)| group_row(e, db.topdown, descriptions);
        lemma_plain_by_name(db.groups@.map_values(f));
    }
    let mut lines: Vec<String> = Vec::new();
    lines.push(draw(&table));
    assert(lines.deep_view() =~= seq![lines@[0]@]);
    lines
}

/// The line of a metric.
pub open spec fn metric_line(metric: Metric, descriptions: bool) -> Seq<char> {
    "    - "@ + metric.name@ + " ["@ + metric.units@ + if descriptions {
        "]  — "@ + metric.title@
    } else {
        "]"@
    }
}

/// The lines of the metrics of a group that exist.
pub open spec fn metric_lines(db: TelemetryDatabase, names: Seq<Seq<char>>, descriptions: bool) -> Seq<
    Seq<char>,
> {
    names.filter_map(
        |name: Seq<char>|
            match value_of(db.metrics@, name) {
                Some(metric) => Some(metric_line(metric, descriptions)),
                None => None,
            },
    )
}

/// The lines of a group, if it exists: its title and name, its metrics, and an
/// empty line.
pub open spec fn group_lines(db: TelemetryDatabase, name: Seq<char>, descriptions: bool) -> Seq<
    Seq<char>,
> {
    match value_of(db.groups@, name) {
        Some(group) => seq!["  "@ + group.title@ + " ("@ + group.name@ + ")"@] + metric_lines(
            db,
            group.metric_names.deep_view(),
            descriptions,
        ) + seq![""@],
        None => Seq::empty(),
    }
}

/// The lines of a stage: a headline, and its groups.
pub open spec fn stage_lines(
    db: TelemetryDatabase,
    label: Seq<char>,
    names: Seq<Seq<char>>,
    descriptions: bool,
) -> Seq<Seq<char>> {
    seq!["=== "@ + label + " ===\n"@] + names.flat_map(
        |name: Seq<char>| group_lines(db, name, descriptions),
    )
}

fn write_metric_line(metric: &Metric, descriptions: bool) -> (out: String)
    ensures
        out@ == metric_line(*metric, descriptions),
{
    let mut out = "    - ".to_owned();
    out.append(metric.name.as_str());
    out.append(" [");
    out.append(metric.units.as_str());
    if descriptions {
        out.append("]  — ");
        out.append(metric.title.as_str());
    } else {
        out.append("]");
    }
    assert(out@ =~= metric_line(*metric, descriptions));
    out
}

fn add_group_lines(
    lines: Vec<String>,
    db: &TelemetryDatabase,
    name: &str,
    descriptions: bool,
) -> (out: Vec<String>)
    ensures
        out.deep_view() == lines.deep_view() + group_lines(*db, name@, descriptions),
{
    let ghost before = lines.deep_view();
    let mut out = lines;
    if let Some(group) = db.groups.get(name) {
        let mut head = "  ".to_owned();
        head.append(group.title.as_str());
        head.append(" (");
        head.append(group.name.as_str());
        head.append(")");
        out.push(head);
        let ghost first = before.push(head@);
        let ghost all = group.metric_names.deep_view();
        let ghost f = |name: Seq<char>|
            match value_of(db.metrics@, name) {
                Some(metric) => Some(metric_line(metric, descriptions)),
                None => None,
            };
        assert(all.take(0) =~= Seq::empty());
        assert(out.deep_view() =~= first + all.take(0).filter_map(f));
        for i in 0..group.metric_names.len()
            invariant
                all == group.metric_names.deep_view(),
                f == (|name: Seq<char>|
                    match value_of(db.metrics@, name) {
                        Some(metric) => Some(metric_line(metric, descriptions)),
                        None => None,
                    }),
                out.deep_view() == first + all.take(i as int).filter_map(f),
        {
            let ghost so_far = out.deep_view();
            proof {
                all.lemma_filter_map_take_succ(f, i as int);
            }
            if let Some(metric) = db.metrics.get(group.metric_names[i].as_str()) {
                out.push(write_metric_line(metric, descriptions));
                assert(out.deep_view() =~= so_far.push(metric_line(*metric, descriptions)));
            }
            assert(out.deep_view() =~= first + all.take(i + 1).filter_map(f));
        }
        assert(all.take(all.len() as int) =~= all);
        let ghost so_far = out.deep_view();
        out.push("".to_owned());
        assert(out.deep_view() =~= so_far.push(""@));
        assert(out.deep_view() =~= before + group_lines(*db, name@, descriptions));
    } else {
        assert(out.deep_view() =~= before + group_lines(*db, name@, descriptions));
    }
    out
}

fn add_stage_lines(
    lines: Vec<String>,
    db: &TelemetryDatabase,
    label: &str,
    names: &Vec<String>,
    descriptions: bool,
) -> (out: Vec<String>)
    ensures
        out.deep_view() == lines.deep_view() + stage_lines(
            *db,
            label@,
            names.deep_view(),
            descriptions,
        ),
{
    let ghost before = lines.deep_view();
    let mut out = lines;
    let mut head = "=== ".to_owned();
    head.append(label);
    head.append(" ===\n");
    out.push(head);
    let ghost first = before.push(head@);
    let ghost all = names.deep_view();
    let ghost f = |name: Seq<char>| group_lines(*db, name, descriptions);
    assert(all.take(0) =~= Seq::empty());
    assert(out.deep_view() =~= first + all.take(0).flat_map(f));
    for i in 0..names.len()
        invariant
            all == names.deep_view(),
            f == (|name: Seq<char>| group_lines(*db, name, descriptions)),
            out.deep_view() == first + all.take(i as int).flat_map(f),
    {
        proof {
            all.lemma_flat_map_take_append(f, i as int);
        }
        let ghost so_far = out.deep_view();
        out = add_group_lines(out, db, names[i].as_str(), descriptions);
        assert(out.deep_view() =~= first + all.take(i + 1).flat_map(f));
    }
    assert(all.take(all.len() as int) =~= all);
    assert(out.deep_view() =~= before + stage_lines(*db, label@, all, descriptions));
    out
}

/// What is shown of the metrics: the groups of the two stages with their
/// metrics, and how many metrics there are.
pub fn list_metrics(db: &TelemetryDatabase, descriptions: bool) -> (lines: Vec<String>)
    ensures
        lines.deep_view() == stage_lines(
            *db,
            "Stage 1 (Topdown)"@,
            db.topdown.stage_1_group_names.deep_view(),
            descriptions,
        ) + stage_lines(
            *db,
            "Stage 2 (Micro-architecture)"@,
            db.topdown.stage_2_group_names.deep_view(),
            descriptions,
        ) + seq!["Total: "@ + decimal_text(db.metrics@.len()) + " metrics"@],
{
    let empty: Vec<String> = Vec::new();
    let mut lines = add_stage_lines(
        empty,
        db,
        "Stage 1 (Topdown)",
        &db.topdown.stage_1_group_names,
        descriptions,
    );
    lines = add_stage_lines(
        lines,
        db,
        "Stage 2 (Micro-architecture)",
        &db.topdown.stage_2_group_names,
        descriptions,
    );
    let ghost before = lines.deep_view();
    let mut total = "Total: ".to_owned();
    total.append(to_decimal(db.metrics.len() as u64).as_str());
    total.append(" metrics");
    lines.push(total);
    assert(lines.deep_view() =~= before.push(total@));
    assert(empty.deep_view() =~= Seq::empty());
    lines
}

// ─── Metrics ─────────────────────────────────────────────────────────────────

/// Whether the units of all metrics of a group can be cut after seven bytes, if
/// they have as many.
pub open spec fn group_cut(group: ComputedGroup<NumberText>) -> bool {
    forall|k: int|
        0 <= k < group.metrics@.len() ==> units_cut((#[trigger] group.metrics@[k]).units@)
}

/// Whether that holds of all groups.
pub open spec fn groups_cut(groups: Seq<ComputedGroup<NumberText>>) -> bool {
    forall|i: int| 0 <= i < groups.len() ==> group_cut(#[trigger] groups[i])
}

/// Whether the units of all metrics can be cut after seven bytes, if they have
/// as many.
pub fn check_groups(groups: &Vec<ComputedGroup<NumberText>>) -> (b: bool)
    ensures
        b == groups_cut(groups@),
{
    for i in 0..groups.len()
        invariant
            forall|j: int| 0 <= j < i ==> group_cut(#[trigger] groups@[j]),
    {
        let metrics = &groups[i].metrics;
        for k in 0..metrics.len()
            invariant
                i < groups.len(),
                metrics@ == groups@[i as int].metrics@,
                forall|j: int| 0 <= j < k ==> units_cut((#[trigger] metrics@[j]).units@),
        {
            if !check_units(metrics[k].units.as_str()) {
                assert(!units_cut(groups@[i as int].metrics@[k as int].units@));
                assert(!group_cut(groups@[i as int]));
                return false;
            }
        }
        assert(group_cut(groups@[i as int]));
    }
    true
}

/// The headline of a group.
pub open spec fn group_head(group: ComputedGroup<NumberText>) -> Seq<char> {
    "── "@ + group.group_title@ + " ("@ + if group.stage == 1 {
        "Stage 1"@
    } else {
        "Stage 2"@
    } + ") ──"@
}

fn write_group_head(group: &ComputedGroup<NumberText>) -> (out: String)
    ensures
        out@ == group_head(*group),
{
    let mut out = "── ".to_owned();
    out.append(group.group_title.as_str());
    out.append(" (");
    if group.stage == 1 {
        out.append("Stage 1");
    } else {
        out.append("Stage 2");
    }
    out.append(") ──");
    assert(out@ =~= group_head(*group));
    out
}

/// What a metric is described by: its title, if it exists.
pub open spec fn metric_title(metrics: Seq<(Seq<char>, Metric)>, name: Seq<char>) -> Seq<char> {
    match value_of(metrics, name) {
        Some(metric) => metric.title@,
        None => ""@,
    }
}

/// The row of a computed metric.
pub open spec fn metric_row(
    db: TelemetryDatabase,
    cm: ComputedMetric<NumberText>,
    descriptions: bool,
) -> RowInfo {
    let row = seq![
        (cm.metric_name@, CellStyle::Plain),
        value_cell(cm),
        (unit_text(cm.units@), CellStyle::Plain),
    ];
    if descriptions {
        row.push((metric_title(db.metrics@, cm.metric_name@), CellStyle::Plain))
    } else {
        row
    }
}

/// The table of a computed group.
pub open spec fn group_table_of(
    db: TelemetryDatabase,
    group: ComputedGroup<NumberText>,
    descriptions: bool,
) -> TableInfo {
    TableInfo {
        header: with_extra(seq!["Metric"@, "Value"@, "Unit"@], descriptions, "Description"@),
        rows: group.metrics@.map_values(
            |cm: ComputedMetric<NumberText>| metric_row(db, cm, descriptions),
        ),
    }
}

fn write_metric_row(
    db: &TelemetryDatabase,
    cm: &ComputedMetric<NumberText>,
    descriptions: bool,
) -> (row: Vec<CellText>)
    requires
        units_cut(cm.units@),
    ensures
        row.deep_view() == metric_row(*db, *cm, descriptions),
{
    let mut row: Vec<CellText> = Vec::new();
    row.push(plain_cell(cm.metric_name.as_str()));
    row.push(metric_value_cell(cm));
    row.push(plain_cell(adjust_unit(cm.units.as_str()).as_str()));
    if descriptions {
        let title = match db.metrics.get(cm.metric_name.as_str()) {
            Some(metric) => metric.title.as_str(),
            None => "",
        };
        row.push(plain_cell(title));
    }
    assert(row.deep_view() =~= metric_row(*db, *cm, descriptions));
    row
}

/// The table of a computed group.
pub fn group_table(
    db: &TelemetryDatabase,
    group: &ComputedGroup<NumberText>,
    descriptions: bool,
) -> (table: TableText)
    requires
        group_cut(*group),
    ensures
        table.deep_view() == group_table_of(*db, *group, descriptions),
{
    let ghost all = group.metrics@;
    let ghost f = |cm: ComputedMetric<NumberText>| metric_row(*db, cm, descriptions);
    let mut rows: Vec<Vec<CellText>> = Vec::new();
    assert(rows.deep_view() =~= all.take(0).map_values(f));
    for i in 0..group.metrics.len()
        invariant
            group_cut(*group),
            all == group.metrics@,
            f == (|cm: ComputedMetric<NumberText>| metric_row(*db, cm, descriptions)),
            rows.deep_view() == all.take(i as int).map_values(f),
    {
        let ghost before = rows.deep_view();
        assert(units_cut(all[i as int].units@));
        let row = write_metric_row(db, &group.metrics[i], descriptions);
        let ghost v = row.deep_view();
        rows.push(row);
        assert(rows.deep_view() =~= before.push(v));
        assert(all.take(i + 1).map_values(f) =~= before.push(f(all[i as int])));
    }
    assert(all.take(all.len() as int) =~= all);
    let header = add_extra(texts("Metric", "Value", "Unit"), descriptions, "Description");
    TableText { header, rows }
}

/// Whether three lines from a place on show a group: an empty line, a headline,
/// and a table.
pub open spec fn shows_group(
    lines: Seq<Seq<char>>,
    at: int,
    head: Seq<char>,
    table: TableInfo,
) -> bool {
    &&& 0 <= at && at + 3 <= lines.len()
    &&& lines[at] == ""@
    &&& lines[at + 1] == head
    &&& draws(table, lines[at + 2])
}

fn add_group(lines: Vec<String>, head: String, table: &TableText) -> (out: Vec<String>)
    ensures
        out.deep_view().len() == lines.deep_view().len() + 3,
        out.deep_view().take(lines.deep_view().len() as int) == lines.deep_view(),
        shows_group(
            out.deep_view(),
            lines.deep_view().len() as int,
            head@,
            table.deep_view(),
        ),
{
    let ghost before = lines.deep_view();
    let mut out = lines;
    out.push("".to_owned());
    out.push(head);
    out.push(draw(table));
    assert(out.deep_view().take(before.len() as int) =~= before);
    out
}

/// Lines that show a group still do when more lines follow.
proof fn lemma_still_shows(
    lines: Seq<Seq<char>>,
    longer: Seq<Seq<char>>,
    at: int,
    head: Seq<char>,
    table: TableInfo,
)
    requires
        shows_group(lines, at, head, table),
        lines.len() <= longer.len(),
        longer.take(lines.len() as int) == lines,
    ensures
        shows_group(longer, at, head, table),
{
    assert(lines[at] == longer[at]);
    assert(lines[at + 1] == longer[at + 1]);
    assert(lines[at + 2] == longer[at + 2]);
}

/// What is shown of computed groups: for each an empty line, a headline, and
/// the table of its metrics.
pub fn render_metrics(
    computed: &Vec<ComputedGroup<NumberText>>,
    db: &TelemetryDatabase,
    descriptions: bool,
) -> (lines: Vec<String>)
    requires
        groups_cut(computed@),
    ensures
        lines.deep_view().len() == 3 * computed.len(),
        forall|i: int|
            0 <= i < computed.len() ==> shows_group(
                lines.deep_view(),
                3 * i,
                group_head(#[trigger] computed@[i]),
                group_table_of(*db, computed@[i], descriptions),
            ),
{
    let mut lines: Vec<String> = Vec::new();
    for i in 0..computed.len()
        invariant
            groups_cut(computed@),
            lines.deep_view().len() == 3 * i,
            forall|k: int|
                0 <= k < i ==> shows_group(
                    lines.deep_view(),
                    3 * k,
                    group_head(#[trigger] computed@[k]),
                    group_table_of(*db, computed@[k], descriptions),
                ),
    {
        let ghost before = lines.deep_view();
        assert(group_cut(computed@[i as int]));
        let table = group_table(db, &computed[i], descriptions);
        lines = add_group(lines, write_group_head(&computed[i]), &table);
        assert forall|k: int| 0 <= k < i + 1 implies shows_group(
            lines.deep_view(),
            3 * k,
            group_head(#[trigger] computed@[k]),
            group_table_of(*db, computed@[k], descriptions),
        ) by {
            if k < i {
                lemma_still_shows(
                    before,
                    lines.deep_view(),
                    3 * k,
                    group_head(computed@[k]),
                    group_table_of(*db, computed@[k], descriptions),
                );
            }
        }
    }
    lines
}

// ─── Metrics as CSV ──────────────────────────────────────────────────────────

/// The CSV record of a computed metric, after some fields.
pub open spec fn metric_record(
    front: Seq<Seq<char>>,
    group: ComputedGroup<NumberText>,
    cm: ComputedMetric<NumberText>,
) -> Seq<Seq<char>> {
    front + seq![
        group.group_name@,
        decimal_text(group.stage as nat),
        cm.metric_name@,
        csv_text(cm.value.deep_view()),
        cm.units@,
    ]
}

/// The CSV records of the metrics of a group, after some fields.
pub open spec fn group_records(
    front: Seq<Seq<char>>,
    group: ComputedGroup<NumberText>,
) -> Seq<Seq<Seq<char>>> {
    group.metrics@.map_values(|cm: ComputedMetric<NumberText>| metric_record(front, group, cm))
}

/// The CSV records of the metrics of groups, after some fields.
pub open spec fn groups_records(
    front: Seq<Seq<char>>,
    groups: Seq<ComputedGroup<NumberText>>,
) -> Seq<Seq<Seq<char>>> {
    groups.flat_map(|group: ComputedGroup<NumberText>| group_records(front, group))
}

/// The CSV file of computed groups: a header, and a record for each metric.
pub open spec fn metrics_csv_of(computed: Seq<ComputedGroup<NumberText>>) -> Seq<Seq<Seq<char>>> {
    seq![seq!["group"@, "stage"@, "metric"@, "value"@, "units"@]] + groups_records(
        Seq::empty(),
        computed,
    )
}

fn add_group_records(
    records: Vec<Vec<String>>,
    front: &Vec<String>,
    group: &ComputedGroup<NumberText>,
) -> (out: Vec<Vec<String>>)
    ensures
        out.deep_view() == records.deep_view() + group_records(front.deep_view(), *group),
{
    let ghost before = records.deep_view();
    let ghost all = group.metrics@;
    let ghost f = |cm: ComputedMetric<NumberText>| metric_record(front.deep_view(), *group, cm);
    let mut out = records;
    assert(out.deep_view() =~= before + all.take(0).map_values(f));
    for i in 0..group.metrics.len()
        invariant
            all == group.metrics@,
            f == (|cm: ComputedMetric<NumberText>| metric_record(front.deep_view(), *group, cm)),
            out.deep_view() == before + all.take(i as int).map_values(f),
    {
        let ghost so_far = out.deep_view();
        let cm = &group.metrics[i];
        let mut record = copy_texts(front);
        record.push(group.group_name.clone());
        record.push(to_decimal(group.stage as u64));
        record.push(cm.metric_name.clone());
        record.push(format_csv_value(&cm.value));
        record.push(cm.units.clone());
        let ghost v = record.deep_view();
        assert(v =~= metric_record(front.deep_view(), *group, *cm));
        out.push(record);
        assert(out.deep_view() =~= so_far.push(v));
        assert(all.take(i + 1).map_values(f) =~= all.take(i as int).map_values(f).push(
            f(all[i as int]),
        ));
    }
    assert(all.take(all.len() as int) =~= all);
    out
}

fn add_groups_records(
    records: Vec<Vec<String>>,
    front: &Vec<String>,
    groups: &Vec<ComputedGroup<NumberText>>,
) -> (out: Vec<Vec<String>>)
    ensures
        out.deep_view() == records.deep_view() + groups_records(front.deep_view(), groups@),
{
    let ghost before = records.deep_view();
    let ghost all = groups@;
    let ghost f = |group: ComputedGroup<NumberText>| group_records(front.deep_view(), group);
    let mut out = records;
    assert(all.take(0) =~= Seq::empty());
    assert(out.deep_view() =~= before + all.take(0).flat_map(f));
    for i in 0..groups.len()
        invariant
            all == groups@,
            f == (|group: ComputedGroup<NumberText>| group_records(front.deep_view(), group)),
            out.deep_view() == before + all.take(i as int).flat_map(f),
    {
        proof {
            all.lemma_flat_map_take_append(f, i as int);
        }
        out = add_group_records(out, front, &groups[i]);
        assert(out.deep_view() =~= before + all.take(i + 1).flat_map(f));
    }
    assert(all.take(all.len() as int) =~= all);
    out
}

/// The CSV file of computed groups.
pub fn metrics_csv(computed: &Vec<ComputedGroup<NumberText>>) -> (records: Vec<Vec<String>>)
    ensures
        records.deep_view() == metrics_csv_of(computed@),
{
    let front = texts("group", "stage", "metric");
    let head = add_extra(add_extra(front, true, "value"), true, "units");
    let ghost h = head.deep_view();
    assert(h =~= seq!["group"@, "stage"@, "metric"@, "value"@, "units"@]);
    let mut records: Vec<Vec<String>> = Vec::new();
    records.push(head);
    assert(records.deep_view() =~= seq![h]);
    let front: Vec<String> = Vec::new();
    assert(front.deep_view() =~= Seq::empty());
    add_groups_records(records, &front, computed)
}

// ─── Metrics of intervals ────────────────────────────────────────────────────

/// Whether the units of all metrics of the intervals can be cut after seven
/// bytes, if they have as many.
pub open spec fn intervals_cut(intervals: Seq<TimestampedComputedGroups<NumberText>>) -> bool {
    forall|i: int| 0 <= i < intervals.len() ==> groups_cut((#[trigger] intervals[i]).groups@)
}

/// Whether the units of all metrics of the intervals can be cut after seven
/// bytes, if they have as many.
pub fn check_intervals(intervals: &Vec<TimestampedComputedGroups<NumberText>>) -> (b: bool)
    ensures
        b == intervals_cut(intervals@),
{
    for i in 0..intervals.len()
        invariant
            forall|j: int| 0 <= j < i ==> groups_cut((#[trigger] intervals@[j]).groups@),
    {
        if !check_groups(&intervals[i].groups) {
            assert(!groups_cut(intervals@[i as int].groups@));
            return false;
        }
    }
    true
}

/// The header of the table of a group: the time, and its metrics with their
/// units.
pub open spec fn interval_header(group: ComputedGroup<NumberText>) -> Seq<Seq<char>> {
    seq!["Timestamp (s)"@] + group.metrics@.map_values(
        |cm: ComputedMetric<NumberText>| cm.metric_name@ + " ("@ + unit_text(cm.units@) + ")"@,
    )
}

/// The row of an interval in the table of a group: the time, and the values of
/// the metrics.
pub open spec fn interval_row(
    interval: TimestampedComputedGroups<NumberText>,
    group: int,
) -> RowInfo {
    seq![(interval.timestamp.deep_view().fixed3, CellStyle::Plain)]
        + interval.groups@[group].metrics@.map_values(
        |cm: ComputedMetric<NumberText>| value_cell(cm),
    )
}

/// The table of a group over the intervals; those that lack the group are left
/// out.
pub open spec fn interval_table_of(
    intervals: Seq<TimestampedComputedGroups<NumberText>>,
    group: int,
) -> TableInfo {
    TableInfo {
        header: interval_header(intervals[0].groups@[group]),
        rows: intervals.filter(
            |interval: TimestampedComputedGroups<NumberText>| group < interval.groups@.len(),
        ).map_values(
            |interval: TimestampedComputedGroups<NumberText>| interval_row(interval, group),
        ),
    }
}

fn write_interval_header(group: &ComputedGroup<NumberText>) -> (out: Vec<String>)
    requires
        group_cut(*group),
    ensures
        out.deep_view() == interval_header(*group),
{
    let ghost all = group.metrics@;
    let ghost f = |cm: ComputedMetric<NumberText>|
        cm.metric_name@ + " ("@ + unit_text(cm.units@) + ")"@;
    let ghost first = seq!["Timestamp (s)"@];
    let mut out: Vec<String> = Vec::new();
    out.push("Timestamp (s)".to_owned());
    assert(out.deep_view() =~= first + all.take(0).map_values(f));
    for i in 0..group.metrics.len()
        invariant
            group_cut(*group),
            all == group.metrics@,
            f == (|cm: ComputedMetric<NumberText>|
                cm.metric_name@ + " ("@ + unit_text(cm.units@) + ")"@),
            out.deep_view() == first + all.take(i as int).map_values(f),
    {
        let ghost before = out.deep_view();
        let cm = &group.metrics[i];
        assert(units_cut(all[i as int].units@));
        let mut text = cm.metric_name.clone();
        text.append(" (");
        text.append(adjust_unit(cm.units.as_str()).as_str());
        text.append(")");
        out.push(text);
        assert(text@ =~= f(all[i as int]));
        assert(out.deep_view() =~= before.push(text@));
        assert(all.take(i + 1).map_values(f) =~= all.take(i as int).map_values(f).push(
            f(all[i as int]),
        ));
    }
    assert(all.take(all.len() as int) =~= all);
    out
}

fn write_interval_row(
    interval: &TimestampedComputedGroups<NumberText>,
    group: usize,
) -> (row: Vec<CellText>)
    requires
        group < interval.groups.len(),
        groups_cut(interval.groups@),
    ensures
        row.deep_view() == interval_row(*interval, group as int),
{
    let g = &interval.groups[group];
    assert(group_cut(interval.groups@[group as int]));
    let ghost all = g.metrics@;
    let ghost f = |cm: ComputedMetric<NumberText>| value_cell(cm);
    let ghost first = seq![(interval.timestamp.fixed3@, CellStyle::Plain)];
    let mut row: Vec<CellText> = Vec::new();
    row.push(plain_cell(interval.timestamp.fixed3.as_str()));
    assert(row.deep_view() =~= first + all.take(0).map_values(f));
    for i in 0..g.metrics.len()
        invariant
            group_cut(*g),
            all == g.metrics@,
            f == (|cm: ComputedMetric<NumberText>| value_cell(cm)),
            row.deep_view() == first + all.take(i as int).map_values(f),
    {
        let ghost before = row.deep_view();
        assert(units_cut(all[i as int].units@));
        let cell = metric_value_cell(&g.metrics[i]);
        let ghost v = cell.deep_view();
        row.push(cell);
        assert(row.deep_view() =~= before.push(v));
        assert(all.take(i + 1).map_values(f) =~= all.take(i as int).map_values(f).push(
            f(all[i as int]),
        ));
    }
    assert(all.take(all.len() as int) =~= all);
    row
}

/// The table of a group over the intervals.
pub fn interval_table(
    intervals: &Vec<TimestampedComputedGroups<NumberText>>,
    group: usize,
) -> (table: TableText)
    requires
        intervals.len() > 0,
        group < intervals@[0].groups@.len(),
        intervals_cut(intervals@),
    ensures
        table.deep_view() == interval_table_of(intervals@, group as int),
{
    let ghost all = intervals@;
    let ghost keep = |interval: TimestampedComputedGroups<NumberText>|
        (group as int) < interval.groups@.len();
    let ghost f = |interval: TimestampedComputedGroups<NumberText>|
        interval_row(interval, group as int);
    let mut rows: Vec<Vec<CellText>> = Vec::new();
    proof {
        reveal(Seq::filter);
        assert(all.take(0) =~= Seq::empty());
        assert(rows.deep_view() =~= all.take(0).filter(keep).map_values(f));
    }
    for i in 0..intervals.len()
        invariant
            intervals_cut(intervals@),
            all == intervals@,
            keep == (|interval: TimestampedComputedGroups<NumberText>|
                (group as int) < interval.groups@.len()),
            f == (|interval: TimestampedComputedGroups<NumberText>|
                interval_row(interval, group as int)),
            rows.deep_view() == all.take(i as int).filter(keep).map_values(f),
    {
        let ghost before = rows.deep_view();
        proof {
            assert(all.take(i + 1) =~= all.take(i as int).push(all[i as int]));
            all.take(i as int).lemma_filter_push(all[i as int], keep);
            assert(groups_cut(all[i as int].groups@));
        }
        if group < intervals[i].groups.len() {
            let row = write_interval_row(&intervals[i], group);
            let ghost v = row.deep_view();
            rows.push(row);
            assert(rows.deep_view() =~= before.push(v));
            assert(all.take(i as int).filter(keep).push(all[i as int]).map_values(f)
                =~= before.push(f(all[i as int])));
        }
    }
    assert(all.take(all.len() as int) =~= all);
    proof {
        assert(groups_cut(all[0].groups@));
        assert(group_cut(all[0].groups@[group as int]));
        assert(keep =~= (|interval: TimestampedComputedGroups<NumberText>|
            (group as int) < interval.groups@.len()));
    }
    let header = write_interval_header(&intervals[0].groups[group]);
    TableText { header, rows }
}

/// What is shown of computed groups over intervals: for each group of the first
/// interval an empty line, a headline, and its table; or that there are no
/// intervals.
pub fn render_interval_metrics(
    intervals: &Vec<TimestampedComputedGroups<NumberText>>,
) -> (lines: Vec<String>)
    requires
        intervals_cut(intervals@),
    ensures
        intervals.len() == 0 ==> lines.deep_view() == seq!["No interval data collected."@],
        intervals.len() > 0 ==> {
            &&& lines.deep_view().len() == 3 * intervals@[0].groups@.len()
            &&& forall|g: int|
                0 <= g < intervals@[0].groups@.len() ==> shows_group(
                    lines.deep_view(),
                    3 * g,
                    group_head(#[trigger] intervals@[0].groups@[g]),
                    interval_table_of(intervals@, g),
                )
        },
{
    let mut lines: Vec<String> = Vec::new();
    if intervals.len() == 0 {
        lines.push("No interval data collected.".to_owned());
        assert(lines.deep_view() =~= seq!["No interval data collected."@]);
        return lines;
    }
    let ghost groups = intervals@[0].groups@;
    let n = intervals[0].groups.len();
    for g in 0..n
        invariant
            intervals.len() > 0,
            n == groups.len(),
            groups == intervals@[0].groups@,
            intervals_cut(intervals@),
            lines.deep_view().len() == 3 * g,
            forall|k: int|
                0 <= k < g ==> shows_group(
                    lines.deep_view(),
                    3 * k,
                    group_head(#[trigger] groups[k]),
                    interval_table_of(intervals@, k),
                ),
    {
        let ghost before = lines.deep_view();
        let table = interval_table(intervals, g);
        lines = add_group(lines, write_group_head(&intervals[0].groups[g]), &table);
        assert forall|k: int| 0 <= k < g + 1 implies shows_group(
            lines.deep_view(),
            3 * k,
            group_head(#[trigger] groups[k]),
            interval_table_of(intervals@, k),
        ) by {
            if k < g {
                lemma_still_shows(
                    before,
                    lines.deep_view(),
                    3 * k,
                    group_head(groups[k]),
                    interval_table_of(intervals@, k),
                );
            }
        }
    }
    lines
}

/// The CSV file of computed groups over intervals: a header, and a record for
/// each interval and metric.
pub open spec fn interval_metrics_csv_of(
    intervals: Seq<TimestampedComputedGroups<NumberText>>,
) -> Seq<Seq<Seq<char>>> {
    seq![seq!["timestamp"@, "group"@, "stage"@, "metric"@, "value"@, "units"@]]
        + intervals.flat_map(
        |interval: TimestampedComputedGroups<NumberText>|
            groups_records(seq![interval.timestamp.deep_view().fixed3], interval.groups@),
    )
}

/// The CSV file of computed groups over intervals; none if there are no
/// intervals.
pub fn interval_metrics_csv(
    intervals: &Vec<TimestampedComputedGroups<NumberText>>,
) -> (out: Option<Vec<Vec<String>>>)
    ensures
        intervals.len() == 0 ==> out is None,
        intervals.len() > 0 ==> (out matches Some(records) && records.deep_view()
            == interval_metrics_csv_of(intervals@)),
{
    if intervals.len() == 0 {
        return None;
    }
    let front = texts("timestamp", "group", "stage");
    let head = add_extra(
        add_extra(add_extra(front, true, "metric"), true, "value"),
        true,
        "units",
    );
    let ghost h = head.deep_view();
    assert(h =~= seq!["timestamp"@, "group"@, "stage"@, "metric"@, "value"@, "units"@]);
    let mut records: Vec<Vec<String>> = Vec::new();
    records.push(head);
    assert(records.deep_view() =~= seq![h]);
    let ghost all = intervals@;
    let ghost f = |interval: TimestampedComputedGroups<NumberText>|
        groups_records(seq![interval.timestamp.deep_view().fixed3], interval.groups@);
    assert(all.take(0) =~= Seq::empty());
    assert(records.deep_view() =~= seq![h] + all.take(0).flat_map(f));
    for i in 0..intervals.len()
        invariant
            all == intervals@,
            f == (|interval: TimestampedComputedGroups<NumberText>|
                groups_records(seq![interval.timestamp.deep_view().fixed3], interval.groups@)),
            records.deep_view() == seq![h] + all.take(i as int).flat_map(f),
    {
        proof {
            all.lemma_flat_map_take_append(f, i as int);
        }
        let mut stamp: Vec<String> = Vec::new();
        stamp.push(intervals[i].timestamp.fixed3.clone());
        assert(stamp.deep_view() =~= seq![all[i as int].timestamp.deep_view().fixed3]);
        records = add_groups_records(records, &stamp, &intervals[i].groups);
        assert(records.deep_view() =~= seq![h] + all.take(i + 1).flat_map(f));
    }
    assert(all.take(all.len() as int) =~= all);
    Some(records)
}

// ─── Events ──────────────────────────────────────────────────────────────────

/// The code of an event; zero if it does not exist.
pub open spec fn event_code(events: Seq<(Seq<char>, Event)>, name: Seq<char>) -> u64 {
    match value_of(events, name) {
        Some(event) => event.code,
        None => 0,
    }
}

/// The events of results with their codes and values, by name.
pub open spec fn event_lines_of(
    results: Seq<(Names, Seq<Option<NumberText>>)>,
    events: Seq<(Seq<char>, Event)>,
) -> Seq<(Seq<char>, (u64, Option<NumberInfo>))> {
    by_name(
        all_pairs(results).map_values(
            |p: (Seq<char>, Option<NumberText>)| (p.0, (event_code(events, p.0), p.1.deep_view())),
        ),
    )
}

fn copy_number(value: &Option<NumberText>) -> (out: Option<NumberText>)
    ensures
        out.deep_view() == value.deep_view(),
{
    match value {
        Some(v) => Some(
            NumberText {
                fixed2: v.fixed2.clone(),
                fixed3: v.fixed3.clone(),
                whole: v.whole.clone(),
                plain: v.plain.clone(),
                above_fifty: v.above_fifty,
            },
        ),
        None => None,
    }
}

/// The events of results with their codes and values, by name.
pub fn event_lines(results: &EventResults<NumberText>, db: &TelemetryDatabase) -> (out: Vec<
    (String, (u64, Option<NumberText>)),
>)
    ensures
        out.deep_view() == event_lines_of(results@, db.events@),
{
    let ghost all = results@;
    let ghost g = |group: (Names, Seq<Option<NumberText>>)| pairs_of(group);
    let ghost f = |p: (Seq<char>, Option<NumberText>)|
        (p.0, (event_code(db.events@, p.0), p.1.deep_view()));
    let mut out: Vec<(String, (u64, Option<NumberText>))> = Vec::new();
    proof {
        assert(all.take(0) =~= Seq::empty());
        assert(out.deep_view() =~= all.take(0).flat_map(g).map_values(f));
    }
    let n = results.len();
    for i in 0..n
        invariant
            n == all.len(),
            all == results@,
            g == (|group: (Names, Seq<Option<NumberText>>)| pairs_of(group)),
            f == (|p: (Seq<char>, Option<NumberText>)|
                (p.0, (event_code(db.events@, p.0), p.1.deep_view()))),
            out.deep_view() == all.take(i as int).flat_map(g).map_values(f),
    {
        let names = results.names_at(i);
        let values = results.values_at(i);
        let ghost before = all.take(i as int).flat_map(g);
        let ghost pairs = pairs_of(all[i as int]);
        let mut k: usize = 0;
        assert(before + pairs.take(0) =~= before);
        while k < names.len() && k < values.len()
            invariant
                k <= pairs.len(),
                pairs == pairs_of((names.deep_view(), values@)),
                f == (|p: (Seq<char>, Option<NumberText>)|
                    (p.0, (event_code(db.events@, p.0), p.1.deep_view()))),
                out.deep_view() == (before + pairs.take(k as int)).map_values(f),
            decreases pairs.len() - k,
        {
            let ghost so_far = out.deep_view();
            let ghost done = before + pairs.take(k as int);
            let ghost p = pairs[k as int];
            let code = match db.events.get(names[k].as_str()) {
                Some(event) => event.code,
                None => 0,
            };
            let value = copy_number(&values[k]);
            let ghost v = value.deep_view();
            out.push((names[k].clone(), (code, value)));
            proof {
                assert(p == (names@[k as int]@, values@[k as int]));
                assert(out.deep_view() =~= so_far.push(f(p)));
                assert(before + pairs.take(k + 1) =~= done.push(p));
                assert(done.push(p).map_values(f) =~= done.map_values(f).push(f(p)));
            }
            k += 1;
        }
        proof {
            assert(pairs.take(k as int) =~= pairs);
            all.lemma_flat_map_take_append(g, i as int);
        }
    }
    assert(all.take(all.len() as int) =~= all);
    sort_by_name(out)
}

/// A value of an event as it is shown: without decimals.
pub open spec fn count_text(value: Option<NumberInfo>) -> Seq<char> {
    match value {
        Some(v) => v.whole,
        None => "n/a"@,
    }
}

fn write_count(value: &Option<NumberText>) -> (out: String)
    ensures
        out@ == count_text(value.deep_view()),
{
    match value {
        Some(v) => v.whole.clone(),
        None => "n/a".to_owned(),
    }
}

/// The table of events with their codes and values.
pub open spec fn dump_table_of(lines: Seq<(Seq<char>, (u64, Option<NumberInfo>))>) -> TableInfo {
    TableInfo {
        header: seq!["Event"@, "Code"@, "Value"@],
        rows: lines.map_values(
            |line: (Seq<char>, (u64, Option<NumberInfo>))|
                plain_row(seq![line.0, code_text(line.1.0), count_text(line.1.1)]),
        ),
    }
}

/// The table of events with their codes and values.
pub fn dump_table(lines: &Vec<(String, (u64, Option<NumberText>))>) -> (table: TableText)
    ensures
        table.deep_view() == dump_table_of(lines.deep_view()),
{
    let ghost all = lines.deep_view();
    let ghost f = |line: (Seq<char>, (u64, Option<NumberInfo>))|
        plain_row(seq![line.0, code_text(line.1.0), count_text(line.1.1)]);
    let mut rows: Vec<Vec<CellText>> = Vec::new();
    assert(rows.deep_view() =~= all.take(0).map_values(f));
    for i in 0..lines.len()
        invariant
            all == lines.deep_view(),
            f == (|line: (Seq<char>, (u64, Option<NumberInfo>))|
                plain_row(seq![line.0, code_text(line.1.0), count_text(line.1.1)])),
            rows.deep_view() == all.take(i as int).map_values(f),
    {
        let ghost before = rows.deep_view();
        let line = &lines[i];
        let code = write_code(line.1.0);
        let count = write_count(&line.1.1);
        let row = plain_cells(&texts(line.0.as_str(), code.as_str(), count.as_str()));
        let ghost v = row.deep_view();
        rows.push(row);
        assert(all[i as int] == line.deep_view());
        assert(rows.deep_view() =~= before.push(v));
        assert(all.take(i + 1).map_values(f) =~= before.push(f(all[i as int])));
    }
    assert(all.take(all.len() as int) =~= all);
    TableText { header: texts("Event", "Code", "Value"), rows }
}

/// What is shown of the events of results: their table, by name.
pub fn dump_events(results: &EventResults<NumberText>, db: &TelemetryDatabase) -> (lines: Vec<
    String,
>)
    ensures
        lines.deep_view() == seq![drawn(dump_table_of(event_lines_of(results@, db.events@)))],
{
    let entries = event_lines(results, db);
    let table = dump_table(&entries);
    let mut lines: Vec<String> = Vec::new();
    lines.push(draw(&table));
    assert(lines.deep_view() =~= seq![lines@[0]@]);
    lines
}

/// The CSV file of events with their codes and values: a header, and a record
/// for each event.
pub open spec fn events_csv_of(lines: Seq<(Seq<char>, (u64, Option<NumberInfo>))>) -> Seq<
    Seq<Seq<char>>,
> {
    seq![seq!["event"@, "code"@, "value"@]] + lines.map_values(
        |line: (Seq<char>, (u64, Option<NumberInfo>))|
            seq![line.0, code_text(line.1.0), csv_text(line.1.1)],
    )
}

/// The CSV file of the events of results, by name.
pub fn events_csv(results: &EventResults<NumberText>, db: &TelemetryDatabase) -> (records: Vec<
    Vec<String>,
>)
    ensures
        records.deep_view() == events_csv_of(event_lines_of(results@, db.events@)),
{
    let lines = event_lines(results, db);
    let ghost all = lines.deep_view();
    let ghost f = |line: (Seq<char>, (u64, Option<NumberInfo>))|
        seq![line.0, code_text(line.1.0), csv_text(line.1.1)];
    let ghost h = seq!["event"@, "code"@, "value"@];
    let mut records: Vec<Vec<String>> = Vec::new();
    records.push(texts("event", "code", "value"));
    assert(records.deep_view() =~= seq![h] + all.take(0).map_values(f));
    for i in 0..lines.len()
        invariant
            all == lines.deep_view(),
            f == (|line: (Seq<char>, (u64, Option<NumberInfo>))|
                seq![line.0, code_text(line.1.0), csv_text(line.1.1)]),
            records.deep_view() == seq![h] + all.take(i as int).map_values(f),
    {
        let ghost before = records.deep_view();
        let line = &lines[i];
        let code = write_code(line.1.0);
        let value = format_csv_value(&line.1.1);
        let record = texts(line.0.as_str(), code.as_str(), value.as_str());
        let ghost v = record.deep_view();
        records.push(record);
        assert(all[i as int] == line.deep_view());
        assert(records.deep_view() =~= before.push(v));
        assert(all.take(i + 1).map_values(f) =~= all.take(i as int).map_values(f).push(
            f(all[i as int]),
        ));
    }
    assert(all.take(all.len() as int) =~= all);
    records
}

// ─── Events of intervals ─────────────────────────────────────────────────────

/// The event names of results, group after group.
pub open spec fn names_in(results: Seq<(Names, Seq<Option<NumberText>>)>) -> Names {
    results.flat_map(|group: (Names, Seq<Option<NumberText>>)| group.0)
}

/// The event names of all snapshots, in ascending order.
pub open spec fn snapshot_names(snapshots: Seq<TimestampedSnapshot<NumberText>>) -> Names {
    sorted_distinct::<String>(
        snapshots.flat_map(|s: TimestampedSnapshot<NumberText>| names_in(s.results@)),
    )
}

fn add_names(names: Vec<String>, results: &EventResults<NumberText>) -> (out: Vec<String>)
    ensures
        out.deep_view() == names.deep_view() + names_in(results@),
{
    let ghost start = names.deep_view();
    let ghost all = results@;
    let ghost f = |group: (Names, Seq<Option<NumberText>>)| group.0;
    let mut out = names;
    assert(all.take(0) =~= Seq::empty());
    assert(out.deep_view() =~= start + all.take(0).flat_map(f));
    let n = results.len();
    for i in 0..n
        invariant
            n == all.len(),
            all == results@,
            f == (|group: (Names, Seq<Option<NumberText>>)| group.0),
            out.deep_view() == start + all.take(i as int).flat_map(f),
    {
        let group = results.names_at(i);
        let ghost before = out.deep_view();
        let ghost more = group.deep_view();
        assert(before + more.take(0) =~= before);
        for k in 0..group.len()
            invariant
                more == group.deep_view(),
                out.deep_view() == before + more.take(k as int),
        {
            let ghost longer = out.deep_view();
            out.push(group[k].clone());
            assert(out.deep_view() =~= longer.push(more[k as int]));
            assert(more.take(k + 1) =~= more.take(k as int).push(more[k as int]));
        }
        proof {
            assert(more.take(more.len() as int) =~= more);
            all.lemma_flat_map_take_append(f, i as int);
            assert(out.deep_view() =~= start + all.take(i + 1).flat_map(f));
        }
    }
    assert(all.take(all.len() as int) =~= all);
    out
}

/// The event names of all snapshots, in ascending order.
pub fn interval_event_names(snapshots: &Vec<TimestampedSnapshot<NumberText>>) -> (out: Vec<String>)
    ensures
        out.deep_view() == snapshot_names(snapshots@),
{
    let ghost all = snapshots@;
    let ghost f = |s: TimestampedSnapshot<NumberText>| names_in(s.results@);
    let mut names: Vec<String> = Vec::new();
    assert(all.take(0) =~= Seq::empty());
    assert(names.deep_view() =~= all.take(0).flat_map(f));
    for i in 0..snapshots.len()
        invariant
            all == snapshots@,
            f == (|s: TimestampedSnapshot<NumberText>| names_in(s.results@)),
            names.deep_view() == all.take(i as int).flat_map(f),
    {
        proof {
            all.lemma_flat_map_take_append(f, i as int);
        }
        names = add_names(names, &snapshots[i].results);
    }
    assert(all.take(all.len() as int) =~= all);
    sort_distinct(names)
}

/// The value of an event in a snapshot, if it is there.
pub open spec fn snapshot_value(s: TimestampedSnapshot<NumberText>, name: Seq<char>) -> Option<
    NumberInfo,
> {
    match value_of(by_event(s.results@), name) {
        Some(value) => value.deep_view(),
        None => None,
    }
}

/// A list of texts after another text.
pub open spec fn after_text(first: Seq<char>, items: Seq<Seq<char>>) -> Seq<Seq<char>> {
    seq![first] + items
}

/// The texts of a snapshot as they are shown: the time, and the values of the
/// events.
pub open spec fn snapshot_texts(s: TimestampedSnapshot<NumberText>, names: Names) -> Seq<
    Seq<char>,
> {
    after_text(
        s.timestamp.deep_view().fixed3,
        names.map_values(|name: Seq<char>| count_text(snapshot_value(s, name))),
    )
}

/// The CSV record of a snapshot: the time, and the values of the events.
pub open spec fn snapshot_record(s: TimestampedSnapshot<NumberText>, names: Names) -> Seq<
    Seq<char>,
> {
    after_text(
        s.timestamp.deep_view().fixed3,
        names.map_values(|name: Seq<char>| csv_text(snapshot_value(s, name))),
    )
}

/// The texts of a snapshot, as they are shown and as a CSV record.
fn write_snapshot(s: &TimestampedSnapshot<NumberText>, names: &Vec<String>) -> (out: (
    Vec<String>,
    Vec<String>,
))
    ensures
        out.0.deep_view() == snapshot_texts(*s, names.deep_view()),
        out.1.deep_view() == snapshot_record(*s, names.deep_view()),
{
    let ghost all = names.deep_view();
    let ghost shown = |name: Seq<char>| count_text(snapshot_value(*s, name));
    let ghost written = |name: Seq<char>| csv_text(snapshot_value(*s, name));
    let ghost stamp = s.timestamp.fixed3@;
    let mut cells: Vec<String> = Vec::new();
    let mut record: Vec<String> = Vec::new();
    cells.push(s.timestamp.fixed3.clone());
    record.push(s.timestamp.fixed3.clone());
    assert(cells.deep_view() =~= after_text(stamp, all.take(0).map_values(shown)));
    assert(record.deep_view() =~= after_text(stamp, all.take(0).map_values(written)));
    for i in 0..names.len()
        invariant
            all == names.deep_view(),
            shown == (|name: Seq<char>| count_text(snapshot_value(*s, name))),
            written == (|name: Seq<char>| csv_text(snapshot_value(*s, name))),
            cells.deep_view() == after_text(stamp, all.take(i as int).map_values(shown)),
            record.deep_view() == after_text(stamp, all.take(i as int).map_values(written)),
    {
        let ghost cells_before = cells.deep_view();
        let ghost record_before = record.deep_view();
        let (cell, field) = match s.results.last_value(names[i].as_str()) {
            Some(value) => (write_count(value), format_csv_value(value)),
            None => ("n/a".to_owned(), String::new()),
        };
        let ghost name = all[i as int];
        cells.push(cell);
        record.push(field);
        proof {
            assert(cell@ =~= shown(name));
            assert(field@ =~= written(name));
            assert(cells.deep_view() =~= cells_before.push(cell@));
            assert(record.deep_view() =~= record_before.push(field@));
            assert(after_text(stamp, all.take(i + 1).map_values(shown)) =~= cells_before.push(
                shown(name),
            ));
            assert(after_text(stamp, all.take(i + 1).map_values(written)) =~= record_before.push(
                written(name),
            ));
        }
    }
    assert(all.take(all.len() as int) =~= all);
    (cells, record)
}

/// The table of snapshots: a row for each, a column for each event.
pub open spec fn snapshots_table_of(snapshots: Seq<TimestampedSnapshot<NumberText>>) -> TableInfo {
    TableInfo {
        header: after_text("Timestamp (s)"@, snapshot_names(snapshots)),
        rows: snapshots.map_values(
            |s: TimestampedSnapshot<NumberText>|
                plain_row(snapshot_texts(s, snapshot_names(snapshots))),
        ),
    }
}

/// The CSV file of snapshots: a header, and a record for each.
pub open spec fn snapshots_csv_of(snapshots: Seq<TimestampedSnapshot<NumberText>>) -> Seq<
    Seq<Seq<char>>,
> {
    seq![after_text("timestamp"@, snapshot_names(snapshots))] + snapshots.map_values(
        |s: TimestampedSnapshot<NumberText>| snapshot_record(s, snapshot_names(snapshots)),
    )
}

/// Texts after another text.
fn put_first(first: &str, items: &Vec<String>) -> (out: Vec<String>)
    ensures
        out.deep_view() == after_text(first@, items.deep_view()),
{
    let mut out = copy_texts(items);
    let ghost before = out.deep_view();
    out.insert(0, first.to_owned());
    assert(out.deep_view() =~= after_text(first@, before));
    out
}

/// The table and the CSV file of snapshots.
pub fn snapshots_table(snapshots: &Vec<TimestampedSnapshot<NumberText>>) -> (out: (
    TableText,
    Vec<Vec<String>>,
))
    ensures
        out.0.deep_view() == snapshots_table_of(snapshots@),
        out.1.deep_view() == snapshots_csv_of(snapshots@),
{
    let names = interval_event_names(snapshots);
    let ghost all = snapshots@;
    let ghost columns = names.deep_view();
    let ghost f = |s: TimestampedSnapshot<NumberText>| plain_row(snapshot_texts(s, columns));
    let ghost g = |s: TimestampedSnapshot<NumberText>| snapshot_record(s, columns);
    let mut rows: Vec<Vec<CellText>> = Vec::new();
    let mut records: Vec<Vec<String>> = Vec::new();
    records.push(put_first("timestamp", &names));
    let ghost h = after_text("timestamp"@, columns);
    assert(rows.deep_view() =~= all.take(0).map_values(f));
    assert(records.deep_view() =~= seq![h] + all.take(0).map_values(g));
    for i in 0..snapshots.len()
        invariant
            all == snapshots@,
            columns == names.deep_view(),
            f == (|s: TimestampedSnapshot<NumberText>| plain_row(snapshot_texts(s, columns))),
            g == (|s: TimestampedSnapshot<NumberText>| snapshot_record(s, columns)),
            rows.deep_view() == all.take(i as int).map_values(f),
            records.deep_view() == seq![h] + all.take(i as int).map_values(g),
    {
        let ghost rows_before = rows.deep_view();
        let ghost records_before = records.deep_view();
        let (cells, record) = write_snapshot(&snapshots[i], &names);
        let row = plain_cells(&cells);
        let ghost v = row.deep_view();
        let ghost w = record.deep_view();
        rows.push(row);
        records.push(record);
        assert(rows.deep_view() =~= rows_before.push(v));
        assert(records.deep_view() =~= records_before.push(w));
        assert(all.take(i + 1).map_values(f) =~= rows_before.push(f(all[i as int])));
        assert(seq![h] + all.take(i + 1).map_values(g) =~= records_before.push(g(all[i as int])));
    }
    assert(all.take(all.len() as int) =~= all);
    let table = TableText { header: put_first("Timestamp (s)", &names), rows };
    assert(table.deep_view() =~= snapshots_table_of(all));
    (table, records)
}

/// What is shown of snapshots: their table, or that there are none.
pub fn dump_interval_events(snapshots: &Vec<TimestampedSnapshot<NumberText>>) -> (lines: Vec<
    String,
>)
    ensures
        lines.deep_view() == if snapshots.len() == 0 {
            seq!["No interval data collected."@]
        } else {
            seq![drawn(snapshots_table_of(snapshots@))]
        },
{
    let mut lines: Vec<String> = Vec::new();
    if snapshots.len() == 0 {
        lines.push("No interval data collected.".to_owned());
    } else {
        let (table, _) = snapshots_table(snapshots);
        lines.push(draw(&table));
    }
    assert(lines.deep_view() =~= seq![lines@[0]@]);
    lines
}

/// The CSV file of snapshots; none if there are none.
pub fn interval_events_csv(snapshots: &Vec<TimestampedSnapshot<NumberText>>) -> (out: Option<
    Vec<Vec<String>>,
>)
    ensures
        snapshots.len() == 0 ==> out is None,
        snapshots.len() > 0 ==> (out matches Some(records) && records.deep_view()
            == snapshots_csv_of(snapshots@)),
{
    if snapshots.len() == 0 {
        return None;
    }
    let (_, records) = snapshots_table(snapshots);
    Some(records)
}

// ─── What holds of every CSV file ────────────────────────────────────────────

/// Whether every record has that many fields.
pub open spec fn all_of_width(records: Seq<Seq<Seq<char>>>, width: nat) -> bool {
    forall|i: int| 0 <= i < records.len() ==> (#[trigger] records[i]).len() == width
}

proof fn lemma_flat_width<A>(s: Seq<A>, f: spec_fn(A) -> Seq<Seq<Seq<char>>>, width: nat)
    requires
        forall|i: int| 0 <= i < s.len() ==> all_of_width(f(#[trigger] s[i]), width),
    ensures
        all_of_width(s.flat_map(f), width),
    decreases s.len(),
{
    if s.len() > 0 {
        let front = s.drop_last();
        assert forall|i: int| 0 <= i < front.len() implies all_of_width(
            f(#[trigger] front[i]),
            width,
        ) by {
            assert(front[i] == s[i]);
        }
        lemma_flat_width(front, f, width);
        front.lemma_flat_map_push(f, s.last());
        assert(front.push(s.last()) =~= s);
        assert(all_of_width(f(s[s.len() - 1]), width));
    }
}

proof fn lemma_groups_width(front: Seq<Seq<char>>, groups: Seq<ComputedGroup<NumberText>>)
    ensures
        all_of_width(groups_records(front, groups), front.len() + 5),
{
    let f = |group: ComputedGroup<NumberText>| group_records(front, group);
    lemma_flat_width(groups, f, front.len() + 5);
}

/// In every CSV file of metrics each record has as many fields as the header.
pub proof fn law_metrics_csv_even(
    computed: Seq<ComputedGroup<NumberText>>,
    intervals: Seq<TimestampedComputedGroups<NumberText>>,
)
    ensures
        all_of_width(metrics_csv_of(computed), metrics_csv_of(computed)[0].len()),
        all_of_width(interval_metrics_csv_of(intervals), interval_metrics_csv_of(intervals)[0].len()),
{
    lemma_groups_width(Seq::empty(), computed);
    let f = |interval: TimestampedComputedGroups<NumberText>|
        groups_records(seq![interval.timestamp.deep_view().fixed3], interval.groups@);
    assert forall|i: int| 0 <= i < intervals.len() implies all_of_width(
        f(#[trigger] intervals[i]),
        6,
    ) by {
        lemma_groups_width(
            seq![intervals[i].timestamp.deep_view().fixed3],
            intervals[i].groups@,
        );
    }
    lemma_flat_width(intervals, f, 6);
}

/// In every CSV file of events each record has as many fields as the header.
pub proof fn law_events_csv_even(
    lines: Seq<(Seq<char>, (u64, Option<NumberInfo>))>,
    snapshots: Seq<TimestampedSnapshot<NumberText>>,
)
    ensures
        all_of_width(events_csv_of(lines), events_csv_of(lines)[0].len()),
        all_of_width(snapshots_csv_of(snapshots), snapshots_csv_of(snapshots)[0].len()),
{
}

// ─── What is shown of a value ────────────────────────────────────────────────

/// Units are a percentage if they start with the seven letters of `percent`,
/// each small or capital.
pub proof fn law_percent(units: &str, b: bool)
    requires
        call_ensures(is_percent, (units,), b),
    ensures
        b <==> {
            let s = units@;
            &&& s.len() >= 7
            &&& (s[0] == 'p' || s[0] == 'P') && (s[1] == 'e' || s[1] == 'E') && (s[2] == 'r' || s[2]
                == 'R') && (s[3] == 'c' || s[3] == 'C') && (s[4] == 'e' || s[4] == 'E') && (s[5]
                == 'n' || s[5] == 'N') && (s[6] == 't' || s[6] == 'T')
        },
{
    reveal_strlit("percent");
    let s = units@;
    if s.len() >= 7 {
        let front = s.take(7);
        let lowered = ascii_lowered(front);
        assert forall|i: int| 0 <= i < 7 implies lowered[i] == #[trigger] small_letter(front[i]) by {}
        if lowered == "percent"@ {
            assert(small_letter(s[0]) == 'p' && small_letter(s[1]) == 'e' && small_letter(s[2])
                == 'r' && small_letter(s[3]) == 'c' && small_letter(s[4]) == 'e' && small_letter(
                s[5],
            ) == 'n' && small_letter(s[6]) == 't') by {
                assert(lowered[0] == small_letter(front[0]));
                assert(lowered[1] == small_letter(front[1]));
                assert(lowered[2] == small_letter(front[2]));
                assert(lowered[3] == small_letter(front[3]));
                assert(lowered[4] == small_letter(front[4]));
                assert(lowered[5] == small_letter(front[5]));
                assert(lowered[6] == small_letter(front[6]));
            }
        }
        if (s[0] == 'p' || s[0] == 'P') && (s[1] == 'e' || s[1] == 'E') && (s[2] == 'r' || s[2]
            == 'R') && (s[3] == 'c' || s[3] == 'C') && (s[4] == 'e' || s[4] == 'E') && (s[5] == 'n'
            || s[5] == 'N') && (s[6] == 't' || s[6] == 'T') {
            assert(lowered =~= "percent"@);
        }
    }
}

/// A value is shown with two decimals if its units are a percentage, and else
/// with three; a missing one is shown as `n/a`. Units of a percentage are shown
/// as `%`, and others as they are.
pub proof fn law_value_shown(
    val: &Option<NumberText>,
    units: &str,
    percent: bool,
    out: String,
    shown: String,
)
    requires
        call_ensures(is_percent, (units,), percent),
        call_ensures(format_value, (val, units), out),
        call_ensures(adjust_unit, (units,), shown),
    ensures
        match val {
            None => out@ == seq!['n', '/', 'a'],
            Some(v) => out@ == if percent {
                v.fixed2@
            } else {
                v.fixed3@
            },
        },
        shown@ == if percent {
            seq!['%']
        } else {
            units@
        },
{
    reveal_strlit("n/a");
    reveal_strlit("%");
    assert("n/a"@ =~= seq!['n', '/', 'a']);
    assert("%"@ =~= seq!['%']);
}

/// In a CSV file a value has all its decimals, and a missing one is empty.
pub proof fn law_csv_value(val: &Option<NumberText>, out: String)
    requires
        call_ensures(format_csv_value, (val,), out),
    ensures
        match val {
            None => out@.len() == 0,
            Some(v) => out@ == v.plain@,
        },
{
}

/// The cell of a metric has its value as it is shown, in grey if it is missing,
/// and red and bold if it is a percentage above fifty.
pub proof fn law_value_cell(
    cm: &ComputedMetric<NumberText>,
    cell: CellText,
    units: &str,
    percent: bool,
    out: String,
)
    requires
        call_ensures(metric_value_cell, (cm,), cell),
        units@ == cm.units@,
        call_ensures(is_percent, (units,), percent),
        call_ensures(format_value, (&cm.value, units), out),
    ensures
        cell.text@ == out@,
        cm.value is None ==> cell.style is DarkGrey,
        cm.value matches Some(v) ==> (percent && v.above_fifty ==> cell.style is RedBold) && (!(
        percent && v.above_fifty) ==> cell.style is Plain),
{
}

// ─── What stands in tables ───────────────────────────────────────────────────

proof fn lemma_by_name_members<W>(entries: Seq<(Seq<char>, W)>, x: (Seq<char>, W))
    ensures
        by_name(entries).contains(x) <==> entries.contains(x),
{
    broadcast use vstd::seq_lib::group_to_multiset_ensures;

    law_by_name(entries);
    assert(by_name(entries).contains(x) <==> by_name(entries).to_multiset().count(x) > 0);
    assert(entries.contains(x) <==> entries.to_multiset().count(x) > 0);
}

/// A list of texts with a last one that is shown only with descriptions.
pub open spec fn and_described(items: Seq<Seq<char>>, descriptions: bool, last: Seq<char>) -> Seq<
    Seq<char>,
> {
    items + if descriptions {
        seq![last]
    } else {
        Seq::empty()
    }
}

/// Whether a row has these texts and no styles.
pub open spec fn plainly(row: RowInfo, items: Seq<Seq<char>>) -> bool {
    &&& row.len() == items.len()
    &&& forall|c: int|
        0 <= c < row.len() ==> (#[trigger] row[c]).0 == items[c] && row[c].1 is Plain
}

/// The texts of an event in its table.
pub open spec fn event_items(event: Event, descriptions: bool) -> Seq<Seq<char>> {
    and_described(
        seq![
            event.name@,
            seq!['0', 'x'] + padded(hex_text(event.code), 4, '0'),
            event.title@,
        ],
        descriptions,
        event.description@,
    )
}

/// The table of the events has a row for each event and no others, in the order
/// of the names: the name, the code in four hexadecimal digits or more, the
/// title, and the description if it is asked for.
pub proof fn law_events_table(
    db: &TelemetryDatabase,
    descriptions: bool,
    table: TableText,
    i: int,
    r: int,
    q: int,
)
    requires
        call_ensures(events_table, (db, descriptions), table),
    ensures
        table.header.deep_view() == and_described(
            seq!["Event"@, "Code"@, "Title"@],
            descriptions,
            "Description"@,
        ),
        table.rows.len() == db.events@.len(),
        0 <= i < db.events@.len() ==> exists|k: int|
            0 <= k < table.rows.len() && plainly(
                #[trigger] table.rows.deep_view()[k],
                event_items(db.events@[i].1, descriptions),
            ),
        0 <= r < table.rows.len() ==> exists|k: int|
            0 <= k < db.events@.len() && plainly(
                table.rows.deep_view()[r],
                event_items((#[trigger] db.events@[k]).1, descriptions),
            ),
        0 <= r < q < table.rows.len() ==> String::rank(
            table.rows.deep_view()[r][0].0,
            table.rows.deep_view()[q][0].0,
        ),
{
    reveal_strlit("0x");
    assert("0x"@ =~= seq!['0', 'x']);
    let f = |e: (Seq<char>, Event)| event_row(e.1, descriptions);
    let entries = db.events@.map_values(f);
    let sorted = by_name(entries);
    law_by_name(entries);
    let rows = table.rows.deep_view();
    assert(table.deep_view().rows == rows);
    assert(table.deep_view().header == table.header.deep_view());
    assert(table.header.deep_view() =~= and_described(
        seq!["Event"@, "Code"@, "Title"@],
        descriptions,
        "Description"@,
    ));
    assert(rows == rows_of(sorted));
    assert(rows.len() == table.rows.len());
    assert forall|k: int| 0 <= k < db.events@.len() implies plainly(
        (#[trigger] entries[k]).1,
        event_items(db.events@[k].1, descriptions),
    ) && entries[k].0 == db.events@[k].1.name@ && entries[k].1.len() > 0 && entries[k].1[0].0
        == entries[k].0 by {}
    assert forall|k: int| #![trigger sorted[k]] 0 <= k < rows.len() implies exists|m: int|
        0 <= m < entries.len() && #[trigger] entries[m] == sorted[k] by {
        lemma_by_name_members(entries, sorted[k]);
        assert(sorted.contains(sorted[k]));
    }
    if 0 <= i < db.events@.len() {
        lemma_by_name_members(entries, entries[i]);
        assert(entries.contains(entries[i]));
        let k = sorted.index_of(entries[i]);
        assert(rows[k] == entries[i].1);
    }
    if 0 <= r < rows.len() {
        let m = choose|m: int| 0 <= m < entries.len() && #[trigger] entries[m] == sorted[r];
        assert(plainly(rows[r], event_items(db.events@[m].1, descriptions)));
        if r < q < rows.len() {
            let p = choose|p: int| 0 <= p < entries.len() && #[trigger] entries[p] == sorted[q];
            assert(String::rank(sorted[r].0, sorted[q].0));
            assert(rows[r][0].0 == sorted[r].0);
            assert(rows[q][0].0 == sorted[q].0);
        }
    }
}

/// The texts of a group in its table.
pub open spec fn group_items(
    name: Seq<char>,
    stage: usize,
    group: Group,
    descriptions: bool,
) -> Seq<Seq<char>> {
    and_described(
        seq![name, numeral(stage as nat, 10), numeral(group.metric_names.len() as nat, 10)],
        descriptions,
        group.description@,
    )
}

/// The table of the groups has a row for each group and no others, in the order
/// of the names: the name, the stage, how many metrics it has, and the
/// description if it is asked for.
pub proof fn law_groups_table(
    db: &TelemetryDatabase,
    descriptions: bool,
    table: TableText,
    i: int,
    r: int,
    q: int,
)
    requires
        call_ensures(groups_table, (db, descriptions), table),
    ensures
        table.header.deep_view() == and_described(
            seq!["Group"@, "Stage"@, "Metrics"@],
            descriptions,
            "Description"@,
        ),
        table.rows.len() == db.groups@.len(),
        0 <= i < db.groups@.len() ==> exists|k: int|
            0 <= k < table.rows.len() && plainly(
                #[trigger] table.rows.deep_view()[k],
                group_items(
                    db.groups@[i].0,
                    db.topdown.stage_of(db.groups@[i].0),
                    db.groups@[i].1,
                    descriptions,
                ),
            ),
        0 <= r < table.rows.len() ==> exists|k: int|
            0 <= k < db.groups@.len() && plainly(
                table.rows.deep_view()[r],
                group_items(
                    (#[trigger] db.groups@[k]).0,
                    db.topdown.stage_of(db.groups@[k].0),
                    db.groups@[k].1,
                    descriptions,
                ),
            ),
        0 <= r < q < table.rows.len() ==> String::rank(
            table.rows.deep_view()[r][0].0,
            table.rows.deep_view()[q][0].0,
        ),
{
    let f = |e: (Seq<char>, Group)| group_row(e, db.topdown, descriptions);
    let entries = db.groups@.map_values(f);
    let sorted = by_name(entries);
    law_by_name(entries);
    let rows = table.rows.deep_view();
    assert(table.deep_view().rows == rows);
    assert(table.deep_view().header == table.header.deep_view());
    assert(table.header.deep_view() =~= and_described(
        seq!["Group"@, "Stage"@, "Metrics"@],
        descriptions,
        "Description"@,
    ));
    assert(rows == rows_of(sorted));
    assert(rows.len() == table.rows.len());
    assert forall|k: int| 0 <= k < db.groups@.len() implies plainly(
        (#[trigger] entries[k]).1,
        group_items(
            db.groups@[k].0,
            db.topdown.stage_of(db.groups@[k].0),
            db.groups@[k].1,
            descriptions,
        ),
    ) && entries[k].0 == db.groups@[k].0 && entries[k].1.len() > 0 && entries[k].1[0].0
        == entries[k].0 by {
        assert(db.groups@[k].1.metric_names.deep_view().len()
            == db.groups@[k].1.metric_names.len());
    }
    assert forall|k: int| #![trigger sorted[k]] 0 <= k < rows.len() implies exists|m: int|
        0 <= m < entries.len() && #[trigger] entries[m] == sorted[k] by {
        lemma_by_name_members(entries, sorted[k]);
        assert(sorted.contains(sorted[k]));
    }
    if 0 <= i < db.groups@.len() {
        lemma_by_name_members(entries, entries[i]);
        assert(entries.contains(entries[i]));
        let k = sorted.index_of(entries[i]);
        assert(rows[k] == entries[i].1);
    }
    if 0 <= r < rows.len() {
        let m = choose|m: int| 0 <= m < entries.len() && #[trigger] entries[m] == sorted[r];
        assert(plainly(
            rows[r],
            group_items(
                db.groups@[m].0,
                db.topdown.stage_of(db.groups@[m].0),
                db.groups@[m].1,
                descriptions,
            ),
        ));
        if r < q < rows.len() {
            let p = choose|p: int| 0 <= p < entries.len() && #[trigger] entries[p] == sorted[q];
            assert(String::rank(sorted[r].0, sorted[q].0));
            assert(rows[r][0].0 == sorted[r].0);
            assert(rows[q][0].0 == sorted[q].0);
        }
    }
}

/// A list of the events is their table drawn and a line that says how many they
/// are; a list of the groups is their table drawn.
pub proof fn law_lists(
    db: &TelemetryDatabase,
    descriptions: bool,
    events: TableText,
    event_lines: Vec<String>,
    groups: TableText,
    group_lines: Vec<String>,
)
    requires
        call_ensures(events_table, (db, descriptions), events),
        call_ensures(list_events, (db, descriptions), event_lines),
        call_ensures(groups_table, (db, descriptions), groups),
        call_ensures(list_groups, (db, descriptions), group_lines),
    ensures
        event_lines.len() == 2,
        event_lines@[0]@ == drawn(events.deep_view()),
        event_lines@[1]@ == "\nTotal: "@ + numeral(db.events@.len(), 10) + " events"@,
        group_lines.len() == 1,
        group_lines@[0]@ == drawn(groups.deep_view()),
{
    let (a, b) = (event_lines.deep_view(), group_lines.deep_view());
    assert(a.len() == event_lines.len());
    assert(b.len() == group_lines.len());
    assert(a[0] == event_lines@[0]@ && a[1] == event_lines@[1]@);
    assert(b[0] == group_lines@[0]@);
}

/// Whether these are the lines of a group in the list of metrics: its title and
/// name, a line for each of its metrics that exists, and an empty line.
pub open spec fn lists_group(
    db: TelemetryDatabase,
    group: Group,
    kept: Names,
    descriptions: bool,
    lines: Seq<Seq<char>>,
) -> bool {
    &&& lines.len() == kept.len() + 2
    &&& lines[0] == "  "@ + group.title@ + " ("@ + group.name@ + ")"@
    &&& lines.last().len() == 0
    &&& forall|k: int|
        0 <= k < kept.len() ==> (value_of(db.metrics@, #[trigger] kept[k]) matches Some(metric)
            && lines[k + 1] == "    - "@ + metric.name@ + " ["@ + metric.units@ + (
        if descriptions {
            "]  — "@ + metric.title@
        } else {
            "]"@
        }))
}

proof fn lemma_lists_group(
    db: TelemetryDatabase,
    name: Seq<char>,
    group: Group,
    kept: Names,
    descriptions: bool,
)
    requires
        value_of(db.groups@, name) == Some(group),
        kept == group.metric_names.deep_view().filter(
            |n: Seq<char>|
                exists|j: int| 0 <= j < db.metrics@.len() && (#[trigger] db.metrics@[j]).0 == n,
        ),
    ensures
        lists_group(db, group, kept, descriptions, group_lines(db, name, descriptions)),
{
    let names = group.metric_names.deep_view();
    let f = |n: Seq<char>|
        match value_of(db.metrics@, n) {
            Some(metric) => Some(metric_line(metric, descriptions)),
            None => None,
        };
    let keep = |n: Seq<char>|
        exists|j: int| 0 <= j < db.metrics@.len() && (#[trigger] db.metrics@[j]).0 == n;
    assert forall|n: Seq<char>| #[trigger] keep(n) == (f(n) is Some) by {
        assert(keep(n) == has_name(db.metrics@, n));
    }
    lemma_filter_map(names, f, keep);
    let lines = group_lines(db, name, descriptions);
    reveal_strlit("");
    assert forall|k: int| 0 <= k < kept.len() implies (value_of(
        db.metrics@,
        #[trigger] kept[k],
    ) matches Some(metric) && lines[k + 1] == "    - "@ + metric.name@ + " ["@ + metric.units@ + (
    if descriptions {
        "]  — "@ + metric.title@
    } else {
        "]"@
    })) by {
        assert(f(kept[k]) == Some(names.filter_map(f)[k]));
        assert(lines[k + 1] == names.filter_map(f)[k]);
    }
}

/// The list of the metrics has a headline for each of the two stages, under it
/// the groups of the stage that exist in their order, each with its metrics, and
/// at the end how many metrics there are.
pub proof fn law_list_metrics(
    db: &TelemetryDatabase,
    descriptions: bool,
    lines: Vec<String>,
    first: Seq<Seq<Seq<char>>>,
    second: Seq<Seq<Seq<char>>>,
    g: int,
    group: Group,
    kept: Names,
)
    requires
        call_ensures(list_metrics, (db, descriptions), lines),
        first.len() == db.topdown.stage_1_group_names.len(),
        second.len() == db.topdown.stage_2_group_names.len(),
        forall|i: int|
            0 <= i < first.len() ==> #[trigger] first[i] == group_lines(
                *db,
                db.topdown.stage_1_group_names@[i]@,
                descriptions,
            ),
        forall|i: int|
            0 <= i < second.len() ==> #[trigger] second[i] == group_lines(
                *db,
                db.topdown.stage_2_group_names@[i]@,
                descriptions,
            ),
        kept == group.metric_names.deep_view().filter(
            |n: Seq<char>|
                exists|j: int| 0 <= j < db.metrics@.len() && (#[trigger] db.metrics@[j]).0 == n,
        ),
    ensures
        lines.deep_view() == seq!["=== Stage 1 (Topdown) ===\n"@] + first.flatten() + seq![
            "=== Stage 2 (Micro-architecture) ===\n"@,
        ] + second.flatten() + seq!["Total: "@ + numeral(db.metrics@.len(), 10) + " metrics"@],
        0 <= g < first.len() && value_of(db.groups@, db.topdown.stage_1_group_names@[g]@) == Some(
            group,
        ) ==> lists_group(*db, group, kept, descriptions, first[g]),
        0 <= g < second.len() && value_of(db.groups@, db.topdown.stage_2_group_names@[g]@) == Some(
            group,
        ) ==> lists_group(*db, group, kept, descriptions, second[g]),
        0 <= g < first.len() && value_of(db.groups@, db.topdown.stage_1_group_names@[g]@) is None
            ==> first[g].len() == 0,
        0 <= g < second.len() && value_of(db.groups@, db.topdown.stage_2_group_names@[g]@) is None
            ==> second[g].len() == 0,
{
    let f = |name: Seq<char>| group_lines(*db, name, descriptions);
    let (a, b) = (
        db.topdown.stage_1_group_names.deep_view(),
        db.topdown.stage_2_group_names.deep_view(),
    );
    assert(a.map_values(f) =~= first) by {
        assert forall|i: int| 0 <= i < first.len() implies a.map_values(f)[i] == first[i] by {
            assert(a[i] == db.topdown.stage_1_group_names@[i]@);
        }
    }
    assert(b.map_values(f) =~= second) by {
        assert forall|i: int| 0 <= i < second.len() implies b.map_values(f)[i] == second[i] by {
            assert(b[i] == db.topdown.stage_2_group_names@[i]@);
        }
    }
    reveal_strlit("=== ");
    reveal_strlit(" ===\n");
    reveal_strlit("Stage 1 (Topdown)");
    reveal_strlit("Stage 2 (Micro-architecture)");
    reveal_strlit("=== Stage 1 (Topdown) ===\n");
    reveal_strlit("=== Stage 2 (Micro-architecture) ===\n");
    assert("=== "@ + "Stage 1 (Topdown)"@ + " ===\n"@ =~= "=== Stage 1 (Topdown) ===\n"@);
    assert("=== "@ + "Stage 2 (Micro-architecture)"@ + " ===\n"@
        =~= "=== Stage 2 (Micro-architecture) ===\n"@);
    assert(lines.deep_view() =~= seq!["=== Stage 1 (Topdown) ===\n"@] + first.flatten() + seq![
        "=== Stage 2 (Micro-architecture) ===\n"@,
    ] + second.flatten() + seq!["Total: "@ + numeral(db.metrics@.len(), 10) + " metrics"@]);
    if 0 <= g < first.len() && value_of(db.groups@, db.topdown.stage_1_group_names@[g]@) == Some(
        group,
    ) {
        lemma_lists_group(
            *db,
            db.topdown.stage_1_group_names@[g]@,
            group,
            kept,
            descriptions,
        );
    }
    if 0 <= g < second.len() && value_of(db.groups@, db.topdown.stage_2_group_names@[g]@) == Some(
        group,
    ) {
        lemma_lists_group(
            *db,
            db.topdown.stage_2_group_names@[g]@,
            group,
            kept,
            descriptions,
        );
    }
}

/// The table of a group has a row for each of its metrics, in order: its name,
/// its value as a cell by itself, its units as they are shown, and the title
/// that the database has for it if descriptions are asked for.
pub proof fn law_group_table(
    db: &TelemetryDatabase,
    group: &ComputedGroup<NumberText>,
    descriptions: bool,
    table: TableText,
    k: int,
    cell: CellText,
    units: &str,
    shown: String,
)
    requires
        call_ensures(group_table, (db, group, descriptions), table),
        0 <= k < group.metrics.len(),
        call_ensures(metric_value_cell, (&group.metrics@[k],), cell),
        units@ == group.metrics@[k].units@,
        call_ensures(adjust_unit, (units,), shown),
    ensures
        table.header.deep_view() == and_described(
            seq!["Metric"@, "Value"@, "Unit"@],
            descriptions,
            "Description"@,
        ),
        table.rows.len() == group.metrics.len(),
        ({
            let row = table.rows.deep_view()[k];
            &&& row.len() == if descriptions {
                4int
            } else {
                3
            }
            &&& row[0] == (group.metrics@[k].metric_name@, CellStyle::Plain)
            &&& row[1] == (cell.text@, cell.style)
            &&& row[2] == (shown@, CellStyle::Plain)
            &&& descriptions ==> row[3].1 is Plain && row[3].0 == match value_of(
                db.metrics@,
                group.metrics@[k].metric_name@,
            ) {
                Some(metric) => metric.title@,
                None => Seq::empty(),
            }
        }),
{
    reveal_strlit("");
    let rows = table.rows.deep_view();
    assert(table.deep_view().rows == rows);
    assert(table.deep_view().header == table.header.deep_view());
    assert(table.header.deep_view() =~= and_described(
        seq!["Metric"@, "Value"@, "Unit"@],
        descriptions,
        "Description"@,
    ));
    assert(rows.len() == table.rows.len());
    assert(rows[k] == metric_row(*db, group.metrics@[k], descriptions));
    assert(""@ =~= Seq::empty());
}

/// Of each group an empty line is shown, a line with its title and its stage,
/// and its table.
pub proof fn law_metrics_shown(
    computed: &Vec<ComputedGroup<NumberText>>,
    db: &TelemetryDatabase,
    descriptions: bool,
    lines: Vec<String>,
    i: int,
    table: TableText,
)
    requires
        call_ensures(render_metrics, (computed, db, descriptions), lines),
        0 <= i < computed.len(),
        call_ensures(group_table, (db, &computed@[i], descriptions), table),
    ensures
        lines.len() == 3 * computed.len(),
        lines@[3 * i]@.len() == 0,
        lines@[3 * i + 1]@ == "── "@ + computed@[i].group_title@ + (if computed@[i].stage == 1 {
            " (Stage 1) ──"@
        } else {
            " (Stage 2) ──"@
        }),
        draws(table.deep_view(), lines@[3 * i + 2]@),
{
    lemma_head(computed@[i]);
    reveal_strlit("");
    let deep = lines.deep_view();
    assert(deep.len() == lines.len());
    assert(shows_group(
        deep,
        3 * i,
        group_head(computed@[i]),
        group_table_of(*db, computed@[i], descriptions),
    ));
    assert(deep[3 * i] == lines@[3 * i]@);
    assert(deep[3 * i + 1] == lines@[3 * i + 1]@);
    assert(deep[3 * i + 2] == lines@[3 * i + 2]@);
}

proof fn lemma_head(group: ComputedGroup<NumberText>)
    ensures
        group_head(group) == "── "@ + group.group_title@ + (if group.stage == 1 {
            " (Stage 1) ──"@
        } else {
            " (Stage 2) ──"@
        }),
{
    reveal_strlit(" (");
    reveal_strlit("Stage 1");
    reveal_strlit("Stage 2");
    reveal_strlit(") ──");
    reveal_strlit(" (Stage 1) ──");
    reveal_strlit(" (Stage 2) ──");
    assert(" ("@ + "Stage 1"@ + ") ──"@ =~= " (Stage 1) ──"@);
    assert(" ("@ + "Stage 2"@ + ") ──"@ =~= " (Stage 2) ──"@);
    let shown = if group.stage == 1 {
        " (Stage 1) ──"@
    } else {
        " (Stage 2) ──"@
    };
    assert(group_head(group) =~= "── "@ + group.group_title@ + shown);
}

/// The table of a group over intervals has a column for the time and one for
/// each metric, and a row for each interval that has the group, in order: the
/// time with three decimals, and the value of each metric as a cell by itself.
pub proof fn law_interval_table(
    intervals: &Vec<TimestampedComputedGroups<NumberText>>,
    group: usize,
    table: TableText,
    k: int,
    units: &str,
    shown: String,
    kept: Seq<TimestampedComputedGroups<NumberText>>,
    r: int,
    c: int,
    cell: CellText,
)
    requires
        call_ensures(interval_table, (intervals, group), table),
        intervals.len() > 0,
        group < intervals@[0].groups.len(),
        kept == intervals@.filter(
            |interval: TimestampedComputedGroups<NumberText>| interval.groups@.len() > group,
        ),
        0 <= r < kept.len(),
        0 <= c < kept[r].groups@[group as int].metrics.len(),
        call_ensures(
            metric_value_cell,
            (&kept[r].groups@[group as int].metrics@[c],),
            cell,
        ),
        call_ensures(adjust_unit, (units,), shown),
    ensures
        table.header.len() == 1 + intervals@[0].groups@[group as int].metrics.len(),
        table.header@[0]@ == "Timestamp (s)"@,
        0 <= k < intervals@[0].groups@[group as int].metrics.len() && units@
            == intervals@[0].groups@[group as int].metrics@[k].units@ ==> table.header@[k + 1]@
            == intervals@[0].groups@[group as int].metrics@[k].metric_name@ + " ("@ + shown@
            + ")"@,
        table.rows.len() == kept.len(),
        ({
            let row = table.rows.deep_view()[r];
            &&& row.len() == 1 + kept[r].groups@[group as int].metrics.len()
            &&& row[0] == (kept[r].timestamp.fixed3@, CellStyle::Plain)
            &&& row[c + 1] == (cell.text@, cell.style)
        }),
{
    let keep = |interval: TimestampedComputedGroups<NumberText>|
        (group as int) < interval.groups@.len();
    let also = |interval: TimestampedComputedGroups<NumberText>| interval.groups@.len() > group;
    assert(keep =~= also);
    let rows = table.rows.deep_view();
    let header = table.header.deep_view();
    assert(table.deep_view().rows == rows);
    assert(table.deep_view().header == header);
    assert(rows.len() == table.rows.len());
    assert(header.len() == table.header.len());
    assert(header[0] == table.header@[0]@);
    assert(rows[r] == interval_row(kept[r], group as int));
    if 0 <= k < intervals@[0].groups@[group as int].metrics.len() {
        assert(header[k + 1] == table.header@[k + 1]@);
    }
}

/// Of each group of the first interval an empty line is shown, a line with its
/// title and its stage, and its table over the intervals; without intervals one
/// line says so.
pub proof fn law_intervals_shown(
    intervals: &Vec<TimestampedComputedGroups<NumberText>>,
    lines: Vec<String>,
    g: usize,
    table: TableText,
)
    requires
        call_ensures(render_interval_metrics, (intervals,), lines),
        intervals.len() > 0 ==> g < intervals@[0].groups.len() && call_ensures(
            interval_table,
            (intervals, g),
            table,
        ),
    ensures
        intervals.len() == 0 ==> lines.len() == 1 && lines@[0]@ == "No interval data collected."@,
        intervals.len() > 0 ==> {
            &&& lines.len() == 3 * intervals@[0].groups.len()
            &&& lines@[3 * g]@.len() == 0
            &&& lines@[3 * g + 1]@ == "── "@ + intervals@[0].groups@[g as int].group_title@ + (
            if intervals@[0].groups@[g as int].stage == 1 {
                " (Stage 1) ──"@
            } else {
                " (Stage 2) ──"@
            })
            &&& draws(table.deep_view(), lines@[3 * g + 2]@)
        },
{
    reveal_strlit("");
    let deep = lines.deep_view();
    assert(deep.len() == lines.len());
    if intervals.len() == 0 {
        assert(deep[0] == lines@[0]@);
    } else {
        lemma_head(intervals@[0].groups@[g as int]);
        assert(shows_group(
            deep,
            3 * g,
            group_head(intervals@[0].groups@[g as int]),
            interval_table_of(intervals@, g as int),
        ));
        assert(deep[3 * g] == lines@[3 * g]@);
        assert(deep[3 * g + 1] == lines@[3 * g + 1]@);
        assert(deep[3 * g + 2] == lines@[3 * g + 2]@);
    }
}

// ─── What stands in CSV files ────────────────────────────────────────────────

/// The fields of a metric in a CSV file.
pub open spec fn metric_fields(
    group: ComputedGroup<NumberText>,
    cm: ComputedMetric<NumberText>,
) -> Seq<Seq<char>> {
    seq![
        group.group_name@,
        numeral(group.stage as nat, 10),
        cm.metric_name@,
        match cm.value {
            None => Seq::empty(),
            Some(v) => v.plain@,
        },
        cm.units@,
    ]
}

/// The fields of all metrics of groups in a CSV file, group after group and
/// metric after metric.
pub open spec fn all_metric_fields(groups: Seq<ComputedGroup<NumberText>>) -> Seq<Seq<Seq<char>>> {
    Seq::new(
        groups.len(),
        |g: int| Seq::new(groups[g].metrics@.len(), |k: int| metric_fields(groups[g], groups[g].metrics@[k])),
    ).flatten()
}

proof fn lemma_metric_fields(front: Seq<Seq<char>>, groups: Seq<ComputedGroup<NumberText>>)
    ensures
        groups_records(front, groups) == all_metric_fields(groups).map_values(
            |fields: Seq<Seq<char>>| front + fields,
        ),
{
    let f = |group: ComputedGroup<NumberText>| group_records(front, group);
    let add_front = |fields: Seq<Seq<char>>| front + fields;
    let whole = |part: Seq<Seq<Seq<char>>>| part.map_values(add_front);
    let parts = Seq::new(
        groups.len(),
        |g: int| Seq::new(groups[g].metrics@.len(), |k: int| metric_fields(groups[g], groups[g].metrics@[k])),
    );
    assert(groups.map_values(f) =~= parts.map_values(whole)) by {
        assert forall|g: int| 0 <= g < groups.len() implies groups.map_values(f)[g]
            == parts.map_values(whole)[g] by {
            let metrics = groups[g].metrics@;
            assert(groups.map_values(f)[g] =~= parts.map_values(whole)[g]) by {
                assert forall|k: int| 0 <= k < metrics.len() implies groups.map_values(f)[g][k]
                    == parts.map_values(whole)[g][k] by {
                    assert(metric_record(front, groups[g], metrics[k]) =~= front + metric_fields(
                        groups[g],
                        metrics[k],
                    ));
                }
            }
        }
    }
    lemma_map_flatten(parts, add_front);
}

/// The CSV file of metrics has a header and a record for each metric: its group,
/// the stage, its name, its value and its units.
pub proof fn law_metrics_csv(computed: &Vec<ComputedGroup<NumberText>>, records: Vec<Vec<String>>)
    requires
        call_ensures(metrics_csv, (computed,), records),
    ensures
        records.deep_view() == seq![
            seq!["group"@, "stage"@, "metric"@, "value"@, "units"@],
        ] + all_metric_fields(computed@),
{
    let none = Seq::<Seq<char>>::empty();
    lemma_metric_fields(none, computed@);
    let fields = all_metric_fields(computed@);
    assert(fields.map_values(|f: Seq<Seq<char>>| none + f) =~= fields) by {
        assert forall|i: int| 0 <= i < fields.len() implies fields.map_values(
            |f: Seq<Seq<char>>| none + f,
        )[i] == fields[i] by {
            assert(none + fields[i] =~= fields[i]);
        }
    }
}

/// The CSV file of metrics over intervals has a header and a record for each
/// interval and metric: the time with three decimals, and what stands for the
/// metric in the file of metrics. Without intervals there is none.
pub proof fn law_interval_metrics_csv(
    intervals: &Vec<TimestampedComputedGroups<NumberText>>,
    out: Option<Vec<Vec<String>>>,
    parts: Seq<Seq<Seq<Seq<char>>>>,
)
    requires
        call_ensures(interval_metrics_csv, (intervals,), out),
        parts.len() == intervals.len(),
        forall|i: int|
            0 <= i < parts.len() ==> (#[trigger] parts[i]).len() == all_metric_fields(
                intervals@[i].groups@,
            ).len() && forall|k: int|
                0 <= k < parts[i].len() ==> #[trigger] parts[i][k] == seq![
                    intervals@[i].timestamp.fixed3@,
                ] + all_metric_fields(intervals@[i].groups@)[k],
    ensures
        intervals.len() == 0 ==> out is None,
        intervals.len() > 0 ==> (out matches Some(records) && records.deep_view() == seq![
            seq!["timestamp"@, "group"@, "stage"@, "metric"@, "value"@, "units"@],
        ] + parts.flatten()),
{
    let f = |interval: TimestampedComputedGroups<NumberText>|
        groups_records(seq![interval.timestamp.deep_view().fixed3], interval.groups@);
    assert(intervals@.map_values(f) =~= parts) by {
        assert forall|i: int| 0 <= i < parts.len() implies intervals@.map_values(f)[i]
            == parts[i] by {
            let stamp = seq![intervals@[i].timestamp.fixed3@];
            lemma_metric_fields(stamp, intervals@[i].groups@);
            assert(parts[i].len() == all_metric_fields(intervals@[i].groups@).len());
            assert(intervals@.map_values(f)[i] =~= parts[i]);
        }
    }
}

/// The events of results stand in the order of their names, each with the code
/// that the database has for it, or zero, and with its value; there are as many
/// as were captured, and no others.
pub proof fn law_event_lines(
    results: &EventResults<NumberText>,
    db: &TelemetryDatabase,
    out: Vec<(String, (u64, Option<NumberText>))>,
    g: int,
    k: int,
    name: Seq<char>,
    i: int,
    j: int,
)
    requires
        call_ensures(event_lines, (results, db), out),
    ensures
        0 <= i < j < out.len() ==> String::rank(out@[i].0@, out@[j].0@),
        reported(results@, g, k, name) ==> exists|r: int|
            0 <= r < out.len() && (#[trigger] out@[r]).0@ == name && out@[r].1.0 == match value_of(
                db.events@,
                name,
            ) {
                Some(event) => event.code,
                None => 0,
            } && out@[r].1.1.deep_view() == results@[g].1[k].deep_view(),
        0 <= i < out.len() ==> exists|h: int, m: int| #[trigger]
            reported(results@, h, m, out@[i].0@) && results@[h].1[m].deep_view()
                == out@[i].1.1.deep_view(),
        out.len() == all_pairs(results@).len(),
{
    let f = |p: (Seq<char>, Option<NumberText>)|
        (p.0, (event_code(db.events@, p.0), p.1.deep_view()));
    let pairs = all_pairs(results@);
    let entries = pairs.map_values(f);
    let sorted = by_name(entries);
    law_by_name(entries);
    let deep = out.deep_view();
    assert(deep.len() == out.len());
    assert(deep == sorted);
    assert(results@.take(results@.len() as int) =~= results@);
    if 0 <= i < j < out.len() {
        assert(String::rank(sorted[i].0, sorted[j].0));
        assert(deep[i].0 == out@[i].0@);
        assert(deep[j].0 == out@[j].0@);
    }
    if reported(results@, g, k, name) {
        lemma_pair_place(results@, results@.len() as int, g, k);
        let place = all_pairs(results@.take(g)).len() + k;
        lemma_by_name_members(entries, entries[place]);
        assert(entries.contains(entries[place]));
        let r = sorted.index_of(entries[place]);
        assert(deep[r] == entries[place]);
        assert(deep[r] == out@[r].deep_view());
    }
    if 0 <= i < out.len() {
        lemma_by_name_members(entries, sorted[i]);
        assert(sorted.contains(sorted[i]));
        let p = entries.index_of(sorted[i]);
        let (h, m) = lemma_place_found(results@, results@.len() as int, p);
        assert(deep[i] == out@[i].deep_view());
        assert(reported(results@, h, m, out@[i].0@));
    }
}

/// A table of events and a CSV file of events have a row and a record for each
/// line: its name, its code in four hexadecimal digits or more, and its value,
/// in the table without decimals or `n/a`.
pub proof fn law_events_dumped(
    results: &EventResults<NumberText>,
    db: &TelemetryDatabase,
    lines: Vec<(String, (u64, Option<NumberText>))>,
    table: TableText,
    shown: Vec<String>,
    records: Vec<Vec<String>>,
    i: int,
)
    requires
        call_ensures(event_lines, (results, db), lines),
        call_ensures(dump_table, (&lines,), table),
        call_ensures(dump_events, (results, db), shown),
        call_ensures(events_csv, (results, db), records),
        0 <= i < lines.len(),
    ensures
        table.header.deep_view() == seq!["Event"@, "Code"@, "Value"@],
        table.rows.len() == lines.len(),
        plainly(
            table.rows.deep_view()[i],
            seq![
                lines@[i].0@,
                seq!['0', 'x'] + padded(hex_text(lines@[i].1.0), 4, '0'),
                match lines@[i].1.1 {
                    None => seq!['n', '/', 'a'],
                    Some(v) => v.whole@,
                },
            ],
        ),
        shown.len() == 1 && shown@[0]@ == drawn(table.deep_view()),
        records.len() == 1 + lines.len(),
        records.deep_view()[0] == seq!["event"@, "code"@, "value"@],
        records.deep_view()[i + 1] == seq![
            lines@[i].0@,
            seq!['0', 'x'] + padded(hex_text(lines@[i].1.0), 4, '0'),
            match lines@[i].1.1 {
                None => Seq::empty(),
                Some(v) => v.plain@,
            },
        ],
{
    reveal_strlit("0x");
    reveal_strlit("n/a");
    assert("0x"@ =~= seq!['0', 'x']);
    assert("n/a"@ =~= seq!['n', '/', 'a']);
    let deep = lines.deep_view();
    assert(deep.len() == lines.len());
    assert(deep[i] == lines@[i].deep_view());
    let rows = table.rows.deep_view();
    assert(table.deep_view().rows == rows);
    assert(table.deep_view().header == table.header.deep_view());
    assert(rows.len() == table.rows.len());
    assert(records.deep_view().len() == records.len());
    assert(shown.deep_view().len() == shown.len());
    assert(shown.deep_view()[0] == shown@[0]@);
}

/// The events of snapshots are those of all their groups, in ascending order and
/// each once.
pub proof fn law_interval_event_names(
    snapshots: &Vec<TimestampedSnapshot<NumberText>>,
    out: Vec<String>,
    name: Seq<char>,
)
    requires
        call_ensures(interval_event_names, (snapshots,), out),
    ensures
        forall|i: int, j: int|
            0 <= i < j < out.len() ==> #[trigger] String::rank(
                out.deep_view()[i],
                out.deep_view()[j],
            ) && out.deep_view()[i] != out.deep_view()[j],
        out.deep_view().contains(name) <==> exists|s: int, g: int|
            0 <= s < snapshots.len() && 0 <= g < snapshots@[s].results@.len() && (
            #[trigger] snapshots@[s].results@[g]).0.contains(name),
{
    let f = |s: TimestampedSnapshot<NumberText>| names_in(s.results@);
    let h = |group: (Names, Seq<Option<NumberText>>)| group.0;
    let parts = snapshots@.map_values(f);
    let all = snapshots@.flat_map(f);
    law_sorted_distinct::<String>(all);
    assert(ascending::<String>(out.deep_view()));
    assert(out.deep_view().contains(name) <==> all.contains(name));
    if all.contains(name) {
        let s = lemma_flatten_part(parts, name);
        let groups = snapshots@[s].results@;
        let g = lemma_flatten_part(groups.map_values(h), name);
        assert(snapshots@[s].results@[g].0.contains(name));
    }
    assert forall|s: int, g: int|
        0 <= s < snapshots.len() && 0 <= g < snapshots@[s].results@.len() && (
        #[trigger] snapshots@[s].results@[g]).0.contains(name) implies all.contains(name) by {
        let groups = snapshots@[s].results@;
        assert(groups.map_values(h)[g] == groups[g].0);
        lemma_flatten_has(groups.map_values(h), g, name);
        assert(parts[s] == names_in(groups));
        lemma_flatten_has(parts, s, name);
    }
}

/// A table of snapshots and a CSV file of snapshots have a column for the time
/// and one for each event, and a row and a record for each snapshot: the time
/// with three decimals, and the last value of each event, in the table without
/// decimals or `n/a`.
pub proof fn law_snapshots(
    snapshots: &Vec<TimestampedSnapshot<NumberText>>,
    out: (TableText, Vec<Vec<String>>),
    names: Vec<String>,
    i: int,
    k: int,
    name: &str,
    value: Option<&Option<NumberText>>,
)
    requires
        call_ensures(snapshots_table, (snapshots,), out),
        call_ensures(interval_event_names, (snapshots,), names),
        0 <= i < snapshots.len(),
        0 <= k < names.len(),
        name@ == names@[k]@,
        call_ensures(
            EventResults::<NumberText>::last_value,
            (&snapshots@[i].results, name),
            value,
        ),
    ensures
        out.0.header.deep_view() == seq!["Timestamp (s)"@] + names.deep_view(),
        out.1.deep_view()[0] == seq!["timestamp"@] + names.deep_view(),
        out.0.rows.len() == snapshots.len(),
        out.1.len() == 1 + snapshots.len(),
        ({
            let row = out.0.rows.deep_view()[i];
            let record = out.1.deep_view()[i + 1];
            &&& row.len() == 1 + names.len() && record.len() == 1 + names.len()
            &&& row[0] == (snapshots@[i].timestamp.fixed3@, CellStyle::Plain)
            &&& record[0] == snapshots@[i].timestamp.fixed3@
            &&& row[k + 1].1 is Plain
            &&& match value {
                Some(Some(v)) => row[k + 1].0 == v.whole@ && record[k + 1] == v.plain@,
                _ => row[k + 1].0 == seq!['n', '/', 'a'] && record[k + 1].len() == 0,
            }
        }),
{
    reveal_strlit("n/a");
    assert("n/a"@ =~= seq!['n', '/', 'a']);
    let columns = names.deep_view();
    assert(columns.len() == names.len());
    assert(columns[k] == names@[k]@);
    let rows = out.0.rows.deep_view();
    assert(out.0.deep_view().rows == rows);
    assert(out.0.deep_view().header == out.0.header.deep_view());
    assert(rows.len() == out.0.rows.len());
    assert(out.1.deep_view().len() == out.1.len());
    let s = snapshots@[i];
    assert(rows[i] == plain_row(snapshot_texts(s, columns)));
    assert(out.1.deep_view()[i + 1] == snapshot_record(s, columns));
    assert(snapshot_texts(s, columns)[k + 1] == count_text(snapshot_value(s, columns[k])));
    assert(snapshot_record(s, columns)[k + 1] == csv_text(snapshot_value(s, columns[k])));
}

/// Of snapshots their table is shown and their CSV file is written; where there
/// are none, one line says so and there is no file.
pub proof fn law_snapshots_shown(
    snapshots: &Vec<TimestampedSnapshot<NumberText>>,
    both: (TableText, Vec<Vec<String>>),
    lines: Vec<String>,
    file: Option<Vec<Vec<String>>>,
)
    requires
        call_ensures(snapshots_table, (snapshots,), both),
        call_ensures(dump_interval_events, (snapshots,), lines),
        call_ensures(interval_events_csv, (snapshots,), file),
    ensures
        lines.len() == 1,
        snapshots.len() == 0 ==> lines@[0]@ == "No interval data collected."@ && file is None,
        snapshots.len() > 0 ==> lines@[0]@ == drawn(both.0.deep_view()) && (
        file matches Some(records) && records.deep_view() == both.1.deep_view()),
{
    let deep = lines.deep_view();
    assert(deep.len() == lines.len());
    assert(deep[0] == lines@[0]@);
}

// ─── Which units can be cut ──────────────────────────────────────────────────

/// Units can be cut if they have fewer than seven bytes or a character ends
/// with the seventh.
pub proof fn law_units_cut(units: &str, b: bool)
    requires
        call_ensures(check_units, (units,), b),
    ensures
        encode_utf8(units@).len() < 7 ==> b,
        encode_utf8(units@).len() >= 7 ==> b == is_char_boundary(encode_utf8(units@), 7),
{
}

proof fn lemma_group_cut(group: ComputedGroup<NumberText>)
    ensures
        group_cut(group) <==> forall|k: int|
            0 <= k < group.metrics.len() ==> encode_utf8(
                (#[trigger] group.metrics@[k]).units@,
            ).len() < 7 || is_char_boundary(encode_utf8(group.metrics@[k].units@), 7),
{
    if !group_cut(group) {
        let k = choose|k: int|
            0 <= k < group.metrics@.len() && !units_cut((#[trigger] group.metrics@[k]).units@);
        let bytes = encode_utf8(group.metrics@[k].units@);
        assert(!(bytes.len() < 7 || is_char_boundary(bytes, 7)));
    }
}

/// The units of groups can be cut if those of each of their metrics can.
pub proof fn law_groups_checked(groups: &Vec<ComputedGroup<NumberText>>, b: bool)
    requires
        call_ensures(check_groups, (groups,), b),
    ensures
        b <==> forall|g: int, k: int|
            0 <= g < groups.len() && 0 <= k < groups@[g].metrics.len() ==> encode_utf8(
                (#[trigger] groups@[g].metrics@[k]).units@,
            ).len() < 7 || is_char_boundary(encode_utf8(groups@[g].metrics@[k].units@), 7),
{
    if b {
        assert forall|g: int, k: int|
            0 <= g < groups.len() && 0 <= k < groups@[g].metrics.len() implies encode_utf8(
            (#[trigger] groups@[g].metrics@[k]).units@,
        ).len() < 7 || is_char_boundary(encode_utf8(groups@[g].metrics@[k].units@), 7) by {
            assert(group_cut(groups@[g]));
            lemma_group_cut(groups@[g]);
        }
    } else {
        let g = choose|g: int| 0 <= g < groups@.len() && !group_cut(#[trigger] groups@[g]);
        lemma_group_cut(groups@[g]);
        let k = choose|k: int|
            0 <= k < groups@[g].metrics.len() && !(encode_utf8(
                (#[trigger] groups@[g].metrics@[k]).units@,
            ).len() < 7 || is_char_boundary(encode_utf8(groups@[g].metrics@[k].units@), 7));
        assert(0 <= g < groups.len() && 0 <= k < groups@[g].metrics.len());
        let bytes = encode_utf8(groups@[g].metrics@[k].units@);
        assert(!(bytes.len() < 7 || is_char_boundary(bytes, 7)));
    }
}

/// The units of intervals can be cut if those of the groups of each can.
pub proof fn law_units_checked(
    intervals: &Vec<TimestampedComputedGroups<NumberText>>,
    b: bool,
    checked: Seq<bool>,
)
    requires
        call_ensures(check_intervals, (intervals,), b),
        checked.len() == intervals.len(),
        forall|i: int|
            0 <= i < intervals.len() ==> call_ensures(
                check_groups,
                (&intervals@[i].groups,),
                #[trigger] checked[i],
            ),
    ensures
        b <==> !checked.contains(false),
{
    if b {
        assert forall|i: int| 0 <= i < checked.len() implies #[trigger] checked[i] by {
            assert(groups_cut(intervals@[i].groups@));
        }
    } else {
        let i = choose|i: int|
            0 <= i < intervals.len() && !groups_cut((#[trigger] intervals@[i]).groups@);
        assert(!checked[i]);
    }
}

} // verus!
