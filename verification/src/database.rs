//! The telemetry of a CPU in memory: events, metrics, groups, and the topdown
//! methodology, with lookups by name.
use vstd::prelude::*;
use vstd::string::*;
use vstd::utf8::is_ascii_chars;

use crate::name_map::{
    deep_entries, has_name, law_with_value, lemma_deep_entries, lemma_deep_with_value,
    lemma_place_of, lemma_value_at, names_distinct, value_of, with_value, NameMap,
};
use crate::number::{
    all_digits, digit_value, digits_value, hex_text, integer_of, is_figure, law_digits_read,
    law_hex_digits, law_hex_prefix, law_hex_round_trip, law_integers, law_no_integers, law_numeral,
    read_hex, reckoned, strip_hex_prefix, to_hex, without_hex_prefix,
};
use crate::order::{
    ascending, law_sorted, law_sorted_distinct, sort, sort_distinct, sorted, sorted_distinct, Ranked,
};
use crate::scheduler::{lemma_flatten_has, lemma_flatten_part};
use crate::spec;
use crate::spec::{names_resolve, TelemetrySpecification};
use crate::text::{
    ascii_lowered, contains_text, copy_texts, from_chars, lowercase_of, same_text, small_letter,
    to_chars, to_lowercase,
};

verus! {

// ─── Names and codes ─────────────────────────────────────────────────────────

/// A text without `_` and `-`.
pub open spec fn stripped(s: Seq<char>) -> Seq<char> {
    s.filter(|c: char| c != '_' && c != '-')
}

/// What a name is looked up by: its lower case without `_` and `-`.
pub open spec fn normalized(s: Seq<char>) -> Seq<char> {
    stripped(lowercase_of(s))
}

/// What a name of ASCII characters is looked up by.
pub open spec fn folded(s: Seq<char>) -> Seq<char> {
    stripped(ascii_lowered(s))
}

/// Removes `_` and `-`.
pub fn strip_separators(s: &str) -> (out: String)
    ensures
        out@ == stripped(s@),
{
    let chars = to_chars(s);
    let ghost keep = |c: char| c != '_' && c != '-';
    let mut out: Vec<char> = Vec::new();
    proof {
        reveal(Seq::filter);
        assert(chars@.take(0) =~= Seq::empty());
    }
    for i in 0..chars.len()
        invariant
            keep == (|c: char| c != '_' && c != '-'),
            out@ == chars@.take(i as int).filter(keep),
    {
        proof {
            assert(chars@.take(i + 1) =~= chars@.take(i as int).push(chars@[i as int]));
            chars@.take(i as int).lemma_filter_push(chars@[i as int], keep);
        }
        if chars[i] != '_' && chars[i] != '-' {
            out.push(chars[i]);
        }
    }
    assert(chars@.take(chars.len() as int) =~= chars@);
    from_chars(&out)
}

/// What a name is looked up by, so that case, `_` and `-` do not matter.
pub fn normalize_str(s: &str) -> (out: String)
    ensures
        out@ == normalized(s@),
        is_ascii_chars(s@) ==> normalized(s@) == folded(s@),
{
    let lowered = to_lowercase(s);
    strip_separators(lowered.as_str())
}

/// The number that a hexadecimal code writes, with or without `0x`; zero if it
/// is no such number.
pub open spec fn hex_code_of(s: Seq<char>) -> int {
    match integer_of(without_hex_prefix(s), 16, 0, u64::MAX as int) {
        Ok(v) => v,
        Err(_) => 0,
    }
}

/// Reads a hexadecimal code like `0x0011`; what cannot be read counts as zero.
pub fn parse_hex_code(s: &str) -> (code: u64)
    ensures
        code == hex_code_of(s@),
{
    match read_hex(&strip_hex_prefix(&to_chars(s))) {
        Ok(v) => v,
        Err(_) => 0,
    }
}

/// A number written in hexadecimal after `0x` is read back.
pub proof fn law_hex_code_round_trip(n: u64)
    ensures
        hex_code_of("0x"@ + hex_text(n)) == n,
{
    let s = "0x"@ + hex_text(n);
    reveal_strlit("0x");
    assert(s.take(2) =~= "0x"@);
    assert(s.skip(2) =~= hex_text(n));
    law_hex_round_trip(n);
}

/// The digits of a hexadecimal code: what follows the `0x` or `0X` and one `+`,
/// as far as they are there.
pub open spec fn code_digits(s: Seq<char>) -> Seq<char> {
    let rest = without_hex_prefix(s);
    if rest.len() > 0 && rest[0] == '+' {
        rest.drop_first()
    } else {
        rest
    }
}

/// A code is the number that its digits stand for, and zero if there is none,
/// if something other than a digit stands among them, or if the number does not
/// fit.
pub proof fn law_hex_code(s: Seq<char>)
    ensures
        hex_code_of(s) == if code_digits(s).len() > 0 && all_digits(code_digits(s), 16)
            && digits_value(code_digits(s), 16) <= u64::MAX {
            digits_value(code_digits(s), 16)
        } else {
            0
        },
{
    let rest = without_hex_prefix(s);
    law_digits_read(code_digits(s), 16, 0, u64::MAX as int);
    if rest.len() == 1 && rest[0] == '-' {
        assert(digit_value(code_digits(s)[0], 16) is None);
    }
}

/// A number is read back from all the ways to write it: with small or capital
/// letters, after any number of zeros, with `0x`, with `0X` and without.
pub proof fn law_hex_code_writings(n: u64, zeros: nat, digits: Seq<char>)
    requires
        ascii_lowered(digits) == Seq::new(zeros, |i: int| '0') + hex_text(n),
    ensures
        hex_code_of(digits) == n,
        hex_code_of("0x"@ + digits) == n,
        hex_code_of("0X"@ + digits) == n,
{
    reveal_strlit("0x");
    reveal_strlit("0X");
    law_hex_digits(n, zeros, digits);
    assert(digit_value(digits[0], 16) is Some);
    if digits.len() > 1 {
        assert(digit_value(digits[1], 16) is Some);
        assert(digits.take(2)[1] != "0x"@[1] && digits.take(2)[1] != "0X"@[1]);
    }
    assert(without_hex_prefix(digits) == digits);
    law_hex_code(digits);
    let small = "0x"@ + digits;
    assert(small.take(2) =~= "0x"@);
    assert(small.skip(2) =~= digits);
    law_hex_code(small);
    let capital = "0X"@ + digits;
    assert(capital.take(2) =~= "0X"@);
    assert(capital.skip(2) =~= digits);
    law_hex_code(capital);
}

/// Upper and lower case of `A` to `Z` make no difference to what an ASCII name
/// is looked up by, and neither does a `_` or `-` anywhere in it.
pub proof fn law_folded(a: Seq<char>, separator: char, b: Seq<char>)
    requires
        separator == '_' || separator == '-',
    ensures
        folded(ascii_lowered(a)) == folded(a),
        folded(a + seq![separator] + b) == folded(a + b),
{
    assert(ascii_lowered(ascii_lowered(a)) =~= ascii_lowered(a));
    let keep = |c: char| c != '_' && c != '-';
    let (x, y) = (ascii_lowered(a), ascii_lowered(b));
    let mid = seq![separator];
    assert(small_letter(separator) == separator);
    assert(ascii_lowered(a + mid + b) =~= x + mid + y);
    assert(ascii_lowered(a + b) =~= x + y);
    Seq::filter_distributes_over_add(x + mid, y, keep);
    Seq::filter_distributes_over_add(x, y, keep);
    assert(x + mid =~= x.push(separator));
    x.lemma_filter_push(separator, keep);
}

// ─── Event ───────────────────────────────────────────────────────────────────

/// A hardware event.
#[derive(Debug, Clone, Hash)]
pub struct Event {
    pub name: String,
    pub title: String,
    pub description: String,
    /// The event code, read from a hexadecimal text like `0x0011`.
    pub code: u64,
}

/// What an `Event` stands for.
#[verifier::ext_equal]
pub struct EventInfo {
    pub name: Seq<char>,
    pub title: Seq<char>,
    pub description: Seq<char>,
    pub code: u64,
}

impl DeepView for Event {
    type V = EventInfo;

    open spec fn deep_view(&self) -> EventInfo {
        EventInfo {
            name: self.name@,
            title: self.title@,
            description: self.description@,
            code: self.code,
        }
    }
}

impl Event {
    /// The name by which `perf` knows the event, such as `r11` for code 0x11.
    pub fn perf_name(&self) -> (out: String)
        ensures
            out@ == "r"@ + hex_text(self.code),
    {
        let mut out = "r".to_owned();
        out.append(to_hex(self.code).as_str());
        out
    }
}

impl PartialEq for Event {
    fn eq(&self, other: &Self) -> (b: bool) {
        same_text(self.name.as_str(), other.name.as_str()) && same_text(
            self.title.as_str(),
            other.title.as_str(),
        ) && same_text(self.description.as_str(), other.description.as_str()) && self.code
            == other.code
    }
}

impl vstd::std_specs::cmp::PartialEqSpecImpl for Event {
    open spec fn obeys_eq_spec() -> bool {
        true
    }

    open spec fn eq_spec(&self, other: &Self) -> bool {
        self.deep_view() == other.deep_view()
    }
}

impl Eq for Event {

}

/// The order of two names.
pub open spec fn name_order(a: Seq<char>, b: Seq<char>) -> core::cmp::Ordering {
    if a == b {
        core::cmp::Ordering::Equal
    } else if String::rank(a, b) {
        core::cmp::Ordering::Less
    } else {
        core::cmp::Ordering::Greater
    }
}

/// The order of two names.
fn order_names(a: &String, b: &String) -> (out: core::cmp::Ordering)
    ensures
        out == name_order(a@, b@),
{
    if same_text(a.as_str(), b.as_str()) {
        core::cmp::Ordering::Equal
    } else if a.at_most(b) {
        core::cmp::Ordering::Less
    } else {
        core::cmp::Ordering::Greater
    }
}

impl PartialOrd for Event {
    fn partial_cmp(&self, other: &Self) -> (out: Option<core::cmp::Ordering>) {
        Some(order_names(&self.name, &other.name))
    }
}

impl vstd::std_specs::cmp::PartialOrdSpecImpl for Event {
    open spec fn obeys_partial_cmp_spec() -> bool {
        true
    }

    open spec fn partial_cmp_spec(&self, other: &Self) -> Option<core::cmp::Ordering> {
        Some(name_order(self.name@, other.name@))
    }
}

// ─── Metric ──────────────────────────────────────────────────────────────────

/// A value that a formula computes from events.
#[derive(Debug, Clone)]
pub struct Metric {
    pub name: String,
    pub title: String,
    pub description: String,
    pub units: String,
    pub formula: String,
    /// The events that the formula needs, in ascending order.
    pub event_names: Vec<String>,
    /// The events to sample for this metric, in ascending order.
    pub sample_event_names: Vec<String>,
}

/// What a `Metric` stands for.
#[verifier::ext_equal]
pub struct MetricInfo {
    pub name: Seq<char>,
    pub title: Seq<char>,
    pub description: Seq<char>,
    pub units: Seq<char>,
    pub formula: Seq<char>,
    pub event_names: Seq<Seq<char>>,
    pub sample_event_names: Seq<Seq<char>>,
}

impl DeepView for Metric {
    type V = MetricInfo;

    open spec fn deep_view(&self) -> MetricInfo {
        MetricInfo {
            name: self.name@,
            title: self.title@,
            description: self.description@,
            units: self.units@,
            formula: self.formula@,
            event_names: self.event_names.deep_view(),
            sample_event_names: self.sample_event_names.deep_view(),
        }
    }
}

/// Metrics are equal when their names are.
impl PartialEq for Metric {
    fn eq(&self, other: &Self) -> (b: bool) {
        same_text(self.name.as_str(), other.name.as_str())
    }
}

impl vstd::std_specs::cmp::PartialEqSpecImpl for Metric {
    open spec fn obeys_eq_spec() -> bool {
        true
    }

    open spec fn eq_spec(&self, other: &Self) -> bool {
        self.name@ == other.name@
    }
}

/// A metric is hashed by its name, which is what makes two of them equal. What a
/// hasher makes of the name is not stated.
impl std::hash::Hash for Metric {
    fn hash<H: std::hash::Hasher>(&self, state: &mut H) {
        self.name.hash(state);
    }
}

impl Eq for Metric {

}

impl PartialOrd for Metric {
    fn partial_cmp(&self, other: &Self) -> (out: Option<core::cmp::Ordering>) {
        Some(order_names(&self.name, &other.name))
    }
}

impl vstd::std_specs::cmp::PartialOrdSpecImpl for Metric {
    open spec fn obeys_partial_cmp_spec() -> bool {
        true
    }

    open spec fn partial_cmp_spec(&self, other: &Self) -> Option<core::cmp::Ordering> {
        Some(name_order(self.name@, other.name@))
    }
}

// ─── Group ───────────────────────────────────────────────────────────────────

/// A named group of metrics, such as `Topdown_Backend`.
#[derive(Debug, Clone)]
pub struct Group {
    pub name: String,
    pub title: String,
    pub description: String,
    /// The metrics of the group, in ascending order.
    pub metric_names: Vec<String>,
}

/// What a `Group` stands for.
#[verifier::ext_equal]
pub struct GroupInfo {
    pub name: Seq<char>,
    pub title: Seq<char>,
    pub description: Seq<char>,
    pub metric_names: Seq<Seq<char>>,
}

impl DeepView for Group {
    type V = GroupInfo;

    open spec fn deep_view(&self) -> GroupInfo {
        GroupInfo {
            name: self.name@,
            title: self.title@,
            description: self.description@,
            metric_names: self.metric_names.deep_view(),
        }
    }
}

/// Groups are equal when their names are.
impl PartialEq for Group {
    fn eq(&self, other: &Self) -> (b: bool) {
        same_text(self.name.as_str(), other.name.as_str())
    }
}

impl vstd::std_specs::cmp::PartialEqSpecImpl for Group {
    open spec fn obeys_eq_spec() -> bool {
        true
    }

    open spec fn eq_spec(&self, other: &Self) -> bool {
        self.name@ == other.name@
    }
}

/// A group is hashed by its name, which is what makes two of them equal. What a
/// hasher makes of the name is not stated.
impl std::hash::Hash for Group {
    fn hash<H: std::hash::Hasher>(&self, state: &mut H) {
        self.name.hash(state);
    }
}

impl Eq for Group {

}

impl PartialOrd for Group {
    fn partial_cmp(&self, other: &Self) -> (out: Option<core::cmp::Ordering>) {
        Some(order_names(&self.name, &other.name))
    }
}

impl vstd::std_specs::cmp::PartialOrdSpecImpl for Group {
    open spec fn obeys_partial_cmp_spec() -> bool {
        true
    }

    open spec fn partial_cmp_spec(&self, other: &Self) -> Option<core::cmp::Ordering> {
        Some(name_order(self.name@, other.name@))
    }
}

// ─── Topdown methodology ─────────────────────────────────────────────────────

/// A node of the topdown decision tree.
#[derive(Debug, Clone)]
pub struct TopdownNode {
    pub name: String,
    pub group_name: String,
    pub next_items: Vec<String>,
    pub sample_event_names: Vec<String>,
}

/// What a `TopdownNode` stands for.
#[verifier::ext_equal]
pub struct NodeInfo {
    pub name: Seq<char>,
    pub group_name: Seq<char>,
    pub next_items: Seq<Seq<char>>,
    pub sample_event_names: Seq<Seq<char>>,
}

impl DeepView for TopdownNode {
    type V = NodeInfo;

    open spec fn deep_view(&self) -> NodeInfo {
        NodeInfo {
            name: self.name@,
            group_name: self.group_name@,
            next_items: self.next_items.deep_view(),
            sample_event_names: self.sample_event_names.deep_view(),
        }
    }
}

/// The stages of the topdown methodology and its decision tree.
#[derive(Debug, Clone)]
pub struct TopdownMethodology {
    pub title: String,
    pub description: String,
    pub root_metric_names: Vec<String>,
    pub stage_1_group_names: Vec<String>,
    pub stage_2_group_names: Vec<String>,
    pub nodes: NameMap<TopdownNode>,
    /// The stage, 1 or 2, of a group.
    pub stage_for_group: NameMap<usize>,
    /// What a node is looked up by, and its name.
    pub node_normalized: NameMap<String>,
}

/// What names are looked up by, each with its name. Where two names are looked
/// up by the same text, the later one counts.
pub open spec fn lookup_table(names: Seq<Seq<char>>) -> Seq<(Seq<char>, Seq<char>)>
    decreases names.len(),
{
    if names.len() == 0 {
        Seq::empty()
    } else {
        with_value(lookup_table(names.drop_last()), normalized(names.last()), names.last())
    }
}

/// The entry that a name leads to by way of a lookup table.
pub open spec fn looked_up<W>(
    table: Seq<(Seq<char>, Seq<char>)>,
    entries: Seq<(Seq<char>, W)>,
    name: Seq<char>,
) -> Option<W> {
    match value_of(table, normalized(name)) {
        Some(original) => value_of(entries, original),
        None => None,
    }
}

/// A lookup table leads from every text that a name is looked up by to the
/// last name that is looked up by it, and from other texts nowhere.
pub proof fn law_lookup_table(names: Seq<Seq<char>>, key: Seq<char>)
    ensures
        names_distinct(lookup_table(names)),
        match value_of(lookup_table(names), key) {
            Some(name) => exists|i: int|
                #![trigger names[i]]
                0 <= i < names.len() && names[i] == name && normalized(name) == key && forall|j:
                    int|
                    i < j < names.len() ==> normalized(#[trigger] names[j]) != key,
            None => forall|i: int| 0 <= i < names.len() ==> normalized(#[trigger] names[i]) != key,
        },
    decreases names.len(),
{
    if names.len() > 0 {
        let front = names.drop_last();
        let last = names.last();
        law_lookup_table(front, key);
        law_with_value(lookup_table(front), normalized(last), last, key);
        if normalized(last) == key {
            assert(names[names.len() - 1] == last);
        } else {
            match value_of(lookup_table(front), key) {
                Some(name) => {
                    let i = choose|i: int|
                        #![trigger front[i]]
                        0 <= i < front.len() && front[i] == name && normalized(name) == key
                            && forall|j: int|
                            i < j < front.len() ==> normalized(#[trigger] front[j]) != key;
                    assert(names[i] == name);
                    assert forall|j: int| i < j < names.len() implies normalized(
                        #[trigger] names[j],
                    ) != key by {
                        if j < front.len() {
                            assert(front[j] == names[j]);
                        }
                    }
                },
                None => {
                    assert forall|i: int| 0 <= i < names.len() implies normalized(
                        #[trigger] names[i],
                    ) != key by {
                        if i < front.len() {
                            assert(front[i] == names[i]);
                        }
                    }
                },
            }
        }
    } else {
        assert(!has_name(lookup_table(names), key));
    }
}

/// A name is found under any spelling that is looked up by the same text, if no
/// later name is looked up by that text too.
pub proof fn law_found_under_any_spelling(names: Seq<Seq<char>>, i: int, spelling: Seq<char>)
    requires
        0 <= i < names.len(),
        normalized(spelling) == normalized(names[i]),
        forall|j: int|
            i < j < names.len() ==> normalized(#[trigger] names[j]) != normalized(names[i]),
    ensures
        value_of(lookup_table(names), normalized(spelling)) == Some(names[i]),
{
    let key = normalized(names[i]);
    law_lookup_table(names, key);
    match value_of(lookup_table(names), key) {
        Some(name) => {
            let k = choose|k: int|
                #![trigger names[k]]
                0 <= k < names.len() && names[k] == name && normalized(name) == key && forall|j:
                    int|
                    k < j < names.len() ==> normalized(#[trigger] names[j]) != key;
            if k < i {
                assert(normalized(names[i]) != key);
            } else if i < k {
                assert(normalized(names[k]) != key);
            }
        },
        None => {},
    }
}

/// Builds a lookup table, entry by entry.
fn add_lookup(table: NameMap<String>, name: &String) -> (out: NameMap<String>)
    ensures
        out.deep_view() == with_value(table.deep_view(), normalized(name@), name@),
        is_ascii_chars(name@) ==> normalized(name@) == folded(name@),
{
    let key = normalize_str(name.as_str());
    let mut out = table;
    proof {
        lemma_deep_with_value(table@, key@, *name);
    }
    out.insert(key, name.clone());
    out
}

/// The stage of each group that a stage lists, the first stage first.
pub open spec fn stage_table(stage_1: Seq<Seq<char>>, stage_2: Seq<Seq<char>>) -> Seq<
    (Seq<char>, usize),
>
    decreases stage_2.len(), stage_1.len(),
{
    if stage_2.len() > 0 {
        with_value(stage_table(stage_1, stage_2.drop_last()), stage_2.last(), 2)
    } else if stage_1.len() > 0 {
        with_value(stage_table(stage_1.drop_last(), stage_2), stage_1.last(), 1)
    } else {
        Seq::empty()
    }
}

/// A group of the second stage is of stage 2, another of the first stage is of
/// stage 1, and other groups have no stage.
pub proof fn law_stage_table(stage_1: Seq<Seq<char>>, stage_2: Seq<Seq<char>>, name: Seq<char>)
    ensures
        names_distinct(stage_table(stage_1, stage_2)),
        value_of(stage_table(stage_1, stage_2), name) == if stage_2.contains(name) {
            Some(2usize)
        } else if stage_1.contains(name) {
            Some(1usize)
        } else {
            None
        },
    decreases stage_2.len(), stage_1.len(),
{
    if stage_2.len() > 0 {
        let front = stage_2.drop_last();
        law_stage_table(stage_1, front, name);
        law_with_value(stage_table(stage_1, front), stage_2.last(), 2usize, name);
        assert(stage_2 =~= front.push(stage_2.last()));
        vstd::seq_lib::lemma_seq_contains_after_push(front, stage_2.last(), name);
        assert(stage_2.contains(name) <==> front.contains(name) || name == stage_2.last());
    } else if stage_1.len() > 0 {
        let front = stage_1.drop_last();
        law_stage_table(front, stage_2, name);
        law_with_value(stage_table(front, stage_2), stage_1.last(), 1usize, name);
        assert(stage_1 =~= front.push(stage_1.last()));
        vstd::seq_lib::lemma_seq_contains_after_push(front, stage_1.last(), name);
        assert(stage_1.contains(name) <==> front.contains(name) || name == stage_1.last());
    } else {
        assert(!has_name(stage_table(stage_1, stage_2), name));
    }
}

/// What a node of a specification becomes.
pub open spec fn node_info(node: spec::TopdownMethodologyNode) -> NodeInfo {
    NodeInfo {
        name: node.name@,
        group_name: node.group@,
        next_items: node.next_items.deep_view(),
        sample_event_names: node.sample_events.deep_view(),
    }
}

/// The nodes under their names; of two with the same name the later one counts.
pub open spec fn node_table(nodes: Seq<spec::TopdownMethodologyNode>) -> Seq<
    (Seq<char>, NodeInfo),
>
    decreases nodes.len(),
{
    if nodes.len() == 0 {
        Seq::empty()
    } else {
        with_value(node_table(nodes.drop_last()), nodes.last().name@, node_info(nodes.last()))
    }
}

/// The names of nodes.
pub open spec fn node_names(nodes: Seq<spec::TopdownMethodologyNode>) -> Seq<Seq<char>> {
    nodes.map_values(|node: spec::TopdownMethodologyNode| node.name@)
}

/// Whether names of ASCII characters are looked up without regard to case, `_`
/// and `-`.
pub open spec fn ascii_folded(names: Seq<Seq<char>>) -> bool {
    forall|i: int|
        0 <= i < names.len() && is_ascii_chars(#[trigger] names[i]) ==> normalized(names[i])
            == folded(names[i])
}

impl TopdownMethodology {
    /// Whether this is the methodology of a specification.
    pub open spec fn built_from(&self, td: spec::TopdownMethodology) -> bool {
        let nodes = td.decision_tree.metrics@;
        &&& self.title@ == td.title@
        &&& self.description@ == td.description@
        &&& self.root_metric_names.deep_view() == td.decision_tree.root_nodes.deep_view()
        &&& self.stage_1_group_names.deep_view() == td.metric_grouping.stage_1.deep_view()
        &&& self.stage_2_group_names.deep_view() == td.metric_grouping.stage_2.deep_view()
        &&& self.nodes.deep_view() == node_table(nodes)
        &&& self.stage_for_group@ == stage_table(
            td.metric_grouping.stage_1.deep_view(),
            td.metric_grouping.stage_2.deep_view(),
        )
        &&& self.node_normalized.deep_view() == lookup_table(node_names(nodes))
        &&& ascii_folded(node_names(nodes))
    }

    fn build(td: &spec::TopdownMethodology) -> (out: Self)
        ensures
            out.built_from(*td),
    {
        let stage_1 = &td.metric_grouping.stage_1;
        let stage_2 = &td.metric_grouping.stage_2;
        let ghost first = stage_1.deep_view();
        let ghost second = stage_2.deep_view();
        let mut stage_for_group: NameMap<usize> = NameMap::new();
        assert(first.take(0) =~= Seq::empty());
        for i in 0..stage_1.len()
            invariant
                first == stage_1.deep_view(),
                stage_for_group@ == stage_table(first.take(i as int), Seq::empty()),
        {
            assert(first.take(i + 1).drop_last() =~= first.take(i as int));
            stage_for_group.insert(stage_1[i].clone(), 1);
        }
        assert(first.take(first.len() as int) =~= first);
        assert(second.take(0) =~= Seq::empty());
        for i in 0..stage_2.len()
            invariant
                second == stage_2.deep_view(),
                stage_for_group@ == stage_table(first, second.take(i as int)),
        {
            assert(second.take(i + 1).drop_last() =~= second.take(i as int));
            stage_for_group.insert(stage_2[i].clone(), 2);
        }
        assert(second.take(second.len() as int) =~= second);

        let tree = &td.decision_tree.metrics;
        let ghost all = tree@;
        let ghost names = node_names(all);
        let mut nodes: NameMap<TopdownNode> = NameMap::new();
        let mut node_normalized: NameMap<String> = NameMap::new();
        proof {
            assert(all.take(0) =~= Seq::empty());
            assert(names.take(0) =~= Seq::empty());
            assert(nodes.deep_view() =~= node_table(all.take(0)));
            assert(node_normalized.deep_view() =~= lookup_table(names.take(0)));
        }
        for i in 0..tree.len()
            invariant
                all == tree@,
                names == node_names(all),
                nodes.deep_view() == node_table(all.take(i as int)),
                node_normalized.deep_view() == lookup_table(names.take(i as int)),
                ascii_folded(names.take(i as int)),
        {
            let n = &tree[i];
            let node = TopdownNode {
                name: n.name.clone(),
                group_name: n.group.clone(),
                next_items: copy_texts(&n.next_items),
                sample_event_names: copy_texts(&n.sample_events),
            };
            proof {
                assert(all.take(i + 1).drop_last() =~= all.take(i as int));
                assert(names.take(i + 1).drop_last() =~= names.take(i as int));
                assert(node.deep_view() =~= node_info(*n));
                lemma_deep_with_value(nodes@, n.name@, node);
            }
            nodes.insert(n.name.clone(), node);
            node_normalized = add_lookup(node_normalized, &n.name);
            assert forall|k: int|
                0 <= k < names.take(i + 1).len() && is_ascii_chars(
                    #[trigger] names.take(i + 1)[k],
                ) implies normalized(names.take(i + 1)[k]) == folded(names.take(i + 1)[k]) by {
                if k < i {
                    assert(names.take(i as int)[k] == names.take(i + 1)[k]);
                }
            }
        }
        proof {
            assert(all.take(all.len() as int) =~= all);
            assert(names.take(names.len() as int) =~= names);
        }
        TopdownMethodology {
            title: td.title.clone(),
            description: td.description.clone(),
            root_metric_names: copy_texts(&td.decision_tree.root_nodes),
            stage_1_group_names: copy_texts(stage_1),
            stage_2_group_names: copy_texts(stage_2),
            nodes,
            stage_for_group,
            node_normalized,
        }
    }

    /// The stage of a group; 2 if it has none.
    pub open spec fn stage_of(&self, group_name: Seq<char>) -> usize {
        match value_of(self.stage_for_group@, group_name) {
            Some(stage) => stage,
            None => 2,
        }
    }

    /// The stage of a group; 2 if it has none.
    pub fn get_stage_for_group(&self, group_name: &str) -> (stage: usize)
        ensures
            stage == self.stage_of(group_name@),
    {
        match self.stage_for_group.get(group_name) {
            Some(stage) => *stage,
            None => 2,
        }
    }

    /// The node of a name, whatever its case, with or without `_` and `-`.
    pub fn find_node(&self, name: &str) -> (out: Option<&TopdownNode>)
        ensures
            match out {
                Some(node) => looked_up(self.node_normalized.deep_view(), self.nodes@, name@)
                    == Some(*node),
                None => looked_up(self.node_normalized.deep_view(), self.nodes@, name@) is None,
            },
            is_ascii_chars(name@) ==> normalized(name@) == folded(name@),
    {
        let key = normalize_str(name);
        proof {
            lemma_deep_entries(self.node_normalized@, key@);
        }
        match self.node_normalized.get(key.as_str()) {
            Some(original) => self.nodes.get(original.as_str()),
            None => None,
        }
    }
}

/// In the methodology of a specification every group is of stage 1 or 2: of
/// stage 1 if the first stage lists it and the second does not.
pub proof fn law_stages(topdown: TopdownMethodology, td: spec::TopdownMethodology, name: Seq<char>)
    requires
        topdown.built_from(td),
    ensures
        topdown.stage_of(name) == 1 || topdown.stage_of(name) == 2,
        topdown.stage_of(name) == 1 <==> td.metric_grouping.stage_1.deep_view().contains(name)
            && !td.metric_grouping.stage_2.deep_view().contains(name),
{
    law_stage_table(
        td.metric_grouping.stage_1.deep_view(),
        td.metric_grouping.stage_2.deep_view(),
        name,
    );
}

// ─── Database ────────────────────────────────────────────────────────────────

/// Events, metrics, groups, and the topdown methodology of a CPU.
#[derive(Debug)]
pub struct TelemetryDatabase {
    pub product_name: String,
    pub num_slots: usize,
    pub events: NameMap<Event>,
    pub metrics: NameMap<Metric>,
    pub groups: NameMap<Group>,
    pub topdown: TopdownMethodology,
    /// What a metric is looked up by, and its name.
    pub metrics_normalized: NameMap<String>,
    /// What a group is looked up by, and its name.
    pub group_normalized: NameMap<String>,
}

/// What an event of a specification becomes.
pub open spec fn event_entry(e: (Seq<char>, spec::Event)) -> (Seq<char>, EventInfo) {
    (
        e.0,
        EventInfo {
            name: e.0,
            title: e.1.title@,
            description: e.1.description@,
            code: hex_code_of(e.1.code@) as u64,
        },
    )
}

/// What a metric of a specification becomes.
pub open spec fn metric_entry(e: (Seq<char>, spec::Metric)) -> (Seq<char>, MetricInfo) {
    (
        e.0,
        MetricInfo {
            name: e.0,
            title: e.1.title@,
            description: e.1.description@,
            units: e.1.units@,
            formula: e.1.formula@,
            event_names: sorted::<String>(e.1.events.deep_view()),
            sample_event_names: sorted::<String>(e.1.sample_events.deep_view()),
        },
    )
}

/// What a metric group of a specification becomes.
pub open spec fn group_entry(e: (Seq<char>, spec::MetricGroup)) -> (Seq<char>, GroupInfo) {
    (
        e.0,
        GroupInfo {
            name: e.0,
            title: e.1.title@,
            description: e.1.description@,
            metric_names: sorted::<String>(e.1.metrics.deep_view()),
        },
    )
}

/// The names of entries.
pub open spec fn names_of<W>(entries: Seq<(Seq<char>, W)>) -> Seq<Seq<char>> {
    entries.map_values(|e: (Seq<char>, W)| e.0)
}

/// The name of an entry is new to the entries before it, whatever becomes of
/// their values.
proof fn lemma_name_is_new<A, B>(
    entries: Seq<(Seq<char>, A)>,
    f: spec_fn((Seq<char>, A)) -> (Seq<char>, B),
    i: int,
)
    requires
        names_distinct(entries),
        0 <= i < entries.len(),
        forall|e: (Seq<char>, A)| (#[trigger] f(e)).0 == e.0,
    ensures
        !has_name(entries.take(i).map_values(f), entries[i].0),
        entries.take(i + 1).map_values(f) == entries.take(i).map_values(f).push(f(entries[i])),
{
    let done = entries.take(i).map_values(f);
    if has_name(done, entries[i].0) {
        let k = choose|k: int| 0 <= k < done.len() && (#[trigger] done[k]).0 == entries[i].0;
        assert(done[k] == f(entries[k]));
        assert(entries[k].0 != entries[i].0);
    }
    assert(entries.take(i + 1).map_values(f) =~= done.push(f(entries[i])));
}

fn build_events(from: &NameMap<spec::Event>) -> (out: NameMap<Event>)
    ensures
        out.deep_view() == from@.map_values(|e: (Seq<char>, spec::Event)| event_entry(e)),
{
    let ghost all = from@;
    let ghost f = |e: (Seq<char>, spec::Event)| event_entry(e);
    let mut out: NameMap<Event> = NameMap::new();
    assert(out.deep_view() =~= all.take(0).map_values(f));
    let n = from.len();
    for i in 0..n
        invariant
            n == all.len(),
            all == from@,
            names_distinct(all),
            f == (|e: (Seq<char>, spec::Event)| event_entry(e)),
            out.deep_view() == all.take(i as int).map_values(f),
    {
        let name = from.name_at(i);
        let ev = from.value_at(i);
        let event = Event {
            name: name.clone(),
            title: ev.title.clone(),
            description: ev.description.clone(),
            code: parse_hex_code(ev.code.as_str()),
        };
        proof {
            assert(all[i as int] == (name@, *ev));
            assert(event.deep_view() =~= f(all[i as int]).1);
            lemma_deep_with_value(out@, name@, event);
            lemma_name_is_new(all, f, i as int);
        }
        out.insert(name.clone(), event);
    }
    assert(all.take(all.len() as int) =~= all);
    out
}

fn build_metrics(from: &NameMap<spec::Metric>) -> (out: NameMap<Metric>)
    ensures
        out.deep_view() == from@.map_values(|e: (Seq<char>, spec::Metric)| metric_entry(e)),
{
    let ghost all = from@;
    let ghost f = |e: (Seq<char>, spec::Metric)| metric_entry(e);
    let mut out: NameMap<Metric> = NameMap::new();
    assert(out.deep_view() =~= all.take(0).map_values(f));
    let n = from.len();
    for i in 0..n
        invariant
            n == all.len(),
            all == from@,
            names_distinct(all),
            f == (|e: (Seq<char>, spec::Metric)| metric_entry(e)),
            out.deep_view() == all.take(i as int).map_values(f),
    {
        let name = from.name_at(i);
        let m = from.value_at(i);
        let metric = Metric {
            name: name.clone(),
            title: m.title.clone(),
            description: m.description.clone(),
            units: m.units.clone(),
            formula: m.formula.clone(),
            event_names: sort(copy_texts(&m.events)),
            sample_event_names: sort(copy_texts(&m.sample_events)),
        };
        proof {
            assert(all[i as int] == (name@, *m));
            assert(metric.deep_view() =~= f(all[i as int]).1);
            lemma_deep_with_value(out@, name@, metric);
            lemma_name_is_new(all, f, i as int);
        }
        out.insert(name.clone(), metric);
    }
    assert(all.take(all.len() as int) =~= all);
    out
}

fn build_groups(from: &NameMap<spec::MetricGroup>) -> (out: NameMap<Group>)
    ensures
        out.deep_view() == from@.map_values(|e: (Seq<char>, spec::MetricGroup)| group_entry(e)),
{
    let ghost all = from@;
    let ghost f = |e: (Seq<char>, spec::MetricGroup)| group_entry(e);
    let mut out: NameMap<Group> = NameMap::new();
    assert(out.deep_view() =~= all.take(0).map_values(f));
    let n = from.len();
    for i in 0..n
        invariant
            n == all.len(),
            all == from@,
            names_distinct(all),
            f == (|e: (Seq<char>, spec::MetricGroup)| group_entry(e)),
            out.deep_view() == all.take(i as int).map_values(f),
    {
        let name = from.name_at(i);
        let g = from.value_at(i);
        let group = Group {
            name: name.clone(),
            title: g.title.clone(),
            description: g.description.clone(),
            metric_names: sort(copy_texts(&g.metrics)),
        };
        proof {
            assert(all[i as int] == (name@, *g));
            assert(group.deep_view() =~= f(all[i as int]).1);
            lemma_deep_with_value(out@, name@, group);
            lemma_name_is_new(all, f, i as int);
        }
        out.insert(name.clone(), group);
    }
    assert(all.take(all.len() as int) =~= all);
    out
}

/// The lookup table of the names of a map.
fn build_lookup<V>(from: &NameMap<V>) -> (out: NameMap<String>)
    ensures
        out.deep_view() == lookup_table(names_of(from@)),
        ascii_folded(names_of(from@)),
{
    let ghost names = names_of(from@);
    let mut out: NameMap<String> = NameMap::new();
    proof {
        assert(names.take(0) =~= Seq::empty());
        assert(out.deep_view() =~= lookup_table(names.take(0)));
    }
    let n = from.len();
    for i in 0..n
        invariant
            n == names.len(),
            names == names_of(from@),
            out.deep_view() == lookup_table(names.take(i as int)),
            ascii_folded(names.take(i as int)),
    {
        assert(names.take(i + 1).drop_last() =~= names.take(i as int));
        out = add_lookup(out, from.name_at(i));
        assert forall|k: int|
            0 <= k < names.take(i + 1).len() && is_ascii_chars(
                #[trigger] names.take(i + 1)[k],
            ) implies normalized(names.take(i + 1)[k]) == folded(names.take(i + 1)[k]) by {
            if k < i {
                assert(names.take(i as int)[k] == names.take(i + 1)[k]);
            }
        }
    }
    assert(names.take(names.len() as int) =~= names);
    out
}

/// Whether a metric is in a group of the first stage.
pub open spec fn in_first_stage(
    groups: Seq<(Seq<char>, Group)>,
    topdown: TopdownMethodology,
    metric_name: Seq<char>,
) -> bool {
    exists|i: int|
        0 <= i < groups.len() && (#[trigger] groups[i]).1.metric_names.deep_view().contains(
            metric_name,
        ) && topdown.stage_of(groups[i].0) == 1
}

impl TelemetryDatabase {
    /// Whether this is the database of a specification.
    pub open spec fn built_from(&self, spec: TelemetrySpecification) -> bool {
        &&& self.product_name@ == spec.product_configuration.product_name@
        &&& self.num_slots == spec.product_configuration.num_slots
        &&& self.events.deep_view() == spec.events@.map_values(
            |e: (Seq<char>, spec::Event)| event_entry(e),
        )
        &&& self.metrics.deep_view() == spec.metrics@.map_values(
            |e: (Seq<char>, spec::Metric)| metric_entry(e),
        )
        &&& self.groups.deep_view() == spec.groups.metrics@.map_values(
            |e: (Seq<char>, spec::MetricGroup)| group_entry(e),
        )
        &&& self.topdown.built_from(spec.methodologies.topdown_methodology)
        &&& self.metrics_normalized.deep_view() == lookup_table(names_of(spec.metrics@))
        &&& self.group_normalized.deep_view() == lookup_table(names_of(spec.groups.metrics@))
        &&& ascii_folded(names_of(spec.metrics@))
        &&& ascii_folded(names_of(spec.groups.metrics@))
    }

    /// Builds the database of a specification.
    pub fn from_spec(spec: &TelemetrySpecification) -> (out: Self)
        ensures
            out.built_from(*spec),
    {
        let events = build_events(&spec.events);
        let metrics = build_metrics(&spec.metrics);
        let groups = build_groups(&spec.groups.metrics);
        let metrics_normalized = build_lookup(&spec.metrics);
        let group_normalized = build_lookup(&spec.groups.metrics);
        let topdown = TopdownMethodology::build(&spec.methodologies.topdown_methodology);
        TelemetryDatabase {
            product_name: spec.product_configuration.product_name.clone(),
            num_slots: spec.product_configuration.num_slots,
            events,
            metrics,
            groups,
            topdown,
            metrics_normalized,
            group_normalized,
        }
    }

    /// The group of a name, whatever its case, with or without `_` and `-`.
    pub fn find_group(&self, name: &str) -> (out: Option<&Group>)
        ensures
            match out {
                Some(group) => looked_up(self.group_normalized.deep_view(), self.groups@, name@)
                    == Some(*group),
                None => looked_up(self.group_normalized.deep_view(), self.groups@, name@) is None,
            },
            is_ascii_chars(name@) ==> normalized(name@) == folded(name@),
    {
        let key = normalize_str(name);
        proof {
            lemma_deep_entries(self.group_normalized@, key@);
        }
        match self.group_normalized.get(key.as_str()) {
            Some(original) => self.groups.get(original.as_str()),
            None => None,
        }
    }

    /// The metric of a name, whatever its case, with or without `_` and `-`.
    pub fn find_metric(&self, name: &str) -> (out: Option<&Metric>)
        ensures
            match out {
                Some(metric) => looked_up(
                    self.metrics_normalized.deep_view(),
                    self.metrics@,
                    name@,
                ) == Some(*metric),
                None => looked_up(
                    self.metrics_normalized.deep_view(),
                    self.metrics@,
                    name@,
                ) is None,
            },
            is_ascii_chars(name@) ==> normalized(name@) == folded(name@),
    {
        let key = normalize_str(name);
        proof {
            lemma_deep_entries(self.metrics_normalized@, key@);
        }
        match self.metrics_normalized.get(key.as_str()) {
            Some(original) => self.metrics.get(original.as_str()),
            None => None,
        }
    }

    /// The stage of a metric: 1 if a group of the first stage has it, else 2.
    pub fn get_metric_stage(&self, metric_name: &str) -> (stage: usize)
        ensures
            stage == if in_first_stage(self.groups@, self.topdown, metric_name@) {
                1usize
            } else {
                2usize
            },
    {
        let n = self.groups.len();
        for i in 0..n
            invariant
                n == self.groups@.len(),
                forall|k: int|
                    0 <= k < i ==> !((
                    #[trigger] self.groups@[k]).1.metric_names.deep_view().contains(metric_name@)
                        && self.topdown.stage_of(self.groups@[k].0) == 1),
        {
            let group_name = self.groups.name_at(i);
            let group = self.groups.value_at(i);
            assert(self.groups@[i as int] == (group_name@, *group));
            if contains_text(&group.metric_names, metric_name)
                && self.topdown.get_stage_for_group(group_name.as_str()) == 1 {
                return 1;
            }
        }
        2
    }
}

// ─── Groups to capture ───────────────────────────────────────────────────────

/// Some of the metrics of a group.
#[derive(Debug, Clone)]
pub struct GroupView {
    pub group_name: String,
    pub metric_names: Vec<String>,
}

/// A whole group, by its name, or some of its metrics.
#[derive(Debug, Clone)]
pub enum GroupLike {
    Full(String),
    View(GroupView),
}

/// What a `GroupLike` stands for.
#[verifier::ext_equal]
pub enum GroupChoice {
    Full(Seq<char>),
    View(Seq<char>, Seq<Seq<char>>),
}

impl DeepView for GroupLike {
    type V = GroupChoice;

    open spec fn deep_view(&self) -> GroupChoice {
        match self {
            GroupLike::Full(name) => GroupChoice::Full(name@),
            GroupLike::View(view) => GroupChoice::View(
                view.group_name@,
                view.metric_names.deep_view(),
            ),
        }
    }
}

impl GroupChoice {
    /// The name of the group.
    pub open spec fn name(self) -> Seq<char> {
        match self {
            GroupChoice::Full(name) => name,
            GroupChoice::View(name, _) => name,
        }
    }

    /// The metrics: those of the group if it is whole and exists.
    pub open spec fn metrics(self, groups: Seq<(Seq<char>, Group)>) -> Seq<Seq<char>> {
        match self {
            GroupChoice::Full(name) => match value_of(groups, name) {
                Some(group) => group.metric_names.deep_view(),
                None => Seq::empty(),
            },
            GroupChoice::View(_, metric_names) => metric_names,
        }
    }
}

/// The events of a metric, if it exists.
pub open spec fn events_of(metrics: Seq<(Seq<char>, Metric)>, name: Seq<char>) -> Seq<Seq<char>> {
    match value_of(metrics, name) {
        Some(metric) => metric.event_names.deep_view(),
        None => Seq::empty(),
    }
}

impl GroupLike {
    /// The name of the group.
    pub fn group_name(&self) -> (out: &str)
        ensures
            out@ == self.deep_view().name(),
    {
        match self {
            GroupLike::Full(name) => name.as_str(),
            GroupLike::View(view) => view.group_name.as_str(),
        }
    }

    /// The names of the metrics.
    pub fn metric_names(&self, db: &TelemetryDatabase) -> (out: Vec<String>)
        ensures
            out.deep_view() == self.deep_view().metrics(db.groups@),
    {
        match self {
            GroupLike::Full(name) => {
                match db.groups.get(name.as_str()) {
                    Some(group) => copy_texts(&group.metric_names),
                    None => {
                        let out: Vec<String> = Vec::new();
                        assert(out.deep_view() =~= Seq::empty());
                        out
                    },
                }
            },
            GroupLike::View(view) => copy_texts(&view.metric_names),
        }
    }

    /// The names of the events of all metrics, in ascending order.
    pub fn all_event_names(&self, db: &TelemetryDatabase) -> (out: Vec<String>)
        ensures
            out.deep_view() == sorted_distinct::<String>(
                self.deep_view().metrics(db.groups@).flat_map(
                    |name: Seq<char>| events_of(db.metrics@, name),
                ),
            ),
    {
        let names = self.metric_names(db);
        let ghost all = names.deep_view();
        let ghost f = |name: Seq<char>| events_of(db.metrics@, name);
        let mut events: Vec<String> = Vec::new();
        proof {
            assert(all.take(0) =~= Seq::empty());
            assert(events.deep_view() =~= all.take(0).flat_map(f));
        }
        for i in 0..names.len()
            invariant
                all == names.deep_view(),
                f == (|name: Seq<char>| events_of(db.metrics@, name)),
                events.deep_view() == all.take(i as int).flat_map(f),
        {
            let ghost before = events.deep_view();
            proof {
                all.lemma_flat_map_take_append(f, i as int);
            }
            if let Some(metric) = db.metrics.get(names[i].as_str()) {
                let ghost more = metric.event_names.deep_view();
                assert(more.take(0) =~= Seq::empty());
                for k in 0..metric.event_names.len()
                    invariant
                        more == metric.event_names.deep_view(),
                        events.deep_view() == before + more.take(k as int),
                {
                    let ghost longer = events.deep_view();
                    events.push(metric.event_names[k].clone());
                    assert(events.deep_view() =~= longer.push(more[k as int]));
                    assert(more.take(k + 1) =~= more.take(k as int).push(more[k as int]));
                }
                assert(more.take(more.len() as int) =~= more);
            }
            assert(events.deep_view() =~= before + f(all[i as int]));
        }
        assert(all.take(all.len() as int) =~= all);
        sort_distinct(events)
    }
}

// ─── What the database of a valid specification promises ─────────────────────

/// Names lead to an entry before and after its value has become another.
proof fn lemma_same_names<A, B>(
    entries: Seq<(Seq<char>, A)>,
    f: spec_fn((Seq<char>, A)) -> (Seq<char>, B),
    name: Seq<char>,
)
    requires
        forall|e: (Seq<char>, A)| (#[trigger] f(e)).0 == e.0,
    ensures
        has_name(entries.map_values(f), name) == has_name(entries, name),
{
    let after = entries.map_values(f);
    if has_name(entries, name) {
        let i = choose|i: int| 0 <= i < entries.len() && (#[trigger] entries[i]).0 == name;
        assert(after[i] == f(entries[i]));
    }
    if has_name(after, name) {
        let i = choose|i: int| 0 <= i < after.len() && (#[trigger] after[i]).0 == name;
        assert(after[i] == f(entries[i]));
    }
}

/// Names that lead to entries do so in any order, before and after the values
/// of the entries have become others.
proof fn lemma_still_resolve<A, B>(
    names: Seq<Seq<char>>,
    entries: Seq<(Seq<char>, A)>,
    f: spec_fn((Seq<char>, A)) -> (Seq<char>, B),
)
    requires
        forall|e: (Seq<char>, A)| (#[trigger] f(e)).0 == e.0,
        names_resolve(names, entries),
    ensures
        names_resolve(names, entries.map_values(f)),
        names_resolve(sorted::<String>(names), entries.map_values(f)),
{
    assert forall|k: int| 0 <= k < names.len() implies has_name(
        entries.map_values(f),
        #[trigger] names[k],
    ) by {
        lemma_same_names(entries, f, names[k]);
    }
    law_sorted::<String>(names);
    let ordered = sorted::<String>(names);
    assert forall|k: int| 0 <= k < ordered.len() implies has_name(
        entries.map_values(f),
        #[trigger] ordered[k],
    ) by {
        assert(ordered.contains(ordered[k]));
        let m = names.index_of(ordered[k]);
        assert(has_name(entries.map_values(f), names[m]));
    }
}

/// Every entry of a table of nodes is one of the nodes.
proof fn lemma_node_table(nodes: Seq<spec::TopdownMethodologyNode>, i: int) -> (k: int)
    requires
        0 <= i < node_table(nodes).len(),
    ensures
        0 <= k < nodes.len(),
        node_table(nodes)[i] == (nodes[k].name@, node_info(nodes[k])),
    decreases nodes.len(),
{
    if nodes.len() == 0 {
        assert(false);
        0
    } else {
        let front = nodes.drop_last();
        let table = node_table(front);
        lemma_place_of(table, nodes.last().name@);
        if i < table.len() && node_table(nodes)[i] == table[i] {
            let k = lemma_node_table(front, i);
            assert(front[k] == nodes[k]);
            k
        } else {
            nodes.len() - 1
        }
    }
}

/// Whether a node's metric and group exist, and its next items are metrics or
/// groups.
pub open spec fn node_info_resolves(db: TelemetryDatabase, node: NodeInfo) -> bool {
    &&& has_name(db.metrics.deep_view(), node.name)
    &&& has_name(db.groups.deep_view(), node.group_name)
    &&& forall|k: int|
        0 <= k < node.next_items.len() ==> has_name(
            db.metrics.deep_view(),
            #[trigger] node.next_items[k],
        ) || has_name(db.groups.deep_view(), node.next_items[k])
}

/// In the database of a valid specification every metric and group of a node of
/// the decision tree exists.
pub proof fn law_nodes_resolve(db: TelemetryDatabase, spec: TelemetrySpecification, i: int)
    requires
        db.built_from(spec),
        spec.fault() is None,
        0 <= i < db.topdown.nodes.deep_view().len(),
    ensures
        db.topdown.nodes.deep_view()[i].0 == db.topdown.nodes.deep_view()[i].1.name,
        node_info_resolves(db, db.topdown.nodes.deep_view()[i].1),
{
    let me = |e: (Seq<char>, spec::Metric)| metric_entry(e);
    let gr = |e: (Seq<char>, spec::MetricGroup)| group_entry(e);
    let nodes = spec.methodologies.topdown_methodology.decision_tree.metrics@;
    spec::law_valid_resolves(spec);
    let k = lemma_node_table(nodes, i);
    let node = nodes[k];
    assert(spec::node_resolves(node, spec.metrics@, spec.groups.metrics@));
    lemma_same_names(spec.metrics@, me, node.name@);
    lemma_same_names(spec.groups.metrics@, gr, node.group@);
    let items = node.next_items.deep_view();
    assert forall|j: int| 0 <= j < items.len() implies has_name(
        db.metrics.deep_view(),
        #[trigger] items[j],
    ) || has_name(db.groups.deep_view(), items[j]) by {
        lemma_same_names(spec.metrics@, me, items[j]);
        lemma_same_names(spec.groups.metrics@, gr, items[j]);
    }
}

/// In the database of a valid specification every event of a metric, every
/// metric of a group, every group of a stage and every root exists.
pub proof fn law_database_resolves(db: TelemetryDatabase, spec: TelemetrySpecification)
    requires
        db.built_from(spec),
        spec.fault() is None,
    ensures
        forall|i: int|
            0 <= i < db.metrics.deep_view().len() ==> names_resolve(
                (#[trigger] db.metrics.deep_view()[i]).1.event_names,
                db.events.deep_view(),
            ) && names_resolve(
                db.metrics.deep_view()[i].1.sample_event_names,
                db.events.deep_view(),
            ),
        forall|i: int|
            0 <= i < db.groups.deep_view().len() ==> names_resolve(
                (#[trigger] db.groups.deep_view()[i]).1.metric_names,
                db.metrics.deep_view(),
            ),
        names_resolve(db.topdown.stage_1_group_names.deep_view(), db.groups.deep_view()),
        names_resolve(db.topdown.stage_2_group_names.deep_view(), db.groups.deep_view()),
        names_resolve(db.topdown.root_metric_names.deep_view(), db.metrics.deep_view()),
{
    let ev = |e: (Seq<char>, spec::Event)| event_entry(e);
    let me = |e: (Seq<char>, spec::Metric)| metric_entry(e);
    let gr = |e: (Seq<char>, spec::MetricGroup)| group_entry(e);
    let td = spec.methodologies.topdown_methodology;
    spec::law_valid_resolves(spec);
    assert forall|i: int| 0 <= i < db.metrics.deep_view().len() implies names_resolve(
        (#[trigger] db.metrics.deep_view()[i]).1.event_names,
        db.events.deep_view(),
    ) && names_resolve(
        db.metrics.deep_view()[i].1.sample_event_names,
        db.events.deep_view(),
    ) by {
        let metric = spec.metrics@[i].1;
        lemma_still_resolve(metric.events.deep_view(), spec.events@, ev);
        lemma_still_resolve(metric.sample_events.deep_view(), spec.events@, ev);
    }
    assert forall|i: int| 0 <= i < db.groups.deep_view().len() implies names_resolve(
        (#[trigger] db.groups.deep_view()[i]).1.metric_names,
        db.metrics.deep_view(),
    ) by {
        lemma_still_resolve(spec.groups.metrics@[i].1.metrics.deep_view(), spec.metrics@, me);
    }
    lemma_still_resolve(td.metric_grouping.stage_1.deep_view(), spec.groups.metrics@, gr);
    lemma_still_resolve(td.metric_grouping.stage_2.deep_view(), spec.groups.metrics@, gr);
    lemma_still_resolve(td.decision_tree.root_nodes.deep_view(), spec.metrics@, me);
}

/// A lookup table leads to a name from every spelling that differs from it in
/// ASCII case, `_` and `-` only, if no later name differs from it in these only
/// too.
pub proof fn law_found_by_ascii_spelling<W>(
    entries: Seq<(Seq<char>, W)>,
    i: int,
    spelling: Seq<char>,
)
    requires
        0 <= i < entries.len(),
        ascii_folded(names_of(entries)),
        is_ascii_chars(entries[i].0),
        normalized(spelling) == folded(spelling),
        folded(spelling) == folded(entries[i].0),
        forall|j: int|
            i < j < entries.len() ==> normalized((#[trigger] entries[j]).0) != folded(spelling),
    ensures
        value_of(lookup_table(names_of(entries)), normalized(spelling)) == Some(entries[i].0),
{
    let names = names_of(entries);
    assert(names[i] == entries[i].0);
    assert forall|j: int| i < j < names.len() implies normalized(#[trigger] names[j])
        != normalized(names[i]) by {
        assert(names[j] == entries[j].0);
    }
    law_found_under_any_spelling(names, i, spelling);
}

proof fn lemma_entry_found<A, V: DeepView>(
    entries: Seq<(Seq<char>, A)>,
    f: spec_fn((Seq<char>, A)) -> (Seq<char>, V::V),
    built: Seq<(Seq<char>, V)>,
    i: int,
)
    requires
        names_distinct(entries),
        0 <= i < entries.len(),
        forall|e: (Seq<char>, A)| (#[trigger] f(e)).0 == e.0,
        deep_entries(built) == entries.map_values(f),
    ensures
        value_of(built, entries[i].0) matches Some(v) && v.deep_view() == f(entries[i]).1,
{
    let after = entries.map_values(f);
    assert forall|j: int, k: int| 0 <= j < k < after.len() implies (#[trigger] after[j]).0 != (
    #[trigger] after[k]).0 by {
        assert(entries[j].0 != entries[k].0);
    }
    lemma_value_at(after, i);
    assert(after[i] == f(entries[i]));
    lemma_deep_entries(built, entries[i].0);
}

/// In the database of a specification a group is found under every spelling
/// that differs from its name in ASCII case, `_` and `-` only, if no later group
/// is looked up by the same text.
pub proof fn law_group_found(
    db: TelemetryDatabase,
    spec: TelemetrySpecification,
    i: int,
    spelling: Seq<char>,
)
    requires
        db.built_from(spec),
        names_distinct(spec.groups.metrics@),
        0 <= i < spec.groups.metrics@.len(),
        is_ascii_chars(spec.groups.metrics@[i].0),
        normalized(spelling) == folded(spelling),
        folded(spelling) == folded(spec.groups.metrics@[i].0),
        forall|j: int|
            i < j < spec.groups.metrics@.len() ==> normalized((#[trigger] spec.groups.metrics@[j]).0)
                != folded(spelling),
    ensures
        looked_up(db.group_normalized.deep_view(), db.groups@, spelling) matches Some(group)
            && group.deep_view() == group_entry(spec.groups.metrics@[i]).1,
{
    law_found_by_ascii_spelling(spec.groups.metrics@, i, spelling);
    lemma_entry_found(
        spec.groups.metrics@,
        |e: (Seq<char>, spec::MetricGroup)| group_entry(e),
        db.groups@,
        i,
    );
}

/// In the database of a specification a metric is found under every spelling
/// that differs from its name in ASCII case, `_` and `-` only, if no later
/// metric is looked up by the same text.
pub proof fn law_metric_found(
    db: TelemetryDatabase,
    spec: TelemetrySpecification,
    i: int,
    spelling: Seq<char>,
)
    requires
        db.built_from(spec),
        names_distinct(spec.metrics@),
        0 <= i < spec.metrics@.len(),
        is_ascii_chars(spec.metrics@[i].0),
        normalized(spelling) == folded(spelling),
        folded(spelling) == folded(spec.metrics@[i].0),
        forall|j: int|
            i < j < spec.metrics@.len() ==> normalized((#[trigger] spec.metrics@[j]).0) != folded(
                spelling,
            ),
    ensures
        looked_up(db.metrics_normalized.deep_view(), db.metrics@, spelling) matches Some(metric)
            && metric.deep_view() == metric_entry(spec.metrics@[i]).1,
{
    law_found_by_ascii_spelling(spec.metrics@, i, spelling);
    lemma_entry_found(
        spec.metrics@,
        |e: (Seq<char>, spec::Metric)| metric_entry(e),
        db.metrics@,
        i,
    );
}

// ─── What the database of a specification holds ──────────────────────────────

/// An ASCII name without `_` and `-`, and with its capital letters made small.
pub open spec fn plain_key(s: Seq<char>) -> Seq<char> {
    s.filter(|c: char| !(c == '-' || c == '_')).map_values(
        |c: char|
            if 'A' <= c <= 'Z' {
                (c as u32 + 32) as char
            } else {
                c
            },
    )
}

proof fn lemma_plain_key(s: Seq<char>)
    ensures
        folded(s) == plain_key(s),
    decreases s.len(),
{
    reveal(Seq::filter);
    let keep = |c: char| c != '_' && c != '-';
    let plain = |c: char| !(c == '-' || c == '_');
    let lower = |c: char|
        if 'A' <= c <= 'Z' {
            (c as u32 + 32) as char
        } else {
            c
        };
    if s.len() == 0 {
        assert(ascii_lowered(s) =~= Seq::empty());
        assert(folded(s) =~= Seq::empty());
        assert(plain_key(s) =~= Seq::empty());
    } else {
        let front = s.drop_last();
        let c = s.last();
        lemma_plain_key(front);
        assert(s =~= front.push(c));
        assert(ascii_lowered(s) =~= ascii_lowered(front).push(small_letter(c)));
        ascii_lowered(front).lemma_filter_push(small_letter(c), keep);
        front.lemma_filter_push(c, plain);
        assert(small_letter(c) == lower(c));
        assert(front.filter(plain).push(c).map_values(lower) =~= front.filter(plain).map_values(
            lower,
        ).push(lower(c)));
    }
}

/// An ASCII name is looked up by what is left of it without `_` and `-` when
/// its capital letters are made small.
pub proof fn law_normalized(s: &str, out: String)
    requires
        call_ensures(normalize_str, (s,), out),
        is_ascii_chars(s@),
    ensures
        out@ == plain_key(s@),
{
    lemma_plain_key(s@);
}

/// A code is the number that its hexadecimal digits stand for, with `0x` or
/// `0X` in front or without; where it is too large it is zero.
pub proof fn law_code_read(s: &str, prefix: Seq<char>, digits: Seq<char>, code: u64)
    requires
        call_ensures(parse_hex_code, (s,), code),
        s@ == prefix + digits,
        prefix == seq!['0', 'x'] || prefix == seq!['0', 'X'] || prefix == Seq::<char>::empty(),
        digits.len() > 0,
        forall|i: int| 0 <= i < digits.len() ==> is_figure(#[trigger] digits[i], 16),
    ensures
        code == hex_code_of(s@),
        code == if reckoned(digits, 16) <= u64::MAX {
            reckoned(digits, 16)
        } else {
            0
        },
{
    law_hex_prefix(digits);
    assert(is_figure(digits[0], 16));
    if digits.len() > 1 {
        assert(is_figure(digits[1], 16));
    }
    if prefix.len() == 0 {
        assert(s@ =~= digits);
    }
    law_integers(digits, 16, 0, u64::MAX as int);
}

/// A code in which something else stands than one prefix, one `+` and digits is
/// zero.
pub proof fn law_no_code(s: &str, prefix: Seq<char>, rest: Seq<char>, i: int, code: u64)
    requires
        call_ensures(parse_hex_code, (s,), code),
        s@ == prefix + rest,
        prefix == seq!['0', 'x'] || prefix == seq!['0', 'X'],
        rest.len() == 0 || (0 <= i < rest.len() && !is_figure(rest[i], 16) && (i > 0 || rest[i]
            != '+')),
    ensures
        code == 0,
{
    law_hex_prefix(rest);
    law_no_integers(rest, 16, 0, u64::MAX as int);
    if integer_of(rest, 16, 0, u64::MAX as int) is Ok {
        assert(is_figure(rest[i], 16));
    }
}

/// The database has the events of its specification, under their names and in
/// their order, each with its title, its description and its code.
pub proof fn law_database_events(spec: &TelemetrySpecification, db: TelemetryDatabase, i: int)
    requires
        call_ensures(TelemetryDatabase::from_spec, (spec,), db),
        0 <= i < spec.events@.len(),
    ensures
        db.events@.len() == spec.events@.len(),
        db.events@[i].0 == spec.events@[i].0,
        db.events@[i].1.name@ == spec.events@[i].0,
        db.events@[i].1.title@ == spec.events@[i].1.title@,
        db.events@[i].1.description@ == spec.events@[i].1.description@,
        db.events@[i].1.code == hex_code_of(spec.events@[i].1.code@),
{
    let deep = db.events.deep_view();
    assert(deep.len() == spec.events@.len());
    assert(deep[i] == event_entry(spec.events@[i]));
    assert(deep[i].1 == db.events@[i].1.deep_view());
    law_hex_code(spec.events@[i].1.code@);
    let digits = code_digits(spec.events@[i].1.code@);
    law_digits_read(digits, 16, 0, u64::MAX as int);
}

/// The database has the metrics of its specification, under their names and in
/// their order, each with its texts and with its events in ascending order.
pub proof fn law_database_metrics(spec: &TelemetrySpecification, db: TelemetryDatabase, i: int)
    requires
        call_ensures(TelemetryDatabase::from_spec, (spec,), db),
        0 <= i < spec.metrics@.len(),
    ensures
        db.metrics@.len() == spec.metrics@.len(),
        db.metrics@[i].0 == spec.metrics@[i].0,
        db.metrics@[i].1.name@ == spec.metrics@[i].0,
        db.metrics@[i].1.title@ == spec.metrics@[i].1.title@,
        db.metrics@[i].1.description@ == spec.metrics@[i].1.description@,
        db.metrics@[i].1.units@ == spec.metrics@[i].1.units@,
        db.metrics@[i].1.formula@ == spec.metrics@[i].1.formula@,
        db.metrics@[i].1.event_names.deep_view() == sorted::<String>(
            spec.metrics@[i].1.events.deep_view(),
        ),
        db.metrics@[i].1.sample_event_names.deep_view() == sorted::<String>(
            spec.metrics@[i].1.sample_events.deep_view(),
        ),
{
    let deep = db.metrics.deep_view();
    assert(deep.len() == spec.metrics@.len());
    assert(deep[i] == metric_entry(spec.metrics@[i]));
    assert(deep[i].1 == db.metrics@[i].1.deep_view());
}

/// The database has the metric groups of its specification, under their names
/// and in their order, each with its texts and with its metrics in ascending
/// order.
pub proof fn law_database_groups(spec: &TelemetrySpecification, db: TelemetryDatabase, i: int)
    requires
        call_ensures(TelemetryDatabase::from_spec, (spec,), db),
        0 <= i < spec.groups.metrics@.len(),
    ensures
        db.groups@.len() == spec.groups.metrics@.len(),
        db.groups@[i].0 == spec.groups.metrics@[i].0,
        db.groups@[i].1.name@ == spec.groups.metrics@[i].0,
        db.groups@[i].1.title@ == spec.groups.metrics@[i].1.title@,
        db.groups@[i].1.description@ == spec.groups.metrics@[i].1.description@,
        db.groups@[i].1.metric_names.deep_view() == sorted::<String>(
            spec.groups.metrics@[i].1.metrics.deep_view(),
        ),
{
    let deep = db.groups.deep_view();
    assert(deep.len() == spec.groups.metrics@.len());
    assert(deep[i] == group_entry(spec.groups.metrics@[i]));
    assert(deep[i].1 == db.groups@[i].1.deep_view());
}

/// The database has the name and the slots of the product, and the stages and
/// roots of the methodology.
pub proof fn law_database_product(spec: &TelemetrySpecification, db: TelemetryDatabase)
    requires
        call_ensures(TelemetryDatabase::from_spec, (spec,), db),
    ensures
        db.product_name@ == spec.product_configuration.product_name@,
        db.num_slots == spec.product_configuration.num_slots,
        db.topdown.title@ == spec.methodologies.topdown_methodology.title@,
        db.topdown.description@ == spec.methodologies.topdown_methodology.description@,
        db.topdown.root_metric_names.deep_view()
            == spec.methodologies.topdown_methodology.decision_tree.root_nodes.deep_view(),
        db.topdown.stage_1_group_names.deep_view()
            == spec.methodologies.topdown_methodology.metric_grouping.stage_1.deep_view(),
        db.topdown.stage_2_group_names.deep_view()
            == spec.methodologies.topdown_methodology.metric_grouping.stage_2.deep_view(),
{
}

/// A group is found under every ASCII spelling of its name in which case, `_`
/// and `-` may differ, if no later group has such a name.
pub proof fn law_find_group(
    spec: &TelemetrySpecification,
    db: TelemetryDatabase,
    name: &str,
    out: Option<&Group>,
    i: int,
)
    requires
        call_ensures(TelemetryDatabase::from_spec, (spec,), db),
        call_ensures(TelemetryDatabase::find_group, (&db, name), out),
        names_distinct(spec.groups.metrics@),
        is_ascii_chars(name@),
        forall|j: int|
            0 <= j < spec.groups.metrics@.len() ==> is_ascii_chars(
                (#[trigger] spec.groups.metrics@[j]).0,
            ),
        0 <= i < spec.groups.metrics@.len(),
        plain_key(spec.groups.metrics@[i].0) == plain_key(name@),
        forall|j: int|
            i < j < spec.groups.metrics@.len() ==> plain_key(
                (#[trigger] spec.groups.metrics@[j]).0,
            ) != plain_key(name@),
    ensures
        out matches Some(group) && group.name@ == spec.groups.metrics@[i].0
            && group.metric_names.deep_view() == sorted::<String>(
            spec.groups.metrics@[i].1.metrics.deep_view(),
        ),
{
    let entries = spec.groups.metrics@;
    lemma_plain_key(name@);
    lemma_plain_key(entries[i].0);
    assert forall|j: int| i < j < entries.len() implies normalized((#[trigger] entries[j]).0)
        != folded(name@) by {
        lemma_plain_key(entries[j].0);
        assert(names_of(entries)[j] == entries[j].0);
    }
    law_group_found(db, *spec, i, name@);
}

/// No group is found under an ASCII name that is no spelling of a group's name.
pub proof fn law_find_no_group(
    spec: &TelemetrySpecification,
    db: TelemetryDatabase,
    name: &str,
    out: Option<&Group>,
)
    requires
        call_ensures(TelemetryDatabase::from_spec, (spec,), db),
        call_ensures(TelemetryDatabase::find_group, (&db, name), out),
        is_ascii_chars(name@),
        forall|j: int|
            0 <= j < spec.groups.metrics@.len() ==> is_ascii_chars(
                (#[trigger] spec.groups.metrics@[j]).0,
            ) && plain_key(spec.groups.metrics@[j].0) != plain_key(name@),
    ensures
        out is None,
{
    lemma_not_looked_up(spec.groups.metrics@, name@);
}

proof fn lemma_not_looked_up<W>(entries: Seq<(Seq<char>, W)>, name: Seq<char>)
    requires
        ascii_folded(names_of(entries)),
        normalized(name) == folded(name),
        forall|j: int|
            0 <= j < entries.len() ==> is_ascii_chars((#[trigger] entries[j]).0) && plain_key(
                entries[j].0,
            ) != plain_key(name),
    ensures
        value_of(lookup_table(names_of(entries)), normalized(name)) is None,
{
    let names = names_of(entries);
    law_lookup_table(names, normalized(name));
    lemma_plain_key(name);
    assert forall|j: int| 0 <= j < names.len() implies normalized(#[trigger] names[j])
        != normalized(name) by {
        assert(names[j] == entries[j].0);
        lemma_plain_key(entries[j].0);
    }
}

/// A metric is found under every ASCII spelling of its name in which case, `_`
/// and `-` may differ, if no later metric has such a name.
pub proof fn law_find_metric(
    spec: &TelemetrySpecification,
    db: TelemetryDatabase,
    name: &str,
    out: Option<&Metric>,
    i: int,
)
    requires
        call_ensures(TelemetryDatabase::from_spec, (spec,), db),
        call_ensures(TelemetryDatabase::find_metric, (&db, name), out),
        names_distinct(spec.metrics@),
        is_ascii_chars(name@),
        forall|j: int|
            0 <= j < spec.metrics@.len() ==> is_ascii_chars((#[trigger] spec.metrics@[j]).0),
        0 <= i < spec.metrics@.len(),
        plain_key(spec.metrics@[i].0) == plain_key(name@),
        forall|j: int|
            i < j < spec.metrics@.len() ==> plain_key((#[trigger] spec.metrics@[j]).0) != plain_key(
                name@,
            ),
    ensures
        out matches Some(metric) && metric.name@ == spec.metrics@[i].0 && metric.formula@
            == spec.metrics@[i].1.formula@ && metric.units@ == spec.metrics@[i].1.units@,
{
    let entries = spec.metrics@;
    lemma_plain_key(name@);
    lemma_plain_key(entries[i].0);
    assert forall|j: int| i < j < entries.len() implies normalized((#[trigger] entries[j]).0)
        != folded(name@) by {
        lemma_plain_key(entries[j].0);
        assert(names_of(entries)[j] == entries[j].0);
    }
    law_metric_found(db, *spec, i, name@);
}

/// No metric is found under an ASCII name that is no spelling of a metric's
/// name.
pub proof fn law_find_no_metric(
    spec: &TelemetrySpecification,
    db: TelemetryDatabase,
    name: &str,
    out: Option<&Metric>,
)
    requires
        call_ensures(TelemetryDatabase::from_spec, (spec,), db),
        call_ensures(TelemetryDatabase::find_metric, (&db, name), out),
        is_ascii_chars(name@),
        forall|j: int|
            0 <= j < spec.metrics@.len() ==> is_ascii_chars((#[trigger] spec.metrics@[j]).0)
                && plain_key(spec.metrics@[j].0) != plain_key(name@),
    ensures
        out is None,
{
    lemma_not_looked_up(spec.metrics@, name@);
}

proof fn lemma_node_value(nodes: Seq<spec::TopdownMethodologyNode>, i: int)
    requires
        0 <= i < nodes.len(),
        forall|j: int| i < j < nodes.len() ==> (#[trigger] nodes[j]).name@ != nodes[i].name@,
    ensures
        value_of(node_table(nodes), nodes[i].name@) == Some(node_info(nodes[i])),
    decreases nodes.len(),
{
    let front = nodes.drop_last();
    let last = nodes.last();
    lemma_node_table_distinct(front);
    law_with_value(node_table(front), last.name@, node_info(last), nodes[i].name@);
    if i < front.len() {
        assert(nodes[nodes.len() - 1].name@ != nodes[i].name@);
        assert(front[i] == nodes[i]);
        assert forall|j: int| i < j < front.len() implies (#[trigger] front[j]).name@
            != front[i].name@ by {
            assert(nodes[j].name@ != nodes[i].name@);
        }
        lemma_node_value(front, i);
    }
}

proof fn lemma_node_table_distinct(nodes: Seq<spec::TopdownMethodologyNode>)
    ensures
        names_distinct(node_table(nodes)),
    decreases nodes.len(),
{
    if nodes.len() > 0 {
        let front = nodes.drop_last();
        let last = nodes.last();
        lemma_node_table_distinct(front);
        law_with_value(node_table(front), last.name@, node_info(last), last.name@);
    }
}

/// A node is found under every ASCII spelling of its name in which case, `_`
/// and `-` may differ, if no later node has such a name, and is what the
/// specification says of it.
pub proof fn law_find_node(
    spec: &TelemetrySpecification,
    db: TelemetryDatabase,
    name: &str,
    out: Option<&TopdownNode>,
    nodes: Seq<spec::TopdownMethodologyNode>,
    i: int,
)
    requires
        call_ensures(TelemetryDatabase::from_spec, (spec,), db),
        call_ensures(TopdownMethodology::find_node, (&db.topdown, name), out),
        nodes == spec.methodologies.topdown_methodology.decision_tree.metrics@,
        is_ascii_chars(name@),
        forall|j: int| 0 <= j < nodes.len() ==> is_ascii_chars((#[trigger] nodes[j]).name@),
        0 <= i < nodes.len(),
        plain_key(nodes[i].name@) == plain_key(name@),
        forall|j: int|
            i < j < nodes.len() ==> plain_key((#[trigger] nodes[j]).name@) != plain_key(name@),
    ensures
        out matches Some(node) && node.name@ == nodes[i].name@ && node.group_name@
            == nodes[i].group@ && node.next_items.deep_view() == nodes[i].next_items.deep_view()
            && node.sample_event_names.deep_view() == nodes[i].sample_events.deep_view(),
{
    let names = node_names(nodes);
    lemma_plain_key(name@);
    lemma_plain_key(nodes[i].name@);
    assert(names[i] == nodes[i].name@);
    assert forall|j: int| i < j < names.len() implies normalized(#[trigger] names[j])
        != normalized(names[i]) by {
        lemma_plain_key(nodes[j].name@);
        assert(names[j] == nodes[j].name@);
    }
    law_found_under_any_spelling(names, i, name@);
    assert forall|j: int| i < j < nodes.len() implies (#[trigger] nodes[j]).name@
        != nodes[i].name@ by {
        assert(plain_key(nodes[j].name@) != plain_key(name@));
    }
    lemma_node_value(nodes, i);
    lemma_deep_entries(db.topdown.nodes@, nodes[i].name@);
    let node = value_of(db.topdown.nodes@, nodes[i].name@)->0;
    assert(node.deep_view() == node_info(nodes[i]));
}

/// No node is found under an ASCII name that is no spelling of a node's name.
pub proof fn law_find_no_node(
    spec: &TelemetrySpecification,
    db: TelemetryDatabase,
    name: &str,
    out: Option<&TopdownNode>,
    nodes: Seq<spec::TopdownMethodologyNode>,
)
    requires
        call_ensures(TelemetryDatabase::from_spec, (spec,), db),
        call_ensures(TopdownMethodology::find_node, (&db.topdown, name), out),
        nodes == spec.methodologies.topdown_methodology.decision_tree.metrics@,
        is_ascii_chars(name@),
        forall|j: int|
            0 <= j < nodes.len() ==> is_ascii_chars((#[trigger] nodes[j]).name@) && plain_key(
                nodes[j].name@,
            ) != plain_key(name@),
    ensures
        out is None,
{
    let names = node_names(nodes);
    law_lookup_table(names, normalized(name@));
    lemma_plain_key(name@);
    assert forall|j: int| 0 <= j < names.len() implies normalized(#[trigger] names[j])
        != normalized(name@) by {
        assert(names[j] == nodes[j].name@);
        lemma_plain_key(nodes[j].name@);
    }
}

/// A group is of stage 1 if the first stage lists it and the second does not,
/// and else of stage 2.
pub proof fn law_group_stage(
    spec: &TelemetrySpecification,
    db: TelemetryDatabase,
    name: &str,
    stage: usize,
    grouping: spec::MetricGrouping,
)
    requires
        call_ensures(TelemetryDatabase::from_spec, (spec,), db),
        call_ensures(TopdownMethodology::get_stage_for_group, (&db.topdown, name), stage),
        grouping == spec.methodologies.topdown_methodology.metric_grouping,
    ensures
        stage == if grouping.stage_1.deep_view().contains(name@)
            && !grouping.stage_2.deep_view().contains(name@) {
            1int
        } else {
            2
        },
{
    law_stages(db.topdown, spec.methodologies.topdown_methodology, name@);
}

/// A metric is of stage 1 if a group has it that the first stage lists and the
/// second does not, and else of stage 2.
pub proof fn law_metric_stage(
    spec: &TelemetrySpecification,
    db: TelemetryDatabase,
    name: &str,
    stage: usize,
    grouping: spec::MetricGrouping,
)
    requires
        call_ensures(TelemetryDatabase::from_spec, (spec,), db),
        call_ensures(TelemetryDatabase::get_metric_stage, (&db, name), stage),
        grouping == spec.methodologies.topdown_methodology.metric_grouping,
    ensures
        stage == 1 || stage == 2,
        stage == 1 <==> exists|i: int|
            0 <= i < spec.groups.metrics@.len() && (
            #[trigger] spec.groups.metrics@[i]).1.metrics.deep_view().contains(name@)
                && grouping.stage_1.deep_view().contains(spec.groups.metrics@[i].0)
                && !grouping.stage_2.deep_view().contains(spec.groups.metrics@[i].0),
{
    let td = spec.methodologies.topdown_methodology;
    if stage == 1 {
        let i = choose|i: int|
            0 <= i < db.groups@.len() && (
            #[trigger] db.groups@[i]).1.metric_names.deep_view().contains(name@)
                && db.topdown.stage_of(db.groups@[i].0) == 1;
        assert(db.groups.deep_view().len() == spec.groups.metrics@.len());
        law_database_groups(spec, db, i);
        law_sorted::<String>(spec.groups.metrics@[i].1.metrics.deep_view());
        law_stages(db.topdown, td, db.groups@[i].0);
    }
    assert forall|i: int|
        0 <= i < spec.groups.metrics@.len() && (
        #[trigger] spec.groups.metrics@[i]).1.metrics.deep_view().contains(name@)
            && grouping.stage_1.deep_view().contains(spec.groups.metrics@[i].0)
            && !grouping.stage_2.deep_view().contains(
            spec.groups.metrics@[i].0,
        ) implies stage == 1 by {
        law_database_groups(spec, db, i);
        law_sorted::<String>(spec.groups.metrics@[i].1.metrics.deep_view());
        law_stages(db.topdown, td, db.groups@[i].0);
        assert(db.groups@[i].1.metric_names.deep_view().contains(name@));
    }
}

/// A whole group has the metrics of its entry and none if it has no entry; a
/// part of a group has the metrics that it lists.
pub proof fn law_metric_names(
    group: &GroupLike,
    db: &TelemetryDatabase,
    out: Vec<String>,
    shown: &str,
    i: int,
)
    requires
        call_ensures(GroupLike::metric_names, (group, db), out),
        call_ensures(GroupLike::group_name, (group,), shown),
        names_distinct(db.groups@),
    ensures
        match group {
            GroupLike::Full(name) => {
                &&& shown@ == name@
                &&& 0 <= i < db.groups@.len() && db.groups@[i].0 == name@ ==> out.deep_view()
                    == db.groups@[i].1.metric_names.deep_view()
                &&& (forall|j: int| 0 <= j < db.groups@.len() ==> (#[trigger] db.groups@[j]).0
                    != name@) ==> out.len() == 0
            },
            GroupLike::View(view) => shown@ == view.group_name@ && out.deep_view()
                == view.metric_names.deep_view(),
        },
{
    assert(out.len() == out.deep_view().len());
    if let GroupLike::Full(name) = group {
        if 0 <= i < db.groups@.len() && db.groups@[i].0 == name@ {
            lemma_value_at(db.groups@, i);
        }
    }
}

/// The events of a group are those of its metrics that exist, in ascending
/// order and each once.
pub proof fn law_all_event_names(
    group: &GroupLike,
    db: &TelemetryDatabase,
    names: Vec<String>,
    out: Vec<String>,
    event: Seq<char>,
)
    requires
        call_ensures(GroupLike::metric_names, (group, db), names),
        call_ensures(GroupLike::all_event_names, (group, db), out),
    ensures
        forall|i: int, j: int|
            0 <= i < j < out.len() ==> #[trigger] String::rank(
                out.deep_view()[i],
                out.deep_view()[j],
            ) && out.deep_view()[i] != out.deep_view()[j],
        out.deep_view().contains(event) <==> exists|k: int|
            0 <= k < names.len() && (value_of(db.metrics@, #[trigger] names.deep_view()[k]) matches Some(
                metric,
            ) && metric.event_names.deep_view().contains(event)),
{
    let all = names.deep_view();
    let f = |name: Seq<char>| events_of(db.metrics@, name);
    let parts = all.map_values(f);
    law_sorted_distinct::<String>(all.flat_map(f));
    assert(ascending::<String>(out.deep_view()));
    assert(out.deep_view().contains(event) <==> parts.flatten().contains(event));
    if parts.flatten().contains(event) {
        let k = lemma_flatten_part(parts, event);
        assert(parts[k] == events_of(db.metrics@, all[k]));
        assert(value_of(db.metrics@, all[k]) is Some);
    }
    assert forall|k: int|
        0 <= k < names.len() && (value_of(db.metrics@, #[trigger] all[k]) matches Some(metric)
            && metric.event_names.deep_view().contains(event)) implies parts.flatten().contains(
        event,
    ) by {
        assert(parts[k] == events_of(db.metrics@, all[k]));
        lemma_flatten_has(parts, k, event);
    }
}

/// Two events are equal if all that is known of them is; metrics and groups are
/// equal if their names are.
pub proof fn law_equal(
    a: Event,
    b: Event,
    m: Metric,
    n: Metric,
    g: Group,
    h: Group,
)
    ensures
        vstd::std_specs::cmp::PartialEqSpec::eq_spec(&a, &b) <==> a.name@ == b.name@ && a.title@
            == b.title@ && a.description@ == b.description@ && a.code == b.code,
        vstd::std_specs::cmp::PartialEqSpec::eq_spec(&m, &n) <==> m.name@ == n.name@,
        vstd::std_specs::cmp::PartialEqSpec::eq_spec(&g, &h) <==> g.name@ == h.name@,
{
}

/// Events, metrics and groups stand in the order of their names.
pub proof fn law_name_order(
    a: Event,
    b: Event,
    m: Metric,
    n: Metric,
    g: Group,
    h: Group,
)
    ensures
        vstd::std_specs::cmp::PartialOrdSpec::partial_cmp_spec(&a, &b) == Some(
            ordered(a.name@, b.name@),
        ),
        vstd::std_specs::cmp::PartialOrdSpec::partial_cmp_spec(&m, &n) == Some(
            ordered(m.name@, n.name@),
        ),
        vstd::std_specs::cmp::PartialOrdSpec::partial_cmp_spec(&g, &h) == Some(
            ordered(g.name@, h.name@),
        ),
{
    String::rank_is_total();
    let le = |x: Seq<char>, y: Seq<char>| String::rank(x, y);
    assert(le(a.name@, a.name@));
    assert(le(m.name@, m.name@));
    assert(le(g.name@, g.name@));
}

/// How two texts stand to each other.
pub open spec fn ordered(a: Seq<char>, b: Seq<char>) -> core::cmp::Ordering {
    if !String::rank(a, b) {
        core::cmp::Ordering::Greater
    } else if a != b {
        core::cmp::Ordering::Less
    } else {
        core::cmp::Ordering::Equal
    }
}

/// The name of an event for `perf` is an `r` and its code in hexadecimal: small
/// digits that stand for the code, without a zero in front.
pub proof fn law_perf_name(event: &Event, out: String)
    requires
        call_ensures(Event::perf_name, (event,), out),
    ensures
        out@.len() > 1,
        out@[0] == 'r',
        reckoned(out@.skip(1), 16) == event.code,
        forall|i: int|
            1 <= i < out@.len() ==> is_figure(#[trigger] out@[i], 16) && !('A' <= out@[i] <= 'Z'),
        event.code > 0 ==> out@[1] != '0',
        event.code == 0 ==> out@.len() == 2,
{
    reveal_strlit("r");
    law_numeral(event.code as nat, 16);
    let digits = hex_text(event.code);
    assert(out@.skip(1) =~= digits);
    assert forall|i: int| 1 <= i < out@.len() implies is_figure(#[trigger] out@[i], 16) && !('A'
        <= out@[i] <= 'Z') by {
        assert(out@[i] == digits[i - 1]);
    }
}

/// What a name is looked up by has the letters of its lower case but for `_` and
/// `-`, and no others, in their order.
pub proof fn law_normalized_letters(s: &str, out: String, c: char)
    requires
        call_ensures(normalize_str, (s,), out),
    ensures
        out@ == lowercase_of(s@).filter(|c: char| !(c == '-' || c == '_')),
        out@.contains(c) <==> lowercase_of(s@).contains(c) && c != '-' && c != '_',
{
    let keep = |c: char| c != '_' && c != '-';
    let also = |c: char| !(c == '-' || c == '_');
    let lowered = lowercase_of(s@);
    assert(keep =~= also);
    if out@.contains(c) {
        lowered.lemma_filter_contains_rev(keep, c);
        let i = out@.index_of(c);
        lowered.lemma_filter_pred(keep, i);
    }
    if lowered.contains(c) && c != '-' && c != '_' {
        lowered.lemma_filter_contains(keep, lowered.index_of(c));
    }
}

/// Without separators, a text is what its two parts are without separators; a
/// `_` or a `-` alone leaves nothing, any other character stays. A name is looked
/// up by its small letters without separators.
pub proof fn law_separators(
    s: &str,
    out: String,
    parts: (&str, &str),
    left: (String, String),
    lowered: &str,
    rest: String,
    key: String,
)
    requires
        call_ensures(strip_separators, (s,), out),
        call_ensures(strip_separators, (parts.0,), left.0),
        call_ensures(strip_separators, (parts.1,), left.1),
        lowered@ == lowercase_of(s@),
        call_ensures(strip_separators, (lowered,), rest),
        call_ensures(normalize_str, (s,), key),
    ensures
        s@ == parts.0@ + parts.1@ ==> out@ == left.0@ + left.1@,
        s@ == seq!['_'] || s@ == seq!['-'] ==> out@.len() == 0,
        s@.len() == 1 && s@[0] != '_' && s@[0] != '-' ==> out@ == s@,
        key@ == rest@,
{
    let keep = |c: char| c != '_' && c != '-';
    Seq::filter_distributes_over_add(parts.0@, parts.1@, keep);
    if s@.len() == 1 {
        reveal(Seq::filter);
        assert(s@.drop_last() =~= Seq::empty());
        assert(s@.drop_last().filter(keep) =~= Seq::empty());
        assert(s@ =~= seq![s@[0]]);
        if keep(s@[0]) {
            assert(s@.filter(keep) =~= s@);
        }
    }
}

} // verus!
