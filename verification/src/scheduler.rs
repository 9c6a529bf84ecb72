//! Packing events into rounds that fit the hardware counters.
use vstd::prelude::*;
use vstd::string::*;
use vstd::utf8::is_ascii_chars;

use crate::number::{decimal_text, to_decimal};
use crate::order::{
    ascending, law_ascending_unique, law_sorted_distinct, law_sorted_distinct_unique, rank_of,
    sort_distinct, sorted_distinct, Ranked,
};
use crate::text::{
    ascii_lowered, contains_text, copy_texts, lowercase_of, same_text, to_lowercase,
};

verus! {

// ─── Strategy ────────────────────────────────────────────────────────────────

/// How events are grouped for collection.
#[derive(Debug, Clone, Copy, PartialEq, Eq, Structural)]
pub enum CollectBy {
    /// Each event is collected independently.
    Event,
    /// Each metric's events are collected as a group.
    Metric,
    /// All events of a metric group are collected as a group.
    Group,
}

impl CollectBy {
    /// The name of a strategy.
    pub open spec fn text(self) -> Seq<char> {
        match self {
            CollectBy::Event => "none"@,
            CollectBy::Metric => "metric"@,
            CollectBy::Group => "group"@,
        }
    }

    /// The name of a strategy.
    pub fn name(&self) -> (out: String)
        ensures
            out@ == self.text(),
    {
        match self {
            CollectBy::Event => "none".to_owned(),
            CollectBy::Metric => "metric".to_owned(),
            CollectBy::Group => "group".to_owned(),
        }
    }

    /// The strategy of a name in lower case.
    pub fn from_lowercase(s: &str) -> (out: Option<Self>)
        ensures
            out == strategy_named(s@),
    {
        if same_text(s, "none") {
            Some(CollectBy::Event)
        } else if same_text(s, "metric") {
            Some(CollectBy::Metric)
        } else if same_text(s, "group") {
            Some(CollectBy::Group)
        } else {
            None
        }
    }

    /// The strategy of a name in any case.
    pub fn from_str(s: &str) -> (out: Option<Self>)
        ensures
            out == strategy_named(lowercase_of(s@)),
            is_ascii_chars(s@) ==> out == strategy_named(ascii_lowered(s@)),
    {
        let lowered = to_lowercase(s);
        Self::from_lowercase(lowered.as_str())
    }
}

/// The strategy of a name in lower case.
pub open spec fn strategy_named(s: Seq<char>) -> Option<CollectBy> {
    if s == "none"@ {
        Some(CollectBy::Event)
    } else if s == "metric"@ {
        Some(CollectBy::Metric)
    } else if s == "group"@ {
        Some(CollectBy::Group)
    } else {
        None
    }
}

/// The name of a strategy leads back to it.
pub proof fn law_strategy_names(by: CollectBy)
    ensures
        strategy_named(by.text()) == Some(by),
{
    reveal_strlit("none");
    reveal_strlit("metric");
    reveal_strlit("group");
    assert("none"@.len() == 4);
    assert("metric"@.len() == 6);
    assert("group"@.len() == 5);
}

// ─── Errors ──────────────────────────────────────────────────────────────────

/// A group of events that needs more counters than there are.
#[derive(Debug)]
pub struct GroupScheduleError {
    pub required: usize,
    pub available: usize,
    pub event_names: Vec<String>,
}

impl GroupScheduleError {
    /// What the error says.
    pub open spec fn text(self) -> Seq<char> {
        "event group requires "@ + decimal_text(self.required as nat)
            + " unique events but only "@ + decimal_text(self.available as nat)
            + " PMU counters available"@
    }

    /// The error as a message.
    pub fn message(&self) -> (out: String)
        ensures
            out@ == self.text(),
    {
        let mut out = String::new();
        out.append("event group requires ");
        out.append(to_decimal(self.required as u64).as_str());
        out.append(" unique events but only ");
        out.append(to_decimal(self.available as u64).as_str());
        out.append(" PMU counters available");
        assert(out@ =~= self.text());
        out
    }
}

// ─── Event lists ─────────────────────────────────────────────────────────────

/// A list of event names.
pub type Names = Seq<Seq<char>>;

/// The groups of events that a strategy asks for, one after another.
///
/// `groups` holds, for each metric group, the event names of each metric.
pub open spec fn event_list(groups: Seq<Seq<Names>>, by: CollectBy) -> Seq<Names> {
    match by {
        CollectBy::Event => sorted_distinct::<String>(groups.flatten().flatten()).map_values(
            |name: Seq<char>| seq![name],
        ),
        CollectBy::Metric => groups.flatten().filter(|names: Names| names.len() > 0).map_values(
            |names: Names| sorted_distinct::<String>(names),
        ),
        CollectBy::Group => groups.map_values(|group: Seq<Names>| group.flatten()).filter(
            |names: Names| names.len() > 0,
        ).map_values(|names: Names| sorted_distinct::<String>(names)),
    }
}

/// All names of a list of groups, one after another.
fn concat(groups: &Vec<Vec<String>>) -> (out: Vec<String>)
    ensures
        out.deep_view() == groups.deep_view().flatten(),
{
    let ghost all = groups.deep_view();
    let mut out: Vec<String> = Vec::new();
    assert(all.take(0) =~= Seq::empty());
    assert(out.deep_view() =~= Seq::empty());
    for i in 0..groups.len()
        invariant
            all == groups.deep_view(),
            out.deep_view() == all.take(i as int).flatten(),
    {
        let ghost before = out.deep_view();
        let names = &groups[i];
        assert(names.deep_view() == all[i as int]);
        for k in 0..names.len()
            invariant
                out.deep_view() == before + names.deep_view().take(k as int),
        {
            let ghost longer = out.deep_view();
            out.push(names[k].clone());
            assert(out.deep_view() =~= longer.push(names@[k as int]@));
            assert(names.deep_view().take(k + 1) =~= names.deep_view().take(k as int).push(
                names@[k as int]@,
            ));
        }
        proof {
            assert(names.deep_view().take(names.len() as int) =~= names.deep_view());
            assert(all.take(i + 1) =~= all.take(i as int).push(all[i as int]));
            all.take(i as int).lemma_flatten_push(all[i as int]);
        }
    }
    assert(all.take(all.len() as int) =~= all);
    out
}

/// The metrics of all groups, one after another.
fn concat_metrics(groups: &Vec<Vec<Vec<String>>>) -> (out: Vec<Vec<String>>)
    ensures
        out.deep_view() == groups.deep_view().flatten(),
{
    let ghost all = groups.deep_view();
    let mut out: Vec<Vec<String>> = Vec::new();
    assert(all.take(0) =~= Seq::empty());
    assert(out.deep_view() =~= Seq::empty());
    for i in 0..groups.len()
        invariant
            all == groups.deep_view(),
            out.deep_view() == all.take(i as int).flatten(),
    {
        let ghost before = out.deep_view();
        let metrics = &groups[i];
        assert(metrics.deep_view() == all[i as int]);
        for k in 0..metrics.len()
            invariant
                out.deep_view() == before + metrics.deep_view().take(k as int),
        {
            let ghost longer = out.deep_view();
            out.push(copy_texts(&metrics[k]));
            assert(out.deep_view() =~= longer.push(metrics@[k as int].deep_view()));
            assert(metrics.deep_view().take(k + 1) =~= metrics.deep_view().take(k as int).push(
                metrics@[k as int].deep_view(),
            ));
        }
        proof {
            assert(metrics.deep_view().take(metrics.len() as int) =~= metrics.deep_view());
            assert(all.take(i + 1) =~= all.take(i as int).push(all[i as int]));
            all.take(i as int).lemma_flatten_push(all[i as int]);
        }
    }
    assert(all.take(all.len() as int) =~= all);
    out
}

/// The lists that hold a name, each sorted and without repeats.
fn sort_non_empty(lists: Vec<Vec<String>>) -> (out: Vec<Vec<String>>)
    ensures
        out.deep_view() == lists.deep_view().filter(|names: Names| names.len() > 0).map_values(
            |names: Names| sorted_distinct::<String>(names),
        ),
{
    let ghost all = lists.deep_view();
    let ghost keep = |names: Names| names.len() > 0;
    let ghost tidy = |names: Names| sorted_distinct::<String>(names);
    let mut out: Vec<Vec<String>> = Vec::new();
    proof {
        reveal(Seq::filter);
        assert(all.take(0) =~= Seq::empty());
        assert(out.deep_view() =~= all.take(0).filter(keep).map_values(tidy));
    }
    for i in 0..lists.len()
        invariant
            all == lists.deep_view(),
            keep == (|names: Names| names.len() > 0),
            tidy == (|names: Names| sorted_distinct::<String>(names)),
            out.deep_view() == all.take(i as int).filter(keep).map_values(tidy),
    {
        let ghost before = out.deep_view();
        let names = &lists[i];
        proof {
            assert(names.deep_view() == all[i as int]);
            assert(all.take(i + 1) =~= all.take(i as int).push(all[i as int]));
            all.take(i as int).lemma_filter_push(all[i as int], keep);
        }
        if names.len() > 0 {
            let tidied = sort_distinct(copy_texts(names));
            let ghost v = tidied.deep_view();
            out.push(tidied);
            assert(out.deep_view() =~= before.push(v));
            assert(all.take(i as int).filter(keep).push(all[i as int]).map_values(tidy)
                =~= before.push(tidy(all[i as int])));
        }
    }
    assert(all.take(all.len() as int) =~= all);
    out
}

/// The groups of events that a strategy asks for.
pub fn generate_event_list(groups: &Vec<Vec<Vec<String>>>, collect_by: CollectBy) -> (out: Vec<
    Vec<String>,
>)
    ensures
        out.deep_view() == event_list(groups.deep_view(), collect_by),
{
    match collect_by {
        CollectBy::Event => {
            let names = sort_distinct(concat(&concat_metrics(groups)));
            let ghost all = names.deep_view();
            let ghost single = |name: Seq<char>| seq![name];
            let mut out: Vec<Vec<String>> = Vec::new();
            assert(out.deep_view() =~= all.take(0).map_values(single));
            for i in 0..names.len()
                invariant
                    all == names.deep_view(),
                    single == (|name: Seq<char>| seq![name]),
                    out.deep_view() == all.take(i as int).map_values(single),
            {
                let ghost before = out.deep_view();
                let mut one: Vec<String> = Vec::new();
                one.push(names[i].clone());
                assert(one.deep_view() =~= seq![all[i as int]]);
                out.push(one);
                assert(out.deep_view() =~= before.push(seq![all[i as int]]));
                assert(all.take(i + 1).map_values(single) =~= before.push(single(all[i as int])));
            }
            assert(all.take(all.len() as int) =~= all);
            out
        },
        CollectBy::Metric => sort_non_empty(concat_metrics(groups)),
        CollectBy::Group => {
            let ghost all = groups.deep_view();
            let ghost merge = |group: Seq<Names>| group.flatten();
            let mut merged: Vec<Vec<String>> = Vec::new();
            assert(merged.deep_view() =~= all.take(0).map_values(merge));
            for i in 0..groups.len()
                invariant
                    all == groups.deep_view(),
                    merge == (|group: Seq<Names>| group.flatten()),
                    merged.deep_view() == all.take(i as int).map_values(merge),
            {
                let ghost before = merged.deep_view();
                let names = concat(&groups[i]);
                let ghost v = names.deep_view();
                merged.push(names);
                assert(merged.deep_view() =~= before.push(v));
                assert(all.take(i + 1).map_values(merge) =~= before.push(merge(all[i as int])));
            }
            assert(all.take(all.len() as int) =~= all);
            sort_non_empty(merged)
        },
    }
}

// ─── Merging groups ──────────────────────────────────────────────────────────

/// Whether every event of `small` is one of `big`.
pub open spec fn covers(big: Names, small: Names) -> bool {
    forall|i: int| 0 <= i < small.len() ==> big.contains(#[trigger] small[i])
}

/// Whether one of the groups has all of these events.
pub open spec fn kept_together(groups: Seq<Names>, names: Names) -> bool {
    exists|cover: Names| groups.contains(cover) && #[trigger] covers(cover, names)
}

/// The groups, each sorted and without repeats, in ascending order, each once.
pub open spec fn tidy_groups(groups: Seq<Names>) -> Seq<Names> {
    sorted_distinct::<Vec<String>>(
        groups.map_values(|names: Names| sorted_distinct::<String>(names)),
    )
}

/// Whether another of the groups has all the events of this one.
pub open spec fn covered_by_another(groups: Seq<Names>, names: Names) -> bool {
    exists|other: Names| groups.contains(other) && other != names && #[trigger] covers(other, names)
}

/// The tidied groups without those whose events another one has.
pub open spec fn merged_groups(groups: Seq<Names>) -> Seq<Names> {
    tidy_groups(groups).filter(|names: Names| !covered_by_another(tidy_groups(groups), names))
}

/// Whether every event of `small` is one of `big`.
fn check_covers(big: &Vec<String>, small: &Vec<String>) -> (b: bool)
    ensures
        b == covers(big.deep_view(), small.deep_view()),
{
    for i in 0..small.len()
        invariant
            forall|k: int|
                0 <= k < i ==> big.deep_view().contains(#[trigger] small.deep_view()[k]),
    {
        if !contains_text(big, small[i].as_str()) {
            assert(!big.deep_view().contains(small.deep_view()[i as int]));
            return false;
        }
    }
    true
}

/// Removes duplicate groups, and groups whose events another group has.
pub fn optimize_event_groups(groups: Vec<Vec<String>>) -> (out: Vec<Vec<String>>)
    ensures
        out.deep_view() == merged_groups(groups.deep_view()),
{
    let ghost given = groups.deep_view();
    let ghost tidy = |names: Names| sorted_distinct::<String>(names);
    let mut tidied: Vec<Vec<String>> = Vec::new();
    assert(tidied.deep_view() =~= given.take(0).map_values(tidy));
    for i in 0..groups.len()
        invariant
            given == groups.deep_view(),
            tidy == (|names: Names| sorted_distinct::<String>(names)),
            tidied.deep_view() == given.take(i as int).map_values(tidy),
    {
        let ghost before = tidied.deep_view();
        let names = sort_distinct(copy_texts(&groups[i]));
        let ghost v = names.deep_view();
        tidied.push(names);
        assert(tidied.deep_view() =~= before.push(v));
        assert(given.take(i + 1).map_values(tidy) =~= before.push(tidy(given[i as int])));
    }
    assert(given.take(given.len() as int) =~= given);
    let all_groups = sort_distinct(tidied);
    let ghost all = all_groups.deep_view();
    let ghost keep = |names: Names| !covered_by_another(all, names);
    proof {
        law_sorted_distinct::<Vec<String>>(tidied.deep_view());
        reveal(Seq::filter);
    }
    let mut out: Vec<Vec<String>> = Vec::new();
    assert(all.take(0) =~= Seq::empty());
    assert(out.deep_view() =~= all.take(0).filter(keep));
    for i in 0..all_groups.len()
        invariant
            all == all_groups.deep_view(),
            all == tidy_groups(given),
            ascending::<Vec<String>>(all),
            keep == (|names: Names| !covered_by_another(all, names)),
            out.deep_view() == all.take(i as int).filter(keep),
    {
        let group = &all_groups[i];
        let ghost names = all[i as int];
        let mut is_subset: bool = false;
        let mut j: usize = 0;
        while j < all_groups.len() && !is_subset
            invariant
                all == all_groups.deep_view(),
                ascending::<Vec<String>>(all),
                j <= all_groups.len(),
                0 <= i < all.len(),
                names == all[i as int],
                group.deep_view() == names,
                is_subset ==> covered_by_another(all, names),
                !is_subset ==> forall|k: int|
                    0 <= k < j && k != i ==> !covers(#[trigger] all[k], names),
            decreases all_groups.len() - j,
        {
            if i != j && check_covers(&all_groups[j], group) {
                is_subset = true;
                proof {
                    let other = all[j as int];
                    assert(all.contains(other));
                    if i < j {
                        assert(Vec::<String>::rank(all[i as int], all[j as int]));
                    } else {
                        assert(Vec::<String>::rank(all[j as int], all[i as int]));
                    }
                    assert(other != names && covers(other, names));
                }
            }
            j += 1;
        }
        proof {
            if !is_subset && covered_by_another(all, names) {
                let other = choose|other: Names|
                    all.contains(other) && other != names && #[trigger] covers(other, names);
                let k = all.index_of(other);
                assert(!covers(all[k], names));
            }
            assert(all.take(i + 1) =~= all.take(i as int).push(names));
            all.take(i as int).lemma_filter_push(names, keep);
        }
        if !is_subset {
            let ghost before = out.deep_view();
            out.push(copy_texts(group));
            assert(out.deep_view() =~= before.push(names));
        }
    }
    assert(all.take(all.len() as int) =~= all);
    out
}

/// An ascending list holds no name twice.
proof fn lemma_ascending_distinct(names: Names)
    requires
        ascending::<String>(names),
    ensures
        names.no_duplicates(),
{
    assert forall|i: int, j: int| 0 <= i < names.len() && 0 <= j < names.len() && i != j implies
        names[i] != names[j] by {
        if i < j {
            assert(String::rank(names[i], names[j]));
        } else {
            assert(String::rank(names[j], names[i]));
        }
    }
}

/// Of two different ascending lists, one that has all names of the other is
/// longer.
proof fn lemma_covers_longer(big: Names, small: Names)
    requires
        ascending::<String>(big),
        ascending::<String>(small),
        covers(big, small),
        big != small,
    ensures
        small.len() < big.len(),
{
    lemma_ascending_distinct(big);
    lemma_ascending_distinct(small);
    big.unique_seq_to_set();
    small.unique_seq_to_set();
    assert(small.to_set().subset_of(big.to_set())) by {
        assert forall|x: Seq<char>| small.to_set().contains(x) implies big.to_set().contains(x) by {
            let i = small.index_of(x);
            assert(big.contains(small[i]));
        }
    }
    vstd::set_lib::lemma_len_subset(small.to_set(), big.to_set());
    if small.len() == big.len() {
        vstd::set_lib::lemma_subset_equality(small.to_set(), big.to_set());
        small.lemma_multiset_has_no_duplicates();
        big.lemma_multiset_has_no_duplicates();
        assert(small.to_multiset() =~= big.to_multiset()) by {
            broadcast use vstd::seq_lib::group_to_multiset_ensures;

            assert forall|x: Seq<char>| small.to_multiset().count(x) == big.to_multiset().count(
                x,
            ) by {
                assert(small.contains(x) <==> small.to_set().contains(x));
                assert(big.contains(x) <==> big.to_set().contains(x));
                assert(small.contains(x) <==> small.to_multiset().contains(x));
                assert(big.contains(x) <==> big.to_multiset().contains(x));
            }
        }
        String::rank_is_total();
        assert(vstd::relations::sorted_by(small, rank_of::<String>())) by {
            assert forall|i: int, j: int| 0 <= i < j < small.len() implies #[trigger] rank_of::<
                String,
            >()(small[i], small[j]) by {
                assert(String::rank(small[i], small[j]));
            }
        }
        assert(vstd::relations::sorted_by(big, rank_of::<String>())) by {
            assert forall|i: int, j: int| 0 <= i < j < big.len() implies #[trigger] rank_of::<
                String,
            >()(big[i], big[j]) by {
                assert(String::rank(big[i], big[j]));
            }
        }
        vstd::seq_lib::lemma_sorted_unique(small, big, rank_of::<String>());
    }
}

/// Every tidied group is an ascending list of the events of a given one, and
/// every given group has such a list.
proof fn lemma_tidy_groups(groups: Seq<Names>)
    ensures
        ascending::<Vec<String>>(tidy_groups(groups)),
        forall|names: Names| #[trigger]
            tidy_groups(groups).contains(names) ==> ascending::<String>(names) && exists|i: int|
                0 <= i < groups.len() && names == sorted_distinct::<String>(#[trigger] groups[i]),
        forall|i: int|
            0 <= i < groups.len() ==> tidy_groups(groups).contains(
                sorted_distinct::<String>(#[trigger] groups[i]),
            ),
{
    let tidied = groups.map_values(|names: Names| sorted_distinct::<String>(names));
    law_sorted_distinct::<Vec<String>>(tidied);
    assert forall|names: Names| #[trigger] tidy_groups(groups).contains(names) implies ascending::<
        String,
    >(names) && exists|i: int|
        0 <= i < groups.len() && names == sorted_distinct::<String>(#[trigger] groups[i]) by {
        assert(tidied.contains(names));
        let i = tidied.index_of(names);
        assert(names == sorted_distinct::<String>(groups[i]));
        law_sorted_distinct::<String>(groups[i]);
    }
    assert forall|i: int| 0 <= i < groups.len() implies tidy_groups(groups).contains(
        sorted_distinct::<String>(#[trigger] groups[i]),
    ) by {
        assert(tidied[i] == sorted_distinct::<String>(groups[i]));
        assert(tidied.contains(tidied[i]));
    }
}

/// A tidied group is covered by a merged one.
proof fn lemma_merged_cover(groups: Seq<Names>, names: Names) -> (cover: Names)
    requires
        tidy_groups(groups).contains(names),
    ensures
        merged_groups(groups).contains(cover),
        covers(cover, names),
    decreases tidy_groups(groups).flatten_alt().len() - names.len(),
{
    let all = tidy_groups(groups);
    let keep = |names: Names| !covered_by_another(all, names);
    lemma_tidy_groups(groups);
    if keep(names) {
        let i = all.index_of(names);
        all.lemma_filter_contains(keep, i);
        names
    } else {
        let other = choose|other: Names|
            all.contains(other) && other != names && #[trigger] covers(other, names);
        lemma_covers_longer(other, names);
        let i = all.index_of(other);
        all.lemma_flatten_length_ge_single_element_length(i);
        let cover = lemma_merged_cover(groups, other);
        assert(covers(cover, names)) by {
            assert forall|k: int| 0 <= k < names.len() implies cover.contains(
                #[trigger] names[k],
            ) by {
                let m = other.index_of(names[k]);
                assert(cover.contains(other[m]));
            }
        }
        cover
    }
}

/// A filtered ascending sequence is ascending.
proof fn lemma_filter_ascending<T: Ranked>(s: Seq<T::V>, keep: spec_fn(T::V) -> bool)
    requires
        ascending::<T>(s),
    ensures
        ascending::<T>(s.filter(keep)),
        forall|x: T::V| #[trigger] s.filter(keep).contains(x) ==> s.contains(x) && keep(x),
    decreases s.len(),
{
    reveal(Seq::filter);
    if s.len() > 0 {
        let front = s.drop_last();
        assert forall|i: int, j: int| 0 <= i < j < front.len() implies #[trigger] T::rank(
            front[i],
            front[j],
        ) && front[i] != front[j] by {
            assert(T::rank(s[i], s[j]));
        }
        lemma_filter_ascending::<T>(front, keep);
        let r = s.filter(keep);
        let q = front.filter(keep);
        assert forall|x: T::V| #[trigger] r.contains(x) implies s.contains(x) && keep(x) by {
            let m = r.index_of(x);
            if m < q.len() {
                assert(q[m] == x);
                assert(q.contains(x));
                let k = front.index_of(x);
                assert(s[k] == x);
            } else {
                assert(s[s.len() - 1] == x);
            }
        }
        assert forall|i: int, j: int| 0 <= i < j < r.len() implies #[trigger] T::rank(r[i], r[j])
            && r[i] != r[j] by {
            if j < q.len() {
                assert(r[i] == q[i] && r[j] == q[j]);
                assert(T::rank(q[i], q[j]));
            } else {
                assert(r[i] == q[i]);
                assert(q.contains(q[i]));
                let k = front.index_of(q[i]);
                assert(T::rank(s[k], s[s.len() - 1]));
            }
        }
    }
}

/// Merging keeps what was asked for and nothing else: the merged groups and
/// the events in each stand in ascending order without repeats, each is made of
/// the events of one given group, all events of a given group stand together in
/// a merged one, and no merged group has all the events of another.
pub proof fn law_merged_groups(groups: Seq<Names>)
    ensures
        ascending::<Vec<String>>(merged_groups(groups)),
        forall|names: Names| #[trigger]
            merged_groups(groups).contains(names) ==> ascending::<String>(names) && exists|i: int|
                0 <= i < groups.len() && names == sorted_distinct::<String>(#[trigger] groups[i]),
        forall|i: int|
            0 <= i < groups.len() ==> kept_together(
                merged_groups(groups),
                #[trigger] groups[i],
            ),
        forall|a: Names, b: Names|
            merged_groups(groups).contains(a) && merged_groups(groups).contains(b) && a != b
                ==> !#[trigger] covers(a, b),
{
    let all = tidy_groups(groups);
    let keep = |names: Names| !covered_by_another(all, names);
    lemma_tidy_groups(groups);
    lemma_filter_ascending::<Vec<String>>(all, keep);
    assert forall|i: int| 0 <= i < groups.len() implies kept_together(
        merged_groups(groups),
        #[trigger] groups[i],
    ) by {
        let names = sorted_distinct::<String>(groups[i]);
        let cover = lemma_merged_cover(groups, names);
        law_sorted_distinct::<String>(groups[i]);
        assert(covers(cover, groups[i])) by {
            assert forall|k: int| 0 <= k < groups[i].len() implies cover.contains(
                #[trigger] groups[i][k],
            ) by {
                assert(names.contains(groups[i][k]));
                let m = names.index_of(groups[i][k]);
                assert(cover.contains(names[m]));
            }
        }
    }
    assert forall|a: Names, b: Names|
        merged_groups(groups).contains(a) && merged_groups(groups).contains(b) && a
            != b implies !#[trigger] covers(a, b) by {
        assert(keep(b));
        assert(all.contains(a));
    }
}

// ─── Rounds ──────────────────────────────────────────────────────────────────

/// How many different events the groups have.
pub open spec fn event_count(groups: Seq<Names>) -> nat {
    groups.flatten().to_set().len()
}

/// The groups in order, packed into rounds: a group joins the last round if the
/// events of that round then fit the counters, else it starts a new one.
pub open spec fn rounds_of(groups: Seq<Names>, max_events: nat) -> Seq<Seq<Names>>
    decreases groups.len(),
{
    if groups.len() == 0 {
        Seq::empty()
    } else {
        let front = rounds_of(groups.drop_last(), max_events);
        let joined = front.last().push(groups.last());
        if front.len() > 0 && event_count(joined) <= max_events {
            front.drop_last().push(joined)
        } else {
            front.push(seq![groups.last()])
        }
    }
}

/// Adds the names that are not yet in the list.
fn add_names(events: &Vec<String>, names: &Vec<String>) -> (out: Vec<String>)
    requires
        events.deep_view().no_duplicates(),
    ensures
        out.deep_view().no_duplicates(),
        out.deep_view().to_set() == (events.deep_view() + names.deep_view()).to_set(),
{
    let mut out = copy_texts(events);
    let ghost base = events.deep_view();
    assert(base + names.deep_view().take(0) =~= base);
    for i in 0..names.len()
        invariant
            base == events.deep_view(),
            out.deep_view().no_duplicates(),
            out.deep_view().to_set() == (base + names.deep_view().take(i as int)).to_set(),
    {
        let ghost before = out.deep_view();
        let ghost name = names.deep_view()[i as int];
        let ghost given = base + names.deep_view().take(i as int);
        proof {
            assert(base + names.deep_view().take(i + 1) =~= given.push(name));
            given.lemma_push_to_set_commute(name);
            before.lemma_push_to_set_commute(name);
            assert(before.contains(name) <==> before.to_set().contains(name));
        }
        if !contains_text(&out, names[i].as_str()) {
            out.push(names[i].clone());
            assert(out.deep_view() =~= before.push(name));
        } else {
            assert(before.to_set().insert(name) =~= before.to_set());
        }
    }
    assert(names.deep_view().take(names.len() as int) =~= names.deep_view());
    out
}

/// A copy of a list of groups.
fn copy_groups(groups: &Vec<Vec<String>>) -> (out: Vec<Vec<String>>)
    ensures
        out.deep_view() == groups.deep_view(),
{
    let mut out: Vec<Vec<String>> = Vec::new();
    for i in 0..groups.len()
        invariant
            out.deep_view() == groups.deep_view().take(i as int),
    {
        let ghost before = out.deep_view();
        out.push(copy_texts(&groups[i]));
        assert(out.deep_view() =~= before.push(groups@[i as int].deep_view()));
        assert(groups.deep_view().take(i + 1) =~= before.push(groups@[i as int].deep_view()));
    }
    assert(groups.deep_view().take(groups.len() as int) =~= groups.deep_view());
    out
}

/// The finished rounds and the one that is still open.
spec fn with_open_round(rounds: Seq<Seq<Names>>, open_round: Seq<Names>) -> Seq<Seq<Names>> {
    if open_round.len() == 0 {
        rounds
    } else {
        rounds.push(open_round)
    }
}

/// Packs groups into rounds of at most `max_events` different events, as far
/// as no single group has more.
pub fn make_chunks(event_groups: &Vec<Vec<String>>, max_events: usize) -> (chunks: Vec<
    Vec<Vec<String>>,
>)
    ensures
        chunks.deep_view() == rounds_of(event_groups.deep_view(), max_events as nat),
{
    let ghost all = event_groups.deep_view();
    let mut chunks: Vec<Vec<Vec<String>>> = Vec::new();
    let mut current_chunk: Vec<Vec<String>> = Vec::new();
    let mut current_events: Vec<String> = Vec::new();
    proof {
        assert(all.take(0) =~= Seq::empty());
        assert(current_chunk.deep_view() =~= Seq::empty());
        assert(current_events.deep_view() =~= Seq::empty());
        assert(chunks.deep_view() =~= Seq::empty());
    }
    for i in 0..event_groups.len()
        invariant
            all == event_groups.deep_view(),
            with_open_round(chunks.deep_view(), current_chunk.deep_view()) == rounds_of(
                all.take(i as int),
                max_events as nat,
            ),
            i == 0 ==> chunks.len() == 0,
            i == 0 <==> current_chunk.len() == 0,
            current_events.deep_view().no_duplicates(),
            current_events.deep_view().to_set() == current_chunk.deep_view().flatten().to_set(),
    {
        let group = &event_groups[i];
        let ghost names = all[i as int];
        let ghost done = chunks.deep_view();
        let ghost open_round = current_chunk.deep_view();
        let mut events = add_names(&current_events, group);
        proof {
            assert(names == group.deep_view());
            assert(all.take(i + 1).drop_last() =~= all.take(i as int));
            open_round.lemma_flatten_push(names);
            assert(events.deep_view().to_set() =~= open_round.push(names).flatten().to_set()) by {
                let listed = current_events.deep_view() + names;
                let nested = open_round.flatten() + names;
                assert forall|x: Seq<char>| listed.contains(x) <==> nested.contains(x) by {
                    vstd::seq_lib::lemma_seq_concat_contains_all_elements(
                        current_events.deep_view(),
                        names,
                        x,
                    );
                    vstd::seq_lib::lemma_seq_concat_contains_all_elements(
                        open_round.flatten(),
                        names,
                        x,
                    );
                    assert(current_events.deep_view().to_set().contains(x)
                        <==> open_round.flatten().to_set().contains(x));
                }
                assert(listed.to_set() =~= nested.to_set());
            }
            events.deep_view().unique_seq_to_set();
            assert(events.len() == event_count(open_round.push(names)));
        }
        if current_chunk.len() > 0 && events.len() > max_events {
            chunks.push(current_chunk);
            current_chunk = Vec::new();
            current_events = Vec::new();
            events = add_names(&current_events, group);
            proof {
                assert(chunks.deep_view() =~= done.push(open_round));
                assert(current_chunk.deep_view() =~= Seq::empty());
                assert(current_events.deep_view() + names =~= names);
                Seq::<Names>::empty().lemma_flatten_push(names);
                assert(Seq::<Names>::empty().flatten() + names =~= names);
            }
        }
        let ghost before = current_chunk.deep_view();
        current_chunk.push(copy_texts(group));
        current_events = events;
        proof {
            assert(current_chunk.deep_view() =~= before.push(names));
            if before.len() == 0 {
                assert(before.push(names) =~= seq![names]);
            } else {
                assert(done.push(open_round).drop_last() =~= done);
            }
        }
    }
    assert(all.take(all.len() as int) =~= all);
    if current_chunk.len() > 0 {
        let ghost done = chunks.deep_view();
        let ghost open_round = current_chunk.deep_view();
        chunks.push(current_chunk);
        assert(chunks.deep_view() =~= done.push(open_round));
    }
    chunks
}

/// Packing loses and reorders nothing, no round is empty, and if every group
/// fits the counters by itself, so does every round.
pub proof fn law_rounds(groups: Seq<Names>, max_events: nat)
    ensures
        rounds_of(groups, max_events).flatten() == groups,
        forall|k: int|
            0 <= k < rounds_of(groups, max_events).len() ==> (#[trigger] rounds_of(
                groups,
                max_events,
            )[k]).len() > 0,
        (forall|i: int| 0 <= i < groups.len() ==> event_count(seq![#[trigger] groups[i]])
            <= max_events) ==> forall|k: int|
            0 <= k < rounds_of(groups, max_events).len() ==> event_count(
                #[trigger] rounds_of(groups, max_events)[k],
            ) <= max_events,
    decreases groups.len(),
{
    let rounds = rounds_of(groups, max_events);
    if groups.len() > 0 {
        let rest = groups.drop_last();
        let front = rounds_of(rest, max_events);
        let last = groups.last();
        law_rounds(rest, max_events);
        assert(groups =~= rest.push(last));
        let joined = front.last().push(last);
        if front.len() > 0 && event_count(joined) <= max_events {
            let kept = front.drop_last();
            assert(front =~= kept.push(front.last()));
            kept.lemma_flatten_push(front.last());
            kept.lemma_flatten_push(joined);
            assert(kept.flatten() + joined =~= (kept.flatten() + front.last()).push(last));
            assert(forall|k: int| 0 <= k < kept.len() ==> rounds[k] == front[k]);
        } else {
            front.lemma_flatten_push(seq![last]);
            assert(front.flatten() + seq![last] =~= rest.push(last));
            assert(forall|k: int| 0 <= k < front.len() ==> rounds[k] == front[k]);
            assert(rounds[front.len() as int] == seq![last]);
            assert(groups[groups.len() - 1] == last);
        }
        if forall|i: int|
            0 <= i < groups.len() ==> event_count(seq![#[trigger] groups[i]]) <= max_events {
            assert forall|i: int| 0 <= i < rest.len() implies event_count(
                seq![#[trigger] rest[i]],
            ) <= max_events by {
                assert(rest[i] == groups[i]);
            }
        }
    }
}

/// Groups that are all among others have no more events than these.
proof fn lemma_fewer_events(few: Seq<Names>, many: Seq<Names>)
    requires
        forall|i: int| 0 <= i < few.len() ==> many.contains(#[trigger] few[i]),
    ensures
        event_count(few) <= event_count(many),
{
    let (a, b) = (few.flatten(), many.flatten());
    assert forall|x: Seq<char>| a.to_set().contains(x) implies b.to_set().contains(x) by {
        assert(a.contains(x));
        let i = lemma_flatten_part(few, x);
        assert(many.contains(few[i]));
        lemma_flatten_has(many, many.index_of(few[i]), x);
    }
    vstd::set_lib::lemma_len_subset(a.to_set(), b.to_set());
}

/// Rounds never fall behind other runs: there are fewer of them, or as many,
/// and then the last one is no longer.
proof fn lemma_rounds_ahead(groups: Seq<Names>, max_events: nat, runs: Seq<Seq<Names>>)
    requires
        runs.flatten() == groups,
        forall|k: int| 0 <= k < runs.len() ==> event_count(#[trigger] runs[k]) <= max_events,
    ensures
        rounds_of(groups, max_events).len() <= runs.len(),
        runs.len() > 0 && rounds_of(groups, max_events).len() == runs.len() ==> rounds_of(
            groups,
            max_events,
        ).last().len() <= runs.last().len(),
    decreases groups.len() + runs.len(),
{
    if runs.len() > 0 {
        let kept = runs.drop_last();
        let run = runs.last();
        assert(runs =~= kept.push(run));
        kept.lemma_flatten_push(run);
        assert(forall|k: int| 0 <= k < kept.len() ==> kept[k] == runs[k]);
        if run.len() == 0 {
            assert(kept.flatten() =~= groups);
            lemma_rounds_ahead(groups, max_events, kept);
        } else {
            let rest = groups.drop_last();
            let last = groups.last();
            let shorter = run.drop_last();
            let fewer = kept.push(shorter);
            assert(run =~= shorter.push(last));
            kept.lemma_flatten_push(shorter);
            assert(fewer.flatten() =~= rest);
            assert(event_count(shorter) <= event_count(run)) by {
                assert forall|i: int| 0 <= i < shorter.len() implies run.contains(
                    #[trigger] shorter[i],
                ) by {
                    assert(run[i] == shorter[i]);
                }
                lemma_fewer_events(shorter, run);
            }
            assert(event_count(runs[runs.len() - 1]) <= max_events);
            lemma_rounds_ahead(rest, max_events, fewer);
            let front = rounds_of(rest, max_events);
            assert(groups.len() > 0);
            if front.len() == runs.len() {
                let open_round = front.last();
                let joined = open_round.push(last);
                law_rounds(rest, max_events);
                assert(front =~= front.drop_last().push(open_round));
                front.drop_last().lemma_flatten_push(open_round);
                let before = front.drop_last().flatten();
                assert(rest == before + open_round);
                assert(groups =~= rest.push(last));
                assert(rest.push(last) =~= before + joined);
                assert forall|i: int| 0 <= i < joined.len() implies run.contains(
                    #[trigger] joined[i],
                ) by {
                    let at = before.len() + i;
                    assert(groups[at] == joined[i]);
                    assert(run[at - kept.flatten().len()] == joined[i]);
                }
                lemma_fewer_events(joined, run);
            }
        }
    }
}

/// No fewer rounds are possible: however the groups in order are cut into runs
/// that fit the counters, there are at least as many runs as rounds.
pub proof fn law_fewest_rounds(groups: Seq<Names>, max_events: nat, runs: Seq<Seq<Names>>)
    requires
        runs.flatten() == groups,
        forall|k: int| 0 <= k < runs.len() ==> event_count(#[trigger] runs[k]) <= max_events,
    ensures
        rounds_of(groups, max_events).len() <= runs.len(),
{
    lemma_rounds_ahead(groups, max_events, runs);
}

/// All groups in one round; no round if there are none.
pub open spec fn one_round(groups: Seq<Names>) -> Seq<Seq<Names>> {
    if groups.len() == 0 {
        Seq::empty()
    } else {
        seq![groups]
    }
}

/// Where all events fit the counters together, packing makes one round of them.
pub proof fn law_one_round(groups: Seq<Names>, max_events: nat)
    requires
        event_count(groups) <= max_events,
    ensures
        rounds_of(groups, max_events) == one_round(groups),
    decreases groups.len(),
{
    if groups.len() > 0 {
        let rest = groups.drop_last();
        let last = groups.last();
        assert forall|i: int| 0 <= i < rest.len() implies groups.contains(#[trigger] rest[i]) by {
            assert(groups[i] == rest[i]);
        }
        lemma_fewer_events(rest, groups);
        law_one_round(rest, max_events);
        assert(rest.push(last) =~= groups);
        if rest.len() == 0 {
            assert(seq![last] =~= groups);
        }
        assert(rounds_of(groups, max_events) =~= seq![groups]);
    }
}

// ─── Schedule ────────────────────────────────────────────────────────────────

/// The first group with more events than there are counters.
pub open spec fn first_too_large(groups: Seq<Names>, max_events: nat) -> Option<Names>
    decreases groups.len(),
{
    if groups.len() == 0 {
        None
    } else if groups[0].len() > max_events {
        Some(groups[0])
    } else {
        first_too_large(groups.drop_first(), max_events)
    }
}

/// The groups that are collected for what is asked, or the first of them that
/// does not fit the counters.
pub open spec fn schedule_of(groups: Seq<Seq<Names>>, by: CollectBy, max_events: nat) -> Result<
    Seq<Names>,
    Names,
> {
    let merged = merged_groups(event_list(groups, by));
    match first_too_large(merged, max_events) {
        Some(names) => Err(names),
        None => Ok(merged),
    }
}

/// Whether an error reports that these events do not fit the counters.
pub open spec fn reports(e: GroupScheduleError, names: Names, max_events: nat) -> bool {
    e.required == names.len() && e.available == max_events && e.event_names.deep_view() == names
}

/// Event groups that are to be collected, and the number of counters.
#[derive(Debug)]
pub struct EventScheduler {
    /// The number of counters.
    pub max_events: usize,
    /// The groups, none of which has all the events of another.
    pub optimized_event_groups: Vec<Vec<String>>,
}

impl EventScheduler {
    /// Schedules the events of metric groups.
    ///
    /// - `groups`: for each metric group, the event names of each metric
    /// - `collect_by`: the strategy
    /// - `max_events`: the number of counters
    pub fn new(
        groups: Vec<Vec<Vec<String>>>,
        collect_by: CollectBy,
        max_events: usize,
    ) -> (out: Result<Self, GroupScheduleError>)
        ensures
            match (out, schedule_of(groups.deep_view(), collect_by, max_events as nat)) {
                (Ok(scheduler), Ok(merged)) => scheduler.optimized_event_groups.deep_view()
                    == merged && scheduler.max_events == max_events,
                (Err(e), Err(names)) => reports(e, names, max_events as nat),
                _ => false,
            },
    {
        let optimized = optimize_event_groups(generate_event_list(&groups, collect_by));
        let ghost merged = optimized.deep_view();
        assert(merged.skip(0) =~= merged);
        for i in 0..optimized.len()
            invariant
                merged == optimized.deep_view(),
                merged == merged_groups(event_list(groups.deep_view(), collect_by)),
                first_too_large(merged, max_events as nat) == first_too_large(
                    merged.skip(i as int),
                    max_events as nat,
                ),
        {
            assert(merged.skip(i as int)[0] == optimized@[i as int].deep_view());
            assert(merged.skip(i as int).drop_first() =~= merged.skip(i + 1));
            if optimized[i].len() > max_events {
                return Err(
                    GroupScheduleError {
                        required: optimized[i].len(),
                        available: max_events,
                        event_names: copy_texts(&optimized[i]),
                    },
                );
            }
        }
        Ok(EventScheduler { max_events, optimized_event_groups: optimized })
    }

    /// The event groups in rounds that fit the counters, or without splitting
    /// all in one round.
    pub fn get_event_group_chunks(&self, split: bool) -> (chunks: Vec<Vec<Vec<String>>>)
        ensures
            split ==> chunks.deep_view() == rounds_of(
                self.optimized_event_groups.deep_view(),
                self.max_events as nat,
            ),
            !split ==> chunks.deep_view() == seq![self.optimized_event_groups.deep_view()],
    {
        if !split {
            let mut chunks: Vec<Vec<Vec<String>>> = Vec::new();
            chunks.push(copy_groups(&self.optimized_event_groups));
            assert(chunks.deep_view() =~= seq![self.optimized_event_groups.deep_view()]);
            return chunks;
        }
        make_chunks(&self.optimized_event_groups, self.max_events)
    }

    /// The rounds to capture. Without multiplexing all groups are captured in one
    /// round, which must not have more events than there are counters. Where there
    /// is no group there is no round.
    pub fn plan_rounds(&self, multiplex: bool) -> (out: Result<
        Vec<Vec<Vec<String>>>,
        GroupScheduleError,
    >)
        ensures
            match out {
                Ok(rounds) => if multiplex {
                    rounds.deep_view() == rounds_of(
                        self.optimized_event_groups.deep_view(),
                        self.max_events as nat,
                    )
                } else {
                    rounds.deep_view() == one_round(self.optimized_event_groups.deep_view())
                        && event_count(self.optimized_event_groups.deep_view()) <= self.max_events
                },
                Err(e) => !multiplex && event_count(self.optimized_event_groups.deep_view())
                    > self.max_events && reports(
                    e,
                    sorted_distinct::<String>(self.optimized_event_groups.deep_view().flatten()),
                    self.max_events as nat,
                ),
            },
    {
        if !multiplex {
            let names = sort_distinct(concat(&self.optimized_event_groups));
            proof {
                let flat = self.optimized_event_groups.deep_view().flatten();
                law_sorted_distinct::<String>(flat);
                lemma_ascending_distinct(names.deep_view());
                names.deep_view().unique_seq_to_set();
                assert(names.deep_view().to_set() =~= flat.to_set()) by {
                    assert forall|x: Seq<char>| names.deep_view().to_set().contains(x)
                        <==> flat.to_set().contains(x) by {
                        assert(names.deep_view().contains(x) <==> flat.contains(x));
                    }
                }
            }
            if names.len() > self.max_events {
                return Err(
                    GroupScheduleError {
                        required: names.len(),
                        available: self.max_events,
                        event_names: names,
                    },
                );
            }
            if self.optimized_event_groups.len() == 0 {
                let none: Vec<Vec<Vec<String>>> = Vec::new();
                assert(none.deep_view() =~= Seq::empty());
                return Ok(none);
            }
        }
        Ok(self.get_event_group_chunks(multiplex))
    }
}

/// What `first_too_large` finds.
proof fn lemma_first_too_large(groups: Seq<Names>, max_events: nat)
    ensures
        match first_too_large(groups, max_events) {
            Some(names) => groups.contains(names) && names.len() > max_events,
            None => forall|i: int|
                0 <= i < groups.len() ==> (#[trigger] groups[i]).len() <= max_events,
        },
    decreases groups.len(),
{
    if groups.len() > 0 {
        let rest = groups.drop_first();
        lemma_first_too_large(rest, max_events);
        if groups[0].len() > max_events {
            assert(groups.contains(groups[0]));
        } else {
            match first_too_large(rest, max_events) {
                Some(names) => {
                    let i = rest.index_of(names);
                    assert(groups[i + 1] == names);
                },
                None => {
                    assert forall|i: int| 0 <= i < groups.len() implies (#[trigger] groups[i]).len()
                        <= max_events by {
                        if i > 0 {
                            assert(rest[i - 1] == groups[i]);
                        }
                    }
                },
            }
        }
    }
}

/// Scheduling fails exactly when a group has more events than there are
/// counters.
pub proof fn law_schedule_fails(groups: Seq<Seq<Names>>, by: CollectBy, max_events: nat)
    ensures
        schedule_of(groups, by, max_events) is Err <==> exists|i: int|
            0 <= i < merged_groups(event_list(groups, by)).len() && (
            #[trigger] merged_groups(event_list(groups, by))[i]).len() > max_events,
{
    let merged = merged_groups(event_list(groups, by));
    lemma_first_too_large(merged, max_events);
    match first_too_large(merged, max_events) {
        Some(names) => {
            let i = merged.index_of(names);
            assert(merged[i].len() > max_events);
        },
        None => {},
    }
}

/// What is in one of the parts is in the whole.
pub(crate) proof fn lemma_flatten_has<A>(parts: Seq<Seq<A>>, i: int, x: A)
    requires
        0 <= i < parts.len(),
        parts[i].contains(x),
    ensures
        parts.flatten().contains(x),
    decreases parts.len(),
{
    let rest = parts.drop_first();
    vstd::seq_lib::lemma_seq_concat_contains_all_elements(parts[0], rest.flatten(), x);
    if i > 0 {
        assert(rest[i - 1] == parts[i]);
        lemma_flatten_has(rest, i - 1, x);
    }
}

/// What is in the whole is in one of the parts.
pub(crate) proof fn lemma_flatten_part<A>(parts: Seq<Seq<A>>, x: A) -> (i: int)
    requires
        parts.flatten().contains(x),
    ensures
        0 <= i < parts.len(),
        parts[i].contains(x),
    decreases parts.len(),
{
    if parts.len() == 0 {
        assert(false);
        0
    } else {
        let rest = parts.drop_first();
        vstd::seq_lib::lemma_seq_concat_contains_all_elements(parts[0], rest.flatten(), x);
        if parts[0].contains(x) {
            0
        } else {
            let i = lemma_flatten_part(rest, x);
            assert(parts[i + 1] == rest[i]);
            i + 1
        }
    }
}

/// A metric's events stay together when their list is one that is merged.
proof fn lemma_kept_together(groups: Seq<Names>, i: int, names: Names)
    requires
        0 <= i < groups.len(),
        covers(groups[i], names),
    ensures
        kept_together(merged_groups(groups), names),
{
    law_merged_groups(groups);
    assert(kept_together(merged_groups(groups), groups[i]));
    let cover = choose|cover: Names|
        merged_groups(groups).contains(cover) && #[trigger] covers(cover, groups[i]);
    assert(covers(cover, names)) by {
        assert forall|k: int| 0 <= k < names.len() implies cover.contains(#[trigger] names[k]) by {
            let m = groups[i].index_of(names[k]);
            assert(cover.contains(groups[i][m]));
        }
    }
}

/// Where a filtered and tidied list of lists keeps a list that holds a name.
proof fn lemma_tidied_place(lists: Seq<Names>, i: int) -> (k: int)
    requires
        0 <= i < lists.len(),
        lists[i].len() > 0,
    ensures
        0 <= k < lists.filter(|names: Names| names.len() > 0).len(),
        lists.filter(|names: Names| names.len() > 0).map_values(
            |names: Names| sorted_distinct::<String>(names),
        )[k] == sorted_distinct::<String>(lists[i]),
{
    let keep = |names: Names| names.len() > 0;
    lists.lemma_filter_contains(keep, i);
    lists.filter(keep).index_of(lists[i])
}

/// A sorted list without repeats covers what it was made of.
proof fn lemma_sorted_covers(names: Names)
    ensures
        covers(sorted_distinct::<String>(names), names),
{
    law_sorted_distinct::<String>(names);
}

/// Every event that a metric needs is asked for, and but for the strategy of
/// single events all events of the metric are asked for together.
proof fn lemma_event_list_keeps(groups: Seq<Seq<Names>>, by: CollectBy, g: int, m: int)
    requires
        0 <= g < groups.len(),
        0 <= m < groups[g].len(),
    ensures
        by != CollectBy::Event && groups[g][m].len() > 0 ==> kept_together(
            merged_groups(event_list(groups, by)),
            groups[g][m],
        ),
        forall|k: int|
            0 <= k < groups[g][m].len() ==> kept_together(
                merged_groups(event_list(groups, by)),
                seq![#[trigger] groups[g][m][k]],
            ),
{
    let names = groups[g][m];
    let list = event_list(groups, by);
    if names.len() > 0 {
        assert(groups[g].contains(names));
        lemma_flatten_has(groups, g, names);
        match by {
            CollectBy::Event => {
                let flat = groups.flatten();
                let j = flat.index_of(names);
                let all = sorted_distinct::<String>(flat.flatten());
                law_sorted_distinct::<String>(flat.flatten());
                assert forall|k: int| 0 <= k < names.len() implies kept_together(
                    merged_groups(list),
                    seq![#[trigger] names[k]],
                ) by {
                    assert(flat[j].contains(names[k]));
                    lemma_flatten_has(flat, j, names[k]);
                    assert(all.contains(names[k]));
                    let i = all.index_of(names[k]);
                    assert(list[i] == seq![names[k]]);
                    assert(covers(list[i], seq![names[k]]));
                    lemma_kept_together(list, i, seq![names[k]]);
                }
            },
            CollectBy::Metric => {
                let flat = groups.flatten();
                let j = flat.index_of(names);
                let i = lemma_tidied_place(flat, j);
                lemma_sorted_covers(names);
                lemma_kept_together(list, i, names);
            },
            CollectBy::Group => {
                let lists = groups.map_values(|group: Seq<Names>| group.flatten());
                let whole = groups[g].flatten();
                assert(lists[g] == whole);
                assert(covers(whole, names)) by {
                    assert forall|k: int| 0 <= k < names.len() implies whole.contains(
                        #[trigger] names[k],
                    ) by {
                        assert(names.contains(names[k]));
                        lemma_flatten_has(groups[g], m, names[k]);
                    }
                }
                assert(whole.contains(names[0]));
                let i = lemma_tidied_place(lists, g);
                lemma_sorted_covers(whole);
                assert(covers(list[i], names)) by {
                    assert forall|k: int| 0 <= k < names.len() implies list[i].contains(
                        #[trigger] names[k],
                    ) by {
                        let w = whole.index_of(names[k]);
                        assert(list[i].contains(whole[w]));
                    }
                }
                lemma_kept_together(list, i, names);
            },
        }
        if by != CollectBy::Event {
            let cover = choose|cover: Names|
                merged_groups(list).contains(cover) && #[trigger] covers(cover, names);
            assert forall|k: int| 0 <= k < names.len() implies kept_together(
                merged_groups(list),
                seq![#[trigger] names[k]],
            ) by {
                assert(cover.contains(names[k]));
                assert(covers(cover, seq![names[k]]));
            }
        }
    }
}

/// Nothing is asked for that no metric needs.
proof fn lemma_event_list_needed(groups: Seq<Seq<Names>>, by: CollectBy, i: int, name: Seq<char>)
    requires
        0 <= i < event_list(groups, by).len(),
        event_list(groups, by)[i].contains(name),
    ensures
        groups.flatten().flatten().contains(name),
{
    let list = event_list(groups, by);
    let flat = groups.flatten();
    let keep = |names: Names| names.len() > 0;
    match by {
        CollectBy::Event => {
            let all = sorted_distinct::<String>(flat.flatten());
            law_sorted_distinct::<String>(flat.flatten());
            assert(list[i] == seq![all[i]]);
            assert(all.contains(all[i]));
        },
        CollectBy::Metric => {
            let names = flat.filter(keep)[i];
            law_sorted_distinct::<String>(names);
            assert(flat.filter(keep).contains(names));
            flat.lemma_filter_contains_rev(keep, names);
            assert(names.contains(name));
            lemma_flatten_has(flat, flat.index_of(names), name);
        },
        CollectBy::Group => {
            let lists = groups.map_values(|group: Seq<Names>| group.flatten());
            let names = lists.filter(keep)[i];
            law_sorted_distinct::<String>(names);
            assert(lists.filter(keep).contains(names));
            lists.lemma_filter_contains_rev(keep, names);
            let g = lists.index_of(names);
            assert(names == groups[g].flatten());
            assert(names.contains(name));
            let m = lemma_flatten_part(groups[g], name);
            assert(groups[g].contains(groups[g][m]));
            lemma_flatten_has(groups, g, groups[g][m]);
            lemma_flatten_has(flat, flat.index_of(groups[g][m]), name);
        },
    }
}

/// A schedule collects what is asked for within the counters: the rounds hold
/// the scheduled groups in order, no round has more events than there are
/// counters, every event that a metric needs is collected, but for the strategy
/// of single events all events of a metric are collected in one group, and no
/// event is collected that no metric needs.
pub proof fn law_schedule(groups: Seq<Seq<Names>>, by: CollectBy, max_events: nat)
    requires
        schedule_of(groups, by, max_events) is Ok,
    ensures
        ({
            let scheduled = schedule_of(groups, by, max_events)->Ok_0;
            let rounds = rounds_of(scheduled, max_events);
            &&& rounds.flatten() == scheduled
            &&& forall|k: int|
                0 <= k < rounds.len() ==> event_count(#[trigger] rounds[k]) <= max_events
            &&& forall|g: int, m: int|
                #![trigger groups[g][m]]
                0 <= g < groups.len() && 0 <= m < groups[g].len() ==> {
                    &&& by != CollectBy::Event && groups[g][m].len() > 0 ==> kept_together(
                        scheduled,
                        groups[g][m],
                    )
                    &&& forall|k: int|
                        0 <= k < groups[g][m].len() ==> kept_together(
                            scheduled,
                            seq![#[trigger] groups[g][m][k]],
                        )
                }
            &&& forall|name: Seq<char>| #[trigger]
                scheduled.flatten().contains(name) ==> groups.flatten().flatten().contains(name)
        }),
{
    let list = event_list(groups, by);
    let scheduled = schedule_of(groups, by, max_events)->Ok_0;
    let rounds = rounds_of(scheduled, max_events);
    lemma_first_too_large(scheduled, max_events);
    law_merged_groups(list);
    law_rounds(scheduled, max_events);
    assert forall|i: int| 0 <= i < scheduled.len() implies event_count(
        seq![#[trigger] scheduled[i]],
    ) <= max_events by {
        let names = scheduled[i];
        assert(scheduled.contains(names));
        lemma_ascending_distinct(names);
        names.unique_seq_to_set();
        assert(seq![names].flatten() == names) by {
            seq![names].lemma_flatten_one_element();
        }
    }
    assert forall|g: int, m: int|
        #![trigger groups[g][m]]
        0 <= g < groups.len() && 0 <= m < groups[g].len() implies {
        &&& by != CollectBy::Event && groups[g][m].len() > 0 ==> kept_together(
            scheduled,
            groups[g][m],
        )
        &&& forall|k: int|
            0 <= k < groups[g][m].len() ==> kept_together(
                scheduled,
                seq![#[trigger] groups[g][m][k]],
            )
    } by {
        lemma_event_list_keeps(groups, by, g, m);
    }
    assert forall|name: Seq<char>| #[trigger]
        scheduled.flatten().contains(name) implies groups.flatten().flatten().contains(name) by {
        let i = lemma_flatten_part(scheduled, name);
        let names = scheduled[i];
        assert(scheduled.contains(names));
        let j = choose|j: int|
            0 <= j < list.len() && names == sorted_distinct::<String>(#[trigger] list[j]);
        law_sorted_distinct::<String>(list[j]);
        assert(list[j].contains(name));
        lemma_event_list_needed(groups, by, j, name);
    }
}

/// Whether two lists have the same events, whatever their order and repeats.
pub open spec fn alike_names(a: Names, b: Names) -> bool {
    forall|name: Seq<char>| #[trigger] a.contains(name) <==> b.contains(name)
}

/// Whether a list has the events of one of `lists`.
pub open spec fn found_in(names: Names, lists: Seq<Names>) -> bool {
    exists|j: int| 0 <= j < lists.len() && alike_names(names, #[trigger] lists[j])
}

/// Whether each list of `a` has the events of one of `b`.
pub open spec fn found_among(a: Seq<Names>, b: Seq<Names>) -> bool {
    forall|i: int| 0 <= i < a.len() ==> found_in(#[trigger] a[i], b)
}

/// Whether two groups have the same metrics, whatever the order and repeats of
/// metrics and events.
pub open spec fn alike_metrics(a: Seq<Names>, b: Seq<Names>) -> bool {
    found_among(a, b) && found_among(b, a)
}

/// Whether a group has the metrics of one of `groups`.
pub open spec fn group_found_in(group: Seq<Names>, groups: Seq<Seq<Names>>) -> bool {
    exists|j: int| 0 <= j < groups.len() && alike_metrics(group, #[trigger] groups[j])
}

/// Whether each group of `a` has the metrics of one of `b`.
pub open spec fn groups_found_among(a: Seq<Seq<Names>>, b: Seq<Seq<Names>>) -> bool {
    forall|i: int| 0 <= i < a.len() ==> group_found_in(#[trigger] a[i], b)
}

/// Whether two requests have the same groups, whatever the order and repeats of
/// groups, metrics and events.
pub open spec fn alike_groups(a: Seq<Seq<Names>>, b: Seq<Seq<Names>>) -> bool {
    groups_found_among(a, b) && groups_found_among(b, a)
}

/// Lists that are found among others have their events among these.
proof fn lemma_names_among(a: Seq<Names>, b: Seq<Names>, name: Seq<char>)
    requires
        found_among(a, b),
        a.flatten().contains(name),
    ensures
        b.flatten().contains(name),
{
    let i = lemma_flatten_part(a, name);
    let j = choose|j: int| 0 <= j < b.len() && alike_names(a[i], #[trigger] b[j]);
    assert(a[i].contains(name));
    lemma_flatten_has(b, j, name);
}

/// A metric of a group that is found among others is found among their metrics.
proof fn lemma_metric_among(group: Seq<Names>, m: int, groups: Seq<Seq<Names>>)
    requires
        group_found_in(group, groups),
        0 <= m < group.len(),
    ensures
        found_in(group[m], groups.flatten()),
{
    let h = choose|h: int| 0 <= h < groups.len() && alike_metrics(group, #[trigger] groups[h]);
    let other = groups[h];
    assert(found_in(group[m], other));
    let n = choose|n: int| 0 <= n < other.len() && alike_names(group[m], #[trigger] other[n]);
    assert(other.contains(other[n]));
    lemma_flatten_has(groups, h, other[n]);
    let j = groups.flatten().index_of(other[n]);
    assert(groups.flatten()[j] == other[n]);
}

/// The metrics of groups that are found among others are found among theirs.
proof fn lemma_metrics_among(a: Seq<Seq<Names>>, b: Seq<Seq<Names>>)
    requires
        groups_found_among(a, b),
    ensures
        found_among(a.flatten(), b.flatten()),
{
    let p = a.flatten();
    assert forall|i: int| 0 <= i < p.len() implies found_in(#[trigger] p[i], b.flatten()) by {
        assert(p.contains(p[i]));
        let g = lemma_flatten_part(a, p[i]);
        lemma_metric_among(a[g], a[g].index_of(p[i]), b);
    }
}

/// Where each list that holds a name is found among others, it is so too after
/// sorting.
proof fn lemma_sorted_among(a: Seq<Names>, b: Seq<Names>)
    requires
        found_among(a, b),
    ensures
        found_among(
            a.filter(|names: Names| names.len() > 0).map_values(
                |names: Names| sorted_distinct::<String>(names),
            ),
            b.filter(|names: Names| names.len() > 0).map_values(
                |names: Names| sorted_distinct::<String>(names),
            ),
        ),
{
    let keep = |names: Names| names.len() > 0;
    let tidy = |names: Names| sorted_distinct::<String>(names);
    let (p, q) = (a.filter(keep).map_values(tidy), b.filter(keep).map_values(tidy));
    assert forall|i: int| 0 <= i < p.len() implies found_in(#[trigger] p[i], q) by {
        let names = a.filter(keep)[i];
        assert(a.filter(keep).contains(names));
        a.lemma_filter_contains_rev(keep, names);
        a.lemma_filter_pred(keep, i);
        let g = a.index_of(names);
        let h = choose|h: int| 0 <= h < b.len() && alike_names(a[g], #[trigger] b[h]);
        assert(names.contains(names[0]));
        assert(b[h].contains(names[0]));
        let j = lemma_tidied_place(b, h);
        law_sorted_distinct_unique::<String>(names, b[h]);
        assert(alike_names(p[i], q[j]));
    }
}

/// What is asked for is found among what is asked for elsewhere if the groups
/// are.
proof fn lemma_event_list_among(a: Seq<Seq<Names>>, b: Seq<Seq<Names>>, by: CollectBy)
    requires
        groups_found_among(a, b),
    ensures
        found_among(event_list(a, by), event_list(b, by)),
{
    let (p, q) = (event_list(a, by), event_list(b, by));
    lemma_metrics_among(a, b);
    match by {
        CollectBy::Event => {
            let (s, t) = (a.flatten().flatten(), b.flatten().flatten());
            law_sorted_distinct::<String>(s);
            law_sorted_distinct::<String>(t);
            assert forall|i: int| 0 <= i < p.len() implies found_in(#[trigger] p[i], q) by {
                let name = sorted_distinct::<String>(s)[i];
                assert(sorted_distinct::<String>(s).contains(name));
                lemma_names_among(a.flatten(), b.flatten(), name);
                assert(sorted_distinct::<String>(t).contains(name));
                let j = sorted_distinct::<String>(t).index_of(name);
                assert(p[i] == seq![name] && q[j] == seq![name]);
                assert(alike_names(p[i], q[j]));
            }
        },
        CollectBy::Metric => {
            lemma_sorted_among(a.flatten(), b.flatten());
        },
        CollectBy::Group => {
            let merge = |group: Seq<Names>| group.flatten();
            let (s, t) = (a.map_values(merge), b.map_values(merge));
            assert forall|i: int| 0 <= i < s.len() implies found_in(#[trigger] s[i], t) by {
                let j = choose|j: int| 0 <= j < b.len() && alike_metrics(a[i], #[trigger] b[j]);
                assert forall|name: Seq<char>| #[trigger] s[i].contains(name) <==> t[j].contains(
                    name,
                ) by {
                    if s[i].contains(name) {
                        lemma_names_among(a[i], b[j], name);
                    }
                    if t[j].contains(name) {
                        lemma_names_among(b[j], a[i], name);
                    }
                }
                assert(alike_names(s[i], t[j]));
            }
            lemma_sorted_among(s, t);
        },
    }
}

/// A tidied list is one of those elsewhere if its list is found there.
proof fn lemma_tidy_among(a: Seq<Names>, b: Seq<Names>, names: Names)
    requires
        found_among(a, b),
        tidy_groups(a).contains(names),
    ensures
        tidy_groups(b).contains(names),
{
    lemma_tidy_groups(a);
    lemma_tidy_groups(b);
    let i = choose|i: int|
        0 <= i < a.len() && names == sorted_distinct::<String>(#[trigger] a[i]);
    let j = choose|j: int| 0 <= j < b.len() && alike_names(a[i], #[trigger] b[j]);
    law_sorted_distinct_unique::<String>(a[i], b[j]);
}

/// Neither the order nor the repeats of groups, metrics or events bear on the
/// schedule, nor on the group that is reported when there is none.
pub proof fn law_schedule_order(
    a: Seq<Seq<Names>>,
    b: Seq<Seq<Names>>,
    by: CollectBy,
    max_events: nat,
)
    requires
        alike_groups(a, b),
    ensures
        schedule_of(a, by, max_events) == schedule_of(b, by, max_events),
{
    let (p, q) = (event_list(a, by), event_list(b, by));
    lemma_event_list_among(a, b, by);
    lemma_event_list_among(b, a, by);
    lemma_tidy_groups(p);
    lemma_tidy_groups(q);
    assert forall|names: Names| #[trigger] tidy_groups(p).contains(names) <==> tidy_groups(
        q,
    ).contains(names) by {
        if tidy_groups(p).contains(names) {
            lemma_tidy_among(p, q, names);
        }
        if tidy_groups(q).contains(names) {
            lemma_tidy_among(q, p, names);
        }
    }
    law_ascending_unique::<Vec<String>>(tidy_groups(p), tidy_groups(q));
}

// ─── What a strategy collects together ───────────────────────────────────────

/// Whether all events of a list are events of another.
pub open spec fn within(few: Names, many: Names) -> bool {
    forall|name: Seq<char>| #[trigger] few.contains(name) ==> many.contains(name)
}

/// Whether a list is one that a strategy collects together: a single event, the
/// events of a metric, or those of a whole metric group.
pub open spec fn wanted(groups: Seq<Seq<Names>>, by: CollectBy, names: Names) -> bool {
    names.len() > 0 && match by {
        CollectBy::Event => names.len() == 1 && exists|g: int, m: int|
            0 <= g < groups.len() && 0 <= m < groups[g].len() && #[trigger] groups[g][m].contains(
                names[0],
            ),
        CollectBy::Metric => exists|g: int|
            0 <= g < groups.len() && #[trigger] groups[g].contains(names),
        CollectBy::Group => exists|g: int|
            0 <= g < groups.len() && names == (#[trigger] groups[g]).flatten(),
    }
}

/// Whether a list has the events of one that a strategy collects together.
pub open spec fn stands_for_wanted(groups: Seq<Seq<Names>>, by: CollectBy, names: Names) -> bool {
    exists|w: Names| #[trigger] wanted(groups, by, w) && within(names, w) && within(w, names)
}

/// Every list that is asked for is one that the strategy collects together.
proof fn lemma_asked_wanted(groups: Seq<Seq<Names>>, by: CollectBy, i: int)
    requires
        0 <= i < event_list(groups, by).len(),
    ensures
        stands_for_wanted(groups, by, event_list(groups, by)[i]),
{
    let list = event_list(groups, by);
    let flat = groups.flatten();
    let keep = |names: Names| names.len() > 0;
    match by {
        CollectBy::Event => {
            let all = sorted_distinct::<String>(flat.flatten());
            law_sorted_distinct::<String>(flat.flatten());
            let name = all[i];
            assert(list[i] == seq![name]);
            assert(all.contains(name));
            let j = lemma_flatten_part(flat, name);
            assert(flat.contains(flat[j]));
            let g = lemma_flatten_part(groups, flat[j]);
            let m = groups[g].index_of(flat[j]);
            assert(groups[g][m].contains(list[i][0]));
            assert(wanted(groups, by, list[i]));
        },
        CollectBy::Metric => {
            let names = flat.filter(keep)[i];
            law_sorted_distinct::<String>(names);
            assert(flat.filter(keep).contains(names));
            flat.lemma_filter_contains_rev(keep, names);
            flat.lemma_filter_pred(keep, i);
            let g = lemma_flatten_part(groups, names);
            assert(groups[g].contains(names));
            assert(wanted(groups, by, names));
            assert(list[i] == sorted_distinct::<String>(names));
        },
        CollectBy::Group => {
            let lists = groups.map_values(|group: Seq<Names>| group.flatten());
            let names = lists.filter(keep)[i];
            law_sorted_distinct::<String>(names);
            assert(lists.filter(keep).contains(names));
            lists.lemma_filter_contains_rev(keep, names);
            lists.lemma_filter_pred(keep, i);
            let g = lists.index_of(names);
            assert(names == groups[g].flatten());
            assert(wanted(groups, by, names));
            assert(list[i] == sorted_distinct::<String>(names));
        },
    }
}

/// Every list that the strategy collects together is asked for.
proof fn lemma_wanted_asked(groups: Seq<Seq<Names>>, by: CollectBy, w: Names) -> (i: int)
    requires
        wanted(groups, by, w),
    ensures
        0 <= i < event_list(groups, by).len(),
        within(w, event_list(groups, by)[i]),
        within(event_list(groups, by)[i], w),
{
    let list = event_list(groups, by);
    let flat = groups.flatten();
    match by {
        CollectBy::Event => {
            let (g, m) = choose|g: int, m: int|
                0 <= g < groups.len() && 0 <= m < groups[g].len()
                    && #[trigger] groups[g][m].contains(w[0]);
            let all = sorted_distinct::<String>(flat.flatten());
            law_sorted_distinct::<String>(flat.flatten());
            assert(groups[g].contains(groups[g][m]));
            lemma_flatten_has(groups, g, groups[g][m]);
            lemma_flatten_has(flat, flat.index_of(groups[g][m]), w[0]);
            assert(all.contains(w[0]));
            let i = all.index_of(w[0]);
            assert(list[i] == seq![w[0]]);
            assert(w =~= seq![w[0]]);
            i
        },
        CollectBy::Metric => {
            let g = choose|g: int| 0 <= g < groups.len() && #[trigger] groups[g].contains(w);
            lemma_flatten_has(groups, g, w);
            law_sorted_distinct::<String>(w);
            let i = lemma_tidied_place(flat, flat.index_of(w));
            assert(list[i] == sorted_distinct::<String>(w));
            i
        },
        CollectBy::Group => {
            let g = choose|g: int| 0 <= g < groups.len() && w == (#[trigger] groups[g]).flatten();
            let lists = groups.map_values(|group: Seq<Names>| group.flatten());
            assert(lists[g] == w);
            law_sorted_distinct::<String>(w);
            let i = lemma_tidied_place(lists, g);
            assert(list[i] == sorted_distinct::<String>(w));
            i
        },
    }
}

/// Whether one of the lists has all events of a list.
pub open spec fn held(lists: Seq<Names>, w: Names) -> bool {
    exists|names: Names| lists.contains(names) && #[trigger] within(w, names)
}

proof fn lemma_within_trans(a: Names, b: Names, c: Names)
    requires
        within(a, b),
        within(b, c),
    ensures
        within(a, c),
{
}

proof fn lemma_merged_stands(groups: Seq<Seq<Names>>, by: CollectBy, names: Names)
    requires
        merged_groups(event_list(groups, by)).contains(names),
    ensures
        ascending::<String>(names),
        stands_for_wanted(groups, by, names),
{
    let list = event_list(groups, by);
    law_merged_groups(list);
    let i = choose|i: int|
        0 <= i < list.len() && names == sorted_distinct::<String>(#[trigger] list[i]);
    law_sorted_distinct::<String>(list[i]);
    lemma_asked_wanted(groups, by, i);
    let w = choose|w: Names| #[trigger]
        wanted(groups, by, w) && within(list[i], w) && within(w, list[i]);
    assert(within(names, list[i]) && within(list[i], names));
    lemma_within_trans(names, list[i], w);
    lemma_within_trans(w, list[i], names);
    assert(wanted(groups, by, w));
}

proof fn lemma_merged_holds(groups: Seq<Seq<Names>>, by: CollectBy, w: Names)
    requires
        wanted(groups, by, w),
    ensures
        held(merged_groups(event_list(groups, by)), w),
{
    let list = event_list(groups, by);
    let merged = merged_groups(list);
    let i = lemma_wanted_asked(groups, by, w);
    assert(kept_together(merged, list[i])) by {
        law_merged_groups(list);
    }
    let cover = choose|cover: Names| merged.contains(cover) && #[trigger] covers(cover, list[i]);
    assert(within(list[i], cover)) by {
        assert forall|name: Seq<char>| #[trigger] list[i].contains(name) implies cover.contains(
            name,
        ) by {
            let k = list[i].index_of(name);
            assert(cover.contains(list[i][k]));
        }
    }
    lemma_within_trans(w, list[i], cover);
}

proof fn lemma_merged_apart(groups: Seq<Seq<Names>>, by: CollectBy, a: Names, b: Names)
    requires
        merged_groups(event_list(groups, by)).contains(a),
        merged_groups(event_list(groups, by)).contains(b),
        a != b,
    ensures
        !within(b, a),
{
    law_merged_groups(event_list(groups, by));
    assert(!covers(a, b));
    if within(b, a) {
        assert(covers(a, b)) by {
            assert forall|k: int| 0 <= k < b.len() implies a.contains(#[trigger] b[k]) by {
                assert(b.contains(b[k]));
            }
        }
    }
}

/// A schedule has the groups that a strategy collects together, in ascending
/// order, each once, with the events of each in ascending order, each once.
pub proof fn law_scheduled(
    groups: Vec<Vec<Vec<String>>>,
    by: CollectBy,
    max_events: usize,
    scheduler: EventScheduler,
    names: Names,
)
    requires
        call_ensures(EventScheduler::new, (groups, by, max_events), Ok(scheduler)),
    ensures
        scheduler.max_events == max_events,
        ascending::<Vec<String>>(scheduler.optimized_event_groups.deep_view()),
        scheduler.optimized_event_groups.deep_view().contains(names) ==> ascending::<String>(names)
            && names.len() <= max_events && stands_for_wanted(groups.deep_view(), by, names),
{
    let asked = groups.deep_view();
    let merged = merged_groups(event_list(asked, by));
    law_merged_groups(event_list(asked, by));
    if merged.contains(names) {
        lemma_merged_stands(asked, by, names);
        lemma_first_too_large(merged, max_events as nat);
        let i = merged.index_of(names);
        assert(merged[i].len() <= max_events);
    }
}

/// Whatever a strategy collects together is collected in one group of a
/// schedule: a single event, all events of a metric, or all events of a metric
/// group.
pub proof fn law_collected_together(
    groups: Vec<Vec<Vec<String>>>,
    by: CollectBy,
    max_events: usize,
    scheduler: EventScheduler,
    w: Names,
)
    requires
        call_ensures(EventScheduler::new, (groups, by, max_events), Ok(scheduler)),
        wanted(groups.deep_view(), by, w),
    ensures
        held(scheduler.optimized_event_groups.deep_view(), w),
{
    lemma_merged_holds(groups.deep_view(), by, w);
}

/// No group of a schedule has all the events of another.
pub proof fn law_none_within_another(
    groups: Vec<Vec<Vec<String>>>,
    by: CollectBy,
    max_events: usize,
    scheduler: EventScheduler,
    a: Names,
    b: Names,
)
    requires
        call_ensures(EventScheduler::new, (groups, by, max_events), Ok(scheduler)),
        scheduler.optimized_event_groups.deep_view().contains(a),
        scheduler.optimized_event_groups.deep_view().contains(b),
        a != b,
    ensures
        !within(b, a),
{
    lemma_merged_apart(groups.deep_view(), by, a, b);
}

/// There is no schedule exactly if what is to be collected together has more
/// different events than there are counters; then such a group is reported, one
/// that has all events of no other.
pub proof fn law_refused(
    groups: Vec<Vec<Vec<String>>>,
    by: CollectBy,
    max_events: usize,
    out: Result<EventScheduler, GroupScheduleError>,
    w: Names,
)
    requires
        call_ensures(EventScheduler::new, (groups, by, max_events), out),
        wanted(groups.deep_view(), by, w),
    ensures
        w.to_set().len() > max_events ==> out is Err,
        out matches Err(e) ==> {
            let names = e.event_names.deep_view();
            &&& e.required == names.len() && e.available == max_events && names.len() > max_events
            &&& ascending::<String>(names)
            &&& stands_for_wanted(groups.deep_view(), by, names)
            &&& within(names, w) ==> within(w, names)
        },
{
    let asked = groups.deep_view();
    let merged = merged_groups(event_list(asked, by));
    lemma_first_too_large(merged, max_events as nat);
    lemma_merged_holds(asked, by, w);
    let cover = choose|cover: Names| merged.contains(cover) && #[trigger] within(w, cover);
    match out {
        Ok(_) => {
            lemma_merged_stands(asked, by, cover);
            lemma_ascending_distinct(cover);
            cover.unique_seq_to_set();
            let i = merged.index_of(cover);
            assert(merged[i].len() <= max_events);
            assert(w.to_set().subset_of(cover.to_set())) by {
                assert forall|name: Seq<char>| w.to_set().contains(name) implies cover.to_set().contains(
                    name,
                ) by {
                    assert(w.contains(name));
                }
            }
            vstd::set_lib::lemma_len_subset(w.to_set(), cover.to_set());
        },
        Err(e) => {
            let names = e.event_names.deep_view();
            assert(merged.contains(names));
            lemma_merged_stands(asked, by, names);
            if within(names, w) {
                lemma_within_trans(names, w, cover);
                if cover != names {
                    lemma_merged_apart(asked, by, cover, names);
                }
            }
        },
    }
}

/// Under the strategy of single events every group of a schedule has one event.
pub proof fn law_single_events(
    groups: Vec<Vec<Vec<String>>>,
    max_events: usize,
    scheduler: EventScheduler,
    names: Names,
)
    requires
        call_ensures(EventScheduler::new, (groups, CollectBy::Event, max_events), Ok(scheduler)),
        scheduler.optimized_event_groups.deep_view().contains(names),
    ensures
        names.len() == 1,
{
    lemma_merged_stands(groups.deep_view(), CollectBy::Event, names);
    let w = choose|w: Names| #[trigger]
        wanted(groups.deep_view(), CollectBy::Event, w) && within(names, w) && within(w, names);
    assert(w.contains(w[0]));
    assert(names.contains(w[0]));
    if names.len() > 1 {
        assert(names.contains(names[0]) && names.contains(names[1]));
        assert(w.contains(names[0]) && w.contains(names[1]));
        assert(String::rank(names[0], names[1]));
    }
}

/// Rounds fill up before the next one starts: they hold the groups in order, the
/// first group of a round no longer fitted into the round before it, and the
/// groups that joined a round still fitted.
pub proof fn law_rounds_fill(event_groups: &Vec<Vec<String>>, max_events: usize, chunks: Vec<
    Vec<Vec<String>>,
>)
    requires
        call_ensures(make_chunks, (event_groups, max_events), chunks),
    ensures
        chunks.deep_view().flatten() == event_groups.deep_view(),
        forall|k: int|
            0 <= k < chunks.deep_view().len() ==> {
                let round = #[trigger] chunks.deep_view()[k];
                &&& round.len() > 0
                &&& round.len() > 1 ==> round.flatten().to_set().len() <= max_events
                &&& k + 1 < chunks.deep_view().len() ==> round.push(
                    chunks.deep_view()[k + 1][0],
                ).flatten().to_set().len() > max_events
            },
{
    lemma_rounds_fill(event_groups.deep_view(), max_events as nat);
    law_rounds(event_groups.deep_view(), max_events as nat);
}

proof fn lemma_rounds_fill(groups: Seq<Names>, max_events: nat)
    ensures
        forall|k: int|
            0 <= k < rounds_of(groups, max_events).len() ==> {
                let round = #[trigger] rounds_of(groups, max_events)[k];
                &&& round.len() > 0
                &&& round.len() > 1 ==> event_count(round) <= max_events
                &&& k + 1 < rounds_of(groups, max_events).len() ==> event_count(
                    round.push(rounds_of(groups, max_events)[k + 1][0]),
                ) > max_events
            },
    decreases groups.len(),
{
    let rounds = rounds_of(groups, max_events);
    if groups.len() > 0 {
        let rest = groups.drop_last();
        let front = rounds_of(rest, max_events);
        let last = groups.last();
        lemma_rounds_fill(rest, max_events);
        let joined = front.last().push(last);
        if front.len() > 0 && event_count(joined) <= max_events {
            let at = front.len() - 1;
            assert(front[at].len() > 0);
            assert forall|k: int| 0 <= k < rounds.len() implies {
                let round = #[trigger] rounds[k];
                &&& round.len() > 0
                &&& round.len() > 1 ==> event_count(round) <= max_events
                &&& k + 1 < rounds.len() ==> event_count(round.push(rounds[k + 1][0])) > max_events
            } by {
                if k < at {
                    assert(rounds[k] == front[k]);
                    assert(rounds[k + 1][0] == front[k + 1][0]);
                }
            }
        } else {
            assert forall|k: int| 0 <= k < rounds.len() implies {
                let round = #[trigger] rounds[k];
                &&& round.len() > 0
                &&& round.len() > 1 ==> event_count(round) <= max_events
                &&& k + 1 < rounds.len() ==> event_count(round.push(rounds[k + 1][0])) > max_events
            } by {
                if k < front.len() {
                    assert(rounds[k] == front[k]);
                    if k + 1 < front.len() {
                        assert(rounds[k + 1] == front[k + 1]);
                    } else {
                        assert(rounds[k + 1] == seq![last]);
                    }
                }
            }
        }
    }
}

// ─── What each step of scheduling gives ──────────────────────────────────────

/// A strategy has one of three names, in any case.
pub proof fn law_strategy(s: &str, out: Option<CollectBy>, small: Seq<char>, by: CollectBy, name: String)
    requires
        call_ensures(CollectBy::from_str, (s,), out),
        is_ascii_chars(s@),
        small == ascii_lowered(s@),
        call_ensures(CollectBy::name, (&by,), name),
    ensures
        out == Some(CollectBy::Event) <==> small == seq!['n', 'o', 'n', 'e'],
        out == Some(CollectBy::Metric) <==> small == seq!['m', 'e', 't', 'r', 'i', 'c'],
        out == Some(CollectBy::Group) <==> small == seq!['g', 'r', 'o', 'u', 'p'],
        name@ == match by {
            CollectBy::Event => seq!['n', 'o', 'n', 'e'],
            CollectBy::Metric => seq!['m', 'e', 't', 'r', 'i', 'c'],
            CollectBy::Group => seq!['g', 'r', 'o', 'u', 'p'],
        },
{
    reveal_strlit("none");
    reveal_strlit("metric");
    reveal_strlit("group");
    assert("none"@ =~= seq!['n', 'o', 'n', 'e']);
    assert("metric"@ =~= seq!['m', 'e', 't', 'r', 'i', 'c']);
    assert("group"@ =~= seq!['g', 'r', 'o', 'u', 'p']);
    assert(seq!['n', 'o', 'n', 'e'].len() == 4);
    assert(seq!['m', 'e', 't', 'r', 'i', 'c'].len() == 6);
    assert(seq!['g', 'r', 'o', 'u', 'p'].len() == 5);
}

/// Whether a list has the events of another, in ascending order and each once.
pub open spec fn tidied(names: Names, from: Names) -> bool {
    &&& forall|i: int, j: int|
        0 <= i < j < names.len() ==> #[trigger] String::rank(names[i], names[j]) && names[i]
            != names[j]
    &&& within(names, from)
    &&& within(from, names)
}

/// Names asked for each by itself are those that were in the list.
proof fn lemma_each_alone(from: Names, names: Names, deep: Seq<Names>, i: int, j: int, name: Seq<char>)
    requires
        names == sorted_distinct::<String>(from),
        deep.len() == names.len(),
        forall|k: int| 0 <= k < deep.len() ==> #[trigger] deep[k] == seq![names[k]],
    ensures
        0 <= i < deep.len() ==> deep[i].len() == 1,
        0 <= i < j < deep.len() ==> String::rank(deep[i][0], deep[j][0]) && deep[i][0]
            != deep[j][0],
        deep.contains(seq![name]) <==> from.contains(name),
{
    law_sorted_distinct::<String>(from);
    if 0 <= i < j < deep.len() {
        assert(deep[i] == seq![names[i]] && deep[j] == seq![names[j]]);
        assert(String::rank(names[i], names[j]) && names[i] != names[j]);
    }
    if deep.contains(seq![name]) {
        let k = deep.index_of(seq![name]);
        assert(deep[k] == seq![names[k]]);
        assert(seq![name][0] == seq![names[k]][0]);
        assert(names.contains(name));
    }
    if names.contains(name) {
        let k = names.index_of(name);
        assert(deep[k] == seq![name]);
    }
}

/// By events, every event is asked for by itself, in ascending order; by metrics,
/// the events of each metric that has any, and by groups those of each group that
/// has any, in order.
pub proof fn law_event_list(
    groups: &Vec<Vec<Vec<String>>>,
    by: CollectBy,
    out: Vec<Vec<String>>,
    kept: Seq<Names>,
    i: int,
    j: int,
    name: Seq<char>,
)
    requires
        call_ensures(generate_event_list, (groups, by), out),
        by is Metric ==> kept == groups.deep_view().flatten().filter(
            |names: Names| names.len() > 0,
        ),
        by is Group ==> kept == Seq::new(
            groups.deep_view().len(),
            |g: int| groups.deep_view()[g].flatten(),
        ).filter(|names: Names| names.len() > 0),
    ensures
        by is Event ==> {
            &&& 0 <= i < out.len() ==> out.deep_view()[i].len() == 1
            &&& 0 <= i < j < out.len() ==> String::rank(
                out.deep_view()[i][0],
                out.deep_view()[j][0],
            ) && out.deep_view()[i][0] != out.deep_view()[j][0]
            &&& out.deep_view().contains(seq![name])
                <==> groups.deep_view().flatten().flatten().contains(name)
        },
        !(by is Event) ==> out.len() == kept.len() && (0 <= i < kept.len() ==> tidied(
            out.deep_view()[i],
            kept[i],
        )),
{
    let all = groups.deep_view();
    let deep = out.deep_view();
    assert(deep.len() == out.len());
    match by {
        CollectBy::Event => {
            let names = sorted_distinct::<String>(all.flatten().flatten());
            lemma_each_alone(all.flatten().flatten(), names, deep, i, j, name);
        },
        CollectBy::Metric => {
            if 0 <= i < kept.len() {
                law_sorted_distinct::<String>(kept[i]);
            }
        },
        CollectBy::Group => {
            let f = |group: Seq<Names>| group.flatten();
            assert(all.map_values(f) =~= Seq::new(all.len(), |g: int| all[g].flatten()));
            if 0 <= i < kept.len() {
                law_sorted_distinct::<String>(kept[i]);
            }
        },
    }
}

/// Of groups those stay that no other has all events of, each once, in ascending
/// order, with their events in ascending order.
pub proof fn law_optimized(
    groups: Vec<Vec<String>>,
    out: Vec<Vec<String>>,
    i: int,
    j: int,
    g: int,
)
    requires
        call_ensures(optimize_event_groups, (groups,), out),
    ensures
        0 <= i < j < out.len() ==> Vec::<String>::rank(out.deep_view()[i], out.deep_view()[j]),
        0 <= i < out.len() && 0 <= j < out.len() && i != j ==> !within(
            out.deep_view()[i],
            out.deep_view()[j],
        ),
        0 <= i < out.len() ==> exists|k: int|
            0 <= k < groups.len() && tidied(out.deep_view()[i], #[trigger] groups.deep_view()[k]),
        0 <= g < groups.len() ==> held(out.deep_view(), groups.deep_view()[g]),
{
    let given = groups.deep_view();
    let merged = out.deep_view();
    assert(given.len() == groups.len());
    assert(merged.len() == out.len());
    if 0 <= i < out.len() {
        assert(merged.contains(merged[i]));
        lemma_optimized_from(given, merged[i]);
        if 0 <= j < out.len() && i != j {
            lemma_optimized_order(given, i, j);
            assert(merged.contains(merged[j]));
            lemma_optimized_apart(given, merged[i], merged[j]);
        }
    }
    if 0 <= g < groups.len() {
        lemma_optimized_held(given, g);
    }
}

proof fn lemma_tidied(names: Names)
    ensures
        tidied(sorted_distinct::<String>(names), names),
{
    law_sorted_distinct::<String>(names);
}

proof fn lemma_optimized_from(given: Seq<Names>, names: Names)
    requires
        merged_groups(given).contains(names),
    ensures
        exists|k: int| 0 <= k < given.len() && tidied(names, #[trigger] given[k]),
{
    law_merged_groups(given);
    let k = choose|k: int|
        0 <= k < given.len() && names == sorted_distinct::<String>(#[trigger] given[k]);
    lemma_tidied(given[k]);
}

proof fn lemma_optimized_order(given: Seq<Names>, i: int, j: int)
    requires
        0 <= i < merged_groups(given).len(),
        0 <= j < merged_groups(given).len(),
        i != j,
    ensures
        merged_groups(given)[i] != merged_groups(given)[j],
        i < j ==> Vec::<String>::rank(merged_groups(given)[i], merged_groups(given)[j]),
{
    law_merged_groups(given);
    let merged = merged_groups(given);
    let (low, high) = if i < j {
        (i, j)
    } else {
        (j, i)
    };
    assert(Vec::<String>::rank(merged[low], merged[high]) && merged[low] != merged[high]);
}

proof fn lemma_optimized_apart(given: Seq<Names>, a: Names, b: Names)
    requires
        merged_groups(given).contains(a),
        merged_groups(given).contains(b),
        a != b,
    ensures
        !within(a, b),
{
    law_merged_groups(given);
    assert(!covers(b, a));
    if within(a, b) {
        assert forall|k: int| 0 <= k < a.len() implies b.contains(#[trigger] a[k]) by {
            assert(a.contains(a[k]));
        }
        assert(covers(b, a));
    }
}

proof fn lemma_optimized_held(given: Seq<Names>, g: int)
    requires
        0 <= g < given.len(),
    ensures
        held(merged_groups(given), given[g]),
{
    let merged = merged_groups(given);
    assert(kept_together(merged, given[g])) by {
        law_merged_groups(given);
    }
    let cover = choose|cover: Names| merged.contains(cover) && #[trigger] covers(cover, given[g]);
    assert forall|name: Seq<char>| #[trigger] given[g].contains(name) implies cover.contains(
        name,
    ) by {
        let k = given[g].index_of(name);
        assert(cover.contains(given[g][k]));
    }
    assert(within(given[g], cover));
}

/// With multiplexing the groups are captured in rounds that fit the counters;
/// without, all in one round if their events fit the counters together, and else
/// not at all. Where there are no groups there are no rounds.
pub proof fn law_planned(
    scheduler: &EventScheduler,
    multiplex: bool,
    out: Result<Vec<Vec<Vec<String>>>, GroupScheduleError>,
    split: Vec<Vec<Vec<String>>>,
    groups: Seq<Names>,
    name: Seq<char>,
    i: int,
    j: int,
)
    requires
        call_ensures(EventScheduler::plan_rounds, (scheduler, multiplex), out),
        call_ensures(EventScheduler::get_event_group_chunks, (scheduler, true), split),
        groups == scheduler.optimized_event_groups.deep_view(),
    ensures
        multiplex ==> (out matches Ok(rounds) && rounds.deep_view() == split.deep_view()),
        split.deep_view().flatten() == groups,
        !multiplex ==> (out is Ok <==> groups.flatten().to_set().len() <= scheduler.max_events),
        !multiplex && groups.len() == 0 ==> (out matches Ok(rounds) ==> rounds.len() == 0),
        !multiplex && groups.len() > 0 ==> (out matches Ok(rounds) ==> rounds.len() == 1
            && rounds.deep_view()[0] == groups),
        out matches Err(e) ==> {
            let names = e.event_names.deep_view();
            &&& e.required == names.len() && e.available == scheduler.max_events
            &&& names.contains(name) <==> groups.flatten().contains(name)
            &&& 0 <= i < j < names.len() ==> String::rank(names[i], names[j]) && names[i]
                != names[j]
        },
{
    law_rounds(groups, scheduler.max_events as nat);
    law_sorted_distinct::<String>(groups.flatten());
    if let Ok(rounds) = out {
        assert(rounds.deep_view().len() == rounds.len());
    }
}

/// Split, the groups come in the rounds that packing them gives; not split, all
/// of them come in one.
pub proof fn law_chunks(
    scheduler: &EventScheduler,
    whole: Vec<Vec<Vec<String>>>,
    split: Vec<Vec<Vec<String>>>,
    packed: Vec<Vec<Vec<String>>>,
)
    requires
        call_ensures(EventScheduler::get_event_group_chunks, (scheduler, false), whole),
        call_ensures(EventScheduler::get_event_group_chunks, (scheduler, true), split),
        call_ensures(
            make_chunks,
            (&scheduler.optimized_event_groups, scheduler.max_events),
            packed,
        ),
    ensures
        whole.len() == 1 && whole.deep_view()[0] == scheduler.optimized_event_groups.deep_view(),
        split.deep_view() == packed.deep_view(),
{
    assert(whole.deep_view().len() == whole.len());
}

/// What the error of a schedule says: how many events there are, and how many
/// counters.
pub proof fn law_message(e: &GroupScheduleError, out: String)
    requires
        call_ensures(GroupScheduleError::message, (e,), out),
    ensures
        out@ == "event group requires "@ + decimal_text(e.required as nat)
            + " unique events but only "@ + decimal_text(e.available as nat)
            + " PMU counters available"@,
{
}

/// A schedule has the optimized groups of what the strategy asks for; where one
/// of them has more events than there are counters, the first such one is
/// reported.
pub proof fn law_first_refused(
    groups: Vec<Vec<Vec<String>>>,
    by: CollectBy,
    max_events: usize,
    out: Result<EventScheduler, GroupScheduleError>,
    list: Vec<Vec<String>>,
    optimized: Vec<Vec<String>>,
    i: int,
)
    requires
        call_ensures(EventScheduler::new, (groups, by, max_events), out),
        call_ensures(generate_event_list, (&groups, by), list),
        call_ensures(optimize_event_groups, (list,), optimized),
        0 <= i < optimized.len(),
    ensures
        out matches Ok(scheduler) ==> scheduler.optimized_event_groups.deep_view()
            == optimized.deep_view() && optimized.deep_view()[i].len() <= max_events,
        optimized.deep_view()[i].len() > max_events && (forall|j: int|
            0 <= j < i ==> (#[trigger] optimized.deep_view()[j]).len() <= max_events) ==> (
        out matches Err(e) && e.event_names.deep_view() == optimized.deep_view()[i]),
{
    let merged = optimized.deep_view();
    assert(merged.len() == optimized.len());
    lemma_first_too_large(merged, max_events as nat);
    if merged[i].len() > max_events && (forall|j: int|
        0 <= j < i ==> (#[trigger] merged[j]).len() <= max_events) {
        lemma_too_large_at(merged, max_events as nat, i);
    }
}

proof fn lemma_too_large_at(groups: Seq<Names>, max_events: nat, i: int)
    requires
        0 <= i < groups.len(),
        groups[i].len() > max_events,
        forall|j: int| 0 <= j < i ==> (#[trigger] groups[j]).len() <= max_events,
    ensures
        first_too_large(groups, max_events) == Some(groups[i]),
    decreases i,
{
    if i > 0 {
        let rest = groups.drop_first();
        assert(groups[0].len() <= max_events);
        assert forall|j: int| 0 <= j < i - 1 implies (#[trigger] rest[j]).len() <= max_events by {
            assert(groups[j + 1].len() <= max_events);
        }
        lemma_too_large_at(rest, max_events, i - 1);
    }
}

/// The names of the strategies, of any text. A text is read as its small letters
/// are.
pub proof fn law_strategy_of_text(s: &str, out: Option<CollectBy>, lowered: &str, same: Option<CollectBy>)
    requires
        call_ensures(CollectBy::from_lowercase, (s,), out),
        lowered@ == lowercase_of(s@),
        call_ensures(CollectBy::from_lowercase, (lowered,), same),
    ensures
        out == Some(CollectBy::Event) <==> s@ == seq!['n', 'o', 'n', 'e'],
        out == Some(CollectBy::Metric) <==> s@ == seq!['m', 'e', 't', 'r', 'i', 'c'],
        out == Some(CollectBy::Group) <==> s@ == seq!['g', 'r', 'o', 'u', 'p'],
        forall|read: Option<CollectBy>| #[trigger]
            call_ensures(CollectBy::from_str, (s,), read) ==> read == same,
{
    reveal_strlit("none");
    reveal_strlit("metric");
    reveal_strlit("group");
    assert("none"@ =~= seq!['n', 'o', 'n', 'e']);
    assert("metric"@ =~= seq!['m', 'e', 't', 'r', 'i', 'c']);
    assert("group"@ =~= seq!['g', 'r', 'o', 'u', 'p']);
    assert(seq!['n', 'o', 'n', 'e'].len() == 4);
    assert(seq!['m', 'e', 't', 'r', 'i', 'c'].len() == 6);
    assert(seq!['g', 'r', 'o', 'u', 'p'].len() == 5);
}

} // verus!
