//! Counter values of event groups.
use vstd::prelude::*;

use crate::name_map::{
    gathered, has_name, law_gathered, law_value_of, law_with_value, lemma_place_of, lemma_value_at,
    names_distinct, place_of, value_of, with_value, NameMap,
};
use crate::scheduler::Names;
use crate::text::{copy_texts, same_text};

verus! {

/// The values of event groups, each group under the list of its event names. A
/// value is missing where a counter could not be read.
#[derive(Debug)]
pub struct EventResults<T> {
    entries: Vec<(Vec<String>, Vec<Option<T>>)>,
}

/// Whether two lists of names are equal.
fn same_names(a: &Vec<String>, b: &Vec<String>) -> (same: bool)
    ensures
        same == (a.deep_view() == b.deep_view()),
{
    if a.len() != b.len() {
        assert(a.deep_view().len() != b.deep_view().len());
        return false;
    }
    for i in 0..a.len()
        invariant
            a.len() == b.len(),
            forall|k: int| 0 <= k < i ==> a.deep_view()[k] == b.deep_view()[k],
    {
        if !same_text(a[i].as_str(), b[i].as_str()) {
            assert(a.deep_view()[i as int] != b.deep_view()[i as int]);
            return false;
        }
    }
    assert(a.deep_view() =~= b.deep_view());
    true
}

impl<T> EventResults<T> {
    /// The groups as pairs of their names and values.
    pub closed spec fn view(&self) -> Seq<(Names, Seq<Option<T>>)> {
        self.entries@.map_values(|e: (Vec<String>, Vec<Option<T>>)| (e.0.deep_view(), e.1@))
    }

    #[verifier::type_invariant]
    spec fn distinct(self) -> bool {
        names_distinct(self.view())
    }

    /// No groups.
    pub fn new() -> (out: Self)
        ensures
            out@ == Seq::<(Names, Seq<Option<T>>)>::empty(),
    {
        let entries: Vec<(Vec<String>, Vec<Option<T>>)> = Vec::new();
        proof {
            assert(entries@.map_values(
                |e: (Vec<String>, Vec<Option<T>>)| (e.0.deep_view(), e.1@),
            ) =~= Seq::empty());
        }
        EventResults { entries }
    }

    /// The number of groups; no two of them have the same names.
    pub fn len(&self) -> (n: usize)
        ensures
            n == self@.len(),
            names_distinct(self@),
    {
        proof {
            use_type_invariant(self);
        }
        self.entries.len()
    }

    /// The event names of a group.
    pub fn names_at(&self, i: usize) -> (names: &Vec<String>)
        requires
            i < self@.len(),
        ensures
            names.deep_view() == self@[i as int].0,
    {
        &self.entries[i].0
    }

    /// The values of a group.
    pub fn values_at(&self, i: usize) -> (values: &Vec<Option<T>>)
        requires
            i < self@.len(),
        ensures
            values@ == self@[i as int].1,
    {
        &self.entries[i].1
    }

    fn place(&self, names: &Vec<String>) -> (i: usize)
        ensures
            i == place_of(self@, names.deep_view()),
            i <= self@.len(),
            i < self@.len() <==> has_name(self@, names.deep_view()),
    {
        let ghost all = self@;
        let ghost key = names.deep_view();
        let mut i: usize = 0;
        assert(all.skip(0) =~= all);
        while i < self.entries.len() && !same_names(&self.entries[i].0, names)
            invariant
                all == self@,
                key == names.deep_view(),
                i <= self.entries.len(),
                place_of(all, key) == i + place_of(all.skip(i as int), key),
            decreases self.entries.len() - i,
        {
            assert(all.skip(i as int).drop_first() =~= all.skip(i + 1));
            i += 1;
        }
        proof {
            lemma_place_of(all, key);
        }
        i
    }

    /// The values of the group with these event names.
    pub fn get(&self, names: &Vec<String>) -> (out: Option<&Vec<Option<T>>>)
        ensures
            match out {
                Some(values) => value_of(self@, names.deep_view()) == Some(values@),
                None => value_of(self@, names.deep_view()) is None,
            },
    {
        let i = self.place(names);
        if i < self.entries.len() {
            Some(&self.entries[i].1)
        } else {
            None
        }
    }

    /// Sets the values of a group, in the place of the old ones if there were
    /// any.
    pub fn insert(&mut self, names: Vec<String>, values: Vec<Option<T>>)
        ensures
            final(self)@ == with_value(old(self)@, names.deep_view(), values@),
    {
        proof {
            use_type_invariant(&*self);
        }
        let ghost before = self@;
        let ghost key = names.deep_view();
        let ghost view = |e: (Vec<String>, Vec<Option<T>>)| (e.0.deep_view(), e.1@);
        let i = self.place(&names);
        proof {
            lemma_place_of(before, key);
            law_with_value(before, key, values@, key);
        }
        let mut entries: Vec<(Vec<String>, Vec<Option<T>>)> = Vec::new();
        proof {
            assert(entries@.map_values(view) =~= Seq::empty());
        }
        std::mem::swap(&mut entries, &mut self.entries);
        if i < entries.len() {
            entries[i] = (names, values);
        } else {
            entries.push((names, values));
        }
        proof {
            assert(entries@.map_values(view) =~= with_value(before, key, values@));
        }
        self.entries = entries;
    }

    /// Takes over all groups of other results.
    pub fn merge(&mut self, more: EventResults<T>)
        ensures
            final(self)@ == merged(old(self)@, more@),
    {
        let mut rest = more.entries;
        let ghost all = more@;
        let ghost start = self@;
        let ghost view = |e: (Vec<String>, Vec<Option<T>>)| (e.0.deep_view(), e.1@);
        assert(all.take(0) =~= Seq::empty());
        assert(rest@.map_values(view) =~= all.skip(0));
        while rest.len() > 0
            invariant
                view == (|e: (Vec<String>, Vec<Option<T>>)| (e.0.deep_view(), e.1@)),
                rest.len() <= all.len(),
                rest@.map_values(view) == all.skip(all.len() - rest.len()),
                self@ == merged(start, all.take(all.len() - rest.len())),
            decreases rest.len(),
        {
            let ghost done = all.len() - rest.len();
            let ghost before = rest@;
            let (names, values) = rest.remove(0);
            proof {
                assert(before.map_values(view)[0] == all[done]);
                assert(rest@.map_values(view) =~= all.skip(done + 1)) by {
                    assert(rest@ =~= before.remove(0));
                    assert forall|k: int| 0 <= k < rest@.len() implies rest@.map_values(view)[k]
                        == all.skip(done + 1)[k] by {
                        assert(before.map_values(view)[k + 1] == all.skip(done)[k + 1]);
                    }
                }
                assert(all.take(done + 1).drop_last() =~= all.take(done));
            }
            self.insert(names, values);
        }
        assert(all.take(all.len() as int) =~= all);
    }
}

impl<T: Clone> Clone for EventResults<T> {
    /// The same groups, with clones of their values.
    fn clone(&self) -> (out: Self)
        ensures
            out@.len() == self@.len(),
            forall|i: int|
                0 <= i < self@.len() ==> (#[trigger] out@[i]).0 == self@[i].0 && values_cloned(
                    self@[i].1,
                    out@[i].1,
                ),
    {
        let ghost all = self@;
        let mut entries: Vec<(Vec<String>, Vec<Option<T>>)> = Vec::new();
        for i in 0..self.entries.len()
            invariant
                all == self@,
                entries.len() == i,
                forall|k: int|
                    0 <= k < i ==> (#[trigger] entries@[k]).0.deep_view() == all[k].0
                        && values_cloned(all[k].1, entries@[k].1@),
        {
            let entry = &self.entries[i];
            let values = entry.1.clone();
            assert(values_cloned(all[i as int].1, values@));
            entries.push((copy_texts(&entry.0), values));
        }
        proof {
            use_type_invariant(self);
            let copied = entries@.map_values(
                |e: (Vec<String>, Vec<Option<T>>)| (e.0.deep_view(), e.1@),
            );
            assert forall|i: int, j: int| 0 <= i < j < copied.len() implies (
            #[trigger] copied[i]).0 != (#[trigger] copied[j]).0 by {
                assert(all[i].0 != all[j].0);
            }
        }
        EventResults { entries }
    }
}

/// Whether values are clones of others.
pub open spec fn values_cloned<T: Clone>(values: Seq<Option<T>>, out: Seq<Option<T>>) -> bool {
    &&& out.len() == values.len()
    &&& forall|k: int| 0 <= k < values.len() ==> cloned::<Option<T>>(values[k], #[trigger] out[k])
}

/// Results after those of other groups are put in one by one.
pub open spec fn merged<T>(
    base: Seq<(Names, Seq<Option<T>>)>,
    more: Seq<(Names, Seq<Option<T>>)>,
) -> Seq<(Names, Seq<Option<T>>)>
    decreases more.len(),
{
    if more.len() == 0 {
        base
    } else {
        with_value(merged(base, more.drop_last()), more.last().0, more.last().1)
    }
}

/// After a merge the groups of the added results have their new values, and
/// all other groups have their old ones.
pub proof fn law_merged<T>(
    base: Seq<(Names, Seq<Option<T>>)>,
    more: Seq<(Names, Seq<Option<T>>)>,
    names: Names,
)
    requires
        names_distinct(base),
        names_distinct(more),
    ensures
        names_distinct(merged(base, more)),
        value_of(merged(base, more), names) == match value_of(more, names) {
            Some(values) => Some(values),
            None => value_of(base, names),
        },
    decreases more.len(),
{
    if more.len() > 0 {
        let front = more.drop_last();
        let last = more.last();
        assert(names_distinct(front)) by {
            assert forall|i: int, j: int| 0 <= i < j < front.len() implies (#[trigger] front[i]).0
                != (#[trigger] front[j]).0 by {
                assert(more[i].0 != more[j].0);
            }
        }
        law_merged(base, front, names);
        law_with_value(merged(base, front), last.0, last.1, names);
        lemma_value_at(more, more.len() - 1);
        lemma_place_of(front, names);
        lemma_place_of(more, names);
        if names != last.0 {
            if has_name(more, names) {
                let i = place_of(more, names) as int;
                assert(front[i].0 == names);
                lemma_value_at(front, i);
                lemma_value_at(more, i);
            } else if has_name(front, names) {
                let i = place_of(front, names) as int;
                assert(more[i].0 == names);
            }
        }
    } else {
        assert(!has_name(more, names));
    }
}

// ─── Values by event ─────────────────────────────────────────────────────────

/// The events of a group with their values, as far as both lists go.
pub open spec fn pairs_of<T>(group: (Names, Seq<Option<T>>)) -> Seq<(Seq<char>, Option<T>)> {
    let n = if group.0.len() <= group.1.len() {
        group.0.len()
    } else {
        group.1.len()
    };
    Seq::new(n, |k: int| (group.0[k], group.1[k]))
}

/// The events of all groups with their values, one after another.
pub open spec fn all_pairs<T>(results: Seq<(Names, Seq<Option<T>>)>) -> Seq<
    (Seq<char>, Option<T>),
> {
    results.flat_map(|group: (Names, Seq<Option<T>>)| pairs_of(group))
}

/// The values by event: of an event that several groups have, the last one
/// counts.
pub open spec fn by_event<T>(results: Seq<(Names, Seq<Option<T>>)>) -> Seq<
    (Seq<char>, Option<T>),
> {
    gathered(all_pairs(results))
}

/// The values that are there, by event: of an event that several groups have,
/// the last value counts.
pub open spec fn known_values<T>(results: Seq<(Names, Seq<Option<T>>)>) -> Seq<(Seq<char>, T)> {
    gathered(known(all_pairs(results)))
}

/// The pairs that have a value.
pub open spec fn known<T>(pairs: Seq<(Seq<char>, Option<T>)>) -> Seq<(Seq<char>, T)> {
    pairs.filter(|p: (Seq<char>, Option<T>)| p.1 is Some).map_values(
        |p: (Seq<char>, Option<T>)| (p.0, p.1->0),
    )
}

proof fn lemma_known_push<T>(pairs: Seq<(Seq<char>, Option<T>)>, p: (Seq<char>, Option<T>))
    ensures
        known(pairs.push(p)) == match p.1 {
            Some(v) => known(pairs).push((p.0, v)),
            None => known(pairs),
        },
{
    let there = |p: (Seq<char>, Option<T>)| p.1 is Some;
    let value = |p: (Seq<char>, Option<T>)| (p.0, p.1->0);
    pairs.lemma_filter_push(p, there);
    assert(pairs.filter(there).push(p).map_values(value) =~= pairs.filter(there).map_values(
        value,
    ).push(value(p)));
}

/// Whether a pair of an event and a value is the last one of that event that has
/// a value.
pub open spec fn last_known<T>(
    pairs: Seq<(Seq<char>, Option<T>)>,
    i: int,
    name: Seq<char>,
    value: T,
) -> bool {
    &&& 0 <= i < pairs.len()
    &&& pairs[i] == (name, Some(value))
    &&& forall|j: int|
        i < j < pairs.len() && (#[trigger] pairs[j]).0 == name ==> pairs[j].1 is None
}

proof fn lemma_last_known<T>(pairs: Seq<(Seq<char>, Option<T>)>, name: Seq<char>)
    ensures
        names_distinct(gathered(known(pairs))),
        match value_of(gathered(known(pairs)), name) {
            Some(value) => exists|i: int| #[trigger] last_known(pairs, i, name, value),
            None => forall|i: int|
                0 <= i < pairs.len() && (#[trigger] pairs[i]).0 == name ==> pairs[i].1 is None,
        },
    decreases pairs.len(),
{
    reveal(Seq::filter);
    if pairs.len() == 0 {
        assert(known(pairs) =~= Seq::empty());
        assert(!has_name(gathered(known(pairs)), name));
    } else {
        let front = pairs.drop_last();
        let p = pairs.last();
        assert(pairs =~= front.push(p));
        lemma_last_known(front, name);
        lemma_known_push(front, p);
        if let Some(v) = p.1 {
            assert(known(front).push((p.0, v)).drop_last() =~= known(front));
            law_with_value(gathered(known(front)), p.0, v, name);
        }
        if p.0 == name && p.1 is Some {
            assert(last_known(pairs, pairs.len() - 1, name, p.1->0));
        } else {
            match value_of(gathered(known(front)), name) {
                Some(value) => {
                    let i = choose|i: int| #[trigger] last_known(front, i, name, value);
                    assert forall|j: int|
                        i < j < pairs.len() && (#[trigger] pairs[j]).0
                            == name implies pairs[j].1 is None by {
                        if j < front.len() {
                            assert(front[j] == pairs[j]);
                        }
                    }
                    assert(last_known(pairs, i, name, value));
                },
                None => {
                    assert forall|i: int|
                        0 <= i < pairs.len() && (#[trigger] pairs[i]).0
                            == name implies pairs[i].1 is None by {
                        if i < front.len() {
                            assert(front[i] == pairs[i]);
                        }
                    }
                },
            }
        }
    }
}

/// The value of an event is one that was captured, the last one that is there;
/// the values of several groups are never added up. An event has no value only
/// if none was captured.
pub proof fn law_known_values<T>(results: Seq<(Names, Seq<Option<T>>)>, name: Seq<char>)
    ensures
        match value_of(known_values(results), name) {
            Some(value) => exists|i: int| #[trigger]
                last_known(all_pairs(results), i, name, value),
            None => forall|i: int|
                0 <= i < all_pairs(results).len() && (#[trigger] all_pairs(results)[i]).0 == name
                    ==> all_pairs(results)[i].1 is None,
        },
{
    lemma_last_known(all_pairs(results), name);
}

impl<T: Copy> EventResults<T> {
    /// The values that are there, by event.
    pub fn event_values(&self) -> (out: NameMap<T>)
        ensures
            out@ == known_values(self@),
    {
        let ghost all = self@;
        let ghost f = |group: (Names, Seq<Option<T>>)| pairs_of(group);
        let mut out: NameMap<T> = NameMap::new();
        proof {
            reveal(Seq::filter);
            assert(all.take(0) =~= Seq::empty());
            assert(known(all.take(0).flat_map(f)) =~= Seq::empty());
        }
        let n = self.len();
        for i in 0..n
            invariant
                n == all.len(),
                all == self@,
                f == (|group: (Names, Seq<Option<T>>)| pairs_of(group)),
                out@ == gathered(known(all.take(i as int).flat_map(f))),
        {
            let names = self.names_at(i);
            let values = self.values_at(i);
            let ghost before = all.take(i as int).flat_map(f);
            let ghost pairs = pairs_of(all[i as int]);
            let mut k: usize = 0;
            assert(before + pairs.take(0) =~= before);
            while k < names.len() && k < values.len()
                invariant
                    k <= pairs.len(),
                    pairs == pairs_of((names.deep_view(), values@)),
                    out@ == gathered(known(before + pairs.take(k as int))),
                decreases pairs.len() - k,
            {
                let ghost done = before + pairs.take(k as int);
                let ghost p = pairs[k as int];
                proof {
                    assert(before + pairs.take(k + 1) =~= done.push(p));
                    lemma_known_push(done, p);
                    assert(p == (names@[k as int]@, values@[k as int]));
                }
                if let Some(v) = values[k] {
                    proof {
                        assert(known(done).push((p.0, v)).drop_last() =~= known(done));
                    }
                    out.insert(names[k].clone(), v);
                }
                k += 1;
            }
            proof {
                assert(pairs.take(k as int) =~= pairs);
                all.lemma_flat_map_take_append(f, i as int);
            }
        }
        assert(all.take(all.len() as int) =~= all);
        out
    }
}

impl<T> EventResults<T> {
    /// The value of an event: of an event that several groups have, the last
    /// one counts, there or not.
    pub fn last_value(&self, name: &str) -> (out: Option<&Option<T>>)
        ensures
            match out {
                Some(value) => value_of(by_event(self@), name@) == Some(*value),
                None => value_of(by_event(self@), name@) is None,
            },
    {
        let ghost all = self@;
        let ghost f = |group: (Names, Seq<Option<T>>)| pairs_of(group);
        let mut out: Option<&Option<T>> = None;
        proof {
            assert(all.take(0) =~= Seq::empty());
            assert(!has_name(gathered(all.take(0).flat_map(f)), name@));
        }
        let n = self.len();
        for i in 0..n
            invariant
                n == all.len(),
                all == self@,
                f == (|group: (Names, Seq<Option<T>>)| pairs_of(group)),
                match out {
                    Some(value) => value_of(gathered(all.take(i as int).flat_map(f)), name@)
                        == Some(*value),
                    None => value_of(gathered(all.take(i as int).flat_map(f)), name@) is None,
                },
        {
            let names = self.names_at(i);
            let values = self.values_at(i);
            let ghost before = all.take(i as int).flat_map(f);
            let ghost pairs = pairs_of(all[i as int]);
            let mut k: usize = 0;
            assert(before + pairs.take(0) =~= before);
            while k < names.len() && k < values.len()
                invariant
                    k <= pairs.len(),
                    pairs == pairs_of((names.deep_view(), values@)),
                    match out {
                        Some(value) => value_of(
                            gathered(before + pairs.take(k as int)),
                            name@,
                        ) == Some(*value),
                        None => value_of(gathered(before + pairs.take(k as int)), name@) is None,
                    },
                decreases pairs.len() - k,
            {
                let ghost done = before + pairs.take(k as int);
                let ghost p = pairs[k as int];
                proof {
                    assert(before + pairs.take(k + 1) =~= done.push(p));
                    assert(done.push(p).drop_last() =~= done);
                    law_gathered(done, name@);
                    law_with_value(gathered(done), p.0, p.1, name@);
                    assert(p == (names@[k as int]@, values@[k as int]));
                }
                if same_text(names[k].as_str(), name) {
                    out = Some(&values[k]);
                }
                k += 1;
            }
            proof {
                assert(pairs.take(k as int) =~= pairs);
                all.lemma_flat_map_take_append(f, i as int);
            }
        }
        assert(all.take(all.len() as int) =~= all);
        out
    }
}

// ─── Where values come from ──────────────────────────────────────────────────

/// Whether a group has an event and a value for it at a place.
pub open spec fn reported<T>(
    results: Seq<(Names, Seq<Option<T>>)>,
    g: int,
    k: int,
    name: Seq<char>,
) -> bool {
    &&& 0 <= g < results.len()
    &&& 0 <= k < results[g].0.len()
    &&& k < results[g].1.len()
    &&& results[g].0[k] == name
}

/// Whether a place in a group comes after another.
pub open spec fn comes_after(g: int, k: int, h: int, m: int) -> bool {
    h > g || (h == g && m > k)
}

proof fn lemma_pairs_split<T>(results: Seq<(Names, Seq<Option<T>>)>, g: int)
    requires
        0 <= g < results.len(),
    ensures
        all_pairs(results.take(g + 1)) == all_pairs(results.take(g)) + pairs_of(results[g]),
{
    results.lemma_flat_map_take_append(|group: (Names, Seq<Option<T>>)| pairs_of(group), g);
}

/// The places of a group among all pairs.
pub(crate) proof fn lemma_pair_place<T>(results: Seq<(Names, Seq<Option<T>>)>, n: int, g: int, k: int)
    requires
        0 <= g < n <= results.len(),
        0 <= k < pairs_of(results[g]).len(),
    ensures
        all_pairs(results.take(g)).len() + pairs_of(results[g]).len() <= all_pairs(
            results.take(n),
        ).len(),
        all_pairs(results.take(n))[all_pairs(results.take(g)).len() + k] == pairs_of(
            results[g],
        )[k],
    decreases n,
{
    lemma_pairs_split(results, n - 1);
    if g < n - 1 {
        lemma_pair_place(results, n - 1, g, k);
    }
}

/// The group and the place in it of one of all pairs.
pub(crate) proof fn lemma_place_found<T>(results: Seq<(Names, Seq<Option<T>>)>, n: int, i: int) -> (r: (
    int,
    int,
))
    requires
        0 <= n <= results.len(),
        0 <= i < all_pairs(results.take(n)).len(),
    ensures
        0 <= r.0 < n,
        0 <= r.1 < pairs_of(results[r.0]).len(),
        i == all_pairs(results.take(r.0)).len() + r.1,
        all_pairs(results.take(n))[i] == pairs_of(results[r.0])[r.1],
    decreases n,
{
    if n == 0 {
        assert(results.take(0) =~= Seq::empty());
        assert(all_pairs(results.take(0)) =~= Seq::empty());
        (0, 0)
    } else {
        lemma_pairs_split(results, n - 1);
        let front = all_pairs(results.take(n - 1));
        if i < front.len() {
            lemma_place_found(results, n - 1, i)
        } else {
            (n - 1, i - front.len())
        }
    }
}

/// A place in a group comes after another if its pair comes after the other's.
proof fn lemma_places_ordered<T>(
    results: Seq<(Names, Seq<Option<T>>)>,
    g: int,
    k: int,
    h: int,
    m: int,
)
    requires
        0 <= g < results.len(),
        0 <= h < results.len(),
        0 <= k < pairs_of(results[g]).len(),
        0 <= m < pairs_of(results[h]).len(),
    ensures
        all_pairs(results.take(g)).len() + k < all_pairs(results.take(h)).len() + m
            <==> comes_after(g, k, h, m),
{
    if g < h {
        lemma_pair_place(results, h, g, k);
    } else if h < g {
        lemma_pair_place(results, g, h, m);
    }
}

/// The value of an event is the last one that was captured and is there.
pub proof fn law_event_value<T: Copy>(
    results: &EventResults<T>,
    out: NameMap<T>,
    name: Seq<char>,
    g: int,
    k: int,
)
    requires
        call_ensures(EventResults::<T>::event_values, (results,), out),
        reported(results@, g, k, name),
        results@[g].1[k] is Some,
        forall|h: int, m: int|
            comes_after(g, k, h, m) && #[trigger] reported(results@, h, m, name)
                ==> results@[h].1[m] is None,
    ensures
        value_of(out@, name) == results@[g].1[k],
{
    let all = results@;
    let pairs = all_pairs(all);
    assert(all.take(all.len() as int) =~= all);
    lemma_pair_place(all, all.len() as int, g, k);
    let place = all_pairs(all.take(g)).len() + k;
    law_known_values(all, name);
    assert(pairs[place].0 == name);
    let value = value_of(out@, name)->0;
    let i = choose|i: int| #[trigger] last_known(pairs, i, name, value);
    let (h, m) = lemma_place_found(all, all.len() as int, i);
    lemma_places_ordered(all, g, k, h, m);
    assert(reported(all, h, m, name));
    if place > i {
        assert(pairs[place].1 is None);
    }
}

/// An event of which no value was captured has none.
pub proof fn law_no_event_value<T: Copy>(
    results: &EventResults<T>,
    out: NameMap<T>,
    name: Seq<char>,
)
    requires
        call_ensures(EventResults::<T>::event_values, (results,), out),
        forall|g: int, k: int| #[trigger]
            reported(results@, g, k, name) ==> results@[g].1[k] is None,
    ensures
        value_of(out@, name) is None,
{
    let all = results@;
    let pairs = all_pairs(all);
    assert(all.take(all.len() as int) =~= all);
    law_known_values(all, name);
    if value_of(out@, name) is Some {
        let value = value_of(out@, name)->0;
        let i = choose|i: int| #[trigger] last_known(pairs, i, name, value);
        let (h, m) = lemma_place_found(all, all.len() as int, i);
        assert(reported(all, h, m, name));
    }
}

/// The last value of an event is that of the last group that has the event,
/// there or not.
pub proof fn law_last_value<T>(
    results: &EventResults<T>,
    name: &str,
    out: Option<&Option<T>>,
    g: int,
    k: int,
)
    requires
        call_ensures(EventResults::<T>::last_value, (results, name), out),
        reported(results@, g, k, name@),
        forall|h: int, m: int| #[trigger]
            reported(results@, h, m, name@) ==> !comes_after(g, k, h, m),
    ensures
        out matches Some(value) && *value == results@[g].1[k],
{
    let all = results@;
    let pairs = all_pairs(all);
    assert(all.take(all.len() as int) =~= all);
    lemma_pair_place(all, all.len() as int, g, k);
    let place = all_pairs(all.take(g)).len() + k;
    assert(pairs[place].0 == name@);
    assert(has_name(pairs, name@));
    law_gathered(pairs, name@);
    let value = value_of(by_event(all), name@)->0;
    let i = choose|i: int|
        0 <= i < pairs.len() && #[trigger] pairs[i] == (name@, value) && forall|j: int|
            i < j < pairs.len() ==> (#[trigger] pairs[j]).0 != name@;
    let (h, m) = lemma_place_found(all, all.len() as int, i);
    lemma_places_ordered(all, g, k, h, m);
    assert(reported(all, h, m, name@));
    if place > i {
        assert(pairs[place].0 != name@);
    }
}

/// An event that no group has has no last value.
pub proof fn law_no_last_value<T>(results: &EventResults<T>, name: &str, out: Option<&Option<T>>)
    requires
        call_ensures(EventResults::<T>::last_value, (results, name), out),
        forall|g: int, k: int| !#[trigger] reported(results@, g, k, name@),
    ensures
        out is None,
{
    let all = results@;
    let pairs = all_pairs(all);
    assert(all.take(all.len() as int) =~= all);
    law_gathered(pairs, name@);
    if out is Some {
        let value = value_of(by_event(all), name@)->0;
        let i = choose|i: int|
            0 <= i < pairs.len() && #[trigger] pairs[i] == (name@, value) && forall|j: int|
                i < j < pairs.len() ==> (#[trigger] pairs[j]).0 != name@;
        let (h, m) = lemma_place_found(all, all.len() as int, i);
        assert(reported(all, h, m, name@));
    }
}

/// Results of other groups come after those that were there, in their order.
pub proof fn law_merged_in_order<T>(
    base: Seq<(Names, Seq<Option<T>>)>,
    more: Seq<(Names, Seq<Option<T>>)>,
)
    requires
        names_distinct(base + more),
    ensures
        merged(base, more) == base + more,
    decreases more.len(),
{
    let both = base + more;
    if more.len() > 0 {
        let front = more.drop_last();
        let shorter = base + front;
        assert(names_distinct(shorter)) by {
            assert forall|i: int, j: int|
                0 <= i < j < shorter.len() implies (#[trigger] shorter[i]).0 != (
            #[trigger] shorter[j]).0 by {
                assert(both[i].0 != both[j].0);
            }
        }
        law_merged_in_order(base, front);
        let last = more.last();
        if has_name(shorter, last.0) {
            let i = choose|i: int| 0 <= i < shorter.len() && (#[trigger] shorter[i]).0 == last.0;
            assert(both[i].0 != both[both.len() - 1].0);
        }
        assert(shorter.push(last) =~= both);
    } else {
        assert(both =~= base);
    }
}

/// What is got under the names of a group are its values; under names that no
/// group has nothing is got.
pub proof fn law_values_got<T>(
    results: &EventResults<T>,
    names: &Vec<String>,
    out: Option<&Vec<Option<T>>>,
    i: int,
)
    requires
        call_ensures(EventResults::<T>::get, (results, names), out),
    ensures
        0 <= i < results@.len() && results@[i].0 == names.deep_view() && (forall|j: int|
            0 <= j < i ==> (#[trigger] results@[j]).0 != names.deep_view()) ==> (
        out matches Some(values) && values@ == results@[i].1),
        (forall|j: int| 0 <= j < results@.len() ==> (#[trigger] results@[j]).0 != names.deep_view())
            ==> out is None,
{
    if 0 <= i < results@.len() && results@[i].0 == names.deep_view() && (forall|j: int|
        0 <= j < i ==> (#[trigger] results@[j]).0 != names.deep_view()) {
        law_value_of(results@, names.deep_view(), i);
    }
}

/// The groups of results are counted and told one by one.
pub proof fn law_groups<T>(
    results: &EventResults<T>,
    n: usize,
    i: usize,
    names: &Vec<String>,
    values: &Vec<Option<T>>,
    fresh: EventResults<T>,
)
    requires
        call_ensures(EventResults::<T>::len, (results,), n),
        call_ensures(EventResults::<T>::names_at, (results, i), names),
        call_ensures(EventResults::<T>::values_at, (results, i), values),
        call_ensures(EventResults::<T>::new, (), fresh),
        i < n,
    ensures
        n == results@.len(),
        results@[i as int].0 == names.deep_view(),
        results@[i as int].1 == values@,
        fresh@.len() == 0,
{
}

/// A clone of results has the same groups in the same order, with a clone of
/// each value.
pub proof fn law_cloned<T: Clone>(results: &EventResults<T>, out: EventResults<T>, i: int, k: int)
    requires
        call_ensures(EventResults::<T>::clone, (results,), out),
        0 <= i < results@.len(),
        0 <= k < results@[i].1.len(),
    ensures
        out@.len() == results@.len(),
        out@[i].0 == results@[i].0,
        out@[i].1.len() == results@[i].1.len(),
        cloned::<Option<T>>(results@[i].1[k], out@[i].1[k]),
{
    assert(out@[i].0 == results@[i].0);
}

} // verus!
