//! Values kept under names, in the order in which the names were first given.
use vstd::prelude::*;

use crate::text::same_text;

verus! {

/// A list of named values in which no name occurs twice.
#[derive(Debug)]
pub struct NameMap<V> {
    entries: Vec<(String, V)>,
}

/// Whether no name occurs twice.
pub open spec fn names_distinct<K, W>(entries: Seq<(K, W)>) -> bool {
    forall|i: int, j: int|
        0 <= i < j < entries.len() ==> (#[trigger] entries[i]).0 != (#[trigger] entries[j]).0
}

/// The place of the first entry of that name, or the length if there is none.
pub open spec fn place_of<K, W>(entries: Seq<(K, W)>, name: K) -> nat
    decreases entries.len(),
{
    if entries.len() == 0 || entries[0].0 == name {
        0
    } else {
        1 + place_of(entries.drop_first(), name)
    }
}

/// Whether there is an entry of that name.
pub open spec fn has_name<K, W>(entries: Seq<(K, W)>, name: K) -> bool {
    exists|i: int| 0 <= i < entries.len() && (#[trigger] entries[i]).0 == name
}

/// The value under a name.
pub open spec fn value_of<K, W>(entries: Seq<(K, W)>, name: K) -> Option<W> {
    if has_name(entries, name) {
        Some(entries[place_of(entries, name) as int].1)
    } else {
        None
    }
}

/// The entries after a value is put under a name: in the place of the old
/// value if there was one, else at the end.
pub open spec fn with_value<K, W>(
    entries: Seq<(K, W)>,
    name: K,
    value: W,
) -> Seq<(K, W)> {
    if has_name(entries, name) {
        entries.update(place_of(entries, name) as int, (name, value))
    } else {
        entries.push((name, value))
    }
}

/// What `place_of` finds.
pub proof fn lemma_place_of<K, W>(entries: Seq<(K, W)>, name: K)
    ensures
        place_of(entries, name) <= entries.len(),
        has_name(entries, name) <==> place_of(entries, name) < entries.len(),
        has_name(entries, name) ==> entries[place_of(entries, name) as int].0 == name,
        forall|i: int| 0 <= i < place_of(entries, name) ==> (#[trigger] entries[i]).0 != name,
    decreases entries.len(),
{
    if entries.len() > 0 {
        if entries[0].0 == name {
            assert(has_name(entries, name));
        } else {
            let rest = entries.drop_first();
            lemma_place_of(rest, name);
            if has_name(entries, name) {
                let i = choose|i: int| 0 <= i < entries.len() && (#[trigger] entries[i]).0 == name;
                assert(rest[i - 1].0 == name);
            }
            if has_name(rest, name) {
                let i = choose|i: int| 0 <= i < rest.len() && (#[trigger] rest[i]).0 == name;
                assert(entries[i + 1].0 == name);
            }
            assert forall|i: int| 0 <= i < place_of(entries, name) implies (#[trigger] entries[i]).0
                != name by {
                if i > 0 {
                    assert(rest[i - 1].0 != name);
                }
            }
        }
    }
}

/// Where no name occurs twice, an entry is what its own name leads to.
pub proof fn lemma_value_at<K, W>(entries: Seq<(K, W)>, i: int)
    requires
        names_distinct(entries),
        0 <= i < entries.len(),
    ensures
        place_of(entries, entries[i].0) == i,
        has_name(entries, entries[i].0),
        value_of(entries, entries[i].0) == Some(entries[i].1),
{
    lemma_place_of(entries, entries[i].0);
    assert(has_name(entries, entries[i].0));
}

/// After a value is put under a name, that name leads to it, every other name
/// leads where it led before, and still no name occurs twice.
pub proof fn law_with_value<K, W>(
    entries: Seq<(K, W)>,
    name: K,
    value: W,
    other: K,
)
    requires
        names_distinct(entries),
    ensures
        names_distinct(with_value(entries, name, value)),
        value_of(with_value(entries, name, value), name) == Some(value),
        other != name ==> value_of(with_value(entries, name, value), other) == value_of(
            entries,
            other,
        ),
{
    let after = with_value(entries, name, value);
    let p = place_of(entries, name) as int;
    lemma_place_of(entries, name);
    if has_name(entries, name) {
        assert(names_distinct(after)) by {
            assert forall|i: int, j: int| 0 <= i < j < after.len() implies (#[trigger] after[i]).0
                != (#[trigger] after[j]).0 by {
                assert(entries[i].0 != entries[j].0);
            }
        }
        lemma_value_at(after, p);
    } else {
        assert(names_distinct(after)) by {
            assert forall|i: int, j: int| 0 <= i < j < after.len() implies (#[trigger] after[i]).0
                != (#[trigger] after[j]).0 by {
                if j < entries.len() {
                    assert(entries[i].0 != entries[j].0);
                } else {
                    assert(entries[i].0 != name);
                }
            }
        }
        lemma_value_at(after, entries.len() as int);
    }
    if other != name {
        lemma_place_of(entries, other);
        lemma_place_of(after, other);
        let q = place_of(entries, other) as int;
        if has_name(entries, other) {
            assert(after[q] == entries[q]);
            lemma_value_at(after, q);
        } else if has_name(after, other) {
            let r = place_of(after, other) as int;
            assert(after[r].0 == other);
            assert(r < entries.len());
            assert(entries[r].0 == other);
        }
    }
}

impl<V> NameMap<V> {
    /// The entries as pairs of a name and a value.
    pub closed spec fn view(&self) -> Seq<(Seq<char>, V)> {
        self.entries@.map_values(|e: (String, V)| (e.0@, e.1))
    }

    #[verifier::type_invariant]
    spec fn distinct(self) -> bool {
        names_distinct(self.view())
    }

    /// A map without entries.
    pub fn new() -> (out: Self)
        ensures
            out@ == Seq::<(Seq<char>, V)>::empty(),
    {
        let entries: Vec<(String, V)> = Vec::new();
        proof {
            assert(entries@.map_values(|e: (String, V)| (e.0@, e.1)) =~= Seq::empty());
        }
        NameMap { entries }
    }

    /// The number of entries; no two of them have the same name.
    pub fn len(&self) -> (n: usize)
        ensures
            n == self@.len(),
            names_distinct(self@),
    {
        proof {
            use_type_invariant(self);
        }
        self.entries.len()
    }

    /// Whether there are no entries.
    pub fn is_empty(&self) -> (b: bool)
        ensures
            b == (self@.len() == 0),
    {
        self.entries.len() == 0
    }

    /// The name of an entry.
    pub fn name_at(&self, i: usize) -> (name: &String)
        requires
            i < self@.len(),
        ensures
            name@ == self@[i as int].0,
    {
        &self.entries[i].0
    }

    /// The value of an entry.
    pub fn value_at(&self, i: usize) -> (value: &V)
        requires
            i < self@.len(),
        ensures
            *value == self@[i as int].1,
    {
        &self.entries[i].1
    }

    fn place(&self, name: &str) -> (i: usize)
        ensures
            i == place_of(self@, name@),
            i <= self@.len(),
            i < self@.len() <==> has_name(self@, name@),
    {
        let ghost all = self@;
        let mut i: usize = 0;
        assert(all.skip(0) =~= all);
        while i < self.entries.len() && !same_text(self.entries[i].0.as_str(), name)
            invariant
                all == self@,
                i <= self.entries.len(),
                place_of(all, name@) == i + place_of(all.skip(i as int), name@),
            decreases self.entries.len() - i,
        {
            assert(all.skip(i as int).drop_first() =~= all.skip(i + 1));
            i += 1;
        }
        proof {
            lemma_place_of(all, name@);
        }
        i
    }

    /// Whether there is an entry of that name.
    pub fn contains_key(&self, name: &str) -> (b: bool)
        ensures
            b == has_name(self@, name@),
    {
        self.place(name) < self.entries.len()
    }

    /// The value under a name.
    pub fn get(&self, name: &str) -> (value: Option<&V>)
        ensures
            match value {
                Some(v) => value_of(self@, name@) == Some(*v),
                None => value_of(self@, name@) is None,
            },
    {
        let i = self.place(name);
        if i < self.entries.len() {
            Some(&self.entries[i].1)
        } else {
            None
        }
    }

    /// Puts a value under a name, in the place of the old one if there was one.
    pub fn insert(&mut self, name: String, value: V)
        ensures
            final(self)@ == with_value(old(self)@, name@, value),
    {
        proof {
            use_type_invariant(&*self);
        }
        let ghost before = self@;
        let i = self.place(name.as_str());
        proof {
            lemma_place_of(before, name@);
            law_with_value(before, name@, value, name@);
        }
        let mut entries: Vec<(String, V)> = Vec::new();
        proof {
            assert(entries@.map_values(|e: (String, V)| (e.0@, e.1)) =~= Seq::empty());
        }
        std::mem::swap(&mut entries, &mut self.entries);
        if i < entries.len() {
            entries[i] = (name, value);
        } else {
            entries.push((name, value));
        }
        proof {
            assert(entries@.map_values(|e: (String, V)| (e.0@, e.1)) =~= with_value(
                before,
                name@,
                value,
            ));
        }
        self.entries = entries;
    }
}

impl<V: Clone> Clone for NameMap<V> {
    /// The same names, each with a clone of its value.
    fn clone(&self) -> (out: Self)
        ensures
            out@.len() == self@.len(),
            forall|i: int|
                0 <= i < self@.len() ==> (#[trigger] out@[i]).0 == self@[i].0 && cloned::<V>(
                    self@[i].1,
                    out@[i].1,
                ),
    {
        let ghost all = self@;
        let mut entries: Vec<(String, V)> = Vec::new();
        for i in 0..self.entries.len()
            invariant
                all == self@,
                entries.len() == i,
                forall|k: int|
                    0 <= k < i ==> (#[trigger] entries@[k]).0@ == all[k].0 && cloned::<V>(
                        all[k].1,
                        entries@[k].1,
                    ),
        {
            let entry = &self.entries[i];
            entries.push((entry.0.clone(), entry.1.clone()));
        }
        proof {
            use_type_invariant(self);
            let copied = entries@.map_values(|e: (String, V)| (e.0@, e.1));
            assert forall|i: int, j: int| 0 <= i < j < copied.len() implies (
            #[trigger] copied[i]).0 != (#[trigger] copied[j]).0 by {
                assert(all[i].0 != all[j].0);
            }
        }
        NameMap { entries }
    }
}

impl<V: DeepView> DeepView for NameMap<V> {
    type V = Seq<(Seq<char>, V::V)>;

    open spec fn deep_view(&self) -> Seq<(Seq<char>, V::V)> {
        deep_entries(self@)
    }
}

/// The entries with each value taken by what it stands for.
pub open spec fn deep_entries<V: DeepView>(entries: Seq<(Seq<char>, V)>) -> Seq<
    (Seq<char>, V::V),
> {
    entries.map_values(|e: (Seq<char>, V)| (e.0, e.1.deep_view()))
}

/// Names lead to the same places, whichever way the values are taken.
pub proof fn lemma_deep_entries<V: DeepView>(entries: Seq<(Seq<char>, V)>, name: Seq<char>)
    ensures
        place_of(deep_entries(entries), name) == place_of(entries, name),
        has_name(deep_entries(entries), name) == has_name(entries, name),
        value_of(deep_entries(entries), name) == match value_of(entries, name) {
            Some(v) => Some(v.deep_view()),
            None => None,
        },
        names_distinct(deep_entries(entries)) == names_distinct(entries),
    decreases entries.len(),
{
    let deep = deep_entries(entries);
    if entries.len() > 0 && entries[0].0 != name {
        lemma_deep_entries(entries.drop_first(), name);
        assert(deep.drop_first() =~= deep_entries(entries.drop_first()));
    }
    lemma_place_of(entries, name);
    lemma_place_of(deep, name);
    if names_distinct(deep) {
        assert forall|i: int, j: int| 0 <= i < j < entries.len() implies (#[trigger] entries[i]).0
            != (#[trigger] entries[j]).0 by {
            assert(deep[i].0 != deep[j].0);
        }
    }
}

/// Putting a value under a name, seen either way.
pub proof fn lemma_deep_with_value<V: DeepView>(
    entries: Seq<(Seq<char>, V)>,
    name: Seq<char>,
    value: V,
)
    ensures
        deep_entries(with_value(entries, name, value)) == with_value(
            deep_entries(entries),
            name,
            value.deep_view(),
        ),
{
    lemma_deep_entries(entries, name);
    lemma_place_of(entries, name);
    assert(deep_entries(with_value(entries, name, value)) =~= with_value(
        deep_entries(entries),
        name,
        value.deep_view(),
    ));
}

/// The entries after pairs of a name and a value are put in one by one.
pub open spec fn gathered<K, W>(pairs: Seq<(K, W)>) -> Seq<(K, W)>
    decreases pairs.len(),
{
    if pairs.len() == 0 {
        Seq::empty()
    } else {
        with_value(gathered(pairs.drop_last()), pairs.last().0, pairs.last().1)
    }
}

/// Of pairs that are put in one by one, a name leads to the value of its last
/// pair.
pub proof fn law_gathered<K, W>(pairs: Seq<(K, W)>, name: K)
    ensures
        names_distinct(gathered(pairs)),
        match value_of(gathered(pairs), name) {
            Some(value) => exists|i: int|
                0 <= i < pairs.len() && #[trigger] pairs[i] == (name, value) && forall|j: int|
                    i < j < pairs.len() ==> (#[trigger] pairs[j]).0 != name,
            None => !has_name(pairs, name),
        },
    decreases pairs.len(),
{
    if pairs.len() > 0 {
        let front = pairs.drop_last();
        let last = pairs.last();
        law_gathered(front, name);
        law_with_value(gathered(front), last.0, last.1, name);
        if last.0 == name {
            assert(pairs[pairs.len() - 1] == (name, last.1));
        } else {
            match value_of(gathered(front), name) {
                Some(value) => {
                    let i = choose|i: int|
                        0 <= i < front.len() && #[trigger] front[i] == (name, value) && forall|j:
                            int|
                            i < j < front.len() ==> (#[trigger] front[j]).0 != name;
                    assert(pairs[i] == (name, value));
                    assert forall|j: int| i < j < pairs.len() implies (#[trigger] pairs[j]).0
                        != name by {
                        if j < front.len() {
                            assert(front[j] == pairs[j]);
                        }
                    }
                },
                None => {
                    if has_name(pairs, name) {
                        let i = choose|i: int|
                            0 <= i < pairs.len() && (#[trigger] pairs[i]).0 == name;
                        assert(front[i].0 == name);
                    }
                },
            }
        }
    } else {
        assert(!has_name(gathered(pairs), name));
    }
}

// ─── What names lead to ──────────────────────────────────────────────────────

/// A name leads to the value of the first entry that has it.
pub proof fn law_value_of<K, W>(entries: Seq<(K, W)>, name: K, i: int)
    requires
        0 <= i < entries.len(),
        entries[i].0 == name,
        forall|j: int| 0 <= j < i ==> (#[trigger] entries[j]).0 != name,
    ensures
        has_name(entries, name),
        value_of(entries, name) == Some(entries[i].1),
{
    assert(has_name(entries, name));
    lemma_place_of(entries, name);
    let p = place_of(entries, name) as int;
    if p < i {
        assert(entries[p].0 != name);
    }
}

/// A name that no entry has leads nowhere.
pub proof fn law_no_value<K, W>(entries: Seq<(K, W)>, name: K)
    requires
        forall|i: int| 0 <= i < entries.len() ==> (#[trigger] entries[i]).0 != name,
    ensures
        !has_name(entries, name),
        value_of(entries, name) is None,
{
}

/// A name leads nowhere or to one of the entries that have it.
pub proof fn law_value_found<K, W>(entries: Seq<(K, W)>, name: K) -> (i: int)
    ensures
        match value_of(entries, name) {
            Some(value) => 0 <= i < entries.len() && entries[i] == (name, value) && forall|j: int|
                0 <= j < i ==> (#[trigger] entries[j]).0 != name,
            None => forall|j: int|
                0 <= j < entries.len() ==> (#[trigger] entries[j]).0 != name,
        },
{
    lemma_place_of(entries, name);
    place_of(entries, name) as int
}

/// What is got from a map under a name is the value of the entry of that name.
pub proof fn law_got<V>(map: &NameMap<V>, name: &str, i: int, got: Option<&V>, there: bool)
    requires
        call_ensures(NameMap::<V>::get, (map, name), got),
        call_ensures(NameMap::<V>::contains_key, (map, name), there),
        0 <= i < map@.len(),
        map@[i].0 == name@,
        forall|j: int| 0 <= j < i ==> (#[trigger] map@[j]).0 != name@,
    ensures
        there,
        got matches Some(value) && *value == map@[i].1,
{
    law_value_of(map@, name@, i);
}

/// Nothing is got under a name that no entry has.
pub proof fn law_not_got<V>(map: &NameMap<V>, name: &str, got: Option<&V>, there: bool)
    requires
        call_ensures(NameMap::<V>::get, (map, name), got),
        call_ensures(NameMap::<V>::contains_key, (map, name), there),
        forall|i: int| 0 <= i < map@.len() ==> (#[trigger] map@[i]).0 != name@,
    ensures
        !there,
        got is None,
{
}

/// A value that is put under a name takes the place of the old one, and all
/// other entries stay as they are and where they are; under a new name it
/// comes last.
pub proof fn law_put<K, W>(entries: Seq<(K, W)>, name: K, value: W, i: int)
    requires
        names_distinct(entries),
        0 <= i < entries.len(),
    ensures
        with_value(entries, name, value).len() == if has_name(entries, name) {
            entries.len()
        } else {
            entries.len() + 1
        },
        entries[i].0 != name ==> with_value(entries, name, value)[i] == entries[i],
        entries[i].0 == name ==> with_value(entries, name, value)[i] == (name, value),
        !has_name(entries, name) ==> with_value(entries, name, value)[entries.len() as int] == (
            name,
            value,
        ),
{
    lemma_place_of(entries, name);
    if has_name(entries, name) {
        let p = place_of(entries, name) as int;
        if entries[i].0 == name && i != p {
            if i < p {
                assert(entries[i].0 != entries[p].0);
            } else {
                assert(entries[p].0 != entries[i].0);
            }
        }
    }
}

/// Pairs that are put in one by one under different names stay in their order.
pub proof fn law_gathered_in_order<K, W>(pairs: Seq<(K, W)>)
    requires
        names_distinct(pairs),
    ensures
        gathered(pairs) == pairs,
    decreases pairs.len(),
{
    if pairs.len() > 0 {
        let front = pairs.drop_last();
        assert(names_distinct(front)) by {
            assert forall|i: int, j: int| 0 <= i < j < front.len() implies (#[trigger] front[i]).0
                != (#[trigger] front[j]).0 by {
                assert(pairs[i].0 != pairs[j].0);
            }
        }
        law_gathered_in_order(front);
        let last = pairs.last();
        if has_name(front, last.0) {
            let i = choose|i: int| 0 <= i < front.len() && (#[trigger] front[i]).0 == last.0;
            assert(pairs[i].0 != pairs[pairs.len() - 1].0);
        }
        assert(front.push(last) =~= pairs);
    } else {
        assert(gathered(pairs) =~= pairs);
    }
}

/// The entries of a map are counted and told one by one.
pub proof fn law_entries<V>(
    map: &NameMap<V>,
    n: usize,
    none: bool,
    i: usize,
    name: &String,
    value: &V,
    fresh: NameMap<V>,
)
    requires
        call_ensures(NameMap::<V>::len, (map,), n),
        call_ensures(NameMap::<V>::is_empty, (map,), none),
        call_ensures(NameMap::<V>::name_at, (map, i), name),
        call_ensures(NameMap::<V>::value_at, (map, i), value),
        call_ensures(NameMap::<V>::new, (), fresh),
        i < n,
    ensures
        n == map@.len(),
        !none,
        map@[i as int] == (name@, *value),
        fresh@.len() == 0,
{
}

/// A clone of a map has the same names in the same order, each with a clone of
/// its value.
pub proof fn law_cloned<V: Clone>(map: &NameMap<V>, out: NameMap<V>, i: int)
    requires
        call_ensures(NameMap::<V>::clone, (map,), out),
        0 <= i < map@.len(),
    ensures
        out@.len() == map@.len(),
        out@[i].0 == map@[i].0,
        cloned::<V>(map@[i].1, out@[i].1),
{
}

} // verus!
