//! Total orders, and sorting by them.
use vstd::prelude::*;
use vstd::relations::{sorted_by, total_ordering};
use vstd::seq_lib::lemma_sorted_unique;

use crate::text::to_chars;

verus! {

/// Lexicographic order of two sequences: the first place where they differ
/// decides, and a proper prefix comes before what extends it.
pub open spec fn lex_le<A>(a: Seq<A>, b: Seq<A>, le: spec_fn(A, A) -> bool) -> bool
    decreases a.len(),
{
    if a.len() == 0 {
        true
    } else if b.len() == 0 {
        false
    } else if a[0] == b[0] {
        lex_le(a.drop_first(), b.drop_first(), le)
    } else {
        le(a[0], b[0])
    }
}

/// A type whose values are totally ordered by what they stand for.
pub trait Ranked: DeepView + Sized {
    /// The order, on the mathematical values.
    spec fn rank(a: Self::V, b: Self::V) -> bool;

    /// The order is total.
    proof fn rank_is_total()
        ensures
            total_ordering(|a: Self::V, b: Self::V| Self::rank(a, b)),
    ;

    /// Whether this value does not come after the other.
    fn at_most(&self, other: &Self) -> (b: bool)
        ensures
            b == Self::rank(self.deep_view(), other.deep_view()),
    ;
}

/// The order of a ranked type, as a relation.
pub open spec fn rank_of<T: Ranked>() -> spec_fn(T::V, T::V) -> bool {
    |a: T::V, b: T::V| T::rank(a, b)
}

impl Ranked for char {
    open spec fn rank(a: char, b: char) -> bool {
        a <= b
    }

    proof fn rank_is_total() {
    }

    fn at_most(&self, other: &char) -> (b: bool) {
        *self <= *other
    }
}

impl Ranked for i32 {
    open spec fn rank(a: i32, b: i32) -> bool {
        a <= b
    }

    proof fn rank_is_total() {
    }

    fn at_most(&self, other: &i32) -> (b: bool) {
        *self <= *other
    }
}

proof fn lemma_lex_reflexive<A>(a: Seq<A>, le: spec_fn(A, A) -> bool)
    ensures
        lex_le(a, a, le),
    decreases a.len(),
{
    if a.len() > 0 {
        lemma_lex_reflexive(a.drop_first(), le);
    }
}

proof fn lemma_lex_antisymmetric<A>(a: Seq<A>, b: Seq<A>, le: spec_fn(A, A) -> bool)
    requires
        total_ordering(le),
        lex_le(a, b, le),
        lex_le(b, a, le),
    ensures
        a == b,
    decreases a.len(),
{
    if a.len() > 0 && b.len() > 0 {
        if a[0] == b[0] {
            lemma_lex_antisymmetric(a.drop_first(), b.drop_first(), le);
            assert(a == seq![a[0]] + a.drop_first());
            assert(b == seq![b[0]] + b.drop_first());
        }
    } else {
        assert(a =~= b);
    }
}

proof fn lemma_lex_transitive<A>(a: Seq<A>, b: Seq<A>, c: Seq<A>, le: spec_fn(A, A) -> bool)
    requires
        total_ordering(le),
        lex_le(a, b, le),
        lex_le(b, c, le),
    ensures
        lex_le(a, c, le),
    decreases a.len(),
{
    if a.len() > 0 && b.len() > 0 && c.len() > 0 {
        if a[0] == b[0] && b[0] == c[0] {
            lemma_lex_transitive(a.drop_first(), b.drop_first(), c.drop_first(), le);
        } else if a[0] == c[0] {
            assert(le(a[0], b[0]) && le(b[0], a[0]));
        }
    }
}

proof fn lemma_lex_connected<A>(a: Seq<A>, b: Seq<A>, le: spec_fn(A, A) -> bool)
    requires
        total_ordering(le),
    ensures
        lex_le(a, b, le) || lex_le(b, a, le),
    decreases a.len(),
{
    if a.len() > 0 && b.len() > 0 {
        if a[0] == b[0] {
            lemma_lex_connected(a.drop_first(), b.drop_first(), le);
        } else {
            assert(le(a[0], b[0]) || le(b[0], a[0]));
        }
    }
}

/// The lexicographic extension of a total order is a total order.
proof fn lemma_lex_total<A>(le: spec_fn(A, A) -> bool, lex: spec_fn(Seq<A>, Seq<A>) -> bool)
    requires
        total_ordering(le),
        forall|a: Seq<A>, b: Seq<A>| #[trigger] lex(a, b) == lex_le(a, b, le),
    ensures
        total_ordering(lex),
{
    assert forall|a: Seq<A>| #[trigger] lex(a, a) by {
        lemma_lex_reflexive(a, le);
    }
    assert forall|a: Seq<A>, b: Seq<A>| #[trigger] lex(a, b) && #[trigger] lex(b, a) implies a
        == b by {
        lemma_lex_antisymmetric(a, b, le);
    }
    assert forall|a: Seq<A>, b: Seq<A>, c: Seq<A>| #[trigger]
        lex(a, b) && #[trigger] lex(b, c) implies lex(a, c) by {
        lemma_lex_transitive(a, b, c, le);
    }
    assert forall|a: Seq<A>, b: Seq<A>| #[trigger] lex(a, b) || #[trigger] lex(b, a) by {
        lemma_lex_connected(a, b, le);
    }
}

/// What two sequences share at the front does not bear on their order.
proof fn lemma_lex_skip<A>(a: Seq<A>, b: Seq<A>, n: int, le: spec_fn(A, A) -> bool)
    requires
        0 <= n <= a.len(),
        n <= b.len(),
        forall|i: int| 0 <= i < n ==> a[i] == b[i],
    ensures
        lex_le(a, b, le) == lex_le(a.skip(n), b.skip(n), le),
    decreases n,
{
    if n == 0 {
        assert(a.skip(0) == a && b.skip(0) == b);
    } else {
        assert forall|i: int| 0 <= i < n - 1 implies a.drop_first()[i] == b.drop_first()[i] by {
            assert(a[i + 1] == b[i + 1]);
        }
        lemma_lex_skip(a.drop_first(), b.drop_first(), n - 1, le);
        assert(a.drop_first().skip(n - 1) == a.skip(n));
        assert(b.drop_first().skip(n - 1) == b.skip(n));
    }
}

impl<T: Ranked> Ranked for Vec<T> {
    open spec fn rank(a: Seq<T::V>, b: Seq<T::V>) -> bool {
        lex_le(a, b, rank_of::<T>())
    }

    proof fn rank_is_total() {
        T::rank_is_total();
        lemma_lex_total(rank_of::<T>(), |a: Seq<T::V>, b: Seq<T::V>| Self::rank(a, b));
    }

    fn at_most(&self, other: &Vec<T>) -> (b: bool) {
        let ghost a = self.deep_view();
        let ghost b = other.deep_view();
        let ghost le = rank_of::<T>();
        proof {
            T::rank_is_total();
            assert(Self::rank(a, b) == lex_le(a, b, le));
        }
        let mut i: usize = 0;
        while i < self.len() && i < other.len()
            invariant
                a == self.deep_view(),
                b == other.deep_view(),
                le == rank_of::<T>(),
                total_ordering(le),
                Self::rank(a, b) == lex_le(a, b, le),
                i <= self.len(),
                i <= other.len(),
                forall|k: int| 0 <= k < i ==> a[k] == b[k],
            decreases self.len() - i,
        {
            proof {
                lemma_lex_skip(a, b, i as int, le);
                assert(a.skip(i as int)[0] == self[i as int].deep_view());
                assert(b.skip(i as int)[0] == other[i as int].deep_view());
                assert(le(a[i as int], b[i as int]) == T::rank(a[i as int], b[i as int]));
                assert(le(b[i as int], a[i as int]) == T::rank(b[i as int], a[i as int]));
            }
            if self[i].at_most(&other[i]) {
                if !other[i].at_most(&self[i]) {
                    return true;
                }
            } else {
                return false;
            }
            i += 1;
        }
        proof {
            lemma_lex_skip(a, b, i as int, le);
        }
        i == self.len()
    }
}

impl Ranked for String {
    open spec fn rank(a: Seq<char>, b: Seq<char>) -> bool {
        lex_le(a, b, rank_of::<char>())
    }

    proof fn rank_is_total() {
        char::rank_is_total();
        lemma_lex_total(rank_of::<char>(), |a: Seq<char>, b: Seq<char>| Self::rank(a, b));
    }

    fn at_most(&self, other: &String) -> (b: bool) {
        let a = to_chars(self.as_str());
        let b = to_chars(other.as_str());
        assert(a.deep_view() == self@);
        assert(b.deep_view() == other@);
        a.at_most(&b)
    }
}

/// The elements of a sequence in ascending order, repeats kept.
pub open spec fn sorted<T: Ranked>(s: Seq<T::V>) -> Seq<T::V> {
    s.sort_by(rank_of::<T>())
}

/// A sequence with each run of equal neighbours cut down to one.
pub open spec fn squeezed<A>(s: Seq<A>) -> Seq<A>
    decreases s.len(),
{
    if s.len() <= 1 {
        s
    } else {
        let front = squeezed(s.drop_last());
        if s[s.len() - 2] == s.last() {
            front
        } else {
            front.push(s.last())
        }
    }
}

/// The elements of a sequence in ascending order, each once.
pub open spec fn sorted_distinct<T: Ranked>(s: Seq<T::V>) -> Seq<T::V> {
    squeezed(sorted::<T>(s))
}

/// Whether every element is strictly below all that follow it.
pub open spec fn ascending<T: Ranked>(s: Seq<T::V>) -> bool {
    forall|i: int, j: int|
        0 <= i < j < s.len() ==> #[trigger] T::rank(s[i], s[j]) && s[i] != s[j]
}

/// Sorting keeps every element as often as it occurs, and puts them in order.
pub proof fn law_sorted<T: Ranked>(s: Seq<T::V>)
    ensures
        sorted::<T>(s).to_multiset() == s.to_multiset(),
        sorted_by(sorted::<T>(s), rank_of::<T>()),
        sorted::<T>(s).len() == s.len(),
        forall|x: T::V| #[trigger] sorted::<T>(s).contains(x) <==> s.contains(x),
{
    T::rank_is_total();
    s.lemma_sort_by_ensures(rank_of::<T>());
    broadcast use vstd::seq_lib::group_to_multiset_ensures;

    assert forall|x: T::V| #[trigger] sorted::<T>(s).contains(x) <==> s.contains(x) by {
        assert(sorted::<T>(s).to_multiset().count(x) == s.to_multiset().count(x));
    }
    assert(sorted::<T>(s).to_multiset().len() == s.to_multiset().len());
}

/// Squeezing keeps the same elements; what was in order is then ascending.
proof fn lemma_squeezed<T: Ranked>(s: Seq<T::V>)
    requires
        sorted_by(s, rank_of::<T>()),
    ensures
        ascending::<T>(squeezed(s)),
        squeezed(s).len() <= s.len(),
        s.len() > 0 ==> squeezed(s).len() > 0 && squeezed(s).last() == s.last(),
        forall|x: T::V| #[trigger] squeezed(s).contains(x) <==> s.contains(x),
    decreases s.len(),
{
    T::rank_is_total();
    let le = rank_of::<T>();
    if s.len() > 1 {
        let front = s.drop_last();
        assert(sorted_by(front, le)) by {
            assert forall|i: int, j: int| 0 <= i < j < front.len() implies #[trigger] le(
                front[i],
                front[j],
            ) by {
                assert(le(s[i], s[j]));
            }
        }
        lemma_squeezed::<T>(front);
        let q = squeezed(front);
        let r = squeezed(s);
        if s[s.len() - 2] != s.last() {
            assert forall|i: int, j: int| 0 <= i < j < r.len() implies #[trigger] T::rank(
                r[i],
                r[j],
            ) && r[i] != r[j] by {
                if j == r.len() - 1 {
                    assert(q.contains(q[i]));
                    assert(front.contains(q[i]));
                    let k = front.index_of(q[i]);
                    assert(le(s[k], s[s.len() - 1]));
                    if q[i] == s.last() {
                        assert(le(s[k], s[s.len() - 2]) || k == s.len() - 2);
                        assert(le(s[s.len() - 2], s[s.len() - 1]));
                    }
                } else {
                    assert(r[i] == q[i] && r[j] == q[j]);
                    assert(0 <= i < j < q.len());
                    assert(T::rank(q[i], q[j]));
                }
            }
        }
        assert forall|x: T::V| #[trigger] r.contains(x) <==> s.contains(x) by {
            if s.contains(x) {
                let k = s.index_of(x);
                if k < s.len() - 1 {
                    assert(front[k] == x);
                    assert(front.contains(x));
                    assert(q.contains(x));
                    let m = q.index_of(x);
                    assert(r[m] == x);
                } else if s[s.len() - 2] == s.last() {
                    assert(front[s.len() - 2] == x);
                    assert(front.contains(x));
                } else {
                    assert(r[r.len() - 1] == x);
                }
            }
            if r.contains(x) {
                let m = r.index_of(x);
                if m < q.len() {
                    assert(q[m] == x);
                    assert(q.contains(x));
                    assert(front.contains(x));
                    let k = front.index_of(x);
                    assert(s[k] == x);
                } else {
                    assert(s[s.len() - 1] == x);
                }
            }
        }
    } else if s.len() == 1 {
    }
}

/// Sorting without repeats gives an ascending sequence of the same elements.
pub proof fn law_sorted_distinct<T: Ranked>(s: Seq<T::V>)
    ensures
        ascending::<T>(sorted_distinct::<T>(s)),
        sorted_distinct::<T>(s).len() <= s.len(),
        s.len() > 0 ==> sorted_distinct::<T>(s).len() > 0,
        forall|x: T::V| #[trigger] sorted_distinct::<T>(s).contains(x) <==> s.contains(x),
{
    law_sorted::<T>(s);
    lemma_squeezed::<T>(sorted::<T>(s));
}

/// Two ascending sequences of the same elements are the same.
pub proof fn law_ascending_unique<T: Ranked>(a: Seq<T::V>, b: Seq<T::V>)
    requires
        ascending::<T>(a),
        ascending::<T>(b),
        forall|x: T::V| #[trigger] a.contains(x) <==> b.contains(x),
    ensures
        a == b,
    decreases a.len(),
{
    T::rank_is_total();
    let le = rank_of::<T>();
    if a.len() == 0 {
        if b.len() > 0 {
            assert(b.contains(b[0]));
            assert(a.contains(b[0]));
        }
        assert(a =~= b);
    } else {
        assert(a.contains(a.last()));
        assert(b.contains(a.last()));
        let k = b.index_of(a.last());
        assert(b.contains(b.last()));
        assert(a.contains(b.last()));
        let j = a.index_of(b.last());
        if k != b.len() - 1 {
            assert(0 <= k < b.len() - 1);
            assert(T::rank(b[k], b[b.len() - 1]));
            assert(T::rank(a[j], a[a.len() - 1]));
            assert(le(a.last(), b.last()) && le(b.last(), a.last()));
        }
        let (p, q) = (a.drop_last(), b.drop_last());
        assert(ascending::<T>(p)) by {
            assert forall|i: int, m: int| 0 <= i < m < p.len() implies #[trigger] T::rank(
                p[i],
                p[m],
            ) && p[i] != p[m] by {
                assert(T::rank(a[i], a[m]));
            }
        }
        assert(ascending::<T>(q)) by {
            assert forall|i: int, m: int| 0 <= i < m < q.len() implies #[trigger] T::rank(
                q[i],
                q[m],
            ) && q[i] != q[m] by {
                assert(T::rank(b[i], b[m]));
            }
        }
        assert forall|x: T::V| #[trigger] p.contains(x) <==> q.contains(x) by {
            if p.contains(x) {
                let i = p.index_of(x);
                assert(T::rank(a[i], a[a.len() - 1]));
                assert(a.contains(a[i]));
                let m = b.index_of(x);
                assert(q[m] == x);
            }
            if q.contains(x) {
                let i = q.index_of(x);
                assert(T::rank(b[i], b[b.len() - 1]));
                assert(b.contains(b[i]));
                assert(a.contains(x));
                let m = a.index_of(x);
                assert(p[m] == x);
            }
        }
        law_ascending_unique::<T>(p, q);
        assert(a =~= p.push(a.last()));
        assert(b =~= q.push(b.last()));
    }
}

/// Sorting without repeats depends on the elements alone, not on their order
/// or on how often they occur.
pub proof fn law_sorted_distinct_unique<T: Ranked>(s: Seq<T::V>, t: Seq<T::V>)
    requires
        forall|x: T::V| #[trigger] s.contains(x) <==> t.contains(x),
    ensures
        sorted_distinct::<T>(s) == sorted_distinct::<T>(t),
{
    law_sorted_distinct::<T>(s);
    law_sorted_distinct::<T>(t);
    law_ascending_unique::<T>(sorted_distinct::<T>(s), sorted_distinct::<T>(t));
}

/// Sorts a vector in ascending order.
pub fn sort<T: Ranked>(items: Vec<T>) -> (out: Vec<T>)
    ensures
        out.deep_view() == sorted::<T>(items.deep_view()),
{
    let ghost whole = items.deep_view();
    let ghost le = rank_of::<T>();
    let mut rest = items;
    let mut out: Vec<T> = Vec::new();
    proof {
        T::rank_is_total();
        assert(out.deep_view() == Seq::<T::V>::empty());
        assert(out.deep_view().to_multiset() =~= vstd::multiset::Multiset::<T::V>::empty()) by {
            broadcast use vstd::seq_lib::group_to_multiset_ensures;
            broadcast use vstd::multiset::group_multiset_axioms;

        }
    }
    while rest.len() > 0
        invariant
            le == rank_of::<T>(),
            total_ordering(le),
            sorted_by(out.deep_view(), le),
            out.deep_view().to_multiset().add(rest.deep_view().to_multiset())
                =~= whole.to_multiset(),
        decreases rest.len(),
    {
        let ghost before = rest.deep_view();
        let ghost placed = out.deep_view();
        let n = rest.len();
        let item = rest.remove(n - 1);
        let ghost x = item.deep_view();
        let mut i: usize = 0;
        while i < out.len() && !item.at_most(&out[i])
            invariant
                i <= out.len(),
                x == item.deep_view(),
                placed == out.deep_view(),
                le == rank_of::<T>(),
                total_ordering(le),
                forall|k: int| 0 <= k < i ==> #[trigger] le(placed[k], x),
            decreases out.len() - i,
        {
            proof {
                assert(!le(x, placed[i as int]));
                assert(le(placed[i as int], x));
            }
            i += 1;
        }
        proof {
            if i < out.len() {
                assert(le(x, placed[i as int]));
            }
        }
        out.insert(i, item);
        proof {
            broadcast use vstd::seq_lib::group_to_multiset_ensures;
            broadcast use vstd::multiset::group_multiset_axioms;

            assert(out.deep_view() =~= placed.insert(i as int, x));
            assert(rest.deep_view() =~= before.remove(n - 1));
            vstd::seq_lib::to_multiset_insert(placed, i as int, x);
            vstd::seq_lib::to_multiset_remove(before, n - 1);
            assert(before.contains(before[n - 1]));
            assert forall|a: int, b: int| 0 <= a < b < out.deep_view().len() implies #[trigger] le(
                out.deep_view()[a],
                out.deep_view()[b],
            ) by {
                if b < i {
                    assert(le(placed[a], placed[b]));
                } else if a > i {
                    assert(le(placed[a - 1], placed[b - 1]));
                } else if b == i {
                    assert(le(placed[a], x));
                } else if a == i {
                    assert(le(x, placed[i as int]));
                    if b - 1 > i {
                        assert(le(placed[i as int], placed[b - 1]));
                    }
                } else {
                    assert(le(placed[a], placed[b - 1]));
                }
            }
        }
    }
    proof {
        law_sorted::<T>(whole);
        assert(rest.deep_view() =~= Seq::<T::V>::empty());
        assert(out.deep_view().to_multiset() =~= whole.to_multiset()) by {
            broadcast use vstd::seq_lib::group_to_multiset_ensures;
            broadcast use vstd::multiset::group_multiset_axioms;

        }
        lemma_sorted_unique(out.deep_view(), sorted::<T>(whole), le);
    }
    out
}

/// Sorts a vector in ascending order and drops repeats.
pub fn sort_distinct<T: Ranked>(items: Vec<T>) -> (out: Vec<T>)
    ensures
        out.deep_view() == sorted_distinct::<T>(items.deep_view()),
{
    let mut rest = sort(items);
    let ghost whole = rest.deep_view();
    proof {
        T::rank_is_total();
        law_sorted::<T>(items.deep_view());
    }
    let mut out: Vec<T> = Vec::new();
    assert(whole.skip(whole.len() as int) =~= Seq::<T::V>::empty());
    while rest.len() > 0
        invariant
            sorted_by(whole, rank_of::<T>()),
            total_ordering(rank_of::<T>()),
            rest.len() <= whole.len(),
            rest.deep_view() == whole.skip(whole.len() - rest.len()),
            out.deep_view() == squeezed(whole.take(whole.len() - rest.len())),
            out.len() > 0 <==> rest.len() < whole.len(),
            out.len() > 0 ==> out.deep_view().last() == whole[whole.len() - rest.len() - 1],
        decreases rest.len(),
    {
        let ghost done = whole.len() - rest.len();
        let ghost before = rest.deep_view();
        let item = rest.remove(0);
        proof {
            assert(rest.deep_view() =~= before.remove(0));
            assert(rest.deep_view() =~= whole.skip(done + 1));
            assert(before[0] == item.deep_view());
            assert(item.deep_view() == whole[done]);
            assert(whole.take(done + 1).drop_last() =~= whole.take(done));
            if done > 0 {
                assert(rank_of::<T>()(whole[done - 1], whole[done]));
                assert(T::rank(whole[done - 1], whole[done]));
            }
        }
        let ghost kept = out.deep_view();
        let n = out.len();
        // In ascending order the new item equals the last one kept exactly
        // when it does not come after it.
        if n == 0 || !item.at_most(&out[n - 1]) {
            out.push(item);
            assert(out.deep_view() =~= kept.push(whole[done]));
            proof {
                if done > 0 {
                    assert(whole[done - 1] != whole[done]) by {
                        assert(rank_of::<T>()(whole[done], whole[done]));
                    }
                }
            }
        } else {
            proof {
                assert(rank_of::<T>()(whole[done], whole[done - 1]));
            }
        }
    }
    assert(whole.take(whole.len() as int) =~= whole);
    out
}

// ─── Sorting by name ─────────────────────────────────────────────────────────

/// How many of the entries at the front have a name that does not come after
/// the given one.
pub open spec fn up_to_name<W>(entries: Seq<(Seq<char>, W)>, name: Seq<char>) -> nat
    decreases entries.len(),
{
    if entries.len() == 0 || !String::rank(entries[0].0, name) {
        0
    } else {
        1 + up_to_name(entries.drop_first(), name)
    }
}

/// The entries by name; those with the same name stay in their order.
pub open spec fn by_name<W>(entries: Seq<(Seq<char>, W)>) -> Seq<(Seq<char>, W)>
    decreases entries.len(),
{
    if entries.len() == 0 {
        Seq::empty()
    } else {
        let front = by_name(entries.drop_last());
        front.insert(up_to_name(front, entries.last().0) as int, entries.last())
    }
}

proof fn lemma_up_to_name<W>(entries: Seq<(Seq<char>, W)>, name: Seq<char>)
    ensures
        up_to_name(entries, name) <= entries.len(),
        forall|i: int|
            0 <= i < up_to_name(entries, name) ==> String::rank((#[trigger] entries[i]).0, name),
        up_to_name(entries, name) < entries.len() ==> !String::rank(
            entries[up_to_name(entries, name) as int].0,
            name,
        ),
    decreases entries.len(),
{
    if entries.len() > 0 && String::rank(entries[0].0, name) {
        let rest = entries.drop_first();
        lemma_up_to_name(rest, name);
        assert forall|i: int| 0 <= i < up_to_name(entries, name) implies String::rank(
            (#[trigger] entries[i]).0,
            name,
        ) by {
            if i > 0 {
                assert(rest[i - 1] == entries[i]);
            }
        }
    }
}

/// Whether no entry has a name that comes before that of an earlier one.
pub open spec fn in_name_order<W>(entries: Seq<(Seq<char>, W)>) -> bool {
    forall|i: int, j: int|
        0 <= i < j < entries.len() ==> String::rank(
            (#[trigger] entries[i]).0,
            (#[trigger] entries[j]).0,
        )
}

/// Sorting by name keeps every entry and puts the names in order.
pub proof fn law_by_name<W>(entries: Seq<(Seq<char>, W)>)
    ensures
        in_name_order(by_name(entries)),
        by_name(entries).to_multiset() == entries.to_multiset(),
        by_name(entries).len() == entries.len(),
    decreases entries.len(),
{
    String::rank_is_total();
    let le = rank_of::<String>();
    broadcast use vstd::seq_lib::group_to_multiset_ensures;

    if entries.len() > 0 {
        let rest = entries.drop_last();
        let last = entries.last();
        law_by_name(rest);
        let front = by_name(rest);
        let n = up_to_name(front, last.0) as int;
        lemma_up_to_name(front, last.0);
        let out = by_name(entries);
        vstd::seq_lib::to_multiset_insert(front, n, last);
        assert(entries =~= rest.push(last));
        vstd::seq_lib::to_multiset_build(rest, last);
        assert forall|i: int, j: int| 0 <= i < j < out.len() implies String::rank(
            (#[trigger] out[i]).0,
            (#[trigger] out[j]).0,
        ) by {
            if j < n {
                assert(String::rank(front[i].0, front[j].0));
            } else if i > n {
                assert(String::rank(front[i - 1].0, front[j - 1].0));
            } else if j == n {
                assert(String::rank(front[i].0, last.0));
            } else {
                assert(!le(front[n].0, last.0));
                assert(le(last.0, front[n].0));
                if i == n {
                    if j - 1 > n {
                        assert(String::rank(front[n].0, front[j - 1].0));
                        assert(le(front[n].0, front[j - 1].0));
                    }
                    assert(le(last.0, front[j - 1].0));
                } else {
                    assert(String::rank(front[i].0, front[j - 1].0));
                }
            }
        }
    }
}

/// Sorts entries by name; those with the same name stay in their order.
pub fn sort_by_name<V: DeepView>(items: Vec<(String, V)>) -> (out: Vec<(String, V)>)
    ensures
        out.deep_view() == by_name(items.deep_view()),
{
    let ghost whole = items.deep_view();
    let mut rest = items;
    let mut out: Vec<(String, V)> = Vec::new();
    assert(whole.take(0) =~= Seq::empty());
    assert(out.deep_view() =~= Seq::empty());
    assert(whole.skip(0) =~= whole);
    while rest.len() > 0
        invariant
            rest.len() <= whole.len(),
            rest.deep_view() == whole.skip(whole.len() - rest.len()),
            out.deep_view() == by_name(whole.take(whole.len() - rest.len())),
        decreases rest.len(),
    {
        let ghost done = whole.len() - rest.len();
        let ghost before = rest.deep_view();
        let ghost placed = out.deep_view();
        let item = rest.remove(0);
        let ghost name = item.0@;
        proof {
            assert(before[0] == item.deep_view());
            assert(whole[done] == item.deep_view());
            assert(rest.deep_view() =~= before.remove(0));
            assert(rest.deep_view() =~= whole.skip(done + 1));
            assert(whole.take(done + 1).drop_last() =~= whole.take(done));
            assert(placed.skip(0) =~= placed);
        }
        let mut i: usize = 0;
        while i < out.len() && out[i].0.at_most(&item.0)
            invariant
                i <= out.len(),
                name == item.0@,
                placed == out.deep_view(),
                up_to_name(placed, name) == i + up_to_name(placed.skip(i as int), name),
            decreases out.len() - i,
        {
            assert(placed.skip(i as int)[0] == out@[i as int].deep_view());
            assert(placed.skip(i as int).drop_first() =~= placed.skip(i + 1));
            i += 1;
        }
        proof {
            if i < out.len() {
                assert(placed.skip(i as int)[0] == out@[i as int].deep_view());
            }
            assert(up_to_name(placed, name) == i);
        }
        out.insert(i, item);
        assert(out.deep_view() =~= placed.insert(i as int, whole[done]));
    }
    assert(whole.take(whole.len() as int) =~= whole);
    out
}

// ─── What these orders are ───────────────────────────────────────────────────

/// Whether two sequences agree up to a place where the first one ends or has
/// the lesser element.
pub open spec fn before_at<A>(a: Seq<A>, b: Seq<A>, k: int, less: spec_fn(A, A) -> bool) -> bool {
    &&& 0 <= k <= a.len() && k <= b.len()
    &&& forall|i: int| 0 <= i < k ==> a[i] == b[i]
    &&& k == a.len() || (k < b.len() && a[k] != b[k] && less(a[k], b[k]))
}

proof fn lemma_lex_place<A>(a: Seq<A>, b: Seq<A>, less: spec_fn(A, A) -> bool)
    ensures
        lex_le(a, b, less) <==> exists|k: int| #[trigger] before_at(a, b, k, less),
    decreases a.len(),
{
    if a.len() == 0 {
        assert(before_at(a, b, 0, less));
    } else if b.len() == 0 {
        assert forall|k: int| !#[trigger] before_at(a, b, k, less) by {}
    } else if a[0] == b[0] {
        let (p, q) = (a.drop_first(), b.drop_first());
        lemma_lex_place(p, q, less);
        if lex_le(p, q, less) {
            let k = choose|k: int| #[trigger] before_at(p, q, k, less);
            assert(before_at(a, b, k + 1, less)) by {
                assert forall|i: int| 0 <= i < k + 1 implies a[i] == b[i] by {
                    if i > 0 {
                        assert(p[i - 1] == q[i - 1]);
                    }
                }
            }
        }
        if exists|k: int| #[trigger] before_at(a, b, k, less) {
            let k = choose|k: int| #[trigger] before_at(a, b, k, less);
            assert(k > 0);
            assert(before_at(p, q, k - 1, less)) by {
                assert forall|i: int| 0 <= i < k - 1 implies p[i] == q[i] by {
                    assert(a[i + 1] == b[i + 1]);
                }
            }
        }
    } else {
        if less(a[0], b[0]) {
            assert(before_at(a, b, 0, less));
        }
        assert forall|k: int| #[trigger] before_at(a, b, k, less) implies k == 0 by {
            if k > 0 {
                assert(a[0] == b[0]);
            }
        }
    }
}

/// Texts stand in the order of their first different characters, a text before
/// what extends it.
pub proof fn law_text_order(a: Seq<char>, b: Seq<char>, less: spec_fn(char, char) -> bool)
    requires
        less == (|x: char, y: char| x <= y),
    ensures
        String::rank(a, b) <==> exists|k: int| #[trigger] before_at(a, b, k, less),
{
    assert(rank_of::<char>() =~= less);
    lemma_lex_place(a, b, less);
}

/// Lists of texts stand in the order of their first different texts, a list
/// before what extends it.
pub proof fn law_list_order(a: Seq<Seq<char>>, b: Seq<Seq<char>>)
    ensures
        Vec::<String>::rank(a, b) <==> exists|k: int| #[trigger]
            before_at(a, b, k, rank_of::<String>()),
        forall|x: Seq<char>, y: Seq<char>| #[trigger]
            rank_of::<String>()(x, y) == String::rank(x, y),
{
    lemma_lex_place(a, b, rank_of::<String>());
}

/// Cores and other integers stand in the order of their values.
pub proof fn law_integer_order(a: i32, b: i32)
    ensures
        i32::rank(a, b) <==> a <= b,
{
}

// ─── What is sorted ──────────────────────────────────────────────────────────

/// Sorting puts every element as often as it occurs, each not after the next;
/// without repeats it puts every element once, each before the next.
pub proof fn law_sort<T: Ranked>(
    items: Vec<T>,
    out: Vec<T>,
    once: Vec<T>,
    x: T::V,
    i: int,
    j: int,
)
    requires
        call_ensures(sort::<T>, (items,), out),
        call_ensures(sort_distinct::<T>, (items,), once),
    ensures
        out.deep_view().to_multiset() == items.deep_view().to_multiset(),
        out.len() == items.len(),
        0 <= i < j < out.len() ==> T::rank(out.deep_view()[i], out.deep_view()[j]),
        once.deep_view().contains(x) <==> items.deep_view().contains(x),
        0 <= i < j < once.len() ==> T::rank(once.deep_view()[i], once.deep_view()[j])
            && once.deep_view()[i] != once.deep_view()[j],
{
    law_sorted::<T>(items.deep_view());
    law_sorted_distinct::<T>(items.deep_view());
    assert(out.deep_view().len() == out.len());
    assert(items.deep_view().len() == items.len());
    assert(once.deep_view().len() == once.len());
    if 0 <= i < j < out.len() {
        assert(rank_of::<T>()(out.deep_view()[i], out.deep_view()[j]));
    }
}

/// Sorting by name puts every entry as often as it occurs, in the order of the
/// names.
pub proof fn law_sort_by_name<V: DeepView>(
    items: Vec<(String, V)>,
    out: Vec<(String, V)>,
    i: int,
    j: int,
)
    requires
        call_ensures(sort_by_name::<V>, (items,), out),
    ensures
        out.deep_view().to_multiset() == items.deep_view().to_multiset(),
        0 <= i < j < out.len() ==> String::rank(out@[i].0@, out@[j].0@),
{
    law_by_name(items.deep_view());
    let deep = out.deep_view();
    assert(deep.len() == out.len());
    if 0 <= i < j < out.len() {
        assert(String::rank(deep[i].0, deep[j].0));
        assert(deep[i] == out@[i].deep_view());
        assert(deep[j] == out@[j].deep_view());
    }
}

/// Sorting by name leaves the entries of one name in their order.
pub proof fn law_by_name_stable<W>(entries: Seq<(Seq<char>, W)>, name: Seq<char>)
    ensures
        by_name(entries).filter(|e: (Seq<char>, W)| e.0 == name) == entries.filter(
            |e: (Seq<char>, W)| e.0 == name,
        ),
    decreases entries.len(),
{
    let of_name = |e: (Seq<char>, W)| e.0 == name;
    if entries.len() > 0 {
        let rest = entries.drop_last();
        let last = entries.last();
        let front = by_name(rest);
        law_by_name_stable(rest, name);
        law_by_name(rest);
        lemma_up_to_name(front, last.0);
        let n = up_to_name(front, last.0) as int;
        let (low, high) = (front.take(n), front.skip(n));
        assert(entries =~= rest.push(last));
        rest.lemma_filter_push(last, of_name);
        assert(front =~= low + high);
        assert(by_name(entries) =~= low.push(last) + high);
        Seq::filter_distributes_over_add(low, high, of_name);
        Seq::filter_distributes_over_add(low.push(last), high, of_name);
        low.lemma_filter_push(last, of_name);
        if last.0 == name {
            String::rank_is_total();
            let le = rank_of::<String>();
            assert forall|i: int| 0 <= i < high.len() implies !of_name(#[trigger] high[i]) by {
                assert(!le(front[n].0, name));
                if i > 0 {
                    assert(String::rank(front[n].0, front[n + i].0));
                }
                assert(le(front[n].0, high[i].0));
            }
            lemma_filter_none(high, of_name);
            assert(low.filter(of_name).push(last) + high.filter(of_name) =~= (low.filter(of_name)
                + high.filter(of_name)).push(last));
        }
    } else {
        assert(by_name(entries) =~= entries);
    }
}

proof fn lemma_filter_none<A>(s: Seq<A>, p: spec_fn(A) -> bool)
    requires
        forall|i: int| 0 <= i < s.len() ==> !p(#[trigger] s[i]),
    ensures
        s.filter(p) == Seq::<A>::empty(),
{
    s.lemma_all_neg_filter_empty(p);
    assert(s.filter(p) =~= Seq::<A>::empty());
}

} // verus!
