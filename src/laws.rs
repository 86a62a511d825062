//! What holds of the store over whole histories of additions.
use vstd::multiset::Multiset;
use vstd::prelude::*;

use crate::directory::{
    added, employees_in, entries_wf, lemma_employees_in_absent, lemma_employees_in_at,
    lemma_employees_in_wf, listing, Entries,
};
use crate::order::{
    lemma_le_total_ordering, lemma_le_transitive, lemma_lt_connected, lemma_lt_irreflexive,
    lemma_lt_transitive, lemma_names_sorted_by, name_le, name_lt, names_sorted,
};

verus! {

/// The names that `ops`, a history of `(name, department)` additions, filed under `d`.
pub open spec fn names_added(ops: Seq<(Seq<char>, Seq<char>)>, d: Seq<char>) -> Multiset<
    Seq<char>,
>
    decreases ops.len(),
{
    if ops.len() == 0 {
        Multiset::empty()
    } else if ops.last().1 == d {
        names_added(ops.drop_last(), d).insert(ops.last().0)
    } else {
        names_added(ops.drop_last(), d)
    }
}

/// `states` are the stores that the additions `ops` pass through, from an empty one.
pub open spec fn adds_trace(ops: Seq<(Seq<char>, Seq<char>)>, states: Seq<Entries>) -> bool {
    &&& states.len() == ops.len() + 1
    &&& states[0] == Seq::<(Seq<char>, Seq<Seq<char>>)>::empty()
    &&& forall|k: int|
        0 <= k < ops.len() ==> added(#[trigger] states[k], ops[k].0, ops[k].1, states[k + 1])
}

/// After any history of additions, each department holds exactly the names that
/// were added to it, as many times as they were added, in ascending order; a
/// department that nothing was added to holds no names.
pub proof fn lemma_adds_collect(
    ops: Seq<(Seq<char>, Seq<char>)>,
    states: Seq<Entries>,
    d: Seq<char>,
)
    requires
        adds_trace(ops, states),
    ensures
        entries_wf(states.last()),
        names_sorted(employees_in(states.last(), d)),
        employees_in(states.last(), d).to_multiset() == names_added(ops, d),
        names_added(ops, d) == Multiset::<Seq<char>>::empty() ==> employees_in(states.last(), d)
            == Seq::<Seq<char>>::empty(),
    decreases ops.len(),
{
    let last = states.last();
    if ops.len() == 0 {
        assert(employees_in(last, d) == Seq::<Seq<char>>::empty());
        assert(Seq::<Seq<char>>::empty().to_multiset() =~= Multiset::<Seq<char>>::empty()) by {
            broadcast use vstd::seq_lib::group_to_multiset_ensures;
        }
    } else {
        let n = ops.len() - 1;
        let prev = states.drop_last();
        assert forall|k: int| 0 <= k < ops.drop_last().len() implies added(
            #[trigger] prev[k],
            ops.drop_last()[k].0,
            ops.drop_last()[k].1,
            prev[k + 1],
        ) by {
            assert(added(states[k], ops[k].0, ops[k].1, states[k + 1]));
        }
        lemma_adds_collect(ops.drop_last(), prev, d);
        assert(prev.last() == states[n]);
        assert(added(states[n], ops[n].0, ops[n].1, states[n + 1]));
        vstd::seq_lib::to_multiset_len(employees_in(last, d));
    }
}

/// A well-formed store is determined by what each department holds.
pub proof fn lemma_entries_determined(a: Entries, b: Entries)
    requires
        entries_wf(a),
        entries_wf(b),
        forall|d: Seq<char>| #[trigger] employees_in(a, d) == employees_in(b, d),
    ensures
        a == b,
    decreases a.len() + b.len(),
{
    if a.len() == 0 && b.len() == 0 {
        assert(a =~= b);
    } else if a.len() == 0 {
        lemma_employees_in_at(b, 0, b[0].0);
        assert(employees_in(a, b[0].0) == Seq::<Seq<char>>::empty());
    } else if b.len() == 0 {
        lemma_employees_in_at(a, 0, a[0].0);
        assert(employees_in(b, a[0].0) == Seq::<Seq<char>>::empty());
    } else {
        let x = a[0].0;
        let y = b[0].0;
        lemma_employees_in_at(a, 0, x);
        lemma_employees_in_at(b, 0, y);
        lemma_lt_connected(x, y);
        if name_lt(x, y) {
            lemma_below_first_key(b, x);
            assert(false);
        } else if name_lt(y, x) {
            lemma_below_first_key(a, y);
            assert(false);
        }
        assert(x == y);
        let ta = a.drop_first();
        let tb = b.drop_first();
        lemma_below_first_key_tail(a);
        lemma_below_first_key_tail(b);
        assert forall|d: Seq<char>| #[trigger] employees_in(ta, d) == employees_in(tb, d) by {
            if d != x {
                assert(employees_in(a, d) == employees_in(ta, d));
                assert(employees_in(b, d) == employees_in(tb, d));
            }
        }
        assert(entries_wf(ta)) by {
            assert forall|i: int, j: int| 0 <= i < j < ta.len() implies name_lt(
                #[trigger] ta[i].0,
                #[trigger] ta[j].0,
            ) by {
                assert(name_lt(a[i + 1].0, a[j + 1].0));
            }
            assert forall|i: int| 0 <= i < ta.len() implies (#[trigger] ta[i]).1.len() > 0
                && names_sorted(ta[i].1) by {
                assert(ta[i] == a[i + 1]);
            }
        }
        assert(entries_wf(tb)) by {
            assert forall|i: int, j: int| 0 <= i < j < tb.len() implies name_lt(
                #[trigger] tb[i].0,
                #[trigger] tb[j].0,
            ) by {
                assert(name_lt(b[i + 1].0, b[j + 1].0));
            }
            assert forall|i: int| 0 <= i < tb.len() implies (#[trigger] tb[i]).1.len() > 0
                && names_sorted(tb[i].1) by {
                assert(tb[i] == b[i + 1]);
            }
        }
        lemma_entries_determined(ta, tb);
        assert(a =~= seq![a[0]] + ta);
        assert(b =~= seq![b[0]] + tb);
    }
}

/// A department that comes before every department of a store has no names there.
proof fn lemma_below_first_key(v: Entries, x: Seq<char>)
    requires
        entries_wf(v),
        v.len() > 0,
        name_lt(x, v[0].0),
    ensures
        employees_in(v, x) == Seq::<Seq<char>>::empty(),
{
    assert forall|k: int| 0 <= k < v.len() implies #[trigger] v[k].0 != x by {
        lemma_lt_irreflexive(x);
        if k > 0 {
            assert(name_lt(v[0].0, v[k].0));
            lemma_lt_transitive(x, v[0].0, v[k].0);
        }
    }
    lemma_employees_in_absent(v, x);
}

/// The first department of a store has no names in the rest of it.
proof fn lemma_below_first_key_tail(v: Entries)
    requires
        entries_wf(v),
        v.len() > 0,
    ensures
        employees_in(v.drop_first(), v[0].0) == Seq::<Seq<char>>::empty(),
{
    let t = v.drop_first();
    assert forall|k: int| 0 <= k < t.len() implies #[trigger] t[k].0 != v[0].0 by {
        assert(name_lt(v[0].0, v[k + 1].0));
        lemma_lt_irreflexive(v[0].0);
    }
    lemma_employees_in_absent(t, v[0].0);
}

/// Two histories of additions that file the same names under each department,
/// whatever their order, leave stores that list the same lines in the same order.
pub proof fn lemma_listing_order_independent(
    ops1: Seq<(Seq<char>, Seq<char>)>,
    states1: Seq<Entries>,
    ops2: Seq<(Seq<char>, Seq<char>)>,
    states2: Seq<Entries>,
)
    requires
        adds_trace(ops1, states1),
        adds_trace(ops2, states2),
        forall|d: Seq<char>| #[trigger] names_added(ops1, d) == names_added(ops2, d),
    ensures
        listing(states1.last()) == listing(states2.last()),
{
    let a = states1.last();
    let b = states2.last();
    lemma_adds_collect(ops1, states1, Seq::<char>::empty());
    lemma_adds_collect(ops2, states2, Seq::<char>::empty());
    assert forall|d: Seq<char>| #[trigger] employees_in(a, d) == employees_in(b, d) by {
        lemma_adds_collect(ops1, states1, d);
        lemma_adds_collect(ops2, states2, d);
        lemma_le_total_ordering();
        lemma_names_sorted_by(employees_in(a, d));
        lemma_names_sorted_by(employees_in(b, d));
        vstd::seq_lib::lemma_sorted_unique(
            employees_in(a, d),
            employees_in(b, d),
            |x: Seq<char>, y: Seq<char>| name_le(x, y),
        );
    }
    lemma_entries_determined(a, b);
}

/// How many names at the start of `s` come strictly before `x`.
pub open spec fn names_before(s: Seq<Seq<char>>, x: Seq<char>) -> nat
    decreases s.len(),
{
    if s.len() > 0 && name_lt(s[0], x) {
        1 + names_before(s.drop_first(), x)
    } else {
        0
    }
}

proof fn lemma_names_before(s: Seq<Seq<char>>, x: Seq<char>)
    ensures
        names_before(s, x) <= s.len(),
        forall|k: int| 0 <= k < names_before(s, x) ==> name_lt(#[trigger] s[k], x),
        names_before(s, x) < s.len() ==> !name_lt(s[names_before(s, x) as int], x),
    decreases s.len(),
{
    if s.len() > 0 && name_lt(s[0], x) {
        lemma_names_before(s.drop_first(), x);
        assert forall|k: int| 0 <= k < names_before(s, x) implies name_lt(#[trigger] s[k], x) by {
            if k > 0 {
                assert(s[k] == s.drop_first()[k - 1]);
            }
        }
    }
}

/// Adding a name and then looking up its department gives the names that were
/// there before, with the new one inserted after those that come before it and
/// ahead of the others.
pub proof fn lemma_add_then_query(old: Entries, name: Seq<char>, dept: Seq<char>, new: Entries)
    requires
        entries_wf(old),
        added(old, name, dept, new),
    ensures
        ({
            let before = employees_in(old, dept);
            let i = names_before(before, name) as int;
            &&& employees_in(new, dept) == before.insert(i, name)
            &&& forall|k: int| 0 <= k < i ==> name_lt(#[trigger] before[k], name)
            &&& forall|k: int| i <= k < before.len() ==> name_le(name, #[trigger] before[k])
        }),
{
    let before = employees_in(old, dept);
    let after = employees_in(new, dept);
    let i = names_before(before, name) as int;
    lemma_employees_in_wf(old, dept);
    if exists|j: int| 0 <= j < old.len() && #[trigger] old[j].0 == dept {
        let j = choose|j: int| 0 <= j < old.len() && #[trigger] old[j].0 == dept;
        assert(names_sorted(old[j].1));
    }
    assert(names_sorted(before));
    lemma_names_before(before, name);
    let t = before.insert(i, name);
    assert forall|a: int, b: int| 0 <= a < b < t.len() implies name_le(
        #[trigger] t[a],
        #[trigger] t[b],
    ) by {
        if i < before.len() {
            lemma_lt_connected(before[i], name);
        }
        if b < i {
            assert(name_le(before[a], before[b]));
        } else if a < i && b == i {
        } else if a < i && b > i {
            assert(name_le(before[a], before[b - 1]));
        } else if a == i {
            if b - 1 > i {
                assert(name_le(before[i], before[b - 1]));
                lemma_le_transitive(name, before[i], before[b - 1]);
            }
        } else {
            assert(name_le(before[a - 1], before[b - 1]));
        }
    }
    vstd::seq_lib::to_multiset_insert(before, i, name);
    lemma_le_total_ordering();
    lemma_names_sorted_by(after);
    lemma_names_sorted_by(t);
    vstd::seq_lib::lemma_sorted_unique(after, t, |x: Seq<char>, y: Seq<char>| name_le(x, y));
    assert forall|k: int| i <= k < before.len() implies name_le(name, #[trigger] before[k]) by {
        assert(t[k + 1] == before[k]);
        assert(name_le(t[i], t[k + 1]));
    }
}

} // verus!
