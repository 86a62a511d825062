//! The store: departments, each with its employees' names in ascending order.
use vstd::multiset::Multiset;
use vstd::prelude::*;

use crate::order::{
    lemma_le_transitive, lemma_lt_asymmetric, lemma_lt_connected, lemma_lt_irreflexive,
    lemma_lt_transitive, name_le, name_lt, names_sorted, str_lt,
};

verus! {

/// The abstract store: one `(department, names)` pair per department.
pub type Entries = Seq<(Seq<char>, Seq<Seq<char>>)>;

/// Departments strictly ascending; each one with at least one name, names ascending.
pub open spec fn entries_wf(v: Entries) -> bool {
    &&& forall|i: int, j: int| 0 <= i < j < v.len() ==> name_lt(#[trigger] v[i].0, #[trigger] v[j].0)
    &&& forall|i: int| 0 <= i < v.len() ==> (#[trigger] v[i]).1.len() > 0 && names_sorted(v[i].1)
}

/// The names filed under department `d`; empty where there is none.
pub open spec fn employees_in(v: Entries, d: Seq<char>) -> Seq<Seq<char>>
    decreases v.len(),
{
    if v.len() == 0 {
        seq![]
    } else if v[0].0 == d {
        v[0].1
    } else {
        employees_in(v.drop_first(), d)
    }
}

/// `new` is `old` with `name` filed under `dept`: that department gains one copy
/// of the name and stays sorted, and every other department is unchanged.
pub open spec fn added(old: Entries, name: Seq<char>, dept: Seq<char>, new: Entries) -> bool {
    &&& entries_wf(new)
    &&& names_sorted(employees_in(new, dept))
    &&& employees_in(new, dept).to_multiset() == employees_in(old, dept).to_multiset().insert(name)
    &&& forall|d: Seq<char>| d != dept ==> #[trigger] employees_in(new, d) == employees_in(old, d)
}

/// The text of one listing line.
pub open spec fn line(name: Seq<char>, dept: Seq<char>) -> Seq<char> {
    "Name: "@ + name + " Department: "@ + dept
}

/// One line for each name of a department, in the order given.
pub open spec fn dept_lines(names: Seq<Seq<char>>, dept: Seq<char>) -> Seq<Seq<char>> {
    names.map_values(|n: Seq<char>| line(n, dept))
}

/// The lines of every department, departments in the order of the entries.
pub open spec fn listing(v: Entries) -> Seq<Seq<char>>
    decreases v.len(),
{
    if v.len() == 0 {
        seq![]
    } else {
        listing(v.drop_last()) + dept_lines(v.last().1, v.last().0)
    }
}

pub open spec fn names_view(v: Seq<String>) -> Seq<Seq<char>> {
    v.map_values(|s: String| s@)
}

/// Department names mapped to their employees' names, kept as a vector of
/// departments in ascending order of name.
pub struct EmployeeDb {
    db: Vec<(String, Vec<String>)>,
}

impl View for EmployeeDb {
    type V = Entries;

    closed spec fn view(&self) -> Entries {
        self.db@.map_values(|e: (String, Vec<String>)| (e.0@, names_view(e.1@)))
    }
}

impl EmployeeDb {
    pub open spec fn wf(&self) -> bool {
        entries_wf(self@)
    }
}

/// An empty store.
pub fn new_employee_db() -> (r: EmployeeDb)
    ensures
        r.wf(),
        r@ == Seq::<(Seq<char>, Seq<Seq<char>>)>::empty(),
{
    let r = EmployeeDb { db: Vec::new() };
    assert(r@ =~= Seq::<(Seq<char>, Seq<Seq<char>>)>::empty());
    r
}

/// Looking up a department that stands at index `i`.
pub proof fn lemma_employees_in_at(v: Entries, i: int, d: Seq<char>)
    requires
        0 <= i < v.len(),
        v[i].0 == d,
        forall|k: int| 0 <= k < i ==> v[k].0 != d,
    ensures
        employees_in(v, d) == v[i].1,
    decreases i,
{
    if i > 0 {
        lemma_employees_in_at(v.drop_first(), i - 1, d);
    }
}

/// Looking up a department that no entry has.
pub proof fn lemma_employees_in_absent(v: Entries, d: Seq<char>)
    requires
        forall|k: int| 0 <= k < v.len() ==> v[k].0 != d,
    ensures
        employees_in(v, d) == Seq::<Seq<char>>::empty(),
    decreases v.len(),
{
    if v.len() > 0 {
        lemma_employees_in_absent(v.drop_first(), d);
    }
}

/// In a well-formed store, a lookup finds the entry with that department, or nothing.
pub proof fn lemma_employees_in_wf(v: Entries, d: Seq<char>)
    requires
        entries_wf(v),
    ensures
        forall|i: int| 0 <= i < v.len() && #[trigger] v[i].0 == d ==> employees_in(v, d) == v[i].1,
        (forall|i: int| 0 <= i < v.len() ==> #[trigger] v[i].0 != d) ==> employees_in(v, d)
            == Seq::<Seq<char>>::empty(),
{
    assert forall|i: int| 0 <= i < v.len() && #[trigger] v[i].0 == d implies employees_in(v, d)
        == v[i].1 by {
        assert forall|k: int| 0 <= k < i implies v[k].0 != d by {
            assert(name_lt(v[k].0, v[i].0));
            lemma_lt_irreflexive(d);
        }
        lemma_employees_in_at(v, i, d);
    }
    if forall|i: int| 0 <= i < v.len() ==> #[trigger] v[i].0 != d {
        lemma_employees_in_absent(v, d);
    }
}

/// Inserting `x` after the names that come before it keeps a sorted sequence sorted.
proof fn lemma_insert_keeps_sorted(s: Seq<Seq<char>>, j: int, x: Seq<char>)
    requires
        names_sorted(s),
        0 <= j <= s.len(),
        forall|k: int| 0 <= k < j ==> name_lt(#[trigger] s[k], x),
        j < s.len() ==> !name_lt(s[j], x),
    ensures
        names_sorted(s.insert(j, x)),
{
    let t = s.insert(j, x);
    if j < s.len() {
        lemma_lt_connected(s[j], x);
    }
    assert forall|a: int, b: int| 0 <= a < b < t.len() implies name_le(#[trigger] t[a], #[trigger] t[b]) by {
        if b < j {
            assert(name_le(s[a], s[b]));
        } else if a < j && b == j {
        } else if a < j && b > j {
            assert(name_le(s[a], s[b - 1]));
        } else if a == j {
            if b - 1 > j {
                assert(name_le(s[j], s[b - 1]));
                lemma_le_transitive(x, s[j], s[b - 1]);
            }
        } else {
            assert(name_le(s[a - 1], s[b - 1]));
        }
    }
}

/// Files `name` in a sorted vector of names, at its place in the order.
fn insert_name(names: &mut Vec<String>, name: &str)
    requires
        names_sorted(names_view(old(names)@)),
    ensures
        names_sorted(names_view(final(names)@)),
        names_view(final(names)@).to_multiset() == names_view(old(names)@).to_multiset().insert(
            name@,
        ),
{
    let n = names.len();
    let mut j: usize = 0;
    while j < n && str_lt(names[j].as_str(), name)
        invariant
            n == names@.len(),
            j <= n,
            forall|k: int| 0 <= k < j ==> name_lt(#[trigger] names@[k]@, name@),
        decreases n - j,
    {
        j = j + 1;
    }
    let ghost before = names_view(names@);
    let s = String::from_str(name);
    names.insert(j, s);
    proof {
        assert(names_view(names@) =~= before.insert(j as int, name@));
        lemma_insert_keeps_sorted(before, j as int, name@);
        vstd::seq_lib::to_multiset_insert(before, j as int, name@);
    }
}

/// Replacing the names of the entry at `i` leaves the other departments as they were.
proof fn lemma_update_others(v: Entries, w: Entries, i: int, dept: Seq<char>)
    requires
        entries_wf(v),
        entries_wf(w),
        0 <= i < v.len(),
        v[i].0 == dept,
        w.len() == v.len(),
        w[i].0 == dept,
        forall|k: int| 0 <= k < v.len() && k != i ==> w[k] == v[k],
    ensures
        forall|d: Seq<char>| d != dept ==> #[trigger] employees_in(w, d) == employees_in(v, d),
{
    assert forall|d: Seq<char>| d != dept implies #[trigger] employees_in(w, d) == employees_in(
        v,
        d,
    ) by {
        lemma_employees_in_wf(v, d);
        lemma_employees_in_wf(w, d);
        if exists|k: int| 0 <= k < v.len() && #[trigger] v[k].0 == d {
            let k = choose|k: int| 0 <= k < v.len() && #[trigger] v[k].0 == d;
            assert(w[k].0 == d);
        } else {
            assert forall|k: int| 0 <= k < w.len() implies #[trigger] w[k].0 != d by {
                if k != i {
                    assert(v[k].0 != d);
                }
            }
        }
    }
}

/// Inserting a new department at `i` leaves the other departments as they were.
proof fn lemma_insert_others(v: Entries, i: int, e: (Seq<char>, Seq<Seq<char>>))
    requires
        entries_wf(v),
        entries_wf(v.insert(i, e)),
        0 <= i <= v.len(),
    ensures
        forall|d: Seq<char>| d != e.0 ==> #[trigger] employees_in(v.insert(i, e), d)
            == employees_in(v, d),
{
    let w = v.insert(i, e);
    assert forall|d: Seq<char>| d != e.0 implies #[trigger] employees_in(w, d) == employees_in(
        v,
        d,
    ) by {
        lemma_employees_in_wf(v, d);
        lemma_employees_in_wf(w, d);
        if exists|k: int| 0 <= k < v.len() && #[trigger] v[k].0 == d {
            let k = choose|k: int| 0 <= k < v.len() && #[trigger] v[k].0 == d;
            if k < i {
                assert(w[k].0 == d);
            } else {
                assert(w[k + 1].0 == d);
            }
        } else {
            assert forall|k: int| 0 <= k < w.len() implies #[trigger] w[k].0 != d by {
                if k < i {
                    assert(v[k].0 != d);
                } else if k > i {
                    assert(v[k - 1].0 != d);
                }
            }
        }
    }
}

impl EmployeeDb {
    /// Files `name` under `dept`, creating the department if it has no entry yet.
    /// Names already there stay, equal ones included.
    pub fn add_employee(&mut self, name: &str, dept: &str)
        requires
            old(self).wf(),
        ensures
            final(self).wf(),
            added(old(self)@, name@, dept@, final(self)@),
    {
        let n = self.db.len();
        let mut i: usize = 0;
        while i < n && str_lt(self.db[i].0.as_str(), dept)
            invariant
                n == self@.len(),
                n == self.db@.len(),
                self.wf(),
                i <= n,
                forall|k: int| 0 <= k < i ==> name_lt(#[trigger] self@[k].0, dept@),
            decreases n - i,
        {
            assert(self@[i as int].0 == self.db@[i as int].0@);
            i = i + 1;
        }
        let ghost v = self@;
        assert(i < n ==> v[i as int].0 == self.db@[i as int].0@);
        if i < n && !str_lt(dept, self.db[i].0.as_str()) {
            proof {
                lemma_lt_connected(v[i as int].0, dept@);
            }
            let (d, mut names) = self.db.remove(i);
            assert(names_view(names@) == v[i as int].1);
            insert_name(&mut names, name);
            let ghost new_names = names_view(names@);
            self.db.insert(i, (d, names));
            proof {
                assert(self@ =~= v.update(i as int, (dept@, new_names)));
                lemma_extend_department(v, i as int, name@, new_names);
            }
        } else {
            let entry = (String::from_str(dept), vec![String::from_str(name)]);
            self.db.insert(i, entry);
            proof {
                assert(names_view(entry.1@) =~= seq![name@]);
                assert(self@ =~= v.insert(i as int, (dept@, seq![name@])));
                lemma_new_department(v, i as int, name@, dept@);
            }
        }
    }
}

/// Adding a name to the department at index `i`.
proof fn lemma_extend_department(v: Entries, i: int, name: Seq<char>, names: Seq<Seq<char>>)
    requires
        entries_wf(v),
        0 <= i < v.len(),
        names_sorted(names),
        names.to_multiset() == v[i].1.to_multiset().insert(name),
    ensures
        added(v, name, v[i].0, v.update(i, (v[i].0, names))),
{
    let dept = v[i].0;
    let w = v.update(i, (dept, names));
    lemma_employees_in_wf(v, dept);
    vstd::seq_lib::to_multiset_len(names);
    assert(names.to_multiset().count(name) > 0);
    assert forall|a: int, b: int| 0 <= a < b < w.len() implies name_lt(
        #[trigger] w[a].0,
        #[trigger] w[b].0,
    ) by {
        assert(name_lt(v[a].0, v[b].0));
    }
    assert forall|a: int| 0 <= a < w.len() implies (#[trigger] w[a]).1.len() > 0 && names_sorted(
        w[a].1,
    ) by {
        if a != i {
            assert(w[a] == v[a]);
        }
    }
    lemma_employees_in_wf(w, dept);
    lemma_update_others(v, w, i, dept);
}

/// Adding a first name under a department that has no entry, at its place `i`.
proof fn lemma_new_department(v: Entries, i: int, name: Seq<char>, dept: Seq<char>)
    requires
        entries_wf(v),
        0 <= i <= v.len(),
        forall|k: int| 0 <= k < i ==> name_lt(#[trigger] v[k].0, dept),
        i < v.len() ==> name_lt(dept, v[i].0),
    ensures
        added(v, name, dept, v.insert(i, (dept, seq![name]))),
{
    let e = (dept, seq![name]);
    let w = v.insert(i, e);
    assert forall|k: int| 0 <= k < v.len() implies #[trigger] v[k].0 != dept by {
        lemma_lt_irreflexive(dept);
        if k > i {
            assert(name_lt(v[i].0, v[k].0));
            lemma_lt_asymmetric(dept, v[i].0);
            lemma_lt_transitive(dept, v[i].0, v[k].0);
        } else if k == i {
            lemma_lt_asymmetric(dept, v[i].0);
        }
    }
    lemma_employees_in_wf(v, dept);
    assert forall|a: int, b: int| 0 <= a < b < w.len() implies name_lt(
        #[trigger] w[a].0,
        #[trigger] w[b].0,
    ) by {
        if b < i {
            assert(name_lt(v[a].0, v[b].0));
        } else if b == i {
        } else if a < i {
            assert(name_lt(v[a].0, v[b - 1].0));
        } else if a == i {
            if b - 1 > i {
                assert(name_lt(v[i].0, v[b - 1].0));
                lemma_lt_transitive(dept, v[i].0, v[b - 1].0);
            }
        } else {
            assert(name_lt(v[a - 1].0, v[b - 1].0));
        }
    }
    assert forall|a: int| 0 <= a < w.len() implies (#[trigger] w[a]).1.len() > 0 && names_sorted(
        w[a].1,
    ) by {
        if a < i {
            assert(w[a] == v[a]);
        } else if a > i {
            assert(w[a] == v[a - 1]);
        }
    }
    assert(entries_wf(w));
    lemma_employees_in_wf(w, dept);
    assert(w[i] == e);
    assert(seq![name].to_multiset() =~= Multiset::<Seq<char>>::empty().insert(name)) by {
        broadcast use vstd::seq_lib::group_to_multiset_ensures;

        assert(Seq::<Seq<char>>::empty().to_multiset() =~= Multiset::<Seq<char>>::empty());
        vstd::seq_lib::to_multiset_build(Seq::<Seq<char>>::empty(), name);
        assert(Seq::<Seq<char>>::empty().push(name) =~= seq![name]);
    }
    assert(Seq::<Seq<char>>::empty().to_multiset() =~= Multiset::<Seq<char>>::empty()) by {
        broadcast use vstd::seq_lib::group_to_multiset_ensures;
    }
    lemma_insert_others(v, i, e);
    assert(employees_in(w, dept) == seq![name]);
    assert(names_sorted(seq![name]));
}

impl EmployeeDb {
    /// The names filed under `dept`, ascending; empty for a department with no entry.
    pub fn get_employees_by_dept(&self, dept: &str) -> (r: Vec<&String>)
        ensures
            r@.map_values(|s: &String| s@) == employees_in(self@, dept@),
    {
        let n = self.db.len();
        let mut i: usize = 0;
        assert(self@.skip(0) =~= self@);
        while i < n
            invariant
                n == self.db@.len(),
                n == self@.len(),
                i <= n,
                employees_in(self@, dept@) == employees_in(self@.skip(i as int), dept@),
            decreases n - i,
        {
            let key = self.db[i].0.as_str();
            assert(self@[i as int].0 == key@);
            if !str_lt(key, dept) && !str_lt(dept, key) {
                proof {
                    lemma_lt_connected(key@, dept@);
                }
                let names = &self.db[i].1;
                let m = names.len();
                let mut r: Vec<&String> = Vec::new();
                let mut j: usize = 0;
                while j < m
                    invariant
                        m == names@.len(),
                        j <= m,
                        r@.map_values(|s: &String| s@) =~= names_view(names@).take(j as int),
                    decreases m - j,
                {
                    let ghost before = r@.map_values(|s: &String| s@);
                    r.push(&names[j]);
                    assert(r@.map_values(|s: &String| s@) =~= before.push(names@[j as int]@));
                    assert(names_view(names@).take(j + 1) =~= names_view(names@).take(
                        j as int,
                    ).push(names@[j as int]@));
                    j = j + 1;
                }
                assert(names_view(names@).take(m as int) =~= names_view(names@));
                assert(self@.skip(i as int)[0] == self@[i as int]);
                return r;
            }
            proof {
                lemma_lt_irreflexive(dept@);
                assert(self@.skip(i as int)[0] == self@[i as int]);
                assert(self@.skip(i as int).drop_first() =~= self@.skip(i + 1));
            }
            i = i + 1;
        }
        assert(self@.skip(n as int) =~= Entries::empty());
        let r: Vec<&String> = Vec::new();
        assert(r@.map_values(|s: &String| s@) =~= Seq::<Seq<char>>::empty());
        r
    }

    /// One line for each employee: departments ascending, and within one the
    /// names ascending.
    pub fn list_employees(&self) -> (r: Vec<String>)
        ensures
            names_view(r@) == listing(self@),
    {
        let n = self.db.len();
        let mut r: Vec<String> = Vec::new();
        let mut i: usize = 0;
        assert(self@.take(0) =~= Entries::empty());
        while i < n
            invariant
                n == self.db@.len(),
                n == self@.len(),
                i <= n,
                names_view(r@) == listing(self@.take(i as int)),
            decreases n - i,
        {
            let mut lines = build_employee_listing(&self.db[i].1, self.db[i].0.as_str());
            let ghost before = r@;
            r.append(&mut lines);
            proof {
                assert(self@.take(i + 1).drop_last() =~= self@.take(i as int));
                assert(self@.take(i + 1).last() == self@[i as int]);
                assert(names_view(r@) =~= names_view(before) + dept_lines(
                    self@[i as int].1,
                    self@[i as int].0,
                ));
            }
            i = i + 1;
        }
        assert(self@.take(n as int) =~= self@);
        r
    }
}

impl EmployeeDb {
    /// The departments that hold at least one name, ascending.
    pub fn departments(&self) -> (r: Vec<&String>)
        ensures
            r@.map_values(|s: &String| s@) == self@.map_values(
                |e: (Seq<char>, Seq<Seq<char>>)| e.0,
            ),
    {
        let n = self.db.len();
        let mut r: Vec<&String> = Vec::new();
        let mut i: usize = 0;
        while i < n
            invariant
                n == self.db@.len(),
                n == self@.len(),
                i <= n,
                r@.map_values(|s: &String| s@) =~= self@.map_values(
                    |e: (Seq<char>, Seq<Seq<char>>)| e.0,
                ).take(i as int),
            decreases n - i,
        {
            let ghost before = r@.map_values(|s: &String| s@);
            r.push(&self.db[i].0);
            assert(r@.map_values(|s: &String| s@) =~= before.push(self@[i as int].0));
            i = i + 1;
        }
        assert(self@.map_values(|e: (Seq<char>, Seq<Seq<char>>)| e.0).take(n as int)
            =~= self@.map_values(|e: (Seq<char>, Seq<Seq<char>>)| e.0));
        r
    }
}

/// The listing line of one employee.
fn format_line(name: &str, dept: &str) -> (r: String)
    ensures
        r@ == line(name@, dept@),
{
    let mut s = String::from_str("Name: ");
    s.append(name);
    s.append(" Department: ");
    s.append(dept);
    s
}

/// One listing line for each of `employees`, in their order, all under `dept`.
pub fn build_employee_listing(employees: &Vec<String>, dept: &str) -> (r: Vec<String>)
    ensures
        names_view(r@) == dept_lines(names_view(employees@), dept@),
{
    let n = employees.len();
    let mut r: Vec<String> = Vec::new();
    let mut j: usize = 0;
    while j < n
        invariant
            n == employees@.len(),
            j <= n,
            names_view(r@) =~= dept_lines(names_view(employees@).take(j as int), dept@),
        decreases n - j,
    {
        let l = format_line(employees[j].as_str(), dept);
        let ghost before = names_view(r@);
        r.push(l);
        assert(names_view(r@) =~= before.push(l@));
        assert(names_view(employees@).take(j + 1) =~= names_view(employees@).take(j as int).push(
            employees@[j as int]@,
        ));
        j = j + 1;
    }
    assert(names_view(employees@).take(n as int) =~= names_view(employees@));
    r
}

} // verus!
