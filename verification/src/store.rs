//! The employee store: an insertion-ordered employee list and a
//! department index, kept consistent.
//!
//! The index maps each canonical department name to the names of its
//! employees in insertion order. It stores names only, so two
//! employees with the same name and department are indistinguishable
//! within it; both are still retained, in the list and in the index.

use vstd::prelude::*;

use crate::parse::spec_parse_add;
use crate::parse::spec_list_all;
use crate::parse::spec_list_dept;
use crate::parse::parse_add_command;
use crate::parse::parse_list_command;
use crate::parse::AddCommand;
use crate::parse::ListCommand;
use crate::text::canon_of;
use crate::text::str_eq;
use crate::text::tokens_of;

verus! {

/// One hired person; the department is held in canonical form.
pub struct Employee {
    pub name: String,
    pub department: String,
}

impl View for Employee {
    type V = (Seq<char>, Seq<char>);

    open spec fn view(&self) -> (Seq<char>, Seq<char>) {
        (self.name@, self.department@)
    }
}

/// The character sequences of a list of names.
pub open spec fn names_view(v: Seq<String>) -> Seq<Seq<char>> {
    Seq::new(v.len(), |j: int| v[j]@)
}

/// The names, in insertion order, of the employees of department `d`.
pub open spec fn names_in(emps: Seq<(Seq<char>, Seq<char>)>, d: Seq<char>) -> Seq<Seq<char>>
    decreases emps.len(),
{
    if emps.len() == 0 {
        Seq::empty()
    } else {
        let rest = names_in(emps.drop_last(), d);
        if emps.last().1 == d {
            rest.push(emps.last().0)
        } else {
            rest
        }
    }
}

/// Whether the index has an entry for department `d`.
pub open spec fn index_has(idx: Seq<(Seq<char>, Seq<Seq<char>>)>, d: Seq<char>) -> bool {
    exists|i: int| 0 <= i < idx.len() && idx[i].0 == d
}

/// The position of department `d`'s entry in the index.
pub open spec fn index_pos(idx: Seq<(Seq<char>, Seq<Seq<char>>)>, d: Seq<char>) -> int {
    choose|i: int| 0 <= i < idx.len() && idx[i].0 == d
}

/// The names recorded under department `d` in the index.
pub open spec fn index_names(idx: Seq<(Seq<char>, Seq<Seq<char>>)>, d: Seq<char>) -> Seq<
    Seq<char>,
> {
    idx[index_pos(idx, d)].1
}

/// The index after recording employee `name` under department `d`:
/// the entry for `d` gets `name` appended; a department not seen
/// before gets a fresh entry at the end.
pub open spec fn index_add(
    idx: Seq<(Seq<char>, Seq<Seq<char>>)>,
    d: Seq<char>,
    name: Seq<char>,
) -> Seq<(Seq<char>, Seq<Seq<char>>)> {
    if index_has(idx, d) {
        idx.update(index_pos(idx, d), (d, idx[index_pos(idx, d)].1.push(name)))
    } else {
        idx.push((d, seq![name]))
    }
}

/// Whether the keys of the index are pairwise distinct.
pub open spec fn keys_distinct(idx: Seq<(Seq<char>, Seq<Seq<char>>)>) -> bool {
    forall|i: int, j: int| 0 <= i < j < idx.len() ==> idx[i].0 != idx[j].0
}

/// The roster and its department index.
pub struct EmployeesDB {
    pub employees: Vec<Employee>,
    pub dept_to_employees: Vec<(String, Vec<String>)>,
}

impl EmployeesDB {
    /// The employees as (name, department) character sequences, in
    /// insertion order.
    pub open spec fn emps_view(self) -> Seq<(Seq<char>, Seq<char>)> {
        self.employees@.map_values(|e: Employee| e@)
    }

    /// The department index as (department, names) character
    /// sequences, in order of first insertion.
    pub open spec fn index_view(self) -> Seq<(Seq<char>, Seq<Seq<char>>)> {
        Seq::new(
            self.dept_to_employees@.len(),
            |i: int|
                (self.dept_to_employees@[i].0@, names_view(self.dept_to_employees@[i].1@)),
        )
    }

    /// The store invariant: index keys are pairwise distinct, every
    /// entry lists exactly the names of that department's employees in
    /// insertion order, and every employee's department has an entry.
    pub open spec fn wf(self) -> bool {
        &&& keys_distinct(self.index_view())
        &&& forall|i: int|
            0 <= i < self.index_view().len() ==> self.index_view()[i].1 == names_in(
                self.emps_view(),
                self.index_view()[i].0,
            )
        &&& forall|k: int|
            0 <= k < self.emps_view().len() ==> index_has(
                self.index_view(),
                self.emps_view()[k].1,
            )
    }

    /// An empty store.
    pub fn new() -> (db: Self)
        ensures
            db.wf(),
            db.emps_view() == Seq::<(Seq<char>, Seq<char>)>::empty(),
            db.index_view() == Seq::<(Seq<char>, Seq<Seq<char>>)>::empty(),
    {
        let db = EmployeesDB { employees: Vec::new(), dept_to_employees: Vec::new() };
        proof {
            assert(db.emps_view() =~= Seq::<(Seq<char>, Seq<char>)>::empty());
            assert(db.index_view() =~= Seq::<(Seq<char>, Seq<Seq<char>>)>::empty());
        }
        db
    }

    /// Records one employee: appends it to the employee list, appends
    /// its name under its department in the index (creating the entry
    /// on first use), and returns the confirmation text. Never
    /// rejects: duplicates are retained.
    pub fn add(&mut self, command: AddCommand) -> (out: String)
        requires
            old(self).wf(),
        ensures
            final(self).wf(),
            final(self).emps_view() == old(self).emps_view().push(command@),
            final(self).index_view() == index_add(
                old(self).index_view(),
                command.department@,
                command.name@,
            ),
            out@ == "Adding "@ + command.name@ + " to "@ + command.department@,
    {
        let mut out = String::from_str("Adding ");
        out.append(command.name.as_str());
        out.append(" to ");
        out.append(command.department.as_str());

        let name = command.name.clone();
        let dept = command.department.clone();
        let ghost old_emps = self.emps_view();
        let ghost old_idx = self.index_view();
        let employee = Employee { name: command.name, department: command.department };
        self.employees.push(employee);
        proof {
            assert(self.emps_view() =~= old_emps.push((name@, dept@)));
        }
        match find_dept(&self.dept_to_employees, dept.as_str()) {
            Some(i) => {
                let (key, mut names) = self.dept_to_employees.remove(i);
                names.push(name);
                self.dept_to_employees.insert(i, (key, names));
                proof {
                    let new_idx = old_idx.update(
                        i as int,
                        (dept@, old_idx[i as int].1.push(name@)),
                    );
                    assert(names_view(names@) =~= old_idx[i as int].1.push(name@));
                    assert(self.index_view() =~= new_idx);
                    assert(index_has(old_idx, dept@));
                    let p = index_pos(old_idx, dept@);
                    assert(0 <= p < old_idx.len() && old_idx[p].0 == dept@);
                    assert(p == i);
                    assert(self.index_view() == index_add(old_idx, dept@, name@));
                    self.lemma_wf_after_add(old_emps, old_idx, name@, dept@, new_idx);
                }
            }
            None => {
                let mut names: Vec<String> = Vec::new();
                names.push(name);
                self.dept_to_employees.push((dept, names));
                proof {
                    let new_idx = old_idx.push((dept@, seq![name@]));
                    assert(names_view(names@) =~= seq![name@]);
                    assert(self.index_view() =~= new_idx);
                    assert(!index_has(old_idx, dept@));
                    assert(self.index_view() == index_add(old_idx, dept@, name@));
                    self.lemma_wf_after_add(old_emps, old_idx, name@, dept@, new_idx);
                }
            }
        }
        out
    }

    /// After one employee is appended and the index updated for it,
    /// the store invariant holds again.
    proof fn lemma_wf_after_add(
        self,
        old_emps: Seq<(Seq<char>, Seq<char>)>,
        old_idx: Seq<(Seq<char>, Seq<Seq<char>>)>,
        name: Seq<char>,
        dept: Seq<char>,
        new_idx: Seq<(Seq<char>, Seq<Seq<char>>)>,
    )
        requires
            keys_distinct(old_idx),
            forall|i: int|
                0 <= i < old_idx.len() ==> old_idx[i].1 == names_in(old_emps, old_idx[i].0),
            forall|k: int| 0 <= k < old_emps.len() ==> index_has(old_idx, old_emps[k].1),
            self.emps_view() == old_emps.push((name, dept)),
            new_idx == index_add(old_idx, dept, name),
            self.index_view() == new_idx,
        ensures
            self.wf(),
    {
        let e = (name, dept);
        if index_has(old_idx, dept) {
            let p = index_pos(old_idx, dept);
            assert(0 <= p < old_idx.len() && old_idx[p].0 == dept);
            assert(new_idx =~= old_idx.update(p, (dept, old_idx[p].1.push(name))));
            assert forall|i: int, j: int| 0 <= i < j < new_idx.len() implies new_idx[i].0
                != new_idx[j].0 by {
                assert(new_idx[i].0 == old_idx[i].0);
                assert(new_idx[j].0 == old_idx[j].0);
            }
            assert forall|i: int| 0 <= i < new_idx.len() implies new_idx[i].1 == names_in(
                self.emps_view(),
                new_idx[i].0,
            ) by {
                lemma_names_in_push(old_emps, e, new_idx[i].0);
                if i == p {
                    assert(new_idx[i].0 == dept);
                    assert(new_idx[i].1 == old_idx[p].1.push(name));
                } else {
                    assert(new_idx[i].0 == old_idx[i].0);
                    assert(new_idx[i].0 != dept);
                }
            }
            assert forall|k: int| 0 <= k < self.emps_view().len() implies index_has(
                new_idx,
                self.emps_view()[k].1,
            ) by {
                if k < old_emps.len() {
                    let w = choose|w: int|
                        0 <= w < old_idx.len() && old_idx[w].0 == old_emps[k].1;
                    assert(new_idx[w].0 == old_emps[k].1);
                } else {
                    assert(new_idx[p].0 == dept);
                }
            }
        } else {
            assert(new_idx =~= old_idx.push((dept, seq![name])));
            assert forall|i: int, j: int| 0 <= i < j < new_idx.len() implies new_idx[i].0
                != new_idx[j].0 by {
                if j < old_idx.len() {
                } else {
                    assert(new_idx[j].0 == dept);
                    assert(new_idx[i].0 == old_idx[i].0);
                }
            }
            assert forall|i: int| 0 <= i < new_idx.len() implies new_idx[i].1 == names_in(
                self.emps_view(),
                new_idx[i].0,
            ) by {
                lemma_names_in_push(old_emps, e, new_idx[i].0);
                if i < old_idx.len() {
                    assert(new_idx[i].0 == old_idx[i].0);
                    assert(new_idx[i].0 != dept);
                } else {
                    assert(new_idx[i].0 == dept);
                    assert forall|k: int| 0 <= k < old_emps.len() implies old_emps[k].1
                        != dept by {
                        if old_emps[k].1 == dept {
                            assert(index_has(old_idx, dept));
                        }
                    }
                    lemma_names_in_absent(old_emps, dept);
                    assert(names_in(self.emps_view(), dept) =~= seq![name]);
                }
            }
            assert forall|k: int| 0 <= k < self.emps_view().len() implies index_has(
                new_idx,
                self.emps_view()[k].1,
            ) by {
                if k < old_emps.len() {
                    let w = choose|w: int|
                        0 <= w < old_idx.len() && old_idx[w].0 == old_emps[k].1;
                    assert(new_idx[w].0 == old_emps[k].1);
                } else {
                    assert(new_idx[old_idx.len() as int].0 == dept);
                }
            }
        }
    }

    /// Answers a query: the whole index for `All`; for one department,
    /// its names in insertion order, or a report that it has none.
    pub fn list(&self, command: ListCommand) -> (out: String)
        requires
            self.wf(),
        ensures
            match command {
                ListCommand::All => out@ == render_index_of(self.index_view()),
                ListCommand::ByDept { dept } => out@ == list_dept_response_of(
                    dept@,
                    self.index_view(),
                ),
            },
    {
        match command {
            ListCommand::All => {
                let ghost rendered = self.index_view().map_values(
                    |p: (Seq<char>, Seq<Seq<char>>)| entry_render_of(p),
                );
                let mut out = String::from_str("{");
                proof {
                    assert(rendered.take(0) =~= Seq::<Seq<char>>::empty());
                    assert(out@ =~= "{"@ + join_comma(rendered.take(0)));
                }
                let n = self.dept_to_employees.len();
                let mut i: usize = 0;
                while i < n
                    invariant
                        self.wf(),
                        n == self.dept_to_employees@.len(),
                        i <= n,
                        rendered == self.index_view().map_values(
                            |p: (Seq<char>, Seq<Seq<char>>)| entry_render_of(p),
                        ),
                        out@ == "{"@ + join_comma(rendered.take(i as int)),
                    decreases n - i,
                {
                    if i > 0 {
                        out.append(", ");
                    }
                    out.append(self.dept_to_employees[i].0.as_str());
                    out.append(": ");
                    let r = render_names(&self.dept_to_employees[i].1);
                    out.append(r.as_str());
                    proof {
                        assert(self.index_view()[i as int] == (
                            self.dept_to_employees@[i as int].0@,
                            names_view(self.dept_to_employees@[i as int].1@),
                        ));
                        assert(rendered[i as int] == entry_render_of(self.index_view()[i as int]));
                        assert(rendered.take(i + 1).drop_last() =~= rendered.take(i as int));
                        assert(rendered.take(i + 1).last() == rendered[i as int]);
                        if i == 0 {
                            assert(join_comma(rendered.take(1)) == rendered[0]);
                            assert(out@ =~= "{"@ + join_comma(rendered.take(1)));
                        } else {
                            assert(join_comma(rendered.take(i + 1)) == join_comma(
                                rendered.take(i as int),
                            ) + ", "@ + rendered[i as int]);
                            assert(out@ =~= "{"@ + join_comma(rendered.take(i + 1)));
                        }
                    }
                    i += 1;
                }
                out.append("}");
                proof {
                    assert(rendered.take(n as int) =~= rendered);
                    assert(out@ =~= render_index_of(self.index_view()));
                }
                out
            }
            ListCommand::ByDept { dept } => {
                match find_dept(&self.dept_to_employees, dept.as_str()) {
                    Some(i) => {
                        let mut out = String::from_str("Our employees in ");
                        out.append(dept.as_str());
                        out.append(": ");
                        let r = render_names(&self.dept_to_employees[i].1);
                        out.append(r.as_str());
                        proof {
                            let idx = self.index_view();
                            assert(idx[i as int].0 == dept@);
                            assert(index_has(idx, dept@));
                            let p = index_pos(idx, dept@);
                            assert(0 <= p < idx.len() && idx[p].0 == dept@);
                            assert(p == i);
                            assert(idx[i as int].1 == names_view(
                                self.dept_to_employees@[i as int].1@,
                            ));
                            assert(out@ =~= list_dept_response_of(dept@, idx));
                        }
                        out
                    }
                    None => {
                        let mut out = String::from_str("No employees in ");
                        out.append(dept.as_str());
                        out.append("!");
                        proof {
                            let idx = self.index_view();
                            assert forall|k: int| 0 <= k < idx.len() implies idx[k].0
                                != dept@ by {
                                assert(idx[k].0 == self.dept_to_employees@[k].0@);
                            }
                            assert(!index_has(idx, dept@));
                            assert(out@ =~= list_dept_response_of(dept@, idx));
                        }
                        out
                    }
                }
            }
        }
    }

    /// Submits one raw input line: tries it as an `add`, then as a
    /// `list`, and answers; an unrecognized line changes nothing and
    /// is told so.
    pub fn handle_line(&mut self, line: &String) -> (out: String)
        requires
            old(self).wf(),
        ensures
            final(self).wf(),
            match spec_parse_add(line@) {
                Some(m) => {
                    &&& final(self).emps_view() == old(self).emps_view().push(m)
                    &&& final(self).index_view() == index_add(old(self).index_view(), m.1, m.0)
                    &&& out@ == "Adding "@ + m.0 + " to "@ + m.1
                },
                None => {
                    &&& *final(self) == *old(self)
                    &&& if spec_list_all(line@) {
                        out@ == render_index_of(old(self).index_view())
                    } else if spec_list_dept(line@) {
                        out@ == list_dept_response_of(
                            canon_of(tokens_of(line@)[1]),
                            old(self).index_view(),
                        )
                    } else {
                        out@ == "Command not recognized, try again"@
                    }
                },
            },
    {
        if let Some(cmd) = parse_add_command(line) {
            self.add(cmd)
        } else if let Some(cmd) = parse_list_command(line) {
            self.list(cmd)
        } else {
            String::from_str("Command not recognized, try again")
        }
    }
}

/// The items joined with a comma and a space between each two.
pub open spec fn join_comma(items: Seq<Seq<char>>) -> Seq<char>
    decreases items.len(),
{
    if items.len() == 0 {
        Seq::empty()
    } else if items.len() == 1 {
        items[0]
    } else {
        join_comma(items.drop_last()) + ", "@ + items.last()
    }
}

/// A bracketed, comma-separated rendering of a list of names.
pub open spec fn render_names_of(names: Seq<Seq<char>>) -> Seq<char> {
    "["@ + join_comma(names) + "]"@
}

/// One index entry rendered as `department: [names]`.
pub open spec fn entry_render_of(p: (Seq<char>, Seq<Seq<char>>)) -> Seq<char> {
    p.0 + ": "@ + render_names_of(p.1)
}

/// The whole index rendered as `{dept: [names], ...}`, entries in
/// order of first insertion.
pub open spec fn render_index_of(idx: Seq<(Seq<char>, Seq<Seq<char>>)>) -> Seq<char> {
    "{"@ + join_comma(idx.map_values(|p: (Seq<char>, Seq<Seq<char>>)| entry_render_of(p))) + "}"@
}

/// The response to a department query: the department's names, or a
/// report that it has none.
pub open spec fn list_dept_response_of(dept: Seq<char>, idx: Seq<(Seq<char>, Seq<Seq<char>>)>) -> Seq<
    char,
> {
    if index_has(idx, dept) {
        "Our employees in "@ + dept + ": "@ + render_names_of(index_names(idx, dept))
    } else {
        "No employees in "@ + dept + "!"@
    }
}

/// Appending an employee extends the names of its department and
/// leaves every other department's names unchanged.
proof fn lemma_names_in_push(
    emps: Seq<(Seq<char>, Seq<char>)>,
    e: (Seq<char>, Seq<char>),
    d: Seq<char>,
)
    ensures
        e.1 == d ==> names_in(emps.push(e), d) == names_in(emps, d).push(e.0),
        e.1 != d ==> names_in(emps.push(e), d) == names_in(emps, d),
{
    assert(emps.push(e).drop_last() =~= emps);
    assert(emps.push(e).last() == e);
}

/// A department none of the employees belong to has no names.
proof fn lemma_names_in_absent(emps: Seq<(Seq<char>, Seq<char>)>, d: Seq<char>)
    requires
        forall|k: int| 0 <= k < emps.len() ==> emps[k].1 != d,
    ensures
        names_in(emps, d) == Seq::<Seq<char>>::empty(),
    decreases emps.len(),
{
    if emps.len() > 0 {
        lemma_names_in_absent(emps.drop_last(), d);
        assert(emps.last().1 != d);
    }
}

/// Renders names as `[a, b, c]`.
fn render_names(names: &Vec<String>) -> (out: String)
    ensures
        out@ == render_names_of(names_view(names@)),
{
    let ghost nv = names_view(names@);
    let mut out = String::from_str("[");
    proof {
        assert(nv.take(0) =~= Seq::<Seq<char>>::empty());
        assert(out@ =~= "["@ + join_comma(nv.take(0)));
    }
    let mut i: usize = 0;
    while i < names.len()
        invariant
            i <= names@.len(),
            nv == names_view(names@),
            out@ == "["@ + join_comma(nv.take(i as int)),
        decreases names@.len() - i,
    {
        if i > 0 {
            out.append(", ");
        }
        out.append(names[i].as_str());
        proof {
            assert(nv[i as int] == names@[i as int]@);
            assert(nv.take(i + 1).drop_last() =~= nv.take(i as int));
            assert(nv.take(i + 1).last() == nv[i as int]);
            if i == 0 {
                assert(join_comma(nv.take(1)) == nv[0]);
                assert(out@ =~= "["@ + join_comma(nv.take(1)));
            } else {
                assert(join_comma(nv.take(i + 1)) == join_comma(nv.take(i as int)) + ", "@
                    + nv[i as int]);
                assert(out@ =~= "["@ + join_comma(nv.take(i + 1)));
            }
        }
        i += 1;
    }
    out.append("]");
    proof {
        assert(nv.take(names@.len() as int) =~= nv);
        assert(out@ =~= render_names_of(nv));
    }
    out
}

/// Law: recording a name makes its department listed, with the name
/// as the newest entry under it, while every other department keeps
/// exactly the entry and the names it had.
pub proof fn lemma_index_add_names(
    idx: Seq<(Seq<char>, Seq<Seq<char>>)>,
    d: Seq<char>,
    name: Seq<char>,
)
    requires
        keys_distinct(idx),
    ensures
        keys_distinct(index_add(idx, d, name)),
        index_has(index_add(idx, d, name), d),
        index_names(index_add(idx, d, name), d) == if index_has(idx, d) {
            index_names(idx, d).push(name)
        } else {
            seq![name]
        },
        forall|d2: Seq<char>|
            d2 != d ==> (#[trigger] index_has(index_add(idx, d, name), d2)) == index_has(idx, d2),
        forall|d2: Seq<char>|
            d2 != d && index_has(idx, d2) ==> (#[trigger] index_names(index_add(idx, d, name), d2))
                == index_names(idx, d2),
{
    let new = index_add(idx, d, name);
    if index_has(idx, d) {
        let p = index_pos(idx, d);
        assert(0 <= p < idx.len() && idx[p].0 == d);
        assert(new =~= idx.update(p, (d, idx[p].1.push(name))));
        assert(forall|q: int| 0 <= q < new.len() ==> (#[trigger] new[q].0) == idx[q].0);
        assert(keys_distinct(new));
        assert(new[p].0 == d);
        assert(index_has(new, d));
        let q = index_pos(new, d);
        assert(0 <= q < new.len() && new[q].0 == d);
        assert(q == p);
        assert(index_names(new, d) == idx[p].1.push(name));
        assert forall|d2: Seq<char>| d2 != d implies (#[trigger] index_has(new, d2)) == index_has(
            idx,
            d2,
        ) by {
            if index_has(idx, d2) {
                let w = index_pos(idx, d2);
                assert(0 <= w < idx.len() && idx[w].0 == d2);
                assert(new[w].0 == d2);
                assert(index_has(new, d2));
            }
            if index_has(new, d2) {
                let w = index_pos(new, d2);
                assert(0 <= w < new.len() && new[w].0 == d2);
                assert(idx[w].0 == d2);
                assert(index_has(idx, d2));
            }
        }
        assert forall|d2: Seq<char>| d2 != d && index_has(idx, d2) implies (#[trigger] index_names(
            new,
            d2,
        )) == index_names(idx, d2) by {
            let w = index_pos(idx, d2);
            assert(0 <= w < idx.len() && idx[w].0 == d2);
            assert(new[w].0 == d2);
            assert(index_has(new, d2));
            let w2 = index_pos(new, d2);
            assert(0 <= w2 < new.len() && new[w2].0 == d2);
            assert(w2 != p);
            assert(idx[w2].0 == d2);
            assert(w2 == w);
            assert(new[w2].1 == idx[w].1);
        }
    } else {
        let m = idx.len() as int;
        assert(new =~= idx.push((d, seq![name])));
        assert(new[m].0 == d);
        assert(forall|q: int| 0 <= q < m ==> (#[trigger] new[q].0) == idx[q].0);
        assert forall|i: int, j: int| 0 <= i < j < new.len() implies new[i].0 != new[j].0 by {
            if j < m {
            } else {
                assert(new[j].0 == d);
                if idx[i].0 == d {
                    assert(index_has(idx, d));
                }
            }
        }
        assert(index_has(new, d));
        let q = index_pos(new, d);
        assert(0 <= q < new.len() && new[q].0 == d);
        if q < m {
            assert(idx[q].0 == d);
            assert(index_has(idx, d));
        }
        assert(q == m);
        assert(index_names(new, d) == seq![name]);
        assert forall|d2: Seq<char>| d2 != d implies (#[trigger] index_has(new, d2)) == index_has(
            idx,
            d2,
        ) by {
            if index_has(idx, d2) {
                let w = index_pos(idx, d2);
                assert(0 <= w < idx.len() && idx[w].0 == d2);
                assert(new[w].0 == d2);
                assert(index_has(new, d2));
            }
            if index_has(new, d2) {
                let w = index_pos(new, d2);
                assert(0 <= w < new.len() && new[w].0 == d2);
                assert(w != m);
                assert(idx[w].0 == d2);
                assert(index_has(idx, d2));
            }
        }
        assert forall|d2: Seq<char>| d2 != d && index_has(idx, d2) implies (#[trigger] index_names(
            new,
            d2,
        )) == index_names(idx, d2) by {
            let w = index_pos(idx, d2);
            assert(0 <= w < idx.len() && idx[w].0 == d2);
            assert(new[w].0 == d2);
            assert(index_has(new, d2));
            let w2 = index_pos(new, d2);
            assert(0 <= w2 < new.len() && new[w2].0 == d2);
            assert(w2 != m);
            assert(idx[w2].0 == d2);
            assert(w2 == w);
            assert(new[w2].1 == idx[w].1);
        }
    }
}

/// Law: insertion order is preserved — recording two names under a
/// department not seen before lists exactly those two names, in the
/// order they were recorded.
pub proof fn lemma_insertion_order_preserved(
    idx: Seq<(Seq<char>, Seq<Seq<char>>)>,
    d: Seq<char>,
    n1: Seq<char>,
    n2: Seq<char>,
)
    requires
        keys_distinct(idx),
        !index_has(idx, d),
    ensures
        index_names(index_add(index_add(idx, d, n1), d, n2), d) == seq![n1, n2],
{
    lemma_index_add_names(idx, d, n1);
    lemma_index_add_names(index_add(idx, d, n1), d, n2);
    assert(seq![n1].push(n2) =~= seq![n1, n2]);
}

/// Law: after an employee is recorded, a query for its department
/// finds it — the name stands last under that department — while a
/// department that had no entry and was not the one recorded under
/// still has none.
pub proof fn lemma_add_then_list(
    idx: Seq<(Seq<char>, Seq<Seq<char>>)>,
    d: Seq<char>,
    name: Seq<char>,
    other: Seq<char>,
)
    requires
        keys_distinct(idx),
        other != d,
        !index_has(idx, other),
    ensures
        index_has(index_add(idx, d, name), d),
        index_names(index_add(idx, d, name), d).last() == name,
        !index_has(index_add(idx, d, name), other),
{
    lemma_index_add_names(idx, d, name);
}

/// The position of the entry for department `d`, if the index has
/// one; scanning stops at the first match.
fn find_dept(idx: &Vec<(String, Vec<String>)>, d: &str) -> (r: Option<usize>)
    ensures
        match r {
            Some(i) => i < idx@.len() && idx@[i as int].0@ == d@,
            None => forall|k: int| 0 <= k < idx@.len() ==> idx@[k].0@ != d@,
        },
{
    let n = idx.len();
    let mut i: usize = 0;
    while i < n
        invariant
            n == idx@.len(),
            i <= n,
            forall|k: int| 0 <= k < i ==> idx@[k].0@ != d@,
        decreases n - i,
    {
        if str_eq(idx[i].0.as_str(), d) {
            return Some(i);
        }
        i += 1;
    }
    None
}

} // verus!
