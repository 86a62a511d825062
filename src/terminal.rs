//! The command language: one line of input becomes one command, and one
//! command becomes one step of the session.
use vstd::prelude::*;

use crate::directory::{added, employees_in, listing, names_view, EmployeeDb, Entries};
use crate::order::str_eq;
use crate::words::{split_words, words_of};

verus! {

/// One parsed line.
#[derive(Debug, PartialEq)]
pub enum Command<'a> {
    /// `add <name> to <dept>`
    AddUser(&'a str, &'a str),
    /// `show people in <dept>`
    DeptPeople(&'a str),
    /// `list ...`
    ListPeople,
    /// `exit ...`
    Exit,
    /// A line whose first word is known but whose shape is wrong.
    Error(&'static str),
}

/// What a command means, over character sequences.
pub enum Order {
    Add { name: Seq<char>, dept: Seq<char> },
    Show { dept: Seq<char> },
    ListAll,
    Quit,
    Invalid { message: Seq<char> },
}

impl<'a> View for Command<'a> {
    type V = Order;

    open spec fn view(&self) -> Order {
        match self {
            Command::AddUser(name, dept) => Order::Add { name: name@, dept: dept@ },
            Command::DeptPeople(dept) => Order::Show { dept: dept@ },
            Command::ListPeople => Order::ListAll,
            Command::Exit => Order::Quit,
            Command::Error(message) => Order::Invalid { message: message@ },
        }
    }
}

/// The command for the words that follow `add`: name first, department third.
pub open spec fn add_order(rest: Seq<Seq<char>>) -> Order {
    if rest.len() < 3 {
        Order::Invalid { message: "Incorrect command"@ }
    } else {
        Order::Add { name: rest[0], dept: rest[2] }
    }
}

/// The command for the words that follow `show`: department third.
pub open spec fn show_order(rest: Seq<Seq<char>>) -> Order {
    if rest.len() < 3 {
        Order::Invalid { message: "Incorrect command"@ }
    } else {
        Order::Show { dept: rest[2] }
    }
}

/// The command for a line split into words, or the message that rejects it.
pub open spec fn parse_words(w: Seq<Seq<char>>) -> Result<Order, Seq<char>> {
    if w.len() == 0 {
        Err("Expected at least one word input"@)
    } else if w[0] == "add"@ {
        Ok(add_order(w.drop_first()))
    } else if w[0] == "show"@ {
        Ok(show_order(w.drop_first()))
    } else if w[0] == "list"@ {
        Ok(Order::ListAll)
    } else if w[0] == "exit"@ {
        Ok(Order::Quit)
    } else {
        Err("Unsupported action!"@)
    }
}

pub open spec fn words_view(w: Seq<&str>) -> Seq<Seq<char>> {
    w.map_values(|s: &str| s@)
}

pub open spec fn parsed_view(r: Result<Command, &'static str>) -> Result<Order, Seq<char>> {
    match r {
        Ok(c) => Ok(c@),
        Err(m) => Err(m@),
    }
}

/// The command for the words that follow `add`.
pub fn build_add_command<'a>(words: Vec<&'a str>) -> (r: Command<'a>)
    ensures
        r@ == add_order(words_view(words@)),
{
    if words.len() < 3 {
        Command::Error("Incorrect command")
    } else {
        Command::AddUser(words[0], words[2])
    }
}

/// The command for the words that follow `show`.
pub fn build_show_command<'a>(words: Vec<&'a str>) -> (r: Command<'a>)
    ensures
        r@ == show_order(words_view(words@)),
{
    if words.len() < 3 {
        Command::Error("Incorrect command")
    } else {
        Command::DeptPeople(words[2])
    }
}

/// Parses one line of input.
pub fn command<'a>(input: &'a str) -> (r: Result<Command<'a>, &'static str>)
    ensures
        parsed_view(r) == parse_words(words_of(input@)),
{
    let mut words = split_words(input);
    if words.len() == 0 {
        return Err("Expected at least one word input");
    }
    let ghost all = words_view(words@);
    let first = words.remove(0);
    assert(words_view(words@) =~= all.drop_first());
    if str_eq(first, "add") {
        Ok(build_add_command(words))
    } else if str_eq(first, "show") {
        Ok(build_show_command(words))
    } else if str_eq(first, "list") {
        Ok(Command::ListPeople)
    } else if str_eq(first, "exit") {
        Ok(Command::Exit)
    } else {
        Err("Unsupported action!")
    }
}

/// What the session does after one line.
#[derive(Debug, PartialEq)]
pub enum Step {
    /// Print these lines, one each, and read the next line.
    Output(Vec<String>),
    /// End the session with status 0.
    Exit,
    /// Report the message on the error stream and end the session with status 1.
    Fail(&'static str),
}

/// What a step means, over character sequences.
pub enum Outcome {
    Lines(Seq<Seq<char>>),
    Done,
    Failed(Seq<char>),
}

impl View for Step {
    type V = Outcome;

    open spec fn view(&self) -> Outcome {
        match self {
            Step::Output(lines) => Outcome::Lines(names_view(lines@)),
            Step::Exit => Outcome::Done,
            Step::Fail(message) => Outcome::Failed(message@),
        }
    }
}

/// What the session answers to a parsed line, given the store before it.
pub open spec fn step_outcome(before: Entries, p: Result<Order, Seq<char>>) -> Outcome {
    match p {
        Ok(Order::Add { .. }) => Outcome::Lines(seq![]),
        Ok(Order::Show { dept }) => Outcome::Lines(employees_in(before, dept)),
        Ok(Order::ListAll) => Outcome::Lines(listing(before)),
        Ok(Order::Quit) => Outcome::Done,
        Ok(Order::Invalid { message }) => Outcome::Failed(message),
        Err(message) => Outcome::Failed(message),
    }
}

/// The store after a parsed line: only an add changes it.
pub open spec fn step_store(before: Entries, p: Result<Order, Seq<char>>, after: Entries) -> bool {
    match p {
        Ok(Order::Add { name, dept }) => added(before, name, dept, after),
        _ => after == before,
    }
}

/// Files `name` under `dept`.
pub fn add_user(db: &mut EmployeeDb, name: &str, dept: &str)
    requires
        old(db).wf(),
    ensures
        final(db).wf(),
        added(old(db)@, name@, dept@, final(db)@),
{
    db.add_employee(name, dept);
}

/// The names filed under `dept`, one line each, ascending.
pub fn show_people_in_dept(db: &EmployeeDb, dept: &str) -> (r: Vec<String>)
    ensures
        names_view(r@) == employees_in(db@, dept@),
{
    let found = db.get_employees_by_dept(dept);
    let n = found.len();
    let mut r: Vec<String> = Vec::new();
    let mut i: usize = 0;
    while i < n
        invariant
            n == found@.len(),
            i <= n,
            names_view(r@) =~= found@.map_values(|s: &String| s@).take(i as int),
        decreases n - i,
    {
        let ghost before = names_view(r@);
        let name = found[i].clone();
        r.push(name);
        assert(names_view(r@) =~= before.push(found@[i as int]@));
        assert(found@.map_values(|s: &String| s@).take(i + 1) =~= found@.map_values(
            |s: &String| s@,
        ).take(i as int).push(found@[i as int]@));
        i = i + 1;
    }
    assert(found@.map_values(|s: &String| s@).take(n as int) =~= found@.map_values(
        |s: &String| s@,
    ));
    r
}

/// Runs one line of input against the store.
pub fn handle_line(db: &mut EmployeeDb, input: &str) -> (r: Step)
    requires
        old(db).wf(),
    ensures
        final(db).wf(),
        r@ == step_outcome(old(db)@, parse_words(words_of(input@))),
        step_store(old(db)@, parse_words(words_of(input@)), final(db)@),
{
    match command(input) {
        Ok(Command::AddUser(name, dept)) => {
            add_user(db, name, dept);
            let lines: Vec<String> = Vec::new();
            assert(names_view(lines@) =~= Seq::<Seq<char>>::empty());
            Step::Output(lines)
        },
        Ok(Command::DeptPeople(dept)) => Step::Output(show_people_in_dept(db, dept)),
        Ok(Command::ListPeople) => Step::Output(db.list_employees()),
        Ok(Command::Exit) => Step::Exit,
        Ok(Command::Error(message)) => Step::Fail(message),
        Err(message) => Step::Fail(message),
    }
}

} // verus!
