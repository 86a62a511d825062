use employee_db::directory::new_employee_db;
use employee_db::terminal::{
    add_user, build_add_command, build_show_command, command, handle_line, show_people_in_dept,
    Command, Step,
};
use employee_db::words::split_words;

#[test]
fn test_build_show_command() {
    let command_1 = "hello world";
    assert_eq!(
        build_show_command(split_words(command_1)),
        Command::Error("Incorrect command")
    );

    let command_2 = "employees in software";
    assert_eq!(
        build_show_command(split_words(command_2)),
        Command::DeptPeople("software")
    );
}

#[test]
fn test_build_add_command() {
    let command_1 = "batman to gotham";
    assert_eq!(
        build_add_command(split_words(command_1)),
        Command::AddUser("batman", "gotham")
    );

    let command_2 = "robin to";
    assert_eq!(
        build_add_command(split_words(command_2)),
        Command::Error("Incorrect command")
    );
}

#[test]
fn test_command() {
    let input_1 = "";
    assert_eq!(command(input_1), Err("Expected at least one word input"));

    let input_2 = "add batman to gotham";
    assert_eq!(command(input_2), Ok(Command::AddUser("batman", "gotham")));

    let input_3 = "list all";
    assert_eq!(command(input_3), Ok(Command::ListPeople));

    let input_4 = "show people in gotham";
    assert_eq!(command(input_4), Ok(Command::DeptPeople("gotham")));

    let input_5 = "exit 123";
    assert_eq!(command(input_5), Ok(Command::Exit));

    let input_6 = "this is an unsupported command";
    assert_eq!(command(input_6), Err("Unsupported action!"));
}

#[test]
fn parses_the_documented_lines() {
    assert_eq!(command(""), Err("Expected at least one word input"));
    assert_eq!(command("add batman to gotham"), Ok(Command::AddUser("batman", "gotham")));
    assert_eq!(command("list all"), Ok(Command::ListPeople));
    assert_eq!(command("show people in gotham"), Ok(Command::DeptPeople("gotham")));
    assert_eq!(command("exit now"), Ok(Command::Exit));
    assert_eq!(command("frobnicate"), Err("Unsupported action!"));
}

#[test]
fn parsing_edges() {
    assert_eq!(command("   \t  "), Err("Expected at least one word input"));
    assert_eq!(command("  add  a  to   b  extra "), Ok(Command::AddUser("a", "b")));
    assert_eq!(command("add a to"), Ok(Command::Error("Incorrect command")));
    assert_eq!(command("show people"), Ok(Command::Error("Incorrect command")));
    assert_eq!(command("list"), Ok(Command::ListPeople));
    assert_eq!(command("exit"), Ok(Command::Exit));
    assert_eq!(command("Add a to b"), Err("Unsupported action!"));
    assert_eq!(command("add\u{3000}a\u{a0}to\nb"), Ok(Command::AddUser("a", "b")));
}

#[test]
fn splits_on_whitespace() {
    assert_eq!(split_words("  one two\tthree\n"), ["one", "two", "three"]);
    assert!(split_words("").is_empty());
    assert!(split_words(" \u{2003} ").is_empty());
    assert_eq!(split_words("a\u{85}b"), ["a", "b"]);
}

#[test]
fn session_steps() {
    let mut db = new_employee_db();
    assert_eq!(handle_line(&mut db, "add batman to gotham"), Step::Output(vec![]));
    assert_eq!(handle_line(&mut db, "add robin to gotham"), Step::Output(vec![]));
    assert_eq!(handle_line(&mut db, "add clark to daily planet"), Step::Output(vec![]));
    assert_eq!(
        handle_line(&mut db, "show people in gotham"),
        Step::Output(vec![String::from("batman"), String::from("robin")])
    );
    assert_eq!(handle_line(&mut db, "show people in nowhere"), Step::Output(vec![]));
    assert_eq!(
        handle_line(&mut db, "list all"),
        Step::Output(vec![
            String::from("Name: clark Department: daily"),
            String::from("Name: batman Department: gotham"),
            String::from("Name: robin Department: gotham"),
        ])
    );
    assert_eq!(handle_line(&mut db, "exit"), Step::Exit);
    assert_eq!(handle_line(&mut db, "hello"), Step::Fail("Unsupported action!"));
    assert_eq!(handle_line(&mut db, ""), Step::Fail("Expected at least one word input"));
    assert_eq!(handle_line(&mut db, "add x"), Step::Fail("Incorrect command"));
    assert_eq!(db.get_employees_by_dept("gotham"), ["batman", "robin"]);
}

#[test]
fn add_user_and_show() {
    let mut db = new_employee_db();
    add_user(&mut db, "b", "d");
    add_user(&mut db, "a", "d");
    assert_eq!(show_people_in_dept(&db, "d"), ["a", "b"]);
    assert!(show_people_in_dept(&db, "e").is_empty());
}
