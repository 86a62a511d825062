use employee_db::directory::{build_employee_listing, new_employee_db};

#[test]
fn test_add_employee() {
    let mut test_db = new_employee_db();
    test_db.add_employee("batman", "gotham");
    test_db.add_employee("superman", "daily planet");
    test_db.add_employee("robin", "gotham");

    let mut stored_depts: Vec<&String> = test_db.departments();
    stored_depts.sort();
    assert_eq!(stored_depts, ["daily planet", "gotham"]);

    let mut stored_employees: Vec<&String> = Vec::new();
    for dept in test_db.departments() {
        stored_employees.extend(test_db.get_employees_by_dept(dept));
    }
    stored_employees.sort();
    assert_eq!(stored_employees, ["batman", "robin", "superman"]);
}

#[test]
fn test_get_employees_by_dept() {
    let mut test_db = new_employee_db();
    test_db.add_employee("robin", "gotham");
    test_db.add_employee("superman", "daily planet");
    test_db.add_employee("batman", "gotham");
    test_db.add_employee("Lois lane", "daily planet");

    let res_1 = test_db.get_employees_by_dept("gotham");
    assert_eq!(res_1, ["batman", "robin"]);

    let res_2 = test_db.get_employees_by_dept("daily planet");
    assert_eq!(res_2, ["Lois lane", "superman"]);

    assert_eq!(
        test_db.get_employees_by_dept("Area 51"),
        Vec::<&String>::new()
    );
}

#[test]
fn test_list_employees() {
    let mut test_db = new_employee_db();
    test_db.add_employee("robin", "gotham");
    test_db.add_employee("superman", "daily planet");
    test_db.add_employee("batman", "gotham");
    test_db.add_employee("Lois lane", "daily planet");

    let mut res = test_db.list_employees();
    res.sort();

    let mut expected_result = [
        "Name: Lois lane Department: daily planet",
        "Name: superman Department: daily planet",
        "Name: batman Department: gotham",
        "Name: robin Department: gotham",
    ];
    expected_result.sort();
    assert_eq!(res, expected_result);
}

#[test]
fn gotham_holds_batman_and_robin() {
    let mut db = new_employee_db();
    db.add_employee("batman", "gotham");
    db.add_employee("superman", "daily planet");
    db.add_employee("robin", "gotham");
    assert_eq!(db.get_employees_by_dept("gotham"), ["batman", "robin"]);
}

#[test]
fn listing_goes_by_department_then_name() {
    let mut db = new_employee_db();
    db.add_employee("batman", "gotham");
    db.add_employee("superman", "daily planet");
    db.add_employee("robin", "gotham");
    db.add_employee("Lois lane", "daily planet");
    assert_eq!(
        db.list_employees(),
        [
            "Name: Lois lane Department: daily planet",
            "Name: superman Department: daily planet",
            "Name: batman Department: gotham",
            "Name: robin Department: gotham",
        ]
    );
}

#[test]
fn listing_ignores_order_of_additions() {
    let mut a = new_employee_db();
    a.add_employee("robin", "gotham");
    a.add_employee("x", "b");
    a.add_employee("batman", "gotham");
    let mut b = new_employee_db();
    b.add_employee("batman", "gotham");
    b.add_employee("robin", "gotham");
    b.add_employee("x", "b");
    assert_eq!(a.list_employees(), b.list_employees());
    assert_eq!(
        a.list_employees(),
        [
            "Name: x Department: b",
            "Name: batman Department: gotham",
            "Name: robin Department: gotham",
        ]
    );
}

#[test]
fn added_name_takes_its_sorted_place() {
    let mut db = new_employee_db();
    db.add_employee("carol", "ops");
    db.add_employee("alice", "ops");
    db.add_employee("bob", "ops");
    assert_eq!(db.get_employees_by_dept("ops"), ["alice", "bob", "carol"]);
    db.add_employee("Zed", "ops");
    assert_eq!(db.get_employees_by_dept("ops"), ["Zed", "alice", "bob", "carol"]);
}

#[test]
fn unknown_department_is_empty() {
    let db = new_employee_db();
    assert!(db.get_employees_by_dept("nowhere").is_empty());
    assert!(db.list_employees().is_empty());
    assert!(db.departments().is_empty());
}

#[test]
fn duplicates_are_kept() {
    let mut db = new_employee_db();
    db.add_employee("batman", "gotham");
    db.add_employee("batman", "gotham");
    assert_eq!(db.get_employees_by_dept("gotham"), ["batman", "batman"]);
    assert_eq!(db.list_employees().len(), 2);
}

#[test]
fn empty_names_are_accepted() {
    let mut db = new_employee_db();
    db.add_employee("", "");
    assert_eq!(db.get_employees_by_dept(""), [""]);
    assert_eq!(db.list_employees(), ["Name:  Department: "]);
}

#[test]
fn departments_come_in_order() {
    let mut db = new_employee_db();
    db.add_employee("a", "zeta");
    db.add_employee("b", "alpha");
    db.add_employee("c", "mid");
    db.add_employee("d", "alpha");
    assert_eq!(db.departments(), ["alpha", "mid", "zeta"]);
}

#[test]
fn order_is_by_code_point() {
    let mut db = new_employee_db();
    db.add_employee("é", "d");
    db.add_employee("z", "d");
    db.add_employee("Z", "d");
    db.add_employee("ab", "d");
    db.add_employee("a", "d");
    assert_eq!(db.get_employees_by_dept("d"), ["Z", "a", "ab", "z", "é"]);
}

#[test]
fn listing_of_one_department() {
    let names = vec![String::from("ann"), String::from("bo")];
    assert_eq!(
        build_employee_listing(&names, "hr"),
        ["Name: ann Department: hr", "Name: bo Department: hr"]
    );
    assert!(build_employee_listing(&Vec::new(), "hr").is_empty());
}
