use employees_db::parse::AddCommand;
use employees_db::parse::ListCommand;
use employees_db::store::EmployeesDB;

fn add_cmd(name: &str, department: &str) -> AddCommand {
    AddCommand { name: String::from(name), department: String::from(department) }
}

fn by_dept(dept: &str) -> ListCommand {
    ListCommand::ByDept { dept: String::from(dept) }
}

#[test]
fn add_then_list_finds_employee() {
    let mut db = EmployeesDB::new();
    let out = db.add(add_cmd("Alice", "Engineering"));
    assert_eq!(out, "Adding Alice to Engineering");
    let listed = db.list(by_dept("Engineering"));
    assert!(listed.contains("Alice"));
    assert_eq!(listed, "Our employees in Engineering: [Alice]");
    assert_eq!(db.list(by_dept("Sales")), "No employees in Sales!");
}

#[test]
fn insertion_order_preserved() {
    let mut db = EmployeesDB::new();
    db.add(add_cmd("Bob", "Sales"));
    db.add(add_cmd("Carol", "Sales"));
    assert_eq!(db.dept_to_employees.len(), 1);
    assert_eq!(db.dept_to_employees[0].0, "Sales");
    assert_eq!(db.dept_to_employees[0].1, vec!["Bob", "Carol"]);
    assert_eq!(db.list(by_dept("Sales")), "Our employees in Sales: [Bob, Carol]");
}

#[test]
fn duplicates_retained() {
    let mut db = EmployeesDB::new();
    db.add(add_cmd("Alice", "Engineering"));
    db.add(add_cmd("Alice", "Engineering"));
    assert_eq!(db.employees.len(), 2);
    assert_eq!(db.dept_to_employees[0].1, vec!["Alice", "Alice"]);
}

#[test]
fn list_all_renders_whole_index_in_insertion_order() {
    let mut db = EmployeesDB::new();
    assert_eq!(db.list(ListCommand::All), "{}");
    db.add(add_cmd("Dan", "Marketing"));
    db.add(add_cmd("Erin", "Sales"));
    db.add(add_cmd("Frank", "Marketing"));
    assert_eq!(db.list(ListCommand::All), "{Marketing: [Dan, Frank], Sales: [Erin]}");
}

#[test]
fn departments_created_lazily_never_removed() {
    let mut db = EmployeesDB::new();
    assert!(db.dept_to_employees.is_empty());
    db.add(add_cmd("Alice", "Engineering"));
    db.add(add_cmd("Bob", "Sales"));
    db.add(add_cmd("Carol", "Engineering"));
    let keys: Vec<&String> = db.dept_to_employees.iter().map(|p| &p.0).collect();
    assert_eq!(keys, ["Engineering", "Sales"]);
}

#[test]
fn end_to_end_session() {
    let mut db = EmployeesDB::new();
    let lines = ["add Dan to marketing", "list marketing", "list finance", "bogus line"];
    let responses: Vec<String> =
        lines.iter().map(|l| db.handle_line(&String::from(*l))).collect();
    assert_eq!(
        responses,
        [
            "Adding Dan to Marketing",
            "Our employees in Marketing: [Dan]",
            "No employees in Finance!",
            "Command not recognized, try again",
        ]
    );
}

#[test]
fn handle_line_parses_add_before_list() {
    let mut db = EmployeesDB::new();
    assert_eq!(db.handle_line(&String::from("ADD Gia TO support")), "Adding Gia to Support");
    assert_eq!(db.handle_line(&String::from("LIST support")), "Our employees in Support: [Gia]");
    assert_eq!(db.handle_line(&String::from("list ALL")), "{Support: [Gia]}");
}
