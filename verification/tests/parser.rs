use employees_db::parse::parse_add_command;
use employees_db::parse::parse_list_command;
use employees_db::parse::ListCommand;
use employees_db::text::canonicalize;
use employees_db::text::str_eq;
use employees_db::text::tokenize;

#[test]
fn add_well_formed_any_casing() {
    for line in ["add Alice to ENGINEERING", "ADD Alice TO engineering", "aDd Alice tO EnGiNeErInG"]
    {
        let cmd = parse_add_command(&String::from(line)).expect("should parse");
        assert_eq!(cmd.name, "Alice");
        assert_eq!(cmd.department, "Engineering");
    }
}

#[test]
fn add_name_kept_verbatim() {
    let cmd = parse_add_command(&String::from("add BoB to sales")).expect("should parse");
    assert_eq!(cmd.name, "BoB");
    assert_eq!(cmd.department, "Sales");
}

#[test]
fn add_trailing_newline_stripped() {
    let cmd = parse_add_command(&String::from("add Alice to engineering\n")).expect("should parse");
    assert_eq!(cmd.department, "Engineering");
}

#[test]
fn add_extra_tokens_ignored() {
    let cmd = parse_add_command(&String::from("add Alice to Sales right now")).expect("should parse");
    assert_eq!(cmd.name, "Alice");
    assert_eq!(cmd.department, "Sales");
}

#[test]
fn add_missing_tokens_rejected() {
    assert!(parse_add_command(&String::from("add")).is_none());
    assert!(parse_add_command(&String::from("add Alice")).is_none());
    assert!(parse_add_command(&String::from("add Alice to")).is_none());
    assert!(parse_add_command(&String::from("add Alice from Sales")).is_none());
    assert!(parse_add_command(&String::from("hire Alice to Sales")).is_none());
    assert!(parse_add_command(&String::from("")).is_none());
}

#[test]
fn add_double_space_shifts_tokens() {
    // "add  Alice to Sales" has an empty name token, so "Alice" lands
    // where the preposition is expected and the line is rejected.
    assert!(parse_add_command(&String::from("add  Alice to Sales")).is_none());
}

#[test]
fn add_empty_department_token_accepted() {
    let cmd = parse_add_command(&String::from("add Alice to ")).expect("should parse");
    assert_eq!(cmd.name, "Alice");
    assert_eq!(cmd.department, "");
}

#[test]
fn list_all_any_casing() {
    assert!(matches!(parse_list_command(&String::from("list all")), Some(ListCommand::All)));
    assert!(matches!(parse_list_command(&String::from("LIST ALL")), Some(ListCommand::All)));
}

#[test]
fn list_department_canonicalized() {
    match parse_list_command(&String::from("list engineering")) {
        Some(ListCommand::ByDept { dept }) => assert_eq!(dept, "Engineering"),
        _ => panic!("expected a department query"),
    }
    match parse_list_command(&String::from("List SALES and more")) {
        Some(ListCommand::ByDept { dept }) => assert_eq!(dept, "Sales"),
        _ => panic!("expected a department query"),
    }
}

#[test]
fn list_empty_department_token_accepted() {
    // "list " still has a (second, empty) token; an empty department
    // canonicalizes to an empty string rather than failing.
    match parse_list_command(&String::from("list ")) {
        Some(ListCommand::ByDept { dept }) => assert_eq!(dept, ""),
        _ => panic!("expected a department query"),
    }
}

#[test]
fn list_rejects_other_shapes() {
    assert!(parse_list_command(&String::from("list")).is_none());
    assert!(parse_list_command(&String::from("show all")).is_none());
    assert!(parse_list_command(&String::from("")).is_none());
}

#[test]
fn canonicalize_examples() {
    assert_eq!(canonicalize("ENGINEERING"), "Engineering");
    assert_eq!(canonicalize("engineering"), "Engineering");
    assert_eq!(canonicalize("Engineering"), "Engineering");
    assert_eq!(canonicalize(""), "");
}

#[test]
fn canonicalize_idempotent_on_examples() {
    for raw in ["sAlEs", "MARKETING", "finance"] {
        let once = canonicalize(raw);
        let twice = canonicalize(&once);
        assert_eq!(twice, once);
    }
}

#[test]
fn tokenize_splits_and_trims() {
    let toks = tokenize("a  b\n");
    assert_eq!(toks, vec!["a", "", "b"]);
    let toks = tokenize("");
    assert_eq!(toks, vec![""]);
}

#[test]
fn str_eq_compares_characters() {
    assert!(str_eq("abc", "abc"));
    assert!(!str_eq("abc", "abd"));
    assert!(!str_eq("abc", "ab"));
}
