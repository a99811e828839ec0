use msiviewer::dirtree::{dir_resolve, resolution_terminates};

fn row(key: &str, parent: Option<&str>, name: &str) -> (String, Option<String>, String) {
    (key.to_string(), parent.map(|p| p.to_string()), name.to_string())
}

fn path(parts: &[&str]) -> Vec<String> {
    parts.iter().map(|s| s.to_string()).collect()
}

#[test]
fn resolves_nested_directories() {
    let rows = vec![
        row("TARGETDIR", None, "SourceDir"),
        row("ProgramFilesFolder", Some("TARGETDIR"), "PFiles"),
        row("APPDIR", Some("ProgramFilesFolder"), "App"),
        row("BIN", Some("APPDIR"), "bin"),
    ];
    assert!(resolution_terminates(&rows));
    let res = dir_resolve(&rows);
    assert_eq!(res.get("TARGETDIR"), Some(&path(&["SourceDir"])));
    assert_eq!(res.get("ProgramFilesFolder"), Some(&path(&["SourceDir", "PFiles"])));
    assert_eq!(res.get("APPDIR"), Some(&path(&["SourceDir", "PFiles", "App"])));
    assert_eq!(res.get("BIN"), Some(&path(&["SourceDir", "PFiles", "App", "bin"])));
    assert_eq!(res.len(), 4);
}

#[test]
fn child_rows_before_parent_rows_resolve_too() {
    let rows = vec![
        row("BIN", Some("APPDIR"), "bin"),
        row("APPDIR", Some("TARGETDIR"), "App"),
        row("TARGETDIR", None, "SourceDir"),
    ];
    let res = dir_resolve(&rows);
    assert_eq!(res.get("BIN"), Some(&path(&["SourceDir", "App", "bin"])));
}

#[test]
fn unreachable_directories_get_no_path() {
    let rows = vec![
        row("TARGETDIR", None, "SourceDir"),
        row("ORPHAN", Some("MISSING"), "orphan"),
        row("A", Some("B"), "a"),
        row("B", Some("A"), "b"),
    ];
    assert!(resolution_terminates(&rows));
    let res = dir_resolve(&rows);
    assert_eq!(res.get("ORPHAN"), None);
    assert_eq!(res.get("A"), None);
    assert_eq!(res.get("B"), None);
    assert_eq!(res.len(), 1);
}

#[test]
fn several_roots_each_start_a_path() {
    let rows = vec![
        row("TARGETDIR", None, "SourceDir"),
        row("OTHER", None, "Other"),
        row("X", Some("OTHER"), "x"),
    ];
    let res = dir_resolve(&rows);
    assert_eq!(res.get("X"), Some(&path(&["Other", "x"])));
    assert_eq!(res.get("OTHER"), Some(&path(&["Other"])));
}

#[test]
fn child_path_extends_parent_path() {
    let rows = vec![
        row("R", None, "root"),
        row("A", Some("R"), "a"),
        row("B", Some("A"), "b"),
        row("C", Some("A"), "c"),
    ];
    let res = dir_resolve(&rows);
    let mut expect = res.get("A").unwrap().clone();
    expect.push("c".to_string());
    assert_eq!(res.get("C"), Some(&expect));
}

#[test]
fn empty_table_resolves_nothing() {
    let rows: Vec<(String, Option<String>, String)> = Vec::new();
    assert!(resolution_terminates(&rows));
    assert!(dir_resolve(&rows).is_empty());
}

#[test]
fn cycle_below_a_root_does_not_terminate() {
    let rows = vec![
        row("R", None, "root"),
        row("A", Some("R"), "a"),
        row("B", Some("A"), "b"),
        row("A", Some("B"), "again"),
    ];
    assert!(!resolution_terminates(&rows));
}

#[test]
fn root_that_is_its_own_parent_does_not_terminate() {
    let rows = vec![row("R", None, "root"), row("R", Some("R"), "again")];
    assert!(!resolution_terminates(&rows));
}

#[test]
fn resolution_does_not_depend_on_row_order() {
    let rows = vec![
        row("TARGETDIR", None, "SourceDir"),
        row("A", Some("TARGETDIR"), "a"),
        row("B", Some("A"), "b"),
        row("C", Some("B"), "c"),
        row("D", Some("TARGETDIR"), "d"),
    ];
    let mut shuffled = rows.clone();
    shuffled.reverse();
    shuffled.swap(0, 2);
    assert!(resolution_terminates(&rows));
    assert!(resolution_terminates(&shuffled));
    let first = dir_resolve(&rows);
    let second = dir_resolve(&shuffled);
    for key in ["TARGETDIR", "A", "B", "C", "D"] {
        assert_eq!(first.get(key), second.get(key));
    }
    assert_eq!(first.len(), second.len());
}
