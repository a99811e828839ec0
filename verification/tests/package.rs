use msiviewer::dirtree::resolution_terminates;
use msiviewer::package::{cabinet_name, directory_entries, file_paths, CellValue};

fn s(x: &str) -> CellValue {
    CellValue::Str(x.to_string())
}

fn path(parts: &[&str]) -> Vec<String> {
    parts.iter().map(|s| s.to_string()).collect()
}

fn directory_table() -> Vec<(CellValue, CellValue, CellValue)> {
    vec![
        (s("TARGETDIR"), CellValue::Null, s("SourceDir")),
        (s("ProgramFilesFolder"), s("TARGETDIR"), s(".")),
        (s("APPDIR"), s("ProgramFilesFolder"), s("MYAPP~1|My App")),
        (CellValue::Int(7), s("TARGETDIR"), s("skipped")),
        (s("NONAME"), s("TARGETDIR"), CellValue::Null),
    ]
}

#[test]
fn directory_rows_keep_string_keys_and_long_names() {
    let rows = directory_entries(&directory_table());
    assert_eq!(
        rows,
        vec![
            ("TARGETDIR".to_string(), None, "SourceDir".to_string()),
            ("ProgramFilesFolder".to_string(), Some("TARGETDIR".to_string()), ".".to_string()),
            ("APPDIR".to_string(), Some("ProgramFilesFolder".to_string()), "My App".to_string()),
        ]
    );
}

#[test]
fn non_string_parent_makes_a_root() {
    let rows = directory_entries(&vec![(s("D"), CellValue::Int(3), s("d"))]);
    assert_eq!(rows, vec![("D".to_string(), None, "d".to_string())]);
}

#[test]
fn files_get_directory_path_and_long_name() {
    let rows = directory_entries(&directory_table());
    assert!(resolution_terminates(&rows));
    let files = vec![
        (s("app.exe"), s("APP~1.EXE|app.exe"), s("APPDIR")),
        (s("lost.txt"), s("lost.txt"), s("NOWHERE")),
        (s("bad"), CellValue::Null, s("APPDIR")),
        (s("readme"), s("README.TXT"), s("TARGETDIR")),
    ];
    let out = file_paths(&rows, &files);
    assert_eq!(
        out,
        vec![
            ("app.exe".to_string(), path(&["SourceDir", ".", "My App", "app.exe"])),
            ("readme".to_string(), path(&["SourceDir", "README.TXT"])),
        ]
    );
}

#[test]
fn files_of_one_directory_share_its_path() {
    let rows = directory_entries(&vec![
        (s("TARGETDIR"), CellValue::Null, s("SourceDir")),
        (s("DUP"), s("TARGETDIR"), s("first")),
        (s("DUP"), s("TARGETDIR"), s("second")),
    ]);
    assert!(resolution_terminates(&rows));
    let files = vec![
        (s("one"), s("one.txt"), s("DUP")),
        (s("two"), s("two.txt"), s("DUP")),
    ];
    let out = file_paths(&rows, &files);
    assert_eq!(out.len(), 2);
    assert_eq!(out[0].1.len(), 3);
    assert_eq!(out[0].1[..2], out[1].1[..2]);
    assert_eq!(out[0].1[2], "one.txt");
    assert_eq!(out[1].1[2], "two.txt");
}

#[test]
fn no_files_give_no_entries() {
    let rows = directory_entries(&directory_table());
    assert!(file_paths(&rows, &Vec::new()).is_empty());
}

#[test]
fn cabinet_is_first_embedded_stream() {
    let cells = vec![CellValue::Null, s("disk1.cab"), s("#Data1.cab"), s("#Data2.cab")];
    assert_eq!(cabinet_name(&cells), Some("Data1.cab".to_string()));
}

#[test]
fn no_embedded_cabinet_gives_none() {
    assert_eq!(cabinet_name(&vec![s("disk1.cab"), CellValue::Int(1), CellValue::Binary]), None);
    assert_eq!(cabinet_name(&Vec::new()), None);
}

#[test]
fn bare_mark_gives_empty_stream_name() {
    assert_eq!(cabinet_name(&vec![s("#")]), Some(String::new()));
}
