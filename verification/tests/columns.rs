use msiviewer::columns::column_entry;

#[test]
fn column_entry_marks_key_and_nullable() {
    assert_eq!(column_entry("File", true, false, "s72", false), "\"File\" /* #s72 */");
    assert_eq!(column_entry("Attributes", false, false, "i2", true), "\"Attributes\" /* i2? */");
    assert_eq!(column_entry("Name", false, true, "Filename", false), "\"Name\" /* %Filename */");
}

#[test]
fn column_entry_escapes_name() {
    assert_eq!(column_entry("a\"b", false, false, "s0", false), "\"a\\\"b\" /* s0 */");
}
