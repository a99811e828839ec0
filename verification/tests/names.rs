use msiviewer::names::long_name;

#[test]
fn long_name_takes_part_after_bar() {
    assert_eq!(long_name("PROGRA~1|Program Files"), "Program Files");
}

#[test]
fn long_name_without_bar_is_whole_text() {
    assert_eq!(long_name("SourceDir"), "SourceDir");
    assert_eq!(long_name(""), "");
}

#[test]
fn long_name_splits_at_first_bar_only() {
    assert_eq!(long_name("a|b|c"), "b|c");
    assert_eq!(long_name("abc|"), "");
    assert_eq!(long_name("|x"), "x");
}

#[test]
fn long_name_keeps_non_ascii_text() {
    assert_eq!(long_name("PROGRA~1|Programme é"), "Programme é");
}
