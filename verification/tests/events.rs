use msiviewer::events::next_event;

#[test]
fn ticks_ping_until_change_then_end() {
    let mut changed = false;
    assert_eq!(next_event(&mut changed, None), Some(": ping\n\n".to_string()));
    assert!(!changed);
    assert_eq!(
        next_event(&mut changed, Some("2024-01-02T03:04:05+00:00")),
        Some("event: change\ndata: 2024-01-02T03:04:05+00:00\n\n".to_string())
    );
    assert!(changed);
    assert_eq!(next_event(&mut changed, None), None);
    assert_eq!(next_event(&mut changed, Some("later")), None);
}
