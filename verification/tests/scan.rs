use msiviewer::scan::{Polled, ScanCore, ScanStep};

#[test]
fn scan_calls_function_until_it_stops() {
    let mut core = ScanCore::new();
    assert!(!core.is_terminated());
    assert!(matches!(core.on_poll(Polled::<u8>::Pending), ScanStep::Pending));
    assert!(matches!(core.on_poll(Polled::Item(4u8)), ScanStep::Call(4)));
    assert_eq!(core.on_answer(Some("x")), Some("x"));
    assert!(!core.is_terminated());
    assert_eq!(core.on_answer(None::<&str>), None);
    assert!(core.is_terminated());
    assert!(matches!(core.on_poll(Polled::Item(5u8)), ScanStep::Done));
    assert!(core.is_terminated());
}

#[test]
fn end_of_stream_stops_scan() {
    let mut core = ScanCore::new();
    assert!(matches!(core.on_poll(Polled::<u8>::Done), ScanStep::Done));
    assert!(core.is_terminated());
    assert!(matches!(core.on_poll(Polled::Item(1u8)), ScanStep::Done));
    assert!(matches!(core.on_poll(Polled::<u8>::Pending), ScanStep::Pending));
}

/// Drives a scan over a whole stream the way a fused stream does.
fn run_scan(items: &[i32], f: impl Fn(&mut i32, i32) -> Option<i32>) -> Vec<Option<i32>> {
    let mut core = ScanCore::new();
    let mut state = 0;
    let mut polls: Vec<Polled<i32>> = items.iter().map(|x| Polled::Item(*x)).collect();
    polls.push(Polled::Done);
    let mut out = Vec::new();
    for p in polls {
        match core.on_poll(p) {
            ScanStep::Pending => {}
            ScanStep::Done => out.push(None),
            ScanStep::Call(x) => {
                let r = f(&mut state, x);
                out.push(core.on_answer(r));
            }
        }
    }
    out
}

#[test]
fn fused_scan_yields_iterator_scan_then_ends() {
    let f = |acc: &mut i32, x: i32| {
        *acc += x;
        if *acc > 6 { None } else { Some(*acc) }
    };
    let items = [1, 2, 3, 4, 5];
    let expect: Vec<i32> = items.iter().copied().scan(0, |s, x| f(s, x)).collect();
    assert_eq!(expect, vec![1, 3, 6]);
    let got = run_scan(&items, f);
    assert_eq!(got, vec![Some(1), Some(3), Some(6), None, None, None]);
}
