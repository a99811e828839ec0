use vstd::prelude::*;
use vstd::string::*;

verus! {

/// The text of a server-sent event that reports a change at the time `time`.
pub open spec fn change_event(time: Seq<char>) -> Seq<char> {
    "event: change\ndata: "@ + time + "\n\n"@
}

/// The text of a server-sent comment that keeps the connection alive.
pub open spec fn ping_event() -> Seq<char> {
    ": ping\n\n"@
}

/// The next message of a change stream. `change` is the time of a change, written
/// in RFC 3339, or `None` for a tick of the keep-alive timer. A change is reported
/// once: after it, `changed` is set and the stream ends (`None`).
pub fn next_event(changed: &mut bool, change: Option<&str>) -> (r: Option<String>)
    ensures
        *old(changed) ==> r is None && *final(changed),
        !*old(changed) ==> match change {
            Some(t) => *final(changed) && (r matches Some(m) && m@ == change_event(t@)),
            None => !*final(changed) && (r matches Some(m) && m@ == ping_event()),
        },
{
    if *changed {
        return None;
    }
    match change {
        Some(time) => {
            *changed = true;
            let mut m = String::from_str("event: change\ndata: ");
            m.append(time);
            m.append("\n\n");
            Some(m)
        },
        None => Some(String::from_str(": ping\n\n")),
    }
}

} // verus!
