use vstd::prelude::*;

verus! {

/// What the underlying stream answered to a poll.
pub enum Polled<I> {
    /// No item is ready yet.
    Pending,
    /// The stream has ended.
    Done,
    /// The next item.
    Item(I),
}

/// What a fused scan does with that answer.
pub enum ScanStep<I> {
    /// Report that nothing is ready yet.
    Pending,
    /// Yield the end of the scan.
    Done,
    /// Hand the item to the scan function and yield what it answers.
    Call(I),
}

/// The decisions of a scan over a stream that stops for good: once the stream has
/// ended or the scan function has answered `None`, the scan yields no more items.
pub struct ScanCore {
    stopped: bool,
}

/// The step that a scan takes on a poll's answer, given whether it has stopped.
pub open spec fn scan_step<I>(stopped: bool, p: Polled<I>) -> ScanStep<I> {
    match p {
        Polled::Pending => ScanStep::Pending,
        Polled::Done => ScanStep::Done,
        Polled::Item(x) => if stopped {
            ScanStep::Done
        } else {
            ScanStep::Call(x)
        },
    }
}

/// Whether the scan has stopped after a poll's answer.
pub open spec fn stopped_after<I>(stopped: bool, p: Polled<I>) -> bool {
    stopped || p is Done
}

/// Whether the scan has stopped after its function answered `out`.
pub open spec fn stopped_answered<T>(stopped: bool, out: Option<T>) -> bool {
    stopped || out is None
}

impl ScanCore {
    /// The scan has stopped and yields nothing more.
    pub closed spec fn terminated(&self) -> bool {
        self.stopped
    }

    /// Starts a scan.
    pub fn new() -> (c: Self)
        ensures
            !c.terminated(),
    {
        ScanCore { stopped: false }
    }

    /// Tells whether the scan has stopped.
    pub fn is_terminated(&self) -> (b: bool)
        ensures
            b == self.terminated(),
    {
        self.stopped
    }

    /// Decides what to do with the answer of the underlying stream: a pending
    /// stream stays pending, an ended stream ends the scan, and an item goes to the
    /// scan function unless the scan has stopped.
    pub fn on_poll<I>(&mut self, p: Polled<I>) -> (s: ScanStep<I>)
        ensures
            s == scan_step(old(self).terminated(), p),
            final(self).terminated() == stopped_after(old(self).terminated(), p),
    {
        match p {
            Polled::Pending => ScanStep::Pending,
            Polled::Done => {
                self.stopped = true;
                ScanStep::Done
            },
            Polled::Item(x) => if self.stopped {
                ScanStep::Done
            } else {
                ScanStep::Call(x)
            },
        }
    }

    /// Takes what the scan function answered: the answer is yielded as it is, and
    /// `None` stops the scan.
    pub fn on_answer<T>(&mut self, out: Option<T>) -> (r: Option<T>)
        ensures
            r == out,
            final(self).terminated() == stopped_answered(old(self).terminated(), out),
    {
        if out.is_none() {
            self.stopped = true;
        }
        out
    }
}

/// What `Iterator::scan` yields from the state `s` over `items`, with the scan
/// function taken as a map from state and item to the next state and the answer:
/// the answers up to the first `None`.
pub open spec fn iter_scan<S, I, T>(s: S, f: spec_fn(S, I) -> (S, Option<T>), items: Seq<I>) -> Seq<T>
    decreases items.len(),
{
    if items.len() == 0 {
        seq![]
    } else {
        let (s2, out) = f(s, items[0]);
        match out {
            None => seq![],
            Some(v) => seq![v] + iter_scan(s2, f, items.drop_first()),
        }
    }
}

/// What a fused scan with the function `f`, in the state `s`, yields at each poll
/// when its stream gives `items` and then ends: each step as `on_poll` decides it,
/// with the function's answer taken as `on_answer` takes it.
pub open spec fn fused_run<S, I, T>(
    stopped: bool,
    s: S,
    f: spec_fn(S, I) -> (S, Option<T>),
    items: Seq<I>,
) -> Seq<Option<T>>
    decreases items.len(),
{
    if items.len() == 0 {
        seq![None]
    } else {
        let p = Polled::Item(items[0]);
        match scan_step(stopped, p) {
            ScanStep::Call(x) => {
                let (s2, out) = f(s, x);
                seq![out] + fused_run(stopped_answered(stopped_after(stopped, p), out), s2, f, items.drop_first())
            },
            _ => seq![None] + fused_run(stopped_after(stopped, p), s, f, items.drop_first()),
        }
    }
}

/// A stopped scan yields only ends.
proof fn lemma_stopped_run<S, I, T>(s: S, f: spec_fn(S, I) -> (S, Option<T>), items: Seq<I>)
    ensures
        fused_run(true, s, f, items) == Seq::new(items.len() + 1, |i: int| None::<T>),
    decreases items.len(),
{
    if items.len() > 0 {
        lemma_stopped_run(s, f, items.drop_first());
    }
    assert(fused_run(true, s, f, items) =~= Seq::new(items.len() + 1, |i: int| None::<T>));
}

/// Over a whole stream that ends, a fused scan yields what `Iterator::scan` yields
/// over the same items, up to the function's first `None`, and after that only
/// ends.
pub proof fn lemma_fused_run_is_scan<S, I, T>(s: S, f: spec_fn(S, I) -> (S, Option<T>), items: Seq<I>)
    ensures
        fused_run(false, s, f, items) == iter_scan(s, f, items).map_values(|v: T| Some(v)) + Seq::new(
            (items.len() + 1 - iter_scan(s, f, items).len()) as nat,
            |i: int| None::<T>,
        ),
        iter_scan(s, f, items).len() <= items.len(),
    decreases items.len(),
{
    if items.len() > 0 {
        let (s2, out) = f(s, items[0]);
        match out {
            None => {
                lemma_stopped_run(s2, f, items.drop_first());
            },
            Some(v) => {
                lemma_fused_run_is_scan(s2, f, items.drop_first());
            },
        }
    }
    assert(fused_run(false, s, f, items) =~= iter_scan(s, f, items).map_values(|v: T| Some(v)) + Seq::new(
        (items.len() + 1 - iter_scan(s, f, items).len()) as nat,
        |i: int| None::<T>,
    ));
}

/// A stopped scan stays stopped and never hands an item to its function again,
/// whatever the stream answers.
pub proof fn lemma_stopped_stays<I>(p: Polled<I>)
    ensures
        stopped_after(true, p),
        !(scan_step(true, p) is Call),
{
}

} // verus!
