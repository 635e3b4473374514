//! Keeps a market book in sync with a depth feed: diffs are buffered until
//! a snapshot arrives, the snapshot is bridged to the buffer, and from then
//! on every diff must follow the previous one without a gap.
use crate::market::{diff_view, snapshot_view, DepthUpdate, MarketBook, MarketView, Snapshot};
use vstd::prelude::*;

verus! {

#[derive(Debug, Clone)]
pub enum SyncState {
    Buffering(Vec<DepthUpdate>),
    Synced { book: MarketBook },
}

#[derive(Debug)]
pub enum ReconcileError {
    GapDetected { expected: u64, got: u64 },
    /// No buffered update bridges the snapshot's `last_update_id`.
    SnapshotTooOld,
}

/// The model of the reconciler's state.
pub enum SyncView {
    Buffering(Seq<DepthUpdate>),
    Synced(MarketView),
}

/// Update `d` covers update id `seq`.
pub open spec fn straddles(d: DepthUpdate, seq: int) -> bool {
    d.first_update_id <= seq && d.final_update_id >= seq
}

/// The index of the first buffered update that covers `seq`, if any.
pub open spec fn first_straddle(buf: Seq<DepthUpdate>, seq: int) -> Option<int> {
    if exists|i: int| 0 <= i < buf.len() && straddles(#[trigger] buf[i], seq) {
        Some(
            choose|i: int|
                0 <= i < buf.len() && straddles(#[trigger] buf[i], seq) && forall|j: int|
                    0 <= j < i ==> !straddles(#[trigger] buf[j], seq),
        )
    } else {
        None
    }
}

/// Applies the updates `ds` in turn to `book`, each of which must cover the
/// id right after the book's last one; the first that does not stops the
/// bridge with `Err((expected, got))`.
pub open spec fn bridge(book: MarketView, ds: Seq<DepthUpdate>) -> Result<MarketView, (u64, u64)>
    decreases ds.len(),
{
    if ds.len() == 0 {
        Ok(book)
    } else {
        let expected = (book.last_update_id + 1) as u64;
        if straddles(ds[0], expected as int) {
            bridge(diff_view(book, ds[0]), ds.drop_first())
        } else {
            Err((expected, ds[0].first_update_id))
        }
    }
}

/// No step of the bridge computes an id past `u64::MAX`.
pub open spec fn bridge_fits(book: MarketView, ds: Seq<DepthUpdate>) -> bool
    decreases ds.len(),
{
    if ds.len() == 0 {
        true
    } else {
        &&& book.last_update_id < u64::MAX
        &&& straddles(ds[0], book.last_update_id + 1) ==> bridge_fits(diff_view(book, ds[0]), ds.drop_first())
    }
}

/// Updates that each start right after the previous one ends.
pub open spec fn contiguous(ds: Seq<DepthUpdate>) -> bool {
    &&& forall|k: int| 0 <= k < ds.len() ==> (#[trigger] ds[k]).first_update_id <= ds[k].final_update_id
    &&& forall|k: int| 0 < k < ds.len() ==> (#[trigger] ds[k]).first_update_id == ds[k - 1].final_update_id + 1
}

/// A contiguous run of updates whose first covers the id right after the
/// book's bridges the book completely: the result is the book with every
/// update applied in turn, at the last update's final id.
pub proof fn lemma_contiguous_bridge(book: MarketView, ds: Seq<DepthUpdate>)
    requires
        ds.len() > 0,
        straddles(ds[0], book.last_update_id + 1),
        contiguous(ds),
    ensures
        bridge(book, ds) is Ok,
        bridge(book, ds)->Ok_0.last_update_id == ds.last().final_update_id,
    decreases ds.len(),
{
    let b1 = diff_view(book, ds[0]);
    let rest = ds.drop_first();
    assert(book.last_update_id < u64::MAX);
    assert(bridge(book, ds) == bridge(b1, rest));
    if rest.len() == 0 {
        assert(bridge(b1, rest) == Ok::<MarketView, (u64, u64)>(b1));
    } else {
        assert(rest[0] == ds[1]);
        assert(contiguous(rest)) by {
            assert forall|k: int| 0 < k < rest.len() implies (#[trigger] rest[k]).first_update_id == rest[k
                - 1].final_update_id + 1 by {
                assert(rest[k] == ds[k + 1]);
                assert(rest[k - 1] == ds[k]);
            }
        }
        lemma_contiguous_bridge(b1, rest);
        assert(rest.last() == ds.last());
    }
}

/// Whether a bridge fits depends on the book only through its last id.
pub proof fn lemma_bridge_fits_last(b1: MarketView, b2: MarketView, ds: Seq<DepthUpdate>)
    requires
        b1.last_update_id == b2.last_update_id,
    ensures
        bridge_fits(b1, ds) == bridge_fits(b2, ds),
    decreases ds.len(),
{
    if ds.len() > 0 {
        lemma_bridge_fits_last(diff_view(b1, ds[0]), diff_view(b2, ds[0]), ds.drop_first());
    }
}

/// One input to the reconciler: a streamed diff or a snapshot.
pub enum ReconcilerInput {
    Diff(DepthUpdate),
    Snapshot(Snapshot),
}

/// The state after one input, and whether the call succeeded: what
/// `on_diff` and `on_snapshot` do.
pub open spec fn take_input(v: SyncView, input: ReconcilerInput) -> (SyncView, bool) {
    match input {
        ReconcilerInput::Diff(update) => match v {
            SyncView::Buffering(buf) => (SyncView::Buffering(buf.push(update)), true),
            SyncView::Synced(b) => if update.first_update_id == (b.last_update_id + 1) as u64 {
                (SyncView::Synced(diff_view(b, update)), true)
            } else {
                (SyncView::Buffering(Seq::empty()), false)
            },
        },
        ReconcilerInput::Snapshot(snapshot) => match v {
            SyncView::Synced(_) => (v, true),
            SyncView::Buffering(buf) => match first_straddle(buf, snapshot.last_update_id + 1) {
                None => (SyncView::Buffering(Seq::empty()), false),
                Some(i) => match bridge(snapshot_view(snapshot), buf.skip(i)) {
                    Ok(b) => (SyncView::Synced(b), true),
                    Err(_) => (SyncView::Buffering(Seq::empty()), false),
                },
            },
        },
    }
}

/// The state of a new reconciler after the inputs in turn, and which calls
/// succeeded.
pub open spec fn replay(inputs: Seq<ReconcilerInput>) -> (SyncView, Seq<bool>)
    decreases inputs.len(),
{
    if inputs.len() == 0 {
        (SyncView::Buffering(Seq::empty()), Seq::empty())
    } else {
        let (v, oks) = replay(inputs.drop_last());
        let (v1, ok) = take_input(v, inputs.last());
        (v1, oks.push(ok))
    }
}

/// A reconciler has a book exactly when some snapshot was taken
/// successfully and no call failed after it; in particular, right after a
/// failed call it has none.
pub proof fn lemma_synced_iff_snapshot_held(inputs: Seq<ReconcilerInput>)
    ensures
        ({
            let (v, oks) = replay(inputs);
            &&& oks.len() == inputs.len()
            &&& (v is Synced <==> exists|k: int|
                0 <= k < inputs.len() && (#[trigger] inputs[k]) is Snapshot && oks[k] && forall|j: int|
                    k < j < inputs.len() ==> #[trigger] oks[j])
            &&& inputs.len() > 0 && !oks.last() ==> v is Buffering
        }),
    decreases inputs.len(),
{
    if inputs.len() > 0 {
        let n = inputs.len() - 1;
        let prev = inputs.drop_last();
        lemma_synced_iff_snapshot_held(prev);
        let (v0, oks0) = replay(prev);
        let x = inputs.last();
        let (v, ok) = take_input(v0, x);
        let oks = oks0.push(ok);
        assert(replay(inputs) == (v, oks));
        assert forall|k: int| 0 <= k < n implies #[trigger] inputs[k] == prev[k] && oks[k] == oks0[k] by {}
        if !ok {
            assert(v is Buffering);
            if exists|k: int|
                0 <= k < inputs.len() && (#[trigger] inputs[k]) is Snapshot && oks[k] && forall|j: int|
                    k < j < inputs.len() ==> #[trigger] oks[j] {
                let k = choose|k: int|
                    0 <= k < inputs.len() && (#[trigger] inputs[k]) is Snapshot && oks[k] && forall|j: int|
                        k < j < inputs.len() ==> #[trigger] oks[j];
                if k < n {
                    assert(oks[n]);
                }
            }
        } else if x is Snapshot {
            assert(v is Synced);
            assert(inputs[n] is Snapshot && oks[n]);
        } else {
            assert(v is Synced <==> v0 is Synced);
            if v0 is Synced {
                let k = choose|k: int|
                    0 <= k < prev.len() && (#[trigger] prev[k]) is Snapshot && oks0[k] && forall|j: int|
                        k < j < prev.len() ==> #[trigger] oks0[j];
                assert(inputs[k] is Snapshot && oks[k]);
                assert forall|j: int| k < j < inputs.len() implies #[trigger] oks[j] by {
                    if j < n {
                        assert(oks0[j]);
                    }
                }
            } else {
                if exists|k: int|
                    0 <= k < inputs.len() && (#[trigger] inputs[k]) is Snapshot && oks[k] && forall|j: int|
                        k < j < inputs.len() ==> #[trigger] oks[j] {
                    let k = choose|k: int|
                        0 <= k < inputs.len() && (#[trigger] inputs[k]) is Snapshot && oks[k] && forall|j: int|
                            k < j < inputs.len() ==> #[trigger] oks[j];
                    assert(k < n);
                    assert(prev[k] is Snapshot && oks0[k]);
                    assert forall|j: int| k < j < prev.len() implies #[trigger] oks0[j] by {
                        assert(oks[j]);
                    }
                }
            }
        }
    }
}

pub struct Reconciler {
    state: SyncState,
}

impl Reconciler {
    pub closed spec fn view(&self) -> SyncView {
        match self.state {
            SyncState::Buffering(buf) => SyncView::Buffering(buf@),
            SyncState::Synced { book } => SyncView::Synced(book@),
        }
    }

    /// Taking a diff does not run the expected id past `u64::MAX`.
    pub open spec fn diff_fits(&self) -> bool {
        self.view() matches SyncView::Synced(b) ==> b.last_update_id < u64::MAX
    }

    /// Taking `snapshot` does not run an expected id past `u64::MAX`.
    pub open spec fn snapshot_fits(&self, snapshot: Snapshot) -> bool {
        self.view() matches SyncView::Buffering(buf) ==> {
            &&& snapshot.last_update_id < u64::MAX
            &&& first_straddle(buf, snapshot.last_update_id + 1) matches Some(i) ==> bridge_fits(
                snapshot_view(snapshot),
                buf.skip(i),
            )
        }
    }

    /// A reconciler waiting for a snapshot, with an empty buffer.
    pub fn new() -> (r: Reconciler)
        ensures
            r.view() == SyncView::Buffering(Seq::empty()),
    {
        Reconciler { state: SyncState::Buffering(Vec::new()) }
    }

    /// Takes one diff off the feed: buffered while waiting for a snapshot;
    /// once synced, applied if it starts right after the book's last update,
    /// and otherwise the state drops back to an empty buffer with a gap error.
    pub fn on_diff(&mut self, update: DepthUpdate) -> (r: Result<(), ReconcileError>)
        requires
            old(self).diff_fits(),
        ensures
            (final(self).view(), r is Ok) == take_input(old(self).view(), ReconcilerInput::Diff(update)),
            match old(self).view() {
                SyncView::Buffering(buf) => r is Ok && final(self).view() == SyncView::Buffering(
                    buf.push(update),
                ),
                SyncView::Synced(b) => {
                    let expected = (b.last_update_id + 1) as u64;
                    if update.first_update_id == expected {
                        r is Ok && final(self).view() == SyncView::Synced(diff_view(b, update))
                    } else {
                        &&& r matches Err(ReconcileError::GapDetected { expected: e, got: g })
                        &&& e == expected && g == update.first_update_id
                        &&& final(self).view() == SyncView::Buffering(Seq::empty())
                    }
                },
            },
    {
        match &mut self.state {
            SyncState::Buffering(bufferqueue) => {
                bufferqueue.push(update);
                Ok(())
            },
            SyncState::Synced { book } => {
                let expected = book.last_update_id() + 1;
                if update.first_update_id == expected {
                    book.apply_diff(&update);
                    Ok(())
                } else {
                    self.state = SyncState::Buffering(Vec::new());
                    Err(ReconcileError::GapDetected { expected: expected, got: update.first_update_id })
                }
            },
        }
    }

    /// Takes a snapshot while buffering: finds the first buffered update that
    /// covers the id right after the snapshot (none: the buffer is dropped
    /// and the snapshot is too old), then applies it and every later buffered
    /// update in turn; a gap drops the state back to an empty buffer. Once
    /// synced, a snapshot changes nothing.
    pub fn on_snapshot(&mut self, snapshot: Snapshot) -> (r: Result<(), ReconcileError>)
        requires
            old(self).snapshot_fits(snapshot),
        ensures
            (final(self).view(), r is Ok) == take_input(old(self).view(), ReconcilerInput::Snapshot(snapshot)),
            match old(self).view() {
                SyncView::Synced(b) => r is Ok && final(self).view() == old(self).view(),
                SyncView::Buffering(buf) => match first_straddle(buf, snapshot.last_update_id + 1) {
                    None => r matches Err(ReconcileError::SnapshotTooOld) && final(self).view()
                        == SyncView::Buffering(Seq::empty()),
                    Some(i) => match bridge(snapshot_view(snapshot), buf.skip(i)) {
                        Ok(b) => r is Ok && final(self).view() == SyncView::Synced(b),
                        Err((e, g)) => {
                            &&& r matches Err(ReconcileError::GapDetected { expected: x, got: y })
                            &&& x == e && y == g
                            &&& final(self).view() == SyncView::Buffering(Seq::empty())
                        },
                    },
                },
            },
    {
        let bufferqueue = match &mut self.state {
            SyncState::Buffering(buf) => buf,
            SyncState::Synced { .. } => {
                return Ok(());
            },
        };
        let ghost buf = bufferqueue@;
        let seq = snapshot.last_update_id + 1;
        let mut idx: usize = 0;
        let mut found = false;
        while idx < bufferqueue.len()
            invariant_except_break
                !found,
                forall|j: int| 0 <= j < idx ==> !straddles(#[trigger] buf[j], seq as int),
            invariant
                idx <= buf.len(),
                buf == bufferqueue@,
                !found ==> forall|j: int| 0 <= j < idx ==> !straddles(#[trigger] buf[j], seq as int),
            ensures
                found ==> idx < buf.len() && straddles(buf[idx as int], seq as int) && forall|j: int|
                    0 <= j < idx ==> !straddles(#[trigger] buf[j], seq as int),
                !found ==> idx == buf.len() && forall|j: int|
                    0 <= j < buf.len() ==> !straddles(#[trigger] buf[j], seq as int),
            decreases buf.len() - idx,
        {
            let d = &bufferqueue[idx];
            if d.first_update_id <= seq && d.final_update_id >= seq {
                found = true;
                break;
            }
            idx = idx + 1;
        }
        if !found {
            *bufferqueue = Vec::new();
            return Err(ReconcileError::SnapshotTooOld);
        }
        let straddle_idx = idx;
        proof {
            let i = straddle_idx as int;
            let c = choose|k: int|
                0 <= k < buf.len() && straddles(#[trigger] buf[k], seq as int) && forall|j: int|
                    0 <= j < k ==> !straddles(#[trigger] buf[j], seq as int);
            assert(first_straddle(buf, seq as int) is Some);
            if c < i {
            } else if c > i {
                assert(!straddles(buf[i], seq as int));
            }
            assert(first_straddle(buf, seq as int) == Some(i));
        }
        let mut marketbook = MarketBook::new();
        marketbook.apply_snapshot(snapshot);
        let ghost rest = buf.skip(straddle_idx as int);
        let mut j = straddle_idx;
        while j < bufferqueue.len()
            invariant
                straddle_idx <= j <= buf.len(),
                buf == bufferqueue@,
                rest == buf.skip(straddle_idx as int),
                bridge(snapshot_view(snapshot), rest) == bridge(marketbook@, buf.skip(j as int)),
                bridge_fits(marketbook@, buf.skip(j as int)),
                first_straddle(buf, snapshot.last_update_id + 1) == Some(straddle_idx as int),
                old(self).view() == SyncView::Buffering(buf),
            decreases buf.len() - j,
        {
            let depths = &bufferqueue[j];
            proof {
                assert(buf.skip(j as int)[0] == *depths);
                assert(buf.skip(j as int).drop_first() =~= buf.skip(j + 1));
            }
            let expected = marketbook.last_update_id() + 1;
            let got = depths.first_update_id;
            if depths.first_update_id <= expected && depths.final_update_id >= expected {
                marketbook.apply_diff(depths);
            } else {
                proof {
                    assert(!straddles(buf.skip(j as int)[0], expected as int));
                    assert(bridge(marketbook@, buf.skip(j as int)) == Err::<MarketView, (u64, u64)>((expected, got)));
                }
                self.state = SyncState::Buffering(Vec::new());
                return Err(ReconcileError::GapDetected { expected, got });
            }
            j = j + 1;
        }
        proof {
            assert(buf.skip(j as int).len() == 0);
        }
        self.state = SyncState::Synced { book: marketbook };
        Ok(())
    }

    /// The synced book, or `None` while buffering.
    pub fn book(&self) -> (r: Option<&MarketBook>)
        ensures
            match self.view() {
                SyncView::Synced(b) => r matches Some(m) && m@ == b,
                SyncView::Buffering(_) => r is None,
            },
    {
        match &self.state {
            SyncState::Synced { book } => Some(book),
            SyncState::Buffering(_) => None,
        }
    }

    /// Whether taking `snapshot` now keeps every update id it computes
    /// within `u64::MAX` (the condition `on_snapshot` asks of its caller).
    pub fn snapshot_ids_fit(&self, snapshot: &Snapshot) -> (r: bool)
        ensures
            r == self.snapshot_fits(*snapshot),
    {
        let bufferqueue = match &self.state {
            SyncState::Buffering(buf) => buf,
            SyncState::Synced { .. } => {
                return true;
            },
        };
        let ghost buf = bufferqueue@;
        if snapshot.last_update_id == u64::MAX {
            return false;
        }
        let seq = snapshot.last_update_id + 1;
        let mut idx: usize = 0;
        let mut found = false;
        while idx < bufferqueue.len()
            invariant_except_break
                !found,
                forall|j: int| 0 <= j < idx ==> !straddles(#[trigger] buf[j], seq as int),
            invariant
                idx <= buf.len(),
                buf == bufferqueue@,
                !found ==> forall|j: int| 0 <= j < idx ==> !straddles(#[trigger] buf[j], seq as int),
            ensures
                found ==> idx < buf.len() && straddles(buf[idx as int], seq as int) && forall|j: int|
                    0 <= j < idx ==> !straddles(#[trigger] buf[j], seq as int),
                !found ==> idx == buf.len() && forall|j: int|
                    0 <= j < buf.len() ==> !straddles(#[trigger] buf[j], seq as int),
            decreases buf.len() - idx,
        {
            let d = &bufferqueue[idx];
            if d.first_update_id <= seq && d.final_update_id >= seq {
                found = true;
                break;
            }
            idx = idx + 1;
        }
        if !found {
            return true;
        }
        proof {
            let i = idx as int;
            let c = choose|k: int|
                0 <= k < buf.len() && straddles(#[trigger] buf[k], seq as int) && forall|j: int|
                    0 <= j < k ==> !straddles(#[trigger] buf[j], seq as int);
            assert(first_straddle(buf, seq as int) is Some);
            if c < i {
            } else if c > i {
                assert(!straddles(buf[i], seq as int));
            }
            assert(first_straddle(buf, seq as int) == Some(i));
        }
        let ghost start = snapshot_view(*snapshot);
        proof {
            assert(self.snapshot_fits(*snapshot) == bridge_fits(start, buf.skip(idx as int)));
        }
        let mut last = snapshot.last_update_id;
        let mut j = idx;
        while j < bufferqueue.len()
            invariant
                idx <= j <= buf.len(),
                buf == bufferqueue@,
                first_straddle(buf, snapshot.last_update_id + 1) == Some(idx as int),
                self.view() == SyncView::Buffering(buf),
                snapshot.last_update_id < u64::MAX,
                self.snapshot_fits(*snapshot) == bridge_fits(start, buf.skip(idx as int)),
                bridge_fits(start, buf.skip(idx as int)) == bridge_fits(
                    MarketView { last_update_id: last, ..start },
                    buf.skip(j as int),
                ),
            decreases buf.len() - j,
        {
            let d = &bufferqueue[j];
            let ghost b = MarketView { last_update_id: last, ..start };
            proof {
                assert(buf.skip(j as int)[0] == *d);
                assert(buf.skip(j as int).drop_first() =~= buf.skip(j + 1));
            }
            if last == u64::MAX {
                proof {
                    assert(buf.skip(j as int).len() > 0);
                    assert(!bridge_fits(b, buf.skip(j as int)));
                }
                return false;
            }
            let expected = last + 1;
            if d.first_update_id <= expected && d.final_update_id >= expected {
                proof {
                    lemma_bridge_fits_last(
                        diff_view(b, *d),
                        MarketView { last_update_id: d.final_update_id, ..start },
                        buf.skip(j + 1),
                    );
                }
                last = d.final_update_id;
            } else {
                proof {
                    assert(buf.skip(j as int).len() > 0);
                    assert(!straddles(buf.skip(j as int)[0], b.last_update_id + 1));
                    assert(bridge_fits(b, buf.skip(j as int)));
                }
                return true;
            }
            j = j + 1;
        }
        proof {
            assert(buf.skip(j as int).len() == 0);
        }
        true
    }
}

} // verus!
