//! The debouncer: filters raw per-cell matrix samples into stable
//! press/release events.
//!
//! Mechanical switches bounce: a single physical press can read as several
//! electrical transitions. The debouncer keeps, per cell, the last confirmed
//! stable value and a count of consecutive scans that disagreed with it; only
//! after `threshold` consecutive disagreeing scans does the stable value flip
//! and a [`KeyEvent`] come out. A scan that agrees with the stable value
//! resets the count to zero.

use vstd::prelude::*;

verus! {

/// Debounce threshold a keyboard typically uses: five consecutive agreeing
/// scans confirm a transition.
pub const DEFAULT_DEBOUNCE_THRESHOLD: u8 = 5;

/// The kind of a key transition.
#[derive(Clone, Copy, Debug, PartialEq, Eq, Structural)]
pub enum EventKind {
    /// The key went down.
    Press,
    /// The key went up.
    Release,
}

/// A debounced key transition at one matrix position.
#[derive(Clone, Copy, Debug, PartialEq, Eq, Structural)]
pub struct KeyEvent {
    /// Matrix row of the key.
    pub row: usize,
    /// Matrix column of the key.
    pub col: usize,
    /// Whether the key went down or up.
    pub kind: EventKind,
}

/// Mathematical state of a debouncer: per-cell stable values and
/// disagreement counts, and the configured threshold.
pub ghost struct DebounceModel {
    /// Last confirmed stable value of each cell.
    pub stable: Seq<Seq<bool>>,
    /// Consecutive scans that disagreed with the stable value, per cell.
    pub counts: Seq<Seq<u8>>,
    /// Scans needed to confirm a transition.
    pub threshold: u8,
}

/// `m` is a `rows × cols` grid of raw samples.
pub open spec fn matrix_wf(m: Seq<Seq<bool>>, rows: nat, cols: nat) -> bool {
    &&& m.len() == rows
    &&& forall|r: int| 0 <= r < rows ==> (#[trigger] m[r]).len() == cols
}

/// Well-formed debouncer state for a `rows × cols` matrix: rectangular
/// grids, a positive threshold, and every count strictly below it.
pub open spec fn deb_wf(m: DebounceModel, rows: nat, cols: nat) -> bool {
    &&& m.threshold >= 1
    &&& m.stable.len() == rows
    &&& m.counts.len() == rows
    &&& forall|r: int| 0 <= r < rows ==> (#[trigger] m.stable[r]).len() == cols
    &&& forall|r: int| 0 <= r < rows ==> (#[trigger] m.counts[r]).len() == cols
    &&& forall|r: int, c: int|
        0 <= r < rows && 0 <= c < cols ==> (#[trigger] m.counts[r][c]) < m.threshold
}

/// One cell flips on this scan: the raw sample disagrees with the stable
/// value and completes a run of `threshold` consecutive disagreeing scans.
pub open spec fn cell_flips(stable: bool, count: u8, raw: bool, threshold: u8) -> bool {
    raw != stable && count + 1 >= threshold
}

/// Stable value of a cell after one scan.
pub open spec fn cell_next_stable(stable: bool, count: u8, raw: bool, threshold: u8) -> bool {
    if cell_flips(stable, count, raw, threshold) {
        raw
    } else {
        stable
    }
}

/// Disagreement count of a cell after one scan: reset on agreement or on a
/// flip, otherwise one more.
pub open spec fn cell_next_count(stable: bool, count: u8, raw: bool, threshold: u8) -> u8 {
    if raw == stable || cell_flips(stable, count, raw, threshold) {
        0u8
    } else {
        (count + 1) as u8
    }
}

/// Debouncer state after one whole-matrix scan.
pub open spec fn deb_next(m: DebounceModel, raw: Seq<Seq<bool>>) -> DebounceModel {
    DebounceModel {
        stable: Seq::new(
            m.stable.len(),
            |r: int|
                Seq::new(
                    m.stable[r].len(),
                    |c: int|
                        cell_next_stable(m.stable[r][c], m.counts[r][c], raw[r][c], m.threshold),
                ),
        ),
        counts: Seq::new(
            m.counts.len(),
            |r: int|
                Seq::new(
                    m.counts[r].len(),
                    |c: int|
                        cell_next_count(m.stable[r][c], m.counts[r][c], raw[r][c], m.threshold),
                ),
        ),
        threshold: m.threshold,
    }
}

/// The events one cell contributes to this scan: one press or release when
/// the cell flips, nothing otherwise.
pub open spec fn cell_events(m: DebounceModel, raw: Seq<Seq<bool>>, r: int, c: int) -> Seq<
    KeyEvent,
> {
    if cell_flips(m.stable[r][c], m.counts[r][c], raw[r][c], m.threshold) {
        seq![
            KeyEvent {
                row: r as usize,
                col: c as usize,
                kind: if raw[r][c] {
                    EventKind::Press
                } else {
                    EventKind::Release
                },
            },
        ]
    } else {
        Seq::empty()
    }
}

/// Events of row `r` from its first `c` cells, in column order.
pub open spec fn row_events_upto(
    m: DebounceModel,
    raw: Seq<Seq<bool>>,
    r: int,
    c: int,
) -> Seq<KeyEvent>
    decreases c,
{
    if c <= 0 {
        Seq::empty()
    } else {
        row_events_upto(m, raw, r, c - 1) + cell_events(m, raw, r, c - 1)
    }
}

/// Events of the first `r` rows, row-major.
pub open spec fn events_upto(
    m: DebounceModel,
    raw: Seq<Seq<bool>>,
    cols: int,
    r: int,
) -> Seq<KeyEvent>
    decreases r,
{
    if r <= 0 {
        Seq::empty()
    } else {
        events_upto(m, raw, cols, r - 1) + row_events_upto(m, raw, r - 1, cols)
    }
}

/// All events one scan of `raw` produces: row-major, at most one per cell.
pub open spec fn spec_events(
    m: DebounceModel,
    raw: Seq<Seq<bool>>,
    rows: int,
    cols: int,
) -> Seq<KeyEvent> {
    events_upto(m, raw, cols, rows)
}

proof fn lemma_row_events_bounds(
    m: DebounceModel,
    raw: Seq<Seq<bool>>,
    r: int,
    c: int,
    rows: usize,
    cols: usize,
)
    requires
        0 <= r < rows,
        c <= cols,
    ensures
        forall|i: int|
            0 <= i < row_events_upto(m, raw, r, c).len() ==> (#[trigger] row_events_upto(
                m,
                raw,
                r,
                c,
            )[i]).row == r && row_events_upto(m, raw, r, c)[i].col < cols,
    decreases c,
{
    if c > 0 {
        lemma_row_events_bounds(m, raw, r, c - 1, rows, cols);
    }
}

proof fn lemma_events_upto_bounds(
    m: DebounceModel,
    raw: Seq<Seq<bool>>,
    r: int,
    rows: usize,
    cols: usize,
)
    requires
        r <= rows,
    ensures
        forall|i: int|
            0 <= i < events_upto(m, raw, cols as int, r).len() ==> (#[trigger] events_upto(
                m,
                raw,
                cols as int,
                r,
            )[i]).row < rows && events_upto(m, raw, cols as int, r)[i].col < cols,
    decreases r,
{
    if r > 0 {
        lemma_events_upto_bounds(m, raw, r - 1, rows, cols);
        lemma_row_events_bounds(m, raw, r - 1, cols as int, rows, cols);
    }
}

/// Every event of one scan names a position inside the matrix.
pub proof fn lemma_spec_events_bounds(
    m: DebounceModel,
    raw: Seq<Seq<bool>>,
    rows: usize,
    cols: usize,
)
    ensures
        forall|i: int|
            0 <= i < spec_events(m, raw, rows as int, cols as int).len() ==> (
            #[trigger] spec_events(m, raw, rows as int, cols as int)[i]).row < rows && spec_events(
                m,
                raw,
                rows as int,
                cols as int,
            )[i].col < cols,
{
    lemma_events_upto_bounds(m, raw, rows as int, rows, cols);
}

/// Per-cell debouncer state folded over a whole sample history, oldest
/// sample first: the (stable value, disagreement count) pair after the
/// samples, starting from `stable0` with a zero count.
pub open spec fn cell_run(stable0: bool, samples: Seq<bool>, threshold: u8) -> (bool, u8)
    decreases samples.len(),
{
    if samples.len() == 0 {
        (stable0, 0u8)
    } else {
        let prev = cell_run(stable0, samples.drop_last(), threshold);
        (
            cell_next_stable(prev.0, prev.1, samples.last(), threshold),
            cell_next_count(prev.0, prev.1, samples.last(), threshold),
        )
    }
}

/// The cell emits an event at step `i` of `samples`.
pub open spec fn emits_at(stable0: bool, samples: Seq<bool>, threshold: u8, i: int) -> bool {
    let prev = cell_run(stable0, samples.take(i), threshold);
    cell_flips(prev.0, prev.1, samples[i], threshold)
}

/// After any sample history the count stays below the threshold, never
/// exceeds the history's length, and counts exactly a trailing run of
/// samples that disagree with the current stable value.
proof fn lemma_cell_run_trailing(stable0: bool, samples: Seq<bool>, threshold: u8)
    requires
        threshold >= 1,
    ensures
        cell_run(stable0, samples, threshold).1 < threshold,
        cell_run(stable0, samples, threshold).1 <= samples.len(),
        forall|j: int|
            samples.len() - cell_run(stable0, samples, threshold).1 <= j < samples.len()
                ==> samples[j] == !cell_run(stable0, samples, threshold).0,
    decreases samples.len(),
{
    if samples.len() > 0 {
        lemma_cell_run_trailing(stable0, samples.drop_last(), threshold);
        let prev = cell_run(stable0, samples.drop_last(), threshold);
        let cur = cell_run(stable0, samples, threshold);
        if samples.last() != prev.0 && !cell_flips(prev.0, prev.1, samples.last(), threshold) {
            assert(cur.0 == prev.0 && cur.1 == prev.1 + 1);
            assert forall|j: int|
                samples.len() - cur.1 <= j < samples.len() implies samples[j] == !cur.0 by {
                if j < samples.len() - 1 {
                    assert(samples.drop_last()[j] == !prev.0);
                }
            }
        }
    }
}

/// Debounce stability: an event at step `i` needs at least `threshold`
/// samples so far, the last `threshold` of them (ending at `i`) all carrying
/// one value that differs from the stable value the cell held before them.
/// Noise shorter than the threshold therefore never emits an event.
pub proof fn lemma_debounce_stability(stable0: bool, samples: Seq<bool>, threshold: u8, i: int)
    requires
        threshold >= 1,
        0 <= i < samples.len(),
        emits_at(stable0, samples, threshold, i),
    ensures
        i + 1 >= threshold,
        forall|j: int| i + 1 - threshold <= j <= i ==> samples[j] == samples[i],
        samples[i] != cell_run(stable0, samples.take(i), threshold).0,
{
    let pre = cell_run(stable0, samples.take(i), threshold);
    lemma_cell_run_trailing(stable0, samples.take(i), threshold);
    assert(pre.1 == threshold - 1);
    assert forall|j: int| i + 1 - threshold <= j <= i implies samples[j] == samples[i] by {
        if j < i {
            assert(samples.take(i)[j] == !pre.0);
        }
    }
}

/// While no event fires and the samples keep disagreeing with the stable
/// value, the count just climbs: `j` disagreeing samples after step `i` take
/// the cell from count `c0` to `c0 + j`, stable value untouched.
proof fn lemma_run_window(stable0: bool, samples: Seq<bool>, threshold: u8, i: int, j: int)
    requires
        threshold >= 1,
        0 <= i,
        0 <= j,
        i + j <= samples.len(),
        cell_run(stable0, samples.take(i), threshold).1 + j <= threshold - 1,
        forall|q: int|
            i <= q < i + j ==> samples[q] != cell_run(stable0, samples.take(i), threshold).0,
    ensures
        cell_run(stable0, samples.take(i + j), threshold).0 == cell_run(
            stable0,
            samples.take(i),
            threshold,
        ).0,
        cell_run(stable0, samples.take(i + j), threshold).1 == cell_run(
            stable0,
            samples.take(i),
            threshold,
        ).1 + j,
    decreases j,
{
    if j > 0 {
        lemma_run_window(stable0, samples, threshold, i, j - 1);
        assert(samples.take(i + j).drop_last() =~= samples.take(i + j - 1));
        assert(samples.take(i + j).last() == samples[i + j - 1]);
    }
}

/// Debounce settlement: once the raw input has settled on a value that
/// disagrees with the stable one, an event fires within `threshold` scans of
/// the settlement.
pub proof fn lemma_debounce_settlement_emits(
    stable0: bool,
    samples: Seq<bool>,
    threshold: u8,
    i: int,
)
    requires
        threshold >= 1,
        0 <= i,
        i + threshold <= samples.len(),
        forall|j: int| i <= j < i + threshold ==> samples[j] == samples[i],
        samples[i] != cell_run(stable0, samples.take(i), threshold).0,
    ensures
        exists|k: int| i <= k < i + threshold && emits_at(stable0, samples, threshold, k),
{
    let pre = cell_run(stable0, samples.take(i), threshold);
    lemma_cell_run_trailing(stable0, samples.take(i), threshold);
    let gap = threshold - 1 - pre.1;
    lemma_run_window(stable0, samples, threshold, i, gap as int);
    assert(emits_at(stable0, samples, threshold, i + gap));
}

/// The debouncer: per-cell stable values and disagreement counts for a
/// `rows × cols` key matrix.
pub struct Debouncer {
    /// Number of matrix rows.
    pub rows: usize,
    /// Number of matrix columns.
    pub cols: usize,
    /// Consecutive disagreeing scans needed to confirm a transition.
    pub threshold: u8,
    /// Last confirmed stable value of each cell.
    pub stable: Vec<Vec<bool>>,
    /// Consecutive scans that disagreed with the stable value, per cell.
    pub counts: Vec<Vec<u8>>,
}

impl View for Debouncer {
    type V = DebounceModel;

    open spec fn view(&self) -> DebounceModel {
        DebounceModel {
            stable: self.stable.deep_view(),
            counts: self.counts.deep_view(),
            threshold: self.threshold,
        }
    }
}

impl Debouncer {
    /// The debouncer's grids match its dimensions and every count is below
    /// the threshold.
    pub open spec fn wf(self) -> bool {
        deb_wf(self@, self.rows as nat, self.cols as nat)
    }

    /// A fresh debouncer: every cell stable at `released` (false) with a
    /// zero count.
    pub fn new(rows: usize, cols: usize, threshold: u8) -> (d: Debouncer)
        requires
            threshold >= 1,
        ensures
            d.wf(),
            d.rows == rows,
            d.cols == cols,
            d.threshold == threshold,
            forall|r: int, c: int|
                0 <= r < rows && 0 <= c < cols ==> !(#[trigger] d@.stable[r][c]),
            forall|r: int, c: int|
                0 <= r < rows && 0 <= c < cols ==> (#[trigger] d@.counts[r][c]) == 0,
    {
        let mut stable: Vec<Vec<bool>> = Vec::new();
        let mut counts: Vec<Vec<u8>> = Vec::new();
        let mut r: usize = 0;
        while r < rows
            invariant
                r <= rows,
                stable@.len() == r,
                counts@.len() == r,
                forall|i: int| 0 <= i < r ==> (#[trigger] stable@[i])@.len() == cols,
                forall|i: int| 0 <= i < r ==> (#[trigger] counts@[i])@.len() == cols,
                forall|i: int, j: int|
                    0 <= i < r && 0 <= j < cols ==> !(#[trigger] stable@[i]@[j]),
                forall|i: int, j: int|
                    0 <= i < r && 0 <= j < cols ==> (#[trigger] counts@[i]@[j]) == 0,
            decreases rows - r,
        {
            let mut srow: Vec<bool> = Vec::new();
            let mut crow: Vec<u8> = Vec::new();
            let mut c: usize = 0;
            while c < cols
                invariant
                    c <= cols,
                    srow@.len() == c,
                    crow@.len() == c,
                    forall|j: int| 0 <= j < c ==> !(#[trigger] srow@[j]),
                    forall|j: int| 0 <= j < c ==> (#[trigger] crow@[j]) == 0,
                decreases cols - c,
            {
                srow.push(false);
                crow.push(0);
                c += 1;
            }
            stable.push(srow);
            counts.push(crow);
            r += 1;
        }
        Debouncer { rows, cols, threshold, stable, counts }
    }

    /// One scan: updates every cell from its raw sample and returns the
    /// debounced events in row-major order, at most one per changed cell.
    pub fn events(&mut self, raw: &Vec<Vec<bool>>) -> (evts: Vec<KeyEvent>)
        requires
            old(self).wf(),
            matrix_wf(raw.deep_view(), old(self).rows as nat, old(self).cols as nat),
        ensures
            final(self).wf(),
            final(self).rows == old(self).rows,
            final(self).cols == old(self).cols,
            final(self).threshold == old(self).threshold,
            final(self)@ == deb_next(old(self)@, raw.deep_view()),
            evts@ == spec_events(
                old(self)@,
                raw.deep_view(),
                old(self).rows as int,
                old(self).cols as int,
            ),
    {
        let ghost m0 = self@;
        let ghost rawv = raw.deep_view();
        let ghost tgt = deb_next(m0, rawv);
        let mut evts: Vec<KeyEvent> = Vec::new();
        let mut new_stable: Vec<Vec<bool>> = Vec::new();
        let mut new_counts: Vec<Vec<u8>> = Vec::new();
        let mut r: usize = 0;
        while r < self.rows
            invariant
                r <= self.rows,
                self == old(self),
                self.wf(),
                matrix_wf(rawv, self.rows as nat, self.cols as nat),
                m0 == self@,
                rawv == raw.deep_view(),
                tgt == deb_next(m0, rawv),
                evts@ == events_upto(m0, rawv, self.cols as int, r as int),
                new_stable@.len() == r,
                new_counts@.len() == r,
                forall|i: int| 0 <= i < r ==> (#[trigger] new_stable@[i])@ == tgt.stable[i],
                forall|i: int| 0 <= i < r ==> (#[trigger] new_counts@[i])@ == tgt.counts[i],
            decreases self.rows - r,
        {
            let mut srow: Vec<bool> = Vec::new();
            let mut crow: Vec<u8> = Vec::new();
            let mut c: usize = 0;
            while c < self.cols
                invariant
                    r < self.rows,
                    c <= self.cols,
                    self == old(self),
                    self.wf(),
                    matrix_wf(rawv, self.rows as nat, self.cols as nat),
                    m0 == self@,
                    rawv == raw.deep_view(),
                    tgt == deb_next(m0, rawv),
                    evts@ == events_upto(m0, rawv, self.cols as int, r as int)
                        + row_events_upto(m0, rawv, r as int, c as int),
                    srow@.len() == c,
                    crow@.len() == c,
                    forall|j: int| 0 <= j < c ==> (#[trigger] srow@[j]) == tgt.stable[r as int][j],
                    forall|j: int| 0 <= j < c ==> (#[trigger] crow@[j]) == tgt.counts[r as int][j],
                decreases self.cols - c,
            {
                proof {
                    assert(self.stable@.len() == self.rows);
                    assert(self.counts@.len() == self.rows);
                    assert(raw@.len() == self.rows);
                    assert(m0.stable[r as int].len() == self.cols as nat);
                    assert(m0.counts[r as int].len() == self.cols as nat);
                    assert(rawv[r as int].len() == self.cols as nat);
                    assert(m0.stable[r as int][c as int] == self.stable@[r as int]@[c as int]);
                    assert(m0.counts[r as int][c as int] == self.counts@[r as int]@[c as int]);
                    assert(rawv[r as int][c as int] == raw@[r as int]@[c as int]);
                    assert(m0.counts[r as int][c as int] < m0.threshold);
                }
                let stable = self.stable[r][c];
                let count = self.counts[r][c];
                let sample = raw[r][c];
                let flips = sample != stable && count + 1 >= self.threshold;
                if flips {
                    evts.push(
                        KeyEvent {
                            row: r,
                            col: c,
                            kind: if sample {
                                EventKind::Press
                            } else {
                                EventKind::Release
                            },
                        },
                    );
                }
                srow.push(if flips { sample } else { stable });
                crow.push(
                    if sample == stable || flips {
                        0
                    } else {
                        count + 1
                    },
                );
                proof {
                    assert(flips == cell_flips(
                        m0.stable[r as int][c as int],
                        m0.counts[r as int][c as int],
                        rawv[r as int][c as int],
                        m0.threshold,
                    ));
                    assert(srow@.last() == tgt.stable[r as int][c as int]);
                    assert(crow@.last() == tgt.counts[r as int][c as int]);
                    assert(evts@ =~= events_upto(m0, rawv, self.cols as int, r as int)
                        + row_events_upto(m0, rawv, r as int, c as int + 1));
                }
                c += 1;
            }
            proof {
                assert(srow@ =~= tgt.stable[r as int]);
                assert(crow@ =~= tgt.counts[r as int]);
                assert(evts@ =~= events_upto(m0, rawv, self.cols as int, r as int + 1));
            }
            new_stable.push(srow);
            new_counts.push(crow);
            r += 1;
        }
        self.stable = new_stable;
        self.counts = new_counts;
        proof {
            assert(self@.stable =~~= tgt.stable);
            assert(self@.counts =~~= tgt.counts);
        }
        evts
    }
}

} // verus!
