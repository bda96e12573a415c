//! The scan-cycle pipeline: one raw matrix sample in, one report and one
//! transmission decision out.
//!
//! Each cycle runs the fixed order scan → debounce → resolve → build →
//! decide: the debouncer turns the sample into events, the layout resolver
//! folds them into its state, the report builder packs the held keycodes,
//! and the link supervisor says whether to transmit, signal a remote wakeup
//! or keep quiet. The caller performs the scan itself and whatever the
//! decision asks for, and feeds transport notifications back in between
//! cycles.

use crate::debounce::deb_next;
use crate::debounce::lemma_spec_events_bounds;
use crate::debounce::matrix_wf;
use crate::debounce::spec_events;
use crate::debounce::Debouncer;
use crate::debounce::EventKind;
use crate::debounce::KeyEvent;
use crate::layout::event_step;
use crate::layout::layout_wf;
use crate::layout::lemma_event_step_preserves_wf;
use crate::layout::Layout;
use crate::layout::LayoutModel;
use crate::link::spec_decide;
use crate::link::spec_on_event;
use crate::link::Supervisor;
use crate::link::TxDecision;
use crate::link::UsbEvent;
use crate::report::report_matches;
use crate::report::Report;
use vstd::prelude::*;

verus! {

/// The layout state after a sequence of key events, oldest first.
pub open spec fn fold_events(m: LayoutModel, evts: Seq<KeyEvent>) -> LayoutModel
    decreases evts.len(),
{
    if evts.len() == 0 {
        m
    } else {
        event_step(fold_events(m, evts.drop_last()), evts.last())
    }
}

/// The event sequence holds a press.
pub open spec fn has_press(evts: Seq<KeyEvent>) -> bool {
    exists|i: int| 0 <= i < evts.len() && (#[trigger] evts[i]).kind is Press
}

/// Folding in-bounds events preserves resolver well-formedness and never
/// touches the keymap.
pub proof fn lemma_fold_events_wf(m: LayoutModel, rows: nat, cols: nat, evts: Seq<KeyEvent>)
    requires
        layout_wf(m, rows, cols),
        forall|i: int|
            0 <= i < evts.len() ==> (#[trigger] evts[i]).row < rows && evts[i].col < cols,
    ensures
        layout_wf(fold_events(m, evts), rows, cols),
        fold_events(m, evts).layers == m.layers,
    decreases evts.len(),
{
    if evts.len() > 0 {
        lemma_fold_events_wf(m, rows, cols, evts.drop_last());
        lemma_event_step_preserves_wf(fold_events(m, evts.drop_last()), rows, cols, evts.last());
    }
}

/// Keycode cap: a report built from a well-formed resolver state shows
/// exactly the first six held keycodes, non-zero and in press order; later
/// presses are dropped from the report (but stay tracked in the state), and
/// slots beyond the held set are zero.
pub proof fn lemma_keycode_cap(m: LayoutModel, rows: nat, cols: nat, r: Report)
    requires
        layout_wf(m, rows, cols),
        report_matches(r, m.held),
    ensures
        forall|i: int|
            0 <= i < 6 && i < m.held.len() ==> r.keycodes@[i] == m.held[i] && r.keycodes@[i] != 0,
        forall|i: int| m.held.len() <= i < 6 ==> r.keycodes@[i] == 0,
{
}

/// The whole input pipeline of the keyboard: debouncer, layout resolver and
/// link supervisor, stepped one scan cycle at a time.
pub struct Pipeline {
    /// Filters raw samples into key events.
    pub debouncer: Debouncer,
    /// Resolves key events into held keycodes.
    pub layout: Layout,
    /// Gates transmission on the USB link state.
    pub supervisor: Supervisor,
}

impl Pipeline {
    /// The parts are well-formed and agree on the matrix dimensions.
    pub open spec fn wf(self) -> bool {
        &&& self.debouncer.wf()
        &&& self.layout.wf()
        &&& self.debouncer.rows == self.layout.rows
        &&& self.debouncer.cols == self.layout.cols
    }

    /// A pipeline from its parts.
    pub fn new(debouncer: Debouncer, layout: Layout, supervisor: Supervisor) -> (p: Pipeline)
        requires
            debouncer.wf(),
            layout.wf(),
            debouncer.rows == layout.rows,
            debouncer.cols == layout.cols,
        ensures
            p.wf(),
            p.debouncer == debouncer,
            p.layout == layout,
            p.supervisor == supervisor,
    {
        Pipeline { debouncer, layout, supervisor }
    }

    /// One scan cycle on a raw matrix sample: debounces it, feeds the events
    /// to the resolver in order, builds the report from the held keycodes,
    /// and decides the transmission. While the link is suspended the
    /// decision is never to transmit.
    pub fn cycle(&mut self, raw: &Vec<Vec<bool>>) -> (out: (Report, TxDecision))
        requires
            old(self).wf(),
            matrix_wf(
                raw.deep_view(),
                old(self).debouncer.rows as nat,
                old(self).debouncer.cols as nat,
            ),
        ensures
            final(self).wf(),
            final(self).debouncer.rows == old(self).debouncer.rows,
            final(self).debouncer.cols == old(self).debouncer.cols,
            final(self).debouncer.threshold == old(self).debouncer.threshold,
            final(self).debouncer@ == deb_next(old(self).debouncer@, raw.deep_view()),
            ({
                let evts = spec_events(
                    old(self).debouncer@,
                    raw.deep_view(),
                    old(self).debouncer.rows as int,
                    old(self).debouncer.cols as int,
                );
                &&& final(self).layout@ == fold_events(old(self).layout@, evts)
                &&& report_matches(out.0, fold_events(old(self).layout@, evts).held)
                &&& final(self).supervisor == spec_decide(old(self).supervisor, has_press(evts)).0
                &&& out.1 == spec_decide(old(self).supervisor, has_press(evts)).1
            }),
            old(self).supervisor.link is Suspended ==> out.1 != TxDecision::Transmit,
    {
        let ghost m0 = self.debouncer@;
        let ghost rawv = raw.deep_view();
        let ghost lay0 = self.layout@;
        let rows = self.debouncer.rows;
        let cols = self.debouncer.cols;
        let evts = self.debouncer.events(raw);
        let ghost evs = evts@;
        let ghost deb1 = self.debouncer;
        proof {
            lemma_spec_events_bounds(m0, rawv, rows, cols);
            assert(evs.take(0) =~= Seq::<KeyEvent>::empty());
        }
        let mut press = false;
        let mut i: usize = 0;
        while i < evts.len()
            invariant
                i <= evs.len(),
                evts@ == evs,
                self.layout.wf(),
                self.layout.rows == rows,
                self.layout.cols == cols,
                self.layout@ == fold_events(lay0, evs.take(i as int)),
                press == has_press(evs.take(i as int)),
                self.debouncer == deb1,
                self.supervisor == old(self).supervisor,
                forall|j: int|
                    0 <= j < evs.len() ==> (#[trigger] evs[j]).row < rows && evs[j].col < cols,
            decreases evs.len() - i,
        {
            let e = evts[i];
            if !press {
                press = match e.kind {
                    EventKind::Press => true,
                    EventKind::Release => false,
                };
            }
            self.layout.event(e);
            proof {
                assert(evs.take(i as int + 1).drop_last() =~= evs.take(i as int));
                assert(evs.take(i as int + 1).last() == e);
                if press {
                    if e.kind is Press {
                        assert(evs.take(i as int + 1)[i as int].kind is Press);
                    } else {
                        let w = choose|w: int|
                            0 <= w < i && (#[trigger] evs.take(i as int)[w]).kind is Press;
                        assert(evs.take(i as int + 1)[w].kind is Press);
                    }
                } else {
                    assert forall|w: int|
                        0 <= w < i + 1 implies !((#[trigger] evs.take(i as int + 1)[w]).kind
                        is Press) by {
                        if w < i {
                            assert(evs.take(i as int)[w] == evs.take(i as int + 1)[w]);
                        }
                    }
                }
            }
            i += 1;
        }
        proof {
            assert(evs.take(evs.len() as int) =~= evs);
        }
        let keys = self.layout.keycodes();
        let report = Report::build(&keys);
        let decision = self.supervisor.decide(press);
        (report, decision)
    }

    /// Applies one transport notification to the supervisor; the scan state
    /// is untouched.
    pub fn usb_event(&mut self, e: UsbEvent)
        requires
            old(self).wf(),
        ensures
            final(self).wf(),
            final(self).supervisor == spec_on_event(old(self).supervisor, e),
            final(self).debouncer == old(self).debouncer,
            final(self).layout == old(self).layout,
    {
        self.supervisor.on_event(e);
    }
}

} // verus!
