//! The report builder: packs an ordered keycode sequence into a fixed-layout
//! HID boot-protocol keyboard report.
//!
//! A report carries a modifier bitmask, a reserved byte, an LED byte and six
//! keycode slots; the value `0` in a slot means "no key". Only the first six
//! keycodes of the input are kept — the boot protocol cannot express more —
//! and unused slots are zero-filled.

use vstd::prelude::*;

verus! {

broadcast use vstd::array::group_array_axioms;

/// Number of keycode slots in a boot-protocol report.
pub const REPORT_SLOTS: usize = 6;

/// A fixed-layout HID boot-protocol keyboard report.
#[derive(Clone, Copy, Debug, PartialEq, Eq)]
pub struct Report {
    /// Modifier bitmask (not tracked by this pipeline: always 0).
    pub modifier: u8,
    /// Reserved byte (always 0).
    pub reserved: u8,
    /// LED output byte (unused here: always 0).
    pub leds: u8,
    /// Keycode slots, in press order; 0 marks an empty slot.
    pub keycodes: [u8; 6],
}

/// The keycode slots of a report built from `ks`: the first six entries of
/// `ks` in order, the rest of the slots zero.
pub open spec fn spec_slots(ks: Seq<u8>) -> Seq<u8> {
    Seq::new(REPORT_SLOTS as nat, |i: int| if i < ks.len() { ks[i] } else { 0u8 })
}

/// `r` is the report built from `ks`: zero modifier, reserved and LED bytes,
/// and `spec_slots(ks)` in the keycode slots.
pub open spec fn report_matches(r: Report, ks: Seq<u8>) -> bool {
    &&& r.modifier == 0
    &&& r.reserved == 0
    &&& r.leds == 0
    &&& r.keycodes@ =~= spec_slots(ks)
}

impl Report {
    /// Builds the report for `keycodes`: the first six keycodes fill the
    /// slots in order, remaining slots are zero, and every other byte is
    /// zero. Keycodes past the sixth are silently dropped (boot-protocol
    /// limit).
    pub fn build(keycodes: &Vec<u8>) -> (r: Report)
        ensures
            report_matches(r, keycodes@),
    {
        let slots: [u8; 6] = [
            Self::key_or_zero(keycodes, 0),
            Self::key_or_zero(keycodes, 1),
            Self::key_or_zero(keycodes, 2),
            Self::key_or_zero(keycodes, 3),
            Self::key_or_zero(keycodes, 4),
            Self::key_or_zero(keycodes, 5),
        ];
        Report { modifier: 0, reserved: 0, leds: 0, keycodes: slots }
    }

    /// The keycode at `i`, or 0 where the sequence is shorter.
    fn key_or_zero(keycodes: &Vec<u8>, i: usize) -> (r: u8)
        ensures
            r == (if i < keycodes@.len() { keycodes@[i as int] } else { 0u8 }),
    {
        if i < keycodes.len() {
            keycodes[i]
        } else {
            0
        }
    }
}

/// Building a report is deterministic: two reports built from the same
/// keycode sequence are identical.
pub proof fn lemma_build_deterministic(ks: Seq<u8>, r1: Report, r2: Report)
    requires
        report_matches(r1, ks),
        report_matches(r2, ks),
    ensures
        r1 == r2,
{
    assert(r1.keycodes@ =~= r2.keycodes@);
    assert(r1.keycodes == r2.keycodes);
}

} // verus!
