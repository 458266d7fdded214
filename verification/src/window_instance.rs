//! One materialised window: a half-open interval of event time.

use vstd::prelude::*;

verus! {

/// The interval `[open, close)` that identifies a window.
pub struct Interval {
    pub open: int,
    pub close: int,
}

impl Interval {
    /// Whether `timestamp` lies in `[open, close)`.
    pub open spec fn covers(self, timestamp: int) -> bool {
        self.open <= timestamp < self.close
    }
}

/// A window instance. Two instances are the same window when their intervals
/// agree; the flag plays no part in that.
#[derive(Debug, Clone)]
pub struct WindowInstance {
    pub open: i64,
    pub close: i64,
    pub has_triggered_and_emitted: bool,
}

impl View for WindowInstance {
    type V = Interval;

    open spec fn view(&self) -> Interval {
        Interval { open: self.open as int, close: self.close as int }
    }
}

impl PartialEq for WindowInstance {
    fn eq(&self, other: &Self) -> (same: bool) {
        self.open == other.open && self.close == other.close
    }
}

impl vstd::std_specs::cmp::PartialEqSpecImpl for WindowInstance {
    open spec fn obeys_eq_spec() -> bool {
        true
    }

    open spec fn eq_spec(&self, other: &Self) -> bool {
        self.open == other.open && self.close == other.close
    }
}

impl Eq for WindowInstance {}

impl std::hash::Hash for WindowInstance {
    /// Feeds `open` and `close`, and nothing else, to `<i64 as Hash>::hash`,
    /// so that equal windows hash alike. Nothing is claimed of the hasher's
    /// state afterwards.
    #[verifier::external_body]
    fn hash<H: std::hash::Hasher>(&self, state: &mut H) {
        self.open.hash(state);
        self.close.hash(state);
    }
}

impl WindowInstance {
    /// The interval is not empty.
    pub open spec fn wf(&self) -> bool {
        self.open < self.close
    }

    /// The window `[open, close)`, not yet triggered.
    pub fn new(open: i64, close: i64) -> (window: Self)
        ensures
            window.open == open,
            window.close == close,
            !window.has_triggered_and_emitted,
    {
        Self { open, close, has_triggered_and_emitted: false }
    }

    /// Sets the flag and leaves the interval alone.
    pub fn set_triggered_and_emitted(&mut self, val: bool)
        ensures
            final(self).has_triggered_and_emitted == val,
            final(self).open == old(self).open,
            final(self).close == old(self).close,
    {
        self.has_triggered_and_emitted = val;
    }

    /// Whether `other` is the same interval.
    pub fn is_same_window(&self, other: &WindowInstance) -> (same: bool)
        ensures
            same == (self@ == other@),
    {
        self.open == other.open && self.close == other.close
    }
}

} // verus!
