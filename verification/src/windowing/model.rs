//! The window engine as mathematics: its state as a map from intervals to
//! contents, and each step of `add` as a function on that state.

use crate::quad_container::ContainerView;
use crate::window_instance::Interval;
use crate::windowing::csparql_window::{ReportStrategy, Tick};
use oxigraph::model::Quad;
use vstd::prelude::*;

verus! {

/// The content of a window that has just been opened.
pub open spec fn empty_content() -> ContainerView {
    ContainerView { elements: Set::empty(), last_timestamp_changed: 0 }
}

/// Whether `content` bears the stamp 0 or one that `window` covers.
pub open spec fn stamped_within(window: Interval, content: ContainerView) -> bool {
    content.last_timestamp_changed == 0 || window.covers(content.last_timestamp_changed)
}

/// Whether `content` holds a quad.
pub open spec fn filled(content: ContainerView) -> bool {
    exists|quad: Quad| content.elements.contains(quad)
}

/// The distance between two timestamps.
pub open spec fn distance(a: int, b: int) -> int {
    if a >= b {
        a - b
    } else {
        b - a
    }
}

/// `n / d` rounded up, for `n >= 0` and `d > 0`.
pub open spec fn ceil_div(n: int, d: int) -> int {
    if n % d == 0 {
        n / d
    } else {
        n / d + 1
    }
}

/// Multiples of a positive step are ordered as their factors are.
pub proof fn lemma_steps_ordered(step: int, a: int, b: int)
    by (nonlinear_arith)
    requires
        step > 0,
    ensures
        a <= b ==> a * step <= b * step,
        a * step < b * step ==> a < b,
        (a + 1) * step == a * step + step,
{
}

/// Rounding up to a multiple of `d` moves `n` by less than `d`.
pub proof fn lemma_ceil_div_bounds(n: int, d: int)
    requires
        n >= 0,
        d > 0,
    ensures
        n <= ceil_div(n, d) * d < n + d,
        ceil_div(n, d) >= 0,
{
    vstd::arithmetic::div_mod::lemma_fundamental_div_mod(n, d);
    vstd::arithmetic::div_mod::lemma_mod_bound(n, d);
    vstd::arithmetic::div_mod::lemma_div_pos_is_pos(n, d);
    vstd::arithmetic::mul::lemma_mul_is_commutative(d, n / d);
    lemma_steps_ordered(d, n / d, n / d + 1);
}

/// The report policy: whether a window with this interval and content is
/// due at `timestamp`.
pub open spec fn should_report(
    report: ReportStrategy,
    window: Interval,
    content: ContainerView,
    timestamp: int,
) -> bool {
    match report {
        ReportStrategy::OnWindowClose => window.close < timestamp,
        ReportStrategy::NonEmptyContent => !content.elements.is_empty(),
        ReportStrategy::OnContentChange => true,
        ReportStrategy::Periodic => true,
    }
}

/// One call of `add`: the quad, its timestamp, and what the call handed out.
pub struct Step {
    pub quad: Quad,
    pub timestamp: int,
    pub emitted: Option<(Interval, ContainerView)>,
}

/// The state of a window engine.
pub struct WindowState {
    pub name: Seq<char>,
    pub width: int,
    pub slide: int,
    pub time: int,
    pub t0: int,
    pub active: Map<Interval, ContainerView>,
    pub report: ReportStrategy,
    pub tick: Tick,
}

impl WindowState {
    /// Width and slide are positive; every active window is as wide as the
    /// engine says, and its content was last changed at a timestamp that the
    /// window covers, or is stamped 0 as when the window was opened.
    pub open spec fn wf(self) -> bool {
        &&& self.width > 0
        &&& self.slide > 0
        &&& forall|k: Interval| #[trigger]
            self.active.dom().contains(k) ==> k.close == k.open + self.width && stamped_within(
                k,
                self.active[k],
            )
    }

    /// Whether the stamps of the filled windows are in order: each lies in
    /// its window and between `floor` and `now`, and a window that closes
    /// later is stamped no earlier.
    pub open spec fn stamps_ordered(self, now: int, floor: int) -> bool {
        &&& floor <= now
        &&& forall|k: Interval|
            #[trigger] self.active.dom().contains(k) && filled(self.active[k]) ==> {
                &&& k.covers(self.active[k].last_timestamp_changed)
                &&& floor <= self.active[k].last_timestamp_changed <= now
            }
        &&& forall|a: Interval, b: Interval|
            #[trigger] self.active.dom().contains(a) && #[trigger] self.active.dom().contains(b)
                && filled(self.active[a]) && filled(self.active[b]) && a.close <= b.close
                ==> self.active[a].last_timestamp_changed
                <= self.active[b].last_timestamp_changed
    }

    /// The state once the anchor is set: an anchor of 0 counts as unset and
    /// is replaced by `timestamp`.
    pub open spec fn anchored(self, timestamp: int) -> WindowState {
        WindowState { t0: if self.t0 == 0 { timestamp } else { self.t0 }, ..self }
    }

    /// Where the first window opens that `scope` looks at for `timestamp`:
    /// the distance to the anchor, rounded up to a multiple of the slide,
    /// less the width.
    pub open spec fn first_open(self, timestamp: int) -> int {
        ceil_div(distance(timestamp, self.t0), self.slide) * self.slide - self.width
    }

    /// The `m`-th window of the grid that starts at `first_open`.
    pub open spec fn grid_window(self, timestamp: int, m: int) -> Interval {
        let open = self.first_open(timestamp) + m * self.slide;
        Interval { open, close: open + self.width }
    }

    /// Whether `scope` makes sure of window `k` for `timestamp`: `k` is on
    /// the grid and opens no later than `timestamp`.
    pub open spec fn opens(self, timestamp: int, k: Interval) -> bool {
        exists|m: int| 0 <= m && k == #[trigger] self.grid_window(timestamp, m) && k.open <= timestamp
    }

    /// Whether every window that `scope` would open for `timestamp` closes
    /// at a time that an `i64` can hold. It does where `timestamp + width`
    /// is such a time.
    pub open spec fn fits(self, timestamp: int) -> bool {
        forall|m: int|
            0 <= m && (#[trigger] self.anchored(timestamp).grid_window(timestamp, m)).open
                <= timestamp ==> self.anchored(timestamp).grid_window(timestamp, m).close
                <= i64::MAX
    }

    /// The state after `scope(timestamp)`: the anchor is set, and each window
    /// of the grid up to `timestamp` is active, empty if it was not there.
    pub open spec fn scoped(self, timestamp: int) -> WindowState {
        let a = self.anchored(timestamp);
        WindowState {
            active: Map::new(
                |k: Interval| a.active.dom().contains(k) || a.opens(timestamp, k),
                |k: Interval|
                    if a.active.dom().contains(k) {
                        a.active[k]
                    } else {
                        empty_content()
                    },
            ),
            ..a
        }
    }

    /// The windows that `scope` has made sure of after `m` rounds of its
    /// loop.
    pub open spec fn scoped_through(self, timestamp: int, m: int) -> Map<Interval, ContainerView> {
        Map::new(
            |k: Interval|
                self.active.dom().contains(k) || exists|j: int|
                    0 <= j < m && k == #[trigger] self.grid_window(timestamp, j),
            |k: Interval|
                if self.active.dom().contains(k) {
                    self.active[k]
                } else {
                    empty_content()
                },
        )
    }

    /// The state after `quad` went to every active window that covers
    /// `timestamp`.
    pub open spec fn routed(self, quad: Quad, timestamp: int) -> WindowState {
        WindowState {
            active: Map::new(
                |k: Interval| self.active.dom().contains(k),
                |k: Interval|
                    if k.covers(timestamp) {
                        self.active[k].with(quad, timestamp)
                    } else {
                        self.active[k]
                    },
            ),
            ..self
        }
    }

    /// Whether `k` is the active window that `get_content` reads at
    /// `timestamp`: among those that cover it, the one that closes first.
    pub open spec fn is_content_window(self, k: Interval, timestamp: int) -> bool {
        &&& self.active.dom().contains(k)
        &&& k.covers(timestamp)
        &&& forall|other: Interval|
            #[trigger] self.active.dom().contains(other) && other.covers(timestamp) ==> k.close
                <= other.close
    }

    /// The quads that `get_content` gives at `timestamp`: those of the
    /// content window, and none where no window covers the timestamp.
    pub open spec fn content_at(self, timestamp: int) -> Set<Quad> {
        if exists|k: Interval| self.is_content_window(k, timestamp) {
            self.active[choose|k: Interval| self.is_content_window(k, timestamp)].elements
        } else {
            Set::empty()
        }
    }

    /// Whether `k` is active and due to report at `timestamp`.
    pub open spec fn reports(self, k: Interval, timestamp: int) -> bool {
        self.active.dom().contains(k) && should_report(
            self.report,
            k,
            self.active[k],
            timestamp,
        )
    }

    /// Whether `k` is the window chosen to be emitted: among those due, the
    /// one that closes last.
    pub open spec fn wins(self, k: Interval, timestamp: int) -> bool {
        &&& self.reports(k, timestamp)
        &&& forall|other: Interval| #[trigger]
            self.reports(other, timestamp) ==> other.close <= k.close
    }

    /// Whether an emission takes place at `timestamp`: some window is due,
    /// the tick is time-driven, and time moves forward.
    pub open spec fn fires(self, timestamp: int) -> bool {
        &&& self.tick == Tick::TimeDriven
        &&& timestamp > self.time
        &&& exists|k: Interval| #[trigger] self.reports(k, timestamp)
    }

    /// Whether, in this state, `add` hands out window `k` with `content` at
    /// `timestamp`.
    pub open spec fn emits(self, k: Interval, content: ContainerView, timestamp: int) -> bool {
        &&& self.fires(timestamp)
        &&& self.wins(k, timestamp)
        &&& content == self.active[k]
    }

    /// The state after the windows that were due have left, with the clock
    /// advanced if an emission took place.
    pub open spec fn evicted(self, timestamp: int) -> WindowState {
        WindowState {
            time: if self.fires(timestamp) {
                timestamp
            } else {
                self.time
            },
            active: self.active.remove_keys(Set::new(|k: Interval| self.reports(k, timestamp))),
            ..self
        }
    }

    /// The state in which the report policy is evaluated: after scoping and
    /// routing.
    pub open spec fn received(self, quad: Quad, timestamp: int) -> WindowState {
        self.scoped(timestamp).routed(quad, timestamp)
    }

    /// The state after `add(quad, timestamp)`.
    pub open spec fn added(self, quad: Quad, timestamp: int) -> WindowState {
        self.received(quad, timestamp).evicted(timestamp)
    }

    /// Whether `add(quad, timestamp)` in this state hands out `emitted`: the
    /// winning window with its content where an emission takes place, and
    /// nothing where none does.
    pub open spec fn hands_out(
        self,
        quad: Quad,
        timestamp: int,
        emitted: Option<(Interval, ContainerView)>,
    ) -> bool {
        match emitted {
            Some((k, content)) => self.received(quad, timestamp).emits(k, content, timestamp),
            None => !self.received(quad, timestamp).fires(timestamp),
        }
    }

    /// The state after each quad of `quads` was added at `timestamp`, in
    /// order.
    pub open spec fn fed(self, quads: Seq<Quad>, timestamp: int) -> WindowState
        decreases quads.len(),
    {
        if quads.len() == 0 {
            self
        } else {
            self.fed(quads.drop_last(), timestamp).added(quads.last(), timestamp)
        }
    }

    /// Whether an emission takes place while the quads of `quads` are added
    /// at `timestamp`, one after the other.
    pub open spec fn fires_within(self, quads: Seq<Quad>, timestamp: int) -> bool {
        exists|i: int|
            0 <= i < quads.len() && self.fed(#[trigger] quads.take(i), timestamp).received(
                quads[i],
                timestamp,
            ).fires(timestamp)
    }

    /// The state after the calls of `steps`, in order.
    pub open spec fn after(self, steps: Seq<Step>) -> WindowState
        decreases steps.len(),
    {
        if steps.len() == 0 {
            self
        } else {
            self.after(steps.drop_last()).added(steps.last().quad, steps.last().timestamp)
        }
    }

    /// Whether `steps` is what a sequence of calls of `add` gives from this
    /// state on: each step hands out what `add` hands out in the state that
    /// the steps before it lead to.
    pub open spec fn is_run(self, steps: Seq<Step>) -> bool {
        forall|i: int|
            0 <= i < steps.len() ==> self.after(#[trigger] steps.take(i)).hands_out(
                steps[i].quad,
                steps[i].timestamp,
                steps[i].emitted,
            )
    }
}

} // verus!
