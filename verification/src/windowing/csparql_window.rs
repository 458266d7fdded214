//! The window engine: opens windows as events arrive, routes quads into
//! them, reports what is due and evicts it.

use crate::engine::r2r::{R2RError, R2ROperator};
use crate::quad_container::{ContainerView, QuadContainer};
use crate::window_instance::{Interval, WindowInstance};
use crate::windowing::model::{
    ceil_div, distance, empty_content, lemma_ceil_div_bounds, lemma_steps_ordered, should_report,
    stamped_within, WindowState,
};
use oxigraph::model::Quad;
use oxigraph::sparql::QueryResults;
use vstd::prelude::*;

verus! {

/// When a window is due to report its content.
#[derive(Debug, Clone, Copy, PartialEq, Eq, Structural)]
pub enum ReportStrategy {
    NonEmptyContent,
    OnContentChange,
    OnWindowClose,
    Periodic,
}

/// What lets a due window actually emit.
#[derive(Debug, Clone, Copy, PartialEq, Eq, Structural)]
pub enum Tick {
    TimeDriven,
    TupleDriven,
    BatchDriven,
}

/// The kind of output stream a subscriber listens to.
#[derive(Debug, Clone, Copy, PartialEq, Eq, Hash, Structural)]
pub enum StreamType {
    RStream,
    IStream,
    DStream,
}

/// The intervals of the active windows, in the order in which they are kept.
pub open spec fn intervals(entries: Seq<(WindowInstance, QuadContainer)>) -> Seq<Interval> {
    entries.map_values(|e: (WindowInstance, QuadContainer)| e.0@)
}

/// The active windows as a map from interval to content.
pub open spec fn contents(entries: Seq<(WindowInstance, QuadContainer)>) -> Map<
    Interval,
    ContainerView,
> {
    Map::new(
        |k: Interval| intervals(entries).contains(k),
        |k: Interval| entries[intervals(entries).index_of(k)].1@,
    )
}

/// With distinct intervals, the map holds each entry under its interval.
pub proof fn lemma_contents_at(entries: Seq<(WindowInstance, QuadContainer)>, i: int)
    requires
        intervals(entries).no_duplicates(),
        0 <= i < entries.len(),
    ensures
        contents(entries).dom().contains(entries[i].0@),
        contents(entries)[entries[i].0@] == entries[i].1@,
{
    let keys = intervals(entries);
    assert(keys[i] == entries[i].0@);
    let j = keys.index_of(entries[i].0@);
    assert(0 <= j < keys.len() && keys[j] == keys[i]);
}

/// Whether an active window is as wide as `width`, holds each quad once and
/// bears the stamp 0 or one that it covers.
pub open spec fn entry_wf(entry: (WindowInstance, QuadContainer), width: i64) -> bool {
    &&& entry.0.close == entry.0.open + width
    &&& entry.1.wf()
    &&& stamped_within(entry.0@, entry.1@)
}

/// What `add` handed out, as mathematics.
pub open spec fn handed_out(emitted: Option<(WindowInstance, QuadContainer)>) -> Option<
    (Interval, ContainerView),
> {
    match emitted {
        Some(entry) => Some((entry.0@, entry.1@)),
        None => None,
    }
}

/// Where the grid of windows for `t_e` starts: the distance from `t_e` to the
/// anchor, rounded up to a multiple of the slide, less the width.
fn first_open(anchor: i64, width: i64, slide: i64, t_e: i64) -> (first: i128)
    requires
        width > 0,
        slide > 0,
    ensures
        first == ceil_div(distance(t_e as int, anchor as int), slide as int) * slide - width,
        -width <= first,
{
    let span: i128 = if t_e >= anchor {
        t_e as i128 - anchor as i128
    } else {
        anchor as i128 - t_e as i128
    };
    let steps: i128 = if span % (slide as i128) == 0 {
        span / (slide as i128)
    } else {
        span / (slide as i128) + 1
    };
    proof {
        lemma_ceil_div_bounds(span as int, slide as int);
    }
    steps * (slide as i128) - width as i128
}

/// A window engine over one stream.
///
/// The active windows are kept in a vector in which no interval occurs
/// twice.
pub struct CSPARQLWindow {
    pub name: String,
    pub width: i64,
    pub slide: i64,
    pub time: i64,
    pub t0: i64,
    pub active_windows: Vec<(WindowInstance, QuadContainer)>,
    pub report: ReportStrategy,
    pub tick: Tick,
}

impl View for CSPARQLWindow {
    type V = WindowState;

    open spec fn view(&self) -> WindowState {
        WindowState {
            name: self.name@,
            width: self.width as int,
            slide: self.slide as int,
            time: self.time as int,
            t0: self.t0 as int,
            active: contents(self.active_windows@),
            report: self.report,
            tick: self.tick,
        }
    }
}

impl CSPARQLWindow {
    /// Width and slide are positive; no interval is active twice; every
    /// active window is as wide as the engine says, holds each quad once,
    /// and bears the stamp 0 or one that it covers.
    pub open spec fn wf(&self) -> bool {
        &&& self.width > 0
        &&& self.slide > 0
        &&& intervals(self.active_windows@).no_duplicates()
        &&& forall|i: int|
            0 <= i < self.active_windows@.len() ==> entry_wf(
                #[trigger] self.active_windows@[i],
                self.width,
            )
    }

    /// A well-formed engine stands for a well-formed state.
    pub proof fn lemma_view_wf(&self)
        requires
            self.wf(),
        ensures
            self@.wf(),
            self@.active.dom().finite(),
    {
        let entries = self.active_windows@;
        let keys = intervals(entries);
        assert(self@.active.dom() =~= keys.to_set());
        vstd::seq_lib::seq_to_set_is_finite(keys);
        assert forall|k: Interval| #[trigger] self@.active.dom().contains(k) implies k.close
            == k.open + self.width && stamped_within(k, self@.active[k]) by {
            let i = keys.index_of(k);
            assert(keys[i] == entries[i].0@);
            lemma_contents_at(entries, i);
            assert(entry_wf(entries[i], self.width));
        }
    }

    /// An engine with no active window. `start_time` seeds both the anchor
    /// and the clock; an anchor of 0 counts as not yet set.
    pub fn new(
        name: String,
        width: i64,
        slide: i64,
        report: ReportStrategy,
        tick: Tick,
        start_time: i64,
    ) -> (window: Self)
        requires
            width > 0,
            slide > 0,
        ensures
            window.wf(),
            window@ == (WindowState {
                name: name@,
                width: width as int,
                slide: slide as int,
                time: start_time as int,
                t0: start_time as int,
                active: Map::empty(),
                report,
                tick,
            }),
    {
        let window = Self {
            name,
            width,
            slide,
            report,
            tick,
            time: start_time,
            t0: start_time,
            active_windows: Vec::new(),
        };
        assert(window@.active =~= Map::empty());
        window
    }

    /// The report policy applied to one window.
    pub fn compute_report(
        &self,
        window: &WindowInstance,
        content: &QuadContainer,
        timestamp: i64,
    ) -> (due: bool)
        ensures
            due == should_report(self.report, window@, content@, timestamp as int),
    {
        match self.report {
            ReportStrategy::OnWindowClose => window.close < timestamp,
            ReportStrategy::NonEmptyContent => !content.is_empty(),
            ReportStrategy::OnContentChange => true,
            ReportStrategy::Periodic => true,
        }
    }

    /// Where the window with the interval of `key` stands, if it is active.
    fn find(&self, key: &WindowInstance) -> (found: Option<usize>)
        ensures
            match found {
                Some(i) => i < self.active_windows@.len() && self.active_windows@[i as int].0@
                    == key@,
                None => !intervals(self.active_windows@).contains(key@),
            },
    {
        let mut i: usize = 0;
        while i < self.active_windows.len()
            invariant
                i <= self.active_windows@.len(),
                forall|k: int| 0 <= k < i ==> self.active_windows@[k].0@ != key@,
            decreases self.active_windows@.len() - i,
        {
            if self.active_windows[i].0.is_same_window(key) {
                return Some(i);
            }
            i += 1;
        }
        None
    }

    /// Opens the window `key`, empty, unless its interval is active already.
    pub fn compute_window_if_absent(&mut self, key: WindowInstance)
        requires
            old(self).wf(),
            key.close == key.open + old(self).width,
        ensures
            final(self).wf(),
            final(self)@ == (WindowState {
                active: if old(self)@.active.dom().contains(key@) {
                    old(self)@.active
                } else {
                    old(self)@.active.insert(key@, empty_content())
                },
                ..old(self)@
            }),
    {
        let found = self.find(&key);
        proof {
            if let Some(i) = found {
                lemma_contents_at(self.active_windows@, i as int);
            }
        }
        if found.is_none() {
            let ghost before = self.active_windows@;
            let content = QuadContainer::new(Vec::new(), 0);
            assert(content@ == empty_content()) by {
                assert(Seq::<Quad>::empty().to_set() =~= Set::<Quad>::empty());
            }
            self.active_windows.push((key, content));
            proof {
                let after = self.active_windows@;
                assert(intervals(after) =~= intervals(before).push(key@));
                assert forall|a: int, b: int|
                    0 <= a < after.len() && 0 <= b < after.len() && a != b implies intervals(
                    after,
                )[a] != intervals(after)[b] by {
                    if a < before.len() {
                        assert(intervals(before)[a] == intervals(after)[a]);
                    }
                    if b < before.len() {
                        assert(intervals(before)[b] == intervals(after)[b]);
                    }
                }
                assert forall|k: Interval| #[trigger]
                    contents(after).dom().contains(k) implies contents(after)[k] == contents(
                    before,
                ).insert(key@, empty_content())[k] by {
                    let i = intervals(after).index_of(k);
                    lemma_contents_at(after, i);
                    if i < before.len() {
                        assert(after[i] == before[i]);
                        lemma_contents_at(before, i);
                    }
                }
                assert forall|k: Interval|
                    contents(after).dom().contains(k) <==> contents(before).dom().insert(
                        key@,
                    ).contains(k) by {
                    vstd::seq_lib::lemma_seq_contains_after_push(intervals(before), key@, k);
                }
                assert(contents(after) =~= contents(before).insert(key@, empty_content()));
            }
        }
    }

    /// Whether `scope` and `add` take `timestamp`: whether every window
    /// that `scope` would open for it closes at a time that an `i64` can
    /// hold.
    pub fn admits(&self, timestamp: i64) -> (taken: bool)
        requires
            self.wf(),
        ensures
            taken == self@.fits(timestamp as int),
    {
        let anchor = if self.t0 == 0 {
            timestamp
        } else {
            self.t0
        };
        let first = first_open(anchor, self.width, self.slide, timestamp);
        let slide: i128 = self.slide as i128;
        let ghost t = timestamp as int;
        let ghost a = self@.anchored(t);
        proof {
            assert forall|m: int| a.grid_window(t, m) == (Interval {
                open: first + m * slide,
                close: first + m * slide + self.width,
            }) by {}
        }
        if first > timestamp as i128 {
            proof {
                assert forall|m: int| 0 <= m implies (#[trigger] a.grid_window(t, m)).open > t by {
                    lemma_steps_ordered(slide as int, 0, m);
                }
            }
            true
        } else {
            let reach: i128 = timestamp as i128 - first;
            let rounds: i128 = reach / slide;
            proof {
                vstd::arithmetic::div_mod::lemma_fundamental_div_mod(reach as int, slide as int);
                vstd::arithmetic::div_mod::lemma_mod_bound(reach as int, slide as int);
                vstd::arithmetic::div_mod::lemma_div_pos_is_pos(reach as int, slide as int);
                vstd::arithmetic::mul::lemma_mul_is_commutative(slide as int, rounds as int);
            }
            let last: i128 = first + rounds * slide;
            let taken = last + self.width as i128 <= i64::MAX as i128;
            proof {
                assert(a.grid_window(t, rounds as int).open == last);
                if taken {
                    assert forall|m: int|
                        0 <= m && (#[trigger] a.grid_window(t, m)).open <= t implies a.grid_window(
                        t,
                        m,
                    ).close <= i64::MAX by {
                        lemma_steps_ordered(slide as int, rounds as int, rounds as int);
                        lemma_steps_ordered(slide as int, m, rounds + 1);
                        lemma_steps_ordered(slide as int, m, rounds as int);
                    }
                }
            }
            taken
        }
    }

    /// Sets the anchor if it is unset, and opens every window of the grid
    /// from `first_open` up to `t_e` that is not active yet.
    pub fn scope(&mut self, t_e: i64)
        requires
            old(self).wf(),
            old(self)@.fits(t_e as int),
        ensures
            final(self).wf(),
            final(self)@ == old(self)@.scoped(t_e as int),
    {
        if self.t0 == 0 {
            self.t0 = t_e;
        }
        let ghost anchored = self@;
        let ghost t = t_e as int;
        proof {
            self.lemma_view_wf();
        }
        assert(anchored == old(self)@.anchored(t));
        let slide: i128 = self.slide as i128;
        let width: i128 = self.width as i128;
        let mut o_i: i128 = first_open(self.t0, self.width, self.slide, t_e);
        let ghost first = anchored.first_open(t);
        let ghost mut m: int = 0;
        proof {
            lemma_steps_ordered(slide as int, 0, 0);
        }
        assert(self@.active =~= anchored.scoped_through(t, 0));
        while o_i <= t_e as i128
            invariant
                self.wf(),
                anchored.wf(),
                anchored.fits(t),
                anchored.anchored(t) == anchored,
                t == t_e as int,
                slide == self.slide,
                width == self.width,
                slide > 0,
                first == anchored.first_open(t),
                first >= -width,
                0 <= m,
                o_i == first + m * slide,
                m > 0 ==> o_i - slide <= t,
                self@ == (WindowState { active: anchored.scoped_through(t, m), ..anchored }),
            decreases t_e + slide - o_i,
        {
            proof {
                assert(anchored.grid_window(t, m).open == o_i);
                lemma_steps_ordered(slide as int, m, m);
            }
            let window = WindowInstance::new(o_i as i64, (o_i + width) as i64);
            self.compute_window_if_absent(window);
            o_i = o_i + slide;
            proof {
                assert(window@ == anchored.grid_window(t, m));
                assert(self@.active =~= anchored.scoped_through(t, m + 1));
                m = m + 1;
            }
        }
        proof {
            assert forall|k: Interval|
                anchored.scoped_through(t, m).dom().contains(k) <==> (anchored.active.dom().contains(
                    k,
                ) || anchored.opens(t, k)) by {
                if exists|j: int| 0 <= j < m && k == #[trigger] anchored.grid_window(t, j) {
                    let j = choose|j: int| 0 <= j < m && k == #[trigger] anchored.grid_window(t, j);
                    lemma_steps_ordered(slide as int, j, m - 1);
                    lemma_steps_ordered(slide as int, m - 1, m);
                }
                if anchored.opens(t, k) {
                    let j = choose|j: int|
                        0 <= j && k == #[trigger] anchored.grid_window(t, j) && k.open <= t;
                    lemma_steps_ordered(slide as int, j, m);
                }
            }
            assert(anchored.scoped_through(t, m) =~= old(self)@.scoped(t).active);
        }
    }

    /// The content of the active window that covers `timestamp` and closes
    /// first, if any window covers it.
    pub fn get_content(&self, timestamp: i64) -> (content: Option<&QuadContainer>)
        requires
            self.wf(),
        ensures
            match content {
                Some(c) => c.wf() && exists|k: Interval|
                    #[trigger] self@.is_content_window(k, timestamp as int) && self@.active[k]
                        == c@,
                None => forall|k: Interval| #[trigger]
                    self@.active.dom().contains(k) ==> !k.covers(timestamp as int),
            },
    {
        let mut best: Option<usize> = None;
        let mut i: usize = 0;
        while i < self.active_windows.len()
            invariant
                i <= self.active_windows@.len(),
                match best {
                    Some(b) => {
                        &&& b < i
                        &&& self.active_windows@[b as int].0@.covers(timestamp as int)
                        &&& forall|j: int|
                            0 <= j < i && (#[trigger] self.active_windows@[j]).0@.covers(
                                timestamp as int,
                            ) ==> self.active_windows@[b as int].0.close
                                <= self.active_windows@[j].0.close
                    },
                    None => forall|j: int|
                        0 <= j < i ==> !(#[trigger] self.active_windows@[j]).0@.covers(
                            timestamp as int,
                        ),
                },
            decreases self.active_windows@.len() - i,
        {
            let window = &self.active_windows[i].0;
            if window.open <= timestamp && timestamp < window.close {
                match best {
                    Some(b) => {
                        if window.close < self.active_windows[b].0.close {
                            best = Some(i);
                        }
                    },
                    None => {
                        best = Some(i);
                    },
                }
            }
            i += 1;
        }
        let ghost entries = self.active_windows@;
        match best {
            Some(b) => {
                proof {
                    lemma_contents_at(entries, b as int);
                    let k = entries[b as int].0@;
                    assert forall|other: Interval|
                        #[trigger] self@.active.dom().contains(other) && other.covers(
                            timestamp as int,
                        ) implies k.close <= other.close by {
                        let j = intervals(entries).index_of(other);
                        assert(intervals(entries)[j] == entries[j].0@);
                    }
                    assert(self@.is_content_window(k, timestamp as int));
                }
                Some(&self.active_windows[b].1)
            },
            None => {
                proof {
                    assert forall|k: Interval| #[trigger]
                        self@.active.dom().contains(k) implies !k.covers(timestamp as int) by {
                        let j = intervals(entries).index_of(k);
                        assert(intervals(entries)[j] == entries[j].0@);
                    }
                }
                None
            },
        }
    }

    /// The same as `get_content`.
    pub fn get_content_from_window(&self, timestamp: i64) -> (content: Option<&QuadContainer>)
        requires
            self.wf(),
        ensures
            match content {
                Some(c) => c.wf() && exists|k: Interval|
                    #[trigger] self@.is_content_window(k, timestamp as int) && self@.active[k]
                        == c@,
                None => forall|k: Interval| #[trigger]
                    self@.active.dom().contains(k) ==> !k.covers(timestamp as int),
            },
    {
        self.get_content(timestamp)
    }

    /// How many windows are active.
    pub fn get_active_window_count(&self) -> (count: usize)
        requires
            self.wf(),
        ensures
            count == self@.active.dom().len(),
    {
        proof {
            let keys = intervals(self.active_windows@);
            assert(self@.active.dom() =~= keys.to_set());
            keys.unique_seq_to_set();
        }
        self.active_windows.len()
    }

    /// The interval of each active window, as `(open, close)`, in the order
    /// in which the windows are kept.
    pub fn get_active_window_ranges(&self) -> (ranges: Vec<(i64, i64)>)
        ensures
            ranges@.len() == self.active_windows@.len(),
            forall|i: int|
                0 <= i < ranges@.len() ==> #[trigger] ranges@[i] == (
                    self.active_windows@[i].0.open,
                    self.active_windows@[i].0.close,
                ),
    {
        let mut ranges: Vec<(i64, i64)> = Vec::new();
        let mut i: usize = 0;
        while i < self.active_windows.len()
            invariant
                i <= self.active_windows@.len(),
                ranges@.len() == i,
                forall|j: int|
                    0 <= j < i ==> #[trigger] ranges@[j] == (
                        self.active_windows@[j].0.open,
                        self.active_windows@[j].0.close,
                    ),
            decreases self.active_windows@.len() - i,
        {
            ranges.push((self.active_windows[i].0.open, self.active_windows[i].0.close));
            i += 1;
        }
        ranges
    }

    /// Adds `quad` to every active window that covers `timestamp`.
    fn route(&mut self, quad: &Quad, timestamp: i64)
        requires
            old(self).wf(),
        ensures
            final(self).wf(),
            final(self)@ == old(self)@.routed(*quad, timestamp as int),
    {
        let ghost before = self.active_windows@;
        let ghost t = timestamp as int;
        let mut i: usize = 0;
        while i < self.active_windows.len()
            invariant
                i <= before.len(),
                self.active_windows@.len() == before.len(),
                self.name == old(self).name,
                self.width == old(self).width,
                self.slide == old(self).slide,
                self.time == old(self).time,
                self.t0 == old(self).t0,
                self.report == old(self).report,
                self.tick == old(self).tick,
                old(self).wf(),
                before == old(self).active_windows@,
                t == timestamp as int,
                forall|j: int|
                    0 <= j < before.len() ==> {
                        &&& (#[trigger] self.active_windows@[j]).0 == before[j].0
                        &&& entry_wf(self.active_windows@[j], self.width)
                    },
                forall|j: int|
                    i <= j < before.len() ==> (#[trigger] self.active_windows@[j]).1 == before[j].1,
                forall|j: int|
                    0 <= j < i ==> (#[trigger] self.active_windows@[j]).1@ == (if before[j].0@.covers(
                        t,
                    ) {
                        before[j].1@.with(*quad, t)
                    } else {
                        before[j].1@
                    }),
            decreases before.len() - i,
        {
            if self.active_windows[i].0.open <= timestamp && timestamp
                < self.active_windows[i].0.close {
                self.active_windows[i].1.add(quad.clone(), timestamp);
            }
            i += 1;
        }
        proof {
            let after = self.active_windows@;
            assert(intervals(after) =~= intervals(before));
            assert forall|k: Interval| #[trigger]
                contents(after).dom().contains(k) implies contents(after)[k] == old(
                self,
            )@.routed(*quad, t).active[k] by {
                let j = intervals(after).index_of(k);
                lemma_contents_at(after, j);
                lemma_contents_at(before, j);
            }
            assert(contents(after) =~= old(self)@.routed(*quad, t).active);
        }
    }

    /// Takes every window that is due at `timestamp` out of the active
    /// windows and hands back the one among them that closes last.
    fn take_due(&mut self, timestamp: i64) -> (last: Option<(WindowInstance, QuadContainer)>)
        requires
            old(self).wf(),
        ensures
            final(self).wf(),
            final(self)@ == (WindowState {
                active: old(self)@.active.remove_keys(
                    Set::new(|k: Interval| old(self)@.reports(k, timestamp as int)),
                ),
                ..old(self)@
            }),
            match last {
                Some(entry) => {
                    &&& old(self)@.wins(entry.0@, timestamp as int)
                    &&& entry.1@ == old(self)@.active[entry.0@]
                    &&& entry_wf(entry, old(self).width)
                },
                None => forall|k: Interval| !old(self)@.reports(k, timestamp as int),
            },
    {
        let ghost before = self.active_windows@;
        let ghost state = self@;
        let ghost t = timestamp as int;
        let mut last: Option<(WindowInstance, QuadContainer)> = None;
        let mut i: usize = 0;
        let ghost mut seen: int = 0;
        let ghost mut kept: Seq<int> = Seq::empty();
        while i < self.active_windows.len()
            invariant
                self.name == old(self).name,
                self.width == old(self).width,
                self.slide == old(self).slide,
                self.time == old(self).time,
                self.t0 == old(self).t0,
                self.report == old(self).report,
                self.tick == old(self).tick,
                old(self).wf(),
                before == old(self).active_windows@,
                t == timestamp as int,
                0 <= seen <= before.len(),
                i == kept.len(),
                self.active_windows@.len() == i + before.len() - seen,
                forall|a: int|
                    0 <= a < i ==> 0 <= #[trigger] kept[a] < seen && self.active_windows@[a]
                        == before[kept[a]] && !should_report(
                        self.report,
                        before[kept[a]].0@,
                        before[kept[a]].1@,
                        t,
                    ),
                forall|a: int, b: int| 0 <= a < b < i ==> #[trigger] kept[a] < #[trigger] kept[b],
                forall|m: int|
                    0 <= m < seen && !should_report(
                        self.report,
                        (#[trigger] before[m]).0@,
                        before[m].1@,
                        t,
                    ) ==> kept.contains(m),
                forall|a: int|
                    i <= a < self.active_windows@.len() ==> #[trigger] self.active_windows@[a]
                        == before[a - i + seen],
                match last {
                    Some(entry) => exists|m: int|
                        {
                            &&& 0 <= m < seen
                            &&& #[trigger] before[m] == entry
                            &&& should_report(self.report, entry.0@, entry.1@, t)
                            &&& forall|n: int|
                                0 <= n < seen && should_report(
                                    self.report,
                                    (#[trigger] before[n]).0@,
                                    before[n].1@,
                                    t,
                                ) ==> before[n].0.close <= entry.0.close
                        },
                    None => forall|n: int|
                        0 <= n < seen ==> !should_report(
                            self.report,
                            (#[trigger] before[n]).0@,
                            before[n].1@,
                            t,
                        ),
                },
            decreases before.len() - seen,
        {
            let due = self.compute_report(
                &self.active_windows[i].0,
                &self.active_windows[i].1,
                timestamp,
            );
            if due {
                let entry = self.active_windows.remove(i);
                assert(entry == before[seen]);
                last = match last {
                    None => Some(entry),
                    Some(held) => if entry.0.close > held.0.close {
                        Some(entry)
                    } else {
                        Some(held)
                    },
                };
            } else {
                proof {
                    let grown = kept.push(seen);
                    assert forall|m: int|
                        0 <= m < seen + 1 && !should_report(
                            self.report,
                            (#[trigger] before[m]).0@,
                            before[m].1@,
                            t,
                        ) implies grown.contains(m) by {
                        if m < seen {
                            let a = kept.index_of(m);
                            assert(grown[a] == m);
                        } else {
                            assert(grown[kept.len() as int] == m);
                        }
                    }
                    kept = grown;
                }
                i += 1;
            }
            proof {
                seen = seen + 1;
            }
        }
        proof {
            let after = self.active_windows@;
            assert forall|a: int, b: int|
                0 <= a < after.len() && 0 <= b < after.len() && a != b implies intervals(after)[a]
                != intervals(after)[b] by {
                assert(kept[a] != kept[b]) by {
                    if a < b {
                        assert(kept[a] < kept[b]);
                    } else {
                        assert(kept[b] < kept[a]);
                    }
                }
                assert(intervals(before)[kept[a]] == before[kept[a]].0@);
                assert(intervals(before)[kept[b]] == before[kept[b]].0@);
            }
            assert forall|a: int| 0 <= a < after.len() implies entry_wf(
                #[trigger] after[a],
                self.width,
            ) by {
                assert(after[a] == before[kept[a]]);
                assert(entry_wf(before[kept[a]], self.width));
            }
            let left = state.active.remove_keys(Set::new(|k: Interval| state.reports(k, t)));
            assert forall|k: Interval| contents(after).dom().contains(k) <==> left.dom().contains(
                k,
            ) by {
                if contents(after).dom().contains(k) {
                    let a = intervals(after).index_of(k);
                    assert(intervals(after)[a] == after[a].0@);
                    lemma_contents_at(before, kept[a]);
                }
                if left.dom().contains(k) {
                    let m = intervals(before).index_of(k);
                    assert(intervals(before)[m] == before[m].0@);
                    lemma_contents_at(before, m);
                    let a = kept.index_of(m);
                    assert(intervals(after)[a] == k);
                }
            }
            assert forall|k: Interval| #[trigger]
                contents(after).dom().contains(k) implies contents(after)[k] == left[k] by {
                let a = intervals(after).index_of(k);
                lemma_contents_at(after, a);
                lemma_contents_at(before, kept[a]);
            }
            assert(contents(after) =~= left);
            match &last {
                Some(entry) => {
                    let m = choose|m: int|
                        {
                            &&& 0 <= m < seen
                            &&& #[trigger] before[m] == entry
                            &&& should_report(self.report, entry.0@, entry.1@, t)
                            &&& forall|n: int|
                                0 <= n < seen && should_report(
                                    self.report,
                                    (#[trigger] before[n]).0@,
                                    before[n].1@,
                                    t,
                                ) ==> before[n].0.close <= entry.0.close
                        };
                    lemma_contents_at(before, m);
                    assert forall|other: Interval| #[trigger]
                        state.reports(other, t) implies other.close <= entry.0@.close by {
                        let n = intervals(before).index_of(other);
                        assert(intervals(before)[n] == before[n].0@);
                        lemma_contents_at(before, n);
                    }
                },
                None => {
                    assert forall|k: Interval| !state.reports(k, t) by {
                        if state.active.dom().contains(k) {
                            let n = intervals(before).index_of(k);
                            assert(intervals(before)[n] == before[n].0@);
                            lemma_contents_at(before, n);
                        }
                    }
                },
            }
        }
        last
    }

    /// Takes in one quad at `timestamp`: opens the windows that the
    /// timestamp calls for, adds the quad to each window that covers it,
    /// takes out every window that is due, and hands back the one among them
    /// that closes last, with its content, if the tick lets it be emitted.
    pub fn add(&mut self, quad: Quad, timestamp: i64) -> (emitted: Option<
        (WindowInstance, QuadContainer),
    >)
        requires
            old(self).wf(),
            old(self)@.fits(timestamp as int),
        ensures
            final(self).wf(),
            final(self)@ == old(self)@.added(quad, timestamp as int),
            old(self)@.hands_out(quad, timestamp as int, handed_out(emitted)),
            emitted matches Some(entry) ==> entry_wf(entry, old(self).width),
    {
        self.scope(timestamp);
        self.route(&quad, timestamp);
        let ghost received = self@;
        let last = self.take_due(timestamp);
        match last {
            Some(entry) => {
                if self.tick == Tick::TimeDriven && timestamp > self.time {
                    self.time = timestamp;
                    Some(entry)
                } else {
                    None
                }
            },
            None => None,
        }
    }
}

/// Evaluates `query` over the quads of `container` alone: an operator for
/// the query with no static data does the work. What comes back is the
/// evaluator's; an error is the parser's or the evaluator's.
pub fn execute_query(container: &QuadContainer, query: &str) -> (results: Result<
    QueryResults<'static>,
    R2RError,
>)
    ensures
        results matches Err(error) ==> error is Syntax || error is Evaluation,
{
    R2ROperator::new(query.to_owned()).execute(container)
}

} // verus!
