//! What holds of the window engine whatever it is fed.

use crate::quad_container::ContainerView;
use crate::window_instance::Interval;
use crate::windowing::csparql_window::ReportStrategy;
use crate::windowing::model::{filled, stamped_within, Step, WindowState};
use oxigraph::model::Quad;
use vstd::prelude::*;

verus! {

/// Scoping twice for the same timestamp changes nothing the second time.
pub proof fn lemma_scope_idempotent(s: WindowState, timestamp: int)
    ensures
        s.scoped(timestamp).scoped(timestamp) == s.scoped(timestamp),
{
    let once = s.scoped(timestamp);
    let twice = once.scoped(timestamp);
    assert(once.anchored(timestamp) == once);
    assert(s.anchored(timestamp).first_open(timestamp) == once.first_open(timestamp));
    assert forall|k: Interval| once.opens(timestamp, k) <==> s.anchored(timestamp).opens(
        timestamp,
        k,
    ) by {
        if once.opens(timestamp, k) {
            let m = choose|m: int|
                0 <= m && k == #[trigger] once.grid_window(timestamp, m) && k.open <= timestamp;
            assert(k == s.anchored(timestamp).grid_window(timestamp, m));
        }
        if s.anchored(timestamp).opens(timestamp, k) {
            let m = choose|m: int|
                0 <= m && k == #[trigger] s.anchored(timestamp).grid_window(timestamp, m) && k.open
                    <= timestamp;
            assert(k == once.grid_window(timestamp, m));
        }
    }
    assert(twice.active =~= once.active);
}

/// One call of `add` keeps a well-formed state well-formed, and leaves
/// width, slide, policies and name as they were.
pub proof fn lemma_added_wf(s: WindowState, quad: Quad, timestamp: int)
    requires
        s.wf(),
    ensures
        s.received(quad, timestamp).wf(),
        s.added(quad, timestamp).wf(),
        s.added(quad, timestamp).width == s.width,
        s.added(quad, timestamp).slide == s.slide,
        s.added(quad, timestamp).report == s.report,
        s.added(quad, timestamp).tick == s.tick,
        s.added(quad, timestamp).name == s.name,
        s.added(quad, timestamp).time >= s.time,
{
    let a = s.anchored(timestamp);
    let scoped = s.scoped(timestamp);
    assert forall|k: Interval| #[trigger] scoped.active.dom().contains(k) implies k.close == k.open
        + s.width && stamped_within(k, scoped.active[k]) by {
        if !a.active.dom().contains(k) {
            let m = choose|m: int|
                0 <= m && k == #[trigger] a.grid_window(timestamp, m) && k.open <= timestamp;
        } else {
            assert(s.active.dom().contains(k));
        }
    }
    let received = s.received(quad, timestamp);
    assert forall|k: Interval| #[trigger] received.active.dom().contains(k) implies k.close
        == k.open + s.width && stamped_within(k, received.active[k]) by {
        assert(scoped.active.dom().contains(k));
    }
    let added = s.added(quad, timestamp);
    assert forall|k: Interval| #[trigger] added.active.dom().contains(k) implies k.close == k.open
        + s.width && stamped_within(k, added.active[k]) by {
        assert(received.active.dom().contains(k));
    }
}

/// Where `timestamp + width` is a time that an `i64` can hold, so is the
/// close of every window that `scope` opens for `timestamp`.
pub proof fn lemma_fits(s: WindowState, timestamp: int)
    requires
        timestamp + s.width <= i64::MAX,
    ensures
        s.fits(timestamp),
{
}

/// In a well-formed state at most one window is the content window for a
/// timestamp, so `content_at` is the content of any window that is.
pub proof fn lemma_content_window_unique(s: WindowState, k: Interval, timestamp: int)
    requires
        s.wf(),
        s.is_content_window(k, timestamp),
    ensures
        s.content_at(timestamp) == s.active[k].elements,
{
    let chosen = choose|c: Interval| s.is_content_window(c, timestamp);
    assert(s.active.dom().contains(chosen) && chosen.covers(timestamp));
    assert(s.active.dom().contains(k) && k.covers(timestamp));
    assert(chosen.close == k.close);
}

/// In a well-formed state at most one window wins, so what `add` hands out
/// is determined by the state, the quad and the timestamp.
pub proof fn lemma_hands_out_one(
    s: WindowState,
    quad: Quad,
    timestamp: int,
    first: Option<(Interval, ContainerView)>,
    second: Option<(Interval, ContainerView)>,
)
    requires
        s.wf(),
        s.hands_out(quad, timestamp, first),
        s.hands_out(quad, timestamp, second),
    ensures
        first == second,
{
    lemma_added_wf(s, quad, timestamp);
    let received = s.received(quad, timestamp);
    match (first, second) {
        (Some((a, _)), Some((b, _))) => {
            assert(received.reports(a, timestamp) && received.reports(b, timestamp));
            assert(a.close == b.close);
            assert(received.active.dom().contains(a) && received.active.dom().contains(b));
        },
        _ => {},
    }
}

/// Under the policy that reports on window close, what `add` hands out does
/// not depend on the quad: any quad with the same timestamp brings out the
/// same window with the same content.
pub proof fn lemma_emission_ignores_quad(
    s: WindowState,
    quad: Quad,
    other: Quad,
    timestamp: int,
    emitted: Option<(Interval, ContainerView)>,
)
    requires
        s.report == ReportStrategy::OnWindowClose,
        s.hands_out(quad, timestamp, emitted),
    ensures
        s.hands_out(other, timestamp, emitted),
{
    let r1 = s.received(quad, timestamp);
    let r2 = s.received(other, timestamp);
    assert(r1.active.dom() =~= r2.active.dom());
    assert forall|k: Interval| r1.reports(k, timestamp) <==> r2.reports(k, timestamp) by {}
    assert(r1.fires(timestamp) <==> r2.fires(timestamp)) by {
        if r1.fires(timestamp) {
            let k = choose|k: Interval| #[trigger] r1.reports(k, timestamp);
            assert(r2.reports(k, timestamp));
        }
        if r2.fires(timestamp) {
            let k = choose|k: Interval| #[trigger] r2.reports(k, timestamp);
            assert(r1.reports(k, timestamp));
        }
    }
    match emitted {
        Some((k, content)) => {
            assert(r1.reports(k, timestamp));
            assert forall|o: Interval| #[trigger] r2.reports(o, timestamp) implies o.close
                <= k.close by {
                assert(r1.reports(o, timestamp));
            }
            assert(!k.covers(timestamp));
        },
        None => {},
    }
}

/// Every window that `add` hands out is as wide as the engine says; under
/// the policy that reports on window close, it closed before the timestamp
/// of the call.
pub proof fn lemma_emitted_window_closed(
    s: WindowState,
    quad: Quad,
    timestamp: int,
    k: Interval,
    content: ContainerView,
)
    requires
        s.wf(),
        s.hands_out(quad, timestamp, Some((k, content))),
    ensures
        k.close == k.open + s.width,
        stamped_within(k, content),
        s.report == ReportStrategy::OnWindowClose ==> k.close < timestamp,
{
    lemma_added_wf(s, quad, timestamp);
    assert(s.received(quad, timestamp).active.dom().contains(k));
}

/// After `add`, no window that was due in that call is active any more;
/// under the policy that reports on window close, every window still active
/// closes at the timestamp of the call or later.
pub proof fn lemma_due_windows_leave(s: WindowState, quad: Quad, timestamp: int)
    ensures
        forall|k: Interval| #[trigger]
            s.received(quad, timestamp).reports(k, timestamp) ==> !s.added(
                quad,
                timestamp,
            ).active.dom().contains(k),
        s.report == ReportStrategy::OnWindowClose ==> forall|k: Interval| #[trigger]
            s.added(quad, timestamp).active.dom().contains(k) ==> k.close >= timestamp,
{
    let received = s.received(quad, timestamp);
    assert forall|k: Interval|
        s.report == ReportStrategy::OnWindowClose && #[trigger] s.added(
            quad,
            timestamp,
        ).active.dom().contains(k) implies k.close >= timestamp by {
        assert(!received.reports(k, timestamp));
    }
}

/// The clock moves exactly when `add` hands out a window: then the
/// timestamp lay after the clock and becomes the clock; else the clock
/// stays.
pub proof fn lemma_clock_follows_emissions(
    s: WindowState,
    quad: Quad,
    timestamp: int,
    emitted: Option<(Interval, ContainerView)>,
)
    requires
        s.hands_out(quad, timestamp, emitted),
    ensures
        emitted is Some ==> timestamp > s.time && s.added(quad, timestamp).time == timestamp,
        emitted is None ==> s.added(quad, timestamp).time == s.time,
{
}

/// A run keeps a well-formed state well-formed, leaves width and policies
/// alone, and never turns the clock back.
pub proof fn lemma_after_wf(s: WindowState, steps: Seq<Step>)
    requires
        s.wf(),
    ensures
        s.after(steps).wf(),
        s.after(steps).width == s.width,
        s.after(steps).report == s.report,
        s.after(steps).time >= s.time,
    decreases steps.len(),
{
    if steps.len() > 0 {
        lemma_after_wf(s, steps.drop_last());
        lemma_added_wf(s.after(steps.drop_last()), steps.last().quad, steps.last().timestamp);
    }
}

/// The clock only moves forward along a run.
pub proof fn lemma_clock_monotone(s: WindowState, steps: Seq<Step>, i: int)
    requires
        0 <= i <= steps.len(),
    ensures
        s.after(steps.take(i)).time <= s.after(steps).time,
    decreases steps.len(),
{
    if i == steps.len() {
        assert(steps.take(i) =~= steps);
    } else {
        let shorter = steps.drop_last();
        assert(steps.take(i) =~= shorter.take(i));
        lemma_clock_monotone(s, shorter, i);
    }
}

/// In a run from a well-formed state, every window handed out is as wide as
/// the engine says. Under the policy that reports on window close it closed
/// before the timestamp of its call, and so, where timestamps do not go
/// back, before the last timestamp fed.
pub proof fn lemma_run_emits_closed_windows(s: WindowState, steps: Seq<Step>, i: int)
    requires
        s.wf(),
        s.is_run(steps),
        0 <= i < steps.len(),
        steps[i].emitted is Some,
    ensures
        steps[i].emitted matches Some((k, _)) ==> {
            &&& k.close == k.open + s.width
            &&& s.report == ReportStrategy::OnWindowClose ==> k.close < steps[i].timestamp
            &&& s.report == ReportStrategy::OnWindowClose && (forall|a: int, b: int|
                0 <= a <= b < steps.len() ==> steps[a].timestamp <= steps[b].timestamp)
                ==> k.close < steps.last().timestamp
        },
{
    let state = s.after(steps.take(i));
    lemma_after_wf(s, steps.take(i));
    match steps[i].emitted {
        Some((k, content)) => {
            lemma_emitted_window_closed(state, steps[i].quad, steps[i].timestamp, k, content);
        },
        None => {},
    }
}

/// In a run, emissions come at strictly increasing timestamps: of two calls
/// that both hand out a window, the later one has the greater timestamp.
pub proof fn lemma_emissions_move_forward(s: WindowState, steps: Seq<Step>, i: int, j: int)
    requires
        s.is_run(steps),
        0 <= i < j < steps.len(),
        steps[i].emitted is Some,
        steps[j].emitted is Some,
    ensures
        steps[i].timestamp < steps[j].timestamp,
{
    let upto_j = steps.take(j);
    assert(upto_j.take(i + 1) =~= steps.take(i + 1));
    lemma_clock_monotone(s, upto_j, i + 1);
    let next = steps.take(i + 1);
    assert(next.drop_last() =~= steps.take(i));
    assert(next.last() == steps[i]);
    assert(s.after(next) == s.after(steps.take(i)).added(steps[i].quad, steps[i].timestamp));
}

/// Whether the timestamps of `steps` never go back.
pub open spec fn in_order(steps: Seq<Step>) -> bool {
    forall|a: int, b: int| 0 <= a <= b < steps.len() ==> steps[a].timestamp <= steps[b].timestamp
}

/// The stamp of the last filled content that `steps` handed out, or `floor`
/// where they handed out none.
pub open spec fn last_stamp(steps: Seq<Step>, floor: int) -> int
    decreases steps.len(),
{
    if steps.len() == 0 {
        floor
    } else {
        match steps.last().emitted {
            Some((_, content)) => if filled(content) {
                content.last_timestamp_changed
            } else {
                last_stamp(steps.drop_last(), floor)
            },
            None => last_stamp(steps.drop_last(), floor),
        }
    }
}

/// One call of `add` with a timestamp that does not go back keeps the
/// stamps in order, and a filled content that it hands out is stamped at
/// the floor or later and may serve as the new floor.
pub proof fn lemma_added_keeps_stamps_ordered(
    s: WindowState,
    quad: Quad,
    timestamp: int,
    now: int,
    floor: int,
    emitted: Option<(Interval, ContainerView)>,
)
    requires
        s.wf(),
        s.report == ReportStrategy::OnWindowClose,
        s.stamps_ordered(now, floor),
        now <= timestamp,
        s.hands_out(quad, timestamp, emitted),
    ensures
        s.added(quad, timestamp).stamps_ordered(timestamp, floor),
        emitted matches Some((_, content)) ==> filled(content) ==> {
            &&& floor <= content.last_timestamp_changed
            &&& s.added(quad, timestamp).stamps_ordered(timestamp, content.last_timestamp_changed)
        },
{
    let scoped = s.scoped(timestamp);
    let received = s.received(quad, timestamp);
    let added = s.added(quad, timestamp);
    assert forall|k: Interval| #[trigger] scoped.active.dom().contains(k) && filled(
        scoped.active[k],
    ) implies s.active.dom().contains(k) && scoped.active[k] == s.active[k] by {
        if !s.active.dom().contains(k) {
            assert(scoped.active[k].elements =~= Set::<Quad>::empty());
        }
    }
    assert forall|k: Interval| #[trigger] received.active.dom().contains(k) && filled(
        received.active[k],
    ) implies {
        &&& k.covers(received.active[k].last_timestamp_changed)
        &&& floor <= received.active[k].last_timestamp_changed <= timestamp
    } by {
        assert(scoped.active.dom().contains(k));
        if !k.covers(timestamp) {
            assert(s.active.dom().contains(k));
        }
    }
    assert forall|a: Interval, b: Interval|
        #[trigger] received.active.dom().contains(a) && #[trigger] received.active.dom().contains(
            b,
        ) && filled(received.active[a]) && filled(received.active[b]) && a.close
            <= b.close implies received.active[a].last_timestamp_changed
        <= received.active[b].last_timestamp_changed by {
        assert(scoped.active.dom().contains(a) && scoped.active.dom().contains(b));
        if !a.covers(timestamp) {
            assert(s.active.dom().contains(a));
        }
        if !b.covers(timestamp) {
            assert(s.active.dom().contains(b));
        }
    }
    assert(received.stamps_ordered(timestamp, floor));
    assert forall|k: Interval| #[trigger] added.active.dom().contains(k) implies received.active.dom().contains(
        k,
    ) && added.active[k] == received.active[k] && !received.reports(k, timestamp) by {}
    assert(added.stamps_ordered(timestamp, floor));
    match emitted {
        Some((won, content)) => {
            if filled(content) {
                assert(received.active.dom().contains(won));
                let stamp = content.last_timestamp_changed;
                assert forall|k: Interval|
                    #[trigger] added.active.dom().contains(k) && filled(
                        added.active[k],
                    ) implies stamp <= added.active[k].last_timestamp_changed by {
                    assert(received.active.dom().contains(k));
                    assert(!received.reports(k, timestamp));
                    assert(won.close <= k.close);
                }
                assert(added.stamps_ordered(timestamp, stamp));
            }
        },
        None => {},
    }
}

/// A run is a run up to each of its steps.
pub proof fn lemma_run_prefix(s: WindowState, steps: Seq<Step>, n: int)
    requires
        s.is_run(steps),
        0 <= n <= steps.len(),
    ensures
        s.is_run(steps.take(n)),
{
    assert forall|i: int| 0 <= i < n implies s.after(#[trigger] steps.take(n).take(i)).hands_out(
        steps.take(n)[i].quad,
        steps.take(n)[i].timestamp,
        steps.take(n)[i].emitted,
    ) by {
        assert(steps.take(n).take(i) =~= steps.take(i));
    }
}

/// Along a run from a state without windows, under the policy that reports
/// on window close and with timestamps that never go back, the stamps stay
/// in order, with the stamp of the last filled emission as the floor.
pub proof fn lemma_run_keeps_stamps_ordered(s: WindowState, steps: Seq<Step>)
    requires
        s.wf(),
        s.report == ReportStrategy::OnWindowClose,
        s.active.dom() == Set::<Interval>::empty(),
        s.is_run(steps),
        in_order(steps),
        steps.len() > 0,
    ensures
        s.after(steps).stamps_ordered(
            steps.last().timestamp,
            last_stamp(steps, steps[0].timestamp),
        ),
        last_stamp(steps.drop_last(), steps[0].timestamp) <= last_stamp(
            steps,
            steps[0].timestamp,
        ),
        steps.last().emitted matches Some((_, content)) ==> filled(content) ==> last_stamp(
            steps.drop_last(),
            steps[0].timestamp,
        ) <= content.last_timestamp_changed,
    decreases steps.len(),
{
    let n = steps.len() - 1;
    let earlier = steps.drop_last();
    let start = steps[0].timestamp;
    let before = s.after(earlier);
    assert(earlier =~= steps.take(n));
    lemma_run_prefix(s, steps, n);
    lemma_after_wf(s, earlier);
    let now = if n == 0 {
        start
    } else {
        earlier.last().timestamp
    };
    if n == 0 {
        assert(before == s);
        assert(s.stamps_ordered(start, start));
    } else {
        assert(in_order(earlier));
        assert(earlier[0] == steps[0]);
        lemma_run_keeps_stamps_ordered(s, earlier);
        assert(earlier.last() == steps[n - 1]);
    }
    assert(before.stamps_ordered(now, last_stamp(earlier, start)));
    lemma_added_keeps_stamps_ordered(
        before,
        steps[n].quad,
        steps[n].timestamp,
        now,
        last_stamp(earlier, start),
        steps[n].emitted,
    );
}

/// The stamp of the last filled emission never goes back along such a run.
pub proof fn lemma_last_stamp_monotone(s: WindowState, steps: Seq<Step>, n: int)
    requires
        s.wf(),
        s.report == ReportStrategy::OnWindowClose,
        s.active.dom() == Set::<Interval>::empty(),
        s.is_run(steps),
        in_order(steps),
        0 <= n <= steps.len(),
        steps.len() > 0,
    ensures
        last_stamp(steps.take(n), steps[0].timestamp) <= last_stamp(steps, steps[0].timestamp),
    decreases steps.len(),
{
    if n == steps.len() {
        assert(steps.take(n) =~= steps);
    } else {
        let earlier = steps.drop_last();
        lemma_run_keeps_stamps_ordered(s, steps);
        assert(earlier =~= steps.take(steps.len() - 1));
        assert(earlier.take(n) =~= steps.take(n));
        if earlier.len() > 0 {
            lemma_run_prefix(s, steps, steps.len() - 1);
            assert(in_order(earlier));
            assert(earlier[0] == steps[0]);
            lemma_last_stamp_monotone(s, earlier, n);
        }
    }
}

/// In a run of a fresh engine that reports on window close, fed with
/// timestamps that never go back, the stamps of the filled contents handed
/// out never go back either: of two calls that both hand out a filled
/// content, the later content bears the later stamp, or the same.
pub proof fn lemma_stamps_move_forward(s: WindowState, steps: Seq<Step>, i: int, j: int)
    requires
        s.wf(),
        s.report == ReportStrategy::OnWindowClose,
        s.active.dom() == Set::<Interval>::empty(),
        s.is_run(steps),
        in_order(steps),
        0 <= i < j < steps.len(),
    ensures
        steps[i].emitted matches Some((_, first)) ==> (steps[j].emitted matches Some(
            (_, second),
        ) ==> (filled(first) && filled(second) ==> first.last_timestamp_changed
            <= second.last_timestamp_changed)),
{
    let start = steps[0].timestamp;
    let to_i = steps.take(i + 1);
    let to_j = steps.take(j + 1);
    let upto_j = steps.take(j);
    lemma_run_prefix(s, steps, j + 1);
    lemma_run_prefix(s, steps, j);
    assert(in_order(to_j)) by {
        assert forall|a: int, b: int| 0 <= a <= b < to_j.len() implies to_j[a].timestamp
            <= to_j[b].timestamp by {
            assert(to_j[a] == steps[a] && to_j[b] == steps[b]);
        }
    }
    assert(in_order(upto_j)) by {
        assert forall|a: int, b: int| 0 <= a <= b < upto_j.len() implies upto_j[a].timestamp
            <= upto_j[b].timestamp by {
            assert(upto_j[a] == steps[a] && upto_j[b] == steps[b]);
        }
    }
    assert(to_j.drop_last() =~= upto_j);
    assert(to_j[0] == steps[0] && upto_j[0] == steps[0]);
    assert(to_j.last() == steps[j]);
    lemma_run_keeps_stamps_ordered(s, to_j);
    assert(upto_j.take(i + 1) =~= to_i);
    lemma_last_stamp_monotone(s, upto_j, i + 1);
    assert(to_i.last() == steps[i]);
}

} // verus!
