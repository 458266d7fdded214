use oxigraph::model::{GraphName, Literal, NamedNode, Quad};
use rsp_rs::{CSPARQLWindow, QuadContainer, ReportStrategy, Tick, WindowInstance};

fn quad(n: i64) -> Quad {
    Quad::new(
        NamedNode::new(format!("http://example.org/event{}", n)).unwrap(),
        NamedNode::new("http://example.org/at").unwrap(),
        Literal::new_simple_literal(format!("{}", n)),
        GraphName::DefaultGraph,
    )
}

fn engine(width: i64, slide: i64, report: ReportStrategy, tick: Tick) -> CSPARQLWindow {
    CSPARQLWindow::new("http://example.org/w".to_string(), width, slide, report, tick, 0)
}

fn sorted_ranges(window: &CSPARQLWindow) -> Vec<(i64, i64)> {
    let mut ranges = window.get_active_window_ranges();
    ranges.sort();
    ranges
}

fn interval(emitted: &Option<(WindowInstance, QuadContainer)>) -> Option<(i64, i64)> {
    emitted.as_ref().map(|entry| (entry.0.open, entry.0.close))
}

#[test]
fn a_new_engine_has_no_window() {
    let window = engine(5000, 1000, ReportStrategy::OnWindowClose, Tick::TimeDriven);
    assert_eq!(window.width, 5000);
    assert_eq!(window.slide, 1000);
    assert_eq!(window.time, 0);
    assert_eq!(window.t0, 0);
    assert_eq!(window.name, "http://example.org/w");
    assert_eq!(window.get_active_window_count(), 0);
    assert!(window.get_active_window_ranges().is_empty());
    assert!(window.get_content(0).is_none());
}

#[test]
fn start_time_seeds_anchor_and_clock() {
    let window = CSPARQLWindow::new(
        "w".to_string(),
        10,
        5,
        ReportStrategy::OnWindowClose,
        Tick::TimeDriven,
        42,
    );
    assert_eq!(window.t0, 42);
    assert_eq!(window.time, 42);
}

#[test]
fn scope_opens_the_grid_up_to_the_timestamp() {
    let mut window = engine(5000, 1000, ReportStrategy::OnWindowClose, Tick::TimeDriven);
    window.scope(0);
    assert_eq!(
        sorted_ranges(&window),
        vec![(-5000, 0), (-4000, 1000), (-3000, 2000), (-2000, 3000), (-1000, 4000), (0, 5000)]
    );
    window.scope(1500);
    assert_eq!(
        sorted_ranges(&window),
        vec![
            (-5000, 0),
            (-4000, 1000),
            (-3000, 2000),
            (-2000, 3000),
            (-1000, 4000),
            (0, 5000),
            (1000, 6000)
        ]
    );
}

#[test]
fn scope_rounds_the_distance_to_the_anchor_up() {
    let mut window = CSPARQLWindow::new(
        "w".to_string(),
        10,
        4,
        ReportStrategy::OnWindowClose,
        Tick::TimeDriven,
        3,
    );
    // distance 6, rounded up to 8; the first window opens at 8 - 10
    window.scope(9);
    assert_eq!(window.t0, 3);
    assert_eq!(sorted_ranges(&window), vec![(-2, 8), (2, 12), (6, 16)]);
    // a timestamp before the anchor counts by its distance too: 3 - 1 = 2, up to 4
    let mut before = CSPARQLWindow::new(
        "w".to_string(),
        10,
        4,
        ReportStrategy::OnWindowClose,
        Tick::TimeDriven,
        3,
    );
    before.scope(1);
    assert_eq!(sorted_ranges(&before), vec![(-6, 4), (-2, 8)]);
}

#[test]
fn scope_sets_an_unset_anchor() {
    let mut window = engine(10, 5, ReportStrategy::OnWindowClose, Tick::TimeDriven);
    window.scope(7);
    assert_eq!(window.t0, 7);
    assert_eq!(window.time, 0);
    // the distance to the new anchor is 0: windows from -10 up to 7
    assert_eq!(sorted_ranges(&window), vec![(-10, 0), (-5, 5), (0, 10), (5, 15)]);
    window.scope(8);
    assert_eq!(window.t0, 7);
}

#[test]
fn scope_twice_is_scope_once() {
    let mut window = engine(5000, 1000, ReportStrategy::OnWindowClose, Tick::TimeDriven);
    window.scope(2500);
    let once = sorted_ranges(&window);
    let anchor = window.t0;
    window.scope(2500);
    assert_eq!(sorted_ranges(&window), once);
    assert_eq!(window.t0, anchor);
    assert_eq!(window.get_active_window_count(), once.len());
}

#[test]
fn scope_far_below_the_first_window_opens_nothing() {
    let mut window = engine(10, 5, ReportStrategy::OnWindowClose, Tick::TimeDriven);
    window.scope(-100);
    assert_eq!(window.t0, -100);
    assert_eq!(window.get_active_window_count(), 0);
}

#[test]
fn compute_window_if_absent_keeps_what_is_there() {
    let mut window = engine(10, 5, ReportStrategy::OnWindowClose, Tick::TimeDriven);
    window.compute_window_if_absent(WindowInstance::new(0, 10));
    assert_eq!(window.get_active_window_count(), 1);
    let _ = window.add(quad(1), 1);
    let held = window.get_content(1).unwrap().len();
    assert_eq!(held, 1);
    window.compute_window_if_absent(WindowInstance::new(0, 10));
    assert_eq!(window.get_content(1).unwrap().len(), 1);
    window.compute_window_if_absent(WindowInstance::new(100, 110));
    assert!(window.get_content(100).unwrap().is_empty());
    assert_eq!(window.get_content(100).unwrap().last_timestamp_changed, 0);
}

#[test]
fn report_policies() {
    let closed = WindowInstance::new(0, 10);
    let empty = QuadContainer::new(Vec::new(), 0);
    let filled = QuadContainer::new(vec![quad(1)], 1);

    let on_close = engine(10, 5, ReportStrategy::OnWindowClose, Tick::TimeDriven);
    assert!(on_close.compute_report(&closed, &empty, 11));
    assert!(!on_close.compute_report(&closed, &filled, 10));
    assert!(!on_close.compute_report(&closed, &filled, 9));

    let non_empty = engine(10, 5, ReportStrategy::NonEmptyContent, Tick::TimeDriven);
    assert!(non_empty.compute_report(&closed, &filled, 0));
    assert!(!non_empty.compute_report(&closed, &empty, 100));

    let on_change = engine(10, 5, ReportStrategy::OnContentChange, Tick::TimeDriven);
    assert!(on_change.compute_report(&closed, &empty, 0));
    let periodic = engine(10, 5, ReportStrategy::Periodic, Tick::TimeDriven);
    assert!(periodic.compute_report(&closed, &empty, 0));
}

#[test]
fn add_routes_the_quad_to_every_window_that_covers_it() {
    let mut window = engine(5000, 1000, ReportStrategy::OnWindowClose, Tick::TimeDriven);
    assert!(window.add(quad(0), 0).is_none());
    assert_eq!(window.get_active_window_count(), 6);
    for (entry, content) in &window.active_windows {
        if entry.open <= 0 && 0 < entry.close {
            assert_eq!(content.len(), 1);
            assert!(content.contains(&quad(0)));
            assert_eq!(content.last_timestamp_changed, 0);
        } else {
            assert_eq!((entry.open, entry.close), (-5000, 0));
            assert!(content.is_empty());
        }
    }
}

#[test]
fn every_active_window_is_as_wide_as_the_engine() {
    let mut window = engine(7, 3, ReportStrategy::OnWindowClose, Tick::TimeDriven);
    for t in [0i64, 1, 2, 5, 9, 10, 20, 21, 40] {
        let emitted = window.add(quad(t), t);
        if let Some((instance, _)) = emitted {
            assert_eq!(instance.close, instance.open + 7);
            assert!(instance.close < t);
        }
        for (open, close) in window.get_active_window_ranges() {
            assert_eq!(close, open + 7);
            assert!(close >= t);
        }
        assert_eq!(window.get_active_window_count(), window.get_active_window_ranges().len());
    }
}

#[test]
fn events_before_any_window_closes_at_width_10000() {
    // width 10000, slide 2000: the window [-10000, 0) is due as soon as time
    // passes 0, and it is the only one until an event passes 2000.
    let mut window = engine(10000, 2000, ReportStrategy::OnWindowClose, Tick::TimeDriven);
    assert_eq!(interval(&window.add(quad(0), 0)), None);
    let first = window.add(quad(500), 500);
    assert_eq!(interval(&first), Some((-10000, 0)));
    assert!(first.unwrap().1.is_empty());
    assert_eq!(interval(&window.add(quad(1000), 1000)), None);
    assert_eq!(interval(&window.add(quad(1500), 1500)), None);
    assert_eq!(interval(&window.add(quad(2000), 2000)), None);
    let second = window.add(quad(4000), 4000);
    assert_eq!(interval(&second), Some((-8000, 2000)));
    let content = second.unwrap().1;
    assert_eq!(content.len(), 4);
    assert_eq!(content.last_timestamp_changed, 1500);
    let third = window.add(quad(6000), 6000);
    assert_eq!(interval(&third), Some((-6000, 4000)));
    assert_eq!(third.unwrap().1.len(), 5);
}

#[test]
fn events_at_width_5000_slide_1000() {
    let mut window = engine(5000, 1000, ReportStrategy::OnWindowClose, Tick::TimeDriven);
    assert_eq!(interval(&window.add(quad(0), 0)), None);
    // [-5000, 0) closed before 500: it is emitted, empty, and evicted
    let first = window.add(quad(500), 500);
    assert_eq!(interval(&first), Some((-5000, 0)));
    assert!(first.unwrap().1.is_empty());
    assert_eq!(window.time, 500);
    assert_eq!(interval(&window.add(quad(1000), 1000)), None);
    assert_eq!(window.time, 500);
    // [-4000, 1000) closed before 1500 and holds the events at 0 and 500
    let second = window.add(quad(1500), 1500);
    assert_eq!(interval(&second), Some((-4000, 1000)));
    let content = second.unwrap().1;
    assert_eq!(content.len(), 2);
    assert!(content.contains(&quad(0)));
    assert!(content.contains(&quad(500)));
    assert_eq!(content.last_timestamp_changed, 500);
    assert_eq!(window.time, 1500);
    // nothing closes strictly before 2000
    assert_eq!(interval(&window.add(quad(2000), 2000)), None);
    // two windows are due at 4000; the one that closes last is emitted, both leave
    let third = window.add(quad(4000), 4000);
    assert_eq!(interval(&third), Some((-2000, 3000)));
    assert_eq!(third.unwrap().1.len(), 5);
    assert_eq!(
        sorted_ranges(&window),
        vec![
            (-1000, 4000),
            (0, 5000),
            (1000, 6000),
            (2000, 7000),
            (3000, 8000),
            (4000, 9000)
        ]
    );
}

#[test]
fn every_due_window_leaves_though_one_is_emitted() {
    let mut window = engine(10, 5, ReportStrategy::OnWindowClose, Tick::TimeDriven);
    // the first event sets the anchor to 1; (-10,0) closed before it
    assert_eq!(interval(&window.add(quad(1), 1)), Some((-10, 0)));
    assert_eq!(sorted_ranges(&window), vec![(-5, 5), (0, 10)]);
    // at 100 both are due; (0,10) closes last
    let emitted = window.add(quad(100), 100);
    assert_eq!(interval(&emitted), Some((0, 10)));
    assert!(emitted.unwrap().1.contains(&quad(1)));
    for (_, close) in window.get_active_window_ranges() {
        assert!(close >= 100);
    }
    assert_eq!(sorted_ranges(&window), vec![(90, 100), (95, 105), (100, 110)]);
}

#[test]
fn an_event_that_does_not_pass_the_clock_evicts_without_emitting() {
    let mut window = engine(10, 5, ReportStrategy::OnWindowClose, Tick::TimeDriven);
    let _ = window.add(quad(0), 0);
    let _ = window.add(quad(50), 50);
    assert_eq!(window.time, 50);
    let late = window.add(quad(20), 20);
    assert!(late.is_none());
    assert_eq!(window.time, 50);
    for (_, close) in window.get_active_window_ranges() {
        assert!(close >= 20);
    }
    // the late quad was still routed
    assert!(window.get_content(20).unwrap().contains(&quad(20)));
}

#[test]
fn tuple_and_batch_ticks_never_emit_but_evict() {
    for tick in [Tick::TupleDriven, Tick::BatchDriven] {
        let mut window = engine(10, 5, ReportStrategy::OnWindowClose, tick);
        assert!(window.add(quad(0), 0).is_none());
        assert!(window.add(quad(100), 100).is_none());
        assert_eq!(window.time, 0);
        for (_, close) in window.get_active_window_ranges() {
            assert!(close >= 100);
        }
    }
}

#[test]
fn non_empty_content_reports_an_open_window() {
    let mut window = engine(5000, 1000, ReportStrategy::NonEmptyContent, Tick::TimeDriven);
    // at 0 the clock does not move: the filled windows leave, nothing is emitted
    assert!(window.add(quad(0), 0).is_none());
    assert_eq!(sorted_ranges(&window), vec![(-5000, 0)]);
    // at 1 the window [0, 5000) is filled again and emitted while still open
    let emitted = window.add(quad(1), 1);
    assert_eq!(interval(&emitted), Some((0, 5000)));
    assert_eq!(emitted.unwrap().1.len(), 1);
    assert_eq!(sorted_ranges(&window), vec![(-5000, 0)]);
}

#[test]
fn placeholder_policies_report_every_window() {
    for report in [ReportStrategy::OnContentChange, ReportStrategy::Periodic] {
        let mut window = engine(10, 5, report, Tick::TimeDriven);
        let emitted = window.add(quad(3), 3);
        assert_eq!(interval(&emitted), Some((0, 10)));
        assert_eq!(window.get_active_window_count(), 0);
    }
}

#[test]
fn get_content_reads_the_covering_window_that_closes_first() {
    let mut window = engine(10, 5, ReportStrategy::OnWindowClose, Tick::TimeDriven);
    let _ = window.add(quad(1), 1);
    let _ = window.add(quad(7), 7);
    // (-10,0) left at 1 and (-5,5) at 7
    assert_eq!(sorted_ranges(&window), vec![(0, 10), (5, 15)]);
    // 7 is covered by (0,10) and (5,15); (0,10) closes first and holds both quads
    let content = window.get_content(7).unwrap();
    assert_eq!(content.len(), 2);
    // 12 is covered by (5,15) alone
    assert_eq!(window.get_content_from_window(12).unwrap().len(), 1);
    // the close itself is outside the window: 15 is covered by nothing
    assert!(window.get_content(15).is_none());
    assert!(window.get_content(-1).is_none());
    // the open itself is inside: 0 is covered by (0,10), 5 by both
    assert_eq!(window.get_content(0).unwrap().len(), 2);
    assert_eq!(window.get_content(5).unwrap().len(), 2);
    assert_eq!(window.get_content(10).unwrap().len(), 1);
}

#[test]
fn flush_with_a_later_timestamp_emits_the_last_closed_window() {
    let mut window = engine(5000, 1000, ReportStrategy::OnWindowClose, Tick::TimeDriven);
    for t in [0i64, 500, 1000, 1500] {
        let _ = window.add(quad(t), t);
    }
    let emitted = window.add(quad(20000), 20000);
    assert_eq!(interval(&emitted), Some((1000, 6000)));
    let content = emitted.unwrap().1;
    assert_eq!(content.len(), 2);
    assert!(content.contains(&quad(1000)));
    assert!(content.contains(&quad(1500)));
    assert_eq!(sorted_ranges(&window), vec![(15000, 20000), (16000, 21000), (17000, 22000), (18000, 23000), (19000, 24000), (20000, 25000)]);
}

#[test]
fn admits_tells_whether_the_windows_fit() {
    let window = engine(10, 5, ReportStrategy::OnWindowClose, Tick::TimeDriven);
    assert!(window.admits(0));
    assert!(window.admits(-1_000_000));
    assert!(window.admits(i64::MIN));
    // with the anchor at the timestamp the grid opens at multiples of 5;
    // the last window to open at or before MAX - 10 closes at MAX - 2
    assert!(window.admits(i64::MAX - 10));
    assert!(window.admits(i64::MAX - 8));
    // the window that opens at MAX - 7 would close beyond MAX
    assert!(!window.admits(i64::MAX - 7));
    assert!(!window.admits(i64::MAX));
    // an anchor far above the timestamp puts the first window beyond it
    let anchored = CSPARQLWindow::new(
        "w".to_string(),
        10,
        5,
        ReportStrategy::OnWindowClose,
        Tick::TimeDriven,
        i64::MAX,
    );
    assert!(anchored.admits(i64::MIN));
    assert!(anchored.admits(-5));
}

#[test]
fn emissions_come_at_increasing_timestamps() {
    let mut window = engine(7, 3, ReportStrategy::OnWindowClose, Tick::TimeDriven);
    let mut previous: Option<i64> = None;
    let mut clock = window.time;
    for t in [0i64, 4, 4, 2, 9, 30, 12, 31, 31, 40, 35, 41] {
        let emitted = window.add(quad(t), t);
        if emitted.is_some() {
            if let Some(earlier) = previous {
                assert!(earlier < t);
            }
            previous = Some(t);
            assert_eq!(window.time, t);
        } else {
            assert_eq!(window.time, clock);
        }
        assert!(window.time >= clock);
        clock = window.time;
    }
    assert_eq!(previous, Some(41));
}

#[test]
fn stamps_of_filled_emissions_do_not_go_back() {
    let mut window = engine(5000, 1000, ReportStrategy::OnWindowClose, Tick::TimeDriven);
    let mut stamps = Vec::new();
    let mut all = Vec::new();
    for t in [0i64, 500, 1000, 1500, 2500, 2500, 4000, 100000, 100001, 103000] {
        if let Some((_, content)) = window.add(quad(t), t) {
            all.push(content.last_timestamp_changed);
            if !content.is_empty() {
                stamps.push(content.last_timestamp_changed);
            }
        }
    }
    assert_eq!(stamps, vec![500, 1500, 2500, 4000, 100001]);
    // an empty window bears the stamp 0, whatever came before it
    assert_eq!(all, vec![0, 500, 1500, 2500, 4000, 0, 100001]);
}
