//! The engine for one continuous query: a window per declaration, the
//! streams that feed them, and the evaluation of what the windows emit.

use crate::engine::r2r::{R2RError, R2ROperator};
use crate::quad::{iri_parses, literal_quad, make_literal_quad};
use crate::quad_container::{ContainerView, QuadContainer};
use crate::window_instance::Interval;
use crate::windowing::csparql_window::{CSPARQLWindow, ReportStrategy, Tick};
use crate::windowing::laws::{
    lemma_content_window_unique, lemma_emitted_window_closed, lemma_fits,
};
use crate::windowing::model::WindowState;
use oxigraph::model::Quad;
use vstd::prelude::*;
use vstd::string::StringExecFns;

verus! {

/// One solution of the query, with the time span it is reported for.
#[derive(Debug, Clone)]
pub struct BindingWithTimestamp {
    pub bindings: String,
    pub timestamp_from: i64,
    pub timestamp_to: i64,
}

/// One window of a continuous query: its name, the stream it reads, and its
/// range and step.
#[derive(Debug, Clone)]
pub struct WindowDefinition {
    pub window_name: String,
    pub stream_name: String,
    pub width: i64,
    pub slide: i64,
}

/// A continuous query, taken apart: the query to evaluate and the windows
/// it declares.
#[derive(Debug, Clone)]
pub struct ParsedQuery {
    pub sparql_query: String,
    pub s2r: Vec<WindowDefinition>,
}

/// A handle on a stream: its name and the windows that it feeds, by their
/// numbers, in rising order.
#[derive(Debug, Clone)]
pub struct RDFStream {
    pub name: String,
    pub windows: Vec<usize>,
}

/// Whether the numbers rise strictly.
pub open spec fn rising(windows: Seq<usize>) -> bool {
    forall|a: int, b: int| 0 <= a < b < windows.len() ==> windows[a] < windows[b]
}

/// Whether `window` is one of the numbers.
pub open spec fn lists(windows: Seq<usize>, window: int) -> bool {
    exists|a: int| 0 <= a < windows.len() && #[trigger] windows[a] == window
}

impl RDFStream {
    /// A handle on the stream `name` that feeds the windows `windows`.
    pub fn new(name: String, windows: Vec<usize>) -> (stream: Self)
        ensures
            stream.name == name,
            stream.windows == windows,
    {
        Self { name, windows }
    }
}

/// Gives each line the span `[timestamp, timestamp + width]`.
pub fn stamp_bindings(lines: Vec<String>, timestamp: i64, width: i64) -> (results: Vec<
    BindingWithTimestamp,
>)
    requires
        i64::MIN <= timestamp + width <= i64::MAX,
    ensures
        results@.len() == lines@.len(),
        forall|i: int|
            0 <= i < results@.len() ==> {
                &&& (#[trigger] results@[i]).bindings == lines@[i]
                &&& results@[i].timestamp_from == timestamp
                &&& results@[i].timestamp_to == timestamp + width
            },
{
    let mut results: Vec<BindingWithTimestamp> = Vec::new();
    let mut i: usize = 0;
    while i < lines.len()
        invariant
            i <= lines@.len(),
            results@.len() == i,
            i64::MIN <= timestamp + width <= i64::MAX,
            forall|j: int|
                0 <= j < i ==> {
                    &&& (#[trigger] results@[j]).bindings == lines@[j]
                    &&& results@[j].timestamp_from == timestamp
                    &&& results@[j].timestamp_to == timestamp + width
                },
        decreases lines@.len() - i,
    {
        results.push(
            BindingWithTimestamp {
                bindings: lines[i].clone(),
                timestamp_from: timestamp,
                timestamp_to: timestamp + width,
            },
        );
        i += 1;
    }
    results
}

/// Whether `window` is the engine that `initialize` makes for `def`, in any
/// state it may have reached since.
pub open spec fn window_follows(window: CSPARQLWindow, def: WindowDefinition) -> bool {
    &&& window.wf()
    &&& window.name@ == def.window_name@
    &&& window.width == def.width
    &&& window.slide == def.slide
    &&& window.report == ReportStrategy::OnWindowClose
    &&& window.tick == Tick::TimeDriven
}

/// The state of the engine that `initialize` makes for `def`.
pub open spec fn fresh_state(def: WindowDefinition) -> WindowState {
    WindowState {
        name: def.window_name@,
        width: def.width as int,
        slide: def.slide as int,
        time: 0,
        t0: 0,
        active: Map::empty(),
        report: ReportStrategy::OnWindowClose,
        tick: Tick::TimeDriven,
    }
}

/// Whether a declaration has a positive range and step.
pub open spec fn valid_definition(def: WindowDefinition) -> bool {
    def.width > 0 && def.slide > 0
}

/// The texts of a list of names.
pub open spec fn texts(names: Seq<String>) -> Seq<Seq<char>> {
    names.map_values(|name: String| name@)
}

/// The states of a list of window engines.
pub open spec fn states(windows: Seq<CSPARQLWindow>) -> Seq<WindowState> {
    windows.map_values(|window: CSPARQLWindow| window@)
}

/// The quads that the first `upto` windows other than window `own` show
/// at `timestamp`.
pub open spec fn siblings_content(
    windows: Seq<WindowState>,
    own: int,
    timestamp: int,
    upto: int,
) -> Set<Quad>
    decreases upto,
{
    if upto <= 0 {
        Set::empty()
    } else if upto - 1 == own {
        siblings_content(windows, own, timestamp, upto - 1)
    } else {
        siblings_content(windows, own, timestamp, upto - 1).union(
            windows[upto - 1].content_at(timestamp),
        )
    }
}


/// What one quad handed to one window gave: nothing where the window did
/// not emit, else the solutions of the evaluation or its error.
pub type Outcome = Option<Result<Vec<BindingWithTimestamp>, R2RError>>;

/// What came of a batch of quads: the solutions of every evaluation that
/// succeeded, in order, and the error of every evaluation that failed.
#[derive(Debug)]
pub struct Processed {
    pub results: Vec<BindingWithTimestamp>,
    pub failures: Vec<R2RError>,
}

/// What a `Processed` holds, as sequences.
pub struct Gathered {
    pub results: Seq<BindingWithTimestamp>,
    pub failures: Seq<R2RError>,
}

impl Gathered {
    /// Nothing gathered.
    pub open spec fn nothing() -> Gathered {
        Gathered { results: Seq::empty(), failures: Seq::empty() }
    }

    /// What is gathered after one more outcome: the solutions of an
    /// evaluation that succeeded come behind the results, in their order;
    /// an evaluation that failed adds its error and no result; a quad that
    /// brought no emission changes nothing.
    pub open spec fn noted(self, outcome: Outcome) -> Gathered {
        match outcome {
            Some(Ok(results)) => Gathered { results: self.results + results@, ..self },
            Some(Err(error)) => Gathered { failures: self.failures.push(error), ..self },
            None => self,
        }
    }

    /// What is gathered after the outcomes of one window, in order.
    pub open spec fn noted_all(self, outcomes: Seq<Outcome>) -> Gathered
        decreases outcomes.len(),
    {
        if outcomes.len() == 0 {
            self
        } else {
            self.noted_all(outcomes.drop_last()).noted(outcomes.last())
        }
    }

    /// What is gathered after the outcomes of several windows, window by
    /// window.
    pub open spec fn noted_batches(self, batches: Seq<Seq<Outcome>>) -> Gathered
        decreases batches.len(),
    {
        if batches.len() == 0 {
            self
        } else {
            self.noted_batches(batches.drop_last()).noted_all(batches.last())
        }
    }
}

impl View for Processed {
    type V = Gathered;

    open spec fn view(&self) -> Gathered {
        Gathered { results: self.results@, failures: self.failures@ }
    }
}

impl Processed {
    /// Nothing processed yet.
    pub fn new() -> (processed: Self)
        ensures
            processed@ == Gathered::nothing(),
    {
        Processed { results: Vec::new(), failures: Vec::new() }
    }

    /// Takes in what one quad gave.
    pub fn note(&mut self, outcome: Outcome)
        ensures
            final(self)@ == old(self)@.noted(outcome),
    {
        match outcome {
            Some(Ok(mut results)) => {
                self.results.append(&mut results);
            },
            Some(Err(error)) => {
                self.failures.push(error);
            },
            None => {},
        }
    }
}

/// Outcomes that are all `None` add nothing.
pub proof fn lemma_nothing_noted(gathered: Gathered, outcomes: Seq<Outcome>)
    requires
        forall|i: int| 0 <= i < outcomes.len() ==> (#[trigger] outcomes[i]) is None,
    ensures
        gathered.noted_all(outcomes) == gathered,
    decreases outcomes.len(),
{
    if outcomes.len() > 0 {
        lemma_nothing_noted(gathered, outcomes.drop_last());
        assert(outcomes.last() is None);
    }
}

/// Whether `outcome` is what handing `quad` at `timestamp` to a window in
/// `state` can give: something exactly where the window emits, and
/// solutions that span from the stamp of the emitted content over the width
/// of the window.
pub open spec fn answers_one(state: WindowState, quad: Quad, timestamp: int, outcome: Outcome) -> bool {
    &&& outcome is Some <==> state.received(quad, timestamp).fires(timestamp)
    &&& outcome matches Some(Ok(results)) ==> exists|k: Interval, content: ContainerView|
        {
            &&& #[trigger] state.hands_out(quad, timestamp, Some((k, content)))
            &&& stamped(results@, content.last_timestamp_changed, state.width)
        }
}

/// Whether `outcomes` are what handing the quads of `quads`, one after the
/// other, to a window that starts in `start` can give.
pub open spec fn answers(
    start: WindowState,
    quads: Seq<Quad>,
    timestamp: int,
    outcomes: Seq<Outcome>,
) -> bool {
    &&& outcomes.len() == quads.len()
    &&& forall|i: int|
        0 <= i < quads.len() ==> answers_one(
            start.fed(quads.take(i), timestamp),
            quads[i],
            timestamp,
            #[trigger] outcomes[i],
        )
}

/// Where no quad of a batch brings an emission, its outcomes add nothing.
pub proof fn lemma_silent_batch(
    start: WindowState,
    quads: Seq<Quad>,
    timestamp: int,
    outcomes: Seq<Outcome>,
    gathered: Gathered,
)
    requires
        answers(start, quads, timestamp, outcomes),
        !start.fires_within(quads, timestamp),
    ensures
        gathered.noted_all(outcomes) == gathered,
{
    assert forall|i: int| 0 <= i < outcomes.len() implies (#[trigger] outcomes[i]) is None by {
        let state = start.fed(quads.take(i), timestamp);
        assert(!state.received(quads[i], timestamp).fires(timestamp));
    }
    lemma_nothing_noted(gathered, outcomes);
}

/// Whether every result spans from `from` to `from + width`.
pub open spec fn stamped(results: Seq<BindingWithTimestamp>, from: int, width: int) -> bool {
    forall|i: int|
        0 <= i < results.len() ==> (#[trigger] results[i]).timestamp_from == from
            && results[i].timestamp_to == from + width
}

/// Adds every quad of `source` to `target`, which bears the stamp
/// `timestamp` already.
fn merge_into(target: &mut QuadContainer, source: &QuadContainer, timestamp: i64)
    requires
        old(target).wf(),
        old(target).last_timestamp_changed == timestamp,
    ensures
        final(target).wf(),
        final(target).last_timestamp_changed == timestamp,
        final(target)@.elements == old(target)@.elements.union(source@.elements),
{
    let mut m: usize = 0;
    assert(source.elements@.take(0).to_set() =~= Set::<Quad>::empty());
    assert(target@.elements.union(Set::<Quad>::empty()) =~= target@.elements);
    while m < source.elements.len()
        invariant
            m <= source.elements@.len(),
            target.wf(),
            target.last_timestamp_changed == timestamp,
            target@.elements == old(target)@.elements.union(
                source.elements@.take(m as int).to_set(),
            ),
        decreases source.elements@.len() - m,
    {
        let ghost held = target@.elements;
        target.add(source.elements[m].clone(), timestamp);
        proof {
            let next = source.elements@[m as int];
            assert(source.elements@.take(m + 1) =~= source.elements@.take(m as int).push(next));
            source.elements@.take(m as int).lemma_push_to_set_commute(next);
            assert(held.insert(next) =~= old(target)@.elements.union(
                source.elements@.take(m + 1).to_set(),
            ));
        }
        m += 1;
    }
    assert(source.elements@.take(m as int) =~= source.elements@);
}

/// The engine for one continuous query. Window number `i` belongs to
/// declaration number `i`; before `initialize` there is no window.
pub struct RSPEngine {
    pub windows: Vec<CSPARQLWindow>,
    pub r2r: R2ROperator,
    pub parsed_query: ParsedQuery,
}

impl RSPEngine {
    /// There are no windows yet or one per declaration, each following its
    /// declaration.
    pub open spec fn wf(&self) -> bool {
        &&& self.r2r.wf()
        &&& (self.windows@.len() == 0 || self.windows@.len() == self.parsed_query.s2r@.len())
        &&& forall|i: int|
            0 <= i < self.windows@.len() ==> window_follows(
                #[trigger] self.windows@[i],
                self.parsed_query.s2r@[i],
            )
    }

    /// The state of window `window`.
    pub open spec fn state(&self, window: int) -> WindowState {
        self.windows@[window]@
    }

    /// Whether `after` is this engine but for window `window`.
    pub open spec fn changed_only(&self, after: &RSPEngine, window: int) -> bool {
        &&& after.r2r == self.r2r
        &&& after.parsed_query == self.parsed_query
        &&& after.windows@.len() == self.windows@.len()
        &&& forall|j: int|
            0 <= j < self.windows@.len() && j != window ==> #[trigger] after.windows@[j]
                == self.windows@[j]
    }

    /// Whether declaration `i` is on the stream `name`, so that its window
    /// reads that stream.
    pub open spec fn reads(&self, name: Seq<char>, i: int) -> bool {
        0 <= i < self.windows@.len() && self.parsed_query.s2r@[i].stream_name@ == name
    }

    /// Whether no window reads the stream `name`.
    pub open spec fn no_stream(&self, name: Seq<char>) -> bool {
        forall|j: int| !#[trigger] self.reads(name, j)
    }

    /// Whether `windows` are the windows that read the stream `name`: all
    /// of them, each once, in rising order.
    pub open spec fn is_handle(&self, name: Seq<char>, windows: Seq<usize>) -> bool {
        &&& rising(windows)
        &&& forall|a: int| 0 <= a < windows.len() ==> self.reads(name, #[trigger] windows[a] as int)
        &&& forall|i: int| #[trigger] self.reads(name, i) ==> lists(windows, i)
    }

    /// Whether `after` is this engine after every window of `windows` took
    /// in the quads of `quads` at `timestamp`, one after the other, and no
    /// other window changed.
    pub open spec fn fed_to(
        &self,
        after: &RSPEngine,
        windows: Seq<usize>,
        quads: Seq<Quad>,
        timestamp: int,
    ) -> bool {
        &&& after.r2r == self.r2r
        &&& after.parsed_query == self.parsed_query
        &&& after.windows@.len() == self.windows@.len()
        &&& forall|j: int|
            0 <= j < self.windows@.len() ==> if lists(windows, j) {
                (#[trigger] after.windows@[j])@ == self.windows@[j]@.fed(quads, timestamp)
            } else {
                after.windows@[j] == self.windows@[j]
            }
    }

    /// Whether `gathered` is what the answers to the emissions come to, when
    /// the windows of `windows` take in `quads` one window after the other:
    /// for each window a sequence of outcomes, one for each quad, noted in
    /// order.
    pub open spec fn gathers(
        &self,
        windows: Seq<usize>,
        quads: Seq<Quad>,
        timestamp: int,
        gathered: Gathered,
    ) -> bool {
        exists|batches: Seq<Seq<Outcome>>|
            {
                &&& batches.len() == windows.len()
                &&& forall|a: int|
                    0 <= a < windows.len() ==> answers(
                        self.state(windows[a] as int),
                        quads,
                        timestamp,
                        #[trigger] batches[a],
                    )
                &&& gathered == Gathered::nothing().noted_batches(batches)
            }
    }

    /// Whether none of the windows of `windows` emits while it takes in
    /// `quads`.
    pub open spec fn silent(&self, windows: Seq<usize>, quads: Seq<Quad>, timestamp: int) -> bool {
        forall|a: int|
            0 <= a < windows.len() ==> !self.state(#[trigger] windows[a] as int).fires_within(
                quads,
                timestamp,
            )
    }

    /// What sending `quads` down the stream `name` brings about: every window
    /// that reads the stream, and there is one, has taken them in.
    pub open spec fn sent(
        &self,
        after: &RSPEngine,
        name: Seq<char>,
        quads: Seq<Quad>,
        timestamp: int,
        gathered: Gathered,
    ) -> bool {
        exists|windows: Seq<usize>|
            {
                &&& windows.len() > 0
                &&& self.is_handle(name, windows)
                &&& #[trigger] self.ingested(after, windows, quads, timestamp, gathered)
            }
    }

    /// What `ingest` brings about: the windows fed, the others untouched,
    /// every emission answered and noted, and nothing gathered where no
    /// window emits.
    pub open spec fn ingested(
        &self,
        after: &RSPEngine,
        windows: Seq<usize>,
        quads: Seq<Quad>,
        timestamp: int,
        gathered: Gathered,
    ) -> bool {
        &&& self.fed_to(after, windows, quads, timestamp)
        &&& self.gathers(windows, quads, timestamp, gathered)
        &&& self.silent(windows, quads, timestamp) ==> gathered == Gathered::nothing()
    }

    /// Whether window `i` is the one found under `name`: the last window
    /// declared with that name.
    pub open spec fn names(&self, name: Seq<char>, i: int) -> bool {
        &&& 0 <= i < self.windows@.len()
        &&& self.parsed_query.s2r@[i].window_name@ == name
        &&& forall|j: int|
            i < j < self.windows@.len() ==> (#[trigger] self.parsed_query.s2r@[j]).window_name@
                != name
    }

    /// An engine for the query, with no window and no static data yet.
    pub fn new(parsed_query: ParsedQuery) -> (engine: Self)
        ensures
            engine.wf(),
            engine.windows@.len() == 0,
            engine.parsed_query == parsed_query,
            engine.r2r.query@ == parsed_query.sparql_query@,
            engine.r2r.static_data@.elements == Set::<Quad>::empty(),
    {
        let r2r = R2ROperator::new(parsed_query.sparql_query.clone());
        Self { windows: Vec::new(), r2r, parsed_query }
    }

    /// Makes one window per declaration, each reporting on window close
    /// with a time-driven tick and an unset anchor. A declaration whose
    /// range or step is not positive is refused, and the engine is left as
    /// it was.
    pub fn initialize(&mut self) -> (done: Result<(), String>)
        requires
            old(self).wf(),
        ensures
            final(self).wf(),
            final(self).r2r == old(self).r2r,
            final(self).parsed_query == old(self).parsed_query,
            match done {
                Ok(()) => {
                    &&& forall|i: int|
                        0 <= i < old(self).parsed_query.s2r@.len() ==> valid_definition(
                            #[trigger] old(self).parsed_query.s2r@[i],
                        )
                    &&& final(self).windows@.len() == old(self).parsed_query.s2r@.len()
                    &&& forall|i: int|
                        #![trigger final(self).windows@[i]]
                        0 <= i < final(self).windows@.len() ==> final(self).windows@[i]@
                            == fresh_state(old(self).parsed_query.s2r@[i])
                },
                Err(message) => {
                    &&& exists|i: int|
                        0 <= i < old(self).parsed_query.s2r@.len() && !valid_definition(
                            #[trigger] old(self).parsed_query.s2r@[i],
                        )
                    &&& final(self).windows == old(self).windows
                    &&& message@ == "window range and step must be positive"@
                },
            },
    {
        let mut windows: Vec<CSPARQLWindow> = Vec::new();
        let mut i: usize = 0;
        while i < self.parsed_query.s2r.len()
            invariant
                *self == *old(self),
                old(self).wf(),
                i <= self.parsed_query.s2r@.len(),
                windows@.len() == i,
                forall|j: int|
                    0 <= j < i ==> {
                        &&& valid_definition(#[trigger] self.parsed_query.s2r@[j])
                        &&& window_follows(windows@[j], self.parsed_query.s2r@[j])
                        &&& windows@[j]@ == fresh_state(self.parsed_query.s2r@[j])
                    },
            decreases self.parsed_query.s2r@.len() - i,
        {
            let def = &self.parsed_query.s2r[i];
            if def.width <= 0 || def.slide <= 0 {
                return Err(String::from_str("window range and step must be positive"));
            }
            windows.push(
                CSPARQLWindow::new(
                    def.window_name.clone(),
                    def.width,
                    def.slide,
                    ReportStrategy::OnWindowClose,
                    Tick::TimeDriven,
                    0,
                ),
            );
            i += 1;
        }
        self.windows = windows;
        Ok(())
    }

    /// The handle on the stream `stream_name`, if a window reads it. Where
    /// The handle on the stream `stream_name`, if a window reads it. The
    /// handle feeds every window whose declaration names the stream.
    pub fn get_stream(&self, stream_name: &str) -> (stream: Option<RDFStream>)
        requires
            self.wf(),
        ensures
            match stream {
                Some(handle) => {
                    &&& handle.name@ == stream_name@
                    &&& handle.windows@.len() > 0
                    &&& self.is_handle(stream_name@, handle.windows@)
                },
                None => self.no_stream(stream_name@),
            },
    {
        let wanted = stream_name.to_owned();
        let mut windows: Vec<usize> = Vec::new();
        let mut i: usize = 0;
        while i < self.windows.len()
            invariant
                i <= self.windows@.len() <= self.parsed_query.s2r@.len(),
                wanted@ == stream_name@,
                rising(windows@),
                forall|a: int|
                    0 <= a < windows@.len() ==> (#[trigger] windows@[a]) < i && self.reads(
                        stream_name@,
                        windows@[a] as int,
                    ),
                forall|j: int|
                    0 <= j < i && #[trigger] self.reads(stream_name@, j) ==> lists(windows@, j),
            decreases self.windows@.len() - i,
        {
            if self.parsed_query.s2r[i].stream_name == wanted {
                let ghost before = windows@;
                windows.push(i);
                proof {
                    assert forall|j: int|
                        0 <= j < i + 1 && #[trigger] self.reads(stream_name@, j) implies lists(
                        windows@,
                        j,
                    ) by {
                        if j < i {
                            let a = choose|a: int|
                                0 <= a < before.len() && #[trigger] before[a] == j;
                            assert(windows@[a] == j);
                        } else {
                            assert(windows@[before.len() as int] == i);
                        }
                    }
                }
            }
            i += 1;
        }
        if windows.len() == 0 {
            None
        } else {
            Some(RDFStream::new(wanted, windows))
        }
    }

    /// The window found under `window_name`: the last one declared with
    /// that name.
    pub fn get_window(&self, window_name: &str) -> (window: Option<&CSPARQLWindow>)
        requires
            self.wf(),
        ensures
            match window {
                Some(found) => exists|i: int|
                    self.names(window_name@, i) && *found == #[trigger] self.windows@[i],
                None => forall|j: int|
                    0 <= j < self.windows@.len() ==> (
                    #[trigger] self.parsed_query.s2r@[j]).window_name@ != window_name@,
            },
    {
        let wanted = window_name.to_owned();
        let mut i: usize = self.windows.len();
        while i > 0
            invariant
                i <= self.windows@.len() <= self.parsed_query.s2r@.len(),
                wanted@ == window_name@,
                forall|j: int|
                    i <= j < self.windows@.len() ==> (
                    #[trigger] self.parsed_query.s2r@[j]).window_name@ != window_name@,
            decreases i,
        {
            i -= 1;
            if self.parsed_query.s2r[i].window_name == wanted {
                assert(self.names(window_name@, i as int));
                return Some(&self.windows[i]);
            }
        }
        None
    }

    /// The names of the streams that windows read, each once, in the order
    /// in which they are first declared.
    pub fn get_all_streams(&self) -> (names: Vec<String>)
        requires
            self.wf(),
        ensures
            texts(names@).no_duplicates(),
            forall|name: Seq<char>|
                texts(names@).contains(name) <==> exists|j: int|
                    0 <= j < self.windows@.len() && (
                    #[trigger] self.parsed_query.s2r@[j]).stream_name@ == name,
    {
        let mut names: Vec<String> = Vec::new();
        let mut i: usize = 0;
        while i < self.windows.len()
            invariant
                i <= self.windows@.len() <= self.parsed_query.s2r@.len(),
                texts(names@).no_duplicates(),
                forall|name: Seq<char>|
                    texts(names@).contains(name) <==> exists|j: int|
                        0 <= j < i && (#[trigger] self.parsed_query.s2r@[j]).stream_name@ == name,
            decreases self.windows@.len() - i,
        {
            let name = &self.parsed_query.s2r[i].stream_name;
            let mut known = false;
            let mut k: usize = 0;
            while k < names.len()
                invariant
                    k <= names@.len(),
                    known <==> exists|m: int| 0 <= m < k && #[trigger] texts(names@)[m] == name@,
                decreases names@.len() - k,
            {
                if names[k] == *name {
                    known = true;
                    assert(texts(names@)[k as int] == name@);
                }
                k += 1;
            }
            let ghost before = names@;
            if !known {
                names.push(name.clone());
                proof {
                    assert(texts(names@) =~= texts(before).push(name@));
                    assert(!texts(before).contains(name@));
                    crate::quad_container::lemma_push_unique(texts(before), name@);
                }
            }
            proof {
                assert forall|text: Seq<char>|
                    texts(names@).contains(text) <==> exists|j: int|
                        0 <= j < i + 1 && (#[trigger] self.parsed_query.s2r@[j]).stream_name@
                            == text by {
                    if !known {
                        vstd::seq_lib::lemma_seq_contains_after_push(texts(before), name@, text);
                    }
                    if texts(before).contains(text) {
                        let j = choose|j: int|
                            0 <= j < i && (#[trigger] self.parsed_query.s2r@[j]).stream_name@
                                == text;
                        assert(0 <= j < i + 1);
                    }
                    if text == name@ {
                        assert(self.parsed_query.s2r@[i as int].stream_name@ == text);
                        if known {
                            let m = choose|m: int|
                                0 <= m < before.len() && #[trigger] texts(before)[m] == name@;
                            assert(texts(before).contains(name@));
                        }
                    }
                    if exists|j: int|
                        0 <= j < i + 1 && (#[trigger] self.parsed_query.s2r@[j]).stream_name@
                            == text {
                        let j = choose|j: int|
                            0 <= j < i + 1 && (#[trigger] self.parsed_query.s2r@[j]).stream_name@
                                == text;
                        if j < i {
                            assert(texts(before).contains(text));
                        }
                    }
                }
            }
            i += 1;
        }
        names
    }

    /// Adds a quad that every evaluation will see, whatever the window.
    pub fn add_static_data(&mut self, quad: Quad)
        requires
            old(self).wf(),
        ensures
            final(self).wf(),
            final(self).windows == old(self).windows,
            final(self).parsed_query == old(self).parsed_query,
            final(self).r2r.query == old(self).r2r.query,
            final(self).r2r.static_data@.elements == old(self).r2r.static_data@.elements.insert(
                quad,
            ),
    {
        self.r2r.add_static_data(quad);
    }

    /// The query as it was handed to `new`.
    pub fn parsed_query(&self) -> (query: &ParsedQuery)
        ensures
            *query == self.parsed_query,
    {
        &self.parsed_query
    }

    /// What window `window` emitted, together with what every other window
    /// shows at the stamp of the emitted content.
    pub fn correlate(&self, window: usize, emitted: QuadContainer) -> (merged: QuadContainer)
        requires
            self.wf(),
            window < self.windows@.len(),
            emitted.wf(),
        ensures
            merged.wf(),
            merged@.last_timestamp_changed == emitted@.last_timestamp_changed,
            merged@.elements == emitted@.elements.union(
                siblings_content(
                    states(self.windows@),
                    window as int,
                    emitted@.last_timestamp_changed,
                    self.windows@.len() as int,
                ),
            ),
    {
        let timestamp = emitted.last_timestamp_changed;
        let ghost own = emitted@.elements;
        let ghost all = states(self.windows@);
        let mut merged = emitted;
        let mut j: usize = 0;
        assert(own.union(Set::<Quad>::empty()) =~= own);
        while j < self.windows.len()
            invariant
                self.wf(),
                j <= self.windows@.len(),
                all == states(self.windows@),
                merged.wf(),
                merged.last_timestamp_changed == timestamp,
                merged@.elements == own.union(
                    siblings_content(all, window as int, timestamp as int, j as int),
                ),
            decreases self.windows@.len() - j,
        {
            let ghost before = siblings_content(all, window as int, timestamp as int, j as int);
            if j != window {
                let ghost state = self.windows@[j as int]@;
                proof {
                    assert(all[j as int] == state);
                    self.windows@[j as int].lemma_view_wf();
                }
                match self.windows[j].get_content(timestamp) {
                    Some(content) => {
                        proof {
                            let k = choose|k: Interval|
                                #[trigger] state.is_content_window(k, timestamp as int)
                                    && state.active[k] == content@;
                            lemma_content_window_unique(state, k, timestamp as int);
                        }
                        merge_into(&mut merged, content, timestamp);
                        assert(own.union(before).union(content@.elements) =~= own.union(
                            before.union(content@.elements),
                        ));
                    },
                    None => {
                        proof {
                            assert(state.content_at(timestamp as int) == Set::<Quad>::empty());
                            assert(before.union(Set::<Quad>::empty()) =~= before);
                        }
                    },
                }
            }
            j += 1;
        }
        merged
    }

    /// The solutions of the query over what window `window` emitted and
    /// what its siblings show, each spanning from the stamp of the emitted
    /// content to that stamp plus the width of the window. Whether there
    /// are solutions is for the parser and the evaluator to say; an error is
    /// one of theirs.
    pub fn answer(&self, window: usize, emitted: QuadContainer) -> (answered: Result<
        Vec<BindingWithTimestamp>,
        R2RError,
    >)
        requires
            self.wf(),
            window < self.windows@.len(),
            emitted.wf(),
            emitted.last_timestamp_changed + self.windows@[window as int].width <= i64::MAX,
        ensures
            answered matches Ok(results) ==> forall|i: int|
                0 <= i < results@.len() ==> {
                    &&& (#[trigger] results@[i]).timestamp_from == emitted.last_timestamp_changed
                    &&& results@[i].timestamp_to == emitted.last_timestamp_changed
                        + self.windows@[window as int].width
                },
            answered matches Err(error) ==> error is Syntax || error is Evaluation,
    {
        let timestamp = emitted.last_timestamp_changed;
        let width = self.windows[window].width;
        let merged = self.correlate(window, emitted);
        match self.r2r.execute_select(&merged) {
            Ok(lines) => Ok(stamp_bindings(lines, timestamp, width)),
            Err(error) => Err(error),
        }
    }


    /// Hands one quad to window `window`. Where the window emits, the
    /// emitted content is answered.
    pub fn feed(&mut self, window: usize, quad: Quad, timestamp: i64) -> (outcome: Outcome)
        requires
            old(self).wf(),
            window < old(self).windows@.len(),
            timestamp + old(self).windows@[window as int].width <= i64::MAX,
        ensures
            final(self).wf(),
            old(self).changed_only(final(self), window as int),
            final(self).state(window as int) == old(self).state(window as int).added(
                quad,
                timestamp as int,
            ),
            answers_one(old(self).state(window as int), quad, timestamp as int, outcome),
    {
        let ghost before = self.windows@[window as int];
        let ghost def = self.parsed_query.s2r@[window as int];
        proof {
            before.lemma_view_wf();
            lemma_fits(before@, timestamp as int);
        }
        let emitted = self.windows[window].add(quad, timestamp);
        proof {
            let after = self.windows@[window as int];
            assert(after@.name == before@.name);
            assert(window_follows(after, def));
            assert forall|i: int| 0 <= i < self.windows@.len() implies window_follows(
                #[trigger] self.windows@[i],
                self.parsed_query.s2r@[i],
            ) by {
                if i != window {
                    assert(self.windows@[i] == old(self).windows@[i]);
                }
            }
        }
        match emitted {
            Some(entry) => {
                proof {
                    lemma_emitted_window_closed(
                        before@,
                        quad,
                        timestamp as int,
                        entry.0@,
                        entry.1@,
                    );
                }
                let ghost k = entry.0@;
                let ghost content = entry.1@;
                let answered = self.answer(window, entry.1);
                proof {
                    assert(before@.hands_out(quad, timestamp as int, Some((k, content))));
                }
                Some(answered)
            },
            None => None,
        }
    }

    /// Hands every quad of `container` to window `window`, at the stamp of
    /// the container, and notes each outcome.
    fn feed_all(
        &mut self,
        window: usize,
        container: &QuadContainer,
        processed: &mut Processed,
    ) -> (noted: Ghost<Seq<Outcome>>)
        requires
            old(self).wf(),
            window < old(self).windows@.len(),
            container.last_timestamp_changed + old(self).windows@[window as int].width
                <= i64::MAX,
        ensures
            final(self).wf(),
            old(self).changed_only(final(self), window as int),
            final(self).state(window as int) == old(self).state(window as int).fed(
                container.elements@,
                container.last_timestamp_changed as int,
            ),
            final(self).windows@[window as int].width == old(self).windows@[window as int].width,
            answers(
                old(self).state(window as int),
                container.elements@,
                container.last_timestamp_changed as int,
                noted@,
            ),
            final(processed)@ == old(processed)@.noted_all(noted@),
    {
        let timestamp = container.last_timestamp_changed;
        let ghost start = self.windows@[window as int]@;
        let ghost width = self.windows@[window as int].width;
        let ghost quads = container.elements@;
        let ghost mut noted: Seq<Outcome> = Seq::empty();
        let mut i: usize = 0;
        assert(quads.take(0) =~= Seq::<Quad>::empty());
        while i < container.elements.len()
            invariant
                i <= quads.len(),
                quads == container.elements@,
                self.wf(),
                old(self).changed_only(self, window as int),
                window < self.windows@.len(),
                timestamp == container.last_timestamp_changed,
                width == self.windows@[window as int].width,
                width == old(self).windows@[window as int].width,
                timestamp + width <= i64::MAX,
                start == old(self).windows@[window as int]@,
                self.windows@[window as int]@ == start.fed(quads.take(i as int), timestamp as int),
                noted.len() == i,
                forall|j: int|
                    0 <= j < i ==> answers_one(
                        start.fed(quads.take(j), timestamp as int),
                        quads[j],
                        timestamp as int,
                        #[trigger] noted[j],
                    ),
                processed@ == old(processed)@.noted_all(noted),
            decreases quads.len() - i,
        {
            proof {
                let next = quads.take(i + 1);
                assert(next.drop_last() =~= quads.take(i as int));
                assert(next.last() == quads[i as int]);
            }
            let outcome = self.feed(window, container.elements[i].clone(), timestamp);
            proof {
                let grown = noted.push(outcome);
                assert(grown.drop_last() =~= noted);
                assert(grown.last() == outcome);
                noted = grown;
            }
            processed.note(outcome);
            i += 1;
        }
        assert(quads.take(i as int) =~= quads);
        Ghost(noted)
    }

    /// Sends a batch down a stream: every window that the stream feeds takes
    /// in every quad of `container`, at the stamp of the container, one
    /// window after the other, and what the emissions gave is gathered.
    pub fn ingest(&mut self, stream: &RDFStream, container: &QuadContainer) -> (processed: Processed)
        requires
            stream.reaches(old(self), container.last_timestamp_changed),
        ensures
            final(self).wf(),
            old(self).ingested(
                final(self),
                stream.windows@,
                container.elements@,
                container.last_timestamp_changed as int,
                processed@,
            ),
    {
        let ghost quads = container.elements@;
        let ghost timestamp = container.last_timestamp_changed as int;
        let ghost fed = stream.windows@;
        let ghost mut batches: Seq<Seq<Outcome>> = Seq::empty();
        let mut processed = Processed::new();
        let mut a: usize = 0;
        assert(fed.take(0) =~= Seq::<usize>::empty());
        while a < stream.windows.len()
            invariant
                a <= fed.len(),
                fed == stream.windows@,
                quads == container.elements@,
                timestamp == container.last_timestamp_changed as int,
                stream.reaches(old(self), container.last_timestamp_changed),
                self.wf(),
                old(self).fed_to(self, fed.take(a as int), quads, timestamp),
                batches.len() == a,
                forall|b: int|
                    0 <= b < a ==> answers(
                        old(self).state(fed[b] as int),
                        quads,
                        timestamp,
                        #[trigger] batches[b],
                    ),
                processed@ == Gathered::nothing().noted_batches(batches),
                old(self).silent(fed.take(a as int), quads, timestamp) ==> processed@
                    == Gathered::nothing(),
            decreases fed.len() - a,
        {
            let window = stream.windows[a];
            let ghost before = *self;
            let ghost gathered = processed@;
            proof {
                assert(!lists(fed.take(a as int), window as int)) by {
                    if lists(fed.take(a as int), window as int) {
                        let b = choose|b: int|
                            0 <= b < a && #[trigger] fed.take(a as int)[b] == window;
                        assert(fed[b] < fed[a as int]);
                    }
                }
                assert(self.windows@[window as int] == old(self).windows@[window as int]);
            }
            let noted = self.feed_all(window, container, &mut processed);
            proof {
                let grown = batches.push(noted@);
                assert(grown.drop_last() =~= batches);
                assert(grown.last() == noted@);
                batches = grown;
                let next = fed.take(a + 1);
                assert(next[a as int] == window);
                assert forall|j: int| 0 <= j < old(self).windows@.len() implies if lists(next, j) {
                    (#[trigger] self.windows@[j])@ == old(self).windows@[j]@.fed(quads, timestamp)
                } else {
                    self.windows@[j] == old(self).windows@[j]
                } by {
                    if j != window {
                        assert(self.windows@[j] == before.windows@[j]);
                        if lists(next, j) {
                            let b = choose|b: int| 0 <= b < a + 1 && #[trigger] next[b] == j;
                            assert(fed.take(a as int)[b] == j);
                            assert(lists(fed.take(a as int), j));
                        }
                        if lists(fed.take(a as int), j) {
                            let b = choose|b: int|
                                0 <= b < a && #[trigger] fed.take(a as int)[b] == j;
                            assert(next[b] == j);
                        }
                    } else {
                        assert(lists(next, j));
                    }
                }
                if old(self).silent(next, quads, timestamp) {
                    assert forall|b: int| 0 <= b < a implies !old(self).state(
                        #[trigger] fed.take(a as int)[b] as int,
                    ).fires_within(quads, timestamp) by {
                        assert(next[b] == fed.take(a as int)[b]);
                    }
                    lemma_silent_batch(
                        old(self).state(window as int),
                        quads,
                        timestamp,
                        noted@,
                        gathered,
                    );
                }
            }
            a += 1;
        }
        proof {
            assert(fed.take(a as int) =~= fed);
            assert(old(self).gathers(fed, quads, timestamp, processed@));
        }
        processed
    }

    /// Pushes one synthetic quad stamped `final_timestamp` through the
    /// stream `stream_uri`, so that windows which no later event would
    /// close are closed and answered. It fails where no window reads the
    /// stream, or the synthetic quad cannot be made; then nothing changes.
    pub fn close_stream(&mut self, stream_uri: &str, final_timestamp: i64) -> (closed: Result<
        Processed,
        String,
    >)
        requires
            old(self).wf(),
            forall|i: int| #[trigger]
                old(self).reads(stream_uri@, i) ==> final_timestamp + old(self).windows@[i].width
                    <= i64::MAX,
        ensures
            final(self).wf(),
            closed is Err <==> old(self).no_stream(stream_uri@) || !(iri_parses(
                "urn:rsp:sentinel"@,
            ) && iri_parses("urn:rsp:type"@)),
            match closed {
                Ok(processed) => old(self).sent(
                    final(self),
                    stream_uri@,
                    seq![literal_quad("urn:rsp:sentinel"@, "urn:rsp:type"@, "end"@)],
                    final_timestamp as int,
                    processed@,
                ),
                Err(message) => {
                    &&& *final(self) == *old(self)
                    &&& old(self).no_stream(stream_uri@) ==> message@ == "Stream "@ + stream_uri@
                        + " not found"@
                    &&& !old(self).no_stream(stream_uri@) ==> exists|detail: Seq<char>|
                        message@ == "Failed to create sentinel node: "@ + detail
                },
            },
    {
        let stream = match self.get_stream(stream_uri) {
            Some(stream) => stream,
            None => {
                return Err(String::from_str("Stream ").concat(stream_uri).concat(" not found"));
            },
        };
        proof {
            assert(self.reads(stream_uri@, stream.windows@[0] as int));
        }
        let sentinel = match make_literal_quad("urn:rsp:sentinel", "urn:rsp:type", "end") {
            Ok(quad) => quad,
            Err(error) => {
                let detail = error.to_string();
                return Err(
                    String::from_str("Failed to create sentinel node: ").concat(detail.as_str()),
                );
            },
        };
        let mut quads: Vec<Quad> = Vec::new();
        quads.push(sentinel);
        let ghost given = quads@;
        let container = QuadContainer::new(quads, final_timestamp);
        proof {
            assert(container.elements@ =~= seq![sentinel]) by {
                assert(given =~= Seq::<Quad>::empty().push(sentinel));
                Seq::<Quad>::empty().lemma_push_to_set_commute(sentinel);
                assert(Seq::<Quad>::empty().to_set() =~= Set::<Quad>::empty());
                assert(container@.elements =~= set![sentinel]);
                container.elements@.unique_seq_to_set();
                assert(container.elements@.len() == 1);
                assert(container.elements@.contains(container.elements@[0]));
                assert(container@.elements.contains(container.elements@[0]));
            }
        }
        let processed = self.ingest(&stream, &container);
        proof {
            assert(stream.windows@.len() > 0);
            assert(old(self).is_handle(stream_uri@, stream.windows@));
            assert(old(self).ingested(
                self,
                stream.windows@,
                seq![literal_quad("urn:rsp:sentinel"@, "urn:rsp:type"@, "end"@)],
                final_timestamp as int,
                processed@,
            ));
        }
        Ok(processed)
    }
}

impl RDFStream {
    /// Whether the handle points at windows of `engine`, each once, and the
    /// windows that `timestamp` opens there close at times that an `i64`
    /// can hold.
    pub open spec fn reaches(&self, engine: &RSPEngine, timestamp: i64) -> bool {
        &&& engine.wf()
        &&& rising(self.windows@)
        &&& forall|a: int|
            0 <= a < self.windows@.len() ==> (#[trigger] self.windows@[a])
                < engine.windows@.len() && timestamp + engine.windows@[self.windows@[a] as int].width
                <= i64::MAX
    }

    /// Sends a container down the stream: every quad of it goes to every
    /// window that the stream feeds, at the stamp of the container.
    pub fn add(&self, engine: &mut RSPEngine, container: QuadContainer) -> (processed: Processed)
        requires
            self.reaches(old(engine), container.last_timestamp_changed),
        ensures
            final(engine).wf(),
            old(engine).ingested(
                final(engine),
                self.windows@,
                container.elements@,
                container.last_timestamp_changed as int,
                processed@,
            ),
    {
        engine.ingest(self, &container)
    }

    /// Sends quads down the stream, each once, stamped `timestamp`.
    pub fn add_quads(&self, engine: &mut RSPEngine, quads: Vec<Quad>, timestamp: i64) -> (processed:
        Processed)
        requires
            self.reaches(old(engine), timestamp),
        ensures
            final(engine).wf(),
            exists|batch: Seq<Quad>|
                {
                    &&& batch.no_duplicates()
                    &&& batch.to_set() == quads@.to_set()
                    &&& #[trigger] old(engine).ingested(
                        final(engine),
                        self.windows@,
                        batch,
                        timestamp as int,
                        processed@,
                    )
                },
    {
        let container = QuadContainer::new(quads, timestamp);
        let processed = engine.ingest(self, &container);
        proof {
            assert(old(engine).ingested(
                engine,
                self.windows@,
                container.elements@,
                timestamp as int,
                processed@,
            ));
        }
        processed
    }
}

} // verus!
