//! The content of one window: a set of quads and the timestamp of the last
//! change made to it.

use crate::quad::quads_equal;
use oxigraph::model::Quad;
use vstd::prelude::*;

verus! {

/// What a container stands for: the quads it holds, as a set, and the
/// timestamp of the operation that last changed it.
pub struct ContainerView {
    pub elements: Set<Quad>,
    pub last_timestamp_changed: int,
}

/// One change to a container.
pub enum Change {
    Add(Quad),
    Remove(Quad),
    Clear,
}

impl Change {
    /// Whether this change takes `quad` out of a container that holds it.
    pub open spec fn undoes(self, quad: Quad) -> bool {
        self == Change::Remove(quad) || self == Change::Clear
    }
}

impl ContainerView {
    /// The container after `quad` was added at `ts`.
    pub open spec fn with(self, quad: Quad, ts: int) -> ContainerView {
        ContainerView { elements: self.elements.insert(quad), last_timestamp_changed: ts }
    }

    /// The container after `quad` was removed at `ts`.
    pub open spec fn without(self, quad: Quad, ts: int) -> ContainerView {
        ContainerView { elements: self.elements.remove(quad), last_timestamp_changed: ts }
    }

    /// The container after it was cleared at `ts`.
    pub open spec fn cleared(self, ts: int) -> ContainerView {
        ContainerView { elements: Set::empty(), last_timestamp_changed: ts }
    }

    /// The container after one change made at `ts`.
    pub open spec fn changed(self, change: Change, ts: int) -> ContainerView {
        match change {
            Change::Add(quad) => self.with(quad, ts),
            Change::Remove(quad) => self.without(quad, ts),
            Change::Clear => self.cleared(ts),
        }
    }

    /// The container after a sequence of changes, each with its timestamp.
    pub open spec fn after(self, changes: Seq<(Change, int)>) -> ContainerView
        decreases changes.len(),
    {
        if changes.len() == 0 {
            self
        } else {
            self.after(changes.drop_last()).changed(changes.last().0, changes.last().1)
        }
    }
}

/// Whether no change from position `from` on takes `quad` out.
pub open spec fn survives(changes: Seq<(Change, int)>, from: int, quad: Quad) -> bool {
    forall|j: int| from <= j < changes.len() ==> !(#[trigger] changes[j]).0.undoes(quad)
}

/// Whether change `i` adds `quad` and no later change takes it out.
pub open spec fn added_at(changes: Seq<(Change, int)>, i: int, quad: Quad) -> bool {
    &&& 0 <= i < changes.len()
    &&& changes[i].0 == Change::Add(quad)
    &&& survives(changes, i + 1, quad)
}

/// After any sequence of changes a quad is held exactly when it was added
/// and neither removed nor cleared away since, or was held at the start and
/// never removed nor cleared away. The stamp is that of the last change.
pub proof fn lemma_found_iff_not_removed(
    start: ContainerView,
    changes: Seq<(Change, int)>,
    quad: Quad,
)
    ensures
        start.after(changes).elements.contains(quad) <==> ({
            ||| exists|i: int| #[trigger] added_at(changes, i, quad)
            ||| start.elements.contains(quad) && survives(changes, 0, quad)
        }),
        changes.len() > 0 ==> start.after(changes).last_timestamp_changed == changes.last().1,
    decreases changes.len(),
{
    if changes.len() > 0 {
        let earlier = changes.drop_last();
        let n = earlier.len() as int;
        lemma_found_iff_not_removed(start, earlier, quad);
        assert(forall|j: int| 0 <= j < n ==> earlier[j] == changes[j]);
        let last = changes[n].0;
        if last.undoes(quad) {
            assert forall|i: int| !#[trigger] added_at(changes, i, quad) by {
                if 0 <= i < n {
                    assert(changes[n].0.undoes(quad));
                }
            }
        } else if last == Change::Add(quad) {
            assert(added_at(changes, n, quad));
        } else {
            assert forall|from: int| 0 <= from implies (survives(earlier, from, quad) <==> survives(
                changes,
                from,
                quad,
            )) by {
                if survives(earlier, from, quad) {
                    assert forall|j: int| from <= j < changes.len() implies !(
                    #[trigger] changes[j]).0.undoes(quad) by {
                        if j < n {
                            assert(earlier[j] == changes[j]);
                        }
                    }
                }
                if survives(changes, from, quad) {
                    assert forall|j: int| from <= j < earlier.len() implies !(
                    #[trigger] earlier[j]).0.undoes(quad) by {
                        assert(earlier[j] == changes[j]);
                    }
                }
            }
            assert forall|i: int| added_at(earlier, i, quad) <==> added_at(changes, i, quad) by {
                if 0 <= i < n {
                    assert(changes[i] == earlier[i]);
                }
            }
        }
    }
}

/// A deduplicated collection of quads. The quads are kept in a vector in
/// which no quad occurs twice; the order is the order of first insertion.
#[derive(Debug, Clone)]
pub struct QuadContainer {
    pub elements: Vec<Quad>,
    pub last_timestamp_changed: i64,
}

impl View for QuadContainer {
    type V = ContainerView;

    open spec fn view(&self) -> ContainerView {
        ContainerView {
            elements: self.elements@.to_set(),
            last_timestamp_changed: self.last_timestamp_changed as int,
        }
    }
}

/// Removing the one occurrence of a quad from a duplicate-free sequence
/// leaves a duplicate-free sequence that holds the other quads.
pub proof fn lemma_remove_unique<A>(s: Seq<A>, i: int)
    requires
        s.no_duplicates(),
        0 <= i < s.len(),
    ensures
        s.remove(i).no_duplicates(),
        s.remove(i).to_set() == s.to_set().remove(s[i]),
{
    let r = s.remove(i);
    assert forall|a: int, b: int| 0 <= a < r.len() && 0 <= b < r.len() && a != b implies r[a]
        != r[b] by {
        let a0 = if a < i { a } else { a + 1 };
        let b0 = if b < i { b } else { b + 1 };
        assert(r[a] == s[a0] && r[b] == s[b0]);
    }
    assert forall|x: A| r.to_set().contains(x) <==> s.to_set().remove(s[i]).contains(x) by {
        if r.contains(x) {
            let k = choose|k: int| 0 <= k < r.len() && r[k] == x;
            let k0 = if k < i { k } else { k + 1 };
            assert(s[k0] == x);
        }
        if s.contains(x) && x != s[i] {
            let k = choose|k: int| 0 <= k < s.len() && s[k] == x;
            let k1 = if k < i { k } else { k - 1 };
            assert(r[k1] == x);
        }
    }
    assert(r.to_set() =~= s.to_set().remove(s[i]));
}

/// Appending a quad that a duplicate-free sequence does not hold keeps it
/// duplicate-free and adds the quad to its set.
pub proof fn lemma_push_unique<A>(s: Seq<A>, x: A)
    requires
        s.no_duplicates(),
        !s.contains(x),
    ensures
        s.push(x).no_duplicates(),
        s.push(x).to_set() == s.to_set().insert(x),
{
    let p = s.push(x);
    assert forall|a: int, b: int| 0 <= a < p.len() && 0 <= b < p.len() && a != b implies p[a]
        != p[b] by {
        if a < s.len() {
            assert(s.contains(p[a]));
        }
        if b < s.len() {
            assert(s.contains(p[b]));
        }
    }
    s.lemma_push_to_set_commute(x);
}

impl QuadContainer {
    /// No quad occurs twice.
    pub open spec fn wf(&self) -> bool {
        self.elements@.no_duplicates()
    }

    /// Where `quad` stands among the elements, if it does.
    fn position(&self, quad: &Quad) -> (found: Option<usize>)
        ensures
            match found {
                Some(i) => i < self.elements@.len() && self.elements@[i as int] == *quad,
                None => !self.elements@.contains(*quad),
            },
    {
        let mut i: usize = 0;
        while i < self.elements.len()
            invariant
                i <= self.elements@.len(),
                forall|k: int| 0 <= k < i ==> self.elements@[k] != *quad,
            decreases self.elements@.len() - i,
        {
            if quads_equal(&self.elements[i], quad) {
                return Some(i);
            }
            i += 1;
        }
        None
    }

    /// A container of the given quads, each kept once, stamped `ts`.
    pub fn new(elements: Vec<Quad>, ts: i64) -> (container: Self)
        ensures
            container.wf(),
            container@.elements == elements@.to_set(),
            container@.last_timestamp_changed == ts,
    {
        let mut container = QuadContainer { elements: Vec::new(), last_timestamp_changed: ts };
        let mut i: usize = 0;
        assert(elements@.take(0) =~= Seq::<Quad>::empty());
        while i < elements.len()
            invariant
                i <= elements@.len(),
                container.wf(),
                container.last_timestamp_changed == ts,
                container@.elements == elements@.take(i as int).to_set(),
            decreases elements@.len() - i,
        {
            proof {
                assert(elements@.take(i + 1) =~= elements@.take(i as int).push(elements@[i as int]));
                elements@.take(i as int).lemma_push_to_set_commute(elements@[i as int]);
            }
            container.add(elements[i].clone(), ts);
            i += 1;
        }
        assert(elements@.take(i as int) =~= elements@);
        container
    }

    /// The number of distinct quads held.
    pub fn len(&self) -> (n: usize)
        requires
            self.wf(),
        ensures
            n == self@.elements.len(),
    {
        proof {
            self.elements@.unique_seq_to_set();
        }
        self.elements.len()
    }

    /// Inserts `quad` unless it is already there, and stamps the container.
    pub fn add(&mut self, quad: Quad, ts: i64)
        requires
            old(self).wf(),
        ensures
            final(self).wf(),
            final(self)@ == old(self)@.with(quad, ts as int),
    {
        match self.position(&quad) {
            Some(i) => {
                assert(self@.elements =~= self@.elements.insert(quad));
            },
            None => {
                proof {
                    lemma_push_unique(self.elements@, quad);
                }
                self.elements.push(quad);
            },
        }
        self.last_timestamp_changed = ts;
    }

    /// Whether no quad is held.
    pub fn is_empty(&self) -> (empty: bool)
        ensures
            empty == self@.elements.is_empty(),
            empty == (self@.elements == Set::<Quad>::empty()),
    {
        let empty = self.elements.len() == 0;
        proof {
            if empty {
                assert(self@.elements =~= Set::<Quad>::empty());
            } else {
                assert(self.elements@.contains(self.elements@[0]));
                assert(self@.elements.contains(self.elements@[0]));
            }
        }
        empty
    }

    /// Takes `quad` out if it is there, and stamps the container.
    pub fn remove(&mut self, quad: &Quad, ts: i64)
        requires
            old(self).wf(),
        ensures
            final(self).wf(),
            final(self)@ == old(self)@.without(*quad, ts as int),
    {
        match self.position(quad) {
            Some(i) => {
                proof {
                    lemma_remove_unique(self.elements@, i as int);
                }
                self.elements.remove(i);
            },
            None => {
                assert(self@.elements =~= self@.elements.remove(*quad));
            },
        }
        self.last_timestamp_changed = ts;
    }

    /// Whether `quad` is held.
    pub fn contains(&self, quad: &Quad) -> (held: bool)
        ensures
            held == self@.elements.contains(*quad),
    {
        self.position(quad).is_some()
    }

    /// Drops every quad, and stamps the container.
    pub fn clear(&mut self, ts: i64)
        ensures
            final(self).wf(),
            final(self)@ == old(self)@.cleared(ts as int),
    {
        self.elements.clear();
        self.last_timestamp_changed = ts;
        assert(self@.elements =~= Set::<Quad>::empty());
    }
}

} // verus!
