//! The relation-to-relation operator: one SPARQL query, evaluated over the
//! content of a window together with static background quads.

use crate::engine::sparql::{
    in_memory, lemma_stored_forms, lemma_stored_forms_union, parse_query, run_query,
    solution_lines, sort_results, store_insert, store_quads, stored_forms, Answer,
};
use crate::quad_container::QuadContainer;
use oxigraph::model::Quad;
use oxigraph::sparql::{QueryEvaluationError, QueryResults, SparqlSyntaxError};
use oxigraph::store::{StorageError, Store};
use vstd::prelude::*;

verus! {

/// Why an evaluation gave no results: the store refused a quad, the query
/// text did not parse, or the evaluator failed.
#[derive(Debug)]
pub enum R2RError {
    Storage(StorageError),
    Syntax(SparqlSyntaxError),
    Evaluation(QueryEvaluationError),
}

/// A query and the static quads that every evaluation of it sees.
#[derive(Clone)]
pub struct R2ROperator {
    pub query: String,
    pub static_data: QuadContainer,
}

/// Inserts every quad of `quads` into `store`, in order, and stops at the
/// first quad that the store refuses. An in-memory store refuses none.
fn insert_all(store: &mut Store, quads: &QuadContainer) -> (done: Result<(), StorageError>)
    ensures
        in_memory(*old(store)) || quads.elements@.len() == 0 ==> done is Ok,
        in_memory(*final(store)) == in_memory(*old(store)),
        done is Ok ==> store_quads(*final(store)) == store_quads(*old(store)).union(
            stored_forms(quads@.elements),
        ),
{
    let mut i: usize = 0;
    proof {
        assert(quads.elements@.take(0).to_set() =~= Set::<Quad>::empty());
        lemma_stored_forms(Set::<Quad>::empty(), quads.elements@[0]);
        assert(store_quads(*store).union(Set::<Quad>::empty()) =~= store_quads(*store));
    }
    while i < quads.elements.len()
        invariant
            i <= quads.elements@.len(),
            in_memory(*store) == in_memory(*old(store)),
            store_quads(*store) == store_quads(*old(store)).union(
                stored_forms(quads.elements@.take(i as int).to_set()),
            ),
        decreases quads.elements@.len() - i,
    {
        let ghost held = store_quads(*store);
        match store_insert(store, &quads.elements[i]) {
            Ok(()) => {},
            Err(error) => {
                return Err(error);
            },
        }
        proof {
            let next = quads.elements@[i as int];
            let before = quads.elements@.take(i as int);
            assert(quads.elements@.take(i + 1) =~= before.push(next));
            before.lemma_push_to_set_commute(next);
            lemma_stored_forms(before.to_set(), next);
            assert(held.insert(crate::engine::sparql::stored_form(next)) =~= store_quads(
                *old(store),
            ).union(stored_forms(quads.elements@.take(i + 1).to_set())));
        }
        i += 1;
    }
    assert(quads.elements@.take(i as int) =~= quads.elements@);
    Ok(())
}

/// The lines of an answer: one for each solution, and none for a boolean
/// or a graph. An error is the evaluator's, met while the solutions were
/// read.
pub fn answer_lines(answer: Answer) -> (lines: Result<Vec<String>, R2RError>)
    ensures
        !(answer is Solutions) ==> lines is Ok,
        !(answer is Solutions) ==> (lines matches Ok(written) ==> written@.len() == 0),
        lines matches Err(error) ==> error is Evaluation,
{
    match answer {
        Answer::Solutions(solutions) => match solution_lines(solutions) {
            Ok(lines) => Ok(lines),
            Err(error) => Err(R2RError::Evaluation(error)),
        },
        Answer::Boolean(_) => Ok(Vec::new()),
        Answer::Graph(_) => Ok(Vec::new()),
    }
}

impl R2ROperator {
    /// The static quads are kept once each.
    pub open spec fn wf(&self) -> bool {
        self.static_data.wf()
    }

    /// An operator for `query` with no static data.
    pub fn new(query: String) -> (operator: Self)
        ensures
            operator.wf(),
            operator.query@ == query@,
            operator.static_data@.elements == Set::<Quad>::empty(),
    {
        let static_data = QuadContainer::new(Vec::new(), 0);
        assert(Seq::<Quad>::empty().to_set() =~= Set::<Quad>::empty());
        Self { query, static_data }
    }

    /// Adds a quad that every evaluation will see.
    pub fn add_static_data(&mut self, quad: Quad)
        requires
            old(self).wf(),
        ensures
            final(self).wf(),
            final(self).query == old(self).query,
            final(self).static_data@.elements == old(self).static_data@.elements.insert(quad),
    {
        self.static_data.add(quad, 0);
    }

    /// A fresh in-memory store that holds the quads of `container` and the
    /// static quads, each in its stored form, and no others: what the query
    /// is evaluated over. Such a store refuses no quad, so the result is
    /// always `Ok`.
    pub fn load(&self, container: &QuadContainer) -> (loaded: Result<Store, StorageError>)
        ensures
            loaded is Ok,
            loaded matches Ok(store) ==> in_memory(store) && store_quads(store) == stored_forms(
                container@.elements.union(self.static_data@.elements),
            ),
    {
        let mut store = match Store::new() {
            Ok(store) => store,
            Err(error) => {
                return Err(error);
            },
        };
        match insert_all(&mut store, container) {
            Ok(()) => {},
            Err(error) => {
                return Err(error);
            },
        }
        match insert_all(&mut store, &self.static_data) {
            Ok(()) => {},
            Err(error) => {
                return Err(error);
            },
        }
        proof {
            lemma_stored_forms_union(container@.elements, self.static_data@.elements);
            assert(Set::<Quad>::empty().union(stored_forms(container@.elements)) =~= stored_forms(
                container@.elements,
            ));
        }
        Ok(store)
    }

    /// Evaluates the query over the quads of `container` and the static
    /// quads. What comes back is the evaluator's. An error is the parser's
    /// or the evaluator's, wrapped as it came: loading the store cannot fail.
    pub fn execute(&self, container: &QuadContainer) -> (results: Result<
        QueryResults<'static>,
        R2RError,
    >)
        ensures
            results matches Err(error) ==> error is Syntax || error is Evaluation,
    {
        let store = match self.load(container) {
            Ok(store) => store,
            Err(error) => {
                return Err(R2RError::Storage(error));
            },
        };
        let prepared = match parse_query(self.query.as_str()) {
            Ok(prepared) => prepared,
            Err(error) => {
                return Err(R2RError::Syntax(error));
            },
        };
        match run_query(prepared, &store) {
            Ok(results) => Ok(results),
            Err(error) => Err(R2RError::Evaluation(error)),
        }
    }

    /// Evaluates the query and writes each solution as one line of text. An
    /// error is the parser's or the evaluator's, be it raised when the query
    /// starts or while its solutions are read.
    pub fn execute_select(&self, container: &QuadContainer) -> (lines: Result<
        Vec<String>,
        R2RError,
    >)
        ensures
            lines matches Err(error) ==> error is Syntax || error is Evaluation,
    {
        let results = match self.execute(container) {
            Ok(results) => results,
            Err(error) => {
                return Err(error);
            },
        };
        answer_lines(sort_results(results))
    }

    /// The query text.
    pub fn query(&self) -> (text: &str)
        ensures
            text@ == self.query@,
    {
        self.query.as_str()
    }

    /// The number of distinct static quads.
    pub fn static_data_size(&self) -> (size: usize)
        requires
            self.wf(),
        ensures
            size == self.static_data@.elements.len(),
    {
        self.static_data.len()
    }
}

} // verus!
