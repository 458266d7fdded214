//! The parts of `oxigraph` that answer a query: an in-memory store that is
//! filled quad by quad, and the SPARQL evaluator that reads it.

use oxigraph::model::Quad;
use oxigraph::sparql::{
    PreparedSparqlQuery, QueryEvaluationError, QueryResults, QuerySolutionIter, QueryTripleIter,
    SparqlEvaluator, SparqlSyntaxError,
};
use oxigraph::store::{StorageError, Store};
use vstd::prelude::*;

verus! {

/// `oxigraph::store::Store`, the collection that the evaluator reads.
#[verifier::external_type_specification]
#[verifier::external_body]
pub struct ExStore(oxigraph::store::Store);

/// `oxigraph::store::StorageError`, carried through.
#[verifier::external_type_specification]
#[verifier::external_body]
pub struct ExStorageError(oxigraph::store::StorageError);

/// `oxigraph::sparql::SparqlSyntaxError`, carried through.
#[verifier::external_type_specification]
#[verifier::external_body]
pub struct ExSparqlSyntaxError(oxigraph::sparql::SparqlSyntaxError);

/// `oxigraph::sparql::QueryEvaluationError`, carried through.
#[verifier::external_type_specification]
#[verifier::external_body]
pub struct ExQueryEvaluationError(oxigraph::sparql::QueryEvaluationError);

/// `oxigraph::sparql::PreparedSparqlQuery`, a parsed query that has not run
/// yet.
#[verifier::external_type_specification]
#[verifier::external_body]
pub struct ExPreparedSparqlQuery(oxigraph::sparql::PreparedSparqlQuery);

/// `oxigraph::sparql::QueryResults`, what a query gave: solutions, a
/// boolean or a graph, read lazily.
#[verifier::external_type_specification]
#[verifier::external_body]
pub struct ExQueryResults<'a>(oxigraph::sparql::QueryResults<'a>);

/// The quads that a store holds: those that reading it through gives.
pub uninterp spec fn store_quads(store: Store) -> Set<Quad>;

/// The quad that a store gives back for `quad`. A store keeps typed literals
/// of the number, boolean and date kinds by their value, so that
/// `"01"^^xsd:integer` comes back as `"1"^^xsd:integer`; other terms come
/// back as they went in.
pub uninterp spec fn stored_form(quad: Quad) -> Quad;

/// The stored forms of a set of quads.
pub open spec fn stored_forms(quads: Set<Quad>) -> Set<Quad> {
    Set::new(|kept: Quad| exists|quad: Quad| quads.contains(quad) && stored_form(quad) == kept)
}

/// The stored forms of no quads are none, and those of one quad more are
/// the stored form of that quad more.
pub proof fn lemma_stored_forms(quads: Set<Quad>, quad: Quad)
    ensures
        stored_forms(Set::<Quad>::empty()) == Set::<Quad>::empty(),
        stored_forms(quads.insert(quad)) == stored_forms(quads).insert(stored_form(quad)),
{
    assert(stored_forms(Set::<Quad>::empty()) =~= Set::<Quad>::empty());
    assert forall|kept: Quad|
        stored_forms(quads.insert(quad)).contains(kept) <==> stored_forms(quads).insert(
            stored_form(quad),
        ).contains(kept) by {
        if stored_forms(quads.insert(quad)).contains(kept) {
            let from = choose|from: Quad|
                quads.insert(quad).contains(from) && stored_form(from) == kept;
            if from != quad {
                assert(quads.contains(from));
            }
        }
        if stored_forms(quads).contains(kept) {
            let from = choose|from: Quad| quads.contains(from) && stored_form(from) == kept;
            assert(quads.insert(quad).contains(from));
        }
        if kept == stored_form(quad) {
            assert(quads.insert(quad).contains(quad));
        }
    }
    assert(stored_forms(quads.insert(quad)) =~= stored_forms(quads).insert(stored_form(quad)));
}

/// The stored forms of two sets together are those of each, together.
pub proof fn lemma_stored_forms_union(left: Set<Quad>, right: Set<Quad>)
    ensures
        stored_forms(left.union(right)) == stored_forms(left).union(stored_forms(right)),
{
    assert forall|kept: Quad|
        stored_forms(left.union(right)).contains(kept) <==> stored_forms(left).union(
            stored_forms(right),
        ).contains(kept) by {
        if stored_forms(left.union(right)).contains(kept) {
            let from = choose|from: Quad|
                left.union(right).contains(from) && stored_form(from) == kept;
            if left.contains(from) {
                assert(stored_forms(left).contains(kept));
            } else {
                assert(stored_forms(right).contains(kept));
            }
        }
        if stored_forms(left).contains(kept) {
            let from = choose|from: Quad| left.contains(from) && stored_form(from) == kept;
            assert(left.union(right).contains(from));
        }
        if stored_forms(right).contains(kept) {
            let from = choose|from: Quad| right.contains(from) && stored_form(from) == kept;
            assert(left.union(right).contains(from));
        }
    }
    assert(stored_forms(left.union(right)) =~= stored_forms(left).union(stored_forms(right)));
}

/// Whether a store keeps its quads in memory, as one made by `Store::new`
/// does, and not on disk.
pub uninterp spec fn in_memory(store: Store) -> bool;

/// `Store::new` wraps a fresh in-memory storage in `Ok`: it never fails, and
/// the store holds no quad.
pub assume_specification[ Store::new ]() -> (made: Result<Store, StorageError>)
    ensures
        made is Ok,
        made matches Ok(store) ==> in_memory(store) && store_quads(store) == Set::<Quad>::empty(),
;

/// `Store::insert` encodes the quad and adds it in a transaction of its own.
/// Where it returns `Ok`, the store holds the stored form of the quad
/// besides what it held. On an in-memory store neither the start of the
/// transaction nor its commit can fail, so it returns `Ok`; the store stays
/// the kind of store it was. Nothing is claimed of what a store holds whose
/// insert failed.
#[verifier::external_body]
pub(crate) fn store_insert(store: &mut Store, quad: &Quad) -> (done: Result<(), StorageError>)
    ensures
        in_memory(*old(store)) ==> done is Ok,
        in_memory(*final(store)) == in_memory(*old(store)),
        done is Ok ==> store_quads(*final(store)) == store_quads(*old(store)).insert(
            stored_form(*quad),
        ),
{
    store.insert(quad)
}

/// `SparqlEvaluator::parse_query` on a fresh evaluator. Nothing is claimed
/// of which texts parse.
#[verifier::external_body]
pub(crate) fn parse_query(query: &str) -> (parsed: Result<PreparedSparqlQuery, SparqlSyntaxError>) {
    SparqlEvaluator::new().parse_query(query)
}

/// `PreparedSparqlQuery::on_store` and `BoundPreparedSparqlQuery::execute`:
/// the query runs on the store as it is at the call. Nothing is claimed of
/// what it gives.
#[verifier::external_body]
pub(crate) fn run_query(prepared: PreparedSparqlQuery, store: &Store) -> (results: Result<
    QueryResults<'static>,
    QueryEvaluationError,
>) {
    prepared.on_store(store).execute()
}

/// `oxigraph::sparql::QuerySolutionIter`, the solutions of a query, not yet
/// read.
#[verifier::external_type_specification]
#[verifier::external_body]
pub struct ExQuerySolutionIter<'a>(oxigraph::sparql::QuerySolutionIter<'a>);

/// `oxigraph::sparql::QueryTripleIter`, the triples of a graph result, not
/// yet read.
#[verifier::external_type_specification]
#[verifier::external_body]
pub struct ExQueryTripleIter<'a>(oxigraph::sparql::QueryTripleIter<'a>);

/// `oxigraph::sparql::QuerySolution`, what a `QuerySolutionIter` yields.
#[verifier::external_type_specification]
#[verifier::external_body]
pub struct ExQuerySolution(oxigraph::sparql::QuerySolution);

/// `oxigraph::model::Triple`, what a `QueryTripleIter` yields.
#[verifier::external_type_specification]
#[verifier::external_body]
pub struct ExTriple(oxigraph::model::Triple);

/// What a query gave, by kind.
pub enum Answer {
    Solutions(QuerySolutionIter<'static>),
    Boolean(bool),
    Graph(QueryTripleIter<'static>),
}

/// Tells the three variants of `QueryResults` apart and hands on what each
/// holds. Nothing is claimed of which variant a result is.
#[verifier::external_body]
pub(crate) fn sort_results(results: QueryResults<'static>) -> (answer: Answer) {
    match results {
        QueryResults::Solutions(solutions) => Answer::Solutions(solutions),
        QueryResults::Boolean(truth) => Answer::Boolean(truth),
        QueryResults::Graph(triples) => Answer::Graph(triples),
    }
}

/// Reads the solutions to the end through `QuerySolutionIter::next` and
/// writes each with its `Debug` form; the first solution that fails ends the
/// reading with its error. Nothing is claimed of the lines.
#[verifier::external_body]
pub(crate) fn solution_lines(solutions: QuerySolutionIter<'static>) -> (lines: Result<
    Vec<String>,
    QueryEvaluationError,
>) {
    solutions.map(|solution| solution.map(|bindings| format!("{:?}", bindings))).collect()
}

} // verus!
