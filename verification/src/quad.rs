//! The quad type of `oxigraph`, as far as the windows need it: a value that
//! can be compared and copied, and nothing more.

use oxigraph::model::{GraphName, IriParseError, Literal, NamedNode, Quad};
use vstd::prelude::*;

verus! {

/// `oxigraph::model::Quad`, carried through as an opaque value.
#[verifier::external_type_specification]
#[verifier::external_body]
pub struct ExQuad(oxigraph::model::Quad);

/// `<Quad as Clone>::clone` is derived field by field: the copy is the same
/// quad.
pub assume_specification[ <Quad as Clone>::clone ](quad: &Quad) -> (copy: Quad)
    ensures
        copy == *quad,
;

/// `<Quad as PartialEq>::eq` is derived over the four terms, which in turn
/// compare their text: two quads are equal exactly when they are the same
/// value.
#[verifier::external_body]
pub(crate) fn quads_equal(left: &Quad, right: &Quad) -> (same: bool)
    ensures
        same == (*left == *right),
{
    left == right
}

/// `oxigraph::model::IriParseError`, carried through.
#[verifier::external_type_specification]
#[verifier::external_body]
pub struct ExIriParseError(oxigraph::model::IriParseError);

/// The quad in the default graph whose subject and predicate are the named
/// nodes with these IRIs and whose object is the simple literal `value`.
pub uninterp spec fn literal_quad(subject: Seq<char>, predicate: Seq<char>, value: Seq<char>) -> Quad;

/// Whether `NamedNode::new` takes `text` for an IRI.
pub uninterp spec fn iri_parses(text: Seq<char>) -> bool;

/// `Quad::new` over `NamedNode::new` of the two IRIs,
/// `Literal::new_simple_literal` of the value and the default graph.
/// `NamedNode::new` goes by its text alone and refuses a text that is no
/// IRI; a simple literal takes any text. So the quad is made exactly when
/// both texts are IRIs, and it is a function of the three texts.
#[verifier::external_body]
pub(crate) fn make_literal_quad(subject: &str, predicate: &str, value: &str) -> (made: Result<
    Quad,
    IriParseError,
>)
    ensures
        made.is_ok() == (iri_parses(subject@) && iri_parses(predicate@)),
        made matches Ok(quad) ==> quad == literal_quad(subject@, predicate@, value@),
{
    Ok(
        Quad::new(
            NamedNode::new(subject)?,
            NamedNode::new(predicate)?,
            Literal::new_simple_literal(value),
            GraphName::DefaultGraph,
        ),
    )
}

} // verus!
