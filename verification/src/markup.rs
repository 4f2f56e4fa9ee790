//! The `svg` crate, as far as this library uses it: building `rect` and
//! `svg` elements and writing a document out as text.
//!
//! The contracts in this module are believed, not proved. They describe
//! the elements through their attributes and their children, and leave the
//! text that an element is written as to `element_text`.

use vstd::prelude::*;

verus! {

/// `svg::node::element::SVG`, an `svg` element: carried as it is, and
/// described by `document_attributes` and `document_children`.
#[verifier::external_type_specification]
#[verifier::external_body]
pub struct ExDocument(svg::node::element::SVG);

/// `svg::node::element::Rectangle`, a `rect` element: carried as it is, and
/// described by `shape_attributes` and `shape_children`.
#[verifier::external_type_specification]
#[verifier::external_body]
pub struct ExShape(svg::node::element::Rectangle);

/// The attributes of an `svg` element, each name with its value.
pub uninterp spec fn document_attributes(document: svg::node::element::SVG) -> Map<
    Seq<char>,
    Seq<char>,
>;

/// The child nodes of an `svg` element in order, each as the text it is
/// written as.
pub uninterp spec fn document_children(document: svg::node::element::SVG) -> Seq<Seq<char>>;

/// The attributes of a `rect` element, each name with its value.
pub uninterp spec fn shape_attributes(shape: svg::node::element::Rectangle) -> Map<
    Seq<char>,
    Seq<char>,
>;

/// The child nodes of a `rect` element in order, each as the text it is
/// written as.
pub uninterp spec fn shape_children(shape: svg::node::element::Rectangle) -> Seq<Seq<char>>;

/// The text that `svg::node::element::Element` is displayed as in its
/// alternate form, for an element with this tag and these attributes whose
/// children are displayed as `children`. An element without children is
/// displayed the same way in its plain form.
pub uninterp spec fn element_text(
    tag: Seq<char>,
    attributes: Map<Seq<char>, Seq<char>>,
    children: Seq<Seq<char>>,
) -> Seq<char>;

/// The attributes of an element that has none.
pub open spec fn no_attributes() -> Map<Seq<char>, Seq<char>> {
    Map::empty()
}

/// `svg::node::element::Rectangle::new`: a `rect` element without
/// attributes or children.
#[verifier::external_body]
pub(crate) fn new_shape() -> (shape: svg::node::element::Rectangle)
    ensures
        shape_attributes(shape) == no_attributes(),
        shape_children(shape).len() == 0,
{
    svg::node::element::Rectangle::new()
}

/// `svg::node::element::Rectangle::set`: the attribute `name` now has the
/// value `value`, replacing an earlier value; nothing else changes.
#[verifier::external_body]
pub(crate) fn set_shape_attribute(
    shape: svg::node::element::Rectangle,
    name: &str,
    value: &str,
) -> (updated: svg::node::element::Rectangle)
    ensures
        shape_attributes(updated) == shape_attributes(shape).insert(name@, value@),
        shape_children(updated) == shape_children(shape),
{
    shape.set(name, value)
}

/// `svg::node::element::SVG::new`: an `svg` element without children whose
/// only attribute is the SVG namespace.
#[verifier::external_body]
pub(crate) fn new_document() -> (document: svg::node::element::SVG)
    ensures
        document_attributes(document) == no_attributes().insert(
            "xmlns"@,
            "http://www.w3.org/2000/svg"@,
        ),
        document_children(document).len() == 0,
{
    svg::node::element::SVG::new()
}

/// `svg::node::element::SVG::set`: the attribute `name` now has the value
/// `value`, replacing an earlier value; nothing else changes.
#[verifier::external_body]
pub(crate) fn set_document_attribute(
    document: svg::node::element::SVG,
    name: &str,
    value: &str,
) -> (updated: svg::node::element::SVG)
    ensures
        document_attributes(updated) == document_attributes(document).insert(name@, value@),
        document_children(updated) == document_children(document),
{
    document.set(name, value)
}

/// `svg::node::element::SVG::add`: the shape becomes the last child of the
/// document. A `rect` element without children is written as
/// `element_text` of its tag and attributes.
#[verifier::external_body]
pub(crate) fn add_shape(
    document: svg::node::element::SVG,
    shape: svg::node::element::Rectangle,
) -> (updated: svg::node::element::SVG)
    requires
        shape_children(shape).len() == 0,
    ensures
        document_attributes(updated) == document_attributes(document),
        document_children(updated) == document_children(document).push(
            element_text("rect"@, shape_attributes(shape), Seq::empty()),
        ),
{
    document.add(shape)
}

/// `to_string` on `svg::node::element::SVG`: the document is displayed in
/// the alternate form of its `svg` element.
#[verifier::external_body]
pub(crate) fn document_text(document: &svg::node::element::SVG) -> (text: String)
    ensures
        text@ == element_text(
            "svg"@,
            document_attributes(*document),
            document_children(*document),
        ),
{
    document.to_string()
}

} // verus!
