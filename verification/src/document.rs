//! The drawing: a viewport and the rectangles in the order they are drawn,
//! and its rendering as SVG.

use vstd::prelude::*;
use vstd::utf8::encode_utf8;
use crate::decimal::{
    decimal_string,
    decimal_text,
    lemma_decimal_text_same_number,
    nat_text,
    push_nat,
};
use crate::geometry::{Rect, RectView, views};
use crate::markup::{
    add_shape,
    document_attributes,
    document_children,
    document_text,
    element_text,
    new_document,
    new_shape,
    no_attributes,
    set_document_attribute,
    set_shape_attribute,
    shape_attributes,
    shape_children,
};

verus! {

/// The fill colour of every rectangle.
pub const COLOR: &'static str = "#198acd";

/// The attributes of the `rect` element that draws `rectangle`: position and
/// size in decimal notation, the fill colour, and no outline.
pub open spec fn rect_attributes(rectangle: RectView) -> Map<Seq<char>, Seq<char>> {
    no_attributes().insert("x"@, decimal_text(rectangle.x, rectangle.frac_bits)).insert(
        "y"@,
        decimal_text(rectangle.y, rectangle.frac_bits),
    ).insert("width"@, decimal_text(rectangle.width, rectangle.frac_bits)).insert(
        "height"@,
        decimal_text(rectangle.height, rectangle.frac_bits),
    ).insert("fill"@, COLOR@).insert("stroke"@, "none"@)
}

/// The text of the `rect` element that draws `rectangle`.
pub open spec fn rect_text(rectangle: RectView) -> Seq<char> {
    element_text("rect"@, rect_attributes(rectangle), Seq::empty())
}

/// The value of the `viewBox` attribute for a view of the given size with
/// its origin at zero.
pub open spec fn view_box_text(view_width: nat, view_height: nat) -> Seq<char> {
    "0 0 "@ + nat_text(view_width) + " "@ + nat_text(view_height)
}

/// The attributes of the `svg` element of a document with the given view:
/// the SVG namespace and the view box.
pub open spec fn view_attributes(view_width: nat, view_height: nat) -> Map<Seq<char>, Seq<char>> {
    no_attributes().insert("xmlns"@, "http://www.w3.org/2000/svg"@).insert(
        "viewBox"@,
        view_box_text(view_width, view_height),
    )
}

/// The drawing of a rectangle depends on its place alone: rectangles that
/// cover the same place are drawn by the same element.
pub proof fn lemma_same_place_same_text(first: RectView, second: RectView)
    requires
        first.same_place(second),
    ensures
        rect_attributes(first) == rect_attributes(second),
        rect_text(first) == rect_text(second),
{
    lemma_decimal_text_same_number(first.x, first.frac_bits, second.x, second.frac_bits);
    lemma_decimal_text_same_number(first.y, first.frac_bits, second.y, second.frac_bits);
    lemma_decimal_text_same_number(first.width, first.frac_bits, second.width, second.frac_bits);
    lemma_decimal_text_same_number(
        first.height,
        first.frac_bits,
        second.height,
        second.frac_bits,
    );
}

/// The `rect` element that draws `rectangle`.
pub fn rect(rectangle: &Rect) -> (shape: svg::node::element::Rectangle)
    requires
        rectangle.wf(),
    ensures
        shape_attributes(shape) == rect_attributes(rectangle@),
        shape_children(shape).len() == 0,
{
    let x: String = decimal_string(rectangle.x, rectangle.frac_bits);
    let y: String = decimal_string(rectangle.y, rectangle.frac_bits);
    let width: String = decimal_string(rectangle.width, rectangle.frac_bits);
    let height: String = decimal_string(rectangle.height, rectangle.frac_bits);
    let shape = new_shape();
    let shape = set_shape_attribute(shape, "x", x.as_str());
    let shape = set_shape_attribute(shape, "y", y.as_str());
    let shape = set_shape_attribute(shape, "width", width.as_str());
    let shape = set_shape_attribute(shape, "height", height.as_str());
    let shape = set_shape_attribute(shape, "fill", COLOR);
    set_shape_attribute(shape, "stroke", "none")
}

/// A drawing: the size of the view and the rectangles in drawing order.
pub struct Document {
    view_width: u32,
    view_height: u32,
    rectangles: Vec<Rect>,
}

/// The mathematical drawing.
pub struct DocumentView {
    pub view_width: nat,
    pub view_height: nat,
    pub rectangles: Seq<RectView>,
}

impl DocumentView {
    /// The SVG text of the drawing: an `svg` element that carries the view
    /// box, with one `rect` child per rectangle, in drawing order.
    pub open spec fn text(self) -> Seq<char> {
        element_text(
            "svg"@,
            view_attributes(self.view_width, self.view_height),
            self.rectangles.map_values(|r: RectView| rect_text(r)),
        )
    }
}

impl View for Document {
    type V = DocumentView;

    closed spec fn view(&self) -> DocumentView {
        DocumentView {
            view_width: self.view_width as nat,
            view_height: self.view_height as nat,
            rectangles: views(self.rectangles@),
        }
    }
}

impl Document {
    #[verifier::type_invariant]
    spec fn well_formed(self) -> bool {
        forall|i: int| 0 <= i < self.rectangles@.len() ==> (#[trigger] self.rectangles@[i]).wf()
    }

    /// An empty drawing with a view of the given size.
    pub fn new(view_width: u32, view_height: u32) -> (document: Document)
        ensures
            document@ == (DocumentView {
                view_width: view_width as nat,
                view_height: view_height as nat,
                rectangles: Seq::empty(),
            }),
    {
        let document = Document { view_width, view_height, rectangles: Vec::new() };
        proof {
            assert(document@.rectangles =~= Seq::empty());
        }
        document
    }

    /// The drawing with `rectangle` drawn last.
    pub fn append(self, rectangle: Rect) -> (document: Document)
        requires
            rectangle.wf(),
        ensures
            document@ == (DocumentView { rectangles: self@.rectangles.push(rectangle@), ..self@ }),
    {
        proof {
            use_type_invariant(&self);
        }
        let Document { view_width, view_height, rectangles } = self;
        let mut rectangles = rectangles;
        rectangles.push(rectangle);
        let document = Document { view_width, view_height, rectangles };
        proof {
            assert(document@.rectangles =~= self@.rectangles.push(rectangle@));
        }
        document
    }

    /// The drawing with everything below `rectangle`, down to `depth`
    /// levels, drawn after what is there: each corner rectangle is drawn
    /// and then completed before the next corner is begun. `rectangle`
    /// itself is not drawn.
    pub fn add_rectangles(self, rectangle: &Rect, depth: usize) -> (document: Document)
        requires
            rectangle.wf(),
            rectangle@.fits(depth as nat),
        ensures
            document@ == (DocumentView {
                rectangles: self@.rectangles + rectangle@.descendants(depth as nat),
                ..self@
            }),
    {
        proof {
            use_type_invariant(&self);
        }
        let Document { view_width, view_height, rectangles } = self;
        let mut rectangles = rectangles;
        rectangle.collect(depth, &mut rectangles);
        Document { view_width, view_height, rectangles }
    }

    /// The width of the view.
    pub fn view_width(&self) -> (width: u32)
        ensures
            width == self@.view_width,
    {
        self.view_width
    }

    /// The height of the view.
    pub fn view_height(&self) -> (height: u32)
        ensures
            height == self@.view_height,
    {
        self.view_height
    }

    /// The rectangles in drawing order.
    pub fn rectangles(&self) -> (rectangles: &Vec<Rect>)
        ensures
            views(rectangles@) == self@.rectangles,
            forall|i: int| 0 <= i < rectangles@.len() ==> (#[trigger] rectangles@[i]).wf(),
    {
        proof {
            use_type_invariant(self);
        }
        &self.rectangles
    }

    /// The drawing as an `svg` element: the view box on the element, and
    /// one `rect` child per rectangle, in drawing order.
    pub fn to_svg(&self) -> (document: svg::node::element::SVG)
        ensures
            document_attributes(document) == view_attributes(
                self@.view_width,
                self@.view_height,
            ),
            document_children(document) == self@.rectangles.map_values(
                |r: RectView| rect_text(r),
            ),
    {
        proof {
            use_type_invariant(self);
        }
        let mut view_box: String = String::new();
        view_box.append("0 0 ");
        push_nat(&mut view_box, self.view_width as u64);
        view_box.append(" ");
        push_nat(&mut view_box, self.view_height as u64);
        proof {
            assert(view_box@ =~= view_box_text(self@.view_width, self@.view_height));
        }
        let mut document = set_document_attribute(new_document(), "viewBox", view_box.as_str());
        let mut i: usize = 0;
        while i < self.rectangles.len()
            invariant
                i <= self.rectangles@.len(),
                forall|k: int|
                    0 <= k < self.rectangles@.len() ==> (#[trigger] self.rectangles@[k]).wf(),
                document_attributes(document) == view_attributes(
                    self@.view_width,
                    self@.view_height,
                ),
                document_children(document) == self@.rectangles.take(i as int).map_values(
                    |r: RectView| rect_text(r),
                ),
            decreases self.rectangles@.len() - i,
        {
            let shape = rect(&self.rectangles[i]);
            let ghost before = document_children(document);
            document = add_shape(document, shape);
            proof {
                let drawn = self@.rectangles;
                assert(drawn[i as int] == self.rectangles@[i as int]@);
                assert(drawn.take(i as int + 1) =~= drawn.take(i as int).push(drawn[i as int]));
                assert(drawn.take(i as int + 1).map_values(|r: RectView| rect_text(r))
                    =~= before.push(rect_text(drawn[i as int])));
            }
            i += 1;
        }
        proof {
            assert(self@.rectangles.take(i as int) =~= self@.rectangles);
        }
        document
    }

    /// The SVG text of the drawing.
    pub fn render(&self) -> (text: String)
        ensures
            text@ == self@.text(),
    {
        let document = self.to_svg();
        document_text(&document)
    }

    /// The SVG text of the drawing as UTF-8 bytes, ready to be written to
    /// a file.
    pub fn serialize(&self) -> (bytes: Vec<u8>)
        ensures
            bytes@ == encode_utf8(self@.text()),
    {
        let text: String = self.render();
        text.as_str().as_bytes_vec()
    }
}

/// The root rectangle for a view of the given size, counted in quarters of
/// a unit: it starts a quarter of the view in from the left and from the
/// top, and is half the view wide and half the view high.
pub open spec fn root_view(view_width: nat, view_height: nat) -> RectView {
    RectView {
        x: (4 * view_width / 4) as int,
        y: (4 * view_height / 4) as int,
        width: (4 * view_width / 2) as int,
        height: (4 * view_height / 2) as int,
        frac_bits: 2,
    }
}

/// The root rectangle for a view of the given size: the middle half of the
/// view on both axes.
pub fn root_rect(view_width: u32, view_height: u32) -> (root: Rect)
    requires
        view_width > 0,
        view_height > 0,
    ensures
        root.wf(),
        root@ == root_view(view_width as nat, view_height as nat),
{
    let width: i64 = 4 * (view_width as i64);
    let height: i64 = 4 * (view_height as i64);
    Rect { x: width / 4, y: height / 4, width: width / 2, height: height / 2, frac_bits: 2 }
}

/// The T-square fractal of the given depth in a view of the given size: the
/// root rectangle first, then everything below it in drawing order.
pub fn t_square(view_width: u32, view_height: u32, depth: usize) -> (document: Document)
    requires
        view_width > 0,
        view_height > 0,
        root_view(view_width as nat, view_height as nat).fits(depth as nat),
    ensures
        document@ == (DocumentView {
            view_width: view_width as nat,
            view_height: view_height as nat,
            rectangles: root_view(view_width as nat, view_height as nat).family(depth as nat),
        }),
{
    let root: Rect = root_rect(view_width, view_height);
    let document = Document::new(view_width, view_height).append(root);
    let document = document.add_rectangles(&root, depth);
    proof {
        assert(document@.rectangles =~= root@.family(depth as nat));
    }
    document
}

/// The T-square fractal of the given depth in a view of the given size, or
/// `None` where the view is empty or the rectangles of that depth are not
/// all representable.
pub fn checked_t_square(view_width: u32, view_height: u32, depth: usize) -> (document: Option<
    Document,
>)
    ensures
        document is Some <==> view_width > 0 && view_height > 0 && root_view(
            view_width as nat,
            view_height as nat,
        ).fits(depth as nat),
        document matches Some(drawn) ==> drawn@ == (DocumentView {
            view_width: view_width as nat,
            view_height: view_height as nat,
            rectangles: root_view(view_width as nat, view_height as nat).family(depth as nat),
        }),
{
    if view_width == 0 || view_height == 0 {
        return None;
    }
    let root: Rect = root_rect(view_width, view_height);
    if !root.supports(depth) {
        return None;
    }
    Some(t_square(view_width, view_height, depth))
}

} // verus!
