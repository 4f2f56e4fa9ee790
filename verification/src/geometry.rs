//! Rectangles with binary-fraction coordinates and their subdivision into
//! corner rectangles.

use vstd::prelude::*;
use vstd::arithmetic::power2::{pow2, lemma_pow2_pos, lemma_pow2_unfold};
use vstd::bits::{lemma_u64_pow2_no_overflow, lemma_u64_shl_is_mul};

verus! {

/// The most fractional bits a rectangle's coordinates may carry.
pub const MAX_FRAC_BITS: u32 = 63;

/// An axis-aligned rectangle whose coordinates are binary fractions.
///
/// Every coordinate counts units of `2^-frac_bits`: the rectangle at
/// `(12.5, 12.5)` of size `25 x 25` is `x: 25, y: 25, width: 50, height: 50,
/// frac_bits: 1`. Halving and quartering such a number is exact, so the
/// fractal's geometry is computed without rounding.
#[derive(Clone, Copy, Debug, PartialEq, Eq, Structural)]
pub struct Rect {
    /// Left edge, in units of `2^-frac_bits`.
    pub x: i64,
    /// Top edge, in units of `2^-frac_bits`.
    pub y: i64,
    /// Width, in units of `2^-frac_bits`; positive.
    pub width: i64,
    /// Height, in units of `2^-frac_bits`; positive.
    pub height: i64,
    /// Number of fractional bits of the four coordinates.
    pub frac_bits: u32,
}

/// The mathematical rectangle: the same coordinates as unbounded integers.
pub struct RectView {
    pub x: int,
    pub y: int,
    pub width: int,
    pub height: int,
    pub frac_bits: nat,
}

impl RectView {
    /// Width and height are positive.
    pub open spec fn positive(self) -> bool {
        self.width > 0 && self.height > 0
    }

    /// Some well-formed `Rect` has this view.
    pub open spec fn representable(self) -> bool {
        &&& self.positive()
        &&& i64::MIN <= self.x <= i64::MAX
        &&& i64::MIN <= self.y <= i64::MAX
        &&& self.width <= i64::MAX
        &&& self.height <= i64::MAX
        &&& self.frac_bits <= MAX_FRAC_BITS
    }

    /// Half the width, counted in quarters of this rectangle's unit.
    pub open spec fn half_width(self) -> int {
        4 * self.width / 2
    }

    /// Half the height, counted in quarters of this rectangle's unit.
    pub open spec fn half_height(self) -> int {
        4 * self.height / 2
    }

    /// The half-sized rectangle centred on the top-left corner.
    pub open spec fn top_left(self) -> RectView {
        RectView {
            x: 4 * self.x - self.half_width() / 2,
            y: 4 * self.y - self.half_height() / 2,
            width: self.half_width(),
            height: self.half_height(),
            frac_bits: self.frac_bits + 2,
        }
    }

    /// The half-sized rectangle centred on the top-right corner.
    pub open spec fn top_right(self) -> RectView {
        RectView {
            x: 4 * self.x + self.half_width() * 3 / 2,
            y: 4 * self.y - self.half_height() / 2,
            width: self.half_width(),
            height: self.half_height(),
            frac_bits: self.frac_bits + 2,
        }
    }

    /// The half-sized rectangle centred on the bottom-left corner.
    pub open spec fn bottom_left(self) -> RectView {
        RectView {
            x: 4 * self.x - self.half_width() / 2,
            y: 4 * self.y + self.half_height() * 3 / 2,
            width: self.half_width(),
            height: self.half_height(),
            frac_bits: self.frac_bits + 2,
        }
    }

    /// The half-sized rectangle centred on the bottom-right corner.
    pub open spec fn bottom_right(self) -> RectView {
        RectView {
            x: 4 * self.x + self.half_width() * 3 / 2,
            y: 4 * self.y + self.half_height() * 3 / 2,
            width: self.half_width(),
            height: self.half_height(),
            frac_bits: self.frac_bits + 2,
        }
    }

    /// The four corner rectangles in drawing order: top-left, top-right,
    /// bottom-left, bottom-right.
    pub open spec fn subdivision(self) -> Seq<RectView> {
        seq![self.top_left(), self.top_right(), self.bottom_left(), self.bottom_right()]
    }

    /// Both rectangles cover the same place: their coordinates are equal
    /// as numbers, whatever the units they are counted in.
    pub open spec fn same_place(self, other: RectView) -> bool {
        &&& self.x * pow2(other.frac_bits) == other.x * pow2(self.frac_bits)
        &&& self.y * pow2(other.frac_bits) == other.y * pow2(self.frac_bits)
        &&& self.width * pow2(other.frac_bits) == other.width * pow2(self.frac_bits)
        &&& self.height * pow2(other.frac_bits) == other.height * pow2(self.frac_bits)
    }

    /// All four corner rectangles are representable.
    pub open spec fn divisible(self) -> bool {
        forall|i: int| 0 <= i < 4 ==> (#[trigger] self.subdivision()[i]).representable()
    }
}

impl View for Rect {
    type V = RectView;

    open spec fn view(&self) -> RectView {
        RectView {
            x: self.x as int,
            y: self.y as int,
            width: self.width as int,
            height: self.height as int,
            frac_bits: self.frac_bits as nat,
        }
    }
}

/// The views of a sequence of rectangles, in the same order.
pub open spec fn views(rectangles: Seq<Rect>) -> Seq<RectView> {
    rectangles.map_values(|r: Rect| r@)
}

/// Each corner rectangle is half as wide and half as high as `v`, and its
/// centre is one corner of `v`. Lengths are compared in the unit of the
/// corner rectangles, of which the unit of `v` holds four.
pub proof fn lemma_subdivision_geometry(v: RectView)
    ensures
        v.subdivision().len() == 4,
        forall|i: int|
            0 <= i < 4 ==> {
                &&& (#[trigger] v.subdivision()[i]).frac_bits == v.frac_bits + 2
                &&& 2 * v.subdivision()[i].width == 4 * v.width
                &&& 2 * v.subdivision()[i].height == 4 * v.height
            },
        2 * v.top_left().x + v.top_left().width == 2 * (4 * v.x),
        2 * v.top_left().y + v.top_left().height == 2 * (4 * v.y),
        2 * v.top_right().x + v.top_right().width == 2 * (4 * v.x + 4 * v.width),
        2 * v.top_right().y + v.top_right().height == 2 * (4 * v.y),
        2 * v.bottom_left().x + v.bottom_left().width == 2 * (4 * v.x),
        2 * v.bottom_left().y + v.bottom_left().height == 2 * (4 * v.y + 4 * v.height),
        2 * v.bottom_right().x + v.bottom_right().width == 2 * (4 * v.x + 4 * v.width),
        2 * v.bottom_right().y + v.bottom_right().height == 2 * (4 * v.y + 4 * v.height),
{
    let w = v.width;
    let h = v.height;
    assert(v.half_width() == 2 * w);
    assert(v.half_height() == 2 * h);
    assert((2 * w) / 2 == w && (2 * w) * 3 / 2 == 3 * w);
    assert((2 * h) / 2 == h && (2 * h) * 3 / 2 == 3 * h);
}

/// Rectangles with the same view are the same rectangle.
pub proof fn lemma_view_injective(first: Rect, second: Rect)
    requires
        first@ == second@,
    ensures
        first == second,
{
}

/// Sequences of rectangles with the same views are the same sequence.
pub proof fn lemma_views_injective(first: Seq<Rect>, second: Seq<Rect>)
    requires
        views(first) == views(second),
    ensures
        first == second,
{
    assert(first.len() == views(first).len());
    assert(second.len() == views(second).len());
    assert forall|i: int| 0 <= i < first.len() implies first[i] == second[i] by {
        assert(first[i]@ == views(first)[i]);
        assert(second[i]@ == views(second)[i]);
        lemma_view_injective(first[i], second[i]);
    }
    assert(first =~= second);
}

/// Rectangles that cover the same place have corner rectangles that cover
/// the same places: subdividing does not depend on the unit that a
/// rectangle is counted in.
pub proof fn lemma_subdivision_keeps_place(first: RectView, second: RectView)
    requires
        first.same_place(second),
    ensures
        forall|i: int|
            0 <= i < 4 ==> (#[trigger] first.subdivision()[i]).same_place(second.subdivision()[i]),
{
    let p = pow2(first.frac_bits) as int;
    let q = pow2(second.frac_bits) as int;
    lemma_pow2_unfold(first.frac_bits + 2);
    lemma_pow2_unfold(first.frac_bits + 1);
    lemma_pow2_unfold(second.frac_bits + 2);
    lemma_pow2_unfold(second.frac_bits + 1);
    assert(pow2(first.frac_bits + 2) == 4 * p);
    assert(pow2(second.frac_bits + 2) == 4 * q);
    assert(first.half_width() == 2 * first.width && second.half_width() == 2 * second.width);
    assert(first.half_height() == 2 * first.height && second.half_height() == 2 * second.height);
    assert((2 * first.width) / 2 == first.width && (2 * first.width) * 3 / 2 == 3 * first.width);
    assert((2 * second.width) / 2 == second.width && (2 * second.width) * 3 / 2 == 3
        * second.width);
    assert((2 * first.height) / 2 == first.height && (2 * first.height) * 3 / 2 == 3
        * first.height);
    assert((2 * second.height) / 2 == second.height && (2 * second.height) * 3 / 2 == 3
        * second.height);
    lemma_cross_scaled(first.x, first.width, p, second.x, second.width, q);
    lemma_cross_scaled(first.y, first.height, p, second.y, second.height, q);
}

/// Position and size that agree across two units still agree after a step
/// of subdivision, in units a quarter the size.
proof fn lemma_cross_scaled(x: int, w: int, p: int, y: int, v: int, q: int)
    by (nonlinear_arith)
    requires
        x * q == y * p,
        w * q == v * p,
    ensures
        (4 * x - w) * (4 * q) == (4 * y - v) * (4 * p),
        (4 * x + 3 * w) * (4 * q) == (4 * y + 3 * v) * (4 * p),
        (2 * w) * (4 * q) == (2 * v) * (4 * p),
{
}

/// The number of units of `2^-frac_bits` in one.
pub fn units_per_one(frac_bits: u32) -> (units: u64)
    requires
        frac_bits <= MAX_FRAC_BITS,
    ensures
        units == pow2(frac_bits as nat),
        units > 0,
{
    proof {
        lemma_u64_pow2_no_overflow(frac_bits as nat);
        lemma_u64_shl_is_mul(1, frac_bits as u64);
        lemma_pow2_pos(frac_bits as nat);
    }
    1u64 << (frac_bits as u64)
}

/// The product of a 64-bit signed and a 64-bit unsigned number fits in 128
/// bits.
proof fn lemma_product_fits(a: int, units: int)
    by (nonlinear_arith)
    requires
        -0x8000_0000_0000_0000 <= a <= 0x7fff_ffff_ffff_ffff,
        0 <= units <= 0xffff_ffff_ffff_ffff,
    ensures
        -0x8000_0000_0000_0000 * 0xffff_ffff_ffff_ffff <= a * units <= 0x7fff_ffff_ffff_ffff
            * 0xffff_ffff_ffff_ffff,
{
}

/// Whether `first / first_units` and `second / second_units` are the same
/// number.
fn same_number(first: i64, first_units: u64, second: i64, second_units: u64) -> (same: bool)
    ensures
        same == (first * second_units == second * first_units),
{
    proof {
        lemma_product_fits(first as int, second_units as int);
        lemma_product_fits(second as int, first_units as int);
    }
    (first as i128) * (second_units as i128) == (second as i128) * (first_units as i128)
}

impl Rect {
    /// Positive width and height, and no more than `MAX_FRAC_BITS`
    /// fractional bits.
    pub open spec fn wf(&self) -> bool {
        self@.representable()
    }

    /// Whether `self` is well formed.
    pub fn is_valid(&self) -> (ok: bool)
        ensures
            ok == self.wf(),
    {
        self.width > 0 && self.height > 0 && self.frac_bits <= MAX_FRAC_BITS
    }

    /// Whether `self` and `other` cover the same place, whatever the units
    /// their coordinates are counted in.
    pub fn same_place(&self, other: &Rect) -> (same: bool)
        requires
            self.wf(),
            other.wf(),
        ensures
            same == self@.same_place(other@),
    {
        let mine: u64 = units_per_one(self.frac_bits);
        let theirs: u64 = units_per_one(other.frac_bits);
        same_number(self.x, mine, other.x, theirs) && same_number(self.y, mine, other.y, theirs)
            && same_number(self.width, mine, other.width, theirs) && same_number(
            self.height,
            mine,
            other.height,
            theirs,
        )
    }

    /// Whether all four corner rectangles are representable, so that
    /// `subdivide` may be called.
    pub fn can_subdivide(&self) -> (ok: bool)
        requires
            self.wf(),
        ensures
            ok == self@.divisible(),
    {
        let x: i128 = 4 * (self.x as i128);
        let y: i128 = 4 * (self.y as i128);
        let half_width: i128 = 4 * (self.width as i128) / 2;
        let half_height: i128 = 4 * (self.height as i128) / 2;
        let ok: bool = self.frac_bits + 2 <= MAX_FRAC_BITS && half_width <= i64::MAX as i128
            && half_height <= i64::MAX as i128 && x - half_width / 2 >= i64::MIN as i128 && x
            + half_width * 3 / 2 <= i64::MAX as i128 && y - half_height / 2 >= i64::MIN as i128
            && y + half_height * 3 / 2 <= i64::MAX as i128;
        proof {
            if !ok {
                assert(!self@.subdivision()[0].representable()
                    || !self@.subdivision()[3].representable());
            }
        }
        ok
    }

    /// The four half-sized rectangles centred on the corners of `self`, in
    /// the order top-left, top-right, bottom-left, bottom-right.
    pub fn subdivide(&self) -> (children: [Rect; 4])
        requires
            self.wf(),
            self@.divisible(),
        ensures
            views(children@) == self@.subdivision(),
            forall|i: int| 0 <= i < 4 ==> (#[trigger] children[i]).wf(),
    {
        proof {
            assert(self@.subdivision()[0].representable());
            assert(self@.subdivision()[3].representable());
        }
        let x: i128 = 4 * (self.x as i128);
        let y: i128 = 4 * (self.y as i128);
        let half_width: i128 = 4 * (self.width as i128) / 2;
        let half_height: i128 = 4 * (self.height as i128) / 2;
        let left: i64 = (x - half_width / 2) as i64;
        let right: i64 = (x + half_width * 3 / 2) as i64;
        let top: i64 = (y - half_height / 2) as i64;
        let bottom: i64 = (y + half_height * 3 / 2) as i64;
        let width: i64 = half_width as i64;
        let height: i64 = half_height as i64;
        let frac_bits: u32 = self.frac_bits + 2;
        let children: [Rect; 4] = [
            Rect { x: left, y: top, width, height, frac_bits },
            Rect { x: right, y: top, width, height, frac_bits },
            Rect { x: left, y: bottom, width, height, frac_bits },
            Rect { x: right, y: bottom, width, height, frac_bits },
        ];
        proof {
            assert(views(children@) =~= self@.subdivision());
        }
        children
    }
}

} // verus!
