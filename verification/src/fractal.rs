//! The recursion: every rectangle below a root, in drawing order.

use vstd::prelude::*;
use vstd::arithmetic::power::pow;
use crate::geometry::{lemma_views_injective, Rect, RectView, views};

verus! {

impl RectView {
    /// This rectangle followed by everything below it down to `depth` levels.
    pub open spec fn family(self, depth: nat) -> Seq<RectView>
        decreases depth, 1nat,
    {
        seq![self] + self.descendants(depth)
    }

    /// Every rectangle below this one down to `depth` levels, in drawing
    /// order: each corner rectangle is followed by all of its own
    /// descendants before the next corner is visited. The rectangle itself
    /// is not included.
    pub open spec fn descendants(self, depth: nat) -> Seq<RectView>
        decreases depth, 0nat,
    {
        if depth == 0 {
            Seq::empty()
        } else {
            let below = (depth - 1) as nat;
            self.top_left().family(below) + self.top_right().family(below)
                + self.bottom_left().family(below) + self.bottom_right().family(below)
        }
    }

    /// What has been drawn below this rectangle once the first `corners`
    /// corner rectangles have been completed, each to `below` further levels.
    spec fn completed(self, corners: int, below: nat) -> Seq<RectView> {
        let first = if corners >= 1 { self.top_left().family(below) } else { Seq::empty() };
        let second = if corners >= 2 { self.top_right().family(below) } else { Seq::empty() };
        let third = if corners >= 3 { self.bottom_left().family(below) } else { Seq::empty() };
        let fourth = if corners >= 4 { self.bottom_right().family(below) } else { Seq::empty() };
        first + second + third + fourth
    }

    /// Every rectangle down to `depth` levels below this one is
    /// representable.
    pub open spec fn fits(self, depth: nat) -> bool
        decreases depth,
    {
        depth > 0 ==> {
            let below = (depth - 1) as nat;
            &&& self.divisible()
            &&& self.top_left().fits(below)
            &&& self.top_right().fits(below)
            &&& self.bottom_left().fits(below)
            &&& self.bottom_right().fits(below)
        }
    }
}

/// The number of rectangles strictly below a root, down to `depth` levels:
/// `4 + 16 + ... + 4^depth`.
pub open spec fn descendant_count(depth: nat) -> int {
    (pow(4, depth + 1) - 4) / 3
}

/// A rectangle has exactly `descendant_count(depth)` descendants down to
/// `depth` levels, whatever its position and size.
pub proof fn lemma_descendants_len(root: RectView, depth: nat)
    ensures
        root.descendants(depth).len() == descendant_count(depth),
        3 * root.descendants(depth).len() + 4 == pow(4, depth + 1),
    decreases depth,
{
    reveal(pow);
    if depth == 0 {
        assert(pow(4, 1) == 4 * pow(4, 0));
    } else {
        let below = (depth - 1) as nat;
        lemma_descendants_len(root.top_left(), below);
        lemma_descendants_len(root.top_right(), below);
        lemma_descendants_len(root.bottom_left(), below);
        lemma_descendants_len(root.bottom_right(), below);
        assert(pow(4, depth + 1) == 4 * pow(4, below + 1));
    }
}

/// Every rectangle of a sequence is representable.
pub open spec fn all_representable(rectangles: Seq<RectView>) -> bool {
    forall|i: int| 0 <= i < rectangles.len() ==> (#[trigger] rectangles[i]).representable()
}

/// A concatenation is representable throughout exactly when both parts
/// are.
proof fn lemma_all_representable_concat(first: Seq<RectView>, second: Seq<RectView>)
    ensures
        all_representable(first + second) <==> all_representable(first) && all_representable(
            second,
        ),
{
    let both = first + second;
    if all_representable(both) {
        assert forall|i: int| 0 <= i < first.len() implies (#[trigger] first[i]).representable() by {
            assert(both[i] == first[i]);
        }
        assert forall|i: int| 0 <= i < second.len() implies (#[trigger] second[i]).representable() by {
            assert(both[i + first.len()] == second[i]);
        }
    }
    if all_representable(first) && all_representable(second) {
        assert forall|i: int| 0 <= i < both.len() implies (#[trigger] both[i]).representable() by {
            if i < first.len() {
                assert(both[i] == first[i]);
            } else {
                assert(both[i] == second[i - first.len()]);
            }
        }
    }
}

/// What `generate` asks of its root is what the machine forces and no
/// more: the rectangles below `root` fit exactly when each of them is
/// representable.
pub proof fn lemma_fits_descendants(root: RectView, depth: nat)
    ensures
        root.fits(depth) <==> all_representable(root.descendants(depth)),
    decreases depth,
{
    if depth > 0 {
        let below = (depth - 1) as nat;
        let a = root.top_left();
        let b = root.top_right();
        let c = root.bottom_left();
        let d = root.bottom_right();
        lemma_fits_descendants(a, below);
        lemma_fits_descendants(b, below);
        lemma_fits_descendants(c, below);
        lemma_fits_descendants(d, below);
        lemma_all_representable_concat(seq![a], a.descendants(below));
        lemma_all_representable_concat(seq![b], b.descendants(below));
        lemma_all_representable_concat(seq![c], c.descendants(below));
        lemma_all_representable_concat(seq![d], d.descendants(below));
        lemma_all_representable_concat(a.family(below), b.family(below));
        lemma_all_representable_concat(a.family(below) + b.family(below), c.family(below));
        lemma_all_representable_concat(
            a.family(below) + b.family(below) + c.family(below),
            d.family(below),
        );
        assert(all_representable(seq![a]) <==> a.representable()) by {
            assert(seq![a][0] == a);
        }
        assert(all_representable(seq![b]) <==> b.representable()) by {
            assert(seq![b][0] == b);
        }
        assert(all_representable(seq![c]) <==> c.representable()) by {
            assert(seq![c][0] == c);
        }
        assert(all_representable(seq![d]) <==> d.representable()) by {
            assert(seq![d][0] == d);
        }
        assert(root.divisible() <==> a.representable() && b.representable() && c.representable()
            && d.representable()) by {
            assert(root.subdivision()[0] == a);
            assert(root.subdivision()[1] == b);
            assert(root.subdivision()[2] == c);
            assert(root.subdivision()[3] == d);
        }
    }
}

/// `generate` has one result: two sequences of rectangles that both meet
/// its contract for the same root and depth are equal.
pub proof fn lemma_generate_deterministic(
    root: Rect,
    depth: nat,
    first: Seq<Rect>,
    second: Seq<Rect>,
)
    requires
        views(first) == root@.descendants(depth),
        views(second) == root@.descendants(depth),
    ensures
        first == second,
{
    lemma_views_injective(first, second);
}

/// A rectangle has no descendants at depth zero.
pub proof fn lemma_descendants_zero(root: RectView)
    ensures
        root.descendants(0) =~= Seq::<RectView>::empty(),
{
}

impl Rect {
    /// Appends to `out` every rectangle below `self` down to `depth` levels,
    /// in drawing order.
    pub fn collect(&self, depth: usize, out: &mut Vec<Rect>)
        requires
            self.wf(),
            self@.fits(depth as nat),
        ensures
            views(final(out)@) == views(old(out)@) + self@.descendants(depth as nat),
            final(out)@.len() == old(out)@.len() + descendant_count(depth as nat),
            forall|i: int| 0 <= i < old(out)@.len() ==> final(out)@[i] == old(out)@[i],
            forall|i: int|
                old(out)@.len() <= i < final(out)@.len() ==> (#[trigger] final(out)@[i]).wf(),
        decreases depth,
    {
        proof {
            lemma_descendants_len(self@, depth as nat);
        }
        if depth == 0 {
            assert(views(out@) =~= views(old(out)@) + self@.descendants(0));
            return ;
        }
        let children: [Rect; 4] = self.subdivide();
        let ghost below: nat = (depth - 1) as nat;
        let mut i: usize = 0;
        while i < 4
            invariant
                0 <= i <= 4,
                depth > 0,
                below == depth - 1,
                self@.fits(depth as nat),
                views(children@) == self@.subdivision(),
                forall|k: int| 0 <= k < 4 ==> (#[trigger] children[k]).wf(),
                views(out@) == views(old(out)@) + self@.completed(i as int, below),
                forall|k: int| 0 <= k < old(out)@.len() ==> out@[k] == old(out)@[k],
                forall|k: int| old(out)@.len() <= k < out@.len() ==> (#[trigger] out@[k]).wf(),
                old(out)@.len() <= out@.len(),
            decreases 4 - i,
        {
            let child: Rect = children[i];
            let ghost before: Seq<Rect> = out@;
            proof {
                assert(child@ == views(children@)[i as int]);
                assert(child@ == self@.subdivision()[i as int]);
                assert(child@.fits(below));
            }
            out.push(child);
            child.collect(depth - 1, out);
            proof {
                assert(views(before.push(child)) =~= views(before) + seq![child@]);
                assert(self@.completed(i as int + 1, below) =~= self@.completed(i as int, below)
                    + child@.family(below));
                assert(views(out@) =~= views(old(out)@) + self@.completed(i as int + 1, below));
            }
            i += 1;
        }
        proof {
            assert(self@.completed(4, below) =~= self@.descendants(depth as nat));
        }
    }
}

/// Every rectangle below `root` down to `depth` levels, in drawing order:
/// each corner rectangle, top-left first, is followed by all of its own
/// descendants before the next corner. `root` itself is left out.
pub fn generate(root: &Rect, depth: usize) -> (rectangles: Vec<Rect>)
    requires
        root.wf(),
        root@.fits(depth as nat),
    ensures
        views(rectangles@) == root@.descendants(depth as nat),
        rectangles@.len() == descendant_count(depth as nat),
        depth == 0 ==> rectangles@.len() == 0,
        forall|i: int| 0 <= i < rectangles@.len() ==> (#[trigger] rectangles@[i]).wf(),
{
    let mut rectangles: Vec<Rect> = Vec::new();
    root.collect(depth, &mut rectangles);
    proof {
        assert(views(rectangles@) =~= root@.descendants(depth as nat));
        lemma_descendants_len(root@, 0);
    }
    rectangles
}

impl RectView {
    /// The rectangle reached by taking the top-left corner `levels` times.
    spec fn nth_top_left(self, levels: nat) -> RectView
        decreases levels,
    {
        if levels == 0 {
            self
        } else {
            self.nth_top_left((levels - 1) as nat).top_left()
        }
    }

    /// The rectangle reached by taking the bottom-right corner `levels` times.
    spec fn nth_bottom_right(self, levels: nat) -> RectView
        decreases levels,
    {
        if levels == 0 {
            self
        } else {
            self.nth_bottom_right((levels - 1) as nat).bottom_right()
        }
    }

    /// `level` levels down, the top-left-most rectangle below `self` and the
    /// bottom-right-most rectangle below `high` can both be subdivided.
    spec fn rim_divisible(self, high: RectView, level: nat) -> bool {
        self.nth_top_left(level).divisible() && high.nth_bottom_right(level).divisible()
    }

    /// `self` has the size of `low` and `high` and lies between them on both
    /// axes.
    spec fn between(self, low: RectView, high: RectView) -> bool {
        &&& low.x <= self.x <= high.x
        &&& low.y <= self.y <= high.y
        &&& self.width == low.width == high.width
        &&& self.height == low.height == high.height
        &&& self.frac_bits == low.frac_bits == high.frac_bits
    }
}

/// Taking the top-left corner first or last reaches the same rectangle.
proof fn lemma_nth_top_left_shift(v: RectView, levels: nat)
    ensures
        v.top_left().nth_top_left(levels) == v.nth_top_left(levels + 1),
    decreases levels,
{
    if levels > 0 {
        lemma_nth_top_left_shift(v, (levels - 1) as nat);
    }
    assert(v.nth_top_left(levels + 1) == v.nth_top_left(levels).top_left());
}

/// Taking the bottom-right corner first or last reaches the same rectangle.
proof fn lemma_nth_bottom_right_shift(v: RectView, levels: nat)
    ensures
        v.bottom_right().nth_bottom_right(levels) == v.nth_bottom_right(levels + 1),
    decreases levels,
{
    if levels > 0 {
        lemma_nth_bottom_right_shift(v, (levels - 1) as nat);
    }
    assert(v.nth_bottom_right(levels + 1) == v.nth_bottom_right(levels).bottom_right());
}

/// A rectangle that lies between two divisible rectangles of its size is
/// divisible, and its corners lie between their outermost corners.
proof fn lemma_between_step(v: RectView, low: RectView, high: RectView)
    requires
        v.positive(),
        v.between(low, high),
        low.divisible(),
        high.divisible(),
    ensures
        v.divisible(),
        forall|i: int|
            0 <= i < 4 ==> (#[trigger] v.subdivision()[i]).between(
                low.top_left(),
                high.bottom_right(),
            ),
{
    assert(low.subdivision()[0].representable());
    assert(high.subdivision()[3].representable());
}

/// If the outermost rectangles of every level above `depth` can be
/// subdivided, so can everything between them.
proof fn lemma_rim_gives_fits(
    v: RectView,
    low: RectView,
    high: RectView,
    depth: nat,
)
    requires
        v.positive(),
        v.between(low, high),
        forall|k: nat| k < depth ==> #[trigger] low.rim_divisible(high, k),
    ensures
        v.fits(depth),
    decreases depth,
{
    if depth > 0 {
        let below = (depth - 1) as nat;
        assert(low.rim_divisible(high, 0));
        lemma_between_step(v, low, high);
        assert forall|k: nat| k < below implies #[trigger] low.top_left().rim_divisible(
            high.bottom_right(),
            k,
        ) by {
            lemma_nth_top_left_shift(low, k);
            lemma_nth_bottom_right_shift(high, k);
            assert(low.rim_divisible(high, k + 1));
        }
        assert(v.subdivision()[0].representable() && v.subdivision()[0] == v.top_left());
        assert(v.subdivision()[1].representable() && v.subdivision()[1] == v.top_right());
        assert(v.subdivision()[2].representable() && v.subdivision()[2] == v.bottom_left());
        assert(v.subdivision()[3].representable() && v.subdivision()[3] == v.bottom_right());
        lemma_rim_gives_fits(v.top_left(), low.top_left(), high.bottom_right(), below);
        lemma_rim_gives_fits(v.top_right(), low.top_left(), high.bottom_right(), below);
        lemma_rim_gives_fits(v.bottom_left(), low.top_left(), high.bottom_right(), below);
        lemma_rim_gives_fits(v.bottom_right(), low.top_left(), high.bottom_right(), below);
    }
}

/// If everything below a rectangle fits, the outermost rectangles of every
/// level above `depth` can be subdivided.
proof fn lemma_fits_gives_rim(v: RectView, depth: nat, level: nat)
    requires
        v.fits(depth),
        level < depth,
    ensures
        v.rim_divisible(v, level),
    decreases depth,
{
    if level > 0 {
        let below = (depth - 1) as nat;
        lemma_fits_gives_rim(v.top_left(), below, (level - 1) as nat);
        lemma_fits_gives_rim(v.bottom_right(), below, (level - 1) as nat);
        lemma_nth_top_left_shift(v, (level - 1) as nat);
        lemma_nth_bottom_right_shift(v, (level - 1) as nat);
    }
}

impl Rect {
    /// Whether every rectangle down to `depth` levels below `self` is
    /// representable, so that `generate` may be called with this depth.
    pub fn supports(&self, depth: usize) -> (ok: bool)
        requires
            self.wf(),
        ensures
            ok == self@.fits(depth as nat),
    {
        let mut low: Rect = *self;
        let mut high: Rect = *self;
        let mut level: usize = 0;
        while level < depth
            invariant
                level <= depth,
                self.wf(),
                low.wf(),
                high.wf(),
                low@ == self@.nth_top_left(level as nat),
                high@ == self@.nth_bottom_right(level as nat),
                forall|k: nat| k < level ==> #[trigger] self@.rim_divisible(self@, k),
            decreases depth - level,
        {
            if !low.can_subdivide() || !high.can_subdivide() {
                proof {
                    if self@.fits(depth as nat) {
                        lemma_fits_gives_rim(self@, depth as nat, level as nat);
                    }
                }
                return false;
            }
            let low_children: [Rect; 4] = low.subdivide();
            let high_children: [Rect; 4] = high.subdivide();
            proof {
                assert(low_children[0]@ == views(low_children@)[0]);
                assert(high_children[3]@ == views(high_children@)[3]);
                assert(self@.rim_divisible(self@, level as nat));
            }
            low = low_children[0];
            high = high_children[3];
            level += 1;
        }
        proof {
            lemma_rim_gives_fits(self@, self@, self@, depth as nat);
        }
        true
    }
}

} // verus!
