//! Monitor rectangles in logical (compositor) space, the bounding box of a
//! group of them, and the crop of a zone's shared frame that one member
//! monitor shows.
use vstd::prelude::*;

verus! {

/// An axis-aligned rectangle: top-left corner `(x, y)`, size `w` x `h`,
/// Y growing downward.
#[derive(Clone, Copy, Debug, PartialEq, Eq, Structural)]
pub struct Rect {
    pub x: i32,
    pub y: i32,
    pub w: i32,
    pub h: i32,
}

/// A named output and its logical rectangle.
#[derive(Debug, PartialEq, Eq)]
pub struct Monitor {
    pub name: String,
    pub logical: Rect,
}

impl Monitor {
    /// An identical copy.
    pub fn duplicate(&self) -> (r: Monitor)
        ensures
            r == *self,
    {
        Monitor { name: self.name.clone(), logical: self.logical }
    }
}

impl Clone for Monitor {
    fn clone(&self) -> (r: Monitor)
        ensures
            r == *self,
    {
        self.duplicate()
    }
}

pub open spec fn right_of(r: Rect) -> int {
    r.x + r.w
}

pub open spec fn bottom_of(r: Rect) -> int {
    r.y + r.h
}

pub open spec fn min_int(a: int, b: int) -> int {
    if a <= b { a } else { b }
}

pub open spec fn max_int(a: int, b: int) -> int {
    if a >= b { a } else { b }
}

/// Smallest left edge of a non-empty sequence of rects.
pub open spec fn min_left(rs: Seq<Rect>) -> int
    decreases rs.len(),
{
    if rs.len() <= 1 {
        rs[0].x as int
    } else {
        min_int(min_left(rs.drop_last()), rs.last().x as int)
    }
}

/// Smallest top edge of a non-empty sequence of rects.
pub open spec fn min_top(rs: Seq<Rect>) -> int
    decreases rs.len(),
{
    if rs.len() <= 1 {
        rs[0].y as int
    } else {
        min_int(min_top(rs.drop_last()), rs.last().y as int)
    }
}

/// Largest right edge of a non-empty sequence of rects.
pub open spec fn max_right(rs: Seq<Rect>) -> int
    decreases rs.len(),
{
    if rs.len() <= 1 {
        right_of(rs[0])
    } else {
        max_int(max_right(rs.drop_last()), right_of(rs.last()))
    }
}

/// Largest bottom edge of a non-empty sequence of rects.
pub open spec fn max_bottom(rs: Seq<Rect>) -> int
    decreases rs.len(),
{
    if rs.len() <= 1 {
        bottom_of(rs[0])
    } else {
        max_int(max_bottom(rs.drop_last()), bottom_of(rs.last()))
    }
}

pub open spec fn fits_i32(v: int) -> bool {
    i32::MIN <= v <= i32::MAX
}

/// Every edge and every extent computed by `Rect::union` is an `i32`:
/// the inputs on which the computation does not overflow.
pub open spec fn union_fits(rs: Seq<Rect>) -> bool {
    &&& forall|i: int| 0 <= i < rs.len() ==> fits_i32(#[trigger] right_of(rs[i]))
    &&& forall|i: int| 0 <= i < rs.len() ==> fits_i32(#[trigger] bottom_of(rs[i]))
    &&& (rs.len() > 0 ==> fits_i32(max_right(rs) - min_left(rs)))
    &&& (rs.len() > 0 ==> fits_i32(max_bottom(rs) - min_top(rs)))
}

/// The bounding box of a non-empty sequence of rects.
pub open spec fn union_spec(rs: Seq<Rect>) -> Rect {
    Rect {
        x: min_left(rs) as i32,
        y: min_top(rs) as i32,
        w: (max_right(rs) - min_left(rs)) as i32,
        h: (max_bottom(rs) - min_top(rs)) as i32,
    }
}

/// `min_left` and friends are attained by some member and bound every member.
pub proof fn lemma_extremes(rs: Seq<Rect>)
    requires
        rs.len() > 0,
    ensures
        forall|i: int| 0 <= i < rs.len() ==> min_left(rs) <= #[trigger] rs[i].x,
        forall|i: int| 0 <= i < rs.len() ==> min_top(rs) <= #[trigger] rs[i].y,
        forall|i: int| 0 <= i < rs.len() ==> max_right(rs) >= #[trigger] right_of(rs[i]),
        forall|i: int| 0 <= i < rs.len() ==> max_bottom(rs) >= #[trigger] bottom_of(rs[i]),
        exists|i: int| 0 <= i < rs.len() && min_left(rs) == #[trigger] rs[i].x,
        exists|i: int| 0 <= i < rs.len() && min_top(rs) == #[trigger] rs[i].y,
        exists|i: int| 0 <= i < rs.len() && max_right(rs) == #[trigger] right_of(rs[i]),
        exists|i: int| 0 <= i < rs.len() && max_bottom(rs) == #[trigger] bottom_of(rs[i]),
    decreases rs.len(),
{
    if rs.len() > 1 {
        let p = rs.drop_last();
        lemma_extremes(p);
        assert forall|i: int| 0 <= i < rs.len() implies min_left(rs) <= #[trigger] rs[i].x by {
            if i < rs.len() - 1 {
                assert(rs[i] == p[i]);
            }
        }
        assert forall|i: int| 0 <= i < rs.len() implies min_top(rs) <= #[trigger] rs[i].y by {
            if i < rs.len() - 1 {
                assert(rs[i] == p[i]);
            }
        }
        assert forall|i: int| 0 <= i < rs.len() implies max_right(rs) >= #[trigger] right_of(
            rs[i],
        ) by {
            if i < rs.len() - 1 {
                assert(rs[i] == p[i]);
            }
        }
        assert forall|i: int| 0 <= i < rs.len() implies max_bottom(rs) >= #[trigger] bottom_of(
            rs[i],
        ) by {
            if i < rs.len() - 1 {
                assert(rs[i] == p[i]);
            }
        }
        let last = rs.len() - 1;
        if min_left(p) <= rs.last().x {
            let j = choose|j: int| 0 <= j < p.len() && min_left(p) == #[trigger] p[j].x;
            assert(rs[j] == p[j]);
        } else {
            assert(min_left(rs) == rs[last].x);
        }
        if min_top(p) <= rs.last().y {
            let j = choose|j: int| 0 <= j < p.len() && min_top(p) == #[trigger] p[j].y;
            assert(rs[j] == p[j]);
        } else {
            assert(min_top(rs) == rs[last].y);
        }
        if max_right(p) >= right_of(rs.last()) {
            let j = choose|j: int| 0 <= j < p.len() && max_right(p) == #[trigger] right_of(p[j]);
            assert(rs[j] == p[j]);
        } else {
            assert(max_right(rs) == right_of(rs[last]));
        }
        if max_bottom(p) >= bottom_of(rs.last()) {
            let j = choose|j: int| 0 <= j < p.len() && max_bottom(p) == #[trigger] bottom_of(p[j]);
            assert(rs[j] == p[j]);
        } else {
            assert(max_bottom(rs) == bottom_of(rs[last]));
        }
    } else {
        assert(min_left(rs) == rs[0].x);
        assert(min_top(rs) == rs[0].y);
        assert(max_right(rs) == right_of(rs[0]));
        assert(max_bottom(rs) == bottom_of(rs[0]));
    }
}

/// The union of a group of rects contains each member (for rects with
/// non-negative size), and each of its four edges is an edge of some member:
/// it is the smallest rect containing them all.
pub proof fn law_union_is_smallest_enclosing(rs: Seq<Rect>)
    requires
        rs.len() > 0,
        union_fits(rs),
    ensures
        forall|i: int|
            0 <= i < rs.len() ==> union_spec(rs).x <= #[trigger] rs[i].x && right_of(rs[i])
                <= right_of(union_spec(rs)) && union_spec(rs).y <= rs[i].y && bottom_of(rs[i])
                <= bottom_of(union_spec(rs)),
        exists|i: int| 0 <= i < rs.len() && union_spec(rs).x == #[trigger] rs[i].x,
        exists|i: int| 0 <= i < rs.len() && union_spec(rs).y == #[trigger] rs[i].y,
        exists|i: int| 0 <= i < rs.len() && right_of(union_spec(rs)) == #[trigger] right_of(rs[i]),
        exists|i: int| 0 <= i < rs.len() && bottom_of(union_spec(rs)) == #[trigger] bottom_of(
            rs[i],
        ),
{
    lemma_extremes(rs);
    let i0 = choose|i: int| 0 <= i < rs.len() && min_left(rs) == #[trigger] rs[i].x;
    let i1 = choose|i: int| 0 <= i < rs.len() && min_top(rs) == #[trigger] rs[i].y;
    let i2 = choose|i: int| 0 <= i < rs.len() && max_right(rs) == #[trigger] right_of(rs[i]);
    let i3 = choose|i: int| 0 <= i < rs.len() && max_bottom(rs) == #[trigger] bottom_of(rs[i]);
    assert(union_spec(rs).x == rs[i0].x);
    assert(union_spec(rs).y == rs[i1].y);
    assert(right_of(union_spec(rs)) == right_of(rs[i2]));
    assert(bottom_of(union_spec(rs)) == bottom_of(rs[i3]));
}

impl Rect {
    /// Union of one or more rects: the smallest rect containing all of them.
    /// `None` for an empty slice.
    pub fn union(rects: &[Rect]) -> (res: Option<Rect>)
        requires
            union_fits(rects@),
        ensures
            rects@.len() == 0 <==> res is None,
            res matches Some(r) ==> r == union_spec(rects@),
    {
        if rects.len() == 0 {
            return None;
        }
        let first = rects[0];
        proof {
            assert(fits_i32(right_of(rects@[0])));
            assert(fits_i32(bottom_of(rects@[0])));
        }
        let mut min_x = first.x;
        let mut min_y = first.y;
        let mut max_x = first.x + first.w;
        let mut max_y = first.y + first.h;
        let mut i: usize = 1;
        while i < rects.len()
            invariant
                1 <= i <= rects@.len(),
                union_fits(rects@),
                min_x == min_left(rects@.take(i as int)),
                min_y == min_top(rects@.take(i as int)),
                max_x == max_right(rects@.take(i as int)),
                max_y == max_bottom(rects@.take(i as int)),
            decreases rects@.len() - i,
        {
            let r = rects[i];
            proof {
                assert(fits_i32(right_of(rects@[i as int])));
                assert(fits_i32(bottom_of(rects@[i as int])));
                assert(rects@.take(i + 1).drop_last() =~= rects@.take(i as int));
                assert(rects@.take(i + 1).last() == r);
            }
            if r.x < min_x {
                min_x = r.x;
            }
            if r.y < min_y {
                min_y = r.y;
            }
            if r.x + r.w > max_x {
                max_x = r.x + r.w;
            }
            if r.y + r.h > max_y {
                max_y = r.y + r.h;
            }
            i = i + 1;
        }
        proof {
            assert(rects@.take(rects@.len() as int) =~= rects@);
        }
        Some(Rect { x: min_x, y: min_y, w: max_x - min_x, h: max_y - min_y })
    }
}

/// Whether `Rect::union` can be computed on `rects` without overflow.
pub fn union_fits_exec(rects: &[Rect]) -> (r: bool)
    ensures
        r == union_fits(rects@),
{
    if rects.len() == 0 {
        return true;
    }
    let mut i: usize = 0;
    let mut min_x: i64 = 0;
    let mut min_y: i64 = 0;
    let mut max_x: i64 = 0;
    let mut max_y: i64 = 0;
    while i < rects.len()
        invariant
            i <= rects@.len(),
            rects@.len() > 0,
            forall|j: int| 0 <= j < i ==> fits_i32(#[trigger] right_of(rects@[j])),
            forall|j: int| 0 <= j < i ==> fits_i32(#[trigger] bottom_of(rects@[j])),
            i > 0 ==> min_x == min_left(rects@.take(i as int)),
            i > 0 ==> min_y == min_top(rects@.take(i as int)),
            i > 0 ==> max_x == max_right(rects@.take(i as int)),
            i > 0 ==> max_y == max_bottom(rects@.take(i as int)),
            i > 0 ==> fits_i32(min_x as int) && fits_i32(min_y as int) && fits_i32(max_x as int) && fits_i32(max_y as int),
        decreases rects@.len() - i,
    {
        let r = rects[i];
        let right = r.x as i64 + r.w as i64;
        let bottom = r.y as i64 + r.h as i64;
        if right < i32::MIN as i64 || right > i32::MAX as i64 || bottom < i32::MIN as i64 || bottom > i32::MAX as i64 {
            proof {
                assert(!fits_i32(right_of(rects@[i as int])) || !fits_i32(bottom_of(rects@[i as int])));
            }
            return false;
        }
        proof {
            if i > 0 {
                assert(rects@.take(i + 1).drop_last() =~= rects@.take(i as int));
            }
            assert(rects@.take(i + 1).last() == r);
        }
        if i == 0 {
            min_x = r.x as i64;
            min_y = r.y as i64;
            max_x = right;
            max_y = bottom;
        } else {
            if (r.x as i64) < min_x {
                min_x = r.x as i64;
            }
            if (r.y as i64) < min_y {
                min_y = r.y as i64;
            }
            if right > max_x {
                max_x = right;
            }
            if bottom > max_y {
                max_y = bottom;
            }
        }
        i = i + 1;
    }
    proof {
        assert(rects@.take(rects@.len() as int) =~= rects@);
    }
    let w = max_x - min_x;
    let h = max_y - min_y;
    w >= i32::MIN as i64 && w <= i32::MAX as i64 && h >= i32::MIN as i64 && h <= i32::MAX as i64
}

/// The lower-left corner, in GL framebuffer space (bottom-left origin, Y up),
/// of the part of a zone's shared frame that `monitor_logical` shows, given
/// the zone's `bounding_box` in logical space (top-left origin, Y down).
pub open spec fn src_origin_spec(bounding_box: Rect, monitor_logical: Rect) -> (int, int) {
    (
        monitor_logical.x - bounding_box.x,
        bounding_box.h - (monitor_logical.y - bounding_box.y) - monitor_logical.h,
    )
}

/// Computes the `(src_x0, src_y0)` lower-left corner of the sub-rect of a
/// zone's framebuffer that `monitor_logical` is blitted from. X runs the
/// same way in both spaces; the vertical offset is measured from the
/// bottom of the zone, since the frame's top row sits at the highest GL Y.
pub fn src_rect_for_monitor(bounding_box: Rect, monitor_logical: Rect) -> (res: (i32, i32))
    requires
        fits_i32(src_origin_spec(bounding_box, monitor_logical).0),
        fits_i32(monitor_logical.y - bounding_box.y),
        fits_i32(bounding_box.h - (monitor_logical.y - bounding_box.y)),
        fits_i32(src_origin_spec(bounding_box, monitor_logical).1),
    ensures
        res.0 as int == src_origin_spec(bounding_box, monitor_logical).0,
        res.1 as int == src_origin_spec(bounding_box, monitor_logical).1,
{
    let src_x0 = monitor_logical.x - bounding_box.x;
    let dist_from_top = monitor_logical.y - bounding_box.y;
    let src_y0 = bounding_box.h - dist_from_top - monitor_logical.h;
    (src_x0, src_y0)
}

/// A monitor whose rect equals the zone's bounding box samples from the
/// frame's origin, wherever it sits in logical space.
pub proof fn law_single_monitor_zone_samples_origin(r: Rect)
    ensures
        src_origin_spec(r, r) == (0int, 0int),
{
}

/// The crop origin lies inside the zone's frame, and the crop fits in it,
/// whenever the monitor lies inside the zone's bounding box.
pub proof fn law_crop_within_frame(bounding_box: Rect, monitor_logical: Rect)
    requires
        bounding_box.x <= monitor_logical.x,
        bounding_box.y <= monitor_logical.y,
        right_of(monitor_logical) <= right_of(bounding_box),
        bottom_of(monitor_logical) <= bottom_of(bounding_box),
    ensures
        0 <= src_origin_spec(bounding_box, monitor_logical).0,
        src_origin_spec(bounding_box, monitor_logical).0 + monitor_logical.w <= bounding_box.w,
        0 <= src_origin_spec(bounding_box, monitor_logical).1,
        src_origin_spec(bounding_box, monitor_logical).1 + monitor_logical.h <= bounding_box.h,
{
}

/// The four extremes of a non-empty list are the values that bound every
/// member and are reached by some member.
proof fn lemma_extremes_are(rs: Seq<Rect>, l: int, t: int, r: int, b: int)
    requires
        rs.len() > 0,
        forall|i: int| 0 <= i < rs.len() ==> l <= #[trigger] rs[i].x,
        forall|i: int| 0 <= i < rs.len() ==> t <= #[trigger] rs[i].y,
        forall|i: int| 0 <= i < rs.len() ==> r >= #[trigger] right_of(rs[i]),
        forall|i: int| 0 <= i < rs.len() ==> b >= #[trigger] bottom_of(rs[i]),
        exists|i: int| 0 <= i < rs.len() && l == #[trigger] rs[i].x,
        exists|i: int| 0 <= i < rs.len() && t == #[trigger] rs[i].y,
        exists|i: int| 0 <= i < rs.len() && r == #[trigger] right_of(rs[i]),
        exists|i: int| 0 <= i < rs.len() && b == #[trigger] bottom_of(rs[i]),
    ensures
        min_left(rs) == l,
        min_top(rs) == t,
        max_right(rs) == r,
        max_bottom(rs) == b,
{
    lemma_extremes(rs);
    let i1 = choose|i: int| 0 <= i < rs.len() && l == #[trigger] rs[i].x;
    let i2 = choose|i: int| 0 <= i < rs.len() && min_left(rs) == #[trigger] rs[i].x;
    assert(min_left(rs) <= rs[i1].x && l <= rs[i2].x);
    let j1 = choose|i: int| 0 <= i < rs.len() && t == #[trigger] rs[i].y;
    let j2 = choose|i: int| 0 <= i < rs.len() && min_top(rs) == #[trigger] rs[i].y;
    assert(min_top(rs) <= rs[j1].y && t <= rs[j2].y);
    let k1 = choose|i: int| 0 <= i < rs.len() && r == #[trigger] right_of(rs[i]);
    let k2 = choose|i: int| 0 <= i < rs.len() && max_right(rs) == #[trigger] right_of(rs[i]);
    assert(max_right(rs) >= right_of(rs[k1]) && r >= right_of(rs[k2]));
    let m1 = choose|i: int| 0 <= i < rs.len() && b == #[trigger] bottom_of(rs[i]);
    let m2 = choose|i: int| 0 <= i < rs.len() && max_bottom(rs) == #[trigger] bottom_of(rs[i]);
    assert(max_bottom(rs) >= bottom_of(rs[m1]) && b >= bottom_of(rs[m2]));
}

/// The bounding box, and whether computing it fits, depend only on which
/// rectangles are given: not on their order, nor on how often each is.
pub proof fn law_union_ignores_order_and_repeats(a: Seq<Rect>, b: Seq<Rect>)
    requires
        a.len() > 0,
        forall|r: Rect| a.contains(r) <==> b.contains(r),
    ensures
        b.len() > 0,
        union_spec(a) == union_spec(b),
        union_fits(a) <==> union_fits(b),
{
    assert(a.contains(a[0]));
    assert(b.contains(a[0]));
    lemma_extremes(a);
    lemma_extremes(b);
    assert forall|i: int| 0 <= i < b.len() implies exists|j: int| 0 <= j < a.len() && a[j] == #[trigger] b[i] by {
        assert(b.contains(b[i]));
        assert(a.contains(b[i]));
    }
    assert forall|i: int| 0 <= i < a.len() implies exists|j: int| 0 <= j < b.len() && b[j] == #[trigger] a[i] by {
        assert(a.contains(a[i]));
        assert(b.contains(a[i]));
    }
    assert forall|i: int| 0 <= i < b.len() implies min_left(a) <= #[trigger] b[i].x && min_top(a) <= b[i].y
        && max_right(a) >= right_of(b[i]) && max_bottom(a) >= bottom_of(b[i]) by {
        let j = choose|j: int| 0 <= j < a.len() && a[j] == b[i];
        assert(min_left(a) <= a[j].x && min_top(a) <= a[j].y && max_right(a) >= right_of(a[j]) && max_bottom(a)
            >= bottom_of(a[j]));
    }
    let i1 = choose|i: int| 0 <= i < a.len() && min_left(a) == #[trigger] a[i].x;
    let i2 = choose|i: int| 0 <= i < a.len() && min_top(a) == #[trigger] a[i].y;
    let i3 = choose|i: int| 0 <= i < a.len() && max_right(a) == #[trigger] right_of(a[i]);
    let i4 = choose|i: int| 0 <= i < a.len() && max_bottom(a) == #[trigger] bottom_of(a[i]);
    let j1 = choose|j: int| 0 <= j < b.len() && b[j] == a[i1];
    let j2 = choose|j: int| 0 <= j < b.len() && b[j] == a[i2];
    let j3 = choose|j: int| 0 <= j < b.len() && b[j] == a[i3];
    let j4 = choose|j: int| 0 <= j < b.len() && b[j] == a[i4];
    assert(min_left(a) == b[j1].x);
    assert(min_top(a) == b[j2].y);
    assert(max_right(a) == right_of(b[j3]));
    assert(max_bottom(a) == bottom_of(b[j4]));
    lemma_extremes_are(b, min_left(a), min_top(a), max_right(a), max_bottom(a));
    if union_fits(a) {
        assert forall|i: int| 0 <= i < b.len() implies fits_i32(#[trigger] right_of(b[i])) && fits_i32(bottom_of(b[i])) by {
            let j = choose|j: int| 0 <= j < a.len() && a[j] == b[i];
            assert(fits_i32(right_of(a[j])) && fits_i32(bottom_of(a[j])));
        }
        assert forall|i: int| 0 <= i < b.len() implies fits_i32(#[trigger] bottom_of(b[i])) by {
            let j = choose|j: int| 0 <= j < a.len() && a[j] == b[i];
            assert(fits_i32(bottom_of(a[j])));
        }
    }
    if union_fits(b) {
        assert forall|i: int| 0 <= i < a.len() implies fits_i32(#[trigger] right_of(a[i])) by {
            let j = choose|j: int| 0 <= j < b.len() && b[j] == a[i];
            assert(fits_i32(right_of(b[j])));
        }
        assert forall|i: int| 0 <= i < a.len() implies fits_i32(#[trigger] bottom_of(a[i])) by {
            let j = choose|j: int| 0 <= j < b.len() && b[j] == a[i];
            assert(fits_i32(bottom_of(b[j])));
        }
    }
}

/// The bounding box of one rectangle is that rectangle.
pub proof fn law_union_of_one(r: Rect)
    ensures
        union_spec(seq![r]) == r,
{
    assert(seq![r][0] == r);
}

/// Bounding two lists' boxes gives the box of the two lists together, when
/// each list's box fits.
pub proof fn law_union_regroups(a: Seq<Rect>, b: Seq<Rect>)
    requires
        a.len() > 0,
        b.len() > 0,
        union_fits(a),
        union_fits(b),
    ensures
        union_spec(seq![union_spec(a), union_spec(b)]) == union_spec(a + b),
{
    lemma_extremes(a);
    lemma_extremes(b);
    let c = a + b;
    let ua = union_spec(a);
    let ub = union_spec(b);
    let ia = choose|i: int| 0 <= i < a.len() && min_left(a) == #[trigger] a[i].x;
    let ib = choose|i: int| 0 <= i < b.len() && min_left(b) == #[trigger] b[i].x;
    let ta = choose|i: int| 0 <= i < a.len() && min_top(a) == #[trigger] a[i].y;
    let tb = choose|i: int| 0 <= i < b.len() && min_top(b) == #[trigger] b[i].y;
    let ra = choose|i: int| 0 <= i < a.len() && max_right(a) == #[trigger] right_of(a[i]);
    let rb = choose|i: int| 0 <= i < b.len() && max_right(b) == #[trigger] right_of(b[i]);
    let ba = choose|i: int| 0 <= i < a.len() && max_bottom(a) == #[trigger] bottom_of(a[i]);
    let bb = choose|i: int| 0 <= i < b.len() && max_bottom(b) == #[trigger] bottom_of(b[i]);
    assert(ua.x == min_left(a) && ua.y == min_top(a));
    assert(ub.x == min_left(b) && ub.y == min_top(b));
    assert(right_of(ua) == max_right(a) && bottom_of(ua) == max_bottom(a));
    assert(right_of(ub) == max_right(b) && bottom_of(ub) == max_bottom(b));
    let l = min_int(min_left(a), min_left(b));
    let t = min_int(min_top(a), min_top(b));
    let r = max_int(max_right(a), max_right(b));
    let bo = max_int(max_bottom(a), max_bottom(b));
    assert forall|i: int| 0 <= i < c.len() implies l <= #[trigger] c[i].x && t <= c[i].y && r >= right_of(c[i])
        && bo >= bottom_of(c[i]) by {
        if i < a.len() {
            assert(c[i] == a[i]);
        } else {
            assert(c[i] == b[i - a.len()]);
        }
    }
    assert(c[ia] == a[ia] && c[a.len() + ib] == b[ib]);
    assert(c[ta] == a[ta] && c[a.len() + tb] == b[tb]);
    assert(c[ra] == a[ra] && c[a.len() + rb] == b[rb]);
    assert(c[ba] == a[ba] && c[a.len() + bb] == b[bb]);
    assert(exists|i: int| 0 <= i < c.len() && l == #[trigger] c[i].x) by {
        if min_left(a) <= min_left(b) {
            assert(l == c[ia].x);
        } else {
            assert(l == c[a.len() + ib].x);
        }
    }
    assert(exists|i: int| 0 <= i < c.len() && t == #[trigger] c[i].y) by {
        if min_top(a) <= min_top(b) {
            assert(t == c[ta].y);
        } else {
            assert(t == c[a.len() + tb].y);
        }
    }
    assert(exists|i: int| 0 <= i < c.len() && r == #[trigger] right_of(c[i])) by {
        if max_right(a) >= max_right(b) {
            assert(r == right_of(c[ra]));
        } else {
            assert(r == right_of(c[a.len() + rb]));
        }
    }
    assert(exists|i: int| 0 <= i < c.len() && bo == #[trigger] bottom_of(c[i])) by {
        if max_bottom(a) >= max_bottom(b) {
            assert(bo == bottom_of(c[ba]));
        } else {
            assert(bo == bottom_of(c[a.len() + bb]));
        }
    }
    lemma_extremes_are(c, l, t, r, bo);
    let pair = seq![ua, ub];
    let one = seq![ua];
    assert(pair.drop_last() =~= one);
    assert(pair.last() == ub);
    assert(one[0] == ua);
    assert(min_left(one) == ua.x);
    assert(min_top(one) == ua.y);
    assert(max_right(one) == right_of(ua));
    assert(max_bottom(one) == bottom_of(ua));
    assert(min_left(pair) == min_int(min_left(one), ub.x as int));
    assert(min_top(pair) == min_int(min_top(one), ub.y as int));
    assert(min_left(pair) == l);
    assert(min_top(pair) == t);
    assert(max_right(pair) == r);
    assert(max_bottom(pair) == bo);
}

} // verus!
