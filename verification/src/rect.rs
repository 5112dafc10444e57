use vstd::prelude::*;

verus! {

/// An axis-aligned rectangle on the integer grid, given by its top-left
/// corner `(x, y)` and its extents `w` and `h`.
///
/// The constructors accept any extents; the predicates are total and treat
/// all edges as inclusive, so two rectangles that merely touch overlap, and
/// a rectangle contains itself.
#[derive(Debug, Default, Clone, Copy, PartialEq, Eq, Structural)]
pub struct Rect {
    pub x: i32,
    pub y: i32,
    pub w: i32,
    pub h: i32,
}

/// Half of `v`, rounded towards zero.
pub open spec fn half(v: int) -> int {
    if v >= 0 {
        v / 2
    } else {
        -((-v) / 2)
    }
}

impl Rect {
    /// The x coordinate of the right edge.
    pub open spec fn right(&self) -> int {
        self.x + self.w
    }

    /// The y coordinate of the bottom edge.
    pub open spec fn bottom(&self) -> int {
        self.y + self.h
    }

    /// The extents are nonnegative and the far corner is representable.
    pub open spec fn valid(&self) -> bool {
        &&& self.w >= 0
        &&& self.h >= 0
        &&& self.right() <= i32::MAX
        &&& self.bottom() <= i32::MAX
    }

    /// Width plus height: the measure that strictly shrinks from a
    /// rectangle to each of its quadrants, unless it is already zero.
    pub open spec fn span(&self) -> int {
        self.w + self.h
    }

    /// `other` lies fully inside `self`, edges inclusive.
    pub open spec fn spec_contains(&self, other: &Rect) -> bool {
        &&& self.x <= other.x
        &&& self.y <= other.y
        &&& self.right() >= other.right()
        &&& self.bottom() >= other.bottom()
    }

    /// The projections of `self` and `other` meet on both axes, edges
    /// inclusive.
    pub open spec fn spec_overlapps(&self, other: &Rect) -> bool {
        &&& self.x <= other.right()
        &&& self.right() >= other.x
        &&& self.y <= other.bottom()
        &&& self.bottom() >= other.y
    }

    /// The `i`-th quadrant of `self`: 0 is top-left, 1 top-right, 2
    /// bottom-left and 3 bottom-right. Each has half the width and half the
    /// height of `self`, rounded down.
    pub open spec fn spec_quadrant(&self, i: int) -> Rect {
        let w = self.w / 2;
        let h = self.h / 2;
        Rect {
            x: if i == 1 || i == 3 {
                (self.x + w) as i32
            } else {
                self.x
            },
            y: if i == 2 || i == 3 {
                (self.y + h) as i32
            } else {
                self.y
            },
            w: w as i32,
            h: h as i32,
        }
    }

    /// The first quadrant of `self`, in the order 0 to 3, that contains `r`;
    /// `None` when `r` straddles a quadrant boundary.
    pub open spec fn slot(&self, r: &Rect) -> Option<int> {
        if self.spec_quadrant(0).spec_contains(r) {
            Some(0)
        } else if self.spec_quadrant(1).spec_contains(r) {
            Some(1)
        } else if self.spec_quadrant(2).spec_contains(r) {
            Some(2)
        } else if self.spec_quadrant(3).spec_contains(r) {
            Some(3)
        } else {
            None
        }
    }

    pub fn new(x: i32, y: i32, w: i32, h: i32) -> (r: Rect)
        ensures
            r == (Rect { x, y, w, h }),
    {
        Rect { x, y, w, h }
    }

    /// The rectangle of extents `w` and `h` whose center is `(cx, cy)`, up to
    /// the rounding of the half extents towards zero.
    pub fn new_centered(cx: i32, cy: i32, w: i32, h: i32) -> (r: Rect)
        requires
            i32::MIN <= cx - half(w as int) <= i32::MAX,
            i32::MIN <= cy - half(h as int) <= i32::MAX,
        ensures
            r.x == cx - half(w as int),
            r.y == cy - half(h as int),
            r.w == w,
            r.h == h,
    {
        Rect { x: cx - w / 2, y: cy - h / 2, w, h }
    }

    /// Whether the extents are nonnegative and the far corner is
    /// representable.
    pub fn is_valid(&self) -> (b: bool)
        ensures
            b == self.valid(),
    {
        self.w >= 0 && self.h >= 0 && self.x as i64 + self.w as i64 <= i32::MAX as i64
            && self.y as i64 + self.h as i64 <= i32::MAX as i64
    }

    #[verifier::when_used_as_spec(spec_contains)]
    pub fn contains(&self, other: &Rect) -> (b: bool)
        ensures
            b == self.spec_contains(other),
    {
        self.x <= other.x && self.y <= other.y && self.x as i64 + self.w as i64 >= other.x as i64
            + other.w as i64 && self.y as i64 + self.h as i64 >= other.y as i64 + other.h as i64
    }

    #[verifier::when_used_as_spec(spec_overlapps)]
    pub fn overlapps(&self, other: &Rect) -> (b: bool)
        ensures
            b == self.spec_overlapps(other),
    {
        self.x as i64 <= other.x as i64 + other.w as i64 && self.x as i64 + self.w as i64
            >= other.x as i64 && self.y as i64 <= other.y as i64 + other.h as i64 && self.y as i64
            + self.h as i64 >= other.y as i64
    }

    pub fn quadrant(&self, i: usize) -> (q: Rect)
        requires
            self.valid(),
            i < 4,
        ensures
            q == self.spec_quadrant(i as int),
    {
        let w: i32 = self.w / 2;
        let h: i32 = self.h / 2;
        let x: i32 = if i == 1 || i == 3 {
            self.x + w
        } else {
            self.x
        };
        let y: i32 = if i == 2 || i == 3 {
            self.y + h
        } else {
            self.y
        };
        Rect { x, y, w, h }
    }
}

/// Containment is transitive.
pub proof fn lemma_contains_transitive(a: Rect, b: Rect, c: Rect)
    requires
        a.spec_contains(&b),
        b.spec_contains(&c),
    ensures
        a.spec_contains(&c),
{
}

/// Each quadrant of a valid rectangle is valid and lies inside it, and its
/// span is strictly smaller unless the rectangle is a single point.
pub proof fn lemma_quadrant(r: Rect, i: int)
    requires
        r.valid(),
        0 <= i < 4,
    ensures
        r.spec_quadrant(i).valid(),
        r.spec_contains(&r.spec_quadrant(i)),
        r.spec_quadrant(i).span() <= r.span(),
        r.span() > 0 ==> r.spec_quadrant(i).span() < r.span(),
{
}

/// Pruning, for containment queries: a query that contains some rectangle
/// of nonnegative extents inside `region` must overlap `region`.
pub proof fn lemma_contained_needs_overlap(query: Rect, region: Rect, e: Rect)
    requires
        region.spec_contains(&e),
        query.spec_contains(&e),
        e.w >= 0,
        e.h >= 0,
    ensures
        query.spec_overlapps(&region),
{
}

/// Pruning, for overlap queries: a query that overlaps some rectangle inside
/// `region` must overlap `region`.
pub proof fn lemma_overlapped_needs_overlap(query: Rect, region: Rect, e: Rect)
    requires
        region.spec_contains(&e),
        query.spec_overlapps(&e),
    ensures
        query.spec_overlapps(&region),
{
}

/// Shortcut, for overlap queries: a query that contains `region` overlaps
/// every rectangle of nonnegative extents inside `region`.
pub proof fn lemma_containing_query_overlapps(query: Rect, region: Rect, e: Rect)
    requires
        query.spec_contains(&region),
        region.spec_contains(&e),
        e.w >= 0,
        e.h >= 0,
    ensures
        query.spec_overlapps(&e),
{
}

} // verus!
