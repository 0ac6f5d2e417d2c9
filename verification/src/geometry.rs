use vstd::prelude::*;

verus! {

/// How a widget takes up the area of the terminal: each value is a
/// percentage (0 to 100) of the terminal's width or height.
#[derive(Clone, Copy, PartialEq, Eq, Structural, Debug)]
pub struct AreaDescription {
    pub x: u8,
    pub y: u8,
    pub w: u8,
    pub h: u8,
}

impl AreaDescription {
    pub open spec fn spec_left(self) -> int {
        self.x as int
    }

    pub open spec fn spec_right(self) -> int {
        self.x as int + self.w as int
    }

    pub open spec fn spec_top(self) -> int {
        self.y as int
    }

    pub open spec fn spec_bottom(self) -> int {
        self.y as int + self.h as int
    }

    pub open spec fn spec_center_x(self) -> int {
        self.x as int + self.w as int / 2
    }

    pub open spec fn spec_center_y(self) -> int {
        self.y as int + self.h as int / 2
    }

    pub fn new(x: u8, y: u8, w: u8, h: u8) -> (r: Self)
        ensures
            r == (AreaDescription { x, y, w, h }),
    {
        Self { x, y, w, h }
    }

    pub fn left(&self) -> (r: i32)
        ensures
            r == self.spec_left(),
    {
        self.x as i32
    }

    pub fn right(&self) -> (r: i32)
        ensures
            r == self.spec_right(),
    {
        self.x as i32 + self.w as i32
    }

    pub fn top(&self) -> (r: i32)
        ensures
            r == self.spec_top(),
    {
        self.y as i32
    }

    pub fn bottom(&self) -> (r: i32)
        ensures
            r == self.spec_bottom(),
    {
        self.y as i32 + self.h as i32
    }

    pub fn center_x(&self) -> (r: i32)
        ensures
            r == self.spec_center_x(),
    {
        self.left() + self.w as i32 / 2
    }

    pub fn center_y(&self) -> (r: i32)
        ensures
            r == self.spec_center_y(),
    {
        self.top() + self.h as i32 / 2
    }
}

/// Whether the half-open ranges `[a_start, a_end)` and `[b_start, b_end)`
/// intersect: both hold a point and they share one, so an empty range meets
/// nothing.
pub open spec fn spec_ranges_overlap(a_start: int, a_end: int, b_start: int, b_end: int) -> bool {
    a_start < a_end && b_start < b_end && a_start < b_end && b_start < a_end
}

pub fn ranges_overlap(a_start: i32, a_end: i32, b_start: i32, b_end: i32) -> (r: bool)
    ensures
        r == spec_ranges_overlap(a_start as int, a_end as int, b_start as int, b_end as int),
{
    a_start < a_end && b_start < b_end && a_start < b_end && b_start < a_end
}


/// One of the four directions in which a widget has a neighbour.
#[derive(Clone, Copy, PartialEq, Eq, Structural, Debug)]
pub enum Direction {
    Up,
    Right,
    Down,
    Left,
}

/// `b` lies beyond `a` in direction `dir` and overlaps it on the other axis
/// (a row or a column that lines up).
pub open spec fn spec_is_aligned(dir: Direction, a: AreaDescription, b: AreaDescription) -> bool {
    match dir {
        Direction::Up => spec_ranges_overlap(a.spec_left(), a.spec_right(), b.spec_left(), b.spec_right())
            && b.spec_bottom() <= a.spec_top(),
        Direction::Down => spec_ranges_overlap(a.spec_left(), a.spec_right(), b.spec_left(), b.spec_right())
            && b.spec_top() >= a.spec_bottom(),
        Direction::Left => spec_ranges_overlap(a.spec_top(), a.spec_bottom(), b.spec_top(), b.spec_bottom())
            && b.spec_right() <= a.spec_left(),
        Direction::Right => spec_ranges_overlap(a.spec_top(), a.spec_bottom(), b.spec_top(), b.spec_bottom())
            && b.spec_left() >= a.spec_right(),
    }
}

/// The gap between the facing edges of `a` and `b` in direction `dir`.
pub open spec fn spec_aligned_score(dir: Direction, a: AreaDescription, b: AreaDescription) -> int {
    match dir {
        Direction::Up => a.spec_top() - b.spec_bottom(),
        Direction::Down => b.spec_top() - a.spec_bottom(),
        Direction::Left => a.spec_left() - b.spec_right(),
        Direction::Right => b.spec_left() - a.spec_right(),
    }
}

/// The centre of `b` lies strictly beyond the centre of `a` in direction `dir`.
pub open spec fn spec_is_beyond(dir: Direction, a: AreaDescription, b: AreaDescription) -> bool {
    match dir {
        Direction::Up => b.spec_center_y() < a.spec_center_y(),
        Direction::Down => b.spec_center_y() > a.spec_center_y(),
        Direction::Left => b.spec_center_x() < a.spec_center_x(),
        Direction::Right => b.spec_center_x() > a.spec_center_x(),
    }
}

/// The squared distance between the centres of `a` and `b`.
pub open spec fn spec_center_distance(a: AreaDescription, b: AreaDescription) -> int {
    let dx = a.spec_center_x() - b.spec_center_x();
    let dy = a.spec_center_y() - b.spec_center_y();
    dx * dx + dy * dy
}

/// The candidates of a search: aligned ones first (`fallback == false`), or,
/// when there are none, those whose centre merely lies in the direction.
pub open spec fn spec_is_candidate(dir: Direction, fallback: bool, a: AreaDescription, b: AreaDescription) -> bool {
    if fallback {
        spec_is_beyond(dir, a, b)
    } else {
        spec_is_aligned(dir, a, b)
    }
}

/// How far a candidate is: the smaller, the nearer.
pub open spec fn spec_candidate_score(dir: Direction, fallback: bool, a: AreaDescription, b: AreaDescription) -> int {
    if fallback {
        spec_center_distance(a, b)
    } else {
        spec_aligned_score(dir, a, b)
    }
}

/// Some area other than `areas[i]` is a candidate.
pub open spec fn spec_has_candidate(areas: Seq<AreaDescription>, i: int, dir: Direction, fallback: bool) -> bool {
    exists|k: int| 0 <= k < areas.len() && k != i && #[trigger] spec_is_candidate(dir, fallback, areas[i], areas[k])
}

/// `j` is a candidate with the smallest score, and the first such in `areas`.
pub open spec fn spec_is_first_best(areas: Seq<AreaDescription>, i: int, dir: Direction, fallback: bool, j: int) -> bool {
    &&& 0 <= j < areas.len()
    &&& j != i
    &&& spec_is_candidate(dir, fallback, areas[i], areas[j])
    &&& forall|k: int| 0 <= k < areas.len() && k != i && #[trigger] spec_is_candidate(dir, fallback, areas[i], areas[k])
        ==> spec_candidate_score(dir, fallback, areas[i], areas[j]) <= spec_candidate_score(dir, fallback, areas[i], areas[k])
    &&& forall|k: int| 0 <= k < j && k != i && #[trigger] spec_is_candidate(dir, fallback, areas[i], areas[k])
        ==> spec_candidate_score(dir, fallback, areas[i], areas[k]) > spec_candidate_score(dir, fallback, areas[i], areas[j])
}

/// `r` is the neighbour of `areas[i]` in direction `dir`: the nearest
/// aligned area if there is one, else the nearest area whose centre lies in
/// that direction, else none (ties go to the one listed first).
pub open spec fn spec_is_neighbour(areas: Seq<AreaDescription>, i: int, dir: Direction, r: Option<usize>) -> bool {
    match r {
        Some(j) => if spec_has_candidate(areas, i, dir, false) {
            spec_is_first_best(areas, i, dir, false, j as int)
        } else {
            spec_is_first_best(areas, i, dir, true, j as int)
        },
        None => !spec_has_candidate(areas, i, dir, false) && !spec_has_candidate(areas, i, dir, true),
    }
}

/// The centre of `b` is not behind the centre of `a` in direction `dir`.
pub open spec fn spec_is_not_behind(dir: Direction, a: AreaDescription, b: AreaDescription) -> bool {
    match dir {
        Direction::Up => b.spec_center_y() <= a.spec_center_y(),
        Direction::Down => b.spec_center_y() >= a.spec_center_y(),
        Direction::Left => b.spec_center_x() <= a.spec_center_x(),
        Direction::Right => b.spec_center_x() >= a.spec_center_x(),
    }
}

/// A widget's neighbour is another widget, lying in the neighbour's
/// direction: its centre is never behind the widget's centre, and is
/// strictly beyond it when neither area is empty.
pub proof fn lemma_neighbour_lies_beyond(areas: Seq<AreaDescription>, i: int, dir: Direction, j: usize)
    requires
        0 <= i < areas.len(),
        spec_is_neighbour(areas, i, dir, Some(j)),
    ensures
        j != i,
        j < areas.len(),
        spec_is_not_behind(dir, areas[i], areas[j as int]),
        areas[i].w > 0 && areas[i].h > 0 && areas[j as int].w > 0 && areas[j as int].h > 0
            ==> spec_is_beyond(dir, areas[i], areas[j as int]),
{
    let a = areas[i];
    let b = areas[j as int];
    assert(b.w as int / 2 <= b.w && a.w as int / 2 >= 0);
    assert(b.h as int / 2 <= b.h && a.h as int / 2 >= 0);
    assert(b.w > 0 ==> b.w as int / 2 < b.w);
    assert(b.h > 0 ==> b.h as int / 2 < b.h);
    assert(a.w > 0 ==> a.w as int / 2 < a.w);
    assert(a.h > 0 ==> a.h as int / 2 < a.h);
    if !spec_has_candidate(areas, i, dir, false) {
        assert(spec_is_first_best(areas, i, dir, true, j as int));
    } else {
        assert(spec_is_first_best(areas, i, dir, false, j as int));
        assert(spec_is_aligned(dir, a, b));
    }
}

/// The areas stand side by side in one row, in order from left to right:
/// none is empty, all cover the same band of rows, and each ends at or
/// before the left edge of every one listed after it.
pub open spec fn spec_is_row(areas: Seq<AreaDescription>) -> bool {
    &&& forall|i: int|
        0 <= i < areas.len() ==> {
            &&& (#[trigger] areas[i]).w > 0
            &&& areas[i].h > 0
            &&& areas[i].y == areas[0].y
            &&& areas[i].h == areas[0].h
        }
    &&& forall|i: int, j: int|
        #![trigger areas[i], areas[j]]
        0 <= i < j < areas.len() ==> areas[i].spec_right() <= areas[j].spec_left()
}

/// In a row, a widget's neighbours are the widgets listed just before it
/// (left) and just after it (right); it has none above or below, the first
/// has none to the left and the last none to the right.
pub proof fn lemma_row_neighbours(areas: Seq<AreaDescription>, i: int, dir: Direction, r: Option<usize>)
    requires
        spec_is_row(areas),
        0 <= i < areas.len(),
        spec_is_neighbour(areas, i, dir, r),
    ensures
        r == match dir {
            Direction::Up | Direction::Down => None,
            Direction::Left => if i > 0 { Some((i - 1) as usize) } else { None },
            Direction::Right => if i + 1 < areas.len() { Some((i + 1) as usize) } else { None },
        },
{
    let a = areas[i];
    assert(a.w > 0 && a.h > 0);
    assert(a.w as int / 2 < a.w && a.w as int / 2 >= 0);
    assert(a.h as int / 2 < a.h && a.h as int / 2 >= 0);
    assert forall|k: int| 0 <= k < areas.len() && k != i implies {
        &&& !#[trigger] spec_is_candidate(Direction::Up, false, a, areas[k])
        &&& !spec_is_candidate(Direction::Up, true, a, areas[k])
        &&& !spec_is_candidate(Direction::Down, false, a, areas[k])
        &&& !spec_is_candidate(Direction::Down, true, a, areas[k])
        &&& (spec_is_candidate(Direction::Right, false, a, areas[k]) <==> k > i)
        &&& (spec_is_candidate(Direction::Right, true, a, areas[k]) <==> k > i)
        &&& (spec_is_candidate(Direction::Left, false, a, areas[k]) <==> k < i)
        &&& (spec_is_candidate(Direction::Left, true, a, areas[k]) <==> k < i)
    } by {
        let b = areas[k];
        assert(b.w > 0 && b.h > 0 && b.y == areas[0].y && b.h == areas[0].h);
        assert(a.y == areas[0].y && a.h == areas[0].h);
        assert(b.w as int / 2 < b.w && b.w as int / 2 >= 0);
        if k < i {
            assert(b.spec_right() <= a.spec_left());
        } else {
            assert(a.spec_right() <= b.spec_left());
        }
    }
    match dir {
        Direction::Up | Direction::Down => {
            if let Some(j) = r {
                assert(spec_is_candidate(dir, spec_has_candidate(areas, i, dir, false) == false, a, areas[j as int]));
            }
        },
        Direction::Right => {
            if i + 1 < areas.len() {
                assert(spec_is_candidate(dir, false, a, areas[i + 1]));
                assert(spec_has_candidate(areas, i, dir, false));
                let j = r->0 as int;
                assert(spec_is_first_best(areas, i, dir, false, j));
                assert(j > i);
                if j > i + 1 {
                    assert(areas[i + 1].spec_right() <= areas[j].spec_left());
                    assert(spec_candidate_score(dir, false, a, areas[j]) <= spec_candidate_score(dir, false, a, areas[i + 1]));
                }
            } else if let Some(j) = r {
                assert(spec_is_candidate(dir, spec_has_candidate(areas, i, dir, false) == false, a, areas[j as int]));
            }
        },
        Direction::Left => {
            if i > 0 {
                assert(spec_is_candidate(dir, false, a, areas[i - 1]));
                assert(spec_has_candidate(areas, i, dir, false));
                let j = r->0 as int;
                assert(spec_is_first_best(areas, i, dir, false, j));
                assert(j < i);
                if j < i - 1 {
                    assert(areas[j].spec_right() <= areas[i - 1].spec_left());
                    assert(spec_candidate_score(dir, false, a, areas[j]) <= spec_candidate_score(dir, false, a, areas[i - 1]));
                }
            } else if let Some(j) = r {
                assert(spec_is_candidate(dir, spec_has_candidate(areas, i, dir, false) == false, a, areas[j as int]));
            }
        },
    }
}

pub fn is_aligned(dir: Direction, a: &AreaDescription, b: &AreaDescription) -> (r: bool)
    ensures
        r == spec_is_aligned(dir, *a, *b),
{
    match dir {
        Direction::Up => ranges_overlap(a.left(), a.right(), b.left(), b.right()) && b.bottom() <= a.top(),
        Direction::Down => ranges_overlap(a.left(), a.right(), b.left(), b.right()) && b.top() >= a.bottom(),
        Direction::Left => ranges_overlap(a.top(), a.bottom(), b.top(), b.bottom()) && b.right() <= a.left(),
        Direction::Right => ranges_overlap(a.top(), a.bottom(), b.top(), b.bottom()) && b.left() >= a.right(),
    }
}

pub fn aligned_score(dir: Direction, a: &AreaDescription, b: &AreaDescription) -> (r: i64)
    ensures
        r == spec_aligned_score(dir, *a, *b),
{
    match dir {
        Direction::Up => (a.top() - b.bottom()) as i64,
        Direction::Down => (b.top() - a.bottom()) as i64,
        Direction::Left => (a.left() - b.right()) as i64,
        Direction::Right => (b.left() - a.right()) as i64,
    }
}

pub fn is_beyond(dir: Direction, a: &AreaDescription, b: &AreaDescription) -> (r: bool)
    ensures
        r == spec_is_beyond(dir, *a, *b),
{
    match dir {
        Direction::Up => b.center_y() < a.center_y(),
        Direction::Down => b.center_y() > a.center_y(),
        Direction::Left => b.center_x() < a.center_x(),
        Direction::Right => b.center_x() > a.center_x(),
    }
}

pub fn center_distance(a: &AreaDescription, b: &AreaDescription) -> (r: i64)
    ensures
        r == spec_center_distance(*a, *b),
{
    let dx = (a.center_x() - b.center_x()) as i64;
    let dy = (a.center_y() - b.center_y()) as i64;
    assert(-400 <= dx <= 400 && -400 <= dy <= 400);
    assert(0 <= dx * dx <= 160000 && 0 <= dy * dy <= 160000) by (nonlinear_arith)
        requires -400 <= dx <= 400, -400 <= dy <= 400;
    dx * dx + dy * dy
}

fn is_candidate(dir: Direction, fallback: bool, a: &AreaDescription, b: &AreaDescription) -> (r: bool)
    ensures
        r == spec_is_candidate(dir, fallback, *a, *b),
{
    if fallback {
        is_beyond(dir, a, b)
    } else {
        is_aligned(dir, a, b)
    }
}

fn candidate_score(dir: Direction, fallback: bool, a: &AreaDescription, b: &AreaDescription) -> (r: i64)
    ensures
        r == spec_candidate_score(dir, fallback, *a, *b),
{
    if fallback {
        center_distance(a, b)
    } else {
        aligned_score(dir, a, b)
    }
}

/// The first candidate with the smallest score, if any.
fn first_best(areas: &Vec<AreaDescription>, i: usize, dir: Direction, fallback: bool) -> (r: Option<usize>)
    requires
        i < areas.len(),
    ensures
        match r {
            Some(j) => spec_is_first_best(areas@, i as int, dir, fallback, j as int),
            None => !spec_has_candidate(areas@, i as int, dir, fallback),
        },
{
    let a = &areas[i];
    let mut best: Option<usize> = None;
    let mut best_score: i64 = 0;
    let mut j: usize = 0;
    while j < areas.len()
        invariant
            i < areas.len(),
            *a == areas@[i as int],
            j <= areas.len(),
            match best {
                Some(b) => {
                    &&& b < j
                    &&& b != i
                    &&& spec_is_candidate(dir, fallback, *a, areas@[b as int])
                    &&& best_score == spec_candidate_score(dir, fallback, *a, areas@[b as int])
                    &&& forall|k: int| 0 <= k < j && k != i && #[trigger] spec_is_candidate(dir, fallback, *a, areas@[k])
                        ==> best_score <= spec_candidate_score(dir, fallback, *a, areas@[k])
                    &&& forall|k: int| 0 <= k < b && k != i && #[trigger] spec_is_candidate(dir, fallback, *a, areas@[k])
                        ==> spec_candidate_score(dir, fallback, *a, areas@[k]) > best_score
                },
                None => forall|k: int| 0 <= k < j && k != i ==> !#[trigger] spec_is_candidate(dir, fallback, *a, areas@[k]),
            },
        decreases areas.len() - j,
    {
        if j != i && is_candidate(dir, fallback, a, &areas[j]) {
            let score = candidate_score(dir, fallback, a, &areas[j]);
            match best {
                Some(_) => {
                    if score < best_score {
                        best = Some(j);
                        best_score = score;
                    }
                },
                None => {
                    best = Some(j);
                    best_score = score;
                },
            }
        }
        j = j + 1;
    }
    best
}

/// The neighbour of `areas[i]` in direction `dir`, as [`spec_is_neighbour`]
/// describes it.
pub fn nearest(areas: &Vec<AreaDescription>, i: usize, dir: Direction) -> (r: Option<usize>)
    requires
        i < areas.len(),
    ensures
        spec_is_neighbour(areas@, i as int, dir, r),
{
    match first_best(areas, i, dir, false) {
        Some(j) => Some(j),
        None => first_best(areas, i, dir, true),
    }
}


/// A rectangle of terminal cells.
#[derive(Clone, Copy, PartialEq, Eq, Structural, Debug)]
pub struct Rect {
    pub x: u16,
    pub y: u16,
    pub width: u16,
    pub height: u16,
}

/// `a + b`, or `u16::MAX` where that overflows.
pub open spec fn spec_saturating_add(a: u16, b: u16) -> u16 {
    if a + b > u16::MAX { u16::MAX } else { (a + b) as u16 }
}

impl Rect {
    /// The right edge, saturating at `u16::MAX`.
    pub open spec fn spec_right(self) -> u16 {
        spec_saturating_add(self.x, self.width)
    }

    /// The bottom edge, saturating at `u16::MAX`.
    pub open spec fn spec_bottom(self) -> u16 {
        spec_saturating_add(self.y, self.height)
    }

    /// The overlap of two rectangles; empty (zero width or height) where they
    /// do not overlap.
    pub open spec fn spec_intersection(self, other: Rect) -> Rect {
        let x1 = if self.x >= other.x { self.x } else { other.x };
        let y1 = if self.y >= other.y { self.y } else { other.y };
        let x2 = if self.spec_right() <= other.spec_right() { self.spec_right() } else { other.spec_right() };
        let y2 = if self.spec_bottom() <= other.spec_bottom() { self.spec_bottom() } else { other.spec_bottom() };
        Rect {
            x: x1,
            y: y1,
            width: if x2 >= x1 { (x2 - x1) as u16 } else { 0 },
            height: if y2 >= y1 { (y2 - y1) as u16 } else { 0 },
        }
    }

    pub fn new(x: u16, y: u16, width: u16, height: u16) -> (r: Rect)
        ensures
            r == (Rect { x, y, width, height }),
    {
        Rect { x, y, width, height }
    }

    pub fn right(self) -> (r: u16)
        ensures
            r == self.spec_right(),
    {
        self.x.saturating_add(self.width)
    }

    pub fn bottom(self) -> (r: u16)
        ensures
            r == self.spec_bottom(),
    {
        self.y.saturating_add(self.height)
    }

    pub fn intersection(self, other: Rect) -> (r: Rect)
        ensures
            r == self.spec_intersection(other),
    {
        let x1 = if self.x >= other.x { self.x } else { other.x };
        let y1 = if self.y >= other.y { self.y } else { other.y };
        let x2 = if self.right() <= other.right() { self.right() } else { other.right() };
        let y2 = if self.bottom() <= other.bottom() { self.bottom() } else { other.bottom() };
        Rect { x: x1, y: y1, width: x2.saturating_sub(x1), height: y2.saturating_sub(y1) }
    }
}

} // verus!
