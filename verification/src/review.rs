use vstd::prelude::*;
use std::collections::HashMap;
use crate::keys::{KeyCode, KeyInput, ascii_lower, spec_ascii_lower};
use crate::style::{Border, Color, HOVER_COLOR, review_color, spec_review_color};
use crate::textbox::{TextBox, TextContent, set_cursor_visible, spec_after_key, spec_text_lines};
use crate::geometry::Rect;
use crate::text::{push_decimal, spec_decimal};

verus! {

broadcast use vstd::std_specs::hash::group_hash_axioms;

/// Width of a review's cell in the grid, border included. Chosen so that a
/// terminal of reasonable size fits at least 24 reviews without scrolling.
pub const CELL_WIDTH: u16 = 20;

/// Height of a review's cell in the grid, border included.
pub const CELL_HEIGHT: u16 = 4;

/// One review: its status (one of the configured statuses) and a message.
pub struct Review {
    pub status: String,
    pub message: TextBox,
}

/// `r` with its message's cursor shown or hidden.
pub open spec fn spec_with_cursor(r: Review, visible: bool) -> Review {
    Review { message: TextBox { cursor_visible: visible, ..r.message }, ..r }
}

impl Review {
    /// A review with the given status and an empty message whose cursor is
    /// hidden.
    pub fn new(status: String) -> (r: Review)
        ensures
            r.status == status,
            spec_text_lines(r.message.text) == seq![Seq::<char>::empty()],
            !r.message.cursor_visible,
            r.message.block is None,
    {
        let mut area = TextBox::new();
        set_cursor_visible(&mut area, false);
        Review { status, message: area }
    }
}

/// A grid of reviews that the user adds to, deletes from, moves through and
/// edits.
pub struct Reviews {
    /// Which status a typed character adds a review with, by the character's
    /// code point.
    inputs: HashMap<u32, String>,
    reviews: Vec<Review>,
    block: Border,
    /// Index of the first grid row shown.
    scroll: usize,
    /// Index of the highlighted review.
    hovered: usize,
    /// Whether this widget is the one receiving input.
    active: bool,
    /// Whether the highlighted review's message is being typed into, as
    /// opposed to keys moving through the grid.
    editing: bool,
}

/// The state of a [`Reviews`] widget.
pub ghost struct ReviewsView {
    pub inputs: Map<u32, String>,
    pub reviews: Seq<Review>,
    pub block: Border,
    pub scroll: usize,
    pub hovered: usize,
    pub active: bool,
    pub editing: bool,
}

impl ReviewsView {
    /// The highlighted review exists whenever there is any, and only an
    /// existing review is edited.
    pub open spec fn wf(self) -> bool {
        &&& (self.reviews.len() == 0 ==> self.hovered == 0)
        &&& (self.reviews.len() > 0 ==> self.hovered < self.reviews.len())
        &&& (self.editing ==> self.reviews.len() > 0)
    }
}

impl View for Reviews {
    type V = ReviewsView;

    closed spec fn view(&self) -> ReviewsView {
        ReviewsView {
            inputs: self.inputs@,
            reviews: self.reviews@,
            block: self.block,
            scroll: self.scroll,
            hovered: self.hovered,
            active: self.active,
            editing: self.editing,
        }
    }
}

/// `r` with the given activity and frame, all else kept.
pub closed spec fn spec_restyled(r: Reviews, active: bool, block: Border) -> Reviews {
    Reviews { active, block, ..r }
}

pub broadcast proof fn lemma_restyled_view(r: Reviews, active: bool, block: Border)
    ensures
        #[trigger] spec_restyled(r, active, block)@ == (ReviewsView { active, block, ..r@ }),
{
}

pub broadcast proof fn lemma_restyled_twice(r: Reviews, a1: bool, b1: Border, a2: bool, b2: Border)
    ensures
        #[trigger] spec_restyled(spec_restyled(r, a1, b1), a2, b2) == spec_restyled(r, a2, b2),
{
}

pub broadcast proof fn lemma_restyled_same(r: Reviews)
    ensures
        #[trigger] spec_restyled(r, r@.active, r@.block) == r,
{
}

/// `a - b`, or 0 where that is negative.
pub open spec fn spec_saturating_sub(a: usize, b: usize) -> usize {
    if a >= b { (a - b) as usize } else { 0 }
}

/// What one key does to the reviews. A key typed into an edited message
/// leaves its text as the text editor makes it ([`spec_after_key`]).
pub open spec fn spec_reviews_step(old: ReviewsView, new: ReviewsView, key: KeyInput) -> bool {
    let code = key.code;
    let len = old.reviews.len();
    let h = old.hovered;
    if old.editing {
        if code == KeyCode::Esc || code == KeyCode::Tab {
            // stop editing the message, hiding its cursor
            new == ReviewsView {
                reviews: old.reviews.update(h as int, spec_with_cursor(old.reviews[h as int], false)),
                editing: false,
                ..old
            }
        } else {
            // the key goes to the message's text
            new == ReviewsView {
                reviews: old.reviews.update(
                    h as int,
                    Review {
                        message: TextBox {
                            text: spec_after_key(old.reviews[h as int].message.text, key.raw),
                            ..old.reviews[h as int].message
                        },
                        ..old.reviews[h as int]
                    },
                ),
                ..old
            }
        }
    } else {
        match code {
            KeyCode::Left => new == ReviewsView { hovered: spec_saturating_sub(h, 1), ..old },
            KeyCode::Right => new == ReviewsView {
                hovered: if h + 1 <= spec_saturating_sub(len as usize, 1) {
                    (h + 1) as usize
                } else {
                    spec_saturating_sub(len as usize, 1)
                },
                ..old
            },
            KeyCode::Up => new == ReviewsView { scroll: spec_saturating_sub(old.scroll, 1), ..old },
            KeyCode::Down => new == ReviewsView { scroll: (old.scroll + 1) as usize, ..old },
            KeyCode::Tab => if len > 0 {
                new == ReviewsView { hovered: ((h + 1) % (len as int)) as usize, ..old }
            } else {
                new == old
            },
            KeyCode::Enter => if len > 0 {
                new == ReviewsView {
                    reviews: old.reviews.update(h as int, spec_with_cursor(old.reviews[h as int], true)),
                    editing: true,
                    ..old
                }
            } else {
                new == old
            },
            KeyCode::Backspace => if len > 0 {
                new == ReviewsView {
                    reviews: old.reviews.remove(h as int),
                    hovered: if h <= spec_saturating_sub((len - 1) as usize, 1) {
                        h
                    } else {
                        spec_saturating_sub((len - 1) as usize, 1)
                    },
                    ..old
                }
            } else {
                new == old
            },
            KeyCode::Char(c) => if old.inputs.contains_key(spec_ascii_lower(c)) {
                // a new review with the status bound to the (lower case) key
                &&& new.reviews.len() == len + 1
                &&& new.reviews.take(len as int) == old.reviews
                &&& new.reviews[len as int].status@ == old.inputs[spec_ascii_lower(c)]@
                &&& spec_text_lines(new.reviews[len as int].message.text) == seq![Seq::<char>::empty()]
                &&& !new.reviews[len as int].message.cursor_visible
                &&& new.reviews[len as int].message.block is None
                &&& new == ReviewsView { reviews: new.reviews, ..old }
            } else {
                new == old
            },
            _ => new == old,
        }
    }
}

/// What the keys do to the grid while no message is edited (`h` is the
/// highlighted review, `len` the number of reviews). Tab moves the
/// highlight to the next review in reading order and from the last back to
/// the first; Left and Right move it one review back or on, stopping at
/// either end; Up and Down scroll one row; Enter starts editing the
/// highlighted message; Backspace deletes the highlighted review, keeping
/// the others in order, and the highlight stays at its place (on the last
/// review when it was on the last one); Esc changes nothing.
pub proof fn lemma_grid_keys(old: ReviewsView, new: ReviewsView, key: KeyInput)
    requires
        old.wf(),
        old.reviews.len() <= usize::MAX,
        !old.editing,
        spec_reviews_step(old, new, key),
    ensures
        key.code == KeyCode::Tab && old.reviews.len() > 0 ==> {
            &&& new.hovered == (if old.hovered + 1 < old.reviews.len() { old.hovered + 1 } else { 0 })
            &&& new.reviews == old.reviews
            &&& new.scroll == old.scroll
            &&& !new.editing
        },
        key.code == KeyCode::Left ==> new.hovered == (if old.hovered > 0 { old.hovered - 1 } else { 0 })
            && new.reviews == old.reviews && new.scroll == old.scroll,
        key.code == KeyCode::Right ==> new.hovered == (if old.hovered + 1 < old.reviews.len() {
            old.hovered + 1
        } else {
            old.hovered as int
        }) && new.reviews == old.reviews && new.scroll == old.scroll,
        key.code == KeyCode::Up ==> new.scroll == (if old.scroll > 0 { old.scroll - 1 } else { 0 })
            && new.reviews == old.reviews && new.hovered == old.hovered,
        key.code == KeyCode::Down && old.scroll < usize::MAX ==> new.scroll == old.scroll + 1 && new.reviews == old.reviews
            && new.hovered == old.hovered,
        key.code == KeyCode::Enter && old.reviews.len() > 0 ==> {
            &&& new.editing
            &&& new.hovered == old.hovered
            &&& new.reviews.len() == old.reviews.len()
            &&& new.reviews[old.hovered as int].message.cursor_visible
            &&& forall|i: int|
                0 <= i < old.reviews.len() ==> (#[trigger] new.reviews[i]).status == old.reviews[i].status
                    && new.reviews[i].message.text == old.reviews[i].message.text
        },
        key.code == KeyCode::Backspace && old.reviews.len() > 0 ==> {
            &&& new.reviews.len() == old.reviews.len() - 1
            &&& forall|i: int| 0 <= i < old.hovered ==> #[trigger] new.reviews[i] == old.reviews[i]
            &&& forall|i: int| old.hovered <= i < old.reviews.len() - 1 ==> #[trigger] new.reviews[i] == old.reviews[i + 1]
            &&& new.hovered == (if old.hovered + 1 < old.reviews.len() {
                old.hovered as int
            } else if old.reviews.len() >= 2 {
                old.reviews.len() - 2
            } else {
                0
            })
        },
        key.code == KeyCode::Esc ==> new == old,
{
    let h = old.hovered as int;
    let len = old.reviews.len() as int;
    if key.code == KeyCode::Tab && len > 0 {
        assert((h + 1) % len == (if h + 1 < len { h + 1 } else { 0 })) by (nonlinear_arith)
            requires
                0 <= h < len,
        ;
        assert(0 <= (h + 1) % len < len);
    }
}

/// What the keys do while the highlighted message is edited: the
/// highlight, the scroll and the reviews' statuses stay. Esc and Tab stop
/// editing and hide the message's cursor, keeping every text; any other
/// key goes to the edited message's editor, and no other message changes.
pub proof fn lemma_grid_editing_keys(old: ReviewsView, new: ReviewsView, key: KeyInput)
    requires
        old.wf(),
        old.editing,
        spec_reviews_step(old, new, key),
    ensures
        new.hovered == old.hovered,
        new.scroll == old.scroll,
        new.reviews.len() == old.reviews.len(),
        forall|i: int| 0 <= i < old.reviews.len() ==> (#[trigger] new.reviews[i]).status == old.reviews[i].status,
        forall|i: int| 0 <= i < old.reviews.len() && i != old.hovered ==> #[trigger] new.reviews[i] == old.reviews[i],
        key.code == KeyCode::Esc || key.code == KeyCode::Tab ==> {
            &&& !new.editing
            &&& !new.reviews[old.hovered as int].message.cursor_visible
            &&& new.reviews[old.hovered as int].message.text == old.reviews[old.hovered as int].message.text
        },
        !(key.code == KeyCode::Esc || key.code == KeyCode::Tab) ==> {
            &&& new.editing
            &&& new.reviews[old.hovered as int].message.text == spec_after_key(
                old.reviews[old.hovered as int].message.text,
                key.raw,
            )
        },
{
}

/// How many grid columns and rows fit in an area: at least one of each.
pub open spec fn spec_grid_dims(inner: Rect) -> (usize, usize) {
    let columns = inner.width / CELL_WIDTH;
    let rows = inner.height / CELL_HEIGHT;
    (if columns >= 1 { columns as usize } else { 1 }, if rows >= 1 { rows as usize } else { 1 })
}

/// The number of grid rows that `len` reviews fill.
pub open spec fn spec_total_rows(len: nat, columns: nat) -> nat {
    if len % columns == 0 { len / columns } else { len / columns + 1 }
}

/// The first grid row shown: the requested scroll, but never so far that
/// the last row could have been shown higher up.
pub open spec fn spec_shown_scroll(v: ReviewsView, inner: Rect) -> nat {
    let (columns, rows) = spec_grid_dims(inner);
    let total = spec_total_rows(v.reviews.len(), columns as nat);
    let max_scroll = if total >= rows { total - rows } else { 0 };
    if v.scroll <= max_scroll { v.scroll as nat } else { max_scroll as nat }
}

/// Review `i` is in one of the grid rows shown.
pub open spec fn spec_is_shown(v: ReviewsView, inner: Rect, i: int) -> bool {
    let (columns, rows) = spec_grid_dims(inner);
    let scroll = spec_shown_scroll(v, inner);
    &&& 0 <= i < v.reviews.len()
    &&& scroll <= i / (columns as int) < scroll + rows
}

/// Index of the first review shown.
pub open spec fn spec_first_shown(v: ReviewsView, inner: Rect) -> nat {
    let (columns, rows) = spec_grid_dims(inner);
    spec_shown_scroll(v, inner) * columns as nat
}

/// One past the index of the last review shown.
pub open spec fn spec_end_shown(v: ReviewsView, inner: Rect) -> nat {
    let (columns, rows) = spec_grid_dims(inner);
    let end = (spec_shown_scroll(v, inner) + rows) * columns;
    if end <= v.reviews.len() { end as nat } else { v.reviews.len() }
}

/// The cell of review `i`: its place in the grid, clipped to the area.
pub open spec fn spec_cell_area(v: ReviewsView, inner: Rect, i: int) -> Rect {
    let (columns, rows) = spec_grid_dims(inner);
    let col = i % (columns as int);
    let row = i / (columns as int) - spec_shown_scroll(v, inner);
    Rect {
        x: (inner.x + col * CELL_WIDTH) as u16,
        y: (inner.y + row * CELL_HEIGHT) as u16,
        width: CELL_WIDTH,
        height: CELL_HEIGHT,
    }.spec_intersection(inner)
}

/// The title of review `i`'s cell: `VM`, its number counted from 1, and
/// its status.
pub open spec fn spec_cell_title(i: int, status: Seq<char>) -> Seq<char> {
    seq!['V', 'M'] + spec_decimal((i + 1) as nat) + seq![' '] + status
}

/// The border colour of review `i`'s cell: highlighted when it is the
/// highlighted review of the active widget.
pub open spec fn spec_cell_color(v: ReviewsView, i: int) -> Color {
    if i == v.hovered && v.active { HOVER_COLOR } else { spec_review_color() }
}

/// `c` is the cell of review `i`.
pub open spec fn spec_is_cell(v: ReviewsView, inner: Rect, i: int, c: ReviewCell) -> bool {
    &&& c.index == i
    &&& c.area == spec_cell_area(v, inner, i)
    &&& c.title@ == spec_cell_title(i, v.reviews[i].status@)
    &&& c.color == spec_cell_color(v, i)
}

/// A review's cell as the grid draws it.
pub struct ReviewCell {
    pub index: usize,
    pub area: Rect,
    pub title: String,
    pub color: Color,
}

/// The shown reviews are those from the first shown to the end: exactly
/// those whose grid row lies in the window of rows shown.
pub proof fn lemma_shown_window(v: ReviewsView, inner: Rect, i: int)
    ensures
        spec_is_shown(v, inner, i) <==> (spec_first_shown(v, inner) <= i < spec_end_shown(v, inner)),
{
    let (columns, rows) = spec_grid_dims(inner);
    let c = columns as int;
    let s = spec_shown_scroll(v, inner) as int;
    let len = v.reviews.len() as int;
    let total = spec_total_rows(v.reviews.len(), columns as nat) as int;
    assert(c >= 1);
    assert(0 <= i ==> (s <= i / c <==> s * c <= i)) by (nonlinear_arith)
        requires c >= 1, s >= 0;
    assert(0 <= i ==> (i / c < s + rows <==> i < (s + rows) * c)) by (nonlinear_arith)
        requires c >= 1, s >= 0, rows >= 1;
}

impl Reviews {
    /// How many grid columns and rows fit in an area.
    pub fn grid_dims(inner: Rect) -> (r: (usize, usize))
        ensures
            r == spec_grid_dims(inner),
    {
        let columns = inner.width / CELL_WIDTH;
        let rows = inner.height / CELL_HEIGHT;
        (if columns >= 1 { columns as usize } else { 1 }, if rows >= 1 { rows as usize } else { 1 })
    }

    #[verifier::spinoff_prover]
    #[verifier::rlimit(40)]
    /// The cells to draw inside `inner` (the area within the widget's
    /// border): one for each review in the grid rows shown, in order.
    pub fn cells(&self, inner: Rect) -> (r: Vec<ReviewCell>)
        requires
            inner.x + (spec_grid_dims(inner).0 - 1) * CELL_WIDTH <= u16::MAX,
            inner.y + (spec_grid_dims(inner).1 - 1) * CELL_HEIGHT <= u16::MAX,
        ensures
            r@.len() == spec_end_shown(self@, inner) - spec_first_shown(self@, inner),
            forall|k: int| 0 <= k < r@.len() ==> spec_is_cell(self@, inner, spec_first_shown(self@, inner) + k, #[trigger] r@[k]),
    {
        let (columns, rows) = Self::grid_dims(inner);
        let len = self.reviews.len();
        proof {
            assert(columns == 1 ==> len % columns == 0);
            assert(columns >= 2 ==> len / columns < len || len == 0) by (nonlinear_arith)
                requires columns >= 1;
        }
        let total = if len % columns == 0 { len / columns } else { len / columns + 1 };
        let max_scroll = total.saturating_sub(rows);
        let scroll = if self.scroll <= max_scroll { self.scroll } else { max_scroll };
        proof {
            assert(total * columns >= len && (total == 0 || (total - 1) * columns < len)) by (nonlinear_arith)
                requires
                    columns >= 1,
                    len % columns == 0 ==> total == len / columns,
                    len % columns != 0 ==> total == len / columns + 1;
            assert(scroll * columns <= len) by (nonlinear_arith)
                requires
                    columns >= 1,
                    scroll <= total,
                    scroll == 0 || scroll < total,
                    total == 0 || (total - 1) * columns < len;
        }
        let first = scroll * columns;
        let end = if rows >= total - scroll {
            len
        } else {
            proof {
                assert((scroll + rows) * columns < len) by (nonlinear_arith)
                    requires
                        columns >= 1,
                        scroll + rows < total,
                        (total - 1) * columns < len;
            }
            (scroll + rows) * columns
        };
        proof {
            assert(scroll == spec_shown_scroll(self@, inner));
            if rows >= total - scroll {
                assert((scroll + rows) * columns >= len) by (nonlinear_arith)
                    requires columns >= 1, scroll + rows >= total, total * columns >= len;
            }
            assert(first == spec_first_shown(self@, inner));
            assert(end == spec_end_shown(self@, inner));
            assert(first <= end) by (nonlinear_arith)
                requires
                    first == scroll * columns,
                    first <= len,
                    end == len || end == (scroll + rows) * columns,
                    rows >= 1;
        }
        let mut cells: Vec<ReviewCell> = Vec::new();
        let mut i = first;
        while i < end
            invariant
                first <= i <= end,
                end <= len,
                len == self@.reviews.len(),
                first == spec_first_shown(self@, inner),
                end == spec_end_shown(self@, inner),
                scroll == spec_shown_scroll(self@, inner),
                (columns, rows) == spec_grid_dims(inner),
                first == scroll * columns,
                end <= (scroll + rows) * columns,
                inner.x + (columns - 1) * CELL_WIDTH <= u16::MAX,
                inner.y + (rows - 1) * CELL_HEIGHT <= u16::MAX,
                cells@.len() == i - first,
                forall|k: int| 0 <= k < cells@.len() ==> spec_is_cell(self@, inner, first + k, #[trigger] cells@[k]),
            decreases end - i,
        {
            let col = i % columns;
            let row = i / columns;
            proof {
                assert(scroll <= row < scroll + rows) by (nonlinear_arith)
                    requires
                        columns >= 1,
                        scroll * columns <= i,
                        i < (scroll + rows) * columns,
                        row == i / columns;
                assert(col * (CELL_WIDTH as int) <= (columns - 1) * CELL_WIDTH) by (nonlinear_arith)
                    requires
                        col < columns,
                        CELL_WIDTH == 20;
                assert((row - scroll) * (CELL_HEIGHT as int) <= (rows - 1) * CELL_HEIGHT) by (nonlinear_arith)
                    requires
                        row - scroll < rows,
                        row >= scroll,
                        CELL_HEIGHT == 4;
            }
            let x = inner.x + col as u16 * CELL_WIDTH;
            let y = inner.y + (row - scroll) as u16 * CELL_HEIGHT;
            let area = Rect { x, y, width: CELL_WIDTH, height: CELL_HEIGHT }.intersection(inner);
            let mut title = String::new();
            proof {
                reveal_strlit("VM");
                reveal_strlit(" ");
            }
            title.append("VM");
            push_decimal(&mut title, i + 1);
            title.append(" ");
            title.append(self.reviews[i].status.as_str());
            let color = if i == self.hovered && self.active { HOVER_COLOR } else { review_color() };
            assert(title@ == spec_cell_title(i as int, self@.reviews[i as int].status@));
            assert(x == inner.x + col * CELL_WIDTH);
            assert(y == inner.y + (row - scroll) * CELL_HEIGHT);
            assert(area == spec_cell_area(self@, inner, i as int));
            assert(color == spec_cell_color(self@, i as int));
            let cell = ReviewCell { index: i, area, title, color };
            assert(spec_is_cell(self@, inner, i as int, cell));
            let ghost prev = cells@;
            cells.push(cell);
            assert forall|k: int| 0 <= k < cells@.len() implies spec_is_cell(self@, inner, first + k, #[trigger] cells@[k]) by {
                if k < prev.len() {
                    assert(cells@[k] == prev[k]);
                }
            }
            i = i + 1;
        }
        cells
    }

    /// A widget holding `reviews`, every message's cursor hidden, the first
    /// review highlighted, not active and not editing.
    pub fn new(reviews: Vec<Review>, inputs: HashMap<u32, String>, block: Border) -> (r: Reviews)
        ensures
            r@.reviews.len() == reviews@.len(),
            forall|i: int| 0 <= i < reviews@.len() ==> #[trigger] r@.reviews[i] == spec_with_cursor(reviews@[i], false),
            r@.inputs == inputs@,
            r@.block == block,
            r@.scroll == 0,
            r@.hovered == 0,
            !r@.active,
            !r@.editing,
            r@.wf(),
    {
        let mut reviews = reviews;
        let ghost given = reviews@;
        let mut i: usize = 0;
        while i < reviews.len()
            invariant
                i <= reviews.len(),
                reviews@.len() == given.len(),
                forall|j: int| 0 <= j < i ==> #[trigger] reviews@[j] == spec_with_cursor(given[j], false),
                forall|j: int| i <= j < reviews@.len() ==> #[trigger] reviews@[j] == given[j],
            decreases reviews.len() - i,
        {
            set_cursor_visible(&mut reviews[i].message, false);
            i = i + 1;
        }
        Reviews { inputs, reviews, block, scroll: 0, hovered: 0, active: false, editing: false }
    }

    /// The reviews, to read. A message's editor must not be drawn through
    /// this shared reference (drawing stores where it is scrolled to, which
    /// the next key reads): draw it through [`Reviews::message_text_mut`].
    pub fn reviews(&self) -> (r: &Vec<Review>)
        ensures
            r@ == self@.reviews,
    {
        &self.reviews
    }

    /// The text of review `i`'s message, to change in place (the editor's
    /// own state, such as where it is scrolled to when drawn); the rest of
    /// the widget stays as it is.
    pub fn message_text_mut(&mut self, i: usize) -> (r: &mut TextContent)
        requires
            i < old(self)@.reviews.len(),
        ensures
            *r == old(self)@.reviews[i as int].message.text,
            final(self)@ == (ReviewsView {
                reviews: old(self)@.reviews.update(
                    i as int,
                    Review {
                        message: TextBox { text: *final(r), ..old(self)@.reviews[i as int].message },
                        ..old(self)@.reviews[i as int]
                    },
                ),
                ..old(self)@
            }),
    {
        &mut self.reviews[i].message.text
    }

    pub fn block(&self) -> (r: &Border)
        ensures
            *r == self@.block,
    {
        &self.block
    }

    pub fn set_block(&mut self, block: Border)
        ensures
            *final(self) == spec_restyled(*old(self), old(self)@.active, block),
            final(self)@ == (ReviewsView { block, ..old(self)@ }),
    {
        self.block = block;
    }

    pub fn hovered(&self) -> (r: usize)
        ensures
            r == self@.hovered,
    {
        self.hovered
    }

    pub fn scroll(&self) -> (r: usize)
        ensures
            r == self@.scroll,
    {
        self.scroll
    }

    pub fn is_active(&self) -> (r: bool)
        ensures
            r == self@.active,
    {
        self.active
    }

    pub fn is_editing(&self) -> (r: bool)
        ensures
            r == self@.editing,
    {
        self.editing
    }

    pub fn select(&mut self)
        ensures
            *final(self) == spec_restyled(*old(self), true, old(self)@.block),
            final(self)@ == (ReviewsView { active: true, ..old(self)@ }),
    {
        self.active = true;
    }

    pub fn deselect(&mut self)
        ensures
            *final(self) == spec_restyled(*old(self), false, old(self)@.block),
            final(self)@ == (ReviewsView { active: false, ..old(self)@ }),
    {
        self.active = false;
    }

    pub fn scroll_up(&mut self)
        ensures
            final(self)@ == (ReviewsView { scroll: spec_saturating_sub(old(self)@.scroll, 1), ..old(self)@ }),
    {
        self.scroll = self.scroll.saturating_sub(1);
    }

    pub fn scroll_down(&mut self)
        requires
            old(self)@.scroll < usize::MAX,
        ensures
            final(self)@ == (ReviewsView { scroll: (old(self)@.scroll + 1) as usize, ..old(self)@ }),
    {
        self.scroll = self.scroll + 1;
    }

    /// Moves the highlight to the next review in reading order, wrapping
    /// around after the last one.
    fn tab_next(&mut self)
        requires
            old(self)@.wf(),
        ensures
            final(self)@ == (if old(self)@.reviews.len() > 0 {
                ReviewsView { hovered: ((old(self)@.hovered + 1) % (old(self)@.reviews.len() as int)) as usize, ..old(self)@ }
            } else {
                old(self)@
            }),
    {
        if !self.reviews.is_empty() {
            let len = self.reviews.len();
            assert(self.hovered < len);
            self.hovered = (self.hovered + 1) % self.reviews.len();
        }
    }

    /// Handles one key. Returns true when the widget should no longer be
    /// selected: on Esc, unless a message is being edited (then Esc, like
    /// Tab, only stops editing it). While a message is edited every other key
    /// goes to its text. Otherwise Left and Right move the highlight, Up and
    /// Down scroll, Tab moves to the next review, Enter edits the
    /// highlighted message, Backspace deletes the highlighted review, and a
    /// character bound to a status (matched in lower case) adds a review with
    /// that status.
    pub fn handle_input(&mut self, key: &KeyInput) -> (r: bool)
        requires
            old(self)@.wf(),
            !old(self)@.editing && key.code == KeyCode::Down ==> old(self)@.scroll < usize::MAX,
        ensures
            final(self)@.wf(),
            r == (!old(self)@.editing && key.code == KeyCode::Esc),
            spec_reviews_step(old(self)@, final(self)@, *key),
    {
        let ghost old_view = self@;
        if self.editing {
            let h = self.hovered;
            if key.code == KeyCode::Esc || key.code == KeyCode::Tab {
                set_cursor_visible(&mut self.reviews[h].message, false);
                self.editing = false;
            } else {
                self.reviews[h].message.input(key);
            }
            assert(self@.reviews =~= old_view.reviews.update(h as int, self@.reviews[h as int]));
            return false;
        }
        match key.code {
            KeyCode::Left => self.hovered = self.hovered.saturating_sub(1),
            KeyCode::Right => {
                let last = self.reviews.len().saturating_sub(1);
                let next = self.hovered + 1;
                self.hovered = if next <= last { next } else { last };
            },
            KeyCode::Up => self.scroll_up(),
            KeyCode::Down => self.scroll_down(),
            KeyCode::Tab => self.tab_next(),
            KeyCode::Enter => {
                if !self.reviews.is_empty() {
                    self.editing = true;
                    let h = self.hovered;
                    set_cursor_visible(&mut self.reviews[h].message, true);
                    assert(self@.reviews =~= old_view.reviews.update(h as int, self@.reviews[h as int]));
                }
            },
            KeyCode::Backspace => {
                if !self.reviews.is_empty() {
                    self.reviews.remove(self.hovered);
                    let last = self.reviews.len().saturating_sub(1);
                    self.hovered = if self.hovered <= last { self.hovered } else { last };
                }
            },
            KeyCode::Esc => return true,
            KeyCode::Char(c) => {
                let lower = ascii_lower(c);
                match self.inputs.get(&lower) {
                    Some(status) => {
                        let status = status.clone();
                        self.reviews.push(Review::new(status));
                        assert(self@.reviews.take(old_view.reviews.len() as int) =~= old_view.reviews);
                    },
                    None => {},
                }
            },
            _ => {},
        }
        false
    }
}

} // verus!
