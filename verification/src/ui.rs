use vstd::prelude::*;
use crate::geometry::{AreaDescription, Direction};
use crate::keys::{KeyCode, KeyInput};
use crate::review::{Reviews, spec_restyled, lemma_restyled_view, lemma_restyled_twice, lemma_restyled_same, spec_reviews_step};
use crate::style::{Border, Color, Style, HOVER_COLOR};
use crate::textbox::{TextBox, set_cursor_visible, spec_after_key};

verus! {

broadcast use lemma_restyled_view, lemma_restyled_twice, lemma_restyled_same;

/// The kinds of widget the interface is made of.
pub enum Widget {
    /// A plain multi-line text input.
    Text(TextBox),
    /// The grid of reviews.
    Reviews(Reviews),
}

/// A widget placed in the interface, with its neighbours in each direction
/// (indices of other nodes of the same tree).
pub struct UINode {
    pub widget: Widget,
    pub area: AreaDescription,
    pub up: Option<usize>,
    pub right: Option<usize>,
    pub down: Option<usize>,
    pub left: Option<usize>,
    /// The frame style the widget had before it was hovered, kept so that
    /// unhovering restores it.
    pub hover_base_style: Option<Style>,
}

/// A reviews widget's state is consistent.
pub open spec fn spec_node_wf(n: UINode) -> bool {
    match n.widget {
        Widget::Reviews(r) => r@.wf(),
        Widget::Text(_) => true,
    }
}

/// The neighbour of `n` in direction `dir`.
pub open spec fn spec_link(n: UINode, dir: Direction) -> Option<usize> {
    match dir {
        Direction::Up => n.up,
        Direction::Right => n.right,
        Direction::Down => n.down,
        Direction::Left => n.left,
    }
}

/// `n` after it was selected: a text input shows its cursor; the reviews
/// grid becomes active and its title turns light blue.
pub open spec fn spec_selected(n: UINode) -> UINode {
    match n.widget {
        Widget::Text(t) => UINode { widget: Widget::Text(TextBox { cursor_visible: true, ..t }), ..n },
        Widget::Reviews(r) => UINode {
            widget: Widget::Reviews(
                spec_restyled(r, true, Border { title_style: Style { fg: Some(Color::LightBlue) }, ..r@.block }),
            ),
            ..n
        },
    }
}

/// `n` after it was deselected: a text input hides its cursor; the reviews
/// grid becomes inactive and its title turns dark gray.
pub open spec fn spec_deselected(n: UINode) -> UINode {
    match n.widget {
        Widget::Text(t) => UINode { widget: Widget::Text(TextBox { cursor_visible: false, ..t }), ..n },
        Widget::Reviews(r) => UINode {
            widget: Widget::Reviews(
                spec_restyled(r, false, Border { title_style: Style { fg: Some(Color::DarkGray) }, ..r@.block }),
            ),
            ..n
        },
    }
}

/// `n` after it became the hovered node: unless it is already hovered, its
/// frame (if it has one) keeps its style aside and turns white.
pub open spec fn spec_hovered(n: UINode) -> UINode {
    match n.hover_base_style {
        Some(_) => n,
        None => match n.widget {
            Widget::Text(t) => match t.block {
                Some(b) => UINode {
                    widget: Widget::Text(
                        TextBox { block: Some(Border { style: Style { fg: Some(HOVER_COLOR) }, ..b }), ..t },
                    ),
                    hover_base_style: Some(b.style),
                    ..n
                },
                None => n,
            },
            Widget::Reviews(r) => UINode {
                widget: Widget::Reviews(
                    spec_restyled(r, r@.active, Border { style: Style { fg: Some(HOVER_COLOR) }, ..r@.block }),
                ),
                hover_base_style: Some(r@.block.style),
                ..n
            },
        },
    }
}

/// `n` after it stopped being the hovered node: the style kept aside, if
/// any, is put back on its frame.
pub open spec fn spec_unhovered(n: UINode) -> UINode {
    match n.hover_base_style {
        None => n,
        Some(s) => match n.widget {
            Widget::Text(t) => UINode {
                widget: Widget::Text(
                    match t.block {
                        Some(b) => TextBox { block: Some(Border { style: s, ..b }), ..t },
                        None => t,
                    },
                ),
                hover_base_style: None,
                ..n
            },
            Widget::Reviews(r) => UINode {
                widget: Widget::Reviews(spec_restyled(r, r@.active, Border { style: s, ..r@.block })),
                hover_base_style: None,
                ..n
            },
        },
    }
}

/// Unhovering a node that was hovered puts back exactly what it was
/// before: the style kept aside is the one the frame had.
pub proof fn lemma_unhover_restores(n: UINode)
    requires
        n.hover_base_style is None,
    ensures
        spec_unhovered(spec_hovered(n)) == n,
{
}

/// Hovering an already hovered node changes nothing, so the style it had before
/// is never lost.
pub proof fn lemma_hover_idempotent(n: UINode)
    ensures
        spec_hovered(spec_hovered(n)) == spec_hovered(n),
{
}

/// Whether `n` is selected, receiving the keys: a text input shows its
/// cursor, the reviews grid is active.
pub open spec fn spec_is_selected(n: UINode) -> bool {
    match n.widget {
        Widget::Text(t) => t.cursor_visible,
        Widget::Reviews(r) => r@.active,
    }
}

/// Selecting selects, deselecting deselects, and the hover highlight and
/// keys handed to a node leave it as selected as it was.
pub proof fn lemma_selection_flags(n: UINode)
    ensures
        spec_is_selected(spec_selected(n)),
        !spec_is_selected(spec_deselected(n)),
        spec_is_selected(spec_hovered(n)) == spec_is_selected(n),
        spec_is_selected(spec_unhovered(n)) == spec_is_selected(n),
        forall|m: UINode, key: KeyInput, d: bool|
            #[trigger] spec_node_input(n, m, key, d) ==> spec_is_selected(m) == spec_is_selected(n),
{
}

/// A node that carries the hover highlight keeps it when it is selected,
/// deselected or handed a key.
pub proof fn lemma_hover_kept(n: UINode)
    requires
        spec_hovered(n) == n,
    ensures
        spec_hovered(spec_selected(n)) == spec_selected(n),
        spec_hovered(spec_deselected(n)) == spec_deselected(n),
        forall|m: UINode, key: KeyInput, d: bool|
            #[trigger] spec_node_input(n, m, key, d) ==> spec_hovered(m) == m,
{
}

/// A key may be handed to `n`: scrolling a reviews grid down must not
/// overflow.
pub open spec fn spec_accepts_input(n: UINode, key: KeyInput) -> bool {
    match n.widget {
        Widget::Reviews(r) => !r@.editing && key.code == KeyCode::Down ==> r@.scroll < usize::MAX,
        Widget::Text(_) => true,
    }
}

/// What handing `key` to `n` does, and whether `n` then asks to be
/// deselected (`d`). A text input asks on Esc and Tab and otherwise hands
/// the key to its editor ([`spec_after_key`]); the reviews grid follows
/// [`spec_reviews_step`]. Neither the area, the neighbours nor the hover
/// state change.
pub open spec fn spec_node_input(old: UINode, new: UINode, key: KeyInput, d: bool) -> bool {
    &&& new.area == old.area
    &&& new.up == old.up
    &&& new.right == old.right
    &&& new.down == old.down
    &&& new.left == old.left
    &&& new.hover_base_style == old.hover_base_style
    &&& match (old.widget, new.widget) {
        (Widget::Text(a), Widget::Text(b)) => {
            &&& d == (key.code == KeyCode::Esc || key.code == KeyCode::Tab)
            &&& b == (if d { a } else { TextBox { text: spec_after_key(a.text, key.raw), ..a } })
        },
        (Widget::Reviews(a), Widget::Reviews(b)) => {
            &&& d == (!a@.editing && key.code == KeyCode::Esc)
            &&& spec_reviews_step(a@, b@, key)
        },
        _ => false,
    }
}

impl UINode {
    pub open spec fn new_spec(widget: Widget, area: AreaDescription) -> UINode {
        UINode { widget, area, up: None, right: None, down: None, left: None, hover_base_style: None }
    }

    /// A node for `widget` placed at `area`, with no neighbours yet.
    pub fn new(widget: Widget, area: AreaDescription) -> (r: UINode)
        ensures
            r == UINode::new_spec(widget, area),
    {
        UINode { widget, area, up: None, right: None, down: None, left: None, hover_base_style: None }
    }

    /// Hands a key to the widget; returns true when the widget asks to be
    /// deselected.
    pub fn handle_input(&mut self, key: &KeyInput) -> (r: bool)
        requires
            spec_node_wf(*old(self)),
            spec_accepts_input(*old(self), *key),
        ensures
            spec_node_wf(*final(self)),
            spec_node_input(*old(self), *final(self), *key, r),
    {
        match &mut self.widget {
            Widget::Text(t) => {
                // Tab has no meaning inside a plain text input, so like Esc
                // it asks to be deselected rather than being typed.
                if key.code == KeyCode::Esc || key.code == KeyCode::Tab {
                    return true;
                }
                t.input(key);
                false
            },
            Widget::Reviews(r) => r.handle_input(key),
        }
    }

    pub fn select(&mut self)
        ensures
            *final(self) == spec_selected(*old(self)),
    {
        match &mut self.widget {
            Widget::Text(t) => set_cursor_visible(t, true),
            Widget::Reviews(r) => {
                r.select();
                let mut block = r.block().duplicate();
                block.title_style = Style::new().fg(Color::LightBlue);
                r.set_block(block);
            },
        }
    }

    pub fn deselect(&mut self)
        ensures
            *final(self) == spec_deselected(*old(self)),
    {
        match &mut self.widget {
            Widget::Text(t) => set_cursor_visible(t, false),
            Widget::Reviews(r) => {
                r.deselect();
                let mut block = r.block().duplicate();
                block.title_style = Style::new().fg(Color::DarkGray);
                r.set_block(block);
            },
        }
    }

    /// Called when this node becomes the hovered node.
    pub fn hover(&mut self)
        ensures
            *final(self) == spec_hovered(*old(self)),
    {
        if self.hover_base_style.is_none() {
            match &mut self.widget {
                Widget::Text(t) => {
                    match &t.block {
                        Some(b) => {
                            let base = b.style;
                            let mut block = b.duplicate();
                            block.style = Style::new().fg(HOVER_COLOR);
                            t.set_block(block);
                            self.hover_base_style = Some(base);
                        },
                        None => {},
                    }
                },
                Widget::Reviews(r) => {
                    let base = r.block().style;
                    let mut block = r.block().duplicate();
                    block.style = Style::new().fg(HOVER_COLOR);
                    r.set_block(block);
                    self.hover_base_style = Some(base);
                },
            }
        }
    }

    /// Called when this node stops being the hovered node.
    pub fn unhover(&mut self)
        ensures
            *final(self) == spec_unhovered(*old(self)),
    {
        match self.hover_base_style {
            Some(base) => {
                self.hover_base_style = None;
                match &mut self.widget {
                    Widget::Text(t) => {
                        match &t.block {
                            Some(b) => {
                                let mut block = b.duplicate();
                                block.style = base;
                                t.set_block(block);
                            },
                            None => {},
                        }
                    },
                    Widget::Reviews(r) => {
                        let mut block = r.block().duplicate();
                        block.style = base;
                        r.set_block(block);
                    },
                }
            },
            None => {},
        }
    }

    pub fn up(&self) -> (r: Option<usize>)
        ensures
            r == self.up,
    {
        self.up
    }

    pub fn right(&self) -> (r: Option<usize>)
        ensures
            r == self.right,
    {
        self.right
    }

    pub fn down(&self) -> (r: Option<usize>)
        ensures
            r == self.down,
    {
        self.down
    }

    pub fn left(&self) -> (r: Option<usize>)
        ensures
            r == self.left,
    {
        self.left
    }

    /// The neighbour in direction `dir`.
    pub fn link(&self, dir: Direction) -> (r: Option<usize>)
        ensures
            r == spec_link(*self, dir),
    {
        match dir {
            Direction::Up => self.up,
            Direction::Right => self.right,
            Direction::Down => self.down,
            Direction::Left => self.left,
        }
    }

    pub fn set_up(&mut self, node: Option<usize>)
        ensures
            *final(self) == (UINode { up: node, ..*old(self) }),
    {
        self.up = node;
    }

    pub fn set_right(&mut self, node: Option<usize>)
        ensures
            *final(self) == (UINode { right: node, ..*old(self) }),
    {
        self.right = node;
    }

    pub fn set_down(&mut self, node: Option<usize>)
        ensures
            *final(self) == (UINode { down: node, ..*old(self) }),
    {
        self.down = node;
    }

    pub fn set_left(&mut self, node: Option<usize>)
        ensures
            *final(self) == (UINode { left: node, ..*old(self) }),
    {
        self.left = node;
    }

    pub fn set_area(&mut self, area: AreaDescription)
        ensures
            *final(self) == (UINode { area, ..*old(self) }),
    {
        self.area = area;
    }
}

} // verus!
