use vstd::prelude::*;

verus! {

/// The colours the interface uses.
#[derive(Clone, Copy, PartialEq, Eq, Structural, Debug)]
pub enum Color {
    DarkGray,
    White,
    LightBlue,
    Rgb(u8, u8, u8),
}

/// Highlight colour of the hovered widget's border, shared by every widget
/// (and by the hovered review cell inside the reviews grid).
pub const HOVER_COLOR: Color = Color::White;

/// The border colour of a review cell that is not highlighted (orange).
pub open spec fn spec_review_color() -> Color {
    Color::Rgb(255, 165, 0)
}

pub fn review_color() -> (r: Color)
    ensures
        r == spec_review_color(),
{
    Color::Rgb(255, 165, 0)
}

/// The part of a style that the interface sets: its foreground colour.
#[derive(Clone, Copy, PartialEq, Eq, Structural, Debug)]
pub struct Style {
    pub fg: Option<Color>,
}

impl Style {
    /// The default style, which sets nothing.
    pub fn new() -> (r: Style)
        ensures
            r.fg is None,
    {
        Style { fg: None }
    }

    /// This style with its foreground set to `color`.
    pub fn fg(self, color: Color) -> (r: Style)
        ensures
            r.fg == Some(color),
    {
        Style { fg: Some(color) }
    }
}

/// A bordered frame around a widget, with a title.
pub struct Border {
    pub title: String,
    /// Style of the border and of everything inside it.
    pub style: Style,
    /// Style of the title alone.
    pub title_style: Style,
}

impl Border {
    /// A bordered frame with the given title, drawn in `color`.
    pub fn bordered(title: String, color: Color) -> (r: Border)
        ensures
            r.title@ == title@,
            r.style.fg == Some(color),
            r.title_style.fg is None,
    {
        Border { title, style: Style { fg: Some(color) }, title_style: Style { fg: None } }
    }

    /// A copy of this frame.
    pub fn duplicate(&self) -> (r: Border)
        ensures
            r == *self,
    {
        Border { title: self.title.clone(), style: self.style, title_style: self.title_style }
    }
}

} // verus!
