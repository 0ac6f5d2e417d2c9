use vstd::prelude::*;
use crate::style::Border;
use ratatui_textarea::TextArea;

verus! {

/// The text of a multi-line text area, edited by the `ratatui_textarea`
/// crate's editor, which it holds. The holder is opaque: none of the
/// editor's fields is modelled, and what the library knows of its contents
/// is what the names and calls below state. The editor is a public field so
/// that the program around the library can dress and draw it; it should do
/// so through a mutable borrow of the tree or grid that holds it, since
/// drawing stores where the editor is scrolled to.
#[verifier::external_body]
pub struct TextContent {
    pub area: TextArea<'static>,
}

/// The lines of text that a text area holds (its `lines` field, which
/// `TextArea::lines` hands out).
pub uninterp spec fn spec_text_lines(content: TextContent) -> Seq<Seq<char>>;

/// The text of each line.
pub open spec fn spec_string_lines(lines: Seq<String>) -> Seq<Seq<char>> {
    Seq::new(lines.len(), |i: int| lines[i]@)
}

/// Calls `TextArea::default`, which builds the text area from a single empty
/// line: it holds one empty line.
#[verifier::external_body]
fn empty_text_content() -> (r: TextContent)
    ensures
        spec_text_lines(r) == seq![Seq::<char>::empty()],
{
    TextContent { area: TextArea::default() }
}

/// The editor as it is after `TextArea::input` has handled `key`. The
/// editor's state (its lines, cursor, selection, undo history, yank buffer,
/// settings and the viewport stored at its last drawing) and the key decide
/// it; how (typing, moving the cursor, deleting, undoing, scrolling) takes
/// the editor's whole key map to say.
pub uninterp spec fn spec_after_key(content: TextContent, key: crossterm::event::KeyEvent) -> TextContent;

/// Calls `TextArea::input` with the terminal's key event: the editor
/// afterwards is [`spec_after_key`] of the editor before and the key. What
/// that is, line by line, is not stated here.
#[verifier::external_body]
fn text_content_input(content: &mut TextContent, key: crossterm::event::KeyEvent)
    ensures
        *final(content) == spec_after_key(*old(content), key),
{
    content.area.input(key);
}

/// Calls `TextArea::lines` and copies the lines out: exactly the lines the
/// text area holds.
#[verifier::external_body]
fn text_content_lines(content: &TextContent) -> (r: Vec<String>)
    ensures
        spec_string_lines(r@) == spec_text_lines(*content),
{
    let area: &TextArea<'_> = &content.area;
    area.lines().to_vec()
}

/// A multi-line text input: its text, whether its cursor is shown, and the
/// frame drawn around it, if any.
pub struct TextBox {
    pub text: TextContent,
    pub cursor_visible: bool,
    pub block: Option<Border>,
}

impl TextBox {
    /// An empty text box, without a frame, whose cursor is shown.
    pub fn new() -> (r: TextBox)
        ensures
            spec_text_lines(r.text) == seq![Seq::<char>::empty()],
            r.cursor_visible,
            r.block is None,
    {
        TextBox { text: empty_text_content(), cursor_visible: true, block: None }
    }

    /// Hands a key to the text for editing; nothing else changes.
    pub fn input(&mut self, key: &crate::keys::KeyInput)
        ensures
            final(self).text == spec_after_key(old(self).text, key.raw),
            final(self).cursor_visible == old(self).cursor_visible,
            final(self).block == old(self).block,
    {
        text_content_input(&mut self.text, key.raw);
    }

    /// The lines of text.
    pub fn lines(&self) -> (r: Vec<String>)
        ensures
            spec_string_lines(r@) == spec_text_lines(self.text),
    {
        text_content_lines(&self.text)
    }

    pub fn set_block(&mut self, block: Border)
        ensures
            final(self).block == Some(block),
            final(self).text == old(self).text,
            final(self).cursor_visible == old(self).cursor_visible,
    {
        self.block = Some(block);
    }
}

/// Shows or hides the cursor of a text box. Every text box that is not the
/// one being typed into hides its cursor.
pub fn set_cursor_visible(textarea: &mut TextBox, visible: bool)
    ensures
        final(textarea).cursor_visible == visible,
        final(textarea).text == old(textarea).text,
        final(textarea).block == old(textarea).block,
{
    textarea.cursor_visible = visible;
}

} // verus!
