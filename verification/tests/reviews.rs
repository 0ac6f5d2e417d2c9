use breviewer::config::{keybinds, Status};
use breviewer::geometry::Rect;
use breviewer::keys::{KeyCode, KeyEventKind, KeyInput};
use breviewer::review::{Review, Reviews};
use breviewer::style::{Border, Color};
use breviewer::textbox::TextBox;
use crossterm::event::{KeyCode as RawCode, KeyEvent as RawKey, KeyModifiers};

fn key(code: KeyCode) -> KeyInput {
    let raw = match code {
        KeyCode::Esc => RawCode::Esc,
        KeyCode::Tab => RawCode::Tab,
        KeyCode::Left => RawCode::Left,
        KeyCode::Right => RawCode::Right,
        KeyCode::Up => RawCode::Up,
        KeyCode::Down => RawCode::Down,
        KeyCode::Enter => RawCode::Enter,
        KeyCode::Backspace => RawCode::Backspace,
        KeyCode::Char(c) => RawCode::Char(c),
        KeyCode::Other => RawCode::F(1),
    };
    KeyInput { code, kind: KeyEventKind::Press, raw: RawKey::new(raw, KeyModifiers::NONE) }
}

fn statuses() -> Vec<Status> {
    vec![
        Status { name: "PASS".to_string(), key: 'p' },
        Status { name: "FAIL".to_string(), key: 'f' },
        Status { name: "SKIP".to_string(), key: 'S' },
    ]
}

fn grid() -> Reviews {
    Reviews::new(Vec::new(), keybinds(&statuses()), Border::bordered("Reviews".to_string(), Color::DarkGray))
}

fn press(r: &mut Reviews, code: KeyCode) -> bool {
    r.handle_input(&key(code))
}

fn type_str(r: &mut Reviews, s: &str) {
    for c in s.chars() {
        press(r, KeyCode::Char(c));
    }
}

fn statuses_of(r: &Reviews) -> Vec<String> {
    r.reviews().iter().map(|x| x.status.clone()).collect()
}

#[test]
fn new_hides_every_cursor_and_starts_at_the_first() {
    let shown = Review { status: "PASS".to_string(), message: TextBox::new() };
    assert!(shown.message.cursor_visible);
    let r = Reviews::new(vec![shown, Review::new("FAIL".to_string())], keybinds(&statuses()),
        Border::bordered("Reviews".to_string(), Color::DarkGray));
    assert!(r.reviews().iter().all(|x| !x.message.cursor_visible));
    assert_eq!(r.hovered(), 0);
    assert_eq!(r.scroll(), 0);
    assert!(!r.is_active());
    assert!(!r.is_editing());
}

#[test]
fn a_bound_key_adds_a_review() {
    let mut r = grid();
    assert!(!press(&mut r, KeyCode::Char('p')));
    assert!(!press(&mut r, KeyCode::Char('F')));
    assert!(!press(&mut r, KeyCode::Char('x')));
    assert_eq!(statuses_of(&r), vec!["PASS", "FAIL"]);
    assert!(!r.reviews()[1].message.cursor_visible);
    assert_eq!(r.hovered(), 0);
}

#[test]
fn a_key_bound_in_upper_case_is_never_matched() {
    let mut r = grid();
    type_str(&mut r, "Ss");
    assert!(r.reviews().is_empty());
}

#[test]
fn left_and_right_stay_in_bounds() {
    let mut r = grid();
    press(&mut r, KeyCode::Right);
    press(&mut r, KeyCode::Left);
    assert_eq!(r.hovered(), 0);
    type_str(&mut r, "pfp");
    press(&mut r, KeyCode::Right);
    press(&mut r, KeyCode::Right);
    assert_eq!(r.hovered(), 2);
    press(&mut r, KeyCode::Right);
    assert_eq!(r.hovered(), 2);
    press(&mut r, KeyCode::Left);
    assert_eq!(r.hovered(), 1);
}

#[test]
fn tab_wraps_around() {
    let mut r = grid();
    press(&mut r, KeyCode::Tab);
    assert_eq!(r.hovered(), 0);
    type_str(&mut r, "pf");
    press(&mut r, KeyCode::Tab);
    assert_eq!(r.hovered(), 1);
    press(&mut r, KeyCode::Tab);
    assert_eq!(r.hovered(), 0);
}

#[test]
fn backspace_deletes_the_highlighted_review() {
    let mut r = grid();
    press(&mut r, KeyCode::Backspace);
    assert!(r.reviews().is_empty());
    type_str(&mut r, "pfp");
    press(&mut r, KeyCode::Right);
    press(&mut r, KeyCode::Backspace);
    assert_eq!(statuses_of(&r), vec!["PASS", "PASS"]);
    assert_eq!(r.hovered(), 1);
    press(&mut r, KeyCode::Backspace);
    assert_eq!(r.hovered(), 0);
    press(&mut r, KeyCode::Backspace);
    assert!(r.reviews().is_empty());
    assert_eq!(r.hovered(), 0);
}

#[test]
fn enter_edits_the_highlighted_message() {
    let mut r = grid();
    press(&mut r, KeyCode::Enter);
    assert!(!r.is_editing());
    type_str(&mut r, "pf");
    press(&mut r, KeyCode::Right);
    press(&mut r, KeyCode::Enter);
    assert!(r.is_editing());
    assert!(r.reviews()[1].message.cursor_visible);
    type_str(&mut r, "bad p");
    // while editing, arrows and Backspace go to the text
    press(&mut r, KeyCode::Left);
    press(&mut r, KeyCode::Backspace);
    assert_eq!(r.hovered(), 1);
    assert_eq!(r.reviews().len(), 2);
    assert_eq!(r.reviews()[1].message.lines(), vec!["badp".to_string()]);
    assert_eq!(r.reviews()[0].message.lines(), vec![String::new()]);
    // Esc stops editing but does not ask to be deselected
    assert!(!press(&mut r, KeyCode::Esc));
    assert!(!r.is_editing());
    assert!(!r.reviews()[1].message.cursor_visible);
    // now Esc does
    assert!(press(&mut r, KeyCode::Esc));
}

#[test]
fn tab_stops_editing() {
    let mut r = grid();
    type_str(&mut r, "p");
    press(&mut r, KeyCode::Enter);
    assert!(!press(&mut r, KeyCode::Tab));
    assert!(!r.is_editing());
    assert_eq!(r.reviews()[0].message.lines(), vec![String::new()]);
}

#[test]
fn scrolling() {
    let mut r = grid();
    press(&mut r, KeyCode::Up);
    assert_eq!(r.scroll(), 0);
    press(&mut r, KeyCode::Down);
    press(&mut r, KeyCode::Down);
    assert_eq!(r.scroll(), 2);
    r.scroll_up();
    assert_eq!(r.scroll(), 1);
    r.scroll_down();
    assert_eq!(r.scroll(), 2);
}

#[test]
fn select_and_block() {
    let mut r = grid();
    r.select();
    assert!(r.is_active());
    r.deselect();
    assert!(!r.is_active());
    r.set_block(Border::bordered("Other".to_string(), Color::White));
    assert_eq!(r.block().title, "Other");
    assert_eq!(r.block().style.fg, Some(Color::White));
}

#[test]
fn grid_dimensions() {
    assert_eq!(Reviews::grid_dims(Rect::new(0, 0, 100, 20)), (5, 5));
    assert_eq!(Reviews::grid_dims(Rect::new(0, 0, 59, 7)), (2, 1));
    assert_eq!(Reviews::grid_dims(Rect::new(0, 0, 10, 2)), (1, 1));
}

#[test]
fn cells_of_the_rows_shown() {
    let mut r = grid();
    for _ in 0..12 {
        type_str(&mut r, "p");
    }
    type_str(&mut r, "f");
    r.select();
    press(&mut r, KeyCode::Right);
    let inner = Rect::new(1, 1, 60, 8);
    // 3 columns, 2 rows shown, 5 rows in all
    let cells = r.cells(inner);
    assert_eq!(cells.len(), 6);
    assert_eq!(cells.iter().map(|c| c.index).collect::<Vec<_>>(), vec![0, 1, 2, 3, 4, 5]);
    assert_eq!(cells[4].area, Rect::new(21, 5, 20, 4));
    assert_eq!(cells[4].title, "VM5 PASS");
    assert_eq!(cells[1].color, Color::White);
    assert_eq!(cells[0].color, Color::Rgb(255, 165, 0));
    // scrolled too far: the last two rows are shown
    for _ in 0..10 {
        press(&mut r, KeyCode::Down);
    }
    let cells = r.cells(inner);
    assert_eq!(cells.iter().map(|c| c.index).collect::<Vec<_>>(), vec![9, 10, 11, 12]);
    assert_eq!(cells[3].title, "VM13 FAIL");
    assert_eq!(cells[3].area, Rect::new(1, 5, 20, 4));
}

#[test]
fn cells_clipped_to_a_small_area() {
    let mut r = grid();
    type_str(&mut r, "pp");
    let cells = r.cells(Rect::new(2, 3, 30, 3));
    assert_eq!(cells.len(), 1);
    assert_eq!(cells[0].area, Rect::new(2, 3, 20, 3));
    assert_eq!(cells[0].color, Color::Rgb(255, 165, 0));
    assert!(r.cells(Rect::new(0, 0, 0, 0)).len() == 1);
    assert!(grid().cells(Rect::new(0, 0, 40, 40)).is_empty());
}

#[test]
fn a_review_added_by_its_key_starts_empty() {
    let mut r = grid();
    assert!(!press(&mut r, KeyCode::Char('P')));
    assert_eq!(statuses_of(&r), vec!["PASS"]);
    assert_eq!(r.reviews()[0].message.lines(), vec![String::new()]);
    assert_eq!(Review::new("FAIL".to_string()).message.lines(), vec![String::new()]);
}

#[test]
fn keys_while_editing_are_typed_not_bound() {
    let mut r = Reviews::new(vec![Review::new("A".to_string())], keybinds(&statuses()),
        Border::bordered("Reviews".to_string(), Color::DarkGray));
    press(&mut r, KeyCode::Enter);
    type_str(&mut r, "pf");
    assert_eq!(statuses_of(&r), vec!["A"]);
    assert_eq!(r.reviews()[0].message.lines(), vec!["pf".to_string()]);
}

#[test]
fn a_message_text_changed_in_place() {
    let mut r = grid();
    type_str(&mut r, "pf");
    r.message_text_mut(1).area.insert_str("late");
    assert_eq!(r.reviews()[1].message.lines(), vec!["late".to_string()]);
    assert_eq!(r.reviews()[0].message.lines(), vec![String::new()]);
    assert_eq!(statuses_of(&r), vec!["PASS", "FAIL"]);
    assert!(!r.reviews()[1].message.cursor_visible);
}
