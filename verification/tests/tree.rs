use breviewer::builder::{NodeHandle, UITreeBuilder};
use breviewer::config::{field_area, keybinds, reviews_area, Config, Field, Status};
use breviewer::geometry::{AreaDescription, Direction};
use breviewer::keys::{KeyCode, KeyEventKind, KeyInput};
use breviewer::report::report;
use breviewer::review::Reviews;
use breviewer::style::{Border, Color, Style};
use breviewer::textbox::TextBox;
use breviewer::tree::UITree;
use breviewer::ui::{UINode, Widget};
use crossterm::event::{KeyCode as RawCode, KeyEvent as RawKey, KeyModifiers};

fn key_kind(code: KeyCode, kind: KeyEventKind) -> KeyInput {
    let raw = match code {
        KeyCode::Esc => RawCode::Esc,
        KeyCode::Tab => RawCode::Tab,
        KeyCode::Left => RawCode::Left,
        KeyCode::Right => RawCode::Right,
        KeyCode::Up => RawCode::Up,
        KeyCode::Down => RawCode::Down,
        KeyCode::Enter => RawCode::Enter,
        KeyCode::Backspace => RawCode::Backspace,
        KeyCode::Char(c) => RawCode::Char(c),
        KeyCode::Other => RawCode::F(1),
    };
    KeyInput { code, kind, raw: RawKey::new(raw, KeyModifiers::NONE) }
}

fn key(code: KeyCode) -> KeyInput {
    key_kind(code, KeyEventKind::Press)
}

fn config() -> Config {
    Config {
        status: vec![
            Status { name: "PASS".to_string(), key: 'p' },
            Status { name: "FAIL".to_string(), key: 'f' },
        ],
        field: vec![Field { name: "Summary".to_string() }, Field { name: "Notes".to_string() }],
    }
}

/// The reviews grid above two fields, as the program lays them out.
fn layout(config: &Config) -> (UITree, NodeHandle, Vec<NodeHandle>) {
    let mut builder = UITreeBuilder::new();
    let grid = Reviews::new(Vec::new(), keybinds(&config.status),
        Border::bordered("Reviews".to_string(), Color::DarkGray));
    let reviews = builder.add(Widget::Reviews(grid), reviews_area());
    let mut fields = Vec::new();
    for (i, field) in config.field.iter().enumerate() {
        let mut text = TextBox::new();
        text.set_block(Border::bordered(field.name.clone(), Color::DarkGray));
        fields.push(builder.add(Widget::Text(text), field_area(i)));
    }
    (builder.build(), reviews, fields)
}

fn press(tree: &mut UITree, code: KeyCode) -> bool {
    let k = key(code);
    assert!(tree.accepts(&k));
    tree.handle_input(&k)
}

fn text(tree: &UITree, i: usize) -> &TextBox {
    match &tree.node(i).widget {
        Widget::Text(t) => t,
        Widget::Reviews(_) => panic!("not a text input"),
    }
}

fn grid(tree: &UITree, i: usize) -> &Reviews {
    match &tree.node(i).widget {
        Widget::Reviews(r) => r,
        Widget::Text(_) => panic!("not the reviews"),
    }
}

#[test]
fn build_links_neighbours_and_hovers_the_first() {
    let (tree, reviews, fields) = layout(&config());
    assert_eq!(reviews.index, 0);
    assert_eq!(fields.iter().map(|h| h.index).collect::<Vec<_>>(), vec![1, 2]);
    assert_eq!(tree.len(), 3);
    assert_eq!(tree.root(), Some(0));
    assert!(!tree.using_selection());
    let r = tree.node(0);
    assert_eq!((r.up, r.right, r.down, r.left), (None, None, Some(1), Some(2)));
    let a = tree.node(1);
    assert_eq!((a.up, a.right, a.down, a.left), (Some(0), Some(2), None, None));
    let b = tree.node(2);
    assert_eq!((b.up, b.right, b.down, b.left), (Some(0), Some(0), None, Some(1)));
    // the hovered reviews grid has a white frame, its own kept aside
    assert_eq!(grid(&tree, 0).block().style.fg, Some(Color::White));
    assert_eq!(tree.node(0).hover_base_style, Some(Style { fg: Some(Color::DarkGray) }));
    assert_eq!(grid(&tree, 0).block().title_style.fg, Some(Color::DarkGray));
    // the fields start deselected
    assert!(!text(&tree, 1).cursor_visible);
    assert_eq!(tree.node(1).hover_base_style, None);
}

#[test]
fn arrows_move_the_hover_and_restore_the_frame() {
    let (mut tree, _, _) = layout(&config());
    assert!(!press(&mut tree, KeyCode::Down));
    assert_eq!(tree.root(), Some(1));
    assert_eq!(grid(&tree, 0).block().style.fg, Some(Color::DarkGray));
    assert_eq!(tree.node(0).hover_base_style, None);
    assert_eq!(text(&tree, 1).block.as_ref().unwrap().style.fg, Some(Color::White));
    press(&mut tree, KeyCode::Down);
    assert_eq!(tree.root(), Some(1));
    press(&mut tree, KeyCode::Right);
    assert_eq!(tree.root(), Some(2));
    assert_eq!(text(&tree, 1).block.as_ref().unwrap().style.fg, Some(Color::DarkGray));
    press(&mut tree, KeyCode::Left);
    assert_eq!(tree.root(), Some(1));
    press(&mut tree, KeyCode::Up);
    assert_eq!(tree.root(), Some(0));
}

#[test]
fn tab_goes_round_the_widgets() {
    let (mut tree, _, _) = layout(&config());
    press(&mut tree, KeyCode::Tab);
    assert_eq!(tree.root(), Some(1));
    press(&mut tree, KeyCode::Tab);
    assert_eq!(tree.root(), Some(2));
    press(&mut tree, KeyCode::Tab);
    assert_eq!(tree.root(), Some(0));
}

#[test]
fn typing_into_a_selected_field() {
    let (mut tree, _, _) = layout(&config());
    press(&mut tree, KeyCode::Down);
    press(&mut tree, KeyCode::Enter);
    assert!(tree.using_selection());
    assert!(text(&tree, 1).cursor_visible);
    for c in "hiq".chars() {
        assert!(!press(&mut tree, KeyCode::Char(c)));
    }
    assert_eq!(text(&tree, 1).lines(), vec!["hiq".to_string()]);
    // Tab leaves the field and moves on in the same keystroke
    press(&mut tree, KeyCode::Tab);
    assert!(!tree.using_selection());
    assert!(!text(&tree, 1).cursor_visible);
    assert_eq!(tree.root(), Some(2));
    assert_eq!(text(&tree, 1).lines(), vec!["hiq".to_string()]);
    // Esc leaves a field without moving
    press(&mut tree, KeyCode::Enter);
    press(&mut tree, KeyCode::Esc);
    assert!(!tree.using_selection());
    assert_eq!(tree.root(), Some(2));
}

#[test]
fn q_quits_only_outside_a_widget() {
    let (mut tree, _, _) = layout(&config());
    assert!(press(&mut tree, KeyCode::Char('q')));
    assert!(press(&mut tree, KeyCode::Char('Q')));
    assert!(!press(&mut tree, KeyCode::Char('x')));
    press(&mut tree, KeyCode::Enter);
    assert!(!press(&mut tree, KeyCode::Char('q')));
}

#[test]
fn releases_are_ignored() {
    let (mut tree, _, _) = layout(&config());
    let k = key_kind(KeyCode::Down, KeyEventKind::Release);
    assert!(!tree.handle_input(&k));
    assert_eq!(tree.root(), Some(0));
    let k = key_kind(KeyCode::Enter, KeyEventKind::Repeat);
    tree.handle_input(&k);
    assert!(!tree.using_selection());
    press(&mut tree, KeyCode::Enter);
    let k = key_kind(KeyCode::Char('p'), KeyEventKind::Release);
    tree.handle_input(&k);
    assert!(grid(&tree, 0).reviews().is_empty());
    let k = key_kind(KeyCode::Char('p'), KeyEventKind::Repeat);
    tree.handle_input(&k);
    assert_eq!(grid(&tree, 0).reviews().len(), 1);
}

#[test]
fn the_reviews_grid_keeps_tab_and_leaves_on_esc() {
    let (mut tree, _, _) = layout(&config());
    press(&mut tree, KeyCode::Enter);
    assert!(grid(&tree, 0).is_active());
    assert_eq!(grid(&tree, 0).block().title_style.fg, Some(Color::LightBlue));
    press(&mut tree, KeyCode::Char('p'));
    press(&mut tree, KeyCode::Char('f'));
    press(&mut tree, KeyCode::Tab);
    assert!(tree.using_selection());
    assert_eq!(grid(&tree, 0).hovered(), 1);
    press(&mut tree, KeyCode::Esc);
    assert!(!tree.using_selection());
    assert!(!grid(&tree, 0).is_active());
    assert_eq!(grid(&tree, 0).block().title_style.fg, Some(Color::DarkGray));
    assert_eq!(tree.root(), Some(0));
}

#[test]
fn the_report_of_a_session() {
    let config = config();
    let (mut tree, reviews, fields) = layout(&config);
    press(&mut tree, KeyCode::Enter);
    for c in "pfp".chars() {
        press(&mut tree, KeyCode::Char(c));
    }
    press(&mut tree, KeyCode::Enter);
    for c in "ok".chars() {
        press(&mut tree, KeyCode::Char(c));
    }
    press(&mut tree, KeyCode::Esc);
    press(&mut tree, KeyCode::Esc);
    press(&mut tree, KeyCode::Down);
    press(&mut tree, KeyCode::Enter);
    press(&mut tree, KeyCode::Char('a'));
    press(&mut tree, KeyCode::Enter);
    press(&mut tree, KeyCode::Char('b'));
    press(&mut tree, KeyCode::Esc);
    let text = report(&config, &tree, reviews, &fields).unwrap();
    assert_eq!(text, "2 PASS 1 FAIL\nVM1 PASS ok\nVM2 FAIL \nVM3 PASS \n\n\nSummary: a\nb\n\nNotes: \n");
    assert!(matches!(reviews.borrow(&tree), Widget::Reviews(_)));
}

#[test]
fn report_refuses_handles_of_the_wrong_kind() {
    let config = config();
    let (tree, reviews, fields) = layout(&config);
    assert!(report(&config, &tree, fields[0], &fields).is_none());
    assert!(report(&config, &tree, reviews, &vec![reviews]).is_none());
    assert!(report(&config, &tree, NodeHandle { index: 7 }, &fields).is_none());
    assert!(report(&config, &tree, reviews, &vec![NodeHandle { index: 9 }]).is_none());
    // fewer handles than fields: only the fields with a handle are reported
    let text = report(&config, &tree, reviews, &vec![fields[1]]).unwrap();
    assert_eq!(text, "0 PASS 0 FAIL\n\n\nSummary: \n");
}

#[test]
fn every_reachable_widget_is_drawn_once() {
    let (mut tree, _, _) = layout(&config());
    assert_eq!(tree.draw_order(), vec![0, 1, 2]);
    // breadth first from the hovered node, neighbours up, right, down, left
    press(&mut tree, KeyCode::Left);
    assert_eq!(tree.root(), Some(2));
    assert_eq!(tree.draw_order(), vec![2, 0, 1]);
    let mut builder = UITreeBuilder::new();
    assert_eq!(builder.build().draw_order(), Vec::<usize>::new());
    let lone = Widget::Text(TextBox::new());
    builder = UITreeBuilder::new();
    builder.add(lone, AreaDescription::new(0, 0, 10, 10));
    let tree = builder.build();
    assert_eq!(tree.draw_order(), vec![0]);
    assert!(tree.tab_defined());
}

fn node(left: Option<usize>, up: Option<usize>) -> UINode {
    let mut n = UINode::new(Widget::Text(TextBox::new()), AreaDescription::new(0, 0, 1, 1));
    n.set_left(left);
    n.set_up(up);
    n
}

#[test]
fn a_cycle_to_the_left_never_ends() {
    // neither node has a right or down neighbour; going left cycles
    let tree = UITree::new(vec![node(Some(1), None), node(Some(0), None)], Some(0));
    assert!(!tree.chain_ends(0, Direction::Left));
    assert!(tree.chain_ends(0, Direction::Up));
    assert!(!tree.tab_defined());
    assert!(!tree.accepts(&key(KeyCode::Tab)));
    assert!(tree.accepts(&key(KeyCode::Down)));
    assert!(tree.accepts(&key_kind(KeyCode::Tab, KeyEventKind::Release)));
    // an unreachable node is not drawn
    let tree = UITree::new(vec![node(None, Some(2)), node(None, None), node(None, None)], Some(0));
    assert_eq!(tree.draw_order(), vec![0, 2]);
    assert!(tree.tab_defined());
}

#[test]
fn furthest_follows_links_to_the_end() {
    let tree = UITree::new(vec![node(None, None), node(Some(0), None), node(Some(1), None)], Some(2));
    assert_eq!(tree.furthest(2, Direction::Left), 0);
    assert_eq!(tree.furthest(0, Direction::Left), 0);
    assert!(tree.chain_ends(2, Direction::Left));
}

#[test]
fn the_full_layout_never_hangs_and_highlights_one_widget() {
    let mut config = config();
    config.field = (0..8).map(|i| Field { name: format!("F{}", i) }).collect();
    let (mut tree, _, fields) = layout(&config);
    assert_eq!(fields.len(), 8);
    for i in 0..tree.len() {
        assert!(tree.chain_ends(i, Direction::Up));
        assert!(tree.chain_ends(i, Direction::Left));
        assert!(tree.chain_ends(i, Direction::Right));
        assert!(tree.chain_ends(i, Direction::Down));
    }
    for step in 0..40 {
        assert!(tree.tab_defined());
        let code = match step % 5 {
            0 => KeyCode::Tab,
            1 => KeyCode::Right,
            2 => KeyCode::Down,
            3 => KeyCode::Tab,
            _ => KeyCode::Left,
        };
        press(&mut tree, code);
        let root = tree.root().unwrap();
        for i in 0..tree.len() {
            if i != root {
                assert_eq!(tree.node(i).hover_base_style, None);
            }
        }
        assert!(tree.node(root).hover_base_style.is_some());
        assert_eq!(tree.draw_order().len(), tree.len());
    }
}

/// Two empty text inputs side by side.
fn two_side_by_side() -> (UITree, NodeHandle, NodeHandle) {
    let mut builder = UITreeBuilder::new();
    let h1 = builder.add(Widget::Text(TextBox::new()), AreaDescription::new(0, 0, 50, 100));
    let h2 = builder.add(Widget::Text(TextBox::new()), AreaDescription::new(50, 0, 50, 100));
    (builder.build(), h1, h2)
}

fn lines_of(tree: &UITree, h: NodeHandle) -> Vec<String> {
    match h.borrow(tree) {
        Widget::Text(t) => t.lines(),
        Widget::Reviews(_) => panic!("not a text input"),
    }
}

#[test]
fn a_key_reaches_the_selected_text_input() {
    let mut builder = UITreeBuilder::new();
    let h = builder.add(Widget::Text(TextBox::new()), AreaDescription::new(0, 0, 100, 100));
    let mut tree = builder.build();
    press(&mut tree, KeyCode::Enter);
    assert!(!press(&mut tree, KeyCode::Char('q')));
    assert_eq!(lines_of(&tree, h), vec!["q".to_string()]);
}

#[test]
fn right_then_enter_types_into_the_right_hand_input() {
    let (mut tree, h1, h2) = two_side_by_side();
    press(&mut tree, KeyCode::Right);
    press(&mut tree, KeyCode::Enter);
    assert!(!press(&mut tree, KeyCode::Char('x')));
    assert_eq!(lines_of(&tree, h1), vec![String::new()]);
    assert_eq!(lines_of(&tree, h2), vec!["x".to_string()]);
}

#[test]
fn tab_wraps_from_the_last_input_to_the_first() {
    let (mut tree, h1, h2) = two_side_by_side();
    press(&mut tree, KeyCode::Tab);
    press(&mut tree, KeyCode::Tab);
    press(&mut tree, KeyCode::Enter);
    assert!(!press(&mut tree, KeyCode::Char('x')));
    assert_eq!(lines_of(&tree, h1), vec!["x".to_string()]);
    assert_eq!(lines_of(&tree, h2), vec![String::new()]);
}

#[test]
fn tab_in_a_selected_input_is_not_typed_and_moves_on() {
    let (mut tree, h1, h2) = two_side_by_side();
    press(&mut tree, KeyCode::Enter);
    press(&mut tree, KeyCode::Tab);
    press(&mut tree, KeyCode::Enter);
    assert!(!press(&mut tree, KeyCode::Char('y')));
    assert_eq!(lines_of(&tree, h1), vec![String::new()]);
    assert_eq!(lines_of(&tree, h2), vec!["y".to_string()]);
}

#[test]
fn only_the_hovered_widget_is_ever_selected() {
    let (mut tree, h1, h2) = two_side_by_side();
    let selected = |tree: &UITree, h: NodeHandle| match h.borrow(tree) {
        Widget::Text(t) => t.cursor_visible,
        Widget::Reviews(r) => r.is_active(),
    };
    assert!(!selected(&tree, h1) && !selected(&tree, h2));
    press(&mut tree, KeyCode::Enter);
    assert!(selected(&tree, h1) && !selected(&tree, h2));
    press(&mut tree, KeyCode::Tab);
    assert!(!selected(&tree, h1) && !selected(&tree, h2));
    assert_eq!(tree.root(), Some(1));
    press(&mut tree, KeyCode::Enter);
    assert!(!selected(&tree, h1) && selected(&tree, h2));
}

#[test]
fn borrow_mut_changes_the_named_widget_only() {
    let (mut tree, h1, h2) = two_side_by_side();
    let grid = Reviews::new(Vec::new(), keybinds(&config().status),
        Border::bordered("Reviews".to_string(), Color::DarkGray));
    *h2.borrow_mut(&mut tree) = Widget::Reviews(grid);
    assert!(matches!(h2.borrow(&tree), Widget::Reviews(_)));
    assert!(matches!(h1.borrow(&tree), Widget::Text(_)));
    assert_eq!(tree.root(), Some(0));
    if let Widget::Text(t) = h1.borrow_mut(&mut tree) {
        t.set_block(Border::bordered("Notes".to_string(), Color::DarkGray));
    }
    assert!(matches!(h1.borrow(&tree), Widget::Text(t) if t.block.is_some()));
}

#[test]
fn tab_walks_a_row_left_to_right_and_wraps() {
    for (k, w) in [(1u8, 100u8), (3, 30), (4, 25), (6, 10)] {
        let mut builder = UITreeBuilder::new();
        let handles: Vec<NodeHandle> = (0..k)
            .map(|i| builder.add(Widget::Text(TextBox::new()), AreaDescription::new(i * w, 0, w, 100)))
            .collect();
        let mut tree = builder.build();
        assert_eq!(tree.root(), Some(handles[0].index));
        for j in 1..=(2 * k as usize) {
            assert!(tree.tab_defined());
            tree.tab_next();
            assert_eq!(tree.root(), Some(handles[j % k as usize].index));
        }
    }
}

#[test]
fn the_hovered_widget_keeps_its_highlight() {
    let (mut tree, _, _) = layout(&config());
    let frame = |tree: &UITree, i: usize| match &tree.node(i).widget {
        Widget::Text(t) => t.block.as_ref().map(|b| b.style),
        Widget::Reviews(r) => Some(r.block().style),
    };
    let hover = Some(Style::new().fg(breviewer::style::HOVER_COLOR));
    assert_eq!(frame(&tree, 0), hover);
    press(&mut tree, KeyCode::Enter);
    press(&mut tree, KeyCode::Char('p'));
    press(&mut tree, KeyCode::Esc);
    assert_eq!(frame(&tree, 0), hover);
    press(&mut tree, KeyCode::Down);
    press(&mut tree, KeyCode::Enter);
    press(&mut tree, KeyCode::Char('x'));
    press(&mut tree, KeyCode::Tab);
    assert_eq!(tree.root(), Some(2));
    assert_eq!(frame(&tree, 2), hover);
    assert_ne!(frame(&tree, 0), hover);
    assert_ne!(frame(&tree, 1), hover);
}
