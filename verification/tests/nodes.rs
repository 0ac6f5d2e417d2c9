use breviewer::geometry::AreaDescription;
use breviewer::review::Reviews;
use breviewer::style::{Border, Color, Style, HOVER_COLOR};
use breviewer::textbox::{set_cursor_visible, TextBox};
use breviewer::ui::{UINode, Widget};
use std::collections::HashMap;

fn framed_text() -> UINode {
    let mut t = TextBox::new();
    t.set_block(Border::bordered("Notes".to_string(), Color::DarkGray));
    UINode::new(Widget::Text(t), AreaDescription::new(0, 80, 25, 10))
}

fn frame_color(n: &UINode) -> Option<Color> {
    match &n.widget {
        Widget::Text(t) => t.block.as_ref().and_then(|b| b.style.fg),
        Widget::Reviews(r) => r.block().style.fg,
    }
}

#[test]
fn hover_then_unhover_restores_the_frame() {
    let mut n = framed_text();
    n.hover();
    assert_eq!(frame_color(&n), Some(HOVER_COLOR));
    assert_eq!(n.hover_base_style, Some(Style { fg: Some(Color::DarkGray) }));
    // hovering again keeps the first style aside
    n.hover();
    assert_eq!(n.hover_base_style, Some(Style { fg: Some(Color::DarkGray) }));
    n.unhover();
    assert_eq!(frame_color(&n), Some(Color::DarkGray));
    assert_eq!(n.hover_base_style, None);
    n.unhover();
    assert_eq!(frame_color(&n), Some(Color::DarkGray));
}

#[test]
fn hovering_a_frameless_text_does_nothing() {
    let mut n = UINode::new(Widget::Text(TextBox::new()), AreaDescription::new(0, 0, 1, 1));
    n.hover();
    assert_eq!(n.hover_base_style, None);
    assert_eq!(frame_color(&n), None);
}

#[test]
fn hovering_the_reviews_grid() {
    let grid = Reviews::new(Vec::new(), HashMap::new(), Border::bordered("Reviews".to_string(), Color::DarkGray));
    let mut n = UINode::new(Widget::Reviews(grid), AreaDescription::new(0, 0, 100, 80));
    n.hover();
    assert_eq!(frame_color(&n), Some(Color::White));
    n.select();
    n.unhover();
    assert_eq!(frame_color(&n), Some(Color::DarkGray));
    match &n.widget {
        Widget::Reviews(r) => {
            assert!(r.is_active());
            assert_eq!(r.block().title_style, Style::new().fg(Color::LightBlue));
        }
        Widget::Text(_) => panic!(),
    }
}

#[test]
fn select_shows_the_cursor() {
    let mut n = framed_text();
    n.deselect();
    match &n.widget {
        Widget::Text(t) => assert!(!t.cursor_visible),
        Widget::Reviews(_) => panic!(),
    }
    n.select();
    match &n.widget {
        Widget::Text(t) => assert!(t.cursor_visible),
        Widget::Reviews(_) => panic!(),
    }
    let mut t = TextBox::new();
    set_cursor_visible(&mut t, false);
    assert!(!t.cursor_visible);
    assert_eq!(t.lines(), vec![String::new()]);
}

#[test]
fn links_and_area() {
    let mut n = framed_text();
    n.set_up(Some(3));
    n.set_right(Some(1));
    n.set_down(None);
    n.set_left(Some(0));
    assert_eq!((n.up(), n.right(), n.down(), n.left()), (Some(3), Some(1), None, Some(0)));
    n.set_area(AreaDescription::new(1, 2, 3, 4));
    assert_eq!(n.area, AreaDescription::new(1, 2, 3, 4));
}
