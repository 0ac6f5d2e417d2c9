use vstd::prelude::*;
use crate::geometry::Direction;
use crate::keys::{KeyCode, KeyEventKind, KeyInput, ascii_lower, spec_ascii_lower};
use crate::review::{lemma_restyled_view, lemma_restyled_twice};
use crate::textbox::spec_after_key;
use crate::ui::{
    UINode, Widget, lemma_hover_idempotent, lemma_hover_kept, lemma_selection_flags, spec_accepts_input, spec_deselected, spec_hovered, spec_is_selected,
    spec_link, spec_node_input, spec_node_wf, spec_selected, spec_unhovered,
};

verus! {

broadcast use lemma_restyled_view, lemma_restyled_twice;

/// The widgets of the interface and which of them is hovered (`root`), and
/// whether it is also selected, receiving the keys (`using_selection`).
pub struct UITree {
    nodes: Vec<UINode>,
    root: Option<usize>,
    using_selection: bool,
}

/// The state of a [`UITree`].
pub ghost struct UITreeView {
    pub nodes: Seq<UINode>,
    pub root: Option<usize>,
    pub using_selection: bool,
}

impl View for UITree {
    type V = UITreeView;

    closed spec fn view(&self) -> UITreeView {
        UITreeView { nodes: self.nodes@, root: self.root, using_selection: self.using_selection }
    }
}

/// Every neighbour is a node of `nodes`.
pub open spec fn spec_links_valid(nodes: Seq<UINode>) -> bool {
    forall|i: int, d: Direction|
        0 <= i < nodes.len() && (#[trigger] spec_link(nodes[i], d)) is Some ==> spec_link(nodes[i], d)->0 < nodes.len()
}

impl UITreeView {
    pub open spec fn wf(self) -> bool {
        &&& spec_links_valid(self.nodes)
        &&& (self.root matches Some(r) ==> r < self.nodes.len())
        &&& forall|i: int| 0 <= i < self.nodes.len() ==> spec_node_wf(#[trigger] self.nodes[i])
    }
}

/// Only the hovered node carries the hover highlight: no other node keeps
/// a style aside.
pub open spec fn spec_hover_only_root(v: UITreeView) -> bool {
    forall|i: usize| i < v.nodes.len() && v.root != Some(i) ==> (#[trigger] v.nodes[i as int]).hover_base_style is None
}

/// The hovered node carries the hover highlight: hovering it again would
/// change nothing.
pub open spec fn spec_root_hovered(v: UITreeView) -> bool {
    v.root matches Some(o) ==> spec_hovered(v.nodes[o as int]) == v.nodes[o as int]
}

/// Only the hovered node can be selected, and it is selected exactly while
/// the tree hands it the keys.
pub open spec fn spec_selection_on_root(v: UITreeView) -> bool {
    forall|i: usize|
        i < v.nodes.len() ==> (spec_is_selected(#[trigger] v.nodes[i as int]) <==> (v.using_selection && v.root
            == Some(i)))
}

/// The same nodes are selected in `a` as in `b`.
pub open spec fn spec_same_selection(a: Seq<UINode>, b: Seq<UINode>) -> bool {
    &&& a.len() == b.len()
    &&& forall|i: int| 0 <= i < a.len() ==> spec_is_selected(#[trigger] b[i]) == spec_is_selected(a[i])
}

/// The node reached from `start` by following the links in direction `dir`
/// `n` times, or stopping at the first node without such a link.
pub open spec fn spec_follow(nodes: Seq<UINode>, start: usize, dir: Direction, n: nat) -> usize
    decreases n,
{
    if n == 0 {
        start
    } else {
        let p = spec_follow(nodes, start, dir, (n - 1) as nat);
        match spec_link(nodes[p as int], dir) {
            Some(j) => j,
            None => p,
        }
    }
}

/// Following the links in direction `dir` from `start` reaches a node
/// without such a link.
pub open spec fn spec_chain_ends(nodes: Seq<UINode>, start: usize, dir: Direction) -> bool {
    exists|n: nat| (#[trigger] spec_link(nodes[spec_follow(nodes, start, dir, n) as int], dir)) is None
}

/// The last node reached from `start` in direction `dir`.
pub open spec fn spec_furthest(nodes: Seq<UINode>, start: usize, dir: Direction) -> usize {
    spec_follow(
        nodes,
        start,
        dir,
        choose|n: nat| (#[trigger] spec_link(nodes[spec_follow(nodes, start, dir, n) as int], dir)) is None,
    )
}

/// The tree after the hovered node became `next`: the old one is unhovered,
/// then the new one hovered.
pub open spec fn spec_set_root(v: UITreeView, next: Option<usize>) -> UITreeView {
    let nodes1 = match v.root {
        Some(o) => v.nodes.update(o as int, spec_unhovered(v.nodes[o as int])),
        None => v.nodes,
    };
    let nodes2 = match next {
        Some(n) => nodes1.update(n as int, spec_hovered(nodes1[n as int])),
        None => nodes1,
    };
    UITreeView { nodes: nodes2, root: next, ..v }
}

/// The tree after moving the hover in direction `dir`, where the hovered
/// node has a neighbour there.
pub open spec fn spec_navigate(v: UITreeView, dir: Direction) -> UITreeView {
    match v.root {
        Some(o) => match spec_link(v.nodes[o as int], dir) {
            Some(j) => spec_set_root(v, Some(j)),
            None => v,
        },
        None => v,
    }
}

/// The "next" widget after the hovered one `o`: its right neighbour; else
/// the leftmost node of the row below; else (at the bottom right) the
/// leftmost node of the top row.
pub open spec fn spec_tab_target(v: UITreeView, o: usize) -> usize {
    let n = v.nodes[o as int];
    match n.right {
        Some(r) => r,
        None => match n.down {
            Some(d) => spec_furthest(v.nodes, d, Direction::Left),
            None => spec_furthest(v.nodes, spec_furthest(v.nodes, o, Direction::Up), Direction::Left),
        },
    }
}

/// Finding the next widget after the hovered one comes to an end.
pub open spec fn spec_tab_defined(v: UITreeView) -> bool {
    match v.root {
        None => true,
        Some(o) => {
            let n = v.nodes[o as int];
            match n.right {
                Some(_) => true,
                None => match n.down {
                    Some(d) => spec_chain_ends(v.nodes, d, Direction::Left),
                    None => spec_chain_ends(v.nodes, o, Direction::Up) && spec_chain_ends(
                        v.nodes,
                        spec_furthest(v.nodes, o, Direction::Up),
                        Direction::Left,
                    ),
                },
            }
        },
    }
}

/// The tree after the hover moved to the next widget.
pub open spec fn spec_tab_next(v: UITreeView) -> UITreeView {
    match v.root {
        Some(o) => spec_set_root(v, Some(spec_tab_target(v, o))),
        None => v,
    }
}

/// Handing `key` to the tree moves the hover to the next widget.
pub open spec fn spec_reaches_tab_next(v: UITreeView, key: KeyInput) -> bool {
    &&& key.code == KeyCode::Tab
    &&& if v.using_selection {
        &&& key.kind != KeyEventKind::Release
        &&& v.root matches Some(o)
        &&& v.nodes[o as int].widget is Text
    } else {
        key.kind == KeyEventKind::Press
    }
}

/// `key` may be handed to the tree: moving to the next widget comes to an
/// end, and the selected widget accepts the key.
pub open spec fn spec_tree_accepts(v: UITreeView, key: KeyInput) -> bool {
    &&& spec_reaches_tab_next(v, key) ==> spec_tab_defined(v)
    &&& (v.using_selection && key.kind != KeyEventKind::Release && v.root is Some)
        ==> spec_accepts_input(v.nodes[v.root->0 as int], key)
}

/// The tree after the hovered node became selected.
pub open spec fn spec_select_root(v: UITreeView) -> UITreeView {
    UITreeView {
        nodes: match v.root {
            Some(o) => v.nodes.update(o as int, spec_selected(v.nodes[o as int])),
            None => v.nodes,
        },
        using_selection: true,
        ..v
    }
}

/// Whether `key` quits: a press of `q` or `Q` while no widget is selected.
pub open spec fn spec_quits(v: UITreeView, key: KeyInput) -> bool {
    &&& !v.using_selection
    &&& key.kind == KeyEventKind::Press
    &&& key.code matches KeyCode::Char(c)
    &&& spec_ascii_lower(c) == 'q' as u32
}

/// What one key does to the tree. While a widget is selected, every key
/// but a release goes to it; when it asks to be deselected it is, and a Tab
/// then moves on to the next widget. Otherwise only presses count: Enter
/// selects the hovered widget, the arrows move the hover, Tab moves it to
/// the next widget.
pub open spec fn spec_tree_input(old: UITreeView, new: UITreeView, key: KeyInput) -> bool {
    if old.using_selection {
        if key.kind == KeyEventKind::Release || old.root is None {
            new == old
        } else {
            let o = old.root->0 as int;
            exists|n: UINode, d: bool|
                #[trigger] spec_node_input(old.nodes[o], n, key, d) && {
                    let after = UITreeView { nodes: old.nodes.update(o, n), ..old };
                    if !d {
                        new == after
                    } else {
                        let deselected = UITreeView {
                            nodes: after.nodes.update(o, spec_deselected(n)),
                            using_selection: false,
                            ..after
                        };
                        new == if key.code == KeyCode::Tab {
                            spec_tab_next(deselected)
                        } else {
                            deselected
                        }
                    }
                }
        }
    } else if key.kind == KeyEventKind::Press {
        match key.code {
            KeyCode::Enter => new == spec_select_root(old),
            KeyCode::Left => new == spec_navigate(old, Direction::Left),
            KeyCode::Right => new == spec_navigate(old, Direction::Right),
            KeyCode::Up => new == spec_navigate(old, Direction::Up),
            KeyCode::Down => new == spec_navigate(old, Direction::Down),
            KeyCode::Tab => new == spec_tab_next(old),
            _ => new == old,
        }
    } else {
        new == old
    }
}

/// Once the chain from `start` reaches a node without a link, it stays
/// there.
proof fn lemma_follow_stays(nodes: Seq<UINode>, start: usize, dir: Direction, m: nat, k: nat)
    requires
        spec_link(nodes[spec_follow(nodes, start, dir, m) as int], dir) is None,
        m <= k,
    ensures
        spec_follow(nodes, start, dir, k) == spec_follow(nodes, start, dir, m),
    decreases k - m,
{
    if k > m {
        lemma_follow_stays(nodes, start, dir, m, (k - 1) as nat);
    }
}

/// The chain's end is the node reached at any step with no further link.
proof fn lemma_furthest_is_end(nodes: Seq<UINode>, start: usize, dir: Direction, m: nat)
    requires
        spec_link(nodes[spec_follow(nodes, start, dir, m) as int], dir) is None,
    ensures
        spec_furthest(nodes, start, dir) == spec_follow(nodes, start, dir, m),
{
    let c = choose|n: nat| (#[trigger] spec_link(nodes[spec_follow(nodes, start, dir, n) as int], dir)) is None;
    assert(spec_link(nodes[spec_follow(nodes, start, dir, c) as int], dir) is None);
    if c <= m {
        lemma_follow_stays(nodes, start, dir, c, m);
    } else {
        lemma_follow_stays(nodes, start, dir, m, c);
    }
}

/// Every node of a chain is a node of the tree.
proof fn lemma_follow_in_range(nodes: Seq<UINode>, start: usize, dir: Direction, n: nat)
    requires
        spec_links_valid(nodes),
        start < nodes.len(),
    ensures
        spec_follow(nodes, start, dir, n) < nodes.len(),
    decreases n,
{
    if n > 0 {
        lemma_follow_in_range(nodes, start, dir, (n - 1) as nat);
        let p = spec_follow(nodes, start, dir, (n - 1) as nat);
        assert(spec_link(nodes[p as int], dir) is Some ==> spec_link(nodes[p as int], dir)->0 < nodes.len());
    }
}

/// Two sequences of nodes with the same areas and the same neighbours.
pub open spec fn spec_same_layout(a: Seq<UINode>, b: Seq<UINode>) -> bool {
    &&& a.len() == b.len()
    &&& forall|i: int| 0 <= i < a.len() ==> (#[trigger] a[i]).area == b[i].area
    &&& forall|i: int, d: Direction| 0 <= i < a.len() ==> #[trigger] spec_link(a[i], d) == spec_link(b[i], d)
}

/// Nodes left as they were keep their layout and their selection.
proof fn lemma_same_layout_refl(a: Seq<UINode>)
    ensures
        spec_same_layout(a, a),
        spec_same_selection(a, a),
{
}

proof fn lemma_same_layout_follow(a: Seq<UINode>, b: Seq<UINode>, start: usize, dir: Direction, n: nat)
    requires
        spec_same_layout(a, b),
        spec_links_valid(a),
        start < a.len(),
    ensures
        spec_follow(a, start, dir, n) == spec_follow(b, start, dir, n),
    decreases n,
{
    if n > 0 {
        lemma_same_layout_follow(a, b, start, dir, (n - 1) as nat);
        lemma_follow_in_range(a, start, dir, (n - 1) as nat);
        let p = spec_follow(a, start, dir, (n - 1) as nat);
        assert(spec_link(a[p as int], dir) == spec_link(b[p as int], dir));
    }
}

/// Chains, and where they end, depend on the neighbours alone.
proof fn lemma_same_layout_chains(a: Seq<UINode>, b: Seq<UINode>, start: usize, dir: Direction)
    requires
        spec_same_layout(a, b),
        spec_links_valid(a),
        start < a.len(),
        spec_chain_ends(a, start, dir),
    ensures
        spec_chain_ends(b, start, dir),
        spec_furthest(a, start, dir) == spec_furthest(b, start, dir),
        spec_furthest(a, start, dir) < a.len(),
{
    let m = choose|n: nat| (#[trigger] spec_link(a[spec_follow(a, start, dir, n) as int], dir)) is None;
    lemma_same_layout_follow(a, b, start, dir, m);
    lemma_follow_in_range(a, start, dir, m);
    let p = spec_follow(a, start, dir, m);
    assert(spec_link(a[p as int], dir) == spec_link(b[p as int], dir));
    assert(spec_link(b[spec_follow(b, start, dir, m) as int], dir) is None);
    lemma_furthest_is_end(a, start, dir, m);
    lemma_furthest_is_end(b, start, dir, m);
}

/// Where Tab lands. With a right neighbour, on it. Without one but with a
/// neighbour below (`d`), on a widget with no left neighbour that is reached
/// from `d` by following left neighbours: the start of the row below. At
/// the bottom right, on a widget with no left neighbour reached by going up
/// to a widget with no upper neighbour and then left: the start of the top
/// row.
pub proof fn lemma_tab_lands_on(v: UITreeView)
    requires
        v.wf(),
        spec_tab_defined(v),
        v.root is Some,
    ensures
        ({
            let o = v.root->0;
            let n = v.nodes[o as int];
            &&& spec_tab_next(v).root matches Some(t)
            &&& spec_tab_next(v).root->0 < v.nodes.len()
            &&& (n.right matches Some(r) ==> spec_tab_next(v).root == Some(r))
            &&& (n.right is None && n.down is Some ==> {
                &&& v.nodes[spec_tab_next(v).root->0 as int].left is None
                &&& exists|k: nat|
                    #[trigger] spec_follow(v.nodes, n.down->0, Direction::Left, k) == spec_tab_next(v).root->0
            })
            &&& (n.right is None && n.down is None ==> {
                &&& v.nodes[spec_tab_next(v).root->0 as int].left is None
                &&& exists|m: nat, k: nat|
                    #![trigger spec_follow(v.nodes, o, Direction::Up, m), spec_follow(v.nodes, spec_follow(v.nodes, o, Direction::Up, m), Direction::Left, k)]
                    v.nodes[spec_follow(v.nodes, o, Direction::Up, m) as int].up is None
                        && spec_follow(v.nodes, spec_follow(v.nodes, o, Direction::Up, m), Direction::Left, k)
                        == spec_tab_next(v).root->0
            })
        }),
{
    let o = v.root->0;
    let n = v.nodes[o as int];
    assert(spec_link(n, Direction::Right) == n.right);
    assert(spec_link(n, Direction::Down) == n.down);
    if let Some(r) = n.right {
        assert(spec_link(n, Direction::Right) is Some);
    } else if let Some(d) = n.down {
        assert(spec_link(n, Direction::Down) is Some);
        assert(spec_chain_ends(v.nodes, d, Direction::Left));
        let c = choose|k: nat| (#[trigger] spec_link(v.nodes[spec_follow(v.nodes, d, Direction::Left, k) as int], Direction::Left)) is None;
        assert(spec_link(v.nodes[spec_follow(v.nodes, d, Direction::Left, c) as int], Direction::Left) is None);
        lemma_follow_in_range(v.nodes, d, Direction::Left, c);
        assert(spec_furthest(v.nodes, d, Direction::Left) == spec_follow(v.nodes, d, Direction::Left, c));
    } else {
        assert(spec_chain_ends(v.nodes, o, Direction::Up));
        let m = choose|k: nat| (#[trigger] spec_link(v.nodes[spec_follow(v.nodes, o, Direction::Up, k) as int], Direction::Up)) is None;
        assert(spec_link(v.nodes[spec_follow(v.nodes, o, Direction::Up, m) as int], Direction::Up) is None);
        let top = spec_follow(v.nodes, o, Direction::Up, m);
        lemma_follow_in_range(v.nodes, o, Direction::Up, m);
        assert(spec_furthest(v.nodes, o, Direction::Up) == top);
        assert(spec_chain_ends(v.nodes, top, Direction::Left));
        let c = choose|k: nat| (#[trigger] spec_link(v.nodes[spec_follow(v.nodes, top, Direction::Left, k) as int], Direction::Left)) is None;
        assert(spec_link(v.nodes[spec_follow(v.nodes, top, Direction::Left, c) as int], Direction::Left) is None);
        lemma_follow_in_range(v.nodes, top, Direction::Left, c);
        assert(spec_furthest(v.nodes, top, Direction::Left) == spec_follow(v.nodes, top, Direction::Left, c));
    }
}

/// The arrow keys move the hover to the hovered widget's neighbour in that
/// direction, if it has one, and otherwise leave it where it is; selection
/// is not touched.
pub proof fn lemma_arrows_move_to_the_neighbour(v: UITreeView, dir: Direction)
    requires
        v.wf(),
    ensures
        spec_navigate(v, dir).using_selection == v.using_selection,
        spec_navigate(v, dir).nodes.len() == v.nodes.len(),
        spec_navigate(v, dir).root == match v.root {
            None => None,
            Some(o) => {
                let n = v.nodes[o as int];
                let next = match dir {
                    Direction::Up => n.up,
                    Direction::Right => n.right,
                    Direction::Down => n.down,
                    Direction::Left => n.left,
                };
                match next {
                    Some(j) => Some(j),
                    None => Some(o),
                }
            },
        },
{
    if let Some(o) = v.root {
        if let Some(j) = spec_link(v.nodes[o as int], dir) {
            assert(j < v.nodes.len());
        }
    }
}

/// The widget Tab moves to is a node of the tree.
proof fn lemma_tab_target_in_range(v: UITreeView, o: usize)
    requires
        spec_links_valid(v.nodes),
        o < v.nodes.len(),
    ensures
        spec_tab_target(v, o) < v.nodes.len(),
{
    let n = v.nodes[o as int];
    assert(spec_link(n, Direction::Right) == n.right);
    assert(spec_link(n, Direction::Down) == n.down);
    let cu = choose|k: nat| (#[trigger] spec_link(v.nodes[spec_follow(v.nodes, o, Direction::Up, k) as int], Direction::Up)) is None;
    lemma_follow_in_range(v.nodes, o, Direction::Up, cu);
    let top = spec_furthest(v.nodes, o, Direction::Up);
    let ct = choose|k: nat| (#[trigger] spec_link(v.nodes[spec_follow(v.nodes, top, Direction::Left, k) as int], Direction::Left)) is None;
    lemma_follow_in_range(v.nodes, top, Direction::Left, ct);
    if let Some(d) = n.down {
        let cd = choose|k: nat| (#[trigger] spec_link(v.nodes[spec_follow(v.nodes, d, Direction::Left, k) as int], Direction::Left)) is None;
        lemma_follow_in_range(v.nodes, d, Direction::Left, cd);
    }
}

/// What a key does to the tree, told without the step functions. A
/// release never changes anything. With no widget selected, only presses
/// count, and a press of anything but Enter, Tab or an arrow changes
/// nothing; Enter selects the hovered widget without moving the hover.
/// While a text input is selected, Esc and Tab deselect it and leave its
/// text alone (Esc keeps the hover on it), and every other key goes to its
/// editor; while the reviews grid is selected it stays selected and hovered
/// unless Esc arrives while no message is edited.
pub proof fn lemma_tree_keys(old: UITreeView, new: UITreeView, key: KeyInput)
    requires
        old.wf(),
        spec_tree_input(old, new, key),
    ensures
        key.kind == KeyEventKind::Release ==> new == old,
        !old.using_selection && key.kind == KeyEventKind::Press && key.code == KeyCode::Enter ==> {
            &&& new.using_selection
            &&& new.root == old.root
            &&& old.root matches Some(o) ==> spec_is_selected(new.nodes[o as int])
        },
        !old.using_selection && key.kind == KeyEventKind::Press && !(key.code == KeyCode::Enter || key.code
            == KeyCode::Tab || key.code == KeyCode::Left || key.code == KeyCode::Right || key.code == KeyCode::Up
            || key.code == KeyCode::Down) ==> new == old,
        old.using_selection && key.kind != KeyEventKind::Release && old.root is Some
            && old.nodes[old.root->0 as int].widget is Text ==> {
            let o = old.root->0 as int;
            let a = old.nodes[o].widget->Text_0;
            &&& new.nodes.len() == old.nodes.len()
            &&& new.nodes[o].widget matches Widget::Text(b)
            &&& if key.code == KeyCode::Esc || key.code == KeyCode::Tab {
                &&& !new.using_selection
                &&& !b.cursor_visible
                &&& b.text == a.text
                &&& (key.code == KeyCode::Esc ==> new.root == old.root)
            } else {
                &&& new.using_selection
                &&& new.root == old.root
                &&& b.text == spec_after_key(a.text, key.raw)
            }
        },
        old.using_selection && key.kind != KeyEventKind::Release && old.root is Some
            && old.nodes[old.root->0 as int].widget is Reviews ==> {
            let r = old.nodes[old.root->0 as int].widget->Reviews_0;
            &&& new.root == old.root
            &&& new.using_selection == !(key.code == KeyCode::Esc && !r@.editing)
        },
{
    if old.using_selection && key.kind != KeyEventKind::Release && old.root is Some {
        let o = old.root->0 as int;
        let (n, d) = choose|n: UINode, d: bool|
            #[trigger] spec_node_input(old.nodes[o], n, key, d) && {
                let after = UITreeView { nodes: old.nodes.update(o, n), ..old };
                if !d {
                    new == after
                } else {
                    let deselected = UITreeView {
                        nodes: after.nodes.update(o, spec_deselected(n)),
                        using_selection: false,
                        ..after
                    };
                    new == if key.code == KeyCode::Tab {
                        spec_tab_next(deselected)
                    } else {
                        deselected
                    }
                }
            };
        assert(spec_node_input(old.nodes[o], n, key, d));
        if let Widget::Text(a) = old.nodes[o].widget {
            let after = UITreeView { nodes: old.nodes.update(o, n), ..old };
            assert(n.widget is Text);
            if d {
                assert(n.widget == Widget::Text(a));
                let des = UITreeView { nodes: after.nodes.update(o, spec_deselected(n)), using_selection: false, ..after };
                let dn = spec_deselected(n);
                assert(des.nodes[o] == dn);
                assert(dn.widget matches Widget::Text(b) && !b.cursor_visible && b.text == a.text);
                if key.code == KeyCode::Tab {
                    assert forall|i: int, dd: Direction| 0 <= i < des.nodes.len()
                        implies #[trigger] spec_link(des.nodes[i], dd) == spec_link(old.nodes[i], dd) by {
                        if i == o {
                            assert(spec_link(n, dd) == spec_link(old.nodes[o], dd));
                        }
                    }
                    assert(spec_links_valid(des.nodes));
                    lemma_tab_target_in_range(des, o as usize);
                    let t = spec_tab_target(des, o as usize);
                    let n1 = des.nodes.update(o, spec_unhovered(des.nodes[o]));
                    let u = spec_unhovered(dn);
                    assert(n1[o] == u);
                    assert(u.widget matches Widget::Text(b) && !b.cursor_visible && b.text == a.text);
                    let h = spec_hovered(u);
                    assert(h.widget matches Widget::Text(b) && !b.cursor_visible && b.text == a.text);
                    let w = spec_tab_next(des);
                    if t as int == o {
                        assert(w.nodes[o] == h);
                    } else {
                        assert(w.nodes[o] == u);
                    }
                }
            } else {
                assert(new.nodes[o] == n);
            }
        }
    }
}

/// A key makes the session end exactly when it is a press of `q` or `Q`
/// while no widget is selected: Esc, the arrows, Enter, any other
/// character, a release, and every key handed to a selected widget keep it
/// going.
pub proof fn lemma_quits_only_on_q(v: UITreeView, key: KeyInput)
    ensures
        spec_quits(v, key) <==> (!v.using_selection && key.kind == KeyEventKind::Press && (key.code
            == KeyCode::Char('q') || key.code == KeyCode::Char('Q'))),
{
    if let KeyCode::Char(c) = key.code {
        assert('q' as u32 == 113);
        assert('Q' as u32 == 81);
        if spec_ascii_lower(c) == 'q' as u32 {
            assert(c as u32 == 113 || c as u32 == 81);
        }
    }
}

/// In a single row of widgets (none has a neighbour above or below), Tab
/// moves the hover to the right neighbour, and from the last widget of the
/// row back to the first one: the end of the chain of left neighbours,
/// which has no left neighbour itself.
pub proof fn lemma_tab_walks_a_row(v: UITreeView)
    requires
        v.wf(),
        v.root is Some,
        forall|i: int| 0 <= i < v.nodes.len() ==> (#[trigger] v.nodes[i]).up is None && v.nodes[i].down is None,
    ensures
        spec_tab_next(v).root == Some(
            match v.nodes[v.root->0 as int].right {
                Some(r) => r,
                None => spec_furthest(v.nodes, v.root->0, Direction::Left),
            },
        ),
        v.nodes[v.root->0 as int].right is None && spec_chain_ends(v.nodes, v.root->0, Direction::Left) ==> spec_link(
            v.nodes[spec_tab_next(v).root->0 as int],
            Direction::Left,
        ) is None,
{
    let o = v.root->0;
    assert(v.nodes[o as int].up is None);
    assert(spec_link(v.nodes[spec_follow(v.nodes, o, Direction::Up, 0) as int], Direction::Up) is None);
    lemma_furthest_is_end(v.nodes, o, Direction::Up, 0);
    if v.nodes[o as int].right is None && spec_chain_ends(v.nodes, o, Direction::Left) {
        let c = choose|n: nat| (#[trigger] spec_link(v.nodes[spec_follow(v.nodes, o, Direction::Left, n) as int], Direction::Left)) is None;
        lemma_furthest_is_end(v.nodes, o, Direction::Left, c);
    }
}

/// The nodes stand in a row, linked in the order they are listed: each
/// one's right neighbour is the next one, its left neighbour the one
/// before, and none has a neighbour above or below.
pub open spec fn spec_row_links(nodes: Seq<UINode>) -> bool {
    forall|i: int|
        0 <= i < nodes.len() ==> {
            &&& (#[trigger] nodes[i]).up is None
            &&& nodes[i].down is None
            &&& nodes[i].right == if i + 1 < nodes.len() { Some((i + 1) as usize) } else { None }
            &&& nodes[i].left == if i > 0 { Some((i - 1) as usize) } else { None }
        }
}

/// The tree after the hover moved on to the next widget `n` times.
pub open spec fn spec_tabs(v: UITreeView, n: nat) -> UITreeView
    decreases n,
{
    if n == 0 {
        v
    } else {
        spec_tab_next(spec_tabs(v, (n - 1) as nat))
    }
}

/// Following left neighbours along a row goes one node back per step,
/// down to the first node.
proof fn lemma_follow_left_in_row(nodes: Seq<UINode>, start: usize, n: nat)
    requires
        spec_row_links(nodes),
        start < nodes.len(),
    ensures
        spec_follow(nodes, start, Direction::Left, n) == if n <= start { (start - n) as usize } else { 0usize },
    decreases n,
{
    if n > 0 {
        lemma_follow_left_in_row(nodes, start, (n - 1) as nat);
        let p = spec_follow(nodes, start, Direction::Left, (n - 1) as nat);
        assert(nodes[p as int].left == if p > 0 { Some((p - 1) as usize) } else { None });
    }
}

/// One move to the next widget along a row: the hover goes to the next
/// node, and from the last back to the first; the links stay as they are.
proof fn lemma_tab_next_in_row(v: UITreeView)
    requires
        spec_row_links(v.nodes),
        v.root matches Some(j) && j < v.nodes.len(),
    ensures
        spec_row_links(spec_tab_next(v).nodes),
        spec_tab_next(v).nodes.len() == v.nodes.len(),
        spec_tab_next(v).root == Some(
            (if v.root->0 + 1 < v.nodes.len() { v.root->0 + 1 } else { 0 }) as usize,
        ),
{
    let j = v.root->0;
    let nodes = v.nodes;
    assert(nodes[j as int].right == if j + 1 < nodes.len() { Some((j + 1) as usize) } else { None });
    if j + 1 >= nodes.len() {
        assert(nodes[j as int].up is None && nodes[j as int].down is None);
        assert(spec_link(nodes[spec_follow(nodes, j, Direction::Up, 0) as int], Direction::Up) is None);
        lemma_furthest_is_end(nodes, j, Direction::Up, 0);
        lemma_follow_left_in_row(nodes, j, j as nat);
        assert(nodes[0].left is None);
        lemma_furthest_is_end(nodes, j, Direction::Left, j as nat);
    }
    let t = spec_tab_target(v, j);
    let w = spec_tab_next(v);
    assert(t < nodes.len());
    assert forall|i: int| 0 <= i < w.nodes.len() implies {
        &&& (#[trigger] w.nodes[i]).up == nodes[i].up
        &&& w.nodes[i].down == nodes[i].down
        &&& w.nodes[i].right == nodes[i].right
        &&& w.nodes[i].left == nodes[i].left
    } by {
        let nodes1 = nodes.update(j as int, spec_unhovered(nodes[j as int]));
        assert(nodes1[i].left == nodes[i].left && nodes1[i].right == nodes[i].right);
        assert(nodes1[i].up == nodes[i].up && nodes1[i].down == nodes[i].down);
    }
}

/// Moving on to the next widget `n` times from node `j` of a row visits the
/// nodes from left to right and wraps round from the last to the first: the
/// hover ends on node `(j + n) % len`.
pub proof fn lemma_tabs_walk_a_row(v: UITreeView, n: nat)
    requires
        spec_row_links(v.nodes),
        v.root matches Some(j) && j < v.nodes.len(),
        v.nodes.len() <= usize::MAX,
    ensures
        spec_tabs(v, n).root == Some(((v.root->0 + n) % (v.nodes.len() as int)) as usize),
        spec_row_links(spec_tabs(v, n).nodes),
        spec_tabs(v, n).nodes.len() == v.nodes.len(),
    decreases n,
{
    let k = v.nodes.len() as int;
    let j = v.root->0 as int;
    if n == 0 {
        assert(j % k == j) by (nonlinear_arith)
            requires
                0 <= j < k,
        ;
    } else {
        lemma_tabs_walk_a_row(v, (n - 1) as nat);
        let u = spec_tabs(v, (n - 1) as nat);
        let a = j + n - 1;
        assert(0 <= a % k < k) by (nonlinear_arith)
            requires
                k > 0,
                a >= 0,
        ;
        assert(u.root == Some((a % k) as usize));
        lemma_tab_next_in_row(u);
        assert(spec_tabs(v, n) == spec_tab_next(u));
        assert(((a % k) + 1 < k ==> (a + 1) % k == a % k + 1) && ((a % k) + 1 == k ==> (a + 1) % k == 0))
            by (nonlinear_arith)
            requires
                k > 0,
                a >= 0,
        ;
        assert(a + 1 == j + n);
    }
}

/// Whether moving on to the next widget comes to an end, and where, depends
/// on the hovered node and the neighbours alone.
proof fn lemma_same_layout_tab(v: UITreeView, w: UITreeView)
    requires
        v.wf(),
        spec_same_layout(v.nodes, w.nodes),
        v.root == w.root,
        spec_tab_defined(v),
    ensures
        spec_tab_defined(w),
        v.root matches Some(o) ==> spec_tab_target(v, o) == spec_tab_target(w, o),
{
    match v.root {
        Some(o) => {
            assert(spec_link(v.nodes[o as int], Direction::Right) == spec_link(w.nodes[o as int], Direction::Right));
            assert(spec_link(v.nodes[o as int], Direction::Down) == spec_link(w.nodes[o as int], Direction::Down));
            if v.nodes[o as int].right is None {
                match v.nodes[o as int].down {
                    Some(d) => {
                        assert(spec_link(v.nodes[o as int], Direction::Down) is Some);
                        lemma_same_layout_chains(v.nodes, w.nodes, d, Direction::Left);
                    },
                    None => {
                        lemma_same_layout_chains(v.nodes, w.nodes, o, Direction::Up);
                        let top = spec_furthest(v.nodes, o, Direction::Up);
                        lemma_same_layout_chains(v.nodes, w.nodes, top, Direction::Left);
                    },
                }
            }
        },
        None => {},
    }
}

/// Replacing a node by one with the same neighbours keeps the tree
/// consistent.
proof fn lemma_replace_node(v: UITreeView, o: int, n: UINode)
    requires
        v.wf(),
        0 <= o < v.nodes.len(),
        spec_node_wf(n),
        n.area == v.nodes[o].area,
        forall|d: Direction| #[trigger] spec_link(n, d) == spec_link(v.nodes[o], d),
    ensures
        (UITreeView { nodes: v.nodes.update(o, n), ..v }).wf(),
        spec_same_layout(v.nodes, v.nodes.update(o, n)),
{
    let w = v.nodes.update(o, n);
    assert forall|i: int, d: Direction| 0 <= i < w.len() implies #[trigger] spec_link(v.nodes[i], d) == spec_link(w[i], d) by {
        if i == o {
            assert(spec_link(n, d) == spec_link(v.nodes[o], d));
        }
    }
    assert forall|i: int, d: Direction|
        0 <= i < w.len() && (#[trigger] spec_link(w[i], d)) is Some implies spec_link(w[i], d)->0 < w.len() by {
        assert(spec_link(v.nodes[i], d) == spec_link(w[i], d));
    }
    assert forall|i: int| 0 <= i < w.len() implies spec_node_wf(#[trigger] w[i]) by {
        if i != o {
            assert(spec_node_wf(v.nodes[i]));
        }
    }
}

/// `j` is a neighbour of node `i`.
pub open spec fn spec_is_neighbour_of(nodes: Seq<UINode>, i: int, j: int) -> bool {
    exists|d: Direction| (#[trigger] spec_link(nodes[i], d)) is Some && spec_link(nodes[i], d)->0 as int == j
}

/// The nodes reached from `start` in at most `n` steps from neighbour to
/// neighbour.
pub open spec fn spec_reach(nodes: Seq<UINode>, start: int, n: nat) -> Set<int>
    decreases n,
{
    if n == 0 {
        set![start]
    } else {
        let prev = spec_reach(nodes, start, (n - 1) as nat);
        prev.union(Set::new(|j: int| exists|i: int| #[trigger] prev.contains(i) && spec_is_neighbour_of(nodes, i, j)))
    }
}

/// `j` is reached from `start` going from neighbour to neighbour.
pub open spec fn spec_reachable(nodes: Seq<UINode>, start: int, j: int) -> bool {
    exists|n: nat| #[trigger] spec_reach(nodes, start, n).contains(j)
}

/// The directions in the order in which neighbours are visited.
pub open spec fn direction_at(e: int) -> Direction {
    if e == 0 {
        Direction::Up
    } else if e == 1 {
        Direction::Right
    } else if e == 2 {
        Direction::Down
    } else {
        Direction::Left
    }
}

pub open spec fn direction_index(d: Direction) -> int {
    match d {
        Direction::Up => 0,
        Direction::Right => 1,
        Direction::Down => 2,
        Direction::Left => 3,
    }
}

/// How early node `j` comes among the neighbours of `n` (up, right, down,
/// left): 0 to 3, or 4 where it is none of them.
pub open spec fn spec_neighbour_rank(n: UINode, j: usize) -> int {
    if n.up == Some(j) {
        0
    } else if n.right == Some(j) {
        1
    } else if n.down == Some(j) {
        2
    } else if n.left == Some(j) {
        3
    } else {
        4
    }
}

/// `order[p]` is the first node of `order` that has `order[k]` as a
/// neighbour, and comes before it.
pub open spec fn spec_is_parent(nodes: Seq<UINode>, order: Seq<usize>, k: int, p: int) -> bool {
    &&& 0 <= p < k < order.len()
    &&& spec_neighbour_rank(nodes[order[p] as int], order[k]) < 4
    &&& forall|q: int| 0 <= q < p ==> spec_neighbour_rank(#[trigger] nodes[order[q] as int], order[k]) == 4
}

/// Some node before `order[k]` has it as a neighbour.
pub open spec fn spec_has_parent(nodes: Seq<UINode>, order: Seq<usize>, k: int) -> bool {
    exists|p: int| #[trigger] spec_is_parent(nodes, order, k, p)
}

/// `order` is in breadth-first order: every node after the first is a
/// neighbour of an earlier one, and the nodes come in the order of the first
/// earlier node they neighbour, then of the direction in which they do (up,
/// right, down, left).
pub open spec fn spec_breadth_first(nodes: Seq<UINode>, order: Seq<usize>) -> bool {
    &&& forall|k: int| 1 <= k < order.len() ==> #[trigger] spec_has_parent(nodes, order, k)
    &&& forall|k1: int, k2: int, p1: int, p2: int|
        1 <= k1 < k2 && #[trigger] spec_is_parent(nodes, order, k1, p1) && #[trigger] spec_is_parent(nodes, order, k2, p2)
            ==> p1 < p2 || (p1 == p2 && spec_neighbour_rank(nodes[order[p1] as int], order[k1])
                < spec_neighbour_rank(nodes[order[p2] as int], order[k2]))
}

/// Node `k1`, reached from `p1`, comes before node `k2`, reached from `p2`,
/// in breadth-first order.
pub open spec fn spec_key_before(nodes: Seq<UINode>, order: Seq<usize>, p1: int, k1: int, p2: int, k2: int) -> bool {
    p1 < p2 || (p1 == p2 && spec_neighbour_rank(nodes[order[p1] as int], order[k1])
        < spec_neighbour_rank(nodes[order[p2] as int], order[k2]))
}

proof fn lemma_parent_unique(nodes: Seq<UINode>, order: Seq<usize>, k: int, p1: int, p2: int)
    requires
        spec_is_parent(nodes, order, k, p1),
        spec_is_parent(nodes, order, k, p2),
    ensures
        p1 == p2,
{
    if p1 < p2 {
        assert(spec_neighbour_rank(nodes[order[p1] as int], order[k]) == 4);
    } else if p2 < p1 {
        assert(spec_neighbour_rank(nodes[order[p2] as int], order[k]) == 4);
    }
}

proof fn lemma_parent_push(nodes: Seq<UINode>, order: Seq<usize>, x: usize, k: int, p: int)
    requires
        0 <= k < order.len(),
    ensures
        spec_is_parent(nodes, order.push(x), k, p) == spec_is_parent(nodes, order, k, p),
{
    let o2 = order.push(x);
    assert(o2[k] == order[k]);
    if spec_is_parent(nodes, o2, k, p) {
        assert forall|q: int| 0 <= q < p implies spec_neighbour_rank(#[trigger] nodes[order[q] as int], order[k]) == 4 by {
            assert(o2[q] == order[q]);
            assert(spec_neighbour_rank(nodes[o2[q] as int], o2[k]) == 4);
        }
    }
    if spec_is_parent(nodes, order, k, p) {
        assert forall|q: int| 0 <= q < p implies spec_neighbour_rank(#[trigger] nodes[o2[q] as int], o2[k]) == 4 by {
            assert(o2[q] == order[q]);
            assert(spec_neighbour_rank(nodes[order[q] as int], order[k]) == 4);
        }
        assert(o2[p] == order[p]);
    }
}

/// The number of `false` entries.
pub open spec fn spec_count_false(s: Seq<bool>) -> nat
    decreases s.len(),
{
    if s.len() == 0 {
        0
    } else {
        spec_count_false(s.drop_last()) + if s.last() { 0nat } else { 1nat }
    }
}

proof fn lemma_count_false_set(s: Seq<bool>, j: int)
    requires
        0 <= j < s.len(),
        !s[j],
    ensures
        spec_count_false(s.update(j, true)) + 1 == spec_count_false(s),
    decreases s.len(),
{
    let t = s.update(j, true);
    if j == s.len() - 1 {
        assert(t.drop_last() =~= s.drop_last());
    } else {
        assert(t.drop_last() =~= s.drop_last().update(j, true));
        lemma_count_false_set(s.drop_last(), j);
    }
}

proof fn lemma_count_false_all(n: nat)
    ensures
        spec_count_false(Seq::new(n, |i: int| false)) == n,
    decreases n,
{
    if n > 0 {
        assert(Seq::new(n, |i: int| false).drop_last() =~= Seq::new((n - 1) as nat, |i: int| false));
        lemma_count_false_all((n - 1) as nat);
    }
}

/// A set of nodes that holds `start` and every neighbour of each of its
/// nodes holds everything reachable from `start`.
proof fn lemma_closed_holds_reach(nodes: Seq<UINode>, start: int, s: Set<int>, n: nat)
    requires
        s.contains(start),
        forall|i: int, j: int| #[trigger] s.contains(i) && spec_is_neighbour_of(nodes, i, j) ==> #[trigger] s.contains(j),
    ensures
        spec_reach(nodes, start, n).subset_of(s),
    decreases n,
{
    if n > 0 {
        lemma_closed_holds_reach(nodes, start, s, (n - 1) as nat);
    }
}

/// Following a link first, then `n` more, is following `n + 1` links.
proof fn lemma_follow_shift(nodes: Seq<UINode>, start: usize, dir: Direction, n: nat)
    requires
        spec_link(nodes[start as int], dir) is Some,
    ensures
        spec_follow(nodes, start, dir, n + 1) == spec_follow(nodes, spec_link(nodes[start as int], dir)->0, dir, n),
    decreases n,
{
    let j = spec_link(nodes[start as int], dir)->0;
    if n > 0 {
        lemma_follow_shift(nodes, start, dir, (n - 1) as nat);
        assert(spec_follow(nodes, start, dir, n) == spec_follow(nodes, j, dir, (n - 1) as nat));
        assert(spec_follow(nodes, start, dir, n + 1) == match spec_link(nodes[spec_follow(nodes, start, dir, n) as int], dir) {
            Some(k) => k,
            None => spec_follow(nodes, start, dir, n),
        });
    } else {
        assert(spec_follow(nodes, start, dir, 1) == match spec_link(nodes[spec_follow(nodes, start, dir, 0) as int], dir) {
            Some(k) => k,
            None => spec_follow(nodes, start, dir, 0),
        });
    }
}

/// A chain ends where its first link leads to a node whose chain ends.
pub proof fn lemma_chain_ends_after_link(nodes: Seq<UINode>, start: usize, dir: Direction)
    requires
        spec_link(nodes[start as int], dir) is Some,
        spec_chain_ends(nodes, spec_link(nodes[start as int], dir)->0, dir),
    ensures
        spec_chain_ends(nodes, start, dir),
{
    let j = spec_link(nodes[start as int], dir)->0;
    let n = choose|n: nat| (#[trigger] spec_link(nodes[spec_follow(nodes, j, dir, n) as int], dir)) is None;
    lemma_follow_shift(nodes, start, dir, n);
    assert(spec_link(nodes[spec_follow(nodes, start, dir, n + 1) as int], dir) is None);
}

/// Same layout is transitive.
pub proof fn lemma_same_layout_trans(a: Seq<UINode>, b: Seq<UINode>, c: Seq<UINode>)
    requires
        spec_same_layout(a, b),
        spec_same_layout(b, c),
    ensures
        spec_same_layout(a, c),
{
    assert forall|i: int| 0 <= i < a.len() implies (#[trigger] a[i]).area == c[i].area by {
        assert(a[i].area == b[i].area);
    }
    assert forall|i: int, d: Direction| 0 <= i < a.len() implies #[trigger] spec_link(a[i], d) == spec_link(c[i], d) by {
        assert(spec_link(a[i], d) == spec_link(b[i], d));
        assert(spec_link(b[i], d) == spec_link(c[i], d));
    }
}

/// Where every chain up and every chain left ends, moving on to the next
/// widget is defined from any hovered node.
pub proof fn lemma_chains_end_tab_defined(v: UITreeView)
    requires
        v.wf(),
        forall|i: usize| i < v.nodes.len() ==> #[trigger] spec_chain_ends(v.nodes, i, Direction::Up),
        forall|i: usize| i < v.nodes.len() ==> #[trigger] spec_chain_ends(v.nodes, i, Direction::Left),
    ensures
        spec_tab_defined(v),
{
    match v.root {
        Some(o) => {
            assert(spec_chain_ends(v.nodes, o, Direction::Up));
            assert(spec_link(v.nodes[o as int], Direction::Down) == v.nodes[o as int].down);
            let m = choose|n: nat| (#[trigger] spec_link(v.nodes[spec_follow(v.nodes, o, Direction::Up, n) as int], Direction::Up)) is None;
            lemma_furthest_is_end(v.nodes, o, Direction::Up, m);
            lemma_follow_in_range(v.nodes, o, Direction::Up, m);
            assert(spec_chain_ends(v.nodes, spec_furthest(v.nodes, o, Direction::Up), Direction::Left));
            match v.nodes[o as int].down {
                Some(d) => {
                    assert(d < v.nodes.len());
                    assert(spec_chain_ends(v.nodes, d, Direction::Left));
                },
                None => {},
            }
        },
        None => {},
    }
}

/// Following one more link from step `a` and from step `b` meets the
/// same node when steps `a` and `b` did.
proof fn lemma_follow_same_after(nodes: Seq<UINode>, start: usize, dir: Direction, a: nat, b: nat, m: nat)
    requires
        spec_follow(nodes, start, dir, a) == spec_follow(nodes, start, dir, b),
    ensures
        spec_follow(nodes, start, dir, a + m) == spec_follow(nodes, start, dir, b + m),
    decreases m,
{
    if m > 0 {
        lemma_follow_same_after(nodes, start, dir, a, b, (m - 1) as nat);
        assert(spec_follow(nodes, start, dir, a + m) == match spec_link(nodes[spec_follow(nodes, start, dir, (a + m - 1) as nat) as int], dir) {
            Some(j) => j,
            None => spec_follow(nodes, start, dir, (a + m - 1) as nat),
        });
        assert(spec_follow(nodes, start, dir, b + m) == match spec_link(nodes[spec_follow(nodes, start, dir, (b + m - 1) as nat) as int], dir) {
            Some(j) => j,
            None => spec_follow(nodes, start, dir, (b + m - 1) as nat),
        });
    }
}

/// Among the first `nodes.len() + 1` steps of a chain two meet the same
/// node.
proof fn lemma_follow_repeats(nodes: Seq<UINode>, start: usize, dir: Direction)
    requires
        spec_links_valid(nodes),
        start < nodes.len(),
    ensures
        exists|a: nat, b: nat| a < b <= nodes.len() && #[trigger] spec_follow(nodes, start, dir, a) == #[trigger] spec_follow(nodes, start, dir, b),
{
    let len = nodes.len();
    let steps = Seq::new(len + 1, |k: int| spec_follow(nodes, start, dir, k as nat) as int);
    if steps.no_duplicates() {
        steps.unique_seq_to_set();
        assert forall|x: int| steps.to_set().contains(x) implies vstd::set_lib::set_int_range(0, len as int).contains(x) by {
            let k = choose|k: int| 0 <= k < steps.len() && steps[k] == x;
            lemma_follow_in_range(nodes, start, dir, k as nat);
        }
        vstd::set_lib::lemma_int_range(0, len as int);
        vstd::set_lib::lemma_len_subset(steps.to_set(), vstd::set_lib::set_int_range(0, len as int));
        assert(false);
    } else {
        let (i, j) = choose|i: int, j: int| 0 <= i < steps.len() && 0 <= j < steps.len() && i != j && steps[i] == steps[j];
        if i < j {
            assert(spec_follow(nodes, start, dir, i as nat) == spec_follow(nodes, start, dir, j as nat));
        } else {
            assert(spec_follow(nodes, start, dir, j as nat) == spec_follow(nodes, start, dir, i as nat));
        }
    }
}

/// A chain whose first `nodes.len() + 1` steps all have a further link
/// never ends: it goes round a cycle.
proof fn lemma_chain_cycles(nodes: Seq<UINode>, start: usize, dir: Direction)
    requires
        spec_links_valid(nodes),
        start < nodes.len(),
        forall|k: nat| k <= nodes.len() ==> (#[trigger] spec_link(nodes[spec_follow(nodes, start, dir, k) as int], dir)) is Some,
    ensures
        !spec_chain_ends(nodes, start, dir),
{
    lemma_follow_repeats(nodes, start, dir);
    let (a, b) = choose|a: nat, b: nat| a < b <= nodes.len() && #[trigger] spec_follow(nodes, start, dir, a) == #[trigger] spec_follow(nodes, start, dir, b);
    assert forall|n: nat| (#[trigger] spec_link(nodes[spec_follow(nodes, start, dir, n) as int], dir)) is Some by {
        lemma_chain_link_at(nodes, start, dir, a, b, n);
    }
}

proof fn lemma_chain_link_at(nodes: Seq<UINode>, start: usize, dir: Direction, a: nat, b: nat, n: nat)
    requires
        a < b <= nodes.len(),
        spec_follow(nodes, start, dir, a) == spec_follow(nodes, start, dir, b),
        forall|k: nat| k <= nodes.len() ==> (#[trigger] spec_link(nodes[spec_follow(nodes, start, dir, k) as int], dir)) is Some,
    ensures
        spec_link(nodes[spec_follow(nodes, start, dir, n) as int], dir) is Some,
    decreases n,
{
    if n > b {
        let p = (b - a) as nat;
        lemma_follow_same_after(nodes, start, dir, a, b, (n - b) as nat);
        assert(a + (n - b) == n - p);
        lemma_chain_link_at(nodes, start, dir, a, b, (n - p) as nat);
    } else {
        assert(n <= nodes.len());
    }
}

impl UITree {
    /// Whether following the links in direction `dir` from `start` comes to
    /// an end.
    pub fn chain_ends(&self, start: usize, dir: Direction) -> (r: bool)
        requires
            self@.wf(),
            start < self@.nodes.len(),
        ensures
            r == spec_chain_ends(self@.nodes, start, dir),
    {
        let ghost nodes = self@.nodes;
        let len = self.nodes.len();
        let mut node = start;
        let mut k: usize = 0;
        while k < len
            invariant
                nodes == self@.nodes,
                self@.wf(),
                len == nodes.len(),
                start < len,
                k <= len,
                node == spec_follow(nodes, start, dir, k as nat),
                node < len,
                forall|m: nat| m < k ==> (#[trigger] spec_link(nodes[spec_follow(nodes, start, dir, m) as int], dir)) is Some,
            decreases len - k,
        {
            match self.nodes[node].link(dir) {
                Some(j) => {
                    proof {
                        lemma_follow_in_range(nodes, start, dir, (k + 1) as nat);
                    }
                    node = j;
                },
                None => {
                    assert(spec_link(nodes[spec_follow(nodes, start, dir, k as nat) as int], dir) is None);
                    return true;
                },
            }
            k = k + 1;
        }
        match self.nodes[node].link(dir) {
            Some(_) => {
                proof {
                    lemma_chain_cycles(nodes, start, dir);
                }
                false
            },
            None => {
                assert(spec_link(nodes[spec_follow(nodes, start, dir, k as nat) as int], dir) is None);
                true
            },
        }
    }

    /// Whether moving on to the next widget from the hovered one comes to
    /// an end.
    pub fn tab_defined(&self) -> (r: bool)
        requires
            self@.wf(),
        ensures
            r == spec_tab_defined(self@),
    {
        match self.root {
            None => true,
            Some(o) => {
                proof {
                    assert(spec_link(self@.nodes[o as int], Direction::Down) == self@.nodes[o as int].down);
                }
                match self.nodes[o].right() {
                    Some(_) => true,
                    None => match self.nodes[o].down() {
                        Some(d) => self.chain_ends(d, Direction::Left),
                        None => {
                            if self.chain_ends(o, Direction::Up) {
                                let top = self.furthest(o, Direction::Up);
                                self.chain_ends(top, Direction::Left)
                            } else {
                                false
                            }
                        },
                    },
                }
            },
        }
    }

    /// Whether `key` may be handed to [`UITree::handle_input`] (see
    /// [`spec_tree_accepts`]).
    pub fn accepts(&self, key: &KeyInput) -> (r: bool)
        requires
            self@.wf(),
        ensures
            r == spec_tree_accepts(self@, *key),
    {
        let reaches_tab = key.code == KeyCode::Tab && if self.using_selection {
            key.kind != KeyEventKind::Release && match self.root {
                Some(o) => match &self.nodes[o].widget {
                    Widget::Text(_) => true,
                    Widget::Reviews(_) => false,
                },
                None => false,
            }
        } else {
            key.kind == KeyEventKind::Press
        };
        if reaches_tab && !self.tab_defined() {
            return false;
        }
        if self.using_selection && key.kind != KeyEventKind::Release {
            match self.root {
                Some(o) => match &self.nodes[o].widget {
                    Widget::Reviews(grid) => {
                        if !grid.is_editing() && key.code == KeyCode::Down && grid.scroll() == usize::MAX {
                            return false;
                        }
                    },
                    Widget::Text(_) => {},
                },
                None => {},
            }
        }
        true
    }

    /// A tree of `nodes` whose hovered node is `root`, which gets hovered;
    /// no widget is selected.
    pub fn new(nodes: Vec<UINode>, root: Option<usize>) -> (r: UITree)
        requires
            (UITreeView { nodes: nodes@, root: None, using_selection: false }).wf(),
            root matches Some(o) ==> o < nodes@.len(),
        ensures
            r@ == spec_set_root(UITreeView { nodes: nodes@, root: None, using_selection: false }, root),
            r@.wf(),
            (forall|i: int| 0 <= i < nodes@.len() ==> (#[trigger] nodes@[i]).hover_base_style is None)
                ==> spec_hover_only_root(r@),
            (forall|i: int| 0 <= i < nodes@.len() ==> !spec_is_selected(#[trigger] nodes@[i]))
                ==> spec_selection_on_root(r@),
            spec_root_hovered(r@),
    {
        let mut tree = UITree { nodes, root: None, using_selection: false };
        tree.set_root(root);
        tree
    }

    /// The number of nodes.
    pub fn len(&self) -> (r: usize)
        ensures
            r == self@.nodes.len(),
    {
        self.nodes.len()
    }

    /// Node `i`, to read. A text editor must not be drawn through this
    /// shared reference: drawing stores where the editor is scrolled to,
    /// which the next key reads ([`crate::textbox::spec_after_key`]), so draw through
    /// [`UITree::widget_mut`], whose contract hands the drawn editor back.
    pub fn node(&self, i: usize) -> (r: &UINode)
        requires
            i < self@.nodes.len(),
        ensures
            *r == self@.nodes[i as int],
    {
        &self.nodes[i]
    }

    /// The widget of node `i`, to change in place; the rest of the tree
    /// stays as it is.
    pub fn widget_mut(&mut self, i: usize) -> (r: &mut Widget)
        requires
            i < old(self)@.nodes.len(),
        ensures
            *r == old(self)@.nodes[i as int].widget,
            final(self)@ == (UITreeView {
                nodes: old(self)@.nodes.update(i as int, UINode { widget: *final(r), ..old(self)@.nodes[i as int] }),
                ..old(self)@
            }),
    {
        &mut self.nodes[i].widget
    }

    /// The hovered node.
    pub fn root(&self) -> (r: Option<usize>)
        ensures
            r == self@.root,
    {
        self.root
    }

    /// Whether the hovered node is selected.
    pub fn using_selection(&self) -> (r: bool)
        ensures
            r == self@.using_selection,
    {
        self.using_selection
    }

    /// Makes `node` the hovered node, moving the hover highlight to it.
    pub fn set_root(&mut self, node: Option<usize>)
        requires
            old(self)@.wf(),
            node matches Some(n) ==> n < old(self)@.nodes.len(),
        ensures
            final(self)@ == spec_set_root(old(self)@, node),
            final(self)@.wf(),
            spec_same_layout(old(self)@.nodes, final(self)@.nodes),
            spec_same_selection(old(self)@.nodes, final(self)@.nodes),
            spec_hover_only_root(old(self)@) ==> spec_hover_only_root(final(self)@),
            spec_root_hovered(final(self)@),
    {
        let ghost v0 = self@;
        match self.root {
            Some(o) => {
                self.nodes[o].unhover();
                proof {
                    lemma_replace_node(v0, o as int, self@.nodes[o as int]);
                    assert(self@.nodes =~= v0.nodes.update(o as int, self@.nodes[o as int]));
                }
            },
            None => {},
        }
        let ghost v1 = self@;
        match node {
            Some(n) => {
                self.nodes[n].hover();
                proof {
                    lemma_hover_idempotent(v1.nodes[n as int]);
                    lemma_replace_node(v1, n as int, self@.nodes[n as int]);
                    assert(self@.nodes =~= v1.nodes.update(n as int, self@.nodes[n as int]));
                }
            },
            None => {},
        }
        self.root = node;
        proof {
            if spec_hover_only_root(v0) {
                assert forall|i: usize| i < self@.nodes.len() && self@.root != Some(i)
                    implies (#[trigger] self@.nodes[i as int]).hover_base_style is None by {
                    match v0.root {
                        Some(o) => {
                            assert(v1.nodes == v0.nodes.update(o as int, spec_unhovered(v0.nodes[o as int])));
                            if i == o {
                                assert(spec_unhovered(v0.nodes[i as int]).hover_base_style is None);
                            } else {
                                assert(v0.nodes[i as int].hover_base_style is None);
                            }
                        },
                        None => {
                            assert(v0.nodes[i as int].hover_base_style is None);
                        },
                    }
                    assert(v1.nodes[i as int].hover_base_style is None);
                }
            }
            assert forall|i: int| 0 <= i < v0.nodes.len() implies spec_is_selected(#[trigger] self@.nodes[i])
                == spec_is_selected(v0.nodes[i]) by {
                lemma_selection_flags(v0.nodes[i]);
                lemma_selection_flags(v1.nodes[i]);
                if let Some(o) = v0.root {
                    if i == o {
                        assert(v1.nodes[i] == spec_unhovered(v0.nodes[i]));
                    }
                }
            }
            if v0.nodes != v1.nodes {
                lemma_same_layout_trans(v0.nodes, v1.nodes, self@.nodes);
            }
            if v0.nodes == v1.nodes && v1.nodes == self@.nodes {
                lemma_same_layout_refl(v0.nodes);
            }
        }
    }

    /// The nodes to draw: every node reachable from the hovered one by
    /// following neighbours, each once, in breadth-first order from the
    /// hovered node.
    pub fn draw_order(&self) -> (r: Vec<usize>)
        requires
            self@.wf(),
        ensures
            match self@.root {
                None => r@.len() == 0,
                Some(s) => {
                    &&& r@.len() > 0
                    &&& r@[0] == s
                    &&& r@.no_duplicates()
                    &&& forall|j: usize|
                        (j < self@.nodes.len() && spec_reachable(self@.nodes, s as int, j as int))
                            <==> r@.contains(j)
                    &&& spec_breadth_first(self@.nodes, r@)
                },
            },
    {
        let start = match self.root {
            Some(s) => s,
            None => return Vec::new(),
        };
        let ghost nodes = self@.nodes;
        let len = self.nodes.len();
        let mut visited: Vec<bool> = Vec::new();
        let mut i: usize = 0;
        while i < len
            invariant
                i <= len,
                visited@ =~= Seq::new(i as nat, |k: int| false),
            decreases len - i,
        {
            visited.push(false);
            i = i + 1;
        }
        proof {
            lemma_count_false_all(len as nat);
        }
        let mut order: Vec<usize> = Vec::new();
        visited.set(start, true);
        order.push(start);
        proof {
            lemma_count_false_set(Seq::new(len as nat, |k: int| false), start as int);
            assert(spec_reach(nodes, start as int, 0).contains(start as int));
            assert(order@ == seq![start]);
            assert forall|j: int| 0 <= j < len implies (visited@[j] <==> order@.contains(j as usize)) by {
                if j == start as int {
                    assert(order@[0] == start);
                }
            }
        }
        let ghost mut parents: Seq<int> = seq![0];
        let mut head: usize = 0;
        while head < order.len()
            invariant
                parents.len() == order@.len(),
                forall|k: int| 1 <= k < order@.len() ==> spec_is_parent(nodes, order@, k, #[trigger] parents[k]) && parents[k] < head,
                forall|k1: int, k2: int| 1 <= k1 < k2 < order@.len() ==> spec_key_before(nodes, order@, #[trigger] parents[k1], k1, #[trigger] parents[k2], k2),
                self@.wf(),
                nodes == self@.nodes,
                len == nodes.len(),
                start < len,
                visited@.len() == len,
                head <= order@.len(),
                order@.len() > 0,
                order@[0] == start,
                order@.no_duplicates(),
                spec_count_false(visited@) + order@.len() == len,
                forall|k: int| 0 <= k < order@.len() ==> #[trigger] order@[k] < len,
                forall|j: int| 0 <= j < len ==> (visited@[j] <==> order@.contains(j as usize)),
                forall|k: int| 0 <= k < order@.len() ==> spec_reachable(nodes, start as int, #[trigger] order@[k] as int),
                forall|k: int, d: Direction|
                    0 <= k < head && (#[trigger] spec_link(nodes[order@[k] as int], d)) is Some
                        ==> visited@[spec_link(nodes[order@[k] as int], d)->0 as int],
            decreases 2 * len - order@.len() - head,
        {
            let node = order[head];
            let ghost order_before = order@;
            let mut di: usize = 0;
            while di < 4
                invariant
                    parents.len() == order@.len(),
                    1 <= order_before.len(),
                    forall|k: int| 1 <= k < order_before.len() ==> spec_is_parent(nodes, order@, k, #[trigger] parents[k]) && parents[k] < head,
                    forall|k: int| order_before.len() <= k < order@.len() ==> spec_is_parent(nodes, order@, k, #[trigger] parents[k]),
                    forall|k: int| order_before.len() <= k < order@.len() ==> #[trigger] parents[k] == head,
                    forall|k: int| order_before.len() <= k < order@.len() ==> spec_neighbour_rank(nodes[node as int], #[trigger] order@[k]) < di,
                    forall|k1: int, k2: int| 1 <= k1 < k2 < order@.len() ==> spec_key_before(nodes, order@, #[trigger] parents[k1], k1, #[trigger] parents[k2], k2),
                    self@.wf(),
                    nodes == self@.nodes,
                    len == nodes.len(),
                    start < len,
                    node < len,
                    node == order@[head as int],
                    visited@.len() == len,
                    head < order@.len(),
                    di <= 4,
                    order@.len() > 0,
                    order@[0] == start,
                    order@.no_duplicates(),
                    order_before.len() <= order@.len(),
                    forall|k: int| 0 <= k < order_before.len() ==> order@[k] == order_before[k],
                    spec_count_false(visited@) + order@.len() == len,
                    forall|k: int| 0 <= k < order@.len() ==> #[trigger] order@[k] < len,
                    forall|j: int| 0 <= j < len ==> (visited@[j] <==> order@.contains(j as usize)),
                    forall|k: int| 0 <= k < order@.len() ==> spec_reachable(nodes, start as int, #[trigger] order@[k] as int),
                    forall|k: int, d: Direction|
                        0 <= k < head && (#[trigger] spec_link(nodes[order@[k] as int], d)) is Some
                            ==> visited@[spec_link(nodes[order@[k] as int], d)->0 as int],
                    forall|e: int|
                        0 <= e < di && (#[trigger] spec_link(nodes[node as int], direction_at(e))) is Some
                            ==> visited@[spec_link(nodes[node as int], direction_at(e))->0 as int],
                decreases 4 - di,
            {
                let dir = if di == 0 {
                    Direction::Up
                } else if di == 1 {
                    Direction::Right
                } else if di == 2 {
                    Direction::Down
                } else {
                    Direction::Left
                };
                assert(dir == direction_at(di as int));
                match self.nodes[node].link(dir) {
                    Some(j) => {
                        assert(j < len);
                        if !visited[j] {
                            proof {
                                lemma_count_false_set(visited@, j as int);
                                let n = choose|n: nat| #[trigger] spec_reach(nodes, start as int, n).contains(node as int);
                                assert(spec_reach(nodes, start as int, n).contains(node as int));
                                assert(spec_is_neighbour_of(nodes, node as int, j as int));
                                assert(spec_reach(nodes, start as int, n + 1).contains(j as int));
                                assert(!order@.contains(j));
                            }
                            let ghost o1 = order@;
                            let ghost p1 = parents;
                            proof {
                                assert forall|e: int| 0 <= e < di implies spec_link(nodes[node as int], direction_at(e)) != Some(j) by {
                                    if spec_link(nodes[node as int], direction_at(e)) is Some {
                                        assert(visited@[spec_link(nodes[node as int], direction_at(e))->0 as int]);
                                    }
                                }
                                assert(spec_link(nodes[node as int], direction_at(di as int)) == Some(j));
                                assert(spec_neighbour_rank(nodes[node as int], j) == di) by {
                                    if di > 0 { assert(spec_link(nodes[node as int], direction_at(0)) != Some(j)); }
                                    if di > 1 { assert(spec_link(nodes[node as int], direction_at(1)) != Some(j)); }
                                    if di > 2 { assert(spec_link(nodes[node as int], direction_at(2)) != Some(j)); }
                                }
                                assert forall|q: int| 0 <= q < head implies spec_neighbour_rank(#[trigger] nodes[o1[q] as int], j) == 4 by {
                                    let n = nodes[o1[q] as int];
                                    if spec_link(n, Direction::Up) is Some { assert(visited@[spec_link(n, Direction::Up)->0 as int]); }
                                    if spec_link(n, Direction::Right) is Some { assert(visited@[spec_link(n, Direction::Right)->0 as int]); }
                                    if spec_link(n, Direction::Down) is Some { assert(visited@[spec_link(n, Direction::Down)->0 as int]); }
                                    if spec_link(n, Direction::Left) is Some { assert(visited@[spec_link(n, Direction::Left)->0 as int]); }
                                }
                                parents = parents.push(head as int);
                            }
                            visited.set(j, true);
                            order.push(j);
                            proof {
                                assert(order@ == o1.push(j));
                                let kn = o1.len() as int;
                                assert(spec_is_parent(nodes, order@, kn, head as int));
                                assert forall|k: int| 1 <= k < o1.len() implies spec_is_parent(nodes, order@, k, p1[k]) by {
                                    lemma_parent_push(nodes, o1, j, k, p1[k]);
                                }
                                assert forall|k: int| 1 <= k < order@.len() implies spec_is_parent(nodes, order@, k, #[trigger] parents[k]) by {
                                    if k < o1.len() {
                                        assert(parents[k] == p1[k]);
                                    }
                                }
                                assert forall|k1: int, k2: int| 1 <= k1 < k2 < order@.len() implies spec_key_before(nodes, order@, #[trigger] parents[k1], k1, #[trigger] parents[k2], k2) by {
                                    assert(parents[k1] == p1[k1]);
                                    assert(order@[k1] == o1[k1]);
                                    if k2 < o1.len() {
                                        assert(parents[k2] == p1[k2]);
                                        assert(order@[k2] == o1[k2]);
                                        assert(spec_key_before(nodes, o1, p1[k1], k1, p1[k2], k2));
                                    } else {
                                        assert(k2 == kn);
                                        if k1 >= order_before.len() {
                                            assert(spec_neighbour_rank(nodes[node as int], o1[k1]) < di);
                                        }
                                    }
                                }

                                assert forall|jj: int| 0 <= jj < len implies (visited@[jj] <==> order@.contains(jj as usize)) by {
                                    if jj != j as int {
                                        if o1.contains(jj as usize) {
                                            let k = choose|k: int| 0 <= k < o1.len() && o1[k] == jj as usize;
                                            assert(order@[k] == jj as usize);
                                        }
                                        if order@.contains(jj as usize) {
                                            let k = choose|k: int| 0 <= k < order@.len() && order@[k] == jj as usize;
                                            assert(k < o1.len());
                                            assert(o1[k] == jj as usize);
                                        }
                                    } else {
                                        assert(order@[order@.len() - 1] == j);
                                    }
                                }
                                assert forall|a: int, b: int| 0 <= a < b < order@.len() implies order@[a] != order@[b] by {
                                    if b == order@.len() - 1 {
                                        assert(o1.contains(order@[a]));
                                    }
                                }
                            }
                        }
                    },
                    None => {},
                }
                di = di + 1;
            }
            proof {
                assert forall|k: int, d: Direction|
                    0 <= k < head + 1 && (#[trigger] spec_link(nodes[order@[k] as int], d)) is Some
                        implies visited@[spec_link(nodes[order@[k] as int], d)->0 as int] by {
                    if k == head {
                        assert(d == direction_at(direction_index(d)));
                    }
                }
            }
            head = head + 1;
        }
        proof {
            assert forall|k: int| 1 <= k < order@.len() implies #[trigger] spec_has_parent(nodes, order@, k) by {
                assert(spec_is_parent(nodes, order@, k, parents[k]));
            }
            assert forall|k1: int, k2: int, q1: int, q2: int|
                1 <= k1 < k2 && #[trigger] spec_is_parent(nodes, order@, k1, q1) && #[trigger] spec_is_parent(nodes, order@, k2, q2)
                implies q1 < q2 || (q1 == q2 && spec_neighbour_rank(nodes[order@[q1] as int], order@[k1])
                    < spec_neighbour_rank(nodes[order@[q2] as int], order@[k2])) by {
                assert(spec_is_parent(nodes, order@, k1, parents[k1]));
                assert(spec_is_parent(nodes, order@, k2, parents[k2]));
                lemma_parent_unique(nodes, order@, k1, q1, parents[k1]);
                lemma_parent_unique(nodes, order@, k2, q2, parents[k2]);
                assert(spec_key_before(nodes, order@, parents[k1], k1, parents[k2], k2));
            }
            let s = Set::new(|j: int| 0 <= j < len && visited@[j]);
            assert forall|a: int, b: int| #[trigger] s.contains(a) && spec_is_neighbour_of(nodes, a, b) implies #[trigger] s.contains(b) by {
                let k = choose|k: int| 0 <= k < order@.len() && order@[k] == a as usize;
                let d = choose|d: Direction| (#[trigger] spec_link(nodes[a], d)) is Some && spec_link(nodes[a], d)->0 as int == b;
                assert(spec_link(nodes[order@[k] as int], d) is Some);
            }
            assert forall|j: usize| (j < len && spec_reachable(nodes, start as int, j as int)) <==> order@.contains(j) by {
                if j < len && spec_reachable(nodes, start as int, j as int) {
                    let n = choose|n: nat| #[trigger] spec_reach(nodes, start as int, n).contains(j as int);
                    lemma_closed_holds_reach(nodes, start as int, s, n);
                    assert(s.contains(j as int));
                }
                if order@.contains(j) {
                    let k = choose|k: int| 0 <= k < order@.len() && order@[k] == j;
                    assert(spec_reachable(nodes, start as int, order@[k] as int));
                }
            }
        }
        order
    }

    /// Follows the links in direction `dir` from `start` as long as there
    /// is one, and returns the last node reached.
    pub fn furthest(&self, start: usize, dir: Direction) -> (r: usize)
        requires
            self@.wf(),
            start < self@.nodes.len(),
            spec_chain_ends(self@.nodes, start, dir),
        ensures
            r == spec_furthest(self@.nodes, start, dir),
            r < self@.nodes.len(),
    {
        let ghost nodes = self@.nodes;
        let ghost bound = choose|n: nat| (#[trigger] spec_link(nodes[spec_follow(nodes, start, dir, n) as int], dir)) is None;
        let mut node = start;
        let ghost mut k: nat = 0;
        loop
            invariant
                nodes == self@.nodes,
                self@.wf(),
                start < nodes.len(),
                node == spec_follow(nodes, start, dir, k),
                node < nodes.len(),
                k <= bound,
                spec_link(nodes[spec_follow(nodes, start, dir, bound) as int], dir) is None,
            decreases bound - k,
        {
            match self.nodes[node].link(dir) {
                Some(n) => {
                    proof {
                        if k == bound {
                            assert(false);
                        }
                        k = k + 1;
                        lemma_follow_in_range(nodes, start, dir, k);
                    }
                    node = n;
                },
                None => {
                    proof {
                        lemma_furthest_is_end(nodes, start, dir, k);
                    }
                    return node;
                },
            }
        }
    }

    /// Moves the hover to the neighbour in direction `dir`, if there is one.
    pub fn navigate(&mut self, dir: Direction)
        requires
            old(self)@.wf(),
        ensures
            final(self)@ == spec_navigate(old(self)@, dir),
            final(self)@.wf(),
            spec_same_layout(old(self)@.nodes, final(self)@.nodes),
            spec_same_selection(old(self)@.nodes, final(self)@.nodes),
            spec_hover_only_root(old(self)@) ==> spec_hover_only_root(final(self)@),
            spec_root_hovered(old(self)@) ==> spec_root_hovered(final(self)@),
            final(self)@.root is Some <==> old(self)@.root is Some,
    {
        let node = match self.root {
            Some(o) => self.nodes[o].link(dir),
            None => None,
        };
        match node {
            Some(n) => self.set_root(Some(n)),
            None => {
                proof {
                    lemma_same_layout_refl(self@.nodes);
                }
            },
        }
    }

    /// Moves the hover to the "next" widget: right if there is a neighbour
    /// there, else down and then as far left as possible, else (at the
    /// bottom right of the layout) as far up and then as far left as
    /// possible.
    pub fn tab_next(&mut self)
        requires
            old(self)@.wf(),
            spec_tab_defined(old(self)@),
        ensures
            final(self)@ == spec_tab_next(old(self)@),
            final(self)@.wf(),
            spec_same_layout(old(self)@.nodes, final(self)@.nodes),
            spec_same_selection(old(self)@.nodes, final(self)@.nodes),
            spec_hover_only_root(old(self)@) ==> spec_hover_only_root(final(self)@),
            spec_root_hovered(old(self)@) ==> spec_root_hovered(final(self)@),
            final(self)@.root is Some <==> old(self)@.root is Some,
    {
        let current = match self.root {
            Some(c) => c,
            None => {
                proof {
                    lemma_same_layout_refl(self@.nodes);
                }
                return ;
            },
        };
        proof {
            assert(spec_link(self@.nodes[current as int], Direction::Right) == self@.nodes[current as int].right);
            assert(spec_link(self@.nodes[current as int], Direction::Down) == self@.nodes[current as int].down);
        }
        let next = match self.nodes[current].right() {
            Some(r) => r,
            None => match self.nodes[current].down() {
                Some(d) => self.furthest(d, Direction::Left),
                None => {
                    let top = self.furthest(current, Direction::Up);
                    self.furthest(top, Direction::Left)
                },
            },
        };
        self.set_root(Some(next));
    }

    /// Handles one key; returns true when the user quits.
    pub fn handle_input(&mut self, input: &KeyInput) -> (r: bool)
        requires
            old(self)@.wf(),
            spec_tree_accepts(old(self)@, *input),
        ensures
            final(self)@.wf(),
            r == spec_quits(old(self)@, *input),
            r <==> (!old(self)@.using_selection && input.kind == KeyEventKind::Press && (input.code == KeyCode::Char(
                'q',
            ) || input.code == KeyCode::Char('Q'))),
            spec_tree_input(old(self)@, final(self)@, *input),
            spec_same_layout(old(self)@.nodes, final(self)@.nodes),
            spec_hover_only_root(old(self)@) ==> spec_hover_only_root(final(self)@),
            final(self)@.root is Some <==> old(self)@.root is Some,
            spec_selection_on_root(old(self)@) ==> spec_selection_on_root(final(self)@),
            spec_root_hovered(old(self)@) ==> spec_root_hovered(final(self)@),
    {
        let ghost start = self@;
        proof {
            lemma_quits_only_on_q(start, *input);
            lemma_same_layout_refl(start.nodes);
        }
        if self.using_selection {
            if !input.is_release() {
                let should_deselect = match self.root {
                    Some(o) => {
                        let ghost before = self@;
                        let d = self.nodes[o].handle_input(input);
                        proof {
                            let n = self@.nodes[o as int];
                            assert(spec_node_input(before.nodes[o as int], n, *input, d));
                            assert(self@.nodes =~= before.nodes.update(o as int, n));
                            lemma_selection_flags(before.nodes[o as int]);
                            assert(spec_same_selection(before.nodes, self@.nodes));
                            if spec_root_hovered(start) {
                                lemma_hover_kept(before.nodes[o as int]);
                            }
                            lemma_replace_node(before, o as int, n);
                            if input.code == KeyCode::Tab && d {
                                lemma_same_layout_tab(before, self@);
                            }
                            lemma_same_layout_trans(start.nodes, before.nodes, self@.nodes);
                        }
                        d
                    },
                    None => false,
                };
                if should_deselect {
                    self.using_selection = false;
                    match self.root {
                        Some(o) => {
                            let ghost before = self@;
                            self.nodes[o].deselect();
                            proof {
                                lemma_selection_flags(before.nodes[o as int]);
                                if spec_root_hovered(start) {
                                    lemma_hover_kept(before.nodes[o as int]);
                                }
                                if spec_selection_on_root(start) {
                                    assert forall|i: usize| i < self@.nodes.len() implies !spec_is_selected(
                                        #[trigger] self@.nodes[i as int],
                                    ) by {
                                        if i != o {
                                            assert(self@.nodes[i as int] == before.nodes[i as int]);
                                            assert(!spec_is_selected(start.nodes[i as int]));
                                        }
                                    }
                                }
                                lemma_replace_node(before, o as int, self@.nodes[o as int]);
                                assert(self@.nodes =~= before.nodes.update(o as int, self@.nodes[o as int]));
                                if input.code == KeyCode::Tab {
                                    lemma_same_layout_tab(before, self@);
                                }
                                lemma_same_layout_trans(start.nodes, before.nodes, self@.nodes);
                            }
                        },
                        None => {},
                    }
                    // A widget with no "next" of its own (a plain text
                    // input) deselects on Tab as on Esc; the hover then moves
                    // on to the next widget in the same keystroke.
                    if input.code == KeyCode::Tab {
                        let ghost before = self@;
                        self.tab_next();
                        proof {
                            lemma_same_layout_trans(start.nodes, before.nodes, self@.nodes);
                        }
                    }
                }
            }
        } else if input.is_press() {
            match input.code {
                KeyCode::Enter => {
                    self.using_selection = true;
                    match self.root {
                        Some(o) => {
                            let ghost before = self@;
                            self.nodes[o].select();
                            proof {
                                lemma_selection_flags(before.nodes[o as int]);
                                if spec_root_hovered(start) {
                                    lemma_hover_kept(before.nodes[o as int]);
                                }
                                if spec_selection_on_root(start) {
                                    assert forall|i: usize| i < self@.nodes.len() implies (spec_is_selected(
                                        #[trigger] self@.nodes[i as int],
                                    ) <==> i == o) by {
                                        if i != o {
                                            assert(self@.nodes[i as int] == before.nodes[i as int]);
                                            assert(!spec_is_selected(start.nodes[i as int]));
                                        }
                                    }
                                }
                                lemma_replace_node(before, o as int, self@.nodes[o as int]);
                                assert(self@.nodes =~= before.nodes.update(o as int, self@.nodes[o as int]));
                            }
                        },
                        None => {},
                    }
                },
                KeyCode::Left => self.navigate(Direction::Left),
                KeyCode::Right => self.navigate(Direction::Right),
                KeyCode::Up => self.navigate(Direction::Up),
                KeyCode::Down => self.navigate(Direction::Down),
                KeyCode::Tab => self.tab_next(),
                KeyCode::Char(c) => {
                    if ascii_lower(c) == 'q' as u32 {
                        return true;
                    }
                },
                _ => {},
            }
        }
        false
    }
}

} // verus!
