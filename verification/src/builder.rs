use vstd::prelude::*;
use crate::geometry::{
    AreaDescription, Direction, lemma_neighbour_lies_beyond, lemma_row_neighbours, nearest, spec_is_neighbour, spec_is_row,
};
use crate::tree::{
    UITree, UITreeView, spec_hover_only_root, spec_root_hovered, spec_selection_on_root, spec_same_layout, spec_chain_ends, spec_follow, spec_links_valid, spec_set_root, spec_tab_defined,
    lemma_chain_ends_after_link, lemma_chains_end_tab_defined, lemma_tabs_walk_a_row, spec_row_links, spec_tabs,
};
use crate::ui::{UINode, Widget, lemma_selection_flags, spec_deselected, spec_is_selected, spec_link, spec_node_wf};

verus! {

broadcast use crate::review::lemma_restyled_view;

/// A handle to a widget added to a [`UITreeBuilder`]: its index among the
/// nodes of the tree built.
#[derive(Clone, Copy, PartialEq, Eq, Structural, Debug)]
pub struct NodeHandle {
    pub index: usize,
}

impl NodeHandle {
    /// The widget that this handle names in the tree built, to read. A text
    /// editor must not be drawn through this shared reference: drawing
    /// stores where the editor is scrolled to, which the next key reads, so
    /// draw through [`NodeHandle::borrow_mut`] or [`UITree::widget_mut`].
    pub fn borrow<'a>(&self, tree: &'a UITree) -> (r: &'a Widget)
        requires
            self.index < tree@.nodes.len(),
        ensures
            *r == tree@.nodes[self.index as int].widget,
    {
        &tree.node(self.index).widget
    }

    /// The widget that this handle names in the tree built, to change in
    /// place; the rest of the tree stays as it is.
    pub fn borrow_mut<'a>(&self, tree: &'a mut UITree) -> (r: &'a mut Widget)
        requires
            self.index < old(tree)@.nodes.len(),
        ensures
            *r == old(tree)@.nodes[self.index as int].widget,
            final(tree)@ == (UITreeView {
                nodes: old(tree)@.nodes.update(
                    self.index as int,
                    UINode { widget: *final(r), ..old(tree)@.nodes[self.index as int] },
                ),
                ..old(tree)@
            }),
    {
        tree.widget_mut(self.index)
    }
}

/// Collects widgets placed at areas, then builds a [`UITree`] in which each
/// widget's neighbours are worked out from the areas.
pub struct UITreeBuilder {
    nodes: Vec<UINode>,
    areas: Vec<AreaDescription>,
}

impl View for UITreeBuilder {
    type V = Seq<UINode>;

    closed spec fn view(&self) -> Seq<UINode> {
        self.nodes@
    }
}

/// The areas of `nodes`, in order.
pub open spec fn spec_areas(nodes: Seq<UINode>) -> Seq<AreaDescription> {
    Seq::new(nodes.len(), |i: int| nodes[i].area)
}

/// What building makes of node `i` of `added`, hover aside: the node
/// deselected, with the neighbours that the areas give it.
pub open spec fn spec_built_node(added: Seq<UINode>, i: int, n: UINode) -> bool {
    &&& n == UINode { up: n.up, right: n.right, down: n.down, left: n.left, ..spec_deselected(added[i]) }
    &&& forall|d: Direction| spec_is_neighbour(spec_areas(added), i, d, #[trigger] spec_link(n, d))
}

/// Every node's neighbours are those that the areas of the nodes give it.
pub open spec fn spec_links_from_areas(nodes: Seq<UINode>) -> bool {
    forall|k: int, d: Direction| 0 <= k < nodes.len() ==> spec_is_neighbour(spec_areas(nodes), k, d, #[trigger] spec_link(nodes[k], d))
}

/// No area is empty.
pub open spec fn spec_areas_not_empty(nodes: Seq<UINode>) -> bool {
    forall|k: int| 0 <= k < nodes.len() ==> (#[trigger] nodes[k]).area.w > 0 && nodes[k].area.h > 0
}

/// How far the centre of an area is from the screen's edge in direction
/// `dir` (centres lie within 0 to 382 on either axis).
pub open spec fn spec_room(dir: Direction, a: AreaDescription) -> nat {
    match dir {
        Direction::Up => a.spec_center_y() as nat,
        Direction::Left => a.spec_center_x() as nat,
        Direction::Down => (400 - a.spec_center_y()) as nat,
        Direction::Right => (400 - a.spec_center_x()) as nat,
    }
}

proof fn lemma_chain_ends_in_layout(nodes: Seq<UINode>, dir: Direction, i: usize)
    requires
        spec_links_valid(nodes),
        spec_links_from_areas(nodes),
        spec_areas_not_empty(nodes),
        i < nodes.len(),
    ensures
        spec_chain_ends(nodes, i, dir),
    decreases spec_room(dir, nodes[i as int].area),
{
    let areas = spec_areas(nodes);
    assert(spec_is_neighbour(areas, i as int, dir, spec_link(nodes[i as int], dir)));
    match spec_link(nodes[i as int], dir) {
        None => {
            assert(spec_follow(nodes, i, dir, 0) == i);
            assert(spec_link(nodes[spec_follow(nodes, i, dir, 0) as int], dir) is None);
        },
        Some(j) => {
            assert(areas[i as int] == nodes[i as int].area);
            assert(nodes[i as int].area.w > 0 && nodes[i as int].area.h > 0);
            lemma_neighbour_lies_beyond(areas, i as int, dir, j);
            assert(areas[j as int] == nodes[j as int].area);
            assert(nodes[j as int].area.w > 0 && nodes[j as int].area.h > 0);
            lemma_chain_ends_in_layout(nodes, dir, j);
            lemma_chain_ends_after_link(nodes, i, dir);
        },
    }
}

/// In a layout whose neighbours come from its areas, none of them empty,
/// following neighbours in any one direction always comes to an end (no
/// widget is its own neighbour's neighbour's ... neighbour): so moving on
/// to the next widget is defined, whichever widget is hovered.
pub proof fn lemma_layout_chains_end(v: UITreeView)
    requires
        v.wf(),
        spec_links_from_areas(v.nodes),
        spec_areas_not_empty(v.nodes),
    ensures
        forall|i: usize, d: Direction| i < v.nodes.len() ==> #[trigger] spec_chain_ends(v.nodes, i, d),
        spec_tab_defined(v),
{
    assert forall|i: usize, d: Direction| i < v.nodes.len() implies #[trigger] spec_chain_ends(v.nodes, i, d) by {
        lemma_chain_ends_in_layout(v.nodes, d, i);
    }
    assert forall|i: usize| i < v.nodes.len() implies #[trigger] spec_chain_ends(v.nodes, i, Direction::Up) by {
        lemma_chain_ends_in_layout(v.nodes, Direction::Up, i);
    }
    assert forall|i: usize| i < v.nodes.len() implies #[trigger] spec_chain_ends(v.nodes, i, Direction::Left) by {
        lemma_chain_ends_in_layout(v.nodes, Direction::Left, i);
    }
    lemma_chains_end_tab_defined(v);
}

/// Widgets placed side by side in one row, left to right in the order they
/// were added: in a layout whose neighbours come from those areas, moving
/// on to the next widget `n` times from widget `j` visits the widgets from
/// left to right and wraps round from the last to the first, ending on
/// widget `(j + n) % len`.
pub proof fn lemma_row_layout_tab_walk(v: UITreeView, n: nat)
    requires
        spec_links_from_areas(v.nodes),
        spec_is_row(spec_areas(v.nodes)),
        v.root matches Some(j) && j < v.nodes.len(),
        v.nodes.len() <= usize::MAX,
    ensures
        spec_tabs(v, n).root == Some(((v.root->0 + n) % (v.nodes.len() as int)) as usize),
{
    let areas = spec_areas(v.nodes);
    assert forall|i: int| 0 <= i < v.nodes.len() implies {
        &&& (#[trigger] v.nodes[i]).up is None
        &&& v.nodes[i].down is None
        &&& v.nodes[i].right == if i + 1 < v.nodes.len() { Some((i + 1) as usize) } else { None }
        &&& v.nodes[i].left == if i > 0 { Some((i - 1) as usize) } else { None }
    } by {
        assert(spec_is_neighbour(areas, i, Direction::Up, spec_link(v.nodes[i], Direction::Up)));
        assert(spec_is_neighbour(areas, i, Direction::Down, spec_link(v.nodes[i], Direction::Down)));
        assert(spec_is_neighbour(areas, i, Direction::Left, spec_link(v.nodes[i], Direction::Left)));
        assert(spec_is_neighbour(areas, i, Direction::Right, spec_link(v.nodes[i], Direction::Right)));
        lemma_row_neighbours(areas, i, Direction::Up, v.nodes[i].up);
        lemma_row_neighbours(areas, i, Direction::Down, v.nodes[i].down);
        lemma_row_neighbours(areas, i, Direction::Left, v.nodes[i].left);
        lemma_row_neighbours(areas, i, Direction::Right, v.nodes[i].right);
    }
    assert(spec_row_links(v.nodes));
    lemma_tabs_walk_a_row(v, n);
}

/// Keys never change the layout, so a layout whose neighbours came from
/// its areas keeps that property however the user moves around in it.
pub proof fn lemma_same_layout_keeps_neighbours(a: Seq<UINode>, b: Seq<UINode>)
    requires
        spec_same_layout(a, b),
        spec_links_from_areas(a),
    ensures
        spec_links_from_areas(b),
        spec_areas_not_empty(a) ==> spec_areas_not_empty(b),
{
    assert forall|k: int| 0 <= k < a.len() implies #[trigger] spec_areas(b)[k] == spec_areas(a)[k] by {
        assert(a[k].area == b[k].area);
    }
    assert(spec_areas(b) =~= spec_areas(a));
    assert forall|k: int, d: Direction| 0 <= k < b.len() implies spec_is_neighbour(spec_areas(b), k, d, #[trigger] spec_link(b[k], d)) by {
        assert(spec_link(a[k], d) == spec_link(b[k], d));
        assert(spec_is_neighbour(spec_areas(a), k, d, spec_link(a[k], d)));
    }
    if spec_areas_not_empty(a) {
        assert forall|k: int| 0 <= k < b.len() implies (#[trigger] b[k]).area.w > 0 && b[k].area.h > 0 by {
            assert(a[k].area == b[k].area);
        }
    }
}

impl UITreeBuilder {
    pub closed spec fn wf(self) -> bool {
        &&& self.areas@ == spec_areas(self.nodes@)
        &&& forall|i: int| 0 <= i < self.nodes@.len() ==> spec_node_wf(#[trigger] self.nodes@[i])
        &&& forall|i: int| 0 <= i < self.nodes@.len() ==> (#[trigger] self.nodes@[i]).hover_base_style is None
    }

    pub fn new() -> (r: UITreeBuilder)
        ensures
            r@.len() == 0,
            r.wf(),
    {
        let r = UITreeBuilder { nodes: Vec::new(), areas: Vec::new() };
        assert(r.areas@ =~= spec_areas(r.nodes@));
        r
    }

    /// Adds `widget`, placed at `area` and deselected, and returns its
    /// handle.
    pub fn add(&mut self, widget: Widget, area: AreaDescription) -> (r: NodeHandle)
        requires
            old(self).wf(),
            spec_node_wf(UINode::new_spec(widget, area)),
        ensures
            final(self).wf(),
            r.index == old(self)@.len(),
            final(self)@ == old(self)@.push(spec_deselected(UINode::new_spec(widget, area))),
    {
        let mut node = UINode::new(widget, area);
        node.deselect();
        let index = self.nodes.len();
        self.nodes.push(node);
        self.areas.push(area);
        proof {
            assert(self.areas@ =~= spec_areas(self.nodes@));
        }
        NodeHandle { index }
    }

    /// The index of the node nearest to node `self_index` in direction
    /// `dir`, as [`spec_is_neighbour`] describes it.
    pub fn nearest(&self, self_index: usize, dir: Direction) -> (r: Option<usize>)
        requires
            self.wf(),
            self_index < self@.len(),
        ensures
            spec_is_neighbour(spec_areas(self@), self_index as int, dir, r),
    {
        nearest(&self.areas, self_index, dir)
    }

    /// Builds the tree: every widget gets its neighbours in the four
    /// directions, starts deselected, and the first widget added (if any)
    /// is the hovered one.
    pub fn build(self) -> (r: UITree)
        requires
            self.wf(),
        ensures
            r@.wf(),
            r@.nodes.len() == self@.len(),
            r@.using_selection == false,
            r@.root == (if self@.len() > 0 { Some(0usize) } else { None }),
            spec_areas(r@.nodes) == spec_areas(self@),
            spec_links_from_areas(r@.nodes),
            spec_hover_only_root(r@),
            spec_selection_on_root(r@),
            spec_root_hovered(r@),
            exists|built: Seq<UINode>|
                {
                    &&& built.len() == self@.len()
                    &&& (forall|i: int| 0 <= i < built.len() ==> #[trigger] spec_built_node(self@, i, built[i]))
                    &&& r@ == spec_set_root(
                        UITreeView { nodes: built, root: None, using_selection: false },
                        r@.root,
                    )
                },
    {
        let ghost added = self@;
        let UITreeBuilder { mut nodes, areas } = self;
        let n = nodes.len();
        let mut i: usize = 0;
        while i < n
            invariant
                n == nodes@.len(),
                n == added.len(),
                areas@ == spec_areas(added),
                i <= n,
                forall|k: int| 0 <= k < i ==> #[trigger] spec_built_node(added, k, nodes@[k]),
                forall|k: int| i <= k < n ==> #[trigger] nodes@[k] == added[k],
                forall|k: int| 0 <= k < n ==> spec_node_wf(#[trigger] added[k]),
                forall|k: int| 0 <= k < n ==> (#[trigger] added[k]).hover_base_style is None,
            decreases n - i,
        {
            let up = nearest(&areas, i, Direction::Up);
            let down = nearest(&areas, i, Direction::Down);
            let left = nearest(&areas, i, Direction::Left);
            let right = nearest(&areas, i, Direction::Right);
            nodes[i].set_up(up);
            nodes[i].set_down(down);
            nodes[i].set_left(left);
            nodes[i].set_right(right);
            // every widget starts deselected: otherwise the cursor of a
            // widget that is never visited would stay visible
            nodes[i].deselect();
            proof {
                let b = nodes@[i as int];
                assert(spec_link(b, Direction::Up) == up);
                assert(spec_link(b, Direction::Down) == down);
                assert(spec_link(b, Direction::Left) == left);
                assert(spec_link(b, Direction::Right) == right);
                assert forall|d: Direction| spec_is_neighbour(spec_areas(added), i as int, d, #[trigger] spec_link(b, d)) by {
                    match d {
                        Direction::Up => {},
                        Direction::Down => {},
                        Direction::Left => {},
                        Direction::Right => {},
                    }
                }
                assert(spec_built_node(added, i as int, b));
            }
            i = i + 1;
        }
        let ghost built = nodes@;
        proof {
            assert forall|k: int| 0 <= k < n implies spec_node_wf(#[trigger] built[k]) && built[k].hover_base_style is None
                && !spec_is_selected(built[k]) by {
                assert(spec_built_node(added, k, built[k]));
                lemma_selection_flags(added[k]);
                assert(spec_node_wf(added[k]));
                assert(added[k].hover_base_style is None);
            }
            assert forall|k: int, d: Direction|
                0 <= k < n && (#[trigger] spec_link(built[k], d)) is Some implies spec_link(built[k], d)->0 < n by {
                assert(spec_built_node(added, k, built[k]));
                assert(spec_is_neighbour(spec_areas(added), k, d, spec_link(built[k], d)));
            }
        }
        let root = if n > 0 { Some(0usize) } else { None };
        let tree = UITree::new(nodes, root);
        proof {
            let rn = tree@.nodes;
            assert forall|k: int| 0 <= k < n implies #[trigger] rn[k].area == added[k].area && (forall|d: Direction| #[trigger] spec_link(rn[k], d) == spec_link(built[k], d)) by {
                assert(spec_built_node(added, k, built[k]));
            }
            assert(spec_areas(rn) =~= spec_areas(added));
            assert forall|k: int, d: Direction| 0 <= k < rn.len() implies spec_is_neighbour(spec_areas(rn), k, d, #[trigger] spec_link(rn[k], d)) by {
                assert(spec_built_node(added, k, built[k]));
                assert(spec_link(rn[k], d) == spec_link(built[k], d));
            }
        }
        tree
    }
}

} // verus!
