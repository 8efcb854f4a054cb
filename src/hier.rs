//! The instance hierarchy as the user browses it: expand flags on instances,
//! probe markers on signals, and the flattened list that the cursor moves over.

use crate::design::{copy_indices, tree_wf, LoadedDut};
use crate::paths::PathSet;
use vstd::prelude::*;

verus! {

/// A signal's pending change to the probe set.
#[derive(Clone, Copy, Debug, PartialEq, Eq, Structural)]
pub enum Marker {
    NotMarked,
    MarkedForAdd,
    MarkedForRemove,
}

/// The marker a signal takes when it is selected: an unmarked signal is
/// marked for removal if it is probed and for addition if not; a marked one
/// goes back to unmarked.
pub open spec fn next_marker(m: Marker, is_added: bool) -> Marker {
    match m {
        Marker::NotMarked => if is_added {
            Marker::MarkedForRemove
        } else {
            Marker::MarkedForAdd
        },
        _ => Marker::NotMarked,
    }
}

/// Selecting an unmarked signal twice brings it back to unmarked, through
/// "marked for addition" when it is not probed and through "marked for
/// removal" when it is; no marker ever leads straight to the other one.
pub proof fn lemma_marker_cycle(is_added: bool)
    ensures
        next_marker(next_marker(Marker::NotMarked, is_added), is_added) == Marker::NotMarked,
        next_marker(Marker::NotMarked, is_added) == if is_added {
            Marker::MarkedForRemove
        } else {
            Marker::MarkedForAdd
        },
        next_marker(Marker::MarkedForAdd, is_added) != Marker::MarkedForRemove,
        next_marker(Marker::MarkedForRemove, is_added) != Marker::MarkedForAdd,
{
}

/// An instance as shown: its path, its module, the arena indices of its
/// children and of its signals, and whether it is expanded.
#[derive(Clone, Debug)]
pub struct HierNode {
    pub path: String,
    pub module_name: String,
    pub children: Vec<usize>,
    pub leafs: Vec<usize>,
    pub is_expanded: bool,
}

/// A signal as shown: its path and width, whether it is probed, and its marker.
#[derive(Clone, Debug)]
pub struct HierLeaf {
    pub path: String,
    pub width: u64,
    pub is_added: bool,
    pub marker: Marker,
}

/// One line of the flattened hierarchy: an instance or a signal (by arena
/// index) and its depth.
#[derive(Clone, Copy, Debug, PartialEq, Eq, Structural)]
pub enum HierItem {
    Instance(usize, usize),
    Signal(usize, usize),
}

/// Children stand after their parent, and all indices are in range.
pub open spec fn view_wf(nodes: Seq<HierNode>, n_leafs: nat) -> bool {
    &&& forall|n: int, k: int|
        0 <= n < nodes.len() && 0 <= k < nodes[n].children@.len() ==> n < #[trigger] nodes[n].children@[k]
            < nodes.len()
    &&& forall|n: int, k: int|
        0 <= n < nodes.len() && 0 <= k < nodes[n].leafs@.len() ==> #[trigger] nodes[n].leafs@[k] < n_leafs
}

/// The lines of the signals `ls` at depth `depth`.
pub open spec fn leaf_items(ls: Seq<usize>, depth: nat) -> Seq<HierItem> {
    Seq::new(ls.len(), |i: int| HierItem::Signal(ls[i], depth as usize))
}

/// The lines of the subtree at node `n`: the node itself and, if it is
/// expanded, its signals and then each child's subtree.
pub open spec fn flat_node(nodes: Seq<HierNode>, n: int, depth: nat) -> Seq<HierItem>
    decreases nodes.len() - n, 1int, 0int,
{
    if 0 <= n < nodes.len() {
        seq![HierItem::Instance(n as usize, depth as usize)] + if nodes[n].is_expanded {
            leaf_items(nodes[n].leafs@, depth + 1) + flat_children(
                nodes,
                n,
                nodes[n].children@.len() as int,
                depth + 1,
            )
        } else {
            Seq::empty()
        }
    } else {
        Seq::empty()
    }
}

/// The lines of the subtrees of the first `k` children of node `n`.
pub open spec fn flat_children(nodes: Seq<HierNode>, n: int, k: int, depth: nat) -> Seq<HierItem>
    decreases nodes.len() - n, 0int, k,
{
    if 0 <= n < nodes.len() && 0 < k <= nodes[n].children@.len() {
        let c = nodes[n].children@[k - 1] as int;
        flat_children(nodes, n, k - 1, depth) + if n < c < nodes.len() {
            flat_node(nodes, c, depth)
        } else {
            Seq::empty()
        }
    } else {
        Seq::empty()
    }
}

/// The whole flattened hierarchy, from the root.
pub open spec fn flattened(nodes: Seq<HierNode>) -> Seq<HierItem> {
    flat_node(nodes, 0, 0)
}

/// The add set after the signal at `p`, probed or not, moves on from marker `m`.
pub open spec fn next_add_set(add: Set<Seq<char>>, m: Marker, is_added: bool, p: Seq<char>) -> Set<Seq<char>> {
    match m {
        Marker::NotMarked => if is_added {
            add
        } else {
            add.insert(p)
        },
        Marker::MarkedForAdd => add.remove(p),
        Marker::MarkedForRemove => add,
    }
}

/// The remove set after the signal at `p`, probed or not, moves on from marker `m`.
pub open spec fn next_remove_set(rem: Set<Seq<char>>, m: Marker, is_added: bool, p: Seq<char>) -> Set<
    Seq<char>,
> {
    match m {
        Marker::NotMarked => if is_added {
            rem.insert(p)
        } else {
            rem
        },
        Marker::MarkedForAdd => rem,
        Marker::MarkedForRemove => rem.remove(p),
    }
}

/// Appends the lines of the subtree at `n` to `out`.
fn traverse_hier_node(nodes: &Vec<HierNode>, n: usize, depth: usize, out: &mut Vec<HierItem>, Ghost(nl): Ghost<nat>)
    requires
        view_wf(nodes@, nl),
        n < nodes@.len(),
        depth <= n,
    ensures
        final(out)@ == old(out)@ + flat_node(nodes@, n as int, depth as nat),
    decreases nodes@.len() - n,
{
    out.push(HierItem::Instance(n, depth));
    let total = nodes.len();
    let node = &nodes[n];
    if node.is_expanded {
        let ghost base = out@;
        let mut i: usize = 0;
        while i < node.leafs.len()
            invariant
                node == &nodes@[n as int],
                depth <= n < nodes@.len() == total,
                i <= node.leafs@.len(),
                out@ == base + leaf_items(node.leafs@.subrange(0, i as int), depth as nat + 1),
            decreases node.leafs@.len() - i,
        {
            out.push(HierItem::Signal(node.leafs[i], depth + 1));
            proof {
                assert(leaf_items(node.leafs@.subrange(0, i + 1), depth as nat + 1) =~= leaf_items(
                    node.leafs@.subrange(0, i as int),
                    depth as nat + 1,
                ).push(HierItem::Signal(node.leafs@[i as int], (depth + 1) as usize)));
            }
            i = i + 1;
        }
        proof {
            assert(node.leafs@.subrange(0, node.leafs@.len() as int) =~= node.leafs@);
        }
        let ghost mid = out@;
        let mut k: usize = 0;
        while k < node.children.len()
            invariant
                node == &nodes@[n as int],
                view_wf(nodes@, nl),
                depth <= n < nodes@.len(),
                k <= node.children@.len(),
                out@ == mid + flat_children(nodes@, n as int, k as int, depth as nat + 1),
            decreases node.children@.len() - k,
        {
            let c = node.children[k];
            assert(n < c < nodes@.len());
            traverse_hier_node(nodes, c, depth + 1, out, Ghost(nl));
            proof {
                assert(out@ =~= mid + flat_children(nodes@, n as int, k + 1, depth as nat + 1));
            }
            k = k + 1;
        }
        proof {
            assert(out@ =~= old(out)@ + flat_node(nodes@, n as int, depth as nat));
        }
    } else {
        proof {
            assert(out@ =~= old(out)@ + flat_node(nodes@, n as int, depth as nat));
        }
    }
}

/// Every line names an instance below `nn` or a signal below `nl`.
pub open spec fn items_valid(items: Seq<HierItem>, nn: nat, nl: nat) -> bool {
    forall|i: int|
        0 <= i < items.len() ==> match #[trigger] items[i] {
            HierItem::Instance(a, _) => a < nn,
            HierItem::Signal(b, _) => b < nl,
        }
}

proof fn lemma_items_valid_concat(a: Seq<HierItem>, b: Seq<HierItem>, nn: nat, nl: nat)
    requires
        items_valid(a, nn, nl),
        items_valid(b, nn, nl),
    ensures
        items_valid(a + b, nn, nl),
{
    assert forall|i: int| 0 <= i < (a + b).len() implies match #[trigger] (a + b)[i] {
        HierItem::Instance(x, _) => x < nn,
        HierItem::Signal(y, _) => y < nl,
    } by {
        if i < a.len() {
            assert((a + b)[i] == a[i]);
        } else {
            assert((a + b)[i] == b[i - a.len()]);
        }
    }
}

proof fn lemma_flat_node_valid(nodes: Seq<HierNode>, nl: nat, n: int, depth: nat)
    requires
        view_wf(nodes, nl),
    ensures
        items_valid(flat_node(nodes, n, depth), nodes.len(), nl),
    decreases nodes.len() - n, 1int, 0int,
{
    if 0 <= n < nodes.len() {
        let head = seq![HierItem::Instance(n as usize, depth as usize)];
        assert(items_valid(head, nodes.len(), nl)) by {
            assert forall|i: int| 0 <= i < head.len() implies match #[trigger] head[i] {
                HierItem::Instance(x, _) => x < nodes.len(),
                HierItem::Signal(y, _) => y < nl,
            } by {
                assert(head[i] == HierItem::Instance(n as usize, depth as usize));
            }
        }
        if nodes[n].is_expanded {
            let ls = leaf_items(nodes[n].leafs@, depth + 1);
            assert(items_valid(ls, nodes.len(), nl)) by {
                assert forall|i: int| 0 <= i < ls.len() implies match #[trigger] ls[i] {
                    HierItem::Instance(x, _) => x < nodes.len(),
                    HierItem::Signal(y, _) => y < nl,
                } by {
                    assert(nodes[n].leafs@[i] < nl);
                }
            }
            lemma_flat_children_valid(nodes, nl, n, nodes[n].children@.len() as int, depth + 1);
            lemma_items_valid_concat(
                ls,
                flat_children(nodes, n, nodes[n].children@.len() as int, depth + 1),
                nodes.len(),
                nl,
            );
            lemma_items_valid_concat(
                head,
                ls + flat_children(nodes, n, nodes[n].children@.len() as int, depth + 1),
                nodes.len(),
                nl,
            );
        } else {
            assert(flat_node(nodes, n, depth) =~= head);
        }
    }
}

proof fn lemma_flat_children_valid(nodes: Seq<HierNode>, nl: nat, n: int, k: int, depth: nat)
    requires
        view_wf(nodes, nl),
    ensures
        items_valid(flat_children(nodes, n, k, depth), nodes.len(), nl),
    decreases nodes.len() - n, 0int, k,
{
    if 0 <= n < nodes.len() && 0 < k <= nodes[n].children@.len() {
        let c = nodes[n].children@[k - 1] as int;
        lemma_flat_children_valid(nodes, nl, n, k - 1, depth);
        if n < c < nodes.len() {
            lemma_flat_node_valid(nodes, nl, c, depth);
            lemma_items_valid_concat(
                flat_children(nodes, n, k - 1, depth),
                flat_node(nodes, c, depth),
                nodes.len(),
                nl,
            );
        } else {
            assert(flat_children(nodes, n, k, depth) =~= flat_children(nodes, n, k - 1, depth));
        }
    }
}

/// The browsable hierarchy of the loaded design, with the cursor, the probe
/// set as last confirmed, and the signals marked for addition and removal.
#[derive(Debug)]
pub struct InstanceHierViewer {
    pub nodes: Vec<HierNode>,
    pub leafs: Vec<HierLeaf>,
    pub probed_points: PathSet,
    pub items_in_list: Vec<HierItem>,
    pub selected_item_idx: Option<usize>,
    pub signals_marked_to_add: PathSet,
    pub signals_marked_to_remove: PathSet,
}

impl InstanceHierViewer {
    /// The arena is well formed, the list is the flattening of the tree, and
    /// the cursor (present once a design is loaded) stands on a line.
    pub open spec fn wf(&self) -> bool {
        &&& view_wf(self.nodes@, self.leafs@.len())
        &&& self.probed_points.wf()
        &&& self.signals_marked_to_add.wf()
        &&& self.signals_marked_to_remove.wf()
        &&& if self.nodes@.len() == 0 {
            self.items_in_list@.len() == 0 && self.selected_item_idx is None
        } else {
            &&& self.items_in_list@ == flattened(self.nodes@)
            &&& items_valid(self.items_in_list@, self.nodes@.len(), self.leafs@.len())
            &&& self.selected_item_idx matches Some(i) && i < self.items_in_list@.len()
        }
    }

    /// The line under the cursor.
    pub open spec fn selected_item(&self) -> Option<HierItem> {
        match self.selected_item_idx {
            Some(i) => Some(self.items_in_list@[i as int]),
            None => None,
        }
    }

    /// A viewer with no design loaded.
    pub fn new() -> (r: InstanceHierViewer)
        ensures
            r.wf(),
            r.nodes@.len() == 0,
            r.leafs@.len() == 0,
            r.selected_item_idx is None,
            r.probed_points@.is_empty(),
            r.signals_marked_to_add@.is_empty(),
            r.signals_marked_to_remove@.is_empty(),
    {
        InstanceHierViewer {
            nodes: Vec::new(),
            leafs: Vec::new(),
            probed_points: PathSet::new(),
            items_in_list: Vec::new(),
            selected_item_idx: None,
            signals_marked_to_add: PathSet::new(),
            signals_marked_to_remove: PathSet::new(),
        }
    }

    /// The lines of the hierarchy rooted at `nodes[0]`.
    fn get_flattened_hierarchy(nodes: &Vec<HierNode>, Ghost(nl): Ghost<nat>) -> (r: Vec<HierItem>)
        requires
            view_wf(nodes@, nl),
            nodes@.len() > 0,
        ensures
            r@ == flattened(nodes@),
            items_valid(r@, nodes@.len(), nl),
    {
        let mut out: Vec<HierItem> = Vec::new();
        traverse_hier_node(nodes, 0, 0, &mut out, Ghost(nl));
        proof {
            assert(out@ =~= flattened(nodes@));
            lemma_flat_node_valid(nodes@, nl, 0, 0);
        }
        out
    }
}

impl InstanceHierViewer {
    /// Shows the hierarchy of `loaded_dut`: every instance collapsed, every
    /// signal unmarked and flagged as probed exactly when the session probes
    /// it, no pending marks, the cursor on the root.
    pub fn set_loaded_dut(&mut self, loaded_dut: &LoadedDut)
        requires
            loaded_dut.wf(),
        ensures
            final(self).wf(),
            final(self).nodes@.len() == loaded_dut.nodes@.len(),
            forall|i: int|
                0 <= i < loaded_dut.nodes@.len() ==> {
                    let v = #[trigger] final(self).nodes@[i];
                    let m = loaded_dut.nodes@[i];
                    &&& v.path@ == m.path@
                    &&& v.module_name@ == m.module_name@
                    &&& v.children@ == m.children@
                    &&& v.leafs@ == m.signals@
                    &&& !v.is_expanded
                },
            final(self).leafs@.len() == loaded_dut.signals@.len(),
            forall|j: int|
                0 <= j < loaded_dut.signals@.len() ==> {
                    let l = #[trigger] final(self).leafs@[j];
                    let sig = loaded_dut.signals@[j];
                    &&& l.path@ == sig.name@
                    &&& l.width == sig.width
                    &&& l.is_added == loaded_dut.probed_points@.contains(sig.name@)
                    &&& l.marker == Marker::NotMarked
                },
            final(self).probed_points@ == loaded_dut.probed_points@,
            final(self).signals_marked_to_add@.is_empty(),
            final(self).signals_marked_to_remove@.is_empty(),
            final(self).selected_item_idx == Some(0usize),
    {
        let mut nodes: Vec<HierNode> = Vec::new();
        let mut i: usize = 0;
        proof {
            reveal(tree_wf);
        }
        while i < loaded_dut.nodes.len()
            invariant
                loaded_dut.wf(),
                i <= loaded_dut.nodes@.len(),
                nodes@.len() == i,
                forall|k: int|
                    0 <= k < i ==> {
                        let v = #[trigger] nodes@[k];
                        let m = loaded_dut.nodes@[k];
                        &&& v.path@ == m.path@
                        &&& v.module_name@ == m.module_name@
                        &&& v.children@ == m.children@
                        &&& v.leafs@ == m.signals@
                        &&& !v.is_expanded
                    },
            decreases loaded_dut.nodes@.len() - i,
        {
            let m = &loaded_dut.nodes[i];
            nodes.push(
                HierNode {
                    path: m.path.clone(),
                    module_name: m.module_name.clone(),
                    children: copy_indices(&m.children),
                    leafs: copy_indices(&m.signals),
                    is_expanded: false,
                },
            );
            i = i + 1;
        }
        let mut leafs: Vec<HierLeaf> = Vec::new();
        let mut j: usize = 0;
        while j < loaded_dut.signals.len()
            invariant
                loaded_dut.wf(),
                j <= loaded_dut.signals@.len(),
                leafs@.len() == j,
                forall|k: int|
                    0 <= k < j ==> {
                        let l = #[trigger] leafs@[k];
                        let sig = loaded_dut.signals@[k];
                        &&& l.path@ == sig.name@
                        &&& l.width == sig.width
                        &&& l.is_added == loaded_dut.probed_points@.contains(sig.name@)
                        &&& l.marker == Marker::NotMarked
                    },
            decreases loaded_dut.signals@.len() - j,
        {
            let sig = &loaded_dut.signals[j];
            let is_added = loaded_dut.probed_points.contains(sig.name.as_str());
            leafs.push(HierLeaf { path: sig.name.clone(), width: sig.width, is_added, marker: Marker::NotMarked });
            j = j + 1;
        }
        proof {
            let ns = loaded_dut.signals@.len();
            let t = loaded_dut.nodes@;
            assert(tree_wf(t, ns));
            assert forall|n: int, k: int| 0 <= n < nodes@.len() && 0 <= k < nodes@[n].children@.len() implies n
                < #[trigger] nodes@[n].children@[k] < nodes@.len() by {
                assert(nodes@[n].children@ == t[n].children@);
                assert(t[n].children@[k] == nodes@[n].children@[k]);
            }
            assert forall|n: int, k: int| 0 <= n < nodes@.len() && 0 <= k < nodes@[n].leafs@.len() implies #[trigger] nodes@[n].leafs@[k]
                < leafs@.len() by {
                assert(nodes@[n].leafs@ == t[n].signals@);
                assert(t[n].signals@[k] == nodes@[n].leafs@[k]);
            }
        }
        let items = Self::get_flattened_hierarchy(&nodes, Ghost(leafs@.len()));
        proof {
            reveal_with_fuel(flat_node, 1);
        }
        self.nodes = nodes;
        self.leafs = leafs;
        self.items_in_list = items;
        self.probed_points = loaded_dut.probed_points.copy();
        self.signals_marked_to_add = PathSet::new();
        self.signals_marked_to_remove = PathSet::new();
        self.selected_item_idx = Some(0);
    }
}

impl InstanceHierViewer {
    /// The line under the cursor.
    pub fn get_selected_item(&self) -> (r: Option<HierItem>)
        requires
            self.wf(),
        ensures
            r == self.selected_item(),
    {
        match self.selected_item_idx {
            Some(idx) => Some(self.items_in_list[idx]),
            None => None,
        }
    }

    /// Moves the cursor one line down, staying on the last line.
    pub fn select_next(&mut self)
        requires
            old(self).wf(),
        ensures
            final(self).wf(),
            final(self).selected_item_idx == match old(self).selected_item_idx {
                Some(i) => Some(if i + 1 < old(self).items_in_list@.len() { (i + 1) as usize } else { i }),
                None => None,
            },
            final(self).nodes == old(self).nodes,
            final(self).leafs == old(self).leafs,
            final(self).items_in_list == old(self).items_in_list,
    {
        if let Some(idx) = self.selected_item_idx {
            if idx < self.items_in_list.len() - 1 {
                self.selected_item_idx = Some(idx + 1);
            }
        }
    }

    /// Moves the cursor one line up, staying on the first line.
    pub fn select_previous(&mut self)
        requires
            old(self).wf(),
        ensures
            final(self).wf(),
            final(self).selected_item_idx == match old(self).selected_item_idx {
                Some(i) => Some(if i > 0 { (i - 1) as usize } else { 0usize }),
                None => None,
            },
            final(self).nodes == old(self).nodes,
            final(self).leafs == old(self).leafs,
            final(self).items_in_list == old(self).items_in_list,
    {
        if let Some(idx) = self.selected_item_idx {
            self.selected_item_idx = Some(if idx > 0 { idx - 1 } else { 0 });
        }
    }

    /// Acts on the line under the cursor: an instance flips its expand flag
    /// (and the list is flattened anew); a signal moves on to its next marker,
    /// and its path enters or leaves the add or remove set accordingly.
    pub fn perform_action_on_selected(&mut self)
        requires
            old(self).wf(),
        ensures
            final(self).wf(),
            final(self).nodes@.len() == old(self).nodes@.len(),
            final(self).leafs@.len() == old(self).leafs@.len(),
            final(self).probed_points@ == old(self).probed_points@,
            match old(self).selected_item() {
                None => {
                    &&& final(self).nodes == old(self).nodes
                    &&& final(self).leafs == old(self).leafs
                    &&& final(self).signals_marked_to_add@ == old(self).signals_marked_to_add@
                    &&& final(self).signals_marked_to_remove@ == old(self).signals_marked_to_remove@
                },
                Some(HierItem::Instance(n, _)) => {
                    &&& final(self).nodes@ == old(self).nodes@.update(
                        n as int,
                        HierNode { is_expanded: !old(self).nodes@[n as int].is_expanded, ..old(self).nodes@[n as int] },
                    )
                    &&& final(self).leafs == old(self).leafs
                    &&& final(self).signals_marked_to_add@ == old(self).signals_marked_to_add@
                    &&& final(self).signals_marked_to_remove@ == old(self).signals_marked_to_remove@
                },
                Some(HierItem::Signal(l, _)) => {
                    let leaf = old(self).leafs@[l as int];
                    &&& final(self).leafs@ == old(self).leafs@.update(
                        l as int,
                        HierLeaf { marker: next_marker(leaf.marker, leaf.is_added), ..leaf },
                    )
                    &&& final(self).nodes == old(self).nodes
                    &&& final(self).items_in_list == old(self).items_in_list
                    &&& final(self).selected_item_idx == old(self).selected_item_idx
                    &&& final(self).signals_marked_to_add@ == next_add_set(
                        old(self).signals_marked_to_add@,
                        leaf.marker,
                        leaf.is_added,
                        leaf.path@,
                    )
                    &&& final(self).signals_marked_to_remove@ == next_remove_set(
                        old(self).signals_marked_to_remove@,
                        leaf.marker,
                        leaf.is_added,
                        leaf.path@,
                    )
                },
            },
    {
        match self.get_selected_item() {
            None => {},
            Some(HierItem::Instance(n, _)) => {
                let flag = self.nodes[n].is_expanded;
                self.nodes[n].is_expanded = !flag;
                proof {
                    assert(self.nodes@ =~= old(self).nodes@.update(
                        n as int,
                        HierNode { is_expanded: !old(self).nodes@[n as int].is_expanded, ..old(self).nodes@[n as int] },
                    ));
                    assert forall|a: int, k: int| 0 <= a < self.nodes@.len() && 0 <= k < self.nodes@[a].children@.len() implies a
                        < #[trigger] self.nodes@[a].children@[k] < self.nodes@.len() by {
                        assert(self.nodes@[a].children@ == old(self).nodes@[a].children@);
                    }
                    assert forall|a: int, k: int| 0 <= a < self.nodes@.len() && 0 <= k < self.nodes@[a].leafs@.len() implies #[trigger] self.nodes@[a].leafs@[k]
                        < self.leafs@.len() by {
                        assert(self.nodes@[a].leafs@ == old(self).nodes@[a].leafs@);
                    }
                }
                let items = Self::get_flattened_hierarchy(&self.nodes, Ghost(self.leafs@.len()));
                self.items_in_list = items;
                proof {
                    reveal_with_fuel(flat_node, 1);
                }
                if let Some(idx) = self.selected_item_idx {
                    if idx >= self.items_in_list.len() {
                        self.selected_item_idx = Some(self.items_in_list.len() - 1);
                    }
                }
            },
            Some(HierItem::Signal(l, _)) => {
                let marker = self.leafs[l].marker;
                let is_added = self.leafs[l].is_added;
                let next = match marker {
                    Marker::NotMarked => {
                        if is_added {
                            self.signals_marked_to_remove.insert(self.leafs[l].path.as_str());
                            Marker::MarkedForRemove
                        } else {
                            self.signals_marked_to_add.insert(self.leafs[l].path.as_str());
                            Marker::MarkedForAdd
                        }
                    },
                    Marker::MarkedForAdd => {
                        self.signals_marked_to_add.remove(self.leafs[l].path.as_str());
                        Marker::NotMarked
                    },
                    Marker::MarkedForRemove => {
                        self.signals_marked_to_remove.remove(self.leafs[l].path.as_str());
                        Marker::NotMarked
                    },
                };
                self.leafs[l].marker = next;
                proof {
                    assert(self.leafs@ =~= old(self).leafs@.update(
                        l as int,
                        HierLeaf { marker: next_marker(marker, is_added), ..old(self).leafs@[l as int] },
                    ));
                }
            },
        }
    }

    /// Takes the pending marks as confirmed: the probe set gains the add set
    /// and loses the remove set, every signal's probed flag follows it, and
    /// all marks are cleared.
    pub fn confirm_marked(&mut self)
        requires
            old(self).wf(),
        ensures
            final(self).wf(),
            final(self).probed_points@ == old(self).probed_points@.union(old(self).signals_marked_to_add@).difference(
                old(self).signals_marked_to_remove@,
            ),
            final(self).leafs@.len() == old(self).leafs@.len(),
            forall|j: int|
                0 <= j < old(self).leafs@.len() ==> {
                    let l = #[trigger] final(self).leafs@[j];
                    let o = old(self).leafs@[j];
                    &&& l.path == o.path
                    &&& l.width == o.width
                    &&& l.is_added == final(self).probed_points@.contains(o.path@)
                    &&& l.marker == Marker::NotMarked
                },
            final(self).nodes == old(self).nodes,
            final(self).items_in_list == old(self).items_in_list,
            final(self).selected_item_idx == old(self).selected_item_idx,
            final(self).signals_marked_to_add@.is_empty(),
            final(self).signals_marked_to_remove@.is_empty(),
    {
        let mut probed = self.probed_points.copy();
        probed.union_with(&self.signals_marked_to_add);
        probed.subtract(&self.signals_marked_to_remove);
        let ghost old_leafs = self.leafs@;
        let mut j: usize = 0;
        while j < self.leafs.len()
            invariant
                probed.wf(),
                self.leafs@.len() == old_leafs.len(),
                j <= old_leafs.len(),
                forall|k: int|
                    0 <= k < j ==> {
                        let l = #[trigger] self.leafs@[k];
                        let o = old_leafs[k];
                        &&& l.path == o.path
                        &&& l.width == o.width
                        &&& l.is_added == probed@.contains(o.path@)
                        &&& l.marker == Marker::NotMarked
                    },
                forall|k: int| j <= k < old_leafs.len() ==> #[trigger] self.leafs@[k] == old_leafs[k],
                self.nodes == old(self).nodes,
                self.items_in_list == old(self).items_in_list,
                self.selected_item_idx == old(self).selected_item_idx,
                self.probed_points == old(self).probed_points,
                self.signals_marked_to_add == old(self).signals_marked_to_add,
                self.signals_marked_to_remove == old(self).signals_marked_to_remove,
            decreases old_leafs.len() - j,
        {
            let is_added = probed.contains(self.leafs[j].path.as_str());
            self.leafs[j].is_added = is_added;
            self.leafs[j].marker = Marker::NotMarked;
            j = j + 1;
        }
        self.probed_points = probed;
        self.signals_marked_to_add = PathSet::new();
        self.signals_marked_to_remove = PathSet::new();
    }
}

} // verus!
