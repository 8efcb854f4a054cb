use oombak::design::{build_tree, LoadedDut, Signal};
use oombak::hier::{HierItem, InstanceHierViewer, Marker};
use oombak::paths::PathSet;

fn sig(name: &str, get: bool, set: bool) -> Signal {
    Signal { name: name.to_string(), width: 8, get, set }
}

fn design_signals() -> Vec<Signal> {
    vec![sig("top.in", true, true), sig("top.out", true, false), sig("top.adder_inst.d", true, false)]
}

fn loaded(probed: &[&str]) -> LoadedDut {
    let signals = design_signals();
    let nodes = build_tree(&signals).unwrap();
    let mut probed_points = PathSet::new();
    for p in probed {
        probed_points.insert(p);
    }
    LoadedDut { signals, nodes, probed_points }
}

#[test]
fn tree_groups_signals_by_prefix() {
    let nodes = build_tree(&design_signals()).unwrap();
    assert_eq!(nodes.len(), 2);
    assert_eq!(nodes[0].name, "top");
    assert_eq!(nodes[0].path, "top");
    assert_eq!(nodes[0].children, vec![1]);
    assert_eq!(nodes[0].signals, vec![0, 1]);
    assert_eq!(nodes[1].name, "adder_inst");
    assert_eq!(nodes[1].path, "top.adder_inst");
    assert_eq!(nodes[1].signals, vec![2]);
}

#[test]
fn tree_refuses_ungroupable_signals() {
    assert!(build_tree(&vec![]).is_none());
    assert!(build_tree(&vec![sig("clk", true, true)]).is_none());
    assert!(build_tree(&vec![sig("a.x", true, true), sig("b.y", true, true)]).is_none());
}

#[test]
fn deep_paths_create_each_level_once() {
    let nodes = build_tree(&vec![sig("t.a.b.x", true, true), sig("t.a.y", true, true), sig("t.a.b.z", true, true)]).unwrap();
    let paths: Vec<&str> = nodes.iter().map(|n| n.path.as_str()).collect();
    assert_eq!(paths, vec!["t", "t.a", "t.a.b"]);
    assert_eq!(nodes[2].signals, vec![0, 2]);
    assert_eq!(nodes[1].signals, vec![1]);
}

#[test]
fn loading_shows_collapsed_root_with_cursor_on_it() {
    let mut v = InstanceHierViewer::new();
    assert!(v.get_selected_item().is_none());
    v.set_loaded_dut(&loaded(&["top.out"]));
    assert_eq!(v.items_in_list, vec![HierItem::Instance(0, 0)]);
    assert_eq!(v.get_selected_item(), Some(HierItem::Instance(0, 0)));
    assert!(!v.leafs[0].is_added);
    assert!(v.leafs[1].is_added);
    assert!(v.leafs.iter().all(|l| l.marker == Marker::NotMarked));
}

#[test]
fn expanding_lists_signals_then_children() {
    let mut v = InstanceHierViewer::new();
    v.set_loaded_dut(&loaded(&[]));
    v.perform_action_on_selected();
    assert_eq!(
        v.items_in_list,
        vec![HierItem::Instance(0, 0), HierItem::Signal(0, 1), HierItem::Signal(1, 1), HierItem::Instance(1, 1)]
    );
    v.select_next();
    v.select_next();
    v.select_next();
    v.perform_action_on_selected();
    assert_eq!(v.items_in_list.len(), 5);
    assert_eq!(v.items_in_list[4], HierItem::Signal(2, 2));
    v.select_next();
    v.select_next();
    assert_eq!(v.selected_item_idx, Some(4));
    v.select_previous();
    assert_eq!(v.selected_item_idx, Some(3));
}

#[test]
fn collapsing_root_keeps_cursor_on_a_line() {
    let mut v = InstanceHierViewer::new();
    v.set_loaded_dut(&loaded(&[]));
    v.perform_action_on_selected();
    v.perform_action_on_selected();
    assert_eq!(v.items_in_list, vec![HierItem::Instance(0, 0)]);
    v.select_previous();
    assert_eq!(v.selected_item_idx, Some(0));
}

#[test]
fn unprobed_leaf_cycles_through_marked_for_add() {
    let mut v = InstanceHierViewer::new();
    v.set_loaded_dut(&loaded(&[]));
    v.perform_action_on_selected();
    v.select_next();
    v.perform_action_on_selected();
    assert_eq!(v.leafs[0].marker, Marker::MarkedForAdd);
    assert!(v.signals_marked_to_add.contains("top.in"));
    v.perform_action_on_selected();
    assert_eq!(v.leafs[0].marker, Marker::NotMarked);
    assert!(!v.signals_marked_to_add.contains("top.in"));
}

#[test]
fn probed_leaf_cycles_through_marked_for_remove() {
    let mut v = InstanceHierViewer::new();
    v.set_loaded_dut(&loaded(&["top.out"]));
    v.perform_action_on_selected();
    v.select_next();
    v.select_next();
    v.perform_action_on_selected();
    assert_eq!(v.leafs[1].marker, Marker::MarkedForRemove);
    assert!(v.signals_marked_to_remove.contains("top.out"));
    assert!(!v.signals_marked_to_add.contains("top.out"));
    v.perform_action_on_selected();
    assert_eq!(v.leafs[1].marker, Marker::NotMarked);
    assert!(!v.signals_marked_to_remove.contains("top.out"));
}

#[test]
fn confirming_marks_updates_probe_flags() {
    let mut v = InstanceHierViewer::new();
    v.set_loaded_dut(&loaded(&["top.out"]));
    v.perform_action_on_selected();
    v.select_next();
    v.perform_action_on_selected();
    v.select_next();
    v.perform_action_on_selected();
    v.confirm_marked();
    assert!(v.leafs[0].is_added);
    assert!(!v.leafs[1].is_added);
    assert!(v.probed_points.contains("top.in"));
    assert!(!v.probed_points.contains("top.out"));
    assert!(v.leafs.iter().all(|l| l.marker == Marker::NotMarked));
    assert_eq!(v.signals_marked_to_add.len(), 0);
}

#[test]
fn path_set_keeps_each_path_once() {
    let mut s = PathSet::new();
    s.insert("a");
    s.insert("a");
    s.insert("b");
    assert_eq!(s.len(), 2);
    s.remove("a");
    assert!(!s.contains("a"));
    assert!(s.contains("b"));
    let mut t = PathSet::new();
    t.insert("c");
    s.union_with(&t);
    assert!(s.contains("c"));
    s.subtract(&t);
    assert!(!s.contains("c"));
    assert_eq!(s.copy().len(), 1);
}
