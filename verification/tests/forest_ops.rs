use flexforest::forest::Forest;
use flexforest::layout::{Cache, Layout};
use flexforest::geometry::{Point, Size};
use flexforest::number::Number;
use flexforest::style::Style;

fn plain_forest(count: usize) -> Forest<()> {
    let mut f: Forest<()> = Forest::with_capacity(count);
    let mut i: usize = 0;
    while i < count {
        f.new_node(Style::default(), Vec::new());
        i += 1;
    }
    f
}

fn sample_layout(w: i64, h: i64, x: i64, y: i64) -> Layout {
    Layout { order: 0, size: Size { width: w, height: h }, location: Point { x, y } }
}

#[test]
fn with_capacity_starts_empty() {
    let f: Forest<()> = Forest::with_capacity(16);
    assert_eq!(f.len(), 0);
}

#[test]
fn new_leaf_is_dirty_with_no_edges() {
    let mut f: Forest<u8> = Forest::with_capacity(2);
    let id = f.new_leaf(Style::default(), 7u8);
    assert_eq!(id, 0);
    assert_eq!(f.len(), 1);
    assert!(f.is_dirty(id));
    assert_eq!(f.children_of(id).len(), 0);
    assert_eq!(f.parents_of(id).len(), 0);
    assert_eq!(f.layout(id), sample_layout(0, 0, 0, 0));
}

#[test]
fn new_node_wires_parents_of_children() {
    let mut f = plain_forest(2);
    let parent = f.new_node(Style::default(), vec![0, 1]);
    assert_eq!(parent, 2);
    assert_eq!(f.children_of(parent), &vec![0, 1]);
    assert_eq!(f.parents_of(0), &vec![2]);
    assert_eq!(f.parents_of(1), &vec![2]);
    assert_eq!(f.parents_of(parent).len(), 0);
}

#[test]
fn new_scroll_view_is_flagged() {
    let mut f = plain_forest(1);
    let sv = f.new_scroll_view(Style::default(), vec![0]);
    assert_eq!(f.children_of(sv), &vec![0]);
    assert_eq!(f.parents_of(0), &vec![1]);
}

#[test]
fn add_child_links_both_sides_and_dirties() {
    let mut f = plain_forest(2);
    f.store_layout(0, sample_layout(10, 10, 0, 0), None);
    assert!(!f.is_dirty(0));
    f.add_child(0, 1);
    assert_eq!(f.children_of(0), &vec![1]);
    assert_eq!(f.parents_of(1), &vec![0]);
    assert!(f.is_dirty(0));
}

#[test]
fn remove_child_detaches_edge() {
    let mut f = plain_forest(3);
    f.add_child(0, 1);
    f.add_child(0, 2);
    let removed = f.remove_child(0, 1);
    assert_eq!(removed, 1);
    assert_eq!(f.children_of(0), &vec![2]);
    assert_eq!(f.parents_of(1).len(), 0);
    assert_eq!(f.parents_of(2), &vec![0]);
    assert_eq!(f.len(), 3);
}

#[test]
fn remove_child_at_index_returns_the_detached_id() {
    let mut f = plain_forest(3);
    f.add_child(0, 1);
    f.add_child(0, 2);
    let removed = f.remove_child_at_index(0, 1);
    assert_eq!(removed, 2);
    assert_eq!(f.children_of(0), &vec![1]);
    assert_eq!(f.parents_of(2).len(), 0);
}

#[test]
fn add_then_remove_at_index_restores_structure_and_layout() {
    let mut f = plain_forest(3);
    f.add_child(0, 1);
    f.store_layout(0, sample_layout(100, 50, 0, 0), None);
    f.store_layout(1, sample_layout(40, 40, 5, 5), None);
    f.store_layout(2, sample_layout(7, 7, 1, 2), None);
    let before_children: Vec<usize> = f.children_of(0).clone();
    let index: usize = f.children_of(0).len();
    f.add_child(0, 2);
    let detached = f.remove_child_at_index(0, index);
    assert_eq!(detached, 2);
    assert_eq!(f.children_of(0), &before_children);
    assert_eq!(f.parents_of(2).len(), 0);
    assert_eq!(f.layout(0), sample_layout(100, 50, 0, 0));
    assert_eq!(f.layout(1), sample_layout(40, 40, 5, 5));
    assert_eq!(f.layout(2), sample_layout(7, 7, 1, 2));
}

#[test]
fn mark_dirty_reaches_every_ancestor() {
    let mut f = plain_forest(4);
    f.add_child(0, 1);
    f.add_child(1, 2);
    f.add_child(0, 3);
    let mut i: usize = 0;
    while i < 4 {
        f.store_layout(i, sample_layout(1, 1, 0, 0), None);
        i += 1;
    }
    assert!(!f.is_dirty(0));
    f.mark_dirty(2);
    assert!(f.is_dirty(2));
    assert!(f.is_dirty(1));
    assert!(f.is_dirty(0));
    assert!(!f.is_dirty(3));
}

#[test]
fn style_mutation_dirties_all_ancestors() {
    let mut f = plain_forest(4);
    f.add_child(0, 1);
    f.add_child(1, 2);
    f.add_child(0, 3);
    let mut i: usize = 0;
    while i < 4 {
        f.store_layout(i, sample_layout(1, 1, 0, 0), None);
        i += 1;
    }
    let mut style = Style::default();
    style.flex_grow = 2;
    f.set_style(2, style);
    assert!(f.is_dirty(2));
    assert!(f.is_dirty(1));
    assert!(f.is_dirty(0));
    assert!(!f.is_dirty(3));
}

#[test]
fn swap_remove_repairs_adjacency() {
    let mut f = plain_forest(4);
    f.add_child(0, 1);
    f.add_child(0, 2);
    f.add_child(2, 3);
    let moved = f.swap_remove(1);
    assert_eq!(moved, Some(3));
    assert_eq!(f.len(), 3);
    assert_eq!(f.children_of(0), &vec![2]);
    assert_eq!(f.children_of(2), &vec![1]);
    assert_eq!(f.parents_of(1), &vec![2]);
    assert_eq!(f.parents_of(2), &vec![0]);
}

#[test]
fn swap_remove_of_last_slot_returns_none() {
    let mut f = plain_forest(3);
    f.add_child(0, 2);
    let moved = f.swap_remove(2);
    assert_eq!(moved, None);
    assert_eq!(f.len(), 2);
    assert_eq!(f.children_of(0).len(), 0);
    assert_eq!(f.parents_of(1).len(), 0);
}

#[test]
fn swap_remove_of_only_node_empties_the_forest() {
    let mut f = plain_forest(1);
    let moved = f.swap_remove(0);
    assert_eq!(moved, None);
    assert_eq!(f.len(), 0);
}

#[test]
fn clear_drops_every_node() {
    let mut f = plain_forest(3);
    f.add_child(0, 1);
    f.clear();
    assert_eq!(f.len(), 0);
}

#[test]
fn set_offset_accumulates_and_clamps_at_zero() {
    let mut f = plain_forest(1);
    f.set_offset(0, 7);
    assert_eq!(f.offset(0), 7);
    f.set_offset(0, -3);
    assert_eq!(f.offset(0), 4);
    f.set_offset(0, -10);
    assert_eq!(f.offset(0), 0);
    f.set_offset(0, -1);
    assert_eq!(f.offset(0), 0);
}

#[test]
fn set_offset_leaves_dirty_bit_alone() {
    let mut f = plain_forest(1);
    f.store_layout(0, sample_layout(1, 1, 0, 0), None);
    f.set_offset(0, 5);
    assert!(!f.is_dirty(0));
}

#[test]
fn store_layout_cleans_and_records() {
    let mut f = plain_forest(1);
    let cache = Cache {
        node_size: Size { width: Number::Defined(10), height: Number::Undefined },
        parent_size: Size { width: Number::Undefined, height: Number::Undefined },
        perform_layout: true,
        layout: sample_layout(10, 20, 0, 0),
    };
    f.store_layout(0, sample_layout(10, 20, 3, 4), Some(cache));
    assert!(!f.is_dirty(0));
    assert_eq!(f.layout(0), sample_layout(10, 20, 3, 4));
}

#[test]
fn cache_hit_needs_clean_node_and_exact_keys() {
    let mut f = plain_forest(1);
    let keys = Size { width: Number::Defined(10), height: Number::Undefined };
    let parent = Size { width: Number::Defined(100), height: Number::Defined(100) };
    let cache = Cache {
        node_size: keys,
        parent_size: parent,
        perform_layout: true,
        layout: sample_layout(10, 20, 0, 0),
    };
    f.store_layout(0, sample_layout(10, 20, 0, 0), Some(cache));
    assert_eq!(f.cached_layout(0, keys, parent, true), Some(sample_layout(10, 20, 0, 0)));
    assert_eq!(f.cached_layout(0, keys, parent, false), None);
    let other = Size { width: Number::Defined(11), height: Number::Undefined };
    assert_eq!(f.cached_layout(0, other, parent, true), None);
    f.mark_dirty(0);
    assert_eq!(f.cached_layout(0, keys, parent, true), None);
}

#[test]
fn mark_dirty_drops_the_cache() {
    let mut f = plain_forest(2);
    f.add_child(0, 1);
    let keys = Size { width: Number::Undefined, height: Number::Undefined };
    let cache = Cache {
        node_size: keys,
        parent_size: keys,
        perform_layout: true,
        layout: sample_layout(1, 1, 0, 0),
    };
    f.store_layout(0, sample_layout(1, 1, 0, 0), Some(cache));
    f.mark_dirty(1);
    assert_eq!(f.cached_layout(0, keys, keys, true), None);
}

#[test]
fn swap_remove_keeps_untouched_lists_in_order() {
    let mut f = plain_forest(6);
    f.add_child(0, 2);
    f.add_child(0, 3);
    f.add_child(5, 1);
    let moved = f.swap_remove(4);
    assert_eq!(moved, Some(5));
    assert_eq!(f.children_of(0), &vec![2, 3]);
    assert_eq!(f.children_of(4), &vec![1]);
    assert_eq!(f.parents_of(1), &vec![4]);
}
