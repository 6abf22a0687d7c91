//! Adding samples up.
use btd::aggregator::{insert, DrawResult, SharedState, MAP_CELLS_PER_DEVICE};
use btd::model::{Category, DeviceMap, Sample, TreeNode};
use btd::quantity::Quantity;

fn sample(path: &[&str], category: Category, weight: f64) -> Sample {
    Sample {
        path_components: path.iter().map(|s| s.to_string()).collect(),
        category,
        weight: Quantity { bits: weight.to_bits() },
        inode: None,
        physical: None,
    }
}

fn child<'a>(node: &'a TreeNode, name: &str) -> &'a TreeNode {
    match node.children.iter().find(|child| child.name == name) {
        Some(child) => &child.node,
        None => panic!("no child"),
    }
}

fn hits(node: &TreeNode, cat: Category) -> f64 {
    f64::from_bits(node.hits_for(cat).bits)
}

#[test]
fn a_sample_counts_on_its_whole_path() {
    let mut root = TreeNode::default();
    insert(&mut root, &sample(&["a", "b"], Category::Exclusive, 1.0));
    insert(&mut root, &sample(&["a", "c"], Category::Shared, 0.5));
    insert(&mut root, &sample(&["d"], Category::Exclusive, 1.0));
    assert_eq!(root.total_count(), 3);
    assert_eq!(root.count_for(Category::Exclusive), 2);
    assert_eq!(root.count_for(Category::Shared), 1);
    assert_eq!(root.count_for(Category::Metadata), 0);
    assert_eq!(f64::from_bits(root.total_hits().bits), 2.5);
    let a = child(&root, "a");
    assert_eq!(a.total_count(), 2);
    assert_eq!(hits(a, Category::Exclusive), 1.0);
    assert_eq!(hits(a, Category::Shared), 0.5);
    assert_eq!(a.children.len(), 2);
    assert_eq!(child(a, "b").total_count(), 1);
    assert_eq!(child(&root, "d").children.len(), 0);
    assert_eq!(root.children.len(), 2);
}

#[test]
fn hits_add_up_as_doubles_do() {
    let mut root = TreeNode::default();
    let mut sum: f64 = 0.0;
    for n in 1..200u64 {
        let weight: f64 = 1.0 / n as f64;
        sum += weight;
        insert(&mut root, &sample(&["x"], Category::Shared, weight));
    }
    assert_eq!(hits(child(&root, "x"), Category::Shared), sum);
    assert_eq!(root.count_for(Category::Shared), 199);
}

#[test]
fn the_last_known_inode_stays() {
    let mut root = TreeNode::default();
    let mut first = sample(&["a"], Category::Exclusive, 1.0);
    first.inode = Some(7);
    insert(&mut root, &first);
    insert(&mut root, &sample(&["a"], Category::Exclusive, 1.0));
    assert_eq!(child(&root, "a").inode, Some(7));
    first.inode = Some(8);
    insert(&mut root, &first);
    assert_eq!(child(&root, "a").inode, Some(8));
    assert_eq!(root.inode, Some(8));
}

#[test]
fn a_sample_without_a_path_counts_at_the_root() {
    let mut root = TreeNode::default();
    insert(&mut root, &sample(&[], Category::System, 1.0));
    assert_eq!(root.total_count(), 1);
    assert!(root.children.is_empty());
}

fn state() -> SharedState {
    SharedState::new(
        1000,
        vec![(1, "/dev/a".to_string(), 5120), (2, "/dev/b".to_string(), 0), (1, "x".to_string(), 9)],
    )
}

#[test]
fn a_new_state_is_blank() {
    let state = state();
    assert_eq!(state.total_draws, 0);
    assert_eq!(state.universe_bytes, 1000);
    assert_eq!(state.disk_map.len(), 3);
    assert_eq!(state.disk_map[0].cells.len(), MAP_CELLS_PER_DEVICE);
    assert_eq!(MAP_CELLS_PER_DEVICE, 512);
    assert_eq!(state.disk_map[1].path, "/dev/b");
    assert!(state.disk_map.iter().all(|d| d.cells.iter().all(|c| c.count == 0)));
    assert_eq!(state.tree.total_count(), 0);
}

#[test]
fn a_draw_without_samples_counts_as_a_draw() {
    let mut state = state();
    let draw = DrawResult { samples: vec![] };
    assert!(state.has_room(&draw));
    state.record(&draw);
    assert_eq!(state.total_draws, 1);
    assert_eq!(state.tree.total_count(), 0);
    assert!(state.tree.children.is_empty());
}

#[test]
fn samples_are_marked_on_the_map() {
    let mut state = state();
    let mut near = sample(&["a"], Category::Exclusive, 1.0);
    near.physical = Some((1, 25));
    let mut far = sample(&["b"], Category::Metadata, 1.0);
    far.physical = Some((1, 999999));
    let mut flat = sample(&["c"], Category::Shared, 0.5);
    flat.physical = Some((2, 77));
    let mut lost = sample(&["d"], Category::Shared, 0.5);
    lost.physical = Some((9, 0));
    let draw = DrawResult { samples: vec![near, far, flat, lost] };
    assert!(state.has_room(&draw));
    state.record(&draw);
    assert_eq!(state.total_draws, 1);
    assert_eq!(state.tree.total_count(), 4);
    assert_eq!(state.disk_map[0].cells[2].count, 1);
    assert_eq!(
        f64::from_bits(state.disk_map[0].cells[2].hits[Category::Exclusive.index()].bits),
        1.0
    );
    assert_eq!(state.disk_map[0].cells[511].count, 1);
    assert_eq!(state.disk_map[1].cells[0].count, 1);
    let marked: u64 = state.disk_map.iter().flat_map(|d| d.cells.iter()).map(|c| c.count).sum();
    assert_eq!(marked, 3);
    assert!(state.disk_map[2].cells.iter().all(|c| c.count == 0));
}

#[test]
fn draws_that_would_overflow_are_told() {
    let mut state = state();
    let draw = DrawResult { samples: vec![sample(&["a"], Category::Exclusive, 1.5)] };
    assert!(!state.has_room(&draw));
    state.tree.counts = [u64::MAX, 0, 0, 0, 0];
    let draw = DrawResult { samples: vec![sample(&["a"], Category::Exclusive, 1.0)] };
    assert!(!state.has_room(&draw));
    assert!(state.has_room(&DrawResult { samples: vec![] }));
}

#[test]
fn cells_are_found_as_doubles_find_them() {
    for (total, cells) in [(100u64, 100usize), (5120, 512), (1000003, 7), (1, 3), (u64::MAX, 512)] {
        let map = DeviceMap::new(1, "d".to_string(), total, cells);
        let mut last: usize = 0;
        for k in 0..2000u64 {
            let offset: u64 = (total / 1999).saturating_mul(k).saturating_add(k % 3);
            let frac: f64 = offset as f64 / total as f64;
            let want: usize = ((frac * cells as f64) as usize).min(cells - 1);
            assert_eq!(map.cell_index(offset), want);
            if k % 3 == 0 {
                assert!(want >= last);
                last = want;
            }
        }
    }
    let map = DeviceMap::new(1, "d".to_string(), 100, 100);
    assert_eq!(map.cell_index(29), 28);
    assert_eq!(map.cell_index(100), 99);
}

#[test]
fn the_ends_of_a_device_have_the_outer_cells() {
    for (total, cells) in [(1u64, 1usize), (100, 7), (5120, 512), (u64::MAX, 512), (3, 1000)] {
        let map = DeviceMap::new(1, "d".to_string(), total, cells);
        assert_eq!(map.cell_index(0), 0);
        assert_eq!(map.cell_index(total), cells - 1);
        assert_eq!(map.cell_index(u64::MAX), cells - 1);
    }
}

#[test]
fn counts_do_not_depend_on_the_order() {
    let samples = [
        sample(&["a", "b"], Category::Shared, 0.5),
        sample(&["a"], Category::Shared, 1.0),
        sample(&["c"], Category::System, 1.0),
        sample(&["a", "b"], Category::Shared, 0.25),
        sample(&["a", "d"], Category::Shared, 1.0),
    ];
    let mut forward = TreeNode::default();
    let mut backward = TreeNode::default();
    for s in samples.iter() {
        insert(&mut forward, s);
    }
    for s in samples.iter().rev() {
        insert(&mut backward, s);
    }
    assert_eq!(forward.counts, backward.counts);
    let a = child(&forward, "a");
    assert_eq!(a.counts, child(&backward, "a").counts);
    let below: u64 = a.children.iter().map(|c| c.node.count_for(Category::Shared)).sum();
    assert_eq!(a.count_for(Category::Shared), below + 1);
    assert_eq!(forward.count_for(Category::Shared), a.count_for(Category::Shared));
}

#[test]
fn a_map_has_one_cell_at_least() {
    assert_eq!(DeviceMap::new(1, "d".to_string(), 10, 0).cells.len(), 1);
    assert_eq!(DeviceMap::new(1, "d".to_string(), 0, 5).cell_index(99), 0);
    let bare = DeviceMap { devid: 1, path: "d".to_string(), total_bytes: 0, cells: vec![] };
    assert_eq!(bare.cell_index(99), 0);
}

#[test]
fn categories_have_names() {
    assert_eq!(Category::ALL.len(), 5);
    let labels: Vec<&str> = Category::ALL.iter().map(|c| c.label()).collect();
    assert_eq!(labels, vec!["exclusive", "shared", "metadata", "system", "unallocated"]);
    assert!(Category::Exclusive.explanation().starts_with("Data referenced by exactly one file."));
    assert!(Category::System.explanation().ends_with("Normally tiny."));
    assert!(Category::Metadata.explanation().contains("csum tree"));
    assert!(Category::Shared.explanation().contains("reflink/dedup"));
    assert!(Category::Unallocated.explanation().contains("before reclaim"));
}
