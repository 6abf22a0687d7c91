//! Drawing addresses and turning them into samples.
use btd::model::{Category, Sample, SampledBlockGroup};
use btd::mounts::MountedSubvol;
use btd::sampler::{
    address_at, block_group_at, build_subvol_entry, draw_logical, file_ref, needs_lookup,
    needs_opening, next_ask, next_turn, physical_of, pick_block_group, resolve_draw, Ask, FileRef,
    OpenedSubvol, PathLookup, SamplerConfig, SetupError, SubvolCache, Turn,
};
use btd::universe::{block_groups, cumulative_lengths, universe_bytes, Chunk};
use std::collections::HashMap;

fn chunk(logical_start: u64, length: u64, devid: u64, physical_start: u64) -> Chunk {
    Chunk {
        logical_start,
        length,
        is_data: true,
        is_metadata: false,
        is_system: false,
        devid,
        physical_start,
    }
}

fn group(is_metadata: bool, is_system: bool) -> SampledBlockGroup {
    SampledBlockGroup {
        logical_start: 1000,
        length: 100,
        is_data: !is_metadata && !is_system,
        is_metadata,
        is_system,
        phys_devid: Some(3),
        phys_start: Some(50),
    }
}

fn config(chunks: &Vec<Chunk>) -> SamplerConfig {
    match SamplerConfig::new(chunks, HashMap::new()) {
        Ok(config) => config,
        Err(_) => panic!("no chunks"),
    }
}

#[test]
fn copies_count_once() {
    let chunks = vec![
        chunk(100, 10, 1, 1000),
        chunk(100, 10, 2, 2000),
        chunk(200, 30, 1, 3000),
        chunk(100, 10, 3, 4000),
    ];
    let groups = block_groups(&chunks);
    assert_eq!(groups.len(), 2);
    assert_eq!(groups[0].phys_devid, Some(1));
    assert_eq!(groups[0].phys_start, Some(1000));
    assert_eq!(groups[1].logical_start, 200);
    assert_eq!(universe_bytes(&groups), Some(40));
    assert_eq!(cumulative_lengths(&groups), vec![10, 40]);
}

#[test]
fn a_universe_that_is_too_large_is_told() {
    let groups = block_groups(&vec![chunk(0, u64::MAX, 1, 0), chunk(1, 1, 1, 0)]);
    assert_eq!(universe_bytes(&groups), None);
    let groups = block_groups(&vec![chunk(0, u64::MAX, 1, 0)]);
    assert_eq!(universe_bytes(&groups), Some(u64::MAX));
    assert_eq!(universe_bytes(&vec![]), Some(0));
}

#[test]
fn no_chunks_is_an_error() {
    assert!(matches!(
        SamplerConfig::new(&vec![], HashMap::new()),
        Err(SetupError::NoBlockGroups)
    ));
}

#[test]
fn places_lead_to_block_groups_in_proportion() {
    let config = config(&vec![
        chunk(100, 3, 1, 0),
        chunk(200, 0, 1, 0),
        chunk(300, 5, 1, 0),
        chunk(400, 1, 1, 0),
    ]);
    assert_eq!(config.total_weight, 9);
    let starts: Vec<u64> = (0..9)
        .map(|target| block_group_at(&config, target).unwrap().logical_start)
        .collect();
    assert_eq!(starts, vec![100, 100, 100, 300, 300, 300, 300, 300, 400]);
    assert!(block_group_at(&config, 9).is_none());
}

#[test]
fn chance_reaches_every_block_group() {
    let config = config(&vec![chunk(100, 3, 1, 0), chunk(200, 0, 1, 0), chunk(300, 5, 1, 0)]);
    let mut seen: HashMap<u64, u64> = HashMap::new();
    for _ in 0..4000 {
        let bg = pick_block_group(&config).unwrap();
        *seen.entry(bg.logical_start).or_insert(0) += 1;
    }
    assert_eq!(seen.len(), 2);
    assert!(seen[&100] > 1000 && seen[&100] < 2000);
    assert!(seen[&300] > 2000 && seen[&300] < 3000);
}

#[test]
fn nothing_is_picked_where_all_is_empty() {
    let config = config(&vec![chunk(100, 0, 1, 0)]);
    assert!(pick_block_group(&config).is_none());
}

#[test]
fn drawn_addresses_lie_in_the_block_group() {
    let bg = group(false, false);
    let mut seen: Vec<bool> = vec![false; 100];
    for _ in 0..5000 {
        let logical = draw_logical(&bg);
        assert!((1000..1100).contains(&logical));
        seen[(logical - 1000) as usize] = true;
    }
    assert!(seen.iter().filter(|s| **s).count() > 90);
    let empty = SampledBlockGroup { length: 0, ..bg };
    assert_eq!(draw_logical(&empty), 1000);
    let last = SampledBlockGroup { logical_start: u64::MAX, length: 1, phys_start: None, ..bg };
    assert!(last.is_sound());
    assert_eq!(draw_logical(&last), u64::MAX);
}

#[test]
fn offsets_lead_to_addresses() {
    let bg = group(false, false);
    assert_eq!(address_at(&bg, 0), 1000);
    assert_eq!(address_at(&bg, 99), 1099);
    assert_eq!(address_at(&bg, u64::MAX - 1000), u64::MAX);
}

#[test]
fn the_place_on_the_device_bounds_no_draw() {
    let bg = SampledBlockGroup { phys_start: Some(u64::MAX), ..group(false, false) };
    assert!((1000..1100).contains(&draw_logical(&bg)));
    let unknown = SampledBlockGroup { phys_devid: None, ..bg };
    assert_eq!(physical_of(&unknown, 5), None);
}

#[test]
fn block_groups_past_the_end_are_told() {
    let bg = group(false, false);
    assert!(bg.is_sound());
    assert!(!SampledBlockGroup { logical_start: u64::MAX - 98, ..bg }.is_sound());
    assert!(SampledBlockGroup { logical_start: u64::MAX - 99, ..bg }.is_sound());
    assert!(!SampledBlockGroup { phys_start: Some(u64::MAX), ..bg }.is_sound());
    assert!(SampledBlockGroup { phys_start: Some(u64::MAX), length: 0, ..bg }.is_sound());
}

#[test]
fn addresses_have_their_place_on_the_device() {
    let bg = group(false, false);
    assert_eq!(physical_of(&bg, 1000), Some((3, 50)));
    assert_eq!(physical_of(&bg, 1099), Some((3, 149)));
    assert_eq!(physical_of(&SampledBlockGroup { phys_devid: None, ..bg }, 1000), None);
    assert_eq!(physical_of(&SampledBlockGroup { phys_start: None, ..bg }, 1000), None);
}

#[test]
fn shutting_down_comes_before_pausing() {
    assert_eq!(next_turn(true, true), Turn::Stop);
    assert_eq!(next_turn(true, false), Turn::Stop);
    assert_eq!(next_turn(false, true), Turn::Wait);
    assert_eq!(next_turn(false, false), Turn::Draw);
}

fn only(samples: Vec<Sample>) -> Sample {
    assert_eq!(samples.len(), 1);
    samples.into_iter().next().unwrap()
}

#[test]
fn draws_without_files_are_whole() {
    let metadata = only(resolve_draw(&group(true, true), 1001, &None));
    assert_eq!(metadata.path_components, vec!["<Metadata>".to_string()]);
    assert_eq!(metadata.category, Category::Metadata);
    assert_eq!(f64::from_bits(metadata.weight.bits), 1.0);
    assert_eq!(metadata.inode, None);
    assert_eq!(metadata.physical, Some((3, 51)));
    let system = only(resolve_draw(&group(false, true), 1002, &None));
    assert_eq!(system.path_components, vec!["<System>".to_string()]);
    assert_eq!(system.category, Category::System);
    let hole = only(resolve_draw(&group(false, false), 1003, &Some(vec![])));
    assert_eq!(hole.path_components, vec!["<Unallocated>".to_string()]);
    assert_eq!(hole.category, Category::Unallocated);
    assert_eq!(hole.physical, Some((3, 53)));
}

#[test]
fn a_failed_lookup_has_no_samples() {
    assert!(resolve_draw(&group(false, false), 1000, &None).is_empty());
    assert!(needs_lookup(&group(false, false)));
    assert!(!needs_lookup(&group(true, false)));
    assert!(!needs_lookup(&group(false, true)));
}

fn file(name: &str, inode: u64, lookup: PathLookup) -> FileRef {
    FileRef { display_name: name.to_string(), inode, lookup }
}

#[test]
fn one_file_owns_the_draw() {
    let files = vec![file(
        "<subvol:/home>",
        257,
        PathLookup::Paths(vec!["old".to_string(), "/a//b/c.txt/".to_string()]),
    )];
    let sample = only(resolve_draw(&group(false, false), 1000, &Some(files)));
    assert_eq!(sample.path_components, vec!["<subvol:/home>", "a", "b", "c.txt"]);
    assert_eq!(sample.category, Category::Exclusive);
    assert_eq!(f64::from_bits(sample.weight.bits), 1.0);
    assert_eq!(sample.inode, Some(257));
}

#[test]
fn several_files_share_the_draw() {
    let files = vec![
        file("A", 1, PathLookup::Paths(vec!["x/y".to_string()])),
        file("B", 2, PathLookup::Failed),
        file("C", 3, PathLookup::Unreachable),
    ];
    let samples = resolve_draw(&group(false, false), 1000, &Some(files));
    assert_eq!(samples.len(), 3);
    assert_eq!(samples[0].path_components, vec!["A", "x", "y"]);
    assert_eq!(samples[1].path_components, vec!["B", "<inode 2>"]);
    assert_eq!(samples[1].inode, Some(2));
    assert_eq!(samples[2].path_components, vec!["C"]);
    assert_eq!(samples[2].inode, None);
    for sample in &samples {
        assert_eq!(sample.category, Category::Shared);
        assert_eq!(sample.weight.bits, (1.0f64 / 3.0).to_bits());
        assert_eq!(sample.physical, Some((3, 50)));
    }
}

#[test]
fn an_empty_lookup_names_the_inode() {
    let files = vec![file("A", 9, PathLookup::Paths(vec![]))];
    let sample = only(resolve_draw(&group(false, false), 1000, &Some(files)));
    assert_eq!(sample.path_components, vec!["A", "<inode 9>"]);
    assert_eq!(sample.inode, Some(9));
}

#[test]
fn a_mount_of_its_own_comes_first() {
    let mut mounted: HashMap<u64, MountedSubvol> = HashMap::new();
    mounted.insert(256, MountedSubvol { path: "/home".to_string(), handle: 4 });
    let config = match SamplerConfig::new(&vec![chunk(0, 1, 1, 0)], mounted) {
        Ok(config) => config,
        Err(_) => panic!("no chunks"),
    };
    assert!(!needs_opening(&config, 256));
    assert!(needs_opening(&config, 257));
    let opened = Some(OpenedSubvol { rel_path: "@snap/1".to_string(), handle: 9 });
    let entry = build_subvol_entry(&config, 256, &opened);
    assert_eq!(entry.display_name, "<subvol:/home>");
    assert_eq!(entry.handle, Some(4));
    let entry = build_subvol_entry(&config, 257, &opened);
    assert_eq!(entry.display_name, "<subvol:@snap/1>");
    assert_eq!(entry.handle, Some(9));
    let entry = build_subvol_entry(&config, 257, &None);
    assert_eq!(entry.display_name, "<unresolved-subvol:257>");
    assert_eq!(entry.handle, None);
}

#[test]
fn a_subvolume_is_opened_once_in_a_draw() {
    let config = config(&vec![chunk(0, 1, 1, 0)]);
    let mut cache = SubvolCache::new();
    cache.remember(5, build_subvol_entry(&config, 5, &None));
    let mut opened: Vec<u64> = vec![];
    let mut files: Vec<FileRef> = vec![];
    for (k, root) in [7u64, 5, 7, 9, 5, 9, 7].into_iter().enumerate() {
        if next_ask(&cache, root) == Ask::Open {
            assert!(file_ref(&cache, root, 1, None).is_none());
            let found = OpenedSubvol { rel_path: format!("at{k}"), handle: 10 + k };
            cache.remember(root, build_subvol_entry(&config, root, &Some(found)));
            opened.push(root);
        }
        let paths = match next_ask(&cache, root) {
            Ask::Paths(handle) => {
                assert_eq!(handle, if root == 7 { 10 } else { 13 });
                if k == 2 { None } else { Some(vec![format!("f{k}")]) }
            }
            Ask::Nothing => {
                assert_eq!(root, 5);
                None
            }
            Ask::Open => panic!("opened twice"),
        };
        files.push(file_ref(&cache, root, k as u64, paths).unwrap());
    }
    assert_eq!(opened, vec![7, 9]);
    let names: Vec<&str> = files.iter().map(|f| f.display_name.as_str()).collect();
    assert_eq!(
        names,
        vec![
            "<subvol:at0>",
            "<unresolved-subvol:5>",
            "<subvol:at0>",
            "<subvol:at3>",
            "<unresolved-subvol:5>",
            "<subvol:at3>",
            "<subvol:at0>",
        ]
    );
    assert!(matches!(&files[0].lookup, PathLookup::Paths(paths) if paths[0] == "f0"));
    assert!(matches!(files[1].lookup, PathLookup::Unreachable));
    assert!(matches!(files[2].lookup, PathLookup::Failed));
    assert_eq!(files[6].inode, 6);
    assert_eq!(cache.entries.len(), 3);
}

#[test]
fn cached_subvolumes_stay() {
    let config = config(&vec![chunk(0, 1, 1, 0)]);
    let mut cache = SubvolCache::new();
    assert!(cache.get(5).is_none());
    cache.remember(5, build_subvol_entry(&config, 5, &None));
    let later = Some(OpenedSubvol { rel_path: "x".to_string(), handle: 1 });
    cache.remember(5, build_subvol_entry(&config, 5, &later));
    assert_eq!(cache.get(5).unwrap().display_name, "<unresolved-subvol:5>");
    assert!(cache.get(6).is_none());
}
