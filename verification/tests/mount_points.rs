//! Mounts and mounted subvolumes.
use btd::mounts::{
    discover_mounted_subvolumes, has_aligned_escapes, has_aligned_mounts, is_btrfs,
    parse_mountinfo, unescape_octal, MountProbe,
};

#[test]
fn escapes_are_replaced() {
    assert_eq!(unescape_octal("/mnt/my\\040disk"), "/mnt/my disk");
    assert_eq!(unescape_octal("a\\011b\\012c\\134d"), "a\tb\nc\\d");
    assert_eq!(unescape_octal("\\040"), " ");
    assert_eq!(unescape_octal("\\377"), "\u{ff}");
    assert_eq!(unescape_octal("\\+12"), "\n");
    assert_eq!(unescape_octal(""), "");
}

#[test]
fn what_is_no_escape_stays() {
    assert_eq!(unescape_octal("\\04"), "\\04");
    assert_eq!(unescape_octal("\\400"), "\\400");
    assert_eq!(unescape_octal("\\089"), "\\089");
    assert_eq!(unescape_octal("\\\\040"), "\\ ");
    assert_eq!(unescape_octal("/plain"), "/plain");
    assert_eq!(unescape_octal("\u{e9}"), "\u{c3}\u{a9}");
}

#[test]
fn escapes_that_cut_a_character_are_told() {
    assert!(has_aligned_escapes("\\040"));
    assert!(has_aligned_escapes("\u{e9}\\040"));
    assert!(has_aligned_escapes("\\\u{20ac}"));
    assert!(!has_aligned_escapes("\\a\u{20ac}"));
    assert!(!has_aligned_escapes("\\ab\u{e9}"));
    assert!(has_aligned_escapes("\\ab"));
}

fn escaped(bytes: &str) -> String {
    let mut r = String::new();
    for c in bytes.chars() {
        if c == ' ' || c == '\t' || c == '\n' || c == '\\' {
            r.push_str(&format!("\\{:03o}", c as u32));
        } else {
            r.push(c);
        }
    }
    r
}

#[test]
fn written_mount_points_are_read_back() {
    for text in ["/", "/a b", "/a\\040b", "\t\n\\ ", "\\", "/x\\\\y z"] {
        assert_eq!(unescape_octal(&escaped(text)), text);
    }
}

#[test]
fn mount_table_is_read() {
    let table = "36 35 98:0 /mnt1 /mnt2 rw,noatime master:1 - ext3 /dev/root rw,errors=continue\n\
                 40 1 0:32 /@ /home\\040dir rw shared:5 - btrfs /dev/sda rw\r\n\
                 no dash here at all\n\
                 a b - c\n\
                 1 2 3 4 5 6 -\n\
                 1 2 3 - x y z";
    assert!(has_aligned_mounts(table));
    let mounts = parse_mountinfo(table);
    let want: Vec<(String, String)> = vec![
        ("/mnt2".to_string(), "ext3".to_string()),
        ("/home dir".to_string(), "btrfs".to_string()),
        ("x".to_string(), "x".to_string()),
    ];
    assert_eq!(mounts, want);
    assert_eq!(parse_mountinfo(""), Vec::<(String, String)>::new());
}

#[test]
fn mount_tables_with_cut_characters_are_told() {
    assert!(!has_aligned_mounts("1 2 3 4 \\a\u{20ac} 6 - btrfs x"));
    assert!(has_aligned_mounts("1 2 3 \\a\u{20ac} 5 6 - btrfs x"));
    assert!(has_aligned_mounts("1 2 3 4 \\a\u{20ac} 6 btrfs x"));
}

fn probe(mountpoint: &str, fstype: &str, handle: usize, uuid: Option<u128>, id: Option<u64>) -> MountProbe {
    MountProbe {
        mountpoint: mountpoint.to_string(),
        fstype: fstype.to_string(),
        handle,
        uuid,
        subvol_id: id,
    }
}

#[test]
fn the_first_mount_of_a_subvolume_counts() {
    let probes = vec![
        probe("/ext", "ext4", 0, Some(7), Some(5)),
        probe("/other", "btrfs", 1, Some(8), Some(5)),
        probe("/closed", "btrfs", 2, None, Some(5)),
        probe("/unknown", "btrfs", 3, Some(7), None),
        probe("/first", "btrfs", 4, Some(7), Some(5)),
        probe("/second", "btrfs", 5, Some(7), Some(5)),
        probe("/home", "btrfs", 6, Some(7), Some(256)),
    ];
    let table = discover_mounted_subvolumes(7, &probes);
    assert_eq!(table.len(), 2);
    assert_eq!(table[&5].path, "/first");
    assert_eq!(table[&5].handle, 4);
    assert_eq!(table[&256].path, "/home");
    assert!(discover_mounted_subvolumes(9, &probes).is_empty());
    assert!(is_btrfs("btrfs"));
    assert!(!is_btrfs("btrfs2"));
}
