//! Which subvolumes are mounted where.
use crate::text::{
    joined, law_split_of_joined, lines, same, split, split_at_each, split_lines, views,
};
use std::collections::HashMap;
use vstd::prelude::*;
use vstd::string::*;
use vstd::utf8::{encode_utf8, is_char_boundary};

verus! {

pub open spec fn is_octal(byte: u8) -> bool {
    48 <= byte <= 55
}

/// The number that three bytes write in octal, a plus sign before it allowed, if it is at
/// most 255.
pub open spec fn octal_value(a: u8, b: u8, c: u8) -> Option<nat> {
    if !is_octal(b) || !is_octal(c) {
        None
    } else if a == 43 {
        Some(((b - 48) * 8 + (c - 48)) as nat)
    } else if 48 <= a <= 51 {
        Some(((a - 48) * 64 + (b - 48) * 8 + (c - 48)) as nat)
    } else {
        None
    }
}

/// The byte that an escape at position `i` stands for: a backslash and three octal
/// digits.
pub open spec fn escape_at(bytes: Seq<u8>, i: int) -> Option<nat> {
    if 0 <= i && i + 3 < bytes.len() && bytes[i] == 92 {
        octal_value(bytes[i + 1], bytes[i + 2], bytes[i + 3])
    } else {
        None
    }
}

/// The text from position `i` on with the escapes replaced. Each byte becomes the
/// character with its number.
pub open spec fn unescaped(bytes: Seq<u8>, i: int) -> Seq<char>
    decreases bytes.len() - i,
{
    if i < 0 || i >= bytes.len() {
        Seq::empty()
    } else {
        match escape_at(bytes, i) {
            Some(value) => seq![value as char] + unescaped(bytes, i + 4),
            None => seq![bytes[i] as char] + unescaped(bytes, i + 1),
        }
    }
}

/// The bytes with blanks, tabs, line ends and backslashes written as a backslash and three
/// octal digits, which is how the kernel writes a mount point.
pub open spec fn escaped(bytes: Seq<u8>) -> Seq<u8>
    decreases bytes.len(),
{
    if bytes.len() == 0 {
        Seq::empty()
    } else {
        let byte = bytes[0];
        let first = if byte == 32 || byte == 9 || byte == 10 || byte == 92 {
            seq![
                92u8,
                (48 + byte / 64) as u8,
                (48 + (byte / 8) % 8) as u8,
                (48 + byte % 8) as u8,
            ]
        } else {
            seq![byte]
        };
        first + escaped(bytes.drop_first())
    }
}

/// Reading from position `i` on is reading the rest from its start.
proof fn lemma_unescaped_from(bytes: Seq<u8>, i: int, j: int)
    requires
        0 <= i,
        0 <= j,
        i + j <= bytes.len(),
    ensures
        unescaped(bytes, i + j) == unescaped(bytes.skip(i), j),
    decreases bytes.len() - i - j,
{
    let rest = bytes.skip(i);
    if i + j < bytes.len() {
        assert(rest[j] == bytes[i + j]);
        if i + j + 3 < bytes.len() {
            assert(rest[j + 1] == bytes[i + j + 1]);
            assert(rest[j + 2] == bytes[i + j + 2]);
            assert(rest[j + 3] == bytes[i + j + 3]);
            lemma_unescaped_from(bytes, i, j + 4);
        }
        lemma_unescaped_from(bytes, i, j + 1);
    }
}

/// What the kernel writes is read back byte for byte.
pub proof fn law_reads_back_escaped(bytes: Seq<u8>)
    ensures
        unescaped(escaped(bytes), 0) == Seq::new(bytes.len(), |i: int| bytes[i] as char),
    decreases bytes.len(),
{
    let all = escaped(bytes);
    let want = Seq::new(bytes.len(), |i: int| bytes[i] as char);
    if bytes.len() == 0 {
        assert(unescaped(all, 0) =~= want);
    } else {
        let byte = bytes[0];
        let rest = bytes.drop_first();
        law_reads_back_escaped(rest);
        let tail = Seq::new(rest.len(), |i: int| rest[i] as char);
        assert(want =~= seq![byte as char] + tail);
        if byte == 32 || byte == 9 || byte == 10 || byte == 92 {
            assert(all.skip(4) =~= escaped(rest));
            lemma_unescaped_from(all, 4, 0);
            assert(all[0] == 92);
            assert(escape_at(all, 0) == Some(byte as nat));
        } else {
            assert(all.skip(1) =~= escaped(rest));
            lemma_unescaped_from(all, 1, 0);
            assert(all[0] == byte);
        }
    }
}

/// A backslash and three octal digits stand for the byte that the digits write; any other byte
/// stands for itself, and so does a backslash that no number of at most 255 follows.
pub proof fn law_escape_stands_for_byte(x: u8, y: u8, z: u8, byte: u8, rest: Seq<u8>)
    requires
        x <= 3,
        y <= 7,
        z <= 7,
    ensures
        unescaped(
            seq![92u8, (48 + x) as u8, (48 + y) as u8, (48 + z) as u8] + rest,
            0,
        ) == seq![(64 * x + 8 * y + z) as char] + unescaped(rest, 0),
        byte != 92 ==> unescaped(seq![byte] + rest, 0) == seq![byte as char] + unescaped(rest, 0),
        rest.len() < 3 || !(48 <= rest[1] <= 55) || !(48 <= rest[2] <= 55) || !(48 <= rest[0] <= 51
            || rest[0] == 43) ==> unescaped(seq![92u8] + rest, 0) == seq![92u8 as char]
            + unescaped(rest, 0),
{
    let a = seq![92u8, (48 + x) as u8, (48 + y) as u8, (48 + z) as u8] + rest;
    assert(a[0] == 92 && a[1] == 48 + x && a[2] == 48 + y && a[3] == 48 + z);
    assert(a.skip(4) =~= rest);
    lemma_unescaped_from(a, 4, 0);
    assert(escape_at(a, 0) == Some((64 * x + 8 * y + z) as nat));
    let b = seq![byte] + rest;
    assert(b[0] == byte);
    assert(b.skip(1) =~= rest);
    lemma_unescaped_from(b, 1, 0);
    let c = seq![92u8] + rest;
    assert(c[0] == 92);
    assert(c.skip(1) =~= rest);
    lemma_unescaped_from(c, 1, 0);
    if rest.len() >= 3 {
        assert(c[1] == rest[0] && c[2] == rest[1] && c[3] == rest[2]);
    }
}

/// No backslash is followed by three bytes that end within a character.
pub open spec fn escapes_aligned(bytes: Seq<u8>) -> bool {
    forall|i: int|
        0 <= i && i + 3 < bytes.len() && #[trigger] bytes[i] == 92 ==> is_char_boundary(
            bytes,
            i + 4,
        )
}

/// Whether the three bytes behind each backslash can be cut out of the text.
pub fn has_aligned_escapes(s: &str) -> (r: bool)
    ensures
        r == escapes_aligned(encode_utf8(s@)),
{
    let bytes: &[u8] = s.as_bytes();
    let mut i: usize = 0;
    while i < bytes.len()
        invariant
            bytes@ == encode_utf8(s@),
            i <= bytes@.len(),
            forall|j: int|
                0 <= j < i && j + 3 < bytes@.len() && #[trigger] bytes@[j] == 92
                    ==> is_char_boundary(bytes@, j + 4),
        decreases bytes@.len() - i,
    {
        if bytes[i] == 92 && bytes.len() - i > 3 && !s.is_char_boundary(i + 4) {
            return false;
        }
        i = i + 1;
    }
    true
}

fn octal(a: u8, b: u8, c: u8) -> (r: Option<u8>)
    ensures
        match r {
            Some(v) => octal_value(a, b, c) == Some(v as nat),
            None => octal_value(a, b, c) is None,
        },
{
    if b < 48 || b > 55 || c < 48 || c > 55 {
        None
    } else if a == 43 {
        Some((b - 48) * 8 + (c - 48))
    } else if 48 <= a && a <= 51 {
        Some((a - 48) * 64 + (b - 48) * 8 + (c - 48))
    } else {
        None
    }
}

/// The text with its octal escapes replaced.
pub fn unescape_octal(s: &str) -> (r: String)
    requires
        escapes_aligned(encode_utf8(s@)),
    ensures
        r@ == unescaped(encode_utf8(s@), 0),
{
    let bytes: &[u8] = s.as_bytes();
    let ghost all = unescaped(bytes@, 0);
    let mut out: String = String::new();
    let mut i: usize = 0;
    proof {
        assert(out@ + unescaped(bytes@, 0) =~= all);
    }
    while i < bytes.len()
        invariant
            bytes@ == encode_utf8(s@),
            all == unescaped(bytes@, 0),
            i <= bytes@.len(),
            out@ + unescaped(bytes@, i as int) == all,
        decreases bytes@.len() - i,
    {
        let ghost before = out@;
        let escape: Option<u8> = if bytes[i] == 92 && bytes.len() - i > 3 {
            octal(bytes[i + 1], bytes[i + 2], bytes[i + 3])
        } else {
            None
        };
        match escape {
            Some(v) => {
                out.push(v as char);
                proof {
                    assert(out@ + unescaped(bytes@, i + 4) =~= before + unescaped(bytes@, i as int));
                }
                i = i + 4;
            },
            None => {
                out.push(bytes[i] as char);
                proof {
                    assert(out@ + unescaped(bytes@, i + 1) =~= before + unescaped(bytes@, i as int));
                }
                i = i + 1;
            },
        }
    }
    proof {
        assert(out@ + unescaped(bytes@, i as int) =~= out@);
    }
    out
}

/// Field `i` is the first one that is a single dash.
pub open spec fn is_dash(fields: Seq<Seq<char>>, i: int) -> bool {
    &&& 0 <= i < fields.len()
    &&& fields[i] == seq!['-']
    &&& forall|j: int| 0 <= j < i ==> #[trigger] fields[j] != seq!['-']
}

/// The fields of a line describe a mount whose separator is field `dash`.
pub open spec fn is_mount(fields: Seq<Seq<char>>, dash: int) -> bool {
    is_dash(fields, dash) && fields.len() >= 5 && dash + 1 < fields.len()
}

/// The mount point and the type of file system that a line tells, if it tells them: the
/// fifth field, and the one after the dash.
pub open spec fn mount_of(line: Seq<char>) -> Option<(Seq<char>, Seq<char>)> {
    let fields = split(line, ' ');
    if exists|dash: int| is_mount(fields, dash) {
        let dash = choose|dash: int| is_mount(fields, dash);
        Some((unescaped(encode_utf8(fields[4]), 0), fields[dash + 1]))
    } else {
        None
    }
}

/// The mounts that the lines tell, in their order.
pub open spec fn mounts_of(lines: Seq<Seq<char>>) -> Seq<(Seq<char>, Seq<char>)>
    decreases lines.len(),
{
    if lines.len() == 0 {
        Seq::empty()
    } else {
        let before = mounts_of(lines.drop_last());
        match mount_of(lines.last()) {
            Some(mount) => before.push(mount),
            None => before,
        }
    }
}

/// The escapes of every mount point can be cut out.
pub open spec fn mountinfo_aligned(contents: Seq<char>) -> bool {
    forall|i: int|
        0 <= i < lines(contents).len() && mount_of(#[trigger] lines(contents)[i]) is Some
            ==> escapes_aligned(encode_utf8(split(lines(contents)[i], ' ')[4]))
}

/// Pairs of texts.
pub open spec fn pair_views(pairs: Seq<(String, String)>) -> Seq<(Seq<char>, Seq<char>)> {
    pairs.map_values(|pair: (String, String)| (pair.0@, pair.1@))
}

proof fn lemma_dash_unique(fields: Seq<Seq<char>>, a: int, b: int)
    requires
        is_dash(fields, a),
        is_dash(fields, b),
    ensures
        a == b,
{
}

/// A line of at least five fields tells the fifth one as the mount point, with its escapes
/// replaced, and the one after the first dash as the type. A line with fewer fields, without a
/// dash or with nothing behind it tells nothing.
pub proof fn law_mount_line(fields: Seq<Seq<char>>, dash: int)
    requires
        fields.len() > 0,
        forall|i: int| 0 <= i < fields.len() ==> !(#[trigger] fields[i]).contains(' '),
    ensures
        0 <= dash < fields.len() - 1 && fields.len() >= 5 && fields[dash] == seq!['-'] && (forall|
            j: int,
        |
            0 <= j < dash ==> #[trigger] fields[j] != seq!['-']) ==> mount_of(joined(fields, ' '))
            == Some((unescaped(encode_utf8(fields[4]), 0), fields[dash + 1])),
        fields.len() < 5 ==> mount_of(joined(fields, ' ')) is None,
        (forall|j: int| 0 <= j < fields.len() - 1 ==> #[trigger] fields[j] != seq!['-'])
            ==> mount_of(joined(fields, ' ')) is None,
{
    law_split_of_joined(fields, ' ');
    if exists|d: int| is_mount(fields, d) {
        let d = choose|d: int| is_mount(fields, d);
        assert(fields[d] == seq!['-']);
        if is_dash(fields, dash) {
            lemma_dash_unique(fields, d, dash);
        }
    }
    if 0 <= dash < fields.len() - 1 && fields.len() >= 5 && fields[dash] == seq!['-'] && (forall|
        j: int,
    |
        0 <= j < dash ==> #[trigger] fields[j] != seq!['-']) {
        assert(is_dash(fields, dash));
        assert(is_mount(fields, dash));
    }
}

/// The mounts of a table are those of its lines, one after the other.
pub proof fn law_mounts_line_by_line(a: Seq<Seq<char>>, b: Seq<Seq<char>>, line: Seq<char>)
    ensures
        mounts_of(a + b) == mounts_of(a) + mounts_of(b),
        mounts_of(seq![line]) == (match mount_of(line) {
            Some(mount) => seq![mount],
            None => Seq::empty(),
        }),
    decreases b.len(),
{
    reveal_with_fuel(mounts_of, 2);
    assert(seq![line].drop_last() =~= Seq::empty());
    assert(mounts_of(seq![line]) =~= (match mount_of(line) {
        Some(mount) => seq![mount],
        None => Seq::empty(),
    }));
    let all = a + b;
    if b.len() == 0 {
        assert(all =~= a);
        assert(mounts_of(a) + mounts_of(b) =~= mounts_of(a));
    } else {
        assert(all.drop_last() =~= a + b.drop_last());
        law_mounts_line_by_line(a, b.drop_last(), line);
        assert(mounts_of(all) =~= mounts_of(a) + mounts_of(b));
    }
}

/// The place of the separator, if the fields describe a mount.
fn mount_separator(fields: &Vec<String>) -> (r: Option<usize>)
    ensures
        match r {
            Some(dash) => is_mount(views(fields@), dash as int),
            None => forall|dash: int| !is_mount(views(fields@), dash),
        },
{
    let ghost all = views(fields@);
    let mut i: usize = 0;
    proof {
        reveal_strlit("-");
        assert("-"@ =~= seq!['-']);
    }
    while i < fields.len()
        invariant
            all == views(fields@),
            "-"@ == seq!['-'],
            i <= fields@.len(),
            forall|j: int| 0 <= j < i ==> #[trigger] all[j] != seq!['-'],
        decreases fields@.len() - i,
    {
        proof {
            assert(all[i as int] == fields@[i as int]@);
        }
        if same(fields[i].as_str(), "-") {
            proof {
                assert(is_dash(all, i as int));
                assert forall|dash: int| is_mount(all, dash) implies dash == i by {
                    lemma_dash_unique(all, dash, i as int);
                }
            }
            if fields.len() >= 5 && i < fields.len() - 1 {
                return Some(i);
            }
            return None;
        }
        i = i + 1;
    }
    None
}

/// The mounts that a mount table in the format of `/proc/self/mountinfo` lists: mount
/// point and type of file system.
pub fn parse_mountinfo(contents: &str) -> (r: Vec<(String, String)>)
    requires
        mountinfo_aligned(contents@),
    ensures
        pair_views(r@) == mounts_of(lines(contents@)),
{
    let table: Vec<String> = split_lines(contents);
    let ghost all = lines(contents@);
    let mut out: Vec<(String, String)> = Vec::new();
    let mut k: usize = 0;
    proof {
        assert(all.take(0) =~= Seq::empty());
        assert(pair_views(out@) =~= mounts_of(all.take(0)));
    }
    while k < table.len()
        invariant
            all == lines(contents@),
            all == views(table@),
            mountinfo_aligned(contents@),
            k <= table@.len(),
            pair_views(out@) == mounts_of(all.take(k as int)),
        decreases table@.len() - k,
    {
        let fields: Vec<String> = split_at_each(table[k].as_str(), ' ');
        let ghost line = all[k as int];
        let ghost names = views(fields@);
        proof {
            assert(line == table@[k as int]@);
            assert(all.take(k + 1).drop_last() =~= all.take(k as int));
            assert(all.take(k + 1).last() == line);
        }
        match mount_separator(&fields) {
            Some(dash) => {
                proof {
                    assert(is_mount(names, dash as int));
                    let chosen = choose|d: int| is_mount(names, d);
                    lemma_dash_unique(names, chosen, dash as int);
                    assert(names[4] == fields@[4]@);
                    assert(names[dash + 1] == fields@[dash + 1]@);
                    assert(mount_of(all[k as int]) is Some);
                }
                let mount_point: String = unescape_octal(fields[4].as_str());
                let fstype: String = fields[dash + 1].clone();
                let ghost before = out@;
                out.push((mount_point, fstype));
                proof {
                    assert(pair_views(out@) =~= pair_views(before).push(
                        (mount_point@, fstype@),
                    ));
                }
            },
            None => {},
        }
        k = k + 1;
    }
    proof {
        assert(all.take(all.len() as int) =~= all);
    }
    out
}

/// Whether the escapes of every mount point in a mount table can be cut out.
pub fn has_aligned_mounts(contents: &str) -> (r: bool)
    ensures
        r == mountinfo_aligned(contents@),
{
    let table: Vec<String> = split_lines(contents);
    let ghost all = lines(contents@);
    let mut k: usize = 0;
    while k < table.len()
        invariant
            all == lines(contents@),
            all == views(table@),
            k <= table@.len(),
            forall|i: int|
                0 <= i < k && mount_of(#[trigger] all[i]) is Some ==> escapes_aligned(
                    encode_utf8(split(all[i], ' ')[4]),
                ),
        decreases table@.len() - k,
    {
        let fields: Vec<String> = split_at_each(table[k].as_str(), ' ');
        proof {
            assert(all[k as int] == table@[k as int]@);
        }
        if mount_separator(&fields).is_some() {
            proof {
                assert(views(fields@)[4] == fields@[4]@);
                assert(mount_of(all[k as int]) is Some);
            }
            if !has_aligned_escapes(fields[4].as_str()) {
                return false;
            }
        }
        k = k + 1;
    }
    true
}

/// A subvolume that is mounted on its own.
pub struct MountedSubvol {
    pub path: String,
    /// Which of the opened directories belongs to it.
    pub handle: usize,
}

/// What looking at a mount gave.
pub struct MountProbe {
    pub mountpoint: String,
    pub fstype: String,
    /// Which of the opened directories belongs to it.
    pub handle: usize,
    /// The file system that is mounted there, if that could be found out.
    pub uuid: Option<u128>,
    /// The subvolume that is mounted there, if that could be found out.
    pub subvol_id: Option<u64>,
}

impl MountProbe {
    /// The probe shows subvolume `id` of the file system `target`.
    pub open spec fn shows(self, target: u128, id: u64) -> bool {
        &&& self.fstype@ == "btrfs"@
        &&& self.uuid == Some(target)
        &&& self.subvol_id == Some(id)
    }
}

/// Probe `i` is the first one that shows subvolume `id`.
pub open spec fn is_first_mount(probes: Seq<MountProbe>, target: u128, id: u64, i: int) -> bool {
    &&& 0 <= i < probes.len()
    &&& probes[i].shows(target, id)
    &&& forall|j: int| 0 <= j < i ==> !(#[trigger] probes[j]).shows(target, id)
}

/// The table holds, for each subvolume that the probes show, its first mount.
pub open spec fn holds_first_mounts(
    table: Map<u64, MountedSubvol>,
    probes: Seq<MountProbe>,
    target: u128,
) -> bool {
    &&& forall|id: u64, i: int|
        #[trigger] is_first_mount(probes, target, id, i) ==> {
            &&& table.contains_key(id)
            &&& table[id].path@ == probes[i].mountpoint@
            &&& table[id].handle == probes[i].handle
        }
    &&& forall|id: u64| #[trigger]
        table.contains_key(id) ==> exists|i: int| is_first_mount(probes, target, id, i)
}

/// A probe is a btrfs mount of subvolume `id` of the file system `target`.
pub open spec fn is_mount_of(probe: MountProbe, target: u128, id: u64) -> bool {
    &&& probe.fstype@ == "btrfs"@
    &&& probe.uuid == Some(target)
    &&& probe.subvol_id == Some(id)
}

/// A table of first mounts holds a subvolume exactly if some btrfs mount of the file system
/// shows it, and then the path and directory of the first such mount.
pub proof fn law_first_own_mount(
    table: Map<u64, MountedSubvol>,
    probes: Seq<MountProbe>,
    target: u128,
    id: u64,
    i: int,
)
    requires
        holds_first_mounts(table, probes, target),
    ensures
        table.contains_key(id) ==> exists|k: int|
            0 <= k < probes.len() && is_mount_of(#[trigger] probes[k], target, id),
        0 <= i < probes.len() && is_mount_of(probes[i], target, id) ==> table.contains_key(id),
        0 <= i < probes.len() && is_mount_of(probes[i], target, id) && (forall|j: int|
            0 <= j < i ==> !is_mount_of(#[trigger] probes[j], target, id)) ==> table[id].path@
            == probes[i].mountpoint@ && table[id].handle == probes[i].handle,
{
    if table.contains_key(id) {
        let k = choose|k: int| is_first_mount(probes, target, id, k);
        assert(is_mount_of(probes[k], target, id));
    }
    if 0 <= i < probes.len() && is_mount_of(probes[i], target, id) {
        lemma_first_mount_exists(probes, target, id, i);
        let k = choose|k: int| is_first_mount(probes, target, id, k);
        if forall|j: int| 0 <= j < i ==> !is_mount_of(#[trigger] probes[j], target, id) {
            assert forall|j: int| 0 <= j < i implies !(#[trigger] probes[j]).shows(target, id) by {
                assert(!is_mount_of(probes[j], target, id));
            }
            assert(is_first_mount(probes, target, id, i));
        }
    }
}

/// Whether a mount of this type is worth looking at.
pub fn is_btrfs(fstype: &str) -> (r: bool)
    ensures
        r == (fstype@ == "btrfs"@),
{
    same(fstype, "btrfs")
}

/// The mounted subvolumes of the file system `target`, by their numbers. Of a subvolume
/// that is mounted more than once, the first mount counts.
pub fn discover_mounted_subvolumes(target: u128, probes: &Vec<MountProbe>) -> (r: HashMap<
    u64,
    MountedSubvol,
>)
    ensures
        holds_first_mounts(r@, probes@, target),
{
    broadcast use vstd::std_specs::hash::group_hash_axioms;

    let mut table: HashMap<u64, MountedSubvol> = HashMap::new();
    let mut k: usize = 0;
    while k < probes.len()
        invariant
            k <= probes@.len(),
            holds_first_mounts(table@, probes@.take(k as int), target),
        decreases probes@.len() - k,
    {
        let probe: &MountProbe = &probes[k];
        let ghost before = table@;
        let ghost seen = probes@.take(k as int);
        let ghost now = probes@.take(k + 1);
        let known: Option<u64> = if is_btrfs(probe.fstype.as_str()) && probe.uuid == Some(target) {
            probe.subvol_id
        } else {
            None
        };
        match known {
            Some(id) => {
                if !table.contains_key(&id) {
                    let ghost path = probe.mountpoint@;
                    table.insert(
                        id,
                        MountedSubvol { path: probe.mountpoint.clone(), handle: probe.handle },
                    );
                }
            },
            None => {},
        }
        proof {
            lemma_next_probe(before, table@, probes@, k as int, target);
        }
        k = k + 1;
    }
    proof {
        assert(probes@.take(probes@.len() as int) =~= probes@);
    }
    table
}

/// One more probe adds the subvolume that it shows, if there was no mount of it before.
proof fn lemma_next_probe(
    before: Map<u64, MountedSubvol>,
    after: Map<u64, MountedSubvol>,
    probes: Seq<MountProbe>,
    k: int,
    target: u128,
)
    requires
        0 <= k < probes.len(),
        holds_first_mounts(before, probes.take(k), target),
        ({
            let probe = probes[k];
            match probe.subvol_id {
                Some(id) => if probe.shows(target, id) && !before.contains_key(id) {
                    &&& after == before.insert(id, after[id])
                    &&& after[id].path@ == probe.mountpoint@
                    &&& after[id].handle == probe.handle
                } else {
                    after == before
                },
                None => after == before,
            }
        }),
    ensures
        holds_first_mounts(after, probes.take(k + 1), target),
{
    let seen = probes.take(k);
    let now = probes.take(k + 1);
    assert forall|id: u64, i: int| #[trigger] is_first_mount(now, target, id, i) implies {
        &&& after.contains_key(id)
        &&& after[id].path@ == now[i].mountpoint@
        &&& after[id].handle == now[i].handle
    } by {
        assert forall|j: int| 0 <= j < i && j < k implies !(#[trigger] seen[j]).shows(
            target,
            id,
        ) by {
            assert(now[j] == seen[j]);
        }
        if i < k {
            assert(seen[i] == now[i]);
            assert(is_first_mount(seen, target, id, i));
        } else {
            if before.contains_key(id) {
                let j = choose|j: int| is_first_mount(seen, target, id, j);
                assert(now[j] == seen[j]);
                assert(false);
            }
        }
    }
    assert forall|id: u64| #[trigger] after.contains_key(id) implies exists|i: int|
        is_first_mount(now, target, id, i) by {
        if before.contains_key(id) {
            let i = choose|i: int| is_first_mount(seen, target, id, i);
            assert forall|j: int| 0 <= j < i implies !(#[trigger] now[j]).shows(target, id) by {
                assert(now[j] == seen[j]);
            }
            assert(now[i] == seen[i]);
            assert(is_first_mount(now, target, id, i));
        } else {
            assert forall|j: int| 0 <= j < k implies !(#[trigger] now[j]).shows(target, id) by {
                assert(now[j] == seen[j]);
                if seen[j].shows(target, id) {
                    lemma_first_mount_exists(seen, target, id, j);
                }
            }
            assert(is_first_mount(now, target, id, k));
        }
    }
}

/// Where some probe shows a subvolume, one is the first to do so.
proof fn lemma_first_mount_exists(probes: Seq<MountProbe>, target: u128, id: u64, i: int)
    requires
        0 <= i < probes.len(),
        probes[i].shows(target, id),
    ensures
        exists|j: int| is_first_mount(probes, target, id, j),
    decreases i,
{
    if exists|j: int| 0 <= j < i && (#[trigger] probes[j]).shows(target, id) {
        let j = choose|j: int| 0 <= j < i && (#[trigger] probes[j]).shows(target, id);
        lemma_first_mount_exists(probes, target, id, j);
    } else {
        assert(is_first_mount(probes, target, id, i));
    }
}

} // verus!
