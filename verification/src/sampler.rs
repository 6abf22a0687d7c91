//! Drawing addresses and turning them into samples.
use crate::model::{Category, Sample, SampledBlockGroup};
use crate::mounts::MountedSubvol;
use crate::quantity::{lemma_of_bounds, lemma_of_power, lemma_one_is_neutral, lemma_power_bits, power_bits, Quantity};
use crate::rounding::{lemma_nearest_exact, lemma_nearest_monotone, lemma_units_ordered, one_units};
use crate::text::{
    decimal, decimal_value, law_decimal_reads_back, law_split_adds_up, law_split_joins,
    lemma_split_whole, push_decimal, split, split_at_each, views,
};
use crate::universe::{
    block_groups, cumulative_lengths, groups_of, law_each_address_once, lemma_total_length_prefix,
    lemma_total_length_step, total_length, Chunk,
};
use rand::Rng;
use std::collections::HashMap;
use vstd::arithmetic::power2::{lemma2_to64, lemma_pow2_pos};
use vstd::prelude::*;
use vstd::string::*;

verus! {

/// A random number below `bound`, from `rand::Rng::gen_range` on the generator of the
/// thread. Any number below `bound` may come; which one is not stated.
#[verifier::external_body]
fn random_below(bound: u64) -> (r: u64)
    requires
        bound > 0,
    ensures
        r < bound,
{
    rand::thread_rng().gen_range(0..bound)
}

/// What the samplers draw from.
pub struct SamplerConfig {
    pub block_groups: Vec<SampledBlockGroup>,
    /// The end of each block group when they are laid end to end.
    pub cumulative: Vec<u64>,
    pub total_weight: u64,
    pub mounted_subvols: HashMap<u64, MountedSubvol>,
}

/// Why there is nothing to sample.
#[derive(Debug, Clone, Copy, PartialEq, Eq, Structural)]
pub enum SetupError {
    NoBlockGroups,
}

impl SamplerConfig {
    pub open spec fn wf(self) -> bool {
        &&& self.total_weight == total_length(self.block_groups@)
        &&& self.cumulative@.len() == self.block_groups@.len()
        &&& forall|i: int|
            0 <= i < self.block_groups@.len() ==> #[trigger] self.cumulative@[i] == total_length(
                self.block_groups@.take(i + 1),
            )
    }

    /// Block group `i` covers place `target` when the block groups are laid end to end.
    pub open spec fn covers(self, i: int, target: int) -> bool {
        &&& 0 <= i < self.block_groups@.len()
        &&& total_length(self.block_groups@.take(i)) <= target < total_length(
            self.block_groups@.take(i + 1),
        )
    }

    /// Some block group covers place `target`.
    pub open spec fn is_covered(self, target: int) -> bool {
        exists|i: int| #[trigger] self.covers(i, target)
    }

    /// The configuration for the chunks of a file system.
    pub fn new(chunks: &Vec<Chunk>, mounted_subvols: HashMap<u64, MountedSubvol>) -> (r: Result<
        SamplerConfig,
        SetupError,
    >)
        requires
            total_length(groups_of(chunks@)) <= u64::MAX,
        ensures
            match r {
                Ok(config) => {
                    &&& chunks@.len() > 0
                    &&& config.wf()
                    &&& config.block_groups@ == groups_of(chunks@)
                    &&& config.mounted_subvols == mounted_subvols
                },
                Err(SetupError::NoBlockGroups) => chunks@.len() == 0,
            },
    {
        let block_groups: Vec<SampledBlockGroup> = block_groups(chunks);
        proof {
            law_each_address_once(chunks@);
            if chunks@.len() > 0 {
                assert(chunks@[0] == chunks@[0]);
                assert(groups_of(chunks@).len() > 0) by {
                    let i = choose|i: int|
                        0 <= i < groups_of(chunks@).len() && (
                        #[trigger] groups_of(chunks@)[i]).logical_start
                            == chunks@[0].logical_start;
                }
            }
        }
        if block_groups.len() == 0 {
            return Err(SetupError::NoBlockGroups);
        }
        let cumulative: Vec<u64> = cumulative_lengths(&block_groups);
        let total_weight: u64 = cumulative[cumulative.len() - 1];
        proof {
            assert(block_groups@.take(block_groups@.len() as int) =~= block_groups@);
        }
        Ok(SamplerConfig { block_groups, cumulative, total_weight, mounted_subvols })
    }
}

/// The block group that covers place `target`.
pub fn block_group_at(config: &SamplerConfig, target: u64) -> (r: Option<&SampledBlockGroup>)
    requires
        config.wf(),
    ensures
        match r {
            Some(bg) => exists|i: int|
                #[trigger] config.covers(i, target as int) && *bg == config.block_groups@[i],
            None => target >= config.total_weight,
        },
        r is Some <==> target < config.total_weight,
{
    let ghost groups = config.block_groups@;
    let mut low: usize = 0;
    let mut high: usize = config.cumulative.len();
    proof {
        assert(groups.take(0) =~= Seq::empty());
        assert(groups.take(groups.len() as int) =~= groups);
    }
    while low < high
        invariant
            config.wf(),
            groups == config.block_groups@,
            low <= high <= groups.len(),
            total_length(groups.take(low as int)) <= target,
            high < groups.len() ==> target < total_length(groups.take(high + 1)),
        decreases high - low,
    {
        let mid: usize = low + (high - low) / 2;
        if config.cumulative[mid] <= target {
            low = mid + 1;
        } else {
            high = mid;
        }
    }
    if low < config.block_groups.len() {
        proof {
            assert(config.covers(low as int, target as int));
            lemma_total_length_prefix(groups, low + 1, groups.len() as int);
        }
        Some(&config.block_groups[low])
    } else {
        None
    }
}

/// A block group, drawn by chance; none if there is no address to draw.
pub fn pick_block_group(config: &SamplerConfig) -> (r: Option<&SampledBlockGroup>)
    requires
        config.wf(),
    ensures
        match r {
            Some(bg) => exists|i: int, target: int|
                #[trigger] config.covers(i, target) && *bg == config.block_groups@[i],
            None => config.total_weight == 0,
        },
        r is Some <==> config.total_weight > 0,
{
    if config.total_weight == 0 {
        return None;
    }
    let target: u64 = random_below(config.total_weight);
    block_group_at(config, target)
}

/// The address belongs to the block group. An empty one has its start for an address.
pub open spec fn is_address_in(bg: SampledBlockGroup, logical: u64) -> bool {
    if bg.length == 0 {
        logical == bg.logical_start
    } else {
        bg.logical_start <= logical < bg.logical_start + bg.length
    }
}

/// The address at an offset in the block group.
pub fn address_at(bg: &SampledBlockGroup, offset: u64) -> (r: u64)
    requires
        bg.logical_start + offset <= u64::MAX,
    ensures
        r == bg.logical_start + offset,
{
    bg.logical_start + offset
}

/// The offsets below the length of a block group lead to addresses of it, and every address
/// of it lies at such an offset.
pub proof fn law_offsets_are_addresses(bg: SampledBlockGroup)
    requires
        bg.wf(),
        bg.length > 0,
    ensures
        forall|offset: u64|
            offset < bg.length ==> #[trigger] is_address_in(bg, (bg.logical_start + offset) as u64),
        forall|logical: u64| #[trigger]
            is_address_in(bg, logical) ==> 0 <= logical - bg.logical_start < bg.length,
{
}

/// An address in the block group, drawn by chance.
pub fn draw_logical(bg: &SampledBlockGroup) -> (r: u64)
    requires
        bg.logical_start + bg.length <= u64::MAX + 1,
    ensures
        is_address_in(*bg, r),
{
    if bg.length == 0 {
        bg.logical_start
    } else {
        address_at(bg, random_below(bg.length))
    }
}

/// Where on which device a logical address lies, if that is known.
pub open spec fn physical_place(bg: SampledBlockGroup, logical: u64) -> Option<(u64, u64)> {
    match (bg.phys_devid, bg.phys_start) {
        (Some(devid), Some(start)) => Some((devid, (start + (logical - bg.logical_start)) as u64)),
        _ => None,
    }
}

/// The place of a logical address on the device can be held, where it is known.
pub open spec fn has_place(bg: SampledBlockGroup, logical: u64) -> bool {
    match (bg.phys_devid, bg.phys_start) {
        (Some(devid), Some(start)) => bg.logical_start <= logical && start + (logical
            - bg.logical_start) <= u64::MAX,
        _ => true,
    }
}

/// Every address of a block group has a place, which lies in the copy on the device.
pub proof fn law_place_in_copy(bg: SampledBlockGroup, logical: u64)
    requires
        bg.wf(),
        is_address_in(bg, logical),
    ensures
        has_place(bg, logical),
        match physical_place(bg, logical) {
            Some((devid, offset)) => {
                &&& bg.phys_devid == Some(devid)
                &&& bg.phys_start is Some
                &&& offset - bg.phys_start->0 == logical - bg.logical_start
            },
            None => bg.phys_devid is None || bg.phys_start is None,
        },
{
}

/// Where on which device a logical address lies, if that is known.
pub fn physical_of(bg: &SampledBlockGroup, logical: u64) -> (r: Option<(u64, u64)>)
    requires
        has_place(*bg, logical),
    ensures
        r == physical_place(*bg, logical),
{
    match (bg.phys_devid, bg.phys_start) {
        (Some(devid), Some(start)) => Some((devid, start + (logical - bg.logical_start))),
        _ => None,
    }
}

/// The block groups share all the places: each place below the total weight is covered by
/// exactly one of them, and each covers as many places as it is long. So a place drawn
/// evenly leads to each block group in proportion to its length, and never to an empty one.
pub proof fn law_drawn_in_proportion(config: SamplerConfig)
    requires
        config.wf(),
    ensures
        forall|i: int, target: int|
            0 <= i < config.block_groups@.len() ==> (#[trigger] config.covers(i, target) <==> 0
                <= target - total_length(config.block_groups@.take(i))
                < config.block_groups@[i].length),
        forall|target: int|
            0 <= target < config.total_weight <==> #[trigger] config.is_covered(target),
        forall|i: int, j: int, target: int| #[trigger]
            config.covers(i, target) && #[trigger] config.covers(j, target) ==> i == j,
{
    let groups = config.block_groups@;
    assert(groups.take(groups.len() as int) =~= groups);
    assert forall|i: int, target: int| 0 <= i < groups.len() implies (#[trigger] config.covers(
        i,
        target,
    ) <==> 0 <= target - total_length(groups.take(i)) < groups[i].length) by {
        lemma_total_length_step(groups, i);
    }
    assert forall|i: int, j: int, target: int| #[trigger]
        config.covers(i, target) && #[trigger] config.covers(j, target) implies i == j by {
        if i < j {
            lemma_total_length_prefix(groups, i + 1, j);
        } else if j < i {
            lemma_total_length_prefix(groups, j + 1, i);
        }
    }
    assert forall|target: int| 0 <= target < config.total_weight <==> #[trigger] config.is_covered(
        target,
    ) by {
        if 0 <= target < config.total_weight {
            let i = lemma_covered(config, target, groups.len() as int);
        }
        if config.is_covered(target) {
            let i = choose|i: int| #[trigger] config.covers(i, target);
            lemma_total_length_prefix(groups, i + 1, groups.len() as int);
        }
    }
}

/// Some block group covers a place before the end of the first `n` of them.
proof fn lemma_covered(config: SamplerConfig, target: int, n: int) -> (i: int)
    requires
        0 <= n <= config.block_groups@.len(),
        0 <= target < total_length(config.block_groups@.take(n)),
    ensures
        config.covers(i, target),
    decreases n,
{
    let groups = config.block_groups@;
    if n == 0 {
        assert(groups.take(0) =~= Seq::empty());
        0
    } else if target < total_length(groups.take(n - 1)) {
        lemma_covered(config, target, n - 1)
    } else {
        n - 1
    }
}

/// What the next turn of a sampler is.
#[derive(Debug, Clone, Copy, PartialEq, Eq, Structural)]
pub enum Turn {
    /// Leave the loop.
    Stop,
    /// Look again a little later.
    Wait,
    /// Draw an address.
    Draw,
}

/// The next turn of a sampler: shutting down comes before pausing.
pub fn next_turn(shutdown: bool, paused: bool) -> (r: Turn)
    ensures
        r == (if shutdown {
            Turn::Stop
        } else if paused {
            Turn::Wait
        } else {
            Turn::Draw
        }),
{
    if shutdown {
        Turn::Stop
    } else if paused {
        Turn::Wait
    } else {
        Turn::Draw
    }
}

/// How the paths of an inode were looked up.
pub enum PathLookup {
    /// The subvolume could not be opened, so there is nothing to ask.
    Unreachable,
    /// The lookup failed.
    Failed,
    /// The paths that were found.
    Paths(Vec<String>),
}

/// A file that refers to a drawn address.
pub struct FileRef {
    /// The name that stands for the subvolume of the file.
    pub display_name: String,
    pub inode: u64,
    pub lookup: PathLookup,
}

/// A sample, its path as text.
#[verifier::ext_equal]
pub struct SampleView {
    pub path: Seq<Seq<char>>,
    pub category: Category,
    pub weight: Quantity,
    pub inode: Option<u64>,
    pub physical: Option<(u64, u64)>,
}

pub open spec fn sample_view(sample: Sample) -> SampleView {
    SampleView {
        path: sample.path(),
        category: sample.category,
        weight: sample.weight,
        inode: sample.inode,
        physical: sample.physical,
    }
}

pub open spec fn sample_views(samples: Seq<Sample>) -> Seq<SampleView> {
    samples.map_values(|sample: Sample| sample_view(sample))
}

/// The only sample of a draw that belongs to no file.
pub open spec fn whole_draw(
    name: Seq<char>,
    category: Category,
    physical: Option<(u64, u64)>,
) -> SampleView {
    SampleView { path: seq![name], category, weight: Quantity::of(1), inode: None, physical }
}

/// The pieces that are not empty, in their order.
pub open spec fn nonempty(pieces: Seq<Seq<char>>) -> Seq<Seq<char>>
    decreases pieces.len(),
{
    if pieces.len() == 0 {
        Seq::empty()
    } else {
        let before = nonempty(pieces.drop_last());
        if pieces.last().len() == 0 {
            before
        } else {
            before.push(pieces.last())
        }
    }
}

/// What stands for a file without a path.
pub open spec fn inode_name(inode: u64) -> Seq<char> {
    "<inode "@ + decimal(inode as nat) + ">"@
}

/// The path of a file below its subvolume: the last one that was found.
pub open spec fn file_path(inode: u64, lookup: PathLookup) -> Seq<char> {
    match lookup {
        PathLookup::Paths(paths) => if paths@.len() > 0 {
            paths@.last()@
        } else {
            inode_name(inode)
        },
        _ => inode_name(inode),
    }
}

/// The sample for one of `n` files that refer to the drawn address.
pub open spec fn file_sample(
    file: FileRef,
    n: nat,
    physical: Option<(u64, u64)>,
) -> SampleView {
    let category = if n > 1 {
        Category::Shared
    } else {
        Category::Exclusive
    };
    let weight = Quantity::of(1).quotient(Quantity::of(n));
    match file.lookup {
        PathLookup::Unreachable => SampleView {
            path: seq![file.display_name@],
            category,
            weight,
            inode: None,
            physical,
        },
        _ => SampleView {
            path: seq![file.display_name@] + nonempty(
                split(file_path(file.inode, file.lookup), '/'),
            ),
            category,
            weight,
            inode: Some(file.inode),
            physical,
        },
    }
}

/// The samples of a draw. `found` are the files that refer to the address, none if they
/// could not be looked up.
pub open spec fn draw_samples(
    bg: SampledBlockGroup,
    logical: u64,
    found: Option<Seq<FileRef>>,
) -> Seq<SampleView> {
    let physical = physical_place(bg, logical);
    if bg.is_metadata {
        seq![whole_draw("<Metadata>"@, Category::Metadata, physical)]
    } else if bg.is_system {
        seq![whole_draw("<System>"@, Category::System, physical)]
    } else {
        match found {
            None => Seq::empty(),
            Some(files) => if files.len() == 0 {
                seq![whole_draw("<Unallocated>"@, Category::Unallocated, physical)]
            } else {
                files.map_values(|file: FileRef| file_sample(file, files.len(), physical))
            },
        }
    }
}

/// The samples of one draw share it evenly: they have one category, one place and one
/// weight, which is one over their number. Only a draw of data whose files could not be
/// looked up has no samples, and only data that several files refer to is shared.
pub proof fn law_draw_shared_evenly(
    bg: SampledBlockGroup,
    logical: u64,
    found: Option<Seq<FileRef>>,
)
    requires
        found is Some ==> found->0.len() <= u64::MAX,
    ensures
        ({
            let samples = draw_samples(bg, logical, found);
            &&& samples.len() == 0 <==> !bg.is_metadata && !bg.is_system && found is None
            &&& forall|i: int|
                0 <= i < samples.len() ==> {
                    &&& (#[trigger] samples[i]).weight == Quantity::of(1).quotient(
                        Quantity::of(samples.len()),
                    )
                    &&& samples[i].weight.bits <= power_bits(0)
                    &&& samples[i].category == samples[0].category
                    &&& samples[i].physical == physical_place(bg, logical)
                    &&& samples[i].path.len() > 0
                    &&& samples.len() > 1 ==> samples[i].category == Category::Shared
                    &&& samples.len() == 1 ==> samples[i].category != Category::Shared
                }
        }),
{
    let samples = draw_samples(bg, logical, found);
    lemma_of_bounds(1);
    lemma_one_is_neutral(Quantity::of(1));
    if samples.len() > 0 {
        lemma_share_weight(samples.len());
    }
}

/// What a draw is accounted as: metadata and system chunks each as such, under their own
/// name, whatever was looked up; else an address that no file refers to as unallocated, one
/// that one file refers to as its own and one that several refer to as shared. Nothing else
/// is accounted as metadata, system chunk or unallocated.
pub proof fn law_category_of_draw(
    bg: SampledBlockGroup,
    logical: u64,
    found: Option<Seq<FileRef>>,
)
    ensures
        ({
            let samples = draw_samples(bg, logical, found);
            &&& bg.is_metadata ==> samples.len() == 1 && samples[0].category == Category::Metadata
                && samples[0].path == seq!["<Metadata>"@]
            &&& bg.is_system && !bg.is_metadata ==> samples.len() == 1 && samples[0].category
                == Category::System && samples[0].path == seq!["<System>"@]
            &&& !bg.is_system && !bg.is_metadata && found is Some && found->0.len() == 0
                ==> samples.len() == 1 && samples[0].category == Category::Unallocated
                && samples[0].path == seq!["<Unallocated>"@]
            &&& !bg.is_system && !bg.is_metadata && found is Some && found->0.len() > 0
                ==> samples.len() == found->0.len()
            &&& forall|i: int|
                0 <= i < samples.len() ==> {
                    let category = (#[trigger] samples[i]).category;
                    &&& category == Category::Metadata <==> bg.is_metadata
                    &&& category == Category::System <==> bg.is_system && !bg.is_metadata
                    &&& category == Category::Unallocated <==> !bg.is_system && !bg.is_metadata
                        && found->0.len() == 0
                    &&& category == Category::Exclusive <==> !bg.is_system && !bg.is_metadata
                        && found->0.len() == 1
                    &&& category == Category::Shared <==> !bg.is_system && !bg.is_metadata
                        && found->0.len() > 1
                }
        }),
{
}

/// The names in a path.
pub open spec fn names_of(path: Seq<char>) -> Seq<Seq<char>> {
    nonempty(split(path, '/'))
}

/// The names in a path are what stands between its slashes: a text without slashes is one
/// name, unless it is empty, and two paths with a slash between them have the names of both.
pub proof fn law_names_in_path(a: Seq<char>, b: Seq<char>)
    ensures
        !a.contains('/') && a.len() > 0 ==> names_of(a) == seq![a],
        a.len() == 0 ==> names_of(a) == Seq::<Seq<char>>::empty(),
        names_of(a.push('/') + b) == names_of(a) + names_of(b),
        forall|i: int|
            0 <= i < names_of(a).len() ==> (#[trigger] names_of(a)[i]).len() > 0
                && !names_of(a)[i].contains('/'),
{
    law_split_adds_up(a, b, '/');
    lemma_nonempty_adds_up(split(a, '/'), split(b, '/'));
    reveal_with_fuel(nonempty, 3);
    if !a.contains('/') {
        lemma_split_whole(a, '/');
        assert(seq![a].drop_last() =~= Seq::empty());
        if a.len() > 0 {
            assert(names_of(a) =~= seq![a]);
        }
    }
    law_split_joins(a, '/');
    lemma_nonempty_among(split(a, '/'));
    assert forall|i: int| 0 <= i < names_of(a).len() implies (#[trigger] names_of(a)[i]).len() > 0
        && !names_of(a)[i].contains('/') by {
        let j = choose|j: int| 0 <= j < split(a, '/').len() && split(a, '/')[j] == names_of(a)[i];
        assert(!split(a, '/')[j].contains('/'));
    }
}

proof fn lemma_nonempty_adds_up(x: Seq<Seq<char>>, y: Seq<Seq<char>>)
    ensures
        nonempty(x + y) == nonempty(x) + nonempty(y),
    decreases y.len(),
{
    let all = x + y;
    if y.len() == 0 {
        assert(all =~= x);
        assert(nonempty(x) + nonempty(y) =~= nonempty(x));
    } else {
        assert(all.drop_last() =~= x + y.drop_last());
        assert(all.last() == y.last());
        lemma_nonempty_adds_up(x, y.drop_last());
        assert(nonempty(all) =~= nonempty(x) + nonempty(y));
    }
}

/// What is left is not empty and was there before.
proof fn lemma_nonempty_among(x: Seq<Seq<char>>)
    ensures
        forall|i: int|
            0 <= i < nonempty(x).len() ==> (#[trigger] nonempty(x)[i]).len() > 0 && exists|j: int|
                0 <= j < x.len() && #[trigger] x[j] == nonempty(x)[i],
    decreases x.len(),
{
    if x.len() > 0 {
        let rest = x.drop_last();
        lemma_nonempty_among(rest);
        assert forall|i: int| 0 <= i < nonempty(x).len() implies (
        #[trigger] nonempty(x)[i]).len() > 0 && exists|j: int|
            0 <= j < x.len() && #[trigger] x[j] == nonempty(x)[i] by {
            if i < nonempty(rest).len() {
                assert(nonempty(x)[i] == nonempty(rest)[i]);
                let j = choose|j: int| 0 <= j < rest.len() && #[trigger] rest[j] == nonempty(rest)[i];
                assert(x[j] == nonempty(x)[i]);
            } else {
                assert(x[x.len() - 1] == nonempty(x)[i]);
            }
        }
    }
}

/// The name for an inode holds its number and no slash.
pub proof fn law_inode_name(inode: u64)
    ensures
        !inode_name(inode).contains('/'),
        inode_name(inode).len() > 8,
        decimal_value(inode_name(inode).subrange(7, inode_name(inode).len() - 1)) == inode,
{
    reveal_strlit("<inode ");
    reveal_strlit(">");
    let name = inode_name(inode);
    let digits = decimal(inode as nat);
    law_decimal_reads_back(inode as nat);
    assert(name.subrange(7, name.len() - 1) =~= digits);
    assert forall|i: int| 0 <= i < name.len() implies name[i] != '/' by {
        if 7 <= i < name.len() - 1 {
            assert(name[i] == digits[i - 7]);
        }
    }
}

/// Each file of a draw has its sample, in the order of the files. Its path starts with the
/// name of the file's subvolume. If that could be opened, the sample names the inode, and the
/// names in the last path that was found follow, or a name for the inode where none was. If
/// it could not, nothing follows.
pub proof fn law_sample_of_file(
    bg: SampledBlockGroup,
    logical: u64,
    files: Seq<FileRef>,
    i: int,
)
    requires
        !bg.is_metadata,
        !bg.is_system,
        0 <= i < files.len(),
    ensures
        ({
            let sample = draw_samples(bg, logical, Some(files))[i];
            let start = seq![files[i].display_name@];
            match files[i].lookup {
                PathLookup::Unreachable => sample.path == start && sample.inode is None,
                PathLookup::Failed => sample.path == start.push(inode_name(files[i].inode))
                    && sample.inode == Some(files[i].inode),
                PathLookup::Paths(paths) => sample.inode == Some(files[i].inode) && (if paths@.len()
                    == 0 {
                    sample.path == start.push(inode_name(files[i].inode))
                } else {
                    sample.path == start + names_of(paths@.last()@)
                }),
            }
        }),
{
    let start = seq![files[i].display_name@];
    let name = inode_name(files[i].inode);
    law_inode_name(files[i].inode);
    law_names_in_path(name, Seq::empty());
    assert(start + seq![name] =~= start.push(name));
}

/// Whether the files that refer to an address in the block group have to be looked up.
pub fn needs_lookup(bg: &SampledBlockGroup) -> (r: bool)
    ensures
        r == (!bg.is_metadata && !bg.is_system),
        !r ==> forall|logical: u64, a: Option<Seq<FileRef>>, b: Option<Seq<FileRef>>|
            draw_samples(*bg, logical, a) == draw_samples(*bg, logical, b),
{
    !bg.is_metadata && !bg.is_system
}

proof fn lemma_one_weight()
    ensures
        Quantity::of(1).bits == power_bits(0),
{
    lemma2_to64();
    lemma_of_power(0);
}

/// One over a count is at most one.
proof fn lemma_share_weight(n: nat)
    requires
        1 <= n <= u64::MAX,
    ensures
        Quantity::of(1).quotient(Quantity::of(n)).bits <= power_bits(0),
        Quantity::of(n).bits > 0,
        Quantity::of(n).is_finite(),
{
    lemma_one_weight();
    lemma_of_bounds(1);
    lemma_of_bounds(n);
    lemma_power_bits(0);
    let one = one_units();
    lemma_pow2_pos(1074);
    let d = Quantity::of(n).amount();
    lemma_units_ordered(power_bits(0), Quantity::of(n).bits as nat);
    assert(d >= one);
    assert((one * one) * one <= (one * one) * d) by (nonlinear_arith)
        requires
            d >= one,
    ;
    lemma_nearest_exact(one * one, one, power_bits(0));
    lemma_nearest_monotone(one * one, d, one * one, one);
}

fn single(text: &str) -> (r: Vec<String>)
    ensures
        views(r@) == seq![text@],
{
    let mut r: Vec<String> = Vec::new();
    r.push(text.to_owned());
    proof {
        assert(views(r@) =~= seq![text@]);
    }
    r
}

/// The only sample of a draw that belongs to no file.
fn one_sample(name: &str, category: Category, physical: Option<(u64, u64)>) -> (r: Vec<Sample>)
    ensures
        sample_views(r@) == seq![whole_draw(name@, category, physical)],
        forall|i: int| 0 <= i < r@.len() ==> (#[trigger] r@[i]).wf(),
{
    proof {
        lemma_one_weight();
    }
    let mut r: Vec<Sample> = Vec::new();
    r.push(
        Sample {
            path_components: single(name),
            category,
            weight: Quantity::from_u64(1),
            inode: None,
            physical,
        },
    );
    proof {
        assert(sample_views(r@) =~= seq![whole_draw(name@, category, physical)]);
    }
    r
}

/// Appends the parts of a path that are not empty.
fn push_parts(components: &mut Vec<String>, path: &str)
    ensures
        views(final(components)@) == views(old(components)@) + nonempty(split(path@, '/')),
{
    let pieces: Vec<String> = split_at_each(path, '/');
    let ghost all = views(pieces@);
    let mut k: usize = 0;
    proof {
        assert(all.take(0) =~= Seq::empty());
        assert(views(components@) + nonempty(all.take(0)) =~= views(components@));
    }
    while k < pieces.len()
        invariant
            k <= pieces@.len(),
            all == views(pieces@),
            views(components@) == views(old(components)@) + nonempty(all.take(k as int)),
        decreases pieces@.len() - k,
    {
        let ghost now = all.take(k + 1);
        let ghost before = components@;
        proof {
            assert(now.drop_last() =~= all.take(k as int));
            assert(now.last() == pieces@[k as int]@);
        }
        if !pieces[k].as_str().is_empty() {
            let piece: String = pieces[k].clone();
            components.push(piece);
            proof {
                assert(views(components@) =~= views(before).push(piece@));
                assert(views(components@) =~= views(old(components)@) + nonempty(now));
            }
        }
        k = k + 1;
    }
    proof {
        assert(all.take(all.len() as int) =~= all);
    }
}

/// The path of a file below its subvolume.
fn path_text(inode: u64, lookup: &PathLookup) -> (r: String)
    ensures
        r@ == file_path(inode, *lookup),
{
    match lookup {
        PathLookup::Paths(paths) => {
            if paths.len() > 0 {
                return paths[paths.len() - 1].clone();
            }
        },
        _ => {},
    }
    let mut r: String = "<inode ".to_owned();
    push_decimal(&mut r, inode);
    r.append(">");
    r
}

/// The samples of a draw. `found` are the files that refer to the address, none if they
/// could not be looked up.
pub fn resolve_draw(
    bg: &SampledBlockGroup,
    logical: u64,
    found: &Option<Vec<FileRef>>,
) -> (r: Vec<Sample>)
    requires
        has_place(*bg, logical),
    ensures
        sample_views(r@) == draw_samples(
            *bg,
            logical,
            match *found {
                Some(files) => Some(files@),
                None => None,
            },
        ),
        forall|i: int| 0 <= i < r@.len() ==> (#[trigger] r@[i]).wf(),
{
    let physical: Option<(u64, u64)> = physical_of(bg, logical);
    if bg.is_metadata {
        return one_sample("<Metadata>", Category::Metadata, physical);
    }
    if bg.is_system {
        return one_sample("<System>", Category::System, physical);
    }
    match found {
        None => {
            let r: Vec<Sample> = Vec::new();
            proof {
                assert(sample_views(r@) =~= Seq::empty());
            }
            r
        },
        Some(files) => {
            if files.len() == 0 {
                return one_sample("<Unallocated>", Category::Unallocated, physical);
            }
            file_samples(files, physical)
        },
    }
}

/// One sample for each file, which share the draw evenly.
fn file_samples(files: &Vec<FileRef>, physical: Option<(u64, u64)>) -> (r: Vec<Sample>)
    requires
        files@.len() > 0,
    ensures
        sample_views(r@) == files@.map_values(
            |file: FileRef| file_sample(file, files@.len(), physical),
        ),
        forall|i: int| 0 <= i < r@.len() ==> (#[trigger] r@[i]).wf(),
{
    let n: usize = files.len();
    let ghost want = files@.map_values(|file: FileRef| file_sample(file, files@.len(), physical));
    let category: Category = if n > 1 {
        Category::Shared
    } else {
        Category::Exclusive
    };
    proof {
        lemma_share_weight(n as nat);
        lemma_of_bounds(1);
    }
    let weight: Quantity = Quantity::from_u64(1).over(Quantity::from_u64(n as u64));
    let mut r: Vec<Sample> = Vec::new();
    let mut k: usize = 0;
    proof {
        assert(sample_views(r@) =~= want.take(0));
    }
    while k < files.len()
        invariant
            n == files@.len(),
            want == files@.map_values(|file: FileRef| file_sample(file, files@.len(), physical)),
            k <= files@.len(),
            weight == Quantity::of(1).quotient(Quantity::of(n as nat)),
            weight.bits <= power_bits(0),
            category == (if n > 1 {
                Category::Shared
            } else {
                Category::Exclusive
            }),
            sample_views(r@) == want.take(k as int),
            forall|i: int| 0 <= i < r@.len() ==> (#[trigger] r@[i]).wf(),
        decreases files@.len() - k,
    {
        let file: &FileRef = &files[k];
        let mut components: Vec<String> = single(file.display_name.as_str());
        let mut inode: Option<u64> = None;
        match file.lookup {
            PathLookup::Unreachable => {},
            _ => {
                let path: String = path_text(file.inode, &file.lookup);
                push_parts(&mut components, path.as_str());
                inode = Some(file.inode);
            },
        }
        let ghost before = r@;
        let sample: Sample = Sample { path_components: components, category, weight, inode, physical };
        r.push(sample);
        proof {
            assert(sample_view(sample) =~= want[k as int]);
            assert(sample_views(r@) =~= sample_views(before).push(sample_view(sample)));
            assert(want.take(k + 1) =~= want.take(k as int).push(want[k as int]));
        }
        k = k + 1;
    }
    proof {
        assert(want.take(want.len() as int) =~= want);
    }
    r
}

/// A subvolume that samples lie in.
pub struct SubvolEntry {
    /// What stands for the subvolume at the top of the tree.
    pub display_name: String,
    /// Which of the opened directories belongs to it, if it could be opened.
    pub handle: Option<usize>,
}

/// A subvolume that was found and opened below the sampled mount.
pub struct OpenedSubvol {
    pub rel_path: String,
    pub handle: usize,
}

/// What stands for a subvolume with a path.
pub open spec fn subvol_name(path: Seq<char>) -> Seq<char> {
    "<subvol:"@ + path + ">"@
}

/// What stands for a subvolume without one.
pub open spec fn unresolved_name(root_id: u64) -> Seq<char> {
    "<unresolved-subvol:"@ + decimal(root_id as nat) + ">"@
}

/// The subvolume has to be looked for below the sampled mount: no mount of its own is
/// known.
pub fn needs_opening(config: &SamplerConfig, root_id: u64) -> (r: bool)
    ensures
        r == !config.mounted_subvols@.contains_key(root_id),
{
    broadcast use vstd::std_specs::hash::group_hash_axioms;

    !config.mounted_subvols.contains_key(&root_id)
}

fn bracketed(prefix: &str, path: &str) -> (r: String)
    ensures
        r@ == prefix@ + path@ + ">"@,
{
    let mut r: String = prefix.to_owned();
    r.append(path);
    r.append(">");
    r
}

/// The entry for a subvolume. A mount of its own comes first; `opened` is what was found
/// below the sampled mount, if anything.
pub fn build_subvol_entry(
    config: &SamplerConfig,
    root_id: u64,
    opened: &Option<OpenedSubvol>,
) -> (r: SubvolEntry)
    ensures
        if config.mounted_subvols@.contains_key(root_id) {
            &&& r.display_name@ == subvol_name(config.mounted_subvols@[root_id].path@)
            &&& r.handle == Some(config.mounted_subvols@[root_id].handle)
        } else {
            match *opened {
                Some(found) => {
                    &&& r.display_name@ == subvol_name(found.rel_path@)
                    &&& r.handle == Some(found.handle)
                },
                None => {
                    &&& r.display_name@ == unresolved_name(root_id)
                    &&& r.handle is None
                },
            }
        },
{
    broadcast use vstd::std_specs::hash::group_hash_axioms;

    if let Some(mounted) = config.mounted_subvols.get(&root_id) {
        return SubvolEntry {
            display_name: bracketed("<subvol:", mounted.path.as_str()),
            handle: Some(mounted.handle),
        };
    }
    match opened {
        Some(found) => SubvolEntry {
            display_name: bracketed("<subvol:", found.rel_path.as_str()),
            handle: Some(found.handle),
        },
        None => {
            let mut name: String = "<unresolved-subvol:".to_owned();
            push_decimal(&mut name, root_id);
            name.append(">");
            SubvolEntry { display_name: name, handle: None }
        },
    }
}

/// What has to be asked about a file in a subvolume.
#[derive(Debug, Clone, Copy, PartialEq, Eq, Structural)]
pub enum Ask {
    /// The subvolume is not known yet: it has to be found and opened first.
    Open,
    /// The paths of the file, from the opened directory with this handle.
    Paths(usize),
    /// The subvolume could not be opened, so there is nothing to ask.
    Nothing,
}

/// What has to be asked about a file in subvolume `root_id`.
pub open spec fn ask_for(entries: Map<u64, SubvolEntry>, root_id: u64) -> Ask {
    if !entries.contains_key(root_id) {
        Ask::Open
    } else {
        match entries[root_id].handle {
            Some(handle) => Ask::Paths(handle),
            None => Ask::Nothing,
        }
    }
}

/// The entries with one for a subvolume that has none; an entry that is there stays.
pub open spec fn remembered(
    entries: Map<u64, SubvolEntry>,
    root_id: u64,
    entry: SubvolEntry,
) -> Map<u64, SubvolEntry> {
    if entries.contains_key(root_id) {
        entries
    } else {
        entries.insert(root_id, entry)
    }
}

/// The entries after the files of a draw: for each file the number of its subvolume, and the
/// entry that is built for it if it needs one.
pub open spec fn remembered_all(
    entries: Map<u64, SubvolEntry>,
    built: Seq<(u64, SubvolEntry)>,
) -> Map<u64, SubvolEntry>
    decreases built.len(),
{
    if built.len() == 0 {
        entries
    } else {
        remembered(
            remembered_all(entries, built.drop_last()),
            built.last().0,
            built.last().1,
        )
    }
}

/// One of the files lies in subvolume `root_id`.
pub open spec fn is_met(built: Seq<(u64, SubvolEntry)>, root_id: u64) -> bool {
    exists|i: int| 0 <= i < built.len() && (#[trigger] built[i]).0 == root_id
}

/// One file more is met with all the others and its own subvolume.
proof fn lemma_met_step(built: Seq<(u64, SubvolEntry)>, root_id: u64)
    requires
        built.len() > 0,
    ensures
        is_met(built, root_id) <==> is_met(built.drop_last(), root_id) || built.last().0
            == root_id,
{
    let rest = built.drop_last();
    if is_met(rest, root_id) {
        let i = choose|i: int| 0 <= i < rest.len() && (#[trigger] rest[i]).0 == root_id;
        assert(built[i].0 == root_id);
    }
    if is_met(built, root_id) {
        let i = choose|i: int| 0 <= i < built.len() && (#[trigger] built[i]).0 == root_id;
        if i < rest.len() {
            assert(rest[i].0 == root_id);
        }
    }
    assert(built[built.len() - 1] == built.last());
}

/// After a draw the entries are the old ones, as they were, and one for each subvolume that
/// a file lies in: the one built for the first such file.
pub proof fn law_draw_keeps_entries(
    entries: Map<u64, SubvolEntry>,
    built: Seq<(u64, SubvolEntry)>,
)
    ensures
        forall|root_id: u64| #[trigger]
            remembered_all(entries, built).contains_key(root_id) <==> entries.contains_key(root_id)
                || is_met(built, root_id),
        forall|root_id: u64|
            entries.contains_key(root_id) ==> #[trigger] remembered_all(entries, built)[root_id]
                == entries[root_id],
        forall|i: int|
            0 <= i < built.len() && !entries.contains_key((#[trigger] built[i]).0) && !is_met(
                built.take(i),
                built[i].0,
            ) ==> remembered_all(entries, built)[built[i].0] == built[i].1,
    decreases built.len(),
{
    let all = remembered_all(entries, built);
    if built.len() > 0 {
        let rest = built.drop_last();
        let before = remembered_all(entries, rest);
        law_draw_keeps_entries(entries, rest);
        assert forall|root_id: u64| #[trigger] all.contains_key(root_id) <==> entries.contains_key(
            root_id,
        ) || is_met(built, root_id) by {
            lemma_met_step(built, root_id);
            assert(before.contains_key(root_id) <==> entries.contains_key(root_id) || is_met(
                rest,
                root_id,
            ));
        }
        assert forall|root_id: u64| entries.contains_key(root_id) implies #[trigger] all[root_id]
            == entries[root_id] by {
            assert(before.contains_key(root_id));
            assert(before[root_id] == entries[root_id]);
        }
        assert forall|i: int|
            0 <= i < built.len() && !entries.contains_key((#[trigger] built[i]).0) && !is_met(
                built.take(i),
                built[i].0,
            ) implies all[built[i].0] == built[i].1 by {
            if i < rest.len() {
                assert(rest[i] == built[i]);
                assert(rest.take(i) =~= built.take(i));
                assert(is_met(rest, built[i].0));
                assert(before.contains_key(built[i].0));
            } else {
                assert(built.take(i) =~= rest);
                assert(!before.contains_key(built[i].0));
            }
        }
    }
}

/// A subvolume is opened for the first file of a draw that lies in it, if it was not known
/// before, and for no other: once it has been remembered it is not opened again, and what is
/// asked about its files stays the same.
pub proof fn law_opened_once(
    entries: Map<u64, SubvolEntry>,
    built: Seq<(u64, SubvolEntry)>,
    k: int,
)
    requires
        0 <= k < built.len(),
    ensures
        ask_for(remembered_all(entries, built.take(k)), built[k].0) == Ask::Open
            <==> !entries.contains_key(built[k].0) && !is_met(built.take(k), built[k].0),
        ask_for(remembered_all(entries, built.take(k + 1)), built[k].0) != Ask::Open,
        ask_for(remembered_all(entries, built), built[k].0) == ask_for(
            remembered_all(entries, built.take(k + 1)),
            built[k].0,
        ),
        remembered_all(entries, built)[built[k].0] == remembered_all(
            entries,
            built.take(k + 1),
        )[built[k].0],
{
    law_draw_keeps_entries(entries, built.take(k));
    let now = built.take(k + 1);
    assert(now.drop_last() =~= built.take(k));
    assert(now.last() == built[k]);
    lemma_entry_stays(entries, built, k + 1, built[k].0);
}

/// An entry that is there after the first `n` files is there after all of them.
proof fn lemma_entry_stays(
    entries: Map<u64, SubvolEntry>,
    built: Seq<(u64, SubvolEntry)>,
    n: int,
    root_id: u64,
)
    requires
        0 <= n <= built.len(),
        remembered_all(entries, built.take(n)).contains_key(root_id),
    ensures
        remembered_all(entries, built).contains_key(root_id),
        remembered_all(entries, built)[root_id] == remembered_all(entries, built.take(n))[root_id],
    decreases built.len(),
{
    if n < built.len() {
        let rest = built.drop_last();
        assert(rest.take(n) =~= built.take(n));
        lemma_entry_stays(entries, rest, n, root_id);
    } else {
        assert(built.take(n) =~= built);
    }
}

/// What has to be asked about a file in subvolume `root_id`.
pub fn next_ask(cache: &SubvolCache, root_id: u64) -> (r: Ask)
    ensures
        r == ask_for(cache.entries@, root_id),
{
    match cache.get(root_id) {
        None => Ask::Open,
        Some(entry) => match entry.handle {
            Some(handle) => Ask::Paths(handle),
            None => Ask::Nothing,
        },
    }
}

/// How the lookup went for a file in a subvolume with the given entry. `paths` are what was
/// found, none if the lookup failed.
pub open spec fn lookup_of(entry: SubvolEntry, paths: Option<Vec<String>>) -> PathLookup {
    if entry.handle is None {
        PathLookup::Unreachable
    } else {
        match paths {
            Some(paths) => PathLookup::Paths(paths),
            None => PathLookup::Failed,
        }
    }
}

/// The paths of a file are asked for, from the directory of its subvolume, exactly where there
/// is one. What is found for a file in a subvolume without one does not count; in any other,
/// what was found is what was looked up, and a lookup that failed is told from one that found
/// nothing.
pub proof fn law_asks_where_opened(
    entries: Map<u64, SubvolEntry>,
    root_id: u64,
    paths: Option<Vec<String>>,
    handle: usize,
)
    requires
        entries.contains_key(root_id),
    ensures
        ask_for(entries, root_id) == Ask::Paths(handle) <==> entries[root_id].handle == Some(
            handle,
        ),
        ask_for(entries, root_id) == Ask::Nothing <==> entries[root_id].handle is None,
        lookup_of(entries[root_id], paths) is Unreachable <==> ask_for(entries, root_id)
            == Ask::Nothing,
        lookup_of(entries[root_id], paths) is Failed <==> entries[root_id].handle is Some
            && paths is None,
        entries[root_id].handle is Some && paths is Some ==> lookup_of(entries[root_id], paths)
            == PathLookup::Paths(paths->0),
{
}

/// A file that refers to a drawn address, if its subvolume is known. `paths` are what was
/// found for it, none if the lookup failed.
pub fn file_ref(
    cache: &SubvolCache,
    root_id: u64,
    inode: u64,
    paths: Option<Vec<String>>,
) -> (r: Option<FileRef>)
    ensures
        match r {
            Some(file) => {
                &&& cache.entries@.contains_key(root_id)
                &&& file.display_name@ == cache.entries@[root_id].display_name@
                &&& file.inode == inode
                &&& file.lookup == lookup_of(cache.entries@[root_id], paths)
            },
            None => !cache.entries@.contains_key(root_id),
        },
{
    match cache.get(root_id) {
        None => None,
        Some(entry) => {
            let lookup: PathLookup = if entry.handle.is_none() {
                PathLookup::Unreachable
            } else {
                match paths {
                    Some(paths) => PathLookup::Paths(paths),
                    None => PathLookup::Failed,
                }
            };
            Some(FileRef { display_name: entry.display_name.clone(), inode, lookup })
        },
    }
}

/// The subvolumes that a sampler has come across, by their numbers.
pub struct SubvolCache {
    pub entries: HashMap<u64, SubvolEntry>,
}

impl SubvolCache {
    /// A cache without entries.
    pub fn new() -> (r: SubvolCache)
        ensures
            r.entries@ == Map::<u64, SubvolEntry>::empty(),
    {
        SubvolCache { entries: HashMap::new() }
    }

    /// The entry of a subvolume, if there is one.
    pub fn get(&self, root_id: u64) -> (r: Option<&SubvolEntry>)
        ensures
            match r {
                Some(entry) => self.entries@.contains_key(root_id) && *entry
                    == self.entries@[root_id],
                None => !self.entries@.contains_key(root_id),
            },
    {
        broadcast use vstd::std_specs::hash::group_hash_axioms;

        self.entries.get(&root_id)
    }

    /// Adds the entry of a subvolume that has none; an entry that is there stays.
    pub fn remember(&mut self, root_id: u64, entry: SubvolEntry)
        ensures
            final(self).entries@ == remembered(old(self).entries@, root_id, entry),
    {
        broadcast use vstd::std_specs::hash::group_hash_axioms;

        if !self.entries.contains_key(&root_id) {
            self.entries.insert(root_id, entry);
        }
    }
}

} // verus!
