//! What a sample is, and what the samples add up to.
use crate::accuracy::{
    at_most, lemma_at_most_cancel, lemma_at_most_less, lemma_close_chain, lemma_close_same,
    lemma_close_scale, lemma_of_close, lemma_share_close,
};
use crate::quantity::{
    lemma_of_bounds, lemma_of_exact, lemma_of_monotone, lemma_one_is_neutral, lemma_power_bits,
    lemma_product_monotone, lemma_quotient_monotone, lemma_quotient_shrinks, lemma_sum_bounded,
    lemma_whole_part_monotone, power_bits, Quantity,
};
use crate::rounding::{lemma_nearest_exact, one_units, units};
use crate::text::views;
use vstd::arithmetic::div_mod::lemma_fundamental_div_mod;
use vstd::arithmetic::power2::{lemma_pow2_pos, lemma_pow2_strictly_increases, pow2};
use vstd::hash_map::StringHashMap;
use vstd::prelude::*;

verus! {

/// What the space at a sampled address is used for.
#[derive(Debug, Clone, Copy, PartialEq, Eq, Hash, Structural)]
pub enum Category {
    Exclusive,
    Shared,
    Metadata,
    System,
    Unallocated,
}

impl Category {
    pub const ALL: [Category; 5] = [
        Category::Exclusive,
        Category::Shared,
        Category::Metadata,
        Category::System,
        Category::Unallocated,
    ];

    /// The place of the category among all of them.
    pub open spec fn place(self) -> int {
        match self {
            Category::Exclusive => 0,
            Category::Shared => 1,
            Category::Metadata => 2,
            Category::System => 3,
            Category::Unallocated => 4,
        }
    }

    /// The category at a place.
    pub open spec fn at(place: int) -> Category {
        if place == 0 {
            Category::Exclusive
        } else if place == 1 {
            Category::Shared
        } else if place == 2 {
            Category::Metadata
        } else if place == 3 {
            Category::System
        } else {
            Category::Unallocated
        }
    }

    /// The place of the category, as an index.
    pub fn index(self) -> (r: usize)
        ensures
            r == self.place(),
            r < 5,
    {
        match self {
            Category::Exclusive => 0,
            Category::Shared => 1,
            Category::Metadata => 2,
            Category::System => 3,
            Category::Unallocated => 4,
        }
    }

    pub open spec fn label_text(self) -> Seq<char> {
        match self {
            Category::Exclusive => "exclusive"@,
            Category::Shared => "shared"@,
            Category::Metadata => "metadata"@,
            Category::System => "system"@,
            Category::Unallocated => "unallocated"@,
        }
    }

    /// The name of the category.
    pub fn label(self) -> (r: &'static str)
        ensures
            r@ == self.label_text(),
    {
        match self {
            Category::Exclusive => "exclusive",
            Category::Shared => "shared",
            Category::Metadata => "metadata",
            Category::System => "system",
            Category::Unallocated => "unallocated",
        }
    }

    pub open spec fn explanation_text(self) -> Seq<char> {
        match self {
            Category::Exclusive => "Data referenced by exactly one file. Deleting that file frees this space."@,
            Category::Shared => "Data referenced by more than one file (reflink/dedup) or shared with a snapshot. Freed only once every referencing file/snapshot is gone."@,
            Category::Metadata => "btrfs metadata (b-trees: extent tree, fs trees, csum tree, ...), not attributable to a single file."@,
            Category::System => "btrfs SYSTEM chunks: bookkeeping for the chunk tree itself. Normally tiny."@,
            Category::Unallocated => "A hole inside an allocated DATA block group with no current owner (e.g. after deletion, before reclaim)."@,
        }
    }

    /// What the category means, in a sentence or two.
    pub fn explanation(self) -> (r: &'static str)
        ensures
            r@ == self.explanation_text(),
    {
        match self {
            Category::Exclusive => "Data referenced by exactly one file. Deleting that file frees this space.",
            Category::Shared => "Data referenced by more than one file (reflink/dedup) or shared with a snapshot. Freed only once every referencing file/snapshot is gone.",
            Category::Metadata => "btrfs metadata (b-trees: extent tree, fs trees, csum tree, ...), not attributable to a single file.",
            Category::System => "btrfs SYSTEM chunks: bookkeeping for the chunk tree itself. Normally tiny.",
            Category::Unallocated => "A hole inside an allocated DATA block group with no current owner (e.g. after deletion, before reclaim).",
        }
    }
}

/// One path that a sampled address belongs to.
#[derive(Debug, Clone)]
pub struct Sample {
    pub path_components: Vec<String>,
    pub category: Category,
    /// The share of the draw that falls to this path, at most one.
    pub weight: Quantity,
    pub inode: Option<u64>,
    /// Device and byte offset on it.
    pub physical: Option<(u64, u64)>,
}

impl Sample {
    pub open spec fn wf(self) -> bool {
        self.weight.bits <= power_bits(0)
    }

    /// The path, as text.
    pub open spec fn path(self) -> Seq<Seq<char>> {
        views(self.path_components@)
    }
}

/// A block group that addresses are drawn from.
#[derive(Debug, Clone, Copy)]
pub struct SampledBlockGroup {
    pub logical_start: u64,
    pub length: u64,
    pub is_data: bool,
    pub is_metadata: bool,
    pub is_system: bool,
    pub phys_devid: Option<u64>,
    pub phys_start: Option<u64>,
}

impl SampledBlockGroup {
    /// Every address of the block group can be held, and so can its place on the device.
    pub open spec fn wf(self) -> bool {
        &&& self.logical_start + self.length <= u64::MAX + 1
        &&& self.phys_start is Some ==> self.phys_start->0 + self.length <= u64::MAX + 1
    }

    /// Whether every address of the block group can be held, and its place on the device.
    pub fn is_sound(&self) -> (r: bool)
        ensures
            r == self.wf(),
    {
        if self.length == 0 {
            return true;
        }
        let last: u64 = self.length - 1;
        if self.logical_start > u64::MAX - last {
            return false;
        }
        match self.phys_start {
            Some(start) => start <= u64::MAX - last,
            None => true,
        }
    }
}

/// The amounts of all categories together, added up in their order.
pub open spec fn total_amount(amounts: Seq<Quantity>) -> Quantity
    decreases amounts.len(),
{
    if amounts.len() == 0 {
        Quantity { bits: 0 }
    } else {
        total_amount(amounts.drop_last()).sum(amounts.last())
    }
}

/// Sample counts added up.
pub open spec fn total_number(counts: Seq<u64>) -> nat
    decreases counts.len(),
{
    if counts.len() == 0 {
        0
    } else {
        total_number(counts.drop_last()) + counts.last() as nat
    }
}

/// A directory or file below a [`TreeNode`].
pub struct Child {
    pub name: String,
    pub node: TreeNode,
}

/// What the samples on a path and below it add up to.
pub struct TreeNode {
    pub children: Vec<Child>,
    /// Where in `children` each name stands.
    pub index: StringHashMap<usize>,
    pub hits: [Quantity; 5],
    pub counts: [u64; 5],
    pub inode: Option<u64>,
}

/// A node without what is below it.
#[verifier::ext_equal]
pub struct NodeView {
    pub children: Seq<Seq<char>>,
    pub hits: Seq<Quantity>,
    pub counts: Seq<u64>,
    pub inode: Option<u64>,
}

/// The samples of category `c` in all the children.
pub open spec fn children_number(children: Seq<Child>, c: int) -> nat
    decreases children.len(),
{
    if children.len() == 0 {
        0
    } else {
        children_number(children.drop_last(), c) + children.last().node.counts@[c] as nat
    }
}

impl NodeView {
    /// A node that no sample has reached.
    pub open spec fn empty() -> NodeView {
        NodeView {
            children: Seq::empty(),
            hits: Seq::new(5, |c: int| Quantity { bits: 0 }),
            counts: Seq::new(5, |c: int| 0u64),
            inode: None,
        }
    }

    /// The node with one more sample, whose path goes on with `next`.
    pub open spec fn plus(self, sample: Sample, next: Option<Seq<char>>) -> NodeView {
        let c = sample.category.place();
        NodeView {
            children: match next {
                Some(name) => if self.children.contains(name) {
                    self.children
                } else {
                    self.children.push(name)
                },
                None => self.children,
            },
            hits: self.hits.update(c, self.hits[c].sum(sample.weight)),
            counts: self.counts.update(c, (self.counts[c] + 1) as u64),
            inode: if sample.inode is Some {
                sample.inode
            } else {
                self.inode
            },
        }
    }
}

impl TreeNode {
    /// The hits are finite and the counts can be added up.
    pub open spec fn totals_wf(self) -> bool {
        &&& forall|c: int| 0 <= c < 5 ==> (#[trigger] self.hits@[c]).bits <= power_bits(53)
        &&& total_number(self.counts@) <= u64::MAX
    }

    /// The index leads from each name to the one child that has it.
    pub open spec fn index_wf(self) -> bool {
        &&& forall|i: int|
            0 <= i < self.children@.len() ==> {
                &&& self.index@.contains_key((#[trigger] self.children@[i]).name@)
                &&& self.index@[self.children@[i].name@] == i
            }
        &&& forall|name: Seq<char>| #[trigger]
            self.index@.contains_key(name) ==> {
                &&& self.index@[name] < self.children@.len()
                &&& self.children@[self.index@[name] as int].name@ == name
            }
    }

    /// Every sample of a child is one of its parent too.
    pub open spec fn children_wf(self) -> bool {
        &&& forall|c: int|
            0 <= c < 5 ==> #[trigger] children_number(self.children@, c) <= self.counts@[c]
        &&& forall|i: int, c: int|
            0 <= i < self.children@.len() && 0 <= c < 5
                ==> (#[trigger] self.children@[i].node.hits@[c]).bits <= self.hits@[c].bits
    }

    pub open spec fn wf(self) -> bool
        decreases self,
    {
        &&& self.totals_wf()
        &&& self.index_wf()
        &&& self.children_wf()
        &&& forall|i: int| 0 <= i < self.children@.len() ==> (#[trigger] self.children@[i]).node.wf()
    }

    pub open spec fn child_names(self) -> Seq<Seq<char>> {
        self.children@.map_values(|child: Child| child.name@)
    }

    pub open spec fn shape(self) -> NodeView {
        NodeView {
            children: self.child_names(),
            hits: self.hits@,
            counts: self.counts@,
            inode: self.inode,
        }
    }

    /// The node that `path` leads to.
    pub open spec fn descend(self, path: Seq<Seq<char>>) -> Option<TreeNode>
        decreases path.len(),
    {
        if path.len() == 0 {
            Some(self)
        } else if self.index@.contains_key(path[0]) {
            self.children@[self.index@[path[0]] as int].node.descend(path.drop_first())
        } else {
            None
        }
    }

    /// What there is at `path`.
    pub open spec fn at(self, path: Seq<Seq<char>>) -> Option<NodeView> {
        match self.descend(path) {
            Some(node) => Some(node.shape()),
            None => None,
        }
    }
}

impl Default for TreeNode {
    /// A node without samples.
    fn default() -> (r: TreeNode)
        ensures
            r.wf(),
            r.shape() == NodeView::empty(),
            forall|path: Seq<Seq<char>>| #[trigger] r.at(path) == (if path.len() == 0 {
                Some(NodeView::empty())
            } else {
                None
            }),
    {
        let none: Quantity = Quantity { bits: 0 };
        let r: TreeNode = TreeNode {
            children: Vec::new(),
            index: StringHashMap::new(),
            hits: [none, none, none, none, none],
            counts: [0, 0, 0, 0, 0],
            inode: None,
        };
        proof {
            assert(r.shape() =~= NodeView::empty());
            reveal_with_fuel(total_number, 6);
        }
        r
    }
}

/// All hits together are finite.
pub proof fn lemma_totals_finite(hits: Seq<Quantity>)
    requires
        hits.len() == 5,
        forall|c: int| 0 <= c < 5 ==> (#[trigger] hits[c]).bits <= power_bits(53),
    ensures
        total_amount(hits).bits <= power_bits(58),
        total_amount(hits).is_finite(),
{
    reveal_with_fuel(total_amount, 6);
    let none = Quantity { bits: 0 };
    let s1 = none.sum(hits[0]);
    let s2 = s1.sum(hits[1]);
    let s3 = s2.sum(hits[2]);
    let s4 = s3.sum(hits[3]);
    lemma_sum_bounded(none, hits[0], 53);
    lemma_sum_bounded(s1, hits[1], 54);
    lemma_sum_bounded(s2, hits[2], 55);
    lemma_sum_bounded(s3, hits[3], 56);
    lemma_sum_bounded(s4, hits[4], 57);
    assert(hits.drop_last().drop_last().drop_last().drop_last().drop_last() =~= Seq::empty());
}

impl TreeNode {
    /// The hits of all categories.
    pub fn total_hits(&self) -> (r: Quantity)
        requires
            self.totals_wf(),
        ensures
            r == total_amount(self.hits@),
            r.is_finite(),
    {
        proof {
            lemma_totals_finite(self.hits@);
            lemma_power_bits(53);
        }
        sum_amounts(&self.hits)
    }

    /// The samples of all categories.
    pub fn total_count(&self) -> (r: u64)
        requires
            self.totals_wf(),
        ensures
            r == total_number(self.counts@),
    {
        let mut r: u64 = 0;
        let mut c: usize = 0;
        proof {
            assert(self.counts@.take(5) =~= self.counts@);
        }
        while c < 5
            invariant
                c <= 5,
                r == total_number(self.counts@.take(c as int)),
                total_number(self.counts@.take(5)) <= u64::MAX,
            decreases 5 - c,
        {
            proof {
                reveal_with_fuel(total_number, 6);
                assert(self.counts@.take(c + 1).drop_last() =~= self.counts@.take(c as int));
                lemma_number_prefix(self.counts@, c + 1, 5);
            }
            r = r + self.counts[c];
            c = c + 1;
        }
        r
    }

    /// The hits of one category.
    pub fn hits_for(&self, cat: Category) -> (r: Quantity)
        ensures
            r == self.hits@[cat.place()],
    {
        self.hits[cat.index()]
    }

    /// The samples of one category.
    pub fn count_for(&self, cat: Category) -> (r: u64)
        ensures
            r == self.counts@[cat.place()],
    {
        self.counts[cat.index()]
    }
}

/// A part of a list of counts is not more than the whole.
proof fn lemma_number_prefix(counts: Seq<u64>, i: int, j: int)
    requires
        0 <= i <= j <= counts.len(),
    ensures
        total_number(counts.take(i)) <= total_number(counts.take(j)),
    decreases j - i,
{
    if i < j {
        lemma_number_prefix(counts, i, j - 1);
        assert(counts.take(j).drop_last() =~= counts.take(j - 1));
    }
}

/// The amounts added up in their order.
pub fn sum_amounts(amounts: &[Quantity; 5]) -> (r: Quantity)
    requires
        forall|c: int| 0 <= c < 5 ==> (#[trigger] amounts@[c]).wf(),
    ensures
        r == total_amount(amounts@),
        r.wf(),
{
    let mut r: Quantity = Quantity::zero();
    let mut c: usize = 0;
    proof {
        assert(amounts@.take(5) =~= amounts@);
    }
    while c < 5
        invariant
            c <= 5,
            r == total_amount(amounts@.take(c as int)),
            r.wf(),
            forall|c: int| 0 <= c < 5 ==> (#[trigger] amounts@[c]).wf(),
        decreases 5 - c,
    {
        proof {
            assert(amounts@.take(c + 1).drop_last() =~= amounts@.take(c as int));
        }
        r = r.plus(amounts[c]);
        c = c + 1;
    }
    r
}

/// `place` holds the greatest of the amounts, the last one of several.
pub open spec fn is_last_greatest(amounts: Seq<Quantity>, place: int) -> bool {
    &&& 0 <= place < amounts.len()
    &&& forall|c: int| 0 <= c < amounts.len() ==> (#[trigger] amounts[c]).bits <= amounts[place].bits
    &&& forall|c: int|
        place < c < amounts.len() ==> (#[trigger] amounts[c]).bits < amounts[place].bits
}

/// The category with the greatest amount, the last one of several.
pub open spec fn greatest_of(amounts: Seq<Quantity>) -> Category {
    choose|cat: Category| is_last_greatest(amounts, cat.place())
}

/// The category that is dominant has no less than any other, and more than each that comes
/// after it. Where all is nothing there is none.
pub proof fn law_dominant_has_most(row: DirRow, other: Category)
    ensures
        row.total_bytes.bits == 0 <==> row.dominant() is None,
        row.dominant() is Some ==> {
            let cat = row.dominant()->0;
            let amounts = row.bytes_by_category@;
            &&& amounts[other.place()].bits <= amounts[cat.place()].bits
            &&& other.place() > cat.place() ==> amounts[other.place()].bits
                < amounts[cat.place()].bits
        },
{
    lemma_greatest_of(row.bytes_by_category@);
}

/// The integers added up.
pub open spec fn sum_of(numbers: Seq<nat>) -> nat
    decreases numbers.len(),
{
    if numbers.len() == 0 {
        0
    } else {
        sum_of(numbers.drop_last()) + numbers.last()
    }
}

/// Whole amounts add up exactly, up to 2 to the power of 53.
pub proof fn law_whole_amounts_add_up(numbers: Seq<nat>)
    requires
        sum_of(numbers) <= pow2(53),
    ensures
        total_amount(Seq::new(numbers.len(), |i: int| Quantity::of(numbers[i]))) == Quantity::of(
            sum_of(numbers),
        ),
    decreases numbers.len(),
{
    let amounts = Seq::new(numbers.len(), |i: int| Quantity::of(numbers[i]));
    if numbers.len() == 0 {
        lemma_of_bounds(0);
    } else {
        let rest = numbers.drop_last();
        law_whole_amounts_add_up(rest);
        assert(amounts.drop_last() =~= Seq::new(rest.len(), |i: int| Quantity::of(rest[i])));
        let one = one_units();
        let (x, y) = (sum_of(rest), numbers.last());
        lemma_of_exact(x);
        lemma_of_exact(y);
        assert(x * one + y * one == (x + y) * one) by (nonlinear_arith);
    }
}

/// The counts of the five categories are added up, none left out.
pub proof fn law_total_number_of_five(counts: Seq<u64>)
    requires
        counts.len() == 5,
    ensures
        total_number(counts) == counts[0] + counts[1] + counts[2] + counts[3] + counts[4],
{
    reveal_with_fuel(total_number, 6);
}

/// There is exactly one category with the greatest amount that comes last.
pub proof fn lemma_greatest_of(amounts: Seq<Quantity>)
    requires
        amounts.len() == 5,
    ensures
        is_last_greatest(amounts, greatest_of(amounts).place()),
        forall|cat: Category| #[trigger]
            is_last_greatest(amounts, cat.place()) ==> cat == greatest_of(amounts),
{
    let place = lemma_last_greatest(amounts, 5);
    assert(is_last_greatest(amounts.take(5), place));
    assert(amounts.take(5) =~= amounts);
    assert(Category::at(place).place() == place);
    let best = greatest_of(amounts);
    assert forall|cat: Category| #[trigger] is_last_greatest(amounts, cat.place()) implies cat
        == best by {
        assert(amounts[cat.place()].bits <= amounts[best.place()].bits);
        assert(amounts[best.place()].bits <= amounts[cat.place()].bits);
        lemma_place_injective(cat, best);
    }
}

/// Among the first `n` amounts one is the greatest that comes last.
proof fn lemma_last_greatest(amounts: Seq<Quantity>, n: int) -> (place: int)
    requires
        0 < n <= amounts.len(),
    ensures
        is_last_greatest(amounts.take(n), place),
    decreases n,
{
    let all = amounts.take(n);
    if n == 1 {
        0
    } else {
        let before = amounts.take(n - 1);
        let place = lemma_last_greatest(amounts, n - 1);
        assert forall|c: int| 0 <= c < n - 1 implies #[trigger] all[c] == before[c] by {}
        if all[n - 1].bits >= before[place].bits {
            n - 1
        } else {
            place
        }
    }
}

/// Two categories with one place are the same.
proof fn lemma_place_injective(a: Category, b: Category)
    ensures
        a.place() == b.place() ==> a == b,
{
}

/// The category with the greatest amount, the last one of several.
pub fn greatest(amounts: &[Quantity; 5]) -> (r: Category)
    ensures
        r == greatest_of(amounts@),
        is_last_greatest(amounts@, r.place()),
{
    let mut best: usize = 0;
    let mut c: usize = 1;
    while c < 5
        invariant
            best < c <= 5,
            forall|k: int| 0 <= k < c ==> (#[trigger] amounts@[k]).bits <= amounts@[best as int].bits,
            forall|k: int|
                best < k < c ==> (#[trigger] amounts@[k]).bits < amounts@[best as int].bits,
        decreases 5 - c,
    {
        if amounts[c].bits >= amounts[best].bits {
            best = c;
        }
        c = c + 1;
    }
    let cat: Category = Category::ALL[best];
    proof {
        assert(is_last_greatest(amounts@, cat.place()));
        lemma_greatest_of(amounts@);
    }
    cat
}

/// A row of the browser: one child of the directory that is shown.
#[derive(Debug, Clone)]
pub struct DirRow {
    pub name: String,
    pub total_bytes: Quantity,
    pub total_samples: u64,
    pub bytes_by_category: [Quantity; 5],
    pub samples_by_category: [u64; 5],
    pub has_children: bool,
    pub inode: Option<u64>,
}

impl DirRow {
    pub open spec fn wf(self) -> bool {
        &&& self.total_bytes.wf()
        &&& forall|c: int| 0 <= c < 5 ==> (#[trigger] self.bytes_by_category@[c]).wf()
    }

    /// The estimated size of one category.
    pub fn bytes_for(&self, cat: Category) -> (r: Quantity)
        ensures
            r == self.bytes_by_category@[cat.place()],
    {
        self.bytes_by_category[cat.index()]
    }

    /// The samples of one category.
    pub fn samples_for(&self, cat: Category) -> (r: u64)
        ensures
            r == self.samples_by_category@[cat.place()],
    {
        self.samples_by_category[cat.index()]
    }

    /// The category that most of the row belongs to, none if the row is empty.
    pub open spec fn dominant(self) -> Option<Category> {
        if self.total_bytes.bits > 0 {
            Some(greatest_of(self.bytes_by_category@))
        } else {
            None
        }
    }

    /// The category that most of the row belongs to, none if the row is empty.
    pub fn dominant_category(&self) -> (r: Option<Category>)
        ensures
            r == self.dominant(),
            match r {
                Some(cat) => self.total_bytes.bits > 0 && is_last_greatest(
                    self.bytes_by_category@,
                    cat.place(),
                ),
                None => self.total_bytes.bits == 0,
            },
    {
        if self.total_bytes.bits > 0 {
            Some(greatest(&self.bytes_by_category))
        } else {
            None
        }
    }
}

/// A stretch of a device on the map.
#[derive(Debug, Clone, Copy)]
pub struct MapCell {
    pub hits: [Quantity; 5],
    pub count: u64,
}

impl MapCell {
    pub open spec fn wf(self) -> bool {
        forall|c: int| 0 <= c < 5 ==> (#[trigger] self.hits@[c]).bits <= power_bits(53)
    }

    /// A cell that no sample has hit.
    pub open spec fn is_blank(self) -> bool {
        &&& self.count == 0
        &&& self.hits@ == Seq::new(5, |c: int| Quantity { bits: 0 })
    }
}

impl Default for MapCell {
    /// A cell without samples.
    fn default() -> (r: MapCell)
        ensures
            r.is_blank(),
            r.wf(),
    {
        let none: Quantity = Quantity { bits: 0 };
        let r: MapCell = MapCell { hits: [none, none, none, none, none], count: 0 };
        proof {
            assert(r.hits@ =~= Seq::new(5, |c: int| Quantity { bits: 0 }));
        }
        r
    }
}

/// The map of one device.
#[derive(Debug, Clone)]
pub struct DeviceMap {
    pub devid: u64,
    pub path: String,
    pub total_bytes: u64,
    pub cells: Vec<MapCell>,
}

impl DeviceMap {
    pub open spec fn wf(self) -> bool {
        &&& self.cells@.len() > 0
        &&& forall|i: int| 0 <= i < self.cells@.len() ==> (#[trigger] self.cells@[i]).wf()
    }

    /// A map of a device of `total_bytes` with at least one cell, all of them blank.
    pub fn new(devid: u64, path: String, total_bytes: u64, num_cells: usize) -> (r: DeviceMap)
        ensures
            r.wf(),
            r.devid == devid,
            r.path == path,
            r.total_bytes == total_bytes,
            r.cells@.len() == (if num_cells > 1 {
                num_cells as nat
            } else {
                1
            }),
            forall|i: int| 0 <= i < r.cells@.len() ==> (#[trigger] r.cells@[i]).is_blank(),
    {
        let count: usize = if num_cells > 1 {
            num_cells
        } else {
            1
        };
        let mut cells: Vec<MapCell> = Vec::new();
        let mut i: usize = 0;
        while i < count
            invariant
                i <= count,
                cells@.len() == i,
                forall|j: int| 0 <= j < i ==> (#[trigger] cells@[j]).is_blank() && cells@[j].wf(),
            decreases count - i,
        {
            cells.push(MapCell::default());
            i = i + 1;
        }
        DeviceMap { devid, path, total_bytes, cells }
    }

    /// The cell that a byte offset on the device falls into: the offset as a fraction of
    /// the device, of the number of cells. Offsets past the end fall into the last cell.
    pub open spec fn cell_of(self, offset: u64) -> int {
        if self.total_bytes == 0 {
            0
        } else {
            let fraction = Quantity::of(offset as nat).quotient(
                Quantity::of(self.total_bytes as nat),
            );
            let cell = fraction.product(Quantity::of(self.cells@.len())).whole_part() as int;
            if cell < self.cells@.len() - 1 {
                cell
            } else {
                self.cells@.len() - 1
            }
        }
    }

    /// The cells follow each other as the offsets do.
    pub proof fn law_cells_in_order(self, offset: u64, further: u64)
        requires
            offset <= further,
        ensures
            self.cell_of(offset) <= self.cell_of(further),
    {
        assert(self.cells@.len() == self.cells.len());
        if self.total_bytes > 0 {
            let size = Quantity::of(self.total_bytes as nat);
            let cells = Quantity::of(self.cells@.len());
            let a = Quantity::of(offset as nat);
            let b = Quantity::of(further as nat);
            lemma_of_bounds(offset as nat);
            lemma_of_bounds(further as nat);
            lemma_of_bounds(self.total_bytes as nat);
            lemma_of_bounds(self.cells@.len());
            lemma_of_monotone(offset as nat, further as nat);
            lemma_quotient_monotone(a, b, size, size);
            lemma_quotient_monotone(b, b, size, size);
            lemma_product_monotone(a.quotient(size), b.quotient(size), cells);
            lemma_whole_part_monotone(
                a.quotient(size).product(cells),
                b.quotient(size).product(cells),
            );
        }
    }

    /// A cell lies as far along the map as its offsets along the device: the cells before it
    /// times the size of the device are not more than the offset times the number of cells,
    /// and with one cell more they are not less, save for the last cell, but for fourteen parts
    /// in 2 to the power of 52.
    pub proof fn law_cell_in_proportion(self, offset: u64)
        requires
            self.cells@.len() > 0,
            self.total_bytes > 0,
        ensures
            at_most(
                self.cell_of(offset) as nat * self.total_bytes as nat,
                offset as nat * self.cells@.len(),
                14,
            ),
            self.cell_of(offset) < self.cells@.len() - 1 ==> at_most(
                offset as nat * self.cells@.len(),
                (self.cell_of(offset) + 1) as nat * self.total_bytes as nat,
                14,
            ),
    {
        assert(self.cells@.len() == self.cells.len());
        let n = self.cells@.len();
        let t = self.total_bytes as nat;
        let one = one_units();
        let cell = self.cell_of(offset);
        lemma_pow2_pos(1074);
        if offset == 0 {
            lemma_of_bounds(0);
            let size = Quantity::of(t);
            let cells = Quantity::of(n);
            lemma_of_bounds(t);
            lemma_of_bounds(n);
            let none = Quantity { bits: 0 };
            lemma_quotient_shrinks(none, size);
            let c = cells.amount();
            assert(units(0) == 0);
            assert(0 * c == 0) by (nonlinear_arith);
            lemma_nearest_exact(0 * c, one, 0);
            assert(0nat / one == 0) by (nonlinear_arith)
                requires
                    one > 0,
            ;
            assert(cell as nat * t == 0 && offset as nat * n == 0) by (nonlinear_arith)
                requires
                    cell == 0,
                    offset == 0,
            ;
            lemma_close_same(0, 14);
            lemma_at_most_less(0, 0, 0, (cell + 1) as nat * t, 14);
        } else {
            let a = Quantity::of(offset as nat);
            lemma_of_close(offset as nat);
            lemma_pow2_strictly_increases(174, 1074);
            lemma_pow2_strictly_increases(1138, 1974);
            lemma_share_close(a, t, n);
            let x = a.quotient(Quantity::of(t)).product(Quantity::of(n)).amount();
            // x t ~ a n ~ offset n one
            lemma_close_scale(a.amount(), offset as nat * one, 2, n);
            lemma_close_chain(x * t, a.amount() * n, (offset as nat * one) * n, 11, 2);
            let w = x / one;
            lemma_fundamental_div_mod(x as int, one as int);
            assert(one * w == w * one) by (nonlinear_arith);
            assert((w + 1) * one == w * one + one) by (nonlinear_arith);
            assert((offset as nat * one) * n == (offset as nat * n) * one) by (nonlinear_arith);
            let c = cell as nat;
            assert(c <= w);
            assert((c * t) * one <= x * t) by (nonlinear_arith)
                requires
                    c <= w,
                    w * one <= x,
            ;
            lemma_at_most_less(
                (c * t) * one,
                x * t,
                (offset as nat * n) * one,
                (offset as nat * n) * one,
                14,
            );
            lemma_at_most_cancel(c * t, offset as nat * n, 14, one);
            if cell < n - 1 {
                let e = (cell + 1) as nat;
                assert(x * t <= (e * t) * one) by (nonlinear_arith)
                    requires
                        x <= e * one,
                ;
                lemma_at_most_less(
                    (offset as nat * n) * one,
                    (offset as nat * n) * one,
                    x * t,
                    (e * t) * one,
                    14,
                );
                lemma_at_most_cancel(offset as nat * n, e * t, 14, one);
            }
        }
    }

    /// The device starts in the first cell, and what lies past its end falls into the last
    /// one. A device without a size has all offsets in the first cell.
    pub proof fn law_first_and_last_cell(self, offset: u64)
        requires
            0 < self.cells@.len() <= pow2(53),
        ensures
            self.cell_of(0) == 0,
            0 < self.total_bytes <= offset ==> self.cell_of(offset) == self.cells@.len() - 1,
            self.total_bytes == 0 ==> self.cell_of(offset) == 0,
            0 <= self.cell_of(offset) < self.cells@.len(),
    {
        assert(self.cells@.len() == self.cells.len());
        if self.total_bytes > 0 {
            let n = self.cells@.len();
            let size = Quantity::of(self.total_bytes as nat);
            let cells = Quantity::of(n);
            let one = one_units();
            lemma_of_bounds(0);
            lemma_of_bounds(offset as nat);
            lemma_of_bounds(self.total_bytes as nat);
            lemma_of_bounds(n);
            lemma_pow2_pos(1074);
            // Nothing of the device is no cell.
            let none = Quantity { bits: 0 };
            lemma_quotient_shrinks(none, size);
            let c = cells.amount();
            assert(units(0) == 0);
            assert(0 * c == 0) by (nonlinear_arith);
            lemma_nearest_exact(0 * c, one, 0);
            assert(0nat / one == 0) by (nonlinear_arith)
                requires
                    one > 0,
            ;
            if self.total_bytes <= offset {
                // All of the device is all of its cells.
                let a = Quantity::of(offset as nat);
                lemma_of_monotone(self.total_bytes as nat, offset as nat);
                lemma_quotient_monotone(size, a, size, size);
                lemma_quotient_monotone(a, a, size, size);
                lemma_one_is_neutral(size);
                lemma_one_is_neutral(cells);
                lemma_of_bounds(1);
                lemma_product_monotone(Quantity::of(1), a.quotient(size), cells);
                lemma_of_exact(n);
                lemma_whole_part_monotone(cells, a.quotient(size).product(cells));
                assert((n * one) / one == n) by (nonlinear_arith)
                    requires
                        one > 0,
                ;
            }
        }
    }

    /// The index of the cell that `offset` falls into.
    pub fn cell_index(&self, offset: u64) -> (r: usize)
        requires
            self.cells@.len() > 0 || self.total_bytes == 0,
        ensures
            r == self.cell_of(offset),
            self.cells@.len() > 0 ==> r < self.cells@.len(),
    {
        if self.total_bytes == 0 {
            return 0;
        }
        let cells: usize = self.cells.len();
        proof {
            lemma_of_bounds(offset as nat);
            lemma_of_bounds(self.total_bytes as nat);
            lemma_of_bounds(cells as nat);
        }
        let fraction: Quantity = Quantity::from_u64(offset).over(
            Quantity::from_u64(self.total_bytes),
        );
        let cell: usize = fraction.times(Quantity::from_u64(cells as u64)).truncate();
        if cell < cells - 1 {
            cell
        } else {
            cells - 1
        }
    }
}

} // verus!
