//! Adding samples up.
use crate::model::{
    children_number, total_number, Child, DeviceMap, MapCell, NodeView, Sample, TreeNode,
};
use crate::quantity::{
    law_counting_is_exact, lemma_of_bounds, lemma_power_bits, lemma_sum_grows, lemma_sum_monotone,
    lemma_sum_with_weight, power_bits, Quantity,
};
use vstd::arithmetic::power2::{lemma2_to64_rest, pow2};
use vstd::prelude::*;

verus! {

/// What stands at `at` once a sample with the given path has been added.
pub open spec fn grown(
    before: Option<NodeView>,
    at: Seq<Seq<char>>,
    path: Seq<Seq<char>>,
    sample: Sample,
) -> Option<NodeView> {
    if at.is_prefix_of(path) {
        let node = match before {
            Some(node) => node,
            None => NodeView::empty(),
        };
        Some(
            node.plus(
                sample,
                if at.len() < path.len() {
                    Some(path[at.len() as int])
                } else {
                    None
                },
            ),
        )
    } else {
        before
    }
}

/// One more sample of one category is one more in all.
proof fn lemma_total_number_update(counts: Seq<u64>, c: int)
    requires
        counts.len() == 5,
        0 <= c < 5,
        counts[c] < u64::MAX,
    ensures
        total_number(counts.update(c, (counts[c] + 1) as u64)) == total_number(counts) + 1,
{
    reveal_with_fuel(total_number, 6);
}

/// No category has more samples than all of them together.
pub proof fn lemma_number_within_total(counts: Seq<u64>, c: int)
    requires
        counts.len() == 5,
        0 <= c < 5,
    ensures
        counts[c] <= total_number(counts),
{
    reveal_with_fuel(total_number, 6);
}

/// Adds a sample to one node.
fn apply(node: &mut TreeNode, sample: &Sample)
    requires
        sample.wf(),
        old(node).totals_wf(),
        total_number(old(node).counts@) < u64::MAX,
    ensures
        final(node).shape() == old(node).shape().plus(*sample, None),
        final(node).children == old(node).children,
        final(node).index == old(node).index,
        final(node).totals_wf(),
        total_number(final(node).counts@) == total_number(old(node).counts@) + 1,
{
    let c: usize = sample.category.index();
    proof {
        lemma_number_within_total(node.counts@, c as int);
        lemma_total_number_update(node.counts@, c as int);
        lemma_sum_with_weight(node.hits@[c as int], sample.weight);
        lemma_power_bits(53);
        lemma_power_bits(0);
    }
    let hits: Quantity = node.hits[c].plus(sample.weight);
    node.hits[c] = hits;
    let count: u64 = node.counts[c] + 1;
    node.counts[c] = count;
    if sample.inode.is_some() {
        node.inode = sample.inode;
    }
    proof {
        assert(node.shape() =~= old(node).shape().plus(*sample, None));
    }
}

/// The count of one child is part of that of all.
proof fn lemma_child_number(children: Seq<Child>, i: int, c: int)
    requires
        0 <= i < children.len(),
    ensures
        children[i].node.counts@[c] <= children_number(children, c),
    decreases children.len(),
{
    if i < children.len() - 1 {
        lemma_child_number(children.drop_last(), i, c);
    }
}

/// Counts that are greater category by category are greater in all.
proof fn lemma_total_number_monotone(a: Seq<u64>, b: Seq<u64>)
    requires
        a.len() == b.len(),
        forall|c: int| 0 <= c < a.len() ==> a[c] <= b[c],
    ensures
        total_number(a) <= total_number(b),
    decreases a.len(),
{
    if a.len() > 0 {
        lemma_total_number_monotone(a.drop_last(), b.drop_last());
    }
}

/// Replacing one child changes the sum by what that child changes.
proof fn lemma_children_number_update(children: Seq<Child>, i: int, child: Child, c: int)
    requires
        0 <= i < children.len(),
    ensures
        children_number(children.update(i, child), c) + children[i].node.counts@[c]
            == children_number(children, c) + child.node.counts@[c],
    decreases children.len(),
{
    let after = children.update(i, child);
    if i < children.len() - 1 {
        lemma_children_number_update(children.drop_last(), i, child, c);
        assert(after.drop_last() =~= children.drop_last().update(i, child));
    } else {
        assert(after.drop_last() =~= children.drop_last());
    }
}

/// The names of the children hold exactly the names of the index.
proof fn lemma_names_contain(node: TreeNode, name: Seq<char>)
    requires
        node.index_wf(),
    ensures
        node.child_names().contains(name) <==> node.index@.contains_key(name),
{
    if node.index@.contains_key(name) {
        let i = node.index@[name] as int;
        assert(node.child_names()[i] == name);
    }
    if node.child_names().contains(name) {
        let i = choose|i: int| 0 <= i < node.child_names().len() && node.child_names()[i] == name;
        assert(node.children@[i].name@ == name);
    }
}

/// The amounts and counts of `after` are those of `before` with one more sample.
spec fn has_applied(before: TreeNode, after: TreeNode, sample: Sample) -> bool {
    let more = before.shape().plus(sample, None);
    &&& after.hits@ == more.hits
    &&& after.counts@ == more.counts
    &&& after.inode == more.inode
    &&& after.totals_wf()
}

/// One more sample leaves no amount smaller.
proof fn lemma_applied_grows(before: TreeNode, after: TreeNode, sample: Sample)
    requires
        before.wf(),
        sample.wf(),
        total_number(before.counts@) < u64::MAX,
        has_applied(before, after, sample),
    ensures
        forall|c: int|
            0 <= c < 5 ==> (#[trigger] before.hits@[c]).bits <= after.hits@[c].bits
                && before.counts@[c] <= after.counts@[c],
        after.counts@[sample.category.place()] == before.counts@[sample.category.place()] + 1,
{
    let k = sample.category.place();
    lemma_power_bits(53);
    lemma_power_bits(0);
    lemma_number_within_total(before.counts@, k);
    assert(before.hits@[k].wf());
    lemma_sum_grows(before.hits@[k], sample.weight);
}

/// A sample that ends at a node changes nothing below it.
proof fn lemma_leaf(n0: TreeNode, n1: TreeNode, sample: Sample)
    requires
        n0.wf(),
        sample.wf(),
        total_number(n0.counts@) < u64::MAX,
        n1.children == n0.children,
        n1.index == n0.index,
        has_applied(n0, n1, sample),
    ensures
        n1.wf(),
        forall|at: Seq<Seq<char>>| #[trigger]
            n1.at(at) == grown(n0.at(at), at, Seq::empty(), sample),
{
    lemma_applied_grows(n0, n1, sample);
    assert(n1.wf());
    assert forall|at: Seq<Seq<char>>| #[trigger] n1.at(at) == grown(
        n0.at(at),
        at,
        Seq::empty(),
        sample,
    ) by {
        if at.len() == 0 {
            assert(at =~= Seq::empty());
            assert(n1.shape() =~= n0.shape().plus(sample, None));
        }
    }
}

/// A sample that goes on below a node changes the node and what stands below the next
/// name, and nothing else.
proof fn lemma_branch(
    n0: TreeNode,
    n2: TreeNode,
    n3: TreeNode,
    i: int,
    path: Seq<Seq<char>>,
    sample: Sample,
)
    requires
        n0.wf(),
        sample.wf(),
        total_number(n0.counts@) < u64::MAX,
        path.len() > 0,
        n0.index@.contains_key(path[0]) ==> n2.children == n0.children && n2.index == n0.index && i
            == n0.index@[path[0]],
        !n0.index@.contains_key(path[0]) ==> {
            &&& i == n0.children@.len()
            &&& n2.children@.len() == i + 1
            &&& n2.children@.drop_last() == n0.children@
            &&& n2.children@[i].name@ == path[0]
            &&& n2.children@[i].node.wf()
            &&& n2.children@[i].node.shape() == NodeView::empty()
            &&& forall|at: Seq<Seq<char>>|
                at.len() > 0 ==> #[trigger] n2.children@[i].node.at(at) is None
            &&& n2.index@ == n0.index@.insert(path[0], i as usize)
            &&& i <= usize::MAX
        },
        has_applied(n0, n2, sample),
        n3.index == n2.index,
        n3.hits == n2.hits,
        n3.counts == n2.counts,
        n3.inode == n2.inode,
        n3.children@ == n2.children@.update(i, n3.children@[i]),
        n3.children@[i].name == n2.children@[i].name,
        n3.children@[i].node.wf(),
        forall|at: Seq<Seq<char>>| #[trigger]
            n3.children@[i].node.at(at) == grown(
                n2.children@[i].node.at(at),
                at,
                path.drop_first(),
                sample,
            ),
    ensures
        n3.wf(),
        forall|at: Seq<Seq<char>>| #[trigger] n3.at(at) == grown(n0.at(at), at, path, sample),
{
    let name = path[0];
    let k = sample.category.place();
    let was = n2.children@[i].node;
    let now = n3.children@[i].node;
    let none = Seq::<Seq<char>>::empty();
    lemma_applied_grows(n0, n2, sample);
    lemma_names_contain(n0, name);
    assert(now.at(none) == grown(was.at(none), none, path.drop_first(), sample));
    assert(none.is_prefix_of(path.drop_first()));
    assert(now.hits@ == was.hits@.update(k, was.hits@[k].sum(sample.weight)));
    assert(now.counts@ == was.counts@.update(k, (was.counts@[k] + 1) as u64));
    // Counts of the children.
    assert forall|c: int| 0 <= c < 5 implies #[trigger] children_number(n3.children@, c)
        <= n3.counts@[c] by {
        lemma_children_number_update(n2.children@, i, n3.children@[i], c);
        assert(children_number(n2.children@, c) == children_number(n0.children@, c));
        assert(children_number(n0.children@, c) <= n0.counts@[c]);
        lemma_child_number(n2.children@, i, c);
    }
    // Amounts of the children.
    assert forall|j: int, c: int| 0 <= j < n3.children@.len() && 0 <= c < 5 implies (
    #[trigger] n3.children@[j].node.hits@[c]).bits <= n3.hits@[c].bits by {
        lemma_power_bits(53);
        lemma_power_bits(0);
        if j == i {
            assert(was.hits@[c].bits <= n0.hits@[c].bits) by {
                if n0.index@.contains_key(name) {
                    assert(n0.children@[i].node.hits@[c] == was.hits@[c]);
                } else {
                    assert(was.shape().hits[c].bits == 0);
                }
            }
            assert(n0.hits@[c].wf());
            if c == k {
                lemma_sum_monotone(was.hits@[c], n0.hits@[c], sample.weight);
            }
        } else {
            assert(n3.children@[j] == n2.children@[j]);
            assert(n2.children@[j] == n0.children@[j]);
            assert(n0.children@[j].node.hits@[c].bits <= n0.hits@[c].bits);
        }
    }
    assert(n3.children_wf());
    // The index.
    assert forall|j: int| 0 <= j < n3.children@.len() implies {
        &&& n3.index@.contains_key((#[trigger] n3.children@[j]).name@)
        &&& n3.index@[n3.children@[j].name@] == j
    } by {
        assert(n3.children@[j].name == n2.children@[j].name);
        if j < n0.children@.len() {
            assert(n2.children@[j] == n0.children@[j]);
        }
    }
    assert forall|other: Seq<char>| #[trigger] n3.index@.contains_key(other) implies {
        &&& n3.index@[other] < n3.children@.len()
        &&& n3.children@[n3.index@[other] as int].name@ == other
    } by {
        if n0.index@.contains_key(other) {
            let j = n0.index@[other] as int;
            assert(n0.children@[j].name@ == other);
            assert(n2.children@[j] == n0.children@[j]);
        }
    }
    assert(n3.index_wf());
    assert forall|j: int| 0 <= j < n3.children@.len() implies (
    #[trigger] n3.children@[j]).node.wf() by {
        if j != i {
            assert(n3.children@[j] == n2.children@[j]);
            assert(n2.children@[j] == n0.children@[j]);
        }
    }
    assert(n3.wf());
    // What stands where.
    assert forall|at: Seq<Seq<char>>| #[trigger] n3.at(at) == grown(
        n0.at(at),
        at,
        path,
        sample,
    ) by {
        if at.len() == 0 {
            let more = n0.shape().plus(sample, Some(name));
            assert(n3.child_names() =~= more.children) by {
                assert(n3.child_names().len() == n2.children@.len());
                assert forall|j: int| 0 <= j < n3.child_names().len() implies n3.child_names()[j]
                    == more.children[j] by {
                    assert(n3.child_names()[j] == n2.children@[j].name@);
                    if j < n0.children@.len() {
                        assert(n2.children@[j] == n0.children@[j]);
                        assert(n0.child_names()[j] == n0.children@[j].name@);
                    }
                }
            }
            assert(n3.shape() =~= more);
        } else {
            let rest = at.drop_first();
            lemma_prefix_first(at, path);
            if at[0] == name {
                assert(n3.at(at) == now.at(rest));
                if n0.index@.contains_key(name) {
                    assert(n0.at(at) == was.at(rest));
                } else {
                    assert(n0.at(at) is None);
                    if rest.len() == 0 {
                        assert(was.at(rest) == Some(NodeView::empty()));
                        assert(rest.is_prefix_of(path.drop_first()));
                    }
                }
                assert(rest.len() < path.drop_first().len() ==> path.drop_first()[rest.len() as int]
                    == path[at.len() as int]);
            } else {
                assert(!at.is_prefix_of(path));
                assert(n3.index@.contains_key(at[0]) == n0.index@.contains_key(at[0]));
                if n0.index@.contains_key(at[0]) {
                    let j = n0.index@[at[0]] as int;
                    assert(n3.index@[at[0]] == j);
                    assert(n0.children@[j].name@ == at[0]);
                    assert(n2.children@[j] == n0.children@[j]);
                    assert(j != i);
                    assert(n3.children@[j] == n2.children@[j]);
                }
            }
        }
    }
}

/// A path is a prefix of another if the first names agree and so do the rests.
proof fn lemma_prefix_first(a: Seq<Seq<char>>, b: Seq<Seq<char>>)
    requires
        a.len() > 0,
        b.len() > 0,
    ensures
        a.is_prefix_of(b) <==> a[0] == b[0] && a.drop_first().is_prefix_of(b.drop_first()),
{
    if a.is_prefix_of(b) {
        assert(a[0] == b.subrange(0, a.len() as int)[0]);
        assert forall|i: int| 0 <= i < a.drop_first().len() implies a.drop_first()[i]
            == b.drop_first().subrange(0, a.len() - 1)[i] by {
            assert(a[i + 1] == b.subrange(0, a.len() as int)[i + 1]);
        }
        assert(a.drop_first() =~= b.drop_first().subrange(0, a.len() - 1));
    }
    if a[0] == b[0] && a.drop_first().is_prefix_of(b.drop_first()) {
        assert forall|i: int| 0 <= i < a.len() implies a[i] == b.subrange(0, a.len() as int)[i] by {
            if i > 0 {
                assert(a.drop_first()[i - 1] == b.drop_first().subrange(0, a.len() - 1)[i - 1]);
            }
        }
        assert(a =~= b.subrange(0, a.len() as int));
    }
}

/// Adds a sample to a node and to the nodes below it that the rest of the path, from
/// `depth` on, leads through.
fn insert_below(node: &mut TreeNode, sample: &Sample, depth: usize)
    requires
        old(node).wf(),
        sample.wf(),
        depth <= sample.path_components@.len(),
        total_number(old(node).counts@) < u64::MAX,
    ensures
        final(node).wf(),
        forall|at: Seq<Seq<char>>| #[trigger]
            final(node).at(at) == grown(
                old(node).at(at),
                at,
                sample.path().skip(depth as int),
                *sample,
            ),
    decreases sample.path_components@.len() - depth,
{
    let ghost n0 = *node;
    let ghost path = sample.path().skip(depth as int);
    apply(node, sample);
    if depth == sample.path_components.len() {
        proof {
            lemma_leaf(n0, *node, *sample);
            assert(path =~= Seq::empty());
        }
        return;
    }
    let name: &String = &sample.path_components[depth];
    proof {
        assert(path[0] == name@);
        lemma_names_contain(n0, name@);
    }
    let known: Option<usize> = match node.index.get(name.as_str()) {
        Some(i) => Some(*i),
        None => None,
    };
    let i: usize = match known {
        Some(i) => i,
        None => {
            let i: usize = node.children.len();
            node.children.push(Child { name: name.clone(), node: TreeNode::default() });
            node.index.insert(name.clone(), i);
            i
        },
    };
    let ghost n2 = *node;
    proof {
        assert(n2.children@[i as int].node.wf());
        assert forall|c: int| 0 <= c < 5 implies n2.children@[i as int].node.counts@[c]
            <= n0.counts@[c] by {
            if known is Some {
                lemma_child_number(n0.children@, i as int, c);
                assert(children_number(n0.children@, c) <= n0.counts@[c]);
            }
        }
        lemma_total_number_monotone(n2.children@[i as int].node.counts@, n0.counts@);
        if known is None {
            assert(n2.children@.drop_last() =~= n0.children@);
            assert(n2.index@ == n0.index@.insert(path[0], i));
            assert forall|at: Seq<Seq<char>>| at.len() > 0 implies (
            #[trigger] n2.children@[i as int].node.at(at)) is None by {}
        }
    }
    insert_below(&mut node.children[i].node, sample, depth + 1);
    proof {
        assert(path.drop_first() =~= sample.path().skip(depth + 1));
        lemma_branch(n0, n2, *node, i as int, path, *sample);
    }
}

/// Adds a sample to the root and to every node on its path.
pub fn insert(root: &mut TreeNode, sample: &Sample)
    requires
        old(root).wf(),
        sample.wf(),
        total_number(old(root).counts@) < u64::MAX,
    ensures
        final(root).wf(),
        forall|at: Seq<Seq<char>>| #[trigger]
            final(root).at(at) == grown(old(root).at(at), at, sample.path(), *sample),
{
    insert_below(root, sample, 0);
    proof {
        assert(sample.path().skip(0) =~= sample.path());
    }
}

/// The number of cells on the map of each device.
pub const MAP_CELLS_PER_DEVICE: usize = 512;

/// What one draw came to: a sample for each path that the drawn address belongs to.
pub struct DrawResult {
    pub samples: Vec<Sample>,
}

/// Everything that the draws have added up to so far.
pub struct SharedState {
    pub tree: TreeNode,
    pub total_draws: u64,
    pub universe_bytes: u64,
    pub disk_map: Vec<DeviceMap>,
}

/// A cell of the map, its hits as a sequence.
#[verifier::ext_equal]
pub struct CellView {
    pub hits: Seq<Quantity>,
    pub count: nat,
}

impl CellView {
    /// The cell with one more sample.
    pub open spec fn plus(self, sample: Sample) -> CellView {
        let c = sample.category.place();
        CellView {
            hits: self.hits.update(c, self.hits[c].sum(sample.weight)),
            count: self.count + 1,
        }
    }
}

pub open spec fn cell_view(cell: MapCell) -> CellView {
    CellView { hits: cell.hits@, count: cell.count as nat }
}

/// The samples in the cells, added up.
pub open spec fn cells_number(cells: Seq<MapCell>) -> nat
    decreases cells.len(),
{
    if cells.len() == 0 {
        0
    } else {
        cells_number(cells.drop_last()) + cells.last().count as nat
    }
}

/// No cell has more samples than all of them.
pub proof fn lemma_cell_within(cells: Seq<MapCell>, i: int)
    requires
        0 <= i < cells.len(),
    ensures
        cells[i].count <= cells_number(cells),
    decreases cells.len(),
{
    if i < cells.len() - 1 {
        lemma_cell_within(cells.drop_last(), i);
    }
}

/// Replacing a cell changes the sum by what the cell changes.
proof fn lemma_cells_number_update(cells: Seq<MapCell>, i: int, cell: MapCell)
    requires
        0 <= i < cells.len(),
    ensures
        cells_number(cells.update(i, cell)) + cells[i].count == cells_number(cells) + cell.count,
    decreases cells.len(),
{
    let after = cells.update(i, cell);
    if i < cells.len() - 1 {
        lemma_cells_number_update(cells.drop_last(), i, cell);
        assert(after.drop_last() =~= cells.drop_last().update(i, cell));
    } else {
        assert(after.drop_last() =~= cells.drop_last());
    }
}

/// Blank cells have no samples.
proof fn lemma_blank_cells(cells: Seq<MapCell>)
    requires
        forall|i: int| 0 <= i < cells.len() ==> (#[trigger] cells[i]).is_blank(),
    ensures
        cells_number(cells) == 0,
    decreases cells.len(),
{
    if cells.len() > 0 {
        assert(cells.last().is_blank());
        assert forall|i: int| 0 <= i < cells.drop_last().len() implies (
        #[trigger] cells.drop_last()[i]).is_blank() by {
            assert(cells[i].is_blank());
        }
        lemma_blank_cells(cells.drop_last());
    }
}

/// `d` is the first device of the map with the given number.
pub open spec fn is_device(map: Seq<DeviceMap>, d: int, devid: u64) -> bool {
    &&& 0 <= d < map.len()
    &&& map[d].devid == devid
    &&& forall|e: int| 0 <= e < d ==> (#[trigger] map[e]).devid != devid
}

/// The sample lies in cell `i` of device `d`.
pub open spec fn lies_in(map: Seq<DeviceMap>, sample: Sample, d: int, i: int) -> bool {
    match sample.physical {
        Some((devid, offset)) => is_device(map, d, devid) && map[d].cell_of(offset) == i,
        None => false,
    }
}

/// What stands at `at` once all the samples have been added in turn.
pub open spec fn tree_after(
    before: Option<NodeView>,
    at: Seq<Seq<char>>,
    samples: Seq<Sample>,
) -> Option<NodeView>
    decreases samples.len(),
{
    if samples.len() == 0 {
        before
    } else {
        grown(
            tree_after(before, at, samples.drop_last()),
            at,
            samples.last().path(),
            samples.last(),
        )
    }
}

/// Cell `i` of device `d` once all the samples have been added in turn.
pub open spec fn cell_after(map: Seq<DeviceMap>, d: int, i: int, samples: Seq<Sample>) -> CellView
    decreases samples.len(),
{
    if samples.len() == 0 {
        cell_view(map[d].cells@[i])
    } else {
        let before = cell_after(map, d, i, samples.drop_last());
        if lies_in(map, samples.last(), d, i) {
            before.plus(samples.last())
        } else {
            before
        }
    }
}

/// The two maps have the same devices and the same numbers of cells.
pub open spec fn same_layout(a: Seq<DeviceMap>, b: Seq<DeviceMap>) -> bool {
    &&& a.len() == b.len()
    &&& forall|d: int|
        0 <= d < a.len() ==> {
            &&& (#[trigger] a[d]).devid == b[d].devid
            &&& a[d].path == b[d].path
            &&& a[d].total_bytes == b[d].total_bytes
            &&& a[d].cells@.len() == b[d].cells@.len()
        }
}

/// Where a sample lies does not depend on what the cells hold.
proof fn lemma_lies_in_layout(
    a: Seq<DeviceMap>,
    b: Seq<DeviceMap>,
    sample: Sample,
    d: int,
    i: int,
)
    requires
        same_layout(a, b),
    ensures
        lies_in(a, sample, d, i) == lies_in(b, sample, d, i),
{
    if let Some((devid, offset)) = sample.physical {
        if is_device(a, d, devid) {
            assert forall|e: int| 0 <= e < d implies (#[trigger] b[e]).devid != devid by {
                assert(a[e].devid == b[e].devid);
            }
            assert(is_device(b, d, devid));
        }
        if is_device(b, d, devid) {
            assert forall|e: int| 0 <= e < d implies (#[trigger] a[e]).devid != devid by {
                assert(a[e].devid == b[e].devid);
                assert(b[e].devid != devid);
            }
            assert(is_device(a, d, devid));
        }
    }
}

impl SharedState {
    /// No device of the map has more samples than the tree.
    pub open spec fn wf(self) -> bool {
        &&& self.tree.wf()
        &&& forall|d: int|
            0 <= d < self.disk_map@.len() ==> {
                &&& (#[trigger] self.disk_map@[d]).wf()
                &&& cells_number(self.disk_map@[d].cells@) <= total_number(self.tree.counts@)
            }
    }

    /// The draw can be added without a count running over.
    pub open spec fn takes(self, draw: DrawResult) -> bool {
        &&& total_number(self.tree.counts@) + draw.samples@.len() <= u64::MAX
        &&& forall|i: int| 0 <= i < draw.samples@.len() ==> (#[trigger] draw.samples@[i]).wf()
    }

    /// The state before the first draw. Each device is given as its number, its path and
    /// its size.
    pub fn new(universe_bytes: u64, devices: Vec<(u64, String, u64)>) -> (r: SharedState)
        ensures
            r.wf(),
            r.tree.shape() == NodeView::empty(),
            forall|at: Seq<Seq<char>>| #[trigger] r.tree.at(at) == (if at.len() == 0 {
                Some(NodeView::empty())
            } else {
                None
            }),
            r.total_draws == 0,
            r.universe_bytes == universe_bytes,
            r.disk_map@.len() == devices@.len(),
            forall|d: int|
                0 <= d < devices@.len() ==> {
                    &&& (#[trigger] r.disk_map@[d]).devid == devices@[d].0
                    &&& r.disk_map@[d].path@ == devices@[d].1@
                    &&& r.disk_map@[d].total_bytes == devices@[d].2
                    &&& r.disk_map@[d].cells@.len() == MAP_CELLS_PER_DEVICE
                },
            forall|d: int, i: int|
                0 <= d < devices@.len() && 0 <= i < MAP_CELLS_PER_DEVICE ==> (
                #[trigger] r.disk_map@[d].cells@[i]).is_blank(),
    {
        let mut disk_map: Vec<DeviceMap> = Vec::new();
        let mut d: usize = 0;
        while d < devices.len()
            invariant
                d <= devices@.len(),
                disk_map@.len() == d,
                forall|e: int|
                    0 <= e < d ==> {
                        &&& (#[trigger] disk_map@[e]).devid == devices@[e].0
                        &&& disk_map@[e].path@ == devices@[e].1@
                        &&& disk_map@[e].total_bytes == devices@[e].2
                        &&& disk_map@[e].cells@.len() == MAP_CELLS_PER_DEVICE
                        &&& disk_map@[e].wf()
                        &&& cells_number(disk_map@[e].cells@) == 0
                    },
                forall|e: int, i: int|
                    0 <= e < d && 0 <= i < MAP_CELLS_PER_DEVICE ==> (
                    #[trigger] disk_map@[e].cells@[i]).is_blank(),
            decreases devices@.len() - d,
        {
            let device: &(u64, String, u64) = &devices[d];
            let blank: DeviceMap = DeviceMap::new(
                device.0,
                device.1.clone(),
                device.2,
                MAP_CELLS_PER_DEVICE,
            );
            proof {
                lemma_blank_cells(blank.cells@);
            }
            disk_map.push(blank);
            d = d + 1;
        }
        SharedState { tree: TreeNode::default(), total_draws: 0, universe_bytes, disk_map }
    }

    /// Whether the draw can be added without a count running over.
    pub fn has_room(&self, draw: &DrawResult) -> (r: bool)
        requires
            self.wf(),
        ensures
            r == self.takes(*draw),
    {
        let room: u64 = u64::MAX - self.tree.total_count();
        if draw.samples.len() as u64 > room {
            return false;
        }
        proof {
            lemma_power_bits(0);
        }
        let mut i: usize = 0;
        while i < draw.samples.len()
            invariant
                i <= draw.samples@.len(),
                power_bits(0) == 0x3FF0_0000_0000_0000,
                forall|j: int| 0 <= j < i ==> (#[trigger] draw.samples@[j]).wf(),
            decreases draw.samples@.len() - i,
        {
            if draw.samples[i].weight.bits > 0x3FF0_0000_0000_0000 {
                proof {
                    assert(!draw.samples@[i as int].wf());
                }
                return false;
            }
            i = i + 1;
        }
        true
    }

    /// Adds the samples of a draw to the map.
    fn mark(&mut self, draw: &DrawResult)
        requires
            forall|i: int| 0 <= i < draw.samples@.len() ==> (#[trigger] draw.samples@[i]).wf(),
            total_number(old(self).tree.counts@) <= u64::MAX,
            forall|d: int|
                0 <= d < old(self).disk_map@.len() ==> {
                    &&& (#[trigger] old(self).disk_map@[d]).wf()
                    &&& cells_number(old(self).disk_map@[d].cells@) + draw.samples@.len()
                        <= total_number(old(self).tree.counts@)
                },
        ensures
            final(self).tree == old(self).tree,
            final(self).total_draws == old(self).total_draws,
            final(self).universe_bytes == old(self).universe_bytes,
            forall|d: int|
                0 <= d < final(self).disk_map@.len() ==> {
                    &&& (#[trigger] final(self).disk_map@[d]).wf()
                    &&& cells_number(final(self).disk_map@[d].cells@) <= total_number(
                        old(self).tree.counts@,
                    )
                },
            same_layout(old(self).disk_map@, final(self).disk_map@),
            forall|d: int, i: int|
                0 <= d < old(self).disk_map@.len() && 0 <= i < old(self).disk_map@[d].cells@.len()
                    ==> cell_view(#[trigger] final(self).disk_map@[d].cells@[i]) == cell_after(
                    old(self).disk_map@,
                    d,
                    i,
                    draw.samples@,
                ),
    {
        let ghost map = self.disk_map@;
        let ghost samples = draw.samples@;
        let ghost total = total_number(self.tree.counts@);
        let mut k: usize = 0;
        proof {
            assert(samples.take(0) =~= Seq::empty());
        }
        while k < draw.samples.len()
            invariant
                samples == draw.samples@,
                map == old(self).disk_map@,
                k <= samples.len(),
                total <= u64::MAX,
                total == total_number(old(self).tree.counts@),
                forall|i: int| 0 <= i < samples.len() ==> (#[trigger] samples[i]).wf(),
                self.tree == old(self).tree,
                self.total_draws == old(self).total_draws,
                self.universe_bytes == old(self).universe_bytes,
                same_layout(map, self.disk_map@),
                forall|d: int|
                    0 <= d < self.disk_map@.len() ==> {
                        &&& (#[trigger] self.disk_map@[d]).wf()
                        &&& cells_number(self.disk_map@[d].cells@) + (samples.len() - k) <= total
                    },
                forall|d: int, i: int|
                    0 <= d < map.len() && 0 <= i < map[d].cells@.len() ==> cell_view(
                        #[trigger] self.disk_map@[d].cells@[i],
                    ) == cell_after(map, d, i, samples.take(k as int)),
            decreases samples.len() - k,
        {
            let sample: &Sample = &draw.samples[k];
            let ghost before = self.disk_map@;
            let ghost more = samples.take(k + 1);
            proof {
                assert(more.drop_last() =~= samples.take(k as int));
                assert(more.last() == *sample);
                assert(samples[k as int].wf());
            }
            match sample.physical {
                Some((devid, offset)) => {
                    match find_device(&self.disk_map, devid) {
                        Some(d) => {
                            let i: usize = self.disk_map[d].cell_index(offset);
                            let c: usize = sample.category.index();
                            let mut cell: MapCell = self.disk_map[d].cells[i];
                            proof {
                                assert(before[d as int].wf());
                                assert(before[d as int].cells@[i as int].wf());
                                lemma_cell_within(before[d as int].cells@, i as int);
                                lemma_power_bits(53);
                                lemma_power_bits(0);
                                lemma_sum_with_weight(cell.hits@[c as int], sample.weight);
                            }
                            let hits: Quantity = cell.hits[c].plus(sample.weight);
                            cell.hits[c] = hits;
                            cell.count = cell.count + 1;
                            self.disk_map[d].cells.set(i, cell);
                            proof {
                                lemma_cells_number_update(before[d as int].cells@, i as int, cell);
                                assert(lies_in(before, *sample, d as int, i as int));
                                assert(cell_view(cell) =~= cell_view(
                                    before[d as int].cells@[i as int],
                                ).plus(*sample));
                                assert forall|e: int, j: int|
                                    0 <= e < map.len() && 0 <= j < map[e].cells@.len() && !(e == d
                                        && j == i) implies self.disk_map@[e].cells@[j]
                                    == before[e].cells@[j] by {}
                            }
                        },
                        None => {},
                    }
                },
                None => {},
            }
            proof {
                assert forall|e: int, j: int|
                    0 <= e < map.len() && 0 <= j < map[e].cells@.len() implies cell_view(
                    #[trigger] self.disk_map@[e].cells@[j],
                ) == cell_after(map, e, j, more) by {
                    assert(cell_view(before[e].cells@[j]) == cell_after(
                        map,
                        e,
                        j,
                        samples.take(k as int),
                    ));
                    lemma_lies_in_layout(map, before, *sample, e, j);
                }
            }
            k = k + 1;
        }
        proof {
            assert(samples.take(samples.len() as int) =~= samples);
        }
    }

    /// Adds a draw: every sample goes to the tree, and to the map if it is known where
    /// on which device it lies.
    pub fn record(&mut self, draw: &DrawResult)
        requires
            old(self).wf(),
            old(self).takes(*draw),
        ensures
            final(self).wf(),
            final(self).universe_bytes == old(self).universe_bytes,
            final(self).total_draws == (if old(self).total_draws == u64::MAX {
                0
            } else {
                (old(self).total_draws + 1) as u64
            }),
            total_number(final(self).tree.counts@) == total_number(old(self).tree.counts@)
                + draw.samples@.len(),
            forall|at: Seq<Seq<char>>| #[trigger]
                final(self).tree.at(at) == tree_after(old(self).tree.at(at), at, draw.samples@),
            same_layout(old(self).disk_map@, final(self).disk_map@),
            forall|d: int, i: int|
                0 <= d < old(self).disk_map@.len() && 0 <= i < old(self).disk_map@[d].cells@.len()
                    ==> cell_view(#[trigger] final(self).disk_map@[d].cells@[i]) == cell_after(
                    old(self).disk_map@,
                    d,
                    i,
                    draw.samples@,
                ),
    {
        self.total_draws = self.total_draws.wrapping_add(1);
        let ghost samples = draw.samples@;
        let ghost start = self.tree;
        let ghost total = total_number(start.counts@);
        let mut k: usize = 0;
        proof {
            assert(samples.take(0) =~= Seq::empty());
        }
        while k < draw.samples.len()
            invariant
                samples == draw.samples@,
                k <= samples.len(),
                self.tree.wf(),
                total + samples.len() <= u64::MAX,
                total_number(self.tree.counts@) == total + k,
                forall|i: int| 0 <= i < samples.len() ==> (#[trigger] samples[i]).wf(),
                forall|at: Seq<Seq<char>>| #[trigger]
                    self.tree.at(at) == tree_after(start.at(at), at, samples.take(k as int)),
                self.disk_map == old(self).disk_map,
                self.universe_bytes == old(self).universe_bytes,
                self.total_draws == (if old(self).total_draws == u64::MAX {
                    0
                } else {
                    (old(self).total_draws + 1) as u64
                }),
            decreases samples.len() - k,
        {
            let ghost before = self.tree;
            insert(&mut self.tree, &draw.samples[k]);
            proof {
                let more = samples.take(k + 1);
                assert(more.drop_last() =~= samples.take(k as int));
                assert(more.last() == samples[k as int]);
                lemma_inserted_total(before, self.tree, samples[k as int]);
            }
            k = k + 1;
        }
        proof {
            assert(samples.take(samples.len() as int) =~= samples);
        }
        self.mark(draw);
    }
}

/// The first device of the map with the given number.
fn find_device(map: &Vec<DeviceMap>, devid: u64) -> (r: Option<usize>)
    ensures
        match r {
            Some(d) => is_device(map@, d as int, devid),
            None => forall|d: int| 0 <= d < map@.len() ==> (#[trigger] map@[d]).devid != devid,
        },
{
    let mut d: usize = 0;
    while d < map.len()
        invariant
            d <= map@.len(),
            forall|e: int| 0 <= e < d ==> (#[trigger] map@[e]).devid != devid,
        decreases map@.len() - d,
    {
        if map[d].devid == devid {
            return Some(d);
        }
        d = d + 1;
    }
    None
}

/// A sample counts once at the root.
proof fn lemma_inserted_total(before: TreeNode, after: TreeNode, sample: Sample)
    requires
        total_number(before.counts@) < u64::MAX,
        forall|at: Seq<Seq<char>>| #[trigger]
            after.at(at) == grown(before.at(at), at, sample.path(), sample),
    ensures
        total_number(after.counts@) == total_number(before.counts@) + 1,
{
    let none = Seq::<Seq<char>>::empty();
    let c = sample.category.place();
    assert(after.at(none) == grown(before.at(none), none, sample.path(), sample));
    assert(none.is_prefix_of(sample.path()));
    lemma_number_within_total(before.counts@, c);
    lemma_total_number_update(before.counts@, c);
}

/// The samples of category `c` whose paths pass through `at`.
pub open spec fn passing(samples: Seq<Sample>, at: Seq<Seq<char>>, c: int) -> nat
    decreases samples.len(),
{
    if samples.len() == 0 {
        0
    } else {
        let before = passing(samples.drop_last(), at, c);
        if at.is_prefix_of(samples.last().path()) && samples.last().category.place() == c {
            before + 1
        } else {
            before
        }
    }
}

/// The samples of category `c` that a node has counted.
pub open spec fn counted(node: Option<NodeView>, c: int) -> nat {
    match node {
        Some(node) => node.counts[c] as nat,
        None => 0,
    }
}

/// What a node counts is the number of samples whose paths pass through it: the samples of
/// a draw add to each node as many as pass through it, of each category apart. A node comes
/// into being with the first sample that passes through it.
pub proof fn law_counts_are_samples(
    before: Option<NodeView>,
    at: Seq<Seq<char>>,
    samples: Seq<Sample>,
    c: int,
)
    requires
        0 <= c < 5,
        before is Some ==> before->0.counts.len() == 5,
        counted(before, c) + samples.len() <= u64::MAX,
    ensures
        counted(tree_after(before, at, samples), c) == counted(before, c) + passing(
            samples,
            at,
            c,
        ),
        tree_after(before, at, samples) is Some <==> before is Some || exists|i: int|
            0 <= i < samples.len() && at.is_prefix_of((#[trigger] samples[i]).path()),
        tree_after(before, at, samples) is Some ==> tree_after(
            before,
            at,
            samples,
        )->0.counts.len() == 5,
        passing(samples, at, c) <= samples.len(),
    decreases samples.len(),
{
    if samples.len() > 0 {
        let rest = samples.drop_last();
        law_counts_are_samples(before, at, rest, c);
        let passes = at.is_prefix_of(samples.last().path());
        if passes {
            assert(samples[samples.len() - 1] == samples.last());
        }
        if exists|i: int| 0 <= i < rest.len() && at.is_prefix_of((#[trigger] rest[i]).path()) {
            let i = choose|i: int|
                0 <= i < rest.len() && at.is_prefix_of((#[trigger] rest[i]).path());
            assert(samples[i] == rest[i]);
        }
        if exists|i: int| 0 <= i < samples.len() && at.is_prefix_of((#[trigger] samples[i]).path()) {
            let i = choose|i: int|
                0 <= i < samples.len() && at.is_prefix_of((#[trigger] samples[i]).path());
            if i < rest.len() {
                assert(samples[i] == rest[i]);
            }
        }
    }
}

/// The hits of whole draws are their number: where every sample has the weight one, the
/// hits of a category are its count exactly, up to 2 to the power of 53.
pub proof fn law_whole_draws_exact(
    before: Option<NodeView>,
    at: Seq<Seq<char>>,
    samples: Seq<Sample>,
    c: int,
)
    requires
        0 <= c < 5,
        forall|i: int|
            0 <= i < samples.len() ==> (#[trigger] samples[i]).weight == Quantity::of(1),
        before is Some ==> {
            &&& before->0.counts.len() == 5
            &&& before->0.hits.len() == 5
            &&& before->0.hits[c] == Quantity::of(before->0.counts[c] as nat)
        },
        counted(before, c) + samples.len() <= pow2(53),
    ensures
        tree_after(before, at, samples) is Some ==> {
            let node = tree_after(before, at, samples)->0;
            &&& node.counts.len() == 5
            &&& node.hits.len() == 5
            &&& node.hits[c] == Quantity::of(node.counts[c] as nat)
        },
        counted(tree_after(before, at, samples), c) <= counted(before, c) + samples.len(),
    decreases samples.len(),
{
    lemma2_to64_rest();
    lemma_of_bounds(0);
    if samples.len() > 0 {
        let rest = samples.drop_last();
        assert forall|i: int| 0 <= i < rest.len() implies (#[trigger] rest[i]).weight
            == Quantity::of(1) by {
            assert(samples[i] == rest[i]);
        }
        law_whole_draws_exact(before, at, rest, c);
        assert(samples[samples.len() - 1].weight == Quantity::of(1));
        law_counting_is_exact(counted(tree_after(before, at, rest), c));
    }
}

/// A node that no sample of a draw passes through stays as it is. A draw without samples
/// leaves every node as it is.
pub proof fn law_others_untouched(
    before: Option<NodeView>,
    at: Seq<Seq<char>>,
    samples: Seq<Sample>,
)
    requires
        forall|i: int|
            0 <= i < samples.len() ==> !at.is_prefix_of((#[trigger] samples[i]).path()),
    ensures
        tree_after(before, at, samples) == before,
    decreases samples.len(),
{
    if samples.len() > 0 {
        let rest = samples.drop_last();
        assert(samples[samples.len() - 1] == samples.last());
        assert forall|i: int| 0 <= i < rest.len() implies !at.is_prefix_of(
            (#[trigger] rest[i]).path(),
        ) by {
            assert(samples[i] == rest[i]);
        }
        law_others_untouched(before, at, rest);
    }
}

/// A sample lies in one cell at most, and in one exactly if its device is on the map.
pub proof fn law_one_cell(map: Seq<DeviceMap>, sample: Sample)
    requires
        forall|d: int| 0 <= d < map.len() ==> (#[trigger] map[d]).wf(),
    ensures
        forall|d: int, i: int, e: int, j: int| #[trigger]
            lies_in(map, sample, d, i) && #[trigger] lies_in(map, sample, e, j) ==> d == e && i
                == j,
        forall|d: int, i: int| #[trigger]
            lies_in(map, sample, d, i) ==> 0 <= d < map.len() && 0 <= i < map[d].cells@.len(),
        forall|d: int, i: int| #[trigger]
            lies_in(map, sample, d, i) ==> match sample.physical {
                Some((devid, offset)) => {
                    &&& devid == map[d].devid
                    &&& i == map[d].cell_of(offset)
                    &&& forall|e: int| 0 <= e < d ==> (#[trigger] map[e]).devid != devid
                },
                None => false,
            },
        (exists|d: int, i: int| #[trigger] lies_in(map, sample, d, i)) <==> match sample.physical {
            Some((devid, _)) => exists|d: int|
                0 <= d < map.len() && (#[trigger] map[d]).devid == devid,
            None => false,
        },
{
    if let Some((devid, offset)) = sample.physical {
        if exists|d: int| 0 <= d < map.len() && (#[trigger] map[d]).devid == devid {
            let d = choose|d: int| 0 <= d < map.len() && (#[trigger] map[d]).devid == devid;
            let e = lemma_first_device(map, devid, d);
            assert(lies_in(map, sample, e, map[e].cell_of(offset)));
        }
        assert forall|d: int, i: int| #[trigger] lies_in(map, sample, d, i) implies 0 <= d
            < map.len() && 0 <= i < map[d].cells@.len() by {
            assert(map[d].wf());
        }
    }
}

/// Where some device has the number, there is a first one.
proof fn lemma_first_device(map: Seq<DeviceMap>, devid: u64, d: int) -> (e: int)
    requires
        0 <= d < map.len(),
        map[d].devid == devid,
    ensures
        is_device(map, e, devid),
    decreases d,
{
    if forall|e: int| 0 <= e < d ==> (#[trigger] map[e]).devid != devid {
        d
    } else {
        let e = choose|e: int| 0 <= e < d && (#[trigger] map[e]).devid == devid;
        lemma_first_device(map, devid, e)
    }
}

/// The samples that lie in cell `i` of device `d`.
pub open spec fn lying(map: Seq<DeviceMap>, d: int, i: int, samples: Seq<Sample>) -> nat
    decreases samples.len(),
{
    if samples.len() == 0 {
        0
    } else {
        let before = lying(map, d, i, samples.drop_last());
        if lies_in(map, samples.last(), d, i) {
            before + 1
        } else {
            before
        }
    }
}

/// A cell counts the samples that lie in it, and one that none of them lies in stays as it
/// is.
pub proof fn law_cells_count(map: Seq<DeviceMap>, d: int, i: int, samples: Seq<Sample>)
    ensures
        cell_after(map, d, i, samples).count == map[d].cells@[i].count + lying(
            map,
            d,
            i,
            samples,
        ),
        lying(map, d, i, samples) == 0 ==> cell_after(map, d, i, samples) == cell_view(
            map[d].cells@[i],
        ),
    decreases samples.len(),
{
    if samples.len() > 0 {
        law_cells_count(map, d, i, samples.drop_last());
    }
}

/// Amounts added one after the other to what there was.
pub open spec fn added(start: Quantity, weights: Seq<Quantity>) -> Quantity
    decreases weights.len(),
{
    if weights.len() == 0 {
        start
    } else {
        added(start, weights.drop_last()).sum(weights.last())
    }
}

/// The weights of the samples of category `c` that lie in cell `i` of device `d`, in their order.
pub open spec fn weights_lying(
    map: Seq<DeviceMap>,
    d: int,
    i: int,
    samples: Seq<Sample>,
    c: int,
) -> Seq<Quantity>
    decreases samples.len(),
{
    if samples.len() == 0 {
        Seq::empty()
    } else {
        let before = weights_lying(map, d, i, samples.drop_last(), c);
        if lies_in(map, samples.last(), d, i) && samples.last().category.place() == c {
            before.push(samples.last().weight)
        } else {
            before
        }
    }
}

/// The weights of the samples of category `c` whose paths pass through `at`, in their order.
pub open spec fn weights_passing(samples: Seq<Sample>, at: Seq<Seq<char>>, c: int) -> Seq<Quantity>
    decreases samples.len(),
{
    if samples.len() == 0 {
        Seq::empty()
    } else {
        let before = weights_passing(samples.drop_last(), at, c);
        if at.is_prefix_of(samples.last().path()) && samples.last().category.place() == c {
            before.push(samples.last().weight)
        } else {
            before
        }
    }
}

/// The hits of a cell in a category are the weights of the samples of that category that lie
/// in it, added to what there was. No other sample adds to them.
pub proof fn law_cell_hits_are_weights(
    map: Seq<DeviceMap>,
    d: int,
    i: int,
    samples: Seq<Sample>,
    c: int,
)
    requires
        0 <= c < 5,
    ensures
        cell_after(map, d, i, samples).hits.len() == 5,
        cell_after(map, d, i, samples).hits[c] == added(
            map[d].cells@[i].hits@[c],
            weights_lying(map, d, i, samples, c),
        ),
    decreases samples.len(),
{
    if samples.len() > 0 {
        let rest = samples.drop_last();
        law_cell_hits_are_weights(map, d, i, rest, c);
        if lies_in(map, samples.last(), d, i) && samples.last().category.place() == c {
            assert(weights_lying(map, d, i, samples, c).drop_last() =~= weights_lying(
                map,
                d,
                i,
                rest,
                c,
            ));
        }
    }
}

/// The samples of category `c` that lie in cell `i` of device `d`.
pub open spec fn lying_of(
    map: Seq<DeviceMap>,
    d: int,
    i: int,
    samples: Seq<Sample>,
    c: int,
) -> nat
    decreases samples.len(),
{
    if samples.len() == 0 {
        0
    } else {
        let before = lying_of(map, d, i, samples.drop_last(), c);
        if lies_in(map, samples.last(), d, i) && samples.last().category.place() == c {
            before + 1
        } else {
            before
        }
    }
}

/// The hits of whole draws in a cell are their number: where every sample has the weight one,
/// a cell that had a number of hits in a category has that number and one more for each sample
/// of the category that lies in it, exactly, up to 2 to the power of 53.
pub proof fn law_whole_draws_exact_on_map(
    map: Seq<DeviceMap>,
    d: int,
    i: int,
    samples: Seq<Sample>,
    c: int,
    n: nat,
)
    requires
        0 <= c < 5,
        map[d].cells@[i].hits@[c] == Quantity::of(n),
        forall|k: int| 0 <= k < samples.len() ==> (#[trigger] samples[k]).weight == Quantity::of(1),
        n + samples.len() <= pow2(53),
    ensures
        cell_after(map, d, i, samples).hits[c] == Quantity::of(
            n + lying_of(map, d, i, samples, c),
        ),
        cell_after(map, d, i, samples).hits.len() == 5,
        lying_of(map, d, i, samples, c) <= samples.len(),
    decreases samples.len(),
{
    if samples.len() > 0 {
        let rest = samples.drop_last();
        assert forall|k: int| 0 <= k < rest.len() implies (#[trigger] rest[k]).weight
            == Quantity::of(1) by {
            assert(samples[k] == rest[k]);
        }
        law_whole_draws_exact_on_map(map, d, i, rest, c, n);
        assert(samples[samples.len() - 1].weight == Quantity::of(1));
        law_counting_is_exact(n + lying_of(map, d, i, rest, c));
    }
}

/// The hits of a node in a category are the weights of the samples of that category that pass
/// through it, added to what there was. No other sample adds to them.
pub proof fn law_node_hits_are_weights(
    before: Option<NodeView>,
    at: Seq<Seq<char>>,
    samples: Seq<Sample>,
    c: int,
)
    requires
        0 <= c < 5,
        before is Some ==> before->0.hits.len() == 5,
        tree_after(before, at, samples) is Some,
    ensures
        tree_after(before, at, samples)->0.hits.len() == 5,
        tree_after(before, at, samples)->0.hits[c] == added(
            (match before {
                Some(node) => node.hits[c],
                None => Quantity { bits: 0 },
            }),
            weights_passing(samples, at, c),
        ),
    decreases samples.len(),
{
    if samples.len() > 0 {
        let rest = samples.drop_last();
        let start = match before {
            Some(node) => node.hits[c],
            None => Quantity { bits: 0 },
        };
        let less = weights_passing(rest, at, c);
        let more = weights_passing(samples, at, c);
        let node = match tree_after(before, at, rest) {
            Some(node) => node,
            None => NodeView::empty(),
        };
        if tree_after(before, at, rest) is Some {
            law_node_hits_are_weights(before, at, rest, c);
        } else {
            lemma_nothing_passed(before, at, rest, c);
        }
        assert(node.hits.len() == 5);
        assert(node.hits[c] == added(start, less));
        let sample = samples.last();
        if at.is_prefix_of(sample.path()) {
            let after = tree_after(before, at, samples)->0;
            let p = sample.category.place();
            assert(after.hits == node.hits.update(p, node.hits[p].sum(sample.weight)));
            if p == c {
                assert(more.drop_last() =~= less);
                assert(more.last() == sample.weight);
                assert(added(start, more) == added(start, less).sum(sample.weight));
            } else {
                assert(more == less);
            }
        } else {
            assert(tree_after(before, at, samples) == tree_after(before, at, rest));
            assert(more == less);
        }
    }
}

/// Where no node has come into being, no sample has passed.
proof fn lemma_nothing_passed(
    before: Option<NodeView>,
    at: Seq<Seq<char>>,
    samples: Seq<Sample>,
    c: int,
)
    requires
        tree_after(before, at, samples) is None,
    ensures
        before is None,
        weights_passing(samples, at, c) == Seq::<Quantity>::empty(),
    decreases samples.len(),
{
    if samples.len() > 0 {
        lemma_nothing_passed(before, at, samples.drop_last(), c);
    }
}

/// The inode of a node is that of the last sample that passed through it and named one; where
/// none did, it is what it was.
pub proof fn law_last_inode_stays(
    before: Option<NodeView>,
    at: Seq<Seq<char>>,
    samples: Seq<Sample>,
)
    requires
        tree_after(before, at, samples) is Some,
    ensures
        forall|i: int|
            0 <= i < samples.len() && at.is_prefix_of((#[trigger] samples[i]).path())
                && samples[i].inode is Some && (forall|j: int|
                i < j < samples.len() && at.is_prefix_of((#[trigger] samples[j]).path())
                    ==> samples[j].inode is None) ==> tree_after(before, at, samples)->0.inode
                == samples[i].inode,
        (forall|j: int|
            0 <= j < samples.len() && at.is_prefix_of((#[trigger] samples[j]).path())
                ==> samples[j].inode is None) ==> tree_after(before, at, samples)->0.inode == (
        match before {
            Some(node) => node.inode,
            None => None,
        }),
    decreases samples.len(),
{
    if samples.len() > 0 {
        let rest = samples.drop_last();
        let last = samples.len() - 1;
        assert(samples[last] == samples.last());
        assert(forall|k: int| 0 <= k < rest.len() ==> rest[k] == samples[k]);
        if tree_after(before, at, rest) is Some {
            law_last_inode_stays(before, at, rest);
            assert forall|i: int|
                0 <= i < samples.len() && at.is_prefix_of((#[trigger] samples[i]).path())
                    && samples[i].inode is Some && (forall|j: int|
                    i < j < samples.len() && at.is_prefix_of((#[trigger] samples[j]).path())
                        ==> samples[j].inode is None) implies tree_after(
                before,
                at,
                samples,
            )->0.inode == samples[i].inode by {
                if i < last {
                    assert(rest[i] == samples[i]);
                    assert(forall|j: int|
                        i < j < rest.len() && at.is_prefix_of((#[trigger] rest[j]).path())
                            ==> samples[j].inode is None);
                    assert(at.is_prefix_of(samples[last].path()) ==> samples[last].inode is None);
                }
            }
        } else {
            lemma_none_passed(before, at, rest);
            assert forall|i: int| 0 <= i < last implies !at.is_prefix_of(
                (#[trigger] samples[i]).path(),
            ) by {
                assert(rest[i] == samples[i]);
            }
        }
    }
}

proof fn lemma_none_passed(before: Option<NodeView>, at: Seq<Seq<char>>, samples: Seq<Sample>)
    requires
        tree_after(before, at, samples) is None,
    ensures
        before is None,
        forall|i: int| 0 <= i < samples.len() ==> !at.is_prefix_of((#[trigger] samples[i]).path()),
    decreases samples.len(),
{
    if samples.len() > 0 {
        let rest = samples.drop_last();
        lemma_none_passed(before, at, rest);
        assert forall|i: int| 0 <= i < samples.len() implies !at.is_prefix_of(
            (#[trigger] samples[i]).path(),
        ) by {
            if i < rest.len() {
                assert(rest[i] == samples[i]);
            }
        }
    }
}

/// A sample passes through `at` and goes on with `name`.
pub open spec fn goes_on(sample: Sample, at: Seq<Seq<char>>, name: Seq<char>) -> bool {
    at.push(name).is_prefix_of(sample.path())
}

/// The children of a node are those it had and those that samples went on to, each once, the
/// old ones first.
pub proof fn law_children_are_next_names(
    tree: TreeNode,
    at: Seq<Seq<char>>,
    samples: Seq<Sample>,
)
    requires
        tree.wf(),
        tree_after(tree.at(at), at, samples) is Some,
        counted(tree.at(at), 0) + samples.len() <= u64::MAX,
    ensures
        ({
            let names = tree_after(tree.at(at), at, samples)->0.children;
            &&& names.no_duplicates()
            &&& tree.at(at) is Some ==> tree.at(at)->0.children.is_prefix_of(names)
            &&& forall|name: Seq<char>| #[trigger]
                names.contains(name) <==> (tree.at(at) is Some && tree.at(
                    at,
                )->0.children.contains(name)) || exists|i: int|
                    0 <= i < samples.len() && goes_on(#[trigger] samples[i], at, name)
        }),
{
    lemma_counted_apart(tree, at, samples, 0);
    lemma_names_fit_at_first(tree, at, 0);
    let names = tree_after(tree.at(at), at, samples)->0.children;
    assert forall|name: Seq<char>| #[trigger] names.contains(name) <==> (tree.at(at) is Some
        && tree.at(at)->0.children.contains(name)) || exists|i: int|
        0 <= i < samples.len() && goes_on(#[trigger] samples[i], at, name) by {
        let below = at.push(name);
        assert(node_after(tree, below, samples) is Some <==> names.contains(name));
        assert(node_after(tree, below, Seq::empty()) == tree.at(below));
        assert(node_after(tree, at, Seq::empty()) == tree.at(at));
        lemma_exists_if_passed(tree.at(below), below, samples);
        if exists|i: int| 0 <= i < samples.len() && below.is_prefix_of(
            (#[trigger] samples[i]).path(),
        ) {
            let i = choose|i: int|
                0 <= i < samples.len() && below.is_prefix_of((#[trigger] samples[i]).path());
            assert(goes_on(samples[i], at, name));
        }
        if exists|i: int| 0 <= i < samples.len() && goes_on(#[trigger] samples[i], at, name) {
            let i = choose|i: int|
                0 <= i < samples.len() && goes_on(#[trigger] samples[i], at, name);
            assert(below.is_prefix_of(samples[i].path()));
        }
    }
    if tree.at(at) is Some {
        lemma_children_kept(tree.at(at), at, samples);
    }
}

proof fn lemma_exists_if_passed(
    before: Option<NodeView>,
    at: Seq<Seq<char>>,
    samples: Seq<Sample>,
)
    ensures
        tree_after(before, at, samples) is Some <==> before is Some || exists|i: int|
            0 <= i < samples.len() && at.is_prefix_of((#[trigger] samples[i]).path()),
    decreases samples.len(),
{
    if samples.len() > 0 {
        let rest = samples.drop_last();
        lemma_exists_if_passed(before, at, rest);
        assert(samples[samples.len() - 1] == samples.last());
        if exists|i: int| 0 <= i < rest.len() && at.is_prefix_of((#[trigger] rest[i]).path()) {
            let i = choose|i: int|
                0 <= i < rest.len() && at.is_prefix_of((#[trigger] rest[i]).path());
            assert(samples[i] == rest[i]);
        }
        if exists|i: int| 0 <= i < samples.len() && at.is_prefix_of((#[trigger] samples[i]).path()) {
            let i = choose|i: int|
                0 <= i < samples.len() && at.is_prefix_of((#[trigger] samples[i]).path());
            if i < rest.len() {
                assert(samples[i] == rest[i]);
            }
        }
    }
}

proof fn lemma_children_kept(before: Option<NodeView>, at: Seq<Seq<char>>, samples: Seq<Sample>)
    requires
        before is Some,
    ensures
        tree_after(before, at, samples) is Some,
        before->0.children.is_prefix_of(tree_after(before, at, samples)->0.children),
    decreases samples.len(),
{
    let old_names = before->0.children;
    if samples.len() > 0 {
        lemma_children_kept(before, at, samples.drop_last());
        let names = tree_after(before, at, samples)->0.children;
        let less = tree_after(before, at, samples.drop_last())->0.children;
        assert(old_names =~= less.subrange(0, old_names.len() as int));
        assert forall|i: int| 0 <= i < old_names.len() implies old_names[i] == names[i] by {
            assert(less[i] == old_names[i]);
        }
        assert(old_names =~= names.subrange(0, old_names.len() as int));
    } else {
        assert(old_names =~= old_names.subrange(0, old_names.len() as int));
    }
}

/// Every node of a tree is sound, the samples of its children are among its own, and none
/// of them has more hits than it has itself.
pub proof fn law_children_within_parent(tree: TreeNode, path: Seq<Seq<char>>)
    requires
        tree.wf(),
        tree.descend(path) is Some,
    ensures
        ({
            let node = tree.descend(path)->0;
            &&& node.wf()
            &&& forall|c: int|
                0 <= c < 5 ==> #[trigger] children_number(node.children@, c) <= node.counts@[c]
            &&& forall|i: int, c: int|
                0 <= i < node.children@.len() && 0 <= c < 5 ==> {
                    &&& (#[trigger] node.children@[i].node.hits@[c]).bits <= node.hits@[c].bits
                    &&& node.children@[i].node.counts@[c] <= node.counts@[c]
                }
        }),
    decreases path.len(),
{
    if path.len() > 0 {
        let i = tree.index@[path[0]] as int;
        assert(tree.children@[i].node.wf());
        law_children_within_parent(tree.children@[i].node, path.drop_first());
        assert(tree.descend(path) == tree.children@[i].node.descend(path.drop_first()));
    } else {
        assert(tree.descend(path) == Some(tree));
        assert(tree.children_wf());
        assert forall|i: int, c: int| 0 <= i < tree.children@.len() && 0 <= c < 5 implies {
            &&& (#[trigger] tree.children@[i].node.hits@[c]).bits <= tree.hits@[c].bits
            &&& tree.children@[i].node.counts@[c] <= tree.counts@[c]
        } by {
            lemma_child_number(tree.children@, i, c);
        }
    }
}

/// Taking a sample out takes it out of what passes.
proof fn lemma_passing_without(samples: Seq<Sample>, i: int, at: Seq<Seq<char>>, c: int)
    requires
        0 <= i < samples.len(),
    ensures
        passing(samples, at, c) == passing(samples.remove(i), at, c) + (if at.is_prefix_of(
            samples[i].path(),
        ) && samples[i].category.place() == c {
            1nat
        } else {
            0
        }),
    decreases samples.len(),
{
    let rest = samples.drop_last();
    let without = samples.remove(i);
    if i < samples.len() - 1 {
        lemma_passing_without(rest, i, at, c);
        assert(without.drop_last() =~= rest.remove(i));
        assert(without.last() == samples.last());
    } else {
        assert(without =~= rest);
    }
}

/// The same samples in another order pass through the same nodes.
proof fn lemma_passing_unordered(a: Seq<Sample>, b: Seq<Sample>, at: Seq<Seq<char>>, c: int)
    requires
        a.to_multiset() == b.to_multiset(),
    ensures
        passing(a, at, c) == passing(b, at, c),
        a.len() == b.len(),
    decreases a.len(),
{
    a.to_multiset_ensures();
    b.to_multiset_ensures();
    if a.len() > 0 {
        let last = a.len() - 1;
        let x = a[last];
        assert(a.contains(x));
        assert(a.to_multiset().count(x) > 0);
        assert(b.contains(x));
        let i = choose|i: int| 0 <= i < b.len() && b[i] == x;
        assert(a.remove(last).to_multiset() =~= a.to_multiset().remove(x));
        assert(b.remove(i).to_multiset() =~= b.to_multiset().remove(x));
        lemma_passing_without(a, last, at, c);
        lemma_passing_without(b, i, at, c);
        lemma_passing_unordered(a.remove(last), b.remove(i), at, c);
    }
}

/// What a node counts does not depend on the order in which the samples come.
pub proof fn law_order_does_not_matter(
    before: Option<NodeView>,
    at: Seq<Seq<char>>,
    a: Seq<Sample>,
    b: Seq<Sample>,
    c: int,
)
    requires
        0 <= c < 5,
        before is Some ==> before->0.counts.len() == 5,
        counted(before, c) + a.len() <= u64::MAX,
        a.to_multiset() == b.to_multiset(),
    ensures
        counted(tree_after(before, at, a), c) == counted(tree_after(before, at, b), c),
{
    lemma_passing_unordered(a, b, at, c);
    law_counts_are_samples(before, at, a, c);
    law_counts_are_samples(before, at, b, c);
}

/// The samples of category `c` whose paths end at `at`.
pub open spec fn ending(samples: Seq<Sample>, at: Seq<Seq<char>>, c: int) -> nat
    decreases samples.len(),
{
    if samples.len() == 0 {
        0
    } else {
        let before = ending(samples.drop_last(), at, c);
        if samples.last().path() == at && samples.last().category.place() == c {
            before + 1
        } else {
            before
        }
    }
}

/// What stands at `at` once all the samples have been added to a tree.
pub open spec fn node_after(
    tree: TreeNode,
    at: Seq<Seq<char>>,
    samples: Seq<Sample>,
) -> Option<NodeView> {
    tree_after(tree.at(at), at, samples)
}

/// The samples of category `c` that the nodes with the given names below `at` have counted.
pub open spec fn children_counted(
    tree: TreeNode,
    at: Seq<Seq<char>>,
    samples: Seq<Sample>,
    names: Seq<Seq<char>>,
    c: int,
) -> nat
    decreases names.len(),
{
    if names.len() == 0 {
        0
    } else {
        children_counted(tree, at, samples, names.drop_last(), c) + counted(
            node_after(tree, at.push(names.last()), samples),
            c,
        )
    }
}

/// What the node at `at` has counted beyond what its children have.
pub open spec fn counted_apart(
    tree: TreeNode,
    at: Seq<Seq<char>>,
    samples: Seq<Sample>,
    c: int,
) -> int {
    match node_after(tree, at, samples) {
        Some(node) => node.counts[c] - children_counted(tree, at, samples, node.children, c),
        None => 0,
    }
}

/// The names of the children are those below `at` that lead somewhere, each once.
spec fn names_fit(tree: TreeNode, at: Seq<Seq<char>>, samples: Seq<Sample>) -> bool {
    match node_after(tree, at, samples) {
        Some(node) => {
            &&& node.children.no_duplicates()
            &&& forall|name: Seq<char>| #[trigger]
                node_after(tree, at.push(name), samples) is Some <==> node.children.contains(name)
        },
        None => forall|name: Seq<char>| #[trigger]
            node_after(tree, at.push(name), samples) is None,
    }
}

/// A path and one name more lead to the child with that name.
proof fn lemma_descend_push(tree: TreeNode, at: Seq<Seq<char>>, name: Seq<char>)
    ensures
        tree.descend(at.push(name)) == (match tree.descend(at) {
            Some(node) => if node.index@.contains_key(name) {
                Some(node.children@[node.index@[name] as int].node)
            } else {
                None
            },
            None => None,
        }),
    decreases at.len(),
{
    let path = at.push(name);
    reveal_with_fuel(TreeNode::descend, 2);
    if at.len() == 0 {
        assert(path.drop_first() =~= Seq::empty());
    } else {
        assert(path.drop_first() =~= at.drop_first().push(name));
        assert(path[0] == at[0]);
        if tree.index@.contains_key(at[0]) {
            lemma_descend_push(tree.children@[tree.index@[at[0]] as int].node, at.drop_first(), name);
        }
    }
}

/// The names fit before any sample, and no child has counted more than its parent.
proof fn lemma_names_fit_at_first(tree: TreeNode, at: Seq<Seq<char>>, c: int)
    requires
        tree.wf(),
        0 <= c < 5,
    ensures
        names_fit(tree, at, Seq::empty()),
        forall|name: Seq<char>| counted(#[trigger] tree.at(at.push(name)), c) <= counted(
            tree.at(at),
            c,
        ),
{
    assert forall|name: Seq<char>| {
        &&& counted(#[trigger] tree.at(at.push(name)), c) <= counted(tree.at(at), c)
        &&& tree.at(at.push(name)) is Some <==> match tree.at(at) {
            Some(node) => node.children.contains(name),
            None => false,
        }
    } by {
        lemma_descend_push(tree, at, name);
        if tree.descend(at) is Some {
            law_children_within_parent(tree, at);
            let node = tree.descend(at)->0;
            lemma_names_contain(node, name);
            if node.index@.contains_key(name) {
                let i = node.index@[name] as int;
                assert(node.children@[i].node.hits@[c].bits <= node.hits@[c].bits);
            }
        }
    }
    if tree.descend(at) is Some {
        law_children_within_parent(tree, at);
        let node = tree.descend(at)->0;
        let names = node.child_names();
        assert forall|i: int, j: int| 0 <= i < names.len() && 0 <= j < names.len() && i
            != j implies names[i] != names[j] by {
            assert(node.index@[node.children@[i].name@] == i);
            assert(node.index@[node.children@[j].name@] == j);
        }
        assert(names.no_duplicates());
    }
}

/// One sample more adds one to the child that it passes through.
proof fn lemma_children_step(
    tree: TreeNode,
    at: Seq<Seq<char>>,
    samples: Seq<Sample>,
    names: Seq<Seq<char>>,
    c: int,
)
    requires
        0 <= c < 5,
        samples.len() > 0,
        names.no_duplicates(),
        forall|name: Seq<char>| counted(#[trigger] tree.at(at.push(name)), c) + samples.len()
            <= u64::MAX,
    ensures
        ({
            let rest = samples.drop_last();
            let path = samples.last().path();
            children_counted(tree, at, samples, names, c) == children_counted(
                tree,
                at,
                rest,
                names,
                c,
            ) + (if at.len() < path.len() && at.is_prefix_of(path)
                && samples.last().category.place() == c && names.contains(
                path[at.len() as int],
            ) {
                1nat
            } else {
                0
            })
        }),
    decreases names.len(),
{
    let rest = samples.drop_last();
    let path = samples.last().path();
    if names.len() > 0 {
        let fewer = names.drop_last();
        let name = names.last();
        assert(names =~= fewer.push(name));
        assert(fewer.no_duplicates());
        lemma_children_step(tree, at, samples, fewer, c);
        let below = at.push(name);
        law_counts_are_samples(tree.at(below), below, samples, c);
        law_counts_are_samples(tree.at(below), below, rest, c);
        lemma_prefix_push(at, name, path);
        if at.len() < path.len() {
            let x = path[at.len() as int];
            assert(names[names.len() - 1] == name);
            if fewer.contains(x) {
                let i = choose|i: int| 0 <= i < fewer.len() && fewer[i] == x;
                assert(names[i] == x);
                assert(x != name);
            }
            if names.contains(x) && x != name {
                let i = choose|i: int| 0 <= i < names.len() && names[i] == x;
                assert(fewer[i] == x);
            }
        }
    }
}

/// A path and one name more lead on along another path if the path does, and the name is
/// the next one there.
proof fn lemma_prefix_push(at: Seq<Seq<char>>, name: Seq<char>, path: Seq<Seq<char>>)
    ensures
        at.push(name).is_prefix_of(path) <==> at.is_prefix_of(path) && at.len() < path.len()
            && path[at.len() as int] == name,
{
    let below = at.push(name);
    if below.is_prefix_of(path) {
        assert(below =~= path.subrange(0, below.len() as int));
        assert(at =~= path.subrange(0, at.len() as int)) by {
            assert forall|i: int| 0 <= i < at.len() implies at[i] == path[i] by {
                assert(below[i] == path[i]);
            }
        }
        assert(below[at.len() as int] == name);
    }
    if at.is_prefix_of(path) && at.len() < path.len() && path[at.len() as int] == name {
        assert(at =~= path.subrange(0, at.len() as int));
        assert forall|i: int| 0 <= i < below.len() implies below[i] == path[i] by {
            if i < at.len() {
                assert(at[i] == path[i]);
            }
        }
        assert(below =~= path.subrange(0, below.len() as int));
    }
}

/// What a node counts is what its children count and the samples that end at the node: each
/// sample that is added adds to the node beyond its children exactly if its path ends there.
/// In a tree that starts without samples that is all there is beyond the children.
pub proof fn law_count_is_children_and_own(
    tree: TreeNode,
    at: Seq<Seq<char>>,
    samples: Seq<Sample>,
    c: int,
)
    requires
        tree.wf(),
        0 <= c < 5,
        counted(tree.at(at), c) + samples.len() <= u64::MAX,
    ensures
        counted_apart(tree, at, samples, c) == counted_apart(tree, at, Seq::empty(), c) + ending(
            samples,
            at,
            c,
        ),
        tree.shape() == NodeView::empty() ==> counted_apart(tree, at, samples, c) == ending(
            samples,
            at,
            c,
        ),
{
    lemma_counted_apart(tree, at, samples, c);
    if tree.shape() == NodeView::empty() {
        assert(tree.child_names().len() == 0);
        assert(tree.children@.len() == 0);
        let none = Seq::<Seq<char>>::empty();
        if at.len() == 0 {
            assert(at =~= none);
            assert(tree.at(at) == Some(tree.shape()));
        } else {
            assert(!tree.index@.contains_key(at[0]));
        }
    }
}

proof fn lemma_counted_apart(tree: TreeNode, at: Seq<Seq<char>>, samples: Seq<Sample>, c: int)
    requires
        tree.wf(),
        0 <= c < 5,
        counted(tree.at(at), c) + samples.len() <= u64::MAX,
    ensures
        names_fit(tree, at, samples),
        counted_apart(tree, at, samples, c) == counted_apart(tree, at, Seq::empty(), c) + ending(
            samples,
            at,
            c,
        ),
    decreases samples.len(),
{
    lemma_names_fit_at_first(tree, at, c);
    if samples.len() == 0 {
        assert(samples =~= Seq::empty());
    } else {
        let rest = samples.drop_last();
        let s = samples.last();
        let path = s.path();
        lemma_counted_apart(tree, at, rest, c);
        law_counts_are_samples(tree.at(at), at, samples, c);
        law_counts_are_samples(tree.at(at), at, rest, c);
        let old_names = match node_after(tree, at, rest) {
            Some(node) => node.children,
            None => Seq::empty(),
        };
        assert(old_names.no_duplicates());
        lemma_children_step(tree, at, samples, old_names, c);
        if at.is_prefix_of(path) {
            let node = node_after(tree, at, samples)->0;
            if at.len() < path.len() {
                let x = path[at.len() as int];
                assert(path != at);
                if !old_names.contains(x) {
                    let names = old_names.push(x);
                    assert(node.children == names);
                    assert(names.drop_last() =~= old_names);
                    assert(node_after(tree, at.push(x), rest) is None);
                    law_counts_are_samples(tree.at(at.push(x)), at.push(x), samples, c);
                    assert forall|i: int, j: int| 0 <= i < names.len() && 0 <= j < names.len()
                        && i != j implies names[i] != names[j] by {}
                    assert(names.no_duplicates());
                    assert forall|name: Seq<char>| names.contains(name) <==> old_names.contains(
                        name,
                    ) || name == x by {
                        if old_names.contains(name) {
                            let i = choose|i: int| 0 <= i < old_names.len() && old_names[i] == name;
                            assert(names[i] == name);
                        }
                        assert(names[old_names.len() as int] == x);
                    }
                } else {
                    assert(node.children == old_names);
                }
            } else {
                assert(at =~= path);
                assert(node.children == old_names);
            }
        } else {
            assert(path != at) by {
                if path == at {
                    assert(at =~= path.subrange(0, at.len() as int));
                }
            }
        }
        assert forall|name: Seq<char>| #[trigger]
            node_after(tree, at.push(name), samples) is Some <==> match node_after(
            tree,
            at,
            samples,
        ) {
            Some(node) => node.children.contains(name),
            None => false,
        } by {
            lemma_prefix_push(at, name, path);
            assert(node_after(tree, at.push(name), rest) is Some <==> old_names.contains(name));
        }
    }
}

/// Whatever a path leads to, every directory on the way is there too.
pub proof fn law_parents_present(tree: TreeNode, path: Seq<Seq<char>>, n: int)
    requires
        tree.at(path) is Some,
        0 <= n <= path.len(),
    ensures
        tree.at(path.take(n)) is Some,
    decreases path.len(),
{
    if n > 0 {
        let child = tree.children@[tree.index@[path[0]] as int].node;
        law_parents_present(child, path.drop_first(), n - 1);
        assert(path.take(n).drop_first() =~= path.drop_first().take(n - 1));
        assert(path.take(n)[0] == path[0]);
    }
}

} // verus!
