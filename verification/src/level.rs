//! The rows of one directory.
use crate::accuracy::{close, lemma_round_close, lemma_share_close, lies_between};
use crate::aggregator::SharedState;
use crate::model::{lemma_totals_finite, total_amount, total_number, Child, DirRow, TreeNode};
use crate::quantity::{
    lemma_of_bounds, lemma_of_exact, lemma_one_is_neutral, lemma_power_bits, lemma_product_monotone,
    lemma_quotient_monotone, lemma_quotient_shrinks, lemma_sum_monotone, power_bits, Quantity,
};
use crate::ranking::{comes_before, is_ranking, rank};
use crate::rounding::{
    lemma_nearest_exact, lemma_units_of_parts, nearest, one_units, units, FRACTION,
};
use crate::text::views;
use vstd::arithmetic::div_mod::lemma_fundamental_div_mod;
use vstd::arithmetic::power2::{
    lemma2_to64_rest, lemma_pow2_adds, lemma_pow2_pos, lemma_pow2_strictly_increases,
    lemma_pow2_unfold, pow2,
};
use vstd::prelude::*;
use vstd::string::*;

verus! {

/// The most rows that are shown.
pub const MAX_DISPLAYED_ROWS: usize = 300;

/// The size that hits stand for: their share of all draws, of the universe.
pub open spec fn estimate(hits: Quantity, total_draws: u64, universe_bytes: u64) -> Quantity {
    if total_draws == 0 {
        Quantity { bits: 0 }
    } else {
        hits.quotient(Quantity::of(total_draws as nat)).product(
            Quantity::of(universe_bytes as nat),
        )
    }
}

/// The size that hits stand for.
pub fn hits_to_bytes(hits: Quantity, total_draws: u64, universe_bytes: u64) -> (r: Quantity)
    requires
        hits.is_finite(),
    ensures
        r == estimate(hits, total_draws, universe_bytes),
        r.wf(),
{
    if total_draws == 0 {
        return Quantity::zero();
    }
    proof {
        lemma_of_bounds(total_draws as nat);
        lemma_of_bounds(universe_bytes as nat);
        lemma_quotient_shrinks(hits, Quantity::of(total_draws as nat));
    }
    hits.over(Quantity::from_u64(total_draws)).times(Quantity::from_u64(universe_bytes))
}

/// The row shows the child.
pub open spec fn row_shows(row: DirRow, child: Child, total_draws: u64, universe: u64) -> bool {
    &&& row.name@ == child.name@
    &&& row.total_bytes == estimate(total_amount(child.node.hits@), total_draws, universe)
    &&& row.total_samples == total_number(child.node.counts@)
    &&& forall|c: int|
        0 <= c < 5 ==> #[trigger] row.bytes_by_category@[c] == estimate(
            child.node.hits@[c],
            total_draws,
            universe,
        )
    &&& row.samples_by_category@ == child.node.counts@
    &&& row.has_children == (child.node.children@.len() > 0)
    &&& row.inode == child.node.inode
}

/// The estimated sizes of the children, in their order.
pub open spec fn child_sizes(node: TreeNode, total_draws: u64, universe: u64) -> Seq<Quantity> {
    node.children@.map_values(
        |child: Child| estimate(total_amount(child.node.hits@), total_draws, universe),
    )
}

pub open spec fn key_bits(sizes: Seq<Quantity>) -> Seq<u64> {
    sizes.map_values(|size: Quantity| size.bits)
}

pub open spec fn row_sizes(rows: Seq<DirRow>) -> Seq<Quantity> {
    rows.map_values(|row: DirRow| row.total_bytes)
}

/// The rows are the first children in the order of their sizes, as many as are shown.
pub open spec fn rows_show(
    rows: Seq<DirRow>,
    node: TreeNode,
    order: Seq<usize>,
    total_draws: u64,
    universe: u64,
) -> bool {
    let n = node.children@.len();
    &&& is_ranking(key_bits(child_sizes(node, total_draws, universe)), order)
    &&& rows.len() == (if n <= MAX_DISPLAYED_ROWS {
        n
    } else {
        MAX_DISPLAYED_ROWS as nat
    })
    &&& forall|i: int|
        0 <= i < rows.len() ==> row_shows(
            #[trigger] rows[i],
            node.children@[order[i] as int],
            total_draws,
            universe,
        )
}

/// How many children are not shown, and what their size is together.
pub open spec fn hidden_rest(
    rows: Seq<DirRow>,
    node: TreeNode,
    total_draws: u64,
    universe: u64,
) -> Option<(usize, Quantity)> {
    let n = node.children@.len();
    if n <= MAX_DISPLAYED_ROWS {
        None
    } else {
        Some(
            (
                (n - MAX_DISPLAYED_ROWS) as usize,
                total_amount(child_sizes(node, total_draws, universe)).excess(
                    total_amount(row_sizes(rows)),
                ),
            ),
        )
    }
}

/// Hits of every draw stand for the whole universe, and no hits for nothing.
pub proof fn law_every_hit_is_universe(total_draws: u64, universe: u64)
    requires
        total_draws > 0,
    ensures
        estimate(Quantity::of(total_draws as nat), total_draws, universe) == Quantity::of(
            universe as nat,
        ),
        estimate(Quantity { bits: 0 }, total_draws, universe) == (Quantity { bits: 0 }),
{
    let draws = Quantity::of(total_draws as nat);
    let size = Quantity::of(universe as nat);
    let none = Quantity { bits: 0 };
    lemma_of_bounds(total_draws as nat);
    lemma_of_bounds(universe as nat);
    lemma_one_is_neutral(draws);
    lemma_one_is_neutral(size);
    lemma_quotient_shrinks(none, draws);
    assert(units(0) == 0);
    lemma_pow2_pos(1074);
    let a = size.amount();
    assert(0 * a == 0) by (nonlinear_arith);
    lemma_nearest_exact(0 * a, one_units(), 0);
}

/// The size is in proportion to the hits and to the universe: the size times the draws is the
/// hits times the universe, but for eleven parts in 2 to the power of 52. Hits from 2 to the
/// power of -900 up to that of 900 are meant, so that no result is too small for the grid.
pub proof fn law_size_is_share_of_universe(hits: Quantity, total_draws: u64, universe: u64)
    requires
        lies_between(hits, 174, 1974),
        total_draws > 0,
        universe > 0,
    ensures
        close(
            estimate(hits, total_draws, universe).amount() * total_draws as nat,
            hits.amount() * universe as nat,
            11,
        ),
{
    lemma_share_close(hits, total_draws as nat, universe as nat);
}

/// Hits of every second draw stand for half of the universe, exactly.
pub proof fn law_half_the_hits_half_the_universe(hits: u64, universe: u64)
    requires
        0 < hits <= pow2(52),
    ensures
        2 * estimate(Quantity::of(hits as nat), (2 * hits) as u64, universe).amount()
            == Quantity::of(universe as nat).amount(),
{
    let one = one_units();
    let n = hits as nat;
    let a = Quantity::of(n);
    let b = Quantity::of(2 * n);
    let size = Quantity::of(universe as nat);
    let f = FRACTION as nat;
    lemma2_to64_rest();
    lemma_pow2_unfold(53);
    lemma_of_exact(n);
    lemma_of_exact(2 * n);
    lemma_of_bounds(universe as nat);
    // One half is 2 to the power of 1073 units.
    let half = pow2(1073);
    lemma_pow2_pos(1073);
    lemma_pow2_unfold(1074);
    lemma_units_of_parts(f, 1021);
    lemma_pow2_adds(52, 1021);
    let at_half = 1021 * f + f;
    assert(units(at_half) == half);
    let top = a.amount() * one;
    assert(top == b.amount() * half) by (nonlinear_arith)
        requires
            top == a.amount() * one,
            a.amount() == n * one,
            b.amount() == (2 * n) * one,
            one == 2 * half,
    ;
    assert(b.amount() > 0) by (nonlinear_arith)
        requires
            b.amount() == (2 * n) * one,
            n > 0,
            one == 2 * half,
            half > 0,
    ;
    lemma_nearest_exact(top, b.amount(), at_half);
    let share = a.quotient(b);
    assert(share.amount() == half);
    let u = size.amount();
    if universe == 0 {
        assert(units(0) == 0);
        assert(half * u == 0) by (nonlinear_arith)
            requires
                u == 0,
        ;
        lemma_nearest_exact(half * u, one, 0);
    } else {
        lemma_power_bits(0);
        let bits = size.bits as nat;
        let less = (bits - f) as nat;
        lemma_halved(bits);
        assert(half * u == one * units(less)) by (nonlinear_arith)
            requires
                u == 2 * units(less),
                one == 2 * half,
        ;
        lemma_nearest_exact(half * u, one, less);
    }
}

/// One exponent less is half the amount.
proof fn lemma_halved(bits: nat)
    requires
        bits >= 2 * FRACTION,
    ensures
        units(bits) == 2 * units((bits - FRACTION) as nat),
{
    let f = FRACTION as nat;
    let e = bits / f;
    let m = bits % f;
    lemma_fundamental_div_mod(bits as int, f as int);
    let x = (e - 2) as nat;
    lemma_pow2_unfold(x + 1);
    lemma_units_of_parts(f + m, x);
    lemma_units_of_parts(f + m, x + 1);
    assert(bits == (x + 1) * f + (f + m)) by (nonlinear_arith)
        requires
            bits == f * e + m,
            x == e - 2,
    ;
    assert(bits - f == x * f + (f + m)) by (nonlinear_arith)
        requires
            bits == (x + 1) * f + (f + m),
    ;
    let p = pow2(x);
    assert((f + m) * (2 * p) == 2 * ((f + m) * p)) by (nonlinear_arith);
}

/// More hits stand for no smaller size.
pub proof fn law_more_hits_more_bytes(
    fewer: Quantity,
    more: Quantity,
    total_draws: u64,
    universe: u64,
)
    requires
        fewer.is_finite(),
        more.is_finite(),
        fewer.bits <= more.bits,
    ensures
        estimate(fewer, total_draws, universe).bits <= estimate(more, total_draws, universe).bits,
        estimate(more, total_draws, universe).wf(),
{
    if total_draws > 0 {
        let draws = Quantity::of(total_draws as nat);
        let size = Quantity::of(universe as nat);
        lemma_of_bounds(total_draws as nat);
        lemma_of_bounds(universe as nat);
        lemma_quotient_monotone(fewer, more, draws, draws);
        lemma_quotient_monotone(more, more, draws, draws);
        lemma_product_monotone(fewer.quotient(draws), more.quotient(draws), size);
        lemma_product_monotone(more.quotient(draws), more.quotient(draws), size);
    }
}

/// Where no amount is greater than its counterpart, the sum is not greater either.
proof fn lemma_total_monotone(a: Seq<Quantity>, b: Seq<Quantity>)
    requires
        a.len() == b.len(),
        forall|c: int| 0 <= c < b.len() ==> (#[trigger] b[c]).wf(),
        forall|c: int| 0 <= c < a.len() ==> (#[trigger] a[c]).bits <= b[c].bits,
    ensures
        total_amount(a).bits <= total_amount(b).bits,
        total_amount(b).wf(),
    decreases a.len(),
{
    if a.len() > 0 {
        let x = a.drop_last();
        let y = b.drop_last();
        assert forall|c: int| 0 <= c < y.len() implies (#[trigger] y[c]).wf() by {
            assert(y[c] == b[c]);
        }
        assert forall|c: int| 0 <= c < x.len() implies (#[trigger] x[c]).bits <= y[c].bits by {
            assert(x[c] == a[c]);
        }
        lemma_total_monotone(x, y);
        let p = total_amount(x);
        let q = total_amount(y);
        assert(a.last().bits <= b.last().bits);
        assert(b[b.len() - 1].wf());
        lemma_sum_monotone(p, q, a.last());
        lemma_sum_monotone(a.last(), b.last(), q);
        lemma_sum_monotone(b.last(), b.last(), q);
        assert(q.sum(a.last()) == a.last().sum(q));
        assert(q.sum(b.last()) == b.last().sum(q));
    }
}

/// Nothing is shown greater than the directory that it lies in, neither in all nor in any
/// category.
pub proof fn law_parts_not_greater(node: TreeNode, i: int, total_draws: u64, universe: u64)
    requires
        node.wf(),
        0 <= i < node.children@.len(),
    ensures
        forall|c: int|
            0 <= c < 5 ==> estimate(
                #[trigger] node.children@[i].node.hits@[c],
                total_draws,
                universe,
            ).bits <= estimate(node.hits@[c], total_draws, universe).bits,
        estimate(total_amount(node.children@[i].node.hits@), total_draws, universe).bits
            <= estimate(total_amount(node.hits@), total_draws, universe).bits,
{
    let part = node.children@[i].node;
    assert(part.wf());
    lemma_power_bits(53);
    assert forall|c: int| 0 <= c < 5 implies estimate(
        #[trigger] node.children@[i].node.hits@[c],
        total_draws,
        universe,
    ).bits <= estimate(node.hits@[c], total_draws, universe).bits by {
        assert(part.hits@[c].bits <= node.hits@[c].bits);
        law_more_hits_more_bytes(part.hits@[c], node.hits@[c], total_draws, universe);
    }
    assert forall|c: int| 0 <= c < 5 implies (#[trigger] part.hits@[c]).bits
        <= node.hits@[c].bits by {
        assert(node.children@[i].node.hits@[c].bits <= node.hits@[c].bits);
    }
    lemma_totals_finite(part.hits@);
    lemma_totals_finite(node.hits@);
    lemma_total_monotone(part.hits@, node.hits@);
    law_more_hits_more_bytes(
        total_amount(part.hits@),
        total_amount(node.hits@),
        total_draws,
        universe,
    );
}

/// The rows come by size, the greatest first, and no child that is left out is greater than
/// one that is shown. Every child is either shown or counted among the rest.
pub proof fn law_greatest_shown_first(
    rows: Seq<DirRow>,
    node: TreeNode,
    order: Seq<usize>,
    total_draws: u64,
    universe: u64,
)
    requires
        rows_show(rows, node, order, total_draws, universe),
        node.children@.len() <= usize::MAX,
    ensures
        forall|i: int, j: int|
            0 <= i < j < rows.len() ==> (#[trigger] rows[i]).total_bytes.bits >= (
            #[trigger] rows[j]).total_bytes.bits,
        forall|i: int, j: int|
            0 <= i < rows.len() <= j < node.children@.len() ==> (
            #[trigger] rows[i]).total_bytes.bits >= child_sizes(
                node,
                total_draws,
                universe,
            )[#[trigger] order[j] as int].bits,
        match hidden_rest(rows, node, total_draws, universe) {
            Some((count, _)) => rows.len() + count == node.children@.len(),
            None => rows.len() == node.children@.len(),
        },
{
    let sizes = child_sizes(node, total_draws, universe);
    let keys = key_bits(sizes);
    assert forall|i: int| 0 <= i < rows.len() implies (#[trigger] rows[i]).total_bytes.bits
        == keys[order[i] as int] by {
        assert(0 <= order[i] < keys.len());
    }
    assert forall|i: int, j: int| 0 <= i < j < order.len() implies keys[#[trigger] order[i] as int]
        >= keys[#[trigger] order[j] as int] by {
        assert(comes_before(keys, order[i] as int, order[j] as int));
    }
    assert forall|i: int, j: int| 0 <= i < rows.len() <= j < node.children@.len() implies (
    #[trigger] rows[i]).total_bytes.bits >= sizes[#[trigger] order[j] as int].bits by {
        assert(0 <= order[j] < keys.len());
        assert(keys[order[i] as int] >= keys[order[j] as int]);
    }
}

/// What is left out is what the level has more than is shown: nothing where it has no more, and
/// else the difference of the two sums, but for two parts in 2 to the power of 52. Differences
/// that are too small for the grid are not meant, nor sums near its end.
pub proof fn law_hidden_is_difference(
    rows: Seq<DirRow>,
    node: TreeNode,
    total_draws: u64,
    universe: u64,
)
    requires
        node.children@.len() > MAX_DISPLAYED_ROWS,
    ensures
        ({
            let level = total_amount(child_sizes(node, total_draws, universe));
            let shown = total_amount(row_sizes(rows));
            let rest = hidden_rest(rows, node, total_draws, universe);
            &&& rest is Some
            &&& match rest {
                Some((_, bytes)) => {
                    &&& level.bits <= shown.bits ==> bytes.bits == 0
                    &&& level.bits > shown.bits && level.is_finite() && pow2(52) <= level.amount()
                        - shown.amount() <= pow2(2097) ==> close(
                        bytes.amount(),
                        (level.amount() - shown.amount()) as nat,
                        2,
                    )
                },
                None => false,
            }
        }),
{
    let level = total_amount(child_sizes(node, total_draws, universe));
    let shown = total_amount(row_sizes(rows));
    if level.bits > shown.bits && level.is_finite() && pow2(52) <= level.amount() - shown.amount()
        <= pow2(2097) {
        let n = (level.amount() - shown.amount()) as nat;
        lemma_pow2_strictly_increases(52, 2097);
        lemma_round_close(n, 1, 52, 2097);
        assert(units(nearest(n, 1)) * 1 == units(nearest(n, 1)));
    }
}

/// Each row shows one child, no two rows the same, and shows it as it is: its name, inode and
/// counts, and for its hits and those of each category the size that they stand for.
pub proof fn law_rows_show_children(
    rows: Seq<DirRow>,
    node: TreeNode,
    order: Seq<usize>,
    total_draws: u64,
    universe: u64,
    i: int,
)
    requires
        rows_show(rows, node, order, total_draws, universe),
        0 <= i < rows.len(),
    ensures
        0 <= order[i] < node.children@.len(),
        forall|j: int| 0 <= j < rows.len() && j != i ==> #[trigger] order[j] != order[i],
        ({
            let row = rows[i];
            let child = node.children@[order[i] as int];
            &&& row.name@ == child.name@
            &&& row.inode == child.node.inode
            &&& row.has_children <==> child.node.children@.len() > 0
            &&& row.total_samples == total_number(child.node.counts@)
            &&& row.total_bytes == estimate(total_amount(child.node.hits@), total_draws, universe)
            &&& forall|c: int|
                0 <= c < 5 ==> #[trigger] row.samples_by_category@[c] == child.node.counts@[c]
                    && row.bytes_by_category@[c] == estimate(
                    child.node.hits@[c],
                    total_draws,
                    universe,
                )
        }),
{
    let keys = key_bits(child_sizes(node, total_draws, universe));
    assert(row_shows(rows[i], node.children@[order[i] as int], total_draws, universe));
    assert(0 <= order[i] < keys.len());
    assert forall|j: int| 0 <= j < rows.len() && j != i implies #[trigger] order[j]
        != order[i] by {
        if j < i {
            assert(comes_before(keys, order[j] as int, order[i] as int));
        } else {
            assert(comes_before(keys, order[i] as int, order[j] as int));
        }
    }
}

/// The node that a path leads to.
fn find<'a>(tree: &'a TreeNode, path: &Vec<String>) -> (r: Option<&'a TreeNode>)
    requires
        tree.wf(),
    ensures
        match r {
            Some(node) => tree.descend(views(path@)) == Some(*node) && node.wf(),
            None => tree.descend(views(path@)) is None,
        },
{
    let ghost names = views(path@);
    let mut node: &TreeNode = tree;
    let mut k: usize = 0;
    proof {
        assert(names.skip(0) =~= names);
    }
    while k < path.len()
        invariant
            names == views(path@),
            k <= path@.len(),
            node.wf(),
            tree.descend(names) == node.descend(names.skip(k as int)),
        decreases path@.len() - k,
    {
        proof {
            assert(names.skip(k as int)[0] == path@[k as int]@);
            assert(names.skip(k as int).drop_first() =~= names.skip(k + 1));
        }
        match node.index.get(path[k].as_str()) {
            Some(i) => {
                node = &node.children[*i].node;
            },
            None => {
                return None;
            },
        }
        k = k + 1;
    }
    Some(node)
}

/// The row for one child.
fn row_of(child: &Child, total_draws: u64, universe: u64) -> (r: DirRow)
    requires
        child.node.totals_wf(),
    ensures
        row_shows(r, *child, total_draws, universe),
        r.wf(),
{
    let node: &TreeNode = &child.node;
    let none: Quantity = Quantity::zero();
    let mut bytes: [Quantity; 5] = [none, none, none, none, none];
    let mut c: usize = 0;
    proof {
        lemma_power_bits(53);
    }
    while c < 5
        invariant
            c <= 5,
            node == child.node,
            node.totals_wf(),
            power_bits(53) < crate::rounding::INFINITY,
            forall|k: int|
                0 <= k < c ==> #[trigger] bytes@[k] == estimate(node.hits@[k], total_draws, universe)
                    && bytes@[k].wf(),
        decreases 5 - c,
    {
        let size: Quantity = hits_to_bytes(node.hits[c], total_draws, universe);
        bytes[c] = size;
        c = c + 1;
    }
    DirRow {
        name: child.name.clone(),
        total_bytes: hits_to_bytes(node.total_hits(), total_draws, universe),
        total_samples: node.total_count(),
        bytes_by_category: bytes,
        samples_by_category: node.counts,
        has_children: node.children.len() > 0,
        inode: node.inode,
    }
}

/// Amounts added up in their order.
fn sum_all(amounts: &Vec<Quantity>) -> (r: Quantity)
    requires
        forall|i: int| 0 <= i < amounts@.len() ==> (#[trigger] amounts@[i]).wf(),
    ensures
        r == total_amount(amounts@),
        r.wf(),
{
    let mut r: Quantity = Quantity::zero();
    let mut k: usize = 0;
    proof {
        assert(amounts@.take(0) =~= Seq::empty());
    }
    while k < amounts.len()
        invariant
            k <= amounts@.len(),
            forall|i: int| 0 <= i < amounts@.len() ==> (#[trigger] amounts@[i]).wf(),
            r == total_amount(amounts@.take(k as int)),
            r.wf(),
        decreases amounts@.len() - k,
    {
        proof {
            assert(amounts@.take(k + 1).drop_last() =~= amounts@.take(k as int));
        }
        r = r.plus(amounts[k]);
        k = k + 1;
    }
    proof {
        assert(amounts@.take(amounts@.len() as int) =~= amounts@);
    }
    r
}

/// The rows of the directory that a path leads to, the greatest first, and what is left
/// out where there are more than are shown. A path that leads nowhere has no rows.
pub fn read_current_level(
    state: &SharedState,
    path: &Vec<String>,
    total_draws: u64,
) -> (r: (Vec<DirRow>, Option<(usize, Quantity)>))
    requires
        state.wf(),
    ensures
        match state.tree.descend(views(path@)) {
            None => r.0@.len() == 0 && r.1 is None,
            Some(node) => {
                &&& exists|order: Seq<usize>| #[trigger]
                    rows_show(r.0@, node, order, total_draws, state.universe_bytes)
                &&& r.1 == hidden_rest(r.0@, node, total_draws, state.universe_bytes)
            },
        },
        forall|i: int| 0 <= i < r.0@.len() ==> (#[trigger] r.0@[i]).wf(),
        match r.1 {
            Some((_, size)) => size.wf(),
            None => true,
        },
{
    let universe: u64 = state.universe_bytes;
    let node: &TreeNode = match find(&state.tree, path) {
        Some(node) => node,
        None => {
            return (Vec::new(), None);
        },
    };
    let ghost sizes = child_sizes(*node, total_draws, universe);
    let n: usize = node.children.len();
    let mut totals: Vec<Quantity> = Vec::new();
    let mut keys: Vec<u64> = Vec::new();
    let mut k: usize = 0;
    while k < n
        invariant
            n == node.children@.len(),
            node.wf(),
            sizes == child_sizes(*node, total_draws, universe),
            k <= n,
            totals@ == sizes.take(k as int),
            keys@ == key_bits(sizes).take(k as int),
            forall|i: int| 0 <= i < totals@.len() ==> (#[trigger] totals@[i]).wf(),
        decreases n - k,
    {
        let child: &Child = &node.children[k];
        proof {
            assert(node.children@[k as int].node.wf());
            assert(sizes.take(k + 1) =~= sizes.take(k as int).push(sizes[k as int]));
            assert(key_bits(sizes).take(k + 1) =~= key_bits(sizes).take(k as int).push(
                sizes[k as int].bits,
            ));
        }
        let size: Quantity = hits_to_bytes(child.node.total_hits(), total_draws, universe);
        totals.push(size);
        keys.push(size.bits);
        k = k + 1;
    }
    proof {
        assert(sizes.take(n as int) =~= sizes);
        assert(key_bits(sizes).take(n as int) =~= key_bits(sizes));
    }
    let order: Vec<usize> = rank(&keys);
    let shown: usize = if n <= MAX_DISPLAYED_ROWS {
        n
    } else {
        MAX_DISPLAYED_ROWS
    };
    let mut rows: Vec<DirRow> = Vec::new();
    let mut shown_sizes: Vec<Quantity> = Vec::new();
    let mut i: usize = 0;
    while i < shown
        invariant
            n == node.children@.len(),
            node.wf(),
            shown <= n,
            is_ranking(keys@, order@),
            keys@.len() == n,
            i <= shown,
            rows@.len() == i,
            shown_sizes@ == row_sizes(rows@),
            forall|j: int|
                0 <= j < i ==> row_shows(
                    #[trigger] rows@[j],
                    node.children@[order@[j] as int],
                    total_draws,
                    universe,
                ) && rows@[j].wf(),
        decreases shown - i,
    {
        let ghost before = rows@;
        proof {
            assert(0 <= order@[i as int] < n);
            assert(node.children@[order@[i as int] as int].node.wf());
        }
        let row: DirRow = row_of(&node.children[order[i]], total_draws, universe);
        shown_sizes.push(row.total_bytes);
        rows.push(row);
        proof {
            assert(row_sizes(rows@) =~= row_sizes(before).push(row.total_bytes));
        }
        i = i + 1;
    }
    proof {
        assert(rows_show(rows@, *node, order@, total_draws, universe));
    }
    if n <= MAX_DISPLAYED_ROWS {
        return (rows, None);
    }
    proof {
        assert forall|j: int| 0 <= j < shown_sizes@.len() implies (
        #[trigger] shown_sizes@[j]).wf() by {
            assert(shown_sizes@[j] == rows@[j].total_bytes);
        }
    }
    let level_total: Quantity = sum_all(&totals);
    let shown_total: Quantity = sum_all(&shown_sizes);
    (rows, Some((n - MAX_DISPLAYED_ROWS, level_total.excess_over(shown_total))))
}

} // verus!
