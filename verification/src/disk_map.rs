//! The map of the devices: where on each of them the samples lie, and of what kind they are.
use crate::aggregator::{cells_number, SharedState};
use crate::figures::{human, human_bytes};
use crate::info::{plain_line, push_line, push_span, push_text};
use crate::model::{greatest, greatest_of, is_last_greatest, lemma_greatest_of, sum_of, Category, DeviceMap, MapCell};
use crate::quantity::{
    lemma_of_bounds, lemma_of_exact, lemma_of_monotone, lemma_one_is_neutral, lemma_power_bits,
    lemma_quotient_monotone, Quantity,
};
use crate::screen::{
    bold, category_color, color_of, colored, heading, line_views, plain, raw, span_views, strong,
    tinted, underlined, with_number, Color, Span, SpanView,
};
use crate::rounding::{
    lemma_nearest_exact, lemma_nearest_exists, lemma_nearest_monotone, lemma_units_of_parts,
    lemma_units_ordered, one_units, units, FRACTION, INFINITY,
};
use crate::text::{decimal, decimal_value, law_decimal_reads_back};
use vstd::arithmetic::div_mod::lemma_fundamental_div_mod;
use vstd::arithmetic::power2::{
    lemma2_to64_rest, lemma_pow2_adds, lemma_pow2_pos, lemma_pow2_unfold, pow2,
};
use vstd::prelude::*;
use vstd::slice::slice_subrange;
use vstd::string::*;

verus! {

/// Three quarters, a half and a quarter.
pub const THREE_QUARTERS: u64 = 0x3FE8_0000_0000_0000;

pub const ONE_HALF: u64 = 0x3FE0_0000_0000_0000;

pub const ONE_QUARTER: u64 = 0x3FD0_0000_0000_0000;

/// The hits of category `c` in the cells, added up in their order.
pub open spec fn combined_hits(cells: Seq<MapCell>, c: int) -> Quantity
    decreases cells.len(),
{
    if cells.len() == 0 {
        Quantity { bits: 0 }
    } else {
        combined_hits(cells.drop_last(), c).sum(cells.last().hits@[c])
    }
}

/// The hits of every category in the cells.
pub open spec fn combined(cells: Seq<MapCell>) -> Seq<Quantity> {
    Seq::new(5, |c: int| combined_hits(cells, c))
}

/// How many samples there are, in proportion to `most`.
pub open spec fn density(count: nat, most: u64) -> Quantity {
    if most == 0 {
        Quantity { bits: 0 }
    } else {
        Quantity::of(count).quotient(Quantity::of(most as nat))
    }
}

/// The denser the samples, the darker the character.
pub open spec fn shade(density: Quantity) -> char {
    if density.bits > THREE_QUARTERS {
        '█'
    } else if density.bits > ONE_HALF {
        '▓'
    } else if density.bits > ONE_QUARTER {
        '▒'
    } else {
        '░'
    }
}

/// What stands for some cells: a space where there are no samples, else a character for
/// their density in the color of the category that has most hits.
pub open spec fn glyph(cells: Seq<MapCell>, most: u64) -> (char, Color) {
    if cells_number(cells) == 0 {
        (' ', Color::DarkGray)
    } else {
        (shade(density(cells_number(cells), most)), color_of(greatest_of(combined(cells))))
    }
}

/// How dark a character is.
pub open spec fn darkness(mark: char) -> nat {
    if mark == '█' {
        4
    } else if mark == '▓' {
        3
    } else if mark == '▒' {
        2
    } else if mark == '░' {
        1
    } else {
        0
    }
}

/// The more samples there are, the darker the map: a stretch with more samples has no
/// lighter character, one without samples is left blank, and no other one is.
pub proof fn law_denser_is_darker(a: Seq<MapCell>, b: Seq<MapCell>, most: u64)
    requires
        cells_number(a) <= cells_number(b) <= u64::MAX,
    ensures
        darkness(glyph(a, most).0) <= darkness(glyph(b, most).0),
        glyph(a, most).0 == ' ' <==> cells_number(a) == 0,
        darkness(glyph(a, most).0) == 0 <==> cells_number(a) == 0,
{
    let x = cells_number(a);
    let y = cells_number(b);
    if most > 0 {
        lemma_of_bounds(x);
        lemma_of_bounds(y);
        lemma_of_bounds(most as nat);
        lemma_of_monotone(x, y);
        lemma_quotient_monotone(
            Quantity::of(x),
            Quantity::of(y),
            Quantity::of(most as nat),
            Quantity::of(most as nat),
        );
    }
}

/// One of the densities where the shade changes: `quarters` of a whole.
proof fn lemma_threshold(count: nat, most: u64, bits: u64, quarters: nat)
    requires
        0 < most <= pow2(50),
        count <= pow2(50),
        4 * units(bits as nat) == quarters * one_units(),
        (units((bits + 1) as nat) - units(bits as nat)) * pow2(52) <= one_units(),
        bits < INFINITY,
    ensures
        density(count, most).bits > bits <==> 4 * count > quarters * most,
{
    let one = one_units();
    let m = most as nat;
    lemma2_to64_rest();
    lemma_pow2_pos(1074);
    lemma_of_exact(count);
    lemma_of_exact(m);
    let n = (count * one) * one;
    let d = m * one;
    let u = units(bits as nat);
    let v = units((bits + 1) as nat);
    assert(d > 0) by (nonlinear_arith)
        requires
            d == m * one,
            m > 0,
            one > 0,
    ;
    lemma_nearest_exists(n, d);
    lemma_units_ordered(bits as nat, (bits + 1) as nat);
    if 4 * count > quarters * m {
        lemma_nearest_exact(d * v, d, (bits + 1) as nat);
        // Four counts are one more at least, and the step times four is less than that.
        let g = (v - u) as nat;
        assert(4 * (m * g) <= one) by (nonlinear_arith)
            requires
                g * pow2(52) <= one,
                m <= pow2(50),
                pow2(52) == 4 * pow2(50),
        ;
        assert(4 * (m * v) <= 4 * (count * one)) by (nonlinear_arith)
            requires
                4 * u == quarters * one,
                v == u + g,
                4 * (m * g) <= one,
                quarters * m + 1 <= 4 * count,
        ;
        assert((d * v) * d <= n * d) by (nonlinear_arith)
            requires
                m * v <= count * one,
                d == m * one,
                n == (count * one) * one,
        ;
        lemma_nearest_monotone(d * v, d, n, d);
    } else {
        lemma_nearest_exact(d * u, d, bits as nat);
        assert(4 * (count * one) <= 4 * (m * u)) by (nonlinear_arith)
            requires
                4 * u == quarters * one,
                4 * count <= quarters * m,
        ;
        assert(n * d <= (d * u) * d) by (nonlinear_arith)
            requires
                count * one <= m * u,
                d == m * one,
                n == (count * one) * one,
        ;
        lemma_nearest_monotone(n, d, d * u, d);
    }
}

/// The shade tells the quarter: the darkest stands for more than three quarters of `most`, the
/// next for more than a half, the next for more than a quarter, and the lightest for the rest,
/// exactly, up to 2 to the power of 50 samples.
pub proof fn law_shade_tells_quarter(cells: Seq<MapCell>, most: u64)
    requires
        0 < cells_number(cells) <= pow2(50),
        0 < most <= pow2(50),
    ensures
        glyph(cells, most).0 == '█' <==> 4 * cells_number(cells) > 3 * most,
        glyph(cells, most).0 == '▓' <==> 2 * cells_number(cells) > most && 4 * cells_number(cells)
            <= 3 * most,
        glyph(cells, most).0 == '▒' <==> 4 * cells_number(cells) > most && 2 * cells_number(cells)
            <= most,
        glyph(cells, most).0 == '░' <==> 4 * cells_number(cells) <= most,
{
    let count = cells_number(cells);
    let one = one_units();
    let f = FRACTION as nat;
    lemma2_to64_rest();
    // One half and three quarters have the exponent 1021, one quarter the one before.
    lemma_units_of_parts(f, 1021);
    lemma_units_of_parts(f + 1, 1021);
    lemma_units_of_parts(f + f / 2, 1021);
    lemma_units_of_parts(f + f / 2 + 1, 1021);
    lemma_units_of_parts(f, 1020);
    lemma_units_of_parts(f + 1, 1020);
    lemma_pow2_adds(52, 1021);
    lemma_pow2_adds(52, 1020);
    lemma_pow2_unfold(1021);
    lemma_pow2_unfold(1073);
    lemma_pow2_unfold(1074);
    let p = pow2(1020);
    let q = pow2(1021);
    assert(ONE_HALF == 1021 * f + f);
    assert(THREE_QUARTERS == 1021 * f + (f + f / 2));
    assert(ONE_QUARTER == 1020 * f + f);
    assert(f * q == pow2(1073) && f * p == pow2(1072));
    assert((f + 1) * q == f * q + q && (f + 1) * p == f * p + p) by (nonlinear_arith);
    let h = f / 2;
    assert((f + h) * q == f * q + h * q && (f + h + 1) * q == f * q + h * q + q)
        by (nonlinear_arith);
    assert(2 * (h * q) == f * q) by (nonlinear_arith)
        requires
            2 * h == f,
    ;
    assert(q * pow2(52) == pow2(1073)) by (nonlinear_arith)
        requires
            f * q == pow2(1073),
            f == pow2(52),
    ;
    assert(p * pow2(52) == pow2(1072)) by (nonlinear_arith)
        requires
            f * p == pow2(1072),
            f == pow2(52),
    ;
    lemma_threshold(count, most, THREE_QUARTERS, 3);
    lemma_threshold(count, most, ONE_HALF, 2);
    lemma_threshold(count, most, ONE_QUARTER, 1);
}

/// The color of a stretch is that of a category whose hits there are not less than those of any
/// other, and more than those of each that comes after it.
pub proof fn law_color_of_most_hits(cells: Seq<MapCell>, most: u64)
    requires
        cells_number(cells) > 0,
    ensures
        exists|cat: Category| #[trigger]
            color_of(cat) == glyph(cells, most).1 && forall|other: Category|
                combined_hits(cells, #[trigger] other.place()).bits <= combined_hits(
                    cells,
                    cat.place(),
                ).bits && (other.place() > cat.place() ==> combined_hits(
                    cells,
                    other.place(),
                ).bits < combined_hits(cells, cat.place()).bits),
{
    let amounts = combined(cells);
    lemma_greatest_of(amounts);
    let cat = greatest_of(amounts);
    assert forall|other: Category|
        combined_hits(cells, #[trigger] other.place()).bits <= combined_hits(
            cells,
            cat.place(),
        ).bits && (other.place() > cat.place() ==> combined_hits(cells, other.place()).bits
            < combined_hits(cells, cat.place()).bits) by {
        assert(amounts[other.place()].bits <= amounts[cat.place()].bits);
    }
    assert(color_of(cat) == glyph(cells, most).1);
}

/// Whole hits of cells add up exactly, up to 2 to the power of 53.
pub proof fn law_whole_hits_combine(cells: Seq<MapCell>, c: int, numbers: Seq<nat>)
    requires
        numbers.len() == cells.len(),
        forall|i: int|
            0 <= i < cells.len() ==> (#[trigger] cells[i]).hits@[c] == Quantity::of(numbers[i]),
        sum_of(numbers) <= pow2(53),
    ensures
        combined_hits(cells, c) == Quantity::of(sum_of(numbers)),
    decreases cells.len(),
{
    if cells.len() == 0 {
        lemma_of_bounds(0);
    } else {
        let rest = cells.drop_last();
        let fewer = numbers.drop_last();
        assert forall|i: int| 0 <= i < rest.len() implies (#[trigger] rest[i]).hits@[c]
            == Quantity::of(fewer[i]) by {
            assert(rest[i] == cells[i]);
        }
        law_whole_hits_combine(rest, c, fewer);
        assert(cells[cells.len() - 1].hits@[c] == Quantity::of(numbers.last()));
        let one = one_units();
        let (x, y) = (sum_of(fewer), numbers.last());
        lemma_of_exact(x);
        lemma_of_exact(y);
        assert(x * one + y * one == (x + y) * one) by (nonlinear_arith);
    }
}

/// A stretch with as many samples as the cell that has most of them is as dark as can be.
pub proof fn law_most_is_darkest(cells: Seq<MapCell>, most: u64)
    requires
        most > 0,
        most <= cells_number(cells) <= u64::MAX,
    ensures
        glyph(cells, most).0 == '█',
{
    let count = cells_number(cells);
    let one = Quantity::of(most as nat);
    lemma_of_bounds(count);
    lemma_of_bounds(most as nat);
    lemma_of_monotone(most as nat, count);
    lemma_quotient_monotone(one, Quantity::of(count), one, one);
    lemma_one_is_neutral(one);
    lemma_of_bounds(1);
    lemma_power_bits(0);
}

/// The hits of the cells are amounts, and their samples can be counted.
pub open spec fn cells_wf(cells: Seq<MapCell>) -> bool {
    &&& forall|i: int, c: int|
        0 <= i < cells.len() && 0 <= c < 5 ==> (#[trigger] cells[i].hits@[c]).wf()
    &&& cells_number(cells) <= u64::MAX
}

/// A part of the cells has no more samples than all of them.
proof fn lemma_part_within(cells: Seq<MapCell>, a: int, b: int)
    requires
        0 <= a <= b <= cells.len(),
    ensures
        cells_number(cells.subrange(a, b)) <= cells_number(cells),
    decreases cells.len(),
{
    if b < cells.len() {
        lemma_part_within(cells.drop_last(), a, b);
        assert(cells.drop_last().subrange(a, b) =~= cells.subrange(a, b));
    } else if a < b {
        lemma_part_within(cells.drop_last(), a, b - 1);
        assert(cells.subrange(a, b).drop_last() =~= cells.drop_last().subrange(a, b - 1));
    }
}

/// What stands for some cells on the map.
pub fn aggregate_cells(cells: &[MapCell], global_max_count: u64) -> (r: (char, Color))
    requires
        cells_wf(cells@),
    ensures
        r == glyph(cells@, global_max_count),
        cells_number(cells@) > 0 ==> exists|cat: Category|
            #[trigger] is_last_greatest(combined(cells@), cat.place()) && r.1 == color_of(cat),
{
    let none: Quantity = Quantity { bits: 0 };
    let mut hits: [Quantity; 5] = [none, none, none, none, none];
    let mut count: u64 = 0;
    let mut i: usize = 0;
    proof {
        assert(cells@.take(0) =~= Seq::empty());
    }
    while i < cells.len()
        invariant
            cells_wf(cells@),
            i <= cells@.len(),
            count == cells_number(cells@.take(i as int)),
            forall|c: int|
                0 <= c < 5 ==> {
                    &&& (#[trigger] hits@[c]).wf()
                    &&& hits@[c] == combined_hits(cells@.take(i as int), c)
                },
        decreases cells@.len() - i,
    {
        let ghost more = cells@.take(i + 1);
        let ghost before = hits@;
        proof {
            assert(more.drop_last() =~= cells@.take(i as int));
            assert(more =~= cells@.subrange(0, i + 1));
            lemma_part_within(cells@, 0, i + 1);
        }
        count = count + cells[i].count;
        let mut c: usize = 0;
        while c < 5
            invariant
                i < cells@.len(),
                cells_wf(cells@),
                more.len() > 0,
                more.last() == cells@[i as int],
                c <= 5,
                before.len() == 5,
                forall|k: int|
                    0 <= k < 5 ==> {
                        &&& (#[trigger] before[k]).wf()
                        &&& before[k] == combined_hits(more.drop_last(), k)
                    },
                forall|k: int|
                    0 <= k < c ==> {
                        &&& (#[trigger] hits@[k]).wf()
                        &&& hits@[k] == combined_hits(more, k)
                    },
                forall|k: int| c <= k < 5 ==> #[trigger] hits@[k] == before[k],
            decreases 5 - c,
        {
            proof {
                assert(before[c as int].wf());
                assert(hits@[c as int] == before[c as int]);
                assert(cells@[i as int].hits@[c as int].wf());
            }
            let sum: Quantity = hits[c].plus(cells[i].hits[c]);
            hits[c] = sum;
            c = c + 1;
        }
        i = i + 1;
    }
    proof {
        assert(cells@.take(cells@.len() as int) =~= cells@);
        assert(hits@ =~= combined(cells@));
    }
    if count == 0 {
        return (' ', Color::DarkGray);
    }
    let dominant: Category = greatest(&hits);
    let share: Quantity = if global_max_count == 0 {
        Quantity::zero()
    } else {
        proof {
            lemma_of_bounds(count as nat);
            lemma_of_bounds(global_max_count as nat);
        }
        Quantity::from_u64(count).over(Quantity::from_u64(global_max_count))
    };
    let mark: char = if share.bits > THREE_QUARTERS {
        '█'
    } else if share.bits > ONE_HALF {
        '▓'
    } else if share.bits > ONE_QUARTER {
        '▒'
    } else {
        '░'
    };
    (mark, category_color(dominant))
}

/// The greatest number of samples in one of the cells.
pub open spec fn most_of(cells: Seq<MapCell>) -> u64
    decreases cells.len(),
{
    if cells.len() == 0 {
        0
    } else {
        let before = most_of(cells.drop_last());
        if cells.last().count > before {
            cells.last().count
        } else {
            before
        }
    }
}

/// The greatest number of samples in one of the cells of the devices.
pub open spec fn most_samples(map: Seq<DeviceMap>) -> u64
    decreases map.len(),
{
    if map.len() == 0 {
        0
    } else {
        let before = most_samples(map.drop_last());
        let here = most_of(map.last().cells@);
        if here > before {
            here
        } else {
            before
        }
    }
}

/// No cell of any device has more samples than the greatest number, and some cell has as many,
/// unless it is zero.
pub proof fn law_most_is_greatest(map: Seq<DeviceMap>)
    ensures
        forall|d: int, i: int|
            0 <= d < map.len() && 0 <= i < map[d].cells@.len() ==> (
            #[trigger] map[d].cells@[i]).count <= most_samples(map),
        most_samples(map) > 0 ==> exists|d: int, i: int|
            0 <= d < map.len() && 0 <= i < map[d].cells@.len() && (
            #[trigger] map[d].cells@[i]).count == most_samples(map),
    decreases map.len(),
{
    if map.len() > 0 {
        let rest = map.drop_last();
        let last = map.len() - 1;
        law_most_is_greatest(rest);
        lemma_most_of(map[last].cells@);
        assert forall|d: int, i: int|
            0 <= d < map.len() && 0 <= i < map[d].cells@.len() implies (
        #[trigger] map[d].cells@[i]).count <= most_samples(map) by {
            if d < last {
                assert(rest[d].cells@[i].count <= most_samples(rest));
            }
        }
        if most_samples(map) > 0 {
            if most_of(map[last].cells@) > most_samples(rest) {
                let i = choose|i: int|
                    0 <= i < map[last].cells@.len() && (#[trigger] map[last].cells@[i]).count
                        == most_of(map[last].cells@);
                assert(map[last].cells@[i].count == most_samples(map));
            } else {
                let (d, i) = choose|d: int, i: int|
                    0 <= d < rest.len() && 0 <= i < rest[d].cells@.len() && (
                    #[trigger] rest[d].cells@[i]).count == most_samples(rest);
                assert(map[d].cells@[i].count == most_samples(map));
            }
        }
    }
}

proof fn lemma_most_of(cells: Seq<MapCell>)
    ensures
        forall|i: int| 0 <= i < cells.len() ==> (#[trigger] cells[i]).count <= most_of(cells),
        most_of(cells) > 0 ==> exists|i: int|
            0 <= i < cells.len() && (#[trigger] cells[i]).count == most_of(cells),
    decreases cells.len(),
{
    if cells.len() > 0 {
        let rest = cells.drop_last();
        lemma_most_of(rest);
        assert forall|i: int| 0 <= i < cells.len() implies (#[trigger] cells[i]).count <= most_of(
            cells,
        ) by {
            if i < rest.len() {
                assert(rest[i] == cells[i]);
            }
        }
        if most_of(cells) > 0 {
            if cells.last().count > most_of(rest) {
                assert(cells[cells.len() - 1].count == most_of(cells));
            } else {
                let i = choose|i: int|
                    0 <= i < rest.len() && (#[trigger] rest[i]).count == most_of(rest);
                assert(cells[i].count == most_of(cells));
            }
        }
    }
}

fn most_in(cells: &Vec<MapCell>) -> (r: u64)
    ensures
        r == most_of(cells@),
{
    let mut r: u64 = 0;
    let mut i: usize = 0;
    proof {
        assert(cells@.take(0) =~= Seq::empty());
    }
    while i < cells.len()
        invariant
            i <= cells@.len(),
            r == most_of(cells@.take(i as int)),
        decreases cells@.len() - i,
    {
        proof {
            assert(cells@.take(i + 1).drop_last() =~= cells@.take(i as int));
        }
        if cells[i].count > r {
            r = cells[i].count;
        }
        i = i + 1;
    }
    proof {
        assert(cells@.take(cells@.len() as int) =~= cells@);
    }
    r
}

/// The greatest number of samples in one of the cells of the devices.
pub fn greatest_count(map: &Vec<DeviceMap>) -> (r: u64)
    ensures
        r == most_samples(map@),
{
    let mut r: u64 = 0;
    let mut d: usize = 0;
    proof {
        assert(map@.take(0) =~= Seq::empty());
    }
    while d < map.len()
        invariant
            d <= map@.len(),
            r == most_samples(map@.take(d as int)),
        decreases map@.len() - d,
    {
        proof {
            assert(map@.take(d + 1).drop_last() =~= map@.take(d as int));
        }
        let here: u64 = most_in(&map[d].cells);
        if here > r {
            r = here;
        }
        d = d + 1;
    }
    proof {
        assert(map@.take(map@.len() as int) =~= map@);
    }
    r
}

/// The first cell that character `i` of `width` stands for.
pub open spec fn first_cell(i: int, width: nat, cells: nat) -> int {
    (i * cells) / (width as int)
}

/// The cell after the last one that character `i` of `width` stands for. There is one cell
/// at least.
pub open spec fn end_cell(i: int, width: nat, cells: nat) -> int {
    let start = first_cell(i, width, cells);
    let end = first_cell(i + 1, width, cells);
    let end = if end > start {
        end
    } else {
        start + 1
    };
    if end < cells {
        end
    } else {
        cells as int
    }
}

/// The character at place `i` of the row of a device.
pub open spec fn map_span(cells: Seq<MapCell>, most: u64, width: nat, i: int) -> SpanView {
    let part = cells.subrange(
        first_cell(i, width, cells.len()),
        end_cell(i, width, cells.len()),
    );
    let (mark, color) = glyph(part, most);
    colored(seq![mark], color)
}

/// The row of a device.
pub open spec fn map_row(cells: Seq<MapCell>, most: u64, width: nat) -> Seq<SpanView> {
    Seq::new(width, |i: int| map_span(cells, most, width, i))
}

/// The line over the row of a device.
pub open spec fn device_title(device: DeviceMap) -> Seq<char> {
    "devid "@ + decimal(device.devid as nat) + "  "@ + device.path@ + "  ("@ + human(
        Quantity::of(device.total_bytes as nat),
    ) + ")"@
}

/// The lines of the first `k` devices.
pub open spec fn device_lines(map: Seq<DeviceMap>, most: u64, width: nat, k: nat) -> Seq<
    Seq<SpanView>,
>
    decreases k,
{
    if k == 0 {
        Seq::empty()
    } else {
        let device = map[k - 1];
        device_lines(map, most, width, (k - 1) as nat).push(
            seq![heading(device_title(device))],
        ).push(map_row(device.cells@, most, width)).push(plain_line(""@))
    }
}

/// How many characters fit between the borders, at least one.
pub open spec fn inner_width(area_width: u16) -> nat {
    if area_width > 3 {
        (area_width - 2) as nat
    } else {
        1
    }
}

/// What the colors mean.
pub open spec fn color_key() -> Seq<SpanView> {
    seq![
        colored("■ "@, Color::Green),
        plain("exclusive   "@),
        colored("■ "@, Color::Yellow),
        plain("shared   "@),
        colored("■ "@, Color::Cyan),
        plain("metadata   "@),
        colored("■ "@, Color::Magenta),
        plain("system   "@),
        colored("■ "@, Color::DarkGray),
        plain("unallocated"@),
    ]
}

/// The lines over the devices.
pub open spec fn map_head(is_empty: bool) -> Seq<Seq<SpanView>> {
    let lines = seq![
        seq![strong("Disk map — physical layout, one row per device"@)],
        plain_line(""@),
    ];
    if is_empty {
        lines.push(plain_line("No device size information available for the disk map."@))
    } else {
        lines
    }
}

/// The lines of the map.
pub open spec fn map_text(map: Seq<DeviceMap>, area_width: u16) -> Seq<Seq<SpanView>> {
    (map_head(map.len() == 0) + device_lines(
        map,
        most_samples(map),
        inner_width(area_width),
        map.len(),
    )).push(
        plain_line(
            "shade = sample density (space = no samples yet, █ = most-sampled region); color = dominant category there:"@,
        ),
    ).push(color_key())
}

/// The cells of a character are among the cells of the device.
proof fn lemma_cell_range(i: int, width: nat, cells: nat)
    requires
        0 <= i < width,
        cells > 0,
    ensures
        0 <= first_cell(i, width, cells) < end_cell(i, width, cells) <= cells,
        0 <= i * cells <= (i + 1) * cells <= width * cells,
        first_cell(i + 1, width, cells) <= cells,
{
    let w = width as int;
    let n = cells as int;
    assert(0 <= i * n < w * n && (i + 1) * n <= w * n && i * n <= (i + 1) * n) by (nonlinear_arith)
        requires
            0 <= i < w,
            n > 0,
    ;
    let a = i * n;
    let b = (i + 1) * n;
    assert(0 <= a / w < n) by (nonlinear_arith)
        requires
            0 <= a < w * n,
            w > 0,
    ;
    assert(b / w <= n) by (nonlinear_arith)
        requires
            b <= w * n,
            w > 0,
    ;
}

/// Character `i` of `width` stands for cell `k`.
pub open spec fn stands_for(i: int, width: nat, cells: nat, k: int) -> bool {
    &&& 0 <= i < width
    &&& first_cell(i, width, cells) <= k < end_cell(i, width, cells)
}

/// Whatever the width, every character stands for some cells, all of them cells of the
/// device, and every cell is shown by some character.
pub proof fn law_every_cell_shown(width: nat, cells: nat)
    requires
        width > 0,
        cells > 0,
    ensures
        forall|i: int|
            0 <= i < width ==> 0 <= #[trigger] first_cell(i, width, cells) < end_cell(
                i,
                width,
                cells,
            ) <= cells,
        forall|k: int| 0 <= k < cells ==> #[trigger] is_shown(width, cells, k),
{
    assert forall|i: int| 0 <= i < width implies 0 <= #[trigger] first_cell(i, width, cells)
        < end_cell(i, width, cells) <= cells by {
        lemma_cell_range(i, width, cells);
    }
    assert forall|k: int| 0 <= k < cells implies #[trigger] is_shown(width, cells, k) by {
        // The last character that does not start behind the cell.
        let w = width as int;
        let n = cells as int;
        let i = ((k + 1) * w - 1) / n;
        let m = (k + 1) * w;
        assert(w <= m <= n * w) by (nonlinear_arith)
            requires
                m == (k + 1) * w,
                0 <= k < n,
                w > 0,
        ;
        assert(0 <= i < w && i * n < m <= (i + 1) * n) by (nonlinear_arith)
            requires
                i == (m - 1) / n,
                0 < m <= n * w,
                n > 0,
        ;
        let a = i * n;
        let b = (i + 1) * n;
        assert(a / w <= k) by (nonlinear_arith)
            requires
                a < m,
                m == (k + 1) * w,
                w > 0,
        ;
        assert(b / w >= k + 1) by (nonlinear_arith)
            requires
                b >= m,
                m == (k + 1) * w,
                w > 0,
        ;
        assert(stands_for(i, width, cells, k));
    }
}

/// Some character stands for cell `k`.
pub open spec fn is_shown(width: nat, cells: nat, k: int) -> bool {
    exists|i: int| #[trigger] stands_for(i, width, cells, k)
}

/// Where there are at least as many cells as characters, the characters share the cells:
/// each stands for the cells from where the one before it ends, from the first to the last.
pub proof fn law_characters_share_cells(i: int, width: nat, cells: nat)
    requires
        0 <= i < width <= cells,
    ensures
        first_cell(0, width, cells) == 0,
        end_cell(i, width, cells) == first_cell(i + 1, width, cells),
        first_cell(i, width, cells) < end_cell(i, width, cells),
        first_cell(width as int, width, cells) == cells,
{
    lemma_cell_range(i, width, cells);
    let w = width as int;
    let n = cells as int;
    let a = i * n;
    let b = (i + 1) * n;
    assert(a + w <= b) by (nonlinear_arith)
        requires
            a == i * n,
            b == (i + 1) * n,
            w <= n,
    ;
    assert(a / w + 1 <= b / w) by (nonlinear_arith)
        requires
            a + w <= b,
            w > 0,
    ;
    assert((w * n) / w == n) by (nonlinear_arith)
        requires
            w > 0,
    ;
    assert((0 * n) / w == 0) by (nonlinear_arith)
        requires
            w > 0,
    ;
}

/// The first cell of a character lies as far along the device as the character along the row.
pub proof fn law_character_in_proportion(i: int, width: nat, cells: nat)
    requires
        0 <= i,
        width > 0,
    ensures
        first_cell(i, width, cells) * width <= i * cells < (first_cell(i, width, cells) + 1)
            * width,
{
    let a = i * cells;
    let w = width as int;
    lemma_fundamental_div_mod(a, w);
    let q = a / w;
    assert(w * q == q * w && (q + 1) * w == q * w + w) by (nonlinear_arith);
}

/// Each device has three lines, in the order of the map: one with its number, which is read
/// back from it, its path and its size, its row, and an empty one. They stand behind the two
/// lines of the head and before the two of the key.
pub proof fn law_map_has_each_device(map: Seq<DeviceMap>, area_width: u16, d: int)
    requires
        0 <= d < map.len(),
    ensures
        ({
            let lines = map_text(map, area_width);
            let title = lines[2 + 3 * d][0].text;
            let digits = decimal(map[d].devid as nat);
            &&& lines.len() == 4 + 3 * map.len()
            &&& lines[2 + 3 * d].len() == 1
            &&& "devid "@.is_prefix_of(title)
            &&& decimal_value(title.subrange(6, 6 + digits.len() as int)) == map[d].devid
            &&& (map[d].path@ + "  ("@ + human(Quantity::of(map[d].total_bytes as nat))
                + ")"@).is_suffix_of(title)
            &&& lines[3 + 3 * d] == map_row(
                map[d].cells@,
                most_samples(map),
                inner_width(area_width),
            )
            &&& lines[4 + 3 * d] == plain_line(""@)
        }),
{
    let lines = map_text(map, area_width);
    let most = most_samples(map);
    let width = inner_width(area_width);
    lemma_device_lines(map, most, width, map.len(), d);
    let part = device_lines(map, most, width, map.len());
    assert(lines[2 + 3 * d] == part[3 * d]);
    assert(lines[3 + 3 * d] == part[3 * d + 1]);
    assert(lines[4 + 3 * d] == part[3 * d + 2]);
    let title = device_title(map[d]);
    let digits = decimal(map[d].devid as nat);
    let tail = map[d].path@ + "  ("@ + human(Quantity::of(map[d].total_bytes as nat)) + ")"@;
    reveal_strlit("devid ");
    reveal_strlit("  ");
    law_decimal_reads_back(map[d].devid as nat);
    assert("devid "@ =~= title.subrange(0, 6));
    assert(title.subrange(6, 6 + digits.len() as int) =~= digits);
    assert(title =~= "devid "@ + digits + "  "@ + tail);
    assert(tail =~= title.subrange(title.len() - tail.len(), title.len() as int));
}

proof fn lemma_device_lines(map: Seq<DeviceMap>, most: u64, width: nat, k: nat, d: int)
    requires
        0 <= d < k <= map.len(),
    ensures
        device_lines(map, most, width, k).len() == 3 * k,
        device_lines(map, most, width, k)[3 * d] == seq![heading(device_title(map[d]))],
        device_lines(map, most, width, k)[3 * d + 1] == map_row(map[d].cells@, most, width),
        device_lines(map, most, width, k)[3 * d + 2] == plain_line(""@),
    decreases k,
{
    reveal_with_fuel(device_lines, 2);
    if d < k - 1 {
        lemma_device_lines(map, most, width, (k - 1) as nat, d);
    } else if k > 1 {
        lemma_device_lines(map, most, width, (k - 1) as nat, 0);
    }
}

/// As many characters as there is room for between the borders, and one at least.
pub proof fn law_row_fits_area(cells: Seq<MapCell>, most: u64, area_width: u16)
    ensures
        map_row(cells, most, inner_width(area_width)).len() >= 1,
        area_width >= 3 ==> map_row(cells, most, inner_width(area_width)).len() + 2 == area_width,
        forall|i: int|
            0 <= i < inner_width(area_width) ==> (#[trigger] map_row(
                cells,
                most,
                inner_width(area_width),
            )[i]).text.len() == 1,
{
}

fn device_row(cells: &Vec<MapCell>, most: u64, width: usize) -> (r: Vec<Span>)
    requires
        cells_wf(cells@),
        cells@.len() > 0,
        0 < width <= u16::MAX,
    ensures
        span_views(r@) == map_row(cells@, most, width as nat),
{
    let mut r: Vec<Span> = Vec::new();
    let count: usize = cells.len();
    let mut i: usize = 0;
    while i < width
        invariant
            cells_wf(cells@),
            count == cells@.len(),
            count > 0,
            i <= width,
            0 < width <= u16::MAX,
            r@.len() == i,
            forall|j: int|
                0 <= j < i ==> (#[trigger] r@[j])@ == map_span(cells@, most, width as nat, j),
        decreases width - i,
    {
        proof {
            lemma_cell_range(i as int, width as nat, count as nat);
            let n = count as int;
            let w = width as int;
            assert(w * n <= 0xFFFF * 0xFFFF_FFFF_FFFF_FFFF) by (nonlinear_arith)
                requires
                    0 < w <= 0xFFFF,
                    0 < n <= 0xFFFF_FFFF_FFFF_FFFF,
            ;
        }
        let start: usize = ((i as u128 * count as u128) / width as u128) as usize;
        let next: usize = (((i as u128 + 1) * count as u128) / width as u128) as usize;
        proof {
            assert(start == first_cell(i as int, width as nat, count as nat));
            assert(next == first_cell(i + 1, width as nat, count as nat));
        }
        let end: usize = if next > start {
            next
        } else {
            start + 1
        };
        let end: usize = if end < count {
            end
        } else {
            count
        };
        let part: &[MapCell] = slice_subrange(cells.as_slice(), start, end);
        proof {
            lemma_part_within(cells@, start as int, end as int);
            assert forall|k: int, c: int| 0 <= k < part@.len() && 0 <= c < 5 implies (
            #[trigger] part@[k].hits@[c]).wf() by {
                assert(cells@[start + k].hits@[c].wf());
            }
        }
        let (mark, color) = aggregate_cells(part, most);
        let mut text: String = String::new();
        text.push(mark);
        proof {
            assert(text@ =~= seq![mark]);
        }
        r.push(tinted(text, color));
        i = i + 1;
    }
    proof {
        assert(span_views(r@) =~= map_row(cells@, most, width as nat));
    }
    r
}

fn title_of(device: &DeviceMap) -> (r: String)
    ensures
        r@ == device_title(*device),
{
    let mut r: String = with_number("devid ", device.devid, "  ");
    r.append(device.path.as_str());
    r.append("  (");
    r.append(human_bytes(Quantity::from_u64(device.total_bytes)).as_str());
    r.append(")");
    r
}

fn key_line() -> (r: Vec<Span>)
    ensures
        span_views(r@) == color_key(),
{
    let mut r: Vec<Span> = Vec::new();
    r.push(tinted("■ ".to_owned(), Color::Green));
    r.push(raw("exclusive   ".to_owned()));
    r.push(tinted("■ ".to_owned(), Color::Yellow));
    r.push(raw("shared   ".to_owned()));
    r.push(tinted("■ ".to_owned(), Color::Cyan));
    r.push(raw("metadata   ".to_owned()));
    r.push(tinted("■ ".to_owned(), Color::Magenta));
    r.push(raw("system   ".to_owned()));
    r.push(tinted("■ ".to_owned(), Color::DarkGray));
    r.push(raw("unallocated".to_owned()));
    proof {
        assert(span_views(r@) =~= color_key());
    }
    r
}

fn push_devices(lines: &mut Vec<Vec<Span>>, state: &SharedState, most: u64, width: usize)
    requires
        state.wf(),
        0 < width <= u16::MAX,
    ensures
        line_views(final(lines)@) == line_views(old(lines)@) + device_lines(
            state.disk_map@,
            most,
            width as nat,
            state.disk_map@.len(),
        ),
{
    let ghost start = line_views(lines@);
    let ghost map = state.disk_map@;
    let mut d: usize = 0;
    while d < state.disk_map.len()
        invariant
            state.wf(),
            map == state.disk_map@,
            0 < width <= u16::MAX,
            d <= map.len(),
            line_views(lines@) == start + device_lines(map, most, width as nat, d as nat),
        decreases map.len() - d,
    {
        let device: &DeviceMap = &state.disk_map[d];
        proof {
            assert(map[d as int].wf());
            assert(state.tree.totals_wf());
            lemma_power_bits(53);
            assert forall|i: int, c: int| 0 <= i < device.cells@.len() && 0 <= c < 5 implies (
            #[trigger] device.cells@[i].hits@[c]).wf() by {
                assert(device.cells@[i].wf());
            }
        }
        push_span(lines, underlined(title_of(device)));
        push_line(lines, device_row(&device.cells, most, width));
        push_text(lines, "".to_owned());
        proof {
            assert(line_views(lines@) =~= start + device_lines(
                map,
                most,
                width as nat,
                (d + 1) as nat,
            ));
        }
        d = d + 1;
    }
}

/// The lines of the map, for an area of the given width.
pub fn map_lines(state: &SharedState, area_width: u16) -> (r: Vec<Vec<Span>>)
    requires
        state.wf(),
    ensures
        line_views(r@) == map_text(state.disk_map@, area_width),
{
    let most: u64 = greatest_count(&state.disk_map);
    let width: usize = if area_width > 3 {
        (area_width - 2) as usize
    } else {
        1
    };
    let mut lines: Vec<Vec<Span>> = Vec::new();
    push_span(&mut lines, bold("Disk map — physical layout, one row per device".to_owned()));
    push_text(&mut lines, "".to_owned());
    if state.disk_map.len() == 0 {
        push_text(
            &mut lines,
            "No device size information available for the disk map.".to_owned(),
        );
    }
    proof {
        assert(line_views(lines@) =~= map_head(state.disk_map@.len() == 0));
    }
    push_devices(&mut lines, state, most, width);
    push_text(
        &mut lines,
        "shade = sample density (space = no samples yet, █ = most-sampled region); color = dominant category there:".to_owned(),
    );
    push_line(&mut lines, key_line());
    lines
}

} // verus!
