//! What the screen shows, as lines of styled text.
use crate::figures::{human, human_bytes, no_decimals, one_decimal, push_no_decimals, push_one_decimal};
use crate::accuracy::{
    at_most, close, lemma_at_most_less, lemma_close_cancel, lemma_close_chain, lemma_close_scale,
    lemma_of_close, lemma_quotient_close, lemma_root_close, lemma_share_close, lies_between,
};
use crate::model::{greatest_of, Category, DirRow};
use crate::quantity::{
    lemma_of_bounds, lemma_of_exact, lemma_of_monotone, lemma_quotient_monotone, Quantity,
};
use crate::root::{lemma_root_monotone, lemma_root_positive};
use crate::rounding::one_units;
use crate::text::{
    align_left, align_right, decimal, decimal_value, law_alignment, law_decimal_reads_back,
    law_split_adds_up, left_aligned, lemma_split_whole, push_decimal, push_repeated, repeated,
    right_aligned, split, views,
};
use crate::ui::{UiState, ViewMode};
use vstd::arithmetic::div_mod::lemma_fundamental_div_mod;
use vstd::arithmetic::power2::{lemma2_to64_rest, lemma_pow2_pos};
use vstd::prelude::*;
use vstd::string::*;

verus! {

/// The colors that are used.
#[derive(Debug, Clone, Copy, PartialEq, Eq, Structural)]
pub enum Color {
    Black,
    Red,
    Green,
    Yellow,
    Magenta,
    Cyan,
    DarkGray,
    White,
}

/// How a piece of text looks.
#[derive(Debug, Clone, Copy, PartialEq, Eq, Structural)]
pub struct Style {
    pub fg: Option<Color>,
    pub bg: Option<Color>,
    pub bold: bool,
    pub underlined: bool,
}

/// A piece of text of one style.
pub struct Span {
    pub text: String,
    pub style: Style,
}

/// A piece of text of one style.
#[verifier::ext_equal]
pub struct SpanView {
    pub text: Seq<char>,
    pub style: Style,
}

impl View for Span {
    type V = SpanView;

    open spec fn view(&self) -> SpanView {
        SpanView { text: self.text@, style: self.style }
    }
}

pub open spec fn span_views(spans: Seq<Span>) -> Seq<SpanView> {
    spans.map_values(|span: Span| span@)
}

pub open spec fn line_views(lines: Seq<Vec<Span>>) -> Seq<Seq<SpanView>> {
    lines.map_values(|line: Vec<Span>| span_views(line@))
}

pub open spec fn no_style() -> Style {
    Style { fg: None, bg: None, bold: false, underlined: false }
}

pub open spec fn plain(text: Seq<char>) -> SpanView {
    SpanView { text, style: no_style() }
}

pub open spec fn colored(text: Seq<char>, color: Color) -> SpanView {
    SpanView { text, style: Style { fg: Some(color), ..no_style() } }
}

pub open spec fn strong(text: Seq<char>) -> SpanView {
    SpanView { text, style: Style { bold: true, ..no_style() } }
}

pub open spec fn heading(text: Seq<char>) -> SpanView {
    SpanView { text, style: Style { underlined: true, ..no_style() } }
}

pub(crate) fn raw(text: String) -> (r: Span)
    ensures
        r@ == plain(text@),
{
    Span { text, style: Style { fg: None, bg: None, bold: false, underlined: false } }
}

pub(crate) fn tinted(text: String, color: Color) -> (r: Span)
    ensures
        r@ == colored(text@, color),
{
    Span { text, style: Style { fg: Some(color), bg: None, bold: false, underlined: false } }
}

pub(crate) fn bold(text: String) -> (r: Span)
    ensures
        r@ == strong(text@),
{
    Span { text, style: Style { fg: None, bg: None, bold: true, underlined: false } }
}

pub(crate) fn underlined(text: String) -> (r: Span)
    ensures
        r@ == heading(text@),
{
    Span { text, style: Style { fg: None, bg: None, bold: false, underlined: true } }
}

pub open spec fn color_of(cat: Category) -> Color {
    match cat {
        Category::Exclusive => Color::Green,
        Category::Shared => Color::Yellow,
        Category::Metadata => Color::Cyan,
        Category::System => Color::Magenta,
        Category::Unallocated => Color::DarkGray,
    }
}

/// The color of a category.
pub fn category_color(cat: Category) -> (r: Color)
    ensures
        r == color_of(cat),
{
    match cat {
        Category::Exclusive => Color::Green,
        Category::Shared => Color::Yellow,
        Category::Metadata => Color::Cyan,
        Category::System => Color::Magenta,
        Category::Unallocated => Color::DarkGray,
    }
}

/// How many characters of a bar of `width` an amount asks for: its share of the universe,
/// to the nearest.
pub open spec fn bar_share(amount: Quantity, universe: u64, width: nat) -> nat {
    if width == 0 {
        0
    } else {
        amount.quotient(Quantity::of(universe as nat)).product(Quantity::of(width)).nearest_whole()
    }
}

/// How many characters of the bar the first `k` categories take: what they ask for, as
/// long as there is room.
pub open spec fn bar_used(amounts: Seq<Quantity>, universe: u64, width: nat, k: nat) -> nat
    decreases k,
{
    if k == 0 {
        0
    } else {
        let before = bar_used(amounts, universe, width, (k - 1) as nat);
        let share = bar_share(amounts[k - 1], universe, width);
        if before + share < width {
            before + share
        } else {
            width
        }
    }
}

/// The stretches of the bar for the first `k` categories.
pub open spec fn bar_spans(amounts: Seq<Quantity>, universe: u64, width: nat, k: nat) -> Seq<
    SpanView,
>
    decreases k,
{
    if k == 0 {
        Seq::empty()
    } else {
        let before = bar_spans(amounts, universe, width, (k - 1) as nat);
        let from = bar_used(amounts, universe, width, (k - 1) as nat);
        let to = bar_used(amounts, universe, width, k);
        if to > from {
            before.push(
                colored(repeated('#', (to - from) as nat), color_of(Category::at(k - 1))),
            )
        } else {
            before
        }
    }
}

/// The bar of a row: a stretch for each category, filled up with dashes.
pub open spec fn bar(row: DirRow, universe: u64, width: nat) -> Seq<SpanView> {
    if universe == 0 || row.total_bytes.bits == 0 {
        seq![plain(repeated('-', width))]
    } else {
        let amounts = row.bytes_by_category@;
        let used = bar_used(amounts, universe, width, 5);
        let spans = bar_spans(amounts, universe, width, 5);
        if used < width {
            spans.push(colored(repeated('-', (width - used) as nat), Color::DarkGray))
        } else {
            spans
        }
    }
}

/// The characters of some pieces of text.
pub open spec fn characters_of(spans: Seq<SpanView>) -> nat
    decreases spans.len(),
{
    if spans.len() == 0 {
        0
    } else {
        characters_of(spans.drop_last()) + spans.last().text.len()
    }
}

/// How often the character `#` stands in a text.
pub open spec fn hashes(text: Seq<char>) -> nat
    decreases text.len(),
{
    if text.len() == 0 {
        0
    } else {
        hashes(text.drop_last()) + (if text.last() == '#' {
            1nat
        } else {
            0
        })
    }
}

/// How often the character `#` stands in a color.
pub open spec fn marks(spans: Seq<SpanView>, color: Color) -> nat
    decreases spans.len(),
{
    if spans.len() == 0 {
        0
    } else {
        marks(spans.drop_last(), color) + (if spans.last().style.fg == Some(color) {
            hashes(spans.last().text)
        } else {
            0
        })
    }
}

/// How often the character `#` stands in the colors of the first `k` categories.
pub open spec fn marks_up_to(spans: Seq<SpanView>, k: nat) -> nat
    decreases k,
{
    if k == 0 {
        0
    } else {
        marks_up_to(spans, (k - 1) as nat) + marks(spans, color_of(Category::at(k - 1)))
    }
}

/// No two categories have the same color.
pub proof fn law_colors_apart(a: Category, b: Category)
    ensures
        color_of(a) == color_of(b) ==> a == b,
{
}

/// Each category has as many `#` in its own color as its share of the bar, or as many as there
/// is room for behind the categories before it, and no more. A row without a size has none.
pub proof fn law_bar_shows_categories(row: DirRow, universe: u64, width: nat, k: int)
    requires
        0 <= k < 5,
    ensures
        ({
            let spans = bar(row, universe, width);
            let shown = marks(spans, color_of(Category::at(k)));
            let share = bar_share(row.bytes_by_category@[k], universe, width);
            &&& universe == 0 || row.total_bytes.bits == 0 ==> shown == 0
            &&& universe > 0 && row.total_bytes.bits > 0 ==> {
                &&& shown <= share
                &&& marks_up_to(spans, (k + 1) as nat) <= width
                &&& shown == share || marks_up_to(spans, (k + 1) as nat) == width
            }
        }),
{
    let spans = bar(row, universe, width);
    let amounts = row.bytes_by_category@;
    if universe == 0 || row.total_bytes.bits == 0 {
        assert(spans.drop_last() =~= Seq::empty());
        reveal_with_fuel(marks, 2);
    } else {
        lemma_stretches(amounts, universe, width, 5);
        assert forall|j: int| 0 <= j < 5 implies marks(spans, #[trigger] color_of(Category::at(j)))
            == bar_used(amounts, universe, width, (j + 1) as nat) - bar_used(
            amounts,
            universe,
            width,
            j as nat,
        ) by {
            lemma_stretch_marks(amounts, universe, width, 5, j);
            let used = bar_used(amounts, universe, width, 5);
            if used < width {
                assert(spans.drop_last() =~= bar_spans(amounts, universe, width, 5));
                lemma_hashes('-', (width - used) as nat);
            }
        }
        lemma_marks_up_to(row, universe, width, (k + 1) as nat);
        assert(marks(spans, color_of(Category::at(k))) == bar_used(
            amounts,
            universe,
            width,
            (k + 1) as nat,
        ) - bar_used(amounts, universe, width, k as nat));
        lemma_stretches(amounts, universe, width, k as nat);
    }
}

proof fn lemma_hashes(c: char, n: nat)
    ensures
        hashes(repeated(c, n)) == (if c == '#' {
            n
        } else {
            0
        }),
    decreases n,
{
    if n > 0 {
        assert(repeated(c, n).drop_last() =~= repeated(c, (n - 1) as nat));
        lemma_hashes(c, (n - 1) as nat);
    }
}

/// A category has what it takes in its color, and nothing before its turn.
proof fn lemma_stretch_marks(amounts: Seq<Quantity>, universe: u64, width: nat, k: nat, j: int)
    requires
        0 <= j < 5,
        k <= 5,
    ensures
        marks(bar_spans(amounts, universe, width, k), color_of(Category::at(j))) == (if j < k {
            bar_used(amounts, universe, width, (j + 1) as nat) - bar_used(
                amounts,
                universe,
                width,
                j as nat,
            )
        } else {
            0
        }),
    decreases k,
{
    if k > 0 {
        lemma_stretch_marks(amounts, universe, width, (k - 1) as nat, j);
        lemma_stretches(amounts, universe, width, (k - 1) as nat);
        let before = bar_spans(amounts, universe, width, (k - 1) as nat);
        let now = bar_spans(amounts, universe, width, k);
        let from = bar_used(amounts, universe, width, (k - 1) as nat);
        let to = bar_used(amounts, universe, width, k);
        law_colors_apart(Category::at(j), Category::at(k - 1));
        if to > from {
            assert(now.drop_last() =~= before);
            lemma_hashes('#', (to - from) as nat);
        }
    }
}

proof fn lemma_marks_up_to(row: DirRow, universe: u64, width: nat, k: nat)
    requires
        k <= 5,
        universe > 0,
        row.total_bytes.bits > 0,
        forall|j: int|
            0 <= j < 5 ==> marks(
                bar(row, universe, width),
                #[trigger] color_of(Category::at(j)),
            ) == bar_used(row.bytes_by_category@, universe, width, (j + 1) as nat) - bar_used(
                row.bytes_by_category@,
                universe,
                width,
                j as nat,
            ),
    ensures
        marks_up_to(bar(row, universe, width), k) == bar_used(
            row.bytes_by_category@,
            universe,
            width,
            k,
        ),
    decreases k,
{
    if k > 0 {
        lemma_marks_up_to(row, universe, width, (k - 1) as nat);
        assert(color_of(Category::at(k - 1)) == color_of(Category::at(k - 1)));
    }
}

/// The stretches stand in the order of the categories, and what is left is behind them all.
pub proof fn law_stretches_in_order(
    row: DirRow,
    universe: u64,
    width: nat,
    i: int,
    j: int,
    a: Category,
    b: Category,
)
    requires
        0 <= i < j < bar(row, universe, width).len(),
        bar(row, universe, width)[i].style.fg == Some(color_of(a)),
        bar(row, universe, width)[j].style.fg == Some(color_of(b)),
    ensures
        hashes(bar(row, universe, width)[i].text) > 0,
        hashes(bar(row, universe, width)[j].text) > 0 ==> a.place() < b.place(),
{
    let amounts = row.bytes_by_category@;
    lemma_stretch_order(amounts, universe, width, 5);
    let used = bar_used(amounts, universe, width, 5);
    if used < width {
        lemma_hashes('-', (width - used) as nat);
    }
}

/// The place of the category that a color stands for.
spec fn color_place(color: Option<Color>) -> int {
    match color {
        Some(Color::Green) => 0,
        Some(Color::Yellow) => 1,
        Some(Color::Cyan) => 2,
        Some(Color::Magenta) => 3,
        _ => 4,
    }
}

proof fn lemma_stretch_order(amounts: Seq<Quantity>, universe: u64, width: nat, k: nat)
    requires
        k <= 5,
    ensures
        ({
            let spans = bar_spans(amounts, universe, width, k);
            &&& forall|i: int|
                0 <= i < spans.len() ==> hashes((#[trigger] spans[i]).text) > 0 && color_place(
                    spans[i].style.fg,
                ) < k
            &&& forall|i: int, j: int|
                0 <= i < j < spans.len() ==> color_place((#[trigger] spans[i]).style.fg)
                    < color_place((#[trigger] spans[j]).style.fg)
        }),
    decreases k,
{
    if k > 0 {
        lemma_stretch_order(amounts, universe, width, (k - 1) as nat);
        let from = bar_used(amounts, universe, width, (k - 1) as nat);
        let to = bar_used(amounts, universe, width, k);
        if to > from {
            lemma_hashes('#', (to - from) as nat);
            let spans = bar_spans(amounts, universe, width, k);
            let before = bar_spans(amounts, universe, width, (k - 1) as nat);
            assert(forall|i: int| 0 <= i < before.len() ==> spans[i] == before[i]);
        }
    }
}

/// What a category asks for of a bar is its share of the universe, to the nearest character:
/// half a character less is not more than the share and half a character more not less, but
/// for eleven parts in 2 to the power of 52.
pub proof fn law_bar_in_proportion(amount: Quantity, universe: u64, width: nat)
    requires
        lies_between(amount, 174, 1974),
        universe > 0,
        1 <= width <= u64::MAX,
        bar_share(amount, universe, width) < usize::MAX,
    ensures
        ({
            let share = bar_share(amount, universe, width);
            let whole = universe as nat;
            &&& share > 0 ==> at_most(
                (((2 * share - 1) as nat) * one_units()) * whole,
                2 * (amount.amount() * width),
                11,
            )
            &&& at_most(
                2 * (amount.amount() * width),
                ((2 * share + 1) * one_units()) * whole,
                11,
            )
        }),
{
    let one = one_units();
    let whole = universe as nat;
    let share = bar_share(amount, universe, width);
    let q = amount.quotient(Quantity::of(whole)).product(Quantity::of(width));
    let x = q.amount();
    let n = amount.amount() * width;
    lemma_pow2_pos(1074);
    lemma_share_close(amount, whole, width);
    lemma_close_scale(x * whole, n, 11, 2);
    let w = (2 * x + one) / (2 * one);
    assert(w == share);
    lemma_fundamental_div_mod((2 * x + one) as int, (2 * one) as int);
    let rest = (2 * x + one) % (2 * one);
    assert((2 * one) * w == 2 * (w * one)) by (nonlinear_arith);
    assert((2 * w + 1) * one == 2 * (w * one) + one) by (nonlinear_arith);
    assert(2 * x <= (2 * w + 1) * one);
    assert(2 * (x * whole) <= ((2 * w + 1) * one) * whole) by (nonlinear_arith)
        requires
            2 * x <= (2 * w + 1) * one,
    ;
    lemma_at_most_less(
        2 * n,
        2 * n,
        2 * (x * whole),
        ((2 * w + 1) * one) * whole,
        11,
    );
    if w > 0 {
        let v = (2 * w - 1) as nat;
        assert(v * one == 2 * (w * one) - one) by (nonlinear_arith)
            requires
                v == 2 * w - 1,
        ;
        assert((v * one) * whole <= 2 * (x * whole)) by (nonlinear_arith)
            requires
                v * one <= 2 * x,
        ;
        lemma_at_most_less((v * one) * whole, 2 * (x * whole), 2 * n, 2 * n, 11);
    }
}

/// A bar is as wide as it is meant to be, whatever the sizes are.
pub proof fn law_bar_fills_width(row: DirRow, universe: u64, width: nat)
    ensures
        characters_of(bar(row, universe, width)) == width,
{
    reveal_with_fuel(characters_of, 2);
    let amounts = row.bytes_by_category@;
    if universe == 0 || row.total_bytes.bits == 0 {
        assert(bar(row, universe, width).drop_last() =~= Seq::empty());
    } else {
        lemma_stretches(amounts, universe, width, 5);
        let used = bar_used(amounts, universe, width, 5);
        if used < width {
            assert(bar(row, universe, width).drop_last() =~= bar_spans(
                amounts,
                universe,
                width,
                5,
            ));
        }
    }
}

/// The stretches are as wide as what the categories take, which is not more than there is.
proof fn lemma_stretches(amounts: Seq<Quantity>, universe: u64, width: nat, k: nat)
    ensures
        characters_of(bar_spans(amounts, universe, width, k)) == bar_used(
            amounts,
            universe,
            width,
            k,
        ),
        bar_used(amounts, universe, width, k) <= width,
    decreases k,
{
    if k > 0 {
        lemma_stretches(amounts, universe, width, (k - 1) as nat);
        let before = bar_spans(amounts, universe, width, (k - 1) as nat);
        let now = bar_spans(amounts, universe, width, k);
        if now != before {
            assert(now.drop_last() =~= before);
        }
    }
}

fn repeat(c: char, count: usize) -> (r: String)
    ensures
        r@ == repeated(c, count as nat),
{
    let mut r: String = String::new();
    push_repeated(&mut r, c, count);
    proof {
        assert(r@ =~= repeated(c, count as nat));
    }
    r
}

fn share_of_bar(amount: Quantity, universe: u64, width: usize) -> (r: usize)
    requires
        amount.wf(),
        universe > 0,
    ensures
        r == bar_share(amount, universe, width as nat),
{
    if width == 0 {
        return 0;
    }
    proof {
        lemma_of_bounds(universe as nat);
        lemma_of_bounds(width as nat);
    }
    amount.over(Quantity::from_u64(universe)).times(Quantity::from_u64(width as u64)).round()
}

/// The bar of a row.
pub fn composition_bar(row: &DirRow, universe_bytes: u64, width: usize) -> (r: Vec<Span>)
    requires
        row.wf(),
    ensures
        span_views(r@) == bar(*row, universe_bytes, width as nat),
{
    let mut spans: Vec<Span> = Vec::new();
    if universe_bytes == 0 || row.total_bytes.bits == 0 {
        spans.push(raw(repeat('-', width)));
        proof {
            assert(span_views(spans@) =~= bar(*row, universe_bytes, width as nat));
        }
        return spans;
    }
    let ghost amounts = row.bytes_by_category@;
    let mut used: usize = 0;
    let mut c: usize = 0;
    proof {
        assert(span_views(spans@) =~= bar_spans(amounts, universe_bytes, width as nat, 0));
    }
    while c < 5
        invariant
            row.wf(),
            amounts == row.bytes_by_category@,
            universe_bytes > 0,
            c <= 5,
            used <= width,
            used == bar_used(amounts, universe_bytes, width as nat, c as nat),
            span_views(spans@) == bar_spans(amounts, universe_bytes, width as nat, c as nat),
        decreases 5 - c,
    {
        let cat: Category = Category::ALL[c];
        let ghost before = spans@;
        let wanted: usize = share_of_bar(row.bytes_by_category[c], universe_bytes, width);
        let chars: usize = if wanted < width - used {
            wanted
        } else {
            width - used
        };
        if chars > 0 {
            let span: Span = tinted(repeat('#', chars), category_color(cat));
            spans.push(span);
            proof {
                assert(span_views(spans@) =~= span_views(before).push(span@));
            }
            used = used + chars;
        }
        proof {
            assert(cat == Category::at(c as int));
            assert(used == bar_used(amounts, universe_bytes, width as nat, (c + 1) as nat));
        }
        c = c + 1;
    }
    if used < width {
        let ghost before = spans@;
        let span: Span = tinted(repeat('-', width - used), Color::DarkGray);
        spans.push(span);
        proof {
            assert(span_views(spans@) =~= span_views(before).push(span@));
        }
    }
    spans
}

/// Each name with a slash before it.
pub open spec fn slashed(path: Seq<Seq<char>>) -> Seq<char>
    decreases path.len(),
{
    if path.len() == 0 {
        Seq::empty()
    } else {
        slashed(path.drop_last()) + "/"@ + path.last()
    }
}

/// The directory that is shown.
pub open spec fn breadcrumb(path: Seq<Seq<char>>) -> Seq<char> {
    if path.len() == 0 {
        "/"@
    } else {
        slashed(path)
    }
}

/// How far off, in percent, the estimates may be: one over the root of the draws.
pub open spec fn uncertainty(total_draws: u64) -> Quantity {
    if total_draws > 0 {
        Quantity::of(100).quotient(Quantity::of(total_draws as nat).square_root())
    } else {
        Quantity::of(100)
    }
}

/// With more draws the estimates are no further off.
pub proof fn law_more_draws_less_doubt(fewer: u64, more: u64)
    requires
        0 < fewer <= more,
    ensures
        uncertainty(more).bits <= uncertainty(fewer).bits,
        uncertainty(more).wf(),
{
    let a = Quantity::of(fewer as nat);
    let b = Quantity::of(more as nat);
    lemma_of_bounds(100);
    lemma_of_bounds(fewer as nat);
    lemma_of_bounds(more as nat);
    lemma_of_monotone(fewer as nat, more as nat);
    lemma_root_monotone(a, b);
    lemma_root_monotone(a, a);
    lemma_root_positive(a);
    lemma_quotient_monotone(
        Quantity::of(100),
        Quantity::of(100),
        b.square_root(),
        a.square_root(),
    );
}

/// The doubt is a hundred percent over the root of the draws: its square times the draws is
/// the square of a hundred, but for seventeen parts in 2 to the power of 52.
pub proof fn law_doubt_is_over_root(total_draws: u64)
    requires
        total_draws > 0,
    ensures
        close(
            (uncertainty(total_draws).amount() * uncertainty(total_draws).amount())
                * total_draws as nat,
            (10_000 * one_units()) * one_units(),
            17,
        ),
{
    let one = one_units();
    let n = total_draws as nat;
    let a = Quantity::of(n);
    let h = Quantity::of(100);
    let root = a.square_root();
    lemma_pow2_pos(1074);
    lemma2_to64_rest();
    lemma_of_close(n);
    lemma_of_close(100);
    lemma_of_exact(100);
    lemma_root_close(a);
    lemma_quotient_close(h, root, 1074, 1138, 1074, 1138);
    let (u, r, d) = (uncertainty(total_draws).amount(), root.amount(), a.amount());
    let k = h.amount() * one;
    let x = u * r;
    // x x ~ k k
    lemma_close_scale(x, k, 2, x);
    lemma_close_scale(x, k, 2, k);
    assert(k * x == x * k) by (nonlinear_arith);
    lemma_close_chain(x * x, x * k, k * k, 2, 2);
    // u u (r r) ~ u u (d one) ~ u u (n one one)
    let uu = u * u;
    lemma_close_scale(r * r, d * one, 8, uu);
    assert(uu * (r * r) == x * x) by (nonlinear_arith)
        requires
            uu == u * u,
            x == u * r,
    ;
    lemma_close_scale(d, n * one, 2, uu * one);
    assert((uu * one) * d == uu * (d * one)) by (nonlinear_arith);
    lemma_close_chain((uu * one) * (n * one), uu * (d * one), x * x, 2, 8);
    lemma_close_chain((uu * one) * (n * one), x * x, k * k, 11, 5);
    assert((uu * one) * (n * one) == (uu * n) * (one * one)) by (nonlinear_arith);
    assert(k * k == ((10_000 * one) * one) * (one * one)) by (nonlinear_arith)
        requires
            k == (100 * one) * one,
    ;
    assert(one * one > 0) by (nonlinear_arith)
        requires
            one > 0,
    ;
    lemma_close_cancel(uu * n, (10_000 * one) * one, 17, one * one);
}

/// The path in the header is that of the directory: what stands between its slashes are the
/// names.
pub proof fn law_breadcrumb_reads_back(path: Seq<Seq<char>>)
    requires
        forall|i: int| 0 <= i < path.len() ==> !(#[trigger] path[i]).contains('/'),
    ensures
        path.len() > 0 ==> split(breadcrumb(path), '/') == seq![Seq::<char>::empty()] + path,
        path.len() == 0 ==> breadcrumb(path) == seq!['/'],
{
    reveal_strlit("/");
    if path.len() > 0 {
        lemma_slashed(path);
    } else {
        assert("/"@ =~= seq!['/']);
    }
}

proof fn lemma_slashed(path: Seq<Seq<char>>)
    requires
        forall|i: int| 0 <= i < path.len() ==> !(#[trigger] path[i]).contains('/'),
    ensures
        split(slashed(path), '/') == seq![Seq::<char>::empty()] + path,
    decreases path.len(),
{
    reveal_strlit("/");
    if path.len() == 0 {
        assert(split(slashed(path), '/') =~= seq![Seq::<char>::empty()] + path);
    } else {
        let rest = path.drop_last();
        let last = path[path.len() - 1];
        assert forall|i: int| 0 <= i < rest.len() implies !(#[trigger] rest[i]).contains('/') by {
            assert(rest[i] == path[i]);
        }
        lemma_slashed(rest);
        law_split_adds_up(slashed(rest), last, '/');
        lemma_split_whole(last, '/');
        assert(slashed(path) =~= slashed(rest).push('/') + last);
        assert(split(slashed(path), '/') =~= seq![Seq::<char>::empty()] + path);
    }
}

/// What each piece of the header tells of: the pause alone colors its first piece, the draws
/// are read back from their piece, and each figure changes no piece but its own.
pub proof fn law_header_tells_each(
    path: Seq<Seq<char>>,
    rate: Quantity,
    draws: u64,
    universe: u64,
    paused: bool,
    other_path: Seq<Seq<char>>,
    other_rate: Quantity,
    other_universe: u64,
)
    ensures
        ({
            let line = header(path, rate, draws, universe, paused);
            let other = header(other_path, other_rate, draws, other_universe, paused);
            &&& line.len() == 10
            &&& line[0].style.bg == Some(Color::Red) <==> paused
            &&& line[0].style.bg == Some(Color::Green) <==> !paused
            &&& line[2].text == breadcrumb(path)
            &&& "universe: "@.is_prefix_of(line[4].text)
            &&& line[4].text.skip(10) == human(Quantity::of(universe as nat))
            &&& "draws: "@.is_prefix_of(line[6].text)
            &&& decimal_value(line[6].text.skip(7)) == draws
            &&& line[7].text.subrange(2, line[7].text.len() - 3) == no_decimals(rate)
            &&& line[9].text.subrange(2, line[9].text.len() - 1) == one_decimal(uncertainty(draws))
            &&& line[0] == other[0] && line[6] == other[6] && line[9] == other[9]
        }),
{
    reveal_strlit("universe: ");
    reveal_strlit("draws: ");
    reveal_strlit(" (");
    reveal_strlit("/s)");
    reveal_strlit("~±");
    reveal_strlit("%");
    let line = header(path, rate, draws, universe, paused);
    law_decimal_reads_back(draws as nat);
    assert(line[4].text.skip(10) =~= human(Quantity::of(universe as nat)));
    assert("universe: "@ =~= line[4].text.subrange(0, 10));
    assert(line[6].text.skip(7) =~= decimal(draws as nat));
    assert("draws: "@ =~= line[6].text.subrange(0, 7));
    assert(line[7].text.subrange(2, line[7].text.len() - 3) =~= no_decimals(rate));
    assert(line[9].text.subrange(2, line[9].text.len() - 1) =~= one_decimal(uncertainty(draws)));
}

pub open spec fn status(is_paused: bool) -> SpanView {
    if is_paused {
        SpanView {
            text: " PAUSED "@,
            style: Style {
                fg: Some(Color::White),
                bg: Some(Color::Red),
                bold: true,
                underlined: false,
            },
        }
    } else {
        SpanView {
            text: " sampling "@,
            style: Style {
                fg: Some(Color::Black),
                bg: Some(Color::Green),
                bold: false,
                underlined: false,
            },
        }
    }
}

/// The line at the top.
pub open spec fn header(
    path: Seq<Seq<char>>,
    draws_per_sec: Quantity,
    total_draws: u64,
    universe_bytes: u64,
    is_paused: bool,
) -> Seq<SpanView> {
    seq![
        status(is_paused),
        plain("  "@),
        strong(breadcrumb(path)),
        plain("   "@),
        plain("universe: "@ + human(Quantity::of(universe_bytes as nat))),
        plain("   "@),
        plain("draws: "@ + decimal(total_draws as nat)),
        plain(" ("@ + no_decimals(draws_per_sec) + "/s)"@),
        plain("   "@),
        plain("~±"@ + one_decimal(uncertainty(total_draws)) + "%"@),
    ]
}

fn breadcrumb_text(path: &Vec<String>) -> (r: String)
    ensures
        r@ == breadcrumb(views(path@)),
{
    if path.len() == 0 {
        return "/".to_owned();
    }
    let ghost names = views(path@);
    let mut r: String = String::new();
    let mut k: usize = 0;
    proof {
        assert(names.take(0) =~= Seq::empty());
    }
    while k < path.len()
        invariant
            names == views(path@),
            k <= path@.len(),
            r@ == slashed(names.take(k as int)),
        decreases path@.len() - k,
    {
        proof {
            assert(names.take(k + 1).drop_last() =~= names.take(k as int));
            assert(names.take(k + 1).last() == path@[k as int]@);
        }
        r.append("/");
        r.append(path[k].as_str());
        k = k + 1;
    }
    proof {
        assert(names.take(names.len() as int) =~= names);
    }
    r
}

/// `prefix`, the decimal notation of `n`, and `suffix`.
pub(crate) fn with_number(prefix: &str, n: u64, suffix: &str) -> (r: String)
    ensures
        r@ == prefix@ + decimal(n as nat) + suffix@,
{
    let mut r: String = prefix.to_owned();
    push_decimal(&mut r, n);
    r.append(suffix);
    r
}

/// How far off, in percent, the estimates may be.
pub fn confidence(total_draws: u64) -> (r: Quantity)
    ensures
        r == uncertainty(total_draws),
        r.wf(),
{
    if total_draws == 0 {
        return Quantity::from_u64(100);
    }
    proof {
        lemma_of_bounds(total_draws as nat);
        lemma_of_bounds(100);
    }
    Quantity::from_u64(100).over(Quantity::from_u64(total_draws).sqrt())
}

/// The line at the top.
pub fn header_line(
    ui: &UiState,
    total_draws: u64,
    universe_bytes: u64,
    is_paused: bool,
) -> (r: Vec<Span>)
    requires
        ui.draws_per_sec.wf(),
    ensures
        span_views(r@) == header(
            views(ui.current_path@),
            ui.draws_per_sec,
            total_draws,
            universe_bytes,
            is_paused,
        ),
{
    let state: Span = if is_paused {
        Span {
            text: " PAUSED ".to_owned(),
            style: Style {
                fg: Some(Color::White),
                bg: Some(Color::Red),
                bold: true,
                underlined: false,
            },
        }
    } else {
        Span {
            text: " sampling ".to_owned(),
            style: Style {
                fg: Some(Color::Black),
                bg: Some(Color::Green),
                bold: false,
                underlined: false,
            },
        }
    };
    let mut universe: String = "universe: ".to_owned();
    universe.append(human_bytes(Quantity::from_u64(universe_bytes)).as_str());
    let mut rate: String = " (".to_owned();
    push_no_decimals(&mut rate, ui.draws_per_sec);
    rate.append("/s)");
    let mut doubt: String = "~±".to_owned();
    push_one_decimal(&mut doubt, confidence(total_draws));
    doubt.append("%");
    let draws: String = with_number("draws: ", total_draws, "");
    proof {
        reveal_strlit("");
        assert(draws@ =~= "draws: "@ + decimal(total_draws as nat));
    }
    let mut r: Vec<Span> = Vec::new();
    r.push(state);
    r.push(raw("  ".to_owned()));
    r.push(bold(breadcrumb_text(&ui.current_path)));
    r.push(raw("   ".to_owned()));
    r.push(raw(universe));
    r.push(raw("   ".to_owned()));
    r.push(raw(draws));
    r.push(raw(rate));
    r.push(raw("   ".to_owned()));
    r.push(raw(doubt));
    proof {
        assert(span_views(r@) =~= header(
            views(ui.current_path@),
            ui.draws_per_sec,
            total_draws,
            universe_bytes,
            is_paused,
        ));
    }
    r
}

/// The width of the bar of a row.
pub const BAR_WIDTH: usize = 20;

/// An amount in percent of the universe.
pub open spec fn percent(amount: Quantity, universe: u64) -> Quantity {
    if universe > 0 {
        amount.quotient(Quantity::of(universe as nat)).product(Quantity::of(100))
    } else {
        Quantity { bits: 0 }
    }
}

/// The line of a row.
pub open spec fn row_spans(row: DirRow, universe: u64) -> Seq<SpanView> {
    let color = match row.dominant() {
        Some(cat) => color_of(cat),
        None => Color::White,
    };
    seq![plain(right_aligned(human(row.total_bytes), 10) + "  "@)] + bar(
        row,
        universe,
        BAR_WIDTH as nat,
    ) + seq![
        plain(
            " "@ + right_aligned(one_decimal(percent(row.total_bytes, universe)), 5) + "%  n="@
                + left_aligned(decimal(row.total_samples as nat), 5) + "  "@,
        ),
        colored(
            if row.has_children {
                row.name@ + "/"@
            } else {
                row.name@
            },
            color,
        ),
    ]
}

fn percent_of(amount: Quantity, universe: u64) -> (r: Quantity)
    requires
        amount.wf(),
    ensures
        r == percent(amount, universe),
        r.wf(),
{
    if universe == 0 {
        return Quantity::zero();
    }
    proof {
        lemma_of_bounds(universe as nat);
        lemma_of_bounds(100);
    }
    amount.over(Quantity::from_u64(universe)).times(Quantity::from_u64(100))
}

/// The line of a row: size, bar, share, samples and name.
pub fn row_line(row: &DirRow, universe_bytes: u64) -> (r: Vec<Span>)
    requires
        row.wf(),
    ensures
        span_views(r@) == row_spans(*row, universe_bytes),
{
    let mut size: String = align_right(human_bytes(row.total_bytes).as_str(), 10);
    size.append("  ");
    let mut share: String = String::new();
    push_one_decimal(&mut share, percent_of(row.total_bytes, universe_bytes));
    let mut count: String = String::new();
    push_decimal(&mut count, row.total_samples);
    proof {
        assert(share@ =~= one_decimal(percent(row.total_bytes, universe_bytes)));
        assert(count@ =~= decimal(row.total_samples as nat));
    }
    let mut middle: String = " ".to_owned();
    middle.append(align_right(share.as_str(), 5).as_str());
    middle.append("%  n=");
    middle.append(align_left(count.as_str(), 5).as_str());
    middle.append("  ");
    let color: Color = match row.dominant_category() {
        Some(cat) => category_color(cat),
        None => Color::White,
    };
    let mut name: String = row.name.clone();
    if row.has_children {
        name.append("/");
    }
    let mut r: Vec<Span> = Vec::new();
    r.push(raw(size));
    let mut stretches: Vec<Span> = composition_bar(row, universe_bytes, BAR_WIDTH);
    let ghost s0 = r@;
    let ghost s1 = stretches@;
    r.append(&mut stretches);
    r.push(raw(middle));
    r.push(tinted(name, color));
    proof {
        assert(span_views(r@) =~= span_views(s0) + span_views(s1) + span_views(
            r@.skip(r@.len() - 2),
        ));
        assert(span_views(r@) =~= row_spans(*row, universe_bytes));
    }
    r
}

/// The percentage is the share of the universe: it times the universe is the amount times a
/// hundred, but for eleven parts in 2 to the power of 52.
pub proof fn law_percentage_is_share(amount: Quantity, universe: u64)
    requires
        lies_between(amount, 174, 1974),
    ensures
        universe == 0 ==> percent(amount, universe).bits == 0,
        universe > 0 ==> close(
            percent(amount, universe).amount() * universe as nat,
            amount.amount() * 100,
            11,
        ),
{
    if universe > 0 {
        lemma_share_close(amount, universe as nat, 100);
    }
}

/// What the line of a row tells: the size in front, the bar in the middle, the share and the
/// samples behind it, and at the end the name, with a slash if there is something below it, in
/// the color of the category that most of the row belongs to.
pub proof fn law_row_tells_each(row: DirRow, universe: u64)
    ensures
        ({
            let line = row_spans(row, universe);
            let n = line.len();
            let share = line[n - 2].text;
            let digits = decimal(row.total_samples as nat);
            &&& n == bar(row, universe, BAR_WIDTH as nat).len() + 3
            &&& line.subrange(1, n - 2) == bar(row, universe, BAR_WIDTH as nat)
            &&& line[0].text == right_aligned(human(row.total_bytes), 10) + "  "@
            &&& right_aligned(
                one_decimal(percent(row.total_bytes, universe)),
                5,
            ).is_prefix_of(share.skip(1))
            &&& decimal_value(
                share.subrange(share.len() - 2 - left_aligned(digits, 5).len(), share.len() - 2
                    - left_aligned(digits, 5).len() + digits.len()),
            ) == row.total_samples
            &&& row.name@.is_prefix_of(line[n - 1].text)
            &&& line[n - 1].text.len() == row.name@.len() + (if row.has_children {
                1int
            } else {
                0
            })
            &&& row.has_children ==> line[n - 1].text.last() == '/'
            &&& row.total_bytes.bits == 0 ==> line[n - 1].style.fg == Some(Color::White)
            &&& row.total_bytes.bits > 0 ==> line[n - 1].style.fg == Some(
                color_of(greatest_of(row.bytes_by_category@)),
            )
        }),
{
    let line = row_spans(row, universe);
    let n = line.len();
    let share = line[n - 2].text;
    let digits = decimal(row.total_samples as nat);
    let figure = right_aligned(one_decimal(percent(row.total_bytes, universe)), 5);
    let count = left_aligned(digits, 5);
    reveal_strlit(" ");
    reveal_strlit("  ");
    reveal_strlit("/");
    reveal_strlit("%  n=");
    assert(line.subrange(1, n - 2) =~= bar(row, universe, BAR_WIDTH as nat));
    law_decimal_reads_back(row.total_samples as nat);
    law_alignment(digits, 5);
    let from = share.len() - 2 - count.len();
    assert(share == " "@ + figure + "%  n="@ + count + "  "@);
    assert(figure =~= share.skip(1).subrange(0, figure.len() as int));
    assert(share.subrange(from, share.len() - 2) =~= count);
    assert(digits =~= count.subrange(0, digits.len() as int));
    assert(share.subrange(from, from + digits.len()) =~= digits) by {
        assert forall|i: int| 0 <= i < digits.len() implies share[from + i] == digits[i] by {
            assert(count[i] == digits[i]);
        }
    }
    assert(row.name@ =~= line[n - 1].text.subrange(0, row.name@.len() as int));
}

/// The key to the colors.
pub open spec fn legend() -> Seq<char> {
    "[green=exclusive yellow=shared cyan=metadata magenta=system gray=unallocated]"@
}

/// The title of the list. `hidden` is what is left out.
pub open spec fn title_text(rows: nat, hidden: Option<(usize, Quantity)>) -> Seq<char> {
    match hidden {
        Some((count, bytes)) => "size (live estimate) — top "@ + decimal(rows) + " shown, +"@
            + decimal(count as nat) + " more (~"@ + human(bytes) + " not shown)  "@ + legend(),
        None => "size (live estimate)  "@ + legend(),
    }
}

/// The title says how many rows are shown and, where some are left out, how many and how much.
pub proof fn law_title_tells_rest(rows: nat, count: usize, bytes: Quantity)
    ensures
        ("size (live estimate) — top "@ + decimal(rows) + " shown, +"@ + decimal(count as nat)
            + " more (~"@ + human(bytes)).is_prefix_of(title_text(rows, Some((count, bytes)))),
        legend().is_suffix_of(title_text(rows, Some((count, bytes)))),
        title_text(rows, None) == title_text(0, None),
        "size (live estimate)  "@.is_prefix_of(title_text(rows, None)),
        legend().is_suffix_of(title_text(rows, None)),
{
    let title = title_text(rows, Some((count, bytes)));
    let bare = title_text(rows, None);
    let start = "size (live estimate) — top "@ + decimal(rows) + " shown, +"@ + decimal(
        count as nat,
    ) + " more (~"@ + human(bytes);
    let key = legend();
    let n = title.len() as int;
    let m = bare.len() as int;
    assert(start =~= title.subrange(0, start.len() as int));
    assert(key =~= title.subrange(n - key.len(), n));
    assert("size (live estimate)  "@ =~= bare.subrange(0, "size (live estimate)  "@.len() as int));
    assert(key =~= bare.subrange(m - key.len(), m));
}

/// The title of the list.
pub fn list_title(rows: usize, hidden: Option<(usize, Quantity)>) -> (r: String)
    requires
        match hidden {
            Some((_, size)) => size.wf(),
            None => true,
        },
    ensures
        r@ == title_text(rows as nat, hidden),
{
    let key: &str = "[green=exclusive yellow=shared cyan=metadata magenta=system gray=unallocated]";
    match hidden {
        Some((count, bytes)) => {
            let mut r: String = with_number("size (live estimate) — top ", rows as u64, " shown, +");
            push_decimal(&mut r, count as u64);
            r.append(" more (~");
            r.append(human_bytes(bytes).as_str());
            r.append(" not shown)  ");
            r.append(key);
            r
        },
        None => {
            let mut r: String = "size (live estimate)  ".to_owned();
            r.append(key);
            r
        },
    }
}

/// The line that tells of a device at the start.
pub open spec fn device_text(devid: u64, total_bytes: u64, path: Seq<char>) -> Seq<char> {
    "  devid "@ + right_aligned(decimal(devid as nat), 3) + "  "@ + right_aligned(
        human(Quantity::of(total_bytes as nat)),
        12,
    ) + "  "@ + path
}

/// The line of a device ends with its path and holds its number and its size, in columns.
pub proof fn law_device_line_tells(devid: u64, total_bytes: u64, path: Seq<char>)
    ensures
        ("  devid "@ + right_aligned(decimal(devid as nat), 3)).is_prefix_of(
            device_text(devid, total_bytes, path),
        ),
        (right_aligned(human(Quantity::of(total_bytes as nat)), 12) + "  "@ + path).is_suffix_of(
            device_text(devid, total_bytes, path),
        ),
{
    let line = device_text(devid, total_bytes, path);
    let start = "  devid "@ + right_aligned(decimal(devid as nat), 3);
    let tail = right_aligned(human(Quantity::of(total_bytes as nat)), 12) + "  "@ + path;
    assert(start =~= line.subrange(0, start.len() as int));
    assert(tail =~= line.subrange(line.len() - tail.len(), line.len() as int));
}

/// The line that tells of a device at the start.
pub fn device_line(devid: u64, total_bytes: u64, path: &str) -> (r: String)
    ensures
        r@ == device_text(devid, total_bytes, path@),
{
    let mut number: String = String::new();
    push_decimal(&mut number, devid);
    proof {
        assert(number@ =~= decimal(devid as nat));
    }
    let mut r: String = "  devid ".to_owned();
    r.append(align_right(number.as_str(), 3).as_str());
    r.append("  ");
    r.append(align_right(human_bytes(Quantity::from_u64(total_bytes)).as_str(), 12).as_str());
    r.append("  ");
    r.append(path);
    r
}

/// The row that is marked: none where there are no rows.
pub fn marked_row(selected: usize, rows: usize) -> (r: Option<usize>)
    ensures
        r == (if rows > 0 {
            Some(selected)
        } else {
            None
        }),
{
    if rows > 0 {
        Some(selected)
    } else {
        None
    }
}

/// The line at the bottom.
pub open spec fn footer(is_paused: bool, mode: ViewMode) -> Seq<char> {
    let pause = if is_paused {
        "p resume"@
    } else {
        "p pause"@
    };
    match mode {
        ViewMode::Browser => "↑/↓ move   →/Enter descend   ←/Backspace up   m map   "@ + pause
            + "   q quit"@,
        ViewMode::DiskMap => "m/Esc back to browser   "@ + pause + "   q quit"@,
    }
}

/// The line at the bottom offers to resume exactly while sampling is paused, the map exactly in
/// the browser, and to quit always.
pub proof fn law_footer_tells_mode(is_paused: bool, mode: ViewMode)
    ensures
        (if is_paused {
            "p resume"@
        } else {
            "p pause"@
        } + "   q quit"@).is_suffix_of(footer(is_paused, mode)),
        mode == ViewMode::DiskMap ==> "m/Esc back to browser   "@.is_prefix_of(
            footer(is_paused, mode),
        ),
        mode == ViewMode::Browser
            ==> "↑/↓ move   →/Enter descend   ←/Backspace up   m map   "@.is_prefix_of(
            footer(is_paused, mode),
        ),
{
    let line = footer(is_paused, mode);
    let n = line.len() as int;
    let tail = if is_paused {
        "p resume"@
    } else {
        "p pause"@
    } + "   q quit"@;
    let start = match mode {
        ViewMode::Browser => "↑/↓ move   →/Enter descend   ←/Backspace up   m map   "@,
        ViewMode::DiskMap => "m/Esc back to browser   "@,
    };
    assert(tail =~= line.subrange(n - tail.len(), n));
    assert(start =~= line.subrange(0, start.len() as int));
}

/// The line at the bottom: which keys there are.
pub fn footer_text(is_paused: bool, mode: ViewMode) -> (r: String)
    ensures
        r@ == footer(is_paused, mode),
{
    let mut r: String = match mode {
        ViewMode::Browser => "↑/↓ move   →/Enter descend   ←/Backspace up   m map   ".to_owned(),
        ViewMode::DiskMap => "m/Esc back to browser   ".to_owned(),
    };
    if is_paused {
        r.append("p resume");
    } else {
        r.append("p pause");
    }
    r.append("   q quit");
    r
}

} // verus!
