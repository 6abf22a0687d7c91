//! The panel that tells about the selected row.
use crate::figures::{human, human_bytes};
use crate::model::{greatest_of, Category, DirRow};
use crate::quantity::Quantity;
use crate::screen::{
    bold, category_color, color_of, colored, heading, line_views, plain, raw, span_views, strong,
    tinted, underlined, with_number, Color, Span, SpanView, Style,
};
use crate::sampler::{subvol_name, unresolved_name};
use crate::text::{
    align_left, align_right, decimal, decimal_value, law_alignment, law_decimal_reads_back,
    left_aligned, right_aligned, starts_with,
};
use vstd::prelude::*;
use vstd::string::*;

verus! {

/// A line of one piece of plain text.
pub open spec fn plain_line(text: Seq<char>) -> Seq<SpanView> {
    seq![plain(text)]
}

/// The line for one category of a row.
pub open spec fn breakdown_line(cat: Category, amount: Quantity, samples: u64) -> Seq<SpanView> {
    seq![
        colored("● "@, color_of(cat)),
        plain(
            left_aligned(cat.label_text(), 11) + " "@ + right_aligned(human(amount), 10) + "  n="@
                + decimal(samples as nat),
        ),
    ]
}

/// The lines for those of the first `k` categories that the row has samples of.
pub open spec fn breakdown(row: DirRow, k: nat) -> Seq<Seq<SpanView>>
    decreases k,
{
    if k == 0 {
        Seq::empty()
    } else {
        let before = breakdown(row, (k - 1) as nat);
        let samples = row.samples_by_category@[k - 1];
        if samples == 0 {
            before
        } else {
            before.push(
                breakdown_line(Category::at(k - 1), row.bytes_by_category@[k - 1], samples),
            )
        }
    }
}

pub open spec fn strong_colored(text: Seq<char>, color: Color) -> SpanView {
    SpanView {
        text,
        style: Style { fg: Some(color), bg: None, bold: true, underlined: false },
    }
}

/// The row stands for a whole subvolume.
pub open spec fn is_boundary(name: Seq<char>) -> bool {
    "<subvol"@.is_prefix_of(name) || "<unresolved-subvol"@.is_prefix_of(name)
}

/// The first lines about a row: its name and what there is in all.
pub open spec fn about_total(row: DirRow) -> Seq<Seq<SpanView>> {
    let start = seq![
        seq![strong(row.name@)],
        plain_line(""@),
        plain_line(
            "total: "@ + human(row.total_bytes) + "  ("@ + decimal(row.total_samples as nat)
                + " samples)"@,
        ),
    ];
    match row.inode {
        Some(inode) => start.push(plain_line("inode: "@ + decimal(inode as nat))),
        None => start,
    }
}

/// The lines about the category that most of the row belongs to.
pub open spec fn about_dominant(row: DirRow) -> Seq<Seq<SpanView>> {
    match row.dominant() {
        Some(cat) => seq![
            plain_line(""@),
            seq![strong_colored(cat.label_text(), color_of(cat))],
            plain_line(cat.explanation_text()),
        ],
        None => Seq::empty(),
    }
}

pub open spec fn boundary_note() -> Seq<char> {
    "This is a subvolume boundary. Data below it may also be reachable from other subvolumes (snapshots) — see 'shared' above."@
}

/// The lines about a row.
pub open spec fn about(row: DirRow) -> Seq<Seq<SpanView>> {
    let lines = about_total(row).push(plain_line(""@)).push(seq![heading("breakdown"@)])
        + breakdown(row, 5) + about_dominant(row);
    if is_boundary(row.name@) {
        lines.push(plain_line(""@)).push(plain_line(boundary_note()))
    } else {
        lines
    }
}

/// The lines of the panel.
pub open spec fn info(selected: Option<DirRow>, total_draws: u64, universe: u64) -> Seq<
    Seq<SpanView>,
> {
    let lines = match selected {
        Some(row) => about(row),
        None => seq![plain_line("No entry selected."@)],
    };
    lines.push(plain_line(""@)).push(
        plain_line(
            "(overall: "@ + decimal(total_draws as nat) + " draws, universe "@ + human(
                Quantity::of(universe as nat),
            ) + ")"@,
        ),
    )
}

/// Each category with samples has its line, behind those of the categories before it that have
/// any, and no other category has one.
pub proof fn law_breakdown_lists_sampled(row: DirRow, c: int)
    requires
        0 <= c < 5,
    ensures
        breakdown(row, 5).len() == sampled(row, 5),
        row.samples_by_category@[c] > 0 ==> sampled(row, c as nat) < breakdown(row, 5).len()
            && breakdown(row, 5)[sampled(row, c as nat) as int] == breakdown_line(
            Category::at(c),
            row.bytes_by_category@[c],
            row.samples_by_category@[c],
        ),
{
    lemma_breakdown(row, 5, c);
}

/// How many of the first `k` categories have samples.
pub open spec fn sampled(row: DirRow, k: nat) -> nat
    decreases k,
{
    if k == 0 {
        0
    } else {
        sampled(row, (k - 1) as nat) + (if row.samples_by_category@[k - 1] > 0 {
            1nat
        } else {
            0
        })
    }
}

proof fn lemma_breakdown(row: DirRow, k: nat, c: int)
    requires
        k <= 5,
        0 <= c,
    ensures
        breakdown(row, k).len() == sampled(row, k),
        c < k && row.samples_by_category@[c] > 0 ==> sampled(row, c as nat) < breakdown(
            row,
            k,
        ).len() && breakdown(row, k)[sampled(row, c as nat) as int] == breakdown_line(
            Category::at(c),
            row.bytes_by_category@[c],
            row.samples_by_category@[c],
        ),
    decreases k,
{
    if k > 0 {
        lemma_breakdown(row, (k - 1) as nat, c);
        if c < k - 1 && row.samples_by_category@[c] > 0 {
            let before = breakdown(row, (k - 1) as nat);
            let i = sampled(row, c as nat) as int;
            assert(breakdown(row, k)[i] == before[i]);
        }
    }
}

/// The line of a category has its color, its name, its size, and its samples, which are read
/// back from the end of it.
pub proof fn law_breakdown_line_tells(cat: Category, amount: Quantity, samples: u64)
    ensures
        ({
            let line = breakdown_line(cat, amount, samples);
            let text = line[1].text;
            let digits = decimal(samples as nat);
            &&& line.len() == 2
            &&& line[0].style.fg == Some(color_of(cat))
            &&& cat.label_text().is_prefix_of(text)
            &&& decimal_value(text.skip(text.len() - digits.len())) == samples
            &&& (right_aligned(human(amount), 10) + "  n="@ + digits).is_suffix_of(text)
        }),
{
    let text = breakdown_line(cat, amount, samples)[1].text;
    let digits = decimal(samples as nat);
    let label = cat.label_text();
    law_decimal_reads_back(samples as nat);
    law_alignment(label, 11);
    let padded = left_aligned(label, 11);
    assert(text == padded + " "@ + right_aligned(human(amount), 10) + "  n="@ + digits);
    assert(text.skip(text.len() - digits.len()) =~= digits);
    assert(label =~= padded.subrange(0, label.len() as int));
    assert(label =~= text.subrange(0, label.len() as int)) by {
        assert forall|i: int| 0 <= i < label.len() implies label[i] == text[i] by {
            assert(padded[i] == label[i]);
        }
    }
    let tail = right_aligned(human(amount), 10) + "  n="@ + digits;
    assert(tail =~= text.subrange(text.len() - tail.len(), text.len() as int));
}

/// What the panel tells of a row: its name first, then in all, with the samples read back, the
/// inode exactly if there is one, a line for each category with samples, the dominant category
/// exactly if there is one, and the note exactly if the row stands for a subvolume. At the end
/// come the draws and the universe, with a row or without.
pub proof fn law_panel_tells_each(row: DirRow, total_draws: u64, universe: u64)
    ensures
        ({
            let lines = info(Some(row), total_draws, universe);
            let inode = if row.inode is Some {
                1int
            } else {
                0
            };
            let dominant = if row.total_bytes.bits > 0 {
                3int
            } else {
                0
            };
            let note = if is_boundary(row.name@) {
                2int
            } else {
                0
            };
            let listed = sampled(row, 5);
            &&& lines.len() == 5 + inode + listed + dominant + note + 2
            &&& lines[0] == seq![strong(row.name@)]
            &&& ("total: "@ + human(row.total_bytes) + "  ("@ + decimal(
                row.total_samples as nat,
            )).is_prefix_of(lines[2][0].text)
            &&& row.inode is Some ==> lines[3] == plain_line(
                "inode: "@ + decimal(row.inode->0 as nat),
            )
            &&& lines.subrange(5 + inode, 5 + inode + listed) == breakdown(row, 5)
            &&& row.total_bytes.bits > 0 ==> {
                let cat = greatest_of(row.bytes_by_category@);
                &&& lines[5 + inode + listed + 1][0].text == cat.label_text()
                &&& lines[5 + inode + listed + 1][0].style.fg == Some(color_of(cat))
                &&& lines[5 + inode + listed + 2][0].text == cat.explanation_text()
            }
            &&& is_boundary(row.name@) ==> lines[5 + inode + listed + dominant + 1] == plain_line(
                boundary_note(),
            )
            &&& lines.last() == info(None, total_draws, universe).last()
            &&& ("(overall: "@ + decimal(total_draws as nat) + " draws, universe "@ + human(
                Quantity::of(universe as nat),
            )).is_prefix_of(lines.last()[0].text)
        }),
{
    let lines = info(Some(row), total_draws, universe);
    lemma_breakdown(row, 5, 0);
    let inode = if row.inode is Some {
        1int
    } else {
        0
    };
    let listed = sampled(row, 5);
    assert(lines.subrange(5 + inode, 5 + inode + listed) =~= breakdown(row, 5));
    let total = "total: "@ + human(row.total_bytes) + "  ("@ + decimal(row.total_samples as nat);
    assert(total =~= lines[2][0].text.subrange(0, total.len() as int));
    let overall = "(overall: "@ + decimal(total_draws as nat) + " draws, universe "@ + human(
        Quantity::of(universe as nat),
    );
    assert(overall =~= lines.last()[0].text.subrange(0, overall.len() as int));
}

/// Every name that a subvolume is given, with a path or without, is told to be a boundary, and
/// the name of one without a path holds its number.
pub proof fn law_subvolumes_are_boundaries(path: Seq<char>, root_id: u64)
    ensures
        is_boundary(subvol_name(path)),
        is_boundary(unresolved_name(root_id)),
        decimal_value(
            unresolved_name(root_id).subrange(19, unresolved_name(root_id).len() - 1),
        ) == root_id,
        subvol_name(path).subrange(8, subvol_name(path).len() - 1) == path,
{
    reveal_strlit("<subvol");
    reveal_strlit("<subvol:");
    reveal_strlit("<unresolved-subvol");
    reveal_strlit("<unresolved-subvol:");
    reveal_strlit(">");
    let a = subvol_name(path);
    let b = unresolved_name(root_id);
    assert("<subvol"@ =~= a.subrange(0, 7));
    assert("<unresolved-subvol"@ =~= b.subrange(0, 18));
    law_decimal_reads_back(root_id as nat);
    assert(b.subrange(19, b.len() - 1) =~= decimal(root_id as nat));
    assert(a.subrange(8, a.len() - 1) =~= path);
}

/// Adds a line.
pub(crate) fn push_line(lines: &mut Vec<Vec<Span>>, line: Vec<Span>)
    ensures
        line_views(final(lines)@) == line_views(old(lines)@).push(span_views(line@)),
{
    lines.push(line);
    proof {
        assert(line_views(lines@) =~= line_views(old(lines)@).push(span_views(line@)));
    }
}

/// Adds a line of one piece.
pub(crate) fn push_span(lines: &mut Vec<Vec<Span>>, span: Span)
    ensures
        line_views(final(lines)@) == line_views(old(lines)@).push(seq![span@]),
{
    let mut line: Vec<Span> = Vec::new();
    line.push(span);
    proof {
        assert(span_views(line@) =~= seq![span@]);
    }
    push_line(lines, line);
}

/// Adds a line of plain text.
pub(crate) fn push_text(lines: &mut Vec<Vec<Span>>, text: String)
    ensures
        line_views(final(lines)@) == line_views(old(lines)@).push(plain_line(text@)),
{
    push_span(lines, raw(text));
}

fn category_line(cat: Category, amount: Quantity, samples: u64) -> (r: Vec<Span>)
    requires
        amount.wf(),
    ensures
        span_views(r@) == breakdown_line(cat, amount, samples),
{
    let mut text: String = align_left(cat.label(), 11);
    text.append(" ");
    text.append(align_right(human_bytes(amount).as_str(), 10).as_str());
    let count: String = with_number("  n=", samples, "");
    text.append(count.as_str());
    proof {
        reveal_strlit("");
        assert(text@ =~= left_aligned(cat.label_text(), 11) + " "@ + right_aligned(
            human(amount),
            10,
        ) + "  n="@ + decimal(samples as nat));
    }
    let mut r: Vec<Span> = Vec::new();
    r.push(tinted("● ".to_owned(), category_color(cat)));
    r.push(raw(text));
    proof {
        assert(span_views(r@) =~= breakdown_line(cat, amount, samples));
    }
    r
}

fn push_total(lines: &mut Vec<Vec<Span>>, row: &DirRow)
    requires
        old(lines)@.len() == 0,
        row.wf(),
    ensures
        line_views(final(lines)@) == about_total(*row),
{
    proof {
        assert(line_views(lines@) =~= Seq::empty());
    }
    push_span(lines, bold(row.name.clone()));
    push_text(lines, "".to_owned());
    let mut total: String = "total: ".to_owned();
    total.append(human_bytes(row.total_bytes).as_str());
    let count: String = with_number("  (", row.total_samples, " samples)");
    total.append(count.as_str());
    proof {
        assert(total@ =~= "total: "@ + human(row.total_bytes) + "  ("@ + decimal(
            row.total_samples as nat,
        ) + " samples)"@);
    }
    push_text(lines, total);
    proof {
        assert(line_views(lines@) =~= about_total(DirRow { inode: None, ..*row }));
    }
    match row.inode {
        Some(inode) => {
            let text: String = with_number("inode: ", inode, "");
            proof {
                reveal_strlit("");
                assert(text@ =~= "inode: "@ + decimal(inode as nat));
            }
            push_text(lines, text);
        },
        None => {},
    }
}

fn push_breakdown(lines: &mut Vec<Vec<Span>>, row: &DirRow)
    requires
        row.wf(),
    ensures
        line_views(final(lines)@) == line_views(old(lines)@) + breakdown(*row, 5),
{
    let ghost start = line_views(lines@);
    let mut c: usize = 0;
    while c < 5
        invariant
            row.wf(),
            c <= 5,
            line_views(lines@) == start + breakdown(*row, c as nat),
        decreases 5 - c,
    {
        let cat: Category = Category::ALL[c];
        let samples: u64 = row.samples_by_category[c];
        proof {
            assert(cat == Category::at(c as int));
        }
        if samples != 0 {
            push_line(lines, category_line(cat, row.bytes_by_category[c], samples));
        }
        proof {
            assert(line_views(lines@) =~= start + breakdown(*row, (c + 1) as nat));
        }
        c = c + 1;
    }
}

fn push_dominant(lines: &mut Vec<Vec<Span>>, row: &DirRow)
    ensures
        line_views(final(lines)@) == line_views(old(lines)@) + about_dominant(*row),
{
    match row.dominant_category() {
        Some(cat) => {
            push_text(lines, "".to_owned());
            let label: Span = Span {
                text: cat.label().to_owned(),
                style: Style {
                    fg: Some(category_color(cat)),
                    bg: None,
                    bold: true,
                    underlined: false,
                },
            };
            push_span(lines, label);
            push_text(lines, cat.explanation().to_owned());
        },
        None => {},
    }
    proof {
        assert(line_views(lines@) =~= line_views(old(lines)@) + about_dominant(*row));
    }
}

/// The lines of the panel about the selected row.
pub fn info_lines(selected: Option<&DirRow>, total_draws: u64, universe_bytes: u64) -> (r: Vec<
    Vec<Span>,
>)
    requires
        selected is Some ==> selected->0.wf(),
    ensures
        line_views(r@) == info(
            (match selected {
                Some(row) => Some(*row),
                None => None,
            }),
            total_draws,
            universe_bytes,
        ),
{
    let mut lines: Vec<Vec<Span>> = Vec::new();
    match selected {
        Some(row) => {
            push_total(&mut lines, row);
            push_text(&mut lines, "".to_owned());
            push_span(&mut lines, underlined("breakdown".to_owned()));
            push_breakdown(&mut lines, row);
            push_dominant(&mut lines, row);
            if starts_with(row.name.as_str(), "<subvol") || starts_with(
                row.name.as_str(),
                "<unresolved-subvol",
            ) {
                push_text(&mut lines, "".to_owned());
                push_text(
                    &mut lines,
                    "This is a subvolume boundary. Data below it may also be reachable from other subvolumes (snapshots) — see 'shared' above.".to_owned(),
                );
            }
        },
        None => {
            proof {
                assert(line_views(lines@) =~= Seq::empty());
            }
            push_text(&mut lines, "No entry selected.".to_owned());
        },
    }
    push_text(&mut lines, "".to_owned());
    let mut overall: String = with_number("(overall: ", total_draws, " draws, universe ");
    overall.append(human_bytes(Quantity::from_u64(universe_bytes)).as_str());
    overall.append(")");
    push_text(&mut lines, overall);
    lines
}

} // verus!
