//! What the screen shows.
use btd::aggregator::{DrawResult, SharedState};
use btd::disk_map::{aggregate_cells, greatest_count, map_lines};
use btd::info::info_lines;
use btd::model::{Category, DirRow, MapCell, Sample};
use btd::quantity::Quantity;
use btd::screen::{
    category_color, composition_bar, confidence, device_line, footer_text, header_line, list_title, marked_row,
    row_line, Color, Span, Style,
};
use btd::ui::{UiState, ViewMode};

fn quantity(x: f64) -> Quantity {
    Quantity { bits: x.to_bits() }
}

fn text(line: &Vec<Span>) -> String {
    line.iter().map(|span| span.text.as_str()).collect()
}

fn plain() -> Style {
    Style { fg: None, bg: None, bold: false, underlined: false }
}

fn tinted(color: Color) -> Style {
    Style { fg: Some(color), ..plain() }
}

fn row(name: &str, bytes: [f64; 5], samples: [u64; 5]) -> DirRow {
    let total: f64 = bytes.iter().sum();
    DirRow {
        name: name.to_string(),
        total_bytes: quantity(total),
        total_samples: samples.iter().sum(),
        bytes_by_category: bytes.map(quantity),
        samples_by_category: samples,
        has_children: false,
        inode: None,
    }
}

#[test]
fn categories_have_colors() {
    let colors: Vec<Color> = Category::ALL.iter().map(|c| category_color(*c)).collect();
    assert_eq!(
        colors,
        vec![Color::Green, Color::Yellow, Color::Cyan, Color::Magenta, Color::DarkGray]
    );
}

#[test]
fn a_bar_is_made_of_stretches() {
    let spans = composition_bar(&row("a", [500.0, 0.0, 250.0, 0.0, 0.0], [2, 0, 1, 0, 0]), 1000, 20);
    assert_eq!(text(&spans), "###############-----");
    assert_eq!(spans.len(), 3);
    assert_eq!(spans[0].text, "##########");
    assert_eq!(spans[0].style, tinted(Color::Green));
    assert_eq!(spans[1].text, "#####");
    assert_eq!(spans[1].style, tinted(Color::Cyan));
    assert_eq!(spans[2].style, tinted(Color::DarkGray));
}

#[test]
fn a_bar_without_a_size_is_dashes() {
    let empty = row("a", [0.0; 5], [0; 5]);
    let spans = composition_bar(&empty, 1000, 5);
    assert_eq!(spans.len(), 1);
    assert_eq!(spans[0].text, "-----");
    assert_eq!(spans[0].style, plain());
    let full = row("a", [1.0, 0.0, 0.0, 0.0, 0.0], [1, 0, 0, 0, 0]);
    assert_eq!(text(&composition_bar(&full, 0, 3)), "---");
}

#[test]
fn a_bar_never_leaves_its_width() {
    for k in 0..200u64 {
        let bytes = [
            (k * 37 % 401) as f64,
            (k * 91 % 307) as f64,
            (k * 53 % 211) as f64,
            (k * 17 % 503) as f64,
            k as f64,
        ];
        for width in [0usize, 1, 7, 20] {
            let r = row("a", bytes, [1; 5]);
            let line = text(&composition_bar(&r, 700, width));
            assert_eq!(line.len(), width);
            let mut used: usize = 0;
            for b in bytes {
                let chars: usize = (b / 700.0 * width as f64).round() as usize;
                used += chars.min(width - used);
            }
            if k > 0 {
                assert_eq!(line, "#".repeat(used) + &"-".repeat(width - used));
            }
        }
    }
}

#[test]
fn the_header_tells_the_totals() {
    let mut ui = UiState::new();
    let line = header_line(&ui, 0, 1536, false);
    assert_eq!(text(&line), " sampling   /   universe: 1.5KiB   draws: 0 (0/s)   ~±100.0%");
    assert_eq!(line.len(), 10);
    assert_eq!(
        line[0].style,
        Style { fg: Some(Color::Black), bg: Some(Color::Green), bold: false, underlined: false }
    );
    assert_eq!(line[2].style, Style { bold: true, ..plain() });
    assert_eq!(line[4].style, plain());
    ui.current_path = vec!["a".to_string(), "b c".to_string()];
    ui.draws_per_sec = quantity(1234.5);
    let line = header_line(&ui, 10000, 0, true);
    assert_eq!(text(&line), " PAUSED   /a/b c   universe: 0.0B   draws: 10000 (1234/s)   ~±1.0%");
    assert_eq!(
        line[0].style,
        Style { fg: Some(Color::White), bg: Some(Color::Red), bold: true, underlined: false }
    );
}

#[test]
fn doubt_shrinks_with_the_draws() {
    let mut last: f64 = f64::INFINITY;
    for draws in [1u64, 2, 3, 10, 99, 100, 12345, u64::MAX] {
        let doubt = f64::from_bits(confidence(draws).bits);
        assert_eq!(doubt, 100.0 / (draws as f64).sqrt());
        assert!(doubt <= last);
        last = doubt;
    }
    assert_eq!(f64::from_bits(confidence(0).bits), 100.0);
}

#[test]
fn a_row_is_one_line() {
    let mut r = row("dir", [512.0, 256.0, 0.0, 0.0, 0.0], [10, 5, 0, 0, 0]);
    let line = row_line(&r, 1024);
    assert_eq!(text(&line), "    768.0B  ###############-----  75.0%  n=15     dir");
    assert_eq!(line[line.len() - 1].style, tinted(Color::Green));
    r.has_children = true;
    assert!(text(&row_line(&r, 1024)).ends_with("  dir/"));
    let empty = row("none", [0.0; 5], [0; 5]);
    let line = row_line(&empty, 0);
    assert_eq!(text(&line), "      0.0B  --------------------   0.0%  n=0      none");
    assert_eq!(line[line.len() - 1].style, tinted(Color::White));
}

#[test]
fn the_title_tells_what_is_left_out() {
    assert_eq!(
        list_title(7, None),
        "size (live estimate)  [green=exclusive yellow=shared cyan=metadata magenta=system gray=unallocated]"
    );
    assert_eq!(
        list_title(300, Some((12, quantity(2048.0)))),
        "size (live estimate) — top 300 shown, +12 more (~2.0KiB not shown)  [green=exclusive yellow=shared cyan=metadata magenta=system gray=unallocated]"
    );
    assert_eq!(marked_row(3, 5), Some(3));
    assert_eq!(marked_row(3, 0), None);
}

#[test]
fn devices_are_listed_in_columns() {
    assert_eq!(device_line(1, 1536, "/dev/sda"), "  devid   1        1.5KiB  /dev/sda");
    assert_eq!(device_line(12345, 0, ""), "  devid 12345          0.0B  ");
}

#[test]
fn the_footer_tells_the_keys() {
    assert_eq!(
        footer_text(false, ViewMode::Browser),
        "↑/↓ move   →/Enter descend   ←/Backspace up   m map   p pause   q quit"
    );
    assert_eq!(
        footer_text(true, ViewMode::Browser),
        "↑/↓ move   →/Enter descend   ←/Backspace up   m map   p resume   q quit"
    );
    assert_eq!(footer_text(false, ViewMode::DiskMap), "m/Esc back to browser   p pause   q quit");
    assert_eq!(footer_text(true, ViewMode::DiskMap), "m/Esc back to browser   p resume   q quit");
}

fn texts(lines: &Vec<Vec<Span>>) -> Vec<String> {
    lines.iter().map(text).collect()
}

#[test]
fn the_panel_tells_about_a_row() {
    let mut r = row("<subvol:/home>", [1024.0, 0.0, 0.0, 3072.0, 0.0], [1, 0, 0, 3, 0]);
    r.inode = Some(258);
    let lines = info_lines(Some(&r), 42, 4096);
    assert_eq!(
        texts(&lines),
        vec![
            "<subvol:/home>",
            "",
            "total: 4.0KiB  (4 samples)",
            "inode: 258",
            "",
            "breakdown",
            "● exclusive       1.0KiB  n=1",
            "● system          3.0KiB  n=3",
            "",
            "system",
            "btrfs SYSTEM chunks: bookkeeping for the chunk tree itself. Normally tiny.",
            "",
            "This is a subvolume boundary. Data below it may also be reachable from other subvolumes (snapshots) — see 'shared' above.",
            "",
            "(overall: 42 draws, universe 4.0KiB)",
        ]
    );
    assert_eq!(lines[0][0].style, Style { bold: true, ..plain() });
    assert_eq!(lines[5][0].style, Style { underlined: true, ..plain() });
    assert_eq!(lines[6][0].text, "● ");
    assert_eq!(lines[6][0].style, tinted(Color::Green));
    assert_eq!(lines[6][1].style, plain());
    assert_eq!(lines[9][0].style, Style { bold: true, ..tinted(Color::Magenta) });
}

#[test]
fn the_panel_leaves_out_what_is_not_there() {
    let lines = info_lines(Some(&row("plain", [0.0; 5], [0; 5])), 0, 0);
    assert_eq!(
        texts(&lines),
        vec![
            "plain",
            "",
            "total: 0.0B  (0 samples)",
            "",
            "breakdown",
            "",
            "(overall: 0 draws, universe 0.0B)",
        ]
    );
    let boundary = texts(&info_lines(Some(&row("<unresolved-subvol:5>", [0.0; 5], [0; 5])), 0, 0));
    assert!(boundary.iter().any(|line| line.starts_with("This is a subvolume boundary.")));
    assert_eq!(
        texts(&info_lines(None, 3, 1024)),
        vec!["No entry selected.", "", "(overall: 3 draws, universe 1.0KiB)"]
    );
}

fn cell(hits: [f64; 5], count: u64) -> MapCell {
    MapCell { hits: hits.map(quantity), count }
}

#[test]
fn cells_are_shaded_by_density() {
    let green = |count: u64| cell([count as f64, 0.0, 0.0, 0.0, 0.0], count);
    for (count, mark) in [(0u64, ' '), (1, '░'), (25, '░'), (26, '▒'), (50, '▒'), (51, '▓'), (75, '▓'), (76, '█'), (100, '█'), (200, '█')] {
        let (shown, color) = aggregate_cells(&[green(count)], 100);
        assert_eq!(shown, mark);
        assert_eq!(color, if count == 0 { Color::DarkGray } else { Color::Green });
    }
    assert_eq!(aggregate_cells(&[green(3)], 0), ('░', Color::Green));
    assert_eq!(aggregate_cells(&[], 100), (' ', Color::DarkGray));
    let huge = cell([1e300, 1e301, 0.0, 0.0, 0.0], 1);
    assert_eq!(aggregate_cells(&[huge, huge], 2), ('█', Color::Yellow));
}

#[test]
fn cells_together_have_one_color() {
    let cells = [
        cell([1.0, 0.0, 0.0, 0.0, 0.0], 1),
        cell([0.0, 0.75, 0.0, 0.0, 0.0], 2),
        cell([0.0, 0.5, 0.0, 0.0, 0.0], 1),
    ];
    assert_eq!(aggregate_cells(&cells[0..2], 4), ('▓', Color::Green));
    assert_eq!(aggregate_cells(&cells, 4), ('█', Color::Yellow));
    let tie = [cell([1.0, 0.0, 0.0, 1.0, 0.0], 2)];
    assert_eq!(aggregate_cells(&tie, 8), ('░', Color::Magenta));
}

fn mark(state: &mut SharedState, devid: u64, offset: u64, category: Category) {
    let sample = Sample {
        path_components: vec!["x".to_string()],
        category,
        weight: Quantity::from_u64(1),
        inode: None,
        physical: Some((devid, offset)),
    };
    state.record(&DrawResult { samples: vec![sample] });
}

#[test]
fn the_map_has_a_row_for_each_device() {
    let mut state =
        SharedState::new(1, vec![(1, "/dev/a".to_string(), 1024), (7, "/dev/b".to_string(), 2048)]);
    for _ in 0..4 {
        mark(&mut state, 1, 0, Category::Exclusive);
    }
    mark(&mut state, 1, 1023, Category::Metadata);
    mark(&mut state, 7, 1024, Category::Shared);
    mark(&mut state, 7, 1027, Category::Shared);
    assert_eq!(greatest_count(&state.disk_map), 4);
    let lines = map_lines(&state, 6);
    assert_eq!(
        texts(&lines),
        vec![
            "Disk map — physical layout, one row per device",
            "",
            "devid 1  /dev/a  (1.0KiB)",
            "█  ░",
            "",
            "devid 7  /dev/b  (2.0KiB)",
            "  ▒ ",
            "",
            "shade = sample density (space = no samples yet, █ = most-sampled region); color = dominant category there:",
            "■ exclusive   ■ shared   ■ metadata   ■ system   ■ unallocated",
        ]
    );
    assert_eq!(lines[0][0].style, Style { bold: true, ..plain() });
    assert_eq!(lines[2][0].style, Style { underlined: true, ..plain() });
    let colors: Vec<Option<Color>> = lines[3].iter().map(|span| span.style.fg).collect();
    assert_eq!(
        colors,
        vec![
            Some(Color::Green),
            Some(Color::DarkGray),
            Some(Color::DarkGray),
            Some(Color::Cyan),
        ]
    );
    assert_eq!(lines[6][2].style, tinted(Color::Yellow));
    assert_eq!(lines[9][0].style, tinted(Color::Green));
    assert_eq!(lines[9][8].style, tinted(Color::DarkGray));
}

#[test]
fn the_map_fits_any_width() {
    let mut state = SharedState::new(1, vec![(1, "d".to_string(), 1024)]);
    mark(&mut state, 1, 0, Category::Exclusive);
    for (area, width) in [(0u16, 1usize), (1, 1), (2, 1), (3, 1), (4, 2), (514, 512), (1000, 998)] {
        let lines = map_lines(&state, area);
        assert_eq!(lines[3].len(), width);
        assert_eq!(lines[3][0].text, "█");
    }
    let wide = map_lines(&state, 1026);
    assert_eq!(wide[3][0].text, "█");
    assert_eq!(wide[3][1].text, "█");
    assert_eq!(wide[3][2].text, " ");
}

#[test]
fn every_cell_is_shown_at_any_width() {
    for area in [3u16, 5, 9, 100, 300, 514, 700, 1300] {
        for cell in [0u64, 1, 255, 256, 510, 511] {
            let mut state = SharedState::new(1, vec![(1, "d".to_string(), 512)]);
            mark(&mut state, 1, cell, Category::Shared);
            assert!(text(&map_lines(&state, area)[3]).contains('█'), "{area} {cell}");
        }
    }
}

#[test]
fn a_map_without_devices_says_so() {
    let state = SharedState::new(1, vec![]);
    let lines = texts(&map_lines(&state, 80));
    assert_eq!(lines.len(), 5);
    assert_eq!(lines[2], "No device size information available for the disk map.");
    assert_eq!(greatest_count(&state.disk_map), 0);
}
