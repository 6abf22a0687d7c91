//! The rows of a directory and the keys.
use btd::aggregator::{DrawResult, SharedState};
use btd::level::{hits_to_bytes, read_current_level, MAX_DISPLAYED_ROWS};
use btd::model::{Category, DirRow, Sample};
use btd::quantity::Quantity;
use btd::ranking::rank;
use btd::ui::{next_frame, Action, Event, Flags, Key, Next, UiState, ViewMode};

fn number(q: Quantity) -> f64 {
    f64::from_bits(q.bits)
}

fn draw(state: &mut SharedState, path: &[&str], category: Category, weight: f64) {
    let sample = Sample {
        path_components: path.iter().map(|s| s.to_string()).collect(),
        category,
        weight: Quantity { bits: weight.to_bits() },
        inode: Some(path.len() as u64),
        physical: None,
    };
    let draw = DrawResult { samples: vec![sample] };
    assert!(state.has_room(&draw));
    state.record(&draw);
}

fn names(rows: &Vec<DirRow>) -> Vec<String> {
    rows.iter().map(|row| row.name.clone()).collect()
}

#[test]
fn rows_come_by_size() {
    let mut state = SharedState::new(3000, vec![]);
    draw(&mut state, &["small", "x"], Category::Exclusive, 1.0);
    for _ in 0..3 {
        draw(&mut state, &["large"], Category::Shared, 0.5);
    }
    draw(&mut state, &["large"], Category::Metadata, 1.0);
    draw(&mut state, &["middle"], Category::Exclusive, 1.0);
    draw(&mut state, &["middle"], Category::Exclusive, 0.25);
    let (rows, hidden) = read_current_level(&state, &vec![], state.total_draws);
    assert!(hidden.is_none());
    assert_eq!(names(&rows), vec!["large", "middle", "small"]);
    assert_eq!(number(rows[0].total_bytes), 2.5 / 7.0 * 3000.0);
    assert_eq!(rows[0].total_samples, 4);
    assert_eq!(number(rows[0].bytes_for(Category::Shared)), 1.5 / 7.0 * 3000.0);
    assert_eq!(rows[0].samples_for(Category::Shared), 3);
    assert_eq!(rows[0].samples_for(Category::Metadata), 1);
    assert_eq!(rows[0].samples_for(Category::System), 0);
    assert_eq!(rows[0].dominant_category(), Some(Category::Shared));
    assert!(!rows[0].has_children);
    assert!(rows[2].has_children);
    assert_eq!(rows[2].inode, Some(2));
    let (rows, _) = read_current_level(&state, &vec!["small".to_string()], 7);
    assert_eq!(names(&rows), vec!["x"]);
}

#[test]
fn a_path_that_leads_nowhere_has_no_rows() {
    let mut state = SharedState::new(3000, vec![]);
    draw(&mut state, &["a"], Category::Exclusive, 1.0);
    let (rows, hidden) = read_current_level(&state, &vec!["b".to_string()], 1);
    assert!(rows.is_empty() && hidden.is_none());
    let (rows, hidden) = read_current_level(&state, &vec!["a".to_string()], 1);
    assert!(rows.is_empty() && hidden.is_none());
}

#[test]
fn only_the_greatest_rows_are_shown() {
    let mut state = SharedState::new(1 << 40, vec![]);
    let count: usize = MAX_DISPLAYED_ROWS + 5;
    for k in 0..count {
        for _ in 0..(k % 17 + 1) {
            draw(&mut state, &[&format!("d{k}")], Category::Exclusive, 1.0);
        }
    }
    let (rows, hidden) = read_current_level(&state, &vec![], state.total_draws);
    assert_eq!(rows.len(), 300);
    for pair in rows.windows(2) {
        assert!(number(pair[0].total_bytes) >= number(pair[1].total_bytes));
    }
    assert_eq!(rows[299].total_samples, 1);
    let (left, bytes) = hidden.unwrap();
    assert_eq!(left, 5);
    let sizes: Vec<f64> = (0..count)
        .map(|k| (k % 17 + 1) as f64 / state.total_draws as f64 * (1u64 << 40) as f64)
        .collect();
    let level: f64 = sizes.iter().sum();
    let shown: f64 = rows.iter().map(|row| number(row.total_bytes)).sum();
    assert_eq!(number(bytes), (level - shown).max(0.0));
}

#[test]
fn as_many_rows_as_fit_hide_nothing() {
    let mut state = SharedState::new(1 << 40, vec![]);
    for k in 0..MAX_DISPLAYED_ROWS {
        draw(&mut state, &[&format!("d{k}")], Category::Exclusive, 1.0);
    }
    let (rows, hidden) = read_current_level(&state, &vec![], state.total_draws);
    assert_eq!(rows.len(), 300);
    assert!(hidden.is_none());
}

#[test]
fn hits_stand_for_their_share() {
    let hits = Quantity::from_u64(3);
    assert_eq!(number(hits_to_bytes(hits, 0, 1000)), 0.0);
    assert_eq!(number(hits_to_bytes(hits, 7, 1000)), 3.0 / 7.0 * 1000.0);
    assert_eq!(number(hits_to_bytes(Quantity::from_u64(49), 49, 123457)), 123457.0);
    assert_eq!(number(hits_to_bytes(Quantity::zero(), 49, 123457)), 0.0);
}

#[test]
fn a_part_is_not_greater_than_its_directory() {
    let mut state = SharedState::new(1 << 40, vec![]);
    for k in 1..60u64 {
        draw(&mut state, &["top", if k % 3 == 0 { "a" } else { "b" }], Category::Shared, 1.0 / k as f64);
    }
    let (top, _) = read_current_level(&state, &vec![], state.total_draws);
    let (parts, _) = read_current_level(&state, &vec!["top".to_string()], state.total_draws);
    for part in &parts {
        assert!(number(part.total_bytes) <= number(top[0].total_bytes));
        assert!(part.total_samples <= top[0].total_samples);
    }
    assert_eq!(parts[0].total_samples + parts[1].total_samples, top[0].total_samples);
}

#[test]
fn equal_sizes_have_no_dominant_loser() {
    let zero = Quantity::zero();
    let one = Quantity::from_u64(1);
    let mut row = DirRow {
        name: "r".to_string(),
        total_bytes: Quantity::from_u64(2),
        total_samples: 2,
        bytes_by_category: [one, zero, one, zero, zero],
        samples_by_category: [1, 0, 1, 0, 0],
        has_children: false,
        inode: None,
    };
    assert_eq!(row.dominant_category(), Some(Category::Metadata));
    row.total_bytes = zero;
    assert_eq!(row.dominant_category(), None);
}

#[test]
fn ranks_are_stable() {
    assert_eq!(rank(&vec![]), Vec::<usize>::new());
    assert_eq!(rank(&vec![3, 9, 3, 7, 9]), vec![1, 4, 3, 0, 2]);
    let keys: Vec<u64> = (0..500u64).map(|k| (k * 7919) % 101).collect();
    let mut want: Vec<usize> = (0..500).collect();
    want.sort_by(|a, b| keys[*b].cmp(&keys[*a]));
    assert_eq!(rank(&keys), want);
}

fn row(name: &str, has_children: bool) -> DirRow {
    let zero = Quantity::zero();
    DirRow {
        name: name.to_string(),
        total_bytes: zero,
        total_samples: 0,
        bytes_by_category: [zero, zero, zero, zero, zero],
        samples_by_category: [0, 0, 0, 0, 0],
        has_children,
        inode: None,
    }
}

#[test]
fn the_state_starts_at_the_top() {
    let ui = UiState::new();
    assert!(ui.current_path.is_empty());
    assert_eq!(ui.selected, 0);
    assert_eq!(ui.mode, ViewMode::Browser);
    assert_eq!(number(ui.draws_per_sec), 0.0);
}

#[test]
fn the_selection_stays_among_the_rows() {
    let rows = vec![row("a", true), row("b", false), row("c", true)];
    let mut ui = UiState::new();
    assert_eq!(ui.handle_key(Key::Up, &rows), Action::Nothing);
    assert_eq!(ui.selected, 0);
    for want in [1, 2, 2] {
        ui.handle_key(Key::Down, &rows);
        assert_eq!(ui.selected, want);
    }
    ui.handle_key(Key::Char('k'), &rows);
    assert_eq!(ui.selected, 1);
    ui.handle_key(Key::Char('j'), &rows);
    assert_eq!(ui.selected, 2);
    ui.clamp_selection(2);
    assert_eq!(ui.selected, 1);
    ui.clamp_selection(0);
    assert_eq!(ui.selected, 1);
    ui.clamp_selection(5);
    assert_eq!(ui.selected, 1);
    ui.handle_key(Key::Down, &vec![]);
    assert_eq!(ui.selected, 1);
}

#[test]
fn down_and_up_lead_back() {
    let rows = vec![row("a", false), row("b", true)];
    let mut ui = UiState::new();
    ui.handle_key(Key::Enter, &rows);
    assert!(ui.current_path.is_empty());
    ui.handle_key(Key::Down, &rows);
    for (down, up) in [
        (Key::Enter, Key::Backspace),
        (Key::Right, Key::Left),
        (Key::Char('l'), Key::Char('h')),
    ] {
        ui.selected = 1;
        ui.handle_key(down, &rows);
        assert_eq!(ui.current_path, vec!["b".to_string()]);
        assert_eq!(ui.selected, 0);
        ui.selected = 1;
        ui.handle_key(up, &rows);
        assert!(ui.current_path.is_empty());
        assert_eq!(ui.selected, 0);
    }
    ui.selected = 1;
    ui.handle_key(Key::Left, &rows);
    assert_eq!(ui.selected, 1);
    ui.selected = 9;
    ui.handle_key(Key::Enter, &rows);
    assert!(ui.current_path.is_empty());
}

#[test]
fn the_map_is_left_as_it_was_entered() {
    let rows = vec![row("a", true), row("b", true)];
    let mut ui = UiState::new();
    ui.handle_key(Key::Down, &rows);
    assert_eq!(ui.handle_key(Key::Char('m'), &rows), Action::Nothing);
    assert_eq!(ui.mode, ViewMode::DiskMap);
    for key in [
        Key::Up, Key::Down, Key::Left, Key::Right, Key::Enter, Key::Backspace, Key::Other,
        Key::Char('h'), Key::Char('j'), Key::Char('k'), Key::Char('l'), Key::Char('x'),
    ] {
        assert_eq!(ui.handle_key(key, &rows), Action::Nothing);
        assert_eq!(ui.mode, ViewMode::DiskMap);
        assert_eq!(ui.selected, 1);
        assert!(ui.current_path.is_empty());
    }
    ui.handle_key(Key::Char('m'), &rows);
    assert_eq!(ui.mode, ViewMode::Browser);
    ui.handle_key(Key::Char('m'), &rows);
    assert_eq!(ui.handle_key(Key::Esc, &rows), Action::Nothing);
    assert_eq!(ui.mode, ViewMode::Browser);
    assert_eq!(ui.selected, 1);
}

#[test]
fn keys_quit_and_pause() {
    let rows: Vec<DirRow> = vec![];
    let mut ui = UiState::new();
    assert_eq!(ui.handle_key(Key::Char('p'), &rows), Action::TogglePause);
    assert_eq!(ui.handle_key(Key::Char('q'), &rows), Action::Quit);
    assert_eq!(ui.handle_key(Key::Esc, &rows), Action::Quit);
    assert_eq!(ui.handle_key(Key::Char('Q'), &rows), Action::Nothing);
    ui.handle_key(Key::Char('m'), &rows);
    assert_eq!(ui.handle_key(Key::Char('p'), &rows), Action::TogglePause);
    assert_eq!(ui.handle_key(Key::Char('q'), &rows), Action::Quit);
    assert_eq!(ui.mode, ViewMode::DiskMap);
}

#[test]
fn the_loop_ends_shut_down() {
    assert_eq!(next_frame(true), Next::Leave);
    assert_eq!(next_frame(false), Next::GoOn);
    let rows: Vec<DirRow> = vec![row("a", true)];
    for paused in [false, true] {
        let flags = Flags { shutdown: false, paused };
        let quit = (Flags { shutdown: true, paused }, Next::Leave);
        let toggled = (Flags { shutdown: false, paused: !paused }, Next::GoOn);
        let mut ui = UiState::new();
        assert_eq!(ui.handle_event(Event::Other, flags, &rows), (flags, Next::GoOn));
        assert_eq!(ui.handle_event(Event::Press(Key::Char('p')), flags, &rows), toggled);
        assert_eq!(ui.handle_event(Event::Press(Key::Char('q')), flags, &rows), quit);
        assert_eq!(ui.handle_event(Event::Press(Key::Esc), flags, &rows), quit);
        let go_on = ui.handle_event(Event::Press(Key::Char('m')), flags, &rows);
        assert_eq!(go_on, (flags, Next::GoOn));
        assert_eq!(ui.mode, ViewMode::DiskMap);
        assert_eq!(ui.handle_event(Event::Press(Key::Char('q')), flags, &rows), quit);
        assert_eq!(ui.handle_event(Event::Press(Key::Esc), flags, &rows), (flags, Next::GoOn));
        assert_eq!(ui.mode, ViewMode::Browser);
        ui.handle_event(Event::Press(Key::Enter), flags, &rows);
        assert_eq!(ui.current_path, vec!["a".to_string()]);
    }
}

#[test]
fn the_rate_is_taken_every_half_second() {
    let mut ui = UiState::new();
    assert!(!ui.update_rate(100, 0, 499_999_999));
    assert_eq!(number(ui.draws_per_sec), 0.0);
    assert_eq!(ui.last_draws_seen, 0);
    assert!(ui.update_rate(100, 0, 500_000_000));
    assert_eq!(number(ui.draws_per_sec), 200.0);
    assert_eq!(ui.last_draws_seen, 100);
    assert!(ui.update_rate(40, 1, 0));
    assert_eq!(number(ui.draws_per_sec), 0.0);
    assert_eq!(ui.last_draws_seen, 40);
    for (draws, secs, nanos) in [(77u64, 0u64, 512_345_678u32), (99999, 3, 1), (u64::MAX, 7, 999_999_999)] {
        let mut ui = UiState::new();
        assert!(ui.update_rate(draws, secs, nanos));
        let time = std::time::Duration::new(secs, nanos);
        assert_eq!(number(ui.draws_per_sec), draws as f64 / time.as_secs_f64());
    }
}
