//! The state of the user interface.
use crate::accuracy::{
    close, lemma_close_cancel, lemma_close_chain, lemma_close_same, lemma_close_scale,
    lemma_close_sum, lemma_of_close, lemma_quotient_close, lemma_sum_close, lies_between,
};
use crate::model::DirRow;
use crate::quantity::{
    lemma_of_bounds, lemma_of_exact, lemma_power_bits, lemma_quotient_shrinks, lemma_sum_bounded, lemma_sum_grows,
    power_bits, Quantity,
};
use crate::rounding::{
    lemma_nearest_exact, lemma_nearest_exists, lemma_nearest_monotone, lemma_units_ordered,
    one_units, units,
};
use crate::text::views;
use vstd::arithmetic::power2::{
    lemma2_to64, lemma2_to64_rest, lemma_pow2_adds, lemma_pow2_pos, lemma_pow2_strictly_increases,
    lemma_pow2_unfold, pow2,
};
use vstd::prelude::*;

verus! {

/// What is on the screen.
#[derive(Debug, Clone, Copy, PartialEq, Eq, Structural)]
pub enum ViewMode {
    Browser,
    DiskMap,
}

/// A key that was pressed.
#[derive(Debug, Clone, Copy, PartialEq, Eq, Structural)]
pub enum Key {
    Char(char),
    Esc,
    Enter,
    Backspace,
    Up,
    Down,
    Left,
    Right,
    Other,
}

/// What a key asks of the program, beside a change of the state.
#[derive(Debug, Clone, Copy, PartialEq, Eq, Structural)]
pub enum Action {
    Nothing,
    Quit,
    TogglePause,
}

/// The flags that the threads of the program share.
#[derive(Debug, Clone, Copy, PartialEq, Eq, Structural)]
pub struct Flags {
    pub shutdown: bool,
    pub paused: bool,
}

/// What came from the terminal within one tick.
#[derive(Debug, Clone, Copy, PartialEq, Eq, Structural)]
pub enum Event {
    Press(Key),
    /// Nothing, or something else than the press of a key.
    Other,
}

/// How the loop of the user interface goes on.
#[derive(Debug, Clone, Copy, PartialEq, Eq, Structural)]
pub enum Next {
    /// It ends.
    Leave,
    /// It has another turn.
    GoOn,
}

/// The state of the user interface.
pub struct UiState {
    pub current_path: Vec<String>,
    pub selected: usize,
    pub last_draws_seen: u64,
    pub draws_per_sec: Quantity,
    pub mode: ViewMode,
}

/// The state, its path as text.
#[verifier::ext_equal]
pub struct UiView {
    pub path: Seq<Seq<char>>,
    pub selected: usize,
    pub last_draws_seen: u64,
    pub draws_per_sec: Quantity,
    pub mode: ViewMode,
}

pub open spec fn is_up(key: Key) -> bool {
    key == Key::Up || key == Key::Char('k')
}

pub open spec fn is_down(key: Key) -> bool {
    key == Key::Down || key == Key::Char('j')
}

pub open spec fn is_descend(key: Key) -> bool {
    key == Key::Enter || key == Key::Right || key == Key::Char('l')
}

pub open spec fn is_ascend(key: Key) -> bool {
    key == Key::Backspace || key == Key::Left || key == Key::Char('h')
}

/// What a key asks of the program: `q` quits, `Esc` quits where there is no map to leave,
/// and `p` pauses or goes on.
pub open spec fn action_of(mode: ViewMode, key: Key) -> Action {
    if key == Key::Char('q') || (key == Key::Esc && mode == ViewMode::Browser) {
        Action::Quit
    } else if key == Key::Char('p') {
        Action::TogglePause
    } else {
        Action::Nothing
    }
}

/// The state after a key. `m` switches between browser and map and `Esc` leaves the map;
/// the other keys move in the browser and do nothing on the map.
pub open spec fn after_key(ui: UiView, key: Key, rows: Seq<DirRow>) -> UiView {
    if key == Key::Esc {
        UiView { mode: ViewMode::Browser, ..ui }
    } else if key == Key::Char('m') {
        UiView {
            mode: if ui.mode == ViewMode::Browser {
                ViewMode::DiskMap
            } else {
                ViewMode::Browser
            },
            ..ui
        }
    } else if ui.mode == ViewMode::DiskMap {
        ui
    } else if is_up(key) {
        UiView {
            selected: if ui.selected > 0 {
                (ui.selected - 1) as usize
            } else {
                0
            },
            ..ui
        }
    } else if is_down(key) {
        UiView {
            selected: if ui.selected + 1 < rows.len() {
                (ui.selected + 1) as usize
            } else {
                ui.selected
            },
            ..ui
        }
    } else if is_descend(key) {
        if ui.selected < rows.len() && rows[ui.selected as int].has_children {
            UiView {
                path: ui.path.push(rows[ui.selected as int].name@),
                selected: 0,
                ..ui
            }
        } else {
            ui
        }
    } else if is_ascend(key) {
        if ui.path.len() > 0 {
            UiView { path: ui.path.drop_last(), selected: 0, ..ui }
        } else {
            ui
        }
    } else {
        ui
    }
}

/// A time in seconds, given as whole seconds and billionths.
pub open spec fn seconds(secs: u64, nanos: u32) -> Quantity {
    Quantity::of(secs as nat).sum(
        Quantity::of(nanos as nat).quotient(Quantity::of(1_000_000_000)),
    )
}

/// The state once the rate of the draws has been taken, which is done every half second.
pub open spec fn after_rate(ui: UiView, total_draws: u64, secs: u64, nanos: u32) -> UiView {
    if secs > 0 || nanos >= 500_000_000 {
        UiView {
            last_draws_seen: total_draws,
            draws_per_sec: Quantity::of(
                (if total_draws > ui.last_draws_seen {
                    total_draws - ui.last_draws_seen
                } else {
                    0
                }) as nat,
            ).quotient(seconds(secs, nanos)),
            ..ui
        }
    } else {
        ui
    }
}

/// The state with the selection brought back to the last row where it lies behind it.
pub open spec fn clamped(ui: UiView, rows: nat) -> UiView {
    UiView {
        selected: if ui.selected >= rows && rows > 0 {
            (rows - 1) as usize
        } else {
            ui.selected
        },
        ..ui
    }
}

/// The state after an event.
pub open spec fn after_event(ui: UiView, event: Event, rows: Seq<DirRow>) -> UiView {
    match event {
        Event::Press(key) => after_key(ui, key, rows),
        Event::Other => ui,
    }
}

/// What an event asks of the program.
pub open spec fn asked_by(mode: ViewMode, event: Event) -> Action {
    match event {
        Event::Press(key) => action_of(mode, key),
        Event::Other => Action::Nothing,
    }
}

/// The flags once the program has done what was asked of it.
pub open spec fn flags_after(flags: Flags, action: Action) -> Flags {
    match action {
        Action::Quit => Flags { shutdown: true, ..flags },
        Action::TogglePause => Flags { paused: !flags.paused, ..flags },
        Action::Nothing => flags,
    }
}

/// The loop ends with the action that quits, and with no other.
pub open spec fn next_after(action: Action) -> Next {
    if action == Action::Quit {
        Next::Leave
    } else {
        Next::GoOn
    }
}

/// What one turn of the loop meets with.
pub struct Tick {
    /// The program was told elsewhere to shut down, before the turn.
    pub stop: bool,
    pub total_draws: u64,
    pub secs: u64,
    pub nanos: u32,
    pub rows: Seq<DirRow>,
    pub event: Event,
}

/// The loop of the user interface.
#[verifier::ext_equal]
pub struct Session {
    pub ui: UiView,
    pub flags: Flags,
    /// The frames that have been drawn.
    pub frames: nat,
    /// How often events have been waited for.
    pub waits: nat,
    /// The loop has ended.
    pub left: bool,
}

/// A turn of the loop. One that finds the program shutting down ends the loop at once. Any
/// other draws a frame, waits for an event and does what the event asks.
pub open spec fn turn(session: Session, tick: Tick) -> Session {
    let shutdown = session.flags.shutdown || tick.stop;
    if session.left {
        session
    } else if begin(shutdown) == Next::Leave {
        Session { flags: Flags { shutdown, ..session.flags }, left: true, ..session }
    } else {
        let shown = clamped(
            after_rate(session.ui, tick.total_draws, tick.secs, tick.nanos),
            tick.rows.len(),
        );
        let action = asked_by(shown.mode, tick.event);
        Session {
            ui: after_event(shown, tick.event, tick.rows),
            flags: flags_after(session.flags, action),
            frames: session.frames + 1,
            waits: session.waits + 1,
            left: next_after(action) == Next::Leave,
        }
    }
}

/// How a turn begins.
pub open spec fn begin(shutdown: bool) -> Next {
    if shutdown {
        Next::Leave
    } else {
        Next::GoOn
    }
}

/// The loop after some turns.
pub open spec fn turns(session: Session, ticks: Seq<Tick>) -> Session
    decreases ticks.len(),
{
    if ticks.len() == 0 {
        session
    } else {
        turn(turns(session, ticks.drop_last()), ticks.last())
    }
}

/// A loop that has ended has left the program shutting down, whatever came.
pub proof fn law_ends_shut_down(session: Session, ticks: Seq<Tick>)
    requires
        session.left ==> session.flags.shutdown,
    ensures
        turns(session, ticks).left ==> turns(session, ticks).flags.shutdown,
    decreases ticks.len(),
{
    if ticks.len() > 0 {
        law_ends_shut_down(session, ticks.drop_last());
    }
}

/// A loop that starts while the program is shutting down ends without a frame, without
/// waiting for an event, and with everything as it was.
pub proof fn law_shut_down_draws_nothing(session: Session, ticks: Seq<Tick>)
    requires
        !session.left,
        session.flags.shutdown,
        ticks.len() > 0,
    ensures
        turns(session, ticks) == (Session { left: true, ..session }),
    decreases ticks.len(),
{
    if ticks.len() > 1 {
        law_shut_down_draws_nothing(session, ticks.drop_last());
    } else {
        assert(turns(session, ticks.drop_last()) == session);
    }
}

/// A turn ends the loop exactly if the program is shutting down or the key says so: `q` in
/// either view, `Esc` in the browser. Such a key sets the flag and leaves the pause as it is.
pub proof fn law_ends_when_asked(session: Session, tick: Tick)
    requires
        !session.left,
    ensures
        turn(session, tick).left <==> session.flags.shutdown || tick.stop || tick.event
            == Event::Press(Key::Char('q')) || (tick.event == Event::Press(Key::Esc)
            && session.ui.mode == ViewMode::Browser),
        turn(session, tick).left ==> turn(session, tick).flags == (Flags {
            shutdown: true,
            ..session.flags
        }),
        !turn(session, tick).left ==> !turn(session, tick).flags.shutdown,
{
}

/// Sampling is paused or goes on by `p` alone.
pub proof fn law_pause_only_by_key(session: Session, tick: Tick)
    ensures
        turn(session, tick).flags.paused != session.flags.paused <==> !session.left
            && !session.flags.shutdown && !tick.stop && tick.event == Event::Press(Key::Char('p')),
{
}

/// How a turn of the loop begins: not at all where the program is shutting down.
pub fn next_frame(shutdown: bool) -> (r: Next)
    ensures
        r == begin(shutdown),
{
    if shutdown {
        Next::Leave
    } else {
        Next::GoOn
    }
}

impl UiState {
    pub open spec fn shape(self) -> UiView {
        UiView {
            path: views(self.current_path@),
            selected: self.selected,
            last_draws_seen: self.last_draws_seen,
            draws_per_sec: self.draws_per_sec,
            mode: self.mode,
        }
    }

    /// The state at the start: the browser at the top of the tree.
    pub fn new() -> (r: UiState)
        ensures
            r.shape() == (UiView {
                path: Seq::empty(),
                selected: 0,
                last_draws_seen: 0,
                draws_per_sec: Quantity { bits: 0 },
                mode: ViewMode::Browser,
            }),
    {
        let r: UiState = UiState {
            current_path: Vec::new(),
            selected: 0,
            last_draws_seen: 0,
            draws_per_sec: Quantity::zero(),
            mode: ViewMode::Browser,
        };
        proof {
            assert(views(r.current_path@) =~= Seq::empty());
        }
        r
    }

    /// Brings the selection back to the last row where there are fewer rows than before.
    pub fn clamp_selection(&mut self, rows: usize)
        ensures
            final(self).shape() == clamped(old(self).shape(), rows as nat),
    {
        if self.selected >= rows && rows > 0 {
            self.selected = rows - 1;
        }
    }

    /// Takes what came within a tick. The result is what the flags become, and how the loop
    /// goes on.
    pub fn handle_event(&mut self, event: Event, flags: Flags, rows: &Vec<DirRow>) -> (r: (
        Flags,
        Next,
    ))
        ensures
            final(self).shape() == after_event(old(self).shape(), event, rows@),
            r.0 == flags_after(flags, asked_by(old(self).mode, event)),
            r.1 == next_after(asked_by(old(self).mode, event)),
    {
        let action: Action = match event {
            Event::Press(key) => self.handle_key(key, rows),
            Event::Other => Action::Nothing,
        };
        match action {
            Action::Quit => (Flags { shutdown: true, paused: flags.paused }, Next::Leave),
            Action::TogglePause => (
                Flags { shutdown: flags.shutdown, paused: !flags.paused },
                Next::GoOn,
            ),
            Action::Nothing => (flags, Next::GoOn),
        }
    }

    /// Takes a key.
    pub fn handle_key(&mut self, key: Key, rows: &Vec<DirRow>) -> (r: Action)
        ensures
            r == action_of(old(self).mode, key),
            final(self).shape() == after_key(old(self).shape(), key, rows@),
    {
        match key {
            Key::Char('q') => {
                return Action::Quit;
            },
            Key::Char('p') => {
                return Action::TogglePause;
            },
            Key::Char('m') => {
                self.mode = match self.mode {
                    ViewMode::Browser => ViewMode::DiskMap,
                    ViewMode::DiskMap => ViewMode::Browser,
                };
                return Action::Nothing;
            },
            Key::Esc => {
                if self.mode == ViewMode::DiskMap {
                    self.mode = ViewMode::Browser;
                    return Action::Nothing;
                }
                return Action::Quit;
            },
            _ => {},
        }
        if self.mode == ViewMode::Browser {
            self.navigate(key, rows);
        }
        Action::Nothing
    }

    /// Moves in the browser.
    fn navigate(&mut self, key: Key, rows: &Vec<DirRow>)
        requires
            old(self).mode == ViewMode::Browser,
            key != Key::Esc,
            key != Key::Char('m'),
        ensures
            final(self).shape() == after_key(old(self).shape(), key, rows@),
            final(self).mode == old(self).mode,
    {
        let ghost before = self.shape();
        match key {
            Key::Up | Key::Char('k') => {
                self.selected = self.selected.saturating_sub(1);
            },
            Key::Down | Key::Char('j') => {
                if rows.len() > 0 && self.selected < rows.len() - 1 {
                    self.selected = self.selected + 1;
                }
            },
            Key::Enter | Key::Right | Key::Char('l') => {
                if self.selected < rows.len() && rows[self.selected].has_children {
                    let name: String = rows[self.selected].name.clone();
                    let ghost path = self.current_path@;
                    self.current_path.push(name);
                    self.selected = 0;
                    proof {
                        assert(views(self.current_path@) =~= views(path).push(name@));
                    }
                }
            },
            Key::Backspace | Key::Left | Key::Char('h') => {
                let ghost path = self.current_path@;
                if self.current_path.pop().is_some() {
                    self.selected = 0;
                    proof {
                        assert(views(self.current_path@) =~= views(path).drop_last());
                    }
                }
            },
            _ => {},
        }
        proof {
            assert(self.shape() =~= after_key(before, key, rows@));
        }
    }

    /// Takes the rate of the draws anew, at most twice in a second. The time is that since
    /// it was last taken; the result says whether it was.
    pub fn update_rate(&mut self, total_draws: u64, secs: u64, nanos: u32) -> (r: bool)
        ensures
            r == (secs > 0 || nanos >= 500_000_000),
            final(self).shape() == after_rate(old(self).shape(), total_draws, secs, nanos),
            r ==> final(self).draws_per_sec.wf(),
    {
        if secs == 0 && nanos < 500_000_000 {
            return false;
        }
        let delta: u64 = total_draws.saturating_sub(self.last_draws_seen);
        proof {
            lemma_seconds_positive(secs, nanos);
            lemma_of_bounds(nanos as nat);
            lemma_of_bounds(1_000_000_000);
            lemma_of_bounds(delta as nat);
        }
        let time: Quantity = Quantity::from_u64(secs).plus(
            Quantity::from_u64(nanos as u64).over(Quantity::from_u64(1_000_000_000)),
        );
        self.draws_per_sec = Quantity::from_u64(delta).over(time);
        self.last_draws_seen = total_draws;
        true
    }
}

/// A selection among the rows stays among them, or goes to the first row of another
/// directory.
pub proof fn law_selection_in_range(ui: UiView, key: Key, rows: Seq<DirRow>)
    requires
        ui.selected < rows.len(),
    ensures
        after_key(ui, key, rows).path != ui.path ==> after_key(ui, key, rows).selected == 0,
        after_key(ui, key, rows).path == ui.path ==> after_key(ui, key, rows).selected
            < rows.len(),
{
}

/// Going down into a directory and up again leads back to where one was, at its first row.
pub proof fn law_down_and_up(
    ui: UiView,
    down: Key,
    rows: Seq<DirRow>,
    up: Key,
    inner: Seq<DirRow>,
)
    requires
        ui.mode == ViewMode::Browser,
        is_descend(down),
        is_ascend(up),
        ui.selected < rows.len(),
        rows[ui.selected as int].has_children,
    ensures
        after_key(ui, down, rows).path == ui.path.push(rows[ui.selected as int].name@),
        after_key(after_key(ui, down, rows), up, inner) == (UiView { selected: 0, ..ui }),
{
    let there = after_key(ui, down, rows);
    assert(there.path.drop_last() =~= ui.path);
}

/// Up and down move by one row, down only where there is a next one, up only where there is
/// one before, and change nothing else. One after the other they lead back.
pub proof fn law_moves_by_one(ui: UiView, key: Key, rows: Seq<DirRow>)
    requires
        ui.mode == ViewMode::Browser,
        is_up(key) || is_down(key),
        rows.len() <= usize::MAX,
    ensures
        after_key(ui, key, rows) == (UiView { selected: after_key(ui, key, rows).selected, ..ui }),
        is_down(key) && ui.selected + 1 < rows.len() ==> after_key(ui, key, rows).selected
            == ui.selected + 1,
        is_down(key) && ui.selected + 1 >= rows.len() ==> after_key(ui, key, rows) == ui,
        is_up(key) && ui.selected > 0 ==> after_key(ui, key, rows).selected == ui.selected - 1,
        is_up(key) && ui.selected == 0 ==> after_key(ui, key, rows) == ui,
        is_down(key) && ui.selected + 1 < rows.len() ==> after_key(
            after_key(ui, key, rows),
            Key::Up,
            rows,
        ) == ui,
{
}

/// Only a row that has something below it is entered, and only from a directory that is not
/// the top one leads up: the last name of the path goes, and the first row is selected. Every
/// other key of the browser than those for moving and the map leaves all as it is.
pub proof fn law_enters_and_leaves(ui: UiView, key: Key, rows: Seq<DirRow>)
    requires
        ui.mode == ViewMode::Browser,
        key != Key::Char('m'),
    ensures
        is_descend(key) && !(ui.selected < rows.len() && rows[ui.selected as int].has_children)
            ==> after_key(ui, key, rows) == ui,
        is_descend(key) && ui.selected < rows.len() && rows[ui.selected as int].has_children
            ==> after_key(ui, key, rows) == (UiView {
            path: ui.path.push(rows[ui.selected as int].name@),
            selected: 0,
            ..ui
        }),
        is_ascend(key) && ui.path.len() == 0 ==> after_key(ui, key, rows) == ui,
        is_ascend(key) && ui.path.len() > 0 ==> after_key(ui, key, rows).path.push(ui.path.last())
            == ui.path && after_key(ui, key, rows) == (UiView {
            path: after_key(ui, key, rows).path,
            selected: 0,
            ..ui
        }),
        !is_up(key) && !is_down(key) && !is_descend(key) && !is_ascend(key) ==> after_key(
            ui,
            key,
            rows,
        ) == ui,
{
    if ui.path.len() > 0 {
        assert(ui.path.drop_last().push(ui.path.last()) =~= ui.path);
    }
}

/// A selection behind the last row is brought to it, any other stays; nothing else changes.
pub proof fn law_selection_brought_back(ui: UiView, rows: nat)
    requires
        rows <= usize::MAX,
    ensures
        rows > 0 ==> clamped(ui, rows).selected < rows,
        ui.selected < rows || rows == 0 ==> clamped(ui, rows) == ui,
        rows > 0 && ui.selected >= rows ==> clamped(ui, rows).selected + 1 == rows,
        clamped(ui, rows) == (UiView { selected: clamped(ui, rows).selected, ..ui }),
{
}

/// The rate is that of the draws since it was last taken: the rate times the time, in
/// billionths of a second, is the number of those draws times a billion, but for eleven parts
/// in 2 to the power of 52. Without new draws it is zero. It is taken once half a second has
/// gone by, and not before.
pub proof fn law_rate_is_new_draws_over_time(
    ui: UiView,
    total_draws: u64,
    secs: u64,
    nanos: u32,
)
    ensures
        ({
            let time = (secs * 1_000_000_000 + nanos) as nat;
            let after = after_rate(ui, total_draws, secs, nanos);
            &&& time < 500_000_000 ==> after == ui
            &&& time >= 500_000_000 ==> {
                &&& after == (UiView {
                    last_draws_seen: total_draws,
                    draws_per_sec: after.draws_per_sec,
                    ..ui
                })
                &&& total_draws <= ui.last_draws_seen ==> after.draws_per_sec.bits == 0
                &&& total_draws > ui.last_draws_seen ==> close(
                    after.draws_per_sec.amount() * time,
                    ((total_draws - ui.last_draws_seen) as nat * 1_000_000_000) * one_units(),
                    11,
                )
            }
        }),
{
    let time = (secs * 1_000_000_000 + nanos) as nat;
    if time >= 500_000_000 {
        lemma_seconds_close(secs, nanos);
        let one = one_units();
        lemma_pow2_pos(1074);
        let t = seconds(secs, nanos);
        let s = t.amount();
        if total_draws > ui.last_draws_seen {
            let delta = (total_draws - ui.last_draws_seen) as nat;
            let d = Quantity::of(delta);
            let r = d.quotient(t);
            lemma_of_close(delta);
            lemma_quotient_close(d, t, 1074, 1138, 1072, 1139);
            let (x, y) = (r.amount(), d.amount());
            let g = 1_000_000_000nat;
            // x s ~ y one and s g ~ time one.
            lemma_close_scale(s * g, time * one, 5, x);
            lemma_close_scale(x * s, y * one, 2, g);
            assert(x * (s * g) == (x * s) * g) by (nonlinear_arith);
            lemma_close_chain(x * (time * one), (x * s) * g, (y * one) * g, 5, 2);
            lemma_close_scale(y, delta * one, 2, one * g);
            assert((y * one) * g == y * (one * g)) by (nonlinear_arith);
            lemma_close_chain(x * (time * one), y * (one * g), (delta * one) * (one * g), 8, 2);
            assert(x * (time * one) == (x * time) * one) by (nonlinear_arith);
            assert((delta * one) * (one * g) == ((delta * g) * one) * one) by (nonlinear_arith);
            lemma_close_cancel(x * time, (delta * g) * one, 11, one);
        } else {
            lemma_of_bounds(0);
            lemma_pow2_pos(1072);
            let none = Quantity { bits: 0 };
            assert(units(0) == 0);
            assert(0 * one == s * 0) by (nonlinear_arith);
            lemma_nearest_exact(0 * one, s, 0);
        }
    }
}

/// The rate depends on the draws since it was last taken alone: as many more seen before as
/// there are in all leave it as it is.
pub proof fn law_rate_of_draws_seen_before(
    ui: UiView,
    total_draws: u64,
    secs: u64,
    nanos: u32,
    more: u64,
)
    requires
        total_draws + more <= u64::MAX,
        ui.last_draws_seen + more <= u64::MAX,
        secs > 0 || nanos >= 500_000_000,
    ensures
        after_rate(
            UiView { last_draws_seen: (ui.last_draws_seen + more) as u64, ..ui },
            (total_draws + more) as u64,
            secs,
            nanos,
        ).draws_per_sec == after_rate(ui, total_draws, secs, nanos).draws_per_sec,
{
}

/// A time in seconds is its billionths, over a billion, but for five parts.
proof fn lemma_seconds_close(secs: u64, nanos: u32)
    requires
        secs * 1_000_000_000 + nanos >= 500_000_000,
    ensures
        close(
            seconds(secs, nanos).amount() * 1_000_000_000,
            ((secs * 1_000_000_000 + nanos) as nat) * one_units(),
            5,
        ),
        lies_between(seconds(secs, nanos), 1072, 1139),
{
    let one = one_units();
    let g = 1_000_000_000nat;
    let a = Quantity::of(secs as nat);
    let n = Quantity::of(nanos as nat);
    let d = Quantity::of(g);
    let b = n.quotient(d);
    let (x, y) = (a.amount(), b.amount());
    lemma_pow2_pos(1074);
    lemma2_to64();
    lemma2_to64_rest();
    lemma_of_bounds(secs as nat);
    lemma_of_bounds(nanos as nat);
    lemma_of_bounds(g);
    lemma_of_exact(g);
    lemma_of_exact(nanos as nat);
    assert(units(0) == 0);
    // The seconds.
    if secs > 0 {
        lemma_of_close(secs as nat);
        lemma_close_scale(x, secs as nat * one, 2, g);
    } else {
        assert(x * g == 0 && (secs as nat * one) * g == 0) by (nonlinear_arith)
            requires
                x == 0,
                secs == 0,
        ;
        lemma_close_same(0, 2);
    }
    // The billionths.
    lemma_pow2_adds(29, 1074);
    lemma_pow2_adds(30, 1074);
    lemma_pow2_adds(32, 1074);
    lemma_pow2_adds(28, 1074);
    assert(pow2(29) * one <= g * one <= pow2(30) * one) by (nonlinear_arith)
        requires
            pow2(29) <= g <= pow2(30),
    ;
    if nanos > 0 {
        assert(1 * one <= nanos as nat * one <= pow2(32) * one) by (nonlinear_arith)
            requires
                1 <= nanos <= pow2(32),
        ;
        lemma_quotient_close(n, d, 1074, 1106, 1103, 1104);
        if nanos >= 500_000_000 {
            assert(pow2(28) * one <= nanos as nat * one) by (nonlinear_arith)
                requires
                    pow2(28) <= nanos,
            ;
            lemma_quotient_close(n, d, 1102, 1106, 1103, 1104);
        }
        assert(y * (g * one) == (y * g) * one) by (nonlinear_arith);
        lemma_close_cancel(y * g, nanos as nat * one, 2, one);
    } else {
        lemma_pow2_pos(1103);
        assert(0 * one == d.amount() * 0) by (nonlinear_arith);
        lemma_nearest_exact(0 * one, d.amount(), 0);
        assert(y * g == 0 && nanos as nat * one == 0) by (nonlinear_arith)
            requires
                y == 0,
                nanos == 0,
        ;
        lemma_close_same(0, 2);
    }
    let time = (secs * 1_000_000_000 + nanos) as nat;
    lemma_close_sum(x * g, (secs as nat * one) * g, y * g, nanos as nat * one, 2);
    assert((secs as nat * one) * g + nanos as nat * one == time * one) by (nonlinear_arith)
        requires
            time == secs * g + nanos,
    ;
    assert(x * g + y * g == (x + y) * g) by (nonlinear_arith);
    // The sum.
    lemma_pow2_unfold(1139);
    lemma_pow2_strictly_increases(1072, 1074);
    lemma_pow2_strictly_increases(1106, 1138);
    lemma_pow2_strictly_increases(1077, 1138);
    lemma_sum_close(a, b, 1072, 1139);
    let s = seconds(secs, nanos).amount();
    lemma_close_scale(s, x + y, 2, g);
    lemma_close_chain(s * g, (x + y) * g, time * one, 2, 2);
}

/// `m` pressed twice changes nothing.
pub proof fn law_map_there_and_back(ui: UiView, rows: Seq<DirRow>)
    ensures
        after_key(after_key(ui, Key::Char('m'), rows), Key::Char('m'), rows) == ui,
        after_key(ui, Key::Char('m'), rows).mode != ui.mode,
        action_of(ui.mode, Key::Char('m')) == Action::Nothing,
{
}

/// On the map only `m` and `Esc` change the state, both by going back to the browser, and
/// the place in the browser is kept.
pub proof fn law_map_keeps_place(ui: UiView, key: Key, rows: Seq<DirRow>)
    requires
        ui.mode == ViewMode::DiskMap,
    ensures
        after_key(ui, key, rows) == (if key == Key::Esc || key == Key::Char('m') {
            UiView { mode: ViewMode::Browser, ..ui }
        } else {
            ui
        }),
        action_of(ui.mode, key) == Action::Quit <==> key == Key::Char('q'),
{
}

/// A key that quits or pauses changes nothing else.
pub proof fn law_actions_apart(ui: UiView, key: Key, rows: Seq<DirRow>)
    ensures
        action_of(ui.mode, key) != Action::Nothing ==> after_key(ui, key, rows) == ui,
{
}

/// A time that is not nothing is a finite amount that is not zero.
proof fn lemma_seconds_positive(secs: u64, nanos: u32)
    requires
        secs > 0 || nanos > 0,
    ensures
        seconds(secs, nanos).is_finite(),
        seconds(secs, nanos).bits > 0,
{
    let a = Quantity::of(secs as nat);
    let g = Quantity::of(1_000_000_000);
    let q = Quantity::of(nanos as nat);
    let b = q.quotient(g);
    lemma_of_bounds(secs as nat);
    lemma_of_bounds(nanos as nat);
    lemma_of_bounds(1_000_000_000);
    lemma_quotient_shrinks(q, g);
    lemma_sum_bounded(a, b, 64);
    lemma_sum_grows(a, b);
    if secs == 0 {
        let one = one_units();
        let d = g.amount();
        lemma_power_bits(0);
        lemma_power_bits(64);
        lemma_units_ordered(power_bits(0), q.bits as nat);
        lemma_units_ordered(g.bits as nat, power_bits(64));
        lemma_units_ordered(power_bits(0), g.bits as nat);
        lemma_pow2_pos(1074);
        let n = q.amount() * one;
        // The divisor is at most 2 to the power of 64, far below 2 to the power of 1074.
        vstd::arithmetic::power2::lemma_pow2_adds(64, 1074);
        lemma_pow2_strictly_increases(64, 1074);
        assert(d <= pow2(64) * one);
        assert(1 * d <= n * 1) by (nonlinear_arith)
            requires
                d <= pow2(64) * one,
                pow2(64) <= one,
                q.amount() >= one,
                n == q.amount() * one,
        ;
        lemma_nearest_exact(1, 1, 1);
        lemma_nearest_exists(n, d);
        lemma_nearest_monotone(1, 1, n, d);
    }
}

} // verus!
