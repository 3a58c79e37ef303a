use ratatui::layout::{Constraint, Layout, Rect};
use tush::app::{AppUnitKey, AppUnitMap};
use tush::base::ExitCode;
use tush::config::{Config, ConfigPanel, ConfigProc, ConfigUi};
use tush::log::{
    Log, LogColor, LogEffects, LogLine, LogRegion, LogRun, LogStyle, LogWriterId,
};
use tush::runner::RunnerState;
use tush::ui::app::{AppLog, UiApp};
use tush::ui::client::UiLog;
use tush::ui::draw::{room, UiArea, UiDraw, UiPen, UiStyle};
use tush::ui::keys::{verb_of, Ui, UiAsk, UiKey, UiPress, UiVerb};
use tush::ui::render::frame::{areas, centered, UiRender};
use tush::ui::render::log::{
    color, draw_behind, draw_runs, draw_title, styled, visible, UiRenderLogState,
};
use tush::ui::render::menu::{UiMenuChoice, UiRenderMenuState};
use tush::ui::render::units::{
    areas as parted, detail, draw_compact, layout, minor_start, row_height, scroll_into_view,
    Move, UiRenderUnitsState,
};
use tush::ui::theme::{UiColor, UiTheme, UiThemeMenuLayout};
use tush::unit::UnitChoice;
use tush::view::{is_text_le, refresh_rows, rows_of, UnitNow, ViewCommand, ViewUnit};

fn key(index: usize) -> AppUnitKey {
    AppUnitKey::from_index(index).unwrap()
}

fn unit(index: usize, name: &str, panel: ConfigPanel) -> ViewUnit {
    ViewUnit {
        unit_key: key(index),
        key: name.to_string(),
        name: name.to_string(),
        name_short: None,
        mode: None,
        mode_short: None,
        state: RunnerState::Running,
        panel,
        parse_ansi: true,
    }
}

fn area(x: u16, y: u16, width: u16, height: u16) -> UiArea {
    UiArea {
        x,
        y,
        width,
        height,
    }
}

/// Put some draws on a grid of characters, the way a terminal would.
fn paint(frame: UiArea, draws: &[UiDraw]) -> Vec<String> {
    let mut grid = vec![vec![' '; frame.width as usize]; frame.height as usize];
    let mut set = |x: u16, y: u16, c: char| {
        if (x as usize) < frame.width as usize && (y as usize) < frame.height as usize {
            grid[y as usize][x as usize] = c;
        }
    };
    for draw in draws {
        match draw {
            UiDraw::Border { area, right } => {
                let (x0, y0) = (area.x, area.y);
                let (x1, y1) = (area.right() - 1, area.bottom() - 1);
                for x in x0..=x1 {
                    set(x, y0, '-');
                    set(x, y1, '-');
                }
                for y in y0..=y1 {
                    set(x0, y, '|');
                    if *right {
                        set(x1, y, '|');
                    }
                }
                for (x, y) in [(x0, y0), (x0, y1)] {
                    set(x, y, '+');
                }
                if *right {
                    for (x, y) in [(x1, y0), (x1, y1)] {
                        set(x, y, '+');
                    }
                }
            }
            UiDraw::Clear { area } => {
                for y in area.y..area.bottom() {
                    for x in area.x..area.right() {
                        set(x, y, ' ');
                    }
                }
            }
            UiDraw::Text {
                x, y, text, room, ..
            } => {
                for (n, c) in text.chars().take(*room).enumerate() {
                    set(*x + n as u16, *y, c);
                }
            }
            UiDraw::Cell { x, y, symbol, .. } => set(*x, *y, symbol.chars().next().unwrap()),
        }
    }
    grid.into_iter()
        .map(|row| row.into_iter().collect::<String>().trim_end().to_string())
        .collect()
}

fn lines(texts: &[&str]) -> Vec<LogLine> {
    texts
        .iter()
        .map(|text| LogLine {
            writer: LogWriterId::new(2),
            text: text.to_string(),
            styles: Vec::new(),
        })
        .collect()
}

const NO_EFFECTS: LogEffects = LogEffects {
    bold: false,
    dim: false,
    italic: false,
    underline: false,
    reverse: false,
    strike: false,
};

fn run(index: usize, foreground: LogColor) -> LogRun {
    LogRun {
        index,
        style: LogStyle {
            foreground: Some(foreground),
            background: None,
            effects: NO_EFFECTS,
        },
    }
}

/// What was put down, as where, what and in which colour.
fn put_down(draws: Vec<UiDraw>) -> Vec<(u16, String, Option<UiColor>)> {
    draws
        .into_iter()
        .map(|draw| match draw {
            UiDraw::Text { x, text, style, .. } => (x, text, style.color),
            other => panic!("not text: {other:?}"),
        })
        .collect()
}

// ---- areas and text --------------------------------------------------

#[test]
fn a_box_is_inside_its_walls() {
    assert_eq!(area(2, 3, 10, 5).inner(true), area(3, 4, 8, 3));
    assert_eq!(area(2, 3, 10, 5).inner(false), area(3, 4, 9, 3));
    assert_eq!(area(2, 3, 1, 1).inner(true), area(3, 4, 0, 0));
    assert_eq!(area(2, 3, 0, 0).inner(true), area(2, 3, 0, 0));
    assert_eq!((area(2, 3, 10, 5).right(), area(2, 3, 10, 5).bottom()), (12, 8));
    assert_eq!(area(u16::MAX, 0, 9, 9).right(), u16::MAX);
    assert_eq!((room(3, 10), room(10, 3)), (7, 0));
}

/// Text reports where it ended, by the columns it takes and not its
/// characters, and one that is cut says so.
#[test]
fn text_ends_where_its_columns_do() {
    let mut pen = UiPen::new(20);
    assert_eq!(pen.put(2, 0, "abc", 10, UiStyle::plain()), 5);
    assert_eq!(pen.put(2, 0, "漢字", 10, UiStyle::plain()), 6);
    assert_eq!(pen.put(2, 0, "漢字", 3, UiStyle::plain()), 4);
    assert_eq!(pen.put(18, 0, "abc", 10, UiStyle::plain()), 20);
    assert_eq!(pen.put(30, 0, "abc", 10, UiStyle::plain()), 30);
    let theme = UiTheme::default();
    let mut pen = UiPen::new(20);
    assert_eq!(pen.set_clipped(&theme, 0, 0, "abcdef", 6, UiStyle::bold()), 6);
    assert_eq!(pen.set_clipped(&theme, 0, 1, "abcdef", 4, UiStyle::bold()), 4);
    let painted = paint(area(0, 0, 20, 2), &pen.draws());
    assert_eq!(painted, ["abcdef", "abc…"]);
}

/// A line is drawn run by run, each where the one before it ended, and what
/// is before the first in no colour at all.
#[test]
fn a_line_is_drawn_as_its_runs() {
    let theme = UiTheme::default();
    let pane = area(3, 0, 20, 1);
    let red = LogColor::Indexed(1);
    let sky = LogColor::Rgb(1, 2, 3);

    let mut line = lines(&["é warn 漢字"]).remove(0);
    line.styles = vec![run(3, red), run(8, sky)];
    let mut pen = UiPen::new(40);
    draw_runs(&mut pen, &theme, &line, pane, 0, UiStyle::plain());
    assert_eq!(
        put_down(pen.draws()),
        [
            (3, "é ".to_string(), None),
            (5, "warn ".to_string(), Some(UiColor::Indexed(1))),
            (10, "漢字".to_string(), Some(UiColor::Rgb(1, 2, 3))),
        ]
    );

    line.styles = vec![run(0, red)];
    let mut pen = UiPen::new(40);
    draw_runs(&mut pen, &theme, &line, pane, 0, UiStyle::plain());
    assert_eq!(
        put_down(pen.draws()),
        [(3, "é warn 漢字".to_string(), Some(UiColor::Indexed(1)))]
    );

    line.styles = Vec::new();
    let mut pen = UiPen::new(40);
    draw_runs(&mut pen, &theme, &line, pane, 0, UiStyle::plain());
    assert_eq!(put_down(pen.draws()), [(3, "é warn 漢字".to_string(), None)]);

    let nothing = lines(&[""]).remove(0);
    let mut pen = UiPen::new(40);
    draw_runs(&mut pen, &theme, &nothing, pane, 0, UiStyle::plain());
    assert!(pen.draws().is_empty());
}

/// A style is laid over what was there: a note stays dim whatever it says.
#[test]
fn a_style_is_laid_over_its_base() {
    assert_eq!(color(LogColor::Indexed(9)), UiColor::Indexed(9));
    let style = LogStyle {
        foreground: Some(LogColor::Indexed(2)),
        background: Some(LogColor::Rgb(4, 5, 6)),
        effects: LogEffects {
            italic: true,
            strike: true,
            ..NO_EFFECTS
        },
    };
    let over = styled(UiStyle::dim(), style);
    assert_eq!(
        over,
        UiStyle {
            color: Some(UiColor::Indexed(2)),
            background: Some(UiColor::Rgb(4, 5, 6)),
            italic: true,
            strike: true,
            ..UiStyle::dim()
        }
    );
    let plain = LogStyle {
        foreground: None,
        background: None,
        effects: NO_EFFECTS,
    };
    assert_eq!(styled(over, plain), over);
}

#[test]
fn a_centred_box_is_clamped() {
    assert_eq!(centered(area(0, 0, 80, 24), 28, 7), area(26, 8, 28, 7));
    assert_eq!(centered(area(0, 0, 20, 5), 28, 7), area(0, 0, 20, 5));
}

/// The panes are what the layout makes of the frame.
#[test]
fn the_panes_share_the_frame() {
    let panes = areas(area(0, 0, 100, 30));
    assert_eq!(panes.footer, area(0, 29, 100, 1));
    assert_eq!(panes.units, area(0, 0, 30, 29));
    assert_eq!(panes.log, area(30, 0, 70, 29));
    let [body, footer] = Layout::vertical([Constraint::Fill(1), Constraint::Length(1)])
        .areas(Rect::new(0, 0, 100, 30));
    assert_eq!((body.height, footer.y), (29, 29));
    // The smallest frame that holds them, and one at the far edge of what is
    // counted.
    let panes = areas(area(3, 4, 30, 1));
    assert_eq!(panes.footer, area(3, 4, 30, 1));
    assert_eq!(panes.units, area(3, 4, 30, 0));
    assert_eq!(panes.log, area(33, 4, 0, 0));
    let panes = areas(area(1, 1, u16::MAX - 1, u16::MAX - 1));
    assert_eq!(panes.footer, area(1, u16::MAX - 1, u16::MAX - 1, 1));
    assert_eq!(panes.units, area(1, 1, 30, u16::MAX - 2));
    assert_eq!(panes.log, area(31, 1, u16::MAX - 31, u16::MAX - 2));
    // Too little for any of them: the fixed parts take what there is.
    let panes = areas(area(3, 4, 12, 0));
    assert_eq!(panes.footer, area(3, 4, 12, 0));
    assert_eq!(panes.units, area(3, 4, 12, 0));
    assert_eq!(panes.log, area(15, 4, 0, 0));
    assert_eq!(areas(area(0, 0, 0, 0)).units, area(0, 0, 0, 0));
    // What reaches past where it can be counted is cut off.
    let panes = areas(area(u16::MAX - 40, u16::MAX - 3, 100, 9));
    assert_eq!(panes.footer, area(u16::MAX - 40, u16::MAX - 1, 40, 1));
    assert_eq!(panes.units, area(u16::MAX - 40, u16::MAX - 3, 30, 2));
    assert_eq!(panes.log, area(u16::MAX - 10, u16::MAX - 3, 10, 2));
    let panes = areas(area(u16::MAX, u16::MAX, 5, 5));
    assert_eq!(panes.units, area(u16::MAX, u16::MAX, 0, 0));
}

// ---- theme -----------------------------------------------------------

#[test]
fn every_state_has_a_mark_a_word_and_a_colour() {
    let theme = UiTheme::default();
    let code = ExitCode::new(1);
    for (state, mark, word, color) in [
        (RunnerState::Stopped, "○", "stopped", UiColor::DarkGray),
        (RunnerState::Waiting, "◌", "waiting", UiColor::Gray),
        (RunnerState::Started, "◐", "starting", UiColor::Yellow),
        (RunnerState::Running, "●", "running", UiColor::Green),
        (RunnerState::Killing, "◑", "stopping", UiColor::Yellow),
        (RunnerState::ExitSuccess, "✓", "done", UiColor::Cyan),
        (RunnerState::ExitError(code), "✗", "exit ", UiColor::Red),
        (RunnerState::ExitError(None), "✗", "failed", UiColor::Red),
        (RunnerState::Killed(code), "✗", "killed", UiColor::Magenta),
    ] {
        assert_eq!(theme.symbols.status(state), mark);
        assert_eq!(theme.texts.status(state), word);
        assert_eq!(theme.colors.status(state), color);
        assert!(UiTheme::ascii().symbols.status(state).is_ascii());
    }
    assert_eq!(UiTheme::ascii().symbols.border.vertical_left, "|");
    assert_eq!(theme.symbols.border.top_left, "┌");
    assert_eq!(theme.menu_layout, UiThemeMenuLayout::Comfortable);
}

// ---- the log pane ----------------------------------------------------

#[test]
fn a_log_is_scrolled_by_lines_and_pages() {
    let mut state = UiRenderLogState::new();
    assert!(state.is_following());
    state.scroll_lines(5);
    assert_eq!(state.scroll(), 5);
    state.scroll_lines(-2);
    assert_eq!(state.scroll(), 3);
    state.scroll_lines(-9);
    assert_eq!(state.scroll(), 0);
    state.scroll_pages(2);
    assert_eq!(state.scroll(), 2, "a pane of no size scrolls a line");
    state.follow();
    assert!(state.is_following());
    state.scroll_lines(isize::MAX);
    assert!(state.is_counted());
    state.scroll_lines(isize::MIN);
    assert_eq!(state.scroll(), 0);
    for _ in 0..3 {
        state.scroll_lines(isize::MAX);
    }
    assert_eq!(state.scroll(), usize::MAX);
    assert!(!state.is_counted());
}

#[test]
fn a_pane_shows_the_lines_its_scroll_says() {
    assert_eq!(visible(50, 0, 0, 10), (40, 50));
    assert_eq!(visible(50, 0, 7, 10), (33, 43));
    assert_eq!(visible(50, 5, 7, 10), (38, 48));
    assert_eq!(visible(4, 0, 0, 10), (0, 4));
    assert_eq!(visible(4, 0, 9, 10), (0, 0));
}

#[test]
fn a_title_names_the_unit_its_state_and_its_mode() {
    let theme = UiTheme::default();
    let mut api = unit(0, "API server", ConfigPanel::Main);
    api.mode = Some("Watch".to_string());
    api.state = RunnerState::ExitError(ExitCode::new(7));
    let pane = area(0, 0, 60, 3);
    let mut pen = UiPen::new(60);
    draw_title(&mut pen, &theme, Some(&api), pane, pane.inner(true));
    assert_eq!(paint(pane, &pen.draws())[0], "  API server · exit 7 · Watch");
    let mut pen = UiPen::new(60);
    draw_title(&mut pen, &theme, None, pane, pane.inner(true));
    assert_eq!(paint(pane, &pen.draws())[0], "  log");
}

#[test]
fn a_scrolled_log_says_how_far_behind_it_is() {
    let theme = UiTheme::default();
    let pane = area(0, 0, 20, 2);
    let mut pen = UiPen::new(20);
    draw_behind(&mut pen, &theme, pane, 42);
    assert_eq!(paint(pane, &pen.draws())[1], "              ↓ 42");
    let mut pen = UiPen::new(20);
    draw_behind(&mut pen, &theme, pane, 0);
    assert!(pen.draws().is_empty());
    let mut pen = UiPen::new(20);
    draw_behind(&mut pen, &theme, area(0, 0, 5, 2), 42);
    assert!(pen.draws().is_empty(), "there is no room for it");
}

// ---- the menu --------------------------------------------------------

fn choice(verb: &str, enabled: bool, current: bool, event: u8) -> UnitChoice<u8> {
    UnitChoice {
        verb: verb.to_string(),
        mode: None,
        enabled,
        current,
        event,
    }
}

/// The cursor opens on the mode the unit is on, failing that the first entry
/// that can be chosen, failing that the way out.
#[test]
fn a_menu_opens_where_it_can() {
    let open = |items: Vec<UnitChoice<u8>>| {
        let mut menu = UiRenderMenuState::new();
        menu.open(key(0), "api".to_string(), items);
        menu.cursor()
    };
    assert_eq!(
        open(vec![choice("a", true, false, 0), choice("b", true, true, 1)]),
        1
    );
    assert_eq!(
        open(vec![choice("a", false, true, 0), choice("b", true, false, 1)]),
        1
    );
    assert_eq!(open(vec![choice("a", false, true, 0)]), 1);
    assert_eq!(open(vec![]), 0);
}

#[test]
fn a_menu_steps_over_what_cannot_be_chosen() {
    let mut menu = UiRenderMenuState::new();
    assert_eq!(menu.chosen(), UiMenuChoice::Cancel);
    menu.open(
        key(3),
        "api".to_string(),
        vec![
            choice("Start", true, false, 1),
            choice("Stop", false, false, 2),
            choice("Other", true, false, 3),
        ],
    );
    assert_eq!(
        menu.chosen(),
        UiMenuChoice::Send {
            unit: key(3),
            event: 1
        }
    );
    menu.select(Move::Previous);
    assert_eq!(menu.cursor(), 0, "neither end wraps");
    menu.select(Move::Next);
    assert_eq!(menu.cursor(), 2);
    menu.select(Move::Next);
    assert_eq!((menu.cursor(), menu.chosen()), (3, UiMenuChoice::Cancel));
    menu.select(Move::Next);
    assert_eq!(menu.cursor(), 3);
    menu.select(Move::Previous);
    menu.select(Move::Previous);
    assert_eq!(menu.cursor(), 0);
    assert_eq!(menu.size(&UiTheme::default()), (30, 9));
    menu.select(Move::Next);
    let mut items = menu.take_items();
    assert_eq!(items.len(), 3);
    assert_eq!(menu.cursor(), 2, "kept while the entries are lent out");
    assert_eq!(menu.chosen(), UiMenuChoice::Cancel);
    items[2].enabled = false;
    menu.refresh(items);
    assert_eq!(menu.cursor(), 0, "it can no longer be there");
    menu.select(Move::Next);
    let items = menu.take_items();
    assert_eq!(menu.cursor(), 3);
    menu.refresh(items);
    assert_eq!(menu.cursor(), 3);
    menu.close();
    assert!(!menu.is_open());
    assert_eq!(menu.key(), None);
}

#[test]
fn a_menu_is_as_wide_as_its_longest_entry() {
    let mut menu = UiRenderMenuState::new();
    let mut long = choice("Start", true, false, 1);
    long.mode = Some("a mode with a rather long name".to_string());
    menu.open(key(0), "api".to_string(), vec![long]);
    // The entry, the gap in it, the cursor column, the padding, the walls.
    assert_eq!(
        menu.size(&UiTheme::default()).0 as usize,
        "Start".len() + 1 + "a mode with a rather long name".len() + 2 + 4 + 2
    );
}

// ---- the units -------------------------------------------------------

#[test]
fn the_cursor_comes_round_at_the_ends() {
    let mut state = UiRenderUnitsState::new();
    state.select(Move::Previous, 3);
    assert_eq!(state.cursor(), 2);
    state.select(Move::Next, 3);
    assert_eq!(state.cursor(), 0);
    state.select(Move::Next, 0);
    assert_eq!(state.cursor(), 0);
    state.focus_other(2, 3);
    assert_eq!(state.cursor(), 2);
    state.focus_other(2, 3);
    assert_eq!(state.cursor(), 0);
    state.focus_other(3, 3);
    assert_eq!(state.cursor(), 0, "there is no other list");
}

#[test]
fn a_window_follows_its_cursor() {
    assert_eq!(scroll_into_view(0, Some(7), 5, 20), 3);
    assert_eq!(scroll_into_view(9, Some(7), 5, 20), 7);
    assert_eq!(scroll_into_view(5, Some(7), 5, 20), 5);
    assert_eq!(scroll_into_view(18, None, 5, 20), 15);
    assert_eq!(scroll_into_view(3, None, 5, 2), 0);
}

#[test]
fn the_minor_list_is_parted_from_the_other() {
    let inner = area(1, 1, 28, 20);
    let split = parted(inner, 3, 3).unwrap();
    assert_eq!(split.main, area(1, 1, 28, 16));
    assert_eq!(split.rule, 17);
    assert_eq!(split.minor, area(1, 18, 28, 3));
    assert_eq!(parted(inner, 50, 3).unwrap().minor.height, 10, "half");
    assert!(parted(inner, 0, 3).is_none());
    assert!(parted(area(1, 1, 28, 3), 3, 3).is_none());
    assert_eq!(row_height(UiThemeMenuLayout::Comfortable), 3);
    assert_eq!(
        layout(UiThemeMenuLayout::Comfortable, 2),
        UiThemeMenuLayout::Compact
    );
    assert_eq!(
        layout(UiThemeMenuLayout::Comfortable, 3),
        UiThemeMenuLayout::Comfortable
    );
    let units = vec![
        unit(0, "a", ConfigPanel::Main),
        unit(1, "b", ConfigPanel::Minor),
        unit(2, "c", ConfigPanel::Minor),
    ];
    assert_eq!(minor_start(&units), 1);
    assert_eq!(minor_start(&vec![]), 0);
}

/// A compact row says the most specific thing there is to say.
#[test]
fn a_compact_row_has_a_detail() {
    let theme = UiTheme::default();
    let mut api = unit(0, "api", ConfigPanel::Main);
    api.mode = Some("Watch".to_string());
    assert_eq!(detail(&theme, &api).label, "Watch");
    api.mode_short = Some("w".to_string());
    assert_eq!(detail(&theme, &api).label, "w");
    assert_eq!(detail(&theme, &api).color, None);
    api.state = RunnerState::ExitError(ExitCode::new(3));
    let said = detail(&theme, &api);
    assert_eq!((said.label.as_str(), said.number.as_str()), ("exit ", "3"));
    assert_eq!(said.color, Some(UiColor::Red));
    let row = area(0, 0, 24, 1);
    let mut pen = UiPen::new(24);
    draw_compact(&mut pen, &theme, &api, row, true, false);
    assert_eq!(paint(row, &pen.draws())[0], " > ✗ api         exit 3");
    api.name_short = Some("a".to_string());
    let mut pen = UiPen::new(24);
    draw_compact(&mut pen, &theme, &api, row, false, false);
    assert_eq!(paint(row, &pen.draws())[0], "   ✗ a           exit 3");
}

// ---- the rows --------------------------------------------------------

fn proc(key: &str, name: &str, panel: ConfigPanel) -> ConfigProc {
    ConfigProc {
        key: key.to_string(),
        name: Some(name.to_string()),
        name_short: None,
        groups: vec![],
        depends: vec![],
        working_dir: None,
        log_size: None,
        parse_ansi: None,
        panel,
        run: None,
        modes: None,
    }
}

fn map() -> AppUnitMap {
    AppUnitMap::new(&Config {
        log_size: None,
        parse_ansi: None,
        ui: ConfigUi::default(),
        procs: vec![
            proc("a", "setup", ConfigPanel::Minor),
            proc("b", "web", ConfigPanel::Main),
            proc("c", "api", ConfigPanel::Main),
        ],
    })
    .unwrap()
}

/// Rows are listed by panel, then by name, and only what a run changes moves.
#[test]
fn rows_are_listed_by_panel_and_name() {
    let mut rows = rows_of(&map());
    let names = |rows: &Vec<ViewUnit>| -> Vec<String> {
        rows.iter().map(|row| row.name.clone()).collect()
    };
    assert_eq!(names(&rows), ["api", "web", "setup"]);
    assert!(rows.iter().all(|row| row.state == RunnerState::Stopped));
    let now = |state: RunnerState, mode: Option<&str>| UnitNow {
        state,
        mode: mode.map(|mode| mode.to_string()),
        mode_short: None,
    };
    let looked = vec![
        now(RunnerState::Running, None),
        now(RunnerState::Stopped, None),
        now(RunnerState::Stopped, Some("Watch")),
    ];
    assert!(refresh_rows(&mut rows, &looked));
    assert!(!refresh_rows(&mut rows, &looked), "nothing had changed");
    assert_eq!(names(&rows), ["api", "web", "setup"]);
    assert_eq!(rows[2].state, RunnerState::Running);
    assert_eq!(rows[0].mode.as_deref(), Some("Watch"));
    assert!(is_text_le("api", "web") && !is_text_le("web", "api"));
    assert!(is_text_le("a", "ab") && is_text_le("a", "a") && is_text_le("z", "á"));
}

/// A screen in this process follows the log it is put on, and shows what it
/// had until something new comes.
#[test]
fn a_screen_follows_one_log_at_a_time() {
    let map = map();
    let mut app = UiApp::new(&map);
    assert_eq!(app.units().len(), 3);
    assert!(app.log().is_none());
    let mut log = Log::new(8);
    log.writer().write_lines(&["um", "dois"]);
    let region = LogRegion::new(0..10, 0..80);
    app.set_log(Some(key(1)), region, Some(&log));
    let now: Vec<UnitNow> = (0..3)
        .map(|_| UnitNow {
            state: RunnerState::Running,
            mode: None,
            mode_short: None,
        })
        .collect();
    app.sync(&now, Some(&log));
    assert!(app.units().iter().all(|row| row.state == RunnerState::Running));
    let shown = app.log().unwrap();
    assert_eq!(shown.lines.len(), 2);
    assert_eq!(shown.lines[1].text, "dois");
    assert_eq!(shown.region, region);
    app.sync(&now, None);
    assert_eq!(app.log().unwrap().lines.len(), 2, "its log is gone");
    app.set_log(None, region, None);
    assert!(app.log().is_none());

    let mut followed = AppLog::new(key(0), &log, region);
    followed.sync_log(Some(&log));
    assert_eq!(followed.log().lines[0].text, "um");
    assert_eq!(followed.log().revision, log.version());
}

// ---- the keys --------------------------------------------------------

fn press(key: UiKey) -> UiPress {
    UiPress {
        key,
        shift: false,
        control: false,
    }
}

#[test]
fn each_key_means_one_thing() {
    let shift = |key: UiKey| UiPress {
        shift: true,
        ..press(key)
    };
    for (pressed, verb) in [
        (press(UiKey::Up), UiVerb::Select(Move::Previous)),
        (press(UiKey::Char('k')), UiVerb::Select(Move::Previous)),
        (press(UiKey::Down), UiVerb::Select(Move::Next)),
        (press(UiKey::Char('j')), UiVerb::Select(Move::Next)),
        (shift(UiKey::Up), UiVerb::ScrollLines(1)),
        (shift(UiKey::Down), UiVerb::ScrollLines(-1)),
        (press(UiKey::PageUp), UiVerb::ScrollPages(1)),
        (press(UiKey::PageDown), UiVerb::ScrollPages(-1)),
        (press(UiKey::End), UiVerb::Follow),
        (press(UiKey::Char('G')), UiVerb::Follow),
        (press(UiKey::Tab), UiVerb::FocusOther),
        (press(UiKey::Enter), UiVerb::OpenMenu),
        (press(UiKey::Char('r')), UiVerb::Start),
        (press(UiKey::Backspace), UiVerb::Stop),
        (press(UiKey::Delete), UiVerb::Stop),
        (press(UiKey::Char('q')), UiVerb::Quit),
        (press(UiKey::Esc), UiVerb::Quit),
        (press(UiKey::Char('z')), UiVerb::Nothing),
    ] {
        assert_eq!(verb_of(pressed, false), verb, "{pressed:?}");
    }
    for (pressed, verb) in [
        (press(UiKey::Esc), UiVerb::CloseMenu),
        (press(UiKey::Char('q')), UiVerb::CloseMenu),
        (press(UiKey::Down), UiVerb::SelectMenu(Move::Next)),
        (press(UiKey::Up), UiVerb::SelectMenu(Move::Previous)),
        (press(UiKey::Enter), UiVerb::Choose),
        (press(UiKey::Char('r')), UiVerb::Nothing),
    ] {
        assert_eq!(verb_of(pressed, true), verb, "{pressed:?}");
    }
    let interrupt = UiPress {
        control: true,
        ..press(UiKey::Char('c'))
    };
    assert_eq!(verb_of(interrupt, false), UiVerb::Quit);
    assert_eq!(verb_of(interrupt, true), UiVerb::Quit);
}

#[test]
fn a_press_acts_on_the_selected_unit() {
    let units = vec![
        unit(4, "api", ConfigPanel::Main),
        unit(9, "web", ConfigPanel::Main),
    ];
    let mut ui: Ui<u8> = Ui::new(UiTheme::default());
    assert_eq!(ui.handle(press(UiKey::Down), &units), UiAsk::Nothing);
    assert_eq!(
        ui.handle(press(UiKey::Char('r')), &units),
        UiAsk::Send(ViewCommand::Start { key: key(9) })
    );
    assert_eq!(
        ui.handle(press(UiKey::Delete), &units),
        UiAsk::Send(ViewCommand::Stop { key: key(9) })
    );
    assert_eq!(ui.handle(press(UiKey::Enter), &units), UiAsk::OpenMenu);
    ui.render()
        .open_menu(key(9), "web".to_string(), vec![choice("Start", true, true, 5)]);
    assert_eq!(
        ui.handle(press(UiKey::Enter), &units),
        UiAsk::Send(ViewCommand::Dispatch {
            key: key(9),
            event: 5
        })
    );
    assert!(!ui.render().menu_open(), "a chosen entry closes the menu");
    assert_eq!(ui.handle(press(UiKey::Enter), &vec![]), UiAsk::Nothing);
    assert!(ui.render().is_log_counted());
    let (followed, region) = ui.request_log(&units);
    assert_eq!(followed, Some(key(9)));
    assert_eq!(region, LogRegion::new(0..100, 0..0));
    ui.handle_mouse(true);
    assert_eq!(ui.request_log(&units).1.line_end, 103);
    ui.handle_mouse(false);
    assert_eq!(ui.request_log(&units).1.line_end, 100);
    assert!(ui.running());
    ui.handle(press(UiKey::Char('q')), &units);
    assert!(!ui.running());
}

/// A scroll is pulled back to what there is.
#[test]
fn a_scroll_stops_at_the_oldest_line() {
    let units = vec![unit(0, "api", ConfigPanel::Main)];
    let mut ui: Ui<u8> = Ui::new(UiTheme::default());
    let held = lines(&["a", "b", "c"]);
    ui.handle_mouse(true);
    ui.clamp_log(&UiLog {
        region: LogRegion::new(0..100, 0..80),
        revision: 1,
        lines: &held,
    });
    assert_eq!(ui.request_log(&units).1.line_end, 103);
    ui.handle_mouse(true);
    ui.clamp_log(&UiLog {
        region: LogRegion::new(0..100, 0..80),
        revision: 1,
        lines: &held,
    });
    assert_eq!(ui.request_log(&units).1.line_end, 103);
}

// ---- a frame ---------------------------------------------------------

#[test]
fn a_frame_is_the_list_the_log_and_the_keys() {
    let mut units = vec![
        unit(0, "API server", ConfigPanel::Main),
        unit(1, "web", ConfigPanel::Main),
        unit(2, "setup", ConfigPanel::Minor),
    ];
    units[0].mode = Some("Watch".to_string());
    units[1].state = RunnerState::Stopped;
    units[2].state = RunnerState::ExitSuccess;
    let log = lines(&["Listening", "GET /"]);
    let frame = area(0, 0, 76, 13);
    let mut render: UiRender<u8> = UiRender::new(UiTheme::default());
    let draws = render.draw(
        frame,
        &units,
        Some(UiLog {
            region: LogRegion::new(0..100, 0..42),
            revision: 1,
            lines: &log,
        }),
    );
    let expected = [
        "+-----------------------------┬ API server · running · Watch --------------+",
        "| > ● API server              | Listening                                  |",
        "|     running           Watch | GET /                                      |",
        "|                             |                                            |",
        "|   ○ web                     |                                            |",
        "|     stopped                 |                                            |",
        "|                             |                                            |",
        "|                             |                                            |",
        "|                             |                                            |",
        "| ─────────────────────────── |                                            |",
        "|   ✓ setup                   |                                            |",
        "+-----------------------------┴--------------------------------------------+",
        " ↑↓ move   ⇥ panel   ⏎ actions   r (re)start   ⌫ stop   pgup/dn scroll   end",
    ];
    for (row, expected) in paint(frame, &draws).iter().zip(expected) {
        assert_eq!(row, expected);
    }
    assert_eq!(render.log_region(), LogRegion::new(0..110, 0..42));

    render.open_menu(
        key(0),
        "API server".to_string(),
        vec![
            choice("Restart", true, true, 1),
            choice("Stop", true, false, 2),
        ],
    );
    let painted = paint(frame, &render.draw(frame, &units, None));
    assert!(painted[2].contains("+ API server -"), "{painted:#?}");
    assert!(painted[4].contains("> Restart"), "{painted:#?}");
    assert!(painted[5].contains("  Stop"), "{painted:#?}");
    assert!(painted[7].contains("  cancel"), "{painted:#?}");
    assert!(painted[1].contains("no output yet"), "{painted:#?}");
    render.select_menu(Move::Next);
    assert_eq!(render.menu_cursor(), 1);
    assert_eq!(render.menu_key(), Some(key(0)));
    let items = render.take_menu_items();
    assert_eq!(render.menu_cursor(), 1);
    render.refresh_menu(items);
    assert_eq!(
        render.menu_choice(),
        UiMenuChoice::Send {
            unit: key(0),
            event: 2
        }
    );
    render.close_menu();
    render.focus_other(&units);
    assert_eq!(render.selected_unit(&units).unwrap().name, "setup");
    render.select(Move::Next, units.len());
    assert_eq!(render.selected_unit(&units).unwrap().name, "API server");
    render.scroll_log_pages(1);
    assert_eq!(render.log_region().line_end, 119);
    render.scroll_log_lines(1);
    render.clamp_log(15);
    assert_eq!(render.log_region().line_end, 115);
    render.follow_log();
    assert_eq!(render.log_region().line_end, 110);
}
