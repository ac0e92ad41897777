use depclean::app::App;
use depclean::app::AppPhase;
use depclean::cleanup::presence_arguments;
use depclean::cleanup::removal_arguments;
use depclean::cleanup::CleanItem;
use depclean::keys::Flow;
use depclean::keys::Key;
use depclean::order::sort_by_size;
use depclean::project::CleanTarget;
use depclean::project::Color;
use depclean::project::Project;
use depclean::screen::Area;
use depclean::screen::Extent;
use depclean::screen::Placed;
use depclean::screen::Span;
use depclean::screen::TextStyle;
use depclean::screen::Widget;

fn project(name: &str, size: u64, dirs: &[&str]) -> Project<String> {
    Project {
        display_name: name.to_string(),
        lang: "Rust",
        lang_color: Color::Red,
        target: CleanTarget::Directories(dirs.iter().map(|d| d.to_string()).collect()),
        size,
        selected: false,
    }
}

fn image(id: &str, size: u64) -> Project<String> {
    Project {
        display_name: id.to_string(),
        lang: "Docker",
        lang_color: Color::LightBlue,
        target: CleanTarget::DockerImage { id: id.to_string() },
        size,
        selected: false,
    }
}

fn listed(app: &App<String>) -> Vec<&str> {
    app.projects.iter().map(|p| p.display_name.as_str()).collect()
}

fn marked(app: &App<String>) -> Vec<bool> {
    app.projects.iter().map(|p| p.selected).collect()
}

fn ready(projects: Vec<Project<String>>) -> App<String> {
    let mut app = App::new();
    for p in projects {
        app.dir_scanned();
        app.add_project(p);
    }
    app.finish_scan();
    app.tick();
    app
}

fn three() -> App<String> {
    ready(vec![project("small", 1, &["s"]), project("large", 100, &["l1", "l2"]), project("middle", 10, &["m"])])
}

#[test]
fn scanning_ends_with_a_sorted_list() {
    let mut app: App<String> = App::new();
    assert_eq!(app.phase, AppPhase::Scanning);
    assert_eq!(app.row, Some(0));
    app.add_project(project("a", 5, &["x"]));
    app.dir_scanned();
    app.tick();
    assert_eq!(app.phase, AppPhase::Scanning);
    app.add_project(project("b", 7, &["y"]));
    app.add_project(project("c", 5, &["z"]));
    app.add_project(project("d", 7, &["z"]));
    assert_eq!(app.handle_key(Key::Enter), Flow::Continue);
    assert_eq!(app.phase, AppPhase::Scanning);
    app.finish_scan();
    app.tick();
    assert_eq!(app.phase, AppPhase::Selecting);
    assert_eq!(listed(&app), vec!["b", "d", "a", "c"]);
    assert_eq!(app.project_count(), 4);
    assert_eq!(app.total_size(), 24);
    assert_eq!(app.dirs_scanned, 1);
    app.tick();
    assert_eq!(listed(&app), vec!["b", "d", "a", "c"]);
}

#[test]
fn sorting_is_stable() {
    let mut projects = Vec::new();
    let mut state: u64 = 17;
    for i in 0..500 {
        state = state.wrapping_mul(6364136223846793005).wrapping_add(1442695040888963407);
        projects.push(project(&format!("{}", i), (state >> 33) % 20, &[]));
    }
    let mut wanted: Vec<(String, u64)> = projects.iter().map(|p| (p.display_name.clone(), p.size)).collect();
    wanted.sort_by(|a, b| b.1.cmp(&a.1));
    let got: Vec<(String, u64)> = sort_by_size(projects).into_iter().map(|p| (p.display_name, p.size)).collect();
    assert_eq!(got, wanted);
    assert!(sort_by_size(Vec::<Project<String>>::new()).is_empty());
}

#[test]
fn the_count_of_directories_wraps() {
    let mut app: App<String> = App::new();
    app.dirs_scanned = u64::MAX;
    app.dir_scanned();
    assert_eq!(app.dirs_scanned, 0);
}

#[test]
fn the_cursor_goes_round() {
    let mut app = three();
    app.handle_key(Key::Up);
    assert_eq!(app.row, Some(2));
    app.handle_key(Key::Down);
    assert_eq!(app.row, Some(0));
    app.handle_key(Key::Char('j'));
    app.handle_key(Key::Char('j'));
    assert_eq!(app.row, Some(2));
    app.handle_key(Key::Char('k'));
    assert_eq!(app.row, Some(1));
    app.set_row(None);
    app.move_down();
    assert_eq!(app.row, Some(1));
    app.set_row(None);
    app.move_up();
    assert_eq!(app.row, Some(2));
    // Beyond the end of the list.
    app.set_row(Some(9));
    app.move_up();
    assert_eq!(app.row, Some(8));
    app.move_down();
    assert_eq!(app.row, Some(0));
    // Up and down undo each other.
    for row in 0..3 {
        app.set_row(Some(row));
        app.move_up();
        app.move_down();
        assert_eq!(app.row, Some(row));
        app.move_down();
        app.move_up();
        assert_eq!(app.row, Some(row));
    }
    let mut empty = ready(vec![]);
    empty.move_up();
    empty.move_down();
    assert_eq!(empty.row, Some(0));
}

#[test]
fn projects_are_chosen_one_by_one() {
    let mut app = three();
    app.handle_key(Key::Down);
    app.handle_key(Key::Char(' '));
    assert_eq!(marked(&app), vec![false, true, false]);
    assert_eq!(app.selected_count(), 1);
    assert_eq!(app.selected_size(), 10);
    app.toggle_selected();
    assert_eq!(marked(&app), vec![false, false, false]);
    app.set_row(Some(3));
    app.toggle_selected();
    app.set_row(None);
    app.toggle_selected();
    assert_eq!(marked(&app), vec![false, false, false]);
    assert_eq!(app.selected_size(), 0);
}

#[test]
fn all_projects_are_chosen_or_none() {
    let mut app = three();
    app.toggle_selected();
    app.handle_key(Key::Char('a'));
    assert_eq!(marked(&app), vec![true, true, true]);
    assert_eq!(app.selected_size(), app.total_size());
    app.handle_key(Key::Char('a'));
    assert_eq!(marked(&app), vec![false, false, false]);
    app.select_all();
    app.select_all();
    assert_eq!(marked(&app), vec![false, false, false]);
    let mut empty = ready(vec![]);
    empty.select_all();
    assert_eq!(empty.project_count(), 0);
}

#[test]
fn deletion_is_asked_for_first() {
    let mut app = three();
    // Nothing is chosen.
    assert_eq!(app.handle_key(Key::Enter), Flow::Continue);
    assert_eq!(app.phase, AppPhase::Selecting);
    assert_eq!(app.handle_key(Key::Char('y')), Flow::Continue);
    app.toggle_selected();
    assert_eq!(app.handle_key(Key::Enter), Flow::Continue);
    assert_eq!(app.phase, AppPhase::Confirming);
    for key in [Key::Char('q'), Key::Enter, Key::Up, Key::Other, Key::Char(' ')] {
        assert_eq!(app.handle_key(key), Flow::Continue);
        assert_eq!(app.phase, AppPhase::Confirming);
    }
    assert_eq!(app.handle_key(Key::Char('n')), Flow::Continue);
    assert_eq!(app.phase, AppPhase::Selecting);
    app.handle_key(Key::Enter);
    assert_eq!(app.handle_key(Key::Esc), Flow::Continue);
    assert_eq!(app.phase, AppPhase::Selecting);
    app.handle_key(Key::Enter);
    assert_eq!(app.handle_key(Key::Char('y')), Flow::Clean);
    assert_eq!(app.phase, AppPhase::Confirming);
}

#[test]
fn the_tool_is_left_by_q_or_escape() {
    let mut scanning: App<String> = App::new();
    assert_eq!(scanning.handle_key(Key::Char('q')), Flow::Quit);
    assert_eq!(scanning.handle_key(Key::Esc), Flow::Quit);
    assert_eq!(scanning.handle_key(Key::Char('x')), Flow::Continue);
    assert_eq!(scanning.phase, AppPhase::Scanning);
    let mut app = three();
    assert_eq!(app.handle_key(Key::Char('q')), Flow::Quit);
    assert_eq!(app.handle_key(Key::Esc), Flow::Quit);
    app.phase = AppPhase::Done { freed: 0 };
    assert_eq!(app.handle_key(Key::Char('q')), Flow::Quit);
    assert_eq!(app.handle_key(Key::Esc), Flow::Quit);
    assert_eq!(app.handle_key(Key::Other), Flow::Continue);
    assert_eq!(app.phase, AppPhase::Done { freed: 0 });
    assert_eq!(app.handle_key(Key::Enter), Flow::Continue);
    assert_eq!(app.phase, AppPhase::Selecting);
    app.phase = AppPhase::Deleting { current: 0, total: 1 };
    assert_eq!(app.handle_key(Key::Char('q')), Flow::Continue);
}

#[test]
fn no_key_changes_what_is_listed() {
    let mut app = three();
    let before: Vec<String> = listed(&app).into_iter().map(str::to_string).collect();
    for c in ['a', 'j', ' ', 'k', 'x', 'y', 'n', 'q', '\u{e9}'] {
        app.handle_key(Key::Char(c));
        assert_eq!(listed(&app), before);
    }
    for key in [Key::Up, Key::Down, Key::Enter, Key::Other, Key::Esc] {
        app.handle_key(key);
        assert_eq!(listed(&app), before);
    }
    assert_eq!(app.total_size(), 111);
    assert_eq!(app.dirs_scanned, 3);
    assert!(app.scanning_done);
}

/// Runs a deletion in which directories take `measured` bytes each, and in which what is in
/// `stuck` cannot be deleted.
fn clean(app: &mut App<String>, measured: u64, stuck: &[&str]) -> Vec<String> {
    let mut removed = Vec::new();
    let mut run = app.delete_selected();
    let total = run.work.len();
    assert_eq!(app.phase, AppPhase::Deleting { current: 0, total });
    while let Some(item) = app.next_removal(&run) {
        let size = match item {
            CleanItem::Directory(dir) => {
                removed.push(dir.clone());
                measured
            }
            CleanItem::Image { id, size } => {
                removed.push(id.to_string());
                size
            }
        };
        app.removal_done(&mut run, size);
        assert_eq!(app.phase, AppPhase::Deleting { current: removed.len(), total });
    }
    assert_eq!(removed.len(), total);
    let mut present = Vec::new();
    for w in 0..run.work.len() {
        present.push(match app.item(&run, w) {
            CleanItem::Directory(dir) => stuck.contains(&dir.as_str()),
            CleanItem::Image { id, .. } => stuck.contains(&id),
        });
    }
    app.finish_deletion(run, &present);
    removed
}

#[test]
fn chosen_projects_are_deleted_and_leave_the_list() {
    let mut app = ready(vec![
        project("a", 50, &["a1", "a2"]),
        image("i1", 40),
        project("b", 30, &["b1"]),
        image("i2", 20),
        project("c", 10, &["c1", "c2", "c3"]),
    ]);
    for row in [0, 1, 4] {
        app.set_row(Some(row));
        app.toggle_selected();
    }
    let removed = clean(&mut app, 7, &[]);
    assert_eq!(removed, vec!["a1", "a2", "i1", "c1", "c2", "c3"]);
    assert_eq!(app.phase, AppPhase::Done { freed: 5 * 7 + 40 });
    assert_eq!(listed(&app), vec!["b", "i2"]);
    assert_eq!(marked(&app), vec![false, false]);
    assert_eq!(app.row, Some(4));
    assert_eq!(app.total_size(), 50);
}

#[test]
fn what_cannot_be_deleted_stays_in_the_list() {
    let mut app = ready(vec![project("a", 50, &["a1", "a2"]), image("i1", 40), project("b", 30, &["b1"]), image("i2", 20)]);
    app.select_all();
    let removed = clean(&mut app, 0, &["a2", "i2"]);
    assert_eq!(removed, vec!["a1", "a2", "i1", "b1", "i2"]);
    assert_eq!(listed(&app), vec!["a", "i2"]);
    assert_eq!(marked(&app), vec![false, false]);
    assert_eq!(app.phase, AppPhase::Done { freed: 60 });
}

#[test]
fn an_image_listed_twice_frees_the_first_size_each_time() {
    let mut app = ready(vec![image("same", 40), image("same", 15)]);
    app.select_all();
    clean(&mut app, 0, &[]);
    assert_eq!(app.phase, AppPhase::Done { freed: 80 });
    assert_eq!(app.project_count(), 0);
}

#[test]
fn the_engine_is_told_what_to_delete() {
    assert_eq!(removal_arguments("abc"), vec!["rmi", "abc"]);
    assert_eq!(presence_arguments("abc"), vec!["inspect", "--type=image", "abc"]);
}

#[test]
fn nested_directories_are_deleted_one_by_one() {
    let mut app = ready(vec![project("p", 7, &["p/venv", "p/venv/__pycache__"])]);
    app.select_all();
    let mut run = app.delete_selected();
    assert_eq!(app.phase, AppPhase::Deleting { current: 0, total: 2 });
    app.removal_done(&mut run, 7);
    // The inner one is gone with the outer one, and measures nothing.
    app.removal_done(&mut run, 0);
    app.finish_deletion(run, &vec![false, false]);
    assert_eq!(app.phase, AppPhase::Done { freed: 7 });
    assert_eq!(app.project_count(), 0);
}

#[test]
fn nothing_chosen_is_nothing_deleted() {
    let mut app = three();
    assert!(clean(&mut app, 1, &[]).is_empty());
    assert_eq!(app.phase, AppPhase::Done { freed: 0 });
    assert_eq!(listed(&app), vec!["large", "middle", "small"]);
}

// --- screens ---

const SCREEN: Area = Area { x: 0, y: 0, width: 80, height: 24 };

fn text(line: &Vec<Span>) -> String {
    line.iter().map(|s| s.text.as_str()).collect()
}

fn lines_of(placed: &Placed) -> Vec<String> {
    match &placed.widget {
        Widget::Paragraph(p) => p.lines.iter().map(text).collect(),
        _ => panic!("not a paragraph"),
    }
}

fn plain() -> TextStyle {
    TextStyle { fg: None, bold: false }
}

fn tint(color: Color) -> TextStyle {
    TextStyle { fg: Some(color), bold: false }
}

fn area(y: u16, height: u16) -> Area {
    Area { x: 0, y, width: 80, height }
}

#[test]
fn the_scanning_screen_counts() {
    let mut app: App<String> = App::new();
    app.add_project(project("a", 5, &["x"]));
    for _ in 0..13 {
        app.dir_scanned();
    }
    let shown = app.ui(SCREEN);
    assert_eq!(shown.len(), 2);
    assert_eq!(lines_of(&shown[0]), vec![" \u{2838} Scanning filesystem..."]);
    assert_eq!(lines_of(&shown[1]), vec!["Scanning... 13 dirs scanned | 1 projects found"]);
    assert_eq!(shown[0].area, area(9, 3));
    assert_eq!(shown[1].area, area(12, 3));
    match &shown[1].widget {
        Widget::Paragraph(p) => {
            assert!(p.centered && p.borders);
            assert_eq!(p.title, Some(" depclean "));
            let styles: Vec<TextStyle> = p.lines[0].iter().map(|s| s.style).collect();
            assert_eq!(styles, vec![plain(), tint(Color::Cyan), plain(), tint(Color::Green)]);
        }
        _ => panic!("not a paragraph"),
    }
}

#[test]
fn the_list_screen_shows_the_projects() {
    let mut app = ready(vec![project("~/p", 2048, &["a", "b"]), image("nginx:latest", 5 * 1024 * 1024)]);
    app.toggle_selected();
    let shown = app.ui(SCREEN);
    assert_eq!(shown.len(), 3);
    assert_eq!(shown[0].area, area(0, 3));
    assert_eq!(shown[1].area, area(3, 18));
    assert_eq!(shown[2].area, area(21, 3));
    assert_eq!(lines_of(&shown[0]), vec![" depclean \u{2014} 2 projects | Total: 5.0 MB | Selected: 5.0 MB"]);
    assert_eq!(
        lines_of(&shown[2]),
        vec![" \u{2191}\u{2193} navigate  Space toggle  a select all  Enter delete  q quit"]
    );
    match &shown[1].widget {
        Widget::Table(t) => {
            assert_eq!(t.header, vec!["", "Path", "Language", "Size", "Deps"]);
            assert_eq!(t.header_style, TextStyle { fg: Some(Color::White), bold: true });
            assert_eq!(t.header_margin, 1);
            assert_eq!(t.widths, vec![Extent::Length(6), Extent::Fill(1), Extent::Length(10), Extent::Length(12), Extent::Length(8)]);
            let rows: Vec<Vec<(&str, TextStyle)>> =
                t.rows.iter().map(|r| r.iter().map(|c| (c.text.as_str(), c.style)).collect()).collect();
            assert_eq!(rows, vec![
                vec![
                    (" [\u{2714}]", tint(Color::Green)),
                    ("nginx:latest", plain()),
                    ("Docker", tint(Color::LightBlue)),
                    ("5.0 MB", tint(Color::Yellow)),
                    ("image", tint(Color::DarkGray)),
                ],
                vec![
                    (" [ ]", tint(Color::DarkGray)),
                    ("~/p", plain()),
                    ("Rust", tint(Color::Red)),
                    ("2 KB", tint(Color::Yellow)),
                    ("2 dirs", tint(Color::DarkGray)),
                ],
            ]);
        }
        _ => panic!("not a table"),
    }
}

#[test]
fn the_other_screens_say_what_happens() {
    let mut app = three();
    app.select_all();
    app.handle_key(Key::Enter);
    let shown = app.ui(SCREEN);
    assert_eq!(shown.len(), 1);
    assert_eq!(lines_of(&shown[0]), vec![
        "",
        "  \u{26a0}  Confirm Deletion",
        "",
        "  Delete dependencies from 3 project(s), freeing ~111 B?",
        "",
        "  y confirm  n cancel",
    ]);
    assert_eq!(shown[0].area.height, 7);
    app.phase = AppPhase::Deleting { current: 2, total: 4 };
    let shown = app.ui(SCREEN);
    assert_eq!(shown[0].area.height, 5);
    match &shown[0].widget {
        Widget::Gauge(g) => {
            assert_eq!(g.title, " Deleting... ");
            assert_eq!(g.label, "2/4 items");
            assert_eq!(g.color, Color::Red);
            assert_eq!((g.part, g.whole), (2, 4));
        }
        _ => panic!("not a gauge"),
    }
    app.phase = AppPhase::Done { freed: 3 * 1024 * 1024 * 1024 };
    let shown = app.ui(SCREEN);
    assert_eq!(lines_of(&shown[0]), vec!["", "  \u{2713} Done! Freed 3.0 GB", "  Press q to quit or Enter to continue"]);
}

#[test]
fn nothing_is_drawn_outside_the_terminal() {
    let mut app = three();
    for (width, height) in [(80u16, 24u16), (1, 1), (0, 0), (200, 3), (10, 5), (300, 60)] {
        let screen = Area { x: 2, y: 4, width, height };
        for phase in [
            AppPhase::Scanning,
            AppPhase::Selecting,
            AppPhase::Deleting { current: 0, total: 0 },
            AppPhase::Done { freed: 0 },
        ] {
            app.phase = phase;
            for placed in app.ui(screen) {
                assert_eq!((placed.area.x, placed.area.width), (2, width));
                assert!(placed.area.y >= 4 && placed.area.y + placed.area.height <= 4 + height);
            }
        }
    }
}

#[test]
fn rows_have_their_heights() {
    let mut app = three();
    app.select_all();
    for y in [0u16, 1, 77, 1000, 65000] {
        for height in (0u16..140).chain([500, 501]) {
            let screen = Area { x: 3, y, width: 10, height };
            app.phase = AppPhase::Selecting;
            if height >= 6 {
                let areas: Vec<(u16, u16)> = app.ui(screen).iter().map(|p| (p.area.y, p.area.height)).collect();
                assert_eq!(areas, vec![(y, 3), (y + 3, height - 6), (y + height - 3, 3)]);
            }
            app.phase = AppPhase::Scanning;
            if height >= 6 {
                let shown = app.ui(screen);
                assert_eq!((shown[0].area.height, shown[1].area.height), (3, 3));
                assert_eq!(shown[1].area.y, shown[0].area.y + 3);
                let above = shown[0].area.y - y;
                let below = y + height - (shown[1].area.y + 3);
                assert!(above <= below + 1 && below <= above + 1);
            }
            for (phase, own) in [
                (AppPhase::Confirming, 7),
                (AppPhase::Deleting { current: 0, total: 1 }, 5),
                (AppPhase::Done { freed: 0 }, 5),
            ] {
                app.phase = phase;
                let shown = app.ui(screen)[0].area;
                if height >= own {
                    assert_eq!(shown.height, own);
                    let above = shown.y - y;
                    let below = y + height - (shown.y + own);
                    assert!(above <= below + 1 && below <= above + 1);
                } else {
                    assert_eq!(shown, screen);
                }
            }
        }
    }
    // As high as a terminal can be.
    app.phase = AppPhase::Selecting;
    let tall = app.ui(Area { x: 0, y: 0, width: 1, height: u16::MAX });
    assert_eq!(tall[1].area, Area { x: 0, y: 3, width: 1, height: u16::MAX - 6 });
}

#[test]
fn widgets_go_where_they_are_told() {
    let mut app = three();
    let parts = vec![area(1, 2), area(5, 6), area(20, 1), area(30, 4)];
    let places = |app: &App<String>, n: usize| -> Vec<Area> {
        app.compose(&parts[..n].to_vec()).iter().map(|p| p.area).collect()
    };
    assert_eq!(places(&app, 3), vec![parts[0], parts[1], parts[2]]);
    app.phase = AppPhase::Scanning;
    assert_eq!(places(&app, 4), vec![parts[1], parts[2]]);
    app.phase = AppPhase::Done { freed: 0 };
    assert_eq!(places(&app, 3), vec![parts[1]]);
}
