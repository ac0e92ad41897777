use depclean::app::App;
use depclean::project::CleanTarget;
use depclean::project::Color;
use depclean::project::Project;
use depclean::survey::Entry;
use depclean::survey::Query;
use depclean::survey::Survey;
use depclean::survey::SurveyAction;

fn project(name: &str, size: u64) -> Project<u8> {
    Project {
        display_name: name.to_string(),
        lang: "Rust",
        lang_color: Color::Red,
        target: CleanTarget::Directories(vec![1]),
        size,
        selected: false,
    }
}

enum Step {
    Failed,
    File,
    Dir(Option<Project<u8>>),
}

/// Runs a scan; `engine` replies to the arguments with which it is asked.
fn run(walk: Vec<Step>, engine: &dyn Fn(&[&str]) -> Option<String>) -> (App<u8>, Vec<String>) {
    let mut app: App<u8> = App::new();
    let mut survey = Survey::new();
    let mut asked = Vec::new();
    let mut walk = walk.into_iter();
    let mut current = None;
    loop {
        match survey.action() {
            SurveyAction::NextEntry => match walk.next() {
                None => survey.walk_ended(),
                Some(Step::Failed) => survey.walked(&mut app, Entry::Failed),
                Some(Step::File) => survey.walked(&mut app, Entry::Other),
                Some(Step::Dir(found)) => {
                    current = found;
                    survey.walked(&mut app, Entry::Directory);
                }
            },
            SurveyAction::ScanDirectory => survey.scanned(&mut app, current.take()),
            SurveyAction::Ask(query) => {
                let arguments = query.arguments();
                asked.push(arguments.join(" "));
                let reply = engine(&arguments);
                assert!(survey.accepts(&reply));
                assert!(!app.scanning_done);
                survey.replied(reply);
            }
            SurveyAction::List => {
                assert!(survey.can_list(&app));
                assert!(!app.scanning_done);
                survey.list(&mut app);
            }
            SurveyAction::Finish => break,
        }
    }
    assert!(app.scanning_done);
    (app, asked)
}

fn names(app: &App<u8>) -> Vec<&str> {
    app.projects.iter().map(|p| p.display_name.as_str()).collect()
}

#[test]
fn a_scan_lists_directories_and_then_images() {
    let walk = vec![
        Step::Dir(None),
        Step::File,
        Step::Dir(Some(project("a", 3))),
        Step::Failed,
        Step::Dir(Some(project("b", 9))),
    ];
    let engine = |arguments: &[&str]| -> Option<String> {
        match arguments {
            ["images", ..] => Some("0123456789ab\tweb\tv1\t1kB\nbbb\tdb\tv2\t2kB\nccc\tnew\tv3\t3kB\n".to_string()),
            ["ps", ..] => Some("db\nother\ngone\n".to_string()),
            ["inspect", _, _, "other"] => Some("sha256:0123456789abcdef\n".to_string()),
            _ => None,
        }
    };
    let (app, asked) = run(walk, &engine);
    assert_eq!(names(&app), vec!["a", "b", "new:v3"]);
    assert_eq!(app.dirs_scanned, 3);
    assert_eq!(app.total_size(), 12 + 3 * 1024);
    assert_eq!(asked, vec![
        "images --format {{.ID}}\t{{.Repository}}\t{{.Tag}}\t{{.Size}}",
        "ps -a --format {{.Image}}",
        "ps -a --format {{.Image}}",
        "inspect --format {{.Id}} db",
        "inspect --format {{.Id}} other",
        "inspect --format {{.Id}} gone",
    ]);
}

#[test]
fn without_an_engine_only_directories_are_listed() {
    let (app, asked) = run(vec![Step::Dir(Some(project("a", 3)))], &|_| None);
    assert_eq!(names(&app), vec!["a"]);
    assert_eq!(asked.len(), 1);
}

#[test]
fn failing_questions_count_as_no_containers() {
    let engine = |arguments: &[&str]| -> Option<String> {
        match arguments {
            ["images", ..] => Some("aaa\tweb\tv1\t1kB".to_string()),
            _ => None,
        }
    };
    let (app, asked) = run(vec![], &engine);
    assert_eq!(names(&app), vec!["web:v1"]);
    assert_eq!(asked.len(), 3);
}

#[test]
fn what_cannot_be_taken_is_noticed() {
    let mut survey = Survey::new();
    survey.walk_ended();
    let odd = Some("sha256:short".to_string());
    assert!(survey.accepts(&odd));
    survey.replied(Some("0123456789a\u{e9}\t<none>\t<none>\t1B".to_string()));
    survey.replied(None);
    survey.replied(Some("name\n".to_string()));
    assert!(matches!(survey.action(), SurveyAction::Ask(Query::Inspect("name"))));
    assert!(!survey.accepts(&odd));
    assert!(survey.accepts(&None));
    survey.replied(None);
    let app: App<u8> = App::new();
    assert!(!survey.can_list(&app));
}

#[test]
fn sizes_that_cannot_be_added_up_are_noticed() {
    let mut app: App<u8> = App::new();
    app.add_project(project("huge", u64::MAX - 10));
    assert!(app.has_room(&vec![project("x", 4), project("y", 6)]));
    assert!(!app.has_room(&vec![project("x", 4), project("y", 7)]));
    app.add_projects(vec![project("x", 4), project("y", 6)]);
    assert_eq!(names(&app), vec!["huge", "x", "y"]);
    assert_eq!(app.total_size(), u64::MAX);
}
