use depclean::project::CleanTarget;
use depclean::project::Color;
use depclean::project::Project;
use depclean::rules::lang_rules;
use depclean::rules::marker_test;
use depclean::rules::matches_marker;
use depclean::rules::walks_into;
use depclean::rules::LangRule;
use depclean::rules::MarkerTest;
use depclean::rules::RuleProbe;
use depclean::scan::collect_project;
use depclean::scan::counted_bytes;
use depclean::scan::dep_search;
use depclean::scan::dir_size;
use depclean::scan::is_searched;
use depclean::scan::short_path;
use depclean::scan::DepSearch;
use depclean::scan::DirScan;
use depclean::scan::Found;
use depclean::scan::ScanAction;
use depclean::scan::Walked;

fn names(list: &[&str]) -> Vec<Option<String>> {
    list.iter().map(|name| Some(name.to_string())).collect()
}

fn has(dir: &[&str], marker: &str) -> bool {
    matches_marker(marker, dir.contains(&marker), &names(dir))
}

// --- matches_marker ---

#[test]
fn matches_marker_exact_file() {
    let dir = ["Cargo.toml"];
    assert!(has(&dir, "Cargo.toml"));
    assert!(!has(&dir, "package.json"));
}

#[test]
fn matches_marker_wildcard() {
    let dir = ["myapp.csproj"];
    assert!(has(&dir, "*.csproj"));
    assert!(!has(&dir, "*.sln"));
}

#[test]
fn matches_marker_empty_dir() {
    assert!(!has(&[], "Cargo.toml"));
    assert!(!has(&[], "*.csproj"));
}

#[test]
fn markers_are_looked_for_by_name_or_by_ending() {
    assert!(matches!(marker_test("go.mod"), MarkerTest::Exact));
    assert!(matches!(marker_test(""), MarkerTest::Exact));
    assert!(matches!(marker_test("*.sln"), MarkerTest::Suffix(ending) if ending == ".sln"));
    // An exact marker heeds only whether it exists, a pattern only the names.
    assert!(!matches_marker("go.mod", false, &names(&["go.mod"])));
    assert!(matches_marker("go.mod", true, &names(&[])));
    assert!(!matches_marker("*.sln", true, &names(&["a.slnx", "sln"])));
    assert!(matches_marker("*.sln", false, &vec![None, Some(".sln".to_string())]));
    assert!(!matches_marker("*.sln", false, &vec![None, None]));
}

// --- dir_size ---

fn file(content: &str) -> Walked {
    Walked::File { len: Some(content.len() as u64) }
}

#[test]
fn dir_size_counts_files() {
    // "a.txt" and "b.txt"
    let entries = vec![Walked::NotFile, file("hello"), file("world!")];
    assert_eq!(dir_size(&entries), 11);
}

#[test]
fn dir_size_empty() {
    assert_eq!(dir_size(&vec![Walked::NotFile]), 0);
    assert_eq!(dir_size(&vec![]), 0);
}

#[test]
fn dir_size_nested() {
    // "sub" with "file.txt", and "root.txt"
    let entries = vec![Walked::NotFile, Walked::NotFile, file("abc"), file("de")];
    assert_eq!(dir_size(&entries), 5);
}

#[test]
fn unreadable_entries_count_nothing() {
    let entries = vec![Walked::Failed, Walked::File { len: None }, Walked::File { len: Some(7) }];
    assert_eq!(dir_size(&entries), 7);
    assert_eq!(counted_bytes(Walked::Failed), 0);
    assert_eq!(counted_bytes(Walked::File { len: None }), 0);
    assert_eq!(counted_bytes(Walked::File { len: Some(9) }), 9);
    assert_eq!(dir_size(&vec![Walked::File { len: Some(u64::MAX) }]), u64::MAX);
}

// --- rules ---

#[test]
fn languages_are_those_that_are_documented() {
    let rules = lang_rules();
    let listed: Vec<(&str, Vec<&str>, Vec<&str>, Color)> =
        rules.iter().map(|r| (r.name, r.markers.clone(), r.dep_dirs.clone(), r.color)).collect();
    assert_eq!(listed, vec![
        ("Rust", vec!["Cargo.toml"], vec!["target"], Color::Red),
        ("Node.js", vec!["package.json"], vec!["node_modules"], Color::Green),
        ("Python", vec!["pyproject.toml", "setup.py", "requirements.txt"], vec!["venv", ".venv", "__pycache__"], Color::Yellow),
        ("Java", vec!["build.gradle", "build.gradle.kts", "pom.xml"], vec!["build", ".gradle", "target"], Color::Cyan),
        ("Go", vec!["go.mod"], vec!["vendor"], Color::Blue),
        ("C/C++", vec!["CMakeLists.txt"], vec!["build"], Color::Magenta),
        (".NET", vec!["*.csproj", "*.sln"], vec!["bin", "obj"], Color::LightCyan),
    ]);
}

#[test]
fn dependency_directories_and_hidden_entries_are_skipped() {
    for rule in lang_rules() {
        for dir in rule.dep_dirs {
            assert!(!walks_into(Some(dir), false), "{}", dir);
        }
    }
    assert!(!walks_into(Some(".git"), false));
    assert!(walks_into(Some("src"), false));
    assert!(walks_into(Some("targets"), false));
    assert!(walks_into(Some("bin2"), false));
    assert!(walks_into(Some(""), false));
    assert!(walks_into(None, false));
}

#[test]
fn the_walk_begins_whatever_the_name() {
    for name in [".", "build", ".hidden", "node_modules", "src", ""] {
        assert!(walks_into(Some(name), true), "{}", name);
    }
    assert!(walks_into(None, true));
    // What is found there is listed as anywhere else.
    let rules = lang_rules();
    let project = collect_project(&rules[0], "/w/build".to_string(), vec![found("/w/build", "/w/build/target", 5)]).unwrap();
    assert_eq!(project.display_name, "/w/build");
    assert_eq!((project.lang, project.lang_color, project.size, project.selected), ("Rust", Color::Red, 5, false));
    assert!(matches!(project.target, CleanTarget::Directories(dirs) if dirs == vec!["/w/build/target".to_string()]));
}

fn found_rule<'a>(rules: &'a Vec<LangRule>, dir: &[&str]) -> (Option<&'a str>, Vec<&'static str>) {
    let mut probe = RuleProbe::new(rules);
    let mut asked = Vec::new();
    while let Some(marker) = probe.question() {
        asked.push(marker);
        probe.answer(has(dir, marker));
    }
    (probe.result().map(|rule| rule.name), asked)
}

#[test]
fn the_first_rule_with_a_marker_wins() {
    let rules = lang_rules();
    assert_eq!(found_rule(&rules, &["package.json", "Cargo.toml"]), (Some("Rust"), vec!["Cargo.toml"]));
    assert_eq!(
        found_rule(&rules, &["setup.py", "CMakeLists.txt"]),
        (Some("Python"), vec!["Cargo.toml", "package.json", "pyproject.toml", "setup.py"])
    );
    assert_eq!(found_rule(&rules, &["x.sln"]).0, Some(".NET"));
    let (none, asked) = found_rule(&rules, &["README.md"]);
    assert_eq!(none, None);
    assert_eq!(asked.len(), 12);
}

// --- the scan of a directory ---

fn found(root: &str, path: &str, size: u64) -> Found<String> {
    let place = path[root.len() + 1..].split('/').map(|name| name.as_bytes().to_vec()).collect();
    Found { dir: path.to_string(), place, size }
}

fn scan(dir: &[&str], dirs: &[(&str, &str, u64)]) -> (Option<Project<String>>, Vec<(&'static str, DepSearch)>) {
    let rules = lang_rules();
    let mut scan: DirScan<String> = DirScan::new(&rules);
    let mut looked = Vec::new();
    loop {
        match scan.next() {
            ScanAction::AskMarker(marker) => scan.answer(has(dir, marker)),
            ScanAction::Look { name, search } => {
                looked.push((name, search));
                let found = dirs.iter().filter(|d| d.0 == name).map(|d| found("p", d.1, d.2)).collect();
                scan.looked(found);
            }
            ScanAction::Finish => break,
        }
    }
    (scan.finish("~/p".to_string()), looked)
}

#[test]
fn a_scan_collects_the_directories_of_its_rule() {
    let (project, looked) = scan(
        &["requirements.txt"],
        &[
            ("__pycache__", "p/__pycache__", 5),
            ("__pycache__", "p/a/__pycache__", 0),
            ("__pycache__", "p/b/__pycache__", 7),
            ("venv", "p/venv", 100),
            ("target", "p/target", 1000),
        ],
    );
    assert_eq!(looked, vec![
        ("venv", DepSearch::Direct),
        (".venv", DepSearch::Direct),
        ("__pycache__", DepSearch::Nested),
    ]);
    let project = project.unwrap();
    assert_eq!(project.display_name, "~/p");
    assert_eq!(project.lang, "Python");
    assert_eq!(project.lang_color, Color::Yellow);
    assert_eq!(project.size, 112);
    assert!(!project.selected);
    match project.target {
        CleanTarget::Directories(dirs) => assert_eq!(dirs, vec!["p/venv", "p/__pycache__", "p/b/__pycache__"]),
        CleanTarget::DockerImage { .. } => panic!("no image"),
    }
}

#[test]
fn only_the_first_rule_counts_even_without_directories() {
    // The Rust rule matches, so the directory of the Node.js rule is not looked for.
    let (project, looked) = scan(&["Cargo.toml", "package.json"], &[("node_modules", "p/node_modules", 50)]);
    assert!(project.is_none());
    assert_eq!(looked, vec![("target", DepSearch::Direct)]);
    let (project, looked) = scan(&[], &[("target", "p/target", 50)]);
    assert!(project.is_none());
    assert!(looked.is_empty());
}

#[test]
fn empty_directories_make_no_entry() {
    let rules = lang_rules();
    let none: Option<Project<String>> = collect_project(&rules[0], "x".to_string(), vec![found("x", "x/t", 0)]);
    assert!(none.is_none());
    let some: Option<Project<String>> =
        collect_project(&rules[4], "x".to_string(), vec![found("x", "x/v", u64::MAX), found("x", "x/w", 0)]);
    let some = some.unwrap();
    assert_eq!(some.size, u64::MAX);
    assert_eq!(some.lang, "Go");
    assert!(matches!(some.target, CleanTarget::Directories(dirs) if dirs == vec!["x/v".to_string()]));
}

fn dirs_of(project: &Project<String>) -> Vec<&str> {
    match &project.target {
        CleanTarget::Directories(dirs) => dirs.iter().map(|d| d.as_str()).collect(),
        CleanTarget::DockerImage { .. } => panic!("no image"),
    }
}

#[test]
fn no_file_is_counted_twice() {
    // setup.py and venv/__pycache__/m.pyc of 7 bytes: both directories are deleted, but the file
    // is counted with the environment only.
    let (project, _) = scan(&["setup.py"], &[("venv", "p/venv", 7), ("__pycache__", "p/venv/__pycache__", 7)]);
    let project = project.unwrap();
    assert_eq!(project.lang, "Python");
    assert_eq!(project.size, 7);
    assert_eq!(dirs_of(&project), vec!["p/venv", "p/venv/__pycache__"]);
    // A cache in a cache, and caches beside them.
    let (project, _) = scan(
        &["setup.py"],
        &[
            ("venv", "p/venv", 0),
            (".venv", "p/.venv", 40),
            ("__pycache__", "p/__pycache__", 5),
            ("__pycache__", "p/__pycache__/x/__pycache__", 2),
            ("__pycache__", "p/.venv/a/__pycache__", 30),
            ("__pycache__", "p/.venv2/__pycache__", 3),
            ("__pycache__", "p/a/__pycache__", 1),
        ],
    );
    let project = project.unwrap();
    assert_eq!(project.size, 49);
    assert_eq!(dirs_of(&project), vec![
        "p/.venv",
        "p/__pycache__",
        "p/__pycache__/x/__pycache__",
        "p/.venv/a/__pycache__",
        "p/.venv2/__pycache__",
        "p/a/__pycache__",
    ]);
}

#[test]
fn the_outer_directory_counts_in_any_order() {
    let rules = lang_rules();
    let given = vec![
        found("x", "x/a/b/c", 1),
        found("x", "x/a/b", 3),
        found("x", "x/a/b", 3),
        found("x", "x/a", 0),
        found("x", "x/ab", 4),
    ];
    let project = collect_project(&rules[0], "x".to_string(), given).unwrap();
    assert_eq!(project.size, 7);
    assert_eq!(dirs_of(&project), vec!["x/a/b/c", "x/a/b", "x/a/b", "x/ab"]);
}

#[test]
fn only_directories_of_the_name_are_searched() {
    assert!(is_searched(true, Some("__pycache__"), "__pycache__"));
    assert!(!is_searched(false, Some("__pycache__"), "__pycache__"));
    assert!(!is_searched(true, Some("__pycache__2"), "__pycache__"));
    assert!(!is_searched(true, None, "__pycache__"));
}

#[test]
fn only_caches_are_searched_below() {
    assert_eq!(dep_search("__pycache__"), DepSearch::Nested);
    assert_eq!(dep_search("venv"), DepSearch::Direct);
}

#[test]
fn the_home_directory_is_written_short() {
    assert_eq!(short_path(Some("/home/ann/work/x"), "/home/ann"), "~/work/x");
    assert_eq!(short_path(Some("/home/ann"), "/home/ann"), "~");
    assert_eq!(short_path(Some("/srv/x"), "/home/ann"), "/srv/x");
    assert_eq!(short_path(Some("/h/h/x"), "/h"), "~~/x");
    assert_eq!(short_path(None, "/home/ann"), "");
    for (path, home) in [("/a", ""), ("", ""), ("aaa", "aa"), ("aXbX", "X"), ("\u{e9}a\u{e9}", "\u{e9}")] {
        assert_eq!(short_path(Some(path), home), path.replace(home, "~"));
    }
}
