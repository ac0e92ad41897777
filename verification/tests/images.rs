use depclean::docker::can_name_images;
use depclean::docker::can_shorten;
use depclean::docker::docker_display;
use depclean::docker::scan_docker_images;
use depclean::docker::shorten;
use depclean::project::CleanTarget;
use depclean::project::Color;
use depclean::project::Project;

// --- Docker display name logic ---

#[test]
fn docker_display_dangling_image() {
    let repo = "<none>";
    let tag = "<none>";
    let id = "abc123def456";
    let display = docker_display(repo, tag, id);
    assert_eq!(display, "<dangling> abc123def456");
    assert_eq!(display, format!("<dangling> {}", &id[..12.min(id.len())]));
}

#[test]
fn docker_display_no_tag() {
    let repo = "myimage";
    let tag = "<none>";
    let id = "abc123def456";
    let display = docker_display(repo, tag, id);
    assert_eq!(display, "myimage");
    assert_ne!(display, format!("<dangling> {}", &id[..12.min(id.len())]));
    assert_ne!(display, format!("{}:{}", repo, tag));
}

#[test]
fn docker_display_with_tag() {
    let repo = "nginx";
    let tag = "latest";
    let id = "abc123def456";
    let display = docker_display(repo, tag, id);
    assert_eq!(display, "nginx:latest");
    assert_eq!(display, format!("{}:{}", repo, tag));
    assert_ne!(tag, "<none>");
    assert_ne!(display, format!("<dangling> {}", &id[..12.min(id.len())]));
}

#[test]
fn dangling_images_show_the_start_of_their_identifier() {
    assert_eq!(docker_display("<none>", "<none>", "abc123def4567890"), "<dangling> abc123def456");
    assert_eq!(docker_display("<none>", "<none>", "abc"), "<dangling> abc");
    assert_eq!(docker_display("<none>", "<none>", ""), "<dangling> ");
    assert_eq!(docker_display("<none>", "v1", "abc"), "<none>:v1");
    // Six characters of two bytes each are the start.
    assert_eq!(docker_display("<none>", "<none>", "\u{e9}\u{e9}\u{e9}\u{e9}\u{e9}\u{e9}x"), "<dangling> \u{e9}\u{e9}\u{e9}\u{e9}\u{e9}\u{e9}");
}

#[test]
fn identifiers_are_shortened_to_twelve_bytes() {
    let id = "sha256:0123456789abcdef0123\n";
    assert!(can_shorten(id));
    assert_eq!(shorten(id), Some("0123456789ab".to_string()));
    assert_eq!(shorten("0123456789abcdef"), Some("0123456789ab".to_string()));
    assert_eq!(shorten(" 0123456789ab "), Some("0123456789ab".to_string()));
    assert_eq!(shorten("0123456789a"), None);
    assert_eq!(shorten(""), None);
    // Too short behind the name of the digest, or no character ends there.
    assert!(!can_shorten("sha256:0123456789a"));
    assert!(can_shorten("sha256:0123456789ab"));
    assert!(!can_shorten("0123456789a\u{e9}"));
    assert!(can_shorten("0123456789\u{e9}"));
    assert!(can_shorten("short"));
}

fn texts(list: &[&str]) -> Vec<String> {
    list.iter().map(|s| s.to_string()).collect()
}

fn images(output: &str, names: &[&str], ids: &[&str]) -> Vec<Project<u8>> {
    let names = texts(names);
    let ids = texts(ids);
    assert!(can_name_images(output, &names, &ids));
    scan_docker_images(output, &names, &ids)
}

#[test]
fn unused_images_are_listed_with_their_sizes() {
    let output = "aaa\tnginx\tlatest\t1.5GB\r\n\
                  bbb\t<none>\t<none>\t12MB\n\
                  ccc\ttool\t<none>\t45.3kB\n\
                  bad\tline\twithout size\n\
                  ddd\tweb\tv2\tunknown\textra";
    let found = images(output, &[], &[]);
    let listed: Vec<(&str, u64)> = found.iter().map(|p| (p.display_name.as_str(), p.size)).collect();
    assert_eq!(listed, vec![
        ("nginx:latest", 1610612736),
        ("<dangling> bbb", 12582912),
        ("tool", 46387),
        ("web:v2", 0),
    ]);
    for p in &found {
        assert_eq!(p.lang, "Docker");
        assert_eq!(p.lang_color, Color::LightBlue);
        assert!(!p.selected);
    }
    assert!(matches!(&found[1].target, CleanTarget::DockerImage { id } if id == "bbb"));
}

#[test]
fn images_in_use_are_left_out() {
    let output = " aaa \t nginx \t latest \t1B\nbbb\tweb\tv1\t1B\nccc\ttool\tx\t1B\nddd\tfree\tx\t1B\n";
    let names = |list: &[&str], ids: &[&str]| -> Vec<String> {
        images(output, list, ids).into_iter().map(|p| p.display_name).collect()
    };
    assert_eq!(names(&[], &[]), vec!["nginx:latest", "web:v1", "tool:x", "free:x"]);
    assert_eq!(names(&[], &["aaa"]), vec!["web:v1", "tool:x", "free:x"]);
    assert_eq!(names(&["bbb"], &[]), vec!["nginx:latest", "tool:x", "free:x"]);
    assert_eq!(names(&["tool"], &[]), vec!["nginx:latest", "web:v1", "free:x"]);
    assert_eq!(names(&["free:x"], &[]), vec!["nginx:latest", "web:v1", "tool:x"]);
    // Identifiers are compared with identifiers only.
    assert_eq!(names(&[], &["tool", "free:x"]), vec!["nginx:latest", "web:v1", "tool:x", "free:x"]);
    assert_eq!(names(&["nginx", "web:v1"], &["ccc", "ddd"]), Vec::<String>::new());
}

#[test]
fn names_that_cannot_be_cut_are_noticed() {
    let odd = "0123456789a\u{e9}";
    let dangling = format!("{}\t<none>\t<none>\t1B", odd);
    assert!(!can_name_images(&dangling, &vec![], &vec![]));
    assert!(can_name_images(&dangling, &vec![], &vec![odd.to_string()]));
    assert!(can_name_images(&format!("{}\trepo\t<none>\t1B", odd), &vec![], &vec![]));
    assert!(can_name_images("", &vec![], &vec![]));
}
