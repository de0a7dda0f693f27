use wex::listing::generate_directory_contents;
use wex::paths::{confirm_containment, is_contained_in, relative_string, resolve_request_path, PathError};
use wex::store::{EntryDescriptor, EntryKind};

fn segs(p: &wex::paths::ResolvedPath) -> Vec<String> {
    p.segments().clone()
}

fn strings(v: &[&str]) -> Vec<String> {
    v.iter().map(|s| s.to_string()).collect()
}

#[test]
fn escape_with_parent_segments() {
    let r = resolve_request_path("../../etc/passwd");
    assert_eq!(r.err(), Some(PathError::Escape));
}

#[test]
fn parent_at_root_escapes() {
    assert_eq!(resolve_request_path("..").err(), Some(PathError::Escape));
    assert_eq!(resolve_request_path("a/../..").err(), Some(PathError::Escape));
    assert_eq!(
        resolve_request_path("a/../../b").err(),
        Some(PathError::Escape)
    );
}

#[test]
fn parent_below_root_resolves() {
    let p = resolve_request_path("a/..").unwrap();
    assert!(p.is_root());
}

#[test]
fn structural_resolution_ignores_existence() {
    // "a/b/../c" resolves to a/c whether or not b exists on disk
    let p = resolve_request_path("a/b/../c").unwrap();
    assert_eq!(segs(&p), strings(&["a", "c"]));
}

#[test]
fn empty_path_resolves_to_root() {
    let p = resolve_request_path("").unwrap();
    assert!(p.is_root());
    assert_eq!(segs(&p), Vec::<String>::new());
}

#[test]
fn dot_resolves_to_root() {
    let p = resolve_request_path(".").unwrap();
    assert!(p.is_root());
}

#[test]
fn empty_and_dot_segments_are_ignored() {
    let p = resolve_request_path("a//b/./c/").unwrap();
    assert_eq!(segs(&p), strings(&["a", "b", "c"]));
}

#[test]
fn leading_separator_is_ignored() {
    let p = resolve_request_path("/a/b").unwrap();
    assert_eq!(segs(&p), strings(&["a", "b"]));
}

#[test]
fn resolution_is_idempotent() {
    let p = resolve_request_path("x/y/../z").unwrap();
    let rel = relative_string(&p);
    assert_eq!(rel, "x/z");
    let again = resolve_request_path(&rel).unwrap();
    assert_eq!(segs(&again), segs(&p));
}

#[test]
fn root_relative_string_is_dot() {
    let p = resolve_request_path("").unwrap();
    assert_eq!(relative_string(&p), ".");
    // and "." resolves back to the root itself
    let again = resolve_request_path(&relative_string(&p)).unwrap();
    assert!(again.is_root());
}

#[test]
fn containment_matches_whole_segments() {
    // "base" must not admit "basement"
    let base = strings(&["srv", "base"]);
    let basement = strings(&["srv", "basement"]);
    assert!(!is_contained_in(&base, &basement));

    let below = strings(&["srv", "base", "x"]);
    assert!(is_contained_in(&base, &below));
    assert!(is_contained_in(&base, &base));
    assert!(!is_contained_in(&below, &base));

    // the root is a prefix of everything
    let root: Vec<String> = Vec::new();
    assert!(is_contained_in(&root, &basement));
}

#[test]
fn unicode_segments_survive_resolution() {
    let p = resolve_request_path("döcs/ünïcode.txt").unwrap();
    assert_eq!(segs(&p), strings(&["döcs", "ünïcode.txt"]));
}

#[test]
fn containment_confirmation_is_typed() {
    let base = strings(&["srv", "base"]);
    let inside = strings(&["srv", "base", "f"]);
    let outside = strings(&["srv", "basement", "f"]);
    assert!(confirm_containment(&base, &inside).is_ok());
    assert_eq!(
        confirm_containment(&base, &outside).err(),
        Some(PathError::Escape)
    );
}

#[test]
fn listing_fragments_are_exact() {
    let p = resolve_request_path("docs/reports").unwrap();
    let entries = vec![
        EntryDescriptor {
            name: "2024".to_string(),
            kind: EntryKind::Directory,
        },
        EntryDescriptor {
            name: "readme.txt".to_string(),
            kind: EntryKind::File,
        },
    ];
    let (nav, contents) = generate_directory_contents(&p, &entries);
    assert_eq!(
        nav,
        "<a href=\"/\">Home</a> /  <a href=\"/docs\">docs</a> /  <a href=\"/docs/reports\">reports</a> / "
    );
    assert!(contents.contains("<a href=\"/docs/reports/..\">../</a>"));
    assert!(contents.contains(
        "<li><span class=\"icon folder-icon\"></span><a href=\"/docs/reports/2024\">2024</a></li>"
    ));
    assert!(contents.contains(
        "<li><span class=\"icon file-icon\"></span><a href=\"/docs/reports/readme.txt\">readme.txt</a></li>"
    ));
}

#[test]
fn root_listing_has_home_link_only() {
    let p = resolve_request_path("").unwrap();
    let entries = vec![EntryDescriptor {
        name: "f".to_string(),
        kind: EntryKind::File,
    }];
    let (nav, contents) = generate_directory_contents(&p, &entries);
    assert_eq!(nav, "<a href=\"/\">Home</a> / ");
    assert!(!contents.contains("up-directory"));
    assert!(contents.contains("upload-item"));
    assert!(contents.contains("<a href=\"/./f\">f</a>"));
}
