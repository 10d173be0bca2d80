use simple_http_server::listing::{assemble, classify_entries, sort_entries, DirEntry, Listing, RawEntry};
use simple_http_server::paths::{child_path_of, parent_of, root};

fn raw(name: &str, is_dir: bool) -> RawEntry {
    RawEntry { name: name.to_string(), is_dir }
}

fn names(entries: &[DirEntry]) -> Vec<String> {
    entries.iter().map(|e| e.name.clone()).collect()
}

fn pairs(entries: &[DirEntry]) -> Vec<(String, String)> {
    entries.iter().map(|e| (e.name.clone(), e.nav_path.clone())).collect()
}

fn list(dir: &str, children: Vec<RawEntry>) -> Listing {
    let (dirs, files) = classify_entries(dir, &children);
    assemble(dir, dirs, files)
}

#[test]
fn mixed_directory_is_split_and_sorted() {
    let l = list("/", vec![raw("b.txt", false), raw("A", true), raw("a.txt", false)]);
    assert_eq!(names(&l.directories), vec!["A".to_string()]);
    assert_eq!(names(&l.files), vec!["a.txt".to_string(), "b.txt".to_string()]);
    assert_eq!(pairs(&l.directories), vec![("A".to_string(), "/A".to_string())]);
    assert_eq!(l.current_dir, "/");
}

#[test]
fn root_has_no_parent_entry() {
    let l = list("/", vec![raw("docs", true), raw("readme.txt", false)]);
    assert_eq!(pairs(&l.directories), vec![("docs".to_string(), "/docs".to_string())]);
    assert_eq!(pairs(&l.files), vec![("readme.txt".to_string(), "/readme.txt".to_string())]);
}

#[test]
fn empty_subdirectory_lists_only_parent() {
    let l = list("/docs", vec![]);
    assert_eq!(pairs(&l.directories), vec![("..".to_string(), "/".to_string())]);
    assert!(l.files.is_empty());
    assert_eq!(l.current_dir, "/docs");
}

#[test]
fn nested_directory_parent_and_children() {
    let l = list("/a/b", vec![raw("c", true), raw("f.txt", false)]);
    assert_eq!(
        pairs(&l.directories),
        vec![("..".to_string(), "/a".to_string()), ("c".to_string(), "/a/b/c".to_string())]
    );
    assert_eq!(pairs(&l.files), vec![("f.txt".to_string(), "/a/b/f.txt".to_string())]);
}

#[test]
fn parent_entry_sorts_by_its_name() {
    let l = list("/x", vec![raw("-dash", true), raw("Zed", true), raw("alpha", true)]);
    assert_eq!(
        names(&l.directories),
        vec!["-dash".to_string(), "..".to_string(), "Zed".to_string(), "alpha".to_string()]
    );
}

#[test]
fn order_is_by_code_point() {
    let l = list("/", vec![raw("é", false), raw("z", false), raw("Z", false), raw("ab", false), raw("a", false)]);
    assert_eq!(
        names(&l.files),
        vec!["Z".to_string(), "a".to_string(), "ab".to_string(), "z".to_string(), "é".to_string()]
    );
}

#[test]
fn listing_does_not_depend_on_read_order() {
    let one = list("/d", vec![raw("b.txt", false), raw("A", true), raw("a.txt", false), raw("C", true)]);
    let two = list("/d", vec![raw("C", true), raw("a.txt", false), raw("A", true), raw("b.txt", false)]);
    assert_eq!(pairs(&one.directories), pairs(&two.directories));
    assert_eq!(pairs(&one.files), pairs(&two.files));
    assert_eq!(one.current_dir, two.current_dir);
}

#[test]
fn sort_keeps_duplicates() {
    let e = |n: &str, p: &str| DirEntry { name: n.to_string(), nav_path: p.to_string() };
    let sorted = sort_entries(vec![e("b", "/2"), e("a", "/9"), e("b", "/1"), e("a", "/9")]);
    assert_eq!(
        pairs(&sorted),
        vec![
            ("a".to_string(), "/9".to_string()),
            ("a".to_string(), "/9".to_string()),
            ("b".to_string(), "/1".to_string()),
            ("b".to_string(), "/2".to_string()),
        ]
    );
}

#[test]
fn parent_paths() {
    assert_eq!(parent_of("/a"), "/");
    assert_eq!(parent_of("/a/b"), "/a");
    assert_eq!(parent_of("/a/b/"), "/a");
    assert_eq!(parent_of("/a//b"), "/a/");
    assert_eq!(parent_of("/"), "/");
    assert_eq!(parent_of(""), "/");
    assert_eq!(root(), "/");
}

#[test]
fn child_paths() {
    assert_eq!(child_path_of("/", "docs"), "/docs");
    assert_eq!(child_path_of("/docs", "x.txt"), "/docs/x.txt");
    assert_eq!(child_path_of("/docs/", "x.txt"), "/docs/x.txt");
}
