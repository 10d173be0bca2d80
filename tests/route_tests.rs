use simple_http_server::cli::Opts;
use simple_http_server::routes::{
    browse_finish, browse_start, fs_path, not_found_message, route, route_prefix, static_fetch, Page, Route,
    PREFIX_LEN,
};
use simple_http_server::listing::RawEntry;

const PREFIX: &str = "Ab3dEf6hIj9lMn0pQr2tUv5xYz8bCd";

#[test]
fn favicon_is_an_asset() {
    match route("/favicon.ico", PREFIX) {
        Route::Asset(name) => assert_eq!(name, "favicon.ico"),
        _ => panic!("expected an asset"),
    }
}

#[test]
fn prefixed_path_is_static() {
    match route(&format!("/{}/readme.txt", PREFIX), PREFIX) {
        Route::Static(sub) => assert_eq!(sub, "readme.txt"),
        _ => panic!("expected a static file"),
    }
    match route(&format!("/{}/docs/a%20b.txt", PREFIX), PREFIX) {
        Route::Static(sub) => assert_eq!(sub, "docs/a%20b.txt"),
        _ => panic!("expected a static file"),
    }
    match route(&format!("/{}", PREFIX), PREFIX) {
        Route::Static(sub) => assert_eq!(sub, ""),
        _ => panic!("expected a static file"),
    }
}

#[test]
fn other_paths_browse() {
    match route("/docs", PREFIX) {
        Route::Browse(p) => assert_eq!(p, "/docs"),
        _ => panic!("expected a listing"),
    }
    let longer = format!("/{}x/readme.txt", PREFIX);
    match route(&longer, PREFIX) {
        Route::Browse(p) => assert_eq!(p, longer),
        _ => panic!("expected a listing"),
    }
    match route("/favicon.ico/x", PREFIX) {
        Route::Browse(p) => assert_eq!(p, "/favicon.ico/x"),
        _ => panic!("expected a listing"),
    }
}

#[test]
fn prefix_is_random_alphanumeric() {
    let p = route_prefix();
    assert_eq!(p.chars().count(), PREFIX_LEN);
    assert!(p.chars().all(|c| c.is_ascii_alphanumeric()));
}

#[test]
fn static_text_file_has_text_type() {
    let (path, mime) = static_fetch("readme.txt").unwrap();
    assert_eq!(path, "./readme.txt");
    assert!(mime.starts_with("text/"));
    assert_eq!(mime, "text/plain");
}

#[test]
fn static_unknown_extension_is_octet_stream() {
    let (path, mime) = static_fetch("docs/a%20b.zzzq").unwrap();
    assert_eq!(path, "./docs/a b.zzzq");
    assert_eq!(mime, "application/octet-stream");
}

#[test]
fn static_bad_escape_is_not_found() {
    assert_eq!(static_fetch("missing%zz.txt"), Err("Nothing was found at missing%zz.txt".to_string()));
}

#[test]
fn missing_file_message_names_it() {
    let m = not_found_message("missing.txt");
    assert!(m.contains("missing.txt"));
}

#[test]
fn missing_nested_directory_is_not_found() {
    let decoded = browse_start("/nested/deep").unwrap();
    assert_eq!(fs_path(&decoded), "./nested/deep");
    match browse_finish(&decoded, None) {
        Page::NotFound(m) => assert_eq!(m, "Nothing was found at /nested/deep"),
        Page::Listing(_) => panic!("expected not found"),
    }
}

#[test]
fn undecodable_request_is_not_found() {
    assert_eq!(browse_start("/bad%4"), Err("Nothing was found at /bad%4".to_string()));
}

#[test]
fn end_to_end_root_then_docs() {
    let root = browse_start("/").unwrap();
    assert_eq!(fs_path(&root), "./");
    let children = vec![
        RawEntry { name: "readme.txt".to_string(), is_dir: false },
        RawEntry { name: "docs".to_string(), is_dir: true },
    ];
    match browse_finish(&root, Some(children)) {
        Page::Listing(l) => {
            let dirs: Vec<&str> = l.directories.iter().map(|e| e.name.as_str()).collect();
            let files: Vec<&str> = l.files.iter().map(|e| e.name.as_str()).collect();
            assert_eq!(dirs, vec!["docs"]);
            assert_eq!(files, vec!["readme.txt"]);
        }
        Page::NotFound(_) => panic!("expected a listing"),
    }
    let docs = browse_start("/docs").unwrap();
    match browse_finish(&docs, Some(vec![])) {
        Page::Listing(l) => {
            let dirs: Vec<(&str, &str)> =
                l.directories.iter().map(|e| (e.name.as_str(), e.nav_path.as_str())).collect();
            assert_eq!(dirs, vec![("..", "/")]);
            assert!(l.files.is_empty());
            assert_eq!(l.current_dir, "/docs");
        }
        Page::NotFound(_) => panic!("expected a listing"),
    }
}

#[test]
fn default_address() {
    assert_eq!(Opts::default().address, "0.0.0.0:8888");
}

#[test]
fn icon_content_type() {
    assert_eq!(simple_http_server::routes::content_type("favicon.ico"), "image/x-icon");
}
