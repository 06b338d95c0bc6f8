use davserve::headers::{depth_from_header, parse_u32, Depth};
use davserve::path::{is_valid_path, parent_from_path, path_from_uri, split_components, DavPath};
use davserve::tree::{copy_plan, delete_plan, move_plan, Entry, FsOp, TreeScan};
use davserve::verbs::{
    body_fits, decide, finish, resolve_request, store_status, verb_from_method, Action, Decision,
    Probe, Status, Verb, MAX_FILE_SIZE,
};

fn text(p: &DavPath) -> String {
    let mut s = String::new();
    for c in &p.comps {
        s.push('/');
        s.push_str(c);
    }
    s
}

fn root() -> DavPath {
    DavPath::parse("/srv/dav")
}

fn op_text(op: &FsOp) -> String {
    match op {
        FsOp::MakeDir(p) => format!("mkdir {}", text(p)),
        FsOp::CopyFile(s, d) => format!("copy {} {}", text(s), text(d)),
        FsOp::RemoveFile(p) => format!("rm {}", text(p)),
        FsOp::RemoveDir(p) => format!("rmdir {}", text(p)),
    }
}

fn ops_text(ops: &[FsOp]) -> Vec<String> {
    ops.iter().map(op_text).collect()
}

const ABSENT: Probe = Probe { exists: false, is_dir: false };
const FILE: Probe = Probe { exists: true, is_dir: false };
const DIR: Probe = Probe { exists: true, is_dir: true };

fn entry(rel: &[&str], is_dir: bool) -> Entry {
    Entry { rel: rel.iter().map(|s| s.to_string()).collect(), is_dir }
}

#[test]
fn split_drops_empty_components() {
    assert_eq!(split_components("//a//b/"), vec!["a".to_string(), "b".to_string()]);
    assert!(split_components("/").is_empty());
    assert!(split_components("").is_empty());
}

#[test]
fn traversal_is_rejected() {
    let r = root();
    assert!(path_from_uri(&r, "/../etc/passwd").is_none());
    assert!(path_from_uri(&r, "/a/../../b").is_none());
    assert!(path_from_uri(&r, "/./x").is_none());
    assert!(path_from_uri(&r, "/a/.").is_none());
}

#[test]
fn valid_paths_resolve_under_root() {
    let r = root();
    let p = path_from_uri(&r, "/a/b.txt").unwrap();
    assert_eq!(text(&p), "/srv/dav/a/b.txt");
    let q = path_from_uri(&r, "a/dir/").unwrap();
    assert_eq!(text(&q), "/srv/dav/a/dir");
    let top = path_from_uri(&r, "/").unwrap();
    assert_eq!(text(&top), "/srv/dav");
    assert!(path_from_uri(&r, "/a..b").is_some());
}

#[test]
fn resolving_twice_gives_the_same_path() {
    let r = root();
    let a = path_from_uri(&r, "/x/y/z/").unwrap();
    let b = path_from_uri(&r, "/x/y/z/").unwrap();
    assert_eq!(a.comps, b.comps);
    let again = path_from_uri(&r, &text(&a)["/srv/dav".len()..]).unwrap();
    assert_eq!(again.comps, a.comps);
}

#[test]
fn validity_needs_root_prefix() {
    let r = root();
    assert!(is_valid_path(&r, &DavPath::parse("/srv/dav/a")));
    assert!(is_valid_path(&r, &DavPath::parse("/srv/dav")));
    assert!(!is_valid_path(&r, &DavPath::parse("/srv")));
    assert!(!is_valid_path(&r, &DavPath::parse("/srv/other/a")));
    assert!(!is_valid_path(&r, &DavPath::parse("/srv/dav/../a")));
}

#[test]
fn parent_must_stay_sandboxed() {
    let r = root();
    let p = parent_from_path(&r, &DavPath::parse("/srv/dav/a/b")).unwrap();
    assert_eq!(text(&p), "/srv/dav/a");
    assert!(parent_from_path(&r, &DavPath::parse("/srv/dav")).is_none());
    assert!(parent_from_path(&r, &DavPath::parse("/")).is_none());
}

#[test]
fn numbers_parse() {
    assert_eq!(parse_u32("0"), Some(0));
    assert_eq!(parse_u32("12"), Some(12));
    assert_eq!(parse_u32("+7"), Some(7));
    assert_eq!(parse_u32("4294967295"), Some(4294967295));
    assert_eq!(parse_u32("4294967296"), None);
    assert_eq!(parse_u32(""), None);
    assert_eq!(parse_u32("+"), None);
    assert_eq!(parse_u32("1a"), None);
    assert_eq!(parse_u32("-1"), None);
}

#[test]
fn depth_header_values() {
    assert_eq!(depth_from_header(None), Depth::Infinite);
    assert_eq!(depth_from_header(Some("infinity")), Depth::Infinite);
    assert_eq!(depth_from_header(Some("0")), Depth::Levels(0));
    assert_eq!(depth_from_header(Some("1")), Depth::Levels(1));
    assert_eq!(depth_from_header(Some("abc")), Depth::Infinite);
}

#[test]
fn methods_route_case_sensitively() {
    assert_eq!(verb_from_method("PUT"), Verb::Put);
    assert_eq!(verb_from_method("DELETE"), Verb::Delete);
    assert_eq!(verb_from_method("MKCOL"), Verb::MakeCollection);
    assert_eq!(verb_from_method("COPY"), Verb::Copy);
    assert_eq!(verb_from_method("MOVE"), Verb::Move);
    assert_eq!(verb_from_method("mkcol"), Verb::Unsupported);
    assert_eq!(verb_from_method("GET"), Verb::Unsupported);
    assert_eq!(verb_from_method("PROPFIND"), Verb::Unsupported);
}

#[test]
fn status_codes() {
    assert_eq!(Status::Success.code(), 200);
    assert_eq!(Status::NoContent.code(), 204);
    assert_eq!(Status::NotFound.code(), 404);
    assert_eq!(Status::MethodNotAllowed.code(), 405);
    assert_eq!(Status::Conflict.code(), 409);
}

fn respond(d: Decision) -> Option<Status> {
    match d {
        Decision::Respond(s) => Some(s),
        Decision::Perform(_) => None,
    }
}

#[test]
fn store_refusals() {
    let r = root();
    let req = resolve_request(&r, "PUT", "/a/b.txt", None, None);
    assert_eq!(respond(decide(req, ABSENT, ABSENT, true)), Some(Status::Conflict));
    let req = resolve_request(&r, "PUT", "/a", None, None);
    assert_eq!(respond(decide(req, DIR, DIR, true)), Some(Status::MethodNotAllowed));
    let req = resolve_request(&r, "PUT", "/../x", None, None);
    assert_eq!(respond(decide(req, ABSENT, DIR, true)), Some(Status::NotFound));
}

#[test]
fn make_collection_refusals() {
    let r = root();
    let req = resolve_request(&r, "MKCOL", "/a", None, None);
    assert_eq!(respond(decide(req, DIR, DIR, true)), Some(Status::Conflict));
    let req = resolve_request(&r, "MKCOL", "/a/b", None, None);
    assert_eq!(respond(decide(req, ABSENT, ABSENT, true)), Some(Status::Conflict));
    let req = resolve_request(&r, "MKCOL", "/a", None, None);
    assert_eq!(respond(decide(req, ABSENT, DIR, false)), Some(Status::NotFound));
    // The root's parent lies outside the sandbox.
    let req = resolve_request(&r, "MKCOL", "/", None, None);
    assert_eq!(respond(decide(req, DIR, DIR, true)), Some(Status::NotFound));
}

#[test]
fn delete_copy_move_need_existing_source() {
    let r = root();
    let req = resolve_request(&r, "DELETE", "/gone", None, None);
    assert_eq!(respond(decide(req, ABSENT, DIR, true)), Some(Status::NotFound));
    let req = resolve_request(&r, "COPY", "/a", None, None);
    assert_eq!(respond(decide(req, DIR, DIR, true)), Some(Status::NotFound));
    let req = resolve_request(&r, "COPY", "/a", Some("/../c"), None);
    assert_eq!(respond(decide(req, DIR, DIR, true)), Some(Status::NotFound));
    let req = resolve_request(&r, "MOVE", "/a", Some("/c"), None);
    assert_eq!(respond(decide(req, ABSENT, DIR, true)), Some(Status::NotFound));
    let req = resolve_request(&r, "LOCK", "/a", None, None);
    assert_eq!(respond(decide(req, FILE, DIR, true)), Some(Status::NotFound));
}

#[test]
fn store_body_limit() {
    assert!(body_fits(MAX_FILE_SIZE));
    assert!(!body_fits(MAX_FILE_SIZE + 1));
    assert_eq!(store_status(10, true), Status::Success);
    assert_eq!(store_status(MAX_FILE_SIZE + 1, true), Status::NotFound);
    assert_eq!(store_status(10, false), Status::NotFound);
}

#[test]
fn finish_statuses() {
    let p = DavPath::parse("/srv/dav/a");
    assert_eq!(finish(&Action::Store(p.duplicate()), true), Status::Success);
    assert_eq!(finish(&Action::MakeCollection(p.duplicate()), true), Status::Success);
    assert_eq!(finish(&Action::Delete(p.duplicate()), true), Status::NoContent);
    assert_eq!(finish(&Action::Move(p.duplicate(), p.duplicate()), true), Status::NoContent);
    assert_eq!(finish(&Action::Delete(p.duplicate()), false), Status::NotFound);
}

fn scan_of(listings: &[(&[&str], Vec<(&str, bool)>)]) -> Vec<Entry> {
    let mut scan = TreeScan::new(true);
    while let Some(rel) = scan.next_dir() {
        let children = listings
            .iter()
            .find(|(dir, _)| dir.iter().map(|s| s.to_string()).collect::<Vec<_>>() == rel)
            .map(|(_, kids)| kids.iter().map(|(n, d)| (n.to_string(), *d)).collect())
            .unwrap_or_default();
        scan.add_listing(&children);
    }
    scan.entries
}

#[test]
fn scan_is_breadth_first() {
    let es = scan_of(&[
        (&[], vec![("d", true), ("f", false)]),
        (&["d"], vec![("e", true)]),
        (&["d", "e"], vec![("g", false)]),
    ]);
    let rels: Vec<String> = es.iter().map(|e| e.rel.join("/")).collect();
    assert_eq!(rels, vec!["", "d", "f", "d/e", "d/e/g"]);
    assert!(es[1].is_dir && !es[2].is_dir);
}

#[test]
fn delete_plan_empties_directories_first() {
    let es = scan_of(&[(&[], vec![("d", true), ("f", false)]), (&["d"], vec![("g", false)])]);
    let base = DavPath::parse("/srv/dav/a");
    let plan = delete_plan(&base, &es);
    assert_eq!(
        ops_text(&plan),
        vec![
            "rm /srv/dav/a/d/g",
            "rm /srv/dav/a/f",
            "rmdir /srv/dav/a/d",
            "rmdir /srv/dav/a",
        ]
    );
}

#[test]
fn copy_depth_zero_makes_empty_collection() {
    let es = scan_of(&[(&[], vec![("child.txt", false)])]);
    let plan = copy_plan(&DavPath::parse("/srv/dav/a"), &DavPath::parse("/srv/dav/c"), &es, Depth::Levels(0));
    assert_eq!(ops_text(&plan), vec!["mkdir /srv/dav/c"]);
}

#[test]
fn copy_depth_counts_levels_below_top() {
    let es = scan_of(&[(&[], vec![("d", true), ("f", false)]), (&["d"], vec![("g", false)])]);
    let src = DavPath::parse("/s");
    let dest = DavPath::parse("/t");
    let one = copy_plan(&src, &dest, &es, Depth::Levels(1));
    assert_eq!(ops_text(&one), vec!["mkdir /t", "mkdir /t/d", "copy /s/f /t/f"]);
    let all = copy_plan(&src, &dest, &es, Depth::Infinite);
    assert_eq!(
        ops_text(&all),
        vec!["mkdir /t", "mkdir /t/d", "copy /s/f /t/f", "copy /s/d/g /t/d/g"]
    );
}

#[test]
fn copy_of_a_file() {
    let mut scan = TreeScan::new(false);
    assert!(scan.next_dir().is_none());
    let plan = copy_plan(&DavPath::parse("/s/x"), &DavPath::parse("/t/y"), &scan.entries, Depth::Levels(0));
    assert_eq!(ops_text(&plan), vec!["copy /s/x /t/y"]);
}

#[test]
fn move_is_copy_then_delete() {
    let es = scan_of(&[(&[], vec![("f", false)])]);
    let plan = move_plan(&DavPath::parse("/s"), &DavPath::parse("/t"), &es);
    assert_eq!(ops_text(&plan), vec!["mkdir /t", "copy /s/f /t/f", "rm /s/f", "rmdir /s"]);
}

#[test]
fn put_mkcol_delete_copy_sequence() {
    let r = root();
    // PUT with the parent missing.
    let req = resolve_request(&r, "PUT", "/a/b.txt", None, None);
    assert_eq!(respond(decide(req, ABSENT, ABSENT, true)), Some(Status::Conflict));
    // MKCOL /a.
    let req = resolve_request(&r, "MKCOL", "/a", None, None);
    match decide(req, ABSENT, DIR, true) {
        Decision::Perform(Action::MakeCollection(p)) => assert_eq!(text(&p), "/srv/dav/a"),
        _ => panic!("expected a collection to be made"),
    }
    // PUT again, now that the parent exists.
    let req = resolve_request(&r, "PUT", "/a/b.txt", None, None);
    match decide(req, ABSENT, DIR, true) {
        Decision::Perform(a) => {
            match &a {
                Action::Store(p) => assert_eq!(text(p), "/srv/dav/a/b.txt"),
                _ => panic!("expected a store"),
            }
            assert_eq!(finish(&a, true).code(), 200);
        }
        _ => panic!("expected a store"),
    }
    // DELETE /a.
    let req = resolve_request(&r, "DELETE", "/a", None, None);
    match decide(req, DIR, DIR, true) {
        Decision::Perform(a) => {
            match &a {
                Action::Delete(p) => assert_eq!(text(p), "/srv/dav/a"),
                _ => panic!("expected a delete"),
            }
            assert_eq!(finish(&a, true), Status::NoContent);
        }
        _ => panic!("expected a delete"),
    }
    // COPY /a to /c at depth 0.
    let req = resolve_request(&r, "COPY", "/a", Some("/c"), Some("0"));
    match decide(req, DIR, DIR, true) {
        Decision::Perform(Action::Copy(s, d, depth)) => {
            assert_eq!(depth, Depth::Levels(0));
            let es = scan_of(&[(&[], vec![("child.txt", false)])]);
            let plan = copy_plan(&s, &d, &es, depth);
            assert_eq!(ops_text(&plan), vec!["mkdir /srv/dav/c"]);
        }
        _ => panic!("expected a copy"),
    }
}

#[test]
fn move_ignores_depth_header() {
    let r = root();
    let req = resolve_request(&r, "MOVE", "/a", Some("/b/"), Some("0"));
    match decide(req, DIR, DIR, true) {
        Decision::Perform(Action::Move(s, d)) => {
            assert_eq!(text(&s), "/srv/dav/a");
            assert_eq!(text(&d), "/srv/dav/b");
        }
        _ => panic!("expected a move"),
    }
}

#[test]
fn entry_helper_builds_relative_paths() {
    let e = entry(&["x", "y"], false);
    let es = vec![entry(&[], true), e];
    let plan = delete_plan(&DavPath::parse("/b"), &es);
    assert_eq!(ops_text(&plan), vec!["rm /b/x/y", "rmdir /b"]);
}

#[test]
fn scan_lists_parents_before_children() {
    let es = scan_of(&[
        (&[], vec![("a", true), ("b", true)]),
        (&["a"], vec![("x", false), ("y", true)]),
        (&["b"], vec![("z", false)]),
        (&["a", "y"], vec![]),
    ]);
    for (k, e) in es.iter().enumerate().skip(1) {
        let parent = &e.rel[..e.rel.len() - 1];
        assert!(es[..k].iter().any(|p| p.is_dir && p.rel.as_slice() == parent));
    }
    assert_eq!(es.len(), 6);
}

#[test]
fn root_is_never_deleted_or_moved() {
    let r = root();
    let req = resolve_request(&r, "DELETE", "/", None, None);
    assert_eq!(respond(decide(req, DIR, ABSENT, true)), Some(Status::NotFound));
    let req = resolve_request(&r, "DELETE", "", None, None);
    assert_eq!(respond(decide(req, DIR, ABSENT, true)), Some(Status::NotFound));
    let req = resolve_request(&r, "MOVE", "/", Some("/c"), None);
    assert_eq!(respond(decide(req, DIR, ABSENT, true)), Some(Status::NotFound));
}

#[test]
fn nothing_is_copied_or_moved_onto_root() {
    let r = root();
    let req = resolve_request(&r, "COPY", "/a", Some("/"), None);
    assert_eq!(respond(decide(req, DIR, DIR, true)), Some(Status::NotFound));
    let req = resolve_request(&r, "MOVE", "/a", Some("/"), None);
    assert_eq!(respond(decide(req, DIR, DIR, true)), Some(Status::NotFound));
    // A copy of the root to a path below it is still allowed.
    let req = resolve_request(&r, "COPY", "/", Some("/c"), Some("0"));
    assert!(respond(decide(req, DIR, ABSENT, true)).is_none());
}
