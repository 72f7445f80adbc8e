//! The scoped path join and the strict archive-entry join.

use cotton::kmap::KeyMap;
use cotton::paths::{checked_entry_join, install_target_path, scoped_join, PathError};
use cotton::store::plan_extraction;

fn no_links() -> KeyMap<String> {
    KeyMap { entries: vec![] }
}

fn links(entries: Vec<(&str, &str)>) -> KeyMap<String> {
    KeyMap {
        entries: entries.into_iter().map(|(k, v)| (k.to_string(), v.to_string())).collect(),
    }
}

#[test]
fn scoped_join_never_escapes_the_root() {
    // parent steps at the root are no-ops, so the remainder lands
    // under the root rather than outside it
    let joined = scoped_join("/root", "../../etc/passwd", &no_links()).expect("joins");
    assert_eq!(joined, "/root/etc/passwd");
    assert!(joined.starts_with("/root/"));

    let clamped = scoped_join("/root", "sub/../../out", &no_links()).expect("joins");
    assert_eq!(clamped, "/root/out");

    let plain = scoped_join("/root", "a/b/c", &no_links()).expect("joins");
    assert_eq!(plain, "/root/a/b/c");

    let dots = scoped_join("/root", "./a/./b", &no_links()).expect("joins");
    assert_eq!(dots, "/root/a/b");

    let empty = scoped_join("/root", "", &no_links()).expect("joins");
    assert_eq!(empty, "/root");
}

#[test]
fn scoped_join_expands_links_inside_the_root() {
    // a relative link splices its target into the walk
    let rel = links(vec![("/root/a", "b/c")]);
    assert_eq!(scoped_join("/root", "a/x", &rel).expect("joins"), "/root/b/c/x");

    // an absolute link target is rebased onto the root, as if the
    // root were the filesystem root
    let abs = links(vec![("/root/a", "/elsewhere")]);
    assert_eq!(scoped_join("/root", "a/x", &abs).expect("joins"), "/root/elsewhere/x");
}

#[test]
fn scoped_join_caps_link_expansion() {
    // a self-referential link can never settle; the walk stops at the
    // expansion budget instead of spinning forever
    let looped = links(vec![("/root/a", "a")]);
    let err = scoped_join("/root", "a", &looped).expect_err("a link loop must fail");
    assert!(matches!(err, PathError::TooManySymlinks));
    assert_eq!(err.message(), "Too many levels of symlinks");
}

#[test]
fn entry_join_rejects_escapes() {
    let err = checked_entry_join("/store/pkg@1.0.0", "../../../etc/evil")
        .expect_err("an escaping entry is rejected");
    assert!(matches!(err, PathError::PathEscape { .. }));
    assert_eq!(err.message(), "Path escapes its root: ../../../etc/evil");

    let ok = checked_entry_join("/store/pkg@1.0.0", "package/index.js").expect("joins");
    assert_eq!(ok, "/store/pkg@1.0.0/package/index.js");

    // an interior parent step that stays under the root is fine
    let inner = checked_entry_join("/store/pkg@1.0.0", "package/sub/../index.js").expect("joins");
    assert_eq!(inner, "/store/pkg@1.0.0/package/index.js");
}

#[test]
fn extraction_fails_wholesale_on_a_malicious_entry() {
    let entries = vec!["package/package.json".to_string(), "../../../etc/evil".to_string()];
    let err = plan_extraction("/store/pkg@1.0.0", &entries).expect_err("rejected");
    assert!(matches!(err, PathError::PathEscape { .. }));

    let good = vec!["package/package.json".to_string(), "package/lib/index.js".to_string()];
    let paths = plan_extraction("/store/pkg@1.0.0", &good).expect("extracts");
    assert_eq!(paths.len(), 2);
    assert!(paths.iter().all(|p| p.starts_with("/store/pkg@1.0.0/")));
}

#[test]
fn nested_install_paths() {
    let top = install_target_path(&vec![], "left-pad");
    assert_eq!(top, "left-pad");
    let nested = install_target_path(&vec!["a".to_string(), "b".to_string()], "c");
    assert_eq!(nested, "a/node_modules/b/node_modules/c");

    // the nested path is then scoped under node_modules
    let target = scoped_join("node_modules", &nested, &no_links()).expect("joins");
    assert_eq!(target, "node_modules/a/node_modules/b/node_modules/c");
}
