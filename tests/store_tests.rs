use hbx::digest::md5;
use hbx::error::StoreError;
use hbx::node::{Entry, EntryKind, Meta, Node};
use hbx::restore::Step;
use hbx::store::{join_path, Store};
use hbx::sync::{filter, get_diff, get_files};

fn file(name: &str, path: &str, content: &str) -> Entry {
    Entry {
        name: name.to_string(),
        path: path.to_string(),
        kind: EntryKind::File(content.as_bytes().to_vec()),
    }
}

fn dir(name: &str, path: &str, children: Vec<Entry>) -> Entry {
    Entry { name: name.to_string(), path: path.to_string(), kind: EntryKind::Directory(children) }
}

fn link(name: &str, path: &str, target: &str) -> Entry {
    Entry {
        name: name.to_string(),
        path: path.to_string(),
        kind: EntryKind::Symlink(target.to_string()),
    }
}

fn strs(v: &[&str]) -> Vec<String> {
    v.iter().map(|s| s.to_string()).collect()
}

fn sorted(mut v: Vec<String>) -> Vec<String> {
    v.sort();
    v
}

fn proj() -> Entry {
    dir(
        "proj",
        "/src/proj",
        vec![
            file("a.txt", "/src/proj/a.txt", "hi"),
            dir("sub", "/src/proj/sub", vec![file("b.txt", "/src/proj/sub/b.txt", "hi")]),
        ],
    )
}

#[test]
fn md5_of_known_inputs() {
    assert_eq!(md5(b""), "d41d8cd98f00b204e9800998ecf8427e");
    assert_eq!(md5(b"hello world"), "5eb63bbbe01eeed093cb22bb8f5acdc3");
    assert_eq!(md5(b"hi"), "49f68a5c8493ec2c0bf489821c21fc3b");
}

#[test]
fn concrete_project_scenario() {
    let h = md5(b"hi");
    let mut store = Store::new("/home/u/.hbx".to_string());
    let links = store.add(&proj(), &Vec::new());
    // both files hold "hi": one blob
    assert_eq!(links.len(), 1);
    assert_eq!(links[0].fingerprint, h);
    assert_eq!(links[0].source, "/src/proj/a.txt");
    let expected = Node {
        name: "proj".to_string(),
        meta: Meta::Directory(vec![
            Node { name: "a.txt".to_string(), meta: Meta::File(h.clone()) },
            Node {
                name: "sub".to_string(),
                meta: Meta::Directory(vec![Node {
                    name: "b.txt".to_string(),
                    meta: Meta::File(h.clone()),
                }]),
            },
        ]),
    };
    assert_eq!(store.items().len(), 1);
    assert_eq!(store.items()[0], expected);

    let steps = store.get("proj").unwrap();
    assert_eq!(
        steps,
        vec![
            Step::CreateDir(strs(&["proj"])),
            Step::LinkBlob(h.clone(), strs(&["proj", "a.txt"])),
            Step::CreateDir(strs(&["proj", "sub"])),
            Step::LinkBlob(h.clone(), strs(&["proj", "sub", "b.txt"])),
        ]
    );

    store.delete("proj");
    assert_eq!(store.items().len(), 0);
    assert_eq!(store.clear(&vec![h.clone()]), vec![h]);
}

#[test]
fn adding_twice_keeps_one_item() {
    let mut store = Store::new("s".to_string());
    let first = store.add(&proj(), &Vec::new());
    let stored: Vec<String> = first.iter().map(|l| l.fingerprint.clone()).collect();
    assert_eq!(store.items().len(), 1);
    let second = store.add(&proj(), &stored);
    assert!(second.is_empty());
    assert_eq!(store.items().len(), 1);
    assert_eq!(store.list(), vec!["proj"]);
}

#[test]
fn identical_content_under_two_names_takes_one_blob() {
    let mut store = Store::new("s".to_string());
    let a = dir("a", "/x/a", vec![file("f", "/x/a/f", "same bytes")]);
    let b = dir("b", "/x/b", vec![file("g", "/x/b/g", "same bytes")]);
    let first = store.add(&a, &Vec::new());
    assert_eq!(first.len(), 1);
    let stored: Vec<String> = first.iter().map(|l| l.fingerprint.clone()).collect();
    let second = store.add(&b, &stored);
    assert!(second.is_empty());
    assert_eq!(store.items().len(), 2);
    assert_eq!(get_files(store.items()), vec![md5(b"same bytes")]);
}

#[test]
fn add_skips_blobs_already_stored() {
    let mut store = Store::new("s".to_string());
    let e = dir("d", "/d", vec![file("x", "/d/x", "one"), file("y", "/d/y", "two")]);
    let links = store.add(&e, &vec![md5(b"one")]);
    assert_eq!(links.len(), 1);
    assert_eq!(links[0].source, "/d/y");
    assert_eq!(links[0].fingerprint, md5(b"two"));
}

#[test]
fn load_into_empty_store_reproduces_items() {
    let mut a = Store::new("a".to_string());
    a.add(&proj(), &Vec::new());
    a.add(&file("notes", "/n", "text"), &Vec::new());
    let saved: Vec<Node> = a.items().iter().map(|n| n.duplicate()).collect();
    let mut b = Store::new("a".to_string());
    b.load(&saved);
    assert_eq!(b.items(), a.items());
}

#[test]
fn load_keeps_items_already_held() {
    let mut a = Store::new("a".to_string());
    a.add(&file("n", "/n", "old"), &Vec::new());
    a.load(&vec![Node { name: "n".to_string(), meta: Meta::File("other".to_string()) }]);
    assert_eq!(a.items().len(), 1);
    assert_eq!(a.items()[0].meta, Meta::File(md5(b"old")));
}

#[test]
fn clear_removes_exactly_unreferenced_blobs() {
    let mut store = Store::new("s".to_string());
    store.add(&file("x", "/x", "keep"), &Vec::new());
    let universe = vec![md5(b"keep"), "orphan".to_string()];
    assert_eq!(store.clear(&universe), vec!["orphan".to_string()]);
}

#[test]
fn delete_then_clear_keeps_shared_blobs() {
    let mut store = Store::new("s".to_string());
    store.add(&dir("x", "/x", vec![file("u", "/x/u", "unique"), file("s", "/x/s", "shared")]), &Vec::new());
    store.add(&dir("y", "/y", vec![file("s", "/y/s", "shared")]), &Vec::new());
    let universe = vec![md5(b"unique"), md5(b"shared")];
    store.delete("x");
    assert_eq!(store.list(), vec!["y"]);
    assert_eq!(store.clear(&universe), vec![md5(b"unique")]);
}

#[test]
fn delete_of_unknown_name_changes_nothing() {
    let mut store = Store::new("s".to_string());
    store.add(&file("x", "/x", "a"), &Vec::new());
    store.delete("nope");
    assert_eq!(store.list(), vec!["x"]);
}

#[test]
fn get_of_unknown_name_fails() {
    let store = Store::new("s".to_string());
    assert_eq!(store.get("missing"), Err(StoreError::UnknownItem));
}

#[test]
fn restore_creates_symlinks_last() {
    let mut store = Store::new("s".to_string());
    let e = dir("t", "/t", vec![link("l", "/t/l", "f"), file("f", "/t/f", "c")]);
    store.add(&e, &Vec::new());
    let steps = store.get("t").unwrap();
    assert_eq!(
        steps,
        vec![
            Step::CreateDir(strs(&["t"])),
            Step::LinkBlob(md5(b"c"), strs(&["t", "f"])),
            Step::Symlink("f".to_string(), strs(&["t", "l"])),
        ]
    );
}

#[test]
fn filter_selects_by_name_or_all() {
    let mut store = Store::new("s".to_string());
    store.add(&file("a", "/a", "1"), &Vec::new());
    store.add(&file("b", "/b", "2"), &Vec::new());
    let picked = filter(&strs(&["b"]), false, store.items()).unwrap();
    assert_eq!(picked.len(), 1);
    assert_eq!(picked[0].name, "b");
    let every = filter(&strs(&["zzz"]), true, store.items()).unwrap();
    assert_eq!(every.len(), 2);
    assert_eq!(filter(&strs(&["a", "zzz"]), false, store.items()), Err(StoreError::UnknownItem));
}

#[test]
fn diff_is_set_difference_of_fingerprints() {
    let mut s = Store::new("s".to_string());
    s.add(&dir("d", "/d", vec![file("x", "/d/x", "1"), file("y", "/d/y", "2")]), &Vec::new());
    let mut t = Store::new("t".to_string());
    t.add(&file("z", "/z", "2"), &Vec::new());
    assert_eq!(get_diff(s.items(), t.items()), vec![md5(b"1")]);
    assert!(get_diff(t.items(), s.items()).is_empty());
}

#[test]
fn pull_then_push_converges() {
    let mut local = Store::new("l".to_string());
    local.add(&file("a", "/a", "from local"), &Vec::new());
    let mut remote = Store::new("r".to_string());
    remote.add(&dir("b", "/b", vec![file("c", "/b/c", "from remote")]), &Vec::new());

    let fetched = local.pull(&remote, &Vec::new(), true).unwrap();
    assert_eq!(fetched, vec![md5(b"from remote")]);
    let sent = local.push(&mut remote, &Vec::new(), true).unwrap();
    assert_eq!(sent, vec![md5(b"from local")]);

    assert_eq!(sorted(local.list().iter().map(|s| s.to_string()).collect()), strs(&["a", "b"]));
    assert_eq!(sorted(remote.list().iter().map(|s| s.to_string()).collect()), strs(&["a", "b"]));

    // once more: nothing moves
    assert!(local.pull(&remote, &Vec::new(), true).unwrap().is_empty());
    assert!(local.push(&mut remote, &Vec::new(), true).unwrap().is_empty());
    assert_eq!(local.items().len(), 2);
    assert_eq!(remote.items().len(), 2);
}

#[test]
fn pull_keeps_local_item_of_same_name() {
    let mut local = Store::new("l".to_string());
    local.add(&file("a", "/a", "mine"), &Vec::new());
    let mut remote = Store::new("r".to_string());
    remote.add(&file("a", "/a", "theirs"), &Vec::new());
    let fetched = local.pull(&remote, &strs(&["a"]), false).unwrap();
    assert_eq!(fetched, vec![md5(b"theirs")]);
    assert_eq!(local.items()[0].meta, Meta::File(md5(b"mine")));
}

#[test]
fn pull_of_unknown_name_fails_and_changes_nothing() {
    let mut local = Store::new("l".to_string());
    let remote = Store::new("r".to_string());
    assert_eq!(local.pull(&remote, &strs(&["x"]), false), Err(StoreError::UnknownItem));
    assert!(local.items().is_empty());
    let mut remote2 = Store::new("r".to_string());
    assert_eq!(local.push(&mut remote2, &strs(&["x"]), false), Err(StoreError::UnknownItem));
}

#[test]
fn node_sample_and_duplicate() {
    let n = Node::sample("tools");
    assert_eq!(n.name, "tools");
    assert_eq!(n.meta, Meta::File(String::new()));
    let mut s = Store::new("s".to_string());
    s.add(&proj(), &Vec::new());
    assert_eq!(s.items()[0].duplicate(), s.items()[0]);
}

#[test]
fn node_new_records_symlinks_unresolved() {
    let n = Node::new(&link("l", "/l", "../elsewhere"));
    assert_eq!(n, Node { name: "l".to_string(), meta: Meta::Symlink("../elsewhere".to_string()) });
}

#[test]
fn paths_inside_store() {
    let s = Store::new("/home/u/.hbx".to_string());
    assert_eq!(s.config_path(), "/home/u/.hbx/config");
    assert_eq!(s.store_dir(), "/home/u/.hbx/store");
    assert_eq!(join_path("/base/", "x"), "/base/x");
    assert_eq!(join_path("", "x"), "x");
    let info = s.info();
    assert_eq!(info[0], ("config".to_string(), "/home/u/.hbx/config".to_string()));
    assert_eq!(info[1], ("storage".to_string(), "/home/u/.hbx/store".to_string()));
}
