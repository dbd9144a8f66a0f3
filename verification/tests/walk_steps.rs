use file_tree::entry::{Entry, EntryData, FileTree};
use file_tree::listing::Listed;
use file_tree::walk::{Found, Progress, Request, Walk};
use std::io;
use std::path::PathBuf;

fn item(name: &str, is_dir: bool, is_symlink: bool, is_file: bool) -> Listed {
    Listed { name: name.as_bytes().to_vec(), is_dir, is_symlink, is_file }
}

fn dir_item(name: &str) -> Listed {
    item(name, true, false, false)
}

fn link_item(name: &str) -> Listed {
    item(name, false, true, false)
}

fn file_item(name: &str) -> Listed {
    item(name, false, false, true)
}

fn other_item(name: &str) -> Listed {
    item(name, false, false, false)
}

fn place(names: &[&str]) -> Vec<Vec<u8>> {
    names.iter().map(|name| name.as_bytes().to_vec()).collect()
}

fn start(path: &str) -> Walk {
    Walk::begin(PathBuf::from(path))
}

fn target(text: &str) -> Found {
    Found::Target(PathBuf::from(text))
}

fn pending(progress: io::Result<Progress>) -> Walk {
    match progress {
        Ok(Progress::Pending(walk)) => walk,
        other => panic!("the traversal should go on, but gave {:?}", other),
    }
}

fn finished(progress: io::Result<Progress>) -> FileTree {
    match progress {
        Ok(Progress::Finished(tree)) => tree,
        other => panic!("the traversal should be over, but gave {:?}", other),
    }
}

fn file(name: &str, size: u64) -> Entry {
    Entry { name: name.as_bytes().to_vec(), size, data: EntryData::File }
}

fn children(entry: &Entry) -> &Vec<Entry> {
    match &entry.data {
        EntryData::Directory(children) => children,
        other => panic!("not a directory: {:?}", other),
    }
}

fn sizes_add_up(entry: &Entry) -> bool {
    match &entry.data {
        EntryData::Directory(children) => {
            entry.size == children.iter().map(|child| child.size).sum::<u64>()
                && children.iter().all(sizes_add_up)
        }
        EntryData::File => true,
        EntryData::Symlink(_) | EntryData::Unknown => entry.size == 0,
    }
}

#[test]
fn the_first_request_lists_the_root() {
    let walk = start("some/dir");
    assert_eq!(walk.request(), Request::List(vec![]));
    assert_eq!(walk.measured(), 0);
}

#[test]
fn an_empty_root_finishes_at_once() {
    let walk = start("some/dir");
    let tree = finished(walk.step(Ok(Found::Listing(vec![]))));
    assert_eq!(tree.root_path, PathBuf::from("some/dir"));
    assert_eq!(
        tree.root_entry,
        Entry { name: b"dir".to_vec(), size: 0, data: EntryData::Directory(vec![]) }
    );
}

#[test]
fn a_path_without_final_component_gives_an_empty_root_name() {
    let walk = start("/");
    let tree = finished(walk.step(Ok(Found::Listing(vec![]))));
    assert_eq!(tree.root_path, PathBuf::from("/"));
    assert_eq!(tree.root_entry.name, Vec::<u8>::new());
}

fn root_name(path: &str) -> Vec<u8> {
    finished(start(path).step(Ok(Found::Listing(vec![])))).root_entry.name
}

#[test]
fn the_root_bears_the_final_component_of_its_path() {
    assert_eq!(root_name("some/dir"), b"dir".to_vec());
    assert_eq!(root_name("dir"), b"dir".to_vec());
    assert_eq!(root_name("/usr/share/doc"), b"doc".to_vec());
    assert_eq!(root_name("with space/na me"), b"na me".to_vec());
    assert_eq!(root_name("caf\u{e9}"), "caf\u{e9}".as_bytes().to_vec());
}

#[test]
fn trailing_separators_and_dots_do_not_hide_the_final_component() {
    assert_eq!(root_name("some/dir/"), b"dir".to_vec());
    assert_eq!(root_name("some/dir/."), b"dir".to_vec());
    assert_eq!(root_name("./dir"), b"dir".to_vec());
}

#[test]
fn a_root_without_final_component_has_the_empty_name() {
    assert_eq!(root_name("/"), Vec::<u8>::new());
    assert_eq!(root_name(".."), Vec::<u8>::new());
    assert_eq!(root_name("some/dir/.."), Vec::<u8>::new());
    assert_eq!(root_name("."), Vec::<u8>::new());
    assert_eq!(root_name(""), Vec::<u8>::new());
}

#[test]
fn a_given_name_is_taken_as_it_is() {
    let walk = Walk::begin_named(PathBuf::from("/"), Some(vec![b'x', 0xff]));
    let tree = finished(walk.step(Ok(Found::Listing(vec![]))));
    assert_eq!(tree.root_entry.name, vec![b'x', 0xff]);
    assert_eq!(tree.root_path, PathBuf::from("/"));
    let walk = Walk::begin_named(PathBuf::from("some/dir"), None);
    let tree = finished(walk.step(Ok(Found::Listing(vec![]))));
    assert_eq!(tree.root_entry.name, Vec::<u8>::new());
}

#[test]
fn the_root_is_listed_whatever_its_name() {
    let walk = start("..");
    assert_eq!(walk.request(), Request::List(vec![]));
}

#[test]
fn a_file_is_measured_and_gets_its_length() {
    let walk = start("d");
    let walk = pending(walk.step(Ok(Found::Listing(vec![file_item("a.txt")]))));
    assert_eq!(walk.request(), Request::Measure(place(&["a.txt"])));
    let tree = finished(walk.step(Ok(Found::Length(4))));
    assert_eq!(tree.root_entry.size, 4);
    assert_eq!(children(&tree.root_entry), &vec![file("a.txt", 4)]);
}

#[test]
fn a_symlink_is_read_and_never_followed() {
    let walk = start("d");
    let listing = vec![link_item("to_dir"), link_item("dangling"), file_item("f")];
    let walk = pending(walk.step(Ok(Found::Listing(listing))));
    assert_eq!(walk.request(), Request::ReadLink(place(&["to_dir"])));
    let walk = pending(walk.step(Ok(target("/usr/lib"))));
    assert_eq!(walk.request(), Request::ReadLink(place(&["dangling"])));
    let walk = pending(walk.step(Ok(target("no/such/thing"))));
    assert_eq!(walk.request(), Request::Measure(place(&["f"])));
    assert_eq!(walk.measured(), 0);
    let tree = finished(walk.step(Ok(Found::Length(9))));
    let built = children(&tree.root_entry);
    assert_eq!(
        built[0],
        Entry { name: b"to_dir".to_vec(), size: 0, data: EntryData::Symlink(PathBuf::from("/usr/lib")) }
    );
    assert_eq!(
        built[1],
        Entry {
            name: b"dangling".to_vec(),
            size: 0,
            data: EntryData::Symlink(PathBuf::from("no/such/thing")),
        }
    );
    assert_eq!(tree.root_entry.size, 9);
}

#[test]
fn a_directory_is_listed_at_its_place_below_the_root() {
    let walk = start("top");
    let walk = pending(walk.step(Ok(Found::Listing(vec![dir_item("sub")]))));
    assert_eq!(walk.request(), Request::List(place(&["sub"])));
    let walk = pending(walk.step(Ok(Found::Listing(vec![dir_item("inner"), file_item("f")]))));
    assert_eq!(walk.request(), Request::List(place(&["sub", "inner"])));
    let walk = pending(walk.step(Ok(Found::Listing(vec![link_item("l")]))));
    assert_eq!(walk.request(), Request::ReadLink(place(&["sub", "inner", "l"])));
    let walk = pending(walk.step(Ok(target("t"))));
    assert_eq!(walk.request(), Request::Measure(place(&["sub", "f"])));
    let tree = finished(walk.step(Ok(Found::Length(3))));
    assert_eq!(tree.root_entry.size, 3);
    let sub = &children(&tree.root_entry)[0];
    assert_eq!(sub.name, b"sub".to_vec());
    assert_eq!(sub.size, 3);
    let inner = &children(sub)[0];
    assert_eq!(inner.name, b"inner".to_vec());
    assert_eq!(inner.size, 0);
    assert_eq!(children(inner).len(), 1);
}

#[test]
fn unknown_items_get_their_entry_without_a_read() {
    let walk = start("d");
    let listing = vec![other_item("fifo"), file_item("f"), other_item("dev"), other_item("sock")];
    let walk = pending(walk.step(Ok(Found::Listing(listing))));
    assert_eq!(walk.request(), Request::Measure(place(&["f"])));
    let tree = finished(walk.step(Ok(Found::Length(5))));
    let built = children(&tree.root_entry);
    assert_eq!(built.len(), 4);
    assert_eq!(built[0], Entry { name: b"fifo".to_vec(), size: 0, data: EntryData::Unknown });
    assert_eq!(built[1], file("f", 5));
    assert_eq!(built[2], Entry { name: b"dev".to_vec(), size: 0, data: EntryData::Unknown });
    assert_eq!(built[3], Entry { name: b"sock".to_vec(), size: 0, data: EntryData::Unknown });
}

#[test]
fn children_keep_the_order_of_the_listing() {
    let walk = start("d");
    let listing = vec![file_item("zeta"), file_item("alpha"), file_item("mid")];
    let walk = pending(walk.step(Ok(Found::Listing(listing))));
    let walk = pending(walk.step(Ok(Found::Length(1))));
    let walk = pending(walk.step(Ok(Found::Length(900))));
    let tree = finished(walk.step(Ok(Found::Length(5))));
    assert_eq!(
        children(&tree.root_entry),
        &vec![file("zeta", 1), file("alpha", 900), file("mid", 5)]
    );
    assert_eq!(tree.root_entry.size, 906);
}

#[test]
fn closing_the_last_directory_closes_those_around_it() {
    let walk = start("a");
    let walk = pending(walk.step(Ok(Found::Listing(vec![file_item("f"), dir_item("b")]))));
    let walk = pending(walk.step(Ok(Found::Length(1))));
    let walk = pending(walk.step(Ok(Found::Listing(vec![dir_item("c")]))));
    let walk = pending(walk.step(Ok(Found::Listing(vec![dir_item("d")]))));
    assert_eq!(walk.request(), Request::List(place(&["b", "c", "d"])));
    let tree = finished(walk.step(Ok(Found::Listing(vec![]))));
    assert!(sizes_add_up(&tree.root_entry));
    assert_eq!(tree.root_entry.size, 1);
    let b = &children(&tree.root_entry)[1];
    let c = &children(b)[0];
    let d = &children(c)[0];
    assert_eq!(d, &Entry { name: b"d".to_vec(), size: 0, data: EntryData::Directory(vec![]) });
}

#[test]
fn sizes_add_up_at_every_level() {
    let walk = start("r");
    let walk = pending(walk.step(Ok(Found::Listing(vec![
        file_item("a"),
        dir_item("x"),
        file_item("b"),
    ]))));
    let walk = pending(walk.step(Ok(Found::Length(10))));
    let walk = pending(walk.step(Ok(Found::Listing(vec![
        file_item("c"),
        dir_item("y"),
        link_item("l"),
    ]))));
    assert_eq!(walk.measured(), 10);
    let walk = pending(walk.step(Ok(Found::Length(200))));
    let walk = pending(walk.step(Ok(Found::Listing(vec![file_item("d"), file_item("e")]))));
    let walk = pending(walk.step(Ok(Found::Length(3000))));
    let walk = pending(walk.step(Ok(Found::Length(40000))));
    assert_eq!(walk.measured(), 43210);
    let walk = pending(walk.step(Ok(target("c"))));
    let tree = finished(walk.step(Ok(Found::Length(500000))));
    assert!(sizes_add_up(&tree.root_entry));
    assert_eq!(tree.root_entry.size, 543210);
    let x = &children(&tree.root_entry)[1];
    assert_eq!(x.size, 43200);
    let y = &children(x)[1];
    assert_eq!(y.size, 43000);
}

#[test]
fn a_failed_root_listing_fails_the_traversal() {
    let walk = start("missing");
    let outcome = walk.step(Err(io::Error::from(io::ErrorKind::NotFound)));
    match outcome {
        Err(error) => assert_eq!(error.kind(), io::ErrorKind::NotFound),
        Ok(progress) => panic!("no tree is owed, but got {:?}", progress),
    }
}

#[test]
fn a_refused_listing_fails_the_traversal() {
    let walk = start("locked");
    let outcome = walk.step(Err(io::Error::from(io::ErrorKind::PermissionDenied)));
    match outcome {
        Err(error) => assert_eq!(error.kind(), io::ErrorKind::PermissionDenied),
        Ok(progress) => panic!("no tree is owed, but got {:?}", progress),
    }
}

#[test]
fn a_failure_is_handed_on_as_it_came() {
    let walk = start("d");
    let outcome = walk.step(Err(io::Error::new(io::ErrorKind::Other, "stale file handle")));
    match outcome {
        Err(error) => {
            assert_eq!(error.kind(), io::ErrorKind::Other);
            assert_eq!(error.to_string(), "stale file handle");
        }
        Ok(progress) => panic!("no tree is owed, but got {:?}", progress),
    }
}

#[test]
fn a_failure_deep_in_the_tree_leaves_no_partial_tree() {
    let walk = start("r");
    let walk = pending(walk.step(Ok(Found::Listing(vec![file_item("a"), dir_item("sub")]))));
    let walk = pending(walk.step(Ok(Found::Length(10))));
    let walk = pending(walk.step(Ok(Found::Listing(vec![link_item("l"), file_item("b")]))));
    let outcome = walk.step(Err(io::Error::from(io::ErrorKind::PermissionDenied)));
    match outcome {
        Err(error) => assert_eq!(error.kind(), io::ErrorKind::PermissionDenied),
        Ok(progress) => panic!("no tree is owed, but got {:?}", progress),
    }
}

#[test]
fn a_failed_measure_fails_the_traversal() {
    let walk = start("r");
    let walk = pending(walk.step(Ok(Found::Listing(vec![file_item("a")]))));
    let outcome = walk.step(Err(io::Error::from(io::ErrorKind::NotFound)));
    assert!(outcome.is_err());
}

#[test]
fn only_the_kind_of_answer_asked_for_is_accepted() {
    let walk = start("r");
    assert!(walk.accepts(&Found::Listing(vec![])));
    assert!(!walk.accepts(&target("t")));
    assert!(!walk.accepts(&Found::Length(1)));
    let walk = pending(walk.step(Ok(Found::Listing(vec![link_item("l"), file_item("f")]))));
    assert!(walk.accepts(&target("t")));
    assert!(!walk.accepts(&Found::Listing(vec![])));
    assert!(!walk.accepts(&Found::Length(1)));
    let walk = pending(walk.step(Ok(target("t"))));
    assert!(walk.accepts(&Found::Length(1)));
    assert!(!walk.accepts(&Found::Listing(vec![])));
    assert!(!walk.accepts(&target("t")));
}

#[test]
fn sizes_up_to_the_limit_of_64_bits_are_accepted() {
    let walk = start("r");
    let walk = pending(walk.step(Ok(Found::Listing(vec![
        file_item("huge"),
        file_item("one"),
        file_item("more"),
    ]))));
    assert!(walk.accepts(&Found::Length(u64::MAX)));
    let walk = pending(walk.step(Ok(Found::Length(u64::MAX - 1))));
    assert_eq!(walk.measured(), u64::MAX - 1);
    assert!(!walk.accepts(&Found::Length(2)));
    assert!(walk.accepts(&Found::Length(1)));
    let walk = pending(walk.step(Ok(Found::Length(1))));
    assert_eq!(walk.measured(), u64::MAX);
    assert!(!walk.accepts(&Found::Length(1)));
    assert!(walk.accepts(&Found::Length(0)));
    let tree = finished(walk.step(Ok(Found::Length(0))));
    assert_eq!(tree.root_entry.size, u64::MAX);
}

#[test]
fn sizes_in_nested_directories_count_towards_the_limit() {
    let walk = start("r");
    let walk = pending(walk.step(Ok(Found::Listing(vec![dir_item("a"), file_item("f")]))));
    let walk = pending(walk.step(Ok(Found::Listing(vec![file_item("g")]))));
    let walk = pending(walk.step(Ok(Found::Length(u64::MAX))));
    assert_eq!(walk.request(), Request::Measure(place(&["f"])));
    assert!(!walk.accepts(&Found::Length(1)));
    assert!(walk.accepts(&Found::Length(0)));
}

#[test]
fn names_are_kept_byte_for_byte() {
    let raw = vec![b'n', 0xff, 0xfe, b'/', 0x00];
    let walk = start("r");
    let listing = vec![Listed { name: raw.clone(), is_dir: true, is_symlink: false, is_file: false }];
    let walk = pending(walk.step(Ok(Found::Listing(listing))));
    assert_eq!(walk.request(), Request::List(vec![raw.clone()]));
    let tree = finished(walk.step(Ok(Found::Listing(vec![]))));
    assert_eq!(children(&tree.root_entry)[0].name, raw);
}

#[test]
fn an_item_that_is_directory_and_symlink_is_entered_as_a_directory() {
    let walk = start("r");
    let walk = pending(walk.step(Ok(Found::Listing(vec![item("both", true, true, true)]))));
    assert_eq!(walk.request(), Request::List(place(&["both"])));
}

#[test]
fn a_deep_chain_of_directories_is_walked() {
    let depth = 300;
    let mut walk = start("r");
    let mut expected = Vec::new();
    for level in 0..depth {
        assert_eq!(walk.request(), Request::List(expected.clone()));
        let name = format!("d{}", level);
        expected.push(name.as_bytes().to_vec());
        walk = pending(walk.step(Ok(Found::Listing(vec![dir_item(&name)]))));
    }
    let tree = finished(walk.step(Ok(Found::Listing(vec![]))));
    let mut entry = &tree.root_entry;
    let mut seen = 0;
    while let Some(child) = children(entry).first() {
        entry = child;
        seen += 1;
    }
    assert_eq!(seen, depth);
}

#[test]
fn a_wide_directory_is_walked_in_order() {
    let names: Vec<String> = (0..500).map(|i| format!("f{}", (i * 7919) % 500)).collect();
    let walk = start("r");
    let listing = names.iter().map(|name| file_item(name)).collect();
    let mut walk = pending(walk.step(Ok(Found::Listing(listing))));
    for (i, name) in names.iter().enumerate() {
        assert_eq!(walk.request(), Request::Measure(place(&[name])));
        let progress = walk.step(Ok(Found::Length(i as u64)));
        if i + 1 < names.len() {
            walk = pending(progress);
        } else {
            let tree = finished(progress);
            let built = children(&tree.root_entry);
            assert_eq!(built.len(), 500);
            for (j, child) in built.iter().enumerate() {
                assert_eq!(child, &file(&names[j], j as u64));
            }
            assert_eq!(tree.root_entry.size, (0..500u64).sum::<u64>());
            return;
        }
    }
}
