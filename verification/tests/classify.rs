use file_tree::listing::{classify, Kind, Listed};

#[test]
fn a_directory_is_a_directory() {
    assert_eq!(classify(true, false, false), Kind::Directory);
}

#[test]
fn a_symlink_is_a_symlink() {
    assert_eq!(classify(false, true, false), Kind::Symlink);
}

#[test]
fn a_regular_file_is_a_file() {
    assert_eq!(classify(false, false, true), Kind::File);
}

#[test]
fn anything_else_is_unknown() {
    assert_eq!(classify(false, false, false), Kind::Unknown);
}

#[test]
fn directory_goes_before_symlink_and_file() {
    assert_eq!(classify(true, true, false), Kind::Directory);
    assert_eq!(classify(true, false, true), Kind::Directory);
    assert_eq!(classify(true, true, true), Kind::Directory);
}

#[test]
fn symlink_goes_before_file() {
    assert_eq!(classify(false, true, true), Kind::Symlink);
}

#[test]
fn a_listed_item_classifies_by_its_own_flags() {
    let item = Listed { name: b"x".to_vec(), is_dir: false, is_symlink: true, is_file: false };
    assert_eq!(item.kind(), Kind::Symlink);
    let item = Listed { name: b"y".to_vec(), is_dir: false, is_symlink: false, is_file: false };
    assert_eq!(item.kind(), Kind::Unknown);
}
