use shotgallery::path_guard::{check_path, PathVerdict};

#[test]
fn accepts_plain_jpg_path() {
    assert_eq!(check_path("U/760/remote/F/screenshots/pic.jpg"), PathVerdict::Safe);
}

#[test]
fn accepts_extension_in_any_case() {
    assert_eq!(check_path("a/b.JPG"), PathVerdict::Safe);
    assert_eq!(check_path("a/b.JpG"), PathVerdict::Safe);
    assert_eq!(check_path("shot.jpg"), PathVerdict::Safe);
}

#[test]
fn rejects_parent_segments_regardless_of_extension() {
    assert_eq!(check_path("../../etc/passwd"), PathVerdict::Traversal);
    assert_eq!(check_path("../x.jpg"), PathVerdict::Traversal);
    assert_eq!(check_path("a/../b.jpg"), PathVerdict::Traversal);
    assert_eq!(check_path(".."), PathVerdict::Traversal);
    assert_eq!(check_path("a/.."), PathVerdict::Traversal);
    assert_eq!(check_path("a/../../b.png"), PathVerdict::Traversal);
}

#[test]
fn rejects_absolute_and_prefixed_paths() {
    assert_eq!(check_path("/etc/shadow.jpg"), PathVerdict::Traversal);
    assert_eq!(check_path("/a/b.jpg"), PathVerdict::Traversal);
    assert_eq!(check_path("C:/x.jpg"), PathVerdict::Traversal);
    assert_eq!(check_path("c:x.jpg"), PathVerdict::Traversal);
}

#[test]
fn dotted_names_are_not_parent_segments() {
    assert_eq!(check_path("a/..b/c.jpg"), PathVerdict::Safe);
    assert_eq!(check_path("a/b../c.jpg"), PathVerdict::Safe);
    assert_eq!(check_path("a/.../c.jpg"), PathVerdict::Safe);
}

#[test]
fn extension_rule_is_exact() {
    assert_eq!(check_path("a/b.png"), PathVerdict::WrongType);
    assert_eq!(check_path("a/b.jpeg"), PathVerdict::WrongType);
    assert_eq!(check_path("a/b.jpg.png"), PathVerdict::WrongType);
    assert_eq!(check_path("a/b"), PathVerdict::WrongType);
    assert_eq!(check_path("a/b."), PathVerdict::WrongType);
    assert_eq!(check_path("a/b.tar.jpg"), PathVerdict::Safe);
}

#[test]
fn hidden_file_has_no_extension() {
    assert_eq!(check_path("a/.jpg"), PathVerdict::WrongType);
    assert_eq!(check_path("a/..jpg"), PathVerdict::Safe);
}

#[test]
fn current_directory_segments_are_allowed() {
    assert_eq!(check_path("./a/b.jpg"), PathVerdict::Safe);
    assert_eq!(check_path("a/./b.jpg"), PathVerdict::Safe);
}

#[test]
fn empty_segments_are_skipped() {
    assert_eq!(check_path("a//b.jpg"), PathVerdict::Safe);
    assert_eq!(check_path("a/b.jpg/"), PathVerdict::Safe);
}

#[test]
fn paths_without_a_file_name_are_rejected() {
    assert_eq!(check_path(""), PathVerdict::WrongType);
    assert_eq!(check_path("."), PathVerdict::WrongType);
    assert_eq!(check_path("././"), PathVerdict::WrongType);
}
