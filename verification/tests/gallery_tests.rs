use shotgallery::gallery::{build_gallery, sort_entries, MatchedEntry};

fn entry(path: &str, modified: Option<u64>) -> MatchedEntry {
    MatchedEntry { path: String::from(path), modified }
}

fn paths(entries: &[MatchedEntry]) -> Vec<&str> {
    entries.iter().map(|e| e.path.as_str()).collect()
}

#[test]
fn sorts_strictly_descending_for_distinct_known_times() {
    let sorted = sort_entries(vec![
        entry("a/old.jpg", Some(10)),
        entry("a/new.jpg", Some(30)),
        entry("a/mid.jpg", Some(20)),
    ]);
    assert_eq!(paths(&sorted), vec!["a/new.jpg", "a/mid.jpg", "a/old.jpg"]);
}

#[test]
fn unknown_times_come_last_in_walk_order() {
    let sorted = sort_entries(vec![
        entry("u/x.jpg", None),
        entry("k/a.jpg", Some(5)),
        entry("u/y.jpg", None),
        entry("k/b.jpg", Some(9)),
    ]);
    assert_eq!(paths(&sorted), vec!["k/b.jpg", "k/a.jpg", "u/x.jpg", "u/y.jpg"]);
}

#[test]
fn equal_times_keep_walk_order() {
    let sorted = sort_entries(vec![
        entry("a/first.jpg", Some(7)),
        entry("a/second.jpg", Some(7)),
        entry("a/third.jpg", Some(7)),
    ]);
    assert_eq!(paths(&sorted), vec!["a/first.jpg", "a/second.jpg", "a/third.jpg"]);
}

#[test]
fn thumbnail_inserted_before_file_name() {
    let images = build_gallery(vec![
        entry("U/760/remote/F/screenshots/pic.JPG", Some(1)),
        entry("V/760/remote/G/screenshots/other.jpg", Some(2)),
    ])
    .unwrap();
    assert_eq!(images[0].path, "V/760/remote/G/screenshots/other.jpg");
    assert_eq!(images[0].thumbnail, "V/760/remote/G/screenshots/thumbnails/other.jpg");
    assert_eq!(images[1].path, "U/760/remote/F/screenshots/pic.JPG");
    assert_eq!(images[1].thumbnail, "U/760/remote/F/screenshots/thumbnails/pic.JPG");
}

#[test]
fn listing_is_identical_when_repeated() {
    let make = || {
        vec![
            entry("a/one.jpg", Some(3)),
            entry("b/two.jpg", None),
            entry("c/three.jpg", Some(3)),
        ]
    };
    let first = build_gallery(make()).unwrap();
    let second = build_gallery(make()).unwrap();
    assert_eq!(first.len(), second.len());
    for (x, y) in first.iter().zip(second.iter()) {
        assert_eq!(x.path, y.path);
        assert_eq!(x.thumbnail, y.thumbnail);
    }
}

#[test]
fn sorting_twice_changes_nothing() {
    let once = sort_entries(vec![
        entry("a/one.jpg", Some(3)),
        entry("b/two.jpg", None),
        entry("c/three.jpg", Some(8)),
        entry("d/four.jpg", Some(8)),
    ]);
    let first: Vec<String> = once.iter().map(|e| e.path.clone()).collect();
    let again = sort_entries(once);
    let second: Vec<String> = again.iter().map(|e| e.path.clone()).collect();
    assert_eq!(first, second);
}

#[test]
fn unsplittable_path_is_a_fatal_error() {
    assert!(build_gallery(vec![entry("nofolder.jpg", Some(1))]).is_none());
    assert!(build_gallery(vec![entry("a/ok.jpg", Some(1)), entry("bare.jpg", None)]).is_none());
}

#[test]
fn empty_listing_is_allowed() {
    let images = build_gallery(Vec::new()).unwrap();
    assert!(images.is_empty());
}
