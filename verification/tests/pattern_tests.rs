use shotgallery::gallery::{build_gallery, MatchedEntry};
use shotgallery::pattern::{level_accepts, matches_candidate};

#[test]
fn discovers_fixed_pattern_paths() {
    assert!(matches_candidate("U/760/remote/F/screenshots/pic.JPG"));
    assert!(matches_candidate("77889900/760/remote/123450/screenshots/20240101_1.jpg"));
    assert!(matches_candidate("u/760/remote/f/screenshots/a.b.JpG"));
}

#[test]
fn rejects_other_shapes() {
    assert!(!matches_candidate("U/761/remote/F/screenshots/pic.jpg"));
    assert!(!matches_candidate("U/760/local/F/screenshots/pic.jpg"));
    assert!(!matches_candidate("U/760/remote/F/shots/pic.jpg"));
    assert!(!matches_candidate("U/760/remote/F/screenshots/pic.png"));
    assert!(!matches_candidate("U/760/remote/F/screenshots/deeper/pic.jpg"));
    assert!(!matches_candidate("U/760/remote/F/screenshots"));
    assert!(!matches_candidate("U/760/remote/F/screenshots/pic"));
    assert!(!matches_candidate("pic.jpg"));
    assert!(!matches_candidate(""));
}

#[test]
fn level_decisions_follow_the_pattern() {
    assert!(level_accepts(0, "anyuser"));
    assert!(level_accepts(1, "760"));
    assert!(!level_accepts(1, "761"));
    assert!(!level_accepts(1, "7600"));
    assert!(level_accepts(2, "remote"));
    assert!(!level_accepts(2, "Remote"));
    assert!(level_accepts(3, "anyfolder"));
    assert!(level_accepts(4, "screenshots"));
    assert!(!level_accepts(4, "screenshot"));
    assert!(level_accepts(5, "pic.jpg"));
    assert!(level_accepts(5, "pic.JpG"));
    assert!(!level_accepts(5, "pic.jpeg"));
    assert!(!level_accepts(5, "pic"));
}

#[test]
fn round_trip_discovery_and_thumbnail() {
    // A file stored at this candidate path is matched by the walk and
    // listed under the same path, with its thumbnail beside it.
    let candidate = "U/760/remote/F/screenshots/pic.JPG";
    assert!(matches_candidate(candidate));
    let images = build_gallery(vec![MatchedEntry {
        path: String::from(candidate),
        modified: Some(1_700_000_000),
    }])
    .unwrap();
    assert_eq!(images.len(), 1);
    assert_eq!(images[0].path, "U/760/remote/F/screenshots/pic.JPG");
    assert_eq!(images[0].thumbnail, "U/760/remote/F/screenshots/thumbnails/pic.JPG");
}
