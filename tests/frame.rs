use bongo_modulator::frame::{path_less, sort_paths};
use bongo_modulator::{pick_frame, FrameCache, FrameCaches};

fn names(v: &[&str]) -> Vec<String> {
    v.iter().map(|s| s.to_string()).collect()
}

#[test]
fn three_files_in_order_then_wrap() {
    let mut cache = FrameCache::new(names(&["c.png", "a.png", "b.png"]));
    assert_eq!(cache.next_frame(), Some("a.png".to_string()));
    assert_eq!(cache.next_frame(), Some("b.png".to_string()));
    assert_eq!(cache.next_frame(), Some("c.png".to_string()));
    assert_eq!(cache.next_frame(), Some("a.png".to_string()));
}

#[test]
fn n_calls_give_sorted_listing() {
    let files = names(&["img/07.png", "img/10.png", "img/01.png", "img/003.png", "img/2.png"]);
    let mut sorted = files.clone();
    sorted.sort();
    let mut cache = FrameCache::new(files);
    for round in 0..3 {
        for expected in &sorted {
            assert_eq!(cache.next_frame().as_ref(), Some(expected), "round {round}");
        }
    }
}

#[test]
fn single_file_repeats() {
    let mut cache = FrameCache::new(names(&["only.png"]));
    for _ in 0..4 {
        assert_eq!(cache.next_frame(), Some("only.png".to_string()));
    }
}

#[test]
fn empty_listing_gives_none() {
    let mut cache = FrameCache::new(Vec::new());
    assert_eq!(cache.next_frame(), None);
    assert_eq!(cache.next_frame(), None);
}

#[test]
fn pick_frame_empty_directory() {
    let mut index = 0usize;
    let result = pick_frame(Vec::new(), &mut index);
    assert!(result.is_none());
    assert_eq!(index, 0);
}

#[test]
fn pick_frame_sorts_and_advances() {
    let files = names(&["b.png", "a.png"]);
    let mut index = 0usize;
    assert_eq!(pick_frame(files.clone(), &mut index), Some("a.png".to_string()));
    assert_eq!(index, 1);
    assert_eq!(pick_frame(files.clone(), &mut index), Some("b.png".to_string()));
    assert_eq!(index, 0);
    let mut far = 7usize;
    assert_eq!(pick_frame(files, &mut far), Some("b.png".to_string()));
    assert_eq!(far, 0);
}

#[test]
fn paths_sort_by_bytes() {
    let sorted = sort_paths(&names(&["b", "B", "a/b", "a", "ab", "a-b", "é", "z"]));
    assert_eq!(sorted, names(&["B", "a", "a-b", "a/b", "ab", "b", "z", "é"]));
    assert!(path_less(&"a".to_string(), &"ab".to_string()));
    assert!(!path_less(&"ab".to_string(), &"a".to_string()));
    assert!(!path_less(&"a".to_string(), &"a".to_string()));
    assert!(path_less(&"".to_string(), &"a".to_string()));
}

#[test]
fn sort_keeps_duplicates() {
    let sorted = sort_paths(&names(&["x", "y", "x"]));
    assert_eq!(sorted, names(&["x", "x", "y"]));
}

#[test]
fn caches_empty_directory_answers_none() {
    let dir = "frames".to_string();
    let mut caches = FrameCaches::new();
    assert!(!caches.contains(&dir));
    caches.insert(dir.clone(), Vec::new());
    assert!(caches.contains(&dir));
    assert_eq!(caches.next_image(&dir), None);
    assert_eq!(caches.next_image(&dir), None);
}

#[test]
fn caches_unknown_directory_answers_none() {
    let mut caches = FrameCaches::new();
    assert_eq!(caches.next_image(&"nowhere".to_string()), None);
}

#[test]
fn caches_keep_one_cursor_per_directory() {
    let a = "a".to_string();
    let b = "b".to_string();
    let mut caches = FrameCaches::new();
    caches.insert(a.clone(), names(&["a/2", "a/1"]));
    caches.insert(b.clone(), names(&["b/1"]));
    assert_eq!(caches.next_image(&a), Some("a/1".to_string()));
    assert_eq!(caches.next_image(&b), Some("b/1".to_string()));
    assert_eq!(caches.next_image(&a), Some("a/2".to_string()));
    assert_eq!(caches.next_image(&a), Some("a/1".to_string()));
}

#[test]
fn caches_keep_first_snapshot() {
    let a = "a".to_string();
    let mut caches = FrameCaches::new();
    caches.insert(a.clone(), names(&["a/1", "a/2"]));
    assert_eq!(caches.next_image(&a), Some("a/1".to_string()));
    caches.insert(a.clone(), names(&["a/9"]));
    assert_eq!(caches.next_image(&a), Some("a/2".to_string()));
}
