use dataflux_rust::fast_list::{
    after_page, dedup_by_name, keep_object, list_bounds, listing_finished, next_start_range,
    plan_work_steal, range_finished, retain_objects, ListedObject, MAX_RESULTS,
};
use dataflux_rust::range_splitter::RangeSplitter;

fn object(name: &str, size: i64, class: &str) -> ListedObject {
    ListedObject { name: name.to_string(), size, storage_class: class.to_string() }
}

#[test]
fn page_filter_drops_markers_composites_and_other_classes() {
    assert!(keep_object(&object("a/b.txt", 3, "STANDARD"), true));
    assert!(!keep_object(&object("a/", 0, "STANDARD"), false));
    assert!(!keep_object(&object("composed_d1_b0", 9, "STANDARD"), true));
    assert!(keep_object(&object("composed_d1_b0", 9, "STANDARD"), false));
    assert!(!keep_object(&object("cold.bin", 9, "NEARLINE"), false));
    let mut page = vec![
        object("x", 1, "STANDARD"),
        object("dir/", 0, "STANDARD"),
        object("y", 2, "ARCHIVE"),
        object("z", 3, "STANDARD"),
    ];
    retain_objects(&mut page, false);
    let names: Vec<&str> = page.iter().map(|o| o.name.as_str()).collect();
    assert_eq!(names, vec!["x", "z"]);
}

#[test]
fn next_page_starts_after_prefix() {
    assert_eq!(next_start_range("logs/", "logs/2024/x"), "2024/x");
    assert_eq!(next_start_range("", "logs/2024/x"), "logs/2024/x");
    assert_eq!(next_start_range("img/", "logs/2024/x"), "logs/2024/x");
}

#[test]
fn request_bounds_carry_the_prefix() {
    let b = list_bounds("p/", "a", "m");
    assert_eq!(b.prefix.as_deref(), Some("p/"));
    assert_eq!(b.lexicographic_start, "p/a");
    assert_eq!(b.lexicographic_end.as_deref(), Some("p/m"));
    let b = list_bounds("", "a", "");
    assert_eq!(b.prefix, None);
    assert_eq!(b.lexicographic_start, "a");
    assert_eq!(b.lexicographic_end, None);
}

#[test]
fn range_and_listing_end() {
    assert!(range_finished(MAX_RESULTS - 1, false));
    assert!(range_finished(MAX_RESULTS, true));
    assert!(!range_finished(MAX_RESULTS, false));
    assert!(listing_finished(4, 4));
    assert!(!listing_finished(3, 4));
}

#[test]
fn one_idle_worker_gets_the_upper_half() {
    let mut splitter = RangeSplitter::new("ab");
    let mut end = "b".to_string();
    let stolen = plan_work_steal(&mut splitter, "a", &mut end, true, 1);
    assert_eq!(stolen, vec![("ab".to_string(), "b".to_string())]);
    assert_eq!(end, "ab");
    let mut end = "b".to_string();
    assert!(plan_work_steal(&mut splitter, "a", &mut end, false, 3).is_empty());
    assert_eq!(end, "b");
    assert!(plan_work_steal(&mut splitter, "a", &mut end, true, 0).is_empty());
    assert_eq!(end, "b");
}

#[test]
fn each_idle_worker_gets_a_range() {
    let mut splitter = RangeSplitter::new("ab");
    let mut end = "b".to_string();
    let stolen = plan_work_steal(&mut splitter, "a", &mut end, true, 2);
    assert_eq!(
        stolen,
        vec![("aab".to_string(), "aba".to_string()), ("aba".to_string(), "b".to_string())]
    );
    assert_eq!(end, "aab");

    let mut splitter = RangeSplitter::new("ab");
    let mut end = String::new();
    let stolen = plan_work_steal(&mut splitter, "a", &mut end, true, 3);
    assert_eq!(
        stolen,
        vec![
            ("aab".to_string(), "abb".to_string()),
            ("abb".to_string(), "bab".to_string()),
            ("bab".to_string(), String::new()),
        ]
    );
    assert_eq!(end, "aab");
}

#[test]
fn short_page_ends_the_range() {
    let mut splitter = RangeSplitter::new("ab");
    let mut start = "a".to_string();
    let mut end = "q".to_string();
    let page = vec![object("p/c", 1, "STANDARD"), object("p/dir/", 0, "STANDARD")];
    let step = after_page(&mut splitter, "p/", false, &mut start, &mut end, page, false, true, 4);
    assert!(step.finished);
    assert!(step.stolen.is_empty());
    let kept = step.kept.expect("a non-empty page is reported");
    let names: Vec<&str> = kept.iter().map(|o| o.name.as_str()).collect();
    assert_eq!(names, vec!["p/c"]);
    assert_eq!(start, "dir/");
    assert_eq!(end, "q");

    let step = after_page(&mut splitter, "p/", false, &mut start, &mut end, Vec::new(), true, true, 4);
    assert!(step.finished);
    assert!(step.kept.is_none());
    assert_eq!(start, "dir/");
}

#[test]
fn full_page_shares_the_rest_with_idle_workers() {
    let mut splitter = RangeSplitter::new("ab");
    let mut start = String::new();
    let mut end = String::new();
    let mut page: Vec<ListedObject> = (1..MAX_RESULTS).map(|_| object("p/f", 1, "STANDARD")).collect();
    page.push(object("p/m", 1, "NEARLINE"));
    let step = after_page(&mut splitter, "p/", false, &mut start, &mut end, page, false, true, 2);
    assert!(!step.finished);
    assert_eq!(step.kept.map(|k| k.len()), Some(MAX_RESULTS - 1));
    assert_eq!(start, "m");
    assert_eq!(
        step.stolen,
        vec![("mam".to_string(), "mbm".to_string()), ("mbm".to_string(), String::new())]
    );
    assert_eq!(end, "mam");

    // With the queue still holding work, nothing is handed out.
    let mut page: Vec<ListedObject> = (0..MAX_RESULTS).map(|_| object("p/f", 1, "STANDARD")).collect();
    page.push(object("p/g", 1, "STANDARD"));
    let step = after_page(&mut splitter, "p/", false, &mut start, &mut end, page, false, false, 2);
    assert!(!step.finished);
    assert!(step.stolen.is_empty());
    assert_eq!(start, "g");
    assert_eq!(end, "mam");
}

#[test]
fn duplicates_collapse_to_the_first_listed() {
    let objects = vec![
        object("b", 1, "STANDARD"),
        object("a", 2, "STANDARD"),
        object("b", 3, "STANDARD"),
        object("c", 4, "STANDARD"),
        object("a", 5, "STANDARD"),
    ];
    let result = dedup_by_name(&objects);
    let got: Vec<(&str, i64)> = result.iter().map(|o| (o.name.as_str(), o.size)).collect();
    assert_eq!(got, vec![("a", 2), ("b", 1), ("c", 4)]);
}

#[test]
fn composites_are_skipped_by_the_listing() {
    let name = dataflux_rust::compose::composed_object_name(3, 7);
    assert!(!keep_object(&object(&name, 10, "STANDARD"), true));
    assert!(keep_object(&object(&name, 10, "STANDARD"), false));
}
