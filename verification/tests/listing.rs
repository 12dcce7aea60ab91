use cloud_storage::listing::{build_listing, sort_items};
use cloud_storage::model::{stamp_before, File, Folder, Item, Timestamp};

fn file_at(name: &str, stamp: Option<Timestamp>) -> File {
    File {
        id: None,
        file_name: name.to_string(),
        original_file_name: None,
        file_type: "text".to_string(),
        created_at: stamp,
        updated_at: None,
        aws_file_name: String::new(),
        file_location: String::new(),
        size: 0,
        user_id: None,
        folder_id: None,
    }
}

fn folder_at(name: &str, stamp: Option<Timestamp>) -> Folder {
    let mut folder = Folder::new();
    folder.folder_name = name.to_string();
    folder.created_at = stamp;
    folder
}

fn at(secs: i64) -> Option<Timestamp> {
    Some(Timestamp { secs, nanos: 0 })
}

fn names(items: &[Item]) -> Vec<String> {
    items
        .iter()
        .map(|item| match item {
            Item::File(f) => f.file_name.clone(),
            Item::Folder(f) => f.folder_name.clone(),
        })
        .collect()
}

fn seconds(items: &[Item]) -> Vec<i64> {
    items.iter().map(|item| item.created_at().unwrap().secs).collect()
}

#[test]
fn merged_listing_is_ordered_by_creation_time() {
    let files = vec![file_at("c", at(3)), file_at("a", at(1))];
    let folders = vec![folder_at("b", at(2)), folder_at("d", at(4))];
    let listing = build_listing(files, folders);
    assert_eq!(seconds(&listing), vec![1, 2, 3, 4]);
    assert_eq!(names(&listing), vec!["a", "b", "c", "d"]);
}

#[test]
fn entries_of_one_instant_stay_as_handed_in_files_first() {
    let files = vec![file_at("f1", at(5)), file_at("f2", at(5)), file_at("f0", at(1))];
    let folders = vec![folder_at("d1", at(5)), folder_at("d2", at(5)), folder_at("d3", at(9))];
    let listing = build_listing(files, folders);
    assert_eq!(names(&listing), vec!["f0", "f1", "f2", "d1", "d2", "d3"]);
}

#[test]
fn entries_without_a_time_come_first() {
    let files = vec![file_at("late", at(-100)), file_at("unstamped file", None)];
    let folders = vec![folder_at("unstamped folder", None)];
    let listing = build_listing(files, folders);
    assert_eq!(names(&listing), vec!["unstamped file", "unstamped folder", "late"]);
}

#[test]
fn nanoseconds_decide_within_a_second() {
    let early = Some(Timestamp { secs: 7, nanos: 1 });
    let late = Some(Timestamp { secs: 7, nanos: 2 });
    let listing = build_listing(vec![file_at("late", late)], vec![folder_at("early", early)]);
    assert_eq!(names(&listing), vec!["early", "late"]);
}

#[test]
fn listing_of_nothing_is_empty() {
    assert_eq!(build_listing(Vec::new(), Vec::new()), Vec::<Item>::new());
    let only = build_listing(vec![file_at("x", at(1))], Vec::new());
    assert_eq!(names(&only), vec!["x"]);
}

#[test]
fn building_twice_gives_the_same_listing() {
    let files = || vec![file_at("b", at(2)), file_at("a", at(2)), file_at("z", at(0))];
    let folders = || vec![folder_at("m", at(2)), folder_at("k", at(1))];
    assert_eq!(build_listing(files(), folders()), build_listing(files(), folders()));
}

#[test]
fn sort_items_is_stable_in_place() {
    let mut items = vec![
        Item::Folder(folder_at("d9", at(9))),
        Item::File(file_at("f2", at(2))),
        Item::Folder(folder_at("d2", at(2))),
        Item::File(file_at("f1", at(1))),
        Item::File(file_at("f2b", at(2))),
    ];
    sort_items(&mut items);
    assert_eq!(names(&items), vec!["f1", "f2", "d2", "f2b", "d9"]);
    sort_items(&mut items);
    assert_eq!(names(&items), vec!["f1", "f2", "d2", "f2b", "d9"]);
}

#[test]
fn instants_are_compared_by_seconds_then_nanoseconds() {
    let a = Timestamp { secs: 1, nanos: 999_999_999 };
    let b = Timestamp { secs: 2, nanos: 0 };
    assert!(a.before(&b));
    assert!(!b.before(&a));
    assert!(!a.before(&a));
    let negative = Timestamp { secs: -1, nanos: 5 };
    assert!(negative.before(&Timestamp { secs: -1, nanos: 6 }));
    assert!(negative.before(&Timestamp { secs: 0, nanos: 0 }));
    assert!(stamp_before(&None, &Some(Timestamp { secs: i64::MIN, nanos: 0 })));
    assert!(!stamp_before(&None, &None));
    assert!(!stamp_before(&Some(a), &None));
    assert!(stamp_before(&Some(a), &Some(b)));
}
