use cloud_storage::filter::{FileClause, FileFilter, FolderClause, FolderFilter, FolderUpdate};
use cloud_storage::model::{contains_id, File, Folder, FolderType, Oid};

fn id(n: u64) -> Oid {
    Oid { seconds: 1, tail: n }
}

fn file(owner: Option<Oid>, own: Option<Oid>, folder: Option<Oid>) -> File {
    File {
        id: own,
        file_name: "a (1).txt".to_string(),
        original_file_name: Some("a.txt".to_string()),
        file_type: "text".to_string(),
        created_at: None,
        updated_at: None,
        aws_file_name: String::new(),
        file_location: String::new(),
        size: 1,
        user_id: owner,
        folder_id: folder,
    }
}

fn folder(owner: Option<Oid>, own: Option<Oid>, kind: Option<FolderType>) -> Folder {
    let mut f = Folder::new();
    f.id = own;
    f.user_id = owner;
    f.folder_type = kind;
    f
}

#[test]
fn every_file_filter_keeps_to_its_owner() {
    let mine = file(Some(id(1)), Some(id(10)), None);
    let filters = vec![
        FileFilter::all(id(2)),
        FileFilter::top_level(id(2)),
        FileFilter::by_id(id(2), id(10)),
        FileFilter::by_ids(id(2), vec![id(10), id(11)]),
        FileFilter::named_originally(id(2), "a.txt".to_string()),
        FileFilter::of_type(id(2), "text".to_string()),
    ];
    for filter in &filters {
        assert!(!filter.matches(&mine));
    }
    let unowned = file(None, Some(id(10)), None);
    assert!(!FileFilter::all(id(1)).matches(&unowned));
}

#[test]
fn file_filters_select_by_their_clause() {
    let owner = id(1);
    let top = file(Some(owner), Some(id(10)), None);
    let nested = file(Some(owner), Some(id(11)), Some(id(20)));
    assert!(FileFilter::all(owner).matches(&top));
    assert!(FileFilter::all(owner).matches(&nested));
    assert!(FileFilter::top_level(owner).matches(&top));
    assert!(!FileFilter::top_level(owner).matches(&nested));
    assert!(FileFilter::by_id(owner, id(11)).matches(&nested));
    assert!(!FileFilter::by_id(owner, id(11)).matches(&top));
    assert!(FileFilter::by_ids(owner, vec![id(9), id(10)]).matches(&top));
    assert!(!FileFilter::by_ids(owner, vec![]).matches(&top));
    assert!(FileFilter::named_originally(owner, "a.txt".to_string()).matches(&top));
    assert!(!FileFilter::named_originally(owner, "a (1).txt".to_string()).matches(&top));
    assert!(FileFilter::of_type(owner, "text".to_string()).matches(&top));
    assert!(!FileFilter::of_type(owner, "image".to_string()).matches(&top));
    let nameless = file(Some(owner), None, None);
    assert!(!FileFilter::by_ids(owner, vec![id(10)]).matches(&nameless));
}

#[test]
fn folder_filters_select_by_their_clause_and_owner() {
    let owner = id(1);
    let root = folder(Some(owner), Some(id(10)), Some(FolderType::Folder));
    let nested = folder(Some(owner), Some(id(11)), Some(FolderType::Subfolder));
    let untyped = folder(Some(owner), Some(id(12)), None);
    assert!(FolderFilter::roots(owner).matches(&root));
    assert!(!FolderFilter::roots(owner).matches(&nested));
    assert!(!FolderFilter::roots(owner).matches(&untyped));
    assert!(FolderFilter::by_id(owner, id(11)).matches(&nested));
    assert!(!FolderFilter::by_id(owner, id(11)).matches(&root));
    assert!(FolderFilter::by_ids(owner, vec![id(10), id(12)]).matches(&untyped));
    assert!(!FolderFilter::roots(id(2)).matches(&root));
    assert!(!FolderFilter::by_id(id(2), id(10)).matches(&root));
}

#[test]
fn first_match_is_the_first_selected_folder() {
    let owner = id(1);
    let folders = vec![
        folder(Some(id(2)), Some(id(10)), None),
        folder(Some(owner), Some(id(11)), None),
        folder(Some(owner), Some(id(10)), Some(FolderType::Folder)),
        folder(Some(owner), Some(id(10)), Some(FolderType::Subfolder)),
    ];
    let found = FolderFilter::by_id(owner, id(10)).first_match(&folders);
    assert_eq!(found, Some(&folders[2]));
    assert_eq!(FolderFilter::by_id(owner, id(99)).first_match(&folders), None);
    assert_eq!(FolderFilter::roots(owner).first_match(&Vec::new()), None);
}

#[test]
fn filters_and_updates_are_copied_whole() {
    let filter = FileFilter { owner: id(1), clause: FileClause::Ids(vec![id(2), id(3)]) };
    assert_eq!(filter.clone(), filter);
    let named = FileFilter::named_originally(id(1), "x".to_string());
    assert_eq!(named.clone(), named);
    let folders = FolderFilter { owner: id(1), clause: FolderClause::Ids(vec![id(4)]) };
    assert_eq!(folders.clone(), folders);
    let update = FolderUpdate::PullFiles(vec![id(5), id(6)]);
    assert_eq!(update.clone(), update);
}

#[test]
fn contains_id_looks_through_the_whole_list() {
    let ids = vec![id(1), id(2), id(3)];
    assert!(contains_id(&ids, id(3)));
    assert!(!contains_id(&ids, id(4)));
    assert!(!contains_id(&ids, Oid { seconds: 2, tail: 1 }));
    assert!(!contains_id(&Vec::new(), id(1)));
}
