use cloud_storage::files::{
    delete_requests, duplicates_request, files_filter, name_file, upload_followup,
};
use cloud_storage::filter::{FileFilter, FolderFilter, FolderUpdate};
use cloud_storage::model::{File, MyQueryParams, Oid, Timestamp};
use cloud_storage::model::TreeError;
use cloud_storage::params::{first_for, resolve_caller, values_for};
use cloud_storage::plan::{plan_record, prepare_file, stamp_file};
use cloud_storage::model::FolderType;
use cloud_storage::protocol::StoreRequest;
use cloud_storage::scope::{resolve_scope, scope_lookup};
use cloud_storage::model::Folder;

fn id(n: u64) -> Oid {
    Oid { seconds: 3, tail: n }
}

fn raw(name: &str) -> File {
    File {
        id: Some(id(77)),
        file_name: name.to_string(),
        original_file_name: Some("something else".to_string()),
        file_type: "image/png".to_string(),
        created_at: None,
        updated_at: None,
        aws_file_name: "key".to_string(),
        file_location: "https://bucket/key".to_string(),
        size: 4096,
        user_id: Some(id(66)),
        folder_id: Some(id(55)),
    }
}

#[test]
fn prepared_file_carries_owner_folder_time_and_original_name() {
    let now = Timestamp { secs: 1_700_000_000, nanos: 5 };
    let ready = prepare_file(raw("a.txt"), id(1), Some(id(2)), now);
    assert_eq!(ready.id, None);
    assert_eq!(ready.file_name, "a.txt");
    assert_eq!(ready.original_file_name, Some("a.txt".to_string()));
    assert_eq!(ready.user_id, Some(id(1)));
    assert_eq!(ready.folder_id, Some(id(2)));
    assert_eq!(ready.created_at, Some(now));
    assert_eq!(ready.updated_at, Some(now));
    assert_eq!(ready.file_type, "image/png");
    assert_eq!(ready.aws_file_name, "key");
    assert_eq!(ready.file_location, "https://bucket/key");
    assert_eq!(ready.size, 4096);
    let top = prepare_file(raw("a.txt"), id(1), None, now);
    assert_eq!(top.folder_id, None);
}

#[test]
fn planned_record_is_a_root_without_a_parent_and_nested_with_one() {
    let now = Timestamp { secs: 10, nanos: 20 };
    let root = plan_record("docs".to_string(), id(1), None, id(9), now);
    assert_eq!(root.id, Some(id(9)));
    assert_eq!(root.folder_name, "docs");
    assert_eq!(root.folder_type, Some(FolderType::Folder));
    assert_eq!(root.parent_id, None);
    assert_eq!(root.user_id, Some(id(1)));
    assert_eq!(root.files, Some(vec![]));
    assert_eq!(root.folders, Some(vec![]));
    assert_eq!(root.created_at, Some(now));
    assert_eq!(root.updated_at, Some(now));
    assert_eq!(root.path, None);
    let nested = plan_record("docs".to_string(), id(1), Some(id(8)), id(9), now);
    assert_eq!(nested.folder_type, Some(FolderType::Subfolder));
    assert_eq!(nested.parent_id, Some(id(8)));
}

#[test]
fn file_keeps_its_name_without_duplicates_and_is_numbered_with_them() {
    let now = Timestamp { secs: 1, nanos: 0 };
    let ready = prepare_file(raw("a.txt"), id(1), None, now);
    let alone = name_file(ready.clone(), 0);
    assert_eq!(alone, ready);
    let second = name_file(ready.clone(), 1);
    assert_eq!(second.file_name, "a (1).txt");
    assert_eq!(second.original_file_name, Some("a.txt".to_string()));
    assert_eq!(second.user_id, ready.user_id);
    assert_eq!(second.created_at, ready.created_at);
    let twelfth = name_file(ready, 11);
    assert_eq!(twelfth.file_name, "a (11).txt");
}

#[test]
fn duplicates_are_looked_for_under_the_arriving_name() {
    let request = duplicates_request(id(1), &raw("a.txt"));
    assert_eq!(
        request,
        StoreRequest::FindFiles(FileFilter::named_originally(id(1), "a.txt".to_string()))
    );
}

#[test]
fn files_are_listed_by_type_where_one_is_asked_for() {
    let all = files_filter(id(1), &MyQueryParams { file_type: None });
    assert_eq!(all, FileFilter::all(id(1)));
    let images = files_filter(id(1), &MyQueryParams { file_type: Some("image".to_string()) });
    assert_eq!(images, FileFilter::of_type(id(1), "image".to_string()));
}

#[test]
fn uploaded_file_is_entered_in_its_folder() {
    let inside = upload_followup(id(1), Some(id(2)), id(3));
    assert_eq!(
        inside,
        vec![
            StoreRequest::UpdateFolders(FolderFilter::by_id(id(1), id(2)), FolderUpdate::PushFile(id(3))),
            StoreRequest::FindFiles(FileFilter::top_level(id(1))),
        ]
    );
    let top = upload_followup(id(1), None, id(3));
    assert_eq!(top, vec![StoreRequest::FindFiles(FileFilter::top_level(id(1)))]);
}

#[test]
fn deleted_files_are_taken_out_of_their_folder_first() {
    let ids = vec![id(3), id(4)];
    let inside = delete_requests(id(1), &ids, Some(id(2)));
    assert_eq!(
        inside,
        vec![
            StoreRequest::UpdateFolders(
                FolderFilter::by_id(id(1), id(2)),
                FolderUpdate::PullFiles(ids.clone())
            ),
            StoreRequest::DeleteFiles(FileFilter::by_ids(id(1), ids.clone())),
            StoreRequest::FindFiles(FileFilter::all(id(1))),
        ]
    );
    let top = delete_requests(id(1), &ids, None);
    assert_eq!(
        top,
        vec![
            StoreRequest::DeleteFiles(FileFilter::by_ids(id(1), ids.clone())),
            StoreRequest::FindFiles(FileFilter::all(id(1))),
        ]
    );
}

#[test]
fn values_are_read_by_name_in_order() {
    let pairs = vec![
        ("ids".to_string(), id(1)),
        ("folder_id".to_string(), id(2)),
        ("ids".to_string(), id(3)),
        ("folder_id".to_string(), id(4)),
        ("other".to_string(), id(5)),
    ];
    assert_eq!(values_for(&pairs, "ids"), vec![id(1), id(3)]);
    assert_eq!(values_for(&pairs, "none"), Vec::<Oid>::new());
    assert_eq!(first_for(&pairs, "folder_id"), Some(id(2)));
    assert_eq!(first_for(&pairs, "Folder_id"), None);
    assert_eq!(first_for(&Vec::new(), "ids"), None);
}

fn listed(owner: Oid, own: Oid, files: Option<Vec<Oid>>, folders: Option<Vec<Oid>>) -> Folder {
    let mut f = Folder::new();
    f.id = Some(own);
    f.user_id = Some(owner);
    f.files = files;
    f.folders = folders;
    f
}

#[test]
fn scope_without_a_folder_is_the_top_level() {
    assert_eq!(scope_lookup(id(1), None), None);
    let noise = vec![listed(id(1), id(2), Some(vec![id(3)]), None)];
    let scope = resolve_scope(id(1), None, &noise);
    assert_eq!(scope, (FileFilter::top_level(id(1)), FolderFilter::roots(id(1))));
}

#[test]
fn scope_of_a_folder_is_what_its_lists_name() {
    assert_eq!(
        scope_lookup(id(1), Some(id(2))),
        Some(StoreRequest::FindFolders(FolderFilter::by_id(id(1), id(2))))
    );
    let loaded = vec![listed(id(1), id(2), Some(vec![id(3), id(4)]), Some(vec![id(5)]))];
    let scope = resolve_scope(id(1), Some(id(2)), &loaded);
    assert_eq!(
        scope,
        (FileFilter::by_ids(id(1), vec![id(3), id(4)]), FolderFilter::by_ids(id(1), vec![id(5)]))
    );
    let bare = vec![listed(id(1), id(2), None, None)];
    let empty = resolve_scope(id(1), Some(id(2)), &bare);
    assert_eq!(empty, (FileFilter::by_ids(id(1), vec![]), FolderFilter::by_ids(id(1), vec![])));
}

#[test]
fn scope_of_a_missing_or_foreign_folder_is_the_top_level() {
    let top = resolve_scope(id(1), None, &Vec::new());
    assert_eq!(resolve_scope(id(1), Some(id(2)), &Vec::new()), top);
    let foreign = vec![listed(id(9), id(2), Some(vec![id(3)]), Some(vec![id(5)]))];
    assert_eq!(resolve_scope(id(1), Some(id(2)), &foreign), top);
    let other = vec![listed(id(1), id(7), Some(vec![id(3)]), Some(vec![id(5)]))];
    assert_eq!(resolve_scope(id(1), Some(id(2)), &other), top);
}

#[test]
fn request_without_a_verified_identity_is_unauthenticated() {
    assert_eq!(resolve_caller(None), Err(TreeError::Unauthenticated));
    assert_eq!(resolve_caller(Some(id(5))), Ok(id(5)));
}

#[test]
fn stamped_file_carries_the_time_of_the_clock() {
    let ready = stamp_file(raw("a.txt"), id(1), Some(id(2)));
    let stamp = ready.created_at.unwrap();
    assert!(stamp.secs > 1_600_000_000);
    assert!(stamp.nanos < 1_000_000_000);
    assert_eq!(ready.updated_at, Some(stamp));
    let expected = prepare_file(raw("a.txt"), id(1), Some(id(2)), stamp);
    assert_eq!(ready, expected);
}
