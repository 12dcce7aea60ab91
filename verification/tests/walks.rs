use cloud_storage::create::{CreateStep, CreateWalk};
use cloud_storage::delete::{DeleteStep, DeleteWalk};
use cloud_storage::filter::{FileFilter, FolderFilter, FolderUpdate};
use cloud_storage::listing::build_listing;
use cloud_storage::model::{File, Folder, FolderJSON, FolderType, Item, Oid, TreeError};
use cloud_storage::plan::plan_tree;
use cloud_storage::protocol::{StoreReply, StoreRequest};
use cloud_storage::scope::{resolve_scope, scope_lookup};

/// A store kept in memory, for running the walks.
struct Memory {
    files: Vec<File>,
    folders: Vec<Folder>,
    next: u64,
    asked: Vec<String>,
    fail_at: Option<usize>,
}

impl Memory {
    fn new() -> Memory {
        Memory { files: Vec::new(), folders: Vec::new(), next: 1, asked: Vec::new(), fail_at: None }
    }

    fn perform(&mut self, request: StoreRequest) -> StoreReply {
        let kind = match &request {
            StoreRequest::FindFiles(_) => "find files",
            StoreRequest::FindFolders(_) => "find folders",
            StoreRequest::InsertFile(_) => "insert file",
            StoreRequest::InsertFolder(_) => "insert folder",
            StoreRequest::DeleteFiles(_) => "delete files",
            StoreRequest::DeleteFolders(_) => "delete folders",
            StoreRequest::UpdateFolders(_, _) => "update folders",
        };
        self.asked.push(kind.to_string());
        if self.fail_at == Some(self.asked.len() - 1) {
            return StoreReply::Failed;
        }
        match request {
            StoreRequest::FindFiles(filter) => {
                StoreReply::Files(self.files.iter().filter(|f| filter.matches(f)).cloned().collect())
            }
            StoreRequest::FindFolders(filter) => StoreReply::Folders(
                self.folders.iter().filter(|f| filter.matches(f)).cloned().collect(),
            ),
            StoreRequest::InsertFile(mut file) => {
                let id = Oid { seconds: 0, tail: self.next };
                self.next += 1;
                file.id = Some(id);
                self.files.push(file);
                StoreReply::Inserted(id)
            }
            StoreRequest::InsertFolder(folder) => {
                let id = folder.id.unwrap();
                self.folders.push(folder);
                StoreReply::Inserted(id)
            }
            StoreRequest::DeleteFiles(filter) => {
                let before = self.files.len();
                self.files.retain(|f| !filter.matches(f));
                StoreReply::Deleted((before - self.files.len()) as u64)
            }
            StoreRequest::DeleteFolders(filter) => {
                let before = self.folders.len();
                self.folders.retain(|f| !filter.matches(f));
                StoreReply::Deleted((before - self.folders.len()) as u64)
            }
            StoreRequest::UpdateFolders(filter, update) => {
                let mut count = 0;
                for folder in self.folders.iter_mut() {
                    if filter.matches(folder) {
                        count += 1;
                        match &update {
                            FolderUpdate::PushFolder(id) => {
                                folder.folders.get_or_insert_with(Vec::new).push(*id)
                            }
                            FolderUpdate::PushFile(id) => {
                                folder.files.get_or_insert_with(Vec::new).push(*id)
                            }
                            FolderUpdate::PullFolder(id) => {
                                if let Some(list) = folder.folders.as_mut() {
                                    list.retain(|x| x != id);
                                }
                            }
                            FolderUpdate::PullFiles(ids) => {
                                if let Some(list) = folder.files.as_mut() {
                                    list.retain(|x| !ids.contains(x));
                                }
                            }
                        }
                    }
                }
                StoreReply::Updated(count)
            }
        }
    }

    fn create(
        &mut self,
        tree: FolderJSON,
        owner: Oid,
        parent: Option<Oid>,
    ) -> Result<Folder, TreeError> {
        let mut walk = CreateWalk::new(plan_tree(tree, owner, parent), owner, parent);
        loop {
            match walk.request() {
                CreateStep::Ask(request) => {
                    let reply = self.perform(request);
                    walk.accept(reply);
                }
                CreateStep::Done(folder) => return Ok(folder),
                CreateStep::Failed(error) => return Err(error),
            }
        }
    }

    fn delete(&mut self, owner: Oid, roots: Vec<Oid>) -> Result<Vec<Folder>, TreeError> {
        let mut walk = DeleteWalk::new(owner, roots);
        loop {
            match walk.request() {
                DeleteStep::Ask(request) => {
                    let reply = self.perform(request);
                    walk.accept(reply);
                }
                DeleteStep::Done(folders) => return Ok(folders),
                DeleteStep::Failed(error) => return Err(error),
            }
        }
    }

    fn listing(&mut self, owner: Oid, folder: Option<Oid>) -> Vec<Item> {
        let loaded = match scope_lookup(owner, folder) {
            Some(request) => match self.perform(request) {
                StoreReply::Folders(found) => found,
                _ => Vec::new(),
            },
            None => Vec::new(),
        };
        let (file_filter, folder_filter) = resolve_scope(owner, folder, &loaded);
        let files = match self.perform(StoreRequest::FindFiles(file_filter)) {
            StoreReply::Files(found) => found,
            _ => Vec::new(),
        };
        let folders = match self.perform(StoreRequest::FindFolders(folder_filter)) {
            StoreReply::Folders(found) => found,
            _ => Vec::new(),
        };
        build_listing(files, folders)
    }
}

fn user(n: u64) -> Oid {
    Oid { seconds: 7, tail: n }
}

fn file(name: &str) -> File {
    File {
        id: None,
        file_name: name.to_string(),
        original_file_name: None,
        file_type: "text/plain".to_string(),
        created_at: None,
        updated_at: None,
        aws_file_name: format!("aws-{}", name),
        file_location: format!("https://bucket/{}", name),
        size: 12,
        user_id: None,
        folder_id: None,
    }
}

fn tree(name: &str, files: Vec<File>, folders: Vec<FolderJSON>) -> FolderJSON {
    FolderJSON {
        id: None,
        folder_name: name.to_string(),
        folder_type: None,
        files: Some(files),
        folders: Some(folders),
        parent_id: None,
        path: None,
    }
}

fn names(items: &[Item]) -> Vec<String> {
    items
        .iter()
        .map(|item| match item {
            Item::File(f) => format!("file {}", f.file_name),
            Item::Folder(f) => format!("folder {}", f.folder_name),
        })
        .collect()
}

#[test]
fn created_tree_is_read_back_level_by_level() {
    let mut store = Memory::new();
    let owner = user(1);
    let described = tree("root", vec![], vec![tree("sub", vec![file("a.txt")], vec![])]);
    let root = store.create(described, owner, None).unwrap();
    let root_id = root.id.unwrap();
    assert_eq!(root.folder_type, Some(FolderType::Folder));
    assert_eq!(root.parent_id, None);

    let at_root = store.listing(owner, Some(root_id));
    assert_eq!(names(&at_root), vec!["folder sub".to_string()]);
    let sub_id = match &at_root[0] {
        Item::Folder(f) => {
            assert_eq!(f.folder_type, Some(FolderType::Subfolder));
            assert_eq!(f.parent_id, Some(root_id));
            f.id.unwrap()
        }
        Item::File(_) => panic!("a folder was expected"),
    };
    let at_sub = store.listing(owner, Some(sub_id));
    assert_eq!(names(&at_sub), vec!["file a.txt".to_string()]);
    match &at_sub[0] {
        Item::File(f) => {
            assert_eq!(f.folder_id, Some(sub_id));
            assert_eq!(f.user_id, Some(owner));
        }
        Item::Folder(_) => panic!("a file was expected"),
    }
    let at_top = store.listing(owner, None);
    assert_eq!(names(&at_top), vec!["folder root".to_string()]);
}

#[test]
fn create_asks_in_depth_first_order() {
    let mut store = Memory::new();
    let described = tree(
        "root",
        vec![file("r.txt")],
        vec![tree("one", vec![file("x.txt")], vec![]), tree("two", vec![], vec![])],
    );
    store.create(described, user(1), None).unwrap();
    assert_eq!(
        store.asked,
        vec![
            "find files",
            "insert file",
            "find files",
            "insert file",
            "insert folder",
            "insert folder",
            "insert folder",
        ]
    );
    let stored: Vec<&str> = store.folders.iter().map(|f| f.folder_name.as_str()).collect();
    assert_eq!(stored, vec!["one", "two", "root"]);
    let root = &store.folders[2];
    let one = &store.folders[0];
    let two = &store.folders[1];
    assert_eq!(root.folders, Some(vec![one.id.unwrap(), two.id.unwrap()]));
    assert_eq!(root.files, Some(vec![store.files[0].id.unwrap()]));
    assert_eq!(one.files, Some(vec![store.files[1].id.unwrap()]));
    assert_eq!(two.files, Some(vec![]));
    assert_eq!(two.folders, Some(vec![]));
}

#[test]
fn second_file_of_a_name_is_numbered() {
    let mut store = Memory::new();
    let owner = user(1);
    store.create(tree("first", vec![file("a.txt")], vec![]), owner, None).unwrap();
    store.create(tree("second", vec![file("a.txt")], vec![]), owner, None).unwrap();
    store.create(tree("third", vec![file("a.txt")], vec![]), owner, None).unwrap();
    let stored: Vec<&str> = store.files.iter().map(|f| f.file_name.as_str()).collect();
    assert_eq!(stored, vec!["a.txt", "a (1).txt", "a (2).txt"]);
    for f in &store.files {
        assert_eq!(f.original_file_name, Some("a.txt".to_string()));
    }
}

#[test]
fn names_are_counted_per_owner() {
    let mut store = Memory::new();
    store.create(tree("mine", vec![file("a.txt")], vec![]), user(1), None).unwrap();
    store.create(tree("yours", vec![file("a.txt")], vec![]), user(2), None).unwrap();
    let stored: Vec<&str> = store.files.iter().map(|f| f.file_name.as_str()).collect();
    assert_eq!(stored, vec!["a.txt", "a.txt"]);
}

#[test]
fn tree_under_a_parent_is_nested_and_linked() {
    let mut store = Memory::new();
    let owner = user(1);
    let top = store.create(tree("top", vec![], vec![]), owner, None).unwrap();
    let top_id = top.id.unwrap();
    let below = store.create(tree("below", vec![], vec![]), owner, Some(top_id)).unwrap();
    assert_eq!(below.folder_type, Some(FolderType::Subfolder));
    assert_eq!(below.parent_id, Some(top_id));
    let stored_top = store.folders.iter().find(|f| f.id == Some(top_id)).unwrap();
    assert_eq!(stored_top.folders, Some(vec![below.id.unwrap()]));
}

#[test]
fn tree_under_a_missing_parent_is_not_found() {
    let mut store = Memory::new();
    let missing = Oid { seconds: 9, tail: 9 };
    let result = store.create(tree("below", vec![], vec![]), user(1), Some(missing));
    assert_eq!(result, Err(TreeError::NotFound));
    // what was stored stays stored
    assert_eq!(store.folders.len(), 1);
}

#[test]
fn tree_under_a_foreign_parent_is_not_found() {
    let mut store = Memory::new();
    let top = store.create(tree("top", vec![], vec![]), user(1), None).unwrap();
    let result = store.create(tree("below", vec![], vec![]), user(2), top.id);
    assert_eq!(result, Err(TreeError::NotFound));
    let stored_top = store.folders.iter().find(|f| f.id == top.id).unwrap();
    assert_eq!(stored_top.folders, Some(vec![]));
}

#[test]
fn failed_write_ends_the_walk_and_keeps_what_was_stored() {
    let mut store = Memory::new();
    store.fail_at = Some(3);
    let described =
        tree("root", vec![file("a.txt"), file("b.txt")], vec![tree("sub", vec![], vec![])]);
    let result = store.create(described, user(1), None);
    assert_eq!(result, Err(TreeError::StoreUnavailable));
    assert_eq!(store.asked.len(), 4);
    assert_eq!(store.files.len(), 1);
    assert_eq!(store.folders.len(), 0);
}

#[test]
fn folder_stored_under_another_identity_is_invalid() {
    let owner = user(1);
    let mut walk = CreateWalk::new(plan_tree(tree("root", vec![], vec![]), owner, None), owner, None);
    match walk.request() {
        CreateStep::Ask(StoreRequest::InsertFolder(_)) => {}
        other => panic!("unexpected step {:?}", other),
    }
    walk.accept(StoreReply::Inserted(Oid { seconds: 1, tail: 1 }));
    // the identity drawn for the folder has four leading bytes of clock time
    assert_eq!(walk.request(), CreateStep::Failed(TreeError::InvalidState));
}

#[test]
fn planned_folders_get_distinct_identities_and_times() {
    let owner = user(1);
    let plan = plan_tree(
        tree("root", vec![file("a.txt")], vec![tree("one", vec![], vec![])]),
        owner,
        None,
    );
    let root_id = plan.record.id.unwrap();
    let child_id = plan.folders[0].record.id.unwrap();
    assert_ne!(root_id, child_id);
    assert_eq!(plan.folders[0].record.parent_id, Some(root_id));
    assert_eq!(plan.folders[0].record.folder_type, Some(FolderType::Subfolder));
    assert_eq!(plan.record.user_id, Some(owner));
    let stamp = plan.record.created_at.unwrap();
    assert_eq!(plan.record.updated_at, Some(stamp));
    // the clock reads a time in this century
    assert!(stamp.secs > 1_600_000_000);
    assert!(stamp.nanos < 1_000_000_000);
    assert!(root_id.seconds > 1_600_000_000);
    assert_eq!(plan.files[0].folder_id, Some(root_id));
    assert_eq!(plan.files[0].original_file_name, Some("a.txt".to_string()));
    assert!(plan.files[0].created_at.is_some());
}

fn three_levels(store: &mut Memory, owner: Oid, parent: Option<Oid>) -> Folder {
    let described = tree(
        "root",
        vec![file("r1"), file("r2")],
        vec![
            tree("left", vec![file("l1")], vec![tree("deep", vec![file("d1"), file("d2")], vec![])]),
            tree("right", vec![], vec![]),
        ],
    );
    store.create(described, owner, parent).unwrap()
}

#[test]
fn deleting_the_root_removes_every_folder_and_file() {
    let mut store = Memory::new();
    let owner = user(1);
    let root = three_levels(&mut store, owner, None);
    assert_eq!(store.folders.len(), 4);
    assert_eq!(store.files.len(), 5);
    let left = store.delete(owner, vec![root.id.unwrap()]).unwrap();
    assert_eq!(left, Vec::<Folder>::new());
    assert_eq!(store.folders.len(), 0);
    assert_eq!(store.files.len(), 0);
}

#[test]
fn deleting_a_nested_tree_unlinks_it_from_its_parent() {
    let mut store = Memory::new();
    let owner = user(1);
    let top = store.create(tree("top", vec![file("keep")], vec![]), owner, None).unwrap();
    let root = three_levels(&mut store, owner, top.id);
    let left = store.delete(owner, vec![root.id.unwrap()]).unwrap();
    assert_eq!(left.len(), 1);
    assert_eq!(left[0].folder_name, "top");
    assert_eq!(left[0].folders, Some(vec![]));
    assert_eq!(store.folders.len(), 1);
    let kept: Vec<&str> = store.files.iter().map(|f| f.file_name.as_str()).collect();
    assert_eq!(kept, vec!["keep"]);
}

#[test]
fn delete_goes_children_first() {
    let mut store = Memory::new();
    let owner = user(1);
    let top = store.create(tree("top", vec![], vec![]), owner, None).unwrap();
    let root = store
        .create(tree("root", vec![file("f")], vec![tree("sub", vec![], vec![])]), owner, top.id)
        .unwrap();
    store.asked.clear();
    store.delete(owner, vec![root.id.unwrap()]).unwrap();
    assert_eq!(
        store.asked,
        vec![
            "find folders",   // the root
            "find folders",   // sub
            "update folders", // sub out of the root's list
            "delete folders", // sub
            "delete files",   // f
            "update folders", // the root out of top's list
            "delete folders", // the root
            "find folders",   // what is left at the top level
        ]
    );
}

#[test]
fn deleting_what_is_not_there_is_passed_over() {
    let mut store = Memory::new();
    let owner = user(1);
    let kept = store.create(tree("kept", vec![], vec![]), owner, None).unwrap();
    let left = store.delete(owner, vec![Oid { seconds: 1, tail: 1 }]).unwrap();
    assert_eq!(left.len(), 1);
    assert_eq!(left[0].id, kept.id);
}

#[test]
fn deleting_another_owners_folder_changes_nothing() {
    let mut store = Memory::new();
    let root = three_levels(&mut store, user(1), None);
    let left = store.delete(user(2), vec![root.id.unwrap()]).unwrap();
    assert_eq!(left, Vec::<Folder>::new());
    assert_eq!(store.folders.len(), 4);
    assert_eq!(store.files.len(), 5);
}

#[test]
fn folder_missing_from_its_parents_list_is_still_deleted() {
    let mut store = Memory::new();
    let owner = user(1);
    let top = store.create(tree("top", vec![], vec![]), owner, None).unwrap();
    let below = store.create(tree("below", vec![], vec![]), owner, top.id).unwrap();
    for folder in store.folders.iter_mut() {
        if folder.id == top.id {
            folder.folders = Some(vec![]);
        }
    }
    let left = store.delete(owner, vec![below.id.unwrap()]).unwrap();
    assert_eq!(left.len(), 1);
    assert_eq!(store.folders.len(), 1);
}

#[test]
fn failed_delete_ends_the_walk() {
    let mut store = Memory::new();
    let owner = user(1);
    let root = three_levels(&mut store, owner, None);
    store.asked.clear();
    store.fail_at = Some(2);
    let result = store.delete(owner, vec![root.id.unwrap()]);
    assert_eq!(result, Err(TreeError::StoreUnavailable));
    assert_eq!(store.asked.len(), 3);
}

#[test]
fn several_roots_are_deleted_in_turn() {
    let mut store = Memory::new();
    let owner = user(1);
    let a = store.create(tree("a", vec![file("x")], vec![]), owner, None).unwrap();
    let b = store.create(tree("b", vec![], vec![]), owner, None).unwrap();
    let c = store.create(tree("c", vec![], vec![]), owner, None).unwrap();
    let left = store.delete(owner, vec![a.id.unwrap(), c.id.unwrap()]).unwrap();
    assert_eq!(left.len(), 1);
    assert_eq!(left[0].id, b.id);
    assert_eq!(store.files.len(), 0);
}

#[test]
fn listing_twice_gives_the_same_sequence() {
    let mut store = Memory::new();
    let owner = user(1);
    let root = three_levels(&mut store, owner, None);
    let first = store.listing(owner, root.id);
    let second = store.listing(owner, root.id);
    assert_eq!(first, second);
    assert_eq!(first.len(), 4);
}

#[test]
fn no_scope_of_one_owner_shows_what_another_created() {
    let mut store = Memory::new();
    let a = user(1);
    let b = user(2);
    let root = three_levels(&mut store, a, None);
    assert_eq!(store.listing(b, None), Vec::<Item>::new());
    assert_eq!(store.listing(b, root.id), Vec::<Item>::new());
    let all_files = store.perform(StoreRequest::FindFiles(FileFilter::all(b)));
    assert_eq!(all_files, StoreReply::Files(vec![]));
    let ids: Vec<Oid> = store.folders.iter().map(|f| f.id.unwrap()).collect();
    let by_ids = store.perform(StoreRequest::FindFolders(FolderFilter::by_ids(b, ids)));
    assert_eq!(by_ids, StoreReply::Folders(vec![]));
}

#[test]
fn unknown_scope_falls_back_to_the_top_level() {
    let mut store = Memory::new();
    let owner = user(1);
    three_levels(&mut store, owner, None);
    let missing = Oid { seconds: 1, tail: 1 };
    let with_missing = store.listing(owner, Some(missing));
    let without = store.listing(owner, None);
    assert_eq!(with_missing, without);
    assert_eq!(names(&without), vec!["folder root".to_string()]);
}
