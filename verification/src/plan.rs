//! Getting a described tree ready for the store: every folder receives its
//! identity, owner, kind and times, every file its owner, folder and times.

use crate::fresh::{current_time, fresh_id};
use crate::model::{
    files_view, File, FileView, Folder, FolderJSON, FolderType, FolderView, Oid, Timestamp,
    TreeView,
};
use vstd::prelude::*;

verus! {

impl TreeView {
    /// The files described, an absent list read as empty.
    pub open spec fn file_list(self) -> Seq<FileView> {
        match self.files {
            Some(list) => list,
            None => Seq::empty(),
        }
    }

    /// The folders described, an absent list read as empty.
    pub open spec fn folder_list(self) -> Seq<TreeView> {
        match self.folders {
            Some(list) => list,
            None => Seq::empty(),
        }
    }
}

/// The kind of a folder created under `parent`: top-level without a parent,
/// nested with one.
pub open spec fn kind_under(parent: Option<Oid>) -> FolderType {
    if parent is None {
        FolderType::Folder
    } else {
        FolderType::Subfolder
    }
}

/// The record of a new folder called `name`, before anything is stored in it.
pub open spec fn planned_record(
    name: Seq<char>,
    owner: Oid,
    parent: Option<Oid>,
    id: Oid,
    now: Timestamp,
) -> FolderView {
    FolderView {
        id: Some(id),
        folder_name: name,
        folder_type: Some(kind_under(parent)),
        files: Some(Seq::empty()),
        folders: Some(Seq::empty()),
        created_at: Some(now),
        updated_at: Some(now),
        parent_id: parent,
        user_id: Some(owner),
        path: None,
    }
}

/// A described file made ready for the store: it has no identity yet, keeps
/// the name it came with as its original name, and carries its owner, its
/// folder and the time.
pub open spec fn prepared(file: FileView, owner: Oid, folder: Option<Oid>, now: Timestamp) -> FileView {
    FileView {
        id: None,
        original_file_name: Some(file.file_name),
        created_at: Some(now),
        updated_at: Some(now),
        user_id: Some(owner),
        folder_id: folder,
        ..file
    }
}

/// Builds the record of a new folder from the identity and the time drawn
/// for it.
pub fn plan_record(name: String, owner: Oid, parent: Option<Oid>, id: Oid, now: Timestamp) -> (record:
    Folder)
    ensures
        record@ == planned_record(name@, owner, parent, id, now),
        record@.kind_fits(),
{
    let kind = match parent {
        None => FolderType::Folder,
        Some(_) => FolderType::Subfolder,
    };
    Folder {
        id: Some(id),
        folder_name: name,
        folder_type: Some(kind),
        files: Some(Vec::new()),
        folders: Some(Vec::new()),
        created_at: Some(now),
        updated_at: Some(now),
        parent_id: parent,
        user_id: Some(owner),
        path: None,
    }
}

/// Makes a described file ready for the store, stamped with `now`.
pub fn prepare_file(file: File, owner: Oid, folder: Option<Oid>, now: Timestamp) -> (ready: File)
    ensures
        ready@ == prepared(file@, owner, folder, now),
{
    let original = file.file_name.clone();
    File {
        id: None,
        file_name: file.file_name,
        original_file_name: Some(original),
        file_type: file.file_type,
        created_at: Some(now),
        updated_at: Some(now),
        aws_file_name: file.aws_file_name,
        file_location: file.file_location,
        size: file.size,
        user_id: Some(owner),
        folder_id: folder,
    }
}

/// Makes a file ready for the store, stamped with the time the clock shows.
///
/// The time comes from outside and nothing is known of it; all else in the
/// file is fixed by what is handed in.
pub fn stamp_file(file: File, owner: Oid, folder: Option<Oid>) -> (ready: File)
    ensures
        ready@.created_at is Some,
        ready@ == prepared(file@, owner, folder, ready@.created_at->0),
{
    prepare_file(file, owner, folder, current_time())
}

/// A folder ready to be stored, with the files and folders to be stored in
/// it.
#[derive(Debug, PartialEq, Eq)]
pub struct PlannedFolder {
    pub record: Folder,
    pub files: Vec<File>,
    pub folders: Vec<PlannedFolder>,
}

/// What a `PlannedFolder` holds.
pub struct PlanView {
    pub record: FolderView,
    pub files: Seq<FileView>,
    pub folders: Seq<PlanView>,
}

/// The views of a list of planned folders, in order.
pub open spec fn plans_view(plans: Seq<PlannedFolder>) -> Seq<PlanView> {
    plans.map_values(|p: PlannedFolder| p@)
}

/// What a planned folder holds, nested plans included.
pub open spec fn plan_view(plan: PlannedFolder) -> PlanView
    decreases plan,
{
    PlanView {
        record: plan.record@,
        files: files_view(plan.files@),
        folders: Seq::new(
            plan.folders.len() as nat,
            |i: int|
                if 0 <= i < plan.folders.len() {
                    plan_view(plan.folders[i])
                } else {
                    arbitrary()
                },
        ),
    }
}

impl View for PlannedFolder {
    type V = PlanView;

    open spec fn view(&self) -> PlanView {
        plan_view(*self)
    }
}

/// What the view of a description holds in its lists.
pub proof fn lemma_tree_lists(description: FolderJSON)
    ensures
        description@.file_list() == match description.files {
            Some(list) => files_view(list@),
            None => Seq::empty(),
        },
        description@.folder_list().len() == match description.folders {
            Some(list) => list.len(),
            None => 0,
        },
        forall|i: int|
            0 <= i < description@.folder_list().len() ==> #[trigger] description@.folder_list()[i]
                == description.folders->0[i]@,
{
}

/// What the view of a planned folder holds in its list of folders.
pub proof fn lemma_plan_lists(plan: PlannedFolder)
    ensures
        plan@.folders == plans_view(plan.folders@),
{
    assert(plan@.folders =~= plans_view(plan.folders@));
}

impl PlanView {
    /// Whether this plan is the description `tree` made ready for `owner`
    /// under `parent`: the same names and the same nesting; every folder with
    /// an identity, a time, the owner, and as parent the folder it lies in;
    /// every file prepared for the folder it lies in.
    pub open spec fn follows(self, tree: TreeView, owner: Oid, parent: Option<Oid>) -> bool
        decreases self,
    {
        &&& self.record.id is Some
        &&& self.record.created_at is Some
        &&& self.record == planned_record(
            tree.folder_name,
            owner,
            parent,
            self.record.id->0,
            self.record.created_at->0,
        )
        &&& self.files.len() == tree.file_list().len()
        &&& forall|i: int|
            0 <= i < self.files.len() ==> (#[trigger] self.files[i]).created_at is Some
                && self.files[i] == prepared(
                tree.file_list()[i],
                owner,
                self.record.id,
                self.files[i].created_at->0,
            )
        &&& self.folders.len() == tree.folder_list().len()
        &&& forall|i: int|
            0 <= i < self.folders.len() ==> (#[trigger] self.folders[i]).follows(
                tree.folder_list()[i],
                owner,
                self.record.id,
            )
    }
}

impl PlanView {
    /// Whether kind and parent agree in every folder of the plan.
    pub open spec fn kinds_fit(self) -> bool
        decreases self,
    {
        &&& self.record.kind_fits()
        &&& forall|i: int| 0 <= i < self.folders.len() ==> (#[trigger] self.folders[i]).kinds_fit()
    }
}

/// In a plan made from a description, the outermost folder is top-level
/// exactly if it is given no parent, and every folder nested in it is a
/// nested folder with the folder around it as its parent.
pub proof fn lemma_plan_kinds_fit(plan: PlanView, tree: TreeView, owner: Oid, parent: Option<Oid>)
    requires
        plan.follows(tree, owner, parent),
    ensures
        plan.kinds_fit(),
        plan.record.folder_type == Some(kind_under(parent)),
        plan.record.parent_id == parent,
        forall|i: int|
            0 <= i < plan.folders.len() ==> (#[trigger] plan.folders[i]).record.folder_type == Some(
                FolderType::Subfolder,
            ) && plan.folders[i].record.parent_id == plan.record.id,
    decreases plan,
{
    assert forall|i: int| 0 <= i < plan.folders.len() implies (#[trigger] plan.folders[i]).kinds_fit()
        && plan.folders[i].record.folder_type == Some(FolderType::Subfolder)
        && plan.folders[i].record.parent_id == plan.record.id by {
        lemma_plan_kinds_fit(plan.folders[i], tree.folder_list()[i], owner, plan.record.id);
    }
}

/// Makes a described tree ready for the store: draws an identity and the
/// time for every folder, and the time for every file.
///
/// The identities and times come from outside and nothing is known of them;
/// all else in the plan is fixed by the description.
pub fn plan_tree(description: FolderJSON, owner: Oid, parent: Option<Oid>) -> (plan: PlannedFolder)
    ensures
        plan@.follows(description@, owner, parent),
    decreases description,
{
    let ghost tree = description@;
    proof {
        lemma_tree_lists(description);
    }
    let id = fresh_id();
    let now = current_time();
    let FolderJSON { folder_name, files, folders, .. } = description;
    let record = plan_record(folder_name, owner, parent, id, now);
    let mut ready: Vec<File> = Vec::new();
    if let Some(list) = files {
        for file in it: list
            invariant
                files_view(it.seq()) == tree.file_list(),
                ready.len() == it.index(),
                forall|i: int|
                    0 <= i < ready.len() ==> (#[trigger] files_view(ready@)[i]).created_at is Some
                        && files_view(ready@)[i] == prepared(
                        tree.file_list()[i],
                        owner,
                        Some(id),
                        files_view(ready@)[i].created_at->0,
                    ),
        {
            let ghost before = files_view(ready@);
            let ghost k = it.index() as int;
            assert(file@ == tree.file_list()[k]) by {
                assert(files_view(it.seq())[k] == it.seq()[k]@);
            }
            ready.push(stamp_file(file, owner, Some(id)));
            assert forall|i: int| 0 <= i < ready.len() implies (#[trigger] files_view(
                ready@,
            )[i]).created_at is Some && files_view(ready@)[i] == prepared(
                tree.file_list()[i],
                owner,
                Some(id),
                files_view(ready@)[i].created_at->0,
            ) by {
                if i < k {
                    assert(files_view(ready@)[i] == before[i]);
                }
            }
        }
    }
    let mut nested: Vec<PlannedFolder> = Vec::new();
    if let Some(list) = folders {
        for child in it: list
            invariant
                description.folders == Some(list),
                it.seq() == list@,
                tree.folder_list().len() == list.len(),
                forall|i: int| 0 <= i < list.len() ==> tree.folder_list()[i] == (#[trigger] list[i])@,
                nested.len() == it.index(),
                forall|i: int|
                    0 <= i < nested.len() ==> (#[trigger] nested@[i])@.follows(
                        tree.folder_list()[i],
                        owner,
                        Some(id),
                    ),
        {
            let ghost k = it.index() as int;
            let ghost done = nested@;
            assert(child == list[k]);
            assert(decreases_to!(description => child)) by {
                vstd::std_specs::vec::axiom_vec_index_decreases(list, k);
                assert(decreases_to!(description.folders => description.folders->0));
            }
            assert(child@ == tree.folder_list()[k]);
            let planned = plan_tree(child, owner, Some(id));
            nested.push(planned);
            assert forall|i: int| 0 <= i < nested.len() implies (#[trigger] nested@[i])@.follows(
                tree.folder_list()[i],
                owner,
                Some(id),
            ) by {
                if i < k {
                    assert(nested@[i] == done[i]);
                }
            }
        }
    }
    let plan = PlannedFolder { record, files: ready, folders: nested };
    proof {
        assert(plan@.files == files_view(ready@));
        assert(plan@.folders.len() == tree.folder_list().len());
        assert forall|i: int| 0 <= i < plan@.folders.len() implies (#[trigger] plan@.folders[i]).follows(
            tree.folder_list()[i],
            owner,
            plan@.record.id,
        ) by {
            assert(plan@.folders[i] == nested@[i]@);
        }
    }
    plan
}

} // verus!
