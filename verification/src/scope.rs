//! Which files and folders a listing is about: those in one folder, or those
//! at the top level.

use crate::filter::{
    folder_by_id, FileClauseView, FileFilter, FileFilterView, FolderClauseView, FolderFilter,
    FolderFilterView,
};
use crate::model::{clone_id_list, folders_view, Folder, FolderView, Oid};
use crate::protocol::{RequestView, StoreRequest};
use vstd::prelude::*;

verus! {

/// The top level of `owner`: the files that lie in no folder, and the
/// top-level folders.
pub open spec fn top_level_scope(owner: Oid) -> (FileFilterView, FolderFilterView) {
    (
        FileFilterView { owner, clause: FileClauseView::TopLevel },
        FolderFilterView { owner, clause: FolderClauseView::Roots },
    )
}

/// The inside of `folder`: the files and the folders that its lists name.
pub open spec fn folder_scope(owner: Oid, folder: FolderView) -> (FileFilterView, FolderFilterView) {
    (
        FileFilterView { owner, clause: FileClauseView::Ids(folder.child_files()) },
        FolderFilterView { owner, clause: FolderClauseView::Ids(folder.child_folders()) },
    )
}

/// The scope for `folder_id`, given what the store found of that folder:
/// the inside of the folder where `owner` has it, the top level where no
/// folder is asked for or the owner has none of that identity.
pub open spec fn scope_of(owner: Oid, folder_id: Option<Oid>, loaded: Seq<FolderView>) -> (
    FileFilterView,
    FolderFilterView,
) {
    match folder_id {
        None => top_level_scope(owner),
        Some(id) => match folder_by_id(owner, id).first_match(loaded) {
            Some(folder) => folder_scope(owner, folder),
            None => top_level_scope(owner),
        },
    }
}

/// The request that reads the folder whose inside is asked for; none where
/// the top level is asked for.
pub fn scope_lookup(owner: Oid, folder_id: Option<Oid>) -> (request: Option<StoreRequest>)
    ensures
        match request {
            Some(ask) => folder_id is Some && ask@ == RequestView::FindFolders(
                folder_by_id(owner, folder_id->0),
            ),
            None => folder_id is None,
        },
{
    match folder_id {
        Some(id) => Some(StoreRequest::FindFolders(FolderFilter::by_id(owner, id))),
        None => None,
    }
}

/// Resolves the scope of a listing: the filter for its files and the filter
/// for its folders. `loaded` is what the store found of the folder
/// `folder_id`; it is not looked at where no folder is asked for.
pub fn resolve_scope(owner: Oid, folder_id: Option<Oid>, loaded: &Vec<Folder>) -> (scope: (
    FileFilter,
    FolderFilter,
))
    ensures
        (scope.0@, scope.1@) == scope_of(owner, folder_id, folders_view(loaded@)),
{
    if let Some(id) = folder_id {
        let filter = FolderFilter::by_id(owner, id);
        if let Some(folder) = filter.first_match(loaded) {
            let files = match &folder.files {
                Some(list) => clone_id_list(list),
                None => Vec::new(),
            };
            let folders = match &folder.folders {
                Some(list) => clone_id_list(list),
                None => Vec::new(),
            };
            return (FileFilter::by_ids(owner, files), FolderFilter::by_ids(owner, folders));
        }
    }
    (FileFilter::top_level(owner), FolderFilter::roots(owner))
}

/// A scope asked for by the identity of a folder that the owner does not
/// have is the scope asked for without any identity: the top level.
pub proof fn lemma_scope_falls_back(
    owner: Oid,
    id: Oid,
    loaded: Seq<FolderView>,
    other: Seq<FolderView>,
)
    requires
        forall|i: int| 0 <= i < loaded.len() ==> !folder_by_id(owner, id).matches(#[trigger] loaded[i]),
    ensures
        scope_of(owner, Some(id), loaded) == scope_of(owner, None, other),
        scope_of(owner, None, other) == top_level_scope(owner),
{
}

} // verus!
