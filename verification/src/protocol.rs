//! The requests that the engine puts to the document store, and the store's
//! replies. The engine never talks to a store itself: it says what it wants
//! next and is told what came back.

use crate::filter::{
    FileFilter, FileFilterView, FolderFilter, FolderFilterView, FolderUpdate, FolderUpdateView,
};
use crate::model::{files_view, folders_view, File, FileView, Folder, FolderView, Oid};
use vstd::prelude::*;

verus! {

/// One request to the store.
#[derive(Debug, PartialEq, Eq)]
pub enum StoreRequest {
    /// Read the files that the filter selects.
    FindFiles(FileFilter),
    /// Read the folders that the filter selects.
    FindFolders(FolderFilter),
    /// Store a new file; the store gives it its identity.
    InsertFile(File),
    /// Store a new folder under the identity it carries.
    InsertFolder(Folder),
    /// Remove the files that the filter selects.
    DeleteFiles(FileFilter),
    /// Remove the folders that the filter selects.
    DeleteFolders(FolderFilter),
    /// Change the child lists of the folders that the filter selects.
    UpdateFolders(FolderFilter, FolderUpdate),
}

/// What a `StoreRequest` holds.
pub enum RequestView {
    FindFiles(FileFilterView),
    FindFolders(FolderFilterView),
    InsertFile(FileView),
    InsertFolder(FolderView),
    DeleteFiles(FileFilterView),
    DeleteFolders(FolderFilterView),
    UpdateFolders(FolderFilterView, FolderUpdateView),
}

impl View for StoreRequest {
    type V = RequestView;

    open spec fn view(&self) -> RequestView {
        match self {
            StoreRequest::FindFiles(filter) => RequestView::FindFiles(filter@),
            StoreRequest::FindFolders(filter) => RequestView::FindFolders(filter@),
            StoreRequest::InsertFile(file) => RequestView::InsertFile(file@),
            StoreRequest::InsertFolder(folder) => RequestView::InsertFolder(folder@),
            StoreRequest::DeleteFiles(filter) => RequestView::DeleteFiles(filter@),
            StoreRequest::DeleteFolders(filter) => RequestView::DeleteFolders(filter@),
            StoreRequest::UpdateFolders(filter, update) => RequestView::UpdateFolders(
                filter@,
                update@,
            ),
        }
    }
}

impl RequestView {
    /// The owner whose entities the request reads or changes, where it says
    /// so: the owner of its filter, or the owner written on the entity.
    pub open spec fn owner(self) -> Option<Oid> {
        match self {
            RequestView::FindFiles(filter) => Some(filter.owner),
            RequestView::FindFolders(filter) => Some(filter.owner),
            RequestView::InsertFile(file) => file.user_id,
            RequestView::InsertFolder(folder) => folder.user_id,
            RequestView::DeleteFiles(filter) => Some(filter.owner),
            RequestView::DeleteFolders(filter) => Some(filter.owner),
            RequestView::UpdateFolders(filter, _) => Some(filter.owner),
        }
    }
}

/// The store's reply to one request.
#[derive(Debug, PartialEq, Eq)]
pub enum StoreReply {
    /// The files found.
    Files(Vec<File>),
    /// The folders found.
    Folders(Vec<Folder>),
    /// The identity under which an entity was stored.
    Inserted(Oid),
    /// How many entities were removed.
    Deleted(u64),
    /// How many folders were changed.
    Updated(u64),
    /// The store could not carry the request out.
    Failed,
}

/// What a `StoreReply` holds.
pub enum ReplyView {
    Files(Seq<FileView>),
    Folders(Seq<FolderView>),
    Inserted(Oid),
    Deleted(u64),
    Updated(u64),
    Failed,
}

impl View for StoreReply {
    type V = ReplyView;

    open spec fn view(&self) -> ReplyView {
        match self {
            StoreReply::Files(files) => ReplyView::Files(files_view(files@)),
            StoreReply::Folders(folders) => ReplyView::Folders(folders_view(folders@)),
            StoreReply::Inserted(id) => ReplyView::Inserted(*id),
            StoreReply::Deleted(count) => ReplyView::Deleted(*count),
            StoreReply::Updated(count) => ReplyView::Updated(*count),
            StoreReply::Failed => ReplyView::Failed,
        }
    }
}

} // verus!
