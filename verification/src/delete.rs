//! Removing folders from the store with all they hold, one request at a
//! time.
//!
//! Each folder asked for is loaded; one that the owner does not have is
//! passed over. Of a loaded folder, first every child folder is removed in
//! the same way, then every child file, then the folder is taken out of its
//! parent's list, and last the folder itself is removed. An entry missing
//! from the parent's list does not stop the folder from being removed. When
//! all is done the owner's top-level folders are read once more: they are the
//! result.
//!
//! The walk trusts the lists it reads to form a tree. Where a folder lists
//! itself, or a folder around it, the walk does not come to an end.

use crate::filter::{
    file_by_id, folder_by_id, FileFilter, FolderClauseView, FolderFilter, FolderFilterView,
    FolderUpdate, FolderUpdateView,
};
use crate::model::{clone_id_list, folders_view, Folder, FolderView, Oid, TreeError};
use crate::protocol::{ReplyView, RequestView, StoreReply, StoreRequest};
use vstd::prelude::*;

verus! {

/// A folder that is being removed.
#[derive(Debug, PartialEq, Eq)]
pub struct DeleteFrame {
    /// The folder's identity.
    pub id: Oid,
    /// The folder it lies in, if any.
    pub parent: Option<Oid>,
    /// The child folders still to be removed, the next one first.
    pub folders: Vec<Oid>,
    /// The child files still to be removed, the next one first.
    pub files: Vec<Oid>,
    /// Whether the folder has been taken out of its parent's list.
    pub unlinked: bool,
}

/// What a `DeleteFrame` holds.
pub struct DeleteFrameView {
    pub id: Oid,
    pub parent: Option<Oid>,
    pub folders: Seq<Oid>,
    pub files: Seq<Oid>,
    pub unlinked: bool,
}

impl View for DeleteFrame {
    type V = DeleteFrameView;

    open spec fn view(&self) -> DeleteFrameView {
        DeleteFrameView {
            id: self.id,
            parent: self.parent,
            folders: self.folders@,
            files: self.files@,
            unlinked: self.unlinked,
        }
    }
}

impl DeleteFrameView {
    /// The frame that starts on the folder loaded for `id`.
    pub open spec fn of(folder: FolderView, id: Oid) -> DeleteFrameView {
        DeleteFrameView {
            id,
            parent: folder.parent_id,
            folders: folder.child_folders(),
            files: folder.child_files(),
            unlinked: false,
        }
    }
}

/// The views of a list of frames, in order.
pub open spec fn delete_frames_view(frames: Seq<DeleteFrame>) -> Seq<DeleteFrameView> {
    frames.map_values(|f: DeleteFrame| f@)
}

/// The state of a walk that removes folders.
#[derive(Debug, PartialEq, Eq)]
pub struct DeleteWalk {
    /// The owner of everything the walk removes.
    pub owner: Oid,
    /// The folders asked for that are still to be removed, the next one
    /// first.
    pub roots: Vec<Oid>,
    /// The folders being emptied, the outermost first.
    pub stack: Vec<DeleteFrame>,
    /// The owner's top-level folders after the removal, once read.
    pub listing: Option<Vec<Folder>>,
    /// Why the walk ended early, if it did.
    pub failure: Option<TreeError>,
}

/// What a `DeleteWalk` holds.
pub struct DeleteView {
    pub owner: Oid,
    pub roots: Seq<Oid>,
    pub stack: Seq<DeleteFrameView>,
    pub listing: Option<Seq<FolderView>>,
    pub failure: Option<TreeError>,
}

impl View for DeleteWalk {
    type V = DeleteView;

    open spec fn view(&self) -> DeleteView {
        DeleteView {
            owner: self.owner,
            roots: self.roots@,
            stack: delete_frames_view(self.stack@),
            listing: match self.listing {
                Some(folders) => Some(folders_view(folders@)),
                None => None,
            },
            failure: self.failure,
        }
    }
}

/// What a walk that removes folders does next.
#[derive(Debug, PartialEq, Eq)]
pub enum DeleteStep {
    /// Put this request to the store and hand the reply to `accept`.
    Ask(StoreRequest),
    /// All is removed; these are the owner's top-level folders now.
    Done(Vec<Folder>),
    /// The walk has ended early.
    Failed(TreeError),
}

/// What a `DeleteStep` holds.
pub enum DeleteStepView {
    Ask(RequestView),
    Done(Seq<FolderView>),
    Failed(TreeError),
}

impl View for DeleteStep {
    type V = DeleteStepView;

    open spec fn view(&self) -> DeleteStepView {
        match self {
            DeleteStep::Ask(request) => DeleteStepView::Ask(request@),
            DeleteStep::Done(folders) => DeleteStepView::Done(folders_view(folders@)),
            DeleteStep::Failed(error) => DeleteStepView::Failed(*error),
        }
    }
}

/// The request that reads the folder `id` of `owner`.
pub open spec fn load_folder(owner: Oid, id: Oid) -> RequestView {
    RequestView::FindFolders(folder_by_id(owner, id))
}

/// The request that removes the file `id` of `owner`.
pub open spec fn remove_file(owner: Oid, id: Oid) -> RequestView {
    RequestView::DeleteFiles(file_by_id(owner, id))
}

/// The request that takes the folder `id` out of the list of `parent`.
pub open spec fn unlink_folder(owner: Oid, parent: Oid, id: Oid) -> RequestView {
    RequestView::UpdateFolders(folder_by_id(owner, parent), FolderUpdateView::PullFolder(id))
}

/// The request that removes the folder `id` of `owner`.
pub open spec fn remove_folder(owner: Oid, id: Oid) -> RequestView {
    RequestView::DeleteFolders(folder_by_id(owner, id))
}

/// The request that reads the top-level folders of `owner`.
pub open spec fn list_roots(owner: Oid) -> RequestView {
    RequestView::FindFolders(FolderFilterView { owner, clause: FolderClauseView::Roots })
}

impl DeleteView {
    /// The walk that is to remove `roots` for `owner`.
    pub open spec fn starting(owner: Oid, roots: Seq<Oid>) -> DeleteView {
        DeleteView { owner, roots, stack: Seq::empty(), listing: None, failure: None }
    }

    /// The innermost folder being emptied.
    pub open spec fn top(self) -> DeleteFrameView {
        self.stack.last()
    }

    /// The walk with its innermost frame replaced.
    pub open spec fn with_top(self, frame: DeleteFrameView) -> DeleteView {
        DeleteView { stack: self.stack.drop_last().push(frame), ..self }
    }

    /// The walk, ended by `error`.
    pub open spec fn failed(self, error: TreeError) -> DeleteView {
        DeleteView { failure: Some(error), ..self }
    }

    /// The folder to load next: the next child folder of the innermost
    /// folder, or, with no folder being emptied, the next folder asked for.
    pub open spec fn loading(self) -> Option<Oid> {
        if self.stack.len() > 0 {
            if self.top().folders.len() > 0 {
                Some(self.top().folders[0])
            } else {
                None
            }
        } else if self.roots.len() > 0 {
            Some(self.roots[0])
        } else {
            None
        }
    }

    /// What the walk does next.
    pub open spec fn wants(self) -> DeleteStepView {
        if self.failure is Some {
            DeleteStepView::Failed(self.failure->0)
        } else if self.listing is Some {
            DeleteStepView::Done(self.listing->0)
        } else if self.loading() is Some {
            DeleteStepView::Ask(load_folder(self.owner, self.loading()->0))
        } else if self.stack.len() > 0 {
            let top = self.top();
            if top.files.len() > 0 {
                DeleteStepView::Ask(remove_file(self.owner, top.files[0]))
            } else if top.parent is Some && !top.unlinked {
                DeleteStepView::Ask(unlink_folder(self.owner, top.parent->0, top.id))
            } else {
                DeleteStepView::Ask(remove_folder(self.owner, top.id))
            }
        } else {
            DeleteStepView::Ask(list_roots(self.owner))
        }
    }

    /// The walk once the folder it was loading is struck off the list it
    /// came from.
    pub open spec fn passed(self) -> DeleteView {
        if self.stack.len() > 0 {
            self.with_top(
                DeleteFrameView { folders: self.top().folders.drop_first(), ..self.top() },
            )
        } else {
            DeleteView { roots: self.roots.drop_first(), ..self }
        }
    }

    /// The walk once the store has said what it found of the folder `id`:
    /// the folder is taken up if it is among `found`, and passed over if not.
    pub open spec fn loaded(self, id: Oid, found: Seq<FolderView>) -> DeleteView {
        let filter = folder_by_id(self.owner, id);
        let next = self.passed();
        match filter.first_match(found) {
            Some(folder) => DeleteView {
                stack: next.stack.push(DeleteFrameView::of(folder, id)),
                ..next
            },
            None => next,
        }
    }

    /// The walk once the store's reply to its request is taken in. A reply of
    /// another kind than asked for ends the walk as `StoreUnavailable`.
    pub open spec fn after(self, reply: ReplyView) -> DeleteView {
        if self.failure is Some || self.listing is Some {
            self
        } else if self.loading() is Some {
            match reply {
                ReplyView::Folders(found) => self.loaded(self.loading()->0, found),
                _ => self.failed(TreeError::StoreUnavailable),
            }
        } else if self.stack.len() > 0 {
            let top = self.top();
            if top.files.len() > 0 {
                match reply {
                    ReplyView::Deleted(_) => self.with_top(
                        DeleteFrameView { files: top.files.drop_first(), ..top },
                    ),
                    _ => self.failed(TreeError::StoreUnavailable),
                }
            } else if top.parent is Some && !top.unlinked {
                match reply {
                    ReplyView::Updated(_) => self.with_top(
                        DeleteFrameView { unlinked: true, ..top },
                    ),
                    _ => self.failed(TreeError::StoreUnavailable),
                }
            } else {
                match reply {
                    ReplyView::Deleted(_) => DeleteView { stack: self.stack.drop_last(), ..self },
                    _ => self.failed(TreeError::StoreUnavailable),
                }
            }
        } else {
            match reply {
                ReplyView::Folders(found) => DeleteView { listing: Some(found), ..self },
                _ => self.failed(TreeError::StoreUnavailable),
            }
        }
    }
}

impl DeleteFrame {
    /// The frame that starts on the folder loaded for `id`.
    pub fn of(folder: &Folder, id: Oid) -> (frame: DeleteFrame)
        ensures
            frame@ == DeleteFrameView::of(folder@, id),
    {
        let folders = match &folder.folders {
            Some(list) => clone_id_list(list),
            None => Vec::new(),
        };
        let files = match &folder.files {
            Some(list) => clone_id_list(list),
            None => Vec::new(),
        };
        DeleteFrame { id, parent: folder.parent_id, folders, files, unlinked: false }
    }
}

impl DeleteWalk {
    /// Starts the walk that removes the folders `roots` of `owner`, in the
    /// order given, each with all it holds.
    pub fn new(owner: Oid, roots: Vec<Oid>) -> (walk: Self)
        ensures
            walk@ == DeleteView::starting(owner, roots@),
    {
        let walk = DeleteWalk { owner, roots, stack: Vec::new(), listing: None, failure: None };
        assert(walk@.stack =~= Seq::empty());
        walk
    }

    /// The folder to load next, if the walk is about to load one.
    fn loading(&self) -> (id: Option<Oid>)
        ensures
            id == self@.loading(),
    {
        let depth = self.stack.len();
        if depth > 0 {
            assert(self@.top() == self.stack@[depth - 1]@);
            if self.stack[depth - 1].folders.len() > 0 {
                Some(self.stack[depth - 1].folders[0])
            } else {
                None
            }
        } else if self.roots.len() > 0 {
            Some(self.roots[0])
        } else {
            None
        }
    }

    /// What the walk does next.
    pub fn request(&self) -> (step: DeleteStep)
        ensures
            step@ == self@.wants(),
    {
        if let Some(error) = self.failure {
            return DeleteStep::Failed(error);
        }
        if let Some(folders) = &self.listing {
            let mut copy: Vec<Folder> = Vec::new();
            let mut i: usize = 0;
            while i < folders.len()
                invariant
                    i <= folders.len(),
                    folders_view(copy@) == folders_view(folders@).take(i as int),
                decreases folders.len() - i,
            {
                let ghost before = folders_view(copy@);
                copy.push(folders[i].clone());
                assert(folders_view(copy@) =~= before.push(folders@[i as int]@));
                assert(folders_view(folders@).take(i + 1) =~= folders_view(folders@).take(
                    i as int,
                ).push(folders@[i as int]@));
                i += 1;
            }
            assert(folders_view(folders@).take(folders.len() as int) =~= folders_view(folders@));
            return DeleteStep::Done(copy);
        }
        if let Some(id) = self.loading() {
            return DeleteStep::Ask(StoreRequest::FindFolders(FolderFilter::by_id(self.owner, id)));
        }
        let depth = self.stack.len();
        if depth > 0 {
            let top = &self.stack[depth - 1];
            assert(self@.top() == top@);
            if top.files.len() > 0 {
                DeleteStep::Ask(StoreRequest::DeleteFiles(FileFilter::by_id(self.owner, top.files[0])))
            } else {
                if !top.unlinked {
                    if let Some(parent) = top.parent {
                        return DeleteStep::Ask(
                            StoreRequest::UpdateFolders(
                                FolderFilter::by_id(self.owner, parent),
                                FolderUpdate::PullFolder(top.id),
                            ),
                        );
                    }
                }
                DeleteStep::Ask(StoreRequest::DeleteFolders(FolderFilter::by_id(self.owner, top.id)))
            }
        } else {
            DeleteStep::Ask(StoreRequest::FindFolders(FolderFilter::roots(self.owner)))
        }
    }

    /// Takes in the store's reply to the request that `request` gave.
    pub fn accept(&mut self, reply: StoreReply)
        ensures
            final(self)@ == old(self)@.after(reply@),
    {
        if self.failure.is_some() || self.listing.is_some() {
            return ;
        }
        let depth = self.stack.len();
        if let Some(id) = self.loading() {
            match reply {
                StoreReply::Folders(found) => {
                    let filter = FolderFilter::by_id(self.owner, id);
                    let taken = match filter.first_match(&found) {
                        Some(folder) => Some(DeleteFrame::of(folder, id)),
                        None => None,
                    };
                    if depth > 0 {
                        let ghost frames = self@.stack;
                        let mut top = self.stack.pop().unwrap();
                        assert(delete_frames_view(self.stack@) =~= frames.drop_last());
                        let _ = top.folders.remove(0);
                        assert(top.folders@ =~= old(self)@.top().folders.drop_first());
                        self.stack.push(top);
                    } else {
                        let _ = self.roots.remove(0);
                        assert(self.roots@ =~= old(self)@.roots.drop_first());
                    }
                    assert(self@.stack =~= old(self)@.passed().stack);
                    if let Some(frame) = taken {
                        self.stack.push(frame);
                    }
                    assert(self@.stack =~= old(self)@.loaded(id, reply@->Folders_0).stack);
                },
                _ => {
                    self.failure = Some(TreeError::StoreUnavailable);
                },
            }
        } else if depth > 0 {
            let ghost frames = self@.stack;
            let mut top = self.stack.pop().unwrap();
            assert(delete_frames_view(self.stack@) =~= frames.drop_last());
            assert(top@ == frames.last());
            if top.files.len() > 0 {
                match reply {
                    StoreReply::Deleted(_) => {
                        let _ = top.files.remove(0);
                        assert(top.files@ =~= frames.last().files.drop_first());
                        self.stack.push(top);
                    },
                    _ => {
                        self.stack.push(top);
                        self.failure = Some(TreeError::StoreUnavailable);
                    },
                }
            } else if top.parent.is_some() && !top.unlinked {
                match reply {
                    StoreReply::Updated(_) => {
                        top.unlinked = true;
                        self.stack.push(top);
                    },
                    _ => {
                        self.stack.push(top);
                        self.failure = Some(TreeError::StoreUnavailable);
                    },
                }
            } else {
                match reply {
                    StoreReply::Deleted(_) => {},
                    _ => {
                        self.stack.push(top);
                        self.failure = Some(TreeError::StoreUnavailable);
                    },
                }
            }
            assert(self@.stack =~= old(self)@.after(reply@).stack);
        } else {
            match reply {
                StoreReply::Folders(found) => {
                    self.listing = Some(found);
                },
                _ => {
                    self.failure = Some(TreeError::StoreUnavailable);
                },
            }
        }
    }
}

} // verus!
