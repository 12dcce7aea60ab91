//! Creating a planned tree in the store, one request at a time.
//!
//! The walk goes depth first. A folder's files are stored first, each after a
//! count of the files that already carry its name; then the folders nested in
//! it, each with all it holds; then the folder itself, in one write that
//! lists the identities of its children. Nothing is undone when a request
//! fails: what was stored before stays stored, and the walk ends.

use crate::filter::{
    folder_by_id, FileClauseView, FileFilter, FileFilterView, FolderFilter, FolderUpdate,
    FolderUpdateView,
};
use crate::model::{files_view, with_id, File, FileView, Folder, FolderView, Oid, TreeError};
use crate::naming::{numbered, numbered_name};
use crate::plan::{lemma_plan_lists, plans_view, PlanView, PlannedFolder};
use crate::protocol::{ReplyView, RequestView, StoreReply, StoreRequest};
use vstd::prelude::*;

verus! {

/// A folder whose contents are being stored.
#[derive(Debug, PartialEq, Eq)]
pub struct CreateFrame {
    /// The folder's record; its child lists grow as children are stored.
    pub record: Folder,
    /// The files still to be stored, the next one first.
    pub files: Vec<File>,
    /// Whether the files that share the next file's name have been counted.
    pub counted: bool,
    /// The nested folders still to be created, the next one first.
    pub folders: Vec<PlannedFolder>,
}

/// What a `CreateFrame` holds.
pub struct FrameView {
    pub record: FolderView,
    pub files: Seq<FileView>,
    pub counted: bool,
    pub folders: Seq<PlanView>,
}

impl View for CreateFrame {
    type V = FrameView;

    open spec fn view(&self) -> FrameView {
        FrameView {
            record: self.record@,
            files: files_view(self.files@),
            counted: self.counted,
            folders: plans_view(self.folders@),
        }
    }
}

/// The views of a list of frames, in order.
pub open spec fn frames_view(frames: Seq<CreateFrame>) -> Seq<FrameView> {
    frames.map_values(|f: CreateFrame| f@)
}

/// The record of a folder with one more child file.
pub open spec fn with_file(record: FolderView, id: Oid) -> FolderView {
    FolderView { files: Some(record.child_files().push(id)), ..record }
}

/// The record of a folder with one more child folder.
pub open spec fn with_folder(record: FolderView, id: Oid) -> FolderView {
    FolderView { folders: Some(record.child_folders().push(id)), ..record }
}

/// The name under which a file is stored when `count` files already carry
/// the name it came with.
pub open spec fn stored_name(name: Seq<char>, count: nat) -> Seq<char> {
    if count > 0 {
        numbered(name, count)
    } else {
        name
    }
}

impl FrameView {
    /// The frame that starts on a planned folder.
    pub open spec fn of(plan: PlanView) -> FrameView {
        FrameView { record: plan.record, files: plan.files, counted: false, folders: plan.folders }
    }

    /// The frame once `count` files were found to carry the next file's name.
    pub open spec fn named(self, count: nat) -> FrameView {
        FrameView {
            files: self.files.update(
                0,
                FileView {
                    file_name: stored_name(self.files[0].file_name, count),
                    ..self.files[0]
                },
            ),
            counted: true,
            ..self
        }
    }

    /// The frame once its next file was stored as `id`.
    pub open spec fn stored(self, id: Oid) -> FrameView {
        FrameView {
            record: with_file(self.record, id),
            files: self.files.drop_first(),
            counted: false,
            ..self
        }
    }
}

/// The state of a walk that creates a tree.
#[derive(Debug, PartialEq, Eq)]
pub struct CreateWalk {
    /// The owner of everything the walk stores.
    pub owner: Oid,
    /// The existing folder that the new tree is to hang under, if any.
    pub link: Option<Oid>,
    /// The folders being filled, the outermost first.
    pub stack: Vec<CreateFrame>,
    /// The outermost folder as it was stored, once it is.
    pub root: Option<Folder>,
    /// Whether the outermost folder has been entered in `link`.
    pub linked: bool,
    /// Why the walk ended early, if it did.
    pub failure: Option<TreeError>,
}

/// What a `CreateWalk` holds.
pub struct WalkView {
    pub owner: Oid,
    pub link: Option<Oid>,
    pub stack: Seq<FrameView>,
    pub root: Option<FolderView>,
    pub linked: bool,
    pub failure: Option<TreeError>,
}

impl View for CreateWalk {
    type V = WalkView;

    open spec fn view(&self) -> WalkView {
        WalkView {
            owner: self.owner,
            link: self.link,
            stack: frames_view(self.stack@),
            root: match self.root {
                Some(folder) => Some(folder@),
                None => None,
            },
            linked: self.linked,
            failure: self.failure,
        }
    }
}

/// What a walk that creates a tree does next.
#[derive(Debug, PartialEq, Eq)]
pub enum CreateStep {
    /// Put this request to the store and hand the reply to `accept`.
    Ask(StoreRequest),
    /// The tree is stored; this is its outermost folder.
    Done(Folder),
    /// The walk has ended early.
    Failed(TreeError),
}

/// What a `CreateStep` holds.
pub enum CreateStepView {
    Ask(RequestView),
    Done(FolderView),
    Failed(TreeError),
}

impl View for CreateStep {
    type V = CreateStepView;

    open spec fn view(&self) -> CreateStepView {
        match self {
            CreateStep::Ask(request) => CreateStepView::Ask(request@),
            CreateStep::Done(folder) => CreateStepView::Done(folder@),
            CreateStep::Failed(error) => CreateStepView::Failed(*error),
        }
    }
}

impl WalkView {
    /// The walk that starts on `plan`.
    pub open spec fn starting(plan: PlanView, owner: Oid, link: Option<Oid>) -> WalkView {
        WalkView {
            owner,
            link,
            stack: seq![FrameView::of(plan)],
            root: None,
            linked: false,
            failure: None,
        }
    }

    /// The innermost folder being filled.
    pub open spec fn top(self) -> FrameView {
        self.stack.last()
    }

    /// The walk with its innermost frame replaced.
    pub open spec fn with_top(self, frame: FrameView) -> WalkView {
        WalkView { stack: self.stack.drop_last().push(frame), ..self }
    }

    /// The walk, ended by `error`.
    pub open spec fn failed(self, error: TreeError) -> WalkView {
        WalkView { failure: Some(error), ..self }
    }

    /// Whether the innermost folder has no file left to store but a nested
    /// folder left to create.
    pub open spec fn must_open(self) -> bool {
        &&& self.failure is None
        &&& self.stack.len() > 0
        &&& self.top().files.len() == 0
        &&& self.top().folders.len() > 0
    }

    /// The walk once the innermost folder's next nested folder was taken up.
    pub open spec fn opened(self) -> WalkView {
        let top = self.top();
        WalkView {
            stack: self.stack.drop_last().push(
                FrameView { folders: top.folders.drop_first(), ..top },
            ).push(FrameView::of(top.folders[0])),
            ..self
        }
    }

    /// The nested folders that the innermost folder has left to create.
    pub open spec fn pending(self) -> Seq<PlanView> {
        if self.stack.len() > 0 {
            self.top().folders
        } else {
            Seq::empty()
        }
    }

    /// The walk once it has gone down to the first folder that has a file to
    /// store or nothing nested in it.
    pub open spec fn settled(self) -> WalkView
        decreases self.pending(),
    {
        if self.must_open() {
            self.opened().settled()
        } else {
            self
        }
    }

    /// What the walk does next.
    ///
    /// In the innermost folder: count the files that carry the next file's
    /// name, then store that file; with no file left, store the folder. With
    /// all folders stored: enter the tree in the folder it hangs under, if
    /// one was named; then the walk is done.
    pub open spec fn wants(self) -> CreateStepView {
        if self.failure is Some {
            CreateStepView::Failed(self.failure->0)
        } else if self.stack.len() > 0 {
            let top = self.top();
            if top.files.len() > 0 {
                if top.counted {
                    CreateStepView::Ask(RequestView::InsertFile(top.files[0]))
                } else {
                    CreateStepView::Ask(
                        RequestView::FindFiles(
                            FileFilterView {
                                owner: self.owner,
                                clause: FileClauseView::OriginalName(top.files[0].file_name),
                            },
                        ),
                    )
                }
            } else {
                CreateStepView::Ask(RequestView::InsertFolder(top.record))
            }
        } else if self.root is None {
            CreateStepView::Failed(TreeError::InvalidState)
        } else if self.link is Some && !self.linked && self.root->0.id is Some {
            CreateStepView::Ask(
                RequestView::UpdateFolders(
                    folder_by_id(self.owner, self.link->0),
                    FolderUpdateView::PushFolder(self.root->0.id->0),
                ),
            )
        } else {
            CreateStepView::Done(self.root->0)
        }
    }

    /// The walk once its innermost folder was stored as `id`: the folder is
    /// entered in the one around it, or, being the outermost, kept as the
    /// result.
    pub open spec fn closed(self, id: Oid) -> WalkView {
        let rest = self.stack.drop_last();
        if rest.len() > 0 {
            WalkView {
                stack: rest.drop_last().push(
                    FrameView { record: with_folder(rest.last().record, id), ..rest.last() },
                ),
                ..self
            }
        } else {
            WalkView { stack: rest, root: Some(self.top().record), ..self }
        }
    }

    /// The walk once the store's reply to its request is taken in. A reply
    /// of another kind than asked for ends the walk as `StoreUnavailable`; a
    /// folder stored under another identity than its own ends it as
    /// `InvalidState`; a tree whose named parent does not exist for this
    /// owner ends it as `NotFound`.
    pub open spec fn takes(self, reply: ReplyView) -> WalkView {
        match self.wants() {
            CreateStepView::Ask(RequestView::FindFiles(_)) => match reply {
                ReplyView::Files(found) => self.with_top(self.top().named(found.len())),
                _ => self.failed(TreeError::StoreUnavailable),
            },
            CreateStepView::Ask(RequestView::InsertFile(_)) => match reply {
                ReplyView::Inserted(id) => self.with_top(self.top().stored(id)),
                _ => self.failed(TreeError::StoreUnavailable),
            },
            CreateStepView::Ask(RequestView::InsertFolder(folder)) => match reply {
                ReplyView::Inserted(id) => if folder.id == Some(id) {
                    self.closed(id)
                } else {
                    self.failed(TreeError::InvalidState)
                },
                _ => self.failed(TreeError::StoreUnavailable),
            },
            CreateStepView::Ask(RequestView::UpdateFolders(_, _)) => match reply {
                ReplyView::Updated(count) => if count > 0 {
                    WalkView { linked: true, ..self }
                } else {
                    self.failed(TreeError::NotFound)
                },
                _ => self.failed(TreeError::StoreUnavailable),
            },
            _ => self,
        }
    }

    /// The walk after one reply: the reply is taken in, and the walk goes
    /// down to where its next request arises.
    pub open spec fn after(self, reply: ReplyView) -> WalkView {
        self.takes(reply).settled()
    }
}

impl CreateFrame {
    /// The frame that starts on a planned folder.
    pub fn of(plan: PlannedFolder) -> (frame: CreateFrame)
        ensures
            frame@ == FrameView::of(plan@),
    {
        proof {
            lemma_plan_lists(plan);
        }
        let PlannedFolder { record, files, folders } = plan;
        CreateFrame { record, files, counted: false, folders }
    }

    /// Gives the next file the name it is stored under, `count` files
    /// carrying its name already.
    fn name_next(&mut self, count: usize)
        requires
            old(self).files.len() > 0,
        ensures
            final(self)@ == old(self)@.named(count as nat),
    {
        if count > 0 {
            let ghost before = files_view(self.files@);
            let mut file = self.files.remove(0);
            file.file_name = numbered_name(file.file_name.as_str(), count);
            self.files.insert(0, file);
            assert(files_view(self.files@) =~= before.update(0, file@));
        }
        self.counted = true;
        assert(self@.files =~= old(self)@.named(count as nat).files);
    }

    /// Drops the next file, stored as `id`, and enters it in the record.
    fn store_next(&mut self, id: Oid)
        requires
            old(self).files.len() > 0,
        ensures
            final(self)@ == old(self)@.stored(id),
    {
        let ghost before = files_view(self.files@);
        let _ = self.files.remove(0);
        assert(files_view(self.files@) =~= before.drop_first());
        let files = self.record.files.take();
        self.record.files = with_id(files, id);
        self.counted = false;
    }

    /// Enters a nested folder, stored as `id`, in the record.
    fn adopt(&mut self, id: Oid)
        ensures
            final(self)@ == (FrameView { record: with_folder(old(self)@.record, id), ..old(self)@ }),
    {
        let folders = self.record.folders.take();
        self.record.folders = with_id(folders, id);
    }
}

impl CreateWalk {
    /// Starts the walk that stores `plan` for `owner`. Where `link` names a
    /// folder, the stored tree is entered in it at the end.
    pub fn new(plan: PlannedFolder, owner: Oid, link: Option<Oid>) -> (walk: Self)
        ensures
            walk@ == WalkView::starting(plan@, owner, link).settled(),
            !walk@.must_open(),
    {
        let mut stack: Vec<CreateFrame> = Vec::new();
        stack.push(CreateFrame::of(plan));
        let mut walk = CreateWalk { owner, link, stack, root: None, linked: false, failure: None };
        assert(walk@.stack =~= seq![FrameView::of(plan@)]);
        walk.settle();
        walk
    }

    /// Goes down to the first folder that has a file to store or nothing
    /// nested in it.
    fn settle(&mut self)
        ensures
            final(self)@ == old(self)@.settled(),
            !final(self)@.must_open(),
    {
        loop
            invariant
                self@.settled() == old(self)@.settled(),
            ensures
                self@ == old(self)@.settled(),
                !self@.must_open(),
            decreases self@.pending(),
        {
            let depth = self.stack.len();
            if self.failure.is_some() || depth == 0 {
                break ;
            }
            assert(self@.top() == self.stack@[depth - 1]@);
            if self.stack[depth - 1].files.len() > 0 || self.stack[depth - 1].folders.len() == 0 {
                break ;
            }
            let ghost before = self@;
            let mut top = self.stack.pop().unwrap();
            let ghost rest = plans_view(top.folders@);
            let child = top.folders.remove(0);
            assert(child@ == rest[0]);
            assert(plans_view(top.folders@) =~= rest.drop_first());
            self.stack.push(top);
            self.stack.push(CreateFrame::of(child));
            assert(self@.stack =~= before.opened().stack);
        }
    }

    /// What the walk does next.
    pub fn request(&self) -> (step: CreateStep)
        ensures
            step@ == self@.wants(),
    {
        if let Some(error) = self.failure {
            return CreateStep::Failed(error);
        }
        let depth = self.stack.len();
        if depth > 0 {
            let top = &self.stack[depth - 1];
            assert(self@.top() == top@);
            if top.files.len() > 0 {
                let file = &top.files[0];
                assert(top@.files[0] == file@);
                if top.counted {
                    CreateStep::Ask(StoreRequest::InsertFile(file.clone()))
                } else {
                    CreateStep::Ask(
                        StoreRequest::FindFiles(
                            FileFilter::named_originally(self.owner, file.file_name.clone()),
                        ),
                    )
                }
            } else {
                CreateStep::Ask(StoreRequest::InsertFolder(top.record.clone()))
            }
        } else {
            match &self.root {
                None => CreateStep::Failed(TreeError::InvalidState),
                Some(root) => {
                    if !self.linked {
                        if let Some(parent) = self.link {
                            if let Some(id) = root.id {
                                return CreateStep::Ask(
                                    StoreRequest::UpdateFolders(
                                        FolderFilter::by_id(self.owner, parent),
                                        FolderUpdate::PushFolder(id),
                                    ),
                                );
                            }
                        }
                    }
                    CreateStep::Done(root.clone())
                },
            }
        }
    }

    /// Takes in the store's reply to the request that `request` gave.
    fn take(&mut self, reply: StoreReply)
        ensures
            final(self)@ == old(self)@.takes(reply@),
    {
        if self.failure.is_some() {
            return ;
        }
        let depth = self.stack.len();
        if depth > 0 {
            let ghost frames = self@.stack;
            let mut top = self.stack.pop().unwrap();
            assert(frames_view(self.stack@) =~= frames.drop_last());
            assert(top@ == frames.last());
            if top.files.len() > 0 {
                if !top.counted {
                    match reply {
                        StoreReply::Files(found) => {
                            top.name_next(found.len());
                            self.stack.push(top);
                        },
                        _ => {
                            self.stack.push(top);
                            self.failure = Some(TreeError::StoreUnavailable);
                        },
                    }
                } else {
                    match reply {
                        StoreReply::Inserted(id) => {
                            top.store_next(id);
                            self.stack.push(top);
                        },
                        _ => {
                            self.stack.push(top);
                            self.failure = Some(TreeError::StoreUnavailable);
                        },
                    }
                }
            } else {
                match reply {
                    StoreReply::Inserted(id) => {
                        let own = match top.record.id {
                            Some(own) => own == id,
                            None => false,
                        };
                        if !own {
                            self.stack.push(top);
                            self.failure = Some(TreeError::InvalidState);
                        } else if self.stack.len() > 0 {
                            let ghost rest = frames_view(self.stack@);
                            let mut outer = self.stack.pop().unwrap();
                            assert(frames_view(self.stack@) =~= rest.drop_last());
                            outer.adopt(id);
                            self.stack.push(outer);
                        } else {
                            self.root = Some(top.record);
                        }
                    },
                    _ => {
                        self.stack.push(top);
                        self.failure = Some(TreeError::StoreUnavailable);
                    },
                }
            }
            assert(self@.stack =~= old(self)@.takes(reply@).stack);
        } else if self.root.is_some() && self.link.is_some() && !self.linked {
            let known = match &self.root {
                Some(root) => root.id.is_some(),
                None => false,
            };
            if known {
                match reply {
                    StoreReply::Updated(count) => {
                        if count > 0 {
                            self.linked = true;
                        } else {
                            self.failure = Some(TreeError::NotFound);
                        }
                    },
                    _ => {
                        self.failure = Some(TreeError::StoreUnavailable);
                    },
                }
            }
        }
    }

    /// Takes in the store's reply to the request that `request` gave, and
    /// goes on to where the next request arises.
    pub fn accept(&mut self, reply: StoreReply)
        ensures
            final(self)@ == old(self)@.after(reply@),
            !final(self)@.must_open(),
    {
        self.take(reply);
        self.settle();
    }
}

} // verus!
