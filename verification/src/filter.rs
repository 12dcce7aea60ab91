//! What a store request selects and changes. Every filter names the owner
//! whose entities it is about: no request can be written without one.

use crate::model::{
    clone_id_list, contains_id, folders_view, File, FileView, Folder, FolderType, FolderView, Oid,
};
use vstd::prelude::*;

verus! {

/// Which of an owner's files a request is about.
#[derive(Debug, PartialEq, Eq)]
pub enum FileClause {
    /// Every file.
    All,
    /// The files that lie in no folder.
    TopLevel,
    /// The files whose identity is in the list.
    Ids(Vec<Oid>),
    /// The files first stored under this name.
    OriginalName(String),
    /// The files with this type tag.
    Type(String),
}

/// What a `FileClause` holds.
pub enum FileClauseView {
    All,
    TopLevel,
    Ids(Seq<Oid>),
    OriginalName(Seq<char>),
    Type(Seq<char>),
}

impl View for FileClause {
    type V = FileClauseView;

    open spec fn view(&self) -> FileClauseView {
        match self {
            FileClause::All => FileClauseView::All,
            FileClause::TopLevel => FileClauseView::TopLevel,
            FileClause::Ids(ids) => FileClauseView::Ids(ids@),
            FileClause::OriginalName(name) => FileClauseView::OriginalName(name@),
            FileClause::Type(tag) => FileClauseView::Type(tag@),
        }
    }
}

impl FileClauseView {
    /// Whether the clause holds of `file`.
    pub open spec fn holds(self, file: FileView) -> bool {
        match self {
            FileClauseView::All => true,
            FileClauseView::TopLevel => file.folder_id is None,
            FileClauseView::Ids(ids) => file.id is Some && ids.contains(file.id->0),
            FileClauseView::OriginalName(name) => file.original_file_name == Some(name),
            FileClauseView::Type(tag) => file.file_type == tag,
        }
    }
}

/// A selection of files: those of `owner` of which `clause` holds.
#[derive(Debug, PartialEq, Eq)]
pub struct FileFilter {
    pub owner: Oid,
    pub clause: FileClause,
}

/// What a `FileFilter` holds.
pub struct FileFilterView {
    pub owner: Oid,
    pub clause: FileClauseView,
}

impl View for FileFilter {
    type V = FileFilterView;

    open spec fn view(&self) -> FileFilterView {
        FileFilterView { owner: self.owner, clause: self.clause@ }
    }
}

impl FileFilterView {
    /// Whether the filter selects `file`: it belongs to the owner and the
    /// clause holds of it.
    pub open spec fn matches(self, file: FileView) -> bool {
        file.user_id == Some(self.owner) && self.clause.holds(file)
    }
}

impl Clone for FileClause {
    fn clone(&self) -> (copy: Self)
        ensures
            copy@ == self@,
    {
        match self {
            FileClause::All => FileClause::All,
            FileClause::TopLevel => FileClause::TopLevel,
            FileClause::Ids(ids) => FileClause::Ids(clone_id_list(ids)),
            FileClause::OriginalName(name) => FileClause::OriginalName(name.clone()),
            FileClause::Type(tag) => FileClause::Type(tag.clone()),
        }
    }
}

impl Clone for FileFilter {
    fn clone(&self) -> (copy: Self)
        ensures
            copy@ == self@,
    {
        FileFilter { owner: self.owner, clause: self.clause.clone() }
    }
}

impl FileFilter {
    /// Every file of `owner`.
    pub fn all(owner: Oid) -> (filter: Self)
        ensures
            filter@ == (FileFilterView { owner, clause: FileClauseView::All }),
    {
        FileFilter { owner, clause: FileClause::All }
    }

    /// The files of `owner` that lie in no folder.
    pub fn top_level(owner: Oid) -> (filter: Self)
        ensures
            filter@ == (FileFilterView { owner, clause: FileClauseView::TopLevel }),
    {
        FileFilter { owner, clause: FileClause::TopLevel }
    }

    /// The files of `owner` whose identity is in `ids`.
    pub fn by_ids(owner: Oid, ids: Vec<Oid>) -> (filter: Self)
        ensures
            filter@ == (FileFilterView { owner, clause: FileClauseView::Ids(ids@) }),
    {
        FileFilter { owner, clause: FileClause::Ids(ids) }
    }

    /// The file of `owner` with identity `id`.
    pub fn by_id(owner: Oid, id: Oid) -> (filter: Self)
        ensures
            filter@ == file_by_id(owner, id),
    {
        let mut ids: Vec<Oid> = Vec::new();
        ids.push(id);
        assert(ids@ =~= seq![id]);
        FileFilter { owner, clause: FileClause::Ids(ids) }
    }

    /// The files of `owner` first stored under `name`.
    pub fn named_originally(owner: Oid, name: String) -> (filter: Self)
        ensures
            filter@ == (FileFilterView { owner, clause: FileClauseView::OriginalName(name@) }),
    {
        FileFilter { owner, clause: FileClause::OriginalName(name) }
    }

    /// The files of `owner` with type tag `tag`.
    pub fn of_type(owner: Oid, tag: String) -> (filter: Self)
        ensures
            filter@ == (FileFilterView { owner, clause: FileClauseView::Type(tag@) }),
    {
        FileFilter { owner, clause: FileClause::Type(tag) }
    }

    /// Whether the filter selects `file`.
    pub fn matches(&self, file: &File) -> (selected: bool)
        ensures
            selected == self@.matches(file@),
    {
        let owned = match file.user_id {
            Some(user) => user == self.owner,
            None => false,
        };
        if !owned {
            return false;
        }
        match &self.clause {
            FileClause::All => true,
            FileClause::TopLevel => file.folder_id.is_none(),
            FileClause::Ids(ids) => match file.id {
                Some(id) => contains_id(ids, id),
                None => false,
            },
            FileClause::OriginalName(name) => match &file.original_file_name {
                Some(original) => *original == *name,
                None => false,
            },
            FileClause::Type(tag) => file.file_type == *tag,
        }
    }
}

/// Which of an owner's folders a request is about.
#[derive(Debug, PartialEq, Eq)]
pub enum FolderClause {
    /// The folders at the top level.
    Roots,
    /// The folders whose identity is in the list.
    Ids(Vec<Oid>),
}

/// What a `FolderClause` holds.
pub enum FolderClauseView {
    Roots,
    Ids(Seq<Oid>),
}

impl View for FolderClause {
    type V = FolderClauseView;

    open spec fn view(&self) -> FolderClauseView {
        match self {
            FolderClause::Roots => FolderClauseView::Roots,
            FolderClause::Ids(ids) => FolderClauseView::Ids(ids@),
        }
    }
}

impl FolderClauseView {
    /// Whether the clause holds of `folder`.
    pub open spec fn holds(self, folder: FolderView) -> bool {
        match self {
            FolderClauseView::Roots => folder.folder_type == Some(FolderType::Folder),
            FolderClauseView::Ids(ids) => folder.id is Some && ids.contains(folder.id->0),
        }
    }
}

/// A selection of folders: those of `owner` of which `clause` holds.
#[derive(Debug, PartialEq, Eq)]
pub struct FolderFilter {
    pub owner: Oid,
    pub clause: FolderClause,
}

/// What a `FolderFilter` holds.
pub struct FolderFilterView {
    pub owner: Oid,
    pub clause: FolderClauseView,
}

impl View for FolderFilter {
    type V = FolderFilterView;

    open spec fn view(&self) -> FolderFilterView {
        FolderFilterView { owner: self.owner, clause: self.clause@ }
    }
}

impl FolderFilterView {
    /// Whether the filter selects `folder`: it belongs to the owner and the
    /// clause holds of it.
    pub open spec fn matches(self, folder: FolderView) -> bool {
        folder.user_id == Some(self.owner) && self.clause.holds(folder)
    }

    /// Whether place `at` holds the first of `folders` that the filter
    /// selects.
    pub open spec fn picks(self, folders: Seq<FolderView>, at: int) -> bool {
        &&& 0 <= at < folders.len()
        &&& self.matches(folders[at])
        &&& forall|j: int| 0 <= j < at ==> !self.matches(#[trigger] folders[j])
    }

    /// The first of `folders` that the filter selects, if it selects any.
    pub open spec fn first_match(self, folders: Seq<FolderView>) -> Option<FolderView> {
        if exists|at: int| self.picks(folders, at) {
            Some(folders[choose|at: int| self.picks(folders, at)])
        } else {
            None
        }
    }
}

/// The filter that selects the folder `id` of `owner`.
pub open spec fn folder_by_id(owner: Oid, id: Oid) -> FolderFilterView {
    FolderFilterView { owner, clause: FolderClauseView::Ids(seq![id]) }
}

/// The filter that selects the file `id` of `owner`.
pub open spec fn file_by_id(owner: Oid, id: Oid) -> FileFilterView {
    FileFilterView { owner, clause: FileClauseView::Ids(seq![id]) }
}

/// The first selected folder stands at one place only.
pub proof fn lemma_picks_unique(filter: FolderFilterView, folders: Seq<FolderView>, a: int, b: int)
    requires
        filter.picks(folders, a),
        filter.picks(folders, b),
    ensures
        a == b,
{
}

impl Clone for FolderClause {
    fn clone(&self) -> (copy: Self)
        ensures
            copy@ == self@,
    {
        match self {
            FolderClause::Roots => FolderClause::Roots,
            FolderClause::Ids(ids) => FolderClause::Ids(clone_id_list(ids)),
        }
    }
}

impl Clone for FolderFilter {
    fn clone(&self) -> (copy: Self)
        ensures
            copy@ == self@,
    {
        FolderFilter { owner: self.owner, clause: self.clause.clone() }
    }
}

impl FolderFilter {
    /// The top-level folders of `owner`.
    pub fn roots(owner: Oid) -> (filter: Self)
        ensures
            filter@ == (FolderFilterView { owner, clause: FolderClauseView::Roots }),
    {
        FolderFilter { owner, clause: FolderClause::Roots }
    }

    /// The folders of `owner` whose identity is in `ids`.
    pub fn by_ids(owner: Oid, ids: Vec<Oid>) -> (filter: Self)
        ensures
            filter@ == (FolderFilterView { owner, clause: FolderClauseView::Ids(ids@) }),
    {
        FolderFilter { owner, clause: FolderClause::Ids(ids) }
    }

    /// The folder of `owner` with identity `id`.
    pub fn by_id(owner: Oid, id: Oid) -> (filter: Self)
        ensures
            filter@ == folder_by_id(owner, id),
    {
        let mut ids: Vec<Oid> = Vec::new();
        ids.push(id);
        assert(ids@ =~= seq![id]);
        FolderFilter { owner, clause: FolderClause::Ids(ids) }
    }

    /// Finds the first of `folders` that the filter selects.
    pub fn first_match<'a>(&self, folders: &'a Vec<Folder>) -> (found: Option<&'a Folder>)
        ensures
            match found {
                Some(folder) => self@.first_match(folders_view(folders@)) == Some(folder@),
                None => self@.first_match(folders_view(folders@)) is None,
            },
    {
        let ghost views = folders_view(folders@);
        let mut at: usize = 0;
        while at < folders.len()
            invariant
                at <= folders.len(),
                views == folders_view(folders@),
                forall|j: int| 0 <= j < at ==> !self@.matches(#[trigger] views[j]),
            decreases folders.len() - at,
        {
            assert(views[at as int] == folders@[at as int]@);
            if self.matches(&folders[at]) {
                proof {
                    assert(self@.picks(views, at as int));
                    lemma_picks_unique(
                        self@,
                        views,
                        at as int,
                        choose|i: int| self@.picks(views, i),
                    );
                }
                return Some(&folders[at]);
            }
            at += 1;
        }
        None
    }

    /// Whether the filter selects `folder`.
    pub fn matches(&self, folder: &Folder) -> (selected: bool)
        ensures
            selected == self@.matches(folder@),
    {
        let owned = match folder.user_id {
            Some(user) => user == self.owner,
            None => false,
        };
        if !owned {
            return false;
        }
        match &self.clause {
            FolderClause::Roots => match folder.folder_type {
                Some(FolderType::Folder) => true,
                _ => false,
            },
            FolderClause::Ids(ids) => match folder.id {
                Some(id) => contains_id(ids, id),
                None => false,
            },
        }
    }
}

/// A file filter never selects a file of another owner, whatever its clause.
pub proof fn lemma_file_filter_keeps_to_owner(filter: FileFilterView, file: FileView, a: Oid)
    requires
        file.user_id == Some(a),
        filter.owner != a,
    ensures
        !filter.matches(file),
{
}

/// A folder filter never selects a folder of another owner, whatever its
/// clause.
pub proof fn lemma_folder_filter_keeps_to_owner(
    filter: FolderFilterView,
    folder: FolderView,
    a: Oid,
)
    requires
        folder.user_id == Some(a),
        filter.owner != a,
    ensures
        !filter.matches(folder),
{
}

/// A change to the child lists of a folder.
#[derive(Debug, PartialEq, Eq)]
pub enum FolderUpdate {
    /// Add a folder to the child folders.
    PushFolder(Oid),
    /// Remove a folder from the child folders.
    PullFolder(Oid),
    /// Add a file to the child files.
    PushFile(Oid),
    /// Remove these files from the child files.
    PullFiles(Vec<Oid>),
}

/// What a `FolderUpdate` holds.
pub enum FolderUpdateView {
    PushFolder(Oid),
    PullFolder(Oid),
    PushFile(Oid),
    PullFiles(Seq<Oid>),
}

impl View for FolderUpdate {
    type V = FolderUpdateView;

    open spec fn view(&self) -> FolderUpdateView {
        match self {
            FolderUpdate::PushFolder(id) => FolderUpdateView::PushFolder(*id),
            FolderUpdate::PullFolder(id) => FolderUpdateView::PullFolder(*id),
            FolderUpdate::PushFile(id) => FolderUpdateView::PushFile(*id),
            FolderUpdate::PullFiles(ids) => FolderUpdateView::PullFiles(ids@),
        }
    }
}

impl Clone for FolderUpdate {
    fn clone(&self) -> (copy: Self)
        ensures
            copy@ == self@,
    {
        match self {
            FolderUpdate::PushFolder(id) => FolderUpdate::PushFolder(*id),
            FolderUpdate::PullFolder(id) => FolderUpdate::PullFolder(*id),
            FolderUpdate::PushFile(id) => FolderUpdate::PushFile(*id),
            FolderUpdate::PullFiles(ids) => FolderUpdate::PullFiles(clone_id_list(ids)),
        }
    }
}

impl FolderUpdateView {
    /// The folder after the change. A pull removes every occurrence; a push
    /// appends, and starts the list where the folder has none.
    pub open spec fn apply(self, folder: FolderView) -> FolderView {
        match self {
            FolderUpdateView::PushFolder(id) => FolderView {
                folders: Some(folder.child_folders().push(id)),
                ..folder
            },
            FolderUpdateView::PullFolder(id) => FolderView {
                folders: match folder.folders {
                    Some(list) => Some(list.filter(|x: Oid| x != id)),
                    None => None,
                },
                ..folder
            },
            FolderUpdateView::PushFile(id) => FolderView {
                files: Some(folder.child_files().push(id)),
                ..folder
            },
            FolderUpdateView::PullFiles(ids) => FolderView {
                files: match folder.files {
                    Some(list) => Some(list.filter(|x: Oid| !ids.contains(x))),
                    None => None,
                },
                ..folder
            },
        }
    }
}

} // verus!
