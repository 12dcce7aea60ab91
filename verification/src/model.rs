//! The entities of the storage tree and their mathematical views.

use vstd::prelude::*;

verus! {

/// A twelve-byte store identity, split into its leading four bytes and its
/// trailing eight bytes (both big-endian).
#[derive(Clone, Copy, Debug, PartialEq, Eq, Hash, Structural)]
pub struct Oid {
    pub seconds: u32,
    pub tail: u64,
}

/// Whether `id` occurs in `ids`.
pub fn contains_id(ids: &Vec<Oid>, id: Oid) -> (found: bool)
    ensures
        found == ids@.contains(id),
{
    let mut i: usize = 0;
    while i < ids.len()
        invariant
            i <= ids.len(),
            forall|k: int| 0 <= k < i ==> ids@[k] != id,
        decreases ids.len() - i,
    {
        if ids[i] == id {
            return true;
        }
        i += 1;
    }
    false
}

/// A copy of a list of identities.
pub fn clone_id_list(ids: &Vec<Oid>) -> (copy: Vec<Oid>)
    ensures
        copy@ == ids@,
{
    let mut copy: Vec<Oid> = Vec::new();
    let mut i: usize = 0;
    while i < ids.len()
        invariant
            i <= ids.len(),
            copy@ == ids@.take(i as int),
        decreases ids.len() - i,
    {
        copy.push(ids[i]);
        i += 1;
    }
    assert(ids@.take(ids.len() as int) =~= ids@);
    copy
}

/// An instant in UTC: whole seconds since the Unix epoch and the nanoseconds
/// into that second.
#[derive(Clone, Copy, Debug, PartialEq, Eq, Hash, Structural)]
pub struct Timestamp {
    pub secs: i64,
    pub nanos: u32,
}

impl Timestamp {
    /// The position of this instant on the time line, as one integer.
    pub open spec fn rank(self) -> int {
        self.secs * 0x1_0000_0000 + self.nanos
    }

    /// Whether `self` is strictly earlier than `other`.
    pub fn before(&self, other: &Timestamp) -> (r: bool)
        ensures
            r == (self.rank() < other.rank()),
    {
        self.secs < other.secs || (self.secs == other.secs && self.nanos < other.nanos)
    }
}

/// The position of an optional instant: an absent one comes before every
/// present one.
pub open spec fn stamp_rank(stamp: Option<Timestamp>) -> int {
    match stamp {
        None => -0x8000_0000_0000_0000_0000_0000 - 1,
        Some(t) => t.rank(),
    }
}

/// Whether the optional instant `a` is strictly earlier than `b`.
pub fn stamp_before(a: &Option<Timestamp>, b: &Option<Timestamp>) -> (r: bool)
    ensures
        r == (stamp_rank(*a) < stamp_rank(*b)),
{
    match (a, b) {
        (None, None) => false,
        (None, Some(_)) => true,
        (Some(_), None) => false,
        (Some(x), Some(y)) => x.before(y),
    }
}

/// Whether a folder sits at the top level or inside another folder.
#[derive(Clone, Copy, Debug, PartialEq, Eq, Structural)]
pub enum FolderType {
    Folder,
    Subfolder,
}

/// The view of an optional string.
pub open spec fn text_view(text: Option<String>) -> Option<Seq<char>> {
    match text {
        Some(s) => Some(s@),
        None => None,
    }
}

/// A stored file: location metadata, never the payload.
#[derive(Debug, PartialEq, Eq)]
pub struct File {
    pub id: Option<Oid>,
    pub file_name: String,
    pub original_file_name: Option<String>,
    pub file_type: String,
    pub created_at: Option<Timestamp>,
    pub updated_at: Option<Timestamp>,
    pub aws_file_name: String,
    pub file_location: String,
    pub size: u64,
    pub user_id: Option<Oid>,
    pub folder_id: Option<Oid>,
}

/// What a `File` holds, with its strings as character sequences.
pub struct FileView {
    pub id: Option<Oid>,
    pub file_name: Seq<char>,
    pub original_file_name: Option<Seq<char>>,
    pub file_type: Seq<char>,
    pub created_at: Option<Timestamp>,
    pub updated_at: Option<Timestamp>,
    pub aws_file_name: Seq<char>,
    pub file_location: Seq<char>,
    pub size: u64,
    pub user_id: Option<Oid>,
    pub folder_id: Option<Oid>,
}

impl View for File {
    type V = FileView;

    open spec fn view(&self) -> FileView {
        FileView {
            id: self.id,
            file_name: self.file_name@,
            original_file_name: text_view(self.original_file_name),
            file_type: self.file_type@,
            created_at: self.created_at,
            updated_at: self.updated_at,
            aws_file_name: self.aws_file_name@,
            file_location: self.file_location@,
            size: self.size,
            user_id: self.user_id,
            folder_id: self.folder_id,
        }
    }
}

/// A copy of an optional string.
pub fn clone_text(text: &Option<String>) -> (r: Option<String>)
    ensures
        r == *text,
{
    match text {
        Some(s) => Some(s.clone()),
        None => None,
    }
}

impl Clone for File {
    fn clone(&self) -> (r: Self)
        ensures
            r == *self,
    {
        File {
            id: self.id,
            file_name: self.file_name.clone(),
            original_file_name: clone_text(&self.original_file_name),
            file_type: self.file_type.clone(),
            created_at: self.created_at,
            updated_at: self.updated_at,
            aws_file_name: self.aws_file_name.clone(),
            file_location: self.file_location.clone(),
            size: self.size,
            user_id: self.user_id,
            folder_id: self.folder_id,
        }
    }
}

/// A stored folder: its own attributes and the identities of its children.
#[derive(Debug, PartialEq, Eq)]
pub struct Folder {
    pub id: Option<Oid>,
    pub folder_name: String,
    pub folder_type: Option<FolderType>,
    pub files: Option<Vec<Oid>>,
    pub folders: Option<Vec<Oid>>,
    pub created_at: Option<Timestamp>,
    pub updated_at: Option<Timestamp>,
    pub parent_id: Option<Oid>,
    pub user_id: Option<Oid>,
    pub path: Option<String>,
}

/// The view of an optional list of identities.
pub open spec fn ids_view(ids: Option<Vec<Oid>>) -> Option<Seq<Oid>> {
    match ids {
        Some(v) => Some(v@),
        None => None,
    }
}

/// What a `Folder` holds, with strings and lists as sequences.
pub struct FolderView {
    pub id: Option<Oid>,
    pub folder_name: Seq<char>,
    pub folder_type: Option<FolderType>,
    pub files: Option<Seq<Oid>>,
    pub folders: Option<Seq<Oid>>,
    pub created_at: Option<Timestamp>,
    pub updated_at: Option<Timestamp>,
    pub parent_id: Option<Oid>,
    pub user_id: Option<Oid>,
    pub path: Option<Seq<char>>,
}

impl FolderView {
    /// The child folders, an absent list read as empty.
    pub open spec fn child_folders(self) -> Seq<Oid> {
        match self.folders {
            Some(s) => s,
            None => Seq::empty(),
        }
    }

    /// The child files, an absent list read as empty.
    pub open spec fn child_files(self) -> Seq<Oid> {
        match self.files {
            Some(s) => s,
            None => Seq::empty(),
        }
    }

    /// Whether kind and parent agree: a top-level folder lies in no folder,
    /// a nested folder lies in one.
    pub open spec fn kind_fits(self) -> bool {
        match self.folder_type {
            Some(FolderType::Folder) => self.parent_id is None,
            Some(FolderType::Subfolder) => self.parent_id is Some,
            None => true,
        }
    }
}

impl View for Folder {
    type V = FolderView;

    open spec fn view(&self) -> FolderView {
        FolderView {
            id: self.id,
            folder_name: self.folder_name@,
            folder_type: self.folder_type,
            files: ids_view(self.files),
            folders: ids_view(self.folders),
            created_at: self.created_at,
            updated_at: self.updated_at,
            parent_id: self.parent_id,
            user_id: self.user_id,
            path: text_view(self.path),
        }
    }
}

/// The views of a list of folders, in order.
pub open spec fn folders_view(folders: Seq<Folder>) -> Seq<FolderView> {
    folders.map_values(|f: Folder| f@)
}

/// A copy of an optional list of identities.
pub fn clone_ids(ids: &Option<Vec<Oid>>) -> (r: Option<Vec<Oid>>)
    ensures
        ids_view(r) == ids_view(*ids),
{
    match ids {
        Some(v) => Some(clone_id_list(v)),
        None => None,
    }
}

impl Clone for Folder {
    fn clone(&self) -> (r: Self)
        ensures
            r@ == self@,
    {
        Folder {
            id: self.id,
            folder_name: self.folder_name.clone(),
            folder_type: self.folder_type,
            files: clone_ids(&self.files),
            folders: clone_ids(&self.folders),
            created_at: self.created_at,
            updated_at: self.updated_at,
            parent_id: self.parent_id,
            user_id: self.user_id,
            path: clone_text(&self.path),
        }
    }
}

/// A list of identities with one more at its end; an absent list is read as
/// empty.
pub fn with_id(ids: Option<Vec<Oid>>, id: Oid) -> (grown: Option<Vec<Oid>>)
    ensures
        ids_view(grown) == Some(
            match ids_view(ids) {
                Some(list) => list,
                None => Seq::empty(),
            }.push(id),
        ),
{
    let mut list = match ids {
        Some(list) => list,
        None => Vec::new(),
    };
    list.push(id);
    Some(list)
}

impl Folder {
    /// An empty folder record: no name, no identity, no lists.
    pub fn new() -> (r: Self)
        ensures
            r@ == (FolderView {
                id: None,
                folder_name: Seq::empty(),
                folder_type: None,
                files: None,
                folders: None,
                created_at: None,
                updated_at: None,
                parent_id: None,
                user_id: None,
                path: None,
            }),
    {
        Folder {
            id: None,
            folder_name: String::new(),
            folder_type: None,
            files: None,
            folders: None,
            created_at: None,
            updated_at: None,
            parent_id: None,
            user_id: None,
            path: None,
        }
    }
}

/// A folder to be created, as a client describes it: the folder itself with
/// the files and folders nested in it. It carries no store identity yet.
#[derive(Debug, PartialEq, Eq)]
pub struct FolderJSON {
    pub id: Option<Oid>,
    pub folder_name: String,
    pub folder_type: Option<FolderType>,
    pub files: Option<Vec<File>>,
    pub folders: Option<Vec<FolderJSON>>,
    pub parent_id: Option<Oid>,
    pub path: Option<String>,
}

/// What a `FolderJSON` holds, nested descriptions included.
pub struct TreeView {
    pub id: Option<Oid>,
    pub folder_name: Seq<char>,
    pub folder_type: Option<FolderType>,
    pub files: Option<Seq<FileView>>,
    pub folders: Option<Seq<TreeView>>,
    pub parent_id: Option<Oid>,
    pub path: Option<Seq<char>>,
}

/// The views of a list of files, in order.
pub open spec fn files_view(files: Seq<File>) -> Seq<FileView> {
    files.map_values(|f: File| f@)
}

/// What a description holds, nested descriptions included.
pub open spec fn tree_view(tree: FolderJSON) -> TreeView
    decreases tree,
{
    TreeView {
        id: tree.id,
        folder_name: tree.folder_name@,
        folder_type: tree.folder_type,
        files: match tree.files {
            Some(list) => Some(files_view(list@)),
            None => None,
        },
        folders: match tree.folders {
            Some(list) => Some(
                Seq::new(
                    list.len() as nat,
                    |i: int|
                        if 0 <= i < list.len() {
                            tree_view(list[i])
                        } else {
                            arbitrary()
                        },
                ),
            ),
            None => None,
        },
        parent_id: tree.parent_id,
        path: text_view(tree.path),
    }
}

impl View for FolderJSON {
    type V = TreeView;

    open spec fn view(&self) -> TreeView {
        tree_view(*self)
    }
}

/// One entry of a listing: a file or a folder.
#[derive(Debug, PartialEq, Eq)]
pub enum Item {
    File(File),
    Folder(Folder),
}

/// What an `Item` holds.
pub enum ItemView {
    File(FileView),
    Folder(FolderView),
}

impl ItemView {
    /// When the entry was created, if it says so.
    pub open spec fn created_at(self) -> Option<Timestamp> {
        match self {
            ItemView::File(f) => f.created_at,
            ItemView::Folder(f) => f.created_at,
        }
    }
}

impl View for Item {
    type V = ItemView;

    open spec fn view(&self) -> ItemView {
        match self {
            Item::File(f) => ItemView::File(f@),
            Item::Folder(f) => ItemView::Folder(f@),
        }
    }
}

impl Item {
    /// When the entry was created, if it says so.
    pub fn created_at(&self) -> (r: Option<Timestamp>)
        ensures
            r == self@.created_at(),
    {
        match self {
            Item::File(f) => f.created_at,
            Item::Folder(f) => f.created_at,
        }
    }
}

/// The optional restriction of a file listing to one type tag.
#[derive(Debug, PartialEq, Eq)]
pub struct MyQueryParams {
    pub file_type: Option<String>,
}

/// Why an operation on the tree did not complete.
#[derive(Clone, Copy, Debug, PartialEq, Eq, Structural)]
pub enum TreeError {
    /// A referenced file, folder or parent is absent or belongs to someone else.
    NotFound,
    /// The store holds something that contradicts what was just written.
    InvalidState,
    /// The store did not answer a request.
    StoreUnavailable,
    /// The caller has no verified identity.
    Unauthenticated,
}

} // verus!
