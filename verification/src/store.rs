//! What the document store holds and how it answers, as far as the engine
//! relies on it. Nothing here is run: it is what the laws on walks suppose
//! of the store that carries out their requests.

use crate::filter::{folder_by_id, FileFilterView, FolderFilterView, FolderUpdateView};
use crate::model::{FileView, FolderView, Oid};
use crate::protocol::{ReplyView, RequestView};
use crate::scope::{folder_scope, scope_of, top_level_scope};
use vstd::prelude::*;

verus! {

/// The contents of a store: its files and its folders, each under its
/// identity.
pub struct StoreState {
    pub files: Map<Oid, FileView>,
    pub folders: Map<Oid, FolderView>,
}

impl StoreState {
    /// Every entity carries the identity it is kept under.
    pub open spec fn wf(self) -> bool {
        &&& forall|id: Oid|
            self.files.dom().contains(id) ==> (#[trigger] self.files[id]).id == Some(id)
        &&& forall|id: Oid|
            self.folders.dom().contains(id) ==> (#[trigger] self.folders[id]).id == Some(id)
    }

    /// Whether the store holds a file that `filter` selects.
    pub open spec fn has_file(self, filter: FileFilterView) -> bool {
        exists|id: Oid| self.files.dom().contains(id) && filter.matches(#[trigger] self.files[id])
    }

    /// Whether the store holds a folder that `filter` selects.
    pub open spec fn has_folder(self, filter: FolderFilterView) -> bool {
        exists|id: Oid|
            self.folders.dom().contains(id) && filter.matches(#[trigger] self.folders[id])
    }

    /// Whether `found` lists the files that `filter` selects: each of them
    /// once, and nothing else.
    pub open spec fn finds_files(self, filter: FileFilterView, found: Seq<FileView>) -> bool {
        &&& forall|i: int|
            0 <= i < found.len() ==> {
                let file = #[trigger] found[i];
                &&& file.id is Some
                &&& self.files.dom().contains(file.id->0)
                &&& self.files[file.id->0] == file
                &&& filter.matches(file)
            }
        &&& forall|id: Oid|
            self.files.dom().contains(id) && filter.matches(#[trigger] self.files[id])
                ==> found.contains(self.files[id])
        &&& forall|i: int, j: int|
            0 <= i < j < found.len() ==> (#[trigger] found[i]).id != (#[trigger] found[j]).id
    }

    /// Whether `found` lists the folders that `filter` selects: each of them
    /// once, and nothing else.
    pub open spec fn finds_folders(self, filter: FolderFilterView, found: Seq<FolderView>) -> bool {
        &&& forall|i: int|
            0 <= i < found.len() ==> {
                let folder = #[trigger] found[i];
                &&& folder.id is Some
                &&& self.folders.dom().contains(folder.id->0)
                &&& self.folders[folder.id->0] == folder
                &&& filter.matches(folder)
            }
        &&& forall|id: Oid|
            self.folders.dom().contains(id) && filter.matches(#[trigger] self.folders[id])
                ==> found.contains(self.folders[id])
        &&& forall|i: int, j: int|
            0 <= i < j < found.len() ==> (#[trigger] found[i]).id != (#[trigger] found[j]).id
    }

    /// The store without the files that `filter` selects.
    pub open spec fn without_files(self, filter: FileFilterView) -> StoreState {
        StoreState {
            files: self.files.remove_keys(
                Set::new(|id: Oid| self.files.dom().contains(id) && filter.matches(self.files[id])),
            ),
            ..self
        }
    }

    /// The store without the folders that `filter` selects.
    pub open spec fn without_folders(self, filter: FolderFilterView) -> StoreState {
        StoreState {
            folders: self.folders.remove_keys(
                Set::new(
                    |id: Oid| self.folders.dom().contains(id) && filter.matches(self.folders[id]),
                ),
            ),
            ..self
        }
    }

    /// The store with `update` made to the folders that `filter` selects.
    pub open spec fn with_update(self, filter: FolderFilterView, update: FolderUpdateView) -> StoreState {
        StoreState {
            folders: Map::new(
                |id: Oid| self.folders.dom().contains(id),
                |id: Oid|
                    if filter.matches(self.folders[id]) {
                        update.apply(self.folders[id])
                    } else {
                        self.folders[id]
                    },
            ),
            ..self
        }
    }

    /// Whether the store may answer `request` with `reply` and hold `after`
    /// from then on.
    ///
    /// A request that fails changes nothing. A search changes nothing and
    /// lists what its filter selects. An insertion adds the entity under an
    /// identity that was free: the one it carries, or else one that the store
    /// picks. A removal takes out what its filter selects, an update changes
    /// what its filter selects, and both say whether there was any.
    pub open spec fn answers(self, request: RequestView, reply: ReplyView, after: StoreState) -> bool {
        ||| reply is Failed && after == self
        ||| match request {
            RequestView::FindFiles(filter) => {
                &&& after == self
                &&& reply matches ReplyView::Files(found)
                &&& self.finds_files(filter, found)
            },
            RequestView::FindFolders(filter) => {
                &&& after == self
                &&& reply matches ReplyView::Folders(found)
                &&& self.finds_folders(filter, found)
            },
            RequestView::InsertFile(file) => {
                &&& reply matches ReplyView::Inserted(id)
                &&& !self.files.dom().contains(id)
                &&& file.id is Some ==> file.id == Some(id)
                &&& after == (StoreState {
                    files: self.files.insert(id, FileView { id: Some(id), ..file }),
                    ..self
                })
            },
            RequestView::InsertFolder(folder) => {
                &&& reply matches ReplyView::Inserted(id)
                &&& !self.folders.dom().contains(id)
                &&& folder.id is Some ==> folder.id == Some(id)
                &&& after == (StoreState {
                    folders: self.folders.insert(id, FolderView { id: Some(id), ..folder }),
                    ..self
                })
            },
            RequestView::DeleteFiles(filter) => {
                &&& reply matches ReplyView::Deleted(count)
                &&& count > 0 <==> self.has_file(filter)
                &&& after == self.without_files(filter)
            },
            RequestView::DeleteFolders(filter) => {
                &&& reply matches ReplyView::Deleted(count)
                &&& count > 0 <==> self.has_folder(filter)
                &&& after == self.without_folders(filter)
            },
            RequestView::UpdateFolders(filter, update) => {
                &&& reply matches ReplyView::Updated(count)
                &&& count > 0 <==> self.has_folder(filter)
                &&& after == self.with_update(filter, update)
            },
        }
    }
}

/// The store stays well formed under every answer.
pub proof fn lemma_answers_keep_wf(
    store: StoreState,
    request: RequestView,
    reply: ReplyView,
    after: StoreState,
)
    requires
        store.wf(),
        store.answers(request, reply, after),
    ensures
        after.wf(),
{
    match request {
        RequestView::UpdateFolders(filter, update) => {
            assert forall|id: Oid| after.folders.dom().contains(id) implies (
            #[trigger] after.folders[id]).id == Some(id) by {
                assert(store.folders[id].id == Some(id));
            }
        },
        _ => {},
    }
}

/// Where a filter selects one of `found`, it selects a first one.
proof fn lemma_first_match_exists(filter: FolderFilterView, found: Seq<FolderView>, k: int)
    requires
        0 <= k < found.len(),
        filter.matches(found[k]),
    ensures
        exists|at: int| filter.picks(found, at),
    decreases k,
{
    if exists|j: int| 0 <= j < k && filter.matches(#[trigger] found[j]) {
        let j = choose|j: int| 0 <= j < k && filter.matches(#[trigger] found[j]);
        lemma_first_match_exists(filter, found, j);
    } else {
        assert(filter.picks(found, k));
    }
}

/// What a walk takes from the store's answer when it loads a folder: the
/// folder as the store has it, where it is a folder of the owner.
pub proof fn lemma_load_takes_the_folder(store: StoreState, owner: Oid, id: Oid, found: Seq<FolderView>)
    requires
        store.wf(),
        store.finds_folders(folder_by_id(owner, id), found),
    ensures
        store.folders.dom().contains(id) && store.folders[id].user_id == Some(owner)
            ==> folder_by_id(owner, id).first_match(found) == Some(store.folders[id]),
{
    let filter = folder_by_id(owner, id);
    if store.folders.dom().contains(id) && store.folders[id].user_id == Some(owner) {
        let doc = store.folders[id];
        assert(doc.id == Some(id));
        assert(seq![id][0] == id);
        assert(filter.matches(doc));
        assert(found.contains(doc));
        let k = choose|k: int| 0 <= k < found.len() && found[k] == doc;
        lemma_first_match_exists(filter, found, k);
        let at = choose|at: int| filter.picks(found, at);
        assert(filter.matches(found[at]));
        assert(store.folders[found[at].id->0] == found[at]);
    }
}

/// Where the owner has the folder asked for, whatever the store finds
/// resolves to the inside of that folder: the files and the folders that
/// its lists name.
pub proof fn lemma_known_scope_is_the_folder(
    store: StoreState,
    owner: Oid,
    id: Oid,
    found: Seq<FolderView>,
)
    requires
        store.wf(),
        store.finds_folders(folder_by_id(owner, id), found),
        store.folders.dom().contains(id),
        store.folders[id].user_id == Some(owner),
    ensures
        scope_of(owner, Some(id), found) == folder_scope(owner, store.folders[id]),
{
    lemma_load_takes_the_folder(store, owner, id, found);
}

/// Where the owner has no folder of the identity asked for, be it absent or
/// another owner's, whatever the store finds resolves to the top level:
/// the scope that is resolved when no identity is asked for.
pub proof fn lemma_unknown_scope_is_top_level(
    store: StoreState,
    owner: Oid,
    id: Oid,
    found: Seq<FolderView>,
)
    requires
        store.finds_folders(folder_by_id(owner, id), found),
        !(store.folders.dom().contains(id) && store.folders[id].user_id == Some(owner)),
        store.wf(),
    ensures
        scope_of(owner, Some(id), found) == top_level_scope(owner),
        scope_of(owner, Some(id), found) == scope_of(owner, None, found),
{
    let filter = folder_by_id(owner, id);
    assert forall|i: int| 0 <= i < found.len() implies !filter.matches(#[trigger] found[i]) by {
        if filter.matches(found[i]) {
            let folder = found[i];
            assert(store.folders[folder.id->0] == folder);
            assert(seq![id].contains(folder.id->0));
            assert(folder.id->0 == id);
        }
    }
}

} // verus!
