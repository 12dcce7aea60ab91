//! Storing, listing and removing single files.

use crate::create::stored_name;
use crate::filter::{
    folder_by_id, FileClauseView, FileFilter, FileFilterView, FolderFilter, FolderUpdate,
    FolderUpdateView,
};
use crate::model::{clone_id_list, File, FileView, MyQueryParams, Oid};
use crate::naming::numbered_name;
use crate::protocol::{RequestView, StoreRequest};
use vstd::prelude::*;

verus! {

/// The views of a list of requests, in order.
pub open spec fn requests_view(requests: Seq<StoreRequest>) -> Seq<RequestView> {
    requests.map_values(|r: StoreRequest| r@)
}

/// The files of `owner` to list: those with the type tag asked for, or all
/// where none is asked for.
pub fn files_filter(owner: Oid, params: &MyQueryParams) -> (filter: FileFilter)
    ensures
        filter@ == (FileFilterView {
            owner,
            clause: match params.file_type {
                Some(tag) => FileClauseView::Type(tag@),
                None => FileClauseView::All,
            },
        }),
{
    match &params.file_type {
        Some(tag) => FileFilter::of_type(owner, tag.clone()),
        None => FileFilter::all(owner),
    }
}

/// The request that reads the files of `owner` that already carry the name
/// under which `file` arrives.
pub fn duplicates_request(owner: Oid, file: &File) -> (request: StoreRequest)
    ensures
        request@ == RequestView::FindFiles(
            FileFilterView { owner, clause: FileClauseView::OriginalName(file@.file_name) },
        ),
{
    StoreRequest::FindFiles(FileFilter::named_originally(owner, file.file_name.clone()))
}

/// Gives a file the name it is stored under when `count` files already
/// carry the name it arrives with: its own name where there is none, else
/// its base, the count in brackets, and its extension. Nothing else of the
/// file changes; its original name stays what it was.
pub fn name_file(file: File, count: usize) -> (named: File)
    ensures
        named@ == (FileView { file_name: stored_name(file@.file_name, count as nat), ..file@ }),
{
    if count > 0 {
        let mut named = file;
        named.file_name = numbered_name(named.file_name.as_str(), count);
        named
    } else {
        file
    }
}

/// What follows the storing of a file as `id`: the file is entered in the
/// folder it was put into, if any, and the top-level files of `owner` are
/// read.
pub fn upload_followup(owner: Oid, folder: Option<Oid>, id: Oid) -> (requests: Vec<StoreRequest>)
    ensures
        requests_view(requests@) == match folder {
            Some(target) => seq![
                RequestView::UpdateFolders(
                    folder_by_id(owner, target),
                    FolderUpdateView::PushFile(id),
                ),
                RequestView::FindFiles(FileFilterView { owner, clause: FileClauseView::TopLevel }),
            ],
            None => seq![
                RequestView::FindFiles(FileFilterView { owner, clause: FileClauseView::TopLevel }),
            ],
        },
{
    let mut requests: Vec<StoreRequest> = Vec::new();
    if let Some(target) = folder {
        requests.push(
            StoreRequest::UpdateFolders(FolderFilter::by_id(owner, target), FolderUpdate::PushFile(id)),
        );
    }
    requests.push(StoreRequest::FindFiles(FileFilter::top_level(owner)));
    proof {
        let views = requests_view(requests@);
        match folder {
            Some(target) => {
                assert(views =~= seq![requests@[0]@, requests@[1]@]);
            },
            None => {
                assert(views =~= seq![requests@[0]@]);
            },
        }
    }
    requests
}

/// The requests that remove the files `ids` of `owner`: the files are taken
/// out of the list of the folder they lie in, if one is named; they are
/// removed; and all files of the owner are read.
pub fn delete_requests(owner: Oid, ids: &Vec<Oid>, folder: Option<Oid>) -> (requests: Vec<
    StoreRequest,
>)
    ensures
        requests_view(requests@) == match folder {
            Some(target) => seq![
                RequestView::UpdateFolders(
                    folder_by_id(owner, target),
                    FolderUpdateView::PullFiles(ids@),
                ),
                RequestView::DeleteFiles(FileFilterView { owner, clause: FileClauseView::Ids(ids@) }),
                RequestView::FindFiles(FileFilterView { owner, clause: FileClauseView::All }),
            ],
            None => seq![
                RequestView::DeleteFiles(FileFilterView { owner, clause: FileClauseView::Ids(ids@) }),
                RequestView::FindFiles(FileFilterView { owner, clause: FileClauseView::All }),
            ],
        },
{
    let mut requests: Vec<StoreRequest> = Vec::new();
    if let Some(target) = folder {
        requests.push(
            StoreRequest::UpdateFolders(
                FolderFilter::by_id(owner, target),
                FolderUpdate::PullFiles(clone_id_list(ids)),
            ),
        );
    }
    requests.push(StoreRequest::DeleteFiles(FileFilter::by_ids(owner, clone_id_list(ids))));
    requests.push(StoreRequest::FindFiles(FileFilter::all(owner)));
    proof {
        let views = requests_view(requests@);
        match folder {
            Some(target) => {
                assert(views =~= seq![requests@[0]@, requests@[1]@, requests@[2]@]);
            },
            None => {
                assert(views =~= seq![requests@[0]@, requests@[1]@]);
            },
        }
    }
    requests
}

} // verus!
