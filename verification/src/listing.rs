//! The merged listing of a scope: files and folders in one sequence, oldest
//! first, entries of equal age in the order in which they were handed in.

use crate::model::{
    files_view, folders_view, stamp_before, stamp_rank, File, FileView, Folder, FolderView, Item, ItemView,
};
use vstd::prelude::*;
use vstd::set_lib::{lemma_int_range, lemma_subset_equality, set_int_range};

verus! {

/// The views of a list of entries, in order.
pub open spec fn items_view(items: Seq<Item>) -> Seq<ItemView> {
    items.map_values(|i: Item| i@)
}

/// The position of an entry in time.
pub open spec fn rank_of(item: ItemView) -> int {
    stamp_rank(item.created_at())
}

/// All files as entries, followed by all folders as entries.
pub open spec fn merged(files: Seq<FileView>, folders: Seq<FolderView>) -> Seq<ItemView> {
    files.map_values(|f: FileView| ItemView::File(f)) + folders.map_values(
        |f: FolderView| ItemView::Folder(f),
    )
}

/// `source[i]` says which entry of `input` stands at place `i` of `output`,
/// and along `output` the pair (age, place in `input`) strictly grows.
pub open spec fn arranges(source: Seq<int>, output: Seq<ItemView>, input: Seq<ItemView>) -> bool {
    &&& source.len() == input.len()
    &&& output.len() == input.len()
    &&& forall|i: int|
        0 <= i < source.len() ==> 0 <= #[trigger] source[i] < input.len() && output[i]
            == input[source[i]]
    &&& forall|i: int, j: int|
        #![trigger output[i], output[j]]
        0 <= i < j < source.len() ==> rank_of(output[i]) < rank_of(output[j]) || (rank_of(
            output[i],
        ) == rank_of(output[j]) && source[i] < source[j])
}

/// `output` holds the entries of `input`, each once, oldest first, and
/// entries of equal age in the order they have in `input`.
pub open spec fn is_stable_sort(output: Seq<ItemView>, input: Seq<ItemView>) -> bool {
    exists|source: Seq<int>| arranges(source, output, input)
}

/// A list of `n` distinct numbers below `n` holds every number below `n`.
proof fn lemma_arrangement_is_onto(source: Seq<int>, x: int)
    requires
        forall|i: int| 0 <= i < source.len() ==> 0 <= #[trigger] source[i] < source.len(),
        forall|i: int, j: int|
            #![trigger source[i], source[j]]
            0 <= i < j < source.len() ==> source[i] != source[j],
        0 <= x < source.len(),
    ensures
        exists|j: int| 0 <= j < source.len() && source[j] == x,
{
    let n = source.len() as int;
    assert(source.no_duplicates());
    source.unique_seq_to_set();
    lemma_int_range(0, n);
    vstd::seq_lib::seq_to_set_is_finite(source);
    assert(source.to_set().subset_of(set_int_range(0, n))) by {
        assert forall|a: int| source.to_set().contains(a) implies set_int_range(0, n).contains(
            a,
        ) by {
            let i = choose|i: int| 0 <= i < source.len() && source[i] == a;
            assert(0 <= source[i] < n);
        }
    }
    lemma_subset_equality(source.to_set(), set_int_range(0, n));
    assert(set_int_range(0, n).contains(x));
    assert(source.to_set().contains(x));
}

/// Two arrangements of the same input agree at every place.
proof fn lemma_arrangements_agree(
    p: Seq<int>,
    a: Seq<ItemView>,
    q: Seq<int>,
    b: Seq<ItemView>,
    input: Seq<ItemView>,
    k: int,
)
    requires
        arranges(p, a, input),
        arranges(q, b, input),
        0 <= k < input.len(),
    ensures
        p[k] == q[k],
    decreases k,
{
    assert forall|i: int| 0 <= i < k implies p[i] == q[i] by {
        lemma_arrangements_agree(p, a, q, b, input, i);
    }
    let x = p[k];
    let y = q[k];
    if x != y {
        lemma_arrangement_is_onto(q, x);
        lemma_arrangement_is_onto(p, y);
        let jx = choose|j: int| 0 <= j < q.len() && q[j] == x;
        let jy = choose|j: int| 0 <= j < p.len() && p[j] == y;
        // x stands in q after place k, and y stands in p after place k:
        // each would have to come before the other.
        if jx < k {
            assert(p[jx] == q[jx]);
            assert(p[jx] != p[k]);
        }
        if jy < k {
            assert(p[jy] == q[jy]);
            assert(q[jy] != q[k]);
        }
        assert(jx > k && jy > k);
        assert(b[k] == input[y] && b[jx] == input[x]);
        assert(a[k] == input[x] && a[jy] == input[y]);
        assert(q[k] == y && q[jx] == x);
        assert(p[k] == x && p[jy] == y);
    }
}

/// The listing of an input is determined by the input alone: two outputs that
/// are both stable sorts of it are the same sequence. Building the listing
/// twice from the same files and folders therefore gives the same result.
pub proof fn lemma_stable_sort_unique(a: Seq<ItemView>, b: Seq<ItemView>, input: Seq<ItemView>)
    requires
        is_stable_sort(a, input),
        is_stable_sort(b, input),
    ensures
        a == b,
{
    let p = choose|p: Seq<int>| arranges(p, a, input);
    let q = choose|q: Seq<int>| arranges(q, b, input);
    assert forall|k: int| 0 <= k < a.len() implies a[k] == b[k] by {
        lemma_arrangements_agree(p, a, q, b, input, k);
    }
    assert(a =~= b);
}

/// A stable sort is ordered by age and keeps every entry of the input.
pub proof fn lemma_stable_sort_is_sorted(output: Seq<ItemView>, input: Seq<ItemView>)
    requires
        is_stable_sort(output, input),
    ensures
        output.len() == input.len(),
        forall|i: int, j: int|
            0 <= i <= j < output.len() ==> rank_of(#[trigger] output[i]) <= rank_of(
                #[trigger] output[j],
            ),
        forall|k: int| 0 <= k < input.len() ==> output.contains(#[trigger] input[k]),
{
    let p = choose|p: Seq<int>| arranges(p, output, input);
    assert forall|i: int, j: int| 0 <= i <= j < output.len() implies rank_of(
        #[trigger] output[i],
    ) <= rank_of(#[trigger] output[j]) by {
    }
    assert forall|k: int| 0 <= k < input.len() implies output.contains(#[trigger] input[k]) by {
        lemma_arrangement_is_onto(p, k);
        let j = choose|j: int| 0 <= j < p.len() && p[j] == k;
        assert(output[j] == input[k]);
    }
}

/// The entries of `input` from place `from` on stand in `output`, arranged as
/// `arranges` asks.
spec fn places(source: Seq<int>, output: Seq<ItemView>, input: Seq<ItemView>, from: int) -> bool {
    &&& 0 <= from <= input.len()
    &&& source.len() == input.len() - from
    &&& output.len() == source.len()
    &&& forall|i: int|
        0 <= i < source.len() ==> from <= #[trigger] source[i] < input.len() && output[i]
            == input[source[i]]
    &&& forall|i: int, j: int|
        #![trigger output[i], output[j]]
        0 <= i < j < source.len() ==> rank_of(output[i]) < rank_of(output[j]) || (rank_of(
            output[i],
        ) == rank_of(output[j]) && source[i] < source[j])
}

/// Puts `item`, the entry at place `from - 1` of the input, into `sorted`:
/// behind every older entry and before all others.
fn place(
    sorted: &mut Vec<Item>,
    item: Item,
    Ghost(source): Ghost<Seq<int>>,
    Ghost(input): Ghost<Seq<ItemView>>,
    Ghost(from): Ghost<int>,
) -> (grown: Ghost<Seq<int>>)
    requires
        places(source, items_view(old(sorted)@), input, from),
        from > 0,
        item@ == input[from - 1],
    ensures
        places(grown@, items_view(final(sorted)@), input, from - 1),
{
    let ghost before = items_view(sorted@);
    let stamp = item.created_at();
    let mut at: usize = 0;
    while at < sorted.len() && stamp_before(&sorted[at].created_at(), &stamp)
        invariant
            at <= sorted.len(),
            before == items_view(sorted@),
            stamp == item@.created_at(),
            forall|i: int| 0 <= i < at ==> rank_of(#[trigger] before[i]) < rank_of(item@),
        decreases sorted.len() - at,
    {
        assert(before[at as int] == sorted@[at as int]@);
        at += 1;
    }
    assert(at < sorted.len() ==> rank_of(before[at as int]) >= rank_of(item@)) by {
        if at < sorted.len() {
            assert(before[at as int] == sorted@[at as int]@);
        }
    }
    let ghost entry = item@;
    sorted.insert(at, item);
    let ghost grown = source.insert(at as int, from - 1);
    proof {
        let after = items_view(sorted@);
        assert(after =~= before.insert(at as int, entry));
        assert forall|i: int| 0 <= i < grown.len() implies from - 1 <= #[trigger] grown[i]
            < input.len() && after[i] == input[grown[i]] by {
            if i < at {
                assert(grown[i] == source[i]);
            } else if i > at {
                assert(grown[i] == source[i - 1]);
                assert(after[i] == before[i - 1]);
            }
        }
        assert forall|i: int, j: int|
            #![trigger after[i], after[j]]
            0 <= i < j < grown.len() implies rank_of(after[i]) < rank_of(after[j]) || (rank_of(
            after[i],
        ) == rank_of(after[j]) && grown[i] < grown[j]) by {
            let oi = if i < at { i } else { i - 1 };
            let oj = if j < at { j } else { j - 1 };
            if i != at && j != at {
                assert(source[oi] == grown[i] && source[oj] == grown[j]);
                assert(after[i] == before[oi] && after[j] == before[oj]);
            } else if j == at {
                assert(after[i] == before[i]);
            } else {
                // the new entry stands before entries that are not older
                assert(after[j] == before[j - 1]);
                assert(source[j - 1] == grown[j]);
                if j - 1 > at {
                    assert(rank_of(before[at as int]) <= rank_of(before[j - 1]));
                }
            }
        }
    }
    Ghost(grown)
}

/// Sorts the entries by creation time, oldest first; entries created at the
/// same instant keep their relative order, and an entry without a creation
/// time comes before every entry that has one.
pub fn sort_items(items: &mut Vec<Item>)
    ensures
        is_stable_sort(items_view(final(items)@), items_view(old(items)@)),
{
    let ghost input = items_view(items@);
    let mut sorted: Vec<Item> = Vec::new();
    let ghost mut source: Seq<int> = Seq::empty();
    assert(input.take(input.len() as int) =~= input);
    while items.len() > 0
        invariant
            items.len() <= input.len(),
            items_view(items@) == input.take(items.len() as int),
            places(source, items_view(sorted@), input, items.len() as int),
        decreases items.len(),
    {
        let ghost k = items.len() - 1;
        let ghost rest = items_view(items@);
        let item = items.pop().unwrap();
        assert(item@ == input[k]) by {
            assert(rest[k] == input.take(k + 1)[k]);
        }
        assert(items_view(items@) == input.take(k)) by {
            assert(items_view(items@) =~= input.take(k + 1).take(k));
            assert(input.take(k + 1).take(k) =~= input.take(k));
        }
        let grown = place(&mut sorted, item, Ghost(source), Ghost(input), Ghost(k + 1));
        proof {
            source = grown@;
        }
    }
    assert(arranges(source, items_view(sorted@), input));
    *items = sorted;
}

/// Builds the listing of a scope from the files and the folders found in it:
/// one sequence of both, oldest first. Entries created at the same instant
/// stay as they were handed in, files before folders.
pub fn build_listing(files: Vec<File>, folders: Vec<Folder>) -> (listing: Vec<Item>)
    ensures
        is_stable_sort(items_view(listing@), merged(files_view(files@), folders_view(folders@))),
{
    let ghost file_views = files_view(files@);
    let ghost folder_views = folders_view(folders@);
    let ghost input = merged(file_views, folder_views);
    let mut files = files;
    let mut folders = folders;
    let mut sorted: Vec<Item> = Vec::new();
    let ghost mut source: Seq<int> = Seq::empty();
    assert(folder_views.take(folder_views.len() as int) =~= folder_views);
    assert(file_views.take(file_views.len() as int) =~= file_views);
    while folders.len() > 0
        invariant
            input == merged(file_views, folder_views),
            folders.len() <= folder_views.len(),
            folders_view(folders@) == folder_views.take(folders.len() as int),
            places(source, items_view(sorted@), input, file_views.len() + folders.len()),
        decreases folders.len(),
    {
        let ghost k = folders.len() - 1;
        let ghost rest = folders_view(folders@);
        let folder = folders.pop().unwrap();
        assert(folder@ == folder_views[k]) by {
            assert(rest[k] == folder_views.take(k + 1)[k]);
        }
        assert(folders_view(folders@) == folder_views.take(k)) by {
            assert(folders_view(folders@) =~= folder_views.take(k + 1).take(k));
            assert(folder_views.take(k + 1).take(k) =~= folder_views.take(k));
        }
        let grown = place(
            &mut sorted,
            Item::Folder(folder),
            Ghost(source),
            Ghost(input),
            Ghost(file_views.len() + k + 1),
        );
        proof {
            source = grown@;
        }
    }
    while files.len() > 0
        invariant
            input == merged(file_views, folder_views),
            files.len() <= file_views.len(),
            files_view(files@) == file_views.take(files.len() as int),
            places(source, items_view(sorted@), input, files.len() as int),
        decreases files.len(),
    {
        let ghost k = files.len() - 1;
        let ghost rest = files_view(files@);
        let file = files.pop().unwrap();
        assert(file@ == file_views[k]) by {
            assert(rest[k] == file_views.take(k + 1)[k]);
        }
        assert(files_view(files@) == file_views.take(k)) by {
            assert(files_view(files@) =~= file_views.take(k + 1).take(k));
            assert(file_views.take(k + 1).take(k) =~= file_views.take(k));
        }
        let grown = place(&mut sorted, Item::File(file), Ghost(source), Ghost(input), Ghost(k + 1));
        proof {
            source = grown@;
        }
    }
    assert(arranges(source, items_view(sorted@), input));
    sorted
}

} // verus!
