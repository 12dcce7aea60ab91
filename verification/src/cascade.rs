//! Removing a folder removes all that lies in it: what the walk of
//! `delete` leaves of a tree in a store that answers its requests.

use crate::delete::{DeleteFrameView, DeleteStepView, DeleteView};
use crate::filter::{file_by_id, folder_by_id, FolderUpdateView};
use crate::model::{FolderView, Oid};
use crate::protocol::{ReplyView, RequestView};
use crate::store::{lemma_load_takes_the_folder, StoreState};
use vstd::prelude::*;

verus! {

/// The shape of a stored tree: a folder, the files listed in it, and the
/// trees of the folders listed in it.
pub struct Subtree {
    pub id: Oid,
    pub files: Seq<Oid>,
    pub children: Seq<Subtree>,
}

impl Subtree {
    /// The identities of the folders listed in the outermost folder.
    pub open spec fn child_ids(self) -> Seq<Oid> {
        Seq::new(self.children.len(), |i: int| self.children[i].id)
    }

    /// Whether `id` is a folder of the tree.
    pub open spec fn has_folder(self, id: Oid) -> bool
        decreases self,
    {
        id == self.id || exists|i: int|
            0 <= i < self.children.len() && (#[trigger] self.children[i]).has_folder(id)
    }

    /// Whether `id` is a file listed in a folder of the tree.
    pub open spec fn has_file(self, id: Oid) -> bool
        decreases self,
    {
        self.files.contains(id) || exists|i: int|
            0 <= i < self.children.len() && (#[trigger] self.children[i]).has_file(id)
    }

    /// Whether no folder occurs twice in the tree.
    pub open spec fn distinct(self) -> bool
        decreases self,
    {
        &&& forall|i: int|
            0 <= i < self.children.len() ==> !(#[trigger] self.children[i]).has_folder(self.id)
        &&& forall|i: int, j: int, id: Oid|
            #![trigger self.children[i].has_folder(id), self.children[j].has_folder(id)]
            0 <= i < j < self.children.len() ==> !(self.children[i].has_folder(id)
                && self.children[j].has_folder(id))
        &&& forall|i: int|
            0 <= i < self.children.len() ==> (#[trigger] self.children[i]).distinct()
    }
}

impl StoreState {
    /// Whether the store holds the tree as a tree of `owner` under `parent`:
    /// every folder of it is there, belongs to the owner, names the folder
    /// around it as its parent, and lists the files and folders that the
    /// shape gives it.
    pub open spec fn holds(self, tree: Subtree, owner: Oid, parent: Option<Oid>) -> bool
        decreases tree,
    {
        &&& self.folders.dom().contains(tree.id)
        &&& self.folders[tree.id].user_id == Some(owner)
        &&& self.folders[tree.id].parent_id == parent
        &&& self.folders[tree.id].child_folders() == tree.child_ids()
        &&& self.folders[tree.id].child_files() == tree.files
        &&& forall|i: int|
            0 <= i < tree.children.len() ==> self.holds(
                #[trigger] tree.children[i],
                owner,
                Some(tree.id),
            )
    }

    /// Whether `owner` has no file `id` in the store.
    pub open spec fn lacks_file(self, owner: Oid, id: Oid) -> bool {
        !(self.files.dom().contains(id) && self.files[id].user_id == Some(owner))
    }

    /// Whether nothing of the tree is left in the store: none of its folders,
    /// and none of its files as a file of `owner`.
    pub open spec fn lacks(self, tree: Subtree, owner: Oid) -> bool {
        &&& forall|id: Oid| tree.has_folder(id) ==> !self.folders.dom().contains(id)
        &&& forall|id: Oid| tree.has_file(id) ==> self.lacks_file(owner, id)
    }

    /// Whether the folder `parent`, where `owner` has it, does not list the
    /// folder `id`.
    pub open spec fn unlisted(self, owner: Oid, parent: Option<Oid>, id: Oid) -> bool {
        parent matches Some(p) ==> (self.folders.dom().contains(p) && self.folders[p].user_id
            == Some(owner) ==> !self.folders[p].child_folders().contains(id))
    }

    /// Whether every folder of the tree that the store has belongs to
    /// `owner`.
    pub open spec fn keeps(self, tree: Subtree, owner: Oid) -> bool {
        forall|id: Oid|
            tree.has_folder(id) && self.folders.dom().contains(id) ==> (
            #[trigger] self.folders[id]).user_id == Some(owner)
    }
}

/// A folder of a nested tree is a folder of the tree around it.
pub proof fn lemma_child_folder(tree: Subtree, i: int, id: Oid)
    requires
        0 <= i < tree.children.len(),
        tree.children[i].has_folder(id),
    ensures
        tree.has_folder(id),
{
}

/// A store that holds a tree has every folder of it, as a folder of the
/// owner.
pub proof fn lemma_held_folders(store: StoreState, tree: Subtree, owner: Oid, parent: Option<Oid>, id: Oid)
    requires
        store.holds(tree, owner, parent),
        tree.has_folder(id),
    ensures
        store.folders.dom().contains(id),
        store.folders[id].user_id == Some(owner),
    decreases tree,
{
    if id != tree.id {
        let i = choose|i: int|
            0 <= i < tree.children.len() && (#[trigger] tree.children[i]).has_folder(id);
        lemma_held_folders(store, tree.children[i], owner, Some(tree.id), id);
    }
}

/// A tree stays held while the folders of it stay as they are.
pub proof fn lemma_holds_elsewhere(
    before: StoreState,
    after: StoreState,
    tree: Subtree,
    owner: Oid,
    parent: Option<Oid>,
)
    requires
        before.holds(tree, owner, parent),
        forall|id: Oid|
            #[trigger] tree.has_folder(id) && before.folders.dom().contains(id)
                ==> after.folders.dom().contains(id) && after.folders[id] == before.folders[id],
    ensures
        after.holds(tree, owner, parent),
    decreases tree,
{
    assert(tree.has_folder(tree.id));
    assert forall|i: int| 0 <= i < tree.children.len() implies after.holds(
        #[trigger] tree.children[i],
        owner,
        Some(tree.id),
    ) by {
        let child = tree.children[i];
        assert forall|id: Oid|
            #[trigger] child.has_folder(id) && before.folders.dom().contains(
                id,
            ) implies after.folders.dom().contains(id) && after.folders[id]
            == before.folders[id] by {
            lemma_child_folder(tree, i, id);
        }
        lemma_holds_elsewhere(before, after, child, owner, Some(tree.id));
    }
}

/// What is gone stays gone while nothing is added to the store.
pub proof fn lemma_lacks_later(before: StoreState, after: StoreState, tree: Subtree, owner: Oid)
    requires
        before.lacks(tree, owner),
        after.folders.dom().subset_of(before.folders.dom()),
        forall|id: Oid| #[trigger]
            after.files.dom().contains(id) ==> before.files.dom().contains(id) && after.files[id]
                == before.files[id],
    ensures
        after.lacks(tree, owner),
{
    assert forall|id: Oid| tree.has_file(id) implies after.lacks_file(owner, id) by {
        assert(before.lacks_file(owner, id));
        if after.files.dom().contains(id) {
            assert(after.files[id] == before.files[id]);
        }
    }
}

/// How many child folders of `shape` the frame has struck off its list.
pub open spec fn struck(shape: Subtree, frame: DeleteFrameView) -> int {
    shape.children.len() - frame.folders.len()
}

/// The tree that frame `i` of the stack is emptying, where the outermost
/// frame is emptying `tree`: each frame is at work on the child that the
/// frame around it struck off last.
pub open spec fn tree_at(tree: Subtree, stack: Seq<DeleteFrameView>, i: int) -> Subtree
    decreases i,
{
    if i <= 0 {
        tree
    } else {
        let around = tree_at(tree, stack, i - 1);
        around.children[struck(around, stack[i - 1]) - 1]
    }
}

/// The folder around the tree that frame `i` of the stack is emptying.
pub open spec fn parent_at(
    tree: Subtree,
    stack: Seq<DeleteFrameView>,
    parent: Option<Oid>,
    i: int,
) -> Option<Oid> {
    if i <= 0 {
        parent
    } else {
        Some(tree_at(tree, stack, i - 1).id)
    }
}

/// Whether a frame is where it should be in emptying `shape`: what it has
/// struck off is gone from the store, what it has left is as the shape gives
/// it and still held by the store.
pub open spec fn frame_fits(
    store: StoreState,
    owner: Oid,
    frame: DeleteFrameView,
    shape: Subtree,
    parent: Option<Oid>,
    innermost: bool,
) -> bool {
    let c = struck(shape, frame);
    let f = shape.files.len() - frame.files.len();
    &&& shape.distinct()
    &&& parent matches Some(p) ==> !shape.has_folder(p)
    &&& frame.id == shape.id
    &&& frame.parent == parent
    &&& 0 <= c <= shape.children.len()
    &&& frame.folders == shape.child_ids().skip(c)
    &&& 0 <= f
    &&& frame.files == shape.files.skip(f)
    &&& !innermost ==> c >= 1
    &&& forall|j: int|
        0 <= j < (if innermost {
            c
        } else {
            c - 1
        }) ==> store.lacks(#[trigger] shape.children[j], owner)
    &&& forall|j: int|
        c <= j < shape.children.len() ==> store.holds(
            #[trigger] shape.children[j],
            owner,
            Some(shape.id),
        )
    &&& forall|j: int| 0 <= j < f ==> store.lacks_file(owner, #[trigger] shape.files[j])
}

/// Whether frame `i` of the walk is where it should be in removing `tree`.
pub open spec fn level_fits(
    walk: DeleteView,
    store: StoreState,
    tree: Subtree,
    parent: Option<Oid>,
    i: int,
) -> bool {
    frame_fits(
        store,
        walk.owner,
        walk.stack[i],
        tree_at(tree, walk.stack, i),
        parent_at(tree, walk.stack, parent, i),
        i == walk.stack.len() - 1,
    )
}

/// Whether a walk is on its way of removing `tree`, a tree under `parent`,
/// from the store: not begun, with the store holding the tree; or at work,
/// every frame where it should be; or through, with nothing of the tree
/// left and the tree out of the list of `parent`.
pub open spec fn on_course(
    walk: DeleteView,
    store: StoreState,
    tree: Subtree,
    parent: Option<Oid>,
) -> bool {
    &&& store.wf()
    &&& store.keeps(tree, walk.owner)
    &&& tree.distinct()
    &&& parent matches Some(p) ==> !tree.has_folder(p)
    &&& walk.failure is None ==> if walk.stack.len() > 0 {
        &&& walk.roots.len() == 0
        &&& walk.listing is None
        &&& forall|i: int|
            0 <= i < walk.stack.len() ==> #[trigger] level_fits(walk, store, tree, parent, i)
        &&& walk.stack[0].unlinked ==> store.unlisted(walk.owner, parent, tree.id)
    } else if walk.roots.len() > 0 {
        &&& walk.roots == seq![tree.id]
        &&& walk.listing is None
        &&& store.holds(tree, walk.owner, parent)
    } else {
        &&& store.lacks(tree, walk.owner)
        &&& store.unlisted(walk.owner, parent, tree.id)
    }
}

/// The tree of a frame depends on the frames around it only.
proof fn lemma_tree_at_same(
    tree: Subtree,
    one: Seq<DeleteFrameView>,
    other: Seq<DeleteFrameView>,
    i: int,
)
    requires
        forall|m: int| 0 <= m < i ==> (#[trigger] one[m]).folders.len() == other[m].folders.len(),
    ensures
        tree_at(tree, one, i) == tree_at(tree, other, i),
    decreases i,
{
    if i > 0 {
        lemma_tree_at_same(tree, one, other, i - 1);
        assert(one[i - 1].folders.len() == other[i - 1].folders.len());
    }
}

/// The tree of an inner frame lies in the child that an outer frame struck
/// off last.
proof fn lemma_path_inside(
    tree: Subtree,
    stack: Seq<DeleteFrameView>,
    i: int,
    m: int,
    id: Oid,
)
    requires
        0 <= i < m,
        forall|l: int|
            i <= l < m ==> 1 <= struck(#[trigger] tree_at(tree, stack, l), stack[l]) <= tree_at(
                tree,
                stack,
                l,
            ).children.len(),
        tree_at(tree, stack, m).has_folder(id),
    ensures
        tree_at(tree, stack, i).children[struck(tree_at(tree, stack, i), stack[i]) - 1].has_folder(
            id,
        ),
    decreases m - i,
{
    if m > i + 1 {
        let around = tree_at(tree, stack, m - 1);
        assert(1 <= struck(around, stack[m - 1]) <= around.children.len());
        lemma_child_folder(around, struck(around, stack[m - 1]) - 1, id);
        lemma_path_inside(tree, stack, i, m - 1, id);
    } else {
        assert(tree_at(tree, stack, i) == tree_at(tree, stack, m - 1));
    }
}

/// How a store may change while a walk removes folders: nothing is added,
/// files stay as they are or go, and folders stay as they are but for those
/// in `touched`, which go or change their lists.
pub open spec fn shrinks(before: StoreState, after: StoreState, touched: Set<Oid>) -> bool {
    &&& after.folders.dom().subset_of(before.folders.dom())
    &&& forall|id: Oid| #[trigger]
        after.files.dom().contains(id) ==> before.files.dom().contains(id) && after.files[id]
            == before.files[id]
    &&& forall|id: Oid|
        #[trigger] before.folders.dom().contains(id) && !touched.contains(id)
            ==> after.folders.dom().contains(id) && after.folders[id] == before.folders[id]
}

/// A frame that is not the innermost stays where it should be while the
/// store changes only inside the child it is at work on, or at its own
/// folder.
proof fn lemma_outer_frame_kept(
    before: StoreState,
    after: StoreState,
    touched: Set<Oid>,
    owner: Oid,
    frame: DeleteFrameView,
    shape: Subtree,
    parent: Option<Oid>,
)
    requires
        frame_fits(before, owner, frame, shape, parent, false),
        shrinks(before, after, touched),
        forall|id: Oid|
            touched.contains(id) ==> id == shape.id || shape.children[struck(shape, frame)
                - 1].has_folder(id),
    ensures
        frame_fits(after, owner, frame, shape, parent, false),
{
    let c = struck(shape, frame);
    let f = shape.files.len() - frame.files.len();
    assert forall|j: int| 0 <= j < c - 1 implies after.lacks(
        #[trigger] shape.children[j],
        owner,
    ) by {
        lemma_lacks_later(before, after, shape.children[j], owner);
    }
    assert forall|j: int| c <= j < shape.children.len() implies after.holds(
        #[trigger] shape.children[j],
        owner,
        Some(shape.id),
    ) by {
        let child = shape.children[j];
        assert forall|id: Oid|
            #[trigger] child.has_folder(id) && before.folders.dom().contains(
                id,
            ) implies after.folders.dom().contains(id) && after.folders[id]
            == before.folders[id] by {
            if touched.contains(id) {
                assert(!shape.children[j].has_folder(shape.id));
                assert(!(shape.children[c - 1].has_folder(id) && shape.children[j].has_folder(id)));
            }
        }
        lemma_holds_elsewhere(before, after, child, owner, Some(shape.id));
    }
    assert forall|j: int| 0 <= j < f implies after.lacks_file(owner, #[trigger] shape.files[j]) by {
        assert(before.lacks_file(owner, shape.files[j]));
    }
}

/// The frame that starts on a held tree is where it should be.
proof fn lemma_new_frame_fits(
    store: StoreState,
    owner: Oid,
    shape: Subtree,
    parent: Option<Oid>,
)
    requires
        store.holds(shape, owner, parent),
        shape.distinct(),
        parent matches Some(p) ==> !shape.has_folder(p),
    ensures
        frame_fits(
            store,
            owner,
            DeleteFrameView::of(store.folders[shape.id], shape.id),
            shape,
            parent,
            true,
        ),
{
    let frame = DeleteFrameView::of(store.folders[shape.id], shape.id);
    assert(frame.folders =~= shape.child_ids().skip(0));
    assert(frame.files =~= shape.files.skip(0));
}

/// The folders of the tree of a frame are folders of the whole tree.
proof fn lemma_path_in_tree(tree: Subtree, stack: Seq<DeleteFrameView>, k: int, id: Oid)
    requires
        0 <= k,
        forall|l: int|
            0 <= l < k ==> 1 <= struck(#[trigger] tree_at(tree, stack, l), stack[l]) <= tree_at(
                tree,
                stack,
                l,
            ).children.len(),
        tree_at(tree, stack, k).has_folder(id),
    ensures
        tree.has_folder(id),
{
    if k > 0 {
        lemma_path_inside(tree, stack, 0, k, id);
        assert(1 <= struck(tree_at(tree, stack, 0), stack[0]) <= tree_at(
            tree,
            stack,
            0,
        ).children.len());
        lemma_child_folder(tree, struck(tree, stack[0]) - 1, id);
    }
}

/// The frames of a walk on course strike off their child folders in order.
proof fn lemma_levels_strike(
    walk: DeleteView,
    store: StoreState,
    tree: Subtree,
    parent: Option<Oid>,
)
    requires
        forall|i: int|
            0 <= i < walk.stack.len() ==> #[trigger] level_fits(walk, store, tree, parent, i),
    ensures
        forall|l: int|
            0 <= l < walk.stack.len() - 1 ==> 1 <= struck(
                #[trigger] tree_at(tree, walk.stack, l),
                walk.stack[l],
            ) <= tree_at(tree, walk.stack, l).children.len(),
{
    assert forall|l: int| 0 <= l < walk.stack.len() - 1 implies 1 <= struck(
        #[trigger] tree_at(tree, walk.stack, l),
        walk.stack[l],
    ) <= tree_at(tree, walk.stack, l).children.len() by {
        assert(level_fits(walk, store, tree, parent, l));
    }
}

/// A walk on course stays on course when it loads the folder it was asked
/// to remove.
proof fn lemma_step_load_root(
    walk: DeleteView,
    store: StoreState,
    tree: Subtree,
    parent: Option<Oid>,
    found: Seq<FolderView>,
)
    requires
        on_course(walk, store, tree, parent),
        walk.failure is None,
        walk.listing is None,
        walk.stack.len() == 0,
        walk.roots.len() > 0,
        store.finds_folders(folder_by_id(walk.owner, walk.roots[0]), found),
    ensures
        on_course(walk.after(ReplyView::Folders(found)), store, tree, parent),
{
    let owner = walk.owner;
    let next = walk.after(ReplyView::Folders(found));
    assert(walk.roots[0] == tree.id);
    assert(tree.has_folder(tree.id));
    lemma_held_folders(store, tree, owner, parent, tree.id);
    lemma_load_takes_the_folder(store, owner, tree.id, found);
    lemma_new_frame_fits(store, owner, tree, parent);
    assert(next.stack =~= seq![DeleteFrameView::of(store.folders[tree.id], tree.id)]);
    assert(next.roots =~= Seq::empty());
    assert(level_fits(next, store, tree, parent, 0));
}

/// A walk on course stays on course when it loads the next child folder of
/// its innermost folder.
proof fn lemma_step_load_child(
    walk: DeleteView,
    store: StoreState,
    tree: Subtree,
    parent: Option<Oid>,
    found: Seq<FolderView>,
)
    requires
        on_course(walk, store, tree, parent),
        walk.failure is None,
        walk.listing is None,
        walk.stack.len() > 0,
        walk.top().folders.len() > 0,
        store.finds_folders(folder_by_id(walk.owner, walk.top().folders[0]), found),
    ensures
        on_course(walk.after(ReplyView::Folders(found)), store, tree, parent),
{
    let owner = walk.owner;
    let next = walk.after(ReplyView::Folders(found));
    let k = walk.stack.len() - 1;
    let top = walk.stack[k];
    let shape = tree_at(tree, walk.stack, k);
    let c = struck(shape, top);
    assert(level_fits(walk, store, tree, parent, k));
    let child = shape.children[c];
    assert(top.folders[0] == shape.child_ids().skip(c)[0]);
    assert(top.folders[0] == child.id);
    assert(store.holds(child, owner, Some(shape.id)));
    assert(child.has_folder(child.id));
    lemma_held_folders(store, child, owner, Some(shape.id), child.id);
    lemma_load_takes_the_folder(store, owner, child.id, found);
    assert(child.distinct());
    assert(!child.has_folder(shape.id));
    lemma_new_frame_fits(store, owner, child, Some(shape.id));
    let struck_top = DeleteFrameView { folders: top.folders.drop_first(), ..top };
    let fresh = DeleteFrameView::of(store.folders[child.id], child.id);
    assert(next.stack =~= walk.stack.drop_last().push(struck_top).push(fresh));
    assert forall|i: int| 0 <= i < next.stack.len() implies #[trigger] level_fits(
        next,
        store,
        tree,
        parent,
        i,
    ) by {
        if i <= k {
            lemma_tree_at_same(tree, walk.stack, next.stack, i);
            if i > 0 {
                lemma_tree_at_same(tree, walk.stack, next.stack, i - 1);
            }
        }
        if i < k {
            assert(level_fits(walk, store, tree, parent, i));
            assert(next.stack[i] == walk.stack[i]);
        } else if i == k {
            assert(next.stack[k] == struck_top);
            assert(struck_top.folders =~= shape.child_ids().skip(c + 1));
        } else {
            lemma_tree_at_same(tree, walk.stack, next.stack, k);
            assert(tree_at(tree, next.stack, k) == shape);
            assert(struck(shape, next.stack[k]) - 1 == c);
            assert(tree_at(tree, next.stack, k + 1) == child);
            assert(next.stack[k + 1] == fresh);
        }
    }
}

/// The frames around the innermost one stay where they should be while the
/// store changes only at the innermost folder or the folder around it.
proof fn lemma_outer_levels_kept(
    walk: DeleteView,
    next: DeleteView,
    before: StoreState,
    after: StoreState,
    touched: Set<Oid>,
    tree: Subtree,
    parent: Option<Oid>,
    upto: int,
)
    requires
        walk.stack.len() > 0,
        forall|i: int|
            0 <= i < walk.stack.len() ==> #[trigger] level_fits(walk, before, tree, parent, i),
        next.owner == walk.owner,
        0 <= upto < walk.stack.len(),
        upto < next.stack.len(),
        forall|i: int| 0 <= i < upto ==> #[trigger] next.stack[i] == walk.stack[i],
        shrinks(before, after, touched),
        forall|id: Oid|
            touched.contains(id) ==> id == tree_at(tree, walk.stack, walk.stack.len() - 1).id || id
                == parent_at(tree, walk.stack, parent, walk.stack.len() - 1)->0,
    ensures
        forall|i: int| 0 <= i < upto ==> #[trigger] level_fits(next, after, tree, parent, i),
{
    let k = walk.stack.len() - 1;
    lemma_levels_strike(walk, before, tree, parent);
    assert forall|i: int| 0 <= i < upto implies #[trigger] level_fits(
        next,
        after,
        tree,
        parent,
        i,
    ) by {
        lemma_tree_at_same(tree, walk.stack, next.stack, i);
        if i > 0 {
            lemma_tree_at_same(tree, walk.stack, next.stack, i - 1);
        }
        assert(level_fits(walk, before, tree, parent, i));
        let shape = tree_at(tree, walk.stack, i);
        let frame = walk.stack[i];
        assert forall|id: Oid| touched.contains(id) implies id == shape.id || shape.children[struck(
            shape,
            frame,
        ) - 1].has_folder(id) by {
            let inner = tree_at(tree, walk.stack, k);
            if id == inner.id {
                assert(inner.has_folder(id));
                lemma_path_inside(tree, walk.stack, i, k, id);
            } else {
                // the folder around the innermost one
                let around = tree_at(tree, walk.stack, k - 1);
                assert(id == around.id);
                if i < k - 1 {
                    assert(around.has_folder(id));
                    lemma_path_inside(tree, walk.stack, i, k - 1, id);
                }
            }
        }
        lemma_outer_frame_kept(
            before,
            after,
            touched,
            walk.owner,
            frame,
            shape,
            parent_at(tree, walk.stack, parent, i),
        );
    }
}

/// A walk on course stays on course when it removes the next file of its
/// innermost folder.
proof fn lemma_step_file(
    walk: DeleteView,
    store: StoreState,
    tree: Subtree,
    parent: Option<Oid>,
    count: u64,
)
    requires
        on_course(walk, store, tree, parent),
        walk.failure is None,
        walk.listing is None,
        walk.stack.len() > 0,
        walk.top().folders.len() == 0,
        walk.top().files.len() > 0,
    ensures
        on_course(
            walk.after(ReplyView::Deleted(count)),
            store.without_files(file_by_id(walk.owner, walk.top().files[0])),
            tree,
            parent,
        ),
{
    let owner = walk.owner;
    let next = walk.after(ReplyView::Deleted(count));
    let k = walk.stack.len() - 1;
    let top = walk.stack[k];
    let gone = top.files[0];
    let filter = file_by_id(owner, gone);
    let after = store.without_files(filter);
    let shape = tree_at(tree, walk.stack, k);
    let f = shape.files.len() - top.files.len();
    let touched = Set::<Oid>::empty();
    assert(shrinks(store, after, touched));
    assert(level_fits(walk, store, tree, parent, k));
    lemma_outer_levels_kept(walk, next, store, after, touched, tree, parent, k);
    assert forall|i: int| 0 <= i < next.stack.len() implies #[trigger] level_fits(
        next,
        after,
        tree,
        parent,
        i,
    ) by {
        if i == k {
            lemma_tree_at_same(tree, walk.stack, next.stack, k);
            if k > 0 {
                lemma_tree_at_same(tree, walk.stack, next.stack, k - 1);
            }
            assert(next.stack[k].files =~= shape.files.skip(f + 1));
            assert(gone == shape.files.skip(f)[0]);
            assert forall|j: int| 0 <= j < struck(shape, top) implies after.lacks(
                #[trigger] shape.children[j],
                owner,
            ) by {
                lemma_lacks_later(store, after, shape.children[j], owner);
            }
            assert forall|j: int| 0 <= j < f + 1 implies after.lacks_file(
                owner,
                #[trigger] shape.files[j],
            ) by {
                if j < f {
                    assert(store.lacks_file(owner, shape.files[j]));
                } else {
                    assert(seq![gone][0] == gone);
                    if store.files.dom().contains(gone) && store.files[gone].user_id == Some(
                        owner,
                    ) {
                        assert(store.files[gone].id == Some(gone));
                        assert(filter.matches(store.files[gone]));
                    }
                }
            }
        }
    }
}

/// A walk on course stays on course when it takes its innermost folder out
/// of the list of the folder around it.
proof fn lemma_step_unlink(
    walk: DeleteView,
    store: StoreState,
    tree: Subtree,
    parent: Option<Oid>,
    count: u64,
)
    requires
        on_course(walk, store, tree, parent),
        walk.failure is None,
        walk.listing is None,
        walk.stack.len() > 0,
        walk.top().folders.len() == 0,
        walk.top().files.len() == 0,
        walk.top().parent is Some,
        !walk.top().unlinked,
    ensures
        on_course(
            walk.after(ReplyView::Updated(count)),
            store.with_update(
                folder_by_id(walk.owner, walk.top().parent->0),
                FolderUpdateView::PullFolder(walk.top().id),
            ),
            tree,
            parent,
        ),
{
    let owner = walk.owner;
    let next = walk.after(ReplyView::Updated(count));
    let k = walk.stack.len() - 1;
    let top = walk.stack[k];
    let p = top.parent->0;
    let filter = folder_by_id(owner, p);
    let update = FolderUpdateView::PullFolder(top.id);
    let after = store.with_update(filter, update);
    let shape = tree_at(tree, walk.stack, k);
    let touched = set![p];
    assert(seq![p][0] == p);
    assert(level_fits(walk, store, tree, parent, k));
    assert(shrinks(store, after, touched)) by {
        assert forall|id: Oid|
            #[trigger] store.folders.dom().contains(id) && !touched.contains(
                id,
            ) implies after.folders.dom().contains(id) && after.folders[id]
            == store.folders[id] by {
            assert(store.folders[id].id == Some(id));
        }
    }
    assert(after.wf()) by {
        assert forall|id: Oid| after.folders.dom().contains(id) implies (
        #[trigger] after.folders[id]).id == Some(id) by {
            assert(store.folders[id].id == Some(id));
        }
    }
    assert(after.keeps(tree, owner)) by {
        assert forall|id: Oid|
            tree.has_folder(id) && after.folders.dom().contains(id) implies (
        #[trigger] after.folders[id]).user_id == Some(owner) by {
            assert(store.folders[id].user_id == Some(owner));
        }
    }
    lemma_outer_levels_kept(walk, next, store, after, touched, tree, parent, k);
    lemma_levels_strike(walk, store, tree, parent);
    assert forall|i: int| 0 <= i < next.stack.len() implies #[trigger] level_fits(
        next,
        after,
        tree,
        parent,
        i,
    ) by {
        if i == k {
            lemma_tree_at_same(tree, walk.stack, next.stack, k);
            if k > 0 {
                lemma_tree_at_same(tree, walk.stack, next.stack, k - 1);
            }
            assert forall|j: int| 0 <= j < struck(shape, top) implies after.lacks(
                #[trigger] shape.children[j],
                owner,
            ) by {
                lemma_lacks_later(store, after, shape.children[j], owner);
            }
            assert forall|j: int| 0 <= j < shape.files.len() - top.files.len()
                implies after.lacks_file(owner, #[trigger] shape.files[j]) by {
                assert(store.lacks_file(owner, shape.files[j]));
            }
        }
    }
    if next.stack[0].unlinked {
        if k == 0 {
            // the folder around the tree has just lost the tree from its list
            assert(p == parent->0);
            assert(top.id == tree.id);
            if after.folders.dom().contains(p) && after.folders[p].user_id == Some(owner) {
                let doc = store.folders[p];
                assert(doc.id == Some(p));
                assert(filter.matches(doc));
                assert(after.folders[p] == update.apply(doc));
                if doc.folders is Some {
                    let list = doc.folders->0;
                    let kept = list.filter(|x: Oid| x != tree.id);
                    if kept.contains(tree.id) {
                        let at = choose|at: int| 0 <= at < kept.len() && kept[at] == tree.id;
                        list.lemma_filter_pred(|x: Oid| x != tree.id, at);
                    }
                }
            }
        } else {
            assert(walk.stack[0].unlinked);
            // the folder around the tree is none of the tree's folders
            assert(tree_at(tree, walk.stack, k - 1).has_folder(p));
            lemma_path_in_tree(tree, walk.stack, k - 1, p);
            assert(parent matches Some(q) ==> q != p);
        }
    }
}

/// Once all that a folder lists is gone and the folder itself is removed,
/// nothing of its tree is left.
proof fn lemma_emptied_tree_is_gone(
    before: StoreState,
    after: StoreState,
    owner: Oid,
    shape: Subtree,
)
    requires
        forall|j: int|
            0 <= j < shape.children.len() ==> before.lacks(#[trigger] shape.children[j], owner),
        forall|j: int| 0 <= j < shape.files.len() ==> before.lacks_file(owner, #[trigger] shape.files[j]),
        shrinks(before, after, set![shape.id]),
        !after.folders.dom().contains(shape.id),
    ensures
        after.lacks(shape, owner),
{
    assert forall|id: Oid| shape.has_folder(id) implies !after.folders.dom().contains(id) by {
        if id != shape.id {
            let j = choose|j: int|
                0 <= j < shape.children.len() && (#[trigger] shape.children[j]).has_folder(id);
            assert(before.lacks(shape.children[j], owner));
        }
    }
    assert forall|id: Oid| shape.has_file(id) implies after.lacks_file(owner, id) by {
        if shape.files.contains(id) {
            let j = choose|j: int| 0 <= j < shape.files.len() && shape.files[j] == id;
            assert(before.lacks_file(owner, shape.files[j]));
        } else {
            let j = choose|j: int|
                0 <= j < shape.children.len() && (#[trigger] shape.children[j]).has_file(id);
            assert(before.lacks(shape.children[j], owner));
            assert(before.lacks_file(owner, id));
        }
        if after.files.dom().contains(id) {
            assert(after.files[id] == before.files[id]);
        }
    }
}

/// A walk on course stays on course when it removes its innermost folder.
proof fn lemma_step_remove(
    walk: DeleteView,
    store: StoreState,
    tree: Subtree,
    parent: Option<Oid>,
    count: u64,
)
    requires
        on_course(walk, store, tree, parent),
        walk.failure is None,
        walk.listing is None,
        walk.stack.len() > 0,
        walk.top().folders.len() == 0,
        walk.top().files.len() == 0,
        walk.top().parent is None || walk.top().unlinked,
    ensures
        on_course(
            walk.after(ReplyView::Deleted(count)),
            store.without_folders(folder_by_id(walk.owner, walk.top().id)),
            tree,
            parent,
        ),
{
    let owner = walk.owner;
    let next = walk.after(ReplyView::Deleted(count));
    let k = walk.stack.len() - 1;
    let top = walk.stack[k];
    let filter = folder_by_id(owner, top.id);
    let after = store.without_folders(filter);
    let shape = tree_at(tree, walk.stack, k);
    let touched = set![shape.id];
    assert(seq![top.id][0] == top.id);
    assert(level_fits(walk, store, tree, parent, k));
    lemma_levels_strike(walk, store, tree, parent);
    assert(shape.has_folder(shape.id));
    lemma_path_in_tree(tree, walk.stack, k, shape.id);
    assert(shrinks(store, after, touched)) by {
        assert forall|id: Oid|
            #[trigger] store.folders.dom().contains(id) && !touched.contains(
                id,
            ) implies after.folders.dom().contains(id) && after.folders[id]
            == store.folders[id] by {
            assert(store.folders[id].id == Some(id));
        }
    }
    assert(!after.folders.dom().contains(shape.id)) by {
        if store.folders.dom().contains(shape.id) {
            assert(store.folders[shape.id].id == Some(shape.id));
            assert(store.folders[shape.id].user_id == Some(owner));
            assert(filter.matches(store.folders[shape.id]));
        }
    }
    assert(struck(shape, top) == shape.children.len());
    lemma_emptied_tree_is_gone(store, after, owner, shape);
    assert(next.stack =~= walk.stack.drop_last());
    if k == 0 {
        assert(shape == tree);
        assert(parent matches Some(q) ==> q != tree.id) by {
            assert(tree.has_folder(tree.id));
        }
    } else {
        lemma_outer_levels_kept(walk, next, store, after, touched, tree, parent, k - 1);
        assert forall|i: int| 0 <= i < next.stack.len() implies #[trigger] level_fits(
            next,
            after,
            tree,
            parent,
            i,
        ) by {
            if i == k - 1 {
                lemma_tree_at_same(tree, walk.stack, next.stack, k - 1);
                if k - 1 > 0 {
                    lemma_tree_at_same(tree, walk.stack, next.stack, k - 2);
                }
                assert(level_fits(walk, store, tree, parent, k - 1));
                let around = tree_at(tree, walk.stack, k - 1);
                let frame = walk.stack[k - 1];
                let c = struck(around, frame);
                assert(around.children[c - 1] == shape);
                lemma_outer_frame_kept(
                    store,
                    after,
                    touched,
                    owner,
                    frame,
                    around,
                    parent_at(tree, walk.stack, parent, k - 1),
                );
                assert(next.stack[k - 1] == frame);
            }
        }
        assert(parent matches Some(q) ==> q != shape.id);
    }
}

/// A walk on course stays on course with every answer of the store.
pub proof fn lemma_walk_stays_on_course(
    walk: DeleteView,
    store: StoreState,
    tree: Subtree,
    parent: Option<Oid>,
    request: RequestView,
    reply: ReplyView,
    after: StoreState,
)
    requires
        on_course(walk, store, tree, parent),
        walk.wants() == DeleteStepView::Ask(request),
        store.answers(request, reply, after),
    ensures
        on_course(walk.after(reply), after, tree, parent),
{
    let next = walk.after(reply);
    if reply is Failed {
        assert(next.failure is Some);
    } else if walk.loading() is Some {
        let found = reply->Folders_0;
        if walk.stack.len() > 0 {
            lemma_step_load_child(walk, store, tree, parent, found);
        } else {
            lemma_step_load_root(walk, store, tree, parent, found);
        }
    } else if walk.stack.len() > 0 {
        let top = walk.top();
        if top.files.len() > 0 {
            lemma_step_file(walk, store, tree, parent, reply->Deleted_0);
        } else if top.parent is Some && !top.unlinked {
            lemma_step_unlink(walk, store, tree, parent, reply->Updated_0);
        } else {
            lemma_step_remove(walk, store, tree, parent, reply->Deleted_0);
        }
    } else {
        assert(next.stack.len() == 0 && next.roots.len() == 0);
    }
}

/// The walk after a run of answers: each reply taken in, in order.
pub open spec fn walk_after(walk: DeleteView, answers: Seq<(ReplyView, StoreState)>) -> DeleteView
    decreases answers.len(),
{
    if answers.len() == 0 {
        walk
    } else {
        walk_after(walk, answers.drop_last()).after(answers.last().0)
    }
}

/// The store after a run of answers.
pub open spec fn store_after(store: StoreState, answers: Seq<(ReplyView, StoreState)>) -> StoreState {
    if answers.len() == 0 {
        store
    } else {
        answers.last().1
    }
}

/// Whether `answers` is a run of the walk against the store: each entry is
/// the store's answer to what the walk asked at that point, and what the
/// store holds from then on.
pub open spec fn is_run(
    walk: DeleteView,
    store: StoreState,
    answers: Seq<(ReplyView, StoreState)>,
) -> bool
    decreases answers.len(),
{
    if answers.len() == 0 {
        true
    } else {
        let earlier = answers.drop_last();
        &&& is_run(walk, store, earlier)
        &&& walk_after(walk, earlier).wants() matches DeleteStepView::Ask(request)
        &&& store_after(store, earlier).answers(request, answers.last().0, answers.last().1)
    }
}

/// A walk that begins on course is on course after every run.
proof fn lemma_run_stays_on_course(
    walk: DeleteView,
    store: StoreState,
    tree: Subtree,
    parent: Option<Oid>,
    answers: Seq<(ReplyView, StoreState)>,
)
    requires
        on_course(walk, store, tree, parent),
        is_run(walk, store, answers),
    ensures
        on_course(walk_after(walk, answers), store_after(store, answers), tree, parent),
        walk_after(walk, answers).owner == walk.owner,
    decreases answers.len(),
{
    if answers.len() > 0 {
        let earlier = answers.drop_last();
        lemma_run_stays_on_course(walk, store, tree, parent, earlier);
        let request = walk_after(walk, earlier).wants()->Ask_0;
        lemma_walk_stays_on_course(
            walk_after(walk, earlier),
            store_after(store, earlier),
            tree,
            parent,
            request,
            answers.last().0,
            answers.last().1,
        );
    }
}

/// Removing a folder removes all that lies in it.
///
/// Take a store that holds a tree of folders as a tree of `owner`, the
/// outermost folder lying under `parent` or at the top level, and a walk
/// that is asked to remove the outermost folder. Let the store answer the
/// walk's requests, however many there are. If the walk then says that it is
/// done, the store holds none of the tree's folders and none of the files
/// listed in them as a file of the owner, and `parent`, where the owner has
/// it, does not list the removed folder.
pub proof fn lemma_cascade_removes_the_tree(
    store: StoreState,
    tree: Subtree,
    owner: Oid,
    parent: Option<Oid>,
    answers: Seq<(ReplyView, StoreState)>,
)
    requires
        store.wf(),
        store.holds(tree, owner, parent),
        tree.distinct(),
        parent matches Some(p) ==> !tree.has_folder(p),
        is_run(DeleteView::starting(owner, seq![tree.id]), store, answers),
        walk_after(DeleteView::starting(owner, seq![tree.id]), answers).wants() is Done,
    ensures
        store_after(store, answers).lacks(tree, owner),
        store_after(store, answers).unlisted(owner, parent, tree.id),
{
    let walk = DeleteView::starting(owner, seq![tree.id]);
    assert(store.keeps(tree, owner)) by {
        assert forall|id: Oid|
            tree.has_folder(id) && store.folders.dom().contains(id) implies (
        #[trigger] store.folders[id]).user_id == Some(owner) by {
            lemma_held_folders(store, tree, owner, parent, id);
        }
    }
    assert(on_course(walk, store, tree, parent));
    lemma_run_stays_on_course(walk, store, tree, parent, answers);
    let end = walk_after(walk, answers);
    assert(end.failure is None && end.listing is Some);
}

} // verus!
