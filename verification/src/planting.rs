//! Creating a tree puts all of it into the store: what the walk of `create`
//! leaves of a plan in a store that answers its requests.

use crate::cascade::{
    is_run, lemma_cascade_removes_the_tree, store_after, walk_after, Subtree,
};
use crate::create::{with_folder, CreateStepView, FrameView, WalkView};
use crate::delete::DeleteView;
use crate::filter::folder_by_id;
use crate::model::{FileView, FolderView, Oid};
use crate::plan::PlanView;
use crate::protocol::{ReplyView, RequestView};
use crate::store::StoreState;
use vstd::prelude::*;

verus! {

/// Whether two plans share no identity of a folder.
pub open spec fn apart(one: PlanView, other: PlanView) -> bool {
    forall|id: Oid| !(#[trigger] one.has_folder(id) && other.has_folder(id))
}

impl PlanView {
    /// The identities of the folders nested in the outermost folder.
    pub open spec fn child_ids(self) -> Seq<Oid> {
        Seq::new(self.folders.len(), |i: int| self.folders[i].record.id->0)
    }

    /// Whether `id` is the identity of a folder of the plan.
    pub open spec fn has_folder(self, id: Oid) -> bool
        decreases self,
    {
        self.record.id == Some(id) || exists|i: int|
            0 <= i < self.folders.len() && (#[trigger] self.folders[i]).has_folder(id)
    }

    /// Whether no identity occurs twice among the folders of the plan.
    pub open spec fn distinct(self) -> bool
        decreases self,
    {
        &&& forall|i: int|
            0 <= i < self.folders.len() ==> self.record.id is Some && !(#[trigger] self.folders[i]).has_folder(
                self.record.id->0,
            )
        &&& forall|i: int, j: int|
            0 <= i < j < self.folders.len() ==> apart(
                #[trigger] self.folders[i],
                #[trigger] self.folders[j],
            )
        &&& forall|i: int| 0 <= i < self.folders.len() ==> (#[trigger] self.folders[i]).distinct()
    }

    /// Whether every folder of the plan has an identity and lists nothing
    /// yet.
    pub open spec fn blank(self) -> bool
        decreases self,
    {
        &&& self.record.id is Some
        &&& self.record.files == Some(Seq::<Oid>::empty())
        &&& self.record.folders == Some(Seq::<Oid>::empty())
        &&& forall|i: int| 0 <= i < self.folders.len() ==> (#[trigger] self.folders[i]).blank()
    }
}

impl StoreState {
    /// Whether the store has the file `id` as it was planned: with that
    /// identity, under whatever name it was stored, and else as `planned`.
    pub open spec fn has_as_planned(self, id: Oid, planned: FileView) -> bool {
        &&& self.files.dom().contains(id)
        &&& self.files[id] == (FileView {
            id: Some(id),
            file_name: self.files[id].file_name,
            ..planned
        })
    }

    /// Whether the store has all of a plan: every folder under its identity
    /// and as planned, listing the folders nested in it in their order and,
    /// in their order, the identities under which its files were stored.
    pub open spec fn grew_from(self, plan: PlanView) -> bool
        decreases plan,
    {
        let id = plan.record.id->0;
        let doc = self.folders[id];
        &&& plan.record.id is Some
        &&& self.folders.dom().contains(id)
        &&& doc == (FolderView { files: doc.files, folders: doc.folders, ..plan.record })
        &&& doc.child_folders() == plan.child_ids()
        &&& doc.child_files().len() == plan.files.len()
        &&& forall|i: int|
            0 <= i < plan.files.len() ==> self.has_as_planned(
                doc.child_files()[i],
                #[trigger] plan.files[i],
            )
        &&& forall|i: int| 0 <= i < plan.folders.len() ==> self.grew_from(#[trigger] plan.folders[i])
    }
}

/// A folder of a nested plan is a folder of the plan around it.
pub proof fn lemma_nested_folder(plan: PlanView, i: int, id: Oid)
    requires
        0 <= i < plan.folders.len(),
        plan.folders[i].has_folder(id),
    ensures
        plan.has_folder(id),
{
}

/// A plan made from a description is blank.
pub proof fn lemma_plan_is_blank(
    plan: PlanView,
    tree: crate::model::TreeView,
    owner: Oid,
    parent: Option<Oid>,
)
    requires
        plan.follows(tree, owner, parent),
    ensures
        plan.blank(),
    decreases plan,
{
    assert forall|i: int| 0 <= i < plan.folders.len() implies (#[trigger] plan.folders[i]).blank() by {
        lemma_plan_is_blank(plan.folders[i], tree.folder_list()[i], owner, plan.record.id);
    }
}

/// What a store has of a plan it keeps while its files and the plan's
/// folders stay as they are.
pub proof fn lemma_grown_stays(before: StoreState, after: StoreState, plan: PlanView)
    requires
        before.grew_from(plan),
        forall|id: Oid| #[trigger]
            before.files.dom().contains(id) ==> after.files.dom().contains(id) && after.files[id]
                == before.files[id],
        forall|id: Oid|
            #[trigger] plan.has_folder(id) && before.folders.dom().contains(id)
                ==> after.folders.dom().contains(id) && after.folders[id] == before.folders[id],
    ensures
        after.grew_from(plan),
    decreases plan,
{
    let id = plan.record.id->0;
    assert(plan.has_folder(id));
    let doc = before.folders[id];
    assert forall|i: int| 0 <= i < plan.files.len() implies after.has_as_planned(
        doc.child_files()[i],
        #[trigger] plan.files[i],
    ) by {
        assert(before.has_as_planned(doc.child_files()[i], plan.files[i]));
    }
    assert forall|i: int| 0 <= i < plan.folders.len() implies after.grew_from(
        #[trigger] plan.folders[i],
    ) by {
        let child = plan.folders[i];
        assert forall|x: Oid|
            #[trigger] child.has_folder(x) && before.folders.dom().contains(
                x,
            ) implies after.folders.dom().contains(x) && after.folders[x]
            == before.folders[x] by {
            lemma_nested_folder(plan, i, x);
        }
        lemma_grown_stays(before, after, child);
    }
}

/// How many nested folders of `node` the frame has taken up.
pub open spec fn taken_up(node: PlanView, frame: FrameView) -> int {
    node.folders.len() - frame.folders.len()
}

/// The plan that frame `i` of the stack is storing, where the outermost
/// frame is storing `plan`: each frame is at work on the nested folder that
/// the frame around it took up last.
pub open spec fn plan_at(plan: PlanView, stack: Seq<FrameView>, i: int) -> PlanView
    decreases i,
{
    if i <= 0 {
        plan
    } else {
        let around = plan_at(plan, stack, i - 1);
        around.folders[taken_up(around, stack[i - 1]) - 1]
    }
}

/// Whether a frame is where it should be in storing `node`: what it has
/// stored is in the store and in its record, what it has left is as the
/// plan gives it.
pub open spec fn frame_grows(store: StoreState, frame: FrameView, node: PlanView, innermost: bool) -> bool {
    let up = taken_up(node, frame);
    let done = if innermost {
        up
    } else {
        up - 1
    };
    let f = node.files.len() - frame.files.len();
    &&& node.blank()
    &&& 0 <= up <= node.folders.len()
    &&& !innermost ==> up >= 1 && frame.files.len() == 0
    &&& frame.folders == node.folders.skip(up)
    &&& 0 <= f
    &&& forall|j: int| 1 <= j < frame.files.len() ==> #[trigger] frame.files[j] == node.files[f + j]
    &&& frame.files.len() > 0 ==> frame.files[0] == (FileView {
        file_name: frame.files[0].file_name,
        ..node.files[f]
    })
    &&& frame.record == (FolderView {
        files: frame.record.files,
        folders: frame.record.folders,
        ..node.record
    })
    &&& frame.record.files is Some
    &&& frame.record.folders is Some
    &&& frame.record.child_folders() == node.child_ids().take(done)
    &&& frame.record.child_files().len() == f
    &&& forall|j: int|
        0 <= j < f ==> store.has_as_planned(
            frame.record.child_files()[j],
            #[trigger] node.files[j],
        )
    &&& forall|j: int| 0 <= j < done ==> store.grew_from(#[trigger] node.folders[j])
}

/// Whether frame `i` of the walk is where it should be in storing `plan`.
pub open spec fn level_grows(walk: WalkView, store: StoreState, plan: PlanView, i: int) -> bool {
    frame_grows(store, walk.stack[i], plan_at(plan, walk.stack, i), i == walk.stack.len() - 1)
}

/// Whether the folder `link`, where one is named, lists the folder `id`.
pub open spec fn listed(store: StoreState, link: Option<Oid>, id: Oid) -> bool {
    link matches Some(p) ==> store.folders.dom().contains(p) && store.folders[p].child_folders().contains(
        id,
    )
}

/// Whether a walk is on its way of storing `plan`: at work, every frame
/// where it should be; or through, with all of the plan in the store.
pub open spec fn growing(walk: WalkView, store: StoreState, plan: PlanView) -> bool {
    &&& store.wf()
    &&& plan.blank()
    &&& walk.link matches Some(p) ==> !plan.has_folder(p)
    &&& !walk.must_open()
    &&& walk.failure is None ==> if walk.stack.len() > 0 {
        &&& walk.root is None
        &&& !walk.linked
        &&& forall|i: int| 0 <= i < walk.stack.len() ==> #[trigger] level_grows(walk, store, plan, i)
    } else {
        &&& walk.root == Some(store.folders[plan.record.id->0])
        &&& store.grew_from(plan)
        &&& walk.linked ==> listed(store, walk.link, plan.record.id->0)
    }
}

/// The plan of a frame depends on the frames around it only.
proof fn lemma_plan_at_same(plan: PlanView, one: Seq<FrameView>, other: Seq<FrameView>, i: int)
    requires
        forall|m: int| 0 <= m < i ==> (#[trigger] one[m]).folders.len() == other[m].folders.len(),
    ensures
        plan_at(plan, one, i) == plan_at(plan, other, i),
    decreases i,
{
    if i > 0 {
        lemma_plan_at_same(plan, one, other, i - 1);
        assert(one[i - 1].folders.len() == other[i - 1].folders.len());
    }
}

/// How a store changes while a walk stores a plan: what it has stays as it
/// is.
pub open spec fn grows(before: StoreState, after: StoreState) -> bool {
    &&& forall|id: Oid| #[trigger]
        before.files.dom().contains(id) ==> after.files.dom().contains(id) && after.files[id]
            == before.files[id]
    &&& forall|id: Oid| #[trigger]
        before.folders.dom().contains(id) ==> after.folders.dom().contains(id) && after.folders[id]
            == before.folders[id]
}

/// A frame stays where it should be while the store grows.
proof fn lemma_frame_kept(
    before: StoreState,
    after: StoreState,
    frame: FrameView,
    node: PlanView,
    innermost: bool,
)
    requires
        frame_grows(before, frame, node, innermost),
        grows(before, after),
    ensures
        frame_grows(after, frame, node, innermost),
{
    let up = taken_up(node, frame);
    let done = if innermost {
        up
    } else {
        up - 1
    };
    let f = node.files.len() - frame.files.len();
    assert forall|j: int| 0 <= j < f implies after.has_as_planned(
        frame.record.child_files()[j],
        #[trigger] node.files[j],
    ) by {
        assert(before.has_as_planned(frame.record.child_files()[j], node.files[j]));
    }
    assert forall|j: int| 0 <= j < done implies after.grew_from(#[trigger] node.folders[j]) by {
        lemma_grown_stays(before, after, node.folders[j]);
    }
}

/// Whether every frame of the walk is where it should be in storing `plan`.
pub open spec fn levels_grow(walk: WalkView, store: StoreState, plan: PlanView) -> bool {
    forall|i: int| 0 <= i < walk.stack.len() ==> #[trigger] level_grows(walk, store, plan, i)
}

/// Taking up the next nested folder keeps every frame where it should be.
proof fn lemma_opened_grows(walk: WalkView, store: StoreState, plan: PlanView)
    requires
        walk.must_open(),
        levels_grow(walk, store, plan),
    ensures
        levels_grow(walk.opened(), store, plan),
{
    let next = walk.opened();
    let k = walk.stack.len() - 1;
    let top = walk.stack[k];
    let node = plan_at(plan, walk.stack, k);
    let up = taken_up(node, top);
    assert(level_grows(walk, store, plan, k));
    let child = node.folders[up];
    assert(top.folders[0] == node.folders.skip(up)[0]);
    let held = FrameView { folders: top.folders.drop_first(), ..top };
    assert forall|i: int| 0 <= i < next.stack.len() implies #[trigger] level_grows(
        next,
        store,
        plan,
        i,
    ) by {
        if i <= k {
            lemma_plan_at_same(plan, walk.stack, next.stack, i);
        }
        if i < k {
            assert(level_grows(walk, store, plan, i));
            assert(next.stack[i] == walk.stack[i]);
        } else if i == k {
            assert(next.stack[k] == held);
            assert(held.folders =~= node.folders.skip(up + 1));
        } else {
            lemma_plan_at_same(plan, walk.stack, next.stack, k);
            assert(plan_at(plan, next.stack, k) == node);
            assert(taken_up(node, next.stack[k]) - 1 == up);
            assert(plan_at(plan, next.stack, k + 1) == child);
            assert(next.stack[k + 1] == FrameView::of(child));
            assert(child.blank());
            assert(child.folders.skip(0) =~= child.folders);
            assert(child.child_ids().take(0) =~= Seq::<Oid>::empty());
        }
    }
}

/// Going down to where the next request arises keeps every frame where it
/// should be, and changes nothing but the frames.
proof fn lemma_settled_grows(walk: WalkView, store: StoreState, plan: PlanView)
    requires
        levels_grow(walk, store, plan),
    ensures
        levels_grow(walk.settled(), store, plan),
        walk.settled().root == walk.root,
        walk.settled().linked == walk.linked,
        walk.settled().failure == walk.failure,
        walk.settled().link == walk.link,
        walk.settled().owner == walk.owner,
        walk.stack.len() > 0 ==> walk.settled().stack.len() > 0,
        walk.stack.len() == 0 ==> walk.settled() == walk,
        !walk.settled().must_open(),
    decreases walk.pending(),
{
    if walk.must_open() {
        lemma_opened_grows(walk, store, plan);
        lemma_settled_grows(walk.opened(), store, plan);
    }
}

/// A walk that starts on a blank plan is on its way of storing it.
pub proof fn lemma_starts_growing(store: StoreState, plan: PlanView, owner: Oid, link: Option<Oid>)
    requires
        store.wf(),
        plan.blank(),
        link matches Some(p) ==> !plan.has_folder(p),
    ensures
        growing(WalkView::starting(plan, owner, link).settled(), store, plan),
{
    let walk = WalkView::starting(plan, owner, link);
    assert(level_grows(walk, store, plan, 0)) by {
        assert(plan.folders.skip(0) =~= plan.folders);
        assert(plan.child_ids().take(0) =~= Seq::<Oid>::empty());
    }
    lemma_settled_grows(walk, store, plan);
}

/// A walk on its way stays on its way when the files that carry the next
/// file's name have been counted.
proof fn lemma_take_count(walk: WalkView, store: StoreState, plan: PlanView, found: Seq<FileView>)
    requires
        growing(walk, store, plan),
        walk.failure is None,
        walk.stack.len() > 0,
        walk.top().files.len() > 0,
        !walk.top().counted,
    ensures
        levels_grow(walk.takes(ReplyView::Files(found)), store, plan),
        walk.takes(ReplyView::Files(found)).stack.len() > 0,
{
    let next = walk.takes(ReplyView::Files(found));
    let k = walk.stack.len() - 1;
    assert(level_grows(walk, store, plan, k));
    assert forall|i: int| 0 <= i < next.stack.len() implies #[trigger] level_grows(
        next,
        store,
        plan,
        i,
    ) by {
        lemma_plan_at_same(plan, walk.stack, next.stack, i);
        if i < k {
            assert(level_grows(walk, store, plan, i));
            assert(next.stack[i] == walk.stack[i]);
        }
    }
}

/// A walk on its way stays on its way when its next file has been stored.
proof fn lemma_take_file(
    walk: WalkView,
    store: StoreState,
    plan: PlanView,
    id: Oid,
    after: StoreState,
)
    requires
        growing(walk, store, plan),
        walk.failure is None,
        walk.stack.len() > 0,
        walk.top().files.len() > 0,
        walk.top().counted,
        store.answers(RequestView::InsertFile(walk.top().files[0]), ReplyView::Inserted(id), after),
    ensures
        levels_grow(walk.takes(ReplyView::Inserted(id)), after, plan),
        walk.takes(ReplyView::Inserted(id)).stack.len() > 0,
{
    let next = walk.takes(ReplyView::Inserted(id));
    let k = walk.stack.len() - 1;
    let top = walk.stack[k];
    let node = plan_at(plan, walk.stack, k);
    let f = node.files.len() - top.files.len();
    assert(level_grows(walk, store, plan, k));
    assert(grows(store, after));
    assert forall|i: int| 0 <= i < next.stack.len() implies #[trigger] level_grows(
        next,
        after,
        plan,
        i,
    ) by {
        lemma_plan_at_same(plan, walk.stack, next.stack, i);
        assert(level_grows(walk, store, plan, i));
        lemma_frame_kept(store, after, walk.stack[i], plan_at(plan, walk.stack, i), i == k);
        if i < k {
            assert(next.stack[i] == walk.stack[i]);
        } else {
            let frame = next.stack[k];
            assert(frame == top.stored(id));
            assert(frame.record.child_files() =~= top.record.child_files().push(id));
            assert forall|j: int| 0 <= j < f + 1 implies after.has_as_planned(
                frame.record.child_files()[j],
                #[trigger] node.files[j],
            ) by {
                if j < f {
                    assert(after.has_as_planned(top.record.child_files()[j], node.files[j]));
                }
            }
            assert forall|j: int| 1 <= j < frame.files.len() implies #[trigger] frame.files[j]
                == node.files[f + 1 + j] by {
                assert(frame.files[j] == top.files[j + 1]);
            }
            if frame.files.len() > 0 {
                assert(frame.files[0] == top.files[1]);
            }
        }
    }
}

/// A walk on its way stays on its way when its innermost folder has been
/// stored.
proof fn lemma_take_folder(
    walk: WalkView,
    store: StoreState,
    plan: PlanView,
    id: Oid,
    after: StoreState,
)
    requires
        growing(walk, store, plan),
        walk.failure is None,
        walk.stack.len() > 0,
        walk.top().files.len() == 0,
        walk.top().record.id == Some(id),
        store.answers(RequestView::InsertFolder(walk.top().record), ReplyView::Inserted(id), after),
    ensures
        levels_grow(walk.takes(ReplyView::Inserted(id)), after, plan),
        walk.takes(ReplyView::Inserted(id)).stack.len() == walk.stack.len() - 1,
        walk.stack.len() == 1 ==> after.grew_from(plan) && walk.takes(ReplyView::Inserted(id)).root
            == Some(after.folders[plan.record.id->0]),
        walk.stack.len() > 1 ==> walk.takes(ReplyView::Inserted(id)).root is None,
{
    let next = walk.takes(ReplyView::Inserted(id));
    let k = walk.stack.len() - 1;
    let top = walk.stack[k];
    let node = plan_at(plan, walk.stack, k);
    assert(level_grows(walk, store, plan, k));
    assert(grows(store, after));
    assert(after.folders[id] == top.record);
    lemma_frame_kept(store, after, top, node, true);
    assert(top.folders.len() == 0);
    assert(node.child_ids().take(node.folders.len() as int) =~= node.child_ids());
    assert(after.grew_from(node));
    if k > 0 {
        let outer = walk.stack[k - 1];
        let around = plan_at(plan, walk.stack, k - 1);
        let up = taken_up(around, outer);
        assert(level_grows(walk, store, plan, k - 1));
        assert(around.folders[up - 1] == node);
        let adopted = FrameView { record: with_folder(outer.record, id), ..outer };
        assert(next.stack =~= walk.stack.drop_last().drop_last().push(adopted));
        assert forall|i: int| 0 <= i < next.stack.len() implies #[trigger] level_grows(
            next,
            after,
            plan,
            i,
        ) by {
            lemma_plan_at_same(plan, walk.stack, next.stack, i);
            assert(level_grows(walk, store, plan, i));
            lemma_frame_kept(store, after, walk.stack[i], plan_at(plan, walk.stack, i), false);
            if i < k - 1 {
                assert(next.stack[i] == walk.stack[i]);
            } else {
                assert(next.stack[i] == adopted);
                assert(adopted.record.child_folders() =~= outer.record.child_folders().push(id));
                assert(around.child_ids().take(up) =~= around.child_ids().take(up - 1).push(id));
                assert forall|j: int| 0 <= j < up implies after.grew_from(
                    #[trigger] around.folders[j],
                ) by {
                    if j < up - 1 {
                        assert(after.grew_from(around.folders[j]));
                    }
                }
            }
        }
    } else {
        assert(next.stack =~= Seq::<FrameView>::empty());
    }
}

/// A walk on its way stays on its way when the stored tree has been entered
/// in the folder it hangs under.
proof fn lemma_take_link(
    walk: WalkView,
    store: StoreState,
    plan: PlanView,
    count: u64,
    after: StoreState,
)
    requires
        growing(walk, store, plan),
        walk.failure is None,
        walk.stack.len() == 0,
        walk.link is Some,
        !walk.linked,
        walk.wants() matches CreateStepView::Ask(request) && store.answers(
            request,
            ReplyView::Updated(count),
            after,
        ),
    ensures
        growing(walk.takes(ReplyView::Updated(count)), after, plan),
{
    let next = walk.takes(ReplyView::Updated(count));
    let p = walk.link->0;
    let root = plan.record.id->0;
    let filter = folder_by_id(walk.owner, p);
    assert(plan.has_folder(root));
    assert(seq![p][0] == p);
    crate::store::lemma_answers_keep_wf(store, walk.wants()->Ask_0, ReplyView::Updated(count), after);
    assert forall|x: Oid|
        #[trigger] plan.has_folder(x) && store.folders.dom().contains(
            x,
        ) implies after.folders.dom().contains(x) && after.folders[x] == store.folders[x] by {
        assert(store.folders[x].id == Some(x));
    }
    lemma_grown_stays(store, after, plan);
    if count > 0 {
        let k = choose|k: Oid|
            store.folders.dom().contains(k) && filter.matches(#[trigger] store.folders[k]);
        assert(store.folders[k].id == Some(k));
        assert(k == p);
        let list = store.folders[p].child_folders();
        assert(list.push(root)[list.len() as int] == root);
    }
}

/// A store that has all of a plan has every folder of it.
pub proof fn lemma_grown_has(store: StoreState, plan: PlanView, id: Oid)
    requires
        store.grew_from(plan),
        plan.has_folder(id),
    ensures
        store.folders.dom().contains(id),
    decreases plan,
{
    if plan.record.id != Some(id) {
        let i = choose|i: int|
            0 <= i < plan.folders.len() && (#[trigger] plan.folders[i]).has_folder(id);
        lemma_grown_has(store, plan.folders[i], id);
    }
}

/// How many nested folders frame `i` of the walk has stored with all they
/// hold.
pub open spec fn stored_count(walk: WalkView, plan: PlanView, i: int) -> int {
    let up = taken_up(plan_at(plan, walk.stack, i), walk.stack[i]);
    if i == walk.stack.len() - 1 {
        up
    } else {
        up - 1
    }
}

/// The `j`-th nested folder of the plan that frame `i` of the walk is
/// storing.
pub open spec fn nested_at(walk: WalkView, plan: PlanView, i: int, j: int) -> PlanView {
    plan_at(plan, walk.stack, i).folders[j]
}

/// Whether what the walk has stored so far shows no identity twice: each
/// nested folder that a frame has stored is distinct in itself and apart
/// from every other; and with the walk through, the whole plan is distinct.
pub open spec fn kept_apart(walk: WalkView, plan: PlanView) -> bool {
    walk.failure is None ==> if walk.stack.len() > 0 {
        &&& forall|i: int, j: int|
            0 <= i < walk.stack.len() && 0 <= j < stored_count(walk, plan, i) ==> (
            #[trigger] nested_at(walk, plan, i, j)).distinct()
        &&& forall|i: int, j: int, m: int, n: int|
            0 <= i <= m < walk.stack.len() && 0 <= j < stored_count(walk, plan, i) && 0 <= n
                < stored_count(walk, plan, m) && (i != m || j != n) ==> apart(
                #[trigger] nested_at(walk, plan, i, j),
                #[trigger] nested_at(walk, plan, m, n),
            )
    } else {
        plan.distinct()
    }
}

/// What a walk has stored it has stored whatever its innermost frame has
/// left to do.
proof fn lemma_apart_same(walk: WalkView, next: WalkView, plan: PlanView)
    requires
        kept_apart(walk, plan),
        walk.failure is None,
        next.failure is None,
        walk.stack.len() > 0,
        next.stack.len() >= walk.stack.len(),
        forall|i: int|
            0 <= i < walk.stack.len() ==> (#[trigger] next.stack[i]).folders.len()
                == walk.stack[i].folders.len() - (if i == walk.stack.len() - 1 && next.stack.len()
                > walk.stack.len() {
                1int
            } else {
                0int
            }),
        forall|i: int|
            walk.stack.len() <= i < next.stack.len() ==> stored_count(next, plan, i) == 0,
    ensures
        kept_apart(next, plan),
{
    assert forall|i: int| 0 <= i < walk.stack.len() implies plan_at(plan, next.stack, i) == plan_at(
        plan,
        walk.stack,
        i,
    ) && stored_count(next, plan, i) == stored_count(walk, plan, i) by {
        lemma_plan_at_same(plan, walk.stack, next.stack, i);
    }
    assert forall|i: int, j: int|
        0 <= i < next.stack.len() && 0 <= j < stored_count(next, plan, i) implies (
    #[trigger] nested_at(next, plan, i, j)).distinct() by {
        assert(nested_at(next, plan, i, j) == nested_at(walk, plan, i, j));
    }
    assert forall|i: int, j: int, m: int, n: int|
        0 <= i <= m < next.stack.len() && 0 <= j < stored_count(next, plan, i) && 0 <= n
            < stored_count(next, plan, m) && (i != m || j != n) implies apart(
        #[trigger] nested_at(next, plan, i, j),
        #[trigger] nested_at(next, plan, m, n),
    ) by {
        assert(nested_at(next, plan, i, j) == nested_at(walk, plan, i, j));
        assert(nested_at(next, plan, m, n) == nested_at(walk, plan, m, n));
    }
}

/// Going down to where the next request arises stores nothing.
proof fn lemma_settled_apart(walk: WalkView, store: StoreState, plan: PlanView)
    requires
        kept_apart(walk, plan),
        levels_grow(walk, store, plan),
    ensures
        kept_apart(walk.settled(), plan),
    decreases walk.pending(),
{
    if walk.must_open() {
        let next = walk.opened();
        let k = walk.stack.len() - 1;
        let top = walk.stack[k];
        let node = plan_at(plan, walk.stack, k);
        let up = taken_up(node, top);
        assert(level_grows(walk, store, plan, k));
        assert(top.folders[0] == node.folders.skip(up)[0]);
        lemma_plan_at_same(plan, walk.stack, next.stack, k);
        assert(plan_at(plan, next.stack, k + 1) == node.folders[up]);
        assert(next.stack[k + 1] == FrameView::of(node.folders[up]));
        assert(stored_count(next, plan, k + 1) == 0);
        lemma_apart_same(walk, next, plan);
        lemma_opened_grows(walk, store, plan);
        lemma_settled_apart(next, store, plan);
    }
}

/// Storing the innermost folder shows no identity twice: the folder was not
/// in the store, and all that was stored before is.
proof fn lemma_take_folder_apart(
    walk: WalkView,
    store: StoreState,
    plan: PlanView,
    id: Oid,
    after: StoreState,
)
    requires
        growing(walk, store, plan),
        kept_apart(walk, plan),
        walk.failure is None,
        walk.stack.len() > 0,
        walk.top().files.len() == 0,
        walk.top().record.id == Some(id),
        store.answers(RequestView::InsertFolder(walk.top().record), ReplyView::Inserted(id), after),
    ensures
        kept_apart(walk.takes(ReplyView::Inserted(id)), plan),
{
    let next = walk.takes(ReplyView::Inserted(id));
    let k = walk.stack.len() - 1;
    let top = walk.stack[k];
    let node = plan_at(plan, walk.stack, k);
    assert(level_grows(walk, store, plan, k));
    assert(top.folders.len() == 0);
    assert(stored_count(walk, plan, k) == node.folders.len());
    assert(node.record.id == Some(id));
    // whatever was stored before is in the store, where the folder is not
    assert forall|i: int, j: int, x: Oid|
        0 <= i < walk.stack.len() && 0 <= j < stored_count(walk, plan, i) && #[trigger] nested_at(
            walk,
            plan,
            i,
            j,
        ).has_folder(x) implies x != id by {
        assert(level_grows(walk, store, plan, i));
        assert(store.grew_from(plan_at(plan, walk.stack, i).folders[j]));
        lemma_grown_has(store, nested_at(walk, plan, i, j), x);
    }
    assert(node.distinct()) by {
        assert forall|j: int| 0 <= j < node.folders.len() implies !(#[trigger] node.folders[j]).has_folder(
            id,
        ) by {
            assert(node.folders[j] == nested_at(walk, plan, k, j));
        }
        assert forall|i: int, j: int| 0 <= i < j < node.folders.len() implies apart(
            #[trigger] node.folders[i],
            #[trigger] node.folders[j],
        ) by {
            assert(node.folders[i] == nested_at(walk, plan, k, i));
            assert(node.folders[j] == nested_at(walk, plan, k, j));
        }
        assert forall|j: int| 0 <= j < node.folders.len() implies (#[trigger] node.folders[j]).distinct() by {
            assert(node.folders[j] == nested_at(walk, plan, k, j));
        }
    }
    if k > 0 {
        let outer = walk.stack[k - 1];
        let around = plan_at(plan, walk.stack, k - 1);
        let up = taken_up(around, outer);
        assert(level_grows(walk, store, plan, k - 1));
        assert(around.folders[up - 1] == node);
        let adopted = FrameView { record: with_folder(outer.record, id), ..outer };
        assert(next.stack =~= walk.stack.drop_last().drop_last().push(adopted));
        assert forall|i: int| 0 <= i < next.stack.len() implies plan_at(plan, next.stack, i)
            == plan_at(plan, walk.stack, i) && stored_count(next, plan, i) == stored_count(
            walk,
            plan,
            i,
        ) + (if i == k - 1 {
            1int
        } else {
            0int
        }) by {
            lemma_plan_at_same(plan, walk.stack, next.stack, i);
        }
        // the folder just stored is apart from all that was stored around it
        assert forall|i: int, j: int|
            0 <= i < k && 0 <= j < stored_count(walk, plan, i) implies apart(
            #[trigger] nested_at(walk, plan, i, j),
            node,
        ) by {
            let other = nested_at(walk, plan, i, j);
            assert forall|x: Oid| !(#[trigger] other.has_folder(x) && node.has_folder(x)) by {
                if other.has_folder(x) && node.has_folder(x) {
                    assert(x != id);
                    let n = choose|n: int|
                        0 <= n < node.folders.len() && (#[trigger] node.folders[n]).has_folder(x);
                    assert(node.folders[n] == nested_at(walk, plan, k, n));
                    assert(apart(nested_at(walk, plan, i, j), nested_at(walk, plan, k, n)));
                }
            }
        }
        assert forall|i: int, j: int|
            0 <= i < next.stack.len() && 0 <= j < stored_count(next, plan, i) implies (
        #[trigger] nested_at(next, plan, i, j)).distinct() by {
            if i == k - 1 && j == up - 1 {
                assert(nested_at(next, plan, i, j) == node);
            } else {
                assert(nested_at(next, plan, i, j) == nested_at(walk, plan, i, j));
            }
        }
        assert forall|i: int, j: int, m: int, n: int|
            0 <= i <= m < next.stack.len() && 0 <= j < stored_count(next, plan, i) && 0 <= n
                < stored_count(next, plan, m) && (i != m || j != n) implies apart(
            #[trigger] nested_at(next, plan, i, j),
            #[trigger] nested_at(next, plan, m, n),
        ) by {
            let one = nested_at(next, plan, i, j);
            let other = nested_at(next, plan, m, n);
            if i == k - 1 && j == up - 1 {
                assert(one == node);
                assert(other == nested_at(walk, plan, m, n));
                assert(apart(nested_at(walk, plan, m, n), node));
            } else if m == k - 1 && n == up - 1 {
                assert(other == node);
                assert(one == nested_at(walk, plan, i, j));
                assert(apart(nested_at(walk, plan, i, j), node));
            } else {
                assert(one == nested_at(walk, plan, i, j));
                assert(other == nested_at(walk, plan, m, n));
            }
        }
    } else {
        assert(next.stack =~= Seq::<FrameView>::empty());
        assert(node == plan);
    }
}

/// What a walk on its way has stored shows no identity twice, whatever the
/// store answers.
pub proof fn lemma_walk_keeps_apart(
    walk: WalkView,
    store: StoreState,
    plan: PlanView,
    request: RequestView,
    reply: ReplyView,
    after: StoreState,
)
    requires
        growing(walk, store, plan),
        kept_apart(walk, plan),
        walk.wants() == CreateStepView::Ask(request),
        store.answers(request, reply, after),
    ensures
        kept_apart(walk.after(reply), plan),
{
    let taken = walk.takes(reply);
    if reply is Failed {
        assert(taken.failure is Some);
        lemma_settled_fails(taken);
    } else if walk.stack.len() > 0 {
        let top = walk.top();
        let k = walk.stack.len() - 1;
        if top.files.len() > 0 {
            if top.counted {
                lemma_take_file(walk, store, plan, reply->Inserted_0, after);
            } else {
                lemma_take_count(walk, store, plan, reply->Files_0);
            }
            assert(taken.stack.len() == walk.stack.len());
            assert(taken.stack[k].folders == walk.stack[k].folders);
            assert forall|i: int| 0 <= i < walk.stack.len() implies (#[trigger] taken.stack[i]).folders.len()
                == walk.stack[i].folders.len() by {
                if i < k {
                    assert(taken.stack[i] == walk.stack[i]);
                }
            }
            lemma_apart_same(walk, taken, plan);
            lemma_settled_apart(taken, after, plan);
        } else {
            let id = reply->Inserted_0;
            assert(level_grows(walk, store, plan, k));
            assert(top.record.id == Some(id));
            lemma_take_folder(walk, store, plan, id, after);
            lemma_take_folder_apart(walk, store, plan, id, after);
            lemma_settled_apart(taken, after, plan);
        }
    } else {
        lemma_settled_grows(taken, after, plan);
        if taken.failure is None {
            assert(taken.settled() == taken);
        } else {
            lemma_settled_fails(taken);
        }
    }
}

/// A walk on its way of storing a plan stays on its way with every answer
/// of the store.
pub proof fn lemma_walk_keeps_growing(
    walk: WalkView,
    store: StoreState,
    plan: PlanView,
    request: RequestView,
    reply: ReplyView,
    after: StoreState,
)
    requires
        growing(walk, store, plan),
        walk.wants() == CreateStepView::Ask(request),
        store.answers(request, reply, after),
    ensures
        growing(walk.after(reply), after, plan),
{
    let taken = walk.takes(reply);
    crate::store::lemma_answers_keep_wf(store, request, reply, after);
    if reply is Failed {
        assert(taken.failure is Some);
        lemma_settled_fails(taken);
    } else if walk.stack.len() > 0 {
        let top = walk.top();
        if top.files.len() > 0 {
            if top.counted {
                lemma_take_file(walk, store, plan, reply->Inserted_0, after);
            } else {
                lemma_take_count(walk, store, plan, reply->Files_0);
            }
            lemma_settled_grows(taken, after, plan);
        } else {
            let id = reply->Inserted_0;
            assert(level_grows(walk, store, plan, walk.stack.len() - 1));
            assert(top.record.id == Some(id));
            lemma_take_folder(walk, store, plan, id, after);
            lemma_settled_grows(taken, after, plan);
        }
    } else {
        lemma_take_link(walk, store, plan, reply->Updated_0, after);
        lemma_settled_grows(taken, after, plan);
    }
}

/// A walk that has ended early goes nowhere.
proof fn lemma_settled_fails(walk: WalkView)
    requires
        walk.failure is Some,
    ensures
        walk.settled() == walk,
{
}

/// The walk after a run of answers: each reply taken in, in order.
pub open spec fn created_after(walk: WalkView, answers: Seq<(ReplyView, StoreState)>) -> WalkView
    decreases answers.len(),
{
    if answers.len() == 0 {
        walk
    } else {
        created_after(walk, answers.drop_last()).after(answers.last().0)
    }
}

/// The store after a run of answers.
pub open spec fn grown_after(store: StoreState, answers: Seq<(ReplyView, StoreState)>) -> StoreState {
    if answers.len() == 0 {
        store
    } else {
        answers.last().1
    }
}

/// Whether `answers` is a run of the walk against the store: each entry is
/// the store's answer to what the walk asked at that point, and what the
/// store holds from then on.
pub open spec fn is_create_run(
    walk: WalkView,
    store: StoreState,
    answers: Seq<(ReplyView, StoreState)>,
) -> bool
    decreases answers.len(),
{
    if answers.len() == 0 {
        true
    } else {
        let earlier = answers.drop_last();
        &&& is_create_run(walk, store, earlier)
        &&& created_after(walk, earlier).wants() matches CreateStepView::Ask(request)
        &&& grown_after(store, earlier).answers(request, answers.last().0, answers.last().1)
    }
}

/// A walk that begins on its way is on its way after every run.
proof fn lemma_run_keeps_growing(
    walk: WalkView,
    store: StoreState,
    plan: PlanView,
    answers: Seq<(ReplyView, StoreState)>,
)
    requires
        growing(walk, store, plan),
        kept_apart(walk, plan),
        is_create_run(walk, store, answers),
    ensures
        growing(created_after(walk, answers), grown_after(store, answers), plan),
        kept_apart(created_after(walk, answers), plan),
        created_after(walk, answers).link == walk.link,
    decreases answers.len(),
{
    if answers.len() > 0 {
        let earlier = answers.drop_last();
        lemma_run_keeps_growing(walk, store, plan, earlier);
        let before = created_after(walk, earlier);
        let request = before.wants()->Ask_0;
        lemma_walk_keeps_growing(
            before,
            grown_after(store, earlier),
            plan,
            request,
            answers.last().0,
            answers.last().1,
        );
        lemma_walk_keeps_apart(
            before,
            grown_after(store, earlier),
            plan,
            request,
            answers.last().0,
            answers.last().1,
        );
        lemma_after_keeps_link(before, answers.last().0);
    }
}

/// No reply changes the folder that the tree is to hang under.
proof fn lemma_after_keeps_link(walk: WalkView, reply: ReplyView)
    ensures
        walk.after(reply).link == walk.link,
{
    lemma_settled_keeps_link(walk.takes(reply));
}

/// Going down to where the next request arises changes no link.
proof fn lemma_settled_keeps_link(walk: WalkView)
    ensures
        walk.settled().link == walk.link,
    decreases walk.pending(),
{
    if walk.must_open() {
        lemma_settled_keeps_link(walk.opened());
    }
}

/// Creating a tree puts all of it into the store.
///
/// Take a plan in which every folder has its identity and lists nothing
/// yet, as planning makes it, and a walk that is to store it; if the tree is
/// to hang under a folder, let that folder be none of the plan's. Let the
/// store answer the walk's requests, however many there are. If the walk
/// then says that it is done, the store has every folder of the plan under
/// its identity, each listing the folders planned in it and the identities
/// under which its files were stored, and every such file as planned but
/// for its name; the folder handed back is the outermost folder as the store
/// has it; the folder that the tree hangs under lists it; and no two
/// folders of the plan have the same identity.
pub proof fn lemma_create_stores_the_plan(
    store: StoreState,
    plan: PlanView,
    owner: Oid,
    link: Option<Oid>,
    answers: Seq<(ReplyView, StoreState)>,
)
    requires
        store.wf(),
        plan.blank(),
        link matches Some(p) ==> !plan.has_folder(p),
        is_create_run(WalkView::starting(plan, owner, link).settled(), store, answers),
        created_after(WalkView::starting(plan, owner, link).settled(), answers).wants() is Done,
    ensures
        grown_after(store, answers).grew_from(plan),
        created_after(WalkView::starting(plan, owner, link).settled(), answers).wants()
            == CreateStepView::Done(grown_after(store, answers).folders[plan.record.id->0]),
        listed(grown_after(store, answers), link, plan.record.id->0),
        plan.distinct(),
        grown_after(store, answers).wf(),
{
    let start = WalkView::starting(plan, owner, link);
    let walk = start.settled();
    lemma_starts_growing(store, plan, owner, link);
    assert(kept_apart(start, plan)) by {
        assert(stored_count(start, plan, 0) == 0);
    }
    assert(levels_grow(start, store, plan)) by {
        assert(level_grows(start, store, plan, 0)) by {
            assert(plan.folders.skip(0) =~= plan.folders);
            assert(plan.child_ids().take(0) =~= Seq::<Oid>::empty());
        }
    }
    lemma_settled_apart(start, store, plan);
    lemma_run_keeps_growing(walk, store, plan, answers);
    lemma_settled_keeps_link(start);
    let end = created_after(walk, answers);
    assert(end.failure is None && end.stack.len() == 0);
}

impl PlanView {
    /// Whether every folder of the plan belongs to `owner` and names the
    /// folder around it as its parent, the outermost folder naming `parent`.
    pub open spec fn placed(self, owner: Oid, parent: Option<Oid>) -> bool
        decreases self,
    {
        &&& self.record.user_id == Some(owner)
        &&& self.record.parent_id == parent
        &&& forall|i: int|
            0 <= i < self.folders.len() ==> (#[trigger] self.folders[i]).placed(owner, self.record.id)
    }
}

/// A plan made from a description places every folder under its owner and
/// its parent.
pub proof fn lemma_plan_is_placed(
    plan: PlanView,
    tree: crate::model::TreeView,
    owner: Oid,
    parent: Option<Oid>,
)
    requires
        plan.follows(tree, owner, parent),
    ensures
        plan.placed(owner, parent),
    decreases plan,
{
    assert forall|i: int| 0 <= i < plan.folders.len() implies (#[trigger] plan.folders[i]).placed(
        owner,
        plan.record.id,
    ) by {
        lemma_plan_is_placed(plan.folders[i], tree.folder_list()[i], owner, plan.record.id);
    }
}

/// The shape that a stored plan has in the store: its folders as planned,
/// each with the files that the store lists in it.
pub open spec fn shape_of(store: StoreState, plan: PlanView) -> Subtree
    decreases plan,
{
    Subtree {
        id: plan.record.id->0,
        files: store.folders[plan.record.id->0].child_files(),
        children: Seq::new(
            plan.folders.len(),
            |i: int|
                if 0 <= i < plan.folders.len() {
                    shape_of(store, plan.folders[i])
                } else {
                    arbitrary()
                },
        ),
    }
}

/// The shape of a stored plan has the folders of the plan.
pub proof fn lemma_shape_has_the_folders(store: StoreState, plan: PlanView, id: Oid)
    requires
        store.grew_from(plan),
    ensures
        shape_of(store, plan).has_folder(id) <==> plan.has_folder(id),
    decreases plan,
{
    let shape = shape_of(store, plan);
    if shape.has_folder(id) && id != shape.id {
        let i = choose|i: int|
            0 <= i < shape.children.len() && (#[trigger] shape.children[i]).has_folder(id);
        lemma_shape_has_the_folders(store, plan.folders[i], id);
    }
    if plan.has_folder(id) && plan.record.id != Some(id) {
        let i = choose|i: int|
            0 <= i < plan.folders.len() && (#[trigger] plan.folders[i]).has_folder(id);
        lemma_shape_has_the_folders(store, plan.folders[i], id);
        assert(shape.children[i].has_folder(id));
    }
}

/// A store that has all of a plan holds its shape as a tree of the owner;
/// and where no identity occurs twice in the plan, none does in the shape.
pub proof fn lemma_stored_plan_is_held(
    store: StoreState,
    plan: PlanView,
    owner: Oid,
    parent: Option<Oid>,
)
    requires
        store.grew_from(plan),
        plan.placed(owner, parent),
    ensures
        store.holds(shape_of(store, plan), owner, parent),
        plan.distinct() ==> shape_of(store, plan).distinct(),
    decreases plan,
{
    let shape = shape_of(store, plan);
    assert(shape.child_ids() =~= plan.child_ids()) by {
        reveal_with_fuel(shape_of, 2);
    }
    assert forall|i: int| 0 <= i < shape.children.len() implies store.holds(
        #[trigger] shape.children[i],
        owner,
        Some(shape.id),
    ) && (plan.distinct() ==> shape.children[i].distinct()) by {
        assert(plan.folders[i].placed(owner, plan.record.id));
        lemma_stored_plan_is_held(store, plan.folders[i], owner, plan.record.id);
    }
    if plan.distinct() {
        assert forall|i: int| 0 <= i < shape.children.len() implies !(
        #[trigger] shape.children[i]).has_folder(shape.id) by {
            lemma_shape_has_the_folders(store, plan.folders[i], shape.id);
            assert(!plan.folders[i].has_folder(plan.record.id->0));
        }
        assert forall|i: int, j: int, id: Oid|
            #![trigger shape.children[i].has_folder(id), shape.children[j].has_folder(id)]
            0 <= i < j < shape.children.len() implies !(shape.children[i].has_folder(id)
            && shape.children[j].has_folder(id)) by {
            lemma_shape_has_the_folders(store, plan.folders[i], id);
            lemma_shape_has_the_folders(store, plan.folders[j], id);
            assert(apart(plan.folders[i], plan.folders[j]));
        }
    }
}

/// What was created can be removed whole.
///
/// Take the plan made from a description for `owner`, a walk that has
/// stored it, as in `lemma_create_stores_the_plan`, and then a walk that is
/// asked to remove the outermost folder of the plan from the store as the
/// first walk left it. If the second walk says that it is done, the store
/// holds none of the plan's folders any more, none of the files stored with
/// them as a file of the owner, and the folder that the tree hung under does
/// not list it.
pub proof fn lemma_created_tree_is_removed_whole(
    store: StoreState,
    tree: crate::model::TreeView,
    plan: PlanView,
    owner: Oid,
    link: Option<Oid>,
    stored: Seq<(ReplyView, StoreState)>,
    removed: Seq<(ReplyView, StoreState)>,
)
    requires
        store.wf(),
        plan.follows(tree, owner, link),
        link matches Some(p) ==> !plan.has_folder(p),
        is_create_run(WalkView::starting(plan, owner, link).settled(), store, stored),
        created_after(WalkView::starting(plan, owner, link).settled(), stored).wants() is Done,
        is_run(
            DeleteView::starting(owner, seq![plan.record.id->0]),
            grown_after(store, stored),
            removed,
        ),
        walk_after(DeleteView::starting(owner, seq![plan.record.id->0]), removed).wants() is Done,
    ensures
        forall|id: Oid|
            plan.has_folder(id) ==> !store_after(
                grown_after(store, stored),
                removed,
            ).folders.dom().contains(id),
        store_after(grown_after(store, stored), removed).lacks(
            shape_of(grown_after(store, stored), plan),
            owner,
        ),
        store_after(grown_after(store, stored), removed).unlisted(owner, link, plan.record.id->0),
{
    let grown = grown_after(store, stored);
    let shape = shape_of(grown, plan);
    lemma_plan_is_blank(plan, tree, owner, link);
    lemma_plan_is_placed(plan, tree, owner, link);
    lemma_create_stores_the_plan(store, plan, owner, link, stored);
    lemma_stored_plan_is_held(grown, plan, owner, link);
    if link is Some {
        lemma_shape_has_the_folders(grown, plan, link->0);
    }
    lemma_cascade_removes_the_tree(grown, shape, owner, link, removed);
    assert forall|id: Oid| plan.has_folder(id) implies !store_after(
        grown,
        removed,
    ).folders.dom().contains(id) by {
        lemma_shape_has_the_folders(grown, plan, id);
    }
}

} // verus!
